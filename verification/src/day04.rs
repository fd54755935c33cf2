//! Scratchcards: each card lists winning numbers and drawn numbers.  The
//! number of matches scores points in one mode and wins copies of the
//! following cards in the other.

use crate::numfmt::dec_chars;
use crate::parsers::{dec_val, digit_run_len, parse_number_at};
use crate::day05::space_run_len;
use vstd::prelude::*;

verus! {

/// One card: its number, its winning numbers and its drawn numbers.  The
/// two lists are read as sets: repeated values count once.
pub struct Card {
    pub number: usize,
    pub winning_numbers: Vec<usize>,
    pub numbers: Vec<usize>,
}

/// How many distinct winning numbers were drawn.
pub open spec fn spec_matches(winning: Seq<usize>, numbers: Seq<usize>) -> int {
    winning.to_set().intersect(numbers.to_set()).len() as int
}

/// Two to the power `e`.
pub open spec fn pow2(e: int) -> int
    decreases e,
{
    if e <= 0 {
        1
    } else {
        2 * pow2(e - 1)
    }
}

pub proof fn lemma_pow2_monotone(a: int, b: int)
    requires
        a <= b,
    ensures
        1 <= pow2(a) <= pow2(b),
    decreases b - a,
{
    if a < b {
        lemma_pow2_monotone(a, b - 1);
    } else if a == b {
        lemma_pow2_monotone_base(a);
    }
}

pub proof fn lemma_pow2_monotone_base(a: int)
    ensures
        1 <= pow2(a),
    decreases a,
{
    if a > 0 {
        lemma_pow2_monotone_base(a - 1);
    }
}

/// A card's score: zero with no matches, else two to the matches less one.
pub open spec fn spec_points(winning: Seq<usize>, numbers: Seq<usize>) -> int {
    let m = spec_matches(winning, numbers);
    if m == 0 {
        0
    } else {
        pow2(m - 1)
    }
}

/// Whether `v` occurs in the first `upto` elements.
fn contains_upto(vals: &Vec<usize>, upto: usize, v: usize) -> (b: bool)
    requires
        upto <= vals@.len(),
    ensures
        b == vals@.take(upto as int).contains(v),
{
    let mut i: usize = 0;
    while i < upto
        invariant
            i <= upto <= vals@.len(),
            forall|k: int| 0 <= k < i ==> vals@[k] != v,
        decreases upto - i,
    {
        if vals[i] == v {
            proof {
                assert(vals@.take(upto as int)[i as int] == v);
            }
            return true;
        }
        i = i + 1;
    }
    proof {
        assert forall|k: int| 0 <= k < upto implies vals@.take(upto as int)[k] != v by {
            assert(vals@.take(upto as int)[k] == vals@[k]);
        }
    }
    false
}

impl Card {
    /// How many distinct winning numbers were drawn.
    #[verifier::loop_isolation(false)]
    pub fn num_matches(&self) -> (n: usize)
        ensures
            n == spec_matches(self.winning_numbers@, self.numbers@),
    {
        let ghost wseq = self.winning_numbers@;
        let ghost nset = self.numbers@.to_set();
        let mut count: usize = 0;
        let ghost mut counted = Set::<usize>::empty();
        proof {
            assert(wseq.take(0).to_set() =~= Set::<usize>::empty());
            assert(counted =~= wseq.take(0).to_set().intersect(nset));
        }
        let mut i: usize = 0;
        while i < self.winning_numbers.len()
            invariant
                i <= wseq.len(),
                counted =~= wseq.take(i as int).to_set().intersect(nset),
                counted.finite(),
                count == counted.len(),
                count <= i,
            decreases wseq.len() - i,
        {
            let v = self.winning_numbers[i];
            let in_numbers = contains_upto(&self.numbers, self.numbers.len(), v);
            let seen = contains_upto(&self.winning_numbers, i, v);
            proof {
                assert(self.numbers@.take(self.numbers@.len() as int) =~= self.numbers@);
                assert(wseq.take(i as int + 1) =~= wseq.take(i as int) + seq![v]);
                Seq::lemma_to_set_insert_commutes(wseq.take(i as int), v);
                assert(wseq.take(i as int + 1).to_set() =~= wseq.take(i as int).to_set().insert(
                    v,
                ));
                if in_numbers && !seen {
                    assert(nset.contains(v));
                    assert(!wseq.take(i as int).to_set().contains(v));
                    assert(!counted.contains(v));
                    assert(wseq.take(i as int + 1).to_set().intersect(nset) =~= counted.insert(
                        v,
                    ));
                } else {
                    if !in_numbers {
                        assert(!nset.contains(v));
                        assert(wseq.take(i as int + 1).to_set().intersect(nset) =~= counted);
                    } else {
                        assert(wseq.take(i as int).to_set().contains(v));
                        assert(counted.contains(v));
                        assert(wseq.take(i as int + 1).to_set().intersect(nset) =~= counted);
                    }
                }
            }
            if in_numbers && !seen {
                count = count + 1;
                proof {
                    counted = counted.insert(v);
                }
            }
            i = i + 1;
        }
        proof {
            assert(wseq.take(wseq.len() as int) =~= wseq);
        }
        count
    }

    /// The card's score.
    pub fn points(&self) -> (p: usize)
        requires
            spec_points(self.winning_numbers@, self.numbers@) <= usize::MAX,
        ensures
            p == spec_points(self.winning_numbers@, self.numbers@),
    {
        let count = self.num_matches();
        if count == 0 {
            return 0;
        }
        let mut p: usize = 1;
        let mut e: usize = 0;
        while e < count - 1
            invariant
                e <= count - 1,
                count >= 1,
                p == pow2(e as int),
                count == spec_matches(self.winning_numbers@, self.numbers@),
                pow2(count as int - 1) <= usize::MAX,
            decreases count - e,
        {
            proof {
                lemma_pow2_monotone(e as int + 1, count as int - 1);
            }
            p = 2 * p;
            e = e + 1;
        }
        p
    }
}

/// A list of numbers separated by runs of spaces or tabs, read greedily:
/// it continues only while a separator and another digit follow.
pub open spec fn spec_num_list(s: Seq<char>, i: int) -> Option<(Seq<usize>, int)>
    decreases s.len() - i,
{
    let n = digit_run_len(s, i);
    if n <= 0 || dec_val(s.subrange(i, i + n)) > usize::MAX {
        None
    } else {
        let v = dec_val(s.subrange(i, i + n)) as usize;
        let p = i + n;
        let w = space_run_len(s, p);
        if w >= 1 && digit_run_len(s, p + w) > 0 {
            match spec_num_list(s, p + w) {
                None => None,
                Some((rest, q)) => Some((seq![v] + rest, q)),
            }
        } else {
            Some((seq![v], p))
        }
    }
}

/// Reads a space-separated list of numbers at position `i`.
fn num_list_at(s: &str, i: usize, len: usize) -> (r: Option<(Vec<usize>, usize)>)
    requires
        len == s@.len(),
        i <= s@.len(),
    ensures
        match r {
            Some((ns, q)) => spec_num_list(s@, i as int) == Some((ns@, q as int)) && i < q
                <= s@.len(),
            None => spec_num_list(s@, i as int) is None,
        },
    decreases s@.len() - i,
{
    let num = parse_number_at(s, i);
    let (v, p) = match num {
        None => {
            return None;
        },
        Some(t) => t,
    };
    let p2 = crate::day05::skip_spaces(s, p);
    if p2 > p && p2 < len && digit_at(s, p2) {
        match num_list_at(s, p2, len) {
            None => None,
            Some((rest, q)) => {
                let mut out: Vec<usize> = Vec::new();
                out.push(v);
                let mut rr = rest;
                out.append(&mut rr);
                proof {
                    assert(out@ =~= seq![v] + spec_num_list(s@, p2 as int)->Some_0.0);
                }
                Some((out, q))
            },
        }
    } else {
        proof {
            if p2 > p {
                crate::parsers::lemma_digit_run_len_bounds(s@, p2 as int);
            }
        }
        let mut out: Vec<usize> = Vec::new();
        out.push(v);
        proof {
            assert(out@ =~= seq![v]);
        }
        Some((out, p))
    }
}

/// Whether a digit run begins at `p`.
fn digit_at(s: &str, p: usize) -> (b: bool)
    requires
        p < s@.len(),
    ensures
        b == (digit_run_len(s@, p as int) > 0),
{
    let c = s.get_char(p);
    let b = (c as u32) >= 48 && (c as u32) <= 57;
    proof {
        crate::parsers::lemma_digit_run_len_bounds(s@, p as int + 1);
    }
    b
}

pub open spec fn card_prefix() -> Seq<char> {
    seq!['C', 'a', 'r', 'd']
}

/// A whole card line: `Card <n>: <winning numbers> | <numbers>`.
pub open spec fn spec_parse_card(s: Seq<char>) -> Option<(usize, Seq<usize>, Seq<usize>)> {
    if !(s.len() >= 4 && s.subrange(0, 4) == card_prefix()) {
        None
    } else {
        let w0 = space_run_len(s, 4);
        if w0 == 0 {
            None
        } else {
            let n = digit_run_len(s, 4 + w0);
            if n <= 0 || dec_val(s.subrange(4 + w0, 4 + w0 + n)) > usize::MAX {
                None
            } else {
                let no = dec_val(s.subrange(4 + w0, 4 + w0 + n)) as usize;
                let p = 4 + w0 + n;
                if !(p < s.len() && s[p] == ':') {
                    None
                } else {
                    let w1 = space_run_len(s, p + 1);
                    if w1 == 0 {
                        None
                    } else {
                        match spec_num_list(s, p + 1 + w1) {
                            None => None,
                            Some((ws, p2)) => if !(p2 + 1 < s.len() && s[p2] == ' ' && s[p2 + 1]
                                == '|') {
                                None
                            } else {
                                let w2 = space_run_len(s, p2 + 2);
                                if w2 == 0 {
                                    None
                                } else {
                                    match spec_num_list(s, p2 + 2 + w2) {
                                        None => None,
                                        Some((ns, _q)) => Some((no, ws, ns)),
                                    }
                                }
                            },
                        }
                    }
                }
            }
        }
    }
}

/// Parses one card line.
pub fn parse_card(line: &str) -> (r: Option<Card>)
    ensures
        match r {
            Some(c) => spec_parse_card(line@) == Some(
                (c.number, c.winning_numbers@, c.numbers@),
            ),
            None => spec_parse_card(line@) is None,
        },
{
    let len = line.unicode_len();
    if !(len >= 4 && line.get_char(0) == 'C' && line.get_char(1) == 'a' && line.get_char(2) == 'r'
        && line.get_char(3) == 'd') {
        proof {
            if line@.len() >= 4 && line@.subrange(0, 4) == card_prefix() {
                assert(line@.subrange(0, 4)[0] == line@[0]);
                assert(line@.subrange(0, 4)[1] == line@[1]);
                assert(line@.subrange(0, 4)[2] == line@[2]);
                assert(line@.subrange(0, 4)[3] == line@[3]);
            }
        }
        return None;
    }
    proof {
        assert(line@.subrange(0, 4) =~= card_prefix());
    }
    let p0 = crate::day05::skip_spaces(line, 4);
    if p0 == 4 {
        return None;
    }
    let num = parse_number_at(line, p0);
    let (no, p) = match num {
        None => {
            return None;
        },
        Some(t) => t,
    };
    if !(p < len && line.get_char(p) == ':') {
        return None;
    }
    let p1 = crate::day05::skip_spaces(line, p + 1);
    if p1 == p + 1 {
        return None;
    }
    let wl = num_list_at(line, p1, len);
    let (winning, p2) = match wl {
        None => {
            return None;
        },
        Some(t) => t,
    };
    if !(len - p2 >= 2 && line.get_char(p2) == ' ' && line.get_char(p2 + 1) == '|') {
        return None;
    }
    let p3 = crate::day05::skip_spaces(line, p2 + 2);
    if p3 == p2 + 2 {
        return None;
    }
    let nl = num_list_at(line, p3, len);
    let (numbers, _q) = match nl {
        None => {
            return None;
        },
        Some(t) => t,
    };
    Some(Card { number: no, winning_numbers: winning, numbers })
}

/// Sum of the cards' scores.
pub open spec fn part1_sum_cards(ls: Seq<Seq<char>>) -> int
    decreases ls.len(),
{
    if ls.len() == 0 {
        0
    } else {
        let c = spec_parse_card(ls[0])->Some_0;
        spec_points(c.1, c.2) + part1_sum_cards(ls.skip(1))
    }
}

pub open spec fn day4_input_ok(ls: Seq<Seq<char>>) -> bool {
    forall|k: int| 0 <= k < ls.len() ==> spec_parse_card(#[trigger] ls[k]) is Some
}

/// Every card scores within the machine's range.
pub open spec fn day4_points_ok(ls: Seq<Seq<char>>) -> bool {
    forall|k: int|
        0 <= k < ls.len() ==> {
            let c = spec_parse_card(#[trigger] ls[k])->Some_0;
            spec_points(c.1, c.2) <= usize::MAX
        }
}

pub proof fn lemma_part1_sum_cards_nonneg(ls: Seq<Seq<char>>)
    ensures
        part1_sum_cards(ls) >= 0,
    decreases ls.len(),
{
    if ls.len() > 0 {
        lemma_part1_sum_cards_nonneg(ls.skip(1));
        let c = spec_parse_card(ls[0])->Some_0;
        if spec_matches(c.1, c.2) != 0 {
            lemma_pow2_monotone_base(spec_matches(c.1, c.2) - 1);
        }
    }
}

/// The table after adding `by` copies of each card index in `[from, to)`.
pub open spec fn bump(counts: Seq<int>, from: int, to: int, by: int) -> Seq<int>
    decreases to - from,
{
    if from >= to || !(0 <= from < counts.len()) {
        counts
    } else {
        bump(counts.update(from, counts[from] + by), from + 1, to, by)
    }
}

pub proof fn lemma_bump_index(counts: Seq<int>, from: int, to: int, by: int)
    requires
        0 <= from,
        to <= counts.len(),
    ensures
        bump(counts, from, to, by).len() == counts.len(),
        forall|k: int|
            0 <= k < counts.len() ==> #[trigger] bump(counts, from, to, by)[k] == counts[k] + (
            if from <= k < to {
                by
            } else {
                0
            }),
    decreases to - from,
{
    if from < to {
        lemma_bump_index(counts.update(from, counts[from] + by), from + 1, to, by);
    }
}

/// Adding non-negative copies never shrinks an entry.
pub proof fn lemma_bump_ge(counts: Seq<int>, from: int, to: int, by: int)
    requires
        by >= 0,
    ensures
        bump(counts, from, to, by).len() == counts.len(),
        forall|k: int|
            0 <= k < counts.len() ==> #[trigger] bump(counts, from, to, by)[k] >= counts[k],
    decreases to - from,
{
    if from < to && 0 <= from < counts.len() {
        lemma_bump_ge(counts.update(from, counts[from] + by), from + 1, to, by);
    }
}

/// The card-copy counts after the first `i` cards have been processed:
/// everything starts at one copy, and each card adds its own count of
/// copies to the next cards, one per match.
pub open spec fn tables(ls: Seq<Seq<char>>, i: int) -> Seq<int>
    decreases i,
{
    if i <= 0 {
        Seq::new(ls.len(), |k: int| 1)
    } else {
        let t = tables(ls, i - 1);
        let c = spec_parse_card(ls[i - 1])->Some_0;
        bump(t, c.0 as int, c.0 + spec_matches(c.1, c.2), t[i - 1])
    }
}

pub proof fn lemma_tables_nonneg(ls: Seq<Seq<char>>, i: int)
    requires
        0 <= i <= ls.len(),
    ensures
        tables(ls, i).len() == ls.len(),
        forall|k: int| 0 <= k < ls.len() ==> #[trigger] tables(ls, i)[k] >= 1,
    decreases i,
{
    if i > 0 {
        lemma_tables_nonneg(ls, i - 1);
        let t = tables(ls, i - 1);
        let c = spec_parse_card(ls[i - 1])->Some_0;
        assert(t[i - 1] >= 1);
        lemma_bump_ge(t, c.0 as int, c.0 + spec_matches(c.1, c.2), t[i - 1]);
    }
}

pub open spec fn sum_table(t: Seq<int>) -> int
    decreases t.len(),
{
    if t.len() == 0 {
        0
    } else {
        t[0] + sum_table(t.skip(1))
    }
}

/// A partial sum of a table of positive entries stays below the total.
pub proof fn lemma_sum_table_split(t: Seq<int>, i: int)
    requires
        0 <= i <= t.len(),
    ensures
        sum_table(t) == sum_table(t.take(i)) + sum_table(t.skip(i)),
    decreases i,
{
    if i == 0 {
        assert(t.take(0).len() == 0);
        assert(t.skip(0) =~= t);
    } else {
        lemma_sum_table_split(t, i - 1);
        let a = t.take(i);
        assert(a.skip(1) =~= t.subrange(1, i));
        assert(t.take(i - 1).skip(0) =~= t.take(i - 1));
        lemma_sum_take_step(t, i);
        assert(t.skip(i - 1)[0] == t[i - 1]);
        assert(t.skip(i - 1).skip(1) =~= t.skip(i));
    }
}

pub proof fn lemma_sum_take_step(t: Seq<int>, i: int)
    requires
        1 <= i <= t.len(),
    ensures
        sum_table(t.take(i)) == sum_table(t.take(i - 1)) + t[i - 1],
    decreases i,
{
    if i == 1 {
        assert(t.take(1).skip(1).len() == 0);
        assert(t.take(1)[0] == t[0]);
        assert(t.take(0).len() == 0);
        assert(sum_table(t.take(1)) == t.take(1)[0] + sum_table(t.take(1).skip(1)));
        assert(sum_table(t.take(1).skip(1)) == 0);
        assert(sum_table(t.take(0)) == 0);
    } else {
        assert(t.take(i).skip(1) =~= t.skip(1).take(i - 1));
        assert(t.take(i - 1).skip(1) =~= t.skip(1).take(i - 2));
        lemma_sum_take_step(t.skip(1), i - 1);
        assert(t.take(i)[0] == t[0] && t.take(i - 1)[0] == t[0]);
        assert(t.skip(1)[i - 2] == t[i - 1]);
        assert(t.take(i).len() > 0 && t.take(i - 1).len() > 0);
        assert(sum_table(t.take(i)) == t.take(i)[0] + sum_table(t.take(i).skip(1)));
        assert(sum_table(t.take(i - 1)) == t.take(i - 1)[0] + sum_table(t.take(i - 1).skip(1)));
        assert(sum_table(t.skip(1).take(i - 1)) == sum_table(t.skip(1).take(i - 2)) + t.skip(
            1,
        )[i - 2]);
    }
}

pub open spec fn day4_table_ok(ls: Seq<Seq<char>>) -> bool {
    &&& forall|i: int|
        0 <= i < ls.len() ==> {
            let c = spec_parse_card(#[trigger] ls[i])->Some_0;
            spec_matches(c.1, c.2) > 0 ==> c.0 + spec_matches(c.1, c.2) <= ls.len()
        }
    &&& forall|i: int, k: int|
        0 <= i <= ls.len() && 0 <= k < ls.len() ==> #[trigger] tables(ls, i)[k] <= isize::MAX
    &&& sum_table(tables(ls, ls.len() as int)) <= isize::MAX
}

/// The solver for the scratchcards.
pub struct Day4Solver {}

impl Day4Solver {
    /// Sum of the cards' scores: two to the power of one less than each
    /// card's match count, zero for no matches.
    #[verifier::loop_isolation(false)]
    pub fn solve_part_1(&self, lines: Vec<String>) -> (r: String)
        requires
            day4_input_ok(crate::day05::lines_views(lines@)),
            day4_points_ok(crate::day05::lines_views(lines@)),
            part1_sum_cards(crate::day05::lines_views(lines@)) <= usize::MAX,
        ensures
            r@ == dec_chars(part1_sum_cards(crate::day05::lines_views(lines@))),
    {
        let ghost ls = crate::day05::lines_views(lines@);
        proof {
            assert(ls.skip(0) =~= ls);
        }
        let mut sum: usize = 0;
        let mut i: usize = 0;
        while i < lines.len()
            invariant
                i <= lines@.len(),
                sum + part1_sum_cards(ls.skip(i as int)) == part1_sum_cards(ls),
            decreases lines@.len() - i,
        {
            let ghost s = ls[i as int];
            proof {
                assert(s == lines@[i as int]@);
                assert(ls.skip(i as int)[0] == s);
                assert(ls.skip(i as int).skip(1) =~= ls.skip(i as int + 1));
                lemma_part1_sum_cards_nonneg(ls.skip(i as int + 1));
                let c = spec_parse_card(s)->Some_0;
                if spec_matches(c.1, c.2) != 0 {
                    lemma_pow2_monotone_base(spec_matches(c.1, c.2) - 1);
                }
            }
            let card = parse_card(lines[i].as_str()).unwrap();
            let points = card.points();
            sum = sum + points;
            i = i + 1;
        }
        proof {
            assert(ls.skip(ls.len() as int).len() == 0);
        }
        crate::numfmt::usize_to_string(sum)
    }

    /// Total number of cards after each card wins copies of the following
    /// ones, one per match, multiplied by its own number of copies.
    #[verifier::loop_isolation(false)]
    pub fn solve_part_2(&self, lines: Vec<String>) -> (r: String)
        requires
            day4_input_ok(crate::day05::lines_views(lines@)),
            day4_table_ok(crate::day05::lines_views(lines@)),
        ensures
            r@ == dec_chars(
                sum_table(
                    tables(
                        crate::day05::lines_views(lines@),
                        crate::day05::lines_views(lines@).len() as int,
                    ),
                ),
            ),
    {
        let ghost ls = crate::day05::lines_views(lines@);
        let n = lines.len();
        let mut table: Vec<isize> = Vec::new();
        let mut k: usize = 0;
        while k < n
            invariant
                k <= n,
                table@.len() == k,
                forall|j: int| 0 <= j < k ==> #[trigger] table@[j] == 1,
            decreases n - k,
        {
            table.push(1);
            k = k + 1;
        }
        proof {
            assert forall|j: int| 0 <= j < ls.len() implies #[trigger] table@[j] as int == tables(
                ls,
                0,
            )[j] by {}
        }
        let mut i: usize = 0;
        while i < n
            invariant
                i <= n,
                table@.len() == ls.len(),
                forall|j: int|
                    0 <= j < ls.len() ==> #[trigger] table@[j] as int == tables(ls, i as int)[j],
            decreases n - i,
        {
            let ghost s = ls[i as int];
            let ghost t_pre = tables(ls, i as int);
            proof {
                assert(s == lines@[i as int]@);
                lemma_tables_nonneg(ls, i as int);
                lemma_tables_nonneg(ls, i as int + 1);
            }
            let card = parse_card(lines[i].as_str()).unwrap();
            let m = card.num_matches();
            let copies = table[i];
            let ghost c = spec_parse_card(s)->Some_0;
            proof {
                if m > 0 {
                    lemma_bump_index(t_pre, c.0 as int, c.0 + m, copies as int);
                }
            }
            let mut j: usize = 0;
            while j < m
                invariant
                    j <= m,
                    m > 0 ==> card.number + m <= ls.len(),
                    table@.len() == ls.len(),
                    copies as int == t_pre[i as int],
                    forall|jj: int|
                        0 <= jj < ls.len() ==> #[trigger] table@[jj] as int == t_pre[jj] + (
                        if card.number <= jj < card.number + j {
                            copies as int
                        } else {
                            0
                        }),
                decreases m - j,
            {
                let idx = card.number + j;
                let cur = table[idx];
                proof {
                    assert(tables(ls, i as int + 1)[idx as int] == t_pre[idx as int]
                        + copies as int);
                }
                table.set(idx, cur + copies);
                j = j + 1;
            }
            proof {
                assert forall|jj: int| 0 <= jj < ls.len() implies #[trigger] table@[jj] as int
                    == tables(ls, i as int + 1)[jj] by {}
            }
            i = i + 1;
        }
        let ghost t_fin = tables(ls, ls.len() as int);
        proof {
            lemma_tables_nonneg(ls, ls.len() as int);
            lemma_sum_table_split(t_fin, 0);
        }
        let mut sum: isize = 0;
        let mut k2: usize = 0;
        while k2 < n
            invariant
                k2 <= n,
                sum as int == sum_table(t_fin.take(k2 as int)),
            decreases n - k2,
        {
            proof {
                lemma_sum_take_step(t_fin, k2 as int + 1);
                lemma_sum_table_split(t_fin, k2 as int + 1);
                lemma_sum_nonneg_suffix(t_fin, k2 as int + 1);
            }
            sum = sum + table[k2];
            k2 = k2 + 1;
        }
        proof {
            assert(t_fin.take(ls.len() as int) =~= t_fin);
            lemma_sum_table_split(t_fin, 0);
            lemma_sum_nonneg_suffix(t_fin, 0);
            assert(sum >= 0);
        }
        crate::numfmt::usize_to_string(sum as usize)
    }
}

/// Suffix sums of a table of positive entries are non-negative.
pub proof fn lemma_sum_nonneg_suffix(t: Seq<int>, i: int)
    requires
        0 <= i <= t.len(),
        forall|k: int| 0 <= k < t.len() ==> #[trigger] t[k] >= 1,
    ensures
        sum_table(t.skip(i)) >= 0,
    decreases t.len() - i,
{
    if i < t.len() {
        lemma_sum_nonneg_suffix(t, i + 1);
        assert(t.skip(i)[0] == t[i]);
        assert(t.skip(i).skip(1) =~= t.skip(i + 1));
    } else {
        assert(t.skip(i).len() == 0);
    }
}

} // verus!
