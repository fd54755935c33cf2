//! Calibration sums: each line's value is ten times its first digit plus
//! its last digit; a second mode also reads spelled-out digit names.

use crate::numfmt::dec_chars;
use crate::parsers::{digit_val, is_digit_char};
use vstd::prelude::*;

verus! {

/// Index of the first digit character at or after `i`, or the length when
/// there is none.
pub open spec fn first_digit(s: Seq<char>, i: int) -> int
    decreases s.len() - i,
{
    if !(0 <= i < s.len()) {
        s.len() as int
    } else if is_digit_char(s[i]) {
        i
    } else {
        first_digit(s, i + 1)
    }
}

/// Index of the last digit character at or before `i`, or `-1` when there
/// is none.
pub open spec fn last_digit(s: Seq<char>, i: int) -> int
    decreases i + 1,
{
    if !(0 <= i < s.len()) {
        -1
    } else if is_digit_char(s[i]) {
        i
    } else {
        last_digit(s, i - 1)
    }
}

pub open spec fn has_digit(s: Seq<char>) -> bool {
    first_digit(s, 0) < s.len()
}

/// A line's calibration value: ten times its first digit plus its last.
pub open spec fn line1_value(s: Seq<char>) -> int {
    10 * digit_val(s[first_digit(s, 0)]) + digit_val(s[last_digit(s, s.len() - 1)])
}

pub open spec fn part1_sum(lines: Seq<Seq<char>>) -> int
    decreases lines.len(),
{
    if lines.len() == 0 {
        0
    } else {
        line1_value(lines[0]) + part1_sum(lines.skip(1))
    }
}

pub proof fn lemma_first_digit_props(s: Seq<char>, i: int)
    requires
        0 <= i <= s.len(),
    ensures
        i <= first_digit(s, i) <= s.len(),
        first_digit(s, i) < s.len() ==> is_digit_char(s[first_digit(s, i)]),
        forall|t: int| i <= t < first_digit(s, i) ==> !is_digit_char(#[trigger] s[t]),
    decreases s.len() - i,
{
    if i < s.len() && !is_digit_char(s[i]) {
        lemma_first_digit_props(s, i + 1);
    }
}

pub proof fn lemma_last_digit_props(s: Seq<char>, i: int)
    requires
        -1 <= i < s.len(),
    ensures
        -1 <= last_digit(s, i) <= i,
        last_digit(s, i) >= 0 ==> is_digit_char(s[last_digit(s, i)]),
        forall|t: int| last_digit(s, i) < t <= i ==> !is_digit_char(#[trigger] s[t]),
    decreases i + 1,
{
    if i >= 0 && !is_digit_char(s[i]) {
        lemma_last_digit_props(s, i - 1);
    }
}

/// Every line value is a non-negative two-digit number.
pub proof fn lemma_part1_sum_nonneg(lines: Seq<Seq<char>>)
    requires
        forall|k: int| 0 <= k < lines.len() ==> has_digit(#[trigger] lines[k]),
    ensures
        part1_sum(lines) >= 0,
    decreases lines.len(),
{
    if lines.len() > 0 {
        let s = lines[0];
        lemma_first_digit_props(s, 0);
        lemma_last_digit_props(s, s.len() - 1);
        assert(last_digit(s, s.len() - 1) >= 0) by {
            if last_digit(s, s.len() - 1) < 0 {
                assert(!is_digit_char(s[first_digit(s, 0)]));
            }
        }
        assert forall|k: int| 0 <= k < lines.skip(1).len() implies has_digit(
            #[trigger] lines.skip(1)[k],
        ) by {
            assert(lines.skip(1)[k] == lines[k + 1]);
        }
        lemma_part1_sum_nonneg(lines.skip(1));
    }
}

/// The spelled-out digit names and their values, as they may begin at
/// position `i`.
pub open spec fn word_val(s: Seq<char>, i: int) -> Option<u8> {
    if is_prefix_at(s, i, seq!['o', 'n', 'e']) {
        Some(1u8)
    } else if is_prefix_at(s, i, seq!['t', 'w', 'o']) {
        Some(2u8)
    } else if is_prefix_at(s, i, seq!['t', 'h', 'r', 'e', 'e']) {
        Some(3u8)
    } else if is_prefix_at(s, i, seq!['f', 'o', 'u', 'r']) {
        Some(4u8)
    } else if is_prefix_at(s, i, seq!['f', 'i', 'v', 'e']) {
        Some(5u8)
    } else if is_prefix_at(s, i, seq!['s', 'i', 'x']) {
        Some(6u8)
    } else if is_prefix_at(s, i, seq!['s', 'e', 'v', 'e', 'n']) {
        Some(7u8)
    } else if is_prefix_at(s, i, seq!['e', 'i', 'g', 'h', 't']) {
        Some(8u8)
    } else if is_prefix_at(s, i, seq!['n', 'i', 'n', 'e']) {
        Some(9u8)
    } else {
        None
    }
}

pub open spec fn is_prefix_at(s: Seq<char>, i: int, w: Seq<char>) -> bool {
    0 <= i && i + w.len() <= s.len() && s.subrange(i, i + w.len()) == w
}

/// The token readable at position `i`: a digit character, or a digit name
/// beginning there.
pub open spec fn token_at(s: Seq<char>, i: int) -> Option<u8> {
    if is_digit_char(s[i]) {
        Some((s[i] as int - 48) as u8)
    } else {
        word_val(s, i)
    }
}

/// The tokens of a line from position `i` on, in reading order.  A name's
/// letters may still begin another token, so scanning advances one
/// position at a time.
pub open spec fn tokens_from(s: Seq<char>, i: int) -> Seq<u8>
    decreases s.len() - i,
{
    if !(0 <= i < s.len()) {
        Seq::<u8>::empty()
    } else {
        match token_at(s, i) {
            Some(d) => seq![d] + tokens_from(s, i + 1),
            None => tokens_from(s, i + 1),
        }
    }
}

/// A line's value in the second mode: ten times its first token plus its
/// last token.
pub open spec fn line2_value(s: Seq<char>) -> int {
    let ts = tokens_from(s, 0);
    10 * ts[0] + ts[ts.len() - 1]
}

pub open spec fn part2_sum(lines: Seq<Seq<char>>) -> int
    decreases lines.len(),
{
    if lines.len() == 0 {
        0
    } else {
        line2_value(lines[0]) + part2_sum(lines.skip(1))
    }
}

pub proof fn lemma_tokens_bounded(s: Seq<char>, i: int)
    ensures
        forall|k: int|
            0 <= k < tokens_from(s, i).len() ==> #[trigger] tokens_from(s, i)[k] <= 9,
    decreases s.len() - i,
{
    if 0 <= i < s.len() {
        lemma_tokens_bounded(s, i + 1);
        if token_at(s, i) is Some {
            assert forall|k: int| 0 <= k < tokens_from(s, i).len() implies #[trigger] tokens_from(
                s,
                i,
            )[k] <= 9 by {
                if k > 0 {
                    assert(tokens_from(s, i)[k] == tokens_from(s, i + 1)[k - 1]);
                }
            }
        }
    }
}

pub proof fn lemma_part2_sum_nonneg(lines: Seq<Seq<char>>)
    ensures
        part2_sum(lines) >= 0,
    decreases lines.len(),
{
    if lines.len() > 0 {
        let s = lines[0];
        let ts = tokens_from(s, 0);
        lemma_tokens_bounded(s, 0);
        lemma_part2_sum_nonneg(lines.skip(1));
        assert(line2_value(s) >= 0) by {
            if ts.len() > 0 {
                assert(ts[0] >= 0 && ts[ts.len() - 1] >= 0);
            }
        }
    }
}

/// Walks a line one position at a time, reading a digit or a digit name
/// at each position.
pub struct NumberParser<'a> {
    pub input: &'a str,
    pub index: usize,
}

impl<'a> NumberParser<'a> {
    pub open spec fn wf(self) -> bool {
        &&& vstd::string::is_ascii(self.input)
        &&& self.index <= self.input@.len()
    }

    pub fn new(input: &str) -> (r: NumberParser)
        requires
            input.is_ascii(),
        ensures
            r.input@ == input@,
            r.index == 0,
            r.wf(),
    {
        NumberParser { input, index: 0 }
    }

    pub fn has_next(&self) -> (b: bool)
        ensures
            b == (self.index < self.input@.len()),
    {
        self.index < self.input.unicode_len()
    }

    /// Reads the token at the current position and moves one position
    /// forward.
    pub fn parse_at_current(&mut self) -> (r: Option<u8>)
        requires
            old(self).wf(),
        ensures
            final(self).input == old(self).input,
            final(self).wf(),
            old(self).index >= old(self).input@.len() ==> r is None && final(self).index == old(
                self,
            ).index,
            old(self).index < old(self).input@.len() ==> final(self).index == old(self).index + 1
                && r == token_at(old(self).input@, old(self).index as int),
    {
        let n = self.input.unicode_len();
        if self.index >= n {
            return None;
        }
        let s = self.input;
        let i = self.index;
        self.index = i + 1;
        let c = s.get_char(i);
        if (c as u32) >= 48 && (c as u32) <= 57 {
            return Some((c as u32 - 48) as u8);
        }
        let r = word_at(s, i);
        proof {
            assert(r == word_val(s@, i as int));
        }
        r
    }
}

/// Checks whether one of the nine digit names begins at position `i`.
fn word_at(s: &str, i: usize) -> (r: Option<u8>)
    requires
        i < s@.len(),
    ensures
        r == word_val(s@, i as int),
{
    let len = s.unicode_len();
    if len - i >= 3 && s.get_char(i) == 'o' && s.get_char(i + 1) == 'n' && s.get_char(i + 2)
        == 'e' {
        proof {
            assert(s@.subrange(i as int, i as int + 3) =~= seq!['o', 'n', 'e']);
        }
        return Some(1);
    }
    if len - i >= 3 && s.get_char(i) == 't' && s.get_char(i + 1) == 'w' && s.get_char(i + 2)
        == 'o' {
        proof {
            assert(s@.subrange(i as int, i as int + 3) =~= seq!['t', 'w', 'o']);
        }
        return Some(2);
    }
    if len - i >= 5 && s.get_char(i) == 't' && s.get_char(i + 1) == 'h' && s.get_char(i + 2) == 'r'
        && s.get_char(i + 3) == 'e' && s.get_char(i + 4) == 'e' {
        proof {
            assert(s@.subrange(i as int, i as int + 5) =~= seq!['t', 'h', 'r', 'e', 'e']);
        }
        return Some(3);
    }
    if len - i >= 4 && s.get_char(i) == 'f' && s.get_char(i + 1) == 'o' && s.get_char(i + 2) == 'u'
        && s.get_char(i + 3) == 'r' {
        proof {
            assert(s@.subrange(i as int, i as int + 4) =~= seq!['f', 'o', 'u', 'r']);
        }
        return Some(4);
    }
    if len - i >= 4 && s.get_char(i) == 'f' && s.get_char(i + 1) == 'i' && s.get_char(i + 2) == 'v'
        && s.get_char(i + 3) == 'e' {
        proof {
            assert(s@.subrange(i as int, i as int + 4) =~= seq!['f', 'i', 'v', 'e']);
        }
        return Some(5);
    }
    if len - i >= 3 && s.get_char(i) == 's' && s.get_char(i + 1) == 'i' && s.get_char(i + 2)
        == 'x' {
        proof {
            assert(s@.subrange(i as int, i as int + 3) =~= seq!['s', 'i', 'x']);
        }
        return Some(6);
    }
    if len - i >= 5 && s.get_char(i) == 's' && s.get_char(i + 1) == 'e' && s.get_char(i + 2) == 'v'
        && s.get_char(i + 3) == 'e' && s.get_char(i + 4) == 'n' {
        proof {
            assert(s@.subrange(i as int, i as int + 5) =~= seq!['s', 'e', 'v', 'e', 'n']);
        }
        return Some(7);
    }
    if len - i >= 5 && s.get_char(i) == 'e' && s.get_char(i + 1) == 'i' && s.get_char(i + 2) == 'g'
        && s.get_char(i + 3) == 'h' && s.get_char(i + 4) == 't' {
        proof {
            assert(s@.subrange(i as int, i as int + 5) =~= seq!['e', 'i', 'g', 'h', 't']);
        }
        return Some(8);
    }
    if len - i >= 4 && s.get_char(i) == 'n' && s.get_char(i + 1) == 'i' && s.get_char(i + 2) == 'n'
        && s.get_char(i + 3) == 'e' {
        proof {
            assert(s@.subrange(i as int, i as int + 4) =~= seq!['n', 'i', 'n', 'e']);
        }
        return Some(9);
    }
    None
}

/// The solver for the calibration lines.
pub struct Day1Solver {}

impl Day1Solver {
    /// Sums the lines' calibration values, reading digit characters only.
    #[verifier::loop_isolation(false)]
    pub fn solve_part_1(&self, lines: Vec<String>) -> (r: String)
        requires
            forall|k: int|
                0 <= k < lines@.len() ==> has_digit(#[trigger] crate::day05::lines_views(lines@)[k]),
            part1_sum(crate::day05::lines_views(lines@)) <= u32::MAX,
        ensures
            r@ == dec_chars(part1_sum(crate::day05::lines_views(lines@))),
    {
        let ghost ls = crate::day05::lines_views(lines@);
        proof {
            lemma_part1_sum_nonneg(ls);
        }
        let mut sum: u32 = 0;
        proof {
            assert(ls.skip(0) =~= ls);
        }
        let mut i: usize = 0;
        while i < lines.len()
            invariant
                i <= lines@.len(),
                sum + part1_sum(ls.skip(i as int)) == part1_sum(ls),
            decreases lines@.len() - i,
        {
            let line = &lines[i];
            let ghost s = ls[i as int];
            proof {
                assert(s == lines@[i as int]@);
                assert(ls.skip(i as int)[0] == s);
                assert(ls.skip(i as int).skip(1) =~= ls.skip(i as int + 1));
                assert forall|k: int| 0 <= k < ls.skip(i as int + 1).len() implies has_digit(
                    #[trigger] ls.skip(i as int + 1)[k],
                ) by {
                    assert(ls.skip(i as int + 1)[k] == ls[k + i + 1]);
                }
                lemma_part1_sum_nonneg(ls.skip(i as int + 1));
                lemma_first_digit_props(s, 0);
                lemma_last_digit_props(s, s.len() - 1);
                assert(last_digit(s, s.len() - 1) >= 0) by {
                    if last_digit(s, s.len() - 1) < 0 {
                        assert(!is_digit_char(s[first_digit(s, 0)]));
                    }
                }
            }
            let n = line.as_str().unicode_len();
            let mut f: usize = 0;
            while f < n && !digit_at_pos(line.as_str(), f)
                invariant
                    f <= s.len(),
                    first_digit(s, 0) == first_digit(s, f as int),
                decreases s.len() - f,
            {
                f = f + 1;
            }
            let mut l: usize = n;
            while l > 0 && !digit_at_pos(line.as_str(), l - 1)
                invariant
                    l <= s.len(),
                    last_digit(s, s.len() - 1) == last_digit(s, l - 1),
                decreases l,
            {
                l = l - 1;
            }
            proof {
                assert(f < s.len());
                assert(l >= 1);
            }
            let cf = line.as_str().get_char(f);
            let cl = line.as_str().get_char(l - 1);
            let v: u32 = 10 * (cf as u32 - 48) + (cl as u32 - 48);
            proof {
                assert(f as int == first_digit(s, 0));
                assert(l - 1 == last_digit(s, s.len() - 1));
                assert(v == line1_value(s));
            }
            sum = sum + v;
            i = i + 1;
        }
        proof {
            assert(ls.skip(ls.len() as int).len() == 0);
        }
        crate::numfmt::usize_to_string(sum as usize)
    }

    /// Sums the lines' calibration values, also reading digit names.
    #[verifier::loop_isolation(false)]
    pub fn solve_part_2(&self, lines: Vec<String>) -> (r: String)
        requires
            forall|k: int|
                0 <= k < lines@.len() ==> vstd::utf8::is_ascii_chars(
                    #[trigger] crate::day05::lines_views(lines@)[k],
                ),
            forall|k: int|
                0 <= k < lines@.len() ==> tokens_from(
                    #[trigger] crate::day05::lines_views(lines@)[k],
                    0,
                ).len() > 0,
            part2_sum(crate::day05::lines_views(lines@)) <= u64::MAX,
        ensures
            r@ == dec_chars(part2_sum(crate::day05::lines_views(lines@))),
    {
        let ghost ls = crate::day05::lines_views(lines@);
        proof {
            lemma_part2_sum_nonneg(ls);
        }
        let mut sum: u64 = 0;
        proof {
            assert(ls.skip(0) =~= ls);
        }
        let mut i: usize = 0;
        while i < lines.len()
            invariant
                i <= lines@.len(),
                sum + part2_sum(ls.skip(i as int)) == part2_sum(ls),
            decreases lines@.len() - i,
        {
            let line = &lines[i];
            let ghost s = ls[i as int];
            proof {
                assert(s == lines@[i as int]@);
                assert(ls.skip(i as int)[0] == s);
                assert(ls.skip(i as int).skip(1) =~= ls.skip(i as int + 1));
                lemma_part2_sum_nonneg(ls.skip(i as int + 1));
                lemma_tokens_bounded(s, 0);
            }
            let mut parser = NumberParser::new(line.as_str());
            let mut first: Option<u8> = None;
            let mut last: Option<u8> = None;
            let ghost all = tokens_from(s, 0);
            proof {
                assert(tokens_from(s, 0) =~= all.skip(0));
            }
            while parser.has_next()
                invariant
                    parser.wf(),
                    parser.input@ == s,
                    tokens_from(s, parser.index as int).len() <= all.len(),
                    ({
                        let seen_len = all.len() - tokens_from(s, parser.index as int).len();
                        &&& tokens_from(s, parser.index as int) =~= all.skip(seen_len)
                        &&& seen_len == 0 ==> first is None && last is None
                        &&& seen_len > 0 ==> first == Some(all[0]) && last == Some(
                            all[seen_len - 1],
                        )
                    }),
                decreases s.len() - parser.index,
            {
                let ghost pre = parser.index as int;
                let ghost seen_len = all.len() - tokens_from(s, pre).len();
                let d = parser.parse_at_current();
                proof {
                    lemma_tokens_suffix_len(s, pre);
                }
                if let Some(v) = d {
                    if first.is_none() {
                        first = Some(v);
                    }
                    last = Some(v);
                    proof {
                        assert(tokens_from(s, pre) =~= seq![v] + tokens_from(s, pre + 1));
                        assert(all.skip(seen_len)[0] == all[seen_len]);
                        assert(all.skip(seen_len).skip(1) =~= all.skip(seen_len + 1));
                    }
                } else {
                    proof {
                        assert(tokens_from(s, pre) =~= tokens_from(s, pre + 1));
                    }
                }
            }
            proof {
                assert(tokens_from(s, parser.index as int).len() == 0);
                assert(first == Some(all[0]) && last == Some(all[all.len() - 1]));
            }
            let fv = first.unwrap();
            let lv = last.unwrap();
            let v: u64 = 10 * (fv as u64) + (lv as u64);
            proof {
                assert(v == line2_value(s));
            }
            sum = sum + v;
            i = i + 1;
        }
        proof {
            assert(ls.skip(ls.len() as int).len() == 0);
        }
        crate::numfmt::u64_to_string(sum)
    }
}

/// Whether the character at `p` is a digit.
fn digit_at_pos(s: &str, p: usize) -> (b: bool)
    requires
        p < s@.len(),
    ensures
        b == is_digit_char(s@[p as int]),
{
    let c = s.get_char(p);
    (c as u32) >= 48 && (c as u32) <= 57
}

/// Scanning one position ahead never grows the token list.
pub proof fn lemma_tokens_suffix_len(s: Seq<char>, i: int)
    requires
        0 <= i < s.len(),
    ensures
        tokens_from(s, i + 1).len() <= tokens_from(s, i).len(),
        token_at(s, i) is Some ==> tokens_from(s, i).len() == tokens_from(s, i + 1).len() + 1,
        token_at(s, i) is None ==> tokens_from(s, i) == tokens_from(s, i + 1),
{
}

} // verus!
