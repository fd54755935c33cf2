//! Toy races: holding the button for `h` seconds out of a race of `T`
//! seconds covers `(T - h) * h` distance; count the hold times that beat
//! a record distance.

use crate::numfmt::dec_chars;
use crate::parsers::{dec_val, digit_run_len, parse_number_at};
use vstd::prelude::*;

verus! {

/// Distance covered when holding for `hold` out of `dur` seconds.
pub open spec fn spec_distance(dur: int, hold: int) -> int {
    (dur - hold) * hold
}

pub open spec fn wins(dur: int, dist: int, hold: int) -> bool {
    spec_distance(dur, hold) > dist
}

/// The winning hold times below `upto`, in increasing order.
pub open spec fn winners_upto(dur: int, dist: int, upto: int) -> Seq<usize>
    decreases upto,
{
    if upto <= 1 {
        Seq::<usize>::empty()
    } else if wins(dur, dist, upto - 1) {
        winners_upto(dur, dist, upto - 1).push((upto - 1) as usize)
    } else {
        winners_upto(dur, dist, upto - 1)
    }
}

#[derive(Debug, Copy, Clone)]
pub struct RaceInfo {
    pub race_duration_in_seconds: usize,
    pub distance_to_beat: usize,
}

impl RaceInfo {
    /// Every distance the race can produce fits in an `isize`.
    pub open spec fn wf(self) -> bool {
        &&& self.race_duration_in_seconds * self.race_duration_in_seconds <= isize::MAX
        &&& self.distance_to_beat <= isize::MAX
    }
}

pub struct LinearSpeedStrategy {
    pub race_info: RaceInfo,
}

impl LinearSpeedStrategy {
    /// Distance covered for one hold duration.
    pub fn distance_for_hold_duration(&self, hold: usize) -> (d: isize)
        requires
            self.race_info.wf(),
            hold <= self.race_info.race_duration_in_seconds,
        ensures
            d == spec_distance(self.race_info.race_duration_in_seconds as int, hold as int),
    {
        let ghost d0 = self.race_info.race_duration_in_seconds as int;
        proof {
            assert(d0 <= isize::MAX) by (nonlinear_arith)
                requires
                    0 <= d0,
                    d0 * d0 <= isize::MAX,
            ;
        }
        let dur = self.race_info.race_duration_in_seconds as isize;
        let hold = hold as isize;
        proof {
            assert((dur - hold) * hold <= d0 * d0 && (dur - hold) * hold >= 0) by (nonlinear_arith)
                requires
                    0 <= hold <= dur == d0,
            ;
        }
        (dur - hold) * hold
    }

    /// Every hold duration strictly between zero and the race duration
    /// that beats the record, in increasing order.
    #[verifier::loop_isolation(false)]
    pub fn winning_charge_durations(&self) -> (out: Vec<usize>)
        requires
            self.race_info.wf(),
        ensures
            out@ == winners_upto(
                self.race_info.race_duration_in_seconds as int,
                self.race_info.distance_to_beat as int,
                self.race_info.race_duration_in_seconds as int,
            ),
    {
        let ghost dur = self.race_info.race_duration_in_seconds as int;
        let ghost dist = self.race_info.distance_to_beat as int;
        let mut out: Vec<usize> = Vec::new();
        let n = self.race_info.race_duration_in_seconds;
        let mut i: usize = 1;
        proof {
            assert(out@ =~= winners_upto(dur, dist, 1));
        }
        while i < n
            invariant
                1 <= i <= if n > 1 {
                    n as int
                } else {
                    1int
                },
                out@ == winners_upto(dur, dist, i as int),
            decreases n - i,
        {
            let d = self.distance_for_hold_duration(i);
            if d > self.race_info.distance_to_beat as isize {
                out.push(i);
            }
            i = i + 1;
        }
        out
    }
}

/// Whether the character at `p` is ascii whitespace.
fn ws_at_pos(s: &str, p: usize) -> (b: bool)
    requires
        p < s@.len(),
    ensures
        b == is_ws(s@[p as int]),
{
    let c = s.get_char(p);
    c == ' ' || c == '\t' || c == '\n' || c == '\r' || c == '\x0c'
}

pub open spec fn is_ws(c: char) -> bool {
    c == ' ' || c == '\t' || c == '\n' || c == '\r' || c == '\x0c'
}

/// Length of the whitespace run starting at `from`.
pub open spec fn ws_run_len(s: Seq<char>, from: int) -> int
    decreases s.len() - from,
{
    if !(0 <= from < s.len()) || !is_ws(s[from]) {
        0
    } else {
        1 + ws_run_len(s, from + 1)
    }
}

pub proof fn lemma_ws_run_len_bounds(s: Seq<char>, from: int)
    requires
        0 <= from <= s.len(),
    ensures
        0 <= ws_run_len(s, from),
        from + ws_run_len(s, from) <= s.len(),
    decreases s.len() - from,
{
    if 0 <= from < s.len() && is_ws(s[from]) {
        lemma_ws_run_len_bounds(s, from + 1);
    }
}

/// Whitespace-separated decimal numbers from `from` to the end; `None`
/// when a token is not a number that fits.
pub open spec fn spec_ws_numbers(s: Seq<char>, from: int) -> Option<Seq<int>>
    decreases s.len() - from,
{
    if !(0 <= from <= s.len()) {
        None
    } else {
        let w = ws_run_len(s, from);
        let i = from + w;
        if w < 0 || i >= s.len() {
            Some(Seq::<int>::empty())
        } else {
            let n = digit_run_len(s, i);
            if n <= 0 || dec_val(s.subrange(i, i + n)) > usize::MAX {
                None
            } else {
                let j = i + n;
                if j > s.len() {
                    None
                } else if j < s.len() && !is_ws(s[j]) {
                    None
                } else {
                    match spec_ws_numbers(s, j) {
                        None => None,
                        Some(rest) => Some(seq![dec_val(s.subrange(i, i + n))] + rest),
                    }
                }
            }
        }
    }
}

/// Parses a line of whitespace-separated numbers.
#[verifier::loop_isolation(false)]
pub fn parse_race_info(line: &str) -> (r: Vec<usize>)
    requires
        spec_ws_numbers(line@, 0) is Some,
    ensures
        ({
            let vals = spec_ws_numbers(line@, 0)->Some_0;
            &&& r@.len() == vals.len()
            &&& forall|k: int| 0 <= k < vals.len() ==> #[trigger] r@[k] as int == vals[k]
        }),
{
    let ghost all = spec_ws_numbers(line@, 0)->Some_0;
    let len = line.unicode_len();
    let mut out: Vec<usize> = Vec::new();
    let mut pos: usize = 0;
    proof {
        assert(all.skip(0) =~= all);
    }
    while pos < len
        invariant
            pos <= line@.len(),
            out@.len() <= all.len(),
            spec_ws_numbers(line@, pos as int) == Some(all.skip(out@.len() as int)),
            forall|k: int| 0 <= k < out@.len() ==> #[trigger] out@[k] as int == all[k],
        decreases line@.len() - pos,
    {
        proof {
            lemma_ws_run_len_bounds(line@, pos as int);
        }
        let ghost done = out@.len() as int;
        let mut i: usize = pos;
        while ws_at_pos_guard(line, i, len)
            invariant
                pos <= i <= line@.len(),
                ws_run_len(line@, pos as int) == i - pos + ws_run_len(line@, i as int),
            decreases line@.len() - i,
        {
            i = i + 1;
        }
        if i == len {
            proof {
                assert(all.skip(done) =~= Seq::<int>::empty());
            }
            return out;
        }
        let num = parse_number_at(line, i);
        let (v, end) = match num {
            None => {
                proof {
                    assert(false);
                }
                return out;
            },
            Some(t) => t,
        };
        if end < len {
            if !ws_at_pos(line, end) {
                proof {
                    assert(false);
                }
                return out;
            }
        }
        out.push(v);
        proof {
            let rest2 = spec_ws_numbers(line@, end as int);
            assert(rest2 is Some);
            assert(all.skip(done) == seq![v as int] + rest2->Some_0);
            assert(all.skip(done).len() >= 1);
            assert(done < all.len());
            assert(all[done] == all.skip(done)[0]);
            assert(all.skip(done)[0] == v as int);
            assert(all.skip(done).skip(1) =~= all.skip(done + 1));
            assert(rest2->Some_0 =~= all.skip(done + 1));
        }
        pos = end;
    }
    proof {
        assert(all.skip(out@.len() as int) =~= Seq::<int>::empty());
    }
    out
}

/// How many hold durations win a race.
pub open spec fn win_count(dur: int, dist: int) -> int {
    winners_upto(dur, dist, dur).len() as int
}

/// Product of the win counts of the first `k` races.
pub open spec fn races_product_upto(times: Seq<int>, dists: Seq<int>, k: int) -> int
    decreases k,
{
    if k <= 0 {
        1
    } else {
        races_product_upto(times, dists, k - 1) * win_count(times[k - 1], dists[k - 1])
    }
}

pub proof fn lemma_races_product_nonneg(times: Seq<int>, dists: Seq<int>, k: int)
    ensures
        races_product_upto(times, dists, k) >= 0,
    decreases k,
{
    if k > 0 {
        lemma_races_product_nonneg(times, dists, k - 1);
        let a = races_product_upto(times, dists, k - 1);
        let b = win_count(times[k - 1], dists[k - 1]);
        assert(a * b >= 0) by (nonlinear_arith)
            requires
                a >= 0,
                b >= 0,
        ;
    }
}

pub open spec fn time_prefix() -> Seq<char> {
    seq!['T', 'i', 'm', 'e', ':']
}

pub open spec fn dist_prefix() -> Seq<char> {
    seq!['D', 'i', 's', 't', 'a', 'n', 'c', 'e', ':']
}

pub open spec fn day6_times(ls: Seq<Seq<char>>) -> Seq<int> {
    spec_ws_numbers(ls[0].subrange(5, ls[0].len() as int), 0)->Some_0
}

pub open spec fn day6_dists(ls: Seq<Seq<char>>) -> Seq<int> {
    spec_ws_numbers(ls[1].subrange(9, ls[1].len() as int), 0)->Some_0
}

/// Number of races: the time and distance lists zipped, the longer one
/// truncated.
pub open spec fn day6_races(ls: Seq<Seq<char>>) -> int {
    if day6_times(ls).len() <= day6_dists(ls).len() {
        day6_times(ls).len() as int
    } else {
        day6_dists(ls).len() as int
    }
}

pub open spec fn day6_input_ok(ls: Seq<Seq<char>>) -> bool {
    &&& ls.len() >= 2
    &&& ls[0].len() >= 5 && ls[0].subrange(0, 5) == time_prefix()
    &&& ls[1].len() >= 9 && ls[1].subrange(0, 9) == dist_prefix()
    &&& spec_ws_numbers(ls[0].subrange(5, ls[0].len() as int), 0) is Some
    &&& spec_ws_numbers(ls[1].subrange(9, ls[1].len() as int), 0) is Some
    &&& forall|k: int|
        0 <= k < day6_races(ls) ==> #[trigger] day6_times(ls)[k] * day6_times(ls)[k]
            <= isize::MAX && day6_dists(ls)[k] <= isize::MAX
    &&& forall|k: int|
        0 <= k <= day6_races(ls) ==> #[trigger] races_product_upto(
            day6_times(ls),
            day6_dists(ls),
            k,
        ) <= usize::MAX
}

/// The solver for the toy races.
pub struct Day6Solver {}

impl Day6Solver {
    /// The product over the races of how many hold durations win.
    #[verifier::loop_isolation(false)]
    pub fn solve_part_1(&self, lines: Vec<String>) -> (r: String)
        requires
            day6_input_ok(crate::day05::lines_views(lines@)),
        ensures
            r@ == dec_chars(
                races_product_upto(
                    day6_times(crate::day05::lines_views(lines@)),
                    day6_dists(crate::day05::lines_views(lines@)),
                    day6_races(crate::day05::lines_views(lines@)),
                ),
            ),
    {
        let ghost ls = crate::day05::lines_views(lines@);
        proof {
            assert(ls[0] == lines@[0]@);
            assert(ls[1] == lines@[1]@);
        }
        let line0 = &lines[0];
        let len0 = line0.as_str().unicode_len();
        let times_text = line0.as_str().substring_char(5, len0);
        let times = parse_race_info(times_text);
        let line1 = &lines[1];
        let len1 = line1.as_str().unicode_len();
        let dists_text = line1.as_str().substring_char(9, len1);
        let dists = parse_race_info(dists_text);
        let ghost stimes = day6_times(ls);
        let ghost sdists = day6_dists(ls);
        proof {
            assert(times_text@ == ls[0].subrange(5, ls[0].len() as int));
            assert(dists_text@ == ls[1].subrange(9, ls[1].len() as int));
        }
        let nraces = if times.len() <= dists.len() {
            times.len()
        } else {
            dists.len()
        };
        let mut product: usize = 1;
        let mut k: usize = 0;
        while k < nraces
            invariant
                k <= nraces,
                nraces == day6_races(ls),
                product == races_product_upto(stimes, sdists, k as int),
            decreases nraces - k,
        {
            let t = times[k];
            let d = dists[k];
            proof {
                assert(stimes[k as int] == t as int && sdists[k as int] == d as int);
                assert(stimes[k as int] * stimes[k as int] <= isize::MAX && sdists[k as int]
                    <= isize::MAX);
            }
            let strat = LinearSpeedStrategy {
                race_info: RaceInfo { race_duration_in_seconds: t, distance_to_beat: d },
            };
            let count = strat.winning_charge_durations().len();
            proof {
                lemma_races_product_nonneg(stimes, sdists, k as int);
                assert(races_product_upto(stimes, sdists, k as int + 1) <= usize::MAX);
            }
            product = product * count;
            k = k + 1;
        }
        crate::numfmt::usize_to_string(product)
    }

    /// The win count of the one long race; its parameters are fixed, so
    /// the input lines are ignored.
    pub fn solve_part_2(&self, _lines: Vec<String>) -> (r: String)
        requires
            usize::MAX == u64::MAX,
        ensures
            r@ == dec_chars(win_count(61677571, 430103613071150)),
    {
        let record: u64 = 430103613071150;
        let race_info = RaceInfo {
            race_duration_in_seconds: 61677571,
            distance_to_beat: record as usize,
        };
        proof {
            assert(race_info.wf());
        }
        let strat = LinearSpeedStrategy { race_info };
        let count = strat.winning_charge_durations().len();
        crate::numfmt::usize_to_string(count)
    }
}

/// Whether the character at `p` exists and is ascii whitespace.
fn ws_at_pos_guard(s: &str, p: usize, len: usize) -> (b: bool)
    requires
        len == s@.len(),
        p <= s@.len(),
    ensures
        b == (p < s@.len() && is_ws(s@[p as int])),
{
    p < len && ws_at_pos(s, p)
}

} // verus!
