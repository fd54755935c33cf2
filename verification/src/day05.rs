//! An interval-remapping engine.
//!
//! A `Range` is a closed interval of `usize` values.  A `MapRange` is one
//! remapping rule: every value inside its range is shifted by a fixed
//! signed offset.  A `MapRangeLayer` is an ordered, gap-free collection of
//! rules covering the whole domain `[0, usize::MAX]`, so that every value
//! has exactly one applicable rule.  A `MapRangeCombiner` chains layers:
//! the outputs of one layer are fed, fragment by fragment, into the next.

use crate::numfmt::dec_chars;
use crate::parsers::{digit_run_len, dec_val, parse_number_at};
use vstd::prelude::*;

verus! {

/// `c` is a space or a tab.
pub open spec fn is_space_char(c: char) -> bool {
    c == ' ' || c == '\t'
}

/// Length of the run of spaces and tabs starting at `from`.
pub open spec fn space_run_len(s: Seq<char>, from: int) -> int
    decreases s.len() - from,
{
    if !(0 <= from < s.len()) || !is_space_char(s[from]) {
        0
    } else {
        1 + space_run_len(s, from + 1)
    }
}

/// A space run starting inside the sequence ends inside it.
pub proof fn lemma_space_run_len_bounds(s: Seq<char>, from: int)
    requires
        0 <= from <= s.len(),
    ensures
        0 <= space_run_len(s, from),
        from + space_run_len(s, from) <= s.len(),
    decreases s.len() - from,
{
    if 0 <= from < s.len() && is_space_char(s[from]) {
        lemma_space_run_len_bounds(s, from + 1);
    }
}

/// Whether the character at position `j` exists and is a space or tab.
fn at_space(s: &str, j: usize, len: usize) -> (b: bool)
    requires
        len == s@.len(),
        j <= s@.len(),
    ensures
        b == (j < s@.len() && is_space_char(s@[j as int])),
{
    j < len && (s.get_char(j) == ' ' || s.get_char(j) == '\t')
}

/// Position right after the run of spaces and tabs starting at `from`.
#[verifier::loop_isolation(false)]
pub(crate) fn skip_spaces(s: &str, from: usize) -> (end: usize)
    requires
        from <= s@.len(),
    ensures
        end == from + space_run_len(s@, from as int),
        end <= s@.len(),
{
    proof {
        lemma_space_run_len_bounds(s@, from as int);
    }
    let len = s.unicode_len();
    let mut j: usize = from;
    while at_space(s, j, len)
        invariant
            from <= j <= s@.len(),
            space_run_len(s@, from as int) == j - from + space_run_len(s@, j as int),
        decreases s@.len() - j,
    {
        j = j + 1;
    }
    j
}

/// A closed interval `[start, end]`; both endpoints are inclusive.
#[derive(Debug, Copy, Clone, PartialEq, Eq, Structural)]
pub struct Range {
    pub start: usize,
    pub end: usize,
}

impl Range {
    /// A range is well formed when it is non-empty.
    pub open spec fn wf(self) -> bool {
        self.start <= self.end
    }

    /// Number of values in the interval.
    pub open spec fn length(self) -> int {
        self.end - self.start + 1
    }

    pub open spec fn spec_contains(self, v: int) -> bool {
        self.start <= v <= self.end
    }

    /// Two non-empty closed intervals share a value exactly when each one
    /// starts no later than the other ends.
    pub open spec fn spec_overlaps(self, other: Range) -> bool {
        self.start <= other.end && other.start <= self.end
    }

    /// The common part of two overlapping intervals.
    pub open spec fn spec_intersect(self, other: Range) -> Range {
        Range {
            start: if self.start >= other.start {
                self.start
            } else {
                other.start
            },
            end: if self.end <= other.end {
                self.end
            } else {
                other.end
            },
        }
    }

    /// Both endpoints translated by `delta`.
    pub open spec fn spec_shift(self, delta: int) -> Range {
        Range { start: (self.start + delta) as usize, end: (self.end + delta) as usize }
    }

    pub fn new(start: usize, end: usize) -> (r: Range)
        requires
            start <= end,
        ensures
            r == (Range { start, end }),
    {
        Range { start, end }
    }

    pub fn contains(&self, val: usize) -> (b: bool)
        ensures
            b == self.spec_contains(val as int),
    {
        self.start <= val && val <= self.end
    }

    pub fn overlaps(&self, other: &Range) -> (b: bool)
        requires
            self.wf(),
            other.wf(),
        ensures
            b == self.spec_overlaps(*other),
    {
        self.contains(other.start) || self.contains(other.end) || other.contains(self.start)
            || other.contains(self.end)
    }

    pub fn intersect(&self, other: &Range) -> (r: Option<Range>)
        requires
            self.wf(),
            other.wf(),
        ensures
            r == if self.spec_overlaps(*other) {
                Some(self.spec_intersect(*other))
            } else {
                None::<Range>
            },
            self.spec_overlaps(*other) ==> r->Some_0.wf(),
    {
        if !self.overlaps(other) {
            return None;
        }
        let start = if self.start >= other.start {
            self.start
        } else {
            other.start
        };
        let end = if self.end <= other.end {
            self.end
        } else {
            other.end
        };
        Some(Range::new(start, end))
    }

    pub fn shift(&self, delta: isize) -> (r: Range)
        requires
            self.wf(),
            0 <= self.start + delta,
            self.end + delta <= usize::MAX,
        ensures
            r == self.spec_shift(delta as int),
            r.wf(),
    {
        if delta >= 0 {
            let d = delta as usize;
            Range { start: self.start + d, end: self.end + d }
        } else {
            let d = (-(delta as i128)) as usize;
            Range { start: self.start - d, end: self.end - d }
        }
    }

    /// Cuts the interval just before `val`; `val` must be strictly interior.
    pub fn split_on(&self, val: usize) -> (r: (Range, Range))
        requires
            self.wf(),
            self.start < val < self.end,
        ensures
            r.0 == (Range { start: self.start, end: (val - 1) as usize }),
            r.1 == (Range { start: val, end: self.end }),
            r.0.wf(),
            r.1.wf(),
            r.0.length() + r.1.length() == self.length(),
    {
        (Range { start: self.start, end: val - 1 }, Range { start: val, end: self.end })
    }
}

/// One remapping rule: values inside `range` are shifted by `delta`.
#[derive(Debug, Copy, Clone, PartialEq, Eq, Structural)]
pub struct MapRange {
    pub range: Range,
    pub delta: isize,
}

impl MapRange {
    /// The rule's range is non-empty and shifting it stays inside
    /// `[0, usize::MAX]`.
    pub open spec fn wf(self) -> bool {
        &&& self.range.wf()
        &&& 0 <= self.range.start + self.delta
        &&& self.range.end + self.delta <= usize::MAX
    }

    pub fn new(start: usize, end: usize, delta: isize) -> (r: MapRange)
        requires
            start <= end,
            0 <= start + delta,
            end + delta <= usize::MAX,
        ensures
            r == (MapRange { range: Range { start, end }, delta }),
            r.wf(),
    {
        MapRange { range: Range { start, end }, delta }
    }

    /// What applying this rule to an input range produces: the matched
    /// outputs (any part left of the rule unshifted, then the shifted
    /// intersection) and the remainder right of the rule, still to be
    /// tried against later rules.
    pub open spec fn rule_apply(self, r: Range) -> (Seq<Range>, Option<Range>) {
        if !self.range.spec_overlaps(r) {
            (Seq::<Range>::empty(), Some(r))
        } else {
            let inter = self.range.spec_intersect(r);
            let shifted = inter.spec_shift(self.delta as int);
            let outs = if r.start < inter.start {
                seq![Range { start: r.start, end: (inter.start - 1) as usize }, shifted]
            } else {
                seq![shifted]
            };
            let rem = if inter.end == r.end {
                None
            } else {
                Some(Range { start: (inter.end + 1) as usize, end: r.end })
            };
            (outs, rem)
        }
    }

    pub fn evaluate_range(&self, range: &Range) -> (r: (Vec<Range>, Option<Range>))
        requires
            self.wf(),
            range.wf(),
        ensures
            r.0@ == self.rule_apply(*range).0,
            r.1 == self.rule_apply(*range).1,
            forall|i: int| 0 <= i < r.0@.len() ==> (#[trigger] r.0@[i]).wf(),
            r.1 is Some ==> r.1->Some_0.wf(),
    {
        let mut out: Vec<Range> = Vec::new();
        if let Some(intersection) = self.range.intersect(range) {
            if range.start != intersection.start {
                out.push(Range::new(range.start, intersection.start - 1));
            }
            out.push(intersection.shift(self.delta));
            let remaining = if intersection.end == range.end {
                None
            } else {
                Some(Range::new(intersection.end + 1, range.end))
            };
            assert(out@ =~= self.rule_apply(*range).0);
            return (out, remaining);
        }
        assert(out@ =~= self.rule_apply(*range).0);
        (out, Some(*range))
    }
}

/// Every rule in the sequence is well formed.
pub open spec fn rules_wf(rules: Seq<MapRange>) -> bool {
    forall|i: int| 0 <= i < rules.len() ==> (#[trigger] rules[i]).wf()
}

/// Each rule starts right after the previous one ends: no gaps, no overlaps.
pub open spec fn rules_contiguous(rules: Seq<MapRange>) -> bool {
    forall|i: int|
        0 <= i < rules.len() - 1 ==> (#[trigger] rules[i + 1]).range.start == rules[i].range.end
            + 1
}

/// The rules partition the whole domain `[0, usize::MAX]`.
pub open spec fn rules_cover_domain(rules: Seq<MapRange>) -> bool {
    &&& rules.len() > 0
    &&& rules_wf(rules)
    &&& rules_contiguous(rules)
    &&& rules[0].range.start == 0
    &&& rules[rules.len() - 1].range.end == usize::MAX
}

/// Index of the first rule whose range contains `v`.  Under
/// `rules_cover_domain` this is the only such rule.
pub open spec fn idx_of(rules: Seq<MapRange>, v: int) -> int
    decreases rules.len(),
{
    if rules.len() == 0 {
        0
    } else if rules[0].range.spec_contains(v) {
        0
    } else {
        1 + idx_of(rules.skip(1), v)
    }
}

/// The value `v` is mapped to by the first rule containing it, or kept
/// unchanged when no rule does.
pub open spec fn layer_value(rules: Seq<MapRange>, v: int) -> int
    decreases rules.len(),
{
    if rules.len() == 0 {
        v
    } else if rules[0].range.spec_contains(v) {
        v + rules[0].delta
    } else {
        layer_value(rules.skip(1), v)
    }
}

/// In a contiguous sequence of well-formed rules, an earlier rule ends
/// strictly before a later one starts.
pub proof fn lemma_rules_ordered(rules: Seq<MapRange>, i: int, j: int)
    requires
        rules_wf(rules),
        rules_contiguous(rules),
        0 <= i < j < rules.len(),
    ensures
        rules[i].range.end < rules[j].range.start,
    decreases j - i,
{
    if j == i + 1 {
        assert(rules[i + 1].range.start == rules[i].range.end + 1);
    } else {
        lemma_rules_ordered(rules, i, j - 1);
        assert(rules[(j - 1) + 1].range.start == rules[j - 1].range.end + 1);
        assert(rules[j - 1].wf());
    }
}

/// With total coverage, `idx_of` picks a valid index whose rule contains `v`.
pub proof fn lemma_idx_of_contains(rules: Seq<MapRange>, v: int)
    requires
        rules.len() > 0,
        rules_wf(rules),
        rules_contiguous(rules),
        rules[0].range.start <= v <= rules[rules.len() - 1].range.end,
    ensures
        0 <= idx_of(rules, v) < rules.len(),
        rules[idx_of(rules, v)].range.spec_contains(v),
    decreases rules.len(),
{
    if rules[0].range.spec_contains(v) {
    } else {
        let rest = rules.skip(1);
        assert(rules.len() > 1) by {
            if rules.len() == 1 {
                assert(rules[0].range.spec_contains(v));
            }
        }
        assert(rest[0] == rules[1]);
        assert(rest[rest.len() - 1] == rules[rules.len() - 1]);
        assert(rules_wf(rest) && rules_contiguous(rest)) by {
            assert forall|i: int| 0 <= i < rest.len() implies (#[trigger] rest[i]).wf() by {
                assert(rest[i] == rules[i + 1]);
            }
            assert forall|i: int| 0 <= i < rest.len() - 1 implies (#[trigger] rest[i + 1]).range.start
                == rest[i].range.end + 1 by {
                assert(rest[i] == rules[i + 1]);
                assert(rest[i + 1] == rules[i + 2]);
            }
        }
        lemma_idx_of_contains(rest, v);
        assert(rest[idx_of(rest, v)] == rules[1 + idx_of(rest, v)]);
    }
}

/// Total coverage: every value of the domain is contained in exactly one
/// rule of a well-formed layer.
pub proof fn lemma_total_coverage(rules: Seq<MapRange>, v: int)
    requires
        rules_cover_domain(rules),
        0 <= v <= usize::MAX,
    ensures
        0 <= idx_of(rules, v) < rules.len(),
        rules[idx_of(rules, v)].range.spec_contains(v),
        forall|j: int|
            0 <= j < rules.len() && j != idx_of(rules, v) ==> !(#[trigger] rules[j]).range.spec_contains(
                v,
            ),
{
    lemma_idx_of_contains(rules, v);
    let i = idx_of(rules, v);
    assert forall|j: int|
        0 <= j < rules.len() && j != i implies !(#[trigger] rules[j]).range.spec_contains(v) by {
        if j < i {
            lemma_rules_ordered(rules, j, i);
        } else {
            lemma_rules_ordered(rules, i, j);
        }
    }
}

/// What a whole layer produces for an input range: one shifted
/// intersection for every rule the range touches, in rule order.
pub open spec fn layer_outputs(rules: Seq<MapRange>, r: Range) -> Seq<Range> {
    let lo = idx_of(rules, r.start as int);
    let hi = idx_of(rules, r.end as int);
    Seq::new(
        (hi - lo + 1) as nat,
        |k: int|
            {
                let mr = rules[lo + k];
                mr.range.spec_intersect(r).spec_shift(mr.delta as int)
            },
    )
}

/// Sum of the lengths of a sequence of ranges.
pub open spec fn total_length(rs: Seq<Range>) -> int
    decreases rs.len(),
{
    if rs.len() == 0 {
        0
    } else {
        rs[0].length() + total_length(rs.skip(1))
    }
}

/// Shape of the intersections between an input range and the rules it
/// touches: the first one starts at the input's start, the last one ends
/// at the input's end, and the ones between span their whole rule.
pub proof fn lemma_block_intersections(rules: Seq<MapRange>, r: Range)
    requires
        rules_cover_domain(rules),
        r.wf(),
    ensures
        0 <= idx_of(rules, r.start as int) <= idx_of(rules, r.end as int) < rules.len(),
        forall|k: int|
            idx_of(rules, r.start as int) <= k <= idx_of(rules, r.end as int) ==> {
                let inter = (#[trigger] rules[k]).range.spec_intersect(r);
                &&& rules[k].range.spec_overlaps(r)
                &&& inter.start == if k == idx_of(rules, r.start as int) {
                    r.start as int
                } else {
                    rules[k].range.start as int
                }
                &&& inter.end == if k == idx_of(rules, r.end as int) {
                    r.end as int
                } else {
                    rules[k].range.end as int
                }
                &&& inter.wf()
                &&& inter.spec_shift(rules[k].delta as int).length() == inter.length()
                &&& inter.spec_shift(rules[k].delta as int).wf()
            },
{
    let lo = idx_of(rules, r.start as int);
    let hi = idx_of(rules, r.end as int);
    lemma_total_coverage(rules, r.start as int);
    lemma_total_coverage(rules, r.end as int);
    lemma_idx_of_monotone(rules, r.start as int, r.end as int);
    assert forall|k: int| lo <= k <= hi implies {
        let inter = (#[trigger] rules[k]).range.spec_intersect(r);
        &&& rules[k].range.spec_overlaps(r)
        &&& inter.start == if k == lo {
            r.start as int
        } else {
            rules[k].range.start as int
        }
        &&& inter.end == if k == hi {
            r.end as int
        } else {
            rules[k].range.end as int
        }
        &&& inter.wf()
        &&& inter.spec_shift(rules[k].delta as int).length() == inter.length()
        &&& inter.spec_shift(rules[k].delta as int).wf()
    } by {
        assert(rules[k].wf());
        if k > lo {
            lemma_rules_ordered(rules, lo, k);
        }
        if k < hi {
            lemma_rules_ordered(rules, k, hi);
        }
        let inter = rules[k].range.spec_intersect(r);
        assert(rules[k].range.start <= inter.start && inter.end <= rules[k].range.end);
        assert(0 <= inter.start + rules[k].delta);
        assert(inter.end + rules[k].delta <= usize::MAX);
    }
}

/// `idx_of` is monotone in the value.
pub proof fn lemma_idx_of_monotone(rules: Seq<MapRange>, u: int, v: int)
    requires
        rules_cover_domain(rules),
        0 <= u <= v <= usize::MAX,
    ensures
        idx_of(rules, u) <= idx_of(rules, v),
{
    lemma_total_coverage(rules, u);
    lemma_total_coverage(rules, v);
    let i = idx_of(rules, u);
    let j = idx_of(rules, v);
    if j < i {
        lemma_rules_ordered(rules, j, i);
    }
}

/// Split conservation: evaluating a range through a layer neither loses
/// nor duplicates values — the output lengths sum to the input length.
pub proof fn lemma_split_conservation(rules: Seq<MapRange>, r: Range)
    requires
        rules_cover_domain(rules),
        r.wf(),
    ensures
        total_length(layer_outputs(rules, r)) == r.length(),
    decreases idx_of(rules, r.end as int) - idx_of(rules, r.start as int),
{
    let lo = idx_of(rules, r.start as int);
    let hi = idx_of(rules, r.end as int);
    lemma_block_intersections(rules, r);
    let outs = layer_outputs(rules, r);
    if lo == hi {
        assert(outs.len() == 1);
        assert(outs[0].length() == r.length());
        assert(total_length(outs.skip(1)) == 0);
    } else {
        let cut = rules[lo].range.end + 1;
        let rest = Range { start: cut as usize, end: r.end };
        assert(rules[lo + 1].range.start == rules[lo].range.end + 1);
        assert(rules[lo + 1].range.spec_contains(cut));
        lemma_total_coverage(rules, cut);
        lemma_rules_ordered(rules, lo, hi);
        assert(rest.wf());
        assert(idx_of(rules, rest.start as int) == lo + 1) by {
            lemma_total_coverage(rules, cut);
            if idx_of(rules, cut) != lo + 1 {
                assert(!rules[lo + 1].range.spec_contains(cut));
            }
        }
        assert(idx_of(rules, rest.end as int) == hi);
        lemma_split_conservation(rules, rest);
        let outs_rest = layer_outputs(rules, rest);
        assert(outs.skip(1) =~= outs_rest) by {
            assert forall|k: int| 0 <= k < outs_rest.len() implies outs.skip(1)[k] == outs_rest[k] by {
                let j = lo + 1 + k;
                lemma_rules_ordered(rules, lo, j);
                assert(rules[j].range.spec_intersect(r) == rules[j].range.spec_intersect(rest));
            }
        }
        assert(outs[0].length() == rules[lo].range.end + 1 - r.start);
        assert(total_length(outs) == outs[0].length() + total_length(outs.skip(1)));
    }
}

/// No two rules of the sequence share a value.
pub open spec fn rules_disjoint(rules: Seq<MapRange>) -> bool {
    forall|i: int, j: int|
        0 <= i < j < rules.len() ==> !(#[trigger] rules[i]).range.spec_overlaps(
            (#[trigger] rules[j]).range,
        )
}

/// For disjoint rules, the layer maps a contained value by the rule that
/// contains it, wherever that rule sits in the sequence.
pub proof fn lemma_layer_value_at(rules: Seq<MapRange>, v: int, i: int)
    requires
        rules_disjoint(rules),
        0 <= i < rules.len(),
        rules[i].range.spec_contains(v),
    ensures
        layer_value(rules, v) == v + rules[i].delta,
    decreases rules.len(),
{
    if i == 0 {
    } else {
        assert(!rules[0].range.spec_contains(v));
        let rest = rules.skip(1);
        assert(rules_disjoint(rest)) by {
            assert forall|a: int, b: int| 0 <= a < b < rest.len() implies !(#[trigger] rest[a]).range.spec_overlaps(
                (#[trigger] rest[b]).range,
            ) by {
                assert(rest[a] == rules[a + 1] && rest[b] == rules[b + 1]);
            }
        }
        assert(rest[i - 1] == rules[i]);
        lemma_layer_value_at(rest, v, i - 1);
    }
}

/// A value contained in no rule is left unchanged.
pub proof fn lemma_layer_value_none(rules: Seq<MapRange>, v: int)
    requires
        forall|i: int| 0 <= i < rules.len() ==> !(#[trigger] rules[i]).range.spec_contains(v),
    ensures
        layer_value(rules, v) == v,
    decreases rules.len(),
{
    if rules.len() == 0 {
    } else {
        let rest = rules.skip(1);
        assert forall|i: int| 0 <= i < rest.len() implies !(#[trigger] rest[i]).range.spec_contains(
            v,
        ) by {
            assert(rest[i] == rules[i + 1]);
        }
        lemma_layer_value_none(rest, v);
    }
}

/// Contiguous well-formed rules never share a value.
pub proof fn lemma_contiguous_disjoint(rules: Seq<MapRange>)
    requires
        rules_wf(rules),
        rules_contiguous(rules),
    ensures
        rules_disjoint(rules),
{
    assert forall|i: int, j: int| 0 <= i < j < rules.len() implies !(#[trigger] rules[i]).range.spec_overlaps(
        (#[trigger] rules[j]).range,
    ) by {
        lemma_rules_ordered(rules, i, j);
    }
}

/// An ordered, gap-free collection of remapping rules covering the whole
/// domain, so that evaluation never needs a "no match" branch.
#[derive(Debug)]
pub struct MapRangeLayer {
    pub name: String,
    pub ranges: Vec<MapRange>,
}

/// Insertion sort on the rule starts.  Keeps exactly the input rules and
/// their disjointness; the result's starts are non-decreasing.
#[verifier::loop_isolation(false)]
#[verifier::rlimit(50)]
fn sort_rules(rules: Vec<MapRange>) -> (out: Vec<MapRange>)
    requires
        rules_disjoint(rules@),
    ensures
        out@.len() == rules@.len(),
        forall|i: int, j: int|
            0 <= i < j < out@.len() ==> (#[trigger] out@[i]).range.start <= (
            #[trigger] out@[j]).range.start,
        rules_disjoint(out@),
        forall|p: MapRange| out@.contains(p) ==> rules@.contains(p),
        forall|k: int| 0 <= k < rules@.len() ==> out@.contains(#[trigger] rules@[k]),
{
    let mut out: Vec<MapRange> = Vec::new();
    let mut i: usize = 0;
    while i < rules.len()
        invariant
            i <= rules@.len(),
            out@.len() == i,
            forall|a: int, b: int|
                0 <= a < b < out@.len() ==> (#[trigger] out@[a]).range.start <= (
                #[trigger] out@[b]).range.start,
            rules_disjoint(out@),
            forall|p: MapRange| out@.contains(p) ==> rules@.subrange(0, i as int).contains(p),
            forall|k: int| 0 <= k < i ==> out@.contains(#[trigger] rules@[k]),
        decreases rules@.len() - i,
    {
        let x = rules[i];
        let mut j: usize = 0;
        while j < out.len() && out[j].range.start <= x.range.start
            invariant
                j <= out@.len(),
                forall|t: int| 0 <= t < j ==> (#[trigger] out@[t]).range.start <= x.range.start,
            decreases out@.len() - j,
        {
            j = j + 1;
        }
        let ghost pre = out@;
        out.insert(j, x);
        proof {
            pre.insert_ensures(j as int, x);
            assert(out@ == pre.insert(j as int, x));
            // every element of the new sequence is x or an element of pre
            assert forall|p: MapRange| out@.contains(p) implies rules@.subrange(
                0,
                i as int + 1,
            ).contains(p) by {
                let t = choose|t: int| 0 <= t < out@.len() && out@[t] == p;
                if t == j {
                    assert(rules@.subrange(0, i as int + 1)[i as int] == x);
                } else {
                    let s = if t < j {
                        t
                    } else {
                        t - 1
                    };
                    assert(pre[s] == p);
                    assert(pre.contains(p)) by {
                        assert(0 <= s < pre.len() && pre[s] == p);
                    }
                    assert(rules@.subrange(0, i as int).contains(p));
                    let k = choose|k: int| 0 <= k < i && rules@.subrange(0, i as int)[k] == p;
                    assert(rules@.subrange(0, i as int + 1)[k] == p);
                }
            }
            assert forall|k: int| 0 <= k < i + 1 implies out@.contains(#[trigger] rules@[k]) by {
                if k == i {
                    assert(out@[j as int] == x);
                } else {
                    let t = choose|t: int| 0 <= t < pre.len() && pre[t] == rules@[k];
                    if t < j {
                        assert(out@[t] == rules@[k]);
                    } else {
                        assert(out@[t + 1] == rules@[k]);
                    }
                }
            }
            // x does not overlap anything already placed
            assert forall|t: int| 0 <= t < pre.len() implies !(#[trigger] pre[t]).range.spec_overlaps(
                x.range,
            ) && !x.range.spec_overlaps(pre[t].range) by {
                assert(pre.contains(pre[t])) by {
                    assert(0 <= t < pre.len() && pre[t] == pre[t]);
                }
                assert(rules@.subrange(0, i as int).contains(pre[t]));
                let k = choose|k: int| 0 <= k < i && rules@.subrange(0, i as int)[k] == pre[t];
                assert(rules@[k] == pre[t]);
                if k < i {
                    assert(!rules@[k].range.spec_overlaps(rules@[i as int].range));
                }
            }
            assert(rules_disjoint(out@)) by {
                assert forall|a: int, b: int|
                    0 <= a < b < out@.len() implies !(#[trigger] out@[a]).range.spec_overlaps(
                    (#[trigger] out@[b]).range,
                ) by {
                    let pa = if a < j {
                        a
                    } else {
                        a - 1
                    };
                    let pb = if b < j {
                        b
                    } else {
                        b - 1
                    };
                    if a != j && b != j {
                        assert(out@[a] == pre[pa] && out@[b] == pre[pb]);
                    }
                }
            }
            // starts stay ordered: everything before j is <= x, everything
            // at j or later in pre is > x by the inner loop's exit and order
            assert forall|a: int, b: int|
                0 <= a < b < out@.len() implies (#[trigger] out@[a]).range.start <= (
            #[trigger] out@[b]).range.start by {
                if j < pre.len() {
                    assert(x.range.start < pre[j as int].range.start || pre[j as int].range.start
                        > x.range.start || pre[j as int].range.start <= x.range.start);
                }
                let pa = if a < j {
                    a
                } else {
                    a - 1
                };
                let pb = if b < j {
                    b
                } else {
                    b - 1
                };
                if a == j {
                    // out[a] == x, b > j, out[b] == pre[b-1] with b-1 >= j
                    assert(out@[b] == pre[b - 1]);
                    if b - 1 > j {
                        assert(pre[j as int].range.start <= pre[b - 1].range.start);
                    }
                } else if b == j {
                    assert(out@[a] == pre[a]);
                } else {
                    assert(out@[a] == pre[pa] && out@[b] == pre[pb]);
                }
            }
        }
        i = i + 1;
    }
    assert(rules@.subrange(0, rules@.len() as int) == rules@);
    out
}

impl MapRangeLayer {
    pub open spec fn wf(self) -> bool {
        rules_cover_domain(self.ranges@)
    }

    /// Builds a layer from explicit rules: sorts them by start and fills
    /// every gap (and the tail up to `usize::MAX`) with identity rules, so
    /// that the layer covers the whole domain while mapping every value
    /// exactly as the explicit rules do.
    #[verifier::loop_isolation(false)]
    pub fn from_ranges(name: String, ranges: Vec<MapRange>) -> (res: MapRangeLayer)
        requires
            forall|i: int| 0 <= i < ranges@.len() ==> (#[trigger] ranges@[i]).wf(),
            forall|i: int| 0 <= i < ranges@.len() ==> (#[trigger] ranges@[i]).range.end < usize::MAX,
            rules_disjoint(ranges@),
        ensures
            res.name == name,
            res.wf(),
            forall|v: int|
                0 <= v <= usize::MAX ==> layer_value(res.ranges@, v) == layer_value(ranges@, v),
            ranges@.len() == 0 ==> res.ranges@ =~= seq![
                MapRange { range: Range { start: 0, end: usize::MAX }, delta: 0 },
            ],
    {
        let ghost orig = ranges@;
        let sorted = sort_rules(ranges);
        proof {
            assert forall|k: int| 0 <= k < sorted@.len() implies (#[trigger] sorted@[k]).wf()
                && sorted@[k].range.end < usize::MAX by {
                assert(sorted@.contains(sorted@[k])) by {
                    assert(0 <= k < sorted@.len() && sorted@[k] == sorted@[k]);
                }
                assert(orig.contains(sorted@[k]));
                let t = choose|t: int| 0 <= t < orig.len() && orig[t] == sorted@[k];
                assert(orig[t].wf() && orig[t].range.end < usize::MAX);
            }
        }
        let mut new_ranges: Vec<MapRange> = Vec::new();
        let mut start_index: usize = 0;
        let mut i: usize = 0;
        while i < sorted.len()
            invariant
                i <= sorted@.len(),
                i == 0 ==> new_ranges@.len() == 0 && start_index == 0,
                i > 0 ==> new_ranges@.len() > 0 && start_index == sorted@[i - 1].range.end + 1,
                new_ranges@.len() > 0 ==> new_ranges@[0].range.start == 0
                    && new_ranges@[new_ranges@.len() - 1].range.end + 1 == start_index,
                rules_wf(new_ranges@),
                rules_contiguous(new_ranges@),
                forall|v: int|
                    0 <= v < start_index ==> layer_value(new_ranges@, v) == layer_value(sorted@, v),
                forall|v: int|
                    start_index <= v <= usize::MAX ==> layer_value(new_ranges@, v) == v,
                forall|k: int|
                    i <= k < sorted@.len() ==> start_index <= (#[trigger] sorted@[k]).range.start,
            decreases sorted@.len() - i,
        {
            let r = sorted[i];
            let ghost frontier = start_index as int;
            let ghost before = new_ranges@;
            if start_index < r.range.start {
                new_ranges.push(
                    MapRange {
                        range: Range { start: start_index, end: r.range.start - 1 },
                        delta: 0,
                    },
                );
            }
            new_ranges.push(r);
            proof {
                let ext = new_ranges@;
                lemma_contiguous_disjoint(before);
                assert(rules_wf(ext));
                assert(rules_contiguous(ext));
                lemma_contiguous_disjoint(ext);
                assert forall|v: int| 0 <= v < r.range.end + 1 implies layer_value(ext, v)
                    == layer_value(sorted@, v) by {
                    if v < frontier {
                        // the rule that covered v before still covers it
                        lemma_idx_of_contains(before, v);
                        let c = idx_of(before, v);
                        lemma_layer_value_at(before, v, c);
                        assert(ext[c] == before[c]);
                        lemma_layer_value_at(ext, v, c);
                    } else if v < r.range.start {
                        // gap: the fresh identity rule covers v, no sorted rule does
                        let g = ext.len() - 2;
                        assert(ext[g].range.spec_contains(v));
                        lemma_layer_value_at(ext, v, g);
                        assert forall|k: int| 0 <= k < sorted@.len() implies !(
                        #[trigger] sorted@[k]).range.spec_contains(v) by {
                            if k < i {
                                if k < i - 1 {
                                    assert(!sorted@[k].range.spec_overlaps(sorted@[i - 1].range));
                                }
                                assert(sorted@[k].range.end < frontier);
                            } else {
                                assert(sorted@[i as int].range.start <= sorted@[k].range.start);
                            }
                        }
                        lemma_layer_value_none(sorted@, v);
                    } else {
                        // r covers v in both sequences
                        let c = ext.len() - 1;
                        assert(ext[c] == r);
                        lemma_layer_value_at(ext, v, c);
                        lemma_layer_value_at(sorted@, v, i as int);
                    }
                }
                assert forall|v: int| r.range.end + 1 <= v <= usize::MAX implies layer_value(
                    ext,
                    v,
                ) == v by {
                    assert forall|k: int| 0 <= k < ext.len() implies !(
                    #[trigger] ext[k]).range.spec_contains(v) by {
                        if k < ext.len() - 1 {
                            lemma_rules_ordered(ext, k, ext.len() - 1);
                        }
                    }
                    lemma_layer_value_none(ext, v);
                }
                assert forall|k: int| i + 1 <= k < sorted@.len() implies r.range.end + 1 <= (
                #[trigger] sorted@[k]).range.start by {
                    assert(sorted@[i as int].range.start <= sorted@[k].range.start);
                    assert(!sorted@[i as int].range.spec_overlaps(sorted@[k].range));
                }
            }
            start_index = r.range.end + 1;
            i = i + 1;
        }
        let ghost before = new_ranges@;
        new_ranges.push(MapRange { range: Range { start: start_index, end: usize::MAX }, delta: 0 });
        proof {
            let ext = new_ranges@;
            lemma_contiguous_disjoint(before);
            assert(rules_wf(ext));
            assert(rules_contiguous(ext));
            lemma_contiguous_disjoint(ext);
            assert forall|v: int| 0 <= v <= usize::MAX implies layer_value(ext, v) == layer_value(
                sorted@,
                v,
            ) by {
                if v < start_index {
                    lemma_idx_of_contains(before, v);
                    let c = idx_of(before, v);
                    lemma_layer_value_at(before, v, c);
                    assert(ext[c] == before[c]);
                    lemma_layer_value_at(ext, v, c);
                } else {
                    let g = ext.len() - 1;
                    assert(ext[g].range.spec_contains(v));
                    lemma_layer_value_at(ext, v, g);
                    assert forall|k: int| 0 <= k < sorted@.len() implies !(
                    #[trigger] sorted@[k]).range.spec_contains(v) by {
                        if i > 0 {
                            if k < i - 1 {
                                assert(!sorted@[k].range.spec_overlaps(sorted@[i - 1].range));
                            }
                            assert(sorted@[k].range.end < start_index);
                        }
                    }
                    lemma_layer_value_none(sorted@, v);
                }
            }
            // from the sorted rules back to the caller's rules
            assert forall|v: int| 0 <= v <= usize::MAX implies layer_value(sorted@, v)
                == layer_value(orig, v) by {
                if exists|k: int| 0 <= k < orig.len() && (#[trigger] orig[k]).range.spec_contains(
                    v,
                ) {
                    let k = choose|k: int|
                        0 <= k < orig.len() && (#[trigger] orig[k]).range.spec_contains(v);
                    lemma_layer_value_at(orig, v, k);
                    assert(sorted@.contains(orig[k]));
                    let s = choose|s: int| 0 <= s < sorted@.len() && sorted@[s] == orig[k];
                    lemma_layer_value_at(sorted@, v, s);
                } else {
                    assert forall|k: int| 0 <= k < orig.len() implies !(
                    #[trigger] orig[k]).range.spec_contains(v) by {}
                    lemma_layer_value_none(orig, v);
                    assert forall|s: int| 0 <= s < sorted@.len() implies !(
                    #[trigger] sorted@[s]).range.spec_contains(v) by {
                        assert(sorted@.contains(sorted@[s])) by {
                            assert(0 <= s < sorted@.len() && sorted@[s] == sorted@[s]);
                        }
                        assert(orig.contains(sorted@[s]));
                    }
                    lemma_layer_value_none(sorted@, v);
                }
            }
        }
        MapRangeLayer { name, ranges: new_ranges }
    }

    /// The ranges that the given range maps to.  The input is split at
    /// every rule boundary it straddles, so one input range may produce
    /// several output ranges.
    #[verifier::loop_isolation(false)]
    pub fn evaluate_range(&self, range: &Range) -> (out: Vec<Range>)
        requires
            self.wf(),
            range.wf(),
        ensures
            out@ == layer_outputs(self.ranges@, *range),
            forall|i: int| 0 <= i < out@.len() ==> (#[trigger] out@[i]).wf(),
            total_length(out@) == range.length(),
    {
        let ghost rules = self.ranges@;
        let ghost lo = idx_of(rules, range.start as int);
        let ghost hi = idx_of(rules, range.end as int);
        proof {
            lemma_block_intersections(rules, *range);
            lemma_split_conservation(rules, *range);
        }
        let mut out: Vec<Range> = Vec::new();
        let mut remaining = *range;
        let mut finished = false;
        let n = self.ranges.len();
        let mut i: usize = 0;
        while !finished && i < n
            invariant
                !finished ==> i <= hi,
                !finished ==> remaining == (Range {
                    start: if i <= lo {
                        range.start
                    } else {
                        self.ranges@[i as int].range.start
                    },
                    end: range.end,
                }),
                !finished ==> out@ =~= layer_outputs(rules, *range).take(
                    if i <= lo {
                        0
                    } else {
                        i - lo
                    },
                ),
                finished ==> out@ =~= layer_outputs(rules, *range),
            decreases n + 1 - i,
        {
            let mr = self.ranges[i];
            proof {
                if i < lo {
                    lemma_rules_ordered(rules, i as int, lo);
                }
                if lo <= i {
                    if i > lo {
                        lemma_rules_ordered(rules, lo, i as int);
                    }
                    if i < hi {
                        lemma_rules_ordered(rules, i as int, hi);
                    }
                    assert(mr.range.spec_intersect(remaining) == mr.range.spec_intersect(*range));
                }
            }
            let (matched, rem_opt) = mr.evaluate_range(&remaining);
            let mut m = matched;
            out.append(&mut m);
            match rem_opt {
                None => {
                    finished = true;
                    assert(i == hi);
                    assert(out@ =~= layer_outputs(rules, *range));
                }
                Some(rem) => {
                    remaining = rem;
                }
            }
            i = i + 1;
        }
        out
    }
}

/// Outputs of a whole chain of layers for one input range: with no layer
/// left the range itself, otherwise every fragment the first layer
/// produces is pushed through the remaining layers in order.
pub open spec fn combiner_outputs(layers: Seq<MapRangeLayer>, r: Range) -> Seq<Range>
    decreases layers.len(), 0int, 0int,
{
    if layers.len() == 0 {
        seq![r]
    } else {
        fanout_outputs(layer_outputs(layers[0].ranges@, r), layers.skip(1))
    }
}

/// Pushes each range of a sequence through the layers, concatenating the
/// results in order.
pub open spec fn fanout_outputs(rs: Seq<Range>, layers: Seq<MapRangeLayer>) -> Seq<Range>
    decreases layers.len(), 1int, rs.len(),
{
    if rs.len() == 0 {
        Seq::<Range>::empty()
    } else {
        combiner_outputs(layers, rs[0]) + fanout_outputs(rs.skip(1), layers)
    }
}

/// Where a single value ends up after the whole chain.
pub open spec fn pipeline_value(layers: Seq<MapRangeLayer>, v: int) -> int
    decreases layers.len(),
{
    if layers.len() == 0 {
        v
    } else {
        pipeline_value(layers.skip(1), layer_value(layers[0].ranges@, v))
    }
}

/// Smallest start among a sequence of ranges, `usize::MAX` when empty.
pub open spec fn min_start(rs: Seq<Range>) -> int
    decreases rs.len(),
{
    if rs.len() == 0 {
        usize::MAX as int
    } else if rs[0].start <= min_start(rs.skip(1)) {
        rs[0].start as int
    } else {
        min_start(rs.skip(1))
    }
}

/// An ordered chain of layers; the output fragments of one layer are the
/// inputs of the next.
#[derive(Debug)]
pub struct MapRangeCombiner {
    pub name: String,
    pub mappers: Vec<MapRangeLayer>,
}

impl MapRangeCombiner {
    pub open spec fn wf(self) -> bool {
        forall|i: int| 0 <= i < self.mappers@.len() ==> (#[trigger] self.mappers@[i]).wf()
    }

    /// Evaluates a range through the layers from `map_index` on, depth
    /// first: every fragment a layer produces is evaluated against the
    /// next layer, and all final fragments are collected.
    #[verifier::loop_isolation(false)]
    pub fn evaluate_range(&self, range: &Range, map_index: usize) -> (out: Vec<Range>)
        requires
            self.wf(),
            range.wf(),
        ensures
            map_index <= self.mappers@.len() ==> out@ == combiner_outputs(
                self.mappers@.skip(map_index as int),
                *range,
            ),
            map_index > self.mappers@.len() ==> out@ =~= seq![*range],
            forall|i: int| 0 <= i < out@.len() ==> (#[trigger] out@[i]).wf(),
        decreases self.mappers@.len() - map_index,
    {
        if map_index >= self.mappers.len() {
            let mut out: Vec<Range> = Vec::new();
            out.push(*range);
            proof {
                if map_index == self.mappers@.len() {
                    assert(self.mappers@.skip(map_index as int).len() == 0);
                    assert(out@ =~= combiner_outputs(self.mappers@.skip(map_index as int), *range));
                }
            }
            return out;
        }
        let ghost rest = self.mappers@.skip(map_index as int + 1);
        let current_mapper = &self.mappers[map_index];
        let sub = current_mapper.evaluate_range(range);
        let mut out: Vec<Range> = Vec::new();
        proof {
            assert(sub@.skip(0) =~= sub@);
            assert(out@ + fanout_outputs(sub@, rest) =~= fanout_outputs(sub@, rest));
        }
        let mut k: usize = 0;
        while k < sub.len()
            invariant
                k <= sub@.len(),
                forall|i: int| 0 <= i < sub@.len() ==> (#[trigger] sub@[i]).wf(),
                out@ + fanout_outputs(sub@.skip(k as int), rest) == fanout_outputs(sub@, rest),
                forall|i: int| 0 <= i < out@.len() ==> (#[trigger] out@[i]).wf(),
            decreases sub@.len() - k,
        {
            let mut rec = self.evaluate_range(&sub[k], map_index + 1);
            proof {
                assert(sub@.skip(k as int)[0] == sub@[k as int]);
                assert(sub@.skip(k as int).skip(1) =~= sub@.skip(k as int + 1));
                assert(fanout_outputs(sub@.skip(k as int), rest) == combiner_outputs(
                    rest,
                    sub@[k as int],
                ) + fanout_outputs(sub@.skip(k as int + 1), rest));
            }
            let ghost out_pre = out@;
            out.append(&mut rec);
            proof {
                assert(out@ + fanout_outputs(sub@.skip(k as int + 1), rest) =~= fanout_outputs(
                    sub@,
                    rest,
                ));
            }
            k = k + 1;
        }
        proof {
            assert(sub@.skip(sub@.len() as int) =~= Seq::<Range>::empty());
            assert(out@ + Seq::<Range>::empty() =~= out@);
            assert(self.mappers@.skip(map_index as int)[0] == self.mappers@[map_index as int]);
            assert(self.mappers@.skip(map_index as int).skip(1) =~= rest);
        }
        out
    }
}

/// All outputs of the chain for a sequence of seed ranges, in order.
pub open spec fn all_outputs(layers: Seq<MapRangeLayer>, seeds: Seq<Range>) -> Seq<Range>
    decreases seeds.len(),
{
    if seeds.len() == 0 {
        Seq::<Range>::empty()
    } else {
        combiner_outputs(layers, seeds[0]) + all_outputs(layers, seeds.skip(1))
    }
}

/// `min_start` never exceeds its seed value.
pub proof fn lemma_min_start_le_max(rs: Seq<Range>)
    ensures
        min_start(rs) <= usize::MAX,
    decreases rs.len(),
{
    if rs.len() > 0 {
        lemma_min_start_le_max(rs.skip(1));
    }
}

/// `min_start` of a concatenation is the smaller of the two parts'.
pub proof fn lemma_min_start_concat(a: Seq<Range>, b: Seq<Range>)
    ensures
        min_start(a + b) == if min_start(a) <= min_start(b) {
            min_start(a)
        } else {
            min_start(b)
        },
    decreases a.len(),
{
    if a.len() == 0 {
        assert(a + b =~= b);
    } else {
        assert((a + b).skip(1) =~= a.skip(1) + b);
        lemma_min_start_concat(a.skip(1), b);
        assert((a + b)[0] == a[0]);
    }
}

/// Evaluates every seed range through the whole chain and returns the
/// smallest start among all resulting ranges; `usize::MAX` when there is
/// nothing to evaluate.
#[verifier::loop_isolation(false)]
pub fn find_min_location_for_seed_range(
    seed_ranges: Vec<Range>,
    evaluator: &MapRangeCombiner,
) -> (res: usize)
    requires
        evaluator.wf(),
        forall|i: int| 0 <= i < seed_ranges@.len() ==> (#[trigger] seed_ranges@[i]).wf(),
    ensures
        res == min_start(all_outputs(evaluator.mappers@, seed_ranges@)),
{
    let ghost layers = evaluator.mappers@;
    let mut min_seed_value: usize = usize::MAX;
    proof {
        assert(seed_ranges@.skip(0) =~= seed_ranges@);
        lemma_min_start_le_max(all_outputs(layers, seed_ranges@));
    }
    let mut i: usize = 0;
    while i < seed_ranges.len()
        invariant
            i <= seed_ranges@.len(),
            ({
                let rest = all_outputs(layers, seed_ranges@.skip(i as int));
                min_start(all_outputs(layers, seed_ranges@)) == if min_seed_value
                    <= min_start(rest) {
                    min_seed_value as int
                } else {
                    min_start(rest)
                }
            }),
        decreases seed_ranges@.len() - i,
    {
        let seed = seed_ranges[i];
        let values = evaluator.evaluate_range(&seed, 0);
        let ghost outs = combiner_outputs(layers, seed);
        proof {
            assert(layers.skip(0) =~= layers);
            assert(seed_ranges@.skip(i as int)[0] == seed_ranges@[i as int]);
            assert(seed_ranges@.skip(i as int).skip(1) =~= seed_ranges@.skip(i as int + 1));
            assert(all_outputs(layers, seed_ranges@.skip(i as int)) == outs + all_outputs(
                layers,
                seed_ranges@.skip(i as int + 1),
            ));
            lemma_min_start_concat(outs, all_outputs(layers, seed_ranges@.skip(i as int + 1)));
            lemma_min_start_le_max(outs);
            lemma_min_start_le_max(all_outputs(layers, seed_ranges@.skip(i as int + 1)));
            assert(outs.skip(0) =~= outs);
        }
        let mut k: usize = 0;
        while k < values.len()
            invariant
                k <= values@.len(),
                values@ == outs,
                ({
                    let rest = all_outputs(layers, seed_ranges@.skip(i as int + 1));
                    let here = outs.skip(k as int);
                    min_start(all_outputs(layers, seed_ranges@)) == if min_seed_value <= min_start(
                        here,
                    ) && min_seed_value <= min_start(rest) {
                        min_seed_value as int
                    } else if min_start(here) <= min_start(rest) {
                        min_start(here)
                    } else {
                        min_start(rest)
                    }
                }),
            decreases values@.len() - k,
        {
            let val = values[k];
            proof {
                assert(outs.skip(k as int)[0] == outs[k as int]);
                assert(outs.skip(k as int).skip(1) =~= outs.skip(k as int + 1));
            }
            if val.start < min_seed_value {
                min_seed_value = val.start;
            }
            k = k + 1;
        }
        proof {
            assert(outs.skip(outs.len() as int) =~= Seq::<Range>::empty());
        }
        i = i + 1;
    }
    proof {
        assert(seed_ranges@.skip(seed_ranges@.len() as int) =~= Seq::<Range>::empty());
    }
    min_seed_value
}

/// A stage built from zero explicit rules holds one identity rule over the
/// whole domain and returns every input range unchanged.
pub proof fn lemma_identity_layer(rules: Seq<MapRange>, r: Range)
    requires
        rules =~= seq![MapRange { range: Range { start: 0, end: usize::MAX }, delta: 0 }],
        r.wf(),
    ensures
        layer_outputs(rules, r) =~= seq![r],
{
    assert(rules[0].range.spec_contains(r.start as int));
    assert(rules[0].range.spec_contains(r.end as int));
    assert(idx_of(rules, r.start as int) == 0);
    assert(idx_of(rules, r.end as int) == 0);
    assert(rules[0].range.spec_intersect(r) == r);
    assert(r.spec_shift(0) == r);
    assert(layer_outputs(rules, r).len() == 1);
    assert(layer_outputs(rules, r)[0] == r);
}

/// A pipeline with no stages is the identity: it returns exactly the
/// input range.
pub proof fn lemma_pipeline_identity_empty(layers: Seq<MapRangeLayer>, r: Range)
    requires
        layers.len() == 0,
    ensures
        combiner_outputs(layers, r) =~= seq![r],
{
}

/// The value a well-formed layer assigns to `v` is `v` plus the delta of
/// the one rule that contains it.
pub proof fn lemma_layer_value_idx(rules: Seq<MapRange>, v: int)
    requires
        rules_cover_domain(rules),
        0 <= v <= usize::MAX,
    ensures
        layer_value(rules, v) == v + rules[idx_of(rules, v)].delta,
        0 <= layer_value(rules, v) <= usize::MAX,
{
    lemma_total_coverage(rules, v);
    lemma_contiguous_disjoint(rules);
    lemma_layer_value_at(rules, v, idx_of(rules, v));
    assert(rules[idx_of(rules, v)].wf());
}

/// Point-vs-range equivalence: pushing the single-value range `[v, v]`
/// through the pipeline yields exactly one single-value range, holding
/// the scalar image of `v` under the chained per-stage value maps.
pub proof fn lemma_point_evaluation(layers: Seq<MapRangeLayer>, v: int)
    requires
        forall|i: int| 0 <= i < layers.len() ==> (#[trigger] layers[i]).wf(),
        0 <= v <= usize::MAX,
    ensures
        0 <= pipeline_value(layers, v) <= usize::MAX,
        combiner_outputs(layers, Range { start: v as usize, end: v as usize }) =~= seq![
            Range {
                start: pipeline_value(layers, v) as usize,
                end: pipeline_value(layers, v) as usize,
            },
        ],
    decreases layers.len(),
{
    let r = Range { start: v as usize, end: v as usize };
    if layers.len() == 0 {
    } else {
        let rules = layers[0].ranges@;
        lemma_layer_value_idx(rules, v);
        let w = layer_value(rules, v);
        let idx = idx_of(rules, v);
        lemma_total_coverage(rules, v);
        let outs0 = layer_outputs(rules, r);
        assert(outs0.len() == 1);
        assert(rules[idx].range.spec_intersect(r) == r);
        assert(outs0[0] == Range { start: w as usize, end: w as usize });
        let rest = layers.skip(1);
        assert(forall|i: int| 0 <= i < rest.len() ==> (#[trigger] rest[i]).wf()) by {
            assert forall|i: int| 0 <= i < rest.len() implies (#[trigger] rest[i]).wf() by {
                assert(rest[i] == layers[i + 1]);
            }
        }
        lemma_point_evaluation(rest, w);
        let rw = Range { start: w as usize, end: w as usize };
        assert(fanout_outputs(outs0, rest) == combiner_outputs(rest, outs0[0]) + fanout_outputs(
            outs0.skip(1),
            rest,
        ));
        assert(outs0.skip(1).len() == 0);
        assert(fanout_outputs(outs0.skip(1), rest) =~= Seq::<Range>::empty());
        assert(combiner_outputs(rest, rw) + Seq::<Range>::empty() =~= combiner_outputs(rest, rw));
        assert(pipeline_value(layers, v) == pipeline_value(rest, w));
    }
}

/// Smallest pipeline image of any value in `[lo, hi]`.
pub open spec fn pipeline_range_min(layers: Seq<MapRangeLayer>, lo: int, hi: int) -> int
    decreases hi - lo,
{
    if lo >= hi {
        pipeline_value(layers, hi)
    } else {
        let a = pipeline_value(layers, lo);
        let b = pipeline_range_min(layers, lo + 1, hi);
        if a <= b {
            a
        } else {
            b
        }
    }
}

/// A chain of well-formed layers keeps values inside the domain.
pub proof fn lemma_pipeline_value_bounds(layers: Seq<MapRangeLayer>, v: int)
    requires
        forall|i: int| 0 <= i < layers.len() ==> (#[trigger] layers[i]).wf(),
        0 <= v <= usize::MAX,
    ensures
        0 <= pipeline_value(layers, v) <= usize::MAX,
    decreases layers.len(),
{
    if layers.len() > 0 {
        lemma_layer_value_idx(layers[0].ranges@, v);
        let rest = layers.skip(1);
        assert forall|i: int| 0 <= i < rest.len() implies (#[trigger] rest[i]).wf() by {
            assert(rest[i] == layers[i + 1]);
        }
        lemma_pipeline_value_bounds(rest, layer_value(layers[0].ranges@, v));
    }
}

/// The minimum image over an interval splits at any interior point.
pub proof fn lemma_pipeline_range_min_split(layers: Seq<MapRangeLayer>, lo: int, m: int, hi: int)
    requires
        lo <= m < hi,
    ensures
        pipeline_range_min(layers, lo, hi) == if pipeline_range_min(layers, lo, m)
            <= pipeline_range_min(layers, m + 1, hi) {
            pipeline_range_min(layers, lo, m)
        } else {
            pipeline_range_min(layers, m + 1, hi)
        },
    decreases m - lo,
{
    if lo < m {
        lemma_pipeline_range_min_split(layers, lo + 1, m, hi);
    }
}

/// When every value of `[lo, hi]` has the same image under `layers` as its
/// translate by `d` has under `rest`, the interval minima agree.
pub proof fn lemma_pipeline_range_min_shift(
    layers: Seq<MapRangeLayer>,
    rest: Seq<MapRangeLayer>,
    lo: int,
    hi: int,
    d: int,
)
    requires
        lo <= hi,
        forall|v: int|
            lo <= v <= hi ==> pipeline_value(layers, v) == pipeline_value(rest, v + d),
    ensures
        pipeline_range_min(layers, lo, hi) == pipeline_range_min(rest, lo + d, hi + d),
    decreases hi - lo,
{
    if lo < hi {
        lemma_pipeline_range_min_shift(layers, rest, lo + 1, hi, d);
    }
}

/// With no layers the smallest image of an interval is its lower end.
pub proof fn lemma_pipeline_range_min_empty(layers: Seq<MapRangeLayer>, lo: int, hi: int)
    requires
        layers.len() == 0,
        lo <= hi,
    ensures
        pipeline_range_min(layers, lo, hi) == lo,
    decreases hi - lo,
{
    if lo < hi {
        lemma_pipeline_range_min_empty(layers, lo + 1, hi);
    }
}

/// A range touching more than one rule splits into the first shifted
/// intersection followed by the outputs of the rest of the range.
pub proof fn lemma_layer_outputs_step(rules: Seq<MapRange>, r: Range)
    requires
        rules_cover_domain(rules),
        r.wf(),
        idx_of(rules, r.start as int) < idx_of(rules, r.end as int),
    ensures
        ({
            let lo = idx_of(rules, r.start as int);
            let c = rules[lo].range.end as int;
            let rest = Range { start: (c + 1) as usize, end: r.end };
            &&& c < r.end
            &&& rest.wf()
            &&& idx_of(rules, rest.start as int) == lo + 1
            &&& idx_of(rules, rest.end as int) == idx_of(rules, r.end as int)
            &&& layer_outputs(rules, r) =~= seq![
                Range {
                    start: (r.start + rules[lo].delta) as usize,
                    end: (c + rules[lo].delta) as usize,
                },
            ] + layer_outputs(rules, rest)
        }),
{
    let lo = idx_of(rules, r.start as int);
    let hi = idx_of(rules, r.end as int);
    lemma_block_intersections(rules, r);
    let c = rules[lo].range.end as int;
    assert(rules[lo + 1].range.start == rules[lo].range.end + 1);
    lemma_total_coverage(rules, c + 1);
    if idx_of(rules, c + 1) != lo + 1 {
        assert(rules[lo + 1].range.spec_contains(c + 1));
    }
    lemma_rules_ordered(rules, lo, hi);
    assert(c < r.end);
    let rest = Range { start: (c + 1) as usize, end: r.end };
    lemma_block_intersections(rules, rest);
    let outs = layer_outputs(rules, r);
    let outs_rest = layer_outputs(rules, rest);
    assert(rules[lo].range.spec_intersect(r) == Range { start: r.start, end: c as usize });
    assert forall|k: int| 0 <= k < outs_rest.len() implies outs[k + 1] == outs_rest[k] by {
        let j = lo + 1 + k;
        lemma_rules_ordered(rules, lo, j);
        assert(rules[j].range.spec_intersect(r) == rules[j].range.spec_intersect(rest));
    }
}

/// The externally meaningful query: the smallest start among all output
/// fragments of a pipeline equals the smallest image of any single value
/// of the input range.
pub proof fn lemma_min_pipeline(layers: Seq<MapRangeLayer>, r: Range)
    requires
        forall|i: int| 0 <= i < layers.len() ==> (#[trigger] layers[i]).wf(),
        r.wf(),
    ensures
        min_start(combiner_outputs(layers, r)) == pipeline_range_min(
            layers,
            r.start as int,
            r.end as int,
        ),
    decreases layers.len(), r.end - r.start,
{
    if layers.len() == 0 {
        lemma_pipeline_range_min_empty(layers, r.start as int, r.end as int);
        let outs = combiner_outputs(layers, r);
        assert(outs[0] == r);
        assert(outs.skip(1).len() == 0);
        assert(min_start(outs.skip(1)) == usize::MAX as int);
        assert(min_start(outs) == r.start as int);
        assert(min_start(outs) == pipeline_range_min(layers, r.start as int, r.end as int));
    } else {
        let rules = layers[0].ranges@;
        let rest = layers.skip(1);
        assert forall|i: int| 0 <= i < rest.len() implies (#[trigger] rest[i]).wf() by {
            assert(rest[i] == layers[i + 1]);
        }
        let lo = idx_of(rules, r.start as int);
        let hi = idx_of(rules, r.end as int);
        lemma_block_intersections(rules, r);
        let d = rules[lo].delta as int;
        assert forall|v: int| r.start <= v <= rules[lo].range.end implies pipeline_value(
            layers,
            v,
        ) == pipeline_value(rest, v + d) by {
            lemma_contiguous_disjoint(rules);
            lemma_layer_value_at(rules, v, lo);
        }
        if lo == hi {
            let f = Range { start: (r.start + d) as usize, end: (r.end + d) as usize };
            let outs0 = layer_outputs(rules, r);
            assert(rules[lo].range.spec_intersect(r) == r);
            assert(rules[lo].wf());
            assert(0 <= r.start + d && r.end + d <= usize::MAX);
            assert(f == r.spec_shift(d) && f.wf());
            assert(outs0.len() == 1 && outs0[0] == f);
            assert(combiner_outputs(layers, r) == fanout_outputs(outs0, rest));
            assert(outs0.skip(1).len() == 0);
            assert(fanout_outputs(outs0.skip(1), rest) =~= Seq::<Range>::empty());
            assert(fanout_outputs(outs0, rest) == combiner_outputs(rest, f) + Seq::<
                Range,
            >::empty());
            lemma_min_start_concat(combiner_outputs(rest, f), Seq::<Range>::empty());
            lemma_min_start_le_max(combiner_outputs(rest, f));
            lemma_min_pipeline(rest, f);
            lemma_pipeline_range_min_shift(layers, rest, r.start as int, r.end as int, d);
            assert(min_start(combiner_outputs(layers, r)) == pipeline_range_min(
                layers,
                r.start as int,
                r.end as int,
            ));
        } else {
            lemma_layer_outputs_step(rules, r);
            let c = rules[lo].range.end as int;
            let r2 = Range { start: (c + 1) as usize, end: r.end };
            let f1 = Range { start: (r.start + d) as usize, end: (c + d) as usize };
            assert(rules[lo].wf());
            assert(0 <= r.start + d && c + d <= usize::MAX);
            assert(r.start <= c) by {
                assert(rules[lo].range.spec_contains(r.start as int));
            }
            assert(f1.wf());
            let outs0 = layer_outputs(rules, r);
            let outs2 = layer_outputs(rules, r2);
            assert(outs0 =~= seq![f1] + outs2);
            assert(outs0[0] == f1);
            assert(outs0.skip(1) =~= outs2);
            assert(fanout_outputs(outs0, rest) == combiner_outputs(rest, f1) + fanout_outputs(
                outs2,
                rest,
            ));
            assert(combiner_outputs(layers, r2) == fanout_outputs(outs2, rest));
            lemma_min_start_concat(combiner_outputs(rest, f1), fanout_outputs(outs2, rest));
            lemma_min_pipeline(rest, f1);
            lemma_min_pipeline(layers, r2);
            lemma_pipeline_range_min_shift(layers, rest, r.start as int, c, d);
            lemma_pipeline_range_min_split(layers, r.start as int, c, r.end as int);
            assert(min_start(combiner_outputs(layers, r)) == pipeline_range_min(
                layers,
                r.start as int,
                r.end as int,
            ));
        }
    }
}

/// Boundary split: a range that straddles the left boundary of a rule is
/// split into exactly two outputs — the unshifted left remainder and the
/// shifted overlapping part — whose lengths add up to the input's, with
/// nothing left over.  For a non-negative delta the two parts do not
/// overlap.
pub proof fn lemma_boundary_split(mr: MapRange, r: Range)
    requires
        mr.wf(),
        r.wf(),
        r.start < mr.range.start,
        mr.range.start <= r.end <= mr.range.end,
    ensures
        ({
            let (outs, rem) = mr.rule_apply(r);
            let left = Range { start: r.start, end: (mr.range.start - 1) as usize };
            let moved = Range {
                start: (mr.range.start + mr.delta) as usize,
                end: (r.end + mr.delta) as usize,
            };
            &&& outs =~= seq![left, moved]
            &&& rem is None
            &&& left.length() + moved.length() == r.length()
            &&& mr.delta >= 0 ==> !left.spec_overlaps(moved)
        }),
{
    let inter = mr.range.spec_intersect(r);
    assert(inter == Range { start: mr.range.start, end: r.end });
    assert(0 <= inter.start + mr.delta);
    assert(inter.end + mr.delta <= usize::MAX);
}

/// The grammar of one rule line: `<destination-start> <source-start>
/// <length>`, three decimal numbers separated by runs of spaces or tabs,
/// anything after the third number ignored.  The rule maps the `length`
/// source values starting at `source-start` to the values starting at
/// `destination-start`.  Lines whose numbers do not fit the machine's
/// integer types, or whose length is zero, are rejected.
pub open spec fn spec_parse_rule(s: Seq<char>) -> Option<MapRange> {
    let n1 = digit_run_len(s, 0);
    if n1 == 0 || dec_val(s.subrange(0, n1)) > usize::MAX {
        None
    } else {
        let dest = dec_val(s.subrange(0, n1));
        let sp1 = space_run_len(s, n1);
        if sp1 == 0 {
            None
        } else {
            let p2 = n1 + sp1;
            let n2 = digit_run_len(s, p2);
            if n2 == 0 || dec_val(s.subrange(p2, p2 + n2)) > usize::MAX {
                None
            } else {
                let src = dec_val(s.subrange(p2, p2 + n2));
                let p3 = p2 + n2;
                let sp2 = space_run_len(s, p3);
                if sp2 == 0 {
                    None
                } else {
                    let p4 = p3 + sp2;
                    let n3 = digit_run_len(s, p4);
                    if n3 == 0 || dec_val(s.subrange(p4, p4 + n3)) > usize::MAX {
                        None
                    } else {
                        let len = dec_val(s.subrange(p4, p4 + n3));
                        if len < 1 || src + len - 1 > usize::MAX || dest + len - 1 > usize::MAX
                            || dest - src < isize::MIN || dest - src > isize::MAX {
                            None
                        } else {
                            Some(
                                MapRange {
                                    range: Range {
                                        start: src as usize,
                                        end: (src + len - 1) as usize,
                                    },
                                    delta: (dest - src) as isize,
                                },
                            )
                        }
                    }
                }
            }
        }
    }
}

/// A rule line that parses yields a well-formed rule.
pub proof fn lemma_parse_rule_wf(s: Seq<char>)
    ensures
        spec_parse_rule(s) is Some ==> spec_parse_rule(s)->Some_0.wf(),
{
    if spec_parse_rule(s) is Some {
        let n1 = digit_run_len(s, 0);
        let p2 = n1 + space_run_len(s, n1);
        let n2 = digit_run_len(s, p2);
        let p4 = p2 + n2 + space_run_len(s, p2 + n2);
        let n3 = digit_run_len(s, p4);
        crate::parsers::lemma_digit_run_len_bounds(s, 0);
        lemma_space_run_len_bounds(s, n1);
        crate::parsers::lemma_digit_run_len_bounds(s, p2);
        lemma_space_run_len_bounds(s, p2 + n2);
        crate::parsers::lemma_digit_run_len_bounds(s, p4);
        lemma_run_val_nonneg(s, 0);
        lemma_run_val_nonneg(s, p2);
        lemma_run_val_nonneg(s, p4);
    }
}

/// The decimal value of the digit run at `from` is non-negative.
pub proof fn lemma_run_val_nonneg(s: Seq<char>, from: int)
    requires
        0 <= from <= s.len(),
    ensures
        dec_val(s.subrange(from, from + digit_run_len(s, from))) >= 0,
{
    crate::parsers::lemma_digit_run_len_bounds(s, from);
    let n = digit_run_len(s, from);
    let run = s.subrange(from, from + n);
    assert forall|t: int| 0 <= t < run.len() implies crate::parsers::is_digit_char(
        #[trigger] run[t],
    ) by {
        crate::parsers::lemma_digit_run_all_digits(s, from, from + t);
    }
    crate::parsers::lemma_dec_val_nonneg(run);
}

/// Parses one rule line of a stage block.
pub fn parse_range_mapper(line: &str) -> (r: Option<MapRange>)
    ensures
        r == spec_parse_rule(line@),
{
    let r1 = parse_number_at(line, 0);
    let (dest, p1) = match r1 {
        None => {
            return None;
        },
        Some(t) => t,
    };
    let p2 = skip_spaces(line, p1);
    if p2 == p1 {
        return None;
    }
    let r2 = parse_number_at(line, p2);
    let (src, p3) = match r2 {
        None => {
            return None;
        },
        Some(t) => t,
    };
    let p4 = skip_spaces(line, p3);
    if p4 == p3 {
        return None;
    }
    let r3 = parse_number_at(line, p4);
    let (len, _p5) = match r3 {
        None => {
            return None;
        },
        Some(t) => t,
    };
    if len < 1 {
        return None;
    }
    if len - 1 > usize::MAX - src {
        return None;
    }
    if len - 1 > usize::MAX - dest {
        return None;
    }
    let delta: isize = if dest >= src {
        let diff = dest - src;
        if diff > (isize::MAX as usize) {
            return None;
        }
        diff as isize
    } else {
        let diff = src - dest;
        if diff <= (isize::MAX as usize) {
            -(diff as isize)
        } else if diff == (isize::MAX as usize) + 1 {
            isize::MIN
        } else {
            return None;
        }
    };
    Some(MapRange { range: Range { start: src, end: src + (len - 1) }, delta })
}

/// The header that introduces the seed list.
pub open spec fn seeds_prefix() -> Seq<char> {
    seq!['s', 'e', 'e', 'd', 's', ':', ' ']
}

/// Decimal numbers separated by single spaces, from `from` to the end of
/// the line.
pub open spec fn spec_numbers(s: Seq<char>, from: int) -> Option<Seq<int>>
    decreases s.len() - from,
{
    if !(0 <= from <= s.len()) {
        None
    } else {
        let n = digit_run_len(s, from);
        if n <= 0 || dec_val(s.subrange(from, from + n)) > usize::MAX {
            None
        } else {
            let v = dec_val(s.subrange(from, from + n));
            let p = from + n;
            if p >= s.len() {
                Some(seq![v])
            } else if s[p] == ' ' {
                match spec_numbers(s, p + 1) {
                    None => None,
                    Some(rest) => Some(seq![v] + rest),
                }
            } else {
                None
            }
        }
    }
}

/// The grammar of the seed line: the header followed by one or more
/// numbers separated by single spaces.
pub open spec fn spec_parse_seeds(s: Seq<char>) -> Option<Seq<int>> {
    if s.len() < 7 || s.subrange(0, 7) != seeds_prefix() {
        None
    } else {
        spec_numbers(s, 7)
    }
}

/// Parses the seed line into its list of values.
#[verifier::loop_isolation(false)]
pub fn parse_seeds(line: &str) -> (r: Option<Vec<usize>>)
    ensures
        match r {
            Some(vals) => {
                &&& spec_parse_seeds(line@) is Some
                &&& vals@.len() == spec_parse_seeds(line@)->Some_0.len()
                &&& forall|k: int|
                    0 <= k < vals@.len() ==> vals@[k] as int == spec_parse_seeds(
                        line@,
                    )->Some_0[k]
            },
            None => spec_parse_seeds(line@) is None,
        },
{
    let len = line.unicode_len();
    if len < 7 {
        return None;
    }
    if !(line.get_char(0) == 's' && line.get_char(1) == 'e' && line.get_char(2) == 'e'
        && line.get_char(3) == 'd' && line.get_char(4) == 's' && line.get_char(5) == ':'
        && line.get_char(6) == ' ') {
        proof {
            assert(line@.subrange(0, 7) != seeds_prefix());
        }
        return None;
    }
    proof {
        assert(line@.subrange(0, 7) =~= seeds_prefix());
    }
    let mut vals: Vec<usize> = Vec::new();
    let mut pos: usize = 7;
    loop
        invariant
            7 <= pos <= line@.len(),
            ({
                let full = spec_parse_seeds(line@);
                let rest = spec_numbers(line@, pos as int);
                match full {
                    None => rest is None,
                    Some(all) => {
                        &&& rest is Some
                        &&& all =~= Seq::new(vals@.len(), |k: int| vals@[k] as int)
                            + rest->Some_0
                    },
                }
            }),
        decreases line@.len() - pos,
    {
        let num = parse_number_at(line, pos);
        let (v, end) = match num {
            None => {
                return None;
            },
            Some(t) => t,
        };
        let ghost pre = vals@;
        vals.push(v);
        proof {
            let rest0 = spec_numbers(line@, pos as int);
            if end >= line@.len() {
                assert(rest0 == Some(seq![v as int]));
                assert(Seq::new(pre.len(), |k: int| pre[k] as int) + seq![v as int] =~= Seq::new(
                    vals@.len(),
                    |k: int| vals@[k] as int,
                ));
            } else if line@[end as int] == ' ' {
                if spec_numbers(line@, end as int + 1) is Some {
                    assert(Seq::new(pre.len(), |k: int| pre[k] as int) + (seq![v as int]
                        + spec_numbers(line@, end as int + 1)->Some_0) =~= Seq::new(
                        vals@.len(),
                        |k: int| vals@[k] as int,
                    ) + spec_numbers(line@, end as int + 1)->Some_0);
                }
            }
        }
        if end == len {
            proof {
                if spec_parse_seeds(line@) is Some {
                    assert(spec_parse_seeds(line@)->Some_0 =~= Seq::new(
                        vals@.len(),
                        |k: int| vals@[k] as int,
                    ));
                }
            }
            return Some(vals);
        }
        if line.get_char(end) != ' ' {
            return None;
        }
        pos = end + 1;
    }
}

/// Index of the first empty line, or the length when none is empty.
pub open spec fn first_empty(ls: Seq<Seq<char>>) -> int
    decreases ls.len(),
{
    if ls.len() == 0 {
        0
    } else if ls[0].len() == 0 {
        0
    } else {
        1 + first_empty(ls.skip(1))
    }
}

pub proof fn lemma_first_empty_at(ls: Seq<Seq<char>>, m: int)
    requires
        0 <= m <= ls.len(),
        forall|t: int| 0 <= t < m ==> (#[trigger] ls[t]).len() > 0,
        m < ls.len() ==> ls[m].len() == 0,
    ensures
        first_empty(ls) == m,
    decreases m,
{
    if m > 0 {
        let rest = ls.skip(1);
        assert forall|t: int| 0 <= t < m - 1 implies (#[trigger] rest[t]).len() > 0 by {
            assert(rest[t] == ls[t + 1]);
        }
        assert(m - 1 < rest.len() ==> rest[m - 1].len() == 0);
        lemma_first_empty_at(rest, m - 1);
    }
}

/// The rules of one stage block, one per line; `None` when any line is
/// not a valid rule line.
pub open spec fn spec_parse_rule_lines(ls: Seq<Seq<char>>) -> Option<Seq<MapRange>>
    decreases ls.len(),
{
    if ls.len() == 0 {
        Some(Seq::<MapRange>::empty())
    } else {
        match spec_parse_rule(ls[0]) {
            None => None,
            Some(mr) => match spec_parse_rule_lines(ls.skip(1)) {
                None => None,
                Some(rest) => Some(seq![mr] + rest),
            },
        }
    }
}

pub proof fn lemma_rule_lines_wf(ls: Seq<Seq<char>>)
    requires
        spec_parse_rule_lines(ls) is Some,
    ensures
        spec_parse_rule_lines(ls)->Some_0.len() == ls.len(),
        forall|k: int|
            0 <= k < ls.len() ==> (#[trigger] spec_parse_rule_lines(ls)->Some_0[k]).wf(),
    decreases ls.len(),
{
    if ls.len() > 0 {
        lemma_parse_rule_wf(ls[0]);
        lemma_rule_lines_wf(ls.skip(1));
    }
}

/// The rule lists of the stage blocks: blocks are separated by empty
/// lines, and the first line of each block (its name) is skipped.
pub open spec fn spec_parse_blocks(ls: Seq<Seq<char>>) -> Option<Seq<Seq<MapRange>>>
    decreases ls.len(),
{
    if ls.len() == 0 {
        Some(Seq::<Seq<MapRange>>::empty())
    } else {
        let e = first_empty(ls);
        let rules = if e == 0 {
            Some(Seq::<MapRange>::empty())
        } else {
            spec_parse_rule_lines(ls.subrange(1, e))
        };
        match rules {
            None => None,
            Some(rs) => if e >= ls.len() || e < 0 {
                Some(seq![rs])
            } else {
                match spec_parse_blocks(ls.skip(e + 1)) {
                    None => None,
                    Some(bs) => Some(seq![rs] + bs),
                }
            },
        }
    }
}

/// The views of a sequence of owned lines.
pub open spec fn lines_views(lines: Seq<String>) -> Seq<Seq<char>> {
    lines.map_values(|l: String| l@)
}

/// What the constructor needs of every parsed block: rules that do not
/// touch the top of the domain and do not overlap each other.
pub open spec fn day5_blocks_ok(bs: Seq<Seq<MapRange>>) -> bool {
    forall|k: int|
        0 <= k < bs.len() ==> rules_disjoint(#[trigger] bs[k]) && (forall|i: int|
            0 <= i < bs[k].len() ==> (#[trigger] bs[k][i]).range.end < usize::MAX)
}

/// Builds one layer per stage block of the input, preserving each block's
/// value map.
#[verifier::loop_isolation(false)]
#[verifier::rlimit(100)]
fn build_layers(lines: &Vec<String>) -> (res: Vec<MapRangeLayer>)
    requires
        2 <= lines@.len() < usize::MAX,
        spec_parse_blocks(lines_views(lines@).skip(2)) is Some,
        day5_blocks_ok(spec_parse_blocks(lines_views(lines@).skip(2))->Some_0),
    ensures
        ({
            let bs = spec_parse_blocks(lines_views(lines@).skip(2))->Some_0;
            &&& res@.len() == bs.len()
            &&& forall|k: int| 0 <= k < res@.len() ==> (#[trigger] res@[k]).wf()
            &&& forall|k: int, w: int|
                0 <= k < res@.len() && 0 <= w <= usize::MAX ==> #[trigger] layer_value(
                    res@[k].ranges@,
                    w,
                ) == layer_value(bs[k], w)
        }),
{
    let ghost ls = lines_views(lines@);
    let ghost bs = spec_parse_blocks(ls.skip(2))->Some_0;
    let n = lines.len();
    let mut mappers: Vec<MapRangeLayer> = Vec::new();
    let mut i: usize = 2;
    while i < n
        invariant
            2 <= i <= n + 1,
            mappers@.len() <= bs.len(),
            i <= n ==> spec_parse_blocks(ls.skip(i as int)) == Some(
                bs.skip(mappers@.len() as int),
            ),
            i > n ==> mappers@.len() == bs.len(),
            forall|k: int| 0 <= k < mappers@.len() ==> (#[trigger] mappers@[k]).wf(),
            forall|k: int, w: int|
                0 <= k < mappers@.len() && 0 <= w <= usize::MAX ==> #[trigger] layer_value(
                    mappers@[k].ranges@,
                    w,
                ) == layer_value(bs[k], w),
        decreases n + 1 - i,
    {
        let ghost done = mappers@.len() as int;
        let ghost remaining = ls.skip(i as int);
        let mut e: usize = i;
        while e < n && !lines[e].as_str().is_empty()
            invariant
                i <= e <= n,
                forall|t: int| i <= t < e ==> (#[trigger] ls[t]).len() > 0,
            decreases n - e,
        {
            proof {
                assert(ls[e as int] == lines@[e as int]@);
            }
            e = e + 1;
        }
        proof {
            assert(e < n ==> ls[e as int].len() == 0) by {
                if e < n {
                    assert(ls[e as int] == lines@[e as int]@);
                }
            }
            assert forall|t: int| 0 <= t < e - i implies (#[trigger] remaining[t]).len() > 0 by {
                assert(remaining[t] == ls[t + i]);
            }
            assert(e - i < remaining.len() ==> remaining[e - i].len() == 0);
            lemma_first_empty_at(remaining, e - i);
            assert(remaining.len() == n - i);
            assert(spec_parse_blocks(remaining) == Some(bs.skip(done)));
            assert(bs.skip(done).len() > 0);
            assert(0 <= done < bs.len());
            assert(bs.skip(done)[0] == bs[done]);
            if e > i {
                assert(remaining.subrange(1, e - i) =~= ls.subrange(i as int + 1, e as int));
            }
        }
        let ghost block_rules = bs[done];
        let name = if e > i {
            lines[i].clone()
        } else {
            String::new()
        };
        let mut maps: Vec<MapRange> = Vec::new();
        if e > i {
            let ghost rls = ls.subrange(i as int + 1, e as int);
            proof {
                assert(spec_parse_rule_lines(rls) == Some(block_rules));
                lemma_rule_lines_wf(rls);
            }
            let mut j: usize = i + 1;
            while j < e
                invariant
                    i + 1 <= j <= e,
                    maps@ =~= block_rules.take(j - (i + 1)),
                    spec_parse_rule_lines(ls.subrange(j as int, e as int)) == Some(
                        block_rules.skip(j - (i + 1)),
                    ),
                decreases e - j,
            {
                proof {
                    assert(ls.subrange(j as int, e as int)[0] == ls[j as int]);
                    assert(ls[j as int] == lines@[j as int]@);
                    assert(ls.subrange(j as int, e as int).skip(1) =~= ls.subrange(
                        j as int + 1,
                        e as int,
                    ));
                }
                let mr = parse_range_mapper(lines[j].as_str()).unwrap();
                maps.push(mr);
                proof {
                    let d = j - (i + 1);
                    assert(block_rules.skip(d)[0] == block_rules[d]);
                    assert(block_rules.skip(d).skip(1) =~= block_rules.skip(d + 1));
                    assert(maps@ =~= block_rules.take(d + 1));
                }
                j = j + 1;
            }
            proof {
                assert(maps@ =~= block_rules);
            }
        } else {
            proof {
                assert(maps@ =~= block_rules);
            }
        }
        proof {
            assert(rules_disjoint(maps@) && (forall|t: int|
                0 <= t < maps@.len() ==> (#[trigger] maps@[t]).range.end < usize::MAX)) by {
                assert(bs[done] == block_rules);
            }
            assert(forall|t: int| 0 <= t < maps@.len() ==> (#[trigger] maps@[t]).wf()) by {
                if e > i {
                    lemma_rule_lines_wf(ls.subrange(i as int + 1, e as int));
                }
            }
        }
        let layer = MapRangeLayer::from_ranges(name, maps);
        mappers.push(layer);
        proof {
            assert(mappers@[done] == layer);
            assert forall|k: int, w: int|
                0 <= k < mappers@.len() && 0 <= w <= usize::MAX implies #[trigger] layer_value(
                mappers@[k].ranges@,
                w,
            ) == layer_value(bs[k], w) by {
                if k < done {
                    assert(mappers@[k] == mappers@.take(done)[k]);
                }
            }
            if e as int + 1 <= n {
                assert(ls.skip(e as int + 1) =~= remaining.skip(e - i + 1));
                assert(bs.skip(done).skip(1) =~= bs.skip(done + 1));
            } else {
                assert(bs.skip(done) =~= seq![block_rules]);
                assert(mappers@.len() == bs.len());
            }
        }
        i = e + 1;
    }
    proof {
        if i == n {
            assert(ls.skip(n as int).len() == 0);
            assert(bs.skip(mappers@.len() as int).len() == 0);
        }
    }
    mappers
}

/// A value pushed through the chain of parsed blocks, each block acting
/// through its first matching rule (values outside every rule are kept).
pub open spec fn blocks_value(bs: Seq<Seq<MapRange>>, v: int) -> int
    decreases bs.len(),
{
    if bs.len() == 0 {
        v
    } else {
        blocks_value(bs.skip(1), layer_value(bs[0], v))
    }
}

/// Smallest image under the blocks of any value in `[lo, hi]`.
pub open spec fn blocks_range_min(bs: Seq<Seq<MapRange>>, lo: int, hi: int) -> int
    decreases hi - lo,
{
    if lo >= hi {
        blocks_value(bs, hi)
    } else {
        let a = blocks_value(bs, lo);
        let b = blocks_range_min(bs, lo + 1, hi);
        if a <= b {
            a
        } else {
            b
        }
    }
}

/// Smallest image of any single seed value; `usize::MAX` with no seeds.
pub open spec fn part1_min(bs: Seq<Seq<MapRange>>, seeds: Seq<int>) -> int
    decreases seeds.len(),
{
    if seeds.len() == 0 {
        usize::MAX as int
    } else {
        let a = blocks_value(bs, seeds[0]);
        let b = part1_min(bs, seeds.skip(1));
        if a <= b {
            a
        } else {
            b
        }
    }
}

/// Smallest image of any value of any seed range, the seeds read as
/// `(start, length)` pairs; `usize::MAX` with no pairs.
pub open spec fn part2_min(bs: Seq<Seq<MapRange>>, seeds: Seq<int>) -> int
    decreases seeds.len(),
{
    if seeds.len() < 2 {
        usize::MAX as int
    } else {
        let a = blocks_range_min(bs, seeds[0], seeds[0] + seeds[1] - 1);
        let b = part2_min(bs, seeds.skip(2));
        if a <= b {
            a
        } else {
            b
        }
    }
}

/// The whole input parses: a seed line, a separator, and stage blocks
/// whose rules stay clear of the top of the domain and of each other.
pub open spec fn day5_input_ok(ls: Seq<Seq<char>>) -> bool {
    &&& 2 <= ls.len() < usize::MAX
    &&& spec_parse_seeds(ls[0]) is Some
    &&& spec_parse_blocks(ls.skip(2)) is Some
    &&& day5_blocks_ok(spec_parse_blocks(ls.skip(2))->Some_0)
}

pub open spec fn day5_seeds(ls: Seq<Seq<char>>) -> Seq<int> {
    spec_parse_seeds(ls[0])->Some_0
}

pub open spec fn day5_blocks(ls: Seq<Seq<char>>) -> Seq<Seq<MapRange>> {
    spec_parse_blocks(ls.skip(2))->Some_0
}

/// The seed list read as `(start, length)` pairs: an even count, every
/// length positive, every pair's last value inside the domain.
pub open spec fn seed_pairs_ok(seeds: Seq<int>) -> bool {
    &&& seeds.len() % 2 == 0
    &&& forall|k: int|
        0 <= k && 2 * k + 1 < seeds.len() ==> #[trigger] seeds[2 * k + 1] >= 1 && seeds[2 * k]
            + seeds[2 * k + 1] - 1 <= usize::MAX
}

/// Layers that match the parsed blocks pointwise chain to the same value.
pub proof fn lemma_blocks_pipeline(
    layers: Seq<MapRangeLayer>,
    bs: Seq<Seq<MapRange>>,
    v: int,
)
    requires
        layers.len() == bs.len(),
        forall|k: int| 0 <= k < layers.len() ==> (#[trigger] layers[k]).wf(),
        forall|k: int, w: int|
            0 <= k < layers.len() && 0 <= w <= usize::MAX ==> #[trigger] layer_value(
                layers[k].ranges@,
                w,
            ) == layer_value(bs[k], w),
        0 <= v <= usize::MAX,
    ensures
        pipeline_value(layers, v) == blocks_value(bs, v),
        0 <= blocks_value(bs, v) <= usize::MAX,
    decreases layers.len(),
{
    if layers.len() > 0 {
        lemma_layer_value_idx(layers[0].ranges@, v);
        let w = layer_value(layers[0].ranges@, v);
        assert(w == layer_value(bs[0], v));
        let lrest = layers.skip(1);
        let brest = bs.skip(1);
        assert forall|k: int| 0 <= k < lrest.len() implies (#[trigger] lrest[k]).wf() by {
            assert(lrest[k] == layers[k + 1]);
        }
        assert forall|k: int, u: int|
            0 <= k < lrest.len() && 0 <= u <= usize::MAX implies #[trigger] layer_value(
            lrest[k].ranges@,
            u,
        ) == layer_value(brest[k], u) by {
            assert(lrest[k] == layers[k + 1] && brest[k] == bs[k + 1]);
            assert(layer_value(layers[k + 1].ranges@, u) == layer_value(bs[k + 1], u));
        }
        lemma_blocks_pipeline(lrest, brest, w);
    }
}

/// The interval minima agree as well.
pub proof fn lemma_blocks_range_min(
    layers: Seq<MapRangeLayer>,
    bs: Seq<Seq<MapRange>>,
    lo: int,
    hi: int,
)
    requires
        layers.len() == bs.len(),
        forall|k: int| 0 <= k < layers.len() ==> (#[trigger] layers[k]).wf(),
        forall|k: int, w: int|
            0 <= k < layers.len() && 0 <= w <= usize::MAX ==> #[trigger] layer_value(
                layers[k].ranges@,
                w,
            ) == layer_value(bs[k], w),
        0 <= lo <= hi <= usize::MAX,
    ensures
        pipeline_range_min(layers, lo, hi) == blocks_range_min(bs, lo, hi),
    decreases hi - lo,
{
    lemma_blocks_pipeline(layers, bs, lo);
    lemma_blocks_pipeline(layers, bs, hi);
    if lo < hi {
        lemma_blocks_range_min(layers, bs, lo + 1, hi);
    }
}

/// Evaluating every seed value as a single-value range gives the smallest
/// image of any seed.
pub proof fn lemma_part1_ranges(
    layers: Seq<MapRangeLayer>,
    bs: Seq<Seq<MapRange>>,
    seeds: Seq<int>,
    ranges: Seq<Range>,
)
    requires
        layers.len() == bs.len(),
        forall|k: int| 0 <= k < layers.len() ==> (#[trigger] layers[k]).wf(),
        forall|k: int, w: int|
            0 <= k < layers.len() && 0 <= w <= usize::MAX ==> #[trigger] layer_value(
                layers[k].ranges@,
                w,
            ) == layer_value(bs[k], w),
        ranges.len() == seeds.len(),
        forall|k: int| 0 <= k < seeds.len() ==> 0 <= #[trigger] seeds[k] <= usize::MAX,
        forall|k: int|
            0 <= k < seeds.len() ==> #[trigger] ranges[k] == (Range {
                start: seeds[k] as usize,
                end: seeds[k] as usize,
            }),
    ensures
        min_start(all_outputs(layers, ranges)) == part1_min(bs, seeds),
    decreases seeds.len(),
{
    if seeds.len() == 0 {
    } else {
        let v = seeds[0];
        lemma_point_evaluation(layers, v);
        lemma_blocks_pipeline(layers, bs, v);
        let pv = pipeline_value(layers, v);
        let outs = combiner_outputs(layers, ranges[0]);
        assert(outs =~= seq![Range { start: pv as usize, end: pv as usize }]);
        assert(outs.skip(1).len() == 0);
        assert(min_start(outs.skip(1)) == usize::MAX as int);
        assert(min_start(outs) == pv);
        lemma_part1_ranges(layers, bs, seeds.skip(1), ranges.skip(1));
        assert(all_outputs(layers, ranges) == outs + all_outputs(layers, ranges.skip(1)));
        lemma_min_start_concat(outs, all_outputs(layers, ranges.skip(1)));
    }
}

/// Evaluating the seed pairs as ranges gives the smallest image of any
/// value of any pair.
pub proof fn lemma_part2_ranges(
    layers: Seq<MapRangeLayer>,
    bs: Seq<Seq<MapRange>>,
    seeds: Seq<int>,
    ranges: Seq<Range>,
)
    requires
        layers.len() == bs.len(),
        forall|k: int| 0 <= k < layers.len() ==> (#[trigger] layers[k]).wf(),
        forall|k: int, w: int|
            0 <= k < layers.len() && 0 <= w <= usize::MAX ==> #[trigger] layer_value(
                layers[k].ranges@,
                w,
            ) == layer_value(bs[k], w),
        seeds.len() % 2 == 0,
        ranges.len() == seeds.len() / 2,
        forall|k: int| 0 <= k < seeds.len() ==> 0 <= #[trigger] seeds[k] <= usize::MAX,
        seed_pairs_ok(seeds),
        forall|k: int|
            0 <= 2 * k + 1 < seeds.len() ==> #[trigger] ranges[k] == (Range {
                start: seeds[2 * k] as usize,
                end: (seeds[2 * k] + seeds[2 * k + 1] - 1) as usize,
            }),
    ensures
        min_start(all_outputs(layers, ranges)) == part2_min(bs, seeds),
    decreases seeds.len(),
{
    if seeds.len() == 0 {
        assert(ranges.len() == 0);
    } else {
        let lo = seeds[0];
        let hi = seeds[0] + seeds[1] - 1;
        let k0: int = 0;
        assert(seeds[1] >= 1 && lo + seeds[1] - 1 <= usize::MAX) by {
            assert(seeds[2 * k0 + 1] == seeds[1]);
        }
        let r0 = ranges[0];
        assert(r0 == (Range { start: lo as usize, end: hi as usize })) by {
            assert(ranges[k0] == (Range {
                start: seeds[2 * k0] as usize,
                end: (seeds[2 * k0] + seeds[2 * k0 + 1] - 1) as usize,
            }));
        }
        assert(r0.wf());
        lemma_min_pipeline(layers, r0);
        lemma_blocks_range_min(layers, bs, lo, hi);
        let outs = combiner_outputs(layers, r0);
        let srest = seeds.skip(2);
        let rrest = ranges.skip(1);
        assert(srest.len() % 2 == 0);
        assert(rrest.len() == srest.len() / 2);
        assert forall|k: int| 0 <= k < srest.len() implies 0 <= #[trigger] srest[k]
            <= usize::MAX by {
            assert(srest[k] == seeds[k + 2]);
        }
        assert(seed_pairs_ok(srest)) by {
            assert forall|k: int| 0 <= k && 2 * k + 1 < srest.len() implies #[trigger] srest[2 * k
                + 1] >= 1 && srest[2 * k] + srest[2 * k + 1] - 1 <= usize::MAX by {
                assert(srest[2 * k] == seeds[2 * (k + 1)]);
                assert(srest[2 * k + 1] == seeds[2 * (k + 1) + 1]);
            }
        }
        assert forall|k: int| 0 <= 2 * k + 1 < srest.len() implies #[trigger] rrest[k] == (Range {
            start: srest[2 * k] as usize,
            end: (srest[2 * k] + srest[2 * k + 1] - 1) as usize,
        }) by {
            assert(rrest[k] == ranges[k + 1]);
            assert(srest[2 * k] == seeds[2 * (k + 1)]);
            assert(srest[2 * k + 1] == seeds[2 * (k + 1) + 1]);
            assert(ranges[k + 1] == (Range {
                start: seeds[2 * (k + 1)] as usize,
                end: (seeds[2 * (k + 1)] + seeds[2 * (k + 1) + 1] - 1) as usize,
            }));
        }
        lemma_part2_ranges(layers, bs, srest, rrest);
        assert(all_outputs(layers, ranges) == outs + all_outputs(layers, rrest));
        lemma_min_start_concat(outs, all_outputs(layers, rrest));
    }
}

/// The solver around the interval-remapping engine.
pub struct Day5Solver {}

impl Day5Solver {
    /// Reads the seed line as single values and returns the smallest
    /// location any seed maps to, in decimal.
    #[verifier::loop_isolation(false)]
    pub fn solve_part_1(&self, lines: Vec<String>) -> (r: String)
        requires
            day5_input_ok(lines_views(lines@)),
        ensures
            r@ == dec_chars(
                part1_min(day5_blocks(lines_views(lines@)), day5_seeds(lines_views(lines@))),
            ),
    {
        let ghost ls = lines_views(lines@);
        proof {
            assert(ls[0] == lines@[0]@);
        }
        let seeds = parse_seeds(lines[0].as_str()).unwrap();
        let ghost sseeds = day5_seeds(ls);
        proof {
            assert(seeds@.len() == sseeds.len());
            assert forall|k: int| 0 <= k < sseeds.len() implies seeds@[k] as int == #[trigger] sseeds[k]
                && 0 <= sseeds[k] <= usize::MAX by {
                assert(seeds@[k] as int == sseeds[k]);
            }
        }
        let mappers = build_layers(&lines);
        let evaluator = MapRangeCombiner { name: "winner".to_owned(), mappers };
        let mut seed_ranges: Vec<Range> = Vec::new();
        let mut t: usize = 0;
        while t < seeds.len()
            invariant
                t <= seeds@.len(),
                seed_ranges@.len() == t,
                forall|k: int|
                    0 <= k < t ==> #[trigger] seed_ranges@[k] == (Range {
                        start: seeds@[k],
                        end: seeds@[k],
                    }),
            decreases seeds@.len() - t,
        {
            let v = seeds[t];
            seed_ranges.push(Range::new(v, v));
            t = t + 1;
        }
        proof {
            assert forall|k: int| 0 <= k < seed_ranges@.len() implies (
            #[trigger] seed_ranges@[k]).wf() by {}
        }
        let m = find_min_location_for_seed_range(seed_ranges, &evaluator);
        proof {
            lemma_part1_ranges(evaluator.mappers@, day5_blocks(ls), sseeds, seed_ranges@);
        }
        crate::numfmt::usize_to_string(m)
    }

    /// Reads the seed line as `(start, length)` pairs and returns the
    /// smallest location any value of any pair maps to, in decimal.
    #[verifier::loop_isolation(false)]
    pub fn solve_part_2(&self, lines: Vec<String>) -> (r: String)
        requires
            day5_input_ok(lines_views(lines@)),
            seed_pairs_ok(day5_seeds(lines_views(lines@))),
        ensures
            r@ == dec_chars(
                part2_min(day5_blocks(lines_views(lines@)), day5_seeds(lines_views(lines@))),
            ),
    {
        let ghost ls = lines_views(lines@);
        proof {
            assert(ls[0] == lines@[0]@);
        }
        let seeds = parse_seeds(lines[0].as_str()).unwrap();
        let ghost sseeds = day5_seeds(ls);
        proof {
            assert(seeds@.len() == sseeds.len());
            assert forall|k: int| 0 <= k < sseeds.len() implies seeds@[k] as int == #[trigger] sseeds[k]
                && 0 <= sseeds[k] <= usize::MAX by {
                assert(seeds@[k] as int == sseeds[k]);
            }
        }
        let mappers = build_layers(&lines);
        let evaluator = MapRangeCombiner { name: "winner".to_owned(), mappers };
        let mut seed_ranges: Vec<Range> = Vec::new();
        let mut t: usize = 0;
        while t < seeds.len()
            invariant
                t <= seeds@.len(),
                t % 2 == 0,
                seeds@.len() == sseeds.len(),
                seeds@.len() % 2 == 0,
                seed_ranges@.len() == t / 2,
                forall|k: int|
                    0 <= 2 * k + 1 < t ==> #[trigger] seed_ranges@[k] == (Range {
                        start: sseeds[2 * k] as usize,
                        end: (sseeds[2 * k] + sseeds[2 * k + 1] - 1) as usize,
                    }),
            decreases seeds@.len() - t,
        {
            let start = seeds[t];
            let length = seeds[t + 1];
            proof {
                assert(sseeds[2 * ((t as int) / 2) + 1] >= 1 && sseeds[2 * ((t as int) / 2)]
                    + sseeds[2 * ((t as int) / 2) + 1] - 1 <= usize::MAX);
                assert(2 * ((t as int) / 2) == t as int);
                assert(sseeds[t as int] == seeds@[t as int] as int);
                assert(sseeds[t as int + 1] == seeds@[t as int + 1] as int);
            }
            seed_ranges.push(Range::new(start, start + (length - 1)));
            t = t + 2;
        }
        proof {
            assert forall|k: int| 0 <= k < seed_ranges@.len() implies (
            #[trigger] seed_ranges@[k]).wf() by {
                assert(seed_ranges@[k] == (Range {
                    start: sseeds[2 * k] as usize,
                    end: (sseeds[2 * k] + sseeds[2 * k + 1] - 1) as usize,
                }));
                assert(sseeds[2 * k + 1] >= 1 && sseeds[2 * k] + sseeds[2 * k + 1] - 1
                    <= usize::MAX);
                assert(0 <= sseeds[2 * k] <= usize::MAX);
            }
        }
        let m = find_min_location_for_seed_range(seed_ranges, &evaluator);
        proof {
            lemma_part2_ranges(evaluator.mappers@, day5_blocks(ls), sseeds, seed_ranges@);
        }
        crate::numfmt::usize_to_string(m)
    }
}

} // verus!
