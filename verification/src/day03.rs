//! Engine schematics: a grid of digits and symbols.  Numbers are maximal
//! digit runs; a number counts when a symbol touches its bounding box,
//! and a `*` touching exactly two numbers is a gear.

use crate::numfmt::dec_chars;
use crate::parsers::{dec_val, digit_run_len, is_digit_char, parse_number_at};
use vstd::prelude::*;

verus! {

#[derive(Debug, Copy, Clone, Eq, PartialEq, Hash)]
pub struct Location {
    pub x: isize,
    pub y: isize,
}

#[derive(Debug, Copy, Clone, Eq, PartialEq)]
pub struct Symbol {
    pub symbol: char,
    pub location: Location,
}

/// One number of the grid: its value, where it starts, and how many
/// cells it spans.
#[derive(Debug, Copy, Clone)]
pub struct Part {
    pub id: usize,
    pub location: Location,
    pub width: usize,
}

/// A location touches the bounding box one cell around the part's run.
pub open spec fn spec_adjacent(p: Part, lx: int, ly: int) -> bool {
    &&& p.location.x - 1 <= lx <= p.location.x + p.width
    &&& p.location.y - 1 <= ly <= p.location.y + 1
}

impl Part {
    pub fn new(id: usize, location: Location, width: usize) -> (r: Part)
        ensures
            r == (Part { id, location, width }),
    {
        Part { id, location, width }
    }

    /// Whether the location touches the part's bounding box.
    pub fn is_adjacent_to(&self, location: &Location) -> (b: bool)
        requires
            0 <= self.location.x,
            self.location.x + self.width < isize::MAX,
            0 <= self.location.y < isize::MAX,
        ensures
            b == spec_adjacent(*self, location.x as int, location.y as int),
    {
        let min_x = self.location.x - 1;
        let max_x = (self.location.x + self.width as isize - 1) + 1;
        let min_y = self.location.y - 1;
        let max_y = self.location.y + 1;
        min_x <= location.x && location.x <= max_x && min_y <= location.y && location.y <= max_y
    }
}

/// The numbers of one line from position `x` on: each maximal digit run,
/// with its value, start and width.
pub open spec fn line_parts(s: Seq<char>, y: int, x: int) -> Seq<Part>
    decreases s.len() - x,
{
    if !(0 <= x < s.len()) {
        Seq::<Part>::empty()
    } else {
        let here = if is_digit_char(s[x]) && (x == 0 || !is_digit_char(s[x - 1])) {
            seq![
                Part {
                    id: dec_val(s.subrange(x, x + digit_run_len(s, x))) as usize,
                    location: Location { x: x as isize, y: y as isize },
                    width: digit_run_len(s, x) as usize,
                },
            ]
        } else {
            Seq::<Part>::empty()
        };
        here + line_parts(s, y, x + 1)
    }
}

/// Number scanning may jump over the body of a digit run.
pub proof fn lemma_parts_skip_run(s: Seq<char>, y: int, a: int, e: int)
    requires
        1 <= a <= e <= s.len(),
        forall|t: int| a <= t < e ==> is_digit_char(#[trigger] s[t]) && is_digit_char(s[t - 1]),
    ensures
        line_parts(s, y, a) == line_parts(s, y, e),
    decreases e - a,
{
    if a < e {
        lemma_parts_skip_run(s, y, a + 1, e);
        assert(line_parts(s, y, a) =~= Seq::<Part>::empty() + line_parts(s, y, a + 1));
        assert(Seq::<Part>::empty() + line_parts(s, y, a + 1) =~= line_parts(s, y, a + 1));
    }
}

/// The symbol read at one grid cell.
pub open spec fn mk_symbol(c: char, x: int, y: int) -> Symbol {
    Symbol { symbol: c, location: Location { x: x as isize, y: y as isize } }
}

/// The symbols of one line from position `x` on: every character that is
/// neither a digit nor a dot.
pub open spec fn line_symbols(s: Seq<char>, y: int, x: int) -> Seq<Symbol>
    decreases s.len() - x,
{
    if !(0 <= x < s.len()) {
        Seq::<Symbol>::empty()
    } else {
        let here = if !is_digit_char(s[x]) && s[x] != '.' {
            Seq::<Symbol>::empty().push(mk_symbol(s[x], x, y))
        } else {
            Seq::<Symbol>::empty()
        };
        here + line_symbols(s, y, x + 1)
    }
}

/// All numbers of the grid from row `y` down, row by row.
pub open spec fn all_parts(ls: Seq<Seq<char>>, y: int) -> Seq<Part>
    decreases ls.len() - y,
{
    if !(0 <= y < ls.len()) {
        Seq::<Part>::empty()
    } else {
        line_parts(ls[y], y, 0) + all_parts(ls, y + 1)
    }
}

/// All symbols of the grid from row `y` down, row by row.
pub open spec fn all_symbols(ls: Seq<Seq<char>>, y: int) -> Seq<Symbol>
    decreases ls.len() - y,
{
    if !(0 <= y < ls.len()) {
        Seq::<Symbol>::empty()
    } else {
        line_symbols(ls[y], y, 0) + all_symbols(ls, y + 1)
    }
}

/// The dimensions fit the machine and every number's value fits a word.
pub open spec fn day3_input_ok(ls: Seq<Seq<char>>) -> bool {
    &&& ls.len() < isize::MAX
    &&& forall|y: int| 0 <= y < ls.len() ==> (#[trigger] ls[y]).len() < isize::MAX
    &&& forall|y: int, x: int|
        0 <= y < ls.len() && 0 <= x < ls[y].len() && is_digit_char(ls[y][x]) ==> dec_val(
            ls[y].subrange(x, x + #[trigger] digit_run_len(ls[y], x)),
        ) <= usize::MAX
}

/// A part of a row is safe to reason about: it sits inside its line, is
/// at least one cell wide, and carries its row number.
pub open spec fn part_in_line(p: Part, line_len: int, y: int) -> bool {
    &&& 0 <= p.location.x
    &&& p.location.x + p.width <= line_len
    &&& p.width >= 1
    &&& p.location.y == y
}

/// Every number of a line sits inside the line, one cell wide at least.
pub proof fn lemma_line_parts_bounds(s: Seq<char>, y: int, x: int)
    requires
        0 <= x,
        0 <= y < isize::MAX,
        s.len() < isize::MAX,
    ensures
        forall|k: int|
            0 <= k < line_parts(s, y, x).len() ==> part_in_line(
                #[trigger] line_parts(s, y, x)[k],
                s.len() as int,
                y,
            ),
    decreases s.len() - x,
{
    if 0 <= x < s.len() {
        let n = digit_run_len(s, x);
        crate::parsers::lemma_digit_run_len_bounds(s, x);
        crate::parsers::lemma_digit_run_len_bounds(s, x + 1);
        lemma_line_parts_bounds(s, y, x + 1);
        if is_digit_char(s[x]) && (x == 0 || !is_digit_char(s[x - 1])) {
            let p0 = Part {
                id: dec_val(s.subrange(x, x + digit_run_len(s, x))) as usize,
                location: Location { x: x as isize, y: y as isize },
                width: digit_run_len(s, x) as usize,
            };
            assert(line_parts(s, y, x) == seq![p0] + line_parts(s, y, x + 1));
            assert(digit_run_len(s, x) >= 1);
            assert(part_in_line(p0, s.len() as int, y));
            assert forall|k: int| 0 <= k < line_parts(s, y, x).len() implies part_in_line(
                #[trigger] line_parts(s, y, x)[k],
                s.len() as int,
                y,
            ) by {
                if k > 0 {
                    assert(line_parts(s, y, x)[k] == line_parts(s, y, x + 1)[k - 1]);
                }
            }
        } else {
            assert(line_parts(s, y, x) =~= Seq::<Part>::empty() + line_parts(s, y, x + 1));
            assert forall|k: int| 0 <= k < line_parts(s, y, x).len() implies part_in_line(
                #[trigger] line_parts(s, y, x)[k],
                s.len() as int,
                y,
            ) by {
                assert(line_parts(s, y, x)[k] == line_parts(s, y, x + 1)[k]);
            }
        }
    }
}

/// How one scanning step of `line_symbols` unfolds.
pub proof fn lemma_line_symbols_unfold(s: Seq<char>, y: int, x: int)
    requires
        0 <= x < s.len(),
    ensures
        !is_digit_char(s[x]) && s[x] != '.' ==> {
            &&& line_symbols(s, y, x).len() == 1 + line_symbols(s, y, x + 1).len()
            &&& line_symbols(s, y, x)[0] == mk_symbol(s[x], x, y)
            &&& forall|k: int|
                1 <= k < line_symbols(s, y, x).len() ==> #[trigger] line_symbols(s, y, x)[k]
                    == line_symbols(s, y, x + 1)[k - 1]
        },
        is_digit_char(s[x]) || s[x] == '.' ==> line_symbols(s, y, x) == line_symbols(
            s,
            y,
            x + 1,
        ),
{
    if !is_digit_char(s[x]) && s[x] != '.' {
        let here = Seq::<Symbol>::empty().push(mk_symbol(s[x], x, y));
        assert(here.len() == 1);
        assert(here[0] == mk_symbol(s[x], x, y));
        assert(line_symbols(s, y, x) == here + line_symbols(s, y, x + 1));
    } else {
        assert(line_symbols(s, y, x) =~= Seq::<Symbol>::empty() + line_symbols(s, y, x + 1));
        assert(Seq::<Symbol>::empty() + line_symbols(s, y, x + 1) =~= line_symbols(s, y, x + 1));
    }
}

/// Every symbol of a line sits inside the line and carries its row.
pub proof fn lemma_line_symbols_bounds(s: Seq<char>, y: int, x: int)
    requires
        0 <= x,
        0 <= y < isize::MAX,
        s.len() < isize::MAX,
    ensures
        forall|k: int|
            0 <= k < line_symbols(s, y, x).len() ==> {
                let sym = #[trigger] line_symbols(s, y, x)[k];
                &&& 0 <= sym.location.x < s.len()
                &&& sym.location.y == y
            },
    decreases s.len() - x,
{
    if 0 <= x < s.len() {
        lemma_line_symbols_bounds(s, y, x + 1);
        lemma_line_symbols_unfold(s, y, x);
        if !is_digit_char(s[x]) && s[x] != '.' {
            assert forall|k: int| 0 <= k < line_symbols(s, y, x).len() implies {
                let sym = #[trigger] line_symbols(s, y, x)[k];
                &&& 0 <= sym.location.x < s.len()
                &&& sym.location.y == y
            } by {
                if k > 0 {
                    assert(line_symbols(s, y, x)[k] == line_symbols(s, y, x + 1)[k - 1]);
                }
            }
        }
    }
}

/// A digit run ends at the line's end or right before a non-digit.
pub proof fn lemma_digit_run_end(s: Seq<char>, x: int)
    requires
        0 <= x <= s.len(),
    ensures
        x + digit_run_len(s, x) == s.len() || !is_digit_char(
            s[x + digit_run_len(s, x)],
        ),
    decreases s.len() - x,
{
    crate::parsers::lemma_digit_run_len_bounds(s, x);
    if 0 <= x < s.len() && is_digit_char(s[x]) {
        lemma_digit_run_end(s, x + 1);
    }
}

/// Symbol scanning may jump over a digit run.
pub proof fn lemma_symbols_skip_run(s: Seq<char>, y: int, x: int, e: int)
    requires
        0 <= x <= e <= s.len(),
        forall|t: int| x <= t < e ==> is_digit_char(#[trigger] s[t]),
    ensures
        line_symbols(s, y, x) == line_symbols(s, y, e),
    decreases e - x,
{
    if x < e {
        lemma_symbols_skip_run(s, y, x + 1, e);
        assert(line_symbols(s, y, x) =~= Seq::<Symbol>::empty() + line_symbols(s, y, x + 1));
        assert(Seq::<Symbol>::empty() + line_symbols(s, y, x + 1) =~= line_symbols(s, y, x + 1));
    }
}

/// The schematic: its numbers and symbols, and the same grouped by row.
pub struct Schema {
    pub parts: Vec<Part>,
    pub symbols: Vec<Symbol>,
    pub symbol_locations: Vec<Vec<Symbol>>,
    pub part_locations: Vec<Vec<Part>>,
}

impl Schema {
    /// The schema faithfully represents the grid `ls`.
    pub open spec fn wf(self, ls: Seq<Seq<char>>) -> bool {
        &&& self.parts@ == all_parts(ls, 0)
        &&& self.symbols@ == all_symbols(ls, 0)
        &&& self.part_locations@.len() == ls.len()
        &&& self.symbol_locations@.len() == ls.len()
        &&& forall|y: int|
            0 <= y < ls.len() ==> (#[trigger] self.part_locations@[y])@ == line_parts(ls[y], y, 0)
        &&& forall|y: int|
            0 <= y < ls.len() ==> (#[trigger] self.symbol_locations@[y])@ == line_symbols(
                ls[y],
                y,
                0,
            )
    }
}

/// Scans one line into its numbers and symbols.
#[verifier::loop_isolation(false)]
fn scan_line(line: &str, y: usize, ghost_y: Ghost<int>) -> (r: (Vec<Part>, Vec<Symbol>))
    requires
        ghost_y@ == y as int,
        0 <= y < isize::MAX,
        line@.len() < isize::MAX,
        forall|x: int|
            0 <= x < line@.len() && is_digit_char(line@[x]) ==> dec_val(
                line@.subrange(x, x + #[trigger] digit_run_len(line@, x)),
            ) <= usize::MAX,
    ensures
        r.0@ == line_parts(line@, y as int, 0),
        r.1@ == line_symbols(line@, y as int, 0),
{
    let s = line;
    let len = s.unicode_len();
    let mut parts: Vec<Part> = Vec::new();
    let mut symbols: Vec<Symbol> = Vec::new();
    proof {
        assert(parts@ + line_parts(s@, y as int, 0) =~= line_parts(s@, y as int, 0));
        assert(symbols@ + line_symbols(s@, y as int, 0) =~= line_symbols(s@, y as int, 0));
    }
    let mut x: usize = 0;
    while x < len
        invariant
            x <= len,
            parts@ + line_parts(s@, y as int, x as int) == line_parts(s@, y as int, 0),
            symbols@ + line_symbols(s@, y as int, x as int) == line_symbols(s@, y as int, 0),
            x < len && is_digit_char(s@[x as int]) ==> x == 0 || !is_digit_char(
                s@[x as int - 1],
            ),
        decreases len - x,
    {
        let c = s.get_char(x);
        if (c as u32) >= 48 && (c as u32) <= 57 {
            proof {
                assert(is_digit_char(s@[x as int]));
                crate::parsers::lemma_digit_run_len_bounds(s@, x as int + 1);
                assert(digit_run_len(s@, x as int) >= 1);
                assert(dec_val(
                    s@.subrange(x as int, x as int + digit_run_len(s@, x as int)),
                ) <= usize::MAX);
            }
            let (v, end) = parse_number_at(s, x).unwrap();
            let p = Part {
                id: v,
                location: Location { x: x as isize, y: y as isize },
                width: end - x,
            };
            proof {
                let n = digit_run_len(s@, x as int);
                assert forall|t: int| x <= t < end implies is_digit_char(#[trigger] s@[t]) by {
                    crate::parsers::lemma_digit_run_all_digits(s@, x as int, t);
                }
                assert(line_parts(s@, y as int, x as int) == seq![p] + line_parts(
                    s@,
                    y as int,
                    x as int + 1,
                ));
                lemma_parts_skip_run(s@, y as int, x as int + 1, end as int);
                assert(parts@.push(p) + line_parts(s@, y as int, end as int) =~= parts@ + (
                seq![p] + line_parts(s@, y as int, end as int)));
                lemma_symbols_skip_run(s@, y as int, x as int, end as int);
                lemma_digit_run_end(s@, x as int);
            }
            parts.push(p);
            x = end;
        } else {
            if c != '.' {
                let sym = Symbol { symbol: c, location: Location { x: x as isize, y: y as isize } };
                proof {
                    assert(line_symbols(s@, y as int, x as int) =~= seq![sym] + line_symbols(
                        s@,
                        y as int,
                        x as int + 1,
                    ));
                    assert(symbols@.push(sym) + line_symbols(s@, y as int, x as int + 1) =~= symbols@
                        + (seq![sym] + line_symbols(s@, y as int, x as int + 1)));
                }
                symbols.push(sym);
            } else {
                proof {
                    assert(line_symbols(s@, y as int, x as int) =~= Seq::<Symbol>::empty()
                        + line_symbols(s@, y as int, x as int + 1));
                    assert(Seq::<Symbol>::empty() + line_symbols(s@, y as int, x as int + 1)
                        =~= line_symbols(s@, y as int, x as int + 1));
                }
            }
            x = x + 1;
        }
    }
    proof {
        assert(line_parts(s@, y as int, len as int).len() == 0);
        assert(line_symbols(s@, y as int, len as int).len() == 0);
        assert(parts@ + line_parts(s@, y as int, len as int) =~= parts@);
        assert(symbols@ + line_symbols(s@, y as int, len as int) =~= symbols@);
    }
    (parts, symbols)
}


/// A copy of one row of numbers.
fn copy_part_row(v: &Vec<Part>) -> (out: Vec<Part>)
    ensures
        out@ == v@,
{
    let mut out: Vec<Part> = Vec::new();
    let mut i: usize = 0;
    while i < v.len()
        invariant
            i <= v@.len(),
            out@ =~= v@.take(i as int),
        decreases v@.len() - i,
    {
        out.push(v[i]);
        proof {
            assert(out@ =~= v@.take(i as int + 1));
        }
        i = i + 1;
    }
    proof {
        assert(v@.take(v@.len() as int) =~= v@);
    }
    out
}

/// A copy of one row of symbols.
fn copy_symbol_row(v: &Vec<Symbol>) -> (out: Vec<Symbol>)
    ensures
        out@ == v@,
{
    let mut out: Vec<Symbol> = Vec::new();
    let mut i: usize = 0;
    while i < v.len()
        invariant
            i <= v@.len(),
            out@ =~= v@.take(i as int),
        decreases v@.len() - i,
    {
        out.push(v[i]);
        proof {
            assert(out@ =~= v@.take(i as int + 1));
        }
        i = i + 1;
    }
    proof {
        assert(v@.take(v@.len() as int) =~= v@);
    }
    out
}

/// Builds the schematic from the grid's lines.
#[verifier::loop_isolation(false)]
#[verifier::rlimit(100)]
pub fn schema_from_lines(lines: Vec<String>) -> (r: Schema)
    requires
        day3_input_ok(crate::day05::lines_views(lines@)),
    ensures
        r.wf(crate::day05::lines_views(lines@)),
{
    let ghost ls = crate::day05::lines_views(lines@);
    let mut parts: Vec<Part> = Vec::new();
    let mut symbols: Vec<Symbol> = Vec::new();
    let mut part_locations: Vec<Vec<Part>> = Vec::new();
    let mut symbol_locations: Vec<Vec<Symbol>> = Vec::new();
    proof {
        assert(parts@ + all_parts(ls, 0) =~= all_parts(ls, 0));
        assert(symbols@ + all_symbols(ls, 0) =~= all_symbols(ls, 0));
    }
    let mut y: usize = 0;
    while y < lines.len()
        invariant
            y <= lines@.len(),
            parts@ + all_parts(ls, y as int) == all_parts(ls, 0),
            symbols@ + all_symbols(ls, y as int) == all_symbols(ls, 0),
            part_locations@.len() == y,
            symbol_locations@.len() == y,
            forall|t: int|
                0 <= t < y ==> (#[trigger] part_locations@[t])@ == line_parts(ls[t], t, 0),
            forall|t: int|
                0 <= t < y ==> (#[trigger] symbol_locations@[t])@ == line_symbols(ls[t], t, 0),
        decreases lines@.len() - y,
    {
        proof {
            assert(ls[y as int] == lines@[y as int]@);
        }
        let (row_parts, row_symbols) = scan_line(lines[y].as_str(), y, Ghost(y as int));
        proof {
            assert(all_parts(ls, y as int) == line_parts(ls[y as int], y as int, 0) + all_parts(
                ls,
                y as int + 1,
            ));
            assert(all_symbols(ls, y as int) == line_symbols(ls[y as int], y as int, 0)
                + all_symbols(ls, y as int + 1));
        }
        let ghost parts_pre = parts@;
        let ghost symbols_pre = symbols@;
        let mut rp_copy = copy_part_row(&row_parts);
        parts.append(&mut rp_copy);
        let mut rs_copy = copy_symbol_row(&row_symbols);
        symbols.append(&mut rs_copy);
        proof {
            assert(parts@ + all_parts(ls, y as int + 1) =~= (parts_pre + (line_parts(
                ls[y as int],
                y as int,
                0,
            ) + all_parts(ls, y as int + 1))));
            assert(symbols@ + all_symbols(ls, y as int + 1) =~= (symbols_pre + (line_symbols(
                ls[y as int],
                y as int,
                0,
            ) + all_symbols(ls, y as int + 1))));
        }
        part_locations.push(row_parts);
        symbol_locations.push(row_symbols);
        y = y + 1;
    }
    proof {
        assert(all_parts(ls, ls.len() as int).len() == 0);
        assert(all_symbols(ls, ls.len() as int).len() == 0);
        assert(parts@ + all_parts(ls, ls.len() as int) =~= parts@);
        assert(symbols@ + all_symbols(ls, ls.len() as int) =~= symbols@);
    }
    Schema { parts, symbols, symbol_locations, part_locations }
}

/// The numbers of one row, or nothing outside the grid.
pub open spec fn prow(ls: Seq<Seq<char>>, r: int) -> Seq<Part> {
    if 0 <= r < ls.len() {
        line_parts(ls[r], r, 0)
    } else {
        Seq::<Part>::empty()
    }
}

/// The symbols of one row, or nothing outside the grid.
pub open spec fn srow(ls: Seq<Seq<char>>, r: int) -> Seq<Symbol> {
    if 0 <= r < ls.len() {
        line_symbols(ls[r], r, 0)
    } else {
        Seq::<Symbol>::empty()
    }
}

/// The numbers of the row of `y` and of its two neighbouring rows — the
/// only rows a location at `y` can touch.
pub open spec fn cand_parts(ls: Seq<Seq<char>>, y: int) -> Seq<Part> {
    prow(ls, y - 1) + prow(ls, y) + prow(ls, y + 1)
}

/// The symbols of the row of `y` and of its two neighbouring rows.
pub open spec fn cand_syms(ls: Seq<Seq<char>>, y: int) -> Seq<Symbol> {
    srow(ls, y - 1) + srow(ls, y) + srow(ls, y + 1)
}

/// The sub-sequence of numbers whose bounding box the location touches,
/// in order.
pub open spec fn adj_filter(ps: Seq<Part>, lx: int, ly: int) -> Seq<Part>
    decreases ps.len(),
{
    if ps.len() == 0 {
        Seq::<Part>::empty()
    } else {
        (if spec_adjacent(ps[0], lx, ly) {
            seq![ps[0]]
        } else {
            Seq::<Part>::empty()
        }) + adj_filter(ps.skip(1), lx, ly)
    }
}

/// Whether a symbol of the three neighbouring rows touches the part.
pub open spec fn has_adjacent_symbol(ls: Seq<Seq<char>>, p: Part) -> bool {
    exists|k: int|
        0 <= k < cand_syms(ls, p.location.y as int).len() && spec_adjacent(
            p,
            #[trigger] cand_syms(ls, p.location.y as int)[k].location.x as int,
            cand_syms(ls, p.location.y as int)[k].location.y as int,
        )
}

/// Sum of the ids of the numbers that touch a symbol.
pub open spec fn part1_total(ps: Seq<Part>, ls: Seq<Seq<char>>) -> int
    decreases ps.len(),
{
    if ps.len() == 0 {
        0
    } else {
        (if has_adjacent_symbol(ls, ps[0]) {
            ps[0].id as int
        } else {
            0
        }) + part1_total(ps.skip(1), ls)
    }
}

pub proof fn lemma_part1_total_nonneg(ps: Seq<Part>, ls: Seq<Seq<char>>)
    ensures
        part1_total(ps, ls) >= 0,
    decreases ps.len(),
{
    if ps.len() > 0 {
        lemma_part1_total_nonneg(ps.skip(1), ls);
    }
}

/// A gear's contribution: the product of the two adjacent numbers' ids
/// when a `*` touches exactly two, and nothing otherwise.
pub open spec fn gear_term(ls: Seq<Seq<char>>, sym: Symbol) -> int {
    let adj = adj_filter(
        cand_parts(ls, sym.location.y as int),
        sym.location.x as int,
        sym.location.y as int,
    );
    if sym.symbol == '*' && adj.len() == 2 {
        adj[0].id * adj[1].id
    } else {
        0
    }
}

/// Sum of the gear contributions of the symbols.
pub open spec fn part2_total(syms: Seq<Symbol>, ls: Seq<Seq<char>>) -> int
    decreases syms.len(),
{
    if syms.len() == 0 {
        0
    } else {
        gear_term(ls, syms[0]) + part2_total(syms.skip(1), ls)
    }
}

pub proof fn lemma_part2_total_nonneg(syms: Seq<Symbol>, ls: Seq<Seq<char>>)
    ensures
        part2_total(syms, ls) >= 0,
    decreases syms.len(),
{
    if syms.len() > 0 {
        lemma_part2_total_nonneg(syms.skip(1), ls);
        let adj = adj_filter(
            cand_parts(ls, syms[0].location.y as int),
            syms[0].location.x as int,
            syms[0].location.y as int,
        );
        if syms[0].symbol == '*' && adj.len() == 2 {
            assert(adj[0].id * adj[1].id >= 0) by (nonlinear_arith)
                requires
                    adj[0].id >= 0,
                    adj[1].id >= 0,
            ;
        }
    }
}

/// Every number of the whole grid sits inside its line.
pub proof fn lemma_all_parts_bounds(ls: Seq<Seq<char>>, y: int)
    requires
        0 <= y,
        ls.len() < isize::MAX,
        forall|r: int| 0 <= r < ls.len() ==> (#[trigger] ls[r]).len() < isize::MAX,
    ensures
        forall|k: int|
            0 <= k < all_parts(ls, y).len() ==> {
                let p = #[trigger] all_parts(ls, y)[k];
                &&& y <= p.location.y < ls.len()
                &&& part_in_line(p, ls[p.location.y as int].len() as int, p.location.y as int)
            },
    decreases ls.len() - y,
{
    if 0 <= y < ls.len() {
        lemma_line_parts_bounds(ls[y], y, 0);
        lemma_all_parts_bounds(ls, y + 1);
        let row = line_parts(ls[y], y, 0);
        assert forall|k: int| 0 <= k < all_parts(ls, y).len() implies {
            let p = #[trigger] all_parts(ls, y)[k];
            &&& y <= p.location.y < ls.len()
            &&& part_in_line(p, ls[p.location.y as int].len() as int, p.location.y as int)
        } by {
            if k < row.len() {
                assert(all_parts(ls, y)[k] == row[k]);
            } else {
                assert(all_parts(ls, y)[k] == all_parts(ls, y + 1)[k - row.len()]);
            }
        }
    }
}

/// Every symbol of the whole grid sits inside its line.
pub proof fn lemma_all_symbols_bounds(ls: Seq<Seq<char>>, y: int)
    requires
        0 <= y,
        ls.len() < isize::MAX,
        forall|r: int| 0 <= r < ls.len() ==> (#[trigger] ls[r]).len() < isize::MAX,
    ensures
        forall|k: int|
            0 <= k < all_symbols(ls, y).len() ==> {
                let sym = #[trigger] all_symbols(ls, y)[k];
                &&& y <= sym.location.y < ls.len()
                &&& 0 <= sym.location.x < ls[sym.location.y as int].len()
            },
    decreases ls.len() - y,
{
    if 0 <= y < ls.len() {
        lemma_line_symbols_bounds(ls[y], y, 0);
        lemma_all_symbols_bounds(ls, y + 1);
        let row = line_symbols(ls[y], y, 0);
        assert forall|k: int| 0 <= k < all_symbols(ls, y).len() implies {
            let sym = #[trigger] all_symbols(ls, y)[k];
            &&& y <= sym.location.y < ls.len()
            &&& 0 <= sym.location.x < ls[sym.location.y as int].len()
        } by {
            if k < row.len() {
                assert(all_symbols(ls, y)[k] == row[k]);
            } else {
                assert(all_symbols(ls, y)[k] == all_symbols(ls, y + 1)[k - row.len()]);
            }
        }
    }
}

/// Every part of the grouped rows is safe for the adjacency test.
pub open spec fn rows_ok(rows: Seq<Vec<Part>>) -> bool {
    forall|r: int, k: int|
        0 <= r < rows.len() && 0 <= k < rows[r]@.len() ==> {
            let p = #[trigger] rows[r]@[k];
            &&& 0 <= p.location.x
            &&& p.location.x + p.width < isize::MAX
            &&& 0 <= p.location.y < isize::MAX
        }
}

impl Schema {
    /// The numbers of the three neighbouring rows whose bounding box the
    /// location touches, in row order.
    #[verifier::loop_isolation(false)]
    pub fn parts_adjacent_to_point(&self, location: &Location) -> (out: Vec<Part>)
        requires
            rows_ok(self.part_locations@),
            isize::MIN < location.y < isize::MAX,
        ensures
            out@ == adj_filter(
                vrow(self.part_locations@, location.y - 1) + vrow(
                    self.part_locations@,
                    location.y as int,
                ) + vrow(self.part_locations@, location.y + 1),
                location.x as int,
                location.y as int,
            ),
    {
        let ghost rows = self.part_locations@;
        let ghost lx = location.x as int;
        let ghost ly = location.y as int;
        let mut out: Vec<Part> = Vec::new();
        let row = location.y;
        collect_adjacent(&self.part_locations, row - 1, location, &mut out);
        collect_adjacent(&self.part_locations, row, location, &mut out);
        collect_adjacent(&self.part_locations, row + 1, location, &mut out);
        proof {
            lemma_adj_filter_concat(vrow(rows, ly - 1), vrow(rows, ly) + vrow(rows, ly + 1), lx, ly);
            lemma_adj_filter_concat(vrow(rows, ly), vrow(rows, ly + 1), lx, ly);
            assert(vrow(rows, ly - 1) + (vrow(rows, ly) + vrow(rows, ly + 1)) =~= vrow(rows, ly - 1)
                + vrow(rows, ly) + vrow(rows, ly + 1));
        }
        out
    }
}

/// The parts held for one row index, or nothing outside the grid.
pub open spec fn vrow(rows: Seq<Vec<Part>>, r: int) -> Seq<Part> {
    if 0 <= r < rows.len() {
        rows[r]@
    } else {
        Seq::<Part>::empty()
    }
}

/// Filtering a concatenation filters both halves.
pub proof fn lemma_adj_filter_concat(a: Seq<Part>, b: Seq<Part>, lx: int, ly: int)
    ensures
        adj_filter(a + b, lx, ly) == adj_filter(a, lx, ly) + adj_filter(b, lx, ly),
    decreases a.len(),
{
    if a.len() == 0 {
        assert(a + b =~= b);
        assert(adj_filter(a, lx, ly) + adj_filter(b, lx, ly) =~= adj_filter(b, lx, ly));
    } else {
        assert((a + b).skip(1) =~= a.skip(1) + b);
        lemma_adj_filter_concat(a.skip(1), b, lx, ly);
        assert((a + b)[0] == a[0]);
        assert(((if spec_adjacent(a[0], lx, ly) {
            seq![a[0]]
        } else {
            Seq::<Part>::empty()
        }) + (adj_filter(a.skip(1), lx, ly) + adj_filter(b, lx, ly))) =~= ((if spec_adjacent(
            a[0],
            lx,
            ly,
        ) {
            seq![a[0]]
        } else {
            Seq::<Part>::empty()
        }) + adj_filter(a.skip(1), lx, ly)) + adj_filter(b, lx, ly));
    }
}

/// Appends the adjacent numbers of one row to the accumulator.
#[verifier::loop_isolation(false)]
fn collect_adjacent(rows: &Vec<Vec<Part>>, r: isize, location: &Location, out: &mut Vec<Part>)
    requires
        rows_ok(rows@),
    ensures
        final(out)@ == old(out)@ + adj_filter(
            vrow(rows@, r as int),
            location.x as int,
            location.y as int,
        ),
{
    let ghost lx = location.x as int;
    let ghost ly = location.y as int;
    if r < 0 {
        proof {
            assert(old(out)@ + adj_filter(vrow(rows@, r as int), lx, ly) =~= old(out)@);
        }
        return ;
    }
    let ri = r as usize;
    if ri >= rows.len() {
        proof {
            assert(old(out)@ + adj_filter(vrow(rows@, r as int), lx, ly) =~= old(out)@);
        }
        return ;
    }
    let ghost row = rows@[ri as int]@;
    let n = rows[ri].len();
    let mut j: usize = 0;
    proof {
        assert(row.skip(0) =~= row);
    }
    while j < n
        invariant
            j <= n,
            n == row.len(),
            out@ + adj_filter(row.skip(j as int), lx, ly) == old(out)@ + adj_filter(row, lx, ly),
        decreases n - j,
    {
        let p = rows[ri][j];
        proof {
            assert(row.skip(j as int)[0] == row[j as int]);
            assert(row.skip(j as int).skip(1) =~= row.skip(j as int + 1));
        }
        if p.is_adjacent_to(location) {
            proof {
                assert(out@.push(p) + adj_filter(row.skip(j as int + 1), lx, ly) =~= out@ + (seq![
                    p,
                ] + adj_filter(row.skip(j as int + 1), lx, ly)));
            }
            out.push(p);
        } else {
            proof {
                assert(Seq::<Part>::empty() + adj_filter(row.skip(j as int + 1), lx, ly)
                    =~= adj_filter(row.skip(j as int + 1), lx, ly));
            }
        }
        j = j + 1;
    }
    proof {
        assert(adj_filter(row.skip(n as int), lx, ly).len() == 0);
        assert(out@ + adj_filter(row.skip(n as int), lx, ly) =~= out@);
    }
}

/// The symbols held for one row index, or nothing outside the grid.
pub open spec fn svrow(rows: Seq<Vec<Symbol>>, r: int) -> Seq<Symbol> {
    if 0 <= r < rows.len() {
        rows[r]@
    } else {
        Seq::<Symbol>::empty()
    }
}

/// Whether a symbol of one grouped row touches the part.
#[verifier::loop_isolation(false)]
fn scan_row(rows: &Vec<Vec<Symbol>>, r: isize, part: &Part) -> (b: bool)
    requires
        0 <= part.location.x,
        part.location.x + part.width < isize::MAX,
        0 <= part.location.y < isize::MAX,
    ensures
        b == exists|k: int|
            0 <= k < svrow(rows@, r as int).len() && spec_adjacent(
                *part,
                #[trigger] svrow(rows@, r as int)[k].location.x as int,
                svrow(rows@, r as int)[k].location.y as int,
            ),
{
    if r < 0 {
        return false;
    }
    let ri = r as usize;
    if ri >= rows.len() {
        return false;
    }
    let ghost row = svrow(rows@, r as int);
    let n = rows[ri].len();
    let mut j: usize = 0;
    while j < n
        invariant
            j <= n,
            n == row.len(),
            forall|t: int|
                0 <= t < j ==> !spec_adjacent(
                    *part,
                    #[trigger] row[t].location.x as int,
                    row[t].location.y as int,
                ),
        decreases n - j,
    {
        let sym = rows[ri][j];
        if part.is_adjacent_to(&sym.location) {
            return true;
        }
        j = j + 1;
    }
    false
}

/// Whether a symbol of the three neighbouring rows touches the part.
fn symbol_adjacent(rows: &Vec<Vec<Symbol>>, part: &Part) -> (b: bool)
    requires
        0 <= part.location.x,
        part.location.x + part.width < isize::MAX,
        0 <= part.location.y < isize::MAX,
    ensures
        b == ({
            let cand = svrow(rows@, part.location.y - 1) + svrow(rows@, part.location.y as int)
                + svrow(rows@, part.location.y + 1);
            exists|k: int|
                0 <= k < cand.len() && spec_adjacent(
                    *part,
                    #[trigger] cand[k].location.x as int,
                    cand[k].location.y as int,
                )
        }),
{
    let y = part.location.y;
    let a = scan_row(rows, y - 1, part);
    let b = scan_row(rows, y, part);
    let c = scan_row(rows, y + 1, part);
    let ghost s1 = svrow(rows@, y - 1);
    let ghost s2 = svrow(rows@, y as int);
    let ghost s3 = svrow(rows@, y + 1);
    let ghost cand = s1 + s2 + s3;
    proof {
        assert forall|k: int| 0 <= k < cand.len() implies #[trigger] cand[k] == if k < s1.len() {
            s1[k]
        } else if k < s1.len() + s2.len() {
            s2[k - s1.len()]
        } else {
            s3[k - s1.len() - s2.len()]
        } by {}
        if a || b || c {
            if a {
                let k = choose|k: int|
                    0 <= k < s1.len() && spec_adjacent(
                        *part,
                        #[trigger] s1[k].location.x as int,
                        s1[k].location.y as int,
                    );
                assert(cand[k] == s1[k]);
            } else if b {
                let k = choose|k: int|
                    0 <= k < s2.len() && spec_adjacent(
                        *part,
                        #[trigger] s2[k].location.x as int,
                        s2[k].location.y as int,
                    );
                assert(cand[s1.len() + k] == s2[k]);
            } else {
                let k = choose|k: int|
                    0 <= k < s3.len() && spec_adjacent(
                        *part,
                        #[trigger] s3[k].location.x as int,
                        s3[k].location.y as int,
                    );
                assert(cand[s1.len() + s2.len() + k] == s3[k]);
            }
        }
    }
    a || b || c
}

/// The solver for the engine schematics.
pub struct Day3Solver {}

impl Day3Solver {
    /// Sum of the ids of the numbers that touch a symbol.
    #[verifier::loop_isolation(false)]
    pub fn solve_part_1(&self, lines: Vec<String>) -> (r: String)
        requires
            day3_input_ok(crate::day05::lines_views(lines@)),
            part1_total(
                all_parts(crate::day05::lines_views(lines@), 0),
                crate::day05::lines_views(lines@),
            ) <= usize::MAX,
        ensures
            r@ == dec_chars(
                part1_total(
                    all_parts(crate::day05::lines_views(lines@), 0),
                    crate::day05::lines_views(lines@),
                ),
            ),
    {
        let ghost ls = crate::day05::lines_views(lines@);
        let schema = schema_from_lines(lines);
        let ghost aps = all_parts(ls, 0);
        proof {
            lemma_all_parts_bounds(ls, 0);
            assert(aps.skip(0) =~= aps);
        }
        let mut sum: usize = 0;
        let mut i: usize = 0;
        while i < schema.parts.len()
            invariant
                i <= aps.len(),
                sum + part1_total(aps.skip(i as int), ls) == part1_total(aps, ls),
            decreases aps.len() - i,
        {
            let part = schema.parts[i];
            let ghost y = part.location.y as int;
            proof {
                assert(aps.skip(i as int)[0] == aps[i as int]);
                assert(aps.skip(i as int).skip(1) =~= aps.skip(i as int + 1));
                lemma_part1_total_nonneg(aps.skip(i as int + 1), ls);
                assert(part_in_line(part, ls[y].len() as int, y));
            }
            let found = symbol_adjacent(&schema.symbol_locations, &part);
            proof {
                assert(svrow(schema.symbol_locations@, y - 1) == srow(ls, y - 1));
                assert(svrow(schema.symbol_locations@, y) == srow(ls, y));
                assert(svrow(schema.symbol_locations@, y + 1) == srow(ls, y + 1));
                assert(svrow(schema.symbol_locations@, y - 1) + svrow(
                    schema.symbol_locations@,
                    y,
                ) + svrow(schema.symbol_locations@, y + 1) == cand_syms(ls, y));
                assert(found == has_adjacent_symbol(ls, part));
            }
            if found {
                sum = sum + part.id;
            }
            i = i + 1;
        }
        proof {
            assert(aps.skip(aps.len() as int).len() == 0);
        }
        crate::numfmt::usize_to_string(sum)
    }

    /// Sum of the gear ratios: for each `*` touching exactly two numbers,
    /// the product of their ids.
    #[verifier::loop_isolation(false)]
    pub fn solve_part_2(&self, lines: Vec<String>) -> (r: String)
        requires
            day3_input_ok(crate::day05::lines_views(lines@)),
            forall|k: int|
                0 <= k < all_symbols(crate::day05::lines_views(lines@), 0).len() ==> gear_term(
                    crate::day05::lines_views(lines@),
                    #[trigger] all_symbols(crate::day05::lines_views(lines@), 0)[k],
                ) <= usize::MAX,
            part2_total(
                all_symbols(crate::day05::lines_views(lines@), 0),
                crate::day05::lines_views(lines@),
            ) <= usize::MAX,
        ensures
            r@ == dec_chars(
                part2_total(
                    all_symbols(crate::day05::lines_views(lines@), 0),
                    crate::day05::lines_views(lines@),
                ),
            ),
    {
        let ghost ls = crate::day05::lines_views(lines@);
        let schema = schema_from_lines(lines);
        let ghost syms = all_symbols(ls, 0);
        proof {
            lemma_all_symbols_bounds(ls, 0);
            assert(syms.skip(0) =~= syms);
            assert(rows_ok(schema.part_locations@)) by {
                assert forall|rr: int, k: int|
                    0 <= rr < schema.part_locations@.len() && 0 <= k
                        < schema.part_locations@[rr]@.len() implies {
                    let p = #[trigger] schema.part_locations@[rr]@[k];
                    &&& 0 <= p.location.x
                    &&& p.location.x + p.width < isize::MAX
                    &&& 0 <= p.location.y < isize::MAX
                } by {
                    lemma_line_parts_bounds(ls[rr], rr, 0);
                    assert(schema.part_locations@[rr]@[k] == line_parts(ls[rr], rr, 0)[k]);
                }
            }
        }
        let mut sum: usize = 0;
        let mut i: usize = 0;
        while i < schema.symbols.len()
            invariant
                i <= syms.len(),
                sum + part2_total(syms.skip(i as int), ls) == part2_total(syms, ls),
            decreases syms.len() - i,
        {
            let sym = schema.symbols[i];
            let ghost y = sym.location.y as int;
            proof {
                assert(syms.skip(i as int)[0] == syms[i as int]);
                assert(syms.skip(i as int).skip(1) =~= syms.skip(i as int + 1));
                lemma_part2_total_nonneg(syms.skip(i as int + 1), ls);
                assert(0 <= y < ls.len());
            }
            if sym.symbol == '*' {
                let adjacent_parts = schema.parts_adjacent_to_point(&sym.location);
                proof {
                    assert(vrow(schema.part_locations@, y - 1) == prow(ls, y - 1));
                    assert(vrow(schema.part_locations@, y) == prow(ls, y));
                    assert(vrow(schema.part_locations@, y + 1) == prow(ls, y + 1));
                    assert(vrow(schema.part_locations@, y - 1) + vrow(schema.part_locations@, y)
                        + vrow(schema.part_locations@, y + 1) == cand_parts(ls, y));
                }
                if adjacent_parts.len() == 2 {
                    proof {
                        let adj = adj_filter(cand_parts(ls, y), sym.location.x as int, y);
                        assert(gear_term(ls, sym) == adj[0].id * adj[1].id);
                        assert(gear_term(ls, sym) <= usize::MAX);
                        assert(adj[0].id * adj[1].id >= 0) by (nonlinear_arith)
                            requires
                                adj[0].id >= 0,
                                adj[1].id >= 0,
                        ;
                        assert(adjacent_parts@[0] == adj[0] && adjacent_parts@[1] == adj[1]);
                    }
                    sum = sum + adjacent_parts[0].id * adjacent_parts[1].id;
                }
            }
            i = i + 1;
        }
        proof {
            assert(syms.skip(syms.len() as int).len() == 0);
        }
        crate::numfmt::usize_to_string(sum)
    }
}

} // verus!
