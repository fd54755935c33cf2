//! Dice games: each line lists rounds of revealed red, blue and green die
//! counts; a game is possible when no reveal exceeds a given maximum, and
//! its power is the product of the per-colour maxima.

use crate::numfmt::dec_chars;
use crate::parsers::{dec_val, digit_run_len, parse_number_at};
use vstd::prelude::*;

verus! {

#[derive(Debug, Copy, Clone)]
pub enum DieColor {
    Red,
    Blue,
    Green,
}

/// One round's revealed die counts.
#[derive(Debug, Copy, Clone, PartialEq, Eq, Structural)]
pub struct RevealedDice {
    pub red: u8,
    pub blue: u8,
    pub green: u8,
}

/// One game line: its id and its rounds.
#[derive(Debug, Clone)]
pub struct GameLine {
    pub id: usize,
    pub game_reveals: Vec<RevealedDice>,
}

/// A colour name beginning at `i`: `red`, `blue` or `green`, with the
/// position right after it.
pub open spec fn spec_color_at(s: Seq<char>, i: int) -> Option<(DieColor, int)> {
    if crate::day01::is_prefix_at(s, i, seq!['r', 'e', 'd']) {
        Some((DieColor::Red, i + 3))
    } else if crate::day01::is_prefix_at(s, i, seq!['b', 'l', 'u', 'e']) {
        Some((DieColor::Blue, i + 4))
    } else if crate::day01::is_prefix_at(s, i, seq!['g', 'r', 'e', 'e', 'n']) {
        Some((DieColor::Green, i + 5))
    } else {
        None
    }
}

/// One `<count> <colour>` item beginning at `i`.  The count is truncated
/// to a byte, as the games never reveal more dice than that.
pub open spec fn spec_die_at(s: Seq<char>, i: int) -> Option<((u8, DieColor), int)> {
    let n = digit_run_len(s, i);
    if n <= 0 || dec_val(s.subrange(i, i + n)) > usize::MAX {
        None
    } else {
        let v = dec_val(s.subrange(i, i + n));
        let p = i + n;
        if !(p < s.len() && s[p] == ' ') {
            None
        } else {
            match spec_color_at(s, p + 1) {
                None => None,
                Some((c, q)) => Some((((v % 256) as u8, c), q)),
            }
        }
    }
}

/// A `, `-separated list of die items beginning at `i`, read greedily:
/// the list continues only while a separator and another item follow.
pub open spec fn spec_dice_list(s: Seq<char>, i: int) -> Option<(Seq<(u8, DieColor)>, int)>
    decreases s.len() - i,
{
    match spec_die_at(s, i) {
        None => None,
        Some((d, p)) => if !(0 <= i < p <= s.len()) {
            None
        } else if p + 1 < s.len() && s[p] == ',' && s[p + 1] == ' ' && spec_die_at(s, p + 2)
            is Some {
            match spec_dice_list(s, p + 2) {
                None => None,
                Some((rest, q)) => Some((seq![d] + rest, q)),
            }
        } else {
            Some((seq![d], p))
        },
    }
}

/// The die items of one round folded into a `RevealedDice`: later items
/// of the same colour overwrite earlier ones.
pub open spec fn apply_dice(rd: RevealedDice, dice: Seq<(u8, DieColor)>) -> RevealedDice
    decreases dice.len(),
{
    if dice.len() == 0 {
        rd
    } else {
        let (v, c) = dice[0];
        let next = match c {
            DieColor::Red => RevealedDice { red: v, ..rd },
            DieColor::Blue => RevealedDice { blue: v, ..rd },
            DieColor::Green => RevealedDice { green: v, ..rd },
        };
        apply_dice(next, dice.skip(1))
    }
}

pub open spec fn zero_dice() -> RevealedDice {
    RevealedDice { red: 0, blue: 0, green: 0 }
}

/// One round beginning at `i`.
pub open spec fn spec_reveal_at(s: Seq<char>, i: int) -> Option<(RevealedDice, int)> {
    match spec_dice_list(s, i) {
        None => None,
        Some((dice, p)) => Some((apply_dice(zero_dice(), dice), p)),
    }
}

/// A `; `-separated list of rounds beginning at `i`.
pub open spec fn spec_reveals_list(s: Seq<char>, i: int) -> Option<(Seq<RevealedDice>, int)>
    decreases s.len() - i,
{
    match spec_reveal_at(s, i) {
        None => None,
        Some((rd, p)) => if !(0 <= i < p <= s.len()) {
            None
        } else if p + 1 < s.len() && s[p] == ';' && s[p + 1] == ' ' && spec_reveal_at(s, p + 2)
            is Some {
            match spec_reveals_list(s, p + 2) {
                None => None,
                Some((rest, q)) => Some((seq![rd] + rest, q)),
            }
        } else {
            Some((seq![rd], p))
        },
    }
}

pub open spec fn game_prefix() -> Seq<char> {
    seq!['G', 'a', 'm', 'e', ' ']
}

/// A whole game line: `Game <id>: <round>; <round>; ...`.
pub open spec fn spec_parse_game(s: Seq<char>) -> Option<(int, Seq<RevealedDice>)> {
    if !(s.len() >= 5 && s.subrange(0, 5) == game_prefix()) {
        None
    } else {
        let n = digit_run_len(s, 5);
        if n <= 0 || dec_val(s.subrange(5, 5 + n)) > usize::MAX {
            None
        } else {
            let id = dec_val(s.subrange(5, 5 + n));
            let p = 5 + n;
            if !(p + 1 < s.len() && s[p] == ':' && s[p + 1] == ' ') {
                None
            } else {
                match spec_reveals_list(s, p + 2) {
                    None => None,
                    Some((reveals, _q)) => Some((id, reveals)),
                }
            }
        }
    }
}

impl GameLine {
    /// Whether every round stays within the given maximum, colour by
    /// colour.
    pub fn reveals_less_than(&self, maximum: &RevealedDice) -> (b: bool)
        ensures
            b == forall|k: int|
                0 <= k < self.game_reveals@.len() ==> {
                    let r = #[trigger] self.game_reveals@[k];
                    r.red <= maximum.red && r.blue <= maximum.blue && r.green <= maximum.green
                },
    {
        let mut i: usize = 0;
        while i < self.game_reveals.len()
            invariant
                i <= self.game_reveals@.len(),
                forall|k: int|
                    0 <= k < i ==> {
                        let r = #[trigger] self.game_reveals@[k];
                        r.red <= maximum.red && r.blue <= maximum.blue && r.green <= maximum.green
                    },
            decreases self.game_reveals@.len() - i,
        {
            let r = self.game_reveals[i];
            if r.red > maximum.red || r.blue > maximum.blue || r.green > maximum.green {
                return false;
            }
            i = i + 1;
        }
        true
    }

    /// The smallest die counts that make every round possible: the
    /// colour-wise maximum over the rounds.
    pub fn min_dice_required(&self) -> (m: RevealedDice)
        ensures
            m == dice_max_upto(self.game_reveals@, self.game_reveals@.len() as int),
    {
        let mut min_dice = RevealedDice { red: 0, blue: 0, green: 0 };
        let mut i: usize = 0;
        while i < self.game_reveals.len()
            invariant
                i <= self.game_reveals@.len(),
                min_dice == dice_max_upto(self.game_reveals@, i as int),
            decreases self.game_reveals@.len() - i,
        {
            let reveal = self.game_reveals[i];
            if reveal.red > min_dice.red {
                min_dice.red = reveal.red;
            }
            if reveal.blue > min_dice.blue {
                min_dice.blue = reveal.blue;
            }
            if reveal.green > min_dice.green {
                min_dice.green = reveal.green;
            }
            i = i + 1;
        }
        min_dice
    }
}

/// Colour-wise maximum of the first `i` rounds.
pub open spec fn dice_max_upto(rs: Seq<RevealedDice>, i: int) -> RevealedDice
    decreases i,
{
    if i <= 0 {
        zero_dice()
    } else {
        let m = dice_max_upto(rs, i - 1);
        let r = rs[i - 1];
        RevealedDice {
            red: if r.red > m.red {
                r.red
            } else {
                m.red
            },
            blue: if r.blue > m.blue {
                r.blue
            } else {
                m.blue
            },
            green: if r.green > m.green {
                r.green
            } else {
                m.green
            },
        }
    }
}

/// Reads a colour name at position `i`.
fn color_at(s: &str, i: usize, len: usize) -> (r: Option<(DieColor, usize)>)
    requires
        len == s@.len(),
        i <= s@.len(),
    ensures
        match r {
            Some((c, q)) => spec_color_at(s@, i as int) == Some((c, q as int)),
            None => spec_color_at(s@, i as int) is None,
        },
{
    if len - i >= 3 && s.get_char(i) == 'r' && s.get_char(i + 1) == 'e' && s.get_char(i + 2)
        == 'd' {
        proof {
            assert(s@.subrange(i as int, i as int + 3) =~= seq!['r', 'e', 'd']);
        }
        return Some((DieColor::Red, i + 3));
    }
    if len - i >= 4 && s.get_char(i) == 'b' && s.get_char(i + 1) == 'l' && s.get_char(i + 2) == 'u'
        && s.get_char(i + 3) == 'e' {
        proof {
            assert(s@.subrange(i as int, i as int + 4) =~= seq!['b', 'l', 'u', 'e']);
        }
        return Some((DieColor::Blue, i + 4));
    }
    if len - i >= 5 && s.get_char(i) == 'g' && s.get_char(i + 1) == 'r' && s.get_char(i + 2) == 'e'
        && s.get_char(i + 3) == 'e' && s.get_char(i + 4) == 'n' {
        proof {
            assert(s@.subrange(i as int, i as int + 5) =~= seq!['g', 'r', 'e', 'e', 'n']);
        }
        return Some((DieColor::Green, i + 5));
    }
    None
}

/// Reads one `<count> <colour>` item at position `i`.
fn die_at(s: &str, i: usize, len: usize) -> (r: Option<((u8, DieColor), usize)>)
    requires
        len == s@.len(),
        i <= s@.len(),
    ensures
        match r {
            Some((d, q)) => spec_die_at(s@, i as int) == Some((d, q as int)) && i < q <= s@.len(),
            None => spec_die_at(s@, i as int) is None,
        },
{
    let num = parse_number_at(s, i);
    let (v, p) = match num {
        None => {
            return None;
        },
        Some(t) => t,
    };
    if !(p < len && s.get_char(p) == ' ') {
        return None;
    }
    match color_at(s, p + 1, len) {
        None => None,
        Some((c, q)) => Some((((v % 256) as u8, c), q)),
    }
}

/// Reads a `, `-separated list of die items at position `i`.
fn dice_list_at(s: &str, i: usize, len: usize) -> (r: Option<(Vec<(u8, DieColor)>, usize)>)
    requires
        len == s@.len(),
        i <= s@.len(),
    ensures
        match r {
            Some((ds, q)) => spec_dice_list(s@, i as int) == Some((ds@, q as int)) && i < q
                <= s@.len(),
            None => spec_dice_list(s@, i as int) is None,
        },
    decreases s@.len() - i,
{
    let first = die_at(s, i, len);
    let (d0, p0) = match first {
        None => {
            return None;
        },
        Some(t) => t,
    };
    if len - p0 >= 2 && s.get_char(p0) == ',' && s.get_char(p0 + 1) == ' ' && die_at(
        s,
        p0 + 2,
        len,
    ).is_some() {
        match dice_list_at(s, p0 + 2, len) {
            None => None,
            Some((rest, q)) => {
                let mut out: Vec<(u8, DieColor)> = Vec::new();
                out.push(d0);
                let mut r = rest;
                out.append(&mut r);
                proof {
                    assert(out@ =~= seq![d0] + spec_dice_list(s@, p0 as int + 2)->Some_0.0);
                }
                Some((out, q))
            },
        }
    } else {
        let mut out: Vec<(u8, DieColor)> = Vec::new();
        out.push(d0);
        proof {
            assert(out@ =~= seq![d0]);
        }
        Some((out, p0))
    }
}

/// Reads one round at position `i`.
fn reveal_at(s: &str, i: usize, len: usize) -> (r: Option<(RevealedDice, usize)>)
    requires
        len == s@.len(),
        i <= s@.len(),
    ensures
        match r {
            Some((rd, q)) => spec_reveal_at(s@, i as int) == Some((rd, q as int)) && i < q
                <= s@.len(),
            None => spec_reveal_at(s@, i as int) is None,
        },
{
    match dice_list_at(s, i, len) {
        None => None,
        Some((dice, q)) => {
            let mut rd = RevealedDice { red: 0, blue: 0, green: 0 };
            proof {
                assert(dice@.skip(0) =~= dice@);
            }
            let mut k: usize = 0;
            while k < dice.len()
                invariant
                    k <= dice@.len(),
                    apply_dice(rd, dice@.skip(k as int)) == apply_dice(zero_dice(), dice@),
                decreases dice@.len() - k,
            {
                proof {
                    assert(dice@.skip(k as int)[0] == dice@[k as int]);
                    assert(dice@.skip(k as int).skip(1) =~= dice@.skip(k as int + 1));
                }
                let (v, c) = dice[k];
                match c {
                    DieColor::Red => {
                        rd.red = v;
                    },
                    DieColor::Blue => {
                        rd.blue = v;
                    },
                    DieColor::Green => {
                        rd.green = v;
                    },
                }
                k = k + 1;
            }
            proof {
                assert(dice@.skip(dice@.len() as int).len() == 0);
            }
            Some((rd, q))
        },
    }
}

/// Reads a `; `-separated list of rounds at position `i`.
fn reveals_list_at(s: &str, i: usize, len: usize) -> (r: Option<(Vec<RevealedDice>, usize)>)
    requires
        len == s@.len(),
        i <= s@.len(),
    ensures
        match r {
            Some((rs, q)) => spec_reveals_list(s@, i as int) == Some((rs@, q as int)) && i < q
                <= s@.len(),
            None => spec_reveals_list(s@, i as int) is None,
        },
    decreases s@.len() - i,
{
    let first = reveal_at(s, i, len);
    let (r0, p0) = match first {
        None => {
            return None;
        },
        Some(t) => t,
    };
    if len - p0 >= 2 && s.get_char(p0) == ';' && s.get_char(p0 + 1) == ' ' && reveal_at(
        s,
        p0 + 2,
        len,
    ).is_some() {
        match reveals_list_at(s, p0 + 2, len) {
            None => None,
            Some((rest, q)) => {
                let mut out: Vec<RevealedDice> = Vec::new();
                out.push(r0);
                let mut r = rest;
                out.append(&mut r);
                proof {
                    assert(out@ =~= seq![r0] + spec_reveals_list(s@, p0 as int + 2)->Some_0.0);
                }
                Some((out, q))
            },
        }
    } else {
        let mut out: Vec<RevealedDice> = Vec::new();
        out.push(r0);
        proof {
            assert(out@ =~= seq![r0]);
        }
        Some((out, p0))
    }
}

/// Parses one game line.
pub fn parse_game_line(line: &str) -> (r: Option<GameLine>)
    ensures
        match r {
            Some(g) => spec_parse_game(line@) == Some((g.id as int, g.game_reveals@)),
            None => spec_parse_game(line@) is None,
        },
{
    let len = line.unicode_len();
    if !(len >= 5 && line.get_char(0) == 'G' && line.get_char(1) == 'a' && line.get_char(2) == 'm'
        && line.get_char(3) == 'e' && line.get_char(4) == ' ') {
        proof {
            if line@.len() >= 5 && line@.subrange(0, 5) == game_prefix() {
                assert(line@.subrange(0, 5)[0] == line@[0]);
                assert(line@.subrange(0, 5)[1] == line@[1]);
                assert(line@.subrange(0, 5)[2] == line@[2]);
                assert(line@.subrange(0, 5)[3] == line@[3]);
                assert(line@.subrange(0, 5)[4] == line@[4]);
            }
        }
        return None;
    }
    proof {
        assert(line@.subrange(0, 5) =~= game_prefix());
    }
    let num = parse_number_at(line, 5);
    let (id, p) = match num {
        None => {
            return None;
        },
        Some(t) => t,
    };
    if !(len - p >= 2 && line.get_char(p) == ':' && line.get_char(p + 1) == ' ') {
        return None;
    }
    match reveals_list_at(line, p + 2, len) {
        None => None,
        Some((reveals, _q)) => Some(GameLine { id, game_reveals: reveals }),
    }
}

/// A game's power: the product of the per-colour maxima of its rounds.
pub open spec fn game_power(reveals: Seq<RevealedDice>) -> int {
    let m = dice_max_upto(reveals, reveals.len() as int);
    m.red * m.blue * m.green
}

/// Whether a game's rounds all stay within the part-one maximum of
/// twelve red, fourteen blue and thirteen green dice.
pub open spec fn game_possible(reveals: Seq<RevealedDice>) -> bool {
    forall|k: int|
        0 <= k < reveals.len() ==> {
            let r = #[trigger] reveals[k];
            r.red <= 12 && r.blue <= 14 && r.green <= 13
        }
}

/// Sum of the ids of the possible games.
pub open spec fn part1_sum_games(ls: Seq<Seq<char>>) -> int
    decreases ls.len(),
{
    if ls.len() == 0 {
        0
    } else {
        let g = spec_parse_game(ls[0])->Some_0;
        (if game_possible(g.1) {
            g.0
        } else {
            0
        }) + part1_sum_games(ls.skip(1))
    }
}

/// Sum of the games' powers.
pub open spec fn part2_sum_games(ls: Seq<Seq<char>>) -> int
    decreases ls.len(),
{
    if ls.len() == 0 {
        0
    } else {
        game_power(spec_parse_game(ls[0])->Some_0.1) + part2_sum_games(ls.skip(1))
    }
}

pub open spec fn day2_input_ok(ls: Seq<Seq<char>>) -> bool {
    forall|k: int| 0 <= k < ls.len() ==> spec_parse_game(#[trigger] ls[k]) is Some
}

pub proof fn lemma_part1_sum_games_nonneg(ls: Seq<Seq<char>>)
    requires
        day2_input_ok(ls),
    ensures
        part1_sum_games(ls) >= 0,
    decreases ls.len(),
{
    if ls.len() > 0 {
        assert forall|k: int| 0 <= k < ls.skip(1).len() implies spec_parse_game(
            #[trigger] ls.skip(1)[k],
        ) is Some by {
            assert(ls.skip(1)[k] == ls[k + 1]);
        }
        lemma_part1_sum_games_nonneg(ls.skip(1));
        lemma_parse_game_id_nonneg(ls[0]);
    }
}

/// A parsed game's id is a machine integer.
pub proof fn lemma_parse_game_id_nonneg(s: Seq<char>)
    requires
        spec_parse_game(s) is Some,
    ensures
        0 <= spec_parse_game(s)->Some_0.0 <= usize::MAX,
{
    let n = digit_run_len(s, 5);
    crate::parsers::lemma_digit_run_len_bounds(s, 5);
    let run = s.subrange(5, 5 + n);
    assert forall|t: int| 0 <= t < run.len() implies crate::parsers::is_digit_char(
        #[trigger] run[t],
    ) by {
        crate::parsers::lemma_digit_run_all_digits(s, 5, 5 + t);
    }
    crate::parsers::lemma_dec_val_nonneg(run);
}

pub proof fn lemma_part2_sum_games_nonneg(ls: Seq<Seq<char>>)
    ensures
        part2_sum_games(ls) >= 0,
    decreases ls.len(),
{
    if ls.len() > 0 {
        lemma_part2_sum_games_nonneg(ls.skip(1));
        let g = spec_parse_game(ls[0])->Some_0;
        let m = dice_max_upto(g.1, g.1.len() as int);
        assert(m.red * m.blue * m.green >= 0) by (nonlinear_arith)
            requires
                m.red >= 0 && m.blue >= 0 && m.green >= 0,
        ;
    }
}

/// The solver for the dice games.
pub struct Day2Solver {}

impl Day2Solver {
    /// Sum of the ids of the games possible with twelve red, fourteen
    /// blue and thirteen green dice.
    #[verifier::loop_isolation(false)]
    pub fn solve_part_1(&self, lines: Vec<String>) -> (r: String)
        requires
            day2_input_ok(crate::day05::lines_views(lines@)),
            part1_sum_games(crate::day05::lines_views(lines@)) <= usize::MAX,
        ensures
            r@ == dec_chars(part1_sum_games(crate::day05::lines_views(lines@))),
    {
        let ghost ls = crate::day05::lines_views(lines@);
        proof {
            assert(ls.skip(0) =~= ls);
            lemma_part1_sum_games_nonneg(ls);
        }
        let max_reveal = RevealedDice { red: 12, blue: 14, green: 13 };
        let mut sum: usize = 0;
        let mut i: usize = 0;
        while i < lines.len()
            invariant
                i <= lines@.len(),
                sum + part1_sum_games(ls.skip(i as int)) == part1_sum_games(ls),
            decreases lines@.len() - i,
        {
            let ghost s = ls[i as int];
            proof {
                assert(s == lines@[i as int]@);
                assert(ls.skip(i as int)[0] == s);
                assert(ls.skip(i as int).skip(1) =~= ls.skip(i as int + 1));
                assert forall|k: int| 0 <= k < ls.skip(i as int + 1).len() implies spec_parse_game(
                    #[trigger] ls.skip(i as int + 1)[k],
                ) is Some by {
                    assert(ls.skip(i as int + 1)[k] == ls[k + i + 1]);
                }
                lemma_part1_sum_games_nonneg(ls.skip(i as int + 1));
                lemma_parse_game_id_nonneg(s);
            }
            let game = parse_game_line(lines[i].as_str()).unwrap();
            if game.reveals_less_than(&max_reveal) {
                sum = sum + game.id;
            }
            i = i + 1;
        }
        proof {
            assert(ls.skip(ls.len() as int).len() == 0);
        }
        crate::numfmt::usize_to_string(sum)
    }

    /// Sum of the games' powers: for each game the product of the fewest
    /// red, blue and green dice that make it possible.
    #[verifier::loop_isolation(false)]
    pub fn solve_part_2(&self, lines: Vec<String>) -> (r: String)
        requires
            day2_input_ok(crate::day05::lines_views(lines@)),
            part2_sum_games(crate::day05::lines_views(lines@)) <= usize::MAX,
        ensures
            r@ == dec_chars(part2_sum_games(crate::day05::lines_views(lines@))),
    {
        let ghost ls = crate::day05::lines_views(lines@);
        proof {
            assert(ls.skip(0) =~= ls);
            lemma_part2_sum_games_nonneg(ls);
        }
        let mut sum: usize = 0;
        let mut i: usize = 0;
        while i < lines.len()
            invariant
                i <= lines@.len(),
                sum + part2_sum_games(ls.skip(i as int)) == part2_sum_games(ls),
            decreases lines@.len() - i,
        {
            let ghost s = ls[i as int];
            proof {
                assert(s == lines@[i as int]@);
                assert(ls.skip(i as int)[0] == s);
                assert(ls.skip(i as int).skip(1) =~= ls.skip(i as int + 1));
                lemma_part2_sum_games_nonneg(ls.skip(i as int + 1));
            }
            let game = parse_game_line(lines[i].as_str()).unwrap();
            let min_dice = game.min_dice_required();
            proof {
                let m = dice_max_upto(game.game_reveals@, game.game_reveals@.len() as int);
                assert(m.red * m.blue * m.green <= 255 * 255 * 255 && 0 <= m.red * m.blue
                    && m.red * m.blue <= 255 * 255) by (nonlinear_arith)
                    requires
                        0 <= m.red <= 255 && 0 <= m.blue <= 255 && 0 <= m.green <= 255,
                ;
                lemma_part2_sum_games_nonneg(ls.skip(i as int));
            }
            let power: usize = (min_dice.red as usize) * (min_dice.blue as usize) * (
            min_dice.green as usize);
            sum = sum + power;
            i = i + 1;
        }
        proof {
            assert(ls.skip(ls.len() as int).len() == 0);
        }
        crate::numfmt::usize_to_string(sum)
    }
}

} // verus!
