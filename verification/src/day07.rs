//! Camel poker: five-card hands are ranked first by their level (five of
//! a kind down to high card) and then card by card; each hand's bid is
//! multiplied by its rank in the sorted order.  A variant reads `J` as a
//! joker that counts for whichever card the hand has most of, but ranks
//! lowest on ties.

use crate::numfmt::dec_chars;
use crate::parsers::{dec_val, digit_run_len, is_digit_char};
use vstd::prelude::*;

verus! {

#[derive(Eq, PartialEq, PartialOrd, Ord, Debug, Copy, Clone)]
pub enum PokerLevel {
    HighCard,
    OnePair,
    TwoPair,
    ThreeOfAKind,
    FullHouse,
    FourOfAKind,
    FiveOfAKind,
}

#[derive(Eq, PartialEq, PartialOrd, Ord, Debug, Copy, Clone)]
pub enum CardRank {
    Joker,
    Two,
    Three,
    Four,
    Five,
    Six,
    Seven,
    Eight,
    Nine,
    Ten,
    Jack,
    Queen,
    King,
    Ace,
}

pub enum RuleSet {
    Simple,
    WithJokers,
}

/// The strength of a card, lowest first.
pub open spec fn rank_val(r: CardRank) -> int {
    match r {
        CardRank::Joker => 0,
        CardRank::Two => 1,
        CardRank::Three => 2,
        CardRank::Four => 3,
        CardRank::Five => 4,
        CardRank::Six => 5,
        CardRank::Seven => 6,
        CardRank::Eight => 7,
        CardRank::Nine => 8,
        CardRank::Ten => 9,
        CardRank::Jack => 10,
        CardRank::Queen => 11,
        CardRank::King => 12,
        CardRank::Ace => 13,
    }
}

/// The strength of a level, lowest first.
pub open spec fn level_val(l: PokerLevel) -> int {
    match l {
        PokerLevel::HighCard => 0,
        PokerLevel::OnePair => 1,
        PokerLevel::TwoPair => 2,
        PokerLevel::ThreeOfAKind => 3,
        PokerLevel::FullHouse => 4,
        PokerLevel::FiveOfAKind => 6,
        PokerLevel::FourOfAKind => 5,
    }
}

/// The card a character names; `J` is a jack or a joker depending on the
/// rule set.
pub open spec fn spec_card_of_char(c: char, jokers: bool) -> Option<CardRank> {
    if c == 'J' {
        if jokers {
            Some(CardRank::Joker)
        } else {
            Some(CardRank::Jack)
        }
    } else if c == '2' {
        Some(CardRank::Two)
    } else if c == '3' {
        Some(CardRank::Three)
    } else if c == '4' {
        Some(CardRank::Four)
    } else if c == '5' {
        Some(CardRank::Five)
    } else if c == '6' {
        Some(CardRank::Six)
    } else if c == '7' {
        Some(CardRank::Seven)
    } else if c == '8' {
        Some(CardRank::Eight)
    } else if c == '9' {
        Some(CardRank::Nine)
    } else if c == 'T' {
        Some(CardRank::Ten)
    } else if c == 'Q' {
        Some(CardRank::Queen)
    } else if c == 'K' {
        Some(CardRank::King)
    } else if c == 'A' {
        Some(CardRank::Ace)
    } else {
        None
    }
}

/// How many cards of strength `rv` the hand holds.
pub open spec fn cnt_rank(cards: Seq<CardRank>, rv: int) -> int
    decreases cards.len(),
{
    if cards.len() == 0 {
        0
    } else {
        (if rank_val(cards[0]) == rv {
            1int
        } else {
            0int
        }) + cnt_rank(cards.skip(1), rv)
    }
}

/// The two largest counts among the non-joker strengths below `r`.
pub open spec fn top_two(cards: Seq<CardRank>, r: int) -> (int, int)
    decreases r,
{
    if r <= 1 {
        (0int, 0int)
    } else {
        let (t, s) = top_two(cards, r - 1);
        let c = cnt_rank(cards, r - 1);
        if c >= t {
            (c, t)
        } else if c > s {
            (t, c)
        } else {
            (t, s)
        }
    }
}

/// A hand's level from its best count (jokers joining the largest group)
/// and its second-best count.
pub open spec fn classify(top: int, second: int) -> PokerLevel {
    if top >= 5 {
        PokerLevel::FiveOfAKind
    } else if top == 4 {
        PokerLevel::FourOfAKind
    } else if top == 3 && second == 2 {
        PokerLevel::FullHouse
    } else if top == 3 {
        PokerLevel::ThreeOfAKind
    } else if top == 2 && second == 2 {
        PokerLevel::TwoPair
    } else if top == 2 {
        PokerLevel::OnePair
    } else {
        PokerLevel::HighCard
    }
}

/// The level of a hand: the jokers join the largest non-joker group, and
/// five jokers are five of a kind.
pub open spec fn hand_level(cards: Seq<CardRank>) -> PokerLevel {
    let jl = cnt_rank(cards, 0);
    if jl == 5 {
        PokerLevel::FiveOfAKind
    } else {
        let (t, s) = top_two(cards, 14);
        classify(t + jl, s)
    }
}

/// Counting distributes over appending one card.
pub proof fn lemma_cnt_push(cards: Seq<CardRank>, x: CardRank, rv: int)
    ensures
        cnt_rank(cards + seq![x], rv) == cnt_rank(cards, rv) + (if rank_val(x) == rv {
            1int
        } else {
            0int
        }),
    decreases cards.len(),
{
    if cards.len() == 0 {
        assert((cards + seq![x])[0] == x);
        assert((cards + seq![x]).skip(1).len() == 0);
        assert(cnt_rank((cards + seq![x]).skip(1), rv) == 0);
        assert(cnt_rank(cards, rv) == 0);
        assert((cards + seq![x]).len() == 1);
        assert(cnt_rank(cards + seq![x], rv) == (if rank_val(x) == rv {
            1int
        } else {
            0int
        }) + cnt_rank((cards + seq![x]).skip(1), rv));
    } else {
        assert((cards + seq![x])[0] == cards[0]);
        assert((cards + seq![x]).skip(1) =~= cards.skip(1) + seq![x]);
        lemma_cnt_push(cards.skip(1), x, rv);
    }
}

impl CardRank {
    /// Reads a one-character card name; `J` follows the rule set.
    pub fn parse_rank(value: String, rule_set: RuleSet) -> (r: CardRank)
        requires
            value@.len() == 1,
            spec_card_of_char(value@[0], rule_set is WithJokers) is Some,
        ensures
            r == spec_card_of_char(value@[0], rule_set is WithJokers)->Some_0,
    {
        let jokers = match rule_set {
            RuleSet::Simple => false,
            RuleSet::WithJokers => true,
        };
        card_of_char(value.as_str().get_char(0), jokers)
    }
}

/// The card a character names.
fn card_of_char(c: char, jokers: bool) -> (r: CardRank)
    requires
        spec_card_of_char(c, jokers) is Some,
    ensures
        r == spec_card_of_char(c, jokers)->Some_0,
{
    if c == 'J' {
        if jokers {
            CardRank::Joker
        } else {
            CardRank::Jack
        }
    } else if c == '2' {
        CardRank::Two
    } else if c == '3' {
        CardRank::Three
    } else if c == '4' {
        CardRank::Four
    } else if c == '5' {
        CardRank::Five
    } else if c == '6' {
        CardRank::Six
    } else if c == '7' {
        CardRank::Seven
    } else if c == '8' {
        CardRank::Eight
    } else if c == '9' {
        CardRank::Nine
    } else if c == 'T' {
        CardRank::Ten
    } else if c == 'Q' {
        CardRank::Queen
    } else {
        if c == 'K' {
            CardRank::King
        } else {
            CardRank::Ace
        }
    }
}

/// The strength of a card.
fn rank_idx(r: CardRank) -> (v: u8)
    ensures
        v as int == rank_val(r),
{
    match r {
        CardRank::Joker => 0,
        CardRank::Two => 1,
        CardRank::Three => 2,
        CardRank::Four => 3,
        CardRank::Five => 4,
        CardRank::Six => 5,
        CardRank::Seven => 6,
        CardRank::Eight => 7,
        CardRank::Nine => 8,
        CardRank::Ten => 9,
        CardRank::Jack => 10,
        CardRank::Queen => 11,
        CardRank::King => 12,
        CardRank::Ace => 13,
    }
}

/// A five-card hand with its precomputed level.  The field order makes
/// the derived comparisons rank by level first, then card by card, which
/// is the game's order.
#[derive(PartialEq, Eq, PartialOrd, Ord, Debug)]
pub struct CamelPokerHand {
    pub level: PokerLevel,
    pub hand: Vec<CardRank>,
}

/// The cards named by a five-character hand string.
pub open spec fn spec_hand_cards(s: Seq<char>, jokers: bool) -> Seq<CardRank> {
    Seq::new(s.len(), |k: int| spec_card_of_char(s[k], jokers)->Some_0)
}

pub open spec fn valid_hand(s: Seq<char>, jokers: bool) -> bool {
    &&& s.len() == 5
    &&& forall|k: int| 0 <= k < s.len() ==> spec_card_of_char(#[trigger] s[k], jokers) is Some
}

/// Computes a hand's level from its card counts.
#[verifier::loop_isolation(false)]
fn compute_level(cards: &Vec<CardRank>) -> (l: PokerLevel)
    requires
        cards@.len() == 5,
    ensures
        l == hand_level(cards@),
{
    let mut counts: Vec<u8> = Vec::new();
    let mut z: usize = 0;
    while z < 14
        invariant
            z <= 14,
            counts@.len() == z,
            forall|rv: int| 0 <= rv < z ==> #[trigger] counts@[rv] == 0,
        decreases 14 - z,
    {
        counts.push(0);
        z = z + 1;
    }
    proof {
        assert forall|rv: int| 0 <= rv < 14 implies #[trigger] counts@[rv] as int == cnt_rank(
            cards@.take(0),
            rv,
        ) by {
            assert(cards@.take(0).len() == 0);
        }
    }
    let mut i: usize = 0;
    while i < cards.len()
        invariant
            i <= cards@.len(),
            counts@.len() == 14,
            forall|rv: int|
                0 <= rv < 14 ==> #[trigger] counts@[rv] as int == cnt_rank(
                    cards@.take(i as int),
                    rv,
                ),
            forall|rv: int| 0 <= rv < 14 ==> #[trigger] counts@[rv] <= i,
        decreases cards@.len() - i,
    {
        let c = cards[i];
        let idx = rank_idx(c);
        let cur = counts[idx as usize];
        counts.set(idx as usize, cur + 1);
        proof {
            assert forall|rv: int| 0 <= rv < 14 implies #[trigger] counts@[rv] as int == cnt_rank(
                cards@.take(i as int + 1),
                rv,
            ) by {
                assert(cards@.take(i as int + 1) =~= cards@.take(i as int) + seq![c]);
                lemma_cnt_push(cards@.take(i as int), c, rv);
            }
        }
        i = i + 1;
    }
    proof {
        assert(cards@.take(cards@.len() as int) =~= cards@);
    }
    let jl = counts[0];
    if jl == 5 {
        return PokerLevel::FiveOfAKind;
    }
    let mut t: u8 = 0;
    let mut s: u8 = 0;
    let mut r: usize = 1;
    while r < 14
        invariant
            1 <= r <= 14,
            (t as int, s as int) == top_two(cards@, r as int),
            t <= 5 && s <= 5,
        decreases 14 - r,
    {
        let c = counts[r];
        proof {
            lemma_cnt_le_len(cards@, r as int);
        }
        if c >= t {
            s = t;
            t = c;
        } else if c > s {
            s = c;
        }
        r = r + 1;
    }
    let top = t + jl;
    proof {
        lemma_cnt_le_len(cards@, 0);
    }
    if top >= 5 {
        PokerLevel::FiveOfAKind
    } else if top == 4 {
        PokerLevel::FourOfAKind
    } else if top == 3 && s == 2 {
        PokerLevel::FullHouse
    } else if top == 3 {
        PokerLevel::ThreeOfAKind
    } else if top == 2 && s == 2 {
        PokerLevel::TwoPair
    } else if top == 2 {
        PokerLevel::OnePair
    } else {
        PokerLevel::HighCard
    }
}

/// A hand has at most as many cards of one strength as cards.
pub proof fn lemma_cnt_le_len(cards: Seq<CardRank>, rv: int)
    ensures
        0 <= cnt_rank(cards, rv) <= cards.len(),
    decreases cards.len(),
{
    if cards.len() > 0 {
        lemma_cnt_le_len(cards.skip(1), rv);
    }
}

impl CamelPokerHand {
    /// The hand's cards match its string and its level is computed from
    /// them.
    pub open spec fn wf_for(self, s: Seq<char>, jokers: bool) -> bool {
        &&& self.hand@ == spec_hand_cards(s, jokers)
        &&& self.level == hand_level(self.hand@)
    }

    /// Reads a five-card hand with `J` as a joker.
    pub fn new_with_jokers(hand: String) -> (r: CamelPokerHand)
        requires
            valid_hand(hand@, true),
        ensures
            r.wf_for(hand@, true),
    {
        Self::build(hand, true)
    }

    /// Reads a five-card hand with `J` as a jack.
    pub fn new_simple(hand: String) -> (r: CamelPokerHand)
        requires
            valid_hand(hand@, false),
        ensures
            r.wf_for(hand@, false),
    {
        Self::build(hand, false)
    }

    /// Reads a five-card hand under the given rule set.
    pub fn new_with_rules(hand: String, rule_set: RuleSet) -> (r: CamelPokerHand)
        requires
            valid_hand(hand@, rule_set is WithJokers),
        ensures
            r.wf_for(hand@, rule_set is WithJokers),
    {
        match rule_set {
            RuleSet::Simple => Self::new_simple(hand),
            RuleSet::WithJokers => Self::new_with_jokers(hand),
        }
    }

    /// Reads a five-card hand under the plain rules.
    pub fn new(hand: String) -> (r: CamelPokerHand)
        requires
            valid_hand(hand@, false),
        ensures
            r.wf_for(hand@, false),
    {
        Self::new_simple(hand)
    }

    #[verifier::loop_isolation(false)]
    fn build(hand: String, jokers: bool) -> (r: CamelPokerHand)
        requires
            valid_hand(hand@, jokers),
        ensures
            r.wf_for(hand@, jokers),
    {
        let s = hand.as_str();
        let mut cards: Vec<CardRank> = Vec::new();
        let mut i: usize = 0;
        while i < 5
            invariant
                i <= 5,
                cards@.len() == i,
                forall|k: int|
                    0 <= k < i ==> #[trigger] cards@[k] == spec_card_of_char(
                        hand@[k],
                        jokers,
                    )->Some_0,
            decreases 5 - i,
        {
            let c = s.get_char(i);
            cards.push(card_of_char(c, jokers));
            i = i + 1;
        }
        proof {
            assert(cards@ =~= spec_hand_cards(hand@, jokers));
        }
        let level = compute_level(&cards);
        CamelPokerHand { level, hand: cards }
    }
}

/// One hand with its bid.
pub struct CamelPokerRound {
    pub hand: CamelPokerHand,
    pub bid: usize,
}

/// Strict card-by-card order of two equal-length hands.
pub open spec fn lex_lt(a: Seq<CardRank>, b: Seq<CardRank>) -> bool
    decreases a.len(),
{
    if a.len() == 0 || b.len() == 0 {
        false
    } else if rank_val(a[0]) < rank_val(b[0]) {
        true
    } else if rank_val(a[0]) > rank_val(b[0]) {
        false
    } else {
        lex_lt(a.skip(1), b.skip(1))
    }
}

/// The game's strict order on rounds: level first, then card by card.
pub open spec fn round_lt(a: (Seq<CardRank>, int), b: (Seq<CardRank>, int)) -> bool {
    let la = level_val(hand_level(a.0));
    let lb = level_val(hand_level(b.0));
    la < lb || (la == lb && lex_lt(a.0, b.0))
}

/// A round placed after every round it does not strictly precede.
pub open spec fn insert_round(
    x: (Seq<CardRank>, int),
    s: Seq<(Seq<CardRank>, int)>,
) -> Seq<(Seq<CardRank>, int)>
    decreases s.len(),
{
    if s.len() == 0 {
        seq![x]
    } else if round_lt(x, s[0]) {
        seq![x] + s
    } else {
        seq![s[0]] + insert_round(x, s.skip(1))
    }
}

/// Stable insertion sort of the rounds, later equal rounds after earlier
/// ones.
pub open spec fn sort_rounds(s: Seq<(Seq<CardRank>, int)>) -> Seq<(Seq<CardRank>, int)>
    decreases s.len(),
{
    if s.len() == 0 {
        s
    } else {
        insert_round(s.last(), sort_rounds(s.drop_last()))
    }
}

/// Inserting at the first position whose element strictly follows `x`
/// realises `insert_round`.
pub proof fn lemma_insert_round_at(
    x: (Seq<CardRank>, int),
    s: Seq<(Seq<CardRank>, int)>,
    j: int,
)
    requires
        0 <= j <= s.len(),
        forall|t: int| 0 <= t < j ==> !round_lt(x, #[trigger] s[t]),
        j < s.len() ==> round_lt(x, s[j]),
    ensures
        insert_round(x, s) == s.take(j) + seq![x] + s.skip(j),
    decreases j,
{
    if s.len() == 0 {
        assert(insert_round(x, s) =~= s.take(0) + seq![x] + s.skip(0));
    } else if j == 0 {
        if round_lt(x, s[0]) {
            assert(insert_round(x, s) =~= s.take(0) + seq![x] + s.skip(0));
        } else {
            assert(insert_round(x, s) =~= s.take(0) + seq![x] + s.skip(0));
        }
    } else {
        assert(!round_lt(x, s[0]));
        let rest = s.skip(1);
        assert forall|t: int| 0 <= t < j - 1 implies !round_lt(x, #[trigger] rest[t]) by {
            assert(rest[t] == s[t + 1]);
        }
        assert(j - 1 < rest.len() ==> round_lt(x, rest[j - 1]));
        lemma_insert_round_at(x, rest, j - 1);
        assert(insert_round(x, s) == seq![s[0]] + (rest.take(j - 1) + seq![x] + rest.skip(j - 1)));
        assert(seq![s[0]] + (rest.take(j - 1) + seq![x] + rest.skip(j - 1)) =~= s.take(j) + seq![x]
            + s.skip(j));
    }
}

/// The views of the exec rounds.
pub open spec fn map_rounds(s: Seq<CamelPokerRound>) -> Seq<(Seq<CardRank>, int)> {
    s.map_values(|r: CamelPokerRound| (r.hand.hand@, r.bid as int))
}

/// Every stored level is the one computed from the stored cards.
pub open spec fn rounds_wf(s: Seq<CamelPokerRound>) -> bool {
    forall|k: int|
        0 <= k < s.len() ==> (#[trigger] s[k]).hand.level == hand_level(s[k].hand.hand@)
}

/// Strict comparison of two rounds.
#[verifier::loop_isolation(false)]
fn round_lt_exec(a: &CamelPokerRound, b: &CamelPokerRound) -> (r: bool)
    requires
        a.hand.level == hand_level(a.hand.hand@),
        b.hand.level == hand_level(b.hand.hand@),
    ensures
        r == round_lt((a.hand.hand@, a.bid as int), (b.hand.hand@, b.bid as int)),
{
    let la = level_idx(a.hand.level);
    let lb = level_idx(b.hand.level);
    if la < lb {
        return true;
    }
    if la > lb {
        return false;
    }
    let n = if a.hand.hand.len() <= b.hand.hand.len() {
        a.hand.hand.len()
    } else {
        b.hand.hand.len()
    };
    proof {
        assert(a.hand.hand@.skip(0) =~= a.hand.hand@);
        assert(b.hand.hand@.skip(0) =~= b.hand.hand@);
    }
    let mut j: usize = 0;
    while j < n
        invariant
            j <= n,
            n == if a.hand.hand@.len() <= b.hand.hand@.len() {
                a.hand.hand@.len() as int
            } else {
                b.hand.hand@.len() as int
            },
            lex_lt(a.hand.hand@, b.hand.hand@) == lex_lt(
                a.hand.hand@.skip(j as int),
                b.hand.hand@.skip(j as int),
            ),
        decreases n - j,
    {
        let ra = rank_idx(a.hand.hand[j]);
        let rb = rank_idx(b.hand.hand[j]);
        proof {
            assert(a.hand.hand@.skip(j as int)[0] == a.hand.hand@[j as int]);
            assert(b.hand.hand@.skip(j as int)[0] == b.hand.hand@[j as int]);
            assert(a.hand.hand@.skip(j as int).skip(1) =~= a.hand.hand@.skip(j as int + 1));
            assert(b.hand.hand@.skip(j as int).skip(1) =~= b.hand.hand@.skip(j as int + 1));
        }
        if ra < rb {
            return true;
        }
        if ra > rb {
            return false;
        }
        j = j + 1;
    }
    proof {
        assert(a.hand.hand@.skip(j as int).len() == 0 || b.hand.hand@.skip(j as int).len() == 0);
    }
    false
}

/// The strength of a level.
fn level_idx(l: PokerLevel) -> (v: u8)
    ensures
        v as int == level_val(l),
{
    match l {
        PokerLevel::HighCard => 0,
        PokerLevel::OnePair => 1,
        PokerLevel::TwoPair => 2,
        PokerLevel::ThreeOfAKind => 3,
        PokerLevel::FullHouse => 4,
        PokerLevel::FourOfAKind => 5,
        PokerLevel::FiveOfAKind => 6,
    }
}

/// Stable insertion sort of the rounds by the game's order.
#[verifier::loop_isolation(false)]
fn sort_rounds_exec(rounds: Vec<CamelPokerRound>) -> (out: Vec<CamelPokerRound>)
    requires
        rounds_wf(rounds@),
    ensures
        map_rounds(out@) == sort_rounds(map_rounds(rounds@)),
        rounds_wf(out@),
{
    let ghost all = map_rounds(rounds@);
    let mut out: Vec<CamelPokerRound> = Vec::new();
    proof {
        assert(map_rounds(out@) =~= sort_rounds(map_rounds(rounds@.take(0))));
    }
    let mut i: usize = 0;
    while i < rounds.len()
        invariant
            i <= rounds@.len(),
            map_rounds(out@) == sort_rounds(map_rounds(rounds@.take(i as int))),
            rounds_wf(out@),
            out@.len() == i,
        decreases rounds@.len() - i,
    {
        let x = &rounds[i];
        let mut j: usize = 0;
        while j < out.len() && !round_lt_exec(x, &out[j])
            invariant
                j <= out@.len(),
                forall|t: int|
                    0 <= t < j ==> !round_lt(
                        (x.hand.hand@, x.bid as int),
                        #[trigger] map_rounds(out@)[t],
                    ),
            decreases out@.len() - j,
        {
            proof {
                assert(map_rounds(out@)[j as int] == (out@[j as int].hand.hand@, out@[j as int].bid as int));
            }
            j = j + 1;
        }
        let ghost pre = out@;
        let xo = CamelPokerRound { hand: CamelPokerHand { level: x.hand.level, hand: clone_cards(&x.hand.hand) }, bid: x.bid };
        out.insert(j, xo);
        proof {
            let xv = (rounds@[i as int].hand.hand@, rounds@[i as int].bid as int);
            if (j as int) < pre.len() {
                assert(map_rounds(pre)[j as int] == (pre[j as int].hand.hand@, pre[j as int].bid as int));
            }
            lemma_insert_round_at(xv, map_rounds(pre), j as int);
            assert(map_rounds(out@) =~= map_rounds(pre).take(j as int) + seq![xv] + map_rounds(
                pre,
            ).skip(j as int)) by {
                assert forall|t: int| 0 <= t < out@.len() implies map_rounds(out@)[t] == (
                map_rounds(pre).take(j as int) + seq![xv] + map_rounds(pre).skip(j as int))[t] by {
                    pre.insert_ensures(j as int, xo);
                    if t < j {
                        assert(out@[t] == pre[t]);
                    } else if t == j {
                        assert(out@[t] == xo);
                    } else {
                        assert(out@[t] == pre[t - 1]);
                    }
                }
            }
            assert(rounds@.take(i as int + 1).drop_last() =~= rounds@.take(i as int));
            assert(rounds@.take(i as int + 1).last() == rounds@[i as int]);
            assert(map_rounds(rounds@.take(i as int + 1)).drop_last() =~= map_rounds(
                rounds@.take(i as int),
            ));
            assert(map_rounds(rounds@.take(i as int + 1)).last() == xv);
            assert(map_rounds(rounds@.take(i as int + 1)).len() > 0);
            assert(rounds_wf(out@)) by {
                assert forall|k: int| 0 <= k < out@.len() implies (#[trigger] out@[k]).hand.level
                    == hand_level(out@[k].hand.hand@) by {
                    pre.insert_ensures(j as int, xo);
                    if k < j {
                        assert(out@[k] == pre[k]);
                    } else if k == j {
                    } else {
                        assert(out@[k] == pre[k - 1]);
                    }
                }
            }
        }
        i = i + 1;
    }
    proof {
        assert(rounds@.take(rounds@.len() as int) =~= rounds@);
    }
    out
}

/// The grammar of one round line: five card characters, a space, and a
/// bid number followed only by spaces or the end of the line.
pub open spec fn spec_parse_hand_line(s: Seq<char>, jokers: bool) -> Option<(Seq<CardRank>, int)> {
    if !(s.len() >= 6 && s[5] == ' ') {
        None
    } else if !(forall|k: int| 0 <= k < 5 ==> spec_card_of_char(#[trigger] s[k], jokers) is Some) {
        None
    } else {
        let n = digit_run_len(s, 6);
        if n <= 0 || dec_val(s.subrange(6, 6 + n)) > usize::MAX {
            None
        } else if 6 + n < s.len() && s[6 + n] != ' ' {
            None
        } else {
            Some(
                (
                    Seq::new(5, |k: int| spec_card_of_char(s[k], jokers)->Some_0),
                    dec_val(s.subrange(6, 6 + n)),
                ),
            )
        }
    }
}

/// Whether a character names a card.
fn is_card_char(c: char, jokers: bool) -> (b: bool)
    ensures
        b == (spec_card_of_char(c, jokers) is Some),
{
    c == 'J' || c == '2' || c == '3' || c == '4' || c == '5' || c == '6' || c == '7' || c == '8'
        || c == '9' || c == 'T' || c == 'Q' || c == 'K' || c == 'A'
}

/// Parses one round line.
fn parse_round(line: &str, jokers: bool) -> (r: Option<CamelPokerRound>)
    ensures
        match r {
            Some(rd) => {
                &&& spec_parse_hand_line(line@, jokers) == Some((rd.hand.hand@, rd.bid as int))
                &&& rd.hand.level == hand_level(rd.hand.hand@)
            },
            None => spec_parse_hand_line(line@, jokers) is None,
        },
{
    let len = line.unicode_len();
    if !(len >= 6 && line.get_char(5) == ' ') {
        return None;
    }
    if !(is_card_char(line.get_char(0), jokers) && is_card_char(line.get_char(1), jokers)
        && is_card_char(line.get_char(2), jokers) && is_card_char(line.get_char(3), jokers)
        && is_card_char(line.get_char(4), jokers)) {
        return None;
    }
    let num = crate::parsers::parse_number_at(line, 6);
    let (bid, end) = match num {
        None => {
            return None;
        },
        Some(t) => t,
    };
    if end < len {
        if line.get_char(end) != ' ' {
            return None;
        }
    }
    let hand_str = line.substring_char(0, 5);
    proof {
        assert forall|k: int| 0 <= k < 5 implies spec_card_of_char(
            #[trigger] hand_str@[k],
            jokers,
        ) is Some by {
            assert(hand_str@[k] == line@[k]);
        }
    }
    let hand = CamelPokerHand::new_with_rules(
        hand_str.to_owned(),
        if jokers {
            RuleSet::WithJokers
        } else {
            RuleSet::Simple
        },
    );
    proof {
        assert(hand.hand@ =~= Seq::new(5, |k: int| spec_card_of_char(line@[k], jokers)->Some_0));
    }
    Some(CamelPokerRound { hand, bid })
}

/// The parsed rounds of the input lines.
pub open spec fn day7_rounds(ls: Seq<Seq<char>>, jokers: bool) -> Seq<(Seq<CardRank>, int)> {
    Seq::new(ls.len(), |k: int| spec_parse_hand_line(ls[k], jokers)->Some_0)
}

pub open spec fn day7_input_ok(ls: Seq<Seq<char>>, jokers: bool) -> bool {
    forall|k: int| 0 <= k < ls.len() ==> spec_parse_hand_line(#[trigger] ls[k], jokers) is Some
}

/// Total winnings of the rounds from position `i` on: each round's bid
/// times its one-based position.
pub open spec fn winnings_from(rs: Seq<(Seq<CardRank>, int)>, i: int) -> int
    decreases rs.len() - i,
{
    if !(0 <= i < rs.len()) {
        0
    } else {
        (i + 1) * rs[i].1 + winnings_from(rs, i + 1)
    }
}

pub proof fn lemma_winnings_nonneg(rs: Seq<(Seq<CardRank>, int)>, i: int)
    requires
        i >= 0,
        forall|k: int| 0 <= k < rs.len() ==> (#[trigger] rs[k]).1 >= 0,
    ensures
        winnings_from(rs, i) >= 0,
    decreases rs.len() - i,
{
    if 0 <= i < rs.len() {
        lemma_winnings_nonneg(rs, i + 1);
        assert((i + 1) * rs[i].1 >= 0) by (nonlinear_arith)
            requires
                i + 1 >= 1,
                rs[i].1 >= 0,
        ;
    }
}

/// The game's answer: the winnings of the sorted rounds.
pub open spec fn day7_answer(ls: Seq<Seq<char>>, jokers: bool) -> int {
    winnings_from(sort_rounds(day7_rounds(ls, jokers)), 0)
}

/// The solver for the camel poker rounds.
pub struct Day7Solver {}

impl Day7Solver {
    /// Total winnings with `J` read as a jack.
    pub fn solve_part_1(&self, lines: Vec<String>) -> (r: String)
        requires
            day7_input_ok(crate::day05::lines_views(lines@), false),
            day7_answer(crate::day05::lines_views(lines@), false) <= usize::MAX,
        ensures
            r@ == dec_chars(day7_answer(crate::day05::lines_views(lines@), false)),
    {
        solve(lines, false)
    }

    /// Total winnings with `J` read as a joker.
    pub fn solve_part_2(&self, lines: Vec<String>) -> (r: String)
        requires
            day7_input_ok(crate::day05::lines_views(lines@), true),
            day7_answer(crate::day05::lines_views(lines@), true) <= usize::MAX,
        ensures
            r@ == dec_chars(day7_answer(crate::day05::lines_views(lines@), true)),
    {
        solve(lines, true)
    }
}

/// Parses, sorts and scores the rounds.
#[verifier::loop_isolation(false)]
fn solve(lines: Vec<String>, jokers: bool) -> (r: String)
    requires
        day7_input_ok(crate::day05::lines_views(lines@), jokers),
        day7_answer(crate::day05::lines_views(lines@), jokers) <= usize::MAX,
    ensures
        r@ == dec_chars(day7_answer(crate::day05::lines_views(lines@), jokers)),
{
    let ghost ls = crate::day05::lines_views(lines@);
    let ghost parsed = day7_rounds(ls, jokers);
    let mut rounds: Vec<CamelPokerRound> = Vec::new();
    let mut i: usize = 0;
    while i < lines.len()
        invariant
            i <= lines@.len(),
            rounds@.len() == i,
            map_rounds(rounds@) =~= parsed.take(i as int),
            rounds_wf(rounds@),
        decreases lines@.len() - i,
    {
        proof {
            assert(ls[i as int] == lines@[i as int]@);
        }
        let rd = parse_round(lines[i].as_str(), jokers).unwrap();
        rounds.push(rd);
        proof {
            assert(map_rounds(rounds@) =~= parsed.take(i as int + 1));
        }
        i = i + 1;
    }
    proof {
        assert(parsed.take(parsed.len() as int) =~= parsed);
        assert(map_rounds(rounds@) == parsed);
    }
    let sorted = sort_rounds_exec(rounds);
    let ghost srs = sort_rounds(parsed);
    proof {
        assert(map_rounds(sorted@) == srs);
        assert forall|k: int| 0 <= k < srs.len() implies (#[trigger] srs[k]).1 >= 0 by {
            assert(srs[k] == map_rounds(sorted@)[k]);
            assert(map_rounds(sorted@)[k] == (sorted@[k].hand.hand@, sorted@[k].bid as int));
        }
        lemma_winnings_nonneg(srs, 0);
    }
    let mut out: usize = 0;
    let mut mult: usize = 0;
    while mult < sorted.len()
        invariant
            mult <= sorted@.len(),
            srs.len() == sorted@.len(),
            out + winnings_from(srs, mult as int) == winnings_from(srs, 0),
        decreases sorted@.len() - mult,
    {
        let bid = sorted[mult].bid;
        proof {
            assert(srs[mult as int] == map_rounds(sorted@)[mult as int]);
            assert(srs[mult as int].1 == bid as int);
            lemma_winnings_nonneg(srs, mult as int + 1);
            assert((mult + 1) * bid >= 0) by (nonlinear_arith)
                requires
                    bid >= 0,
                ;
            assert(winnings_from(srs, mult as int) == (mult + 1) * bid + winnings_from(
                srs,
                mult as int + 1,
            ));
        }
        out = out + (mult + 1) * bid;
        mult = mult + 1;
    }
    crate::numfmt::usize_to_string(out)
}

/// A copy of a hand's cards.
fn clone_cards(cards: &Vec<CardRank>) -> (out: Vec<CardRank>)
    ensures
        out@ == cards@,
{
    let mut out: Vec<CardRank> = Vec::new();
    let mut i: usize = 0;
    while i < cards.len()
        invariant
            i <= cards@.len(),
            out@ =~= cards@.take(i as int),
        decreases cards@.len() - i,
    {
        out.push(cards[i]);
        proof {
            assert(out@ =~= cards@.take(i as int + 1));
        }
        i = i + 1;
    }
    proof {
        assert(cards@.take(cards@.len() as int) =~= cards@);
    }
    out
}

} // verus!
