//! A deck of playing cards: a draw pile, a hand and a discard pile, shuffled
//! by a seeded generator so that the same seed always deals the same game.

use vstd::prelude::*;
use vstd::multiset::Multiset;
use crate::text::{append_u64, fmt_nat};
use crate::rng::{spec_advance, LCG_INCREMENT, LCG_MULTIPLIER};

verus! {

broadcast use vstd::multiset::group_multiset_axioms;

/// The four card suits.
#[derive(Clone, Copy, Debug, PartialEq, Eq, Structural)]
pub enum Suit {
    Clubs,
    Diamonds,
    Hearts,
    Spades,
}

/// A single playing card: a suit and a rank in `1..=13`.
#[derive(Clone, Copy, Debug, PartialEq, Eq, Structural)]
pub struct Card {
    pub suit: Suit,
    pub rank: u8,
}

/// Point value: an ace is 11, a face card 10, any other card its rank.
pub open spec fn card_value(c: Card) -> u32 {
    if c.rank == 1 {
        11
    } else if 11 <= c.rank <= 13 {
        10
    } else {
        c.rank as u32
    }
}

/// How a rank is written: `A`, `J`, `Q`, `K`, or its number.
pub open spec fn rank_text(rank: u8) -> Seq<char> {
    if rank == 1 {
        seq!['A']
    } else if rank == 11 {
        seq!['J']
    } else if rank == 12 {
        seq!['Q']
    } else if rank == 13 {
        seq!['K']
    } else {
        fmt_nat(rank as nat)
    }
}

/// The symbol of a suit.
pub open spec fn suit_symbol(s: Suit) -> char {
    match s {
        Suit::Clubs => '\u{2663}',
        Suit::Diamonds => '\u{2666}',
        Suit::Hearts => '\u{2665}',
        Suit::Spades => '\u{2660}',
    }
}

/// A card's label: its rank, then its suit symbol.
pub open spec fn card_label(c: Card) -> Seq<char> {
    rank_text(c.rank).push(suit_symbol(c.suit))
}

/// The one-symbol string for a suit.
fn suit_str(s: Suit) -> (r: &'static str)
    ensures
        r@ == seq![suit_symbol(s)],
{
    proof {
        reveal_strlit("\u{2663}");
        reveal_strlit("\u{2666}");
        reveal_strlit("\u{2665}");
        reveal_strlit("\u{2660}");
    }
    let r = match s {
        Suit::Clubs => "\u{2663}",
        Suit::Diamonds => "\u{2666}",
        Suit::Hearts => "\u{2665}",
        Suit::Spades => "\u{2660}",
    };
    proof {
        assert(r@ =~= seq![suit_symbol(s)]);
    }
    r
}

impl Card {
    /// The card's label, such as `A♥` or `10♠`.
    pub fn label(self) -> (s: String)
        ensures
            s@ == card_label(self),
    {
        let mut out = String::new();
        proof {
            reveal_strlit("A");
            reveal_strlit("J");
            reveal_strlit("Q");
            reveal_strlit("K");
        }
        if self.rank == 1 {
            out.append("A");
        } else if self.rank == 11 {
            out.append("J");
        } else if self.rank == 12 {
            out.append("Q");
        } else if self.rank == 13 {
            out.append("K");
        } else {
            append_u64(&mut out, self.rank as u64);
        }
        let ghost head = out@;
        proof {
            assert(head =~= rank_text(self.rank));
        }
        out.append(suit_str(self.suit));
        proof {
            assert(out@ =~= card_label(self));
        }
        out
    }

    /// Point value: face cards are 10, an ace 11, others their rank.
    pub fn value(self) -> (v: u32)
        ensures
            v == card_value(self),
    {
        if self.rank == 1 {
            11
        } else if 11 <= self.rank && self.rank <= 13 {
            10
        } else {
            self.rank as u32
        }
    }
}

/// The seed the card game starts with.
pub const DEFAULT_SEED: u64 = 12345;

/// One step of the linear congruential generator (Knuth's constants), the
/// same step the snake's food generator takes.
pub open spec fn spec_lcg_next(state: u64) -> u64 {
    spec_advance(state)
}

/// The next state of the generator.
pub fn lcg_next(state: u64) -> (r: u64)
    ensures
        r == spec_lcg_next(state),
{
    state.wrapping_mul(LCG_MULTIPLIER).wrapping_add(LCG_INCREMENT)
}

/// Exchanges two entries of a sequence.
pub open spec fn swap_at<A>(s: Seq<A>, i: int, j: int) -> Seq<A> {
    s.update(i, s[j]).update(j, s[i])
}

/// The position that position `i` trades with, drawn from generator state
/// `rng`: the state's high bits, reduced to `0..=i`.
pub open spec fn shuffle_pick(rng: u64, i: int) -> int {
    ((rng >> 33u64) as int) % (i + 1)
}

/// Fisher-Yates from position `i` down to 1, advancing the generator once
/// per position.
pub open spec fn shuffle_from(s: Seq<Card>, rng: u64, i: int) -> Seq<Card>
    decreases i,
{
    if i <= 0 {
        s
    } else {
        let r = spec_lcg_next(rng);
        shuffle_from(swap_at(s, i, shuffle_pick(r, i)), r, i - 1)
    }
}

/// The order `shuffle` leaves `s` in for a given seed.
pub open spec fn spec_shuffle(s: Seq<Card>, seed: u64) -> Seq<Card> {
    shuffle_from(s, seed, s.len() - 1)
}

/// Exchanging two entries keeps the same cards.
pub proof fn lemma_swap_keeps_cards<A>(s: Seq<A>, i: int, j: int)
    requires
        0 <= i < s.len(),
        0 <= j < s.len(),
    ensures
        swap_at(s, i, j).len() == s.len(),
        swap_at(s, i, j).to_multiset() == s.to_multiset(),
{
    broadcast use vstd::seq_lib::to_multiset_update;
    broadcast use vstd::multiset::group_multiset_properties;
    broadcast use vstd::seq_lib::to_multiset_contains;

    assert(s.update(i, s[j])[j] == s[j]);
    assert(s.to_multiset().count(s[i]) > 0);
    assert(s.to_multiset().insert(s[j]).remove(s[i]).insert(s[i]).remove(s[j]) =~= s.to_multiset());
}

/// A shuffle rearranges the cards: none is lost, none is added.
pub proof fn lemma_shuffle_from_keeps_cards(s: Seq<Card>, rng: u64, i: int)
    requires
        i < s.len(),
    ensures
        shuffle_from(s, rng, i).len() == s.len(),
        shuffle_from(s, rng, i).to_multiset() == s.to_multiset(),
    decreases i,
{
    if i > 0 {
        let r = spec_lcg_next(rng);
        let j = shuffle_pick(r, i);
        lemma_swap_keeps_cards(s, i, j);
        lemma_shuffle_from_keeps_cards(swap_at(s, i, j), r, i - 1);
    }
}

/// Shuffling is a permutation: the same cards, in some order.
pub proof fn lemma_shuffle_keeps_cards(s: Seq<Card>, seed: u64)
    ensures
        spec_shuffle(s, seed).len() == s.len(),
        spec_shuffle(s, seed).to_multiset() == s.to_multiset(),
{
    lemma_shuffle_from_keeps_cards(s, seed, s.len() - 1);
}

/// In-place Fisher-Yates shuffle driven by the seeded generator.
pub fn shuffle(cards: &mut Vec<Card>, seed: u64)
    ensures
        final(cards)@ == spec_shuffle(old(cards)@, seed),
{
    let n = cards.len();
    if n < 2 {
        return;
    }
    let ghost start = cards@;
    let mut rng = seed;
    let mut i = n - 1;
    while i >= 1
        invariant
            i < n,
            n == start.len(),
            cards@.len() == n,
            shuffle_from(cards@, rng, i as int) == spec_shuffle(start, seed),
        decreases i,
    {
        rng = lcg_next(rng);
        let high = rng >> 33;
        assert(high < 0x8000_0000) by (bit_vector)
            requires
                high == rng >> 33u64,
        ;
        let j = (high as usize) % (i + 1);
        let ghost pre = cards@;
        let a = cards[i];
        let b = cards[j];
        cards.set(i, b);
        cards.set(j, a);
        proof {
            assert(cards@ =~= swap_at(pre, i as int, j as int));
            assert(shuffle_pick(rng, i as int) == j);
        }
        i = i - 1;
    }
}

/// Drawing: the top (last) card of the draw pile goes to the hand; when the
/// draw pile is empty the discard pile is shuffled in to become it. Nothing
/// happens, and `false` comes back, when both piles are empty.
pub open spec fn spec_draw_card(draw: Seq<Card>, hand: Seq<Card>, discard: Seq<Card>, seed: u64) -> (
    Seq<Card>,
    Seq<Card>,
    Seq<Card>,
    bool,
) {
    if draw.len() > 0 {
        (draw.drop_last(), hand.push(draw.last()), discard, true)
    } else if discard.len() > 0 {
        let pile = spec_shuffle(discard, seed);
        (pile.drop_last(), hand.push(pile.last()), Seq::empty(), true)
    } else {
        (draw, hand, discard, false)
    }
}

/// Moves the top card from `draw` to `hand`, recycling `discard` into `draw`
/// when the draw pile is empty. Returns `false` when both piles are empty.
pub fn draw_card(draw: &mut Vec<Card>, hand: &mut Vec<Card>, discard: &mut Vec<Card>, seed: u64) -> (drawn: bool)
    ensures
        (final(draw)@, final(hand)@, final(discard)@, drawn) == spec_draw_card(
            old(draw)@,
            old(hand)@,
            old(discard)@,
            seed,
        ),
{
    if draw.len() == 0 {
        if discard.len() == 0 {
            return false;
        }
        std::mem::swap(draw, discard);
        shuffle(draw, seed);
        proof {
            lemma_shuffle_keeps_cards(old(discard)@, seed);
        }
    }
    match draw.pop() {
        Some(c) => {
            hand.push(c);
            true
        },
        None => false,
    }
}

/// Drawing takes the top card of the pile it draws from and puts it on the
/// end of the hand. With cards in the draw pile, that is the draw pile's top
/// card, and the discard pile is left alone. With the draw pile empty, the
/// discard pile is recycled in the order the seeded shuffle gives it, not in
/// the order it was played: the new draw pile with the drawn card back on
/// top is exactly the discard pile shuffled with the seed, and the discard
/// pile is left empty. With both piles empty nothing changes and `false`
/// comes back.
pub proof fn lemma_draw_takes_the_top_card(draw: Seq<Card>, hand: Seq<Card>, discard: Seq<Card>, seed: u64)
    ensures
        ({
            let (draw2, hand2, discard2, drawn) = spec_draw_card(draw, hand, discard, seed);
            &&& drawn == (draw.len() > 0 || discard.len() > 0)
            &&& drawn ==> hand2.len() == hand.len() + 1 && hand2.drop_last() == hand
            &&& draw.len() > 0 ==> draw2.push(hand2.last()) == draw && discard2 == discard
            &&& draw.len() == 0 && discard.len() > 0 ==> draw2.push(hand2.last()) == spec_shuffle(
                discard,
                seed,
            ) && discard2.len() == 0
            &&& !drawn ==> draw2 == draw && hand2 == hand && discard2 == discard
        }),
{
    let (draw2, hand2, discard2, drawn) = spec_draw_card(draw, hand, discard, seed);
    if draw.len() > 0 {
        assert(hand2.drop_last() =~= hand);
        assert(draw2.push(hand2.last()) =~= draw);
    } else if discard.len() > 0 {
        lemma_shuffle_keeps_cards(discard, seed);
        assert(hand2.drop_last() =~= hand);
        assert(draw2.push(hand2.last()) =~= spec_shuffle(discard, seed));
    }
}

/// Playing moves exactly the chosen card: with `index` inside the hand, the
/// discard pile gains `hand[index]` on top and nothing else, and the hand
/// loses that card alone, the others keeping their order; outside the hand
/// nothing changes and `false` comes back.
pub proof fn lemma_play_moves_the_chosen_card(hand: Seq<Card>, discard: Seq<Card>, index: int)
    ensures
        ({
            let (hand2, discard2, played) = spec_play_card(hand, discard, index);
            &&& played == (0 <= index < hand.len())
            &&& played ==> discard2.drop_last() == discard && discard2.len() == discard.len() + 1
                && discard2.last() == hand[index] && hand2.insert(index, discard2.last()) == hand
            &&& !played ==> hand2 == hand && discard2 == discard
        }),
{
    let (hand2, discard2, played) = spec_play_card(hand, discard, index);
    if played {
        assert(discard2.drop_last() =~= discard);
        assert(hand2.insert(index, discard2.last()) =~= hand);
    }
}

/// Playing: `hand[index]` moves to the top of the discard pile; an index
/// past the hand changes nothing and gives `false`.
pub open spec fn spec_play_card(hand: Seq<Card>, discard: Seq<Card>, index: int) -> (
    Seq<Card>,
    Seq<Card>,
    bool,
) {
    if 0 <= index < hand.len() {
        (hand.remove(index), discard.push(hand[index]), true)
    } else {
        (hand, discard, false)
    }
}

/// Moves `hand[index]` to `discard`. Returns `false` when `index` is out of
/// range.
pub fn play_card(hand: &mut Vec<Card>, discard: &mut Vec<Card>, index: usize) -> (played: bool)
    ensures
        (final(hand)@, final(discard)@, played) == spec_play_card(old(hand)@, old(discard)@, index as int),
{
    if index >= hand.len() {
        return false;
    }
    let card = hand.remove(index);
    discard.push(card);
    true
}

/// Drawing and playing move cards between piles and never create or destroy
/// one: the three piles together hold the same cards before and after.
pub proof fn lemma_piles_keep_cards(
    draw: Seq<Card>,
    hand: Seq<Card>,
    discard: Seq<Card>,
    seed: u64,
    index: int,
)
    ensures
        ({
            let (d, h, x, _) = spec_draw_card(draw, hand, discard, seed);
            d.to_multiset().add(h.to_multiset()).add(x.to_multiset()) == draw.to_multiset().add(
                hand.to_multiset(),
            ).add(discard.to_multiset())
        }),
        ({
            let (h, x, _) = spec_play_card(hand, discard, index);
            h.to_multiset().add(x.to_multiset()) == hand.to_multiset().add(discard.to_multiset())
        }),
{
    broadcast use vstd::seq_lib::group_to_multiset_ensures;
    broadcast use vstd::multiset::group_multiset_properties;

    if draw.len() > 0 {
        assert(draw =~= draw.drop_last().push(draw.last()));
        assert(draw.to_multiset() =~= draw.drop_last().to_multiset().insert(draw.last()));
    } else if discard.len() > 0 {
        let pile = spec_shuffle(discard, seed);
        lemma_shuffle_keeps_cards(discard, seed);
        assert(pile =~= pile.drop_last().push(pile.last()));
        assert(pile.to_multiset() =~= pile.drop_last().to_multiset().insert(pile.last()));
        assert(draw.to_multiset() =~= Multiset::empty());
        assert(Seq::<Card>::empty().to_multiset() =~= Multiset::empty());
    }
    if 0 <= index < hand.len() {
        vstd::seq_lib::to_multiset_remove(hand, index);
    }
}

/// The sum of the values of the cards in `hand`.
pub open spec fn sum_values(hand: Seq<Card>) -> nat
    decreases hand.len(),
{
    if hand.len() == 0 {
        0
    } else {
        sum_values(hand.drop_last()) + card_value(hand.last()) as nat
    }
}

/// A hand is worth at least as much as any first part of it.
pub proof fn lemma_sum_values_prefix(hand: Seq<Card>, i: int)
    requires
        0 <= i <= hand.len(),
    ensures
        sum_values(hand.take(i)) <= sum_values(hand),
    decreases hand.len(),
{
    if i < hand.len() {
        lemma_sum_values_prefix(hand.drop_last(), i);
        assert(hand.drop_last().take(i) =~= hand.take(i));
    } else {
        assert(hand.take(i) =~= hand);
    }
}

/// Sum of `Card::value` for all cards in `hand`.
pub fn hand_value(hand: &[Card]) -> (v: u32)
    requires
        sum_values(hand@) <= u32::MAX,
    ensures
        v == sum_values(hand@),
{
    let mut total: u32 = 0;
    let mut i: usize = 0;
    while i < hand.len()
        invariant
            i <= hand@.len(),
            sum_values(hand@) <= u32::MAX,
            total == sum_values(hand@.take(i as int)),
        decreases hand@.len() - i,
    {
        proof {
            assert(hand@.take(i + 1).drop_last() =~= hand@.take(i as int));
            lemma_sum_values_prefix(hand@, i + 1);
        }
        total = total + hand[i].value();
        i = i + 1;
    }
    proof {
        assert(hand@.take(hand@.len() as int) =~= hand@);
    }
    total
}

/// The suit of the `k`-th block of thirteen in an ordered deck.
pub open spec fn suit_of_block(k: int) -> Suit {
    if k == 0 {
        Suit::Clubs
    } else if k == 1 {
        Suit::Diamonds
    } else if k == 2 {
        Suit::Hearts
    } else {
        Suit::Spades
    }
}

/// A full, ordered deck: clubs, diamonds, hearts, spades, each from ace to
/// king.
pub open spec fn spec_full_deck() -> Seq<Card> {
    Seq::new(52, |i: int| Card { suit: suit_of_block(i / 13), rank: (i % 13 + 1) as u8 })
}

/// Where a card sits in the ordered deck.
pub open spec fn deck_position(c: Card) -> int {
    let block = match c.suit {
        Suit::Clubs => 0int,
        Suit::Diamonds => 1int,
        Suit::Hearts => 2int,
        Suit::Spades => 3int,
    };
    block * 13 + c.rank - 1
}

/// The ordered deck holds every card of rank 1 to 13 exactly once, and no
/// other card.
pub proof fn lemma_full_deck_is_complete()
    ensures
        spec_full_deck().len() == 52,
        forall|c: Card|
            1 <= c.rank <= 13 ==> 0 <= #[trigger] deck_position(c) < 52 && spec_full_deck()[deck_position(c)] == c,
        forall|i: int|
            0 <= i < 52 ==> 1 <= (#[trigger] spec_full_deck()[i]).rank <= 13 && deck_position(spec_full_deck()[i]) == i,
        spec_full_deck().no_duplicates(),
{
    assert forall|c: Card| 1 <= c.rank <= 13 implies 0 <= #[trigger] deck_position(c) < 52
        && spec_full_deck()[deck_position(c)] == c by {
        let p = deck_position(c);
        assert(p / 13 == deck_position(c) / 13);
        match c.suit {
            Suit::Clubs => assert(p / 13 == 0 && p % 13 == c.rank - 1),
            Suit::Diamonds => assert(p / 13 == 1 && p % 13 == c.rank - 1),
            Suit::Hearts => assert(p / 13 == 2 && p % 13 == c.rank - 1),
            Suit::Spades => assert(p / 13 == 3 && p % 13 == c.rank - 1),
        }
    }
    assert forall|i: int| 0 <= i < 52 implies 1 <= (#[trigger] spec_full_deck()[i]).rank <= 13
        && deck_position(spec_full_deck()[i]) == i by {
        assert(i == (i / 13) * 13 + i % 13);
    }
    assert forall|i: int, j: int|
        0 <= i < 52 && 0 <= j < 52 && i != j implies spec_full_deck()[i] != spec_full_deck()[j] by {
        assert(deck_position(spec_full_deck()[i]) == i);
        assert(deck_position(spec_full_deck()[j]) == j);
    }
}

/// Builds a full, ordered 52-card deck.
pub fn full_deck() -> (d: Vec<Card>)
    ensures
        d@ == spec_full_deck(),
{
    let suits = [Suit::Clubs, Suit::Diamonds, Suit::Hearts, Suit::Spades];
    let mut out: Vec<Card> = Vec::new();
    let mut k: usize = 0;
    while k < 4
        invariant
            k <= 4,
            suits@ == seq![Suit::Clubs, Suit::Diamonds, Suit::Hearts, Suit::Spades],
            out@ == spec_full_deck().take(13 * k as int),
        decreases 4 - k,
    {
        let suit = suits[k];
        let mut rank: u8 = 1;
        while rank <= 13
            invariant
                1 <= rank <= 14,
                k < 4,
                suit == suit_of_block(k as int),
                out@ == spec_full_deck().take(13 * k + rank - 1),
            decreases 14 - rank,
        {
            proof {
                let i = 13 * k + rank - 1;
                assert(i / 13 == k as int && i % 13 == rank - 1) by (nonlinear_arith)
                    requires
                        i == 13 * k + rank - 1,
                        1 <= rank <= 13,
                ;
                assert(spec_full_deck().take(i + 1) =~= spec_full_deck().take(i).push(
                    Card { suit, rank },
                ));
            }
            out.push(Card { suit, rank });
            rank = rank + 1;
        }
        k = k + 1;
    }
    proof {
        assert(spec_full_deck().take(52) =~= spec_full_deck());
    }
    out
}

/// The three card piles plus the running generator state.
pub struct Deck {
    pub draw: Vec<Card>,
    pub hand: Vec<Card>,
    pub discard: Vec<Card>,
    pub rng: u64,
}

impl Deck {
    /// A full deck shuffled with `seed`, with nothing in hand or discarded.
    pub fn new_shuffled(seed: u64) -> (d: Deck)
        ensures
            d.draw@ == spec_shuffle(spec_full_deck(), seed),
            d.hand@ == Seq::<Card>::empty(),
            d.discard@ == Seq::<Card>::empty(),
            d.rng == seed,
    {
        let mut draw = full_deck();
        shuffle(&mut draw, seed);
        Deck { draw, hand: Vec::new(), discard: Vec::new(), rng: seed }
    }
}

impl Default for Deck {
    /// The deck shuffled with the default seed.
    fn default() -> (d: Deck)
        ensures
            d.draw@ == spec_shuffle(spec_full_deck(), DEFAULT_SEED),
            d.hand@ == Seq::<Card>::empty(),
            d.discard@ == Seq::<Card>::empty(),
            d.rng == DEFAULT_SEED,
    {
        Deck::new_shuffled(DEFAULT_SEED)
    }
}

} // verus!
