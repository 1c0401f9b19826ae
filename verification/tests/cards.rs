//! The card game's deck: building, shuffling, drawing, playing and scoring.

use tiny_games::cards::{
    draw_card, full_deck, hand_value, lcg_next, play_card, shuffle, Card, Deck, Suit, DEFAULT_SEED,
};

fn make_deck() -> (Vec<Card>, Vec<Card>, Vec<Card>) {
    let draw = full_deck();
    (draw, vec![], vec![])
}

fn sorted(cards: &[Card]) -> Vec<(u8, u8)> {
    let mut keys: Vec<(u8, u8)> = cards
        .iter()
        .map(|c| {
            let suit = match c.suit {
                Suit::Clubs => 0,
                Suit::Diamonds => 1,
                Suit::Hearts => 2,
                Suit::Spades => 3,
            };
            (suit, c.rank)
        })
        .collect();
    keys.sort();
    keys
}

#[test]
fn full_deck_has_52_cards() {
    assert_eq!(full_deck().len(), 52);
}

#[test]
fn shuffle_produces_different_order() {
    let mut d = full_deck();
    let original: Vec<Card> = d.clone();
    shuffle(&mut d, 999);
    assert_ne!(d, original);
}

#[test]
fn shuffle_preserves_card_count() {
    let mut d = full_deck();
    shuffle(&mut d, 42);
    assert_eq!(d.len(), 52);
}

#[test]
fn draw_card_moves_to_hand() {
    let (mut draw, mut hand, mut discard) = make_deck();
    assert!(draw_card(&mut draw, &mut hand, &mut discard, 1));
    assert_eq!(hand.len(), 1);
    assert_eq!(draw.len(), 51);
}

#[test]
fn draw_card_recycles_discard() {
    let mut draw = vec![];
    let mut hand = vec![];
    let mut discard = vec![Card { suit: Suit::Hearts, rank: 5 }];
    assert!(draw_card(&mut draw, &mut hand, &mut discard, 1));
    assert_eq!(hand.len(), 1);
    assert!(discard.is_empty());
}

#[test]
fn draw_card_returns_false_when_empty() {
    let (mut draw, mut hand, mut discard) = (vec![], vec![], vec![]);
    assert!(!draw_card(&mut draw, &mut hand, &mut discard, 1));
}

#[test]
fn play_card_moves_to_discard() {
    let mut hand = vec![Card { suit: Suit::Spades, rank: 1 }];
    let mut discard = vec![];
    assert!(play_card(&mut hand, &mut discard, 0));
    assert!(hand.is_empty());
    assert_eq!(discard.len(), 1);
}

#[test]
fn play_card_out_of_range_returns_false() {
    let mut hand = vec![];
    let mut discard = vec![];
    assert!(!play_card(&mut hand, &mut discard, 0));
}

#[test]
fn hand_value_ace_is_eleven() {
    let hand = vec![Card { suit: Suit::Hearts, rank: 1 }];
    assert_eq!(hand_value(&hand), 11);
}

#[test]
fn hand_value_face_card_is_ten() {
    for rank in [11u8, 12, 13] {
        let hand = vec![Card { suit: Suit::Clubs, rank }];
        assert_eq!(hand_value(&hand), 10);
    }
}

#[test]
fn hand_value_sums_correctly() {
    let hand = vec![Card { suit: Suit::Hearts, rank: 5 }, Card { suit: Suit::Spades, rank: 7 }];
    assert_eq!(hand_value(&hand), 12);
}

#[test]
fn config_default_seed_matches() {
    assert_eq!(DEFAULT_SEED, 12345);
}

#[test]
fn deck_default_is_shuffled_full_deck() {
    let deck = Deck::default();
    assert_eq!(deck.draw.len(), 52);
    assert!(deck.hand.is_empty());
}

// ── Further cases ────────────────────────────────────────────────────────────

#[test]
fn the_ordered_deck_runs_ace_to_king_in_each_suit() {
    let d = full_deck();
    assert_eq!(d[0], Card { suit: Suit::Clubs, rank: 1 });
    assert_eq!(d[12], Card { suit: Suit::Clubs, rank: 13 });
    assert_eq!(d[13], Card { suit: Suit::Diamonds, rank: 1 });
    assert_eq!(d[51], Card { suit: Suit::Spades, rank: 13 });
}

#[test]
fn a_shuffle_keeps_every_card_exactly_once() {
    let mut d = full_deck();
    shuffle(&mut d, 7);
    assert_eq!(sorted(&d), sorted(&full_deck()));
}

#[test]
fn the_same_seed_deals_the_same_order() {
    let mut a = full_deck();
    let mut b = full_deck();
    shuffle(&mut a, 2024);
    shuffle(&mut b, 2024);
    assert_eq!(a, b);
    assert_eq!(Deck::new_shuffled(5).draw, Deck::new_shuffled(5).draw);
}

#[test]
fn shuffling_a_short_pile_draws_from_the_generator() {
    // Two cards: one draw, `(lcg_next(seed) >> 33) % 2`, decides the swap.
    let a = Card { suit: Suit::Hearts, rank: 2 };
    let b = Card { suit: Suit::Spades, rank: 3 };
    for seed in [1u64, 2, 3, 4] {
        let mut pile = vec![a, b];
        shuffle(&mut pile, seed);
        let swapped = (lcg_next(seed) >> 33) % 2 == 0;
        assert_eq!(pile, if swapped { vec![b, a] } else { vec![a, b] }, "seed {seed}");
    }
}

#[test]
fn the_generator_steps_with_knuths_constants() {
    assert_eq!(lcg_next(0), 1442695040888963407);
    assert_eq!(lcg_next(1), 6364136223846793005u64.wrapping_add(1442695040888963407));
}

#[test]
fn drawing_takes_the_top_of_the_pile() {
    let mut draw = vec![Card { suit: Suit::Clubs, rank: 2 }, Card { suit: Suit::Hearts, rank: 9 }];
    let mut hand = vec![];
    let mut discard = vec![Card { suit: Suit::Spades, rank: 4 }];
    assert!(draw_card(&mut draw, &mut hand, &mut discard, 3));
    assert_eq!(hand, vec![Card { suit: Suit::Hearts, rank: 9 }]);
    assert_eq!(draw, vec![Card { suit: Suit::Clubs, rank: 2 }]);
    assert_eq!(discard.len(), 1, "the discard pile is only used when the draw pile is empty");
}

#[test]
fn playing_takes_the_chosen_card() {
    let mut hand = vec![
        Card { suit: Suit::Clubs, rank: 2 },
        Card { suit: Suit::Hearts, rank: 9 },
        Card { suit: Suit::Spades, rank: 4 },
    ];
    let mut discard = vec![];
    assert!(play_card(&mut hand, &mut discard, 1));
    assert_eq!(hand, vec![Card { suit: Suit::Clubs, rank: 2 }, Card { suit: Suit::Spades, rank: 4 }]);
    assert_eq!(discard, vec![Card { suit: Suit::Hearts, rank: 9 }]);
}

#[test]
fn labels_name_the_rank_then_the_suit() {
    assert_eq!(Card { suit: Suit::Hearts, rank: 1 }.label(), "A\u{2665}");
    assert_eq!(Card { suit: Suit::Spades, rank: 10 }.label(), "10\u{2660}");
    assert_eq!(Card { suit: Suit::Clubs, rank: 13 }.label(), "K\u{2663}");
    assert_eq!(Card { suit: Suit::Diamonds, rank: 12 }.label(), "Q\u{2666}");
    assert_eq!(Card { suit: Suit::Diamonds, rank: 11 }.label(), "J\u{2666}");
}

#[test]
fn numbered_cards_are_worth_their_rank() {
    assert_eq!(Card { suit: Suit::Clubs, rank: 7 }.value(), 7);
    assert_eq!(Card { suit: Suit::Clubs, rank: 10 }.value(), 10);
}

#[test]
fn cards_move_between_piles_without_being_lost() {
    let mut deck = Deck::new_shuffled(11);
    for round in 0..80u64 {
        draw_card(&mut deck.draw, &mut deck.hand, &mut deck.discard, round);
        if round % 3 == 0 {
            play_card(&mut deck.hand, &mut deck.discard, 0);
        }
        let mut all = deck.draw.clone();
        all.extend(deck.hand.iter().copied());
        all.extend(deck.discard.iter().copied());
        assert_eq!(sorted(&all), sorted(&full_deck()));
    }
}
