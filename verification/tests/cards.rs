use rand::rngs::StdRng;
use rand::SeedableRng;
use monster_solitaire::board::{Board, BoardPos, DepotRole, NUM_DEPOTS};
use monster_solitaire::card::{Card, Suit, DECK_SIZE};
use monster_solitaire::game::GameState;

fn card(rank: u8, suit: Suit) -> Card {
    Card { rank, suit }
}

#[test]
fn monsters_are_tens_and_up() {
    assert!(card(10, Suit::Hearts).is_monster());
    assert!(card(13, Suit::Spades).is_monster());
    assert!(!card(9, Suit::Hearts).is_monster());
    assert!(!card(1, Suit::Clubs).is_monster());
}

#[test]
fn suits_listed_once_each() {
    let all = Suit::all();
    assert_eq!(all, [Suit::Spades, Suit::Hearts, Suit::Diamonds, Suit::Clubs]);
}

#[test]
fn depot_roles_are_laid_out_in_order() {
    assert_eq!(DepotRole::role_and_subindex(0), Some((DepotRole::Tableau, 0)));
    assert_eq!(DepotRole::role_and_subindex(3), Some((DepotRole::Tableau, 3)));
    assert_eq!(DepotRole::role_and_subindex(4), Some((DepotRole::Monster, 0)));
    assert_eq!(DepotRole::role_and_subindex(6), Some((DepotRole::Monster, 2)));
    assert_eq!(DepotRole::role_and_subindex(7), Some((DepotRole::Attack, 0)));
    assert_eq!(DepotRole::role_and_subindex(12), Some((DepotRole::Attack, 5)));
    assert_eq!(DepotRole::role_and_subindex(13), Some((DepotRole::Graveyard, 0)));
    assert_eq!(DepotRole::role_and_subindex(14), Some((DepotRole::Death, 0)));
    assert_eq!(DepotRole::role_and_subindex(15), None);
    assert_eq!(DepotRole::role(9), Some(DepotRole::Attack));
    assert_eq!(DepotRole::role(100), None);
    assert_eq!(DepotRole::Attack.id(3), 10);
    assert_eq!(DepotRole::Monster.range(), 4..7);
    assert_eq!(DepotRole::Tableau.number_of(), 4);
    assert_eq!(DepotRole::Death.id(0), NUM_DEPOTS - 1);
}

#[test]
fn empty_board_has_fifteen_empty_depots() {
    let b = Board::empty();
    assert_eq!(b.depots.len(), NUM_DEPOTS);
    assert!(b.depots.iter().all(|d| d.is_empty()));
    assert_eq!(b.selected, None);
    assert!(b.animation_acts.is_empty());
}

#[test]
fn dealing_goes_round_the_four_columns() {
    let deal: Vec<Card> = (0..10u8).map(|i| card(i + 1, Suit::Hearts)).collect();
    let b = Board::from_deal(&deal);
    assert_eq!(b.depots[0], vec![deal[0], deal[4], deal[8]]);
    assert_eq!(b.depots[1], vec![deal[1], deal[5], deal[9]]);
    assert_eq!(b.depots[2], vec![deal[2], deal[6]]);
    assert_eq!(b.depots[3], vec![deal[3], deal[7]]);
    for d in 4..NUM_DEPOTS {
        assert!(b.depots[d].is_empty());
    }
}

#[test]
fn dealing_a_full_deck_puts_every_card_down() {
    let deal = GameState::new_deal(&mut StdRng::seed_from_u64(7));
    let b = Board::from_deal(&deal);
    let total: usize = b.depots.iter().map(|d| d.len()).sum();
    assert_eq!(total, DECK_SIZE);
    assert_eq!(b.depots[0].len(), 13);
    assert_eq!(b.depots[3].len(), 13);
}

#[test]
fn moved_cards_wait_in_flight_then_land() {
    let mut b = Board::empty();
    b.depots[0] = vec![card(5, Suit::Hearts), card(4, Suit::Spades), card(3, Suit::Hearts)];
    b.selected = Some(BoardPos::new(0, 1));
    b.do_move(BoardPos::new(0, 1), BoardPos::new(2, 0), false);
    assert_eq!(b.depots[0], vec![card(5, Suit::Hearts)]);
    assert!(b.depots[2].is_empty());
    assert_eq!(b.selected, None);
    assert_eq!(b.animation_acts.len(), 1);
    b.advance_actions();
    assert_eq!(b.depots[2], vec![card(4, Suit::Spades), card(3, Suit::Hearts)]);
    assert!(b.animation_acts.is_empty());
}

#[test]
fn reversed_move_lands_upside_down() {
    let mut b = Board::empty();
    b.depots[1] = vec![card(2, Suit::Clubs), card(3, Suit::Hearts), card(4, Suit::Clubs)];
    b.depots[0] = vec![card(5, Suit::Hearts)];
    b.do_move(BoardPos::new(1, 0), BoardPos::new(0, 1), true);
    b.advance_actions();
    assert_eq!(
        b.depots[0],
        vec![card(5, Suit::Hearts), card(4, Suit::Clubs), card(3, Suit::Hearts), card(2, Suit::Clubs)]
    );
    assert!(b.depots[1].is_empty());
}

#[test]
fn move_then_move_back_restores_the_depots() {
    let mut b = Board::empty();
    b.depots[0] = vec![card(9, Suit::Hearts), card(8, Suit::Spades), card(7, Suit::Hearts)];
    b.depots[2] = vec![card(6, Suit::Clubs)];
    let before = b.depots.clone();
    for rev in [false, true] {
        b.do_move(BoardPos::new(0, 1), BoardPos::new(2, 1), rev);
        b.advance_actions();
        b.do_move(BoardPos::new(2, 1), BoardPos::new(0, 1), rev);
        b.advance_actions();
        assert_eq!(b.depots, before);
    }
}

#[test]
fn last_and_top_positions() {
    let mut b = Board::empty();
    b.depots[5] = vec![card(12, Suit::Hearts)];
    assert_eq!(b.last_pos(5), BoardPos::new(5, 0));
    assert_eq!(b.top_pos(5), BoardPos::new(5, 1));
    assert_eq!(b.top_pos(13), BoardPos::new(13, 0));
}

#[test]
fn reverse_move_equals_moving_one_card_at_a_time() {
    let start = vec![card(9, Suit::Hearts), card(4, Suit::Clubs), card(3, Suit::Hearts), card(2, Suit::Clubs)];
    let mut shortcut = Board::empty();
    shortcut.depots[0] = start.clone();
    shortcut.depots[1] = vec![card(5, Suit::Hearts)];
    let mut by_hand = shortcut.clone();
    shortcut.do_move(BoardPos::new(0, 1), BoardPos::new(1, 1), true);
    shortcut.advance_actions();
    for _ in 0..3 {
        let from = by_hand.last_pos(0);
        let to = by_hand.top_pos(1);
        by_hand.do_move(from, to, false);
        by_hand.advance_actions();
    }
    assert_eq!(shortcut.depots, by_hand.depots);
}
