use monster_solitaire::board::{Board, BoardPos, Flight};
use monster_solitaire::card::{Card, Suit};

fn card(rank: u8, suit: Suit) -> Card {
    Card { rank, suit }
}

fn board_with_stack() -> Board {
    let mut b = Board::empty();
    b.depots[0] = vec![card(9, Suit::Spades)];
    b.depots[2] = vec![
        card(5, Suit::Clubs),
        card(6, Suit::Hearts),
        card(7, Suit::Clubs),
        card(8, Suit::Hearts),
    ];
    b
}

#[test]
fn cards_fly_in_order_from_where_they_lay() {
    let mut b = board_with_stack();
    b.do_move(BoardPos::new(2, 1), BoardPos::new(0, 1), false);
    let flights = b.flights();
    assert_eq!(
        flights,
        vec![
            Flight { card: card(6, Suit::Hearts), from: BoardPos::new(2, 1), to: BoardPos::new(0, 1) },
            Flight { card: card(7, Suit::Clubs), from: BoardPos::new(2, 2), to: BoardPos::new(0, 2) },
            Flight { card: card(8, Suit::Hearts), from: BoardPos::new(2, 3), to: BoardPos::new(0, 3) },
        ]
    );
    let before = board_with_stack();
    b.advance_actions();
    for f in flights {
        assert_eq!(before.depots[f.from.depot_index][f.from.card_index], f.card);
        assert_eq!(b.depots[f.to.depot_index][f.to.card_index], f.card);
    }
}

#[test]
fn reversed_cards_fly_from_the_top_down() {
    let mut b = board_with_stack();
    b.do_move(BoardPos::new(2, 1), BoardPos::new(0, 1), true);
    let flights = b.flights();
    assert_eq!(
        flights,
        vec![
            Flight { card: card(8, Suit::Hearts), from: BoardPos::new(2, 3), to: BoardPos::new(0, 1) },
            Flight { card: card(7, Suit::Clubs), from: BoardPos::new(2, 2), to: BoardPos::new(0, 2) },
            Flight { card: card(6, Suit::Hearts), from: BoardPos::new(2, 1), to: BoardPos::new(0, 3) },
        ]
    );
    let before = board_with_stack();
    b.advance_actions();
    for f in flights {
        assert_eq!(before.depots[f.from.depot_index][f.from.card_index], f.card);
        assert_eq!(b.depots[f.to.depot_index][f.to.card_index], f.card);
    }
}

#[test]
fn flights_of_several_moves_follow_one_another() {
    let mut b = board_with_stack();
    b.depots[4] = vec![card(12, Suit::Diamonds)];
    b.do_move(BoardPos::new(4, 0), BoardPos::new(13, 0), false);
    b.do_move(BoardPos::new(2, 3), BoardPos::new(13, 1), false);
    let flights = b.flights();
    assert_eq!(flights.len(), 2);
    assert_eq!(flights[0].card, card(12, Suit::Diamonds));
    assert_eq!(flights[0].to, BoardPos::new(13, 0));
    assert_eq!(flights[1].card, card(8, Suit::Hearts));
    assert_eq!(flights[1].from, BoardPos::new(2, 3));
    assert_eq!(flights[1].to, BoardPos::new(13, 1));
}

#[test]
fn nothing_in_flight_means_no_flights() {
    assert!(board_with_stack().flights().is_empty());
}

#[test]
fn selection_spans_the_stack_above_it() {
    let mut b = board_with_stack();
    assert_eq!(b.selection_span(), 0);
    b.selected = Some(BoardPos::new(2, 1));
    assert_eq!(b.selection_span(), 3);
    b.selected = Some(BoardPos::new(2, 3));
    assert_eq!(b.selection_span(), 1);
    b.depots[7] = vec![card(3, Suit::Spades)];
    b.selected = Some(BoardPos::new(7, 0));
    assert_eq!(b.selection_span(), 1);
}
