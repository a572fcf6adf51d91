use rand::rngs::StdRng;
use rand::SeedableRng;
use monster_solitaire::board::{Board, BoardPos, NUM_DEPOTS};
use monster_solitaire::card::{Card, Suit, DECK_SIZE};
use monster_solitaire::game::{ActionRecord, GameState, ScreenState, GRAVEYARD_TARGET};
use monster_solitaire::skin::Skin;

fn card(rank: u8, suit: Suit) -> Card {
    Card { rank, suit }
}

fn state(depots: Vec<Vec<Card>>) -> GameState {
    assert_eq!(depots.len(), NUM_DEPOTS);
    GameState {
        board: Board { depots, selected: None, animation_acts: vec![] },
        deal: vec![],
        animation_key: 0,
        history: vec![],
        undo_stack: vec![],
        already_won: false,
        num_wins: 0,
        screen_state: ScreenState::Game,
        allow_undo: true,
        skin: Skin::default(),
    }
}

fn empty_depots() -> Vec<Vec<Card>> {
    vec![vec![]; NUM_DEPOTS]
}

/// Lets every animation finish, as the screen would.
fn settle(g: &mut GameState) {
    let mut rounds = 0;
    while g.is_busy() {
        g.advance_animations(g.animation_key);
        rounds += 1;
        assert!(rounds < 100);
    }
}

#[test]
fn stacking_needs_adjacent_rank_and_unlike_suit() {
    let g = state(empty_depots());
    assert!(g.can_stack(card(4, Suit::Diamonds), card(3, Suit::Spades)));
    assert!(g.can_stack(card(3, Suit::Spades), card(4, Suit::Clubs)));
    assert!(!g.can_stack(card(4, Suit::Diamonds), card(3, Suit::Diamonds)));
    assert!(!g.can_stack(card(4, Suit::Diamonds), card(2, Suit::Spades)));
    assert!(!g.can_stack(card(4, Suit::Diamonds), card(4, Suit::Spades)));
    assert!(!g.can_stack(card(10, Suit::Diamonds), card(9, Suit::Spades)));
}

#[test]
fn help_stack_example_moves_as_a_unit() {
    // 3♠–4♣–3♥–2♣ can be placed on the 4♦.
    let mut d = empty_depots();
    d[0] = vec![card(4, Suit::Diamonds)];
    d[1] = vec![card(3, Suit::Spades), card(4, Suit::Clubs), card(3, Suit::Hearts), card(2, Suit::Clubs)];
    let g = state(d);
    assert!(g.can_select(BoardPos::new(1, 0)));
    assert!(g.can_move(BoardPos::new(1, 0), BoardPos::new(0, 1)));
    assert!(!g.can_move(BoardPos::new(1, 0), BoardPos::new(0, 0)));
    assert!(!g.can_move(BoardPos::new(1, 1), BoardPos::new(0, 1)));
}

#[test]
fn selection_rules_per_depot() {
    let mut d = empty_depots();
    d[0] = vec![card(9, Suit::Hearts), card(5, Suit::Clubs), card(4, Suit::Hearts)];
    d[4] = vec![card(11, Suit::Hearts)];
    d[7] = vec![card(3, Suit::Hearts)];
    d[13] = vec![card(2, Suit::Hearts)];
    let g = state(d);
    assert!(!g.can_select(BoardPos::new(0, 0)));
    assert!(g.can_select(BoardPos::new(0, 1)));
    assert!(g.can_select(BoardPos::new(0, 2)));
    assert!(!g.can_select(BoardPos::new(0, 3)));
    assert!(!g.can_select(BoardPos::new(4, 0)));
    assert!(g.can_select(BoardPos::new(7, 0)));
    assert!(!g.can_select(BoardPos::new(13, 0)));
    assert!(!g.can_select(BoardPos::new(1, 0)));
}

#[test]
fn attack_slot_takes_one_card_beside_a_monster() {
    let mut d = empty_depots();
    d[0] = vec![card(6, Suit::Hearts), card(5, Suit::Clubs)];
    d[4] = vec![card(12, Suit::Hearts)];
    let g = state(d);
    assert!(g.can_move(BoardPos::new(0, 1), BoardPos::new(7, 0)));
    assert!(g.can_move(BoardPos::new(0, 1), BoardPos::new(8, 0)));
    assert!(!g.can_move(BoardPos::new(0, 0), BoardPos::new(7, 0)));
    assert!(!g.can_move(BoardPos::new(0, 1), BoardPos::new(9, 0)));
    assert!(!g.can_move(BoardPos::new(0, 1), BoardPos::new(5, 0)));
    assert!(!g.can_move(BoardPos::new(0, 1), BoardPos::new(13, 0)));
    assert!(!g.can_move(BoardPos::new(0, 1), BoardPos::new(0, 2)));
}

#[test]
fn help_attack_example_with_plain_values() {
    // 10♠ is defeated by A♦ + 9♣.
    let mut d = empty_depots();
    d[0] = vec![card(2, Suit::Hearts)];
    d[4] = vec![card(10, Suit::Spades)];
    d[7] = vec![card(1, Suit::Diamonds)];
    d[8] = vec![card(9, Suit::Clubs)];
    let mut g = state(d);
    g.check_auto_moves();
    assert!(g.is_busy());
    assert_eq!(g.history.len(), 3);
    settle(&mut g);
    assert_eq!(
        g.board.depots[13],
        vec![card(10, Suit::Spades), card(1, Suit::Diamonds), card(9, Suit::Clubs)]
    );
    assert!(g.board.depots[4].is_empty() && g.board.depots[7].is_empty() && g.board.depots[8].is_empty());
}

#[test]
fn help_attack_example_with_an_ace_worth_seven() {
    // 10♠ is defeated by A♠ + 3♥: the ace matches the monster's suit.
    let mut d = empty_depots();
    d[0] = vec![card(2, Suit::Hearts)];
    d[5] = vec![card(10, Suit::Spades)];
    d[9] = vec![card(1, Suit::Spades)];
    d[10] = vec![card(3, Suit::Hearts)];
    let mut g = state(d);
    g.check_auto_moves();
    settle(&mut g);
    assert_eq!(g.board.depots[13].len(), 3);
    assert!(g.board.depots[5].is_empty());
}

#[test]
fn ace_of_another_suit_counts_one() {
    let mut d = empty_depots();
    d[0] = vec![card(2, Suit::Hearts)];
    d[4] = vec![card(10, Suit::Spades)];
    d[7] = vec![card(1, Suit::Hearts)];
    d[8] = vec![card(3, Suit::Hearts)];
    let mut g = state(d);
    g.check_auto_moves();
    assert!(!g.is_busy());
    assert!(g.history.is_empty());
}

#[test]
fn exposed_monster_jumps_to_first_open_slot() {
    let mut d = empty_depots();
    d[2] = vec![card(3, Suit::Hearts), card(12, Suit::Clubs)];
    d[4] = vec![card(11, Suit::Hearts)];
    let mut g = state(d);
    g.check_auto_moves();
    assert_eq!(
        g.history,
        vec![ActionRecord { pos1: BoardPos::new(2, 1), pos2: BoardPos::new(5, 0), rev: false }]
    );
    settle(&mut g);
    assert_eq!(g.board.depots[5], vec![card(12, Suit::Clubs)]);
    assert_eq!(g.board.depots[2], vec![card(3, Suit::Hearts)]);
    assert!(!g.is_over());
}

#[test]
fn exposed_monster_with_no_open_slot_loses() {
    let mut d = empty_depots();
    d[1] = vec![card(13, Suit::Hearts)];
    d[4] = vec![card(11, Suit::Hearts)];
    d[5] = vec![card(12, Suit::Spades)];
    d[6] = vec![card(10, Suit::Clubs)];
    let mut g = state(d);
    g.check_auto_moves();
    settle(&mut g);
    assert!(g.is_lost());
    assert!(g.is_over());
    assert_eq!(g.board.depots[14], vec![card(13, Suit::Hearts)]);
}

#[test]
fn click_selects_then_moves_and_undo_takes_it_back() {
    let mut d = empty_depots();
    d[0] = vec![card(8, Suit::Hearts), card(5, Suit::Clubs)];
    d[1] = vec![card(6, Suit::Hearts)];
    let mut g = state(d);
    let before = g.board.depots.clone();
    g.onclick(BoardPos::new(0, 0));
    assert_eq!(g.board.selected, None);
    g.onclick(BoardPos::new(0, 1));
    assert_eq!(g.board.selected, Some(BoardPos::new(0, 1)));
    g.onclick(BoardPos::new(1, 0));
    assert_eq!(g.undo_stack, vec![0]);
    assert_eq!(g.history.len(), 1);
    assert!(g.is_busy());
    assert!(!g.undo_possible() || g.is_busy());
    settle(&mut g);
    assert_eq!(g.board.depots[1], vec![card(6, Suit::Hearts), card(5, Suit::Clubs)]);
    assert!(g.undo_possible());
    g.undo();
    assert_eq!(g.board.depots, before);
    assert!(g.history.is_empty());
    assert!(g.undo_stack.is_empty());
}

#[test]
fn clicking_the_selection_again_clears_it() {
    let mut d = empty_depots();
    d[0] = vec![card(8, Suit::Hearts), card(5, Suit::Clubs)];
    let mut g = state(d);
    g.onclick(BoardPos::new(0, 1));
    g.onclick(BoardPos::new(0, 1));
    assert_eq!(g.board.selected, None);
}

#[test]
fn clicking_lower_in_the_same_column_reselects() {
    let mut d = empty_depots();
    d[0] = vec![card(6, Suit::Hearts), card(5, Suit::Clubs), card(4, Suit::Hearts)];
    let mut g = state(d);
    g.onclick(BoardPos::new(0, 2));
    g.onclick(BoardPos::new(0, 1));
    assert_eq!(g.board.selected, Some(BoardPos::new(0, 1)));
}

#[test]
fn click_on_empty_frame_moves_onto_empty_column() {
    let mut d = empty_depots();
    d[0] = vec![card(6, Suit::Hearts), card(5, Suit::Clubs)];
    let mut g = state(d);
    g.onclick(BoardPos::new(0, 1));
    g.onclick(BoardPos::new(3, usize::MAX));
    assert_eq!(g.history, vec![ActionRecord { pos1: BoardPos::new(0, 1), pos2: BoardPos::new(3, 0), rev: false }]);
    settle(&mut g);
    assert_eq!(g.board.depots[3], vec![card(5, Suit::Clubs)]);
}

#[test]
fn illegal_target_does_nothing() {
    let mut d = empty_depots();
    d[0] = vec![card(6, Suit::Hearts), card(5, Suit::Clubs)];
    d[1] = vec![card(9, Suit::Hearts)];
    let mut g = state(d);
    g.onclick(BoardPos::new(0, 1));
    g.onclick(BoardPos::new(1, 0));
    assert!(g.history.is_empty());
    assert_eq!(g.board.selected, Some(BoardPos::new(0, 1)));
}

#[test]
fn right_click_stacks_in_reverse() {
    let mut d = empty_depots();
    d[0] = vec![card(9, Suit::Hearts), card(2, Suit::Clubs), card(3, Suit::Hearts), card(4, Suit::Clubs)];
    d[1] = vec![card(5, Suit::Hearts)];
    let mut g = state(d);
    g.onclick(BoardPos::new(0, 1));
    g.oncontextmenu(BoardPos::new(1, 0));
    assert_eq!(g.history, vec![ActionRecord { pos1: BoardPos::new(0, 1), pos2: BoardPos::new(1, 1), rev: true }]);
    settle(&mut g);
    assert_eq!(
        g.board.depots[1],
        vec![card(5, Suit::Hearts), card(4, Suit::Clubs), card(3, Suit::Hearts), card(2, Suit::Clubs)]
    );
    g.undo();
    assert_eq!(g.board.depots[0].len(), 4);
    assert_eq!(g.board.depots[1], vec![card(5, Suit::Hearts)]);
}

#[test]
fn right_click_only_onto_tableau() {
    let mut d = empty_depots();
    d[0] = vec![card(5, Suit::Clubs)];
    d[4] = vec![card(12, Suit::Hearts)];
    let mut g = state(d);
    g.onclick(BoardPos::new(0, 0));
    g.oncontextmenu(BoardPos::new(7, usize::MAX));
    assert!(g.history.is_empty());
}

#[test]
fn undo_also_takes_back_the_automatic_moves() {
    // Moving the 5♣ away exposes the queen, which then jumps to a slot.
    let mut d = empty_depots();
    d[0] = vec![card(12, Suit::Hearts), card(5, Suit::Clubs)];
    d[1] = vec![card(6, Suit::Hearts)];
    d[2] = vec![card(11, Suit::Spades)];
    d[4] = vec![card(13, Suit::Hearts)];
    let mut g = state(d);
    g.board.depots[2] = vec![card(2, Suit::Spades)];
    let before = g.board.depots.clone();
    g.onclick(BoardPos::new(0, 1));
    g.onclick(BoardPos::new(1, 0));
    settle(&mut g);
    assert_eq!(g.board.depots[5], vec![card(12, Suit::Hearts)]);
    assert_eq!(g.history.len(), 2);
    g.undo();
    assert_eq!(g.board.depots, before);
    assert!(g.history.is_empty());
}

#[test]
fn nothing_happens_while_cards_fly() {
    let mut d = empty_depots();
    d[0] = vec![card(6, Suit::Hearts), card(5, Suit::Clubs)];
    let mut g = state(d);
    g.onclick(BoardPos::new(0, 1));
    g.onclick(BoardPos::new(2, usize::MAX));
    assert!(g.is_busy());
    let snapshot = g.clone();
    g.onclick(BoardPos::new(2, 0));
    g.undo();
    g.check_auto_moves();
    assert_eq!(g, snapshot);
}

#[test]
fn stale_animation_key_is_ignored() {
    let mut d = empty_depots();
    d[0] = vec![card(6, Suit::Hearts), card(5, Suit::Clubs)];
    let mut g = state(d);
    g.onclick(BoardPos::new(0, 1));
    g.onclick(BoardPos::new(2, usize::MAX));
    g.advance_animations(7);
    assert!(g.is_busy());
    assert_eq!(g.animation_key, 0);
    g.advance_animations(0);
    assert!(!g.is_busy());
    assert_eq!(g.animation_key, 1);
}

#[test]
fn animation_key_wraps_around() {
    let mut g = state(empty_depots());
    g.board.depots[0] = vec![card(2, Suit::Hearts)];
    g.animation_key = u16::MAX;
    g.advance_animations(u16::MAX);
    assert_eq!(g.animation_key, 0);
}

fn won_state() -> GameState {
    let mut d = empty_depots();
    d[13] = (0..GRAVEYARD_TARGET).map(|i| card((i % 13) as u8 + 1, Suit::Hearts)).collect();
    state(d)
}

#[test]
fn a_full_graveyard_wins_and_counts_once() {
    let mut g = won_state();
    assert!(g.is_won());
    assert!(g.is_over());
    assert!(!g.is_lost());
    g.advance_animations(0);
    assert_eq!(g.num_wins, 1);
    assert!(g.already_won);
    g.advance_animations(1);
    assert_eq!(g.num_wins, 1);
}

#[test]
fn no_clicks_once_the_game_is_over() {
    let mut g = won_state();
    g.board.depots[7] = vec![card(3, Suit::Clubs)];
    g.onclick(BoardPos::new(7, 0));
    assert_eq!(g.board.selected, None);
}

#[test]
fn undo_needs_an_undo_point_and_permission() {
    let mut d = empty_depots();
    d[0] = vec![card(6, Suit::Hearts), card(5, Suit::Clubs)];
    let mut g = state(d);
    assert!(!g.undo_possible());
    g.onclick(BoardPos::new(0, 1));
    g.onclick(BoardPos::new(2, usize::MAX));
    settle(&mut g);
    g.allow_undo = false;
    assert!(!g.undo_possible());
    let snapshot = g.clone();
    g.undo();
    assert_eq!(g, snapshot);
    g.restart();
    assert_eq!(g, snapshot);
}

#[test]
fn new_deal_is_a_shuffled_full_deck() {
    let deal = GameState::new_deal(&mut StdRng::seed_from_u64(7));
    assert_eq!(deal.len(), DECK_SIZE);
    let mut seen = std::collections::HashSet::new();
    for c in &deal {
        assert!(1 <= c.rank && c.rank <= 13);
        assert!(seen.insert((c.rank, c.suit as u8)));
    }
    let ordered: Vec<(u8, u8)> = deal.iter().map(|c| (c.rank, c.suit as u8)).collect();
    let mut sorted = ordered.clone();
    sorted.sort();
    assert_ne!(ordered, sorted);
}

#[test]
fn init_deals_a_full_deck_that_is_not_refused() {
    let g = GameState::init(&mut StdRng::seed_from_u64(11));
    assert_eq!(g.deal.len(), DECK_SIZE);
    let on_board: usize = g.board.depots.iter().map(|d| d.len()).sum();
    let in_flight: usize = g
        .board
        .animation_acts
        .iter()
        .map(|a| match a {
            monster_solitaire::board::AnimationAct::Move { cards, .. } => cards.len(),
        })
        .sum();
    assert_eq!(on_board + in_flight, DECK_SIZE);
    assert_eq!(g.history.len(), 1);
    assert_eq!(g.history[0].pos2, BoardPos::new(4, 0));
    let first_exposed = (0..4).find(|&t| Board::from_deal(&g.deal).depots[t].last().unwrap().is_monster());
    assert_eq!(Some(g.history[0].pos1.depot_index), first_exposed);
    assert!(g.undo_stack.is_empty());
    assert!(g.allow_undo);
    assert_eq!(g.num_wins, 0);
    assert_eq!(g.screen_state, ScreenState::Game);
    // The deal's tableau tops hold between one and three monsters.
    let fresh = Board::from_deal(&g.deal);
    let front: usize = (0..4)
        .map(|t| fresh.depots[t].iter().rev().take_while(|c| c.is_monster()).count())
        .sum();
    assert!((1..=3).contains(&front));
}

#[test]
fn restart_deals_the_same_deal_again() {
    let deal: Vec<Card> = (1..=8u8).map(|r| card(r, if r % 2 == 0 { Suit::Hearts } else { Suit::Clubs })).collect();
    let mut g = state(Board::from_deal(&deal).depots);
    g.deal = deal.clone();
    // Column 0 holds A♣ 5♣, column 1 holds 2♥ 6♥: the 5♣ goes onto the 6♥.
    g.onclick(BoardPos::new(0, 1));
    g.onclick(BoardPos::new(1, 1));
    settle(&mut g);
    assert_eq!(g.history.len(), 1);
    g.restart();
    assert_eq!(g.board, Board::from_deal(&deal));
    assert!(g.history.is_empty());
    assert!(g.undo_stack.is_empty());
    assert_eq!(g.deal, deal);
}

#[test]
fn restart_without_moves_does_nothing() {
    let deal: Vec<Card> = (1..=8u8).map(|r| card(r, Suit::Hearts)).collect();
    let mut g = state(Board::from_deal(&deal).depots);
    g.deal = deal;
    let snapshot = g.clone();
    g.restart();
    assert_eq!(g, snapshot);
}

fn all_cards(g: &GameState) -> Vec<(u8, u8)> {
    let mut cards: Vec<(u8, u8)> = g.board.depots.iter().flatten().map(|c| (c.rank, c.suit as u8)).collect();
    for a in &g.board.animation_acts {
        match a {
            monster_solitaire::board::AnimationAct::Move { cards: flying, .. } => {
                cards.extend(flying.iter().map(|c| (c.rank, c.suit as u8)))
            }
        }
    }
    cards.sort();
    cards
}

#[test]
fn no_card_is_created_or_lost() {
    let mut g = GameState::init(&mut StdRng::seed_from_u64(11));
    let mut deal: Vec<(u8, u8)> = g.deal.iter().map(|c| (c.rank, c.suit as u8)).collect();
    deal.sort();
    assert_eq!(all_cards(&g), deal);
    // Click around every card of the board a few times, letting animations run.
    for round in 0..3 {
        for d in 0..NUM_DEPOTS {
            for i in 0..g.board.depots[d].len() + 1 {
                let pos = BoardPos::new(d, if i == 0 { usize::MAX } else { i - 1 });
                if round % 2 == 0 {
                    g.onclick(pos);
                } else {
                    g.oncontextmenu(pos);
                }
                assert_eq!(all_cards(&g), deal);
                settle(&mut g);
                assert_eq!(all_cards(&g), deal);
            }
        }
        if g.undo_possible() {
            g.undo();
            assert_eq!(all_cards(&g), deal);
        }
    }
    g.restart();
    assert_eq!(all_cards(&g), deal);
}

#[test]
fn any_stack_moves_onto_an_empty_column() {
    let mut d = empty_depots();
    d[2] = vec![card(9, Suit::Clubs), card(8, Suit::Hearts), card(7, Suit::Clubs), card(6, Suit::Hearts), card(5, Suit::Spades)];
    let g = state(d);
    for c in 0..5 {
        assert!(g.can_select(BoardPos::new(2, c)));
        assert!(g.can_move(BoardPos::new(2, c), BoardPos::new(0, 0)));
    }
}

#[test]
fn sixteen_defeats_fill_the_graveyard_and_win() {
    let suits = [Suit::Spades, Suit::Hearts, Suit::Diamonds, Suit::Clubs];
    let mut g = state(empty_depots());
    g.board.depots[0] = vec![card(2, Suit::Hearts)];
    let mut defeats = 0;
    for rank in 10..=13u8 {
        for (k, &suit) in suits.iter().enumerate() {
            let other = suits[(k + 1) % 4];
            g.board.depots[4] = vec![card(rank, suit)];
            g.board.depots[7] = vec![card(4, other)];
            g.board.depots[8] = vec![card(rank - 4, other)];
            g.check_auto_moves();
            settle(&mut g);
            defeats += 1;
            assert_eq!(g.board.depots[13].len(), 3 * defeats);
            assert_eq!(g.is_won(), defeats == 16);
        }
    }
    let grave = &g.board.depots[13];
    assert_eq!(grave.iter().filter(|c| c.is_monster()).count(), 16);
    for triple in grave.chunks(3) {
        assert!(triple[0].is_monster() && !triple[1].is_monster() && !triple[2].is_monster());
    }
    assert_eq!(g.num_wins, 1);
}

#[test]
fn the_deck_holds_sixteen_monsters() {
    let deal = GameState::new_deal(&mut StdRng::seed_from_u64(7));
    assert_eq!(deal.iter().filter(|c| c.is_monster()).count(), 16);
}

#[test]
fn a_win_with_distinct_cards_uses_two_aces_worth_seven() {
    let (s, h, d, c) = (Suit::Spades, Suit::Hearts, Suit::Diamonds, Suit::Clubs);
    let defeats = [
        ((13, s), (1, s), (6, s)),
        ((13, h), (1, h), (6, h)),
        ((13, d), (4, s), (9, s)),
        ((13, c), (4, h), (9, h)),
        ((12, s), (3, s), (9, d)),
        ((12, h), (3, h), (9, c)),
        ((12, d), (5, s), (7, s)),
        ((12, c), (5, h), (7, h)),
        ((11, s), (4, d), (7, d)),
        ((11, h), (4, c), (7, c)),
        ((11, d), (5, d), (6, d)),
        ((11, c), (5, c), (6, c)),
        ((10, s), (2, s), (8, s)),
        ((10, h), (2, h), (8, h)),
        ((10, d), (2, d), (8, d)),
        ((10, c), (2, c), (8, c)),
    ];
    let mut g = state(empty_depots());
    g.board.depots[0] = vec![card(1, d), card(1, c), card(3, d), card(3, c)];
    for (k, &((mr, ms), (r1, s1), (r2, s2))) in defeats.iter().enumerate() {
        g.board.depots[5] = vec![card(mr, ms)];
        g.board.depots[9] = vec![card(r1, s1)];
        g.board.depots[10] = vec![card(r2, s2)];
        g.check_auto_moves();
        settle(&mut g);
        assert_eq!(g.board.depots[13].len(), 3 * (k + 1));
    }
    assert!(g.is_won());
    let grave = &g.board.depots[13];
    let mut seen: Vec<(u8, u8)> = grave
        .iter()
        .chain(g.board.depots[0].iter())
        .map(|c| (c.rank, c.suit as u8))
        .collect();
    seen.sort();
    seen.dedup();
    assert_eq!(seen.len(), DECK_SIZE);
    let aces_worth_seven = grave
        .chunks(3)
        .map(|t| t[1..].iter().filter(|c| c.rank == 1 && c.suit == t[0].suit).count())
        .sum::<usize>();
    assert_eq!(aces_worth_seven, 2);
}

#[test]
fn the_reverse_shortcut_matches_allowed_single_moves() {
    let mut d = empty_depots();
    d[0] = vec![card(9, Suit::Hearts), card(2, Suit::Clubs), card(3, Suit::Hearts), card(4, Suit::Clubs)];
    d[1] = vec![card(5, Suit::Hearts)];
    let mut one_by_one = state(d.clone());
    for _ in 0..3 {
        let top = one_by_one.board.depots[0].len() - 1;
        let onto = one_by_one.board.depots[1].len();
        assert!(one_by_one.can_move(BoardPos::new(0, top), BoardPos::new(1, onto)));
        one_by_one.onclick(BoardPos::new(0, top));
        one_by_one.onclick(BoardPos::new(1, onto - 1));
        settle(&mut one_by_one);
    }
    let mut shortcut = state(d);
    shortcut.onclick(BoardPos::new(0, 1));
    shortcut.oncontextmenu(BoardPos::new(1, 0));
    settle(&mut shortcut);
    assert_eq!(shortcut.board.depots, one_by_one.board.depots);
}

#[test]
fn undo_points_strictly_increase_below_the_history_length() {
    let mut d = empty_depots();
    d[0] = vec![card(5, Suit::Clubs)];
    d[1] = vec![card(6, Suit::Hearts)];
    d[2] = vec![card(7, Suit::Spades)];
    let mut g = state(d);
    g.onclick(BoardPos::new(0, 0));
    g.onclick(BoardPos::new(1, 0));
    settle(&mut g);
    g.onclick(BoardPos::new(1, 0));
    g.onclick(BoardPos::new(2, 0));
    settle(&mut g);
    assert_eq!(g.undo_stack, vec![0, 1]);
    assert_eq!(g.history.len(), 2);
    g.undo();
    assert_eq!(g.undo_stack, vec![0]);
    assert_eq!(g.history.len(), 1);
}

#[test]
fn restart_after_init_returns_to_the_opening() {
    let mut g = GameState::init(&mut StdRng::seed_from_u64(5));
    let opening = g.clone();
    settle(&mut g);
    g.history.push(ActionRecord { pos1: BoardPos::new(0, 0), pos2: BoardPos::new(0, 0), rev: false });
    g.undo_stack.push(1);
    g.restart();
    assert_eq!(g.board, opening.board);
    assert_eq!(g.history, opening.history);
    assert_eq!(g.undo_stack, opening.undo_stack);
    assert_eq!(g.deal, opening.deal);
}

#[test]
fn attack_sums_that_overflow_a_byte_are_caught() {
    let mut d = empty_depots();
    d[4] = vec![card(13, Suit::Hearts)];
    d[7] = vec![card(9, Suit::Clubs)];
    d[8] = vec![card(4, Suit::Spades)];
    let g = state(d.clone());
    assert!(g.board.attack_sums_fit());
    d[7] = vec![card(200, Suit::Clubs)];
    d[8] = vec![card(100, Suit::Spades)];
    assert!(!state(d.clone()).board.attack_sums_fit());
    // Slots after the first defeated monster are not added up.
    d[4] = vec![card(10, Suit::Hearts)];
    d[7] = vec![card(4, Suit::Clubs)];
    d[8] = vec![card(6, Suit::Spades)];
    d[5] = vec![card(13, Suit::Hearts)];
    d[9] = vec![card(200, Suit::Clubs)];
    d[10] = vec![card(100, Suit::Spades)];
    assert!(state(d).board.attack_sums_fit());
}

#[test]
fn undo_fits_tells_whether_undo_can_take_the_moves_back() {
    let mut d = empty_depots();
    d[0] = vec![card(5, Suit::Clubs)];
    d[1] = vec![card(6, Suit::Hearts)];
    let mut g = state(d);
    assert!(g.undo_fits());
    g.onclick(BoardPos::new(0, 0));
    g.onclick(BoardPos::new(1, 0));
    assert!(g.undo_fits());
    settle(&mut g);
    assert!(g.undo_fits());
    let mut broken = g.clone();
    broken.history[0].pos2 = BoardPos::new(1, 5);
    assert!(!broken.undo_fits());
    let mut broken = g.clone();
    broken.history[0].pos1 = BoardPos::new(NUM_DEPOTS, 0);
    assert!(!broken.undo_fits());
    g.undo();
    assert_eq!(g.board.depots[0], vec![card(5, Suit::Clubs)]);
}

#[test]
fn a_deal_with_four_monsters_in_a_row_is_refused() {
    let mut d = empty_depots();
    d[0] = vec![card(10, Suit::Clubs), card(11, Suit::Clubs), card(12, Suit::Clubs), card(13, Suit::Clubs), card(2, Suit::Hearts)];
    d[1] = vec![card(13, Suit::Hearts)];
    assert!(state(d.clone()).is_misdeal());
    d[0].remove(0);
    assert!(!state(d.clone()).is_misdeal());
    d[1] = vec![card(3, Suit::Hearts)];
    assert!(state(d).is_misdeal());
}
