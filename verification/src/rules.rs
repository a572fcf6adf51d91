//! The rules of the game as mathematics: what may be picked up and where
//! it may go, the moves the game makes by itself, and the state each
//! operation of [`GameState`](crate::game::GameState) leads to.

use vstd::multiset::Multiset;
use vstd::prelude::*;

use crate::board::{
    apply_move, dealt_depots, spec_advance, spec_do_move, BoardPos, BoardView, DepotRole,
    NUM_DEPOTS,
};
use crate::card::{spec_is_monster, suit_at, Card};
use crate::game::{ActionRecord, AnimationKey, GameView};

verus! {

/// Index of the graveyard depot.
pub open spec fn graveyard() -> int {
    DepotRole::Graveyard.spec_first() as int
}

/// Index of the death pile.
pub open spec fn death() -> int {
    DepotRole::Death.spec_first() as int
}

/// Whether `front` may lie on `back` in a tableau column: `back` is no
/// monster, the suits differ and the ranks are one apart.
pub open spec fn spec_can_stack(back: Card, front: Card) -> bool {
    &&& !spec_is_monster(back)
    &&& back.suit != front.suit
    &&& (back.rank - front.rank == 1 || front.rank - back.rank == 1)
}

/// Whether the cards of a depot from `pos`'s card up may be picked up: a
/// tableau column's cards from there up must form a stack; an attack slot's
/// top card may be picked up alone; nothing else may.
pub open spec fn spec_can_select(depots: Seq<Seq<Card>>, pos: BoardPos) -> bool {
    let d = depots[pos.depot_index as int];
    &&& pos.card_index < d.len()
    &&& match DepotRole::spec_role(pos.depot_index) {
        Some(DepotRole::Tableau) => forall|i: int|
            pos.card_index <= i < d.len() - 1 ==> #[trigger] spec_can_stack(d[i], d[i + 1]),
        Some(DepotRole::Attack) => d.len() - pos.card_index <= 1,
        _ => false,
    }
}

/// Whether the cards of depot `pos1` from `pos1`'s card up may be put on top
/// of depot `pos2` (`pos2` naming the place just above its top card): on a
/// tableau column when it is empty or its top card takes the lowest moved
/// card; on an empty attack slot, one card alone, when the slot's monster is
/// there.
pub open spec fn spec_can_move(depots: Seq<Seq<Card>>, pos1: BoardPos, pos2: BoardPos) -> bool {
    let d1 = depots[pos1.depot_index as int];
    let d2 = depots[pos2.depot_index as int];
    if pos1.depot_index == pos2.depot_index {
        false
    } else if pos2.card_index != d2.len() {
        false
    } else {
        let card = d1[pos1.card_index as int];
        match DepotRole::spec_role_and_subindex(pos2.depot_index) {
            Some((DepotRole::Tableau, _)) => d2.len() == 0 || spec_can_stack(d2.last(), card),
            Some((DepotRole::Attack, ix)) => {
                &&& depots[DepotRole::Monster.spec_first() + ix / 2].len() != 0
                &&& d2.len() == 0
                &&& d1.len() - pos1.card_index == 1
            },
            _ => false,
        }
    }
}

/// Whether the cards of depot `pos1` from `pos1`'s card up may be put,
/// in reverse order, on tableau column `pos2`: the top card of depot `pos1`
/// must be able to go there first.
pub open spec fn spec_can_rev_move(depots: Seq<Seq<Card>>, pos1: BoardPos, pos2: BoardPos) -> bool {
    &&& DepotRole::spec_role(pos2.depot_index) == Some(DepotRole::Tableau)
    &&& spec_can_move(
        depots,
        BoardPos {
            depot_index: pos1.depot_index,
            card_index: (depots[pos1.depot_index as int].len() - 1) as usize,
        },
        pos2,
    )
}

/// Every card of `s` is a monster when `monster` holds, and none is
/// otherwise.
pub open spec fn only_kind(s: Seq<Card>, monster: bool) -> bool {
    forall|k: int| 0 <= k < s.len() ==> spec_is_monster(#[trigger] s[k]) == monster
}

/// Monster slots hold at most one card, a monster; attack slots hold at
/// most one card, never a monster.
pub open spec fn slots_ok(depots: Seq<Seq<Card>>) -> bool {
    &&& forall|i: int|
        DepotRole::Monster.spec_first() <= i < DepotRole::Graveyard.spec_first()
            ==> #[trigger] depots[i].len() <= 1
    &&& forall|i: int|
        DepotRole::Monster.spec_first() <= i < DepotRole::Attack.spec_first()
            ==> #[trigger] only_kind(depots[i], true)
    &&& forall|i: int|
        DepotRole::Attack.spec_first() <= i < DepotRole::Graveyard.spec_first()
            ==> #[trigger] only_kind(depots[i], false)
}

/// The graveyard is made of triples, each a defeated monster followed by
/// the two cards that are not monsters that defeated it: their worths
/// against it add up to its rank.
pub open spec fn grave_ok(g: Seq<Card>) -> bool
    decreases g.len(),
{
    if g.len() == 0 {
        true
    } else if g.len() < 3 {
        false
    } else {
        let m = g[g.len() - 3];
        &&& spec_is_monster(m)
        &&& !spec_is_monster(g[g.len() - 2])
        &&& !spec_is_monster(g[g.len() - 1])
        &&& spec_attack_value(g[g.len() - 2], m) + spec_attack_value(g[g.len() - 1], m) == m.rank
        &&& grave_ok(g.take(g.len() - 3))
    }
}

/// The graveyard while a defeated monster and its attack cards are being
/// moved there one after another: whole triples, then possibly the
/// monster, or the monster and the first attack card.
pub open spec fn grave_partial(g: Seq<Card>) -> bool {
    ||| grave_ok(g)
    ||| g.len() >= 1 && grave_ok(g.drop_last()) && spec_is_monster(g.last())
    ||| g.len() >= 2 && grave_ok(g.take(g.len() - 2)) && spec_is_monster(g[g.len() - 2])
        && !spec_is_monster(g.last())
}

/// The number of monsters in `s`.
pub open spec fn monster_count(s: Seq<Card>) -> nat
    decreases s.len(),
{
    if s.len() == 0 {
        0
    } else {
        monster_count(s.drop_last()) + if spec_is_monster(s.last()) {
            1nat
        } else {
            0nat
        }
    }
}

/// The number of monsters among the cards of `ms`.
pub open spec fn monsters_in(ms: Multiset<Card>) -> nat {
    ms.filter(|c: Card| spec_is_monster(c)).len()
}

/// The number of monsters in all the depots together.
pub open spec fn monster_total(depots: Seq<Seq<Card>>) -> nat
    decreases depots.len(),
{
    if depots.len() == 0 {
        0
    } else {
        monster_total(depots.drop_last()) + monster_count(depots.last())
    }
}

/// What holds of the board after each recorded move: the slot rule, and a
/// graveyard of triples, the last possibly still being filled.
pub open spec fn level_ok(depots: Seq<Seq<Card>>) -> bool {
    slots_ok(depots) && grave_partial(depots[graveyard()])
}

/// What holds of the board at an undo point, where the player made a move:
/// no tableau column has a monster on top, and the graveyard is made of
/// whole triples.
pub open spec fn point_ok(depots: Seq<Seq<Card>>) -> bool {
    first_exposed(depots, 0) is None && grave_ok(depots[graveyard()])
}

/// The depots before the recorded move `r` was made: the cards it moved
/// are sent back to where they came from.
pub open spec fn take_back(depots: Seq<Seq<Card>>, r: ActionRecord) -> Seq<Seq<Card>> {
    apply_move(depots, r.pos2, r.pos1, r.rev)
}

/// `history` can be taken back move after move from `depots`: every board on
/// the way has fifteen depots and keeps [`level_ok`], and each move to take
/// back names depots of the board and a place its cards lie at.
pub open spec fn history_valid(depots: Seq<Seq<Card>>, history: Seq<ActionRecord>) -> bool
    decreases history.len(),
{
    &&& depots.len() == NUM_DEPOTS
    &&& level_ok(depots)
    &&& history.len() > 0 ==> {
        let r = history.last();
        &&& r.pos1.depot_index < NUM_DEPOTS
        &&& r.pos2.depot_index < NUM_DEPOTS
        &&& r.pos2.card_index <= depots[r.pos2.depot_index as int].len()
        &&& history_valid(take_back(depots, r), history.drop_last())
    }
}

/// The depots after taking back the moves of `history` past its first
/// `target`, last move first.
pub open spec fn unwind(depots: Seq<Seq<Card>>, history: Seq<ActionRecord>, target: int) -> Seq<
    Seq<Card>,
>
    decreases history.len(),
{
    if history.len() <= target || history.len() == 0 {
        depots
    } else {
        unwind(take_back(depots, history.last()), history.drop_last(), target)
    }
}

/// The state after [`GameState::do_move_raw`]: the move is made on the board
/// and recorded.
pub open spec fn record_move(g: GameView, pos1: BoardPos, pos2: BoardPos, rev: bool) -> GameView {
    GameView {
        board: spec_do_move(g.board, pos1, pos2, rev),
        history: g.history.push(ActionRecord { pos1, pos2, rev }),
        ..g
    }
}

/// Attack card `c` is the ace of monster `m`'s suit.
pub open spec fn suit_ace(c: Card, m: Card) -> bool {
    c.rank == 1 && c.suit == m.suit
}

/// The worth of attack card `c` against monster `m`: its rank, except that
/// an ace of the monster's suit is worth seven.
pub open spec fn spec_attack_value(c: Card, m: Card) -> int {
    if suit_ace(c, m) {
        7
    } else {
        c.rank as int
    }
}

/// How many attack cards of the graveyard triples `g` were aces of their
/// monster's suit, worth seven.
pub open spec fn ace_uses(g: Seq<Card>) -> nat
    decreases g.len(),
{
    if g.len() < 3 {
        0
    } else {
        let m = g[g.len() - 3];
        ace_uses(g.take(g.len() - 3)) + (if suit_ace(g[g.len() - 2], m) {
            1nat
        } else {
            0nat
        }) + (if suit_ace(g[g.len() - 1], m) {
            1nat
        } else {
            0nat
        })
    }
}

/// Where monster slot `i` and both its attack slots are filled, the worths
/// of the two attack cards add up to no more than a byte holds.
pub open spec fn attack_sum_fits(depots: Seq<Seq<Card>>, i: int) -> bool {
    let m = depots[DepotRole::Monster.spec_first() + i];
    let a1 = depots[DepotRole::Attack.spec_first() + 2 * i];
    let a2 = depots[DepotRole::Attack.spec_first() + 2 * i + 1];
    m.len() != 0 && a1.len() != 0 && a2.len() != 0 ==> spec_attack_value(a1.last(), m.last())
        + spec_attack_value(a2.last(), m.last()) <= u8::MAX
}

/// The game adds up the attack cards' worths in bytes, slot after slot up
/// to the first defeated monster: those sums fit.
pub open spec fn attack_sums_fit(depots: Seq<Seq<Card>>) -> bool {
    forall|i: int|
        0 <= i < DepotRole::Monster.spec_number_of() && first_defeat(depots, 0) == first_defeat(
            depots,
            i,
        ) ==> #[trigger] attack_sum_fits(depots, i)
}

/// Monster slot `i` is filled, both its attack slots are filled, and the
/// worths of the two attack cards add up to the monster's rank.
pub open spec fn defeatable(depots: Seq<Seq<Card>>, i: int) -> bool {
    let m = depots[DepotRole::Monster.spec_first() + i];
    let a1 = depots[DepotRole::Attack.spec_first() + 2 * i];
    let a2 = depots[DepotRole::Attack.spec_first() + 2 * i + 1];
    &&& m.len() != 0
    &&& a1.len() != 0
    &&& a2.len() != 0
    &&& spec_attack_value(a1.last(), m.last()) + spec_attack_value(a2.last(), m.last()) == m.last().rank
}

/// The first monster slot from `i` on whose monster is defeated.
pub open spec fn first_defeat(depots: Seq<Seq<Card>>, i: int) -> Option<int>
    decreases 3 - i,
{
    if i < 0 || i >= DepotRole::Monster.spec_number_of() {
        None
    } else if defeatable(depots, i) {
        Some(i)
    } else {
        first_defeat(depots, i + 1)
    }
}

/// Tableau column `t` has a monster on top.
pub open spec fn exposed(depots: Seq<Seq<Card>>, t: int) -> bool {
    depots[t].len() != 0 && spec_is_monster(depots[t].last())
}

/// The first tableau column from `t` on with a monster on top.
pub open spec fn first_exposed(depots: Seq<Seq<Card>>, t: int) -> Option<int>
    decreases 4 - t,
{
    if t < 0 || t >= DepotRole::Tableau.spec_number_of() {
        None
    } else if exposed(depots, t) {
        Some(t)
    } else {
        first_exposed(depots, t + 1)
    }
}

/// The first empty monster slot from depot `d` on.
pub open spec fn first_empty_monster(depots: Seq<Seq<Card>>, d: int) -> Option<int>
    decreases 7 - d,
{
    if d < DepotRole::Monster.spec_first() || d >= DepotRole::Attack.spec_first() {
        None
    } else if depots[d].len() == 0 {
        Some(d)
    } else {
        first_empty_monster(depots, d + 1)
    }
}

/// Where an exposed monster goes: the first empty monster slot, or the
/// death pile when every slot is taken.
pub open spec fn monster_dest(depots: Seq<Seq<Card>>) -> int {
    match first_empty_monster(depots, DepotRole::Monster.spec_first() as int) {
        Some(d) => d,
        None => death(),
    }
}

pub open spec fn pos(d: int, c: int) -> BoardPos {
    BoardPos { depot_index: d as usize, card_index: c as usize }
}

/// The state after [`GameState::check_auto_moves`]. Nothing happens while
/// cards are in flight or once the game is over. Otherwise, when the first
/// monster slot whose monster is defeated exists, its monster and both
/// attack cards go to the graveyard, in that order; else, when a tableau
/// column has a monster on top, the first such monster goes to the first
/// empty monster slot, or to the death pile.
pub open spec fn spec_check_auto_moves(g: GameView) -> GameView {
    let d = g.board.depots;
    if g.is_busy() || g.is_over() {
        g
    } else {
        match first_defeat(d, 0) {
            Some(i) => {
                let gl = d[graveyard()].len() as int;
                let g1 = record_move(
                    g,
                    pos(DepotRole::Monster.spec_first() + i, 0),
                    pos(graveyard(), gl),
                    false,
                );
                let g2 = record_move(
                    g1,
                    pos(DepotRole::Attack.spec_first() + 2 * i, 0),
                    pos(graveyard(), gl + 1),
                    false,
                );
                record_move(
                    g2,
                    pos(DepotRole::Attack.spec_first() + 2 * i + 1, 0),
                    pos(graveyard(), gl + 2),
                    false,
                )
            },
            None => match first_exposed(d, 0) {
                Some(t) => {
                    let dest = monster_dest(d);
                    record_move(g, pos(t, d[t].len() - 1), pos(dest, d[dest].len() as int), false)
                },
                None => g,
            },
        }
    }
}

/// `g` with `p` selected.
pub open spec fn with_selected(g: GameView, p: Option<BoardPos>) -> GameView {
    GameView { board: BoardView { selected: p, ..g.board }, ..g }
}

/// `g` with an undo point for the move about to be made.
pub open spec fn with_undo_point(g: GameView) -> GameView {
    GameView { undo_stack: g.undo_stack.push(g.history.len() as usize), ..g }
}

/// The state after [`GameState::onclick`] on `p`. Nothing happens while
/// cards are in flight or once the game is over. With nothing selected, a
/// click on cards that may be picked up selects them. With cards selected,
/// a click on the selected card clears the selection; a click on cards of
/// the same depot that may be picked up selects those instead; a click on
/// the top card of another depot (or on an empty depot, whose frame reports
/// the card index `usize::MAX`) moves the selected cards there when the move
/// is allowed, after leaving an undo point.
pub open spec fn spec_onclick(g: GameView, p: BoardPos) -> GameView {
    let d = g.board.depots;
    if g.is_busy() || g.is_over() {
        g
    } else {
        match g.board.selected {
            Some(src) => {
                if p == src {
                    with_selected(g, None)
                } else if src.depot_index == p.depot_index && spec_can_select(d, p) {
                    with_selected(g, Some(p))
                } else {
                    let dest = BoardPos {
                        depot_index: p.depot_index,
                        card_index: p.card_index.wrapping_add(1),
                    };
                    if !spec_can_move(d, src, dest) {
                        g
                    } else {
                        record_move(with_undo_point(g), src, dest, false)
                    }
                }
            },
            None => {
                if spec_can_select(d, p) {
                    with_selected(g, Some(p))
                } else {
                    g
                }
            },
        }
    }
}

/// The state after [`GameState::oncontextmenu`] on `p`: with cards selected
/// and nothing in flight in a game not over, the selected cards go in
/// reverse order onto the tableau column whose top card (or empty frame) was
/// clicked, when the reverse move is allowed, after leaving an undo point.
pub open spec fn spec_oncontextmenu(g: GameView, p: BoardPos) -> GameView {
    let d = g.board.depots;
    if g.is_busy() || g.is_over() {
        g
    } else {
        match g.board.selected {
            Some(src) => {
                let dest = BoardPos {
                    depot_index: p.depot_index,
                    card_index: p.card_index.wrapping_add(1),
                };
                if !spec_can_rev_move(d, src, dest) {
                    g
                } else {
                    record_move(with_undo_point(g), src, dest, true)
                }
            },
            None => g,
        }
    }
}

/// The moves past the first `target` of `history` can be taken back from
/// `depots`, last first, each naming depots of the board and a place its
/// cards lie at.
pub open spec fn can_take_back(depots: Seq<Seq<Card>>, history: Seq<ActionRecord>, target: int) -> bool
    decreases history.len(),
{
    history.len() > target && history.len() > 0 ==> {
        let r = history.last();
        &&& depots.len() == NUM_DEPOTS
        &&& r.pos1.depot_index < NUM_DEPOTS
        &&& r.pos2.depot_index < NUM_DEPOTS
        &&& r.pos2.card_index <= depots[r.pos2.depot_index as int].len()
        &&& can_take_back(take_back(depots, r), history.drop_last(), target)
    }
}

/// The state after [`GameState::undo`]. When nothing is in flight, undo is
/// allowed and an undo point is left, the last undo point is dropped and
/// every move recorded since it is taken back, last first; when a move was
/// taken back the selection is cleared.
pub open spec fn spec_undo(g: GameView) -> GameView {
    if g.is_busy() || !g.undo_possible() {
        g
    } else {
        let t = g.undo_stack.last() as int;
        if g.history.len() > t {
            GameView {
                board: BoardView {
                    depots: unwind(g.board.depots, g.history, t),
                    selected: None,
                    acts: g.board.acts,
                },
                history: g.history.take(t),
                undo_stack: g.undo_stack.drop_last(),
                ..g
            }
        } else {
            GameView { undo_stack: g.undo_stack.drop_last(), ..g }
        }
    }
}

/// The state of a fresh deal of `deal`: nothing selected, nothing in
/// flight, no history and no undo point.
pub open spec fn dealt_state(g: GameView, deal: Seq<Card>) -> GameView {
    GameView {
        board: BoardView { depots: dealt_depots(deal), selected: None, acts: Seq::empty() },
        deal,
        history: Seq::empty(),
        undo_stack: Seq::empty(),
        ..g
    }
}

/// The state after [`GameState::restart`]: when moves were made and undo is
/// allowed, the same deal is dealt again, history and undo points are
/// dropped, and the game makes its automatic move if there is one.
pub open spec fn spec_restart(g: GameView) -> GameView {
    if g.history.len() == 0 || !g.undo_possible() {
        g
    } else {
        spec_check_auto_moves(dealt_state(g, g.deal))
    }
}

/// The state after [`GameState::advance_animations`] with `key`: a key that
/// is not the current one changes nothing. Otherwise the key moves on, the
/// cards in flight land, and then either the game is won (counting the win
/// the first time) or the game makes its automatic move if there is one.
pub open spec fn spec_advance_animations(g: GameView, key: AnimationKey) -> GameView {
    if key != g.animation_key {
        g
    } else {
        let g1 = GameView {
            animation_key: key.wrapping_add(1),
            board: spec_advance(g.board),
            ..g
        };
        if g1.is_won() {
            if !g1.already_won {
                GameView { num_wins: (g1.num_wins + 1) as i32, already_won: true, ..g1 }
            } else {
                g1
            }
        } else {
            spec_check_auto_moves(g1)
        }
    }
}

/// A deal is refused when fewer than one or more than this many monsters
/// lie on top of the tableau columns.
pub const MAX_FRONT_MONSTERS: usize = 3;

/// A deal is refused when a tableau column holds more than this many
/// monsters in a row.
pub const MAX_MONSTER_CLUMP: usize = 3;

/// How many monsters lie on top of `column`, one on another.
pub open spec fn trailing_monsters(column: Seq<Card>) -> nat
    decreases column.len(),
{
    if column.len() == 0 || !spec_is_monster(column.last()) {
        0
    } else {
        1 + trailing_monsters(column.drop_last())
    }
}

/// How many monsters lie on top of the four tableau columns together.
pub open spec fn front_monsters(depots: Seq<Seq<Card>>) -> nat {
    trailing_monsters(depots[0]) + trailing_monsters(depots[1]) + trailing_monsters(depots[2])
        + trailing_monsters(depots[3])
}

/// The cards of `column` from `i` on, one more than the allowed clump, are
/// all monsters.
pub open spec fn clump_at(column: Seq<Card>, i: int) -> bool {
    &&& 0 <= i
    &&& i + MAX_MONSTER_CLUMP + 1 <= column.len()
    &&& forall|j: int| i <= j < i + MAX_MONSTER_CLUMP + 1 ==> spec_is_monster(#[trigger] column[j])
}

/// `column` holds more monsters in a row than allowed.
pub open spec fn has_clump(column: Seq<Card>) -> bool {
    exists|i: int| #[trigger] clump_at(column, i)
}

/// A deal that the game refuses as likely unwinnable: the number of
/// monsters on top of the tableau is not between one and
/// [`MAX_FRONT_MONSTERS`], or a column holds more than
/// [`MAX_MONSTER_CLUMP`] monsters in a row.
pub open spec fn spec_is_misdeal(depots: Seq<Seq<Card>>) -> bool {
    ||| !(1 <= front_monsters(depots) <= MAX_FRONT_MONSTERS)
    ||| exists|t: int| 0 <= t < 4 && #[trigger] has_clump(depots[t])
}

/// The rank that the fixed deal puts at place `k`, counted from the bottom,
/// of tableau column `t`: the ranks in order, except that the ten, the
/// queen and (in every column but the first) the king are swapped with the
/// two, the four and the six, so that monsters never lie next to each
/// other and only the first column has one on top.
pub open spec fn fixed_rank(k: int, t: int) -> int {
    if k == 1 {
        10
    } else if k == 9 {
        2
    } else if k == 3 {
        12
    } else if k == 11 {
        4
    } else if k == 5 {
        if t == 0 {
            6
        } else {
            13
        }
    } else if k == 12 {
        if t == 0 {
            13
        } else {
            6
        }
    } else {
        k + 1
    }
}

/// A fixed deal of the full deck that the game does not refuse: card `i`
/// goes to column `i % 4` at place `i / 4`, column `t` holding the suit at
/// position `t` of [`Suit::all`](crate::card::Suit::all).
pub open spec fn fixed_deck() -> Seq<Card> {
    Seq::new(52, |i: int| Card { rank: fixed_rank(i / 4, i % 4) as u8, suit: suit_at(i % 4) })
}

} // verus!
