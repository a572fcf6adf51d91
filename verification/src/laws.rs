//! What the operations keep and what undo gives back, proved over the
//! rules.

use vstd::multiset::Multiset;
use vstd::prelude::*;

use crate::board::{
    apply_move, cards_of, dealt_depots, land, lemma_cards_apply_move, lemma_cards_dealt,
    lemma_cards_update,
    lemma_land_grows, lemma_landed_do_move, lemma_move_then_back, lemma_total_apply_move,
    lemma_total_bounds, lemma_total_dealt, moved_cards, spec_advance, total_cards, BoardPos,
    DepotRole, NUM_DEPOTS,
};
use crate::card::{full_deck, spec_is_monster, Card, DECK_SIZE, RANK_MAX};
use crate::game::{ActionRecord, AnimationKey, GameView, GRAVEYARD_TARGET, NUM_MONSTERS};
use crate::rules::{
    ace_uses, attack_sum_fits, can_take_back, attack_sums_fit, clump_at, spec_can_stack, dealt_state, fixed_deck, front_monsters, has_clump, spec_is_misdeal,
    trailing_monsters, grave_ok, level_ok, monster_count, monster_total, monsters_in,
    only_kind, point_ok, spec_can_rev_move, death, defeatable, exposed, first_defeat,
    first_empty_monster,
    first_exposed, graveyard, history_valid, monster_dest, pos, record_move, slots_ok,
    spec_advance_animations, spec_can_move, spec_can_select, spec_check_auto_moves,
    spec_oncontextmenu, spec_onclick, spec_restart, spec_undo,
    take_back, unwind, with_undo_point,
};

verus! {

/// Recording a move that is exact (its cards land right on top of the
/// destination, which is another depot) keeps the history valid, as long as
/// the board after it keeps [`level_ok`].
pub proof fn lemma_push_move(
    depots: Seq<Seq<Card>>,
    history: Seq<ActionRecord>,
    pos1: BoardPos,
    pos2: BoardPos,
    rev: bool,
)
    requires
        history_valid(depots, history),
        pos1.depot_index != pos2.depot_index,
        pos1.depot_index < NUM_DEPOTS,
        pos2.depot_index < NUM_DEPOTS,
        pos1.card_index <= depots[pos1.depot_index as int].len(),
        pos2.card_index == depots[pos2.depot_index as int].len(),
        level_ok(apply_move(depots, pos1, pos2, rev)),
    ensures
        history_valid(
            apply_move(depots, pos1, pos2, rev),
            history.push(ActionRecord { pos1, pos2, rev }),
        ),
        forall|t: int|
            0 <= t <= history.len() ==> #[trigger] unwind(
                apply_move(depots, pos1, pos2, rev),
                history.push(ActionRecord { pos1, pos2, rev }),
                t,
            ) == unwind(depots, history, t),
{
    let after = apply_move(depots, pos1, pos2, rev);
    let h = history.push(ActionRecord { pos1, pos2, rev });
    lemma_move_then_back(depots, pos1, pos2, rev);
    assert(h.drop_last() =~= history);
    assert(take_back(after, h.last()) == depots);
    assert forall|t: int| 0 <= t <= history.len() implies #[trigger] unwind(after, h, t) == unwind(
        depots,
        history,
        t,
    ) by {
        assert(h.len() > t);
    }
}

/// The facts about a recorded exact move that the invariant needs: the state
/// stays sound, the landed board is the board after the whole move, and
/// taking back any later part of the history gives what it gave before.
pub proof fn lemma_record_move(g: GameView, pos1: BoardPos, pos2: BoardPos, rev: bool)
    requires
        g.sound(),
        pos1.depot_index != pos2.depot_index,
        pos1.depot_index < NUM_DEPOTS,
        pos2.depot_index < NUM_DEPOTS,
        pos1.card_index <= g.board.depots[pos1.depot_index as int].len(),
        forall|i: int|
            0 <= i < g.board.acts.len() ==> (#[trigger] g.board.acts[i]).pos2.depot_index
                != pos1.depot_index,
        pos2.card_index == g.board.landed()[pos2.depot_index as int].len(),
        level_ok(apply_move(g.board.landed(), pos1, pos2, rev)),
    ensures
        record_move(g, pos1, pos2, rev).sound(),
        record_move(g, pos1, pos2, rev).board.landed() == apply_move(
            g.board.landed(),
            pos1,
            pos2,
            rev,
        ),
        forall|t: int|
            0 <= t <= g.history.len() ==> #[trigger] unwind(
                record_move(g, pos1, pos2, rev).board.landed(),
                record_move(g, pos1, pos2, rev).history,
                t,
            ) == unwind(g.board.landed(), g.history, t),
{
    lemma_landed_do_move(g.board, pos1, pos2, rev);
    lemma_land_grows(g.board.depots, g.board.acts);
    lemma_push_move(g.board.landed(), g.history, pos1, pos2, rev);
    lemma_total_apply_move(g.board.landed(), pos1, pos2, rev);
    lemma_cards_apply_move(g.board.landed(), pos1, pos2, rev);
}

/// `first_defeat` finds a defeated monster's slot at or after `i`.
pub proof fn lemma_first_defeat(depots: Seq<Seq<Card>>, i: int)
    ensures
        first_defeat(depots, i) matches Some(j) ==> i <= j < 3 && defeatable(depots, j),
    decreases 3 - i,
{
    if 0 <= i < 3 && !defeatable(depots, i) {
        lemma_first_defeat(depots, i + 1);
    }
}

/// `first_exposed` finds a column with a monster on top at or after `t`.
pub proof fn lemma_first_exposed(depots: Seq<Seq<Card>>, t: int)
    ensures
        first_exposed(depots, t) matches Some(j) ==> t <= j < 4 && exposed(depots, j),
    decreases 4 - t,
{
    if 0 <= t < 4 && !exposed(depots, t) {
        lemma_first_exposed(depots, t + 1);
    }
}

/// `monster_dest` is an empty monster slot or the death pile.
pub proof fn lemma_monster_dest(depots: Seq<Seq<Card>>)
    ensures
        monster_dest(depots) == death() || (4 <= monster_dest(depots) < 7
            && depots[monster_dest(depots)].len() == 0),
{
    lemma_first_empty_monster(depots, 4);
}

proof fn lemma_first_empty_monster(depots: Seq<Seq<Card>>, d: int)
    ensures
        first_empty_monster(depots, d) matches Some(j) ==> d <= j < 7 && 4 <= j && depots[j].len()
            == 0,
    decreases 7 - d,
{
    if 4 <= d < 7 && depots[d].len() != 0 {
        lemma_first_empty_monster(depots, d + 1);
    }
}

/// The moves the game makes by itself lead to a state that keeps the
/// invariant, touch nothing but the board and the history, only add to the
/// history, and leave what undo gives back unchanged.
pub proof fn lemma_auto_moves(g: GameView)
    requires
        g.steady(),
    ensures
        spec_check_auto_moves(g).wf(),
        ({
            let a = spec_check_auto_moves(g);
            &&& a.undo_stack == g.undo_stack
            &&& a.deal == g.deal
            &&& a.animation_key == g.animation_key
            &&& a.already_won == g.already_won
            &&& a.num_wins == g.num_wins
            &&& a.allow_undo == g.allow_undo
            &&& a.history.len() >= g.history.len()
            &&& a.history.take(g.history.len() as int) == g.history
        }),
        forall|t: int|
            0 <= t <= g.history.len() ==> #[trigger] unwind(
                spec_check_auto_moves(g).board.landed(),
                spec_check_auto_moves(g).history,
                t,
            ) == unwind(g.board.landed(), g.history, t),
{
    let d = g.board.depots;
    if g.is_busy() || g.is_over() {
        return;
    }
    assert(g.board.landed() == d);
    lemma_total_bounds(d);
    lemma_first_defeat(d, 0);
    let gy = graveyard();
    match first_defeat(d, 0) {
        Some(i) => {
            let gl = d[gy].len() as int;
            let p1 = pos(DepotRole::Monster.spec_first() + i, 0);
            let q1 = pos(gy, gl);
            let p2 = pos(DepotRole::Attack.spec_first() + 2 * i, 0);
            let q2 = pos(gy, gl + 1);
            let p3 = pos(DepotRole::Attack.spec_first() + 2 * i + 1, 0);
            let q3 = pos(gy, gl + 2);
            let m = d[4 + i][0];
            let a1 = d[7 + 2 * i][0];
            let a2 = d[8 + 2 * i][0];
            assert(only_kind(d[4 + i], true));
            assert(only_kind(d[7 + 2 * i], false));
            assert(only_kind(d[8 + 2 * i], false));
            assert(spec_is_monster(m));
            assert(!spec_is_monster(a1));
            assert(!spec_is_monster(a2));
            let d1 = apply_move(d, p1, q1, false);
            assert(d[4 + i].len() == 1);
            assert(d[4 + i].skip(0) =~= seq![m]);
            assert(d1[4 + i] =~= Seq::<Card>::empty());
            assert(d1[gy] =~= d[gy].push(m));
            assert(d1[gy].drop_last() =~= d[gy]);
            assert(level_ok(d1));
            lemma_record_move(g, p1, q1, false);
            let g1 = record_move(g, p1, q1, false);
            let d2 = apply_move(d1, p2, q2, false);
            assert(d1[7 + 2 * i] == d[7 + 2 * i]);
            assert(d[7 + 2 * i].skip(0) =~= seq![a1]);
            assert(d2[7 + 2 * i] =~= Seq::<Card>::empty());
            assert(d2[gy] =~= d[gy].push(m).push(a1));
            assert(d2[gy].take(d2[gy].len() - 2) =~= d[gy]);
            assert(level_ok(d2));
            assert(g1.board.acts.len() == 1);
            assert(g1.board.depots[7 + 2 * i] == d[7 + 2 * i]);
            lemma_record_move(g1, p2, q2, false);
            let g2 = record_move(g1, p2, q2, false);
            let d3 = apply_move(d2, p3, q3, false);
            assert(d2[8 + 2 * i] == d[8 + 2 * i]);
            assert(d[8 + 2 * i].skip(0) =~= seq![a2]);
            assert(d3[8 + 2 * i] =~= Seq::<Card>::empty());
            assert(d3[gy] =~= d[gy].push(m).push(a1).push(a2));
            assert(d3[gy].take(d3[gy].len() - 3) =~= d[gy]);
            assert(grave_ok(d3[gy]));
            assert(level_ok(d3));
            assert(g2.board.acts.len() == 2);
            assert(g2.board.depots[8 + 2 * i] == d[8 + 2 * i]);
            lemma_record_move(g2, p3, q3, false);
            let g3 = record_move(g2, p3, q3, false);
            assert(g3.history.take(g.history.len() as int) =~= g.history);
            assert(g3.undo_points_ok());
        },
        None => {
            lemma_first_exposed(d, 0);
            match first_exposed(d, 0) {
                Some(t) => {
                    let dest = monster_dest(d);
                    lemma_monster_dest(d);
                    let p = pos(t, d[t].len() - 1);
                    let q = pos(dest, d[dest].len() as int);
                    assert(d[t].skip(d[t].len() - 1) =~= seq![d[t].last()]);
                    lemma_level_after_move(d, p, q, false);
                    lemma_record_move(g, p, q, false);
                    let g1 = record_move(g, p, q, false);
                    assert(g1.history.take(g.history.len() as int) =~= g.history);
                    assert(g1.undo_points_ok());
                },
                None => {
                    assert(g.history.take(g.history.len() as int) =~= g.history);
                },
            }
        },
    }
}

/// A move that neither takes from nor puts on the graveyard keeps
/// [`level_ok`] when its destination, if a monster slot, ends up with a
/// single monster, and, if an attack slot, with a single card that is not a
/// monster. The graveyard stays as it was.
pub proof fn lemma_level_after_move(depots: Seq<Seq<Card>>, pos1: BoardPos, pos2: BoardPos, rev: bool)
    requires
        level_ok(depots),
        depots.len() == NUM_DEPOTS,
        pos1.depot_index < NUM_DEPOTS,
        pos2.depot_index < NUM_DEPOTS,
        pos1.depot_index != pos2.depot_index,
        pos1.depot_index != graveyard(),
        pos2.depot_index != graveyard(),
        pos1.card_index <= depots[pos1.depot_index as int].len(),
        4 <= pos2.depot_index < 13 ==> depots[pos2.depot_index as int].len()
            + depots[pos1.depot_index as int].len() - pos1.card_index <= 1,
        4 <= pos2.depot_index < 7 ==> only_kind(
            moved_cards(depots[pos1.depot_index as int], pos1.card_index as int, rev),
            true,
        ),
        7 <= pos2.depot_index < 13 ==> only_kind(
            moved_cards(depots[pos1.depot_index as int], pos1.card_index as int, rev),
            false,
        ),
    ensures
        level_ok(apply_move(depots, pos1, pos2, rev)),
        apply_move(depots, pos1, pos2, rev)[graveyard()] == depots[graveyard()],
{
    let d1 = pos1.depot_index as int;
    let d2 = pos2.depot_index as int;
    let m = moved_cards(depots[d1], pos1.card_index as int, rev);
    let after = apply_move(depots, pos1, pos2, rev);
    assert(m.len() == depots[d1].len() - pos1.card_index);
    assert forall|i: int| 4 <= i < 7 implies #[trigger] only_kind(after[i], true) by {
        assert(only_kind(depots[i], true));
        if i == d2 {
            assert(depots[i].len() == 0 || m.len() == 0);
            if depots[i].len() == 0 {
                assert(after[i] =~= m);
            } else {
                assert(after[i] =~= depots[i]);
            }
        } else if i == d1 {
            assert forall|k: int| 0 <= k < after[i].len()
                implies spec_is_monster(#[trigger] after[i][k]) == true by {
                assert(after[i][k] == depots[i][k]);
            }
        }
    }
    assert forall|i: int| 7 <= i < 13 implies #[trigger] only_kind(after[i], false) by {
        assert(only_kind(depots[i], false));
        if i == d2 {
            assert(depots[i].len() == 0 || m.len() == 0);
            if depots[i].len() == 0 {
                assert(after[i] =~= m);
            } else {
                assert(after[i] =~= depots[i]);
            }
        } else if i == d1 {
            assert forall|k: int| 0 <= k < after[i].len()
                implies spec_is_monster(#[trigger] after[i][k]) == false by {
                assert(after[i][k] == depots[i][k]);
            }
        }
    }
}

/// When no tableau column from `t` on has a monster on top, none has.
pub proof fn lemma_first_exposed_none(depots: Seq<Seq<Card>>, t: int)
    requires
        0 <= t,
        first_exposed(depots, t) is None,
    ensures
        forall|u: int| t <= u < 4 ==> !#[trigger] exposed(depots, u),
    decreases 4 - t,
{
    if t < 4 {
        lemma_first_exposed_none(depots, t + 1);
    }
}

/// A move the player makes, by a click or by the reverse-stacking
/// shortcut, keeps the invariant, leaves the graveyard as it was, and leaves
/// an undo point from which undo gives back the board before the move.
pub proof fn lemma_player_move(g: GameView, src: BoardPos, dest: BoardPos, rev: bool)
    requires
        g.wf(),
        !g.is_busy(),
        !g.is_over(),
        g.history.len() <= usize::MAX,
        g.board.selected == Some(src),
        rev ==> spec_can_rev_move(g.board.depots, src, dest),
        !rev ==> spec_can_move(g.board.depots, src, dest),
    ensures
        record_move(with_undo_point(g), src, dest, rev).wf(),
        record_move(with_undo_point(g), src, dest, rev).board.landed()[graveyard()]
            == g.board.landed()[graveyard()],
        undo_target_kept(
            record_move(with_undo_point(g), src, dest, rev),
            g.undo_stack.push(g.history.len() as usize),
            g.history,
            g.board.depots,
        ),
        forall|t: int|
            0 <= t <= g.history.len() ==> #[trigger] unwind(
                record_move(with_undo_point(g), src, dest, rev).board.landed(),
                record_move(with_undo_point(g), src, dest, rev).history,
                t,
            ) == unwind(g.board.landed(), g.history, t),
{
    let d = g.board.depots;
    let g0 = with_undo_point(g);
    let g1 = record_move(g0, src, dest, rev);
    let n0 = g.history.len() as int;
    assert(g.board.landed() == d);
    lemma_total_bounds(d);
    lemma_first_exposed_none(d, 0);
    let m = moved_cards(d[src.depot_index as int], src.card_index as int, rev);
    if !rev && 7 <= dest.depot_index < 13 {
        let s = src.depot_index as int;
        assert(d[s].skip(src.card_index as int) =~= seq![d[s].last()]);
        if s < 4 {
            assert(!exposed(d, s));
        } else {
            assert(only_kind(d[s], false));
        }
        assert(only_kind(m, false));
    }
    lemma_level_after_move(d, src, dest, rev);
    lemma_record_move(g0, src, dest, rev);
    let us = g.undo_stack.push(n0 as usize);
    assert(g1.undo_stack == us);
    assert(g1.history.take(n0) =~= g.history);
    assert(unwind(d, g.history, n0) == d);
    assert forall|i: int| 0 <= i < us.len() implies #[trigger] us[i] <= g1.history.len() by {
        if i < g.undo_stack.len() {
            assert(us[i] == g.undo_stack[i]);
        }
    }
    assert forall|i: int, j: int| 0 <= i <= j < us.len() implies us[i] <= us[j] by {
        if j < g.undo_stack.len() {
            assert(us[i] == g.undo_stack[i]);
            assert(us[j] == g.undo_stack[j]);
        } else if i < g.undo_stack.len() {
            assert(us[i] == g.undo_stack[i]);
        }
    }
    assert forall|i: int| 0 <= i < us.len() implies point_ok(
        unwind(g1.board.landed(), g1.history, #[trigger] us[i] as int),
    ) by {
        if i < g.undo_stack.len() {
            assert(us[i] == g.undo_stack[i]);
        }
    }
    assert(g1.undo_points_ok());
}

/// A fresh deal is steady: no slot holds a card, the graveyard is empty and
/// there is no history.
pub proof fn lemma_dealt_steady(g: GameView, deal: Seq<Card>)
    requires
        deal.len() == DECK_SIZE,
        deal.to_multiset() == full_deck().to_multiset(),
    ensures
        dealt_state(g, deal).steady(),
{
    let d = dealt_depots(deal);
    lemma_total_dealt(deal);
    lemma_cards_dealt(deal);
    assert(dealt_state(g, deal).board.landed() == d);
    assert forall|i: int| 4 <= i < 13 implies #[trigger] d[i].len() == 0 by {}
    assert(slots_ok(d));
    assert(grave_ok(d[graveyard()]));
    assert(level_ok(d));
}

/// The state after `n` rounds of finished animations, each reported with
/// the key current at that time.
pub open spec fn settle(g: GameView, n: nat) -> GameView
    decreases n,
{
    if n == 0 {
        g
    } else {
        settle(spec_advance_animations(g, g.animation_key), (n - 1) as nat)
    }
}

/// What undo will give back stays put: the undo points, the history up to
/// the last undo point, and the board that taking back the moves since it
/// leads to.
pub open spec fn undo_target_kept(
    g: GameView,
    undo_stack: Seq<usize>,
    history: Seq<ActionRecord>,
    depots: Seq<Seq<Card>>,
) -> bool {
    &&& g.undo_stack == undo_stack
    &&& undo_stack.len() > 0
    &&& g.history.len() > undo_stack.last()
    &&& g.history.take(undo_stack.last() as int) == history
    &&& unwind(g.board.landed(), g.history, undo_stack.last() as int) == depots
}

/// Finished animations keep the invariant and what undo will give back.
pub proof fn lemma_advance_animations(g: GameView, key: AnimationKey)
    requires
        g.wf(),
    ensures
        spec_advance_animations(g, key).wf(),
        spec_advance_animations(g, key).allow_undo == g.allow_undo,
        forall|us: Seq<usize>, h: Seq<ActionRecord>, d: Seq<Seq<Card>>|
            undo_target_kept(g, us, h, d) ==> #[trigger] undo_target_kept(
                spec_advance_animations(g, key),
                us,
                h,
                d,
            ),
{
    if key == g.animation_key {
        let g1 = GameView { animation_key: key.wrapping_add(1), board: spec_advance(g.board), ..g };
        lemma_land_grows(g.board.depots, g.board.acts);
        assert(g1.board.landed() =~= g.board.landed());
        assert(g1.steady());
        if !g1.is_won() {
            lemma_auto_moves(g1);
            let a = spec_check_auto_moves(g1);
            assert forall|us: Seq<usize>, h: Seq<ActionRecord>, d: Seq<Seq<Card>>|
                undo_target_kept(g, us, h, d) implies #[trigger] undo_target_kept(a, us, h, d) by {
                let t = us.last() as int;
                assert(a.history.take(t) =~= a.history.take(g.history.len() as int).take(t));
                assert(unwind(a.board.landed(), a.history, t) == unwind(
                    g1.board.landed(),
                    g1.history,
                    t,
                ));
            }
        } else {
            assert forall|us: Seq<usize>, h: Seq<ActionRecord>, d: Seq<Seq<Card>>|
                undo_target_kept(g, us, h, d) implies #[trigger] undo_target_kept(
                    spec_advance_animations(g, key),
                    us,
                    h,
                    d,
                ) by {
                assert(spec_advance_animations(g, key).board.landed() == g.board.landed());
            }
        }
    }
}

/// Any number of rounds of finished animations keep the invariant and what
/// undo will give back.
pub proof fn lemma_settle(g: GameView, n: nat, us: Seq<usize>, h: Seq<ActionRecord>, d: Seq<Seq<Card>>)
    requires
        g.wf(),
        undo_target_kept(g, us, h, d),
    ensures
        settle(g, n).wf(),
        settle(g, n).allow_undo == g.allow_undo,
        undo_target_kept(settle(g, n), us, h, d),
    decreases n,
{
    if n > 0 {
        let g1 = spec_advance_animations(g, g.animation_key);
        lemma_advance_animations(g, g.animation_key);
        assert(undo_target_kept(g1, us, h, d));
        lemma_settle(g1, (n - 1) as nat, us, h, d);
    }
}

/// When nothing is in flight, undo gives back what it keeps track of.
pub proof fn lemma_undo_gives_back(g: GameView, us: Seq<usize>, h: Seq<ActionRecord>, d: Seq<Seq<Card>>)
    requires
        g.wf(),
        g.allow_undo,
        !g.is_busy(),
        undo_target_kept(g, us, h, d),
    ensures
        spec_undo(g).board.depots == d,
        spec_undo(g).history == h,
        spec_undo(g).undo_stack == us.drop_last(),
        spec_undo(g).wf(),
{
    let t = us.last() as int;
    assert(g.board.landed() == g.board.depots);
    lemma_unwind_valid(g.board.depots, g.history, t);
    lemma_undo_keeps_wf(g);
}

/// Taking back the moves past an undo point and then those past an earlier
/// one is taking back the moves past the earlier one.
pub proof fn lemma_unwind_twice(depots: Seq<Seq<Card>>, history: Seq<ActionRecord>, t: int, u: int)
    requires
        0 <= u <= t,
    ensures
        unwind(
            unwind(depots, history, t),
            if history.len() > t {
                history.take(t)
            } else {
                history
            },
            u,
        ) == unwind(depots, history, u),
    decreases history.len(),
{
    if history.len() > t {
        let rest = history.drop_last();
        lemma_unwind_twice(take_back(depots, history.last()), rest, t, u);
        if rest.len() > t {
            assert(rest.take(t) =~= history.take(t));
        } else {
            assert(rest =~= history.take(t));
        }
    }
}

/// Undo keeps the invariant: it lands on the board of its undo point,
/// where the player could act.
pub proof fn lemma_undo_keeps_wf(g: GameView)
    requires
        g.wf(),
    ensures
        spec_undo(g).wf(),
{
    if !g.is_busy() && g.undo_possible() {
        let us = g.undo_stack;
        let t = us.last() as int;
        let h = g.history;
        let d = g.board.depots;
        let r = spec_undo(g);
        assert(g.board.landed() == d);
        assert(us[us.len() - 1] == us.last());
        lemma_unwind_valid(d, h, t);
        let ht = if h.len() > t {
            h.take(t)
        } else {
            h
        };
        assert(r.history == ht);
        assert(r.board.landed() == unwind(d, h, t));
        assert forall|i: int| 0 <= i < r.undo_stack.len() implies point_ok(
            unwind(r.board.landed(), r.history, #[trigger] r.undo_stack[i] as int),
        ) by {
            assert(r.undo_stack[i] == us[i]);
            assert(us[i] <= us[us.len() - 1]);
            lemma_unwind_twice(d, h, t, us[i] as int);
        }
        assert forall|i: int| 0 <= i < r.undo_stack.len() implies #[trigger] r.undo_stack[i]
            <= r.history.len() by {
            assert(r.undo_stack[i] == us[i]);
            assert(us[i] <= us[us.len() - 1]);
        }
        assert forall|i: int, j: int| 0 <= i <= j < r.undo_stack.len() implies r.undo_stack[i]
            <= r.undo_stack[j] by {
            assert(r.undo_stack[i] == us[i]);
            assert(r.undo_stack[j] == us[j]);
        }
        assert(point_ok(unwind(d, h, t)));
    }
}

/// Taking back moves keeps the history valid and the number of cards.
pub proof fn lemma_unwind_valid(depots: Seq<Seq<Card>>, history: Seq<ActionRecord>, t: int)
    requires
        history_valid(depots, history),
        0 <= t,
    ensures
        history_valid(
            unwind(depots, history, t),
            if history.len() > t {
                history.take(t)
            } else {
                history
            },
        ),
        total_cards(unwind(depots, history, t)) == total_cards(depots),
        cards_of(unwind(depots, history, t)) == cards_of(depots),
    decreases history.len(),
{
    if history.len() > t {
        let r = history.last();
        let rest = history.drop_last();
        lemma_total_apply_move(depots, r.pos2, r.pos1, r.rev);
        lemma_cards_apply_move(depots, r.pos2, r.pos1, r.rev);
        lemma_unwind_valid(take_back(depots, r), rest, t);
        if rest.len() > t {
            assert(rest.take(t) =~= history.take(t));
        } else {
            assert(rest =~= history.take(t));
        }
    }
}

/// Undo takes back a move the player made with a click together with every
/// move the game then made by itself: once the animations have run their
/// course and nothing is in flight, undo brings back the board, the history
/// and the undo points from before the click.
pub proof fn law_undo_after_click(g0: GameView, p: BoardPos, n: nat)
    requires
        g0.wf(),
        g0.allow_undo,
        g0.history.len() <= usize::MAX,
        spec_onclick(g0, p).history.len() > g0.history.len(),
        !settle(spec_onclick(g0, p), n).is_busy(),
    ensures
        spec_undo(settle(spec_onclick(g0, p), n)).board.depots == g0.board.depots,
        spec_undo(settle(spec_onclick(g0, p), n)).history == g0.history,
        spec_undo(settle(spec_onclick(g0, p), n)).undo_stack == g0.undo_stack,
{
    let g1 = spec_onclick(g0, p);
    let d = g0.board.depots;
    assert(!g0.is_busy());
    assert(g0.board.landed() == d);
    let src = g0.board.selected->Some_0;
    let dest = BoardPos { depot_index: p.depot_index, card_index: p.card_index.wrapping_add(1) };
    assert(g1 == record_move(with_undo_point(g0), src, dest, false));
    lemma_player_move(g0, src, dest, false);
    let us = g0.undo_stack.push(g0.history.len() as usize);
    assert(g1.history.take(g0.history.len() as int) =~= g0.history);
    assert(unwind(d, g0.history, g0.history.len() as int) == d);
    assert(undo_target_kept(g1, us, g0.history, d));
    lemma_settle(g1, n, us, g0.history, d);
    lemma_undo_gives_back(settle(g1, n), us, g0.history, d);
    assert(us.drop_last() =~= g0.undo_stack);
}

/// The same for the reverse-stacking shortcut: undo, once nothing is in
/// flight, brings back the board, the history and the undo points from
/// before the right click.
pub proof fn law_undo_after_contextmenu(g0: GameView, p: BoardPos, n: nat)
    requires
        g0.wf(),
        g0.allow_undo,
        g0.history.len() <= usize::MAX,
        spec_oncontextmenu(g0, p).history.len() > g0.history.len(),
        !settle(spec_oncontextmenu(g0, p), n).is_busy(),
    ensures
        spec_undo(settle(spec_oncontextmenu(g0, p), n)).board.depots == g0.board.depots,
        spec_undo(settle(spec_oncontextmenu(g0, p), n)).history == g0.history,
        spec_undo(settle(spec_oncontextmenu(g0, p), n)).undo_stack == g0.undo_stack,
{
    let g1 = spec_oncontextmenu(g0, p);
    let d = g0.board.depots;
    assert(!g0.is_busy());
    assert(g0.board.landed() == d);
    let src = g0.board.selected->Some_0;
    let dest = BoardPos { depot_index: p.depot_index, card_index: p.card_index.wrapping_add(1) };
    assert(g1 == record_move(with_undo_point(g0), src, dest, true));
    lemma_player_move(g0, src, dest, true);
    let us = g0.undo_stack.push(g0.history.len() as usize);
    assert(g1.history.take(g0.history.len() as int) =~= g0.history);
    assert(unwind(d, g0.history, g0.history.len() as int) == d);
    assert(undo_target_kept(g1, us, g0.history, d));
    lemma_settle(g1, n, us, g0.history, d);
    lemma_undo_gives_back(settle(g1, n), us, g0.history, d);
    assert(us.drop_last() =~= g0.undo_stack);
}

/// A defeated monster goes, with its two attack cards, to the graveyard:
/// once the cards have landed, the monster slot and its attack slots are
/// empty and the graveyard holds, on top of what it held, the monster and
/// then the two attack cards.
pub proof fn law_defeated_monster_to_graveyard(g: GameView, i: int)
    requires
        g.steady(),
        !g.is_busy(),
        !g.is_over(),
        first_defeat(g.board.depots, 0) == Some(i),
    ensures
        ({
            let d = g.board.depots;
            let after = spec_check_auto_moves(g).board.landed();
            let m = DepotRole::Monster.spec_first() + i;
            let a1 = DepotRole::Attack.spec_first() + 2 * i;
            let a2 = a1 + 1;
            &&& after[m].len() == 0
            &&& after[a1].len() == 0
            &&& after[a2].len() == 0
            &&& after[graveyard()] == d[graveyard()] + d[m] + d[a1] + d[a2]
        }),
{
    let d = g.board.depots;
    assert(g.board.landed() == d);
    lemma_total_bounds(d);
    lemma_first_defeat(d, 0);
    let gl = d[graveyard()].len() as int;
    let p1 = pos(DepotRole::Monster.spec_first() + i, 0);
    let q1 = pos(graveyard(), gl);
    let p2 = pos(DepotRole::Attack.spec_first() + 2 * i, 0);
    let q2 = pos(graveyard(), gl + 1);
    let p3 = pos(DepotRole::Attack.spec_first() + 2 * i + 1, 0);
    let q3 = pos(graveyard(), gl + 2);
    let m = d[4 + i][0];
    let a1 = d[7 + 2 * i][0];
    let a2 = d[8 + 2 * i][0];
    assert(only_kind(d[4 + i], true));
    assert(only_kind(d[7 + 2 * i], false));
    assert(only_kind(d[8 + 2 * i], false));
    assert(spec_is_monster(m) && !spec_is_monster(a1) && !spec_is_monster(a2));
    let d1 = apply_move(d, p1, q1, false);
    assert(d[4 + i].len() == 1);
    assert(d1[4 + i] =~= Seq::<Card>::empty());
    assert(d[4 + i].skip(0) =~= seq![m]);
    assert(d1[graveyard()] =~= d[graveyard()].push(m));
    assert(d1[graveyard()].drop_last() =~= d[graveyard()]);
    assert(level_ok(d1));
    lemma_record_move(g, p1, q1, false);
    let g1 = record_move(g, p1, q1, false);
    assert(d[4 + i].skip(0) =~= d[4 + i]);
    assert(d1[graveyard()] == d[graveyard()] + d[4 + i]);
    let d2 = apply_move(d1, p2, q2, false);
    assert(d1[7 + 2 * i] == d[7 + 2 * i]);
    assert(d2[7 + 2 * i] =~= Seq::<Card>::empty());
    assert(d[7 + 2 * i].skip(0) =~= seq![a1]);
    assert(d2[graveyard()] =~= d[graveyard()].push(m).push(a1));
    assert(d2[graveyard()].take(d2[graveyard()].len() - 2) =~= d[graveyard()]);
    assert(level_ok(d2));
    assert(g1.board.acts.len() == 1);
    assert(g1.board.depots[7 + 2 * i] == d[7 + 2 * i]);
    lemma_record_move(g1, p2, q2, false);
    let g2 = record_move(g1, p2, q2, false);
    assert(d[7 + 2 * i].skip(0) =~= d[7 + 2 * i]);
    assert(d2[graveyard()] == d[graveyard()] + d[4 + i] + d[7 + 2 * i]);
    let d3 = apply_move(d2, p3, q3, false);
    assert(d2[8 + 2 * i] == d[8 + 2 * i]);
    assert(d3[8 + 2 * i] =~= Seq::<Card>::empty());
    assert(d[8 + 2 * i].skip(0) =~= seq![a2]);
    assert(d3[graveyard()] =~= d[graveyard()].push(m).push(a1).push(a2));
    assert(d3[graveyard()].take(d3[graveyard()].len() - 3) =~= d[graveyard()]);
    assert(level_ok(d3));
    assert(g2.board.acts.len() == 2);
    assert(g2.board.depots[8 + 2 * i] == d[8 + 2 * i]);
    lemma_record_move(g2, p3, q3, false);
    assert(d[8 + 2 * i].skip(0) =~= d[8 + 2 * i]);
    assert(d3[graveyard()] =~= d[graveyard()] + d[4 + i] + d[7 + 2 * i] + d[8 + 2 * i]);
    assert(d3[4 + i] == d1[4 + i]);
}

/// An exposed monster jumps into the first open monster slot; when no slot
/// is open it goes to the death pile, and the game is lost.
pub proof fn law_exposed_monster(g: GameView, t: int)
    requires
        g.steady(),
        !g.is_busy(),
        !g.is_over(),
        first_defeat(g.board.depots, 0) is None,
        first_exposed(g.board.depots, 0) == Some(t),
    ensures
        ({
            let d = g.board.depots;
            let after = spec_check_auto_moves(g).board.landed();
            let dest = monster_dest(d);
            &&& after[t] == d[t].drop_last()
            &&& after[dest] == d[dest].push(d[t].last())
            &&& (dest == death()) == (forall|k: int| 4 <= k < 7 ==> #[trigger] d[k].len() != 0)
            &&& dest == death() ==> spec_advance_animations(
                spec_check_auto_moves(g),
                g.animation_key,
            ).is_lost()
        }),
{
    let d = g.board.depots;
    assert(g.board.landed() == d);
    lemma_total_bounds(d);
    lemma_first_exposed(d, 0);
    lemma_monster_dest(d);
    let dest = monster_dest(d);
    let p = pos(t, d[t].len() - 1);
    let q = pos(dest, d[dest].len() as int);
    assert(d[t].skip(d[t].len() - 1) =~= seq![d[t].last()]);
    lemma_level_after_move(d, p, q, false);
    lemma_record_move(g, p, q, false);
    let a = spec_check_auto_moves(g);
    let after = apply_move(d, p, q, false);
    assert(after[t] =~= d[t].drop_last());
    assert(d[t].skip(d[t].len() - 1) =~= seq![d[t].last()]);
    assert(after[dest] =~= d[dest].push(d[t].last()));
    lemma_first_empty_monster_all(d, 4);
    if dest == death() {
        let g1 = GameView {
            animation_key: a.animation_key.wrapping_add(1),
            board: spec_advance(a.board),
            ..a
        };
        assert(g1.board.depots == after);
        assert(g1.is_lost());
        assert(a.animation_key == g.animation_key);
        assert(spec_advance_animations(a, g.animation_key).board == g1.board);
        assert(spec_advance_animations(a, g.animation_key).is_lost());
    }
    lemma_first_empty_monster(d, 4);
    assert(first_empty_monster(d, 4) is None <==> dest == death());
}

proof fn lemma_first_empty_monster_all(depots: Seq<Seq<Card>>, d: int)
    requires
        4 <= d <= 7,
    ensures
        first_empty_monster(depots, d) is None <==> (forall|k: int|
            d <= k < 7 ==> #[trigger] depots[k].len() != 0),
    decreases 7 - d,
{
    if d < 7 {
        lemma_first_empty_monster_all(depots, d + 1);
    }
}

/// The depots after moving the top card of depot `d1` onto depot `d2`,
/// `k` times over.
pub open spec fn one_by_one(depots: Seq<Seq<Card>>, d1: int, d2: int, k: nat) -> Seq<Seq<Card>>
    decreases k,
{
    if k == 0 {
        depots
    } else {
        let top = pos(d1, depots[d1].len() - 1);
        let onto = pos(d2, depots[d2].len() as int);
        one_by_one(apply_move(depots, top, onto, false), d1, d2, (k - 1) as nat)
    }
}

/// The reverse-stacking shortcut is a shortcut for moving the cards one by
/// one: putting the cards of depot `pos1` from `pos1`'s card up onto depot
/// `pos2` in reverse order leaves the depots as moving its top card there,
/// as many times as there are such cards, does.
pub proof fn law_reverse_move_is_one_by_one(depots: Seq<Seq<Card>>, pos1: BoardPos, pos2: BoardPos)
    requires
        pos1.depot_index != pos2.depot_index,
        pos1.depot_index < depots.len(),
        pos2.depot_index < depots.len(),
        pos1.card_index <= depots[pos1.depot_index as int].len(),
        depots[pos1.depot_index as int].len() <= usize::MAX,
        depots[pos2.depot_index as int].len() + depots[pos1.depot_index as int].len() <= usize::MAX,
    ensures
        apply_move(depots, pos1, pos2, true) == one_by_one(
            depots,
            pos1.depot_index as int,
            pos2.depot_index as int,
            (depots[pos1.depot_index as int].len() - pos1.card_index) as nat,
        ),
    decreases depots[pos1.depot_index as int].len() - pos1.card_index,
{
    let d1 = pos1.depot_index as int;
    let d2 = pos2.depot_index as int;
    let c = pos1.card_index as int;
    let n = depots[d1].len();
    if n == c {
        assert(depots[d1].take(c) =~= depots[d1]);
        assert(depots[d1].skip(c).reverse() =~= Seq::<Card>::empty());
        assert(apply_move(depots, pos1, pos2, true) =~= depots);
    } else {
        let top = pos(d1, n - 1);
        let onto = pos(d2, depots[d2].len() as int);
        let stepped = apply_move(depots, top, onto, false);
        assert(stepped[d1] =~= depots[d1].take(n - 1));
        assert(stepped[d2] =~= depots[d2].push(depots[d1][n - 1]));
        law_reverse_move_is_one_by_one(stepped, pos1, pos2);
        let rest = depots[d1].skip(c);
        assert(rest.reverse() =~= seq![depots[d1][n - 1]] + stepped[d1].skip(c).reverse());
        assert(stepped[d1].take(c) =~= depots[d1].take(c));
        assert(stepped[d2] + stepped[d1].skip(c).reverse() =~= depots[d2] + rest.reverse());
        let a = apply_move(stepped, pos1, pos2, true);
        let b = apply_move(depots, pos1, pos2, true);
        assert(a[d1] == b[d1]);
        assert(a[d2] == b[d2]);
        assert(a =~= b);
    }
}

/// A stack that may be picked up from a tableau column, whatever its size,
/// may be moved as a unit onto an empty tableau column.
pub proof fn law_stack_moves_as_a_unit(depots: Seq<Seq<Card>>, p: BoardPos, t: int)
    requires
        depots.len() == NUM_DEPOTS,
        p.depot_index < 4,
        spec_can_select(depots, p),
        0 <= t < 4,
        t != p.depot_index,
        depots[t].len() == 0,
    ensures
        spec_can_move(depots, p, pos(t, 0)),
{
}

/// The player's clicks never put cards on, or take cards from, the
/// graveyard or the death pile: those fill only through the moves the game
/// makes by itself.
pub proof fn law_clicks_leave_graveyard_and_death(g: GameView, p: BoardPos)
    requires
        g.wf(),
    ensures
        spec_onclick(g, p).board.landed()[graveyard()] == g.board.landed()[graveyard()],
        spec_onclick(g, p).board.landed()[death()] == g.board.landed()[death()],
        spec_oncontextmenu(g, p).board.landed()[graveyard()] == g.board.landed()[graveyard()],
        spec_oncontextmenu(g, p).board.landed()[death()] == g.board.landed()[death()],
{
    let d = g.board.depots;
    if !g.is_busy() && !g.is_over() {
        assert(g.board.landed() == d);
        if let Some(src) = g.board.selected {
            let dest = BoardPos {
                depot_index: p.depot_index,
                card_index: p.card_index.wrapping_add(1),
            };
            if spec_onclick(g, p).history.len() > g.history.len() {
                assert(spec_onclick(g, p) == record_move(with_undo_point(g), src, dest, false));
                lemma_landed_do_move(g.board, src, dest, false);
            }
            if spec_oncontextmenu(g, p).history.len() > g.history.len() {
                assert(spec_oncontextmenu(g, p) == record_move(with_undo_point(g), src, dest, true));
                lemma_landed_do_move(g.board, src, dest, true);
            }
        }
    }
}

/// A graveyard of triples holds three cards for each monster in it.
pub proof fn lemma_grave_count(g: Seq<Card>)
    requires
        grave_ok(g),
    ensures
        g.len() == 3 * monster_count(g),
    decreases g.len(),
{
    if g.len() > 0 {
        let n = g.len() as int;
        let rest = g.take(n - 3);
        lemma_grave_count(rest);
        assert(g.drop_last() =~= g.take(n - 1));
        assert(g.take(n - 1).drop_last() =~= g.take(n - 2));
        assert(g.take(n - 2).drop_last() =~= rest);
        assert(monster_count(g.take(n - 2)) == monster_count(rest) + 1);
        assert(monster_count(g.take(n - 1)) == monster_count(rest) + 1);
        assert(monster_count(g) == monster_count(rest) + 1);
    }
}

/// To win the game, defeat all the monsters: in every state the game can
/// reach, once the cards in flight have landed, the graveyard is made of
/// triples, each a defeated monster followed by two attack cards, so it
/// holds [`GRAVEYARD_TARGET`] cards exactly when it holds all
/// [`NUM_MONSTERS`] monsters of the deck, and then no monster is left
/// anywhere else on the board.
pub proof fn law_won_when_all_monsters_defeated(g: GameView)
    requires
        g.wf(),
    ensures
        grave_ok(g.board.landed()[graveyard()]),
        (g.board.landed()[graveyard()].len() == GRAVEYARD_TARGET) == (monster_count(
            g.board.landed()[graveyard()],
        ) == NUM_MONSTERS),
        monster_total(g.board.landed()) == NUM_MONSTERS,
        g.board.landed()[graveyard()].len() == GRAVEYARD_TARGET ==> forall|i: int|
            0 <= i < NUM_DEPOTS && i != graveyard() ==> #[trigger] monster_count(g.board.landed()[i])
                == 0,
        !g.is_busy() ==> (g.is_won() == (monster_count(g.board.depots[graveyard()]) == NUM_MONSTERS)),
{
    let l = g.board.landed();
    lemma_grave_count(l[graveyard()]);
    lemma_monster_total(l);
    lemma_monster_count_ms(full_deck());
    lemma_deck_monsters();
    lemma_monster_total_update(l, graveyard());
    let rest = l.update(graveyard(), Seq::empty());
    lemma_monster_total_update(rest, graveyard());
    assert forall|i: int| 0 <= i < NUM_DEPOTS && i != graveyard() implies #[trigger] monster_count(
        l[i],
    ) <= monster_total(rest) by {
        assert(rest[i] == l[i]);
    }
}

/// Counting monsters is additive over multisets.
pub proof fn lemma_monsters_in_add(a: Multiset<Card>, b: Multiset<Card>)
    ensures
        monsters_in(a.add(b)) == monsters_in(a) + monsters_in(b),
{
    broadcast use vstd::multiset::group_multiset_axioms;

    let f = |c: Card| spec_is_monster(c);
    assert(a.add(b).filter(f) =~= a.filter(f).add(b.filter(f)));
}

/// A single card counts as one monster when it is one.
pub proof fn lemma_monsters_in_singleton(x: Card)
    ensures
        monsters_in(Multiset::singleton(x)) == if spec_is_monster(x) {
            1nat
        } else {
            0nat
        },
{
    broadcast use vstd::multiset::group_multiset_axioms;

    let f = |c: Card| spec_is_monster(c);
    if spec_is_monster(x) {
        assert(Multiset::singleton(x).filter(f) =~= Multiset::singleton(x));
    } else {
        assert(Multiset::singleton(x).filter(f) =~= Multiset::empty());
    }
}

/// Counting the monsters of a sequence is counting those of its multiset.
pub proof fn lemma_monster_count_ms(s: Seq<Card>)
    ensures
        monster_count(s) == monsters_in(s.to_multiset()),
    decreases s.len(),
{
    broadcast use {
        vstd::multiset::group_multiset_axioms,
        vstd::multiset::group_multiset_properties,
        vstd::seq_lib::group_to_multiset_ensures,
    };

    let f = |c: Card| spec_is_monster(c);
    if s.len() == 0 {
        assert(s.to_multiset().len() == 0);
        assert(s.to_multiset() =~= Multiset::empty());
        assert(Multiset::<Card>::empty().filter(f) =~= Multiset::empty());
    } else {
        let rest = s.drop_last();
        lemma_monster_count_ms(rest);
        assert(s =~= rest.push(s.last()));
        assert(s.to_multiset() =~= rest.to_multiset().insert(s.last()));
        lemma_monsters_in_add(rest.to_multiset(), Multiset::singleton(s.last()));
        lemma_monsters_in_singleton(s.last());
    }
}

/// Counting the monsters of all depots is counting those of their cards.
pub proof fn lemma_monster_total(depots: Seq<Seq<Card>>)
    ensures
        monster_total(depots) == monsters_in(cards_of(depots)),
    decreases depots.len(),
{
    broadcast use vstd::multiset::group_multiset_axioms;

    let f = |c: Card| spec_is_monster(c);
    if depots.len() == 0 {
        assert(Multiset::<Card>::empty().filter(f) =~= Multiset::empty());
    } else {
        lemma_monster_total(depots.drop_last());
        lemma_monster_count_ms(depots.last());
        lemma_monsters_in_add(cards_of(depots.drop_last()), depots.last().to_multiset());
    }
}

/// Emptying one depot takes its monsters out of the total.
pub proof fn lemma_monster_total_update(depots: Seq<Seq<Card>>, j: int)
    requires
        0 <= j < depots.len(),
    ensures
        monster_total(depots) == monster_total(depots.update(j, Seq::empty())) + monster_count(
            depots[j],
        ),
        forall|i: int|
            0 <= i < depots.len() ==> #[trigger] monster_count(depots[i]) <= monster_total(depots),
    decreases depots.len(),
{
    let u = depots.update(j, Seq::empty());
    let rest = depots.drop_last();
    assert(monster_count(Seq::<Card>::empty()) == 0);
    if j < depots.len() - 1 {
        assert(u.drop_last() =~= rest.update(j, Seq::empty()));
        lemma_monster_total_update(rest, j);
    } else {
        assert(u.drop_last() =~= rest);
    }
    assert forall|i: int| 0 <= i < depots.len() implies #[trigger] monster_count(depots[i])
        <= monster_total(depots) by {
        lemma_monster_total_bound(depots, i);
    }
}

proof fn lemma_monster_total_bound(depots: Seq<Seq<Card>>, i: int)
    requires
        0 <= i < depots.len(),
    ensures
        monster_count(depots[i]) <= monster_total(depots),
    decreases depots.len(),
{
    if i < depots.len() - 1 {
        lemma_monster_total_bound(depots.drop_last(), i);
        assert(depots.drop_last()[i] == depots[i]);
    }
}

/// The deck holds [`NUM_MONSTERS`] monsters: its cards of rank ten and up.
pub proof fn lemma_deck_monsters()
    ensures
        monster_count(full_deck()) == NUM_MONSTERS,
{
    lemma_deck_prefix_monsters(DECK_SIZE as int);
    assert(full_deck().take(DECK_SIZE as int) =~= full_deck());
}

proof fn lemma_deck_prefix_monsters(k: int)
    requires
        0 <= k <= DECK_SIZE,
    ensures
        monster_count(full_deck().take(k)) == if k <= 36 {
            0
        } else {
            k - 36
        },
    decreases k,
{
    if k > 0 {
        lemma_deck_prefix_monsters(k - 1);
        assert(full_deck().take(k).drop_last() =~= full_deck().take(k - 1));
        assert(full_deck().take(k).last() == full_deck()[k - 1]);
        assert(full_deck()[k - 1].rank == (k - 1) / 4 + 1);
    }
}

/// The number of cards of rank `r` in `s`.
pub open spec fn rank_count(s: Seq<Card>, r: int) -> nat
    decreases s.len(),
{
    if s.len() == 0 {
        0
    } else {
        rank_count(s.drop_last(), r) + if s.last().rank == r {
            1nat
        } else {
            0nat
        }
    }
}

/// The number of cards of rank `r` among the cards of `ms`.
pub open spec fn ranks_in(ms: Multiset<Card>, r: int) -> nat {
    ms.filter(|c: Card| c.rank == r).len()
}

/// Every card of `s` has a rank from ace to king.
pub open spec fn ranks_valid(s: Seq<Card>) -> bool {
    forall|i: int| 0 <= i < s.len() ==> 1 <= #[trigger] s[i].rank <= RANK_MAX
}

/// The number of cards of `s` counted rank by rank, from ace to king.
pub open spec fn ranked_cards(s: Seq<Card>) -> nat {
    rank_count(s, 1) + rank_count(s, 2) + rank_count(s, 3) + rank_count(s, 4) + rank_count(s, 5)
        + rank_count(s, 6) + rank_count(s, 7) + rank_count(s, 8) + rank_count(s, 9)
        + rank_count(s, 10) + rank_count(s, 11) + rank_count(s, 12) + rank_count(s, 13)
}

/// The number of monsters of `s` counted rank by rank, from ten to king.
pub open spec fn ranked_monsters(s: Seq<Card>) -> nat {
    rank_count(s, 10) + rank_count(s, 11) + rank_count(s, 12) + rank_count(s, 13)
}

/// The ranks of the monsters of `s` added up, rank by rank from ten to king.
pub open spec fn monster_ranks(s: Seq<Card>) -> nat {
    10 * rank_count(s, 10) + 11 * rank_count(s, 11) + 12 * rank_count(s, 12)
        + 13 * rank_count(s, 13)
}

/// The ranks of the cards of `s` that are not monsters added up, rank by
/// rank from ace to nine.
pub open spec fn attack_ranks(s: Seq<Card>) -> nat {
    rank_count(s, 1) + 2 * rank_count(s, 2) + 3 * rank_count(s, 3) + 4 * rank_count(s, 4)
        + 5 * rank_count(s, 5) + 6 * rank_count(s, 6) + 7 * rank_count(s, 7)
        + 8 * rank_count(s, 8) + 9 * rank_count(s, 9)
}

proof fn lemma_rank_count_push(s: Seq<Card>, c: Card)
    ensures
        forall|r: int|
            #[trigger] rank_count(s.push(c), r) == rank_count(s, r) + if c.rank == r {
                1int
            } else {
                0int
            },
        monster_count(s.push(c)) == monster_count(s) + if spec_is_monster(c) {
            1int
        } else {
            0int
        },
{
    assert(s.push(c).drop_last() =~= s);
}

/// What one more card of a valid rank adds to the counts and sums by rank.
proof fn lemma_ranks_push(s: Seq<Card>, c: Card)
    requires
        1 <= c.rank <= RANK_MAX,
    ensures
        ranked_cards(s.push(c)) == ranked_cards(s) + 1,
        ranked_monsters(s.push(c)) == ranked_monsters(s) + if spec_is_monster(c) {
            1int
        } else {
            0int
        },
        monster_ranks(s.push(c)) == monster_ranks(s) + if spec_is_monster(c) {
            c.rank as int
        } else {
            0
        },
        attack_ranks(s.push(c)) == attack_ranks(s) + if spec_is_monster(c) {
            0
        } else {
            c.rank as int
        },
        rank_count(s.push(c), 1) == rank_count(s, 1) + if c.rank == 1 {
            1int
        } else {
            0int
        },
{
    lemma_rank_count_push(s, c);
}

/// Counting the cards of valid ranks rank by rank counts them all, and
/// counting those from ten to king counts the monsters.
proof fn lemma_rank_totals(s: Seq<Card>)
    requires
        ranks_valid(s),
    ensures
        ranked_cards(s) == s.len(),
        ranked_monsters(s) == monster_count(s),
    decreases s.len(),
{
    if s.len() > 0 {
        let p = s.drop_last();
        assert forall|i: int| 0 <= i < p.len() implies 1 <= #[trigger] p[i].rank <= RANK_MAX by {
            assert(p[i] == s[i]);
        }
        lemma_rank_totals(p);
        assert(s =~= p.push(s.last()));
        lemma_ranks_push(p, s.last());
        lemma_rank_count_push(p, s.last());
    }
}

/// In graveyard triples, the ranks of the monsters add up to those of the
/// attack cards, plus six for each ace worth seven; and those aces are
/// among the graveyard's aces.
proof fn lemma_grave_ranks(g: Seq<Card>)
    requires
        grave_ok(g),
        ranks_valid(g),
    ensures
        monster_ranks(g) == attack_ranks(g) + 6 * ace_uses(g),
        ace_uses(g) <= rank_count(g, 1),
    decreases g.len(),
{
    if g.len() > 0 {
        let n = g.len() as int;
        let rest = g.take(n - 3);
        let m = g[n - 3];
        let a1 = g[n - 2];
        let a2 = g[n - 1];
        assert forall|i: int| 0 <= i < rest.len() implies 1 <= #[trigger] rest[i].rank <= RANK_MAX by {
            assert(rest[i] == g[i]);
        }
        lemma_grave_ranks(rest);
        let s1 = rest.push(m);
        let s2 = s1.push(a1);
        assert(g =~= s2.push(a2));
        lemma_ranks_push(rest, m);
        lemma_ranks_push(s1, a1);
        lemma_ranks_push(s2, a2);
    }
}

/// Counting the cards of a rank is additive over multisets.
proof fn lemma_ranks_in_add(a: Multiset<Card>, b: Multiset<Card>, r: int)
    ensures
        ranks_in(a.add(b), r) == ranks_in(a, r) + ranks_in(b, r),
{
    broadcast use vstd::multiset::group_multiset_axioms;

    let f = |c: Card| c.rank == r;
    assert(a.add(b).filter(f) =~= a.filter(f).add(b.filter(f)));
}

/// Counting the cards of a rank in a sequence is counting them in its
/// multiset.
proof fn lemma_rank_count_ms(s: Seq<Card>, r: int)
    ensures
        rank_count(s, r) == ranks_in(s.to_multiset(), r),
    decreases s.len(),
{
    broadcast use {
        vstd::multiset::group_multiset_axioms,
        vstd::multiset::group_multiset_properties,
        vstd::seq_lib::group_to_multiset_ensures,
    };

    let f = |c: Card| c.rank == r;
    if s.len() == 0 {
        assert(s.to_multiset().len() == 0);
        assert(s.to_multiset() =~= Multiset::empty());
        assert(Multiset::<Card>::empty().filter(f) =~= Multiset::empty());
    } else {
        let rest = s.drop_last();
        let x = s.last();
        lemma_rank_count_ms(rest, r);
        assert(s =~= rest.push(x));
        assert(s.to_multiset() =~= rest.to_multiset().insert(x));
        lemma_ranks_in_add(rest.to_multiset(), Multiset::singleton(x), r);
        if x.rank == r {
            assert(Multiset::singleton(x).filter(f) =~= Multiset::singleton(x));
        } else {
            assert(Multiset::singleton(x).filter(f) =~= Multiset::empty());
        }
    }
}

proof fn lemma_deck_prefix_ranks(k: int, r: int)
    requires
        0 <= k <= DECK_SIZE,
    ensures
        rank_count(full_deck().take(k), r) == if r < 1 || r > 13 || k <= 4 * (r - 1) {
            0
        } else if k >= 4 * r {
            4
        } else {
            k - 4 * (r - 1)
        },
    decreases k,
{
    if k > 0 {
        lemma_deck_prefix_ranks(k - 1, r);
        assert(full_deck().take(k).drop_last() =~= full_deck().take(k - 1));
        assert(full_deck().take(k).last() == full_deck()[k - 1]);
        assert(full_deck()[k - 1].rank == (k - 1) / 4 + 1);
    }
}

/// You must use the aces' special ability at least twice in a winning
/// game: in every state the game can reach, once the graveyard holds all
/// [`GRAVEYARD_TARGET`] cards (with the cards in flight landed), at least
/// two of its attack cards are aces of their monster's suit that counted
/// as seven.
pub proof fn law_aces_needed_to_win(g: GameView)
    requires
        g.wf(),
        g.board.landed()[graveyard()].len() == GRAVEYARD_TARGET,
    ensures
        ace_uses(g.board.landed()[graveyard()]) >= 2,
{
    broadcast use {
        vstd::multiset::group_multiset_axioms,
        vstd::seq_lib::group_to_multiset_ensures,
    };

    let l = g.board.landed();
    let gy = graveyard();
    let gr = l[gy];
    let deck = full_deck();
    lemma_cards_update(l, gy, Seq::empty());
    let rest = cards_of(l.update(gy, Seq::<Card>::empty()));
    assert(Seq::<Card>::empty().to_multiset() =~= Multiset::empty());
    assert(rest.add(gr.to_multiset()) =~= deck.to_multiset());
    assert forall|i: int| 0 <= i < gr.len() implies 1 <= #[trigger] gr[i].rank <= RANK_MAX by {
        assert(gr.contains(gr[i]));
        assert(rest.add(gr.to_multiset()).count(gr[i]) > 0);
        assert(deck.contains(gr[i]));
        let j = choose|j: int| 0 <= j < deck.len() && deck[j] == gr[i];
        assert(deck[j].rank == j / 4 + 1);
    }
    assert forall|r: int| 1 <= r <= 13 implies #[trigger] rank_count(gr, r) <= 4 by {
        lemma_rank_count_ms(gr, r);
        lemma_rank_count_ms(deck, r);
        lemma_ranks_in_add(rest, gr.to_multiset(), r);
        lemma_deck_prefix_ranks(DECK_SIZE as int, r);
        assert(deck.take(DECK_SIZE as int) =~= deck);
    }
    lemma_rank_totals(gr);
    lemma_grave_count(gr);
    lemma_grave_ranks(gr);
}

/// `s` with the items at `i` and `j` swapped.
pub open spec fn swapped(s: Seq<Card>, i: int, j: int) -> Seq<Card> {
    s.update(i, s[j]).update(j, s[i])
}

/// Swapping two items keeps the length and the multiset.
proof fn lemma_swap_multiset(s: Seq<Card>, i: int, j: int)
    requires
        0 <= i < s.len(),
        0 <= j < s.len(),
        i != j,
    ensures
        swapped(s, i, j).len() == s.len(),
        swapped(s, i, j).to_multiset() == s.to_multiset(),
{
    broadcast use {
        vstd::multiset::group_multiset_axioms,
        vstd::seq_lib::group_to_multiset_ensures,
    };

    let s1 = s.update(i, s[j]);
    vstd::seq_lib::to_multiset_update(s, i, s[j]);
    vstd::seq_lib::to_multiset_update(s1, j, s[i]);
    assert(s1[j] == s[j]);
    assert(s.contains(s[i]));
    assert(s.contains(s[j]));
    let ms = s.to_multiset();
    assert(ms.count(s[i]) > 0);
    assert(ms.count(s[j]) > 0);
    assert(swapped(s, i, j).to_multiset() =~= ms);
}

/// The fixed deal is a rearrangement of the full deck, and the game does
/// not refuse it.
pub proof fn lemma_fixed_deck()
    ensures
        fixed_deck().len() == DECK_SIZE,
        fixed_deck().to_multiset() == full_deck().to_multiset(),
        !spec_is_misdeal(dealt_depots(fixed_deck())),
{
    let f = fixed_deck();
    // The fixed deal is the full deck with eleven pairs of cards swapped.
    let s0 = full_deck();
    let s1 = swapped(s0, 4, 36);
    lemma_swap_multiset(s0, 4, 36);
    let s2 = swapped(s1, 5, 37);
    lemma_swap_multiset(s1, 5, 37);
    let s3 = swapped(s2, 6, 38);
    lemma_swap_multiset(s2, 6, 38);
    let s4 = swapped(s3, 7, 39);
    lemma_swap_multiset(s3, 7, 39);
    let s5 = swapped(s4, 12, 44);
    lemma_swap_multiset(s4, 12, 44);
    let s6 = swapped(s5, 13, 45);
    lemma_swap_multiset(s5, 13, 45);
    let s7 = swapped(s6, 14, 46);
    lemma_swap_multiset(s6, 14, 46);
    let s8 = swapped(s7, 15, 47);
    lemma_swap_multiset(s7, 15, 47);
    let s9 = swapped(s8, 21, 49);
    lemma_swap_multiset(s8, 21, 49);
    let s10 = swapped(s9, 22, 50);
    lemma_swap_multiset(s9, 22, 50);
    let s11 = swapped(s10, 23, 51);
    lemma_swap_multiset(s10, 23, 51);
    assert forall|i: int| 0 <= i < 52 implies #[trigger] f[i] == s11[i] by {
        assert(s0[i].rank == i / 4 + 1);
    }
    assert(f =~= s11);
    // Its columns: monsters only at places 1, 3 and 10, and at place 5 in
    // every column but the first, whose top card is its only monster on top.
    let d = dealt_depots(f);
    assert forall|t: int, k: int|
        0 <= t < 4 && 0 <= k < 13 implies #[trigger] d[t][k] == f[4 * k + t] && spec_is_monster(
        d[t][k],
    ) == (k == 1 || k == 3 || k == 10 || (k == 5 && t != 0) || (k == 12 && t == 0)) by {
        assert((4 * k + t) / 4 == k);
        assert((4 * k + t) % 4 == t);
    }
    assert forall|t: int| 0 <= t < 4 implies #[trigger] d[t].len() == 13 by {}
    assert forall|t: int| 0 <= t < 4 implies !#[trigger] has_clump(d[t]) by {
        assert forall|i: int| !#[trigger] clump_at(d[t], i) by {
            if 0 <= i && i + 4 <= 13 {
                if i % 2 == 0 && i <= 8 {
                    assert(!spec_is_monster(d[t][i]));
                } else if i <= 7 {
                    assert(!spec_is_monster(d[t][i + 1]));
                } else {
                    assert(!spec_is_monster(d[t][9]));
                }
            }
        }
    }
    assert forall|t: int| 1 <= t < 4 implies #[trigger] trailing_monsters(d[t]) == 0 by {
        assert(!spec_is_monster(d[t][12]));
        assert(d[t].last() == d[t][12]);
    }
    let c0 = d[0];
    assert(c0.last() == c0[12]);
    assert(c0.drop_last().last() == c0[11]);
    assert(!spec_is_monster(c0[11]));
    assert(trailing_monsters(c0.drop_last()) == 0);
    assert(trailing_monsters(c0) == 1);
    assert(front_monsters(d) == 1);
}

/// A fresh deal that the game does not refuse opens with exactly one move
/// that the game makes by itself: the monster on top of the first tableau
/// column that has one jumps into the first monster slot.
pub proof fn law_fresh_deal_opens_with_one_move(g: GameView, deal: Seq<Card>)
    requires
        !spec_is_misdeal(dealt_depots(deal)),
    ensures
        ({
            let d = dealt_depots(deal);
            let a = spec_check_auto_moves(dealt_state(g, deal));
            &&& first_exposed(d, 0) is Some
            &&& a.history == seq![
                ActionRecord {
                    pos1: pos(first_exposed(d, 0)->Some_0, d[first_exposed(d, 0)->Some_0].len() - 1),
                    pos2: pos(DepotRole::Monster.spec_first() as int, 0),
                    rev: false,
                },
            ]
            &&& a.undo_stack.len() == 0
        }),
{
    let d = dealt_depots(deal);
    let g0 = dealt_state(g, deal);
    assert(d[graveyard()].len() == 0);
    assert(d[death()].len() == 0);
    assert(!g0.is_busy() && !g0.is_over());
    assert(d[4].len() == 0 && d[5].len() == 0 && d[6].len() == 0);
    assert(first_defeat(d, 3) is None);
    assert(first_defeat(d, 2) is None);
    assert(first_defeat(d, 1) is None);
    assert(first_defeat(d, 0) is None);
    if first_exposed(d, 0) is None {
        lemma_first_exposed_none(d, 0);
        assert forall|t: int| 0 <= t < 4 implies #[trigger] trailing_monsters(d[t]) == 0 by {
            assert(!exposed(d, t));
        }
        assert(front_monsters(d) == 0);
    }
    lemma_first_exposed(d, 0);
    assert(first_empty_monster(d, 4) == Some(4int));
    assert(monster_dest(d) == 4);
    let t = first_exposed(d, 0)->Some_0;
    assert(spec_check_auto_moves(g0).history =~= seq![
        ActionRecord { pos1: pos(t, d[t].len() - 1), pos2: pos(4, 0), rev: false },
    ]);
}

/// Every move on the way of [`one_by_one`] is allowed by the rules.
pub open spec fn one_by_one_allowed(depots: Seq<Seq<Card>>, d1: int, d2: int, k: nat) -> bool
    decreases k,
{
    if k == 0 {
        true
    } else {
        let top = pos(d1, depots[d1].len() - 1);
        let onto = pos(d2, depots[d2].len() as int);
        &&& spec_can_move(depots, top, onto)
        &&& one_by_one_allowed(apply_move(depots, top, onto, false), d1, d2, (k - 1) as nat)
    }
}

/// Moving a stack from the top down onto a tableau column, one card at a
/// time, is allowed at every step when the column takes the stack's top
/// card and that card, if it is not alone, is no monster.
proof fn lemma_stack_steps(depots: Seq<Seq<Card>>, d1: int, d2: int, c: int)
    requires
        depots.len() == NUM_DEPOTS,
        0 <= d1 < NUM_DEPOTS,
        0 <= d2 < 4,
        d1 != d2,
        0 <= c < depots[d1].len(),
        depots[d2].len() + depots[d1].len() <= usize::MAX,
        forall|i: int| c <= i < depots[d1].len() - 1 ==> #[trigger] spec_can_stack(depots[d1][i], depots[d1][i + 1]),
        depots[d1].len() - c >= 2 ==> !spec_is_monster(depots[d1].last()),
        depots[d2].len() == 0 || spec_can_stack(depots[d2].last(), depots[d1].last()),
    ensures
        one_by_one_allowed(depots, d1, d2, (depots[d1].len() - c) as nat),
    decreases depots[d1].len() - c,
{
    let n = depots[d1].len() as int;
    let top = pos(d1, n - 1);
    let onto = pos(d2, depots[d2].len() as int);
    assert(spec_can_move(depots, top, onto));
    if n - c >= 2 {
        let next = apply_move(depots, top, onto, false);
        assert(depots[d1].skip(n - 1) =~= seq![depots[d1][n - 1]]);
        assert(next[d1] =~= depots[d1].take(n - 1));
        assert(next[d2] =~= depots[d2].push(depots[d1][n - 1]));
        let i = n - 2;
        assert(spec_can_stack(depots[d1][i], depots[d1][i + 1]));
        assert forall|i: int| c <= i < next[d1].len() - 1 implies #[trigger] spec_can_stack(
            next[d1][i],
            next[d1][i + 1],
        ) by {
            assert(spec_can_stack(depots[d1][i], depots[d1][i + 1]));
        }
        lemma_stack_steps(next, d1, d2, c);
        assert(next[d1].len() - c == n - c - 1);
    } else {
        assert(one_by_one_allowed(apply_move(depots, top, onto, false), d1, d2, 0));
    }
}

/// The reverse-stacking shortcut only shortcuts moves that the rules
/// allow: when the player may act and the selected cards may go in reverse
/// order onto tableau column `pos2`, moving them there one at a time, top
/// card first, is allowed at every step (and ends as the shortcut does, by
/// [`law_reverse_move_is_one_by_one`]).
pub proof fn law_reverse_move_steps_are_allowed(g: GameView, pos2: BoardPos)
    requires
        g.wf(),
        !g.is_busy(),
        !g.is_over(),
        g.board.selected is Some,
        spec_can_rev_move(g.board.depots, g.board.selected->Some_0, pos2),
    ensures
        ({
            let d = g.board.depots;
            let src = g.board.selected->Some_0;
            one_by_one_allowed(
                d,
                src.depot_index as int,
                pos2.depot_index as int,
                (d[src.depot_index as int].len() - src.card_index) as nat,
            )
        }),
{
    let d = g.board.depots;
    let src = g.board.selected->Some_0;
    let d1 = src.depot_index as int;
    let d2 = pos2.depot_index as int;
    assert(g.board.landed() == d);
    lemma_total_bounds(d);
    lemma_first_exposed_none(d, 0);
    assert(spec_can_select(d, src));
    if DepotRole::spec_role(src.depot_index) == Some(DepotRole::Tableau) {
        assert(!exposed(d, d1));
    }
    lemma_stack_steps(d, d1, d2, src.card_index as int);
}

/// What the player can do to a game between dealing and restarting.
pub enum Action {
    Click(BoardPos),
    ContextMenu(BoardPos),
    Advance(AnimationKey),
    Undo,
}

/// The state after the actions `acts`, in order, starting from `g`.
pub open spec fn after_actions(g: GameView, acts: Seq<Action>) -> GameView
    decreases acts.len(),
{
    if acts.len() == 0 {
        g
    } else {
        let h = after_actions(g, acts.drop_last());
        match acts.last() {
            Action::Click(p) => spec_onclick(h, p),
            Action::ContextMenu(p) => spec_oncontextmenu(h, p),
            Action::Advance(k) => spec_advance_animations(h, k),
            Action::Undo => spec_undo(h),
        }
    }
}

/// The moves the game makes by itself read and change only the board, the
/// history and the undo points, and keep the deal.
proof fn lemma_auto_moves_local(x1: GameView, x2: GameView)
    requires
        x1.board == x2.board,
        x1.history == x2.history,
        x1.undo_stack == x2.undo_stack,
    ensures
        spec_check_auto_moves(x1).board == spec_check_auto_moves(x2).board,
        spec_check_auto_moves(x1).history == spec_check_auto_moves(x2).history,
        spec_check_auto_moves(x1).undo_stack == spec_check_auto_moves(x2).undo_stack,
        spec_check_auto_moves(x1).deal == x1.deal,
{
}

/// No action changes the deal.
proof fn lemma_actions_keep_deal(g: GameView, acts: Seq<Action>)
    ensures
        after_actions(g, acts).deal == g.deal,
    decreases acts.len(),
{
    if acts.len() > 0 {
        let h = after_actions(g, acts.drop_last());
        lemma_actions_keep_deal(g, acts.drop_last());
        match acts.last() {
            Action::Advance(k) => {
                let h1 = GameView {
                    animation_key: k.wrapping_add(1),
                    board: spec_advance(h.board),
                    ..h
                };
                lemma_auto_moves_local(h1, h1);
            },
            _ => {},
        }
    }
}

/// Restarting returns to the opening position of the same deal: after a
/// new game of `deal`, whatever the player then does by clicks, right
/// clicks, undos and finished animations, a restart that is allowed brings
/// back the board, the history and the undo points that the new game left.
pub proof fn law_restart_returns_to_the_opening(g: GameView, deal: Seq<Card>, acts: Seq<Action>)
    ensures
        ({
            let s0 = spec_check_auto_moves(GameView { already_won: false, ..dealt_state(g, deal) });
            let s = after_actions(s0, acts);
            &&& s.deal == deal
            &&& s.history.len() != 0 && s.undo_possible() ==> {
                &&& spec_restart(s).deal == deal
                &&& spec_restart(s).board == s0.board
                &&& spec_restart(s).history == s0.history
                &&& spec_restart(s).undo_stack == s0.undo_stack
            }
        }),
{
    let x0 = GameView { already_won: false, ..dealt_state(g, deal) };
    let s0 = spec_check_auto_moves(x0);
    lemma_auto_moves_local(x0, x0);
    lemma_actions_keep_deal(s0, acts);
    let s = after_actions(s0, acts);
    let x = dealt_state(s, s.deal);
    lemma_auto_moves_local(x, x0);
}

/// On a fresh deal the monster slots are empty, so no attack worths are
/// added up.
pub proof fn lemma_dealt_sums_fit(deal: Seq<Card>)
    ensures
        attack_sums_fit(dealt_depots(deal)),
{
    let d = dealt_depots(deal);
    assert forall|i: int|
        0 <= i < 3 && first_defeat(d, 0) == first_defeat(d, i) implies #[trigger] attack_sum_fits(
        d,
        i,
    ) by {
        assert(d[4 + i].len() == 0);
    }
}

/// The undo points strictly increase, and each names an earlier length of
/// the history.
pub open spec fn undo_points_increase(g: GameView) -> bool {
    &&& forall|i: int, j: int|
        0 <= i < j < g.undo_stack.len() ==> g.undo_stack[i] < g.undo_stack[j]
    &&& forall|i: int| 0 <= i < g.undo_stack.len() ==> #[trigger] g.undo_stack[i] < g.history.len()
}

/// The moves the game makes by itself leave the undo points alone and only
/// add to the history.
proof fn lemma_auto_moves_grow_history(g: GameView)
    ensures
        spec_check_auto_moves(g).undo_stack == g.undo_stack,
        spec_check_auto_moves(g).history.len() >= g.history.len(),
{
}

/// Every operation keeps the undo points strictly increasing and each
/// below the length of the history, so that an undo always takes back at
/// least one move: a click, a right click, the automatic moves, finished
/// animations, an undo, a restart, and a new game of any deal.
pub proof fn law_undo_points_increase(
    g: GameView,
    p: BoardPos,
    key: AnimationKey,
    deal: Seq<Card>,
)
    requires
        undo_points_increase(g),
        g.history.len() <= usize::MAX,
    ensures
        undo_points_increase(spec_onclick(g, p)),
        undo_points_increase(spec_oncontextmenu(g, p)),
        undo_points_increase(spec_check_auto_moves(g)),
        undo_points_increase(spec_advance_animations(g, key)),
        undo_points_increase(spec_undo(g)),
        undo_points_increase(spec_restart(g)),
        undo_points_increase(
            spec_check_auto_moves(GameView { already_won: false, ..dealt_state(g, deal) }),
        ),
{
    lemma_auto_moves_grow_history(g);
    let g1 = GameView { animation_key: key.wrapping_add(1), board: spec_advance(g.board), ..g };
    lemma_auto_moves_grow_history(g1);
    lemma_auto_moves_grow_history(dealt_state(g, g.deal));
    lemma_auto_moves_grow_history(GameView { already_won: false, ..dealt_state(g, deal) });
    let u = with_undo_point(g);
    assert forall|i: int, j: int| 0 <= i < j < u.undo_stack.len() implies u.undo_stack[i]
        < u.undo_stack[j] by {
        if j == u.undo_stack.len() - 1 {
            assert(u.undo_stack[i] == g.undo_stack[i]);
        } else {
            assert(u.undo_stack[i] == g.undo_stack[i]);
            assert(u.undo_stack[j] == g.undo_stack[j]);
        }
    }
    if !g.is_busy() && g.undo_possible() {
        let n = g.undo_stack.len();
        let t = g.undo_stack.last();
        assert(g.undo_stack[n - 1] == t);
        let r = spec_undo(g);
        assert(r.history.len() == t);
        assert forall|i: int| 0 <= i < r.undo_stack.len() implies #[trigger] r.undo_stack[i]
            < r.history.len() by {
            assert(r.undo_stack[i] == g.undo_stack[i]);
        }
        assert forall|i: int, j: int| 0 <= i < j < r.undo_stack.len() implies r.undo_stack[i]
            < r.undo_stack[j] by {
            assert(r.undo_stack[i] == g.undo_stack[i]);
            assert(r.undo_stack[j] == g.undo_stack[j]);
        }
    }
}

/// A history that can be taken back as a whole can be taken back down to
/// any length.
proof fn lemma_valid_can_take_back(depots: Seq<Seq<Card>>, history: Seq<ActionRecord>, t: int)
    requires
        history_valid(depots, history),
    ensures
        can_take_back(depots, history, t),
    decreases history.len(),
{
    if history.len() > t && history.len() > 0 {
        lemma_valid_can_take_back(take_back(depots, history.last()), history.drop_last(), t);
    }
}

/// In every state the game can reach, undo, when it acts, can take back
/// every move since the last undo point: the invariant meets what
/// [`GameState::undo`](crate::game::GameState::undo) requires.
pub proof fn lemma_wf_undo_fits(g: GameView)
    requires
        g.wf(),
    ensures
        !g.is_busy() && g.undo_possible() ==> can_take_back(
            g.board.depots,
            g.history,
            g.undo_stack.last() as int,
        ),
{
    if !g.is_busy() {
        assert(g.board.landed() == g.board.depots);
        lemma_valid_can_take_back(g.board.depots, g.history, g.undo_stack.last() as int);
    }
}

/// Attack cards stack in the tableau by adjacent rank and unlike suit: a
/// card may lie on another exactly when the lower one is no monster (rank
/// below ten), the suits differ and the ranks are one apart, aces included.
pub proof fn law_stacking_is_adjacent_rank_unlike_suit(back: Card, front: Card)
    ensures
        spec_can_stack(back, front) <==> (back.rank < 10 && back.suit != front.suit && (back.rank
            + 1 == front.rank || front.rank + 1 == back.rank)),
{
}

/// Card `front` may lie on card `back`: `back` is no monster (rank below
/// ten), the suits differ and the ranks are one apart.
pub open spec fn lies_on(back: Card, front: Card) -> bool {
    back.rank < 10 && back.suit != front.suit && (back.rank + 1 == front.rank || front.rank + 1
        == back.rank)
}

/// A stack from place `c` of `d` up: each card lies on the one below it.
pub open spec fn stacked_from(d: Seq<Card>, c: int) -> bool {
    forall|i: int| c <= i < d.len() - 1 ==> #[trigger] lies_on(d[i], d[i + 1])
}

/// What may be picked up: in a tableau column, a card together with every
/// card above it when each of them lies on the one below by adjacent rank and
/// unlike suit, the lower one no monster; in an attack slot, its top card; and
/// nothing from a monster slot, the graveyard or the death pile.
pub proof fn law_what_may_be_picked_up(depots: Seq<Seq<Card>>, p: BoardPos)
    requires
        depots.len() == NUM_DEPOTS,
        p.depot_index < NUM_DEPOTS,
    ensures
        spec_can_select(depots, p) <==> ({
            let d = depots[p.depot_index as int];
            &&& p.card_index < d.len()
            &&& {
                ||| p.depot_index < 4 && stacked_from(d, p.card_index as int)
                ||| 7 <= p.depot_index < 13 && p.card_index == d.len() - 1
            }
        }),
{
    let d = depots[p.depot_index as int];
    let c = p.card_index as int;
    if p.depot_index < 4 && c < d.len() {
        if forall|i: int| c <= i < d.len() - 1 ==> #[trigger] spec_can_stack(d[i], d[i + 1]) {
            assert forall|i: int| c <= i < d.len() - 1 implies #[trigger] lies_on(d[i], d[i + 1]) by {
                assert(spec_can_stack(d[i], d[i + 1]));
            }
        }
        if stacked_from(d, c) {
            assert forall|i: int| c <= i < d.len() - 1 implies #[trigger] spec_can_stack(d[i], d[i + 1]) by {
                assert(lies_on(d[i], d[i + 1]));
            }
        }
    }
}

/// Where cards may go: the cards from `pos1`'s card up may be put on top of
/// another depot `pos2` (`pos2` naming the place just above its top card) when
/// it is a tableau column that is empty or whose top card is no monster, of
/// another suit than the lowest moved card and one rank apart from it; or when
/// it is an empty attack slot whose monster slot is filled and a single card
/// moves, wherever that card comes from. No card may go anywhere else.
pub proof fn law_where_cards_may_go(depots: Seq<Seq<Card>>, pos1: BoardPos, pos2: BoardPos)
    requires
        depots.len() == NUM_DEPOTS,
        pos1.depot_index < NUM_DEPOTS,
        pos2.depot_index < NUM_DEPOTS,
        pos1.card_index < depots[pos1.depot_index as int].len(),
    ensures
        spec_can_move(depots, pos1, pos2) <==> ({
            let d1 = depots[pos1.depot_index as int];
            let d2 = depots[pos2.depot_index as int];
            let c = d1[pos1.card_index as int];
            &&& pos1.depot_index != pos2.depot_index
            &&& pos2.card_index == d2.len()
            &&& {
                ||| pos2.depot_index < 4 && (d2.len() == 0 || (d2.last().rank < 10 && d2.last().suit
                    != c.suit && (d2.last().rank + 1 == c.rank || c.rank + 1 == d2.last().rank)))
                ||| 7 <= pos2.depot_index < 13 && depots[4 + (pos2.depot_index - 7) / 2].len() != 0
                    && d2.len() == 0 && pos1.card_index + 1 == d1.len()
            }
        }),
{
}

/// The reverse-stacking shortcut may put the cards of a non-empty depot
/// `pos1` from `pos1`'s card up onto another depot `pos2` exactly when `pos2`
/// is a tableau column, named at the place just above its top card, that is
/// empty or whose top card takes the top card of `pos1` by adjacent rank and
/// unlike suit (the lower one no monster).
pub proof fn law_where_the_shortcut_may_go(depots: Seq<Seq<Card>>, pos1: BoardPos, pos2: BoardPos)
    requires
        depots.len() == NUM_DEPOTS,
        pos1.depot_index < NUM_DEPOTS,
        pos2.depot_index < NUM_DEPOTS,
        depots[pos1.depot_index as int].len() > 0,
        depots[pos1.depot_index as int].len() <= usize::MAX,
    ensures
        spec_can_rev_move(depots, pos1, pos2) <==> ({
            let d1 = depots[pos1.depot_index as int];
            let d2 = depots[pos2.depot_index as int];
            let c = d1.last();
            &&& pos2.depot_index < 4
            &&& pos1.depot_index != pos2.depot_index
            &&& pos2.card_index == d2.len()
            &&& (d2.len() == 0 || (d2.last().rank < 10 && d2.last().suit != c.suit && (d2.last().rank
                + 1 == c.rank || c.rank + 1 == d2.last().rank)))
        }),
{
}

/// A right click on the frame of an empty tableau column (which reports the
/// card index `usize::MAX`) puts the selected cards there in reverse order,
/// leaving an undo point, whatever the cards are.
pub proof fn law_shortcut_onto_an_empty_column(g: GameView, p: BoardPos)
    requires
        g.board.wf(),
        !g.is_busy(),
        !g.is_over(),
        g.board.selected is Some,
        p.depot_index < 4,
        p.depot_index != g.board.selected->Some_0.depot_index,
        p.card_index == usize::MAX,
        g.board.depots[p.depot_index as int].len() == 0,
    ensures
        spec_oncontextmenu(g, p).history == g.history.push(
            ActionRecord {
                pos1: g.board.selected->Some_0,
                pos2: BoardPos { depot_index: p.depot_index, card_index: 0 },
                rev: true,
            },
        ),
        spec_oncontextmenu(g, p).undo_stack == g.undo_stack.push(g.history.len() as usize),
{
    assert(p.card_index.wrapping_add(1) == 0);
}

/// With cards selected and nothing in flight in a game not over, a click on
/// another card of the same depot that may be picked up, above or below the
/// selected one, makes it the selection and changes nothing else.
pub proof fn law_click_in_the_same_depot_reselects(g: GameView, p: BoardPos)
    requires
        !g.is_busy(),
        !g.is_over(),
        g.board.selected is Some,
        p.depot_index == g.board.selected->Some_0.depot_index,
        p != g.board.selected->Some_0,
        spec_can_select(g.board.depots, p),
    ensures
        spec_onclick(g, p).board.selected == Some(p),
        spec_onclick(g, p).board.depots == g.board.depots,
        spec_onclick(g, p).history == g.history,
        spec_onclick(g, p).undo_stack == g.undo_stack,
{
}

/// Monster slot `j` and both its attack slots are filled, and the worths of
/// the two attack cards, an ace of the monster's suit counting seven and any
/// other card its rank, add up to the monster's rank.
pub open spec fn worths_match(depots: Seq<Seq<Card>>, j: int) -> bool {
    let m = depots[4 + j];
    let a1 = depots[7 + 2 * j];
    let a2 = depots[8 + 2 * j];
    let w1 = if a1.last().rank == 1 && a1.last().suit == m.last().suit {
        7
    } else {
        a1.last().rank as int
    };
    let w2 = if a2.last().rank == 1 && a2.last().suit == m.last().suit {
        7
    } else {
        a2.last().rank as int
    };
    m.len() != 0 && a1.len() != 0 && a2.len() != 0 && w1 + w2 == m.last().rank
}

/// A monster is defeated by exact attack worths, an ace of its suit worth
/// seven in either attack slot: when nothing is in flight in a game not
/// over, monster slot `i` and both its attack slots are filled, the worths of
/// the two attack cards add up to the monster's rank, and no earlier slot is
/// in that case, the automatic move sends the monster, then the first and the
/// second attack card, to the top of the graveyard.
pub proof fn law_exact_worths_defeat_the_monster(g: GameView, i: int)
    requires
        !g.is_busy(),
        !g.is_over(),
        0 <= i < 3,
        worths_match(g.board.depots, i),
        forall|j: int| 0 <= j < i ==> !#[trigger] worths_match(g.board.depots, j),
    ensures
        ({
            let gl = g.board.depots[13].len() as int;
            spec_check_auto_moves(g).history == g.history + seq![
                ActionRecord { pos1: pos(4 + i, 0), pos2: pos(13, gl), rev: false },
                ActionRecord { pos1: pos(7 + 2 * i, 0), pos2: pos(13, gl + 1), rev: false },
                ActionRecord { pos1: pos(8 + 2 * i, 0), pos2: pos(13, gl + 2), rev: false },
            ]
        }),
{
    let d = g.board.depots;
    assert forall|j: int| 0 <= j <= i implies #[trigger] defeatable(d, j) == worths_match(d, j) by {}
    assert(defeatable(d, i));
    if i == 0 {
        assert(first_defeat(d, 0) == Some(0int));
    } else if i == 1 {
        assert(!defeatable(d, 0));
        assert(first_defeat(d, 1) == Some(1int));
        assert(first_defeat(d, 0) == Some(1int));
    } else {
        assert(!defeatable(d, 0));
        assert(!defeatable(d, 1));
        assert(first_defeat(d, 2) == Some(2int));
        assert(first_defeat(d, 1) == Some(2int));
        assert(first_defeat(d, 0) == Some(2int));
    }
    let h = spec_check_auto_moves(g).history;
    let gl = d[13].len() as int;
    assert(h =~= g.history + seq![
        ActionRecord { pos1: pos(4 + i, 0), pos2: pos(13, gl), rev: false },
        ActionRecord { pos1: pos(7 + 2 * i, 0), pos2: pos(13, gl + 1), rev: false },
        ActionRecord { pos1: pos(8 + 2 * i, 0), pos2: pos(13, gl + 2), rev: false },
    ]);
}

/// A monster on top of the first tableau column that has one jumps, when no
/// monster is defeated, into the first open monster slot, or onto the death
/// pile when all three slots are taken.
pub proof fn law_exposed_monster_takes_the_first_open_slot(g: GameView, t: int)
    requires
        g.board.depots.len() == NUM_DEPOTS,
        !g.is_busy(),
        !g.is_over(),
        forall|j: int| 0 <= j < 3 ==> !#[trigger] worths_match(g.board.depots, j),
        0 <= t < 4,
        g.board.depots[t].len() != 0,
        g.board.depots[t].last().rank >= 10,
        forall|u: int|
            0 <= u < t ==> #[trigger] g.board.depots[u].len() == 0 || g.board.depots[u].last().rank
                < 10,
    ensures
        ({
            let d = g.board.depots;
            let from = BoardPos { depot_index: t as usize, card_index: (d[t].len() - 1) as usize };
            let dest = if d[4].len() == 0 {
                4int
            } else if d[5].len() == 0 {
                5int
            } else if d[6].len() == 0 {
                6int
            } else {
                14int
            };
            spec_check_auto_moves(g).history == g.history.push(
                ActionRecord {
                    pos1: from,
                    pos2: BoardPos { depot_index: dest as usize, card_index: d[dest].len() as usize },
                    rev: false,
                },
            )
        }),
{
    let d = g.board.depots;
    assert(!worths_match(d, 0) && !worths_match(d, 1) && !worths_match(d, 2));
    assert(!defeatable(d, 0) && !defeatable(d, 1) && !defeatable(d, 2));
    assert(first_defeat(d, 3) is None);
    assert(first_defeat(d, 2) is None);
    assert(first_defeat(d, 1) is None);
    assert(first_defeat(d, 0) is None);
    assert forall|u: int| 0 <= u < t implies !#[trigger] exposed(d, u) by {
        assert(d[u].len() == 0 || d[u].last().rank < 10);
    }
    assert(exposed(d, t));
    assert(first_exposed(d, t) == Some(t));
    if t >= 1 {
        assert(first_exposed(d, t - 1) == Some(t));
    }
    if t >= 2 {
        assert(first_exposed(d, t - 2) == Some(t));
    }
    if t >= 3 {
        assert(first_exposed(d, t - 3) == Some(t));
    }
    assert(first_exposed(d, 0) == Some(t));
    assert(first_empty_monster(d, 7) is None);
    assert(first_empty_monster(d, 6) == (if d[6].len() == 0 { Some(6int) } else { None }));
    assert(first_empty_monster(d, 5) == (if d[5].len() == 0 { Some(5int) } else if d[6].len() == 0 {
        Some(6int)
    } else {
        None
    }));
    assert(first_empty_monster(d, 4) == (if d[4].len() == 0 { Some(4int) } else if d[5].len() == 0 {
        Some(5int)
    } else if d[6].len() == 0 {
        Some(6int)
    } else {
        None
    }));
    let dest = monster_dest(d);
    assert(dest == (if d[4].len() == 0 { 4int } else if d[5].len() == 0 { 5int } else if d[6].len()
        == 0 { 6int } else { 14int }));
}

/// A click with nothing selected selects the clicked cards when they may be
/// picked up; with cards selected, a click on the selected card clears the
/// selection, and a click on another depot (its top card, or its frame
/// when it is empty) moves the selected cards there when the move is
/// allowed, leaving an undo point and clearing the selection.
pub proof fn law_click_selects_clears_or_moves(g: GameView, p: BoardPos)
    requires
        !g.is_busy(),
        !g.is_over(),
    ensures
        g.board.selected is None && spec_can_select(g.board.depots, p) ==> spec_onclick(
            g,
            p,
        ).board.selected == Some(p) && spec_onclick(g, p).history == g.history,
        g.board.selected == Some(p) ==> spec_onclick(g, p).board.selected is None && spec_onclick(
            g,
            p,
        ).history == g.history && spec_onclick(g, p).board.depots == g.board.depots,
        ({
            let dest = BoardPos { depot_index: p.depot_index, card_index: p.card_index.wrapping_add(1) };
            let src = g.board.selected->Some_0;
            g.board.selected is Some && src.depot_index != p.depot_index && spec_can_move(
                g.board.depots,
                src,
                dest,
            ) ==> {
                &&& spec_onclick(g, p).history == g.history.push(
                    ActionRecord { pos1: src, pos2: dest, rev: false },
                )
                &&& spec_onclick(g, p).undo_stack == g.undo_stack.push(g.history.len() as usize)
                &&& spec_onclick(g, p).board.selected is None
            }
        }),
{
}

} // verus!
