//! The game state and the operations on it: dealing, the player's clicks,
//! the moves the game makes by itself, undo and restart. What each
//! operation does is stated in `rules`.

use vstd::prelude::*;

use crate::board::{
    cards_of, dealt_depots, lemma_cards_apply_move, lemma_landed_do_move, lemma_total_apply_move,
    lemma_total_at_most, lemma_total_bounds, moved_cards, spec_advance, total_cards, Board, BoardPos, BoardView, DepotRole, NUM_DEPOTS,
};
use crate::card::{full_deck, spec_is_monster, suit_at, Card, Suit, DECK_SIZE, RANK_MAX};
use crate::laws::{
    lemma_auto_moves, lemma_dealt_sums_fit, lemma_first_defeat, lemma_fixed_deck, lemma_dealt_steady, lemma_player_move, lemma_undo_keeps_wf,
};
use crate::rules::{
    attack_sum_fits, attack_sums_fit, can_take_back, clump_at, dealt_state, death, defeatable, exposed, first_defeat,
    first_empty_monster, first_exposed, front_monsters, grave_ok, graveyard, has_clump,
    fixed_deck, fixed_rank, history_valid, point_ok,
    monster_dest, pos, record_move, spec_advance_animations, spec_attack_value, spec_can_move,
    spec_can_rev_move, spec_can_select, spec_can_stack, spec_check_auto_moves, spec_is_misdeal,
    spec_oncontextmenu, spec_onclick, spec_restart, spec_undo, take_back, trailing_monsters,
    unwind, with_selected, with_undo_point, MAX_FRONT_MONSTERS, MAX_MONSTER_CLUMP,
};
use crate::skin::{RankSkin, Skin, SuitSkin};
use crate::utils::{lemma_run_len, RunsTrait};
use vstd::std_specs::cmp::PartialEqSpec;
use rand::rngs::StdRng;
use rand::seq::SliceRandom;

verus! {

/// Key that ties an animation to the board state it was started for.
pub type AnimationKey = u16;

/// Number of monster cards in the deck: ranks ten to king in four suits.
pub const NUM_MONSTERS: usize = 16;

/// The graveyard holds this many cards once every monster is defeated: each
/// monster together with its two attack cards.
pub const GRAVEYARD_TARGET: usize = 48;

/// A move as it was made, kept so that it can be taken back.
#[derive(Clone, Copy, Debug, PartialEq, Eq, Structural)]
pub struct ActionRecord {
    pub pos1: BoardPos,
    pub pos2: BoardPos,
    pub rev: bool,
}

/// Which screen the player is looking at.
#[derive(Clone, Copy, Debug, PartialEq, Eq, Structural)]
pub enum ScreenState {
    Game,
    Settings,
    Help,
}

impl Default for ScreenState {
    fn default() -> (res: ScreenState)
        ensures
            res == ScreenState::Game,
    {
        ScreenState::Game
    }
}

#[derive(Clone, Debug, PartialEq, Eq)]
pub struct GameState {
    pub board: Board,
    pub deal: Vec<Card>,
    /// Cycling key that ties the animations on screen to the current board.
    pub animation_key: AnimationKey,
    pub history: Vec<ActionRecord>,
    /// For each move the player made, the length of `history` just before it.
    pub undo_stack: Vec<usize>,
    pub already_won: bool,
    pub num_wins: i32,
    pub screen_state: ScreenState,
    pub allow_undo: bool,
    pub skin: Skin,
}

/// The mathematical content of a [`GameState`].
pub struct GameView {
    pub board: BoardView,
    pub deal: Seq<Card>,
    pub animation_key: AnimationKey,
    pub history: Seq<ActionRecord>,
    pub undo_stack: Seq<usize>,
    pub already_won: bool,
    pub num_wins: i32,
    pub screen_state: ScreenState,
    pub allow_undo: bool,
    pub skin: Skin,
}

impl View for GameState {
    type V = GameView;

    open spec fn view(&self) -> GameView {
        GameView {
            board: self.board@,
            deal: self.deal@,
            animation_key: self.animation_key,
            history: self.history@,
            undo_stack: self.undo_stack@,
            already_won: self.already_won,
            num_wins: self.num_wins,
            screen_state: self.screen_state,
            allow_undo: self.allow_undo,
            skin: self.skin,
        }
    }
}

impl GameView {
    pub open spec fn is_busy(self) -> bool {
        self.board.acts.len() != 0
    }

    pub open spec fn is_won(self) -> bool {
        self.board.depots[graveyard()].len() == GRAVEYARD_TARGET
    }

    pub open spec fn is_lost(self) -> bool {
        self.board.depots[death()].len() != 0
    }

    pub open spec fn is_over(self) -> bool {
        self.is_won() || self.is_lost()
    }

    pub open spec fn undo_possible(self) -> bool {
        self.allow_undo && self.undo_stack.len() != 0
    }

    /// What holds after every single move: the board is well formed; a
    /// selection is only made while nothing is in flight, of cards that may
    /// be picked up; the whole history can be taken back from the board as it
    /// will be once the cards in flight have landed; and that board holds
    /// exactly the cards of the deal, which are those of the full deck: no
    /// card is ever created or lost.
    pub open spec fn sound(self) -> bool {
        &&& self.board.wf()
        &&& self.board.selected matches Some(s) ==> !self.is_busy() && spec_can_select(
            self.board.depots,
            s,
        )
        &&& history_valid(self.board.landed(), self.history)
        &&& cards_of(self.board.landed()) == self.deal.to_multiset()
        &&& total_cards(self.board.landed()) == self.deal.len()
        &&& self.deal.len() == DECK_SIZE
        &&& self.deal.to_multiset() == full_deck().to_multiset()
    }

    /// The undo points strictly increase, each names an earlier length of
    /// the history (so that an undo always takes back at least one move),
    /// and each leads back to a board of [`point_ok`].
    pub open spec fn undo_points_ok(self) -> bool {
        &&& forall|i: int|
            0 <= i < self.undo_stack.len() ==> #[trigger] self.undo_stack[i] < self.history.len()
        &&& forall|i: int, j: int|
            0 <= i < j < self.undo_stack.len() ==> self.undo_stack[i] < self.undo_stack[j]
        &&& forall|i: int|
            0 <= i < self.undo_stack.len() ==> point_ok(
                unwind(self.board.landed(), self.history, #[trigger] self.undo_stack[i] as int),
            )
    }

    /// A sound state whose graveyard, once the cards in flight have landed,
    /// is made of whole triples, and whose undo points are in order.
    pub open spec fn steady(self) -> bool {
        &&& self.sound()
        &&& grave_ok(self.board.landed()[graveyard()])
        &&& self.undo_points_ok()
    }

    /// The invariant that every operation keeps: a steady state in which,
    /// whenever the player may act, no tableau column has a monster on top.
    pub open spec fn wf(self) -> bool {
        &&& self.steady()
        &&& !self.is_busy() && !self.is_over() ==> first_exposed(self.board.depots, 0) is None
    }
}

impl GameState {
    pub fn is_busy(&self) -> (res: bool)
        ensures
            res == self@.is_busy(),
    {
        self.is_acting()
    }

    /// Whether cards are in flight.
    pub fn is_acting(&self) -> (res: bool)
        ensures
            res == self@.is_busy(),
    {
        self.board.animation_acts.len() != 0
    }

    pub fn undo_possible(&self) -> (res: bool)
        ensures
            res == self@.undo_possible(),
    {
        self.allow_undo && self.undo_stack.len() != 0
    }

    fn do_move_raw(&mut self, pos1: BoardPos, pos2: BoardPos, rev: bool)
        requires
            pos1.depot_index < old(self).board.depots@.len(),
            pos1.card_index <= old(self)@.board.depots[pos1.depot_index as int].len(),
        ensures
            final(self)@ == record_move(old(self)@, pos1, pos2, rev),
            final(self).board.depots@.len() == old(self).board.depots@.len(),
    {
        proof {
            assert(self.board@.depots[pos1.depot_index as int]
                == self.board.depots@[pos1.depot_index as int]@);
        }
        self.board.do_move(pos1, pos2, rev);
        self.history.push(ActionRecord { pos1, pos2, rev });
    }

    pub fn can_stack(&self, back: Card, front: Card) -> (res: bool)
        ensures
            res == spec_can_stack(back, front),
    {
        let close = if back.rank > front.rank {
            back.rank - front.rank == 1
        } else {
            front.rank - back.rank == 1
        };
        !back.is_monster() && back.suit != front.suit && close
    }

    pub fn can_select(&self, pos: BoardPos) -> (res: bool)
        requires
            pos.depot_index < self.board.depots@.len(),
        ensures
            res == spec_can_select(self@.board.depots, pos),
    {
        let depot = pos.depot_index;
        let ord = pos.card_index;
        let cards = &self.board.depots[depot];
        proof {
            assert(self@.board.depots[depot as int] == cards@);
        }
        if ord >= cards.len() {
            return false;
        }
        match DepotRole::role(depot) {
            Some(DepotRole::Tableau) => {
                let mut i = ord;
                while i < cards.len() - 1
                    invariant
                        ord <= i < cards@.len(),
                        ord == pos.card_index,
                        self@.board.depots[pos.depot_index as int] == cards@,
                        DepotRole::spec_role(pos.depot_index) == Some(DepotRole::Tableau),
                        forall|j: int|
                            ord <= j < i ==> #[trigger] spec_can_stack(cards@[j], cards@[j + 1]),
                    decreases cards@.len() - i,
                {
                    if !self.can_stack(cards[i], cards[i + 1]) {
                        assert(!spec_can_stack(cards@[i as int], cards@[i + 1]));
                        return false;
                    }
                    i = i + 1;
                }
                true
            },
            Some(DepotRole::Monster) => false,
            Some(DepotRole::Attack) => cards.len() - ord <= 1,
            Some(DepotRole::Graveyard) => false,
            Some(DepotRole::Death) => false,
            None => false,
        }
    }

    pub fn can_move(&self, pos1: BoardPos, pos2: BoardPos) -> (res: bool)
        requires
            pos1.depot_index != pos2.depot_index ==> {
                &&& pos1.depot_index < self.board.depots@.len()
                &&& pos2.depot_index < self.board.depots@.len()
                &&& pos1.card_index <= self@.board.depots[pos1.depot_index as int].len()
                &&& pos2.card_index == self@.board.depots[pos2.depot_index as int].len()
                    ==> pos1.card_index < self@.board.depots[pos1.depot_index as int].len()
            },
        ensures
            res == spec_can_move(self@.board.depots, pos1, pos2),
    {
        if pos1.depot_index == pos2.depot_index {
            return false;
        }
        let depot1 = &self.board.depots[pos1.depot_index];
        let depot2 = &self.board.depots[pos2.depot_index];
        proof {
            assert(self@.board.depots[pos1.depot_index as int] == depot1@);
            assert(self@.board.depots[pos2.depot_index as int] == depot2@);
        }
        let num_moved = depot1.len() - pos1.card_index;
        if pos2.card_index != depot2.len() {
            return false;
        }
        let card = depot1[pos1.card_index];
        match DepotRole::role_and_subindex(pos2.depot_index) {
            Some((DepotRole::Tableau, _)) => {
                if depot2.len() == 0 {
                    true
                } else {
                    self.can_stack(depot2[depot2.len() - 1], card)
                }
            },
            Some((DepotRole::Monster, _)) => false,
            Some((DepotRole::Attack, ix)) => {
                let monster_depot = &self.board.depots[DepotRole::Monster.id(ix / 2)];
                proof {
                    assert(self@.board.depots[DepotRole::Monster.spec_first() + ix / 2]
                        == monster_depot@);
                }
                monster_depot.len() != 0 && depot2.len() == 0 && num_moved == 1
            },
            Some((DepotRole::Graveyard, _)) => false,
            Some((DepotRole::Death, _)) => false,
            None => false,
        }
    }

    pub fn can_rev_move(&self, pos1: BoardPos, pos2: BoardPos) -> (res: bool)
        requires
            DepotRole::spec_role(pos2.depot_index) == Some(DepotRole::Tableau) ==> {
                &&& pos1.depot_index < self.board.depots@.len()
                &&& pos2.depot_index < self.board.depots@.len()
                &&& self@.board.depots[pos1.depot_index as int].len() > 0
            },
        ensures
            res == spec_can_rev_move(self@.board.depots, pos1, pos2),
    {
        match DepotRole::role(pos2.depot_index) {
            Some(DepotRole::Tableau) => {
                proof {
                    assert(self@.board.depots[pos1.depot_index as int]
                        == self.board.depots@[pos1.depot_index as int]@);
                }
                let last = self.board.last_pos(pos1.depot_index);
                self.can_move(last, pos2)
            },
            _ => false,
        }
    }

    pub fn is_won(&self) -> (res: bool)
        requires
            self.board.depots@.len() > DepotRole::Graveyard.spec_first(),
        ensures
            res == self@.is_won(),
    {
        proof {
            assert(self@.board.depots[graveyard()] == self.board.depots@[graveyard()]@);
        }
        self.board.depots[DepotRole::Graveyard.id(0)].len() == GRAVEYARD_TARGET
    }

    pub fn is_lost(&self) -> (res: bool)
        requires
            self.board.depots@.len() > DepotRole::Death.spec_first(),
        ensures
            res == self@.is_lost(),
    {
        proof {
            assert(self@.board.depots[death()] == self.board.depots@[death()]@);
        }
        self.board.depots[DepotRole::Death.id(0)].len() != 0
    }

    pub fn is_over(&self) -> (res: bool)
        requires
            self.board.depots@.len() > DepotRole::Death.spec_first(),
        ensures
            res == self@.is_over(),
    {
        self.is_won() || self.is_lost()
    }
}

#[verifier::external_type_specification]
#[verifier::external_body]
pub struct ExStdRng(rand::rngs::StdRng);

/// Calls `SliceRandom::shuffle` on the cards with a `StdRng`, a generator
/// seeded once that never goes back to the operating system (so the call
/// cannot fail): the cards are put in an order that the generator picks, so
/// only that the result is a rearrangement of the same cards is promised.
#[verifier::external_body]
fn shuffle_cards(cards: &mut Vec<Card>, rng: &mut StdRng)
    ensures
        final(cards)@.len() == old(cards)@.len(),
        final(cards)@.to_multiset() == old(cards)@.to_multiset(),
{
    cards.shuffle(rng);
}

/// How many monsters lie on top of `column`.
fn count_trailing_monsters(column: &Vec<Card>) -> (n: usize)
    ensures
        n == trailing_monsters(column@),
{
    let mut k = column.len();
    proof {
        assert(column@.take(k as int) =~= column@);
    }
    while k > 0 && column[k - 1].is_monster()
        invariant
            k <= column@.len(),
            trailing_monsters(column@) == (column@.len() - k) + trailing_monsters(
                column@.take(k as int),
            ),
        decreases k,
    {
        proof {
            let t = column@.take(k as int);
            assert(t.drop_last() =~= column@.take(k - 1));
        }
        k = k - 1;
    }
    proof {
        if k > 0 {
            assert(column@.take(k as int).last() == column@[k - 1]);
        }
    }
    column.len() - k
}

/// Whether `column` holds more monsters in a row than allowed, found by
/// walking it run by run.
fn column_has_clump(column: &Vec<Card>) -> (res: bool)
    ensures
        res == has_clump(column@),
{
    let mut flags: Vec<bool> = Vec::new();
    let mut i: usize = 0;
    while i < column.len()
        invariant
            i <= column@.len(),
            flags@.len() == i,
            forall|j: int| 0 <= j < i ==> flags@[j] == spec_is_monster(#[trigger] column@[j]),
        decreases column@.len() - i,
    {
        flags.push(column[i].is_monster());
        i = i + 1;
    }
    let ghost s = flags@;
    let mut runs = flags.runs();
    let ghost mut p: int = 0;
    proof {
        assert(s.skip(0) =~= s);
    }
    loop
        invariant
            0 <= p <= s.len(),
            s.len() == column@.len(),
            forall|j: int| 0 <= j < s.len() ==> s[j] == spec_is_monster(#[trigger] column@[j]),
            runs.rest() == s.skip(p),
            forall|j: int| 0 <= j < p ==> !#[trigger] clump_at(column@, j),
            p < s.len() && p > 0 ==> s[p] != s[p - 1],
        decreases s.len() - p,
    {
        let ghost rest = runs.rest();
        match runs.next() {
            None => {
                proof {
                    assert(p == s.len());
                    assert forall|j: int| !#[trigger] clump_at(column@, j) by {
                        if 0 <= j < p {
                        }
                    }
                }
                return false;
            },
            Some((is_monster, len)) => {
                proof {
                    lemma_run_len(rest);
                    assert forall|k: int| 0 <= k < len implies #[trigger] rest[k] == is_monster by {
                        if k > 0 {
                            assert(rest[k].eq_spec(&rest[0]));
                        }
                    }
                    if len < rest.len() {
                        assert(!rest[len as int].eq_spec(&rest[0]));
                        assert(rest[len as int] != is_monster);
                    }
                    assert(forall|k: int| 0 <= k < len ==> rest[k] == s[p + k]);
                }
                if is_monster && len > MAX_MONSTER_CLUMP {
                    proof {
                        assert forall|j: int| p <= j < p + MAX_MONSTER_CLUMP + 1
                            implies spec_is_monster(#[trigger] column@[j]) by {
                            assert(rest[j - p] == s[j]);
                        }
                        assert(clump_at(column@, p));
                    }
                    return true;
                }
                proof {
                    assert forall|j: int| 0 <= j < p + len implies !#[trigger] clump_at(column@, j) by {
                        if p <= j < p + len {
                            if is_monster {
                                if p + len < s.len() {
                                    assert(rest[len as int] == s[p + len]);
                                    assert(!spec_is_monster(column@[p + len]));
                                }
                            } else {
                                assert(rest[j - p] == s[j]);
                                assert(!spec_is_monster(column@[j]));
                            }
                        }
                    }
                    if p + len < s.len() {
                        assert(rest[len as int] == s[p + len]);
                        assert(rest[len - 1] == s[p + len - 1]);
                    }
                    assert(runs.rest() =~= s.skip(p + len));
                    p = p + len;
                }
            },
        }
    }
}

fn fixed_rank_of(k: usize, t: usize) -> (r: u8)
    requires
        k < 13,
        t < 4,
    ensures
        r == fixed_rank(k as int, t as int),
{
    if k == 1 {
        10
    } else if k == 9 {
        2
    } else if k == 3 {
        12
    } else if k == 11 {
        4
    } else if k == 5 {
        if t == 0 {
            6
        } else {
            13
        }
    } else if k == 12 {
        if t == 0 {
            13
        } else {
            6
        }
    } else {
        (k + 1) as u8
    }
}

/// The deal [`fixed_deck`].
fn fixed_deal() -> (deal: Vec<Card>)
    ensures
        deal@ == fixed_deck(),
{
    let suits = Suit::all();
    let mut deal: Vec<Card> = Vec::new();
    let mut i: usize = 0;
    while i < 52
        invariant
            i <= 52,
            forall|j: int| 0 <= j < 4 ==> suits@[j] == suit_at(j),
            deal@ == fixed_deck().take(i as int),
        decreases 52 - i,
    {
        deal.push(Card { rank: fixed_rank_of(i / 4, i % 4), suit: suits[i % 4] });
        proof {
            assert(deal@ =~= fixed_deck().take(i + 1));
        }
        i = i + 1;
    }
    proof {
        assert(fixed_deck().take(52) =~= fixed_deck());
    }
    deal
}

fn attack_value(c: Card, monster: Card) -> (v: u8)
    ensures
        v == spec_attack_value(c, monster),
{
    if c.rank == 1 && c.suit == monster.suit {
        7
    } else {
        c.rank
    }
}

impl Board {
    /// Whether the sums of attack worths that [`GameState::check_auto_moves`]
    /// computes fit in a byte (see [`attack_sums_fit`]).
    pub fn attack_sums_fit(&self) -> (res: bool)
        requires
            self.depots@.len() == NUM_DEPOTS,
        ensures
            res == attack_sums_fit(self@.depots),
    {
        let ghost d = self@.depots;
        let mut i: usize = 0;
        while i < 3
            invariant
                i <= 3,
                d == self@.depots,
                self.depots@.len() == NUM_DEPOTS,
                first_defeat(d, 0) == first_defeat(d, i as int),
                forall|j: int| 0 <= j < i ==> #[trigger] attack_sum_fits(d, j),
            decreases 3 - i,
        {
            let dm = DepotRole::Monster.id(i);
            let da1 = DepotRole::Attack.id(i * 2);
            let da2 = DepotRole::Attack.id(i * 2 + 1);
            proof {
                assert(d[dm as int] == self.depots@[dm as int]@);
                assert(d[da1 as int] == self.depots@[da1 as int]@);
                assert(d[da2 as int] == self.depots@[da2 as int]@);
            }
            let lm = self.depots[dm].len();
            let l1 = self.depots[da1].len();
            let l2 = self.depots[da2].len();
            if lm == 0 || l1 == 0 || l2 == 0 {
                i = i + 1;
                continue;
            }
            let cm = self.depots[dm][lm - 1];
            let sum = attack_value(self.depots[da1][l1 - 1], cm) as u16 + attack_value(
                self.depots[da2][l2 - 1],
                cm,
            ) as u16;
            if sum > 255 {
                proof {
                    assert(!attack_sum_fits(d, i as int));
                }
                return false;
            }
            if sum == cm.rank as u16 {
                proof {
                    assert(defeatable(d, i as int));
                    assert(first_defeat(d, 0) == Some(i as int));
                    assert forall|j: int|
                        0 <= j < 3 && first_defeat(d, 0) == first_defeat(d, j) implies #[trigger] attack_sum_fits(
                        d,
                        j,
                    ) by {
                        lemma_first_defeat(d, j);
                    }
                }
                return true;
            }
            i = i + 1;
        }
        true
    }
}

impl GameState {
    /// The first empty monster slot, or the death pile when every slot is taken.
    fn monster_dest(&self) -> (d: usize)
        requires
            self.board.depots@.len() == NUM_DEPOTS,
        ensures
            d == monster_dest(self@.board.depots),
            d < NUM_DEPOTS,
    {
        let r = DepotRole::Monster.range();
        let mut d = r.start;
        while d < r.end
            invariant
                r.start == DepotRole::Monster.spec_first(),
                r.end == DepotRole::Attack.spec_first(),
                r.start <= d <= r.end,
                self.board.depots@.len() == NUM_DEPOTS,
                first_empty_monster(self@.board.depots, DepotRole::Monster.spec_first() as int)
                    == first_empty_monster(self@.board.depots, d as int),
            decreases r.end - d,
        {
            proof {
                assert(self@.board.depots[d as int] == self.board.depots@[d as int]@);
            }
            if self.board.depots[d].len() == 0 {
                return d;
            }
            d = d + 1;
        }
        DepotRole::Death.id(0)
    }

    /// Makes the move the game makes by itself, if there is one: a defeated
    /// monster goes to the graveyard with its attack cards, or else an
    /// exposed monster goes to a monster slot (or to the death pile).
    pub fn check_auto_moves(&mut self)
        requires
            !old(self)@.is_busy() ==> old(self).board.depots@.len() == NUM_DEPOTS,
            !old(self)@.is_busy() ==> old(self)@.board.depots[graveyard()].len() + 2 <= usize::MAX,
            !old(self)@.is_busy() && !old(self)@.is_over() ==> attack_sums_fit(
                old(self)@.board.depots,
            ),
        ensures
            final(self)@ == spec_check_auto_moves(old(self)@),
            old(self)@.steady() ==> final(self)@.wf(),
    {
        proof {
            if self@.steady() {
                lemma_auto_moves(self@);
            }
        }
        if self.is_busy() {
            return;
        }
        if self.is_over() {
            return;
        }
        let ghost g = self@;
        let n = DepotRole::Monster.number_of();
        let mut i: usize = 0;
        while i < n
            invariant
                n == DepotRole::Monster.spec_number_of(),
                i <= n,
                self@ == g,
                g == old(self)@,
                g.steady() ==> spec_check_auto_moves(g).wf(),
                self.board.depots@.len() == NUM_DEPOTS,
                g.board.depots[graveyard()].len() + 2 <= usize::MAX,
                !g.is_busy(),
                !g.is_over(),
                attack_sums_fit(g.board.depots),
                first_defeat(g.board.depots, 0) == first_defeat(g.board.depots, i as int),
            decreases n - i,
        {
            let dm = DepotRole::Monster.id(i);
            let da1 = DepotRole::Attack.id(i * 2);
            let da2 = DepotRole::Attack.id(i * 2 + 1);
            proof {
                assert(g.board.depots[dm as int] == self.board.depots@[dm as int]@);
                assert(g.board.depots[da1 as int] == self.board.depots@[da1 as int]@);
                assert(g.board.depots[da2 as int] == self.board.depots@[da2 as int]@);
            }
            let lm = self.board.depots[dm].len();
            let l1 = self.board.depots[da1].len();
            let l2 = self.board.depots[da2].len();
            if lm == 0 || l1 == 0 || l2 == 0 {
                i = i + 1;
                continue;
            }
            let cm = self.board.depots[dm][lm - 1];
            let ca1 = self.board.depots[da1][l1 - 1];
            let ca2 = self.board.depots[da2][l2 - 1];
            proof {
                assert(attack_sum_fits(g.board.depots, i as int));
            }
            if attack_value(ca1, cm) + attack_value(ca2, cm) == cm.rank {
                proof {
                    assert(defeatable(g.board.depots, i as int));
                    assert(first_defeat(g.board.depots, 0) == Some(i as int));
                    assert(g.board.depots[graveyard()] == self.board.depots@[graveyard()]@);
                }
                let mut dest = self.board.top_pos(DepotRole::Graveyard.id(0));
                assert(dest == pos(graveyard(), g.board.depots[graveyard()].len() as int));
                self.do_move_raw(BoardPos::new(dm, 0), dest, false);
                dest.card_index = dest.card_index + 1;
                proof {
                    assert(self@.board.depots[da1 as int] == self.board.depots@[da1 as int]@);
                }
                self.do_move_raw(BoardPos::new(da1, 0), dest, false);
                dest.card_index = dest.card_index + 1;
                proof {
                    assert(self@.board.depots[da2 as int] == self.board.depots@[da2 as int]@);
                }
                self.do_move_raw(BoardPos::new(da2, 0), dest, false);
                return;
            }
            i = i + 1;
        }
        let tn = DepotRole::Tableau.number_of();
        let mut t: usize = 0;
        while t < tn
            invariant
                tn == DepotRole::Tableau.spec_number_of(),
                t <= tn,
                self@ == g,
                g == old(self)@,
                g.steady() ==> spec_check_auto_moves(g).wf(),
                self.board.depots@.len() == NUM_DEPOTS,
                !g.is_busy(),
                !g.is_over(),
                first_defeat(g.board.depots, 0) is None,
                first_exposed(g.board.depots, 0) == first_exposed(g.board.depots, t as int),
            decreases tn - t,
        {
            proof {
                assert(g.board.depots[t as int] == self.board.depots@[t as int]@);
            }
            let len = self.board.depots[t].len();
            if len == 0 {
                t = t + 1;
                continue;
            }
            let card = self.board.depots[t][len - 1];
            if card.is_monster() {
                let dest = self.monster_dest();
                let from = self.board.last_pos(t);
                let to = self.board.top_pos(dest);
                proof {
                    assert(g.board.depots[dest as int] == self.board.depots@[dest as int]@);
                    assert(exposed(g.board.depots, t as int));
                    assert(first_exposed(g.board.depots, 0) == Some(t as int));
                    assert(from == pos(t as int, g.board.depots[t as int].len() - 1));
                    assert(to == pos(dest as int, g.board.depots[dest as int].len() as int));
                }
                self.do_move_raw(from, to, false);
                return;
            }
            t = t + 1;
        }
    }
}

impl GameState {
    /// Handles a click on the card at `pos` (see [`spec_onclick`]).
    pub fn onclick(&mut self, pos: BoardPos)
        requires
            !old(self)@.is_busy() ==> old(self).board.depots@.len() > DepotRole::Death.spec_first(),
            !old(self)@.is_busy() && !old(self)@.is_over() ==> old(self)@.board.wf()
                && pos.depot_index < NUM_DEPOTS,
        ensures
            final(self)@ == spec_onclick(old(self)@, pos),
            old(self)@.wf() ==> final(self)@.wf(),
    {
        if self.is_busy() {
            return;
        }
        if self.is_over() {
            return;
        }
        let ghost g = self@;
        proof {
            assert(g.board.landed() == g.board.depots);
        }
        if let Some(src) = self.board.selected {
            if pos == src {
                self.board.selected = None;
                proof {
                    assert(self@ == with_selected(g, None));
                }
                return;
            }
            if src.depot_index == pos.depot_index && self.can_select(pos) {
                self.board.selected = Some(pos);
                proof {
                    assert(self@ == with_selected(g, Some(pos)));
                }
                return;
            }
            let dest = BoardPos {
                depot_index: pos.depot_index,
                card_index: pos.card_index.wrapping_add(1),
            };
            if !self.can_move(src, dest) {
                return;
            }
            let n = self.history.len();
            self.undo_stack.push(n);
            proof {
                assert(self@ == with_undo_point(g));
                if g.wf() {
                    lemma_player_move(g, src, dest, false);
                }
            }
            self.do_move_raw(src, dest, false);
        } else {
            if self.can_select(pos) {
                self.board.selected = Some(pos);
                proof {
                    assert(self@ == with_selected(g, Some(pos)));
                }
            }
        }
    }

    /// Handles a right click (or long press) on the card at `pos`: the
    /// shortcut for stacking the selected cards in reverse order (see
    /// [`spec_oncontextmenu`]).
    pub fn oncontextmenu(&mut self, pos: BoardPos)
        requires
            !old(self)@.is_busy() ==> old(self).board.depots@.len() > DepotRole::Death.spec_first(),
            !old(self)@.is_busy() && !old(self)@.is_over() ==> old(self)@.board.wf(),
        ensures
            final(self)@ == spec_oncontextmenu(old(self)@, pos),
            old(self)@.wf() ==> final(self)@.wf(),
    {
        if self.is_busy() {
            return;
        }
        if self.is_over() {
            return;
        }
        let ghost g = self@;
        proof {
            assert(g.board.landed() == g.board.depots);
        }
        if let Some(src) = self.board.selected {
            let dest = BoardPos {
                depot_index: pos.depot_index,
                card_index: pos.card_index.wrapping_add(1),
            };
            proof {
                assert(g.board.depots[src.depot_index as int]
                    == self.board.depots@[src.depot_index as int]@);
            }
            if !self.can_rev_move(src, dest) {
                return;
            }
            let n = self.history.len();
            self.undo_stack.push(n);
            proof {
                assert(self@ == with_undo_point(g));
                if g.wf() {
                    lemma_player_move(g, src, dest, true);
                }
            }
            self.do_move_raw(src, dest, true);
        }
    }

    /// Takes back every move made since the last undo point (see [`spec_undo`]).
    pub fn undo(&mut self)
        requires
            !old(self)@.is_busy() && old(self)@.undo_possible() ==> can_take_back(
                old(self)@.board.depots,
                old(self)@.history,
                old(self)@.undo_stack.last() as int,
            ),
        ensures
            final(self)@ == spec_undo(old(self)@),
            old(self)@.wf() ==> final(self)@.wf(),
    {
        if self.is_busy() || !self.undo_possible() {
            return;
        }
        let ghost g = self@;
        let target = match self.undo_stack.pop() {
            Some(t) => t,
            None => {
                return;
            },
        };
        proof {
            assert(target == g.undo_stack.last());
            assert(self.undo_stack@ == g.undo_stack.drop_last());
            assert(g.board.landed() == g.board.depots);
        }
        if self.history.len() > target {
            proof {
                assert(self.board@.depots.len() == NUM_DEPOTS);
                assert(self.board@.shaped());
            }
            while self.history.len() > target
                invariant
                    g == old(self)@,
                    self.undo_stack@ == g.undo_stack.drop_last(),
                    self.deal@ == g.deal,
                    self.animation_key == g.animation_key,
                    self.already_won == g.already_won,
                    self.num_wins == g.num_wins,
                    self.screen_state == g.screen_state,
                    self.allow_undo == g.allow_undo,
                    self.skin == g.skin,
                    self.board@.shaped(),
                    self.board.depots@.len() == NUM_DEPOTS,
                    self.board@.acts.len() == 0,
                    self.board.animation_acts@.len() == 0,
                    self.history@.len() <= g.history.len(),
                    g.history.len() > target ==> self.history@.len() >= target,
                    g.history.len() <= target ==> self.history@.len() == g.history.len(),
                    self.history@ == g.history.take(self.history@.len() as int),
                    unwind(self@.board.depots, self.history@, target as int) == unwind(
                        g.board.depots,
                        g.history,
                        target as int,
                    ),
                    can_take_back(self@.board.depots, self.history@, target as int),
                    g.wf() ==> history_valid(self@.board.depots, self.history@),
                    g.wf() ==> total_cards(self@.board.depots) == g.deal.len(),
                    g.wf() ==> cards_of(self@.board.depots) == g.deal.to_multiset(),
                    self.history@.len() < g.history.len() ==> self.board.selected is None,
                    self.history@.len() == g.history.len() ==> self@.board == g.board,
                decreases self.history@.len(),
            {
                let ghost b = self.board@;
                let ghost h = self.history@;
                let rec = match self.history.pop() {
                    Some(r) => r,
                    None => {
                        return;
                    },
                };
                proof {
                    assert(rec == h.last());
                    assert(self.history@ == h.drop_last());
                    assert(self.history@ =~= g.history.take(self.history@.len() as int));
                    assert(b.depots[rec.pos2.depot_index as int]
                        == self.board.depots@[rec.pos2.depot_index as int]@);
                    lemma_landed_do_move(b, rec.pos2, rec.pos1, rec.rev);
                    lemma_total_apply_move(b.depots, rec.pos2, rec.pos1, rec.rev);
                    lemma_cards_apply_move(b.depots, rec.pos2, rec.pos1, rec.rev);
                    assert(b.landed() == b.depots);
                }
                self.board.do_move(rec.pos2, rec.pos1, rec.rev);
                self.board.advance_actions();
                proof {
                    assert(self@.board.depots == take_back(b.depots, rec));
                    assert(self@.board.acts =~= b.acts);
                }
            }
        }
        proof {
            if g.wf() {
                lemma_undo_keeps_wf(g);
            }
            if g.history.len() > target {
                assert(self.history@.len() == target);
                assert(self@.board.acts =~= g.board.acts);
            } else {
                assert(self.history@ =~= g.history);
            }
        }
    }

    /// Deals the same deal again, when moves were made and undo is allowed
    /// (see [`spec_restart`]).
    pub fn restart(&mut self)
        ensures
            final(self)@ == spec_restart(old(self)@),
            old(self)@.wf() ==> final(self)@.wf(),
    {
        if self.history.len() == 0 || !self.undo_possible() {
            return;
        }
        let ghost g = self@;
        self.board = Board::from_deal(&self.deal);
        self.history.clear();
        self.undo_stack.clear();
        proof {
            assert(self@.board.depots == dealt_depots(g.deal));
            assert(self@ == dealt_state(g, g.deal));
            assert(dealt_depots(g.deal)[graveyard()].len() == 0);
            if g.wf() {
                lemma_dealt_steady(g, g.deal);
            }
            lemma_dealt_sums_fit(g.deal);
        }
        self.check_auto_moves();
    }

    /// Called when the animations for `key` have finished (see
    /// [`spec_advance_animations`]).
    pub fn advance_animations(&mut self, key: AnimationKey)
        requires
            key == old(self).animation_key ==> old(self)@.board.shaped(),
            key == old(self).animation_key ==> old(self)@.board.landed()[graveyard()].len() + 2
                <= usize::MAX,
            key == old(self).animation_key && old(self)@.board.landed()[graveyard()].len()
                == GRAVEYARD_TARGET && !old(self).already_won ==> old(self).num_wins < i32::MAX,
            key == old(self).animation_key && old(self)@.board.landed()[graveyard()].len()
                != GRAVEYARD_TARGET && old(self)@.board.landed()[death()].len() == 0
                ==> attack_sums_fit(old(self)@.board.landed()),
        ensures
            final(self)@ == spec_advance_animations(old(self)@, key),
            old(self)@.wf() ==> final(self)@.wf(),
    {
        if key != self.animation_key {
            return;
        }
        let ghost g = self@;
        self.animation_key = self.animation_key.wrapping_add(1);
        self.board.advance_actions();
        proof {
            assert(spec_advance(g.board).landed() =~= g.board.landed());
            if g.wf() {
                lemma_auto_moves(self@);
            }
        }
        if self.is_won() {
            if !self.already_won {
                self.num_wins = self.num_wins + 1;
                self.already_won = true;
            }
        } else {
            self.check_auto_moves();
        }
    }
}

impl GameState {
    /// Whether [`GameState::undo`] can run: it does nothing when cards are in
    /// flight or no undo is possible, and otherwise every move since the last
    /// undo point must name depots of the board and a place its cards still
    /// lie at (see [`can_take_back`]). Only the depots' sizes are followed.
    pub fn undo_fits(&self) -> (res: bool)
        ensures
            res == (self@.is_busy() || !self@.undo_possible() || can_take_back(
                self@.board.depots,
                self@.history,
                self@.undo_stack.last() as int,
            )),
    {
        if self.is_busy() || !self.undo_possible() {
            return true;
        }
        let target = self.undo_stack[self.undo_stack.len() - 1];
        let ghost t = target as int;
        let ghost h = self@.history;
        let ghost d0 = self@.board.depots;
        proof {
            assert(self@.undo_stack.last() == target);
            assert(h.take(h.len() as int) =~= h);
        }
        if self.board.depots.len() != NUM_DEPOTS {
            return self.history.len() <= target;
        }
        let mut sizes: Vec<u128> = Vec::new();
        let mut i: usize = 0;
        while i < NUM_DEPOTS
            invariant
                i <= NUM_DEPOTS,
                self.board.depots@.len() == NUM_DEPOTS,
                d0 == self@.board.depots,
                sizes@.len() == i,
                forall|j: int| 0 <= j < i ==> #[trigger] sizes@[j] == d0[j].len(),
                forall|j: int| 0 <= j < i ==> #[trigger] sizes@[j] <= usize::MAX,
            decreases NUM_DEPOTS - i,
        {
            proof {
                assert(d0[i as int] == self.board.depots@[i as int]@);
            }
            sizes.push(self.board.depots[i].len() as u128);
            i = i + 1;
        }
        proof {
            assert forall|j: int| 0 <= j < NUM_DEPOTS implies #[trigger] d0[j].len() <= usize::MAX by {
                assert(sizes@[j] <= usize::MAX);
            }
            lemma_total_at_most(d0, usize::MAX as int);
        }
        let mut k = self.history.len();
        let ghost mut cur = d0;
        while k > target
            invariant
                t == target,
                self@.undo_stack.last() as int == t,
                !self@.is_busy(),
                self@.undo_possible(),
                d0 == self@.board.depots,
                k <= h.len(),
                h == self@.history,
                cur.len() == NUM_DEPOTS,
                sizes@.len() == NUM_DEPOTS,
                forall|j: int| 0 <= j < NUM_DEPOTS ==> #[trigger] sizes@[j] == cur[j].len(),
                total_cards(cur) == total_cards(d0),
                total_cards(d0) <= NUM_DEPOTS * usize::MAX,
                can_take_back(d0, h, t) == can_take_back(cur, h.take(k as int), t),
            decreases k,
        {
            let r = self.history[k - 1];
            proof {
                assert(h.take(k as int).last() == r);
                assert(h.take(k as int).drop_last() =~= h.take(k - 1));
            }
            let d1 = r.pos1.depot_index;
            let d2 = r.pos2.depot_index;
            let c = r.pos2.card_index;
            if d1 >= NUM_DEPOTS || d2 >= NUM_DEPOTS || c as u128 > sizes[d2] {
                return false;
            }
            let ghost next = take_back(cur, r);
            proof {
                lemma_total_apply_move(cur, r.pos2, r.pos1, r.rev);
                lemma_total_bounds(next);
                assert(moved_cards(cur[d2 as int], c as int, r.rev).len() == cur[d2 as int].len() - c);
            }
            let old2 = sizes[d2];
            let moved = old2 - c as u128;
            sizes.set(d2, c as u128);
            let s1 = sizes[d1];
            proof {
                assert(next[d1 as int].len() == s1 + moved);
                assert(next[d1 as int].len() <= total_cards(next));
            }
            sizes.set(d1, s1 + moved);
            proof {
                assert forall|j: int| 0 <= j < NUM_DEPOTS implies #[trigger] sizes@[j] == next[j].len() by {}
                cur = next;
            }
            k = k - 1;
        }
        true
    }
}

impl GameState {
    /// A shuffled deck: the fifty-two cards of the full deck in an order
    /// that `rng` picks.
    pub fn new_deal(rng: &mut StdRng) -> (deal: Vec<Card>)
        ensures
            deal@.len() == DECK_SIZE,
            deal@.to_multiset() == full_deck().to_multiset(),
    {
        let mut deck: Vec<Card> = Vec::with_capacity(DECK_SIZE);
        let suits = Suit::all();
        let mut rank: u8 = 1;
        while rank <= RANK_MAX
            invariant
                1 <= rank <= RANK_MAX + 1,
                forall|i: int| 0 <= i < 4 ==> suits@[i] == suit_at(i),
                deck@ == full_deck().take(4 * (rank - 1)),
            decreases RANK_MAX + 1 - rank,
        {
            let mut k: usize = 0;
            while k < 4
                invariant
                    1 <= rank <= RANK_MAX,
                    k <= 4,
                    forall|i: int| 0 <= i < 4 ==> suits@[i] == suit_at(i),
                    deck@ == full_deck().take(4 * (rank - 1) + k),
                decreases 4 - k,
            {
                let ghost n = 4 * (rank - 1) + k;
                proof {
                    assert(n / 4 == rank - 1);
                    assert(n % 4 == k);
                }
                deck.push(Card { rank, suit: suits[k] });
                proof {
                    assert(deck@ =~= full_deck().take(n + 1));
                }
                k = k + 1;
            }
            rank = rank + 1;
        }
        proof {
            assert(full_deck().take(DECK_SIZE as int) =~= full_deck());
        }
        shuffle_cards(&mut deck, rng);
        deck
    }

    /// Whether the board holds a deal that the game refuses (see
    /// [`spec_is_misdeal`]).
    pub fn is_misdeal(&self) -> (res: bool)
        requires
            self.board.depots@.len() == NUM_DEPOTS,
        ensures
            res == spec_is_misdeal(self@.board.depots),
    {
        let ghost d = self@.board.depots;
        let mut front: usize = 0;
        let mut t: usize = 0;
        while t < 4
            invariant
                t <= 4,
                d == self@.board.depots,
                self.board.depots@.len() == NUM_DEPOTS,
                front <= MAX_FRONT_MONSTERS,
                front == (if t > 0 { trailing_monsters(d[0]) } else { 0 }) + (if t > 1 {
                    trailing_monsters(d[1])
                } else {
                    0
                }) + (if t > 2 { trailing_monsters(d[2]) } else { 0 }) + (if t > 3 {
                    trailing_monsters(d[3])
                } else {
                    0
                }),
            decreases 4 - t,
        {
            proof {
                assert(d[t as int] == self.board.depots@[t as int]@);
            }
            let n = count_trailing_monsters(&self.board.depots[t]);
            if n > MAX_FRONT_MONSTERS - front {
                return true;
            }
            front = front + n;
            t = t + 1;
        }
        if front < 1 {
            return true;
        }
        let mut t: usize = 0;
        while t < 4
            invariant
                t <= 4,
                d == self@.board.depots,
                self.board.depots@.len() == NUM_DEPOTS,
                1 <= front_monsters(d) <= MAX_FRONT_MONSTERS,
                forall|u: int| 0 <= u < t ==> !#[trigger] has_clump(d[u]),
            decreases 4 - t,
        {
            proof {
                assert(d[t as int] == self.board.depots@[t as int]@);
            }
            if column_has_clump(&self.board.depots[t]) {
                return true;
            }
            t = t + 1;
        }
        false
    }

    /// Deals new games from `rng` until one is not refused, then clears the
    /// history and undo points and lets the game make its automatic move.
    /// Should `u64::MAX` deals in a row be refused (no machine gets that
    /// far), it deals [`fixed_deck`] instead, which is not refused.
    pub fn new_game(&mut self, rng: &mut StdRng)
        ensures
            final(self).deal@.len() == DECK_SIZE,
            final(self).deal@.to_multiset() == full_deck().to_multiset(),
            !spec_is_misdeal(dealt_depots(final(self).deal@)),
            final(self)@ == spec_check_auto_moves(
                GameView { already_won: false, ..dealt_state(old(self)@, final(self).deal@) },
            ),
            final(self)@.wf(),
    {
        let deal = Self::new_deal(rng);
        self.board = Board::from_deal(&deal);
        self.deal = deal;
        let mut refused = self.is_misdeal();
        let mut attempts: u64 = 1;
        while refused && attempts < u64::MAX
            invariant
                self.deal@.len() == DECK_SIZE,
                self.deal@.to_multiset() == full_deck().to_multiset(),
                self@.board.depots == dealt_depots(self.deal@),
                refused == spec_is_misdeal(dealt_depots(self.deal@)),
                self@.board.selected is None,
                self@.board.acts.len() == 0,
                self.board.depots@.len() == NUM_DEPOTS,
                self.history == old(self).history,
                self.undo_stack == old(self).undo_stack,
                self.animation_key == old(self).animation_key,
                self.already_won == old(self).already_won,
                self.num_wins == old(self).num_wins,
                self.screen_state == old(self).screen_state,
                self.allow_undo == old(self).allow_undo,
                self.skin == old(self).skin,
            decreases u64::MAX - attempts,
        {
            let deal = Self::new_deal(rng);
            self.board = Board::from_deal(&deal);
            self.deal = deal;
            refused = self.is_misdeal();
            attempts = attempts + 1;
        }
        if refused {
            let deal = fixed_deal();
            proof {
                lemma_fixed_deck();
            }
            self.board = Board::from_deal(&deal);
            self.deal = deal;
        }
        self.history.clear();
        self.undo_stack.clear();
        self.already_won = false;
        let ghost g = GameView { already_won: false, ..dealt_state(old(self)@, self.deal@) };
        proof {
            assert(self@.board.acts =~= Seq::empty());
            assert(self@ == g);
            lemma_dealt_steady(old(self)@, self.deal@);
            assert(dealt_depots(self.deal@)[graveyard()].len() == 0);
            lemma_auto_moves(self@);
            lemma_dealt_sums_fit(self.deal@);
        }
        self.check_auto_moves();
    }

    /// A new game state with a fresh deal, undo allowed, no wins yet.
    pub fn init(rng: &mut StdRng) -> (res: Self)
        ensures
            res.deal@.len() == DECK_SIZE,
            res.deal@.to_multiset() == full_deck().to_multiset(),
            !spec_is_misdeal(dealt_depots(res.deal@)),
            res@ == spec_check_auto_moves(
                GameView {
                    board: BoardView {
                        depots: dealt_depots(res.deal@),
                        selected: None,
                        acts: Seq::empty(),
                    },
                    deal: res.deal@,
                    animation_key: 0,
                    history: Seq::empty(),
                    undo_stack: Seq::empty(),
                    already_won: false,
                    num_wins: 0,
                    screen_state: ScreenState::Game,
                    allow_undo: true,
                    skin: Skin { ranks: RankSkin::Numbers, suits: SuitSkin::Shapes },
                },
            ),
            res@.wf(),
    {
        let mut res = Self {
            board: Board::empty(),
            deal: Vec::new(),
            animation_key: 0,
            history: Vec::new(),
            undo_stack: Vec::new(),
            already_won: false,
            num_wins: 0,
            screen_state: ScreenState::Game,
            allow_undo: true,
            skin: Skin::default(),
        };
        res.new_game(rng);
        res
    }
}

} // verus!
