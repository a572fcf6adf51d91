//! The board: fifteen depots of cards, a selection, and the moves that are
//! still in flight (cards that have left one depot and not yet landed).

use vstd::multiset::Multiset;
use vstd::prelude::*;

use crate::card::Card;

verus! {

/// Number of depots on the board.
pub const NUM_DEPOTS: usize = 15;

/// Each monster slot has this many attack slots beside it.
pub const ATTACK_SLOTS_PER_MONSTER: usize = 2;

/// A place on the board: a depot, and a position in it counted from the
/// bottom card.
#[derive(Clone, Copy, Debug, PartialEq, Eq, Structural)]
pub struct BoardPos {
    pub depot_index: usize,
    pub card_index: usize,
}

impl BoardPos {
    pub fn new(depot_index: usize, card_index: usize) -> (res: Self)
        ensures
            res.depot_index == depot_index,
            res.card_index == card_index,
    {
        BoardPos { depot_index, card_index }
    }
}

/// What a depot is for. The depots are laid out role after role, in the
/// order of the variants: four tableau columns, three monster slots, six
/// attack slots (two per monster slot), the graveyard and the death pile.
#[derive(Clone, Copy, Debug, PartialEq, Eq, Structural)]
pub enum DepotRole {
    Tableau,
    Monster,
    Attack,
    Graveyard,
    Death,
}

impl DepotRole {
    pub open spec fn spec_number_of(self) -> usize {
        match self {
            DepotRole::Tableau => 4,
            DepotRole::Monster => 3,
            DepotRole::Attack => 6,
            DepotRole::Graveyard => 1,
            DepotRole::Death => 1,
        }
    }

    /// Index of the first depot of this role.
    pub open spec fn spec_first(self) -> usize {
        match self {
            DepotRole::Tableau => 0,
            DepotRole::Monster => 4,
            DepotRole::Attack => 7,
            DepotRole::Graveyard => 13,
            DepotRole::Death => 14,
        }
    }

    /// The role of a depot and its index among the depots of that role.
    pub open spec fn spec_role_and_subindex(depot: usize) -> Option<(DepotRole, usize)> {
        if depot < 4 {
            Some((DepotRole::Tableau, depot))
        } else if depot < 7 {
            Some((DepotRole::Monster, (depot - 4) as usize))
        } else if depot < 13 {
            Some((DepotRole::Attack, (depot - 7) as usize))
        } else if depot == 13 {
            Some((DepotRole::Graveyard, 0))
        } else if depot == 14 {
            Some((DepotRole::Death, 0))
        } else {
            None
        }
    }

    pub open spec fn spec_role(depot: usize) -> Option<DepotRole> {
        match Self::spec_role_and_subindex(depot) {
            Some((role, _)) => Some(role),
            None => None,
        }
    }

    /// How many depots have this role.
    pub fn number_of(self) -> (n: usize)
        ensures
            n == self.spec_number_of(),
    {
        match self {
            DepotRole::Tableau => 4,
            DepotRole::Monster => 3,
            DepotRole::Attack => 6,
            DepotRole::Graveyard => 1,
            DepotRole::Death => 1,
        }
    }

    fn first(self) -> (d: usize)
        ensures
            d == self.spec_first(),
    {
        match self {
            DepotRole::Tableau => 0,
            DepotRole::Monster => 4,
            DepotRole::Attack => 7,
            DepotRole::Graveyard => 13,
            DepotRole::Death => 14,
        }
    }

    /// The depot index of the `i`-th depot of this role.
    pub fn id(self, i: usize) -> (d: usize)
        requires
            i < self.spec_number_of(),
        ensures
            d == self.spec_first() + i,
    {
        self.first() + i
    }

    /// The depot indices of this role.
    pub fn range(self) -> (r: std::ops::Range<usize>)
        ensures
            r.start == self.spec_first(),
            r.end == self.spec_first() + self.spec_number_of(),
    {
        let first = self.first();
        first..first + self.number_of()
    }

    /// The role of a depot, or `None` for an index past the last depot.
    pub fn role(depot: usize) -> (res: Option<DepotRole>)
        ensures
            res == Self::spec_role(depot),
    {
        match Self::role_and_subindex(depot) {
            Some((role, _)) => Some(role),
            None => None,
        }
    }

    /// The role of a depot and its index among the depots of that role.
    pub fn role_and_subindex(depot: usize) -> (res: Option<(DepotRole, usize)>)
        ensures
            res == Self::spec_role_and_subindex(depot),
    {
        if depot < 4 {
            Some((DepotRole::Tableau, depot))
        } else if depot < 7 {
            Some((DepotRole::Monster, depot - 4))
        } else if depot < 13 {
            Some((DepotRole::Attack, depot - 7))
        } else if depot == 13 {
            Some((DepotRole::Graveyard, 0))
        } else if depot == 14 {
            Some((DepotRole::Death, 0))
        } else {
            None
        }
    }
}

/// Cards on their way from one place to another. `cards` are listed in the
/// order in which they land on top of the destination depot.
#[derive(Clone, Debug, PartialEq, Eq)]
pub enum AnimationAct {
    Move { cards: Vec<Card>, pos1: BoardPos, pos2: BoardPos, rev: bool },
}

/// The mathematical content of an [`AnimationAct`].
pub struct MoveView {
    pub cards: Seq<Card>,
    pub pos1: BoardPos,
    pub pos2: BoardPos,
    pub rev: bool,
}

impl View for AnimationAct {
    type V = MoveView;

    open spec fn view(&self) -> MoveView {
        match self {
            AnimationAct::Move { cards, pos1, pos2, rev } => MoveView {
                cards: cards@,
                pos1: *pos1,
                pos2: *pos2,
                rev: *rev,
            },
        }
    }
}

#[derive(Clone, Debug, PartialEq, Eq)]
pub struct Board {
    pub depots: Vec<Vec<Card>>,
    pub selected: Option<BoardPos>,
    pub animation_acts: Vec<AnimationAct>,
}

/// The mathematical content of a [`Board`].
pub struct BoardView {
    pub depots: Seq<Seq<Card>>,
    pub selected: Option<BoardPos>,
    pub acts: Seq<MoveView>,
}

impl View for Board {
    type V = BoardView;

    open spec fn view(&self) -> BoardView {
        BoardView {
            depots: self.depots@.map_values(|d: Vec<Card>| d@),
            selected: self.selected,
            acts: self.animation_acts@.map_values(|a: AnimationAct| a@),
        }
    }
}

/// The cards that leave `depot` when it is cut at `from`, in the order in
/// which they land: reversed when `rev` holds.
pub open spec fn moved_cards(depot: Seq<Card>, from: int, rev: bool) -> Seq<Card> {
    if rev {
        depot.skip(from).reverse()
    } else {
        depot.skip(from)
    }
}

/// The depots after every move in `acts` has landed, in order: each move
/// puts its cards on top of its destination depot.
pub open spec fn land(depots: Seq<Seq<Card>>, acts: Seq<MoveView>) -> Seq<Seq<Card>>
    decreases acts.len(),
{
    if acts.len() == 0 {
        depots
    } else {
        let before = land(depots, acts.drop_last());
        let d = acts.last().pos2.depot_index as int;
        before.update(d, before[d] + acts.last().cards)
    }
}

/// A whole move done at once: the cards of depot `pos1` from `pos1`'s card
/// onwards leave it and are put on top of depot `pos2`, reversed when `rev`
/// holds.
pub open spec fn apply_move(
    depots: Seq<Seq<Card>>,
    pos1: BoardPos,
    pos2: BoardPos,
    rev: bool,
) -> Seq<Seq<Card>> {
    let d1 = pos1.depot_index as int;
    let d2 = pos2.depot_index as int;
    let cut = depots.update(d1, depots[d1].take(pos1.card_index as int));
    cut.update(d2, cut[d2] + moved_cards(depots[d1], pos1.card_index as int, rev))
}

/// The board after [`Board::do_move`]: the cards leave their depot at once
/// and wait, in flight, for [`Board::advance_actions`]; the selection is
/// cleared.
pub open spec fn spec_do_move(b: BoardView, pos1: BoardPos, pos2: BoardPos, rev: bool) -> BoardView {
    let d1 = pos1.depot_index as int;
    BoardView {
        depots: b.depots.update(d1, b.depots[d1].take(pos1.card_index as int)),
        selected: None,
        acts: b.acts.push(
            MoveView {
                cards: moved_cards(b.depots[d1], pos1.card_index as int, rev),
                pos1,
                pos2,
                rev,
            },
        ),
    }
}

/// The board after [`Board::advance_actions`]: every card in flight has landed.
pub open spec fn spec_advance(b: BoardView) -> BoardView {
    BoardView { depots: land(b.depots, b.acts), selected: b.selected, acts: Seq::empty() }
}

/// One card in flight: the place it left and the place it lands on.
#[derive(Clone, Copy, Debug, PartialEq, Eq, Structural)]
pub struct Flight {
    pub card: Card,
    pub from: BoardPos,
    pub to: BoardPos,
}

/// The flights of the cards of one move, in the order in which they land:
/// the `k`-th card lands `k` places above `pos2`, and left from `k` places
/// above `pos1`, or, for a move that reverses the cards, from `k` places
/// below the top of the cards it lifted.
pub open spec fn act_flights(a: MoveView) -> Seq<Flight> {
    let n = a.cards.len() as int;
    Seq::new(
        a.cards.len(),
        |k: int|
            Flight {
                card: a.cards[k],
                from: BoardPos {
                    depot_index: a.pos1.depot_index,
                    card_index: (if a.rev {
                        a.pos1.card_index + (n - 1 - k)
                    } else {
                        a.pos1.card_index + k
                    }) as usize,
                },
                to: BoardPos {
                    depot_index: a.pos2.depot_index,
                    card_index: (a.pos2.card_index + k) as usize,
                },
            },
    )
}

/// The flights of every card in flight, move after move.
pub open spec fn all_flights(acts: Seq<MoveView>) -> Seq<Flight>
    decreases acts.len(),
{
    if acts.len() == 0 {
        Seq::empty()
    } else {
        all_flights(acts.drop_last()) + act_flights(acts.last())
    }
}

/// The places of a move's cards, counted up from where they left and from
/// where they land, fit in `usize`.
pub open spec fn flight_fits(a: MoveView) -> bool {
    &&& a.pos1.card_index + a.cards.len() <= usize::MAX
    &&& a.pos2.card_index + a.cards.len() <= usize::MAX
}

/// Each card of a move flies from the place it lay on to the place it lands
/// on: when nothing else is in flight and the move goes right on top of
/// another depot, the card of each flight lay at the flight's start before
/// the move and lies at its end once the cards have landed.
pub proof fn law_flights_follow_the_cards(
    b: BoardView,
    pos1: BoardPos,
    pos2: BoardPos,
    rev: bool,
    k: int,
)
    requires
        b.acts.len() == 0,
        pos1.depot_index != pos2.depot_index,
        pos1.depot_index < b.depots.len(),
        pos2.depot_index < b.depots.len(),
        pos1.card_index <= b.depots[pos1.depot_index as int].len(),
        pos2.card_index == b.depots[pos2.depot_index as int].len(),
        b.depots[pos2.depot_index as int].len() + b.depots[pos1.depot_index as int].len()
            <= usize::MAX,
        0 <= k < b.depots[pos1.depot_index as int].len() - pos1.card_index,
    ensures
        ({
            let moved = spec_do_move(b, pos1, pos2, rev);
            let f = all_flights(moved.acts)[k];
            &&& all_flights(moved.acts).len() == b.depots[pos1.depot_index as int].len()
                - pos1.card_index
            &&& f.from.depot_index == pos1.depot_index
            &&& f.to.depot_index == pos2.depot_index
            &&& b.depots[pos1.depot_index as int][f.from.card_index as int] == f.card
            &&& spec_advance(moved).depots[pos2.depot_index as int][f.to.card_index as int]
                == f.card
        }),
{
    let d1 = pos1.depot_index as int;
    let d2 = pos2.depot_index as int;
    let c = pos1.card_index as int;
    let moved = spec_do_move(b, pos1, pos2, rev);
    let a = moved.acts.last();
    assert(moved.acts.drop_last() =~= Seq::<MoveView>::empty());
    assert(moved.acts.drop_last().len() == 0);
    assert(all_flights(moved.acts.drop_last()) == Seq::<Flight>::empty());
    assert(all_flights(moved.acts) =~= act_flights(a));
    let n = b.depots[d1].len() - c;
    assert(a.cards.len() == n);
    assert(land(moved.depots, moved.acts.drop_last()) == moved.depots);
    assert(land(moved.depots, moved.acts)[d2] == moved.depots[d2] + a.cards);
    assert(moved.depots[d2] == b.depots[d2]);
    let f = all_flights(moved.acts)[k];
    assert((moved.depots[d2] + a.cards)[pos2.card_index + k] == a.cards[k]);
    assert(f.to.card_index == pos2.card_index + k);
    if rev {
        assert(f.from.card_index == c + (n - 1 - k));
        assert(a.cards[k] == b.depots[d1].skip(c)[n - 1 - k]);
    } else {
        assert(f.from.card_index == c + k);
        assert(a.cards[k] == b.depots[d1].skip(c)[k]);
    }
}

/// The depots of a fresh deal: card `i` of the deal goes to tableau column
/// `i % 4`, so column `t` holds the cards `t`, `t + 4`, `t + 8`, ... from the
/// bottom up; every other depot is empty.
pub open spec fn dealt_depots(deal: Seq<Card>) -> Seq<Seq<Card>> {
    Seq::new(
        NUM_DEPOTS as nat,
        |d: int|
            if d < 4 {
                Seq::new(((deal.len() - d + 3) / 4) as nat, |k: int| deal[4 * k + d])
            } else {
                Seq::<Card>::empty()
            },
    )
}

/// Landing keeps the number of depots and never shrinks a depot; a depot
/// that no move lands on is left as it was.
pub proof fn lemma_land_grows(depots: Seq<Seq<Card>>, acts: Seq<MoveView>)
    requires
        forall|i: int| 0 <= i < acts.len() ==> (#[trigger] acts[i]).pos2.depot_index < depots.len(),
    ensures
        land(depots, acts).len() == depots.len(),
        forall|j: int|
            0 <= j < depots.len() ==> #[trigger] land(depots, acts)[j].len() >= depots[j].len(),
        forall|j: int|
            0 <= j < depots.len() && (forall|i: int|
                0 <= i < acts.len() ==> (#[trigger] acts[i]).pos2.depot_index != j)
                ==> #[trigger] land(depots, acts)[j] == depots[j],
    decreases acts.len(),
{
    if acts.len() > 0 {
        let prev = acts.drop_last();
        assert forall|i: int| 0 <= i < prev.len() implies (#[trigger] prev[i]).pos2.depot_index
            < depots.len() by {
            assert(prev[i] == acts[i]);
        }
        lemma_land_grows(depots, prev);
        assert forall|j: int|
            0 <= j < depots.len() && (forall|i: int|
                0 <= i < acts.len() ==> (#[trigger] acts[i]).pos2.depot_index != j)
                implies #[trigger] land(depots, acts)[j] == depots[j] by {
            assert forall|i: int| 0 <= i < prev.len() implies (#[trigger] prev[i]).pos2.depot_index
                != j by {
                assert(prev[i] == acts[i]);
            }
            assert(acts[acts.len() - 1].pos2.depot_index != j);
        }
    }
}

/// Changing a depot that no move in flight lands on commutes with landing.
pub proof fn lemma_land_update_untouched(
    depots: Seq<Seq<Card>>,
    acts: Seq<MoveView>,
    j: int,
    x: Seq<Card>,
)
    requires
        0 <= j < depots.len(),
        forall|i: int| 0 <= i < acts.len() ==> (#[trigger] acts[i]).pos2.depot_index < depots.len(),
        forall|i: int| 0 <= i < acts.len() ==> (#[trigger] acts[i]).pos2.depot_index != j,
    ensures
        land(depots.update(j, x), acts) == land(depots, acts).update(j, x),
    decreases acts.len(),
{
    if acts.len() > 0 {
        let prev = acts.drop_last();
        assert forall|i: int| 0 <= i < prev.len() implies (#[trigger] prev[i]).pos2.depot_index
            < depots.len() && prev[i].pos2.depot_index != j by {
            assert(prev[i] == acts[i]);
        }
        lemma_land_update_untouched(depots, prev, j, x);
        lemma_land_grows(depots, prev);
        let last = acts[acts.len() - 1];
        assert(last.pos2.depot_index != j);
        assert(land(depots.update(j, x), acts) =~= land(depots, acts).update(j, x));
    }
}

/// Lifting cards while others are in flight, from a depot none of them
/// lands on, and then landing everything, is the same as landing first and
/// then making the whole move at once.
pub proof fn lemma_landed_do_move(b: BoardView, pos1: BoardPos, pos2: BoardPos, rev: bool)
    requires
        b.shaped(),
        pos1.depot_index < NUM_DEPOTS,
        pos2.depot_index < NUM_DEPOTS,
        pos1.card_index <= b.depots[pos1.depot_index as int].len(),
        forall|i: int|
            0 <= i < b.acts.len() ==> (#[trigger] b.acts[i]).pos2.depot_index != pos1.depot_index,
    ensures
        spec_do_move(b, pos1, pos2, rev).landed() == apply_move(b.landed(), pos1, pos2, rev),
        spec_do_move(b, pos1, pos2, rev).wf(),
{
    let d1 = pos1.depot_index as int;
    let post = spec_do_move(b, pos1, pos2, rev);
    let cut = b.depots.update(d1, b.depots[d1].take(pos1.card_index as int));
    lemma_land_update_untouched(b.depots, b.acts, d1, b.depots[d1].take(pos1.card_index as int));
    lemma_land_grows(b.depots, b.acts);
    assert(post.acts.drop_last() =~= b.acts);
    assert(post.landed() =~= apply_move(b.landed(), pos1, pos2, rev));
}

/// A move followed by the move back (from where the cards landed to where
/// they came from, reversed again when the move reversed them) leaves the
/// depots as they were.
pub proof fn lemma_move_then_back(depots: Seq<Seq<Card>>, pos1: BoardPos, pos2: BoardPos, rev: bool)
    requires
        pos1.depot_index != pos2.depot_index,
        pos1.depot_index < depots.len(),
        pos2.depot_index < depots.len(),
        pos1.card_index <= depots[pos1.depot_index as int].len(),
        pos2.card_index == depots[pos2.depot_index as int].len(),
    ensures
        apply_move(depots, pos1, pos2, rev)[pos2.depot_index as int].len() >= pos2.card_index,
        apply_move(apply_move(depots, pos1, pos2, rev), pos2, pos1, rev) == depots,
{
    let d1 = pos1.depot_index as int;
    let d2 = pos2.depot_index as int;
    let c1 = pos1.card_index as int;
    let after = apply_move(depots, pos1, pos2, rev);
    let m = moved_cards(depots[d1], c1, rev);
    assert(after[d2] == depots[d2] + m);
    assert(after[d2].take(pos2.card_index as int) =~= depots[d2]);
    assert(after[d2].skip(pos2.card_index as int) =~= m);
    let back = moved_cards(after[d2], pos2.card_index as int, rev);
    assert(back =~= depots[d1].skip(c1));
    assert(after[d1] == depots[d1].take(c1));
    assert(after[d1] + back =~= depots[d1]);
    let cut2 = after.update(d2, after[d2].take(pos2.card_index as int));
    assert(cut2[d1] == after[d1]);
    assert(apply_move(after, pos2, pos1, rev) == cut2.update(d1, cut2[d1] + back));
    assert(apply_move(after, pos2, pos1, rev) =~= depots);
}

/// The number of cards in all the depots together.
pub open spec fn total_cards(depots: Seq<Seq<Card>>) -> nat
    decreases depots.len(),
{
    if depots.len() == 0 {
        0
    } else {
        total_cards(depots.drop_last()) + depots.last().len()
    }
}

/// Replacing one depot changes the total by the difference in size, and no
/// depot holds more cards than the total.
pub proof fn lemma_total_update(depots: Seq<Seq<Card>>, j: int, x: Seq<Card>)
    requires
        0 <= j < depots.len(),
    ensures
        total_cards(depots.update(j, x)) + depots[j].len() == total_cards(depots) + x.len(),
        total_cards(depots) >= depots[j].len(),
    decreases depots.len(),
{
    let u = depots.update(j, x);
    if j < depots.len() - 1 {
        assert(u.drop_last() =~= depots.drop_last().update(j, x));
        lemma_total_update(depots.drop_last(), j, x);
    } else {
        assert(u.drop_last() =~= depots.drop_last());
    }
}

/// When no depot holds more than `m` cards, all of them together hold no
/// more than `m` for each depot.
pub proof fn lemma_total_at_most(depots: Seq<Seq<Card>>, m: int)
    requires
        0 <= m,
        forall|i: int| 0 <= i < depots.len() ==> #[trigger] depots[i].len() <= m,
    ensures
        total_cards(depots) <= depots.len() * m,
    decreases depots.len(),
{
    if depots.len() > 0 {
        let rest = depots.drop_last();
        assert forall|i: int| 0 <= i < rest.len() implies #[trigger] rest[i].len() <= m by {
            assert(rest[i] == depots[i]);
        }
        lemma_total_at_most(rest, m);
        let n = depots.len() as int;
        assert((n - 1) * m + m == n * m) by (nonlinear_arith);
    }
}

/// No depot holds more cards than all of them together.
pub proof fn lemma_total_bounds(depots: Seq<Seq<Card>>)
    ensures
        forall|j: int| 0 <= j < depots.len() ==> #[trigger] depots[j].len() <= total_cards(depots),
{
    assert forall|j: int| 0 <= j < depots.len() implies #[trigger] depots[j].len() <= total_cards(
        depots,
    ) by {
        lemma_total_update(depots, j, depots[j]);
    }
}

/// A move neither creates nor loses cards.
pub proof fn lemma_total_apply_move(depots: Seq<Seq<Card>>, pos1: BoardPos, pos2: BoardPos, rev: bool)
    requires
        pos1.depot_index < depots.len(),
        pos2.depot_index < depots.len(),
        pos1.card_index <= depots[pos1.depot_index as int].len(),
    ensures
        total_cards(apply_move(depots, pos1, pos2, rev)) == total_cards(depots),
{
    let d1 = pos1.depot_index as int;
    let d2 = pos2.depot_index as int;
    let c = pos1.card_index as int;
    let cut = depots.update(d1, depots[d1].take(c));
    let m = moved_cards(depots[d1], c, rev);
    assert(m.len() == depots[d1].len() - c);
    lemma_total_update(depots, d1, depots[d1].take(c));
    lemma_total_update(cut, d2, cut[d2] + m);
}

/// Depots past the first `k` that are empty add nothing to the total.
pub proof fn lemma_total_empty_tail(depots: Seq<Seq<Card>>, k: int)
    requires
        0 <= k <= depots.len(),
        forall|i: int| k <= i < depots.len() ==> #[trigger] depots[i].len() == 0,
    ensures
        total_cards(depots) == total_cards(depots.take(k)),
    decreases depots.len(),
{
    if depots.len() > k {
        let rest = depots.drop_last();
        assert forall|i: int| k <= i < rest.len() implies #[trigger] rest[i].len() == 0 by {
            assert(rest[i] == depots[i]);
        }
        lemma_total_empty_tail(rest, k);
        assert(rest.take(k) =~= depots.take(k));
    } else {
        assert(depots.take(k) =~= depots);
    }
}

/// Dealing puts every card of the deal on the board.
pub proof fn lemma_total_dealt(deal: Seq<Card>)
    ensures
        total_cards(dealt_depots(deal)) == deal.len(),
{
    let d = dealt_depots(deal);
    let n = deal.len() as int;
    lemma_total_empty_tail(d, 4);
    assert(d.take(4).drop_last() =~= d.take(3));
    assert(d.take(3).drop_last() =~= d.take(2));
    assert(d.take(2).drop_last() =~= d.take(1));
    assert(d.take(1).drop_last() =~= d.take(0));
    assert(total_cards(d.take(0)) == 0);
    assert(total_cards(d.take(1)) == d[0].len());
    assert(total_cards(d.take(2)) == d[0].len() + d[1].len());
    assert(total_cards(d.take(3)) == d[0].len() + d[1].len() + d[2].len());
    assert(total_cards(d.take(4)) == d[0].len() + d[1].len() + d[2].len() + d[3].len());
    assert(d[0].len() + d[1].len() + d[2].len() + d[3].len() == (n + 3) / 4 + (n + 2) / 4 + (n
        + 1) / 4 + n / 4);
    assert((n + 3) / 4 + (n + 2) / 4 + (n + 1) / 4 + n / 4 == n) by (nonlinear_arith)
        requires
            n >= 0,
    ;
}

/// All the cards in the depots, counted with their multiplicity.
pub open spec fn cards_of(depots: Seq<Seq<Card>>) -> Multiset<Card>
    decreases depots.len(),
{
    if depots.len() == 0 {
        Multiset::empty()
    } else {
        cards_of(depots.drop_last()).add(depots.last().to_multiset())
    }
}

/// Replacing one depot takes its cards out of the whole and puts the new
/// depot's cards in.
pub proof fn lemma_cards_update(depots: Seq<Seq<Card>>, j: int, x: Seq<Card>)
    requires
        0 <= j < depots.len(),
    ensures
        cards_of(depots.update(j, x)).add(depots[j].to_multiset()) == cards_of(depots).add(
            x.to_multiset(),
        ),
    decreases depots.len(),
{
    broadcast use vstd::multiset::group_multiset_axioms;

    let u = depots.update(j, x);
    if j < depots.len() - 1 {
        let rest = depots.drop_last();
        assert(u.drop_last() =~= rest.update(j, x));
        lemma_cards_update(rest, j, x);
        assert(u.last() == depots.last());
        assert(rest[j] == depots[j]);
        assert(cards_of(u) == cards_of(rest.update(j, x)).add(depots.last().to_multiset()));
        assert(cards_of(depots) == cards_of(rest).add(depots.last().to_multiset()));
        let c1 = cards_of(rest.update(j, x));
        let c0 = cards_of(rest);
        assert forall|v: Card| #[trigger] cards_of(u).add(depots[j].to_multiset()).count(v)
            == cards_of(depots).add(x.to_multiset()).count(v) by {
            assert(c1.add(depots[j].to_multiset()).count(v) == c0.add(x.to_multiset()).count(v));
        }
        assert(cards_of(u).add(depots[j].to_multiset()) =~= cards_of(depots).add(x.to_multiset()));
    } else {
        assert(u.drop_last() =~= depots.drop_last());
        assert(cards_of(u).add(depots[j].to_multiset()) =~= cards_of(depots).add(x.to_multiset()));
    }
}

/// A move neither creates nor loses a card: the board holds the same cards
/// before and after it.
pub proof fn lemma_cards_apply_move(depots: Seq<Seq<Card>>, pos1: BoardPos, pos2: BoardPos, rev: bool)
    requires
        pos1.depot_index < depots.len(),
        pos2.depot_index < depots.len(),
        pos1.card_index <= depots[pos1.depot_index as int].len(),
    ensures
        cards_of(apply_move(depots, pos1, pos2, rev)) == cards_of(depots),
{
    broadcast use vstd::multiset::group_multiset_axioms;

    let d1 = pos1.depot_index as int;
    let d2 = pos2.depot_index as int;
    let c = pos1.card_index as int;
    let cut = depots.update(d1, depots[d1].take(c));
    let m = moved_cards(depots[d1], c, rev);
    let moved = apply_move(depots, pos1, pos2, rev);
    lemma_cards_update(depots, d1, depots[d1].take(c));
    lemma_cards_update(cut, d2, cut[d2] + m);
    vstd::seq_lib::lemma_multiset_commutative(cut[d2], m);
    assert(depots[d1] =~= depots[d1].take(c) + depots[d1].skip(c));
    vstd::seq_lib::lemma_multiset_commutative(depots[d1].take(c), depots[d1].skip(c));
    if rev {
        depots[d1].skip(c).lemma_reverse_to_multiset();
    }
    assert(m.to_multiset() == depots[d1].skip(c).to_multiset());
    let take_ms = depots[d1].take(c).to_multiset();
    let m_ms = m.to_multiset();
    assert forall|v: Card| #[trigger] cards_of(moved).count(v) == cards_of(depots).count(v) by {
        assert(cards_of(moved).add(cut[d2].to_multiset()).count(v) == cards_of(cut).add(
            (cut[d2] + m).to_multiset(),
        ).count(v));
        assert(cards_of(cut).add(depots[d1].to_multiset()).count(v) == cards_of(depots).add(
            take_ms,
        ).count(v));
        assert(depots[d1].to_multiset() == (depots[d1].take(c) + depots[d1].skip(c)).to_multiset());
    }
    assert(cards_of(moved) =~= cards_of(depots));
}

/// A board whose depots are all empty holds no card.
pub proof fn lemma_cards_all_empty(depots: Seq<Seq<Card>>)
    requires
        forall|i: int| 0 <= i < depots.len() ==> #[trigger] depots[i].len() == 0,
    ensures
        cards_of(depots) == Multiset::<Card>::empty(),
    decreases depots.len(),
{
    broadcast use {
        vstd::multiset::group_multiset_axioms,
        vstd::multiset::group_multiset_properties,
        vstd::seq_lib::group_to_multiset_ensures,
    };

    if depots.len() > 0 {
        let rest = depots.drop_last();
        assert forall|i: int| 0 <= i < rest.len() implies #[trigger] rest[i].len() == 0 by {
            assert(rest[i] == depots[i]);
        }
        lemma_cards_all_empty(rest);
        assert(depots.last().to_multiset().len() == 0);
        assert(depots.last().to_multiset() =~= Multiset::<Card>::empty());
        assert(cards_of(depots) =~= Multiset::<Card>::empty());
    }
}

/// Dealing puts exactly the cards of the deal on the board.
pub proof fn lemma_cards_dealt(deal: Seq<Card>)
    ensures
        cards_of(dealt_depots(deal)) == deal.to_multiset(),
    decreases deal.len(),
{
    broadcast use {
        vstd::multiset::group_multiset_axioms,
        vstd::multiset::group_multiset_properties,
        vstd::seq_lib::group_to_multiset_ensures,
    };

    let d = dealt_depots(deal);
    if deal.len() == 0 {
        lemma_cards_all_empty(d);
        assert(deal.to_multiset().len() == 0);
        assert(deal.to_multiset() =~= Multiset::<Card>::empty());
    } else {
        let prefix = deal.drop_last();
        let c = deal.last();
        let n = prefix.len() as int;
        let t = n % 4;
        let q = n / 4;
        assert(n == 4 * q + t);
        let before = dealt_depots(prefix);
        let grown = before.update(t, before[t].push(c));
        assert forall|u: int| 0 <= u < NUM_DEPOTS implies #[trigger] d[u] =~= grown[u] by {
            if u < 4 {
                if u == t {
                    assert((n + 1 - u + 3) / 4 == q + 1);
                    assert((n - u + 3) / 4 == q);
                    assert(4 * q + u == n);
                } else if u < t {
                    assert((n + 1 - u + 3) / 4 == q + 1);
                    assert((n - u + 3) / 4 == q + 1);
                } else {
                    assert((n + 1 - u + 3) / 4 == q);
                    assert((n - u + 3) / 4 == q);
                }
            }
        }
        assert(d =~= grown);
        lemma_cards_dealt(prefix);
        lemma_cards_update(before, t, before[t].push(c));
        assert(deal =~= prefix.push(c));
        assert(before[t].push(c).to_multiset() =~= before[t].to_multiset().insert(c));
        assert(prefix.push(c).to_multiset() =~= prefix.to_multiset().insert(c));
        assert forall|v: Card| #[trigger] cards_of(d).count(v) == deal.to_multiset().count(v) by {
            assert(cards_of(grown).add(before[t].to_multiset()).count(v) == cards_of(before).add(
                before[t].push(c).to_multiset(),
            ).count(v));
        }
        assert(cards_of(d) =~= deal.to_multiset());
    }
}

impl BoardView {
    /// Fifteen depots, and every move in flight lands on one of them.
    pub open spec fn shaped(self) -> bool {
        &&& self.depots.len() == NUM_DEPOTS
        &&& forall|i: int|
            0 <= i < self.acts.len() ==> (#[trigger] self.acts[i]).pos2.depot_index < NUM_DEPOTS
    }

    /// A shaped board whose selection, if any, names a card that is on it.
    pub open spec fn wf(self) -> bool {
        &&& self.shaped()
        &&& self.selected matches Some(p) ==> p.depot_index < NUM_DEPOTS && p.card_index
            < self.depots[p.depot_index as int].len()
    }

    /// The depots once every card in flight has landed.
    pub open spec fn landed(self) -> Seq<Seq<Card>> {
        land(self.depots, self.acts)
    }

    pub open spec fn is_acting(self) -> bool {
        self.acts.len() != 0
    }
}


/// The cards of `v` in reverse order.
fn reversed(v: &Vec<Card>) -> (r: Vec<Card>)
    ensures
        r@ == v@.reverse(),
{
    let mut r: Vec<Card> = Vec::new();
    let mut i: usize = v.len();
    while i > 0
        invariant
            i <= v.len(),
            r@.len() == v.len() - i,
            forall|j: int| 0 <= j < r@.len() ==> r@[j] == v@[v.len() - 1 - j],
        decreases i,
    {
        i = i - 1;
        r.push(v[i]);
    }
    assert(r@ =~= v@.reverse());
    r
}

impl Board {
    /// A board with fifteen empty depots, nothing selected and nothing in flight.
    pub fn empty() -> (res: Board)
        ensures
            res@.depots == Seq::new(NUM_DEPOTS as nat, |d: int| Seq::<Card>::empty()),
            res@.selected is None,
            res@.acts == Seq::<MoveView>::empty(),
            res@.wf(),
    {
        let mut depots: Vec<Vec<Card>> = Vec::new();
        let mut i: usize = 0;
        while i < NUM_DEPOTS
            invariant
                i <= NUM_DEPOTS,
                depots@.len() == i,
                forall|j: int| 0 <= j < i ==> (#[trigger] depots@[j])@ == Seq::<Card>::empty(),
            decreases NUM_DEPOTS - i,
        {
            depots.push(Vec::new());
            i = i + 1;
        }
        let res = Board { depots, selected: None, animation_acts: Vec::new() };
        assert(res@.depots =~= Seq::new(NUM_DEPOTS as nat, |d: int| Seq::<Card>::empty()));
        assert(res@.acts =~= Seq::<MoveView>::empty());
        res
    }

    /// Deals `deal` onto the tableau: card `i` goes to column `i % 4`.
    pub fn from_deal(deal: &Vec<Card>) -> (res: Board)
        ensures
            res@.depots == dealt_depots(deal@),
            res@.selected is None,
            res@.acts == Seq::<MoveView>::empty(),
            res@.wf(),
    {
        let mut board = Board::empty();
        proof {
            assert forall|t: int| 0 <= t < NUM_DEPOTS implies (#[trigger] board.depots@[t])@
                == Seq::<Card>::empty() by {
                assert(board@.depots[t] == board.depots@[t]@);
            }
            assert(board.animation_acts@.len() == board@.acts.len());
            assert forall|t: int| 0 <= t < 4 implies (#[trigger] board.depots@[t])@ == Seq::new(
                ((0 - t + 3) / 4) as nat,
                |k: int| deal@[4 * k + t],
            ) by {
                assert(board.depots@[t]@ =~= Seq::new(
                    ((0 - t + 3) / 4) as nat,
                    |k: int| deal@[4 * k + t],
                ));
            }
        }
        let mut i: usize = 0;
        while i < deal.len()
            invariant
                i <= deal.len(),
                board.depots@.len() == NUM_DEPOTS,
                board.selected is None,
                board.animation_acts@.len() == 0,
                forall|t: int|
                    0 <= t < 4 ==> (#[trigger] board.depots@[t])@ == Seq::new(
                        ((i - t + 3) / 4) as nat,
                        |k: int| deal@[4 * k + t],
                    ),
                forall|t: int|
                    4 <= t < NUM_DEPOTS ==> (#[trigger] board.depots@[t])@ == Seq::<Card>::empty(),
            decreases deal.len() - i,
        {
            let c = deal[i];
            let t = i % 4;
            board.depots[t].push(c);
            proof {
                assert forall|u: int| 0 <= u < 4 implies (#[trigger] board.depots@[u])@ == Seq::new(
                    ((i + 1 - u + 3) / 4) as nat,
                    |k: int| deal@[4 * k + u],
                ) by {
                    if u == t {
                        assert(board.depots@[u]@ =~= Seq::new(
                            ((i + 1 - u + 3) / 4) as nat,
                            |k: int| deal@[4 * k + u],
                        ));
                    } else {
                        assert((i + 1 - u + 3) / 4 == (i - u + 3) / 4);
                    }
                }
            }
            i = i + 1;
        }
        assert(board@.depots =~= dealt_depots(deal@));
        assert(board@.acts =~= Seq::<MoveView>::empty());
        board
    }

    /// Lifts the cards of depot `pos1` from `pos1`'s card onwards and sends
    /// them, reversed when `rev` holds, towards depot `pos2`; they land there
    /// on the next [`Board::advance_actions`]. Clears the selection.
    pub fn do_move(&mut self, pos1: BoardPos, pos2: BoardPos, rev: bool)
        requires
            pos1.depot_index < old(self).depots@.len(),
            pos1.card_index <= old(self).depots@[pos1.depot_index as int]@.len(),
        ensures
            final(self)@ == spec_do_move(old(self)@, pos1, pos2, rev),
            final(self).depots@.len() == old(self).depots@.len(),
            old(self)@.wf() && pos2.depot_index < NUM_DEPOTS ==> final(self)@.wf(),
    {
        let taken = self.depots[pos1.depot_index].split_off(pos1.card_index);
        let cards = if rev {
            reversed(&taken)
        } else {
            taken
        };
        self.animation_acts.push(AnimationAct::Move { cards, pos1, pos2, rev });
        self.selected = None;
        proof {
            let post = spec_do_move(old(self)@, pos1, pos2, rev);
            assert(self@.depots =~= post.depots);
            assert(self@.acts =~= post.acts);
        }
    }

    /// Lands every card in flight, move after move, on top of its destination.
    pub fn advance_actions(&mut self)
        requires
            forall|i: int|
                0 <= i < old(self)@.acts.len() ==> (#[trigger] old(self)@.acts[i]).pos2.depot_index
                    < old(self)@.depots.len(),
        ensures
            final(self)@ == spec_advance(old(self)@),
            final(self).depots@.len() == old(self).depots@.len(),
            old(self)@.wf() ==> final(self)@.wf(),
    {
        let ghost start = self@;
        let mut acts: Vec<AnimationAct> = Vec::new();
        std::mem::swap(&mut acts, &mut self.animation_acts);
        let n = acts.len();
        let mut i: usize = 0;
        while i < n
            invariant
                n == acts@.len(),
                i <= n,
                acts@.map_values(|a: AnimationAct| a@) == start.acts,
                self.animation_acts@.len() == 0,
                self.selected == start.selected,
                self.depots@.len() == start.depots.len(),
                forall|j: int|
                    0 <= j < start.acts.len() ==> (#[trigger] start.acts[j]).pos2.depot_index
                        < start.depots.len(),
                self@.depots == land(start.depots, start.acts.take(i as int)),
            decreases n - i,
        {
            let ghost before = self@.depots;
            match &acts[i] {
                AnimationAct::Move { cards, pos1: _, pos2, rev: _ } => {
                    let d = pos2.depot_index;
                    assert(acts@[i as int]@ == start.acts[i as int]);
                    let mut k: usize = 0;
                    while k < cards.len()
                        invariant
                            k <= cards@.len(),
                            d < self.depots@.len(),
                            self.animation_acts@.len() == 0,
                            self.selected == start.selected,
                            self.depots@.len() == before.len(),
                            forall|j: int|
                                0 <= j < before.len() && j != d ==> (#[trigger] self.depots@[j])@
                                    == before[j],
                            self.depots@[d as int]@ == before[d as int] + cards@.take(k as int),
                        decreases cards@.len() - k,
                    {
                        self.depots[d].push(cards[k]);
                        proof {
                            assert(cards@.take(k as int + 1) =~= cards@.take(k as int).push(
                                cards@[k as int],
                            ));
                        }
                        k = k + 1;
                    }
                    proof {
                        assert(cards@.take(cards@.len() as int) =~= cards@);
                        assert(start.acts.take(i + 1).drop_last() =~= start.acts.take(i as int));
                        assert(self@.depots =~= land(start.depots, start.acts.take(i + 1)));
                    }
                },
            }
            i = i + 1;
        }
        proof {
            assert(start.acts.take(n as int) =~= start.acts);
            assert(self@.acts =~= Seq::<MoveView>::empty());
            lemma_land_grows(start.depots, start.acts);
        }
    }

    /// The place of the top card of `depot`.
    pub fn last_pos(&self, depot: usize) -> (res: BoardPos)
        requires
            depot < self.depots@.len(),
            self.depots@[depot as int]@.len() > 0,
        ensures
            res.depot_index == depot,
            res.card_index == self.depots@[depot as int]@.len() - 1,
    {
        BoardPos::new(depot, self.depots[depot].len() - 1)
    }

    /// Every card in flight, move after move, with the place it left and the
    /// place it lands on, for drawing the cards as they fly.
    pub fn flights(&self) -> (res: Vec<Flight>)
        requires
            forall|i: int| 0 <= i < self@.acts.len() ==> #[trigger] flight_fits(self@.acts[i]),
        ensures
            res@ == all_flights(self@.acts),
    {
        let ghost acts = self@.acts;
        let mut res: Vec<Flight> = Vec::new();
        let mut i: usize = 0;
        while i < self.animation_acts.len()
            invariant
                acts == self@.acts,
                i <= acts.len(),
                forall|j: int| 0 <= j < acts.len() ==> #[trigger] flight_fits(acts[j]),
                res@ == all_flights(acts.take(i as int)),
            decreases acts.len() - i,
        {
            let ghost done = res@;
            match &self.animation_acts[i] {
                AnimationAct::Move { cards, pos1, pos2, rev } => {
                    let ghost a = acts[i as int];
                    assert(a == self.animation_acts@[i as int]@);
                    assert(flight_fits(a));
                    let n = cards.len();
                    let mut k: usize = 0;
                    while k < n
                        invariant
                            n == a.cards.len(),
                            cards@ == a.cards,
                            *pos1 == a.pos1,
                            *pos2 == a.pos2,
                            *rev == a.rev,
                            flight_fits(a),
                            k <= n,
                            res@ == done + act_flights(a).take(k as int),
                        decreases n - k,
                    {
                        let from = if *rev {
                            pos1.card_index + (n - 1 - k)
                        } else {
                            pos1.card_index + k
                        };
                        res.push(
                            Flight {
                                card: cards[k],
                                from: BoardPos::new(pos1.depot_index, from),
                                to: BoardPos::new(pos2.depot_index, pos2.card_index + k),
                            },
                        );
                        proof {
                            assert(act_flights(a).take(k + 1) =~= act_flights(a).take(
                                k as int,
                            ).push(act_flights(a)[k as int]));
                        }
                        k = k + 1;
                    }
                    proof {
                        assert(act_flights(a).take(n as int) =~= act_flights(a));
                        assert(acts.take(i + 1).drop_last() =~= acts.take(i as int));
                        assert(acts.take(i + 1).last() == a);
                    }
                },
            }
            i = i + 1;
        }
        proof {
            assert(acts.take(acts.len() as int) =~= acts);
        }
        res
    }

    /// How many cards the selection spans: in a tableau column, the selected
    /// card and every card above it; elsewhere the selected card alone; none
    /// when nothing is selected.
    pub fn selection_span(&self) -> (n: usize)
        requires
            self@.selected matches Some(p) ==> p.depot_index < self@.depots.len()
                && p.card_index < self@.depots[p.depot_index as int].len(),
        ensures
            n == match self@.selected {
                None => 0,
                Some(p) => if DepotRole::spec_role(p.depot_index) == Some(DepotRole::Tableau) {
                    self@.depots[p.depot_index as int].len() - p.card_index
                } else {
                    1
                },
            },
    {
        match self.selected {
            None => 0,
            Some(p) => {
                proof {
                    assert(self@.depots[p.depot_index as int] == self.depots@[p.depot_index as int]@);
                }
                match DepotRole::role(p.depot_index) {
                    Some(DepotRole::Tableau) => self.depots[p.depot_index].len() - p.card_index,
                    _ => 1,
                }
            },
        }
    }

    /// The place just above the top card of `depot`, where the next card lands.
    pub fn top_pos(&self, depot: usize) -> (res: BoardPos)
        requires
            depot < self.depots@.len(),
        ensures
            res.depot_index == depot,
            res.card_index == self.depots@[depot as int]@.len(),
    {
        BoardPos::new(depot, self.depots[depot].len())
    }
}

} // verus!
