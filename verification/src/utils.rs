//! Run-length grouping of a sequence of items: each maximal block of items
//! equal to the block's first item, as that item and the block's length.

use vstd::laws_eq::obeys_concrete_eq;
use vstd::prelude::*;
use vstd::std_specs::cmp::PartialEqSpec;

verus! {

/// How many items at the front of `s` equal `v`, each compared by the
/// items' own equality as `item == v`.
pub open spec fn prefix_eq<T: PartialEq>(s: Seq<T>, v: T) -> nat
    decreases s.len(),
{
    if s.len() == 0 || !s[0].eq_spec(&v) {
        0
    } else {
        1 + prefix_eq(s.drop_first(), v)
    }
}

/// The length of the first run of `s`: its first item and the items right
/// after it that equal it.
pub open spec fn run_len<T: PartialEq>(s: Seq<T>) -> nat {
    if s.len() == 0 {
        0
    } else {
        1 + prefix_eq(s.drop_first(), s[0])
    }
}

/// The prefix is as long as it can be: its items equal `v`, and the item
/// right after it, if any, does not.
pub proof fn lemma_prefix_eq<T: PartialEq>(s: Seq<T>, v: T)
    ensures
        prefix_eq(s, v) <= s.len(),
        forall|k: int| 0 <= k < prefix_eq(s, v) ==> (#[trigger] s[k]).eq_spec(&v),
        prefix_eq(s, v) < s.len() ==> !s[prefix_eq(s, v) as int].eq_spec(&v),
    decreases s.len(),
{
    if s.len() > 0 && s[0].eq_spec(&v) {
        let t = s.drop_first();
        lemma_prefix_eq(t, v);
        assert forall|k: int| 0 <= k < prefix_eq(s, v) implies (#[trigger] s[k]).eq_spec(&v) by {
            if k > 0 {
                assert(s[k] == t[k - 1]);
            }
        }
        if prefix_eq(s, v) < s.len() {
            assert(s[prefix_eq(s, v) as int] == t[prefix_eq(t, v) as int]);
        }
    }
}

/// The first run of a non-empty sequence: at least its first item, every
/// later item in it equals the first, and the item after it does not.
pub proof fn lemma_run_len<T: PartialEq>(s: Seq<T>)
    requires
        s.len() > 0,
    ensures
        1 <= run_len(s) <= s.len(),
        forall|k: int| 1 <= k < run_len(s) ==> (#[trigger] s[k]).eq_spec(&s[0]),
        run_len(s) < s.len() ==> !s[run_len(s) as int].eq_spec(&s[0]),
{
    let t = s.drop_first();
    lemma_prefix_eq(t, s[0]);
    assert forall|k: int| 1 <= k < run_len(s) implies (#[trigger] s[k]).eq_spec(&s[0]) by {
        assert(s[k] == t[k - 1]);
    }
    if run_len(s) < s.len() {
        assert(s[run_len(s) as int] == t[prefix_eq(t, s[0]) as int]);
    }
}

/// A run of length `c` found item by item is the first run.
proof fn lemma_run_len_exact<T: PartialEq>(s: Seq<T>, c: int)
    requires
        1 <= c <= s.len(),
        forall|k: int| 1 <= k < c ==> (#[trigger] s[k]).eq_spec(&s[0]),
        c < s.len() ==> !s[c].eq_spec(&s[0]),
    ensures
        run_len(s) == c,
{
    lemma_run_len(s);
    if run_len(s) < c {
        assert(s[run_len(s) as int].eq_spec(&s[0]));
    }
    if run_len(s) > c {
        assert(s[c].eq_spec(&s[0]));
    }
}

/// The runs of `s`, from the front: each run's first item and its length.
pub open spec fn runs_of<T: PartialEq>(s: Seq<T>) -> Seq<(T, nat)>
    decreases s.len(),
{
    if s.len() == 0 {
        Seq::empty()
    } else {
        let n = run_len(s);
        proof {
            lemma_run_len(s);
        }
        seq![(s[0], n)] + runs_of(s.skip(n as int))
    }
}

/// A block of `n` copies of `v`.
pub open spec fn block<T>(v: T, n: nat) -> Seq<T> {
    Seq::new(n, |i: int| v)
}

/// The items that a list of runs stands for.
pub open spec fn expand<T>(runs: Seq<(T, nat)>) -> Seq<T>
    decreases runs.len(),
{
    if runs.len() == 0 {
        Seq::empty()
    } else {
        block(runs[0].0, runs[0].1) + expand(runs.drop_first())
    }
}

/// Grouping into runs loses nothing: for items whose equality is equality
/// of values, expanding the runs of `s` gives `s` back, every run is
/// non-empty, and two neighbouring runs carry different items.
pub proof fn law_runs_expand<T: PartialEq>(s: Seq<T>)
    requires
        obeys_concrete_eq::<T>(),
    ensures
        expand(runs_of(s)) == s,
        forall|i: int| 0 <= i < runs_of(s).len() ==> (#[trigger] runs_of(s)[i]).1 >= 1,
        forall|i: int|
            0 <= i < runs_of(s).len() - 1 ==> (#[trigger] runs_of(s)[i]).0 != runs_of(s)[i + 1].0,
    decreases s.len(),
{
    reveal(obeys_concrete_eq);
    if s.len() > 0 {
        let n = run_len(s);
        lemma_run_len(s);
        let rest = s.skip(n as int);
        law_runs_expand(rest);
        let r = runs_of(s);
        assert(r == seq![(s[0], n)] + runs_of(rest));
        assert(r.drop_first() =~= runs_of(rest));
        assert forall|k: int| 0 <= k < n implies #[trigger] s.take(n as int)[k] == s[0] by {
            if k > 0 {
                assert(s[k].eq_spec(&s[0]));
            }
        }
        assert(block(s[0], n) =~= s.take(n as int));
        assert(s.take(n as int) + rest =~= s);
        assert forall|i: int| 0 <= i < r.len() implies (#[trigger] r[i]).1 >= 1 by {
            if i > 0 {
                assert(r[i] == runs_of(rest)[i - 1]);
            }
        }
        assert forall|i: int| 0 <= i < r.len() - 1 implies (#[trigger] r[i]).0 != r[i + 1].0 by {
            if i > 0 {
                assert(r[i] == runs_of(rest)[i - 1]);
                assert(r[i + 1] == runs_of(rest)[i]);
            } else {
                assert(r[1] == runs_of(rest)[0]);
                assert(rest.len() > 0);
                assert(runs_of(rest)[0].0 == rest[0]);
                assert(rest[0] == s[n as int]);
                assert(!s[n as int].eq_spec(&s[0]));
            }
        }
    }
}

/// Walks a sequence of items run by run. The items not yet grouped are
/// kept last first, so that each is taken off the end.
pub struct Runs<T> {
    rev_items: Vec<T>,
}

impl<T: PartialEq> Runs<T> {
    /// The items not yet grouped.
    pub closed spec fn rest(self) -> Seq<T> {
        self.rev_items@.reverse()
    }

    fn from_iter(items: Vec<T>) -> (res: Runs<T>)
        ensures
            res.rest() == items@,
    {
        let ghost orig = items@;
        let mut items = items;
        let mut rev_items: Vec<T> = Vec::new();
        while items.len() > 0
            invariant
                rev_items@.len() + items@.len() == orig.len(),
                items@ == orig.take(items@.len() as int),
                forall|j: int|
                    0 <= j < rev_items@.len() ==> #[trigger] rev_items@[j] == orig[orig.len() - 1 - j],
            decreases items@.len(),
        {
            let ghost before = items@;
            match items.pop() {
                Some(x) => {
                    proof {
                        assert(x == orig[before.len() - 1]);
                        assert(items@ =~= orig.take(items@.len() as int));
                    }
                    rev_items.push(x);
                },
                None => {},
            }
        }
        let res = Runs { rev_items };
        assert(res.rest() =~= orig);
        res
    }

    /// The next run: the first item not yet grouped and how many items it
    /// stands for, itself and the items right after it that equal it
    /// (compared as `item != first`, which ends the run); `None` once every
    /// item is grouped. Where the items' equality follows its
    /// specification, the runs given out one call after another are
    /// [`runs_of`] the items, in order.
    pub fn next(&mut self) -> (res: Option<(T, usize)>)
        ensures
            match res {
                None => old(self).rest().len() == 0 && final(self).rest() == old(self).rest(),
                Some((v, n)) => {
                    &&& old(self).rest().len() > 0
                    &&& v == old(self).rest()[0]
                    &&& 1 <= n <= old(self).rest().len()
                    &&& final(self).rest() == old(self).rest().skip(n as int)
                    &&& T::obeys_eq_spec() ==> {
                        &&& n == run_len(old(self).rest())
                        &&& runs_of(old(self).rest()) == seq![(v, n as nat)] + runs_of(
                            final(self).rest(),
                        )
                    }
                },
            },
    {
        let ghost rest = self.rest();
        let total = self.rev_items.len();
        let item = match self.rev_items.pop() {
            Some(x) => x,
            None => {
                return None;
            },
        };
        proof {
            assert(item == rest[0]);
            assert(self.rev_items@.reverse() =~= rest.skip(1));
        }
        let mut count: usize = 1;
        loop
            invariant
                1 <= count <= rest.len(),
                rest.len() == total,
                rest.len() == self.rev_items@.len() + count,
                item == rest[0],
                self.rev_items@.reverse() == rest.skip(count as int),
                T::obeys_eq_spec() ==> forall|k: int| 1 <= k < count ==> (#[trigger] rest[k]).eq_spec(&item),
            ensures
                1 <= count <= rest.len(),
                self.rev_items@.reverse() == rest.skip(count as int),
                T::obeys_eq_spec() ==> forall|k: int| 1 <= k < count ==> (#[trigger] rest[k]).eq_spec(&item),
                count < rest.len() ==> (T::obeys_eq_spec() ==> !rest[count as int].eq_spec(&item)),
            decreases self.rev_items@.len(),
        {
            let len = self.rev_items.len();
            if len == 0 {
                break;
            }
            proof {
                assert(rest.skip(count as int)[0] == rest[count as int]);
                assert(self.rev_items@.reverse()[0] == self.rev_items@[len - 1]);
            }
            let differs = self.rev_items[len - 1].ne(&item);
            if differs {
                break;
            }
            let ghost before = self.rev_items@;
            self.rev_items.pop();
            proof {
                assert(self.rev_items@ == before.drop_last());
                assert forall|j: int| 0 <= j < self.rev_items@.len() implies #[trigger] self.rev_items@.reverse()[j]
                    == rest.skip(count + 1)[j] by {
                    assert(before.reverse()[j + 1] == rest.skip(count as int)[j + 1]);
                }
                assert(self.rev_items@.reverse() =~= rest.skip(count + 1));
            }
            count = count + 1;
        }
        proof {
            if T::obeys_eq_spec() {
                lemma_run_len_exact(rest, count as int);
                assert(runs_of(rest) == seq![(rest[0], run_len(rest))] + runs_of(rest.skip(run_len(rest) as int)));
            }
        }
        Some((item, count))
    }
}

/// Grouping into runs.
pub trait RunsTrait<T: PartialEq> {
    /// The items that the runs group.
    spec fn run_items(&self) -> Seq<T>;

    fn runs(self) -> (r: Runs<T>)
        ensures
            r.rest() == self.run_items(),
    ;
}

impl<T: PartialEq> RunsTrait<T> for Vec<T> {
    open spec fn run_items(&self) -> Seq<T> {
        self@
    }

    fn runs(self) -> (r: Runs<T>) {
        Runs::from_iter(self)
    }
}

} // verus!
