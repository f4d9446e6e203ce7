//! What holds of the prefix tree across several operations, stated over the
//! positions that the tree holds.

use vstd::prelude::*;
use crate::counter::{amount, is_lead};
use crate::tree::{blank, ends, fuses, grow, held, hold, leader, lemma_hold, lemma_leader, lemma_prefix_chain, lemma_reach, prefix_closed, purge, reach, shed, spot, stays, Spot};

verus! {

/// One stored text: the text, the worker it was stored for, and the time.
pub type Entry = (Seq<char>, Seq<char>, u64);

/// The tree that results from storing the entries of `log`, in their order,
/// into a tree that stores nothing.
pub open spec fn filled(log: Seq<Entry>) -> Map<Seq<char>, Spot>
    decreases log.len(),
{
    if log.len() == 0 {
        blank()
    } else {
        grow(filled(log.drop_last()), log.last().0, log.last().1, log.last().2)
    }
}

/// The number of entries of `log` stored for `worker` whose text starts with `p`.
pub open spec fn stored(log: Seq<Entry>, p: Seq<char>, worker: Seq<char>) -> nat
    decreases log.len(),
{
    if log.len() == 0 {
        0
    } else {
        stored(log.drop_last(), p, worker) + if log.last().1 == worker && p.is_prefix_of(log.last().0) {
            1nat
        } else {
            0nat
        }
    }
}

/// The count that `m` holds for `worker` at `p`, zero where it does not hold `p`.
pub open spec fn tally(m: Map<Seq<char>, Spot>, p: Seq<char>, worker: Seq<char>) -> nat {
    match spot(m, p) {
        Some(s) => amount(s.counts, worker),
        None => 0,
    }
}

/// Whether no counter of `m` names `worker`.
pub open spec fn absent(m: Map<Seq<char>, Spot>, worker: Seq<char>) -> bool {
    forall|p: Seq<char>| m.contains_key(p) ==> !(#[trigger] m[p]).counts.contains_key(worker)
}

/// A tree that was filled from a log holds every prefix of every stored
/// text, has a node end at every stored text, and counts at each position,
/// for each worker, the stored texts of that worker that start with it.
pub proof fn lemma_filled(log: Seq<Entry>)
    ensures
        prefix_closed(filled(log)),
        filled(log).contains_key(Seq::empty()),
        forall|i: int| 0 <= i < log.len() ==> ends(filled(log), #[trigger] log[i].0),
        forall|p: Seq<char>, w: Seq<char>| #[trigger] tally(filled(log), p, w) == stored(log, p, w),
    decreases log.len(),
{
    let m = filled(log);
    if log.len() == 0 {
        assert forall|p: Seq<char>, n: int| m.contains_key(p) && 0 <= n <= p.len() implies #[trigger] m.contains_key(p.take(n)) by {
            assert(p.take(n) =~= Seq::<char>::empty());
        }
    } else {
        let before = log.drop_last();
        let m0 = filled(before);
        let t = log.last().0;
        let w0 = log.last().1;
        let now = log.last().2;
        let k = reach(m0, t) as int;
        lemma_filled(before);
        assert forall|p: Seq<char>, n: int| m.contains_key(p) && 0 <= n <= p.len() implies #[trigger] m.contains_key(p.take(n)) by {
            if p.is_prefix_of(t) {
                assert(p.take(n).is_prefix_of(p)) by {
                    assert(p.take(n) =~= p.subrange(0, n));
                }
                lemma_prefix_chain(p.take(n), p, t);
            } else {
                assert(m0.contains_key(p.take(n)));
            }
        }
        assert(Seq::<char>::empty().is_prefix_of(t));
        assert forall|i: int| 0 <= i < log.len() implies ends(m, #[trigger] log[i].0) by {
            let p = log[i].0;
            if i < before.len() {
                assert(before[i] == log[i]);
                assert(ends(m0, p));
            } else {
                assert(p.is_prefix_of(t)) by {
                    assert(p =~= t.subrange(0, p.len() as int));
                }
            }
        }
        assert forall|p: Seq<char>, w: Seq<char>| #[trigger] tally(m, p, w) == stored(log, p, w) by {
            assert(tally(m0, p, w) == stored(before, p, w));
        }
    }
}

/// Matching a text that was stored finds all of it, and finds it at a node
/// of its own: whatever was stored before or after, the match has the
/// length of the text, ends at a node, and the counter of that node says for
/// each worker how many of the stored texts of that worker start with the
/// text. The worker that `prefix_match` returns is the leader of that counter.
pub proof fn law_stored_text_is_matched(log: Seq<Entry>, i: int)
    requires
        0 <= i < log.len(),
    ensures
        reach(filled(log), log[i].0) == log[i].0.len(),
        hold(filled(log), log[i].0) == log[i].0.len(),
        ends(filled(log), log[i].0),
        forall|w: Seq<char>| #[trigger] amount(filled(log)[log[i].0].counts, w) == stored(log, log[i].0, w),
        stored(log, log[i].0, log[i].1) > 0,
{
    let m = filled(log);
    let text = log[i].0;
    lemma_filled(log);
    assert(ends(m, text));
    assert forall|n: int| 0 <= n <= text.len() implies (#[trigger] m.contains_key(text.take(n)) <==> n <= text.len()) by {}
    lemma_reach(m, text, text.len(), 0);
    assert(text.take(text.len() as int) =~= text);
    lemma_hold(m, text, text.len(), text.len());
    assert forall|w: Seq<char>| #[trigger] amount(m[text].counts, w) == stored(log, text, w) by {
        assert(tally(m, text, w) == stored(log, text, w));
    }
    lemma_stored_own(log, i);
}

/// An entry counts among the stored texts that start with its own text.
pub proof fn lemma_stored_own(log: Seq<Entry>, i: int)
    requires
        0 <= i < log.len(),
    ensures
        stored(log, log[i].0, log[i].1) > 0,
    decreases log.len(),
{
    if i == log.len() - 1 {
        assert(log[i].0.is_prefix_of(log[i].0));
    } else {
        assert(log.drop_last()[i] == log[i]);
        lemma_stored_own(log.drop_last(), i);
    }
}

/// Someone leads every counter under every order, or no one of the order
/// has a count.
pub proof fn lemma_lead_exists(counts: Map<Seq<char>, nat>, order: Seq<Seq<char>>)
    ensures
        exists|r: Option<int>| is_lead(counts, order, r),
    decreases order.len(),
{
    if order.len() == 0 {
        assert(is_lead(counts, order, None));
    } else {
        let shorter = order.drop_last();
        let last = order.len() - 1;
        lemma_lead_exists(counts, shorter);
        let r0 = choose|r: Option<int>| is_lead(counts, shorter, r);
        assert forall|j: int| 0 <= j < last implies shorter[j] == #[trigger] order[j] by {}
        let c = amount(counts, order[last]);
        match r0 {
            Some(i) => {
                assert(shorter[i] == order[i]);
                if c > amount(counts, order[i]) {
                    assert forall|j: int| 0 <= j < order.len() implies amount(counts, #[trigger] order[j]) <= c by {
                        if j < last {
                            assert(amount(counts, shorter[j]) <= amount(counts, shorter[i]));
                        }
                    }
                    assert forall|j: int| 0 <= j < last implies amount(counts, #[trigger] order[j]) < c by {
                        assert(amount(counts, shorter[j]) <= amount(counts, shorter[i]));
                    }
                    assert(is_lead(counts, order, Some(last)));
                } else {
                    assert forall|j: int| 0 <= j < order.len() implies amount(counts, #[trigger] order[j]) <= amount(counts, order[i]) by {
                        if j < last {
                            assert(amount(counts, shorter[j]) <= amount(counts, shorter[i]));
                        }
                    }
                    assert forall|j: int| 0 <= j < i implies amount(counts, #[trigger] order[j]) < amount(counts, order[i]) by {
                        assert(amount(counts, shorter[j]) < amount(counts, shorter[i]));
                    }
                    assert(is_lead(counts, order, Some(i)));
                }
            },
            None => {
                if c > 0 {
                    assert forall|j: int| 0 <= j < last implies amount(counts, #[trigger] order[j]) < c by {
                        assert(amount(counts, shorter[j]) == 0);
                    }
                    assert(is_lead(counts, order, Some(last)));
                } else {
                    assert forall|j: int| 0 <= j < order.len() implies amount(counts, #[trigger] order[j]) == 0 by {
                        if j < last {
                            assert(amount(counts, shorter[j]) == 0);
                        }
                    }
                    assert(is_lead(counts, order, None));
                }
            },
        }
    }
}

/// The leader of a counter has a count in it, is of the order, and no worker
/// of the order has a higher count.
pub proof fn law_leader_has_most(counts: Map<Seq<char>, nat>, order: Seq<Seq<char>>)
    ensures
        match leader(counts, order) {
            Some(w) => {
                &&& order.contains(w)
                &&& amount(counts, w) > 0
                &&& forall|j: int| 0 <= j < order.len() ==> amount(counts, #[trigger] order[j]) <= amount(counts, w)
            },
            None => forall|j: int| 0 <= j < order.len() ==> amount(counts, #[trigger] order[j]) == 0,
        },
{
    lemma_lead_exists(counts, order);
    let r = choose|r: Option<int>| is_lead(counts, order, r);
    lemma_leader(counts, order, r);
    if let Some(i) = r {
        assert(order[i] == order[i]);
    }
}

/// Once a worker was forgotten, no counter names it.
pub proof fn law_forgotten_is_absent(m: Map<Seq<char>, Spot>, worker: Seq<char>)
    ensures
        absent(purge(m, worker), worker),
{
    let g = purge(m, worker);
    assert forall|p: Seq<char>| g.contains_key(p) implies !(#[trigger] g[p]).counts.contains_key(worker) by {}
}

/// A worker that no counter names is named by no match: whatever text is
/// matched, under whatever order, the worker returned is another one.
pub proof fn law_absent_is_never_matched(m: Map<Seq<char>, Spot>, worker: Seq<char>, p: Seq<char>, order: Seq<Seq<char>>)
    requires
        absent(m, worker),
        m.contains_key(p),
    ensures
        leader(m[p].counts, order) != Some(worker),
{
    law_leader_has_most(m[p].counts, order);
}

/// A worker that no counter names stays so while texts are stored for other
/// workers, while workers are forgotten and while leaves are evicted. The
/// tree holds the empty position, as every tree does.
pub proof fn law_absent_stays(
    m: Map<Seq<char>, Spot>,
    worker: Seq<char>,
    text: Seq<char>,
    other: Seq<char>,
    now: u64,
    q: Seq<char>,
)
    requires
        absent(m, worker),
        m.contains_key(Seq::empty()),
    ensures
        other != worker ==> absent(grow(m, text, other, now), worker),
        absent(purge(m, other), worker),
        absent(shed(m, q), worker),
{
    if other != worker {
        let g = grow(m, text, other, now);
        assert forall|p: Seq<char>| g.contains_key(p) implies !(#[trigger] g[p]).counts.contains_key(worker) by {
            if m.contains_key(p) {
                assert(!m[p].counts.contains_key(worker));
            }
        }
    }
    let g = purge(m, other);
    assert forall|p: Seq<char>| g.contains_key(p) implies !(#[trigger] g[p]).counts.contains_key(worker) by {
        if p.len() == 0 {
            assert(p =~= Seq::<char>::empty());
        } else {
            assert(held(m)(p) is Some);
            assert(!m[p].counts.contains_key(worker));
        }
    }
    let h = shed(m, q);
    assert forall|p: Seq<char>| h.contains_key(p) implies !(#[trigger] h[p]).counts.contains_key(worker) by {
        assert(!m[p].counts.contains_key(worker));
    }
}

/// Storing a text for a worker adds one to the load of that worker and
/// leaves the load of every other worker as it was. The tree holds the
/// empty position, as every tree does.
pub proof fn law_stored_load_grows(m: Map<Seq<char>, Spot>, text: Seq<char>, worker: Seq<char>, now: u64, other: Seq<char>)
    requires
        m.contains_key(Seq::empty()),
    ensures
        amount(grow(m, text, worker, now)[Seq::empty()].counts, worker) == amount(m[Seq::empty()].counts, worker) + 1,
        other != worker ==> amount(grow(m, text, worker, now)[Seq::empty()].counts, other) == amount(
            m[Seq::empty()].counts,
            other,
        ),
{
    assert(Seq::<char>::empty().is_prefix_of(text));
}

/// What is left of a tree once a worker was forgotten holds no position,
/// the empty one apart, that forgetting the worker again would give up.
proof fn lemma_forgotten_stays(m: Map<Seq<char>, Spot>, worker: Seq<char>, q: Seq<char>)
    requires
        q.len() > 0,
        purge(m, worker).contains_key(q),
    ensures
        stays(held(purge(m, worker)), q, worker),
        purge(m, worker)[q].counts.remove(worker) == purge(m, worker)[q].counts,
{
    let m1 = purge(m, worker);
    assert(stays(held(m), q, worker));
    let had = m[q].counts;
    let x = choose|x: Seq<char>| had.contains_key(x) && x != worker;
    assert(m1[q].counts == had.remove(worker));
    assert(m1[q].counts.contains_key(x));
    assert(m1[q].counts.remove(worker) =~= m1[q].counts);
}

/// Forgetting a worker twice is forgetting it once.
pub proof fn law_forgetting_twice(m: Map<Seq<char>, Spot>, worker: Seq<char>)
    ensures
        purge(purge(m, worker), worker) == purge(m, worker),
{
    let m1 = purge(m, worker);
    let m2 = purge(m1, worker);
    assert forall|p: Seq<char>| #[trigger] m2.contains_key(p) == m1.contains_key(p) by {
        if p.len() > 0 && m1.contains_key(p) {
            lemma_forgotten_stays(m, worker, p);
        }
    }
    assert forall|p: Seq<char>| m1.contains_key(p) implies #[trigger] m2[p] == m1[p] by {
        if p.len() == 0 {
            assert(m1[p].counts.remove(worker) =~= m1[p].counts);
        } else {
            lemma_forgotten_stays(m, worker, p);
            assert(!fuses(held(m1), p, worker)) by {
                assert forall|c: char| !(held(m1)(#[trigger] p.push(c)) is Some && !stays(held(m1), p.push(c), worker)) by {
                    if m1.contains_key(p.push(c)) {
                        lemma_forgotten_stays(m, worker, p.push(c));
                    }
                }
            }
        }
    }
    assert(m2 =~= m1);
}

} // verus!
