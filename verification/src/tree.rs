//! A counted radix tree over request texts.
//!
//! Every stored text is attributed to a worker. The tree is described by the
//! positions it holds: a position is a sequence of characters read from the
//! root, and the tree holds it when some stored text starts with it. For each
//! position the tree knows how many stored texts of each worker start with
//! it, and whether a node ends exactly there.

use vstd::prelude::*;
use vstd::relations::injective_on;
use vstd::set_lib::{lemma_int_range, lemma_map_size, lemma_set_disjoint_lens, set_int_range};
use crate::counter::{amount, is_lead, Counter};

verus! {

/// What the tree knows of one position.
pub ghost struct Spot {
    /// For each worker, the number of stored texts that start with the position.
    pub counts: Map<Seq<char>, nat>,
    /// The last-access stamp of the node that ends at the position, if one does.
    pub end: Option<u64>,
}

/// A node together with the edge that leads to it.
struct Node {
    text: Vec<char>,
    counts: Counter,
    children: Vec<Node>,
    stamp: u64,
}

/// Pointwise order of two counters.
pub open spec fn below(a: Map<Seq<char>, nat>, b: Map<Seq<char>, nat>) -> bool {
    forall|w: Seq<char>| amount(a, w) <= #[trigger] amount(b, w)
}

/// What a position holds once `text`, relative to the same origin, has been
/// stored for `worker` at time `now`; `reach` is the length of the longest
/// prefix of `text` that was held before.
pub open spec fn grown(
    s: Option<Spot>,
    p: Seq<char>,
    text: Seq<char>,
    reach: int,
    worker: Seq<char>,
    now: u64,
) -> Option<Spot> {
    if p.is_prefix_of(text) {
        let had = match s {
            Some(x) => x.counts,
            None => Map::empty(),
        };
        let was_end = match s {
            Some(x) => x.end is Some,
            None => false,
        };
        Some(
            Spot {
                counts: had.insert(worker, amount(had, worker) + 1),
                end: if was_end || p.len() == reach || p.len() == text.len() {
                    Some(now)
                } else {
                    None
                },
            },
        )
    } else {
        s
    }
}

/// What a position of length `n` holds once a node boundary has been placed
/// at length `cut` inside an edge.
pub open spec fn marked(s: Option<Spot>, n: nat, cut: nat, stamp: u64) -> Option<Spot> {
    match s {
        Some(x) => if n == cut {
            Some(Spot { counts: x.counts, end: Some(stamp) })
        } else {
            Some(x)
        },
        None => None,
    }
}

/// The tree as a function from positions to what it holds there.
pub open spec fn held(m: Map<Seq<char>, Spot>) -> spec_fn(Seq<char>) -> Option<Spot> {
    |q: Seq<char>| spot(m, q)
}

/// The tree that stores nothing: it holds the empty position alone, where
/// the root ends.
pub open spec fn blank() -> Map<Seq<char>, Spot> {
    Map::<Seq<char>, Spot>::empty().insert(Seq::empty(), Spot { counts: Map::empty(), end: Some(0u64) })
}

/// Whether `m` holds every prefix of every position that it holds.
pub open spec fn prefix_closed(m: Map<Seq<char>, Spot>) -> bool {
    forall|p: Seq<char>, n: int| m.contains_key(p) && 0 <= n <= p.len() ==> #[trigger] m.contains_key(p.take(n))
}

/// What `m` holds at `p`, if anything.
pub open spec fn spot(m: Map<Seq<char>, Spot>, p: Seq<char>) -> Option<Spot> {
    if m.contains_key(p) {
        Some(m[p])
    } else {
        None
    }
}

/// The length of the longest prefix of `text` that `m` holds, counted from
/// a prefix of length `j` that it is known to hold.
pub open spec fn reach_from(m: Map<Seq<char>, Spot>, text: Seq<char>, j: nat) -> nat
    decreases text.len() - j,
{
    if j < text.len() && m.contains_key(text.take(j as int + 1)) {
        reach_from(m, text, j + 1)
    } else {
        j
    }
}

/// The length of the longest prefix of `text` that some stored text starts with.
pub open spec fn reach(m: Map<Seq<char>, Spot>, text: Seq<char>) -> nat {
    reach_from(m, text, 0)
}

/// Whether a node ends at `p`.
pub open spec fn ends(m: Map<Seq<char>, Spot>, p: Seq<char>) -> bool {
    m.contains_key(p) && m[p].end is Some
}

/// The length of the longest prefix of `text`, of length `j` at most, at
/// which a node ends.
pub open spec fn hold_from(m: Map<Seq<char>, Spot>, text: Seq<char>, j: nat) -> nat
    decreases j,
{
    if j == 0 || ends(m, text.take(j as int)) {
        j
    } else {
        hold_from(m, text, (j - 1) as nat)
    }
}

/// The length of the longest prefix of `text` at which a node ends: the last
/// node that `text` matches in full.
pub open spec fn hold(m: Map<Seq<char>, Spot>, text: Seq<char>) -> nat {
    hold_from(m, text, text.len())
}

/// The tree after `text` has been stored for `worker` at time `now`: every
/// prefix of `text` is held, counts one more for `worker` and carries the
/// stamp `now` where a node ends; a node ends at `text` and where `text`
/// left what was held before.
pub open spec fn grow(m: Map<Seq<char>, Spot>, text: Seq<char>, worker: Seq<char>, now: u64) -> Map<Seq<char>, Spot> {
    Map::new(
        |p: Seq<char>| m.contains_key(p) || p.is_prefix_of(text),
        |p: Seq<char>| grown(spot(m, p), p, text, reach(m, text) as int, worker, now).unwrap(),
    )
}

/// The worker that leads `counts`: the earliest worker of `order` with the
/// highest count, if that count is positive.
pub open spec fn leader(counts: Map<Seq<char>, nat>, order: Seq<Seq<char>>) -> Option<Seq<char>> {
    let r = choose|r: Option<int>| is_lead(counts, order, r);
    match r {
        Some(i) => Some(order[i]),
        None => None,
    }
}

/// There is one answer to who leads.
pub proof fn lemma_leader(counts: Map<Seq<char>, nat>, order: Seq<Seq<char>>, r: Option<int>)
    requires
        is_lead(counts, order, r),
    ensures
        leader(counts, order) == (match r {
            Some(i) => Some(order[i]),
            None => None::<Seq<char>>,
        }),
{
    let r2 = choose|r: Option<int>| is_lead(counts, order, r);
    assert(is_lead(counts, order, r2));
    match (r, r2) {
        (Some(a), Some(b)) => {
            if a < b {
                assert(amount(counts, order[a]) < amount(counts, order[b]));
                assert(amount(counts, order[b]) <= amount(counts, order[a]));
            } else if b < a {
                assert(amount(counts, order[b]) < amount(counts, order[a]));
                assert(amount(counts, order[a]) <= amount(counts, order[b]));
            }
        },
        (Some(a), None) => {
            assert(amount(counts, order[a]) == 0);
        },
        (None, Some(b)) => {
            assert(amount(counts, order[b]) == 0);
        },
        (None, None) => {},
    }
}

/// `k` is the reach of `text` when the prefixes held are those up to length `k`.
pub proof fn lemma_reach(m: Map<Seq<char>, Spot>, text: Seq<char>, k: nat, j: nat)
    requires
        j <= k <= text.len(),
        forall|n: int| 0 <= n <= text.len() ==> (#[trigger] m.contains_key(text.take(n)) <==> n <= k),
    ensures
        reach_from(m, text, j) == k,
    decreases k - j,
{
    if j < k {
        assert(m.contains_key(text.take(j as int + 1)));
        lemma_reach(m, text, k, j + 1);
    } else if j < text.len() {
        assert(!m.contains_key(text.take(j as int + 1)));
    }
}

/// `a` is the hold of `text` when a node ends at length `a` and at no greater length.
pub proof fn lemma_hold(m: Map<Seq<char>, Spot>, text: Seq<char>, a: nat, j: nat)
    requires
        a <= j <= text.len(),
        a == 0 || ends(m, text.take(a as int)),
        forall|n: int| a < n <= text.len() ==> !#[trigger] ends(m, text.take(n)),
    ensures
        hold_from(m, text, j) == a,
    decreases j,
{
    if j > a {
        assert(!ends(m, text.take(j as int)));
        lemma_hold(m, text, a, (j - 1) as nat);
    }
}

/// Whether `counts` holds no worker but `worker`.
pub open spec fn sole(counts: Map<Seq<char>, nat>, worker: Seq<char>) -> bool {
    forall|x: Seq<char>| counts.contains_key(x) ==> x == worker
}

/// Whether position `p` of `f` is still held once `worker` is forgotten:
/// some other worker has a count there.
pub open spec fn stays(f: spec_fn(Seq<char>) -> Option<Spot>, p: Seq<char>, worker: Seq<char>) -> bool {
    match f(p) {
        Some(s) => !sole(s.counts, worker),
        None => false,
    }
}

/// Whether the node that ends at `p` is merged with its only remaining child
/// once `worker` is forgotten: it stays, it loses a child, exactly one child
/// stays, and no text of another worker ends at the node itself.
pub open spec fn fuses(f: spec_fn(Seq<char>) -> Option<Spot>, p: Seq<char>, worker: Seq<char>) -> bool {
    &&& stays(f, p, worker)
    &&& f(p).unwrap().end is Some
    &&& exists|c: char| f(#[trigger] p.push(c)) is Some && !stays(f, p.push(c), worker)
    &&& exists|c: char|
        {
            &&& stays(f, #[trigger] p.push(c), worker)
            &&& f(p.push(c)).unwrap().counts.remove(worker) == f(p).unwrap().counts.remove(worker)
            &&& forall|d: char| d != c ==> !stays(f, #[trigger] p.push(d), worker)
        }
}

/// What position `p` of `f` holds once `worker` is forgotten, for a position
/// other than the root.
pub open spec fn cleared(f: spec_fn(Seq<char>) -> Option<Spot>, p: Seq<char>, worker: Seq<char>) -> Option<Spot> {
    if stays(f, p, worker) {
        Some(
            Spot {
                counts: f(p).unwrap().counts.remove(worker),
                end: if fuses(f, p, worker) {
                    None
                } else {
                    f(p).unwrap().end
                },
            },
        )
    } else {
        None
    }
}

/// The tree after `worker` has been forgotten. No counter names `worker`;
/// a position stays if another worker has a count there; the root stays in
/// any case. A node that loses a child, keeps exactly one and has no text of
/// its own left is merged with that child, which keeps its stamp.
pub open spec fn purge(m: Map<Seq<char>, Spot>, worker: Seq<char>) -> Map<Seq<char>, Spot> {
    Map::new(
        |p: Seq<char>| p.len() == 0 || stays(held(m), p, worker),
        |p: Seq<char>|
            if p.len() == 0 {
                Spot { counts: m[p].counts.remove(worker), end: m[p].end }
            } else {
                cleared(held(m), p, worker).unwrap()
            },
    )
}

/// Whether the node that ends at `q` has no child.
pub open spec fn is_leaf(f: spec_fn(Seq<char>) -> Option<Spot>, q: Seq<char>) -> bool {
    &&& f(q) matches Some(s) && s.end is Some
    &&& forall|c: char| f(#[trigger] q.push(c)) is None
}

/// Whether `q` is a leaf below the root that no other such leaf precedes in
/// last access.
pub open spec fn oldest_leaf(m: Map<Seq<char>, Spot>, q: Seq<char>) -> bool {
    &&& q.len() > 0
    &&& is_leaf(held(m), q)
    &&& forall|x: Seq<char>| x.len() > 0 && #[trigger] is_leaf(held(m), x) ==> m[q].end.unwrap() <= m[x].end.unwrap()
}

/// The tree without the leaf `q`: the positions on the edge that leads to
/// `q` are gone, all others hold what they held.
pub open spec fn shed(m: Map<Seq<char>, Spot>, q: Seq<char>) -> Map<Seq<char>, Spot> {
    Map::new(
        |p: Seq<char>| m.contains_key(p) && !(p.is_prefix_of(q) && p.len() > hold(m, q.drop_last())),
        |p: Seq<char>| m[p],
    )
}

/// The number of characters on the edge that leads to the leaf `q`.
pub open spec fn edge_len(m: Map<Seq<char>, Spot>, q: Seq<char>) -> nat {
    (q.len() - hold(m, q.drop_last())) as nat
}

/// Whether removing a leaf that no other precedes in last access leads from
/// a tree `m0` of size `s0` to a tree `m1` of size `s1`.
pub open spec fn sheds(m0: Map<Seq<char>, Spot>, s0: nat, m1: Map<Seq<char>, Spot>, s1: nat) -> bool {
    exists|q: Seq<char>|
        {
            &&& #[trigger] oldest_leaf(m0, q)
            &&& m1 == shed(m0, q)
            &&& 0 < edge_len(m0, q) <= s0
            &&& s1 == s0 - edge_len(m0, q)
        }
}

/// Whether `n` such removals, each made while the size was above `limit`,
/// lead from a tree `m0` of size `s0` to a tree `m1` of size `s1`.
pub open spec fn pruned(
    m0: Map<Seq<char>, Spot>,
    s0: nat,
    m1: Map<Seq<char>, Spot>,
    s1: nat,
    limit: nat,
    n: nat,
) -> bool
    decreases n,
{
    if n == 0 {
        m1 == m0 && s1 == s0
    } else {
        exists|m: Map<Seq<char>, Spot>, s: nat|
            {
                &&& #[trigger] over(m, s, m1, s1, limit)
                &&& pruned(m0, s0, m, s, limit, (n - 1) as nat)
            }
    }
}

/// Whether a tree `m` of size `s` is above `limit` and one removal of an
/// oldest leaf leads from it to a tree `m1` of size `s1`.
pub open spec fn over(m: Map<Seq<char>, Spot>, s: nat, m1: Map<Seq<char>, Spot>, s1: nat, limit: nat) -> bool {
    s > limit && sheds(m, s, m1, s1)
}

/// One more removal at the end of a run of removals.
pub proof fn lemma_pruned_more(
    m0: Map<Seq<char>, Spot>,
    s0: nat,
    m: Map<Seq<char>, Spot>,
    s: nat,
    m1: Map<Seq<char>, Spot>,
    s1: nat,
    limit: nat,
    n: nat,
)
    requires
        pruned(m0, s0, m, s, limit, n),
        s > limit,
        sheds(m, s, m1, s1),
    ensures
        pruned(m0, s0, m1, s1, limit, n + 1),
{
    let k = (n + 1) as nat;
    assert(pruned(m0, s0, m, s, limit, (k - 1) as nat));
    assert(over(m, s, m1, s1, limit));
}

/// With a common start of length `n` set aside, `a` is a prefix of `b`
/// exactly when the rest of `a` is a prefix of the rest of `b`.
pub proof fn lemma_prefix_skip(a: Seq<char>, b: Seq<char>, n: int)
    requires
        0 <= n <= a.len(),
        n <= b.len(),
        a.take(n) == b.take(n),
    ensures
        a.is_prefix_of(b) <==> a.skip(n).is_prefix_of(b.skip(n)),
{
    if a.len() <= b.len() {
        if a.is_prefix_of(b) {
            assert forall|i: int| 0 <= i < a.len() - n implies a.skip(n)[i] == b.skip(n)[i] by {
                assert(a[i + n] == b.subrange(0, a.len() as int)[i + n]);
            }
            assert(a.skip(n) =~= b.skip(n).subrange(0, a.len() - n));
        }
        if a.skip(n).is_prefix_of(b.skip(n)) {
            assert forall|i: int| 0 <= i < a.len() implies a[i] == b[i] by {
                if i < n {
                    assert(a.take(n)[i] == a[i]);
                    assert(b.take(n)[i] == b[i]);
                } else {
                    let m = a.skip(n).len() as int;
                    assert(a.skip(n) == b.skip(n).subrange(0, m));
                    assert(a.skip(n)[i - n] == a[i]);
                    assert(b.skip(n).subrange(0, m)[i - n] == b[i]);
                }
            }
            assert(a =~= b.subrange(0, a.len() as int));
        }
    }
}

/// A prefix of a prefix is a prefix, and of two prefixes of one sequence the
/// shorter is a prefix of the longer.
pub proof fn lemma_prefix_chain(a: Seq<char>, b: Seq<char>, c: Seq<char>)
    ensures
        a.is_prefix_of(b) && b.is_prefix_of(c) ==> a.is_prefix_of(c),
        a.is_prefix_of(c) && b.is_prefix_of(c) && a.len() <= b.len() ==> a.is_prefix_of(b),
        a.is_prefix_of(b) ==> a == b.take(a.len() as int),
{
    if a.is_prefix_of(b) && b.is_prefix_of(c) {
        assert forall|i: int| 0 <= i < a.len() implies a[i] == c[i] by {
            assert(a[i] == b.subrange(0, a.len() as int)[i]);
            assert(b[i] == c.subrange(0, b.len() as int)[i]);
        }
        assert(a =~= c.subrange(0, a.len() as int));
    }
    if a.is_prefix_of(c) && b.is_prefix_of(c) && a.len() <= b.len() {
        assert forall|i: int| 0 <= i < a.len() implies a[i] == b[i] by {
            assert(a[i] == c.subrange(0, a.len() as int)[i]);
            assert(b[i] == c.subrange(0, b.len() as int)[i]);
        }
        assert(a =~= b.subrange(0, a.len() as int));
    }
    if a.is_prefix_of(b) {
        assert(a =~= b.take(a.len() as int));
    }
}

impl Node {
    spec fn head(&self) -> char {
        self.text@[0]
    }

    spec fn has(kids: Seq<Node>, c: char) -> bool {
        exists|i: int| 0 <= i < kids.len() && #[trigger] kids[i].head() == c
    }

    spec fn slot(kids: Seq<Node>, c: char) -> int {
        choose|i: int| 0 <= i < kids.len() && #[trigger] kids[i].head() == c
    }

    spec fn distinct(kids: Seq<Node>) -> bool {
        forall|i: int, j: int| 0 <= i < j < kids.len() ==> #[trigger] kids[i].head() != #[trigger] kids[j].head()
    }

    /// What this subtree holds at `p`, a position read from the start of this
    /// node's edge.
    spec fn probe(&self, p: Seq<char>) -> Option<Spot>
        decreases self,
    {
        let t = self.text@;
        if p.len() <= t.len() {
            if p.is_prefix_of(t) {
                Some(
                    Spot {
                        counts: self.counts@,
                        end: if p.len() == t.len() {
                            Some(self.stamp)
                        } else {
                            None
                        },
                    },
                )
            } else {
                None
            }
        } else if t.is_prefix_of(p) && Self::has(self.children@, p[t.len() as int]) {
            self.children@[Self::slot(self.children@, p[t.len() as int])].probe(p.skip(t.len() as int))
        } else {
            None
        }
    }

    /// The number of characters on the edges of this subtree.
    spec fn size(&self) -> nat
        decreases self,
    {
        self.text@.len() + Self::sizes(self.children@)
    }

    spec fn sizes(kids: Seq<Node>) -> nat
        decreases kids,
    {
        if kids.len() == 0 {
            0
        } else {
            kids.last().size() + Self::sizes(kids.drop_last())
        }
    }

    /// The structural invariant: children differ in their first character,
    /// have a non-empty edge and a non-empty counter, and count no more than
    /// their parent for any worker.
    spec fn wf(&self) -> bool
        decreases self,
    {
        &&& self.counts.wf()
        &&& Self::distinct(self.children@)
        &&& forall|i: int|
            0 <= i < self.children@.len() ==> {
                &&& (#[trigger] self.children@[i]).wf()
                &&& self.children@[i].text@.len() > 0
                &&& self.children@[i].counts@ != Map::<Seq<char>, nat>::empty()
                &&& below(self.children@[i].counts@, self.counts@)
            }
    }

    proof fn lemma_step(&self, p: Seq<char>, i: int)
        requires
            Self::distinct(self.children@),
            0 <= i < self.children@.len(),
            self.text@.is_prefix_of(p),
            p.len() > self.text@.len(),
            self.children@[i].head() == p[self.text@.len() as int],
        ensures
            self.probe(p) == self.children@[i].probe(p.skip(self.text@.len() as int)),
    {
        let kids = self.children@;
        let c = p[self.text@.len() as int];
        let j = Self::slot(kids, c);
        assert(kids[i].head() == c);
        assert(Self::has(kids, c));
        if j < i {
            assert(kids[j].head() != kids[i].head());
        } else if i < j {
            assert(kids[i].head() != kids[j].head());
        }
    }

    proof fn lemma_miss(&self, p: Seq<char>)
        requires
            p.len() > self.text@.len(),
            !self.text@.is_prefix_of(p) || !Self::has(self.children@, p[self.text@.len() as int]),
        ensures
            self.probe(p) is None,
    {
        if p.is_prefix_of(self.text@) {
        }
    }

    proof fn lemma_sizes_push(kids: Seq<Node>, n: Node)
        ensures
            Self::sizes(kids.push(n)) == Self::sizes(kids) + n.size(),
    {
        assert(kids.push(n).drop_last() =~= kids);
        assert(kids.push(n).last() == n);
    }

    proof fn lemma_sizes_update(kids: Seq<Node>, i: int, n: Node)
        requires
            0 <= i < kids.len(),
        ensures
            Self::sizes(kids.update(i, n)) == Self::sizes(kids) - kids[i].size() + n.size(),
        decreases kids.len(),
    {
        if i == kids.len() - 1 {
            assert(kids.update(i, n).drop_last() =~= kids.drop_last());
        } else {
            assert(kids.update(i, n).drop_last() =~= kids.drop_last().update(i, n));
            Self::lemma_sizes_update(kids.drop_last(), i, n);
        }
    }
}

/// The length of the longest common prefix of `edge` and of `text` from `pos` on.
fn common(edge: &Vec<char>, text: &Vec<char>, pos: usize) -> (j: usize)
    requires
        pos <= text@.len(),
    ensures
        j <= edge@.len(),
        pos + j <= text@.len(),
        edge@.take(j as int) == text@.subrange(pos as int, pos + j),
        j < edge@.len() && pos + j < text@.len() ==> edge@[j as int] != text@[pos + j],
{
    let mut j: usize = 0;
    while j < edge.len() && j < text.len() - pos && edge[j] == text[pos + j]
        invariant
            pos <= text@.len(),
            j <= edge@.len(),
            pos + j <= text@.len(),
            edge@.take(j as int) =~= text@.subrange(pos as int, pos + j),
        decreases edge@.len() - j,
    {
        j += 1;
        assert(edge@.take(j as int) =~= edge@.take(j - 1).push(edge@[j - 1]));
        assert(text@.subrange(pos as int, pos + j) =~= text@.subrange(pos as int, pos + j - 1).push(text@[pos + j - 1]));
    }
    j
}

impl Node {
    /// The child whose edge starts with `c`.
    fn child_with(&self, c: char) -> (r: Option<usize>)
        requires
            self.wf(),
        ensures
            match r {
                Some(i) => i < self.children@.len() && self.children@[i as int].head() == c,
                None => !Self::has(self.children@, c),
            },
    {
        let mut i: usize = 0;
        while i < self.children.len()
            invariant
                self.wf(),
                i <= self.children@.len(),
                forall|j: int| 0 <= j < i ==> (#[trigger] self.children@[j]).head() != c,
            decreases self.children@.len() - i,
        {
            assert(self.children@[i as int].wf());
            if self.children[i].text[0] == c {
                return Some(i);
            }
            i += 1;
        }
        None
    }

    /// A fresh leaf whose edge is `text` from `pos` on, counted once for `worker`.
    fn leaf(text: &Vec<char>, pos: usize, worker: &String, now: u64) -> (r: Node)
        requires
            pos < text@.len(),
        ensures
            r.wf(),
            r.text@ == text@.skip(pos as int),
            r.counts@ == Map::<Seq<char>, nat>::empty().insert(worker@, 1),
            r.children@.len() == 0,
            r.stamp == now,
            r.size() == text@.len() - pos,
    {
        let mut edge: Vec<char> = Vec::new();
        let mut i: usize = pos;
        while i < text.len()
            invariant
                pos <= i <= text@.len(),
                edge@ == text@.subrange(pos as int, i as int),
            decreases text@.len() - i,
        {
            edge.push(text[i]);
            assert(text@.subrange(pos as int, i + 1) =~= text@.subrange(pos as int, i as int).push(text@[i as int]));
            i += 1;
        }
        assert(text@.subrange(pos as int, text@.len() as int) =~= text@.skip(pos as int));
        let mut counts = Counter::new();
        counts.bump(worker);
        let r = Node { text: edge, counts, children: Vec::new(), stamp: now };
        assert(Self::sizes(r.children@) == 0);
        r
    }

    /// Places a node boundary `cut` characters into this node's edge. The
    /// node keeps the first part of the edge; what it had goes to a single
    /// child that carries the rest.
    fn split(&mut self, cut: usize)
        requires
            old(self).wf(),
            0 < cut < old(self).text@.len(),
            old(self).counts@ != Map::<Seq<char>, nat>::empty(),
        ensures
            final(self).wf(),
            final(self).text@ == old(self).text@.take(cut as int),
            final(self).counts@ == old(self).counts@,
            final(self).children@.len() == 1,
            final(self).children@[0].head() == old(self).text@[cut as int],
            final(self).size() == old(self).size(),
            forall|p: Seq<char>| #[trigger] final(self).probe(p) == marked(old(self).probe(p), p.len(), cut as nat, old(self).stamp),
    {
        let tail_text = self.text.split_off(cut);
        let mut kids: Vec<Node> = Vec::new();
        std::mem::swap(&mut self.children, &mut kids);
        let tail = Node { text: tail_text, counts: self.counts.duplicate(), children: kids, stamp: self.stamp };
        self.children.push(tail);
        proof {
            let pre = *old(self);
            let post = *self;
            let t = pre.text@;
            let tail = post.children@[0];
            assert(tail.text@ == t.skip(cut as int));
            assert(tail.children@ == pre.children@);
            assert(tail.wf());
            assert(post.wf());
            assert(Self::sizes(post.children@) == tail.size()) by {
                assert(post.children@.drop_last() =~= Seq::<Node>::empty());
                assert(Self::sizes(post.children@.drop_last()) == 0);
            }
            assert forall|p: Seq<char>| #[trigger] post.probe(p) == marked(pre.probe(p), p.len(), cut as nat, pre.stamp) by {
                if p.len() <= cut {
                    assert(p.is_prefix_of(t.take(cut as int)) <==> p.is_prefix_of(t));
                } else {
                    let rest = p.skip(cut as int);
                    if t.take(cut as int).is_prefix_of(p) && p[cut as int] == t[cut as int] {
                        post.lemma_step(p, 0);
                        assert(post.probe(p) == tail.probe(rest));
                        assert(p.take(cut as int) == t.take(cut as int)) by {
                            lemma_prefix_chain(t.take(cut as int), p, p);
                            assert(t.take(cut as int).take(cut as int) =~= t.take(cut as int));
                        }
                        if p.len() <= t.len() {
                            lemma_prefix_skip(p, t, cut as int);
                        } else {
                            lemma_prefix_skip(t, p, cut as int);
                            if t.is_prefix_of(p) {
                                assert(rest.skip(tail.text@.len() as int) =~= p.skip(t.len() as int));
                                assert(rest[tail.text@.len() as int] == p[t.len() as int]);
                            }
                        }
                    } else {
                        if t.take(cut as int).is_prefix_of(p) {
                            assert(!Self::has(post.children@, p[cut as int]));
                        }
                        post.lemma_miss(p);
                        if p.len() <= t.len() {
                            assert(!p.is_prefix_of(t));
                        } else {
                            assert(!t.is_prefix_of(p));
                        }
                    }
                }
            }
        }
    }
}


impl Node {
    /// What the subtree holds at positions that end within this node's own edge.
    proof fn lemma_own(&self, p: Seq<char>)
        requires
            p.len() <= self.text@.len(),
        ensures
            self.probe(p) == if p.is_prefix_of(self.text@) {
                Some(
                    Spot {
                        counts: self.counts@,
                        end: if p.len() == self.text@.len() {
                            Some(self.stamp)
                        } else {
                            None
                        },
                    },
                )
            } else {
                None::<Spot>
            },
    {
    }

    /// Positions below a child that two nodes share are held alike by both.
    proof fn lemma_same_child(&self, other: &Node, p: Seq<char>, c: char)
        requires
            Self::distinct(self.children@),
            Self::distinct(other.children@),
            self.text@ == other.text@,
            p.len() > self.text@.len(),
            p[self.text@.len() as int] != c,
            forall|i: int| 0 <= i < self.children@.len() && (#[trigger] self.children@[i]).head() != c
                ==> i < other.children@.len() && other.children@[i] == self.children@[i],
            forall|i: int| 0 <= i < other.children@.len() && (#[trigger] other.children@[i]).head() != c
                ==> i < self.children@.len() && other.children@[i] == self.children@[i],
        ensures
            self.probe(p) == other.probe(p),
    {
        let t = self.text@;
        let ch = p[t.len() as int];
        if t.is_prefix_of(p) {
            if Self::has(self.children@, ch) {
                let i = Self::slot(self.children@, ch);
                assert(self.children@[i].head() == ch);
                self.lemma_step(p, i);
                other.lemma_step(p, i);
            } else if Self::has(other.children@, ch) {
                let i = Self::slot(other.children@, ch);
                assert(other.children@[i].head() == ch);
                assert(self.children@[i].head() == ch);
                assert(false);
            } else {
                self.lemma_miss(p);
                other.lemma_miss(p);
            }
        } else {
            self.lemma_miss(p);
            other.lemma_miss(p);
        }
    }

    /// The counter and stamp of a node after one more text has passed through it.
    spec fn touched(pre: &Node, post: &Node, worker: Seq<char>, now: u64) -> bool {
        &&& post.text@ == pre.text@
        &&& post.counts@ == pre.counts@.insert(worker, amount(pre.counts@, worker) + 1)
        &&& post.stamp == now
    }

    proof fn lemma_grow_own(pre: &Node, post: &Node, rel: Seq<char>, kr: int, worker: Seq<char>, now: u64, p: Seq<char>)
        requires
            Self::touched(pre, post, worker, now),
            pre.text@.is_prefix_of(rel),
            kr >= pre.text@.len(),
            p.len() <= pre.text@.len(),
        ensures
            post.probe(p) == grown(pre.probe(p), p, rel, kr, worker, now),
    {
        let t = pre.text@;
        post.lemma_own(p);
        pre.lemma_own(p);
        lemma_prefix_chain(p, t, rel);
    }

    proof fn lemma_grow_stop(pre: &Node, post: &Node, rel: Seq<char>, worker: Seq<char>, now: u64)
        requires
            Self::touched(pre, post, worker, now),
            pre.text@ == rel,
            post.children@ == pre.children@,
        ensures
            forall|p: Seq<char>| #[trigger] post.probe(p) == grown(pre.probe(p), p, rel, rel.len() as int, worker, now),
            forall|m: int| 0 <= m <= rel.len() ==> #[trigger] pre.probe(rel.take(m)) is Some,
    {
        assert forall|p: Seq<char>| #[trigger] post.probe(p) == grown(pre.probe(p), p, rel, rel.len() as int, worker, now) by {
            if p.len() <= rel.len() {
                Self::lemma_grow_own(pre, post, rel, rel.len() as int, worker, now, p);
            } else {
                assert(!p.is_prefix_of(rel));
            }
        }
        assert forall|m: int| 0 <= m <= rel.len() implies #[trigger] pre.probe(rel.take(m)) is Some by {
            pre.lemma_own(rel.take(m));
            assert(rel.take(m).is_prefix_of(rel));
        }
    }

    proof fn lemma_grow_leaf(pre: &Node, post: &Node, rel: Seq<char>, worker: Seq<char>, now: u64)
        requires
            Self::touched(pre, post, worker, now),
            Self::distinct(pre.children@),
            pre.text@.is_prefix_of(rel),
            pre.text@.len() < rel.len(),
            !Self::has(pre.children@, rel[pre.text@.len() as int]),
            post.children@.len() == pre.children@.len() + 1,
            forall|i: int| 0 <= i < pre.children@.len() ==> #[trigger] post.children@[i] == pre.children@[i],
            post.children@.last().text@ == rel.skip(pre.text@.len() as int),
            post.children@.last().counts@ == Map::<Seq<char>, nat>::empty().insert(worker, 1),
            post.children@.last().children@.len() == 0,
            post.children@.last().stamp == now,
        ensures
            Self::distinct(post.children@),
            forall|p: Seq<char>| #[trigger] post.probe(p) == grown(pre.probe(p), p, rel, pre.text@.len() as int, worker, now),
            forall|m: int| 0 <= m <= rel.len() ==> (#[trigger] pre.probe(rel.take(m)) is Some <==> m <= pre.text@.len()),
    {
        let t = pre.text@;
        let tlen = t.len() as int;
        let c = rel[tlen];
        let kids = post.children@;
        let last = kids.len() - 1;
        let fresh = kids[last];
        assert(fresh.head() == c);
        assert forall|a: int, b: int| 0 <= a < b < kids.len() implies #[trigger] kids[a].head() != #[trigger] kids[b].head() by {
            if b == last {
                assert(pre.children@[a].head() != c);
            } else {
                assert(pre.children@[a].head() != pre.children@[b].head());
            }
        }
        assert forall|p: Seq<char>| #[trigger] post.probe(p) == grown(pre.probe(p), p, rel, tlen, worker, now) by {
            if p.len() <= t.len() {
                Self::lemma_grow_own(pre, post, rel, tlen, worker, now, p);
            } else if t.is_prefix_of(p) && p[tlen] == c {
                let rest = p.skip(tlen);
                post.lemma_step(p, last);
                pre.lemma_miss(p);
                assert(p.take(tlen) == rel.take(tlen)) by {
                    lemma_prefix_chain(t, p, p);
                    lemma_prefix_chain(t, rel, rel);
                }
                lemma_prefix_skip(p, rel, tlen);
                if rest.len() <= fresh.text@.len() {
                    fresh.lemma_own(rest);
                    assert(Map::<Seq<char>, nat>::empty().insert(worker, 1nat) =~= Map::<Seq<char>, nat>::empty().insert(
                        worker,
                        (amount(Map::<Seq<char>, nat>::empty(), worker) + 1) as nat,
                    ));
                } else {
                    assert(!Self::has(fresh.children@, rest[fresh.text@.len() as int]));
                    fresh.lemma_miss(rest);
                }
            } else if t.is_prefix_of(p) {
                post.lemma_same_child(pre, p, c);
                if p.is_prefix_of(rel) {
                    assert(p[tlen] == rel.subrange(0, p.len() as int)[tlen]);
                }
            } else {
                post.lemma_miss(p);
                pre.lemma_miss(p);
                if p.is_prefix_of(rel) {
                    lemma_prefix_chain(t, p, rel);
                }
            }
        }
        assert forall|m: int| 0 <= m <= rel.len() implies (#[trigger] pre.probe(rel.take(m)) is Some <==> m <= tlen) by {
            let q = rel.take(m);
            if m <= tlen {
                pre.lemma_own(q);
                lemma_prefix_chain(q, t, rel);
            } else {
                assert(q[tlen] == c);
                pre.lemma_miss(q);
            }
        }
    }

    proof fn lemma_grow_child(
        pre: &Node,
        post: &Node,
        i: int,
        rel: Seq<char>,
        kr: int,
        cut: int,
        worker: Seq<char>,
        now: u64,
    )
        requires
            Self::touched(pre, post, worker, now),
            Self::distinct(pre.children@),
            pre.text@.is_prefix_of(rel),
            pre.text@.len() < rel.len(),
            0 <= i < pre.children@.len(),
            pre.children@[i].text@.len() > 0,
            pre.children@[i].head() == rel[pre.text@.len() as int],
            post.children@ == pre.children@.update(i, post.children@[i]),
            post.children@[i].head() == pre.children@[i].head(),
            0 < cut <= pre.children@[i].text@.len(),
            pre.text@.len() + cut <= rel.len(),
            pre.children@[i].text@.take(cut) == rel.skip(pre.text@.len() as int).take(cut),
            cut < pre.children@[i].text@.len() ==> kr == pre.text@.len() + cut,
            kr >= pre.text@.len() + cut,
            forall|q: Seq<char>| #[trigger]
                post.children@[i].probe(q) == grown(
                    if cut < pre.children@[i].text@.len() {
                        marked(pre.children@[i].probe(q), q.len(), cut as nat, pre.children@[i].stamp)
                    } else {
                        pre.children@[i].probe(q)
                    },
                    q,
                    rel.skip(pre.text@.len() as int),
                    kr - pre.text@.len(),
                    worker,
                    now,
                ),
            forall|m: int|
                0 <= m <= rel.len() - pre.text@.len() ==> (#[trigger] pre.children@[i].probe(
                    rel.skip(pre.text@.len() as int).take(m),
                ) is Some <==> pre.text@.len() + m <= kr),
        ensures
            Self::distinct(post.children@),
            forall|p: Seq<char>| #[trigger] post.probe(p) == grown(pre.probe(p), p, rel, kr, worker, now),
            forall|m: int| 0 <= m <= rel.len() ==> (#[trigger] pre.probe(rel.take(m)) is Some <==> m <= kr),
    {
        let t = pre.text@;
        let tlen = t.len() as int;
        let c = rel[tlen];
        let relc = rel.skip(tlen);
        let kids = post.children@;
        let ch0 = pre.children@[i];
        let ch2 = post.children@[i];
        let did_split = cut < ch0.text@.len();
        assert forall|a: int, b: int| 0 <= a < b < kids.len() implies #[trigger] kids[a].head() != #[trigger] kids[b].head() by {
            assert(pre.children@[a].head() != pre.children@[b].head());
        }
        assert forall|p: Seq<char>| #[trigger] post.probe(p) == grown(pre.probe(p), p, rel, kr, worker, now) by {
            if p.len() <= t.len() {
                Self::lemma_grow_own(pre, post, rel, kr, worker, now, p);
            } else if t.is_prefix_of(p) && p[tlen] == c {
                let rest = p.skip(tlen);
                post.lemma_step(p, i);
                pre.lemma_step(p, i);
                assert(p.take(tlen) == rel.take(tlen)) by {
                    lemma_prefix_chain(t, p, p);
                    lemma_prefix_chain(t, rel, rel);
                }
                lemma_prefix_skip(p, rel, tlen);
                let x = ch0.probe(rest);
                assert(ch2.probe(rest) == grown(
                    if did_split {
                        marked(x, rest.len(), cut as nat, ch0.stamp)
                    } else {
                        x
                    },
                    rest,
                    relc,
                    kr - tlen,
                    worker,
                    now,
                ));
                if did_split && rest.len() == cut && x is Some {
                    ch0.lemma_own(rest);
                    lemma_prefix_chain(rest, ch0.text@, ch0.text@);
                    assert(rest == relc.take(cut));
                    assert(relc.take(cut) =~= relc.subrange(0, cut));
                    assert(rest.is_prefix_of(relc));
                }
            } else if t.is_prefix_of(p) {
                post.lemma_same_child(pre, p, c);
                if p.is_prefix_of(rel) {
                    assert(p[tlen] == rel.subrange(0, p.len() as int)[tlen]);
                }
            } else {
                post.lemma_miss(p);
                pre.lemma_miss(p);
                if p.is_prefix_of(rel) {
                    lemma_prefix_chain(t, p, rel);
                }
            }
        }
        assert forall|m: int| 0 <= m <= rel.len() implies (#[trigger] pre.probe(rel.take(m)) is Some <==> m <= kr) by {
            let q = rel.take(m);
            if m <= tlen {
                pre.lemma_own(q);
                lemma_prefix_chain(q, t, rel);
            } else {
                assert(q[tlen] == c);
                assert(t.is_prefix_of(q)) by {
                    lemma_prefix_chain(t, q, rel);
                }
                pre.lemma_step(q, i);
                assert(q.skip(tlen) =~= relc.take(m - tlen));
            }
        }
    }

    /// A child that a text passes through stays within its parent's counts.
    proof fn lemma_below_bumped(a: Map<Seq<char>, nat>, b: Map<Seq<char>, nat>, worker: Seq<char>)
        requires
            below(a, b),
        ensures
            below(a.insert(worker, amount(a, worker) + 1), b.insert(worker, amount(b, worker) + 1)),
            below(a, b.insert(worker, amount(b, worker) + 1)),
            below(b, b.insert(worker, amount(b, worker) + 1)),
    {
        let a1 = a.insert(worker, amount(a, worker) + 1);
        let b1 = b.insert(worker, amount(b, worker) + 1);
        assert forall|w: Seq<char>| amount(a1, w) <= #[trigger] amount(b1, w) by {
            assert(amount(a, w) <= amount(b, w));
        }
        assert forall|w: Seq<char>| amount(a, w) <= #[trigger] amount(b1, w) by {
            assert(amount(a, w) <= amount(b, w));
        }
        assert forall|w: Seq<char>| amount(b, w) <= #[trigger] amount(b1, w) by {}
    }

    /// The invariant of a node one of whose children was replaced, or that
    /// gained a child, while its own counter grew.
    proof fn lemma_wf_after(pre: &Node, post: &Node, worker: Seq<char>, now: u64, i: int)
        requires
            pre.wf(),
            Self::touched(pre, post, worker, now),
            post.counts.wf(),
            Self::distinct(post.children@),
            0 <= i < post.children@.len(),
            post.children@.len() == pre.children@.len() || (post.children@.len() == pre.children@.len() + 1 && i
                == pre.children@.len()),
            forall|x: int| 0 <= x < pre.children@.len() && x != i ==> #[trigger] post.children@[x] == pre.children@[x],
            post.children@[i].wf(),
            post.children@[i].text@.len() > 0,
            post.children@[i].counts@.contains_key(worker),
            below(post.children@[i].counts@, post.counts@),
        ensures
            post.wf(),
    {
        Self::lemma_below_bumped(pre.counts@, pre.counts@, worker);
        let kids = post.children@;
        assert forall|x: int| 0 <= x < kids.len() implies {
            &&& (#[trigger] kids[x]).wf()
            &&& kids[x].text@.len() > 0
            &&& kids[x].counts@ != Map::<Seq<char>, nat>::empty()
            &&& below(kids[x].counts@, post.counts@)
        } by {
            if x != i {
                assert(pre.children@[x].wf());
                assert(below(pre.children@[x].counts@, pre.counts@));
                assert forall|w: Seq<char>| amount(kids[x].counts@, w) <= #[trigger] amount(post.counts@, w) by {
                    assert(amount(pre.children@[x].counts@, w) <= amount(pre.counts@, w));
                }
            }
        }
    }

    /// Stores what is left of `text` below this node, whose edge the text has
    /// matched in full over the characters from `from` on. Returns how far
    /// the text reached into the subtree before.
    fn absorb(&mut self, text: &Vec<char>, from: usize, worker: &String, now: u64) -> (k: usize)
        requires
            old(self).wf(),
            from + old(self).text@.len() <= text@.len(),
            old(self).text@ == text@.subrange(from as int, from + old(self).text@.len()),
            old(self).counts.of(worker@) < u64::MAX,
        ensures
            final(self).wf(),
            final(self).text@ == old(self).text@,
            final(self).counts@ == old(self).counts@.insert(worker@, old(self).counts.of(worker@) + 1),
            from + old(self).text@.len() <= k <= text@.len(),
            forall|m: int|
                0 <= m <= text@.len() - from ==> (#[trigger] old(self).probe(text@.skip(from as int).take(m)) is Some
                    <==> from + m <= k),
            forall|p: Seq<char>| #[trigger]
                final(self).probe(p) == grown(old(self).probe(p), p, text@.skip(from as int), k - from, worker@, now),
            final(self).size() == old(self).size() + text@.len() - k,
        decreases text@.len() - from - old(self).text@.len(),
    {
        let ghost pre = *self;
        let ghost rel = text@.skip(from as int);
        let ghost t = pre.text@;
        let tlen = self.text.len();
        let total = text.len();
        let pos = from + tlen;
        proof {
            assert(t =~= rel.take(tlen as int));
            assert(t.is_prefix_of(rel));
        }
        self.counts.bump(worker);
        self.stamp = now;
        proof {
            Self::lemma_below_bumped(pre.counts@, pre.counts@, worker@);
            assert(self.wf()) by {
                assert forall|x: int| 0 <= x < self.children@.len() implies below((#[trigger] self.children@[x]).counts@, self.counts@) by {
                    assert(below(pre.children@[x].counts@, pre.counts@));
                    assert forall|w: Seq<char>| amount(self.children@[x].counts@, w) <= #[trigger] amount(self.counts@, w) by {
                        assert(amount(pre.children@[x].counts@, w) <= amount(pre.counts@, w));
                    }
                }
            }
        }
        if pos == total {
            proof {
                assert(rel =~= t);
                Self::lemma_grow_stop(&pre, self, rel, worker@, now);
            }
            return pos;
        }
        let c = text[pos];
        assert(rel[tlen as int] == c);
        let found = self.child_with(c);
        match found {
            None => {
                let fresh = Node::leaf(text, pos, worker, now);
                self.children.push(fresh);
                proof {
                    let last = self.children@.len() - 1;
                    assert(self.children@[last].text@ =~= rel.skip(tlen as int));
                    Self::lemma_grow_leaf(&pre, self, rel, worker@, now);
                    assert(self.children@[last].counts@.contains_key(worker@));
                    assert(below(self.children@[last].counts@, self.counts@)) by {
                        assert forall|w: Seq<char>| amount(self.children@[last].counts@, w) <= #[trigger] amount(self.counts@, w) by {}
                    }
                    Self::lemma_wf_after(&pre, self, worker@, now, last);
                    assert(self.children@ =~= pre.children@.push(self.children@[last]));
                    Self::lemma_sizes_push(pre.children@, self.children@[last]);
                }
                pos
            },
            Some(i) => {
                let ghost ch0 = pre.children@[i as int];
                let ghost relc = text@.skip(pos as int);
                proof {
                    assert(pre.children@[i as int].wf());
                    assert(relc =~= rel.skip(tlen as int));
                    assert(below(ch0.counts@, pre.counts@));
                    assert(amount(ch0.counts@, worker@) <= amount(pre.counts@, worker@));
                }
                let child = &mut self.children[i];
                let j = common(&child.text, text, pos);
                proof {
                    if j == 0 {
                        assert(ch0.text@[0] == c);
                    }
                    assert(ch0.text@.take(j as int) =~= relc.take(j as int));
                }
                if j < child.text.len() {
                    child.split(j);
                }
                let ghost ch1 = *child;
                proof {
                    assert(ch1.text@ =~= text@.subrange(pos as int, pos + ch1.text@.len())) by {
                        if j < ch0.text@.len() {
                        } else {
                            assert(ch0.text@.take(j as int) =~= ch0.text@);
                        }
                    }
                    assert(ch1.head() == c);
                }
                let k = child.absorb(text, pos, worker, now);
                proof {
                    let ch2 = *child;
                    assert(ch2.head() == c);
                    let did_split = j < ch0.text@.len();
                    // the text left the old edge exactly where the edge was cut
                    if did_split {
                        let q = relc.take(j + 1);
                        if pos + j < text@.len() && pos + j + 1 <= k {
                            assert(ch1.probe(q) is Some);
                            assert(ch0.probe(q) is Some);
                            ch0.lemma_own(q);
                            assert(q.is_prefix_of(ch0.text@));
                            assert(q[j as int] == ch0.text@.subrange(0, q.len() as int)[j as int]);
                            assert(false);
                        }
                        assert(k == pos + j);
                    }
                    assert forall|m: int| 0 <= m <= rel.len() - tlen implies (#[trigger] ch0.probe(relc.take(m)) is Some <==> tlen + m <= k - from) by {
                        assert(ch1.probe(relc.take(m)) is Some <==> pos + m <= k);
                    }
                    assert(self.children@ == pre.children@.update(i as int, ch2));
                    Self::lemma_grow_child(&pre, self, i as int, rel, k - from, j as int, worker@, now);
                    Self::lemma_below_bumped(ch0.counts@, pre.counts@, worker@);
                    assert(ch2.counts@.contains_key(worker@));
                    Self::lemma_wf_after(&pre, self, worker@, now, i as int);
                    Self::lemma_sizes_update(pre.children@, i as int, ch2);
                }
                k
            },
        }
    }
}


impl Node {
    proof fn lemma_scan_stop(&self, rel: Seq<char>)
        requires
            Self::distinct(self.children@),
            self.text@.is_prefix_of(rel),
            self.text@.len() == rel.len() || !Self::has(self.children@, rel[self.text@.len() as int]),
        ensures
            forall|m: int| 0 <= m <= rel.len() ==> (#[trigger] self.probe(rel.take(m)) is Some <==> m <= self.text@.len()),
            forall|m: int|
                0 <= m <= rel.len() ==> (#[trigger] self.probe(rel.take(m)) == if m < self.text@.len() {
                    Some(Spot { counts: self.counts@, end: None })
                } else if m == self.text@.len() {
                    Some(Spot { counts: self.counts@, end: Some(self.stamp) })
                } else {
                    None
                }),
    {
        let t = self.text@;
        let tlen = t.len() as int;
        assert forall|m: int| 0 <= m <= rel.len() implies (#[trigger] self.probe(rel.take(m)) == if m < tlen {
            Some(Spot { counts: self.counts@, end: None })
        } else if m == tlen {
            Some(Spot { counts: self.counts@, end: Some(self.stamp) })
        } else {
            None
        }) by {
            let q = rel.take(m);
            if m <= tlen {
                self.lemma_own(q);
                lemma_prefix_chain(q, t, rel);
            } else {
                assert(q[tlen] == rel[tlen]);
                self.lemma_miss(q);
            }
        }
    }

    proof fn lemma_scan_part(&self, i: int, rel: Seq<char>, j: int)
        requires
            Self::distinct(self.children@),
            self.text@.is_prefix_of(rel),
            self.text@.len() < rel.len(),
            0 <= i < self.children@.len(),
            self.children@[i].head() == rel[self.text@.len() as int],
            self.children@[i].children@.len() >= 0,
            0 < j < self.children@[i].text@.len(),
            self.text@.len() + j <= rel.len(),
            self.children@[i].text@.take(j) == rel.skip(self.text@.len() as int).take(j),
            self.text@.len() + j < rel.len() ==> self.children@[i].text@[j] != rel[self.text@.len() + j],
        ensures
            forall|m: int|
                0 <= m <= rel.len() ==> (#[trigger] self.probe(rel.take(m)) == if m < self.text@.len() {
                    Some(Spot { counts: self.counts@, end: None })
                } else if m == self.text@.len() {
                    Some(Spot { counts: self.counts@, end: Some(self.stamp) })
                } else if m <= self.text@.len() + j {
                    Some(Spot { counts: self.children@[i].counts@, end: None })
                } else {
                    None
                }),
    {
        let t = self.text@;
        let tlen = t.len() as int;
        let relc = rel.skip(tlen);
        let ch = self.children@[i];
        assert forall|m: int| 0 <= m <= rel.len() implies (#[trigger] self.probe(rel.take(m)) == if m < tlen {
            Some(Spot { counts: self.counts@, end: None })
        } else if m == tlen {
            Some(Spot { counts: self.counts@, end: Some(self.stamp) })
        } else if m <= tlen + j {
            Some(Spot { counts: ch.counts@, end: None })
        } else {
            None
        }) by {
            let q = rel.take(m);
            if m <= tlen {
                self.lemma_own(q);
                lemma_prefix_chain(q, t, rel);
            } else {
                assert(q[tlen] == rel[tlen]);
                assert(t.is_prefix_of(q)) by {
                    lemma_prefix_chain(t, q, rel);
                }
                self.lemma_step(q, i);
                let rest = q.skip(tlen);
                assert(rest =~= relc.take(m - tlen));
                if m <= tlen + j {
                    ch.lemma_own(rest);
                    assert(rest =~= ch.text@.take(j).take(m - tlen));
                    assert(rest =~= ch.text@.subrange(0, m - tlen));
                } else if m - tlen <= ch.text@.len() {
                    ch.lemma_own(rest);
                    if rest.is_prefix_of(ch.text@) {
                        assert(rest[j] == ch.text@.subrange(0, rest.len() as int)[j]);
                    }
                } else {
                    if ch.text@.is_prefix_of(rest) {
                        assert(ch.text@[j] == rest.subrange(0, ch.text@.len() as int)[j]);
                    }
                    ch.lemma_miss(rest);
                }
            }
        }
    }

    proof fn lemma_scan_child(&self, i: int, rel: Seq<char>)
        requires
            Self::distinct(self.children@),
            self.text@.is_prefix_of(rel),
            self.text@.len() < rel.len(),
            0 <= i < self.children@.len(),
            self.children@[i].head() == rel[self.text@.len() as int],
        ensures
            forall|m: int|
                0 <= m <= rel.len() ==> (#[trigger] self.probe(rel.take(m)) == if m < self.text@.len() {
                    Some(Spot { counts: self.counts@, end: None })
                } else if m == self.text@.len() {
                    Some(Spot { counts: self.counts@, end: Some(self.stamp) })
                } else {
                    self.children@[i].probe(rel.skip(self.text@.len() as int).take(m - self.text@.len()))
                }),
    {
        let t = self.text@;
        let tlen = t.len() as int;
        let relc = rel.skip(tlen);
        assert forall|m: int| 0 <= m <= rel.len() implies (#[trigger] self.probe(rel.take(m)) == if m < tlen {
            Some(Spot { counts: self.counts@, end: None })
        } else if m == tlen {
            Some(Spot { counts: self.counts@, end: Some(self.stamp) })
        } else {
            self.children@[i].probe(relc.take(m - tlen))
        }) by {
            let q = rel.take(m);
            if m <= tlen {
                self.lemma_own(q);
                lemma_prefix_chain(q, t, rel);
            } else {
                assert(q[tlen] == rel[tlen]);
                assert(t.is_prefix_of(q)) by {
                    lemma_prefix_chain(t, q, rel);
                }
                self.lemma_step(q, i);
                assert(q.skip(tlen) =~= relc.take(m - tlen));
            }
        }
    }

    /// Follows `text` below this node, whose edge the text has matched in
    /// full over the characters from `from` on. Returns how far the text
    /// reaches, where the last node that it matches in full ends, and who
    /// leads that node's counter.
    fn scan(&self, text: &Vec<char>, from: usize, order: &Vec<String>) -> (r: (usize, usize, Option<usize>))
        requires
            self.wf(),
            from + self.text@.len() <= text@.len(),
            self.text@ == text@.subrange(from as int, from + self.text@.len()),
        ensures
            from + self.text@.len() <= r.1 <= r.0 <= text@.len(),
            forall|m: int|
                0 <= m <= text@.len() - from ==> (#[trigger] self.probe(text@.skip(from as int).take(m)) is Some <==> from
                    + m <= r.0),
            forall|m: int|
                r.1 - from < m <= text@.len() - from ==> (#[trigger] self.probe(text@.skip(from as int).take(m)) matches Some(
                    s,
                ) ==> s.end is None),
            self.probe(text@.skip(from as int).take(r.1 - from)) matches Some(s) && s.end is Some && is_lead(
                s.counts,
                order.deep_view(),
                match r.2 {
                    Some(i) => Some(i as int),
                    None => None,
                },
            ),
        decreases text@.len() - from - self.text@.len(),
    {
        let ghost rel = text@.skip(from as int);
        let ghost t = self.text@;
        let tlen = self.text.len();
        let total = text.len();
        let pos = from + tlen;
        proof {
            assert(t =~= rel.take(tlen as int));
            assert(t.is_prefix_of(rel));
        }
        if pos == total {
            proof {
                self.lemma_scan_stop(rel);
            }
            return (pos, pos, self.counts.lead(order));
        }
        let c = text[pos];
        assert(rel[tlen as int] == c);
        match self.child_with(c) {
            None => {
                proof {
                    self.lemma_scan_stop(rel);
                }
                (pos, pos, self.counts.lead(order))
            },
            Some(i) => {
                let child = &self.children[i];
                let ghost relc = text@.skip(pos as int);
                proof {
                    assert(self.children@[i as int].wf());
                    assert(relc =~= rel.skip(tlen as int));
                }
                let j = common(&child.text, text, pos);
                proof {
                    if j == 0 {
                        assert(child.text@[0] == c);
                    }
                    assert(child.text@.take(j as int) =~= relc.take(j as int));
                }
                if j < child.text.len() {
                    proof {
                        self.lemma_scan_part(i as int, rel, j as int);
                    }
                    (pos + j, pos, self.counts.lead(order))
                } else {
                    proof {
                        assert(child.text@.take(j as int) =~= child.text@);
                        assert(child.text@ =~= text@.subrange(pos as int, pos + child.text@.len()));
                        self.lemma_scan_child(i as int, rel);
                    }
                    let r = child.scan(text, pos, order);
                    proof {
                        assert forall|m: int| 0 <= m <= text@.len() - from implies (#[trigger] self.probe(rel.take(m)) is Some <==> from + m <= r.0) by {
                            if m > tlen {
                                assert(child.probe(relc.take(m - tlen)) is Some <==> pos + (m - tlen) <= r.0);
                            }
                        }
                        assert forall|m: int| r.1 - from < m <= text@.len() - from implies (#[trigger] self.probe(rel.take(m)) matches Some(s) ==> s.end is None) by {
                            assert(child.probe(relc.take(m - tlen)) matches Some(s) ==> s.end is None);
                        }
                        assert(self.probe(rel.take(r.1 - from)) == child.probe(relc.take(r.1 - pos)));
                    }
                    r
                }
            },
        }
    }
}

impl Node {
    /// The subtree as a function from positions to what it holds there.
    spec fn look(&self) -> spec_fn(Seq<char>) -> Option<Spot> {
        |q: Seq<char>| self.probe(q)
    }

    /// No position of a subtree counts more than the node at its top, and
    /// no count is zero.
    proof fn lemma_counts(&self, p: Seq<char>)
        requires
            self.wf(),
            self.probe(p) is Some,
        ensures
            below(self.probe(p).unwrap().counts, self.counts@),
            forall|w: Seq<char>| self.probe(p).unwrap().counts.contains_key(w) ==> self.probe(p).unwrap().counts[w] > 0,
        decreases self,
    {
        let t = self.text@;
        if p.len() <= t.len() {
            self.counts.lemma_positive();
        } else {
            let i = Self::slot(self.children@, p[t.len() as int]);
            let kid = self.children@[i];
            assert(kid.wf());
            kid.lemma_counts(p.skip(t.len() as int));
            let s = kid.probe(p.skip(t.len() as int)).unwrap();
            assert(below(kid.counts@, self.counts@));
            assert forall|w: Seq<char>| amount(s.counts, w) <= #[trigger] amount(self.counts@, w) by {
                assert(amount(s.counts, w) <= amount(kid.counts@, w));
                assert(amount(kid.counts@, w) <= amount(self.counts@, w));
            }
        }
    }

    /// Where the node at the top holds no worker but `worker`, no position
    /// of the subtree does.
    proof fn lemma_all_sole(&self, worker: Seq<char>)
        requires
            self.wf(),
            sole(self.counts@, worker),
        ensures
            forall|p: Seq<char>| !#[trigger] stays(self.look(), p, worker),
    {
        assert forall|p: Seq<char>| !#[trigger] stays(self.look(), p, worker) by {
            if self.probe(p) is Some {
                self.lemma_counts(p);
                let s = self.probe(p).unwrap();
                assert forall|x: Seq<char>| s.counts.contains_key(x) implies x == worker by {
                    assert(amount(s.counts, x) <= amount(self.counts@, x));
                }
            }
        }
    }

    /// Below a child, forgetting a worker is a matter of that child alone.
    proof fn lemma_cleared_below(&self, i: int, p: Seq<char>, worker: Seq<char>)
        requires
            Self::distinct(self.children@),
            0 <= i < self.children@.len(),
            self.text@.is_prefix_of(p),
            p.len() > self.text@.len(),
            self.children@[i].head() == p[self.text@.len() as int],
        ensures
            self.probe(p) == self.children@[i].probe(p.skip(self.text@.len() as int)),
            cleared(self.look(), p, worker) == cleared(self.children@[i].look(), p.skip(self.text@.len() as int), worker),
    {
        let tlen = self.text@.len() as int;
        let kid = self.children@[i];
        let rest = p.skip(tlen);
        let f = self.look();
        let g = kid.look();
        self.lemma_step(p, i);
        assert forall|c: char| f(#[trigger] p.push(c)) == g(rest.push(c)) by {
            let q = p.push(c);
            assert(self.text@.is_prefix_of(q)) by {
                lemma_prefix_chain(self.text@, p, q);
                assert(p =~= q.subrange(0, p.len() as int));
            }
            assert(q[tlen] == p[tlen]);
            self.lemma_step(q, i);
            assert(q.skip(tlen) =~= rest.push(c));
        }
        assert(f(p) == g(rest));
        if fuses(f, p, worker) {
            let c1 = choose|c: char| f(#[trigger] p.push(c)) is Some && !stays(f, p.push(c), worker);
            let c2 = choose|c: char|
                {
                    &&& stays(f, #[trigger] p.push(c), worker)
                    &&& f(p.push(c)).unwrap().counts.remove(worker) == f(p).unwrap().counts.remove(worker)
                    &&& forall|d: char| d != c ==> !stays(f, #[trigger] p.push(d), worker)
                };
            assert(g(rest.push(c1)) is Some && !stays(g, rest.push(c1), worker));
            assert(stays(g, rest.push(c2), worker));
            assert forall|d: char| d != c2 implies !stays(g, #[trigger] rest.push(d), worker) by {
                assert(!stays(f, p.push(d), worker));
            }
            assert(fuses(g, rest, worker));
        }
        if fuses(g, rest, worker) {
            let c1 = choose|c: char| g(#[trigger] rest.push(c)) is Some && !stays(g, rest.push(c), worker);
            let c2 = choose|c: char|
                {
                    &&& stays(g, #[trigger] rest.push(c), worker)
                    &&& g(rest.push(c)).unwrap().counts.remove(worker) == g(rest).unwrap().counts.remove(worker)
                    &&& forall|d: char| d != c ==> !stays(g, #[trigger] rest.push(d), worker)
                };
            assert(f(p.push(c1)) is Some && !stays(f, p.push(c1), worker));
            assert(stays(f, p.push(c2), worker));
            assert forall|d: char| d != c2 implies !stays(f, #[trigger] p.push(d), worker) by {
                assert(!stays(g, rest.push(d), worker));
            }
            assert(fuses(f, p, worker));
        }
    }

    proof fn lemma_sizes_take(kids: Seq<Node>, i: int)
        requires
            0 <= i <= kids.len(),
        ensures
            Self::sizes(kids.take(i)) <= Self::sizes(kids),
            i < kids.len() ==> Self::sizes(kids.take(i + 1)) == Self::sizes(kids.take(i)) + kids[i].size(),
        decreases kids.len(),
    {
        if i < kids.len() {
            assert(kids.take(i + 1).drop_last() =~= kids.take(i));
            assert(kids.take(i + 1).last() == kids[i]);
            if i + 1 < kids.len() {
                Self::lemma_sizes_take(kids.drop_last(), i + 1);
                assert(kids.drop_last().take(i + 1) =~= kids.take(i + 1));
            } else {
                assert(kids.take(i + 1) =~= kids);
            }
        } else {
            assert(kids.take(i) =~= kids);
        }
    }

    /// The number of characters on the edges of this subtree.
    fn weigh(&self) -> (r: usize)
        requires
            self.size() <= usize::MAX,
        ensures
            r == self.size(),
        decreases self,
    {
        let mut total: usize = self.text.len();
        let mut i: usize = 0;
        while i < self.children.len()
            invariant
                i <= self.children@.len(),
                self.size() <= usize::MAX,
                total == self.text@.len() + Self::sizes(self.children@.take(i as int)),
            decreases self.children@.len() - i,
        {
            proof {
                Self::lemma_sizes_take(self.children@, i as int);
                Self::lemma_sizes_take(self.children@, i + 1);
            }
            let w = self.children[i].weigh();
            total = total + w;
            i += 1;
        }
        assert(self.children@.take(i as int) =~= self.children@);
        total
    }
}

/// What a position holds once the node boundary there, if `here`, is gone.
pub open spec fn unmarked(s: Option<Spot>, here: bool) -> Option<Spot> {
    match s {
        Some(x) => if here {
            Some(Spot { counts: x.counts, end: None })
        } else {
            Some(x)
        },
        None => None,
    }
}

/// Forgetting a worker depends on what the positions hold, not on how that
/// is written down.
pub proof fn lemma_cleared_same(
    f: spec_fn(Seq<char>) -> Option<Spot>,
    g: spec_fn(Seq<char>) -> Option<Spot>,
    p: Seq<char>,
    worker: Seq<char>,
)
    requires
        forall|q: Seq<char>| #[trigger] f(q) == g(q),
    ensures
        stays(f, p, worker) == stays(g, p, worker),
        fuses(f, p, worker) == fuses(g, p, worker),
        cleared(f, p, worker) == cleared(g, p, worker),
{
    if fuses(f, p, worker) {
        let c1 = choose|c: char| f(#[trigger] p.push(c)) is Some && !stays(f, p.push(c), worker);
        let c2 = choose|c: char|
            {
                &&& stays(f, #[trigger] p.push(c), worker)
                &&& f(p.push(c)).unwrap().counts.remove(worker) == f(p).unwrap().counts.remove(worker)
                &&& forall|d: char| d != c ==> !stays(f, #[trigger] p.push(d), worker)
            };
        assert(g(p.push(c1)) is Some && !stays(g, p.push(c1), worker));
        assert(stays(g, p.push(c2), worker));
        assert forall|d: char| d != c2 implies !stays(g, #[trigger] p.push(d), worker) by {
            assert(!stays(f, p.push(d), worker));
        }
    }
    if fuses(g, p, worker) {
        let c1 = choose|c: char| g(#[trigger] p.push(c)) is Some && !stays(g, p.push(c), worker);
        let c2 = choose|c: char|
            {
                &&& stays(g, #[trigger] p.push(c), worker)
                &&& g(p.push(c)).unwrap().counts.remove(worker) == g(p).unwrap().counts.remove(worker)
                &&& forall|d: char| d != c ==> !stays(g, #[trigger] p.push(d), worker)
            };
        assert(f(p.push(c1)) is Some && !stays(f, p.push(c1), worker));
        assert(stays(f, p.push(c2), worker));
        assert forall|d: char| d != c2 implies !stays(f, #[trigger] p.push(d), worker) by {
            assert(!stays(g, p.push(d), worker));
        }
    }
}

impl Node {
    /// `b` is what is left of the child `a` once `worker` is forgotten.
    spec fn image(a: &Node, b: &Node, worker: Seq<char>) -> bool {
        &&& b.wf()
        &&& b.text@.len() > 0
        &&& b.head() == a.head()
        &&& b.counts@ == a.counts@.remove(worker)
        &&& forall|q: Seq<char>| q.len() > 0 ==> #[trigger] b.probe(q) == cleared(a.look(), q, worker)
    }

    /// How the children that stay relate to the children that were: `src`
    /// gives for each child that stays the child it comes from, `dst` for
    /// each child that was the child it became, if it stays.
    spec fn sifted(orig: Seq<Node>, kept: Seq<Node>, n: int, src: Seq<int>, dst: Seq<int>, worker: Seq<char>) -> bool {
        &&& src.len() == kept.len()
        &&& dst.len() == n
        &&& forall|x: int|
            0 <= x < kept.len() ==> 0 <= #[trigger] src[x] < n && dst[src[x]] == x && Self::image(&orig[src[x]], &kept[x], worker)
        &&& forall|y: int|
            0 <= y < n ==> if sole(orig[y].counts@, worker) {
                #[trigger] dst[y] == -1
            } else {
                0 <= dst[y] < kept.len() && src[dst[y]] == y
            }
    }

    /// A single character below a node is held by the child whose edge starts with it.
    proof fn lemma_first_step(&self, c: char)
        requires
            self.wf(),
        ensures
            Self::has(self.children@, c) ==> self.probe(self.text@.push(c)) == Some(
                Spot {
                    counts: self.children@[Self::slot(self.children@, c)].counts@,
                    end: if self.children@[Self::slot(self.children@, c)].text@.len() == 1 {
                        Some(self.children@[Self::slot(self.children@, c)].stamp)
                    } else {
                        None
                    },
                },
            ),
            !Self::has(self.children@, c) ==> self.probe(self.text@.push(c)) is None,
    {
        let t = self.text@;
        let p = t.push(c);
        assert(t.is_prefix_of(p)) by {
            assert(t =~= p.subrange(0, t.len() as int));
        }
        assert(p[t.len() as int] == c);
        if Self::has(self.children@, c) {
            let i = Self::slot(self.children@, c);
            let kid = self.children@[i];
            assert(kid.head() == c);
            assert(kid.wf());
            self.lemma_step(p, i);
            let rest = p.skip(t.len() as int);
            assert(rest =~= seq![c]);
            kid.lemma_own(rest);
            assert(rest =~= kid.text@.subrange(0, 1));
        } else {
            self.lemma_miss(p);
        }
    }

    /// What the node holds once `worker` is forgotten and its children have
    /// been sifted, before it is merged with an only child.
    proof fn lemma_sift(pre: &Node, mid: &Node, src: Seq<int>, dst: Seq<int>, worker: Seq<char>, lost: bool)
        requires
            pre.wf(),
            !sole(pre.counts@, worker) || pre.text@.len() == 0,
            mid.text@ == pre.text@,
            mid.stamp == pre.stamp,
            mid.counts@ == pre.counts@.remove(worker),
            Self::sifted(pre.children@, mid.children@, pre.children@.len() as int, src, dst, worker),
            lost <==> exists|y: int| 0 <= y < pre.children@.len() && sole(#[trigger] pre.children@[y].counts@, worker),
        ensures
            Self::distinct(mid.children@),
            forall|q: Seq<char>|
                q.len() > 0 && q != pre.text@ ==> #[trigger] mid.probe(q) == cleared(pre.look(), q, worker),
            pre.text@.len() > 0 ==> stays(pre.look(), pre.text@, worker),
            fuses(pre.look(), pre.text@, worker) <==> !sole(pre.counts@, worker) && lost && mid.children@.len() == 1
                && mid.children@[0].counts@ == mid.counts@,
    {
        let t = pre.text@;
        let tlen = t.len() as int;
        let orig = pre.children@;
        let kept = mid.children@;
        let f = pre.look();
        assert forall|a: int, b: int| 0 <= a < b < kept.len() implies #[trigger] kept[a].head() != #[trigger] kept[b].head() by {
            assert(dst[src[a]] == a && dst[src[b]] == b);
            assert(Self::image(&orig[src[a]], &kept[a], worker));
            assert(Self::image(&orig[src[b]], &kept[b], worker));
            if src[a] < src[b] {
                assert(orig[src[a]].head() != orig[src[b]].head());
            } else {
                assert(orig[src[b]].head() != orig[src[a]].head());
            }
        }
        assert forall|q: Seq<char>| q.len() > 0 && q != t implies #[trigger] mid.probe(q) == cleared(f, q, worker) by {
            if q.len() <= tlen {
                mid.lemma_own(q);
                pre.lemma_own(q);
                if q.is_prefix_of(t) {
                    assert(q.len() < tlen) by {
                        if q.len() == tlen {
                            assert(q =~= t);
                        }
                    }
                    assert(!fuses(f, q, worker));
                }
            } else if t.is_prefix_of(q) && Self::has(orig, q[tlen]) {
                let y = Self::slot(orig, q[tlen]);
                let rest = q.skip(tlen);
                assert(orig[y].head() == q[tlen]);
                assert(orig[y].wf());
                pre.lemma_cleared_below(y, q, worker);
                if sole(orig[y].counts@, worker) {
                    orig[y].lemma_all_sole(worker);
                    assert(!stays(orig[y].look(), rest, worker));
                    assert(!Self::has(kept, q[tlen])) by {
                        if Self::has(kept, q[tlen]) {
                            let x = Self::slot(kept, q[tlen]);
                            assert(kept[x].head() == q[tlen]);
                            assert(Self::image(&orig[src[x]], &kept[x], worker));
                            let z = src[x];
                            assert(dst[z] == x);
                            if z < y {
                                assert(orig[z].head() != orig[y].head());
                            } else if y < z {
                                assert(orig[y].head() != orig[z].head());
                            }
                            assert(dst[y] == -1);
                        }
                    }
                    mid.lemma_miss(q);
                } else {
                    let x = dst[y];
                    assert(src[x] == y);
                    assert(Self::image(&orig[src[x]], &kept[x], worker));
                    mid.lemma_step(q, x);
                }
            } else {
                pre.lemma_miss(q);
                assert(!stays(f, q, worker));
                if t.is_prefix_of(q) {
                    assert(!Self::has(kept, q[tlen])) by {
                        if Self::has(kept, q[tlen]) {
                            let x = Self::slot(kept, q[tlen]);
                            assert(kept[x].head() == q[tlen]);
                            assert(Self::image(&orig[src[x]], &kept[x], worker));
                            assert(orig[src[x]].head() == q[tlen]);
                        }
                    }
                }
                mid.lemma_miss(q);
            }
        }
        pre.lemma_own(t);
        assert(t.is_prefix_of(t));
        // what the single characters below the node hold
        assert forall|c: char| #![trigger t.push(c)]
            {
                &&& (f(t.push(c)) is Some <==> Self::has(orig, c))
                &&& (Self::has(orig, c) ==> f(t.push(c)).unwrap().counts == orig[Self::slot(orig, c)].counts@)
            } by {
            pre.lemma_first_step(c);
        }
        if sole(pre.counts@, worker) {
            assert(!stays(f, t, worker));
        } else {
            let want = lost && kept.len() == 1 && kept[0].counts@ == mid.counts@;
            if fuses(f, t, worker) {
                let c1 = choose|c: char| f(#[trigger] t.push(c)) is Some && !stays(f, t.push(c), worker);
                let c2 = choose|c: char|
                    {
                        &&& stays(f, #[trigger] t.push(c), worker)
                        &&& f(t.push(c)).unwrap().counts.remove(worker) == f(t).unwrap().counts.remove(worker)
                        &&& forall|d: char| d != c ==> !stays(f, #[trigger] t.push(d), worker)
                    };
                let y1 = Self::slot(orig, c1);
                assert(orig[y1].head() == c1);
                assert(sole(orig[y1].counts@, worker));
                assert(lost);
                let y2 = Self::slot(orig, c2);
                assert(orig[y2].head() == c2);
                assert(!sole(orig[y2].counts@, worker));
                let x2 = dst[y2];
                assert(src[x2] == y2);
                if kept.len() >= 2 {
                    let x: int = if x2 == 0 { 1 } else { 0 };
                    let z = src[x];
                    assert(dst[z] == x);
                    assert(Self::image(&orig[z], &kept[x], worker));
                    let d = orig[z].head();
                    if d != c2 {
                        assert(!stays(f, t.push(d), worker));
                        assert(Self::has(orig, d));
                        let z2 = Self::slot(orig, d);
                        assert(orig[z2].head() == d);
                        if z2 < z {
                            assert(orig[z2].head() != orig[z].head());
                        } else if z < z2 {
                            assert(orig[z].head() != orig[z2].head());
                        }
                        assert(sole(orig[z].counts@, worker));
                        assert(dst[z] == -1);
                    } else {
                        if y2 < z {
                            assert(orig[y2].head() != orig[z].head());
                        } else if z < y2 {
                            assert(orig[z].head() != orig[y2].head());
                        }
                    }
                }
                assert(kept.len() == 1);
                assert(Self::image(&orig[src[0]], &kept[0], worker));
                assert(want);
            }
            if want {
                let y1 = choose|y: int| 0 <= y < orig.len() && sole(#[trigger] orig[y].counts@, worker);
                let c1 = orig[y1].head();
                assert(Self::has(orig, c1));
                let s1 = Self::slot(orig, c1);
                assert(orig[s1].head() == c1);
                if s1 < y1 {
                    assert(orig[s1].head() != orig[y1].head());
                } else if y1 < s1 {
                    assert(orig[y1].head() != orig[s1].head());
                }
                assert(f(t.push(c1)) is Some && !stays(f, t.push(c1), worker));
                let y2 = src[0];
                assert(dst[y2] == 0);
                assert(Self::image(&orig[y2], &kept[0], worker));
                let c2 = orig[y2].head();
                assert(Self::has(orig, c2));
                let s2 = Self::slot(orig, c2);
                assert(orig[s2].head() == c2);
                if s2 < y2 {
                    assert(orig[s2].head() != orig[y2].head());
                } else if y2 < s2 {
                    assert(orig[y2].head() != orig[s2].head());
                }
                assert(stays(f, t.push(c2), worker));
                assert forall|d: char| d != c2 implies !stays(f, #[trigger] t.push(d), worker) by {
                    if Self::has(orig, d) {
                        let z = Self::slot(orig, d);
                        assert(orig[z].head() == d);
                        if !sole(orig[z].counts@, worker) {
                            assert(0 <= dst[z] < kept.len());
                            assert(src[dst[z]] == z);
                            assert(false);
                        }
                    }
                }
                assert(fuses(f, t, worker));
            }
        }
    }

    /// What a node holds once it has taken over the edge, the children and
    /// the stamp of its only child.
    proof fn lemma_merge(mid: &Node, post: &Node)
        requires
            mid.children@.len() == 1,
            mid.children@[0].text@.len() > 0,
            mid.children@[0].counts@ == mid.counts@,
            post.text@ == mid.text@ + mid.children@[0].text@,
            post.children@ == mid.children@[0].children@,
            post.stamp == mid.children@[0].stamp,
            post.counts@ == mid.counts@,
        ensures
            forall|q: Seq<char>| #[trigger] post.probe(q) == unmarked(mid.probe(q), q == mid.text@),
            post.size() == mid.size(),
    {
        let t = mid.text@;
        let tlen = t.len() as int;
        let ch = mid.children@[0];
        let ct = ch.text@;
        let full = post.text@;
        assert(Self::distinct(mid.children@));
        assert(mid.children@.drop_last() =~= Seq::<Node>::empty());
        assert(Self::sizes(mid.children@.drop_last()) == 0);
        assert(mid.children@.last() == ch);
        assert(Self::sizes(mid.children@) == ch.size());
        assert(full.take(tlen) =~= t);
        assert(full.skip(tlen) =~= ct);
        assert forall|q: Seq<char>| #[trigger] post.probe(q) == unmarked(mid.probe(q), q == t) by {
            if q.len() <= tlen {
                post.lemma_own(q);
                mid.lemma_own(q);
                assert(t.is_prefix_of(full));
                lemma_prefix_chain(q, t, full);
                if q.len() == tlen && q.is_prefix_of(t) {
                    assert(q =~= t);
                }
            } else if t.is_prefix_of(q) && q[tlen] == ch.head() {
                let rest = q.skip(tlen);
                mid.lemma_step(q, 0);
                assert(q.take(tlen) == full.take(tlen)) by {
                    lemma_prefix_chain(t, q, q);
                }
                if q.len() <= full.len() {
                    post.lemma_own(q);
                    ch.lemma_own(rest);
                    lemma_prefix_skip(q, full, tlen);
                } else {
                    lemma_prefix_skip(full, q, tlen);
                    if ct.is_prefix_of(rest) {
                        assert(rest[ct.len() as int] == q[full.len() as int]);
                        assert(rest.skip(ct.len() as int) =~= q.skip(full.len() as int));
                    }
                }
            } else {
                if t.is_prefix_of(q) {
                    assert(!Self::has(mid.children@, q[tlen]));
                }
                mid.lemma_miss(q);
                if q.len() <= full.len() {
                    post.lemma_own(q);
                    if q.is_prefix_of(full) {
                        assert(t.is_prefix_of(full));
                        lemma_prefix_chain(t, q, full);
                        assert(q[tlen] == full.subrange(0, q.len() as int)[tlen]);
                        assert(full[tlen] == ct[0]);
                    }
                } else {
                    if full.is_prefix_of(q) {
                        assert(t.is_prefix_of(full));
                        lemma_prefix_chain(t, full, q);
                        assert(full[tlen] == q.subrange(0, full.len() as int)[tlen]);
                        assert(full[tlen] == ct[0]);
                    }
                    post.lemma_miss(q);
                }
            }
        }
    }

    /// Forgets `worker` in this subtree. Says whether the node stays, and how
    /// many characters the subtree lost if it does.
    fn purge(&mut self, worker: &String, top: bool) -> (r: (bool, usize))
        requires
            old(self).wf(),
            old(self).size() <= usize::MAX,
            top ==> old(self).text@.len() == 0,
            !top ==> old(self).text@.len() > 0,
        ensures
            r.0 == (top || !sole(old(self).counts@, worker@)),
            r.0 ==> {
                &&& final(self).wf()
                &&& final(self).counts@ == old(self).counts@.remove(worker@)
                &&& final(self).size() + r.1 == old(self).size()
                &&& top ==> final(self).text@.len() == 0 && final(self).stamp == old(self).stamp
                &&& !top ==> final(self).text@.len() > 0 && final(self).head() == old(self).head()
                &&& forall|q: Seq<char>| q.len() > 0 ==> #[trigger] final(self).probe(q) == cleared(old(self).look(), q, worker@)
            },
            !r.0 ==> final(self).size() == old(self).size(),
        decreases *old(self),
    {
        let ghost pre = *self;
        let ghost w = worker@;
        self.counts.remove(worker);
        let gone = self.counts.is_empty();
        proof {
            if gone {
                assert forall|x: Seq<char>| pre.counts@.contains_key(x) implies x == w by {
                    if x != w {
                        assert(pre.counts@.remove(w).contains_key(x));
                    }
                }
            } else {
                if sole(pre.counts@, w) {
                    assert(pre.counts@.remove(w) =~= Map::<Seq<char>, nat>::empty());
                }
            }
        }
        if !top && gone {
            return (false, 0);
        }
        let mut kids: Vec<Node> = Vec::new();
        std::mem::swap(&mut self.children, &mut kids);
        let ghost orig = kids@;
        let mut kept: Vec<Node> = Vec::new();
        let mut lost = false;
        let mut freed: usize = 0;
        let ghost mut src: Seq<int> = Seq::empty();
        let ghost mut dst: Seq<int> = Seq::empty();
        for child in it: kids
            invariant
                it.seq() == orig,
                orig == pre.children@,
                pre == *old(self),
                pre.wf(),
                pre.size() <= usize::MAX,
                w == worker@,
                Self::sifted(orig, kept@, it.index(), src, dst, w),
                lost <==> exists|y: int| 0 <= y < it.index() && sole(#[trigger] orig[y].counts@, w),
                Self::sizes(kept@) + freed == Self::sizes(orig.take(it.index())),
        {
            let mut child = child;
            let ghost y = it.index();
            let ghost before = kept@;
            proof {
                Self::lemma_sizes_take(orig, y);
                Self::lemma_sizes_take(orig, y + 1);
                assert(orig[y].wf());
                assert(child == pre.children[y]);
                assert(decreases_to!(pre => pre.children[y]));
            }
            let r = child.purge(worker, false);
            if r.0 {
                freed = freed + r.1;
                kept.push(child);
                proof {
                    let x = before.len() as int;
                    src = src.push(y);
                    dst = dst.push(x);
                    Self::lemma_sizes_push(before, child);
                    assert(Self::image(&orig[y], &kept@[x], w));
                    assert forall|a: int| 0 <= a < kept@.len() implies 0 <= #[trigger] src[a] < y + 1 && dst[src[a]] == a && Self::image(
                        &orig[src[a]],
                        &kept@[a],
                        w,
                    ) by {
                        if a < x {
                            assert(kept@[a] == before[a]);
                        }
                    }
                }
            } else {
                let weight = child.weigh();
                freed = freed + weight;
                lost = true;
                proof {
                    dst = dst.push(-1);
                    assert forall|a: int| 0 <= a < kept@.len() implies 0 <= #[trigger] src[a] < y + 1 && dst[src[a]] == a && Self::image(
                        &orig[src[a]],
                        &kept@[a],
                        w,
                    ) by {}
                }
            }
        }
        self.children = kept;
        let ghost mid = *self;
        proof {
            assert(orig.take(orig.len() as int) =~= orig);
            Self::lemma_sift(&pre, &mid, src, dst, w, lost);
            assert(mid.wf()) by {
                assert forall|x: int| 0 <= x < mid.children@.len() implies {
                    &&& (#[trigger] mid.children@[x]).wf()
                    &&& mid.children@[x].text@.len() > 0
                    &&& mid.children@[x].counts@ != Map::<Seq<char>, nat>::empty()
                    &&& below(mid.children@[x].counts@, mid.counts@)
                } by {
                    let z = src[x];
                    assert(Self::image(&orig[z], &mid.children@[x], w));
                    assert(dst[z] == x);
                    assert(!sole(orig[z].counts@, w));
                    let e = choose|e: Seq<char>| orig[z].counts@.contains_key(e) && e != w;
                    assert(mid.children@[x].counts@.contains_key(e));
                    assert(below(orig[z].counts@, pre.counts@));
                    assert forall|v: Seq<char>| amount(mid.children@[x].counts@, v) <= #[trigger] amount(mid.counts@, v) by {
                        assert(amount(orig[z].counts@, v) <= amount(pre.counts@, v));
                    }
                }
            }
        }
        if !top && lost && self.children.len() == 1 {
            assert(self.children@[0].wf());
            if self.counts.within(&self.children[0].counts) {
                let ghost ch = self.children@[0];
                proof {
                    self.counts.lemma_positive();
                    ch.counts.lemma_positive();
                    assert(below(ch.counts@, mid.counts@));
                    assert forall|v: Seq<char>| #[trigger] ch.counts@.contains_key(v) == mid.counts@.contains_key(v) by {
                        assert(amount(ch.counts@, v) <= amount(mid.counts@, v));
                        assert(mid.counts.of(v) <= ch.counts.of(v));
                    }
                    assert forall|v: Seq<char>| ch.counts@.contains_key(v) implies #[trigger] ch.counts@[v] == mid.counts@[v] by {
                        assert(amount(ch.counts@, v) <= amount(mid.counts@, v));
                        assert(mid.counts.of(v) <= ch.counts.of(v));
                    }
                    assert(ch.counts@ =~= mid.counts@);
                }
                let only = self.children.pop().unwrap();
                let Node { text: tail, counts: _, children: below_it, stamp: seen } = only;
                let mut tail = tail;
                self.text.append(&mut tail);
                self.children = below_it;
                self.stamp = seen;
                proof {
                    assert(only == ch);
                    Self::lemma_merge(&mid, self);
                    assert(ch.wf());
                    assert(self.wf()) by {
                        assert forall|x: int| 0 <= x < self.children@.len() implies {
                            &&& (#[trigger] self.children@[x]).wf()
                            &&& self.children@[x].text@.len() > 0
                            &&& self.children@[x].counts@ != Map::<Seq<char>, nat>::empty()
                            &&& below(self.children@[x].counts@, self.counts@)
                        } by {
                            assert(ch.children@[x].wf());
                        }
                    }
                    assert(self.text@[0] == pre.text@[0]);
                    assert forall|q: Seq<char>| q.len() > 0 implies #[trigger] self.probe(q) == cleared(pre.look(), q, w) by {
                        if q == pre.text@ {
                            mid.lemma_own(q);
                            pre.lemma_own(q);
                        }
                    }
                }
                return (true, freed);
            }
        }
        proof {
            assert forall|q: Seq<char>| q.len() > 0 implies #[trigger] self.probe(q) == cleared(pre.look(), q, w) by {
                if q == pre.text@ {
                    mid.lemma_own(q);
                    pre.lemma_own(q);
                    if lost && mid.children@.len() == 1 && mid.children@[0].counts@ == mid.counts@ {
                        assert(mid.counts.of(w) <= mid.children@[0].counts.of(w));
                    }
                }
            }
        }
        (true, freed)
    }
}

impl Node {
    /// Below a child, being a leaf is a matter of that child alone.
    proof fn lemma_leaf_below(&self, i: int, p: Seq<char>)
        requires
            Self::distinct(self.children@),
            0 <= i < self.children@.len(),
            self.text@.is_prefix_of(p),
            p.len() > self.text@.len(),
            self.children@[i].head() == p[self.text@.len() as int],
        ensures
            self.probe(p) == self.children@[i].probe(p.skip(self.text@.len() as int)),
            is_leaf(self.look(), p) == is_leaf(self.children@[i].look(), p.skip(self.text@.len() as int)),
    {
        let tlen = self.text@.len() as int;
        let kid = self.children@[i];
        let rest = p.skip(tlen);
        let f = self.look();
        let g = kid.look();
        self.lemma_step(p, i);
        assert forall|c: char| f(#[trigger] p.push(c)) == g(rest.push(c)) by {
            let q = p.push(c);
            assert(self.text@.is_prefix_of(q)) by {
                lemma_prefix_chain(self.text@, p, q);
                assert(p =~= q.subrange(0, p.len() as int));
            }
            assert(q[tlen] == p[tlen]);
            self.lemma_step(q, i);
            assert(q.skip(tlen) =~= rest.push(c));
        }
        assert(f(p) == g(rest));
        if is_leaf(f, p) {
            assert forall|c: char| g(#[trigger] rest.push(c)) is None by {
                assert(f(p.push(c)) is None);
            }
        }
        if is_leaf(g, rest) {
            assert forall|c: char| f(#[trigger] p.push(c)) is None by {
                assert(g(rest.push(c)) is None);
            }
        }
    }

    /// Every leaf of a subtree is the node at its top, if that has no child,
    /// or a leaf of one of its children.
    proof fn lemma_leaf_where(&self, q: Seq<char>)
        requires
            self.wf(),
            is_leaf(self.look(), q),
        ensures
            self.children@.len() == 0 ==> q == self.text@,
            self.children@.len() > 0 ==> {
                &&& q.len() > self.text@.len()
                &&& self.text@.is_prefix_of(q)
                &&& Self::has(self.children@, q[self.text@.len() as int])
                &&& is_leaf(
                    self.children@[Self::slot(self.children@, q[self.text@.len() as int])].look(),
                    q.skip(self.text@.len() as int),
                )
            },
    {
        let t = self.text@;
        let tlen = t.len() as int;
        if q.len() <= tlen {
            self.lemma_own(q);
            assert(q.len() == tlen);
            assert(q =~= t);
            if self.children@.len() > 0 {
                let c = self.children@[0].head();
                assert(Self::has(self.children@, c));
                self.lemma_first_step(c);
                assert(self.look()(q.push(c)) is None);
            }
        } else {
            if !(t.is_prefix_of(q) && Self::has(self.children@, q[tlen])) {
                self.lemma_miss(q);
            }
            let i = Self::slot(self.children@, q[tlen]);
            assert(self.children@[i].head() == q[tlen]);
            self.lemma_leaf_below(i, q);
        }
    }

    /// The stamp of a leaf of this subtree that no other precedes in last access.
    fn oldest(&self) -> (r: u64)
        requires
            self.wf(),
        ensures
            exists|q: Seq<char>| #[trigger] is_leaf(self.look(), q) && self.probe(q).unwrap().end == Some(r),
            forall|q: Seq<char>| #[trigger] is_leaf(self.look(), q) ==> self.probe(q).unwrap().end.unwrap() >= r,
        decreases self,
    {
        let n = self.children.len();
        if n == 0 {
            proof {
                let t = self.text@;
                self.lemma_own(t);
                assert(t.is_prefix_of(t));
                assert forall|c: char| self.look()(#[trigger] t.push(c)) is None by {
                    self.lemma_first_step(c);
                }
                assert(is_leaf(self.look(), t));
                assert forall|q: Seq<char>| #[trigger] is_leaf(self.look(), q) implies self.probe(q).unwrap().end.unwrap() >= self.stamp by {
                    self.lemma_leaf_where(q);
                }
            }
            return self.stamp;
        }
        assert(self.children@[0].wf());
        let mut best: u64 = self.children[0].oldest();
        let ghost mut at: int = 0;
        let mut i: usize = 1;
        while i < n
            invariant
                self.wf(),
                n == self.children@.len(),
                1 <= i <= n,
                0 <= at < i,
                exists|q: Seq<char>| #[trigger] is_leaf(self.children@[at].look(), q) && self.children@[at].probe(q).unwrap().end == Some(best),
                forall|j: int, q: Seq<char>|
                    0 <= j < i && #[trigger] is_leaf(self.children@[j].look(), q) ==> self.children@[j].probe(q).unwrap().end.unwrap()
                        >= best,
            decreases n - i,
        {
            assert(self.children@[i as int].wf());
            let b = self.children[i].oldest();
            if b < best {
                best = b;
                proof {
                    at = i as int;
                }
            }
            i += 1;
        }
        proof {
            let t = self.text@;
            let kid = self.children@[at];
            assert(kid.wf());
            let qc = choose|q: Seq<char>| #[trigger] is_leaf(kid.look(), q) && kid.probe(q).unwrap().end == Some(best);
            kid.lemma_leaf_where(qc);
            assert(qc.len() > 0 && qc[0] == kid.head()) by {
                if kid.children@.len() == 0 {
                } else {
                    assert(kid.text@.is_prefix_of(qc));
                    assert(kid.text@[0] == qc.subrange(0, kid.text@.len() as int)[0]);
                }
            }
            let q = t + qc;
            assert(t.is_prefix_of(q)) by {
                assert(t =~= q.subrange(0, t.len() as int));
            }
            assert(q.skip(t.len() as int) =~= qc);
            self.lemma_leaf_below(at, q);
            assert(is_leaf(self.look(), q) && self.probe(q).unwrap().end == Some(best));
            assert forall|x: Seq<char>| #[trigger] is_leaf(self.look(), x) implies self.probe(x).unwrap().end.unwrap() >= best by {
                self.lemma_leaf_where(x);
                let j = Self::slot(self.children@, x[t.len() as int]);
                assert(self.children@[j].head() == x[t.len() as int]);
                self.lemma_leaf_below(j, x);
                assert(is_leaf(self.children@[j].look(), x.skip(t.len() as int)));
            }
        }
        best
    }

    /// Removes a leaf below this node whose stamp is `target`, the oldest
    /// stamp of any leaf of the subtree. Returns the number of characters on
    /// the edge that led to the leaf, the position of the leaf, and the
    /// length of the position of its parent.
    fn drop_leaf(&mut self, target: u64) -> (r: (usize, Ghost<Seq<char>>, Ghost<int>))
        requires
            old(self).wf(),
            old(self).children@.len() > 0,
            exists|q: Seq<char>| #[trigger] is_leaf(old(self).look(), q) && old(self).probe(q).unwrap().end == Some(target),
            forall|q: Seq<char>| #[trigger] is_leaf(old(self).look(), q) ==> old(self).probe(q).unwrap().end.unwrap() >= target,
        ensures
            final(self).wf(),
            final(self).text@ == old(self).text@,
            final(self).counts@ == old(self).counts@,
            final(self).stamp == old(self).stamp,
            is_leaf(old(self).look(), r.1@),
            old(self).probe(r.1@).unwrap().end == Some(target),
            old(self).text@.len() <= r.2@ < r.1@.len(),
            old(self).probe(r.1@.take(r.2@)) matches Some(s) && s.end is Some,
            forall|n: int| r.2@ < n < r.1@.len() ==> (#[trigger] old(self).probe(r.1@.take(n)) matches Some(s) ==> s.end is None),
            r.0 == r.1@.len() - r.2@,
            final(self).size() + r.0 == old(self).size(),
            forall|p: Seq<char>| #[trigger]
                final(self).probe(p) == if p.is_prefix_of(r.1@) && p.len() > r.2@ {
                    None
                } else {
                    old(self).probe(p)
                },
        decreases *old(self),
    {
        let ghost pre = *self;
        let ghost t = pre.text@;
        let ghost tlen = t.len() as int;
        let n = self.children.len();
        let mut i: usize = 0;
        loop
            invariant
                *self == pre,
                pre == *old(self),
                pre.wf(),
                t == pre.text@,
                tlen == t.len(),
                n == pre.children@.len(),
                n > 0,
                0 <= i <= n,
                exists|q: Seq<char>| #[trigger] is_leaf(pre.look(), q) && pre.probe(q).unwrap().end == Some(target),
                forall|q: Seq<char>| #[trigger] is_leaf(pre.look(), q) ==> pre.probe(q).unwrap().end.unwrap() >= target,
                forall|j: int, q: Seq<char>|
                    0 <= j < i && #[trigger] is_leaf(pre.children@[j].look(), q) ==> pre.children@[j].probe(q).unwrap().end
                        != Some(target),
            decreases n - i,
        {
            proof {
                if i == n {
                    let q = choose|q: Seq<char>| #[trigger] is_leaf(pre.look(), q) && pre.probe(q).unwrap().end == Some(target);
                    pre.lemma_leaf_where(q);
                    let j = Self::slot(pre.children@, q[tlen]);
                    assert(pre.children@[j].head() == q[tlen]);
                    pre.lemma_leaf_below(j, q);
                    assert(is_leaf(pre.children@[j].look(), q.skip(tlen)));
                    assert(false);
                }
                assert(pre.children@[i as int].wf());
            }
            let ghost kid = pre.children@[i as int];
            let b = self.children[i].oldest();
            proof {
                // the leaves of a child are leaves of this subtree
                assert forall|x: Seq<char>| #[trigger] is_leaf(kid.look(), x) implies kid.probe(x).unwrap().end.unwrap() >= target by {
                    kid.lemma_leaf_where(x);
                    assert(x.len() > 0 && x[0] == kid.head()) by {
                        if kid.children@.len() == 0 {
                        } else {
                            assert(kid.text@.is_prefix_of(x));
                            assert(kid.text@[0] == x.subrange(0, kid.text@.len() as int)[0]);
                        }
                    }
                    let q = t + x;
                    assert(t.is_prefix_of(q)) by {
                        assert(t =~= q.subrange(0, tlen));
                    }
                    assert(q.skip(tlen) =~= x);
                    pre.lemma_leaf_below(i as int, q);
                    assert(is_leaf(pre.look(), q));
                }
            }
            if b == target {
                let ghost qc = choose|q: Seq<char>| #[trigger] is_leaf(kid.look(), q) && kid.probe(q).unwrap().end == Some(b);
                proof {
                    kid.lemma_leaf_where(qc);
                    assert(qc.len() > 0 && qc[0] == kid.head()) by {
                        if kid.children@.len() == 0 {
                        } else {
                            assert(kid.text@.is_prefix_of(qc));
                            assert(kid.text@[0] == qc.subrange(0, kid.text@.len() as int)[0]);
                        }
                    }
                }
                if self.children[i].children.len() == 0 {
                    let gone = self.children.remove(i);
                    let freed = gone.text.len();
                    let ghost q = t + gone.text@;
                    proof {
                        assert(gone == kid);
                        assert(qc == kid.text@);
                        Self::lemma_drop_child(&pre, self, i as int);
                    }
                    return (freed, Ghost(q), Ghost(tlen));
                } else {
                    let child = &mut self.children[i];
                    let r = child.drop_leaf(target);
                    let ghost q = t + r.1@;
                    let ghost a = tlen + r.2@;
                    proof {
                        Self::lemma_drop_below(&pre, self, i as int, r.1@, r.2@);
                        Self::lemma_sizes_update(pre.children@, i as int, self.children@[i as int]);
                    }
                    return (r.0, Ghost(q), Ghost(a));
                }
            }
            i += 1;
        }
    }

    /// What a node holds once a childless child was taken away.
    proof fn lemma_drop_child(pre: &Node, post: &Node, i: int)
        requires
            pre.wf(),
            0 <= i < pre.children@.len(),
            pre.children@[i].children@.len() == 0,
            post.text@ == pre.text@,
            post.counts@ == pre.counts@,
            post.counts.wf(),
            post.stamp == pre.stamp,
            post.children@ == pre.children@.remove(i),
        ensures
            post.wf(),
            post.size() + pre.children@[i].text@.len() == pre.size(),
            is_leaf(pre.look(), pre.text@ + pre.children@[i].text@),
            pre.probe(pre.text@ + pre.children@[i].text@).unwrap().end == Some(pre.children@[i].stamp),
            pre.probe((pre.text@ + pre.children@[i].text@).take(pre.text@.len() as int)) matches Some(s) && s.end is Some,
            forall|n: int|
                pre.text@.len() < n < pre.text@.len() + pre.children@[i].text@.len() ==> (#[trigger] pre.probe(
                    (pre.text@ + pre.children@[i].text@).take(n),
                ) matches Some(s) ==> s.end is None),
            forall|p: Seq<char>| #[trigger]
                post.probe(p) == if p.is_prefix_of(pre.text@ + pre.children@[i].text@) && p.len() > pre.text@.len() {
                    None
                } else {
                    pre.probe(p)
                },
    {
        let t = pre.text@;
        let tlen = t.len() as int;
        let kid = pre.children@[i];
        let ct = kid.text@;
        let q = t + ct;
        let orig = pre.children@;
        let kept = post.children@;
        assert(kid.wf());
        assert(q.take(tlen) =~= t);
        assert(q.skip(tlen) =~= ct);
        assert(t.is_prefix_of(q));
        assert(q[tlen] == kid.head());
        assert forall|x: int| 0 <= x < kept.len() implies #[trigger] kept[x] == orig[if x < i { x } else { x + 1 }] by {}
        assert(Self::distinct(kept)) by {
            assert forall|a: int, b: int| 0 <= a < b < kept.len() implies #[trigger] kept[a].head() != #[trigger] kept[b].head() by {
                let a0 = if a < i { a } else { a + 1 };
                let b0 = if b < i { b } else { b + 1 };
                assert(orig[a0].head() != orig[b0].head());
            }
        }
        assert(post.wf()) by {
            assert forall|x: int| 0 <= x < kept.len() implies {
                &&& (#[trigger] kept[x]).wf()
                &&& kept[x].text@.len() > 0
                &&& kept[x].counts@ != Map::<Seq<char>, nat>::empty()
                &&& below(kept[x].counts@, post.counts@)
            } by {
                let x0 = if x < i { x } else { x + 1 };
                assert(orig[x0].wf());
            }
        }
        Self::lemma_sizes_remove(orig, i);
        assert(kid.size() == ct.len()) by {
            assert(Self::sizes(kid.children@) == 0);
        }
        assert(!Self::has(kept, kid.head())) by {
            if Self::has(kept, kid.head()) {
                let x = Self::slot(kept, kid.head());
                assert(kept[x].head() == kid.head());
                let x0 = if x < i { x } else { x + 1 };
                if x0 < i {
                    assert(orig[x0].head() != orig[i].head());
                } else {
                    assert(orig[i].head() != orig[x0].head());
                }
            }
        }
        pre.lemma_leaf_below(i, q);
        kid.lemma_own(ct);
        assert(ct.is_prefix_of(ct));
        assert(is_leaf(kid.look(), ct)) by {
            assert forall|c: char| kid.look()(#[trigger] ct.push(c)) is None by {
                kid.lemma_first_step(c);
                assert(!Self::has(kid.children@, c));
            }
        }
        pre.lemma_own(t);
        assert(t.is_prefix_of(t));
        assert forall|n: int| tlen < n < tlen + ct.len() implies (#[trigger] pre.probe(q.take(n)) matches Some(s) ==> s.end is None) by {
            let x = q.take(n);
            assert(t.is_prefix_of(x)) by {
                assert(t =~= x.subrange(0, tlen));
            }
            assert(x[tlen] == kid.head());
            pre.lemma_step(x, i);
            kid.lemma_own(x.skip(tlen));
        }
        assert forall|p: Seq<char>| #[trigger] post.probe(p) == if p.is_prefix_of(q) && p.len() > tlen {
            None
        } else {
            pre.probe(p)
        } by {
            if p.len() <= tlen {
                post.lemma_own(p);
                pre.lemma_own(p);
            } else if t.is_prefix_of(p) && p[tlen] == kid.head() {
                post.lemma_miss(p);
                pre.lemma_step(p, i);
                let rest = p.skip(tlen);
                assert(p.take(tlen) == q.take(tlen)) by {
                    lemma_prefix_chain(t, p, p);
                }
                if rest.len() <= ct.len() {
                    kid.lemma_own(rest);
                    lemma_prefix_skip(p, q, tlen);
                } else {
                    assert(!Self::has(kid.children@, rest[ct.len() as int]));
                    kid.lemma_miss(rest);
                }
            } else if t.is_prefix_of(p) {
                let d = p[tlen];
                if Self::has(orig, d) {
                    let y = Self::slot(orig, d);
                    assert(orig[y].head() == d);
                    let x = if y < i { y } else { y - 1 };
                    assert(kept[x] == orig[y]);
                    post.lemma_step(p, x);
                    pre.lemma_step(p, y);
                } else {
                    assert(!Self::has(kept, d)) by {
                        if Self::has(kept, d) {
                            let x = Self::slot(kept, d);
                            assert(kept[x].head() == d);
                            let x0 = if x < i { x } else { x + 1 };
                            assert(orig[x0].head() == d);
                        }
                    }
                    post.lemma_miss(p);
                    pre.lemma_miss(p);
                }
                if p.is_prefix_of(q) {
                    assert(p[tlen] == q.subrange(0, p.len() as int)[tlen]);
                }
            } else {
                post.lemma_miss(p);
                pre.lemma_miss(p);
                if p.is_prefix_of(q) {
                    lemma_prefix_chain(t, p, q);
                }
            }
        }
    }

    proof fn lemma_sizes_remove(kids: Seq<Node>, i: int)
        requires
            0 <= i < kids.len(),
        ensures
            Self::sizes(kids.remove(i)) + kids[i].size() == Self::sizes(kids),
        decreases kids.len(),
    {
        if i == kids.len() - 1 {
            assert(kids.remove(i) =~= kids.drop_last());
        } else {
            assert(kids.remove(i).drop_last() =~= kids.drop_last().remove(i));
            assert(kids.remove(i).last() == kids.last());
            Self::lemma_sizes_remove(kids.drop_last(), i);
        }
    }

    /// What a node holds once a leaf was taken away below one of its children.
    proof fn lemma_drop_below(pre: &Node, post: &Node, i: int, qc: Seq<char>, ac: int)
        requires
            pre.wf(),
            0 <= i < pre.children@.len(),
            post.text@ == pre.text@,
            post.counts@ == pre.counts@,
            post.counts.wf(),
            post.stamp == pre.stamp,
            post.children@ == pre.children@.update(i, post.children@[i]),
            post.children@[i].wf(),
            post.children@[i].text@ == pre.children@[i].text@,
            post.children@[i].counts@ == pre.children@[i].counts@,
            is_leaf(pre.children@[i].look(), qc),
            pre.children@[i].text@.len() <= ac < qc.len(),
            pre.children@[i].probe(qc.take(ac)) matches Some(s) && s.end is Some,
            forall|n: int| ac < n < qc.len() ==> (#[trigger] pre.children@[i].probe(qc.take(n)) matches Some(s) ==> s.end is None),
            forall|p: Seq<char>| #[trigger]
                post.children@[i].probe(p) == if p.is_prefix_of(qc) && p.len() > ac {
                    None
                } else {
                    pre.children@[i].probe(p)
                },
        ensures
            post.wf(),
            is_leaf(pre.look(), pre.text@ + qc),
            pre.probe(pre.text@ + qc) == pre.children@[i].probe(qc),
            pre.probe((pre.text@ + qc).take(pre.text@.len() + ac)) matches Some(s) && s.end is Some,
            forall|n: int|
                pre.text@.len() + ac < n < pre.text@.len() + qc.len() ==> (#[trigger] pre.probe((pre.text@ + qc).take(n)) matches Some(
                    s,
                ) ==> s.end is None),
            forall|p: Seq<char>| #[trigger]
                post.probe(p) == if p.is_prefix_of(pre.text@ + qc) && p.len() > pre.text@.len() + ac {
                    None
                } else {
                    pre.probe(p)
                },
    {
        let t = pre.text@;
        let tlen = t.len() as int;
        let kid = pre.children@[i];
        let kid2 = post.children@[i];
        let q = t + qc;
        let orig = pre.children@;
        let kept = post.children@;
        assert(kid.wf());
        assert(q.take(tlen) =~= t);
        assert(q.skip(tlen) =~= qc);
        assert(t.is_prefix_of(q));
        kid.lemma_leaf_where(qc);
        assert(qc.len() > 0 && qc[0] == kid.head()) by {
            if kid.children@.len() == 0 {
            } else {
                assert(kid.text@.is_prefix_of(qc));
                assert(kid.text@[0] == qc.subrange(0, kid.text@.len() as int)[0]);
            }
        }
        assert(q[tlen] == kid.head());
        assert(kid2.head() == kid.head());
        assert(Self::distinct(kept)) by {
            assert forall|a: int, b: int| 0 <= a < b < kept.len() implies #[trigger] kept[a].head() != #[trigger] kept[b].head() by {
                assert(orig[a].head() != orig[b].head());
            }
        }
        assert(post.wf()) by {
            assert forall|x: int| 0 <= x < kept.len() implies {
                &&& (#[trigger] kept[x]).wf()
                &&& kept[x].text@.len() > 0
                &&& kept[x].counts@ != Map::<Seq<char>, nat>::empty()
                &&& below(kept[x].counts@, post.counts@)
            } by {
                assert(orig[x].wf());
            }
        }
        pre.lemma_leaf_below(i, q);
        assert forall|n: int| tlen < n <= tlen + qc.len() implies #[trigger] pre.probe(q.take(n)) == kid.probe(qc.take(n - tlen)) by {
            let x = q.take(n);
            assert(t.is_prefix_of(x)) by {
                assert(t =~= x.subrange(0, tlen));
            }
            assert(x[tlen] == kid.head());
            pre.lemma_step(x, i);
            assert(x.skip(tlen) =~= qc.take(n - tlen));
        }
        assert(pre.probe(q.take(tlen + ac)) == kid.probe(qc.take(ac)));
        assert forall|p: Seq<char>| #[trigger] post.probe(p) == if p.is_prefix_of(q) && p.len() > tlen + ac {
            None
        } else {
            pre.probe(p)
        } by {
            if p.len() <= tlen {
                post.lemma_own(p);
                pre.lemma_own(p);
            } else if t.is_prefix_of(p) && p[tlen] == kid.head() {
                post.lemma_step(p, i);
                pre.lemma_step(p, i);
                assert(p.take(tlen) == q.take(tlen)) by {
                    lemma_prefix_chain(t, p, p);
                }
                if p.len() <= q.len() {
                    lemma_prefix_skip(p, q, tlen);
                }
            } else if t.is_prefix_of(p) {
                post.lemma_same_child(pre, p, kid.head());
                if p.is_prefix_of(q) {
                    assert(p[tlen] == q.subrange(0, p.len() as int)[tlen]);
                }
            } else {
                post.lemma_miss(p);
                pre.lemma_miss(p);
                if p.is_prefix_of(q) {
                    lemma_prefix_chain(t, p, q);
                }
            }
        }
    }
}

impl Node {
    /// The positions that the subtree holds, the empty one apart.
    spec fn held_below(&self) -> Set<Seq<char>> {
        Set::new(|p: Seq<char>| p.len() > 0 && self.probe(p) is Some)
    }

    /// The positions on an edge: its prefixes, the empty one apart.
    spec fn on_edge(t: Seq<char>) -> Set<Seq<char>> {
        Set::new(|p: Seq<char>| 0 < p.len() <= t.len() && p.is_prefix_of(t))
    }

    /// The positions that the subtrees `kids` hold below an edge `t`.
    spec fn under(t: Seq<char>, kids: Seq<Node>) -> Set<Seq<char>> {
        Set::new(
            |p: Seq<char>|
                p.len() > t.len() && t.is_prefix_of(p) && exists|i: int|
                    0 <= i < kids.len() && #[trigger] kids[i].head() == p[t.len() as int] && kids[i].probe(
                        p.skip(t.len() as int),
                    ) is Some,
        )
    }

    /// A position that a subtree holds starts as the edge of the subtree starts.
    proof fn lemma_first_char(&self, q: Seq<char>)
        requires
            self.text@.len() > 0,
            q.len() > 0,
            self.probe(q) is Some,
        ensures
            q[0] == self.head(),
    {
        let t = self.text@;
        if q.len() <= t.len() {
            assert(q[0] == t.subrange(0, q.len() as int)[0]);
        } else {
            assert(t[0] == q.subrange(0, t.len() as int)[0]);
        }
    }

    proof fn lemma_edge_count(t: Seq<char>)
        ensures
            Self::on_edge(t).finite(),
            Self::on_edge(t).len() == t.len(),
    {
        let range = set_int_range(1, t.len() as int + 1);
        let f = |k: int| t.take(k);
        lemma_int_range(1, t.len() as int + 1);
        assert(injective_on(f, range)) by {
            assert forall|a: int, b: int| range.contains(a) && range.contains(b) && #[trigger] f(a) == #[trigger] f(b) implies a
                == b by {
                assert(t.take(a).len() == a);
                assert(t.take(b).len() == b);
            }
        }
        assert(range.map(f) =~= Self::on_edge(t)) by {
            assert forall|p: Seq<char>| range.map(f).contains(p) <==> Self::on_edge(t).contains(p) by {
                if range.map(f).contains(p) {
                    let k = choose|k: int| range.contains(k) && f(k) == p;
                    assert(t.take(k) =~= t.subrange(0, k));
                }
                if Self::on_edge(t).contains(p) {
                    let k = p.len() as int;
                    assert(range.contains(k));
                    assert(f(k) =~= p);
                }
            }
        }
        lemma_map_size(range, Self::on_edge(t), f);
    }

    proof fn lemma_under_count(t: Seq<char>, kids: Seq<Node>)
        requires
            Self::distinct(kids),
            forall|i: int| 0 <= i < kids.len() ==> (#[trigger] kids[i]).wf() && kids[i].text@.len() > 0,
        ensures
            Self::under(t, kids).finite(),
            Self::under(t, kids).len() == Self::sizes(kids),
        decreases kids,
    {
        let all = Self::under(t, kids);
        if kids.len() == 0 {
            assert(all =~= Set::<Seq<char>>::empty());
        } else {
            let less = kids.drop_last();
            let last = kids.last();
            let n = kids.len() - 1;
            assert forall|i: int| 0 <= i < n implies #[trigger] less[i] == kids[i] by {}
            assert(Self::distinct(less)) by {
                assert forall|a: int, b: int| 0 <= a < b < less.len() implies #[trigger] less[a].head() != #[trigger] less[b].head() by {
                    assert(kids[a].head() != kids[b].head());
                }
            }
            Self::lemma_under_count(t, less);
            assert(kids[n].wf());
            last.lemma_count();
            let f = |q: Seq<char>| t + q;
            let own = last.held_below();
            let lifted = own.map(f);
            assert(injective_on(f, own)) by {
                assert forall|a: Seq<char>, b: Seq<char>| own.contains(a) && own.contains(b) && #[trigger] f(a) == #[trigger] f(b) implies a
                    == b by {
                    assert((t + a).skip(t.len() as int) =~= a);
                    assert((t + b).skip(t.len() as int) =~= b);
                }
            }
            lemma_map_size(own, lifted, f);
            let rest = Self::under(t, less);
            assert(rest.disjoint(lifted)) by {
                assert forall|p: Seq<char>| !(rest.contains(p) && lifted.contains(p)) by {
                    if rest.contains(p) && lifted.contains(p) {
                        let i = choose|i: int|
                            0 <= i < less.len() && #[trigger] less[i].head() == p[t.len() as int] && less[i].probe(
                                p.skip(t.len() as int),
                            ) is Some;
                        let q = choose|q: Seq<char>| own.contains(q) && f(q) == p;
                        last.lemma_first_char(q);
                        assert((t + q)[t.len() as int] == q[0]);
                        assert(kids[i].head() != kids[n].head());
                    }
                }
            }
            assert(all =~= rest + lifted) by {
                assert forall|p: Seq<char>| all.contains(p) <==> (rest + lifted).contains(p) by {
                    if all.contains(p) {
                        let i = choose|i: int|
                            0 <= i < kids.len() && #[trigger] kids[i].head() == p[t.len() as int] && kids[i].probe(
                                p.skip(t.len() as int),
                            ) is Some;
                        if i < n {
                            assert(less[i].head() == p[t.len() as int] && less[i].probe(p.skip(t.len() as int)) is Some);
                            assert(rest.contains(p));
                        } else {
                            let q = p.skip(t.len() as int);
                            assert(own.contains(q));
                            assert(f(q) =~= p) by {
                                lemma_prefix_chain(t, p, p);
                                assert(t + q =~= p);
                            }
                            assert(lifted.contains(p));
                        }
                    }
                    if rest.contains(p) {
                        let i = choose|i: int|
                            0 <= i < less.len() && #[trigger] less[i].head() == p[t.len() as int] && less[i].probe(
                                p.skip(t.len() as int),
                            ) is Some;
                        assert(kids[i].head() == p[t.len() as int] && kids[i].probe(p.skip(t.len() as int)) is Some);
                    }
                    if lifted.contains(p) {
                        let q = choose|q: Seq<char>| own.contains(q) && f(q) == p;
                        last.lemma_first_char(q);
                        assert(p == t + q);
                        assert(p.skip(t.len() as int) =~= q);
                        assert(p[t.len() as int] == q[0]);
                        assert(t.is_prefix_of(p)) by {
                            assert(t =~= p.subrange(0, t.len() as int));
                        }
                        assert(kids[n].head() == p[t.len() as int] && kids[n].probe(p.skip(t.len() as int)) is Some);
                    }
                }
            }
            lemma_set_disjoint_lens(rest, lifted);
        }
    }

    /// A subtree holds as many positions, the empty one apart, as there are
    /// characters on its edges.
    proof fn lemma_count(&self)
        requires
            self.wf(),
        ensures
            self.held_below().finite(),
            self.held_below().len() == self.size(),
        decreases self,
    {
        let t = self.text@;
        let kids = self.children@;
        Self::lemma_edge_count(t);
        assert forall|i: int| 0 <= i < kids.len() implies (#[trigger] kids[i]).wf() && kids[i].text@.len() > 0 by {}
        Self::lemma_under_count(t, kids);
        let edge = Self::on_edge(t);
        let deep = Self::under(t, kids);
        assert(edge.disjoint(deep));
        assert(self.held_below() =~= edge + deep) by {
            assert forall|p: Seq<char>| self.held_below().contains(p) <==> (edge + deep).contains(p) by {
                if p.len() > 0 && p.len() <= t.len() {
                    self.lemma_own(p);
                } else if p.len() > t.len() {
                    if deep.contains(p) {
                        let i = choose|i: int|
                            0 <= i < kids.len() && #[trigger] kids[i].head() == p[t.len() as int] && kids[i].probe(
                                p.skip(t.len() as int),
                            ) is Some;
                        self.lemma_step(p, i);
                    }
                    if self.probe(p) is Some {
                        if !(t.is_prefix_of(p) && Self::has(kids, p[t.len() as int])) {
                            self.lemma_miss(p);
                        }
                        let i = Self::slot(kids, p[t.len() as int]);
                        assert(kids[i].head() == p[t.len() as int]);
                        self.lemma_step(p, i);
                    }
                }
            }
        }
        lemma_set_disjoint_lens(edge, deep);
    }
}

impl Node {
    /// A subtree holds every prefix of a position that it holds, and counts
    /// there no less than at the position.
    proof fn lemma_prefixes(&self, p: Seq<char>, n: int)
        requires
            self.wf(),
            self.probe(p) is Some,
            0 <= n <= p.len(),
        ensures
            self.probe(p.take(n)) is Some,
            below(self.probe(p).unwrap().counts, self.probe(p.take(n)).unwrap().counts),
        decreases self,
    {
        let t = self.text@;
        let tlen = t.len() as int;
        let q = p.take(n);
        assert(q.is_prefix_of(p)) by {
            assert(q =~= p.subrange(0, n));
        }
        if n <= tlen {
            self.lemma_own(q);
            self.lemma_counts(p);
            if p.len() <= tlen {
                self.lemma_own(p);
                lemma_prefix_chain(q, p, t);
            } else {
                if !(t.is_prefix_of(p) && Self::has(self.children@, p[tlen])) {
                    self.lemma_miss(p);
                }
                lemma_prefix_chain(q, t, p);
            }
        } else {
            if !(t.is_prefix_of(p) && Self::has(self.children@, p[tlen])) {
                self.lemma_miss(p);
            }
            let i = Self::slot(self.children@, p[tlen]);
            let kid = self.children@[i];
            assert(kid.head() == p[tlen]);
            assert(kid.wf());
            self.lemma_step(p, i);
            assert(t.is_prefix_of(q)) by {
                lemma_prefix_chain(t, q, p);
            }
            assert(q[tlen] == p[tlen]);
            self.lemma_step(q, i);
            assert(q.skip(tlen) =~= p.skip(tlen).take(n - tlen));
            kid.lemma_prefixes(p.skip(tlen), n - tlen);
        }
    }

    /// Below the node at its top, a subtree holds no position without a count.
    proof fn lemma_counted(&self, p: Seq<char>)
        requires
            self.wf(),
            self.text@.len() > 0 ==> self.counts@ != Map::<Seq<char>, nat>::empty(),
            self.probe(p) is Some,
            p.len() > 0,
        ensures
            self.probe(p).unwrap().counts != Map::<Seq<char>, nat>::empty(),
        decreases self,
    {
        let t = self.text@;
        let tlen = t.len() as int;
        if p.len() <= tlen {
            self.lemma_own(p);
        } else {
            if !(t.is_prefix_of(p) && Self::has(self.children@, p[tlen])) {
                self.lemma_miss(p);
            }
            let i = Self::slot(self.children@, p[tlen]);
            let kid = self.children@[i];
            assert(kid.head() == p[tlen]);
            assert(kid.wf());
            self.lemma_step(p, i);
            kid.lemma_counted(p.skip(tlen));
        }
    }
}

/// The result of matching a text against the tree.
#[derive(Debug)]
pub struct PrefixMatch {
    /// How many leading characters of the text some stored text shares.
    pub matched_len: usize,
    /// The length of the prefix that ends at the last node matched in full.
    pub anchor_len: usize,
    /// The worker that leads the counter of that node, if any worker of the
    /// given order has a count there.
    pub worker: Option<String>,
}

/// The counted radix tree: the root node, whose edge is empty, the number of
/// characters on all edges, and the size that eviction brings it back to.
pub struct Tree {
    root: Node,
    chars: usize,
    max_size: usize,
}

impl View for Tree {
    type V = Map<Seq<char>, Spot>;

    /// The positions that the tree holds, each with its counts and node stamp.
    closed spec fn view(&self) -> Map<Seq<char>, Spot> {
        Map::new(|p: Seq<char>| self.root.probe(p) is Some, |p: Seq<char>| self.root.probe(p).unwrap())
    }
}

/// The characters of `s`, one by one.
pub fn chars_of(s: &str) -> (r: Vec<char>)
    ensures
        r@ == s@,
{
    let mut out: Vec<char> = Vec::new();
    for c in it: s.chars()
        invariant
            it.seq() == s@,
            out@ == it.seq().take(it.index()),
    {
        out.push(c);
    }
    out
}

impl Tree {
    /// The structural invariant of the tree.
    pub closed spec fn wf(&self) -> bool {
        &&& self.root.wf()
        &&& self.root.text@.len() == 0
        &&& self.chars == self.root.size()
    }

    /// The number of characters on the edges of the tree.
    pub closed spec fn size(&self) -> nat {
        self.root.size()
    }

    /// The size above which eviction removes leaves.
    pub closed spec fn limit(&self) -> nat {
        self.max_size as nat
    }

    /// The number of stored texts attributed to `worker`.
    pub open spec fn load(&self, worker: Seq<char>) -> nat {
        amount(self@[Seq::empty()].counts, worker)
    }

    /// The empty position is always held, and a node ends there: the root.
    pub proof fn lemma_root(&self)
        requires
            self.wf(),
        ensures
            ends(self@, Seq::empty()),
            forall|w: Seq<char>| #[trigger] self.load(w) <= u64::MAX,
            self.size() <= usize::MAX,
    {
        self.root.lemma_own(Seq::empty());
        self.root.counts.lemma_positive();
        assert forall|w: Seq<char>| #[trigger] self.load(w) <= u64::MAX by {
            assert(self.root.counts.of(w) <= u64::MAX);
        }
    }

    /// The shape of every tree: it holds every prefix of a position that it
    /// holds; a position other than the empty one is held because some
    /// worker has a count there; no count is zero; and along a text the
    /// counts of a worker never grow, so that the load of a worker bounds
    /// its count at every position.
    pub proof fn law_shape(&self)
        requires
            self.wf(),
        ensures
            prefix_closed(self@),
            forall|p: Seq<char>| #[trigger] self@.contains_key(p) && p.len() > 0 ==> self@[p].counts != Map::<Seq<char>, nat>::empty(),
            forall|p: Seq<char>, w: Seq<char>|
                self@.contains_key(p) && (#[trigger] self@[p].counts.contains_key(w)) ==> self@[p].counts[w] > 0,
            forall|p: Seq<char>, n: int|
                self@.contains_key(p) && 0 <= n <= p.len() ==> below(self@[p].counts, (#[trigger] self@[p.take(n)]).counts),
            forall|p: Seq<char>, w: Seq<char>| self@.contains_key(p) ==> #[trigger] amount(self@[p].counts, w) <= self.load(w),
    {
        let m = self@;
        assert forall|p: Seq<char>, n: int| m.contains_key(p) && 0 <= n <= p.len() implies #[trigger] m.contains_key(p.take(n)) by {
            self.root.lemma_prefixes(p, n);
        }
        assert forall|p: Seq<char>| #[trigger] m.contains_key(p) && p.len() > 0 implies m[p].counts != Map::<Seq<char>, nat>::empty() by {
            self.root.lemma_counted(p);
        }
        assert forall|p: Seq<char>, w: Seq<char>| m.contains_key(p) && (#[trigger] m[p].counts.contains_key(w)) implies m[p].counts[w]
            > 0 by {
            self.root.lemma_counts(p);
        }
        assert forall|p: Seq<char>, n: int| m.contains_key(p) && 0 <= n <= p.len() implies below(
            m[p].counts,
            (#[trigger] m[p.take(n)]).counts,
        ) by {
            self.root.lemma_prefixes(p, n);
        }
        assert forall|p: Seq<char>, w: Seq<char>| m.contains_key(p) implies #[trigger] amount(m[p].counts, w) <= self.load(w) by {
            self.root.lemma_prefixes(p, 0);
            assert(p.take(0) =~= Seq::<char>::empty());
        }
    }

    /// The size of the tree is the number of positions that it holds, the
    /// empty one apart: one position for each character on an edge.
    pub proof fn law_size_counts_positions(&self)
        requires
            self.wf(),
        ensures
            self@.dom().finite(),
            self@.dom().len() == self.size() + 1,
    {
        let e = Seq::<char>::empty();
        let below = self.root.held_below();
        self.root.lemma_count();
        self.root.lemma_own(e);
        assert(e.is_prefix_of(self.root.text@));
        assert(self@.dom() =~= below.insert(e));
    }

    /// An empty tree that eviction keeps at `max_size` characters or fewer.
    pub fn new(max_size: usize) -> (r: Tree)
        ensures
            r.wf(),
            r.size() == 0,
            r.limit() == max_size,
            r@ == blank(),
    {
        let root = Node { text: Vec::new(), counts: Counter::new(), children: Vec::new(), stamp: 0 };
        let r = Tree { root, chars: 0, max_size };
        proof {
            assert(Node::sizes(r.root.children@) == 0);
            assert forall|p: Seq<char>| p.len() > 0 implies r.root.probe(p) is None by {
                assert(!Node::has(r.root.children@, p[0]));
                r.root.lemma_miss(p);
            }
            r.root.lemma_own(Seq::empty());
            assert forall|p: Seq<char>| #[trigger] r@.contains_key(p) implies p == Seq::<char>::empty() by {
                if p.len() > 0 {
                    assert(r.root.probe(p) is None);
                } else {
                    assert(p =~= Seq::<char>::empty());
                }
            }
            assert(r@ =~= blank());
        }
        r
    }

    /// The number of characters on the edges of the tree.
    pub fn chars(&self) -> (r: usize)
        requires
            self.wf(),
        ensures
            r == self.size(),
    {
        self.chars
    }

    /// The size above which eviction removes leaves.
    pub fn max_size(&self) -> (r: usize)
        ensures
            r == self.limit(),
    {
        self.max_size
    }

    /// The number of stored texts attributed to `worker`.
    pub fn load_of(&self, worker: &str) -> (r: u64)
        requires
            self.wf(),
        ensures
            r == self.load(worker@),
    {
        proof {
            self.root.lemma_own(Seq::empty());
        }
        let owner = worker.to_owned();
        self.root.counts.get(&owner)
    }

    /// Stores `text` for `worker` at time `now`.
    pub fn insert(&mut self, text: &str, worker: &str, now: u64)
        requires
            old(self).wf(),
            old(self).load(worker@) < u64::MAX,
            old(self).size() + text@.len() <= usize::MAX,
        ensures
            final(self).wf(),
            final(self)@ == grow(old(self)@, text@, worker@, now),
            final(self).size() == old(self).size() + text@.len() - reach(old(self)@, text@),
            final(self).limit() == old(self).limit(),
    {
        let chars = chars_of(text);
        let owner = worker.to_owned();
        proof {
            self.root.lemma_own(Seq::empty());
            assert(self.root.text@ =~= chars@.subrange(0, 0));
        }
        let k = self.root.absorb(&chars, 0, &owner, now);
        self.chars = self.chars + (chars.len() - k);
        proof {
            let m0 = old(self)@;
            let m1 = self@;
            assert(chars@.skip(0) =~= chars@);
            assert forall|n: int| 0 <= n <= text@.len() implies (#[trigger] m0.contains_key(text@.take(n)) <==> n <= k) by {
                assert(old(self).root.probe(chars@.skip(0).take(n)) is Some <==> 0 + n <= k);
            }
            lemma_reach(m0, text@, k as nat, 0);
            let g = grow(m0, text@, worker@, now);
            assert forall|p: Seq<char>| #[trigger] m1.contains_key(p) == g.contains_key(p) by {
                assert(self.root.probe(p) == grown(old(self).root.probe(p), p, chars@, k - 0, worker@, now));
            }
            assert forall|p: Seq<char>| m1.contains_key(p) implies #[trigger] m1[p] == g[p] by {
                assert(self.root.probe(p) == grown(old(self).root.probe(p), p, chars@, k - 0, worker@, now));
                assert(spot(m0, p) == old(self).root.probe(p));
            }
            assert(m1 =~= g);
        }
    }

    /// Forgets `worker`: no counter names it afterwards.
    pub fn remove_worker(&mut self, worker: &str)
        requires
            old(self).wf(),
        ensures
            final(self).wf(),
            final(self)@ == purge(old(self)@, worker@),
            forall|p: Seq<char>| final(self)@.contains_key(p) ==> !(#[trigger] final(self)@[p]).counts.contains_key(worker@),
            final(self).size() <= old(self).size(),
            final(self).size() + 1 == purge(old(self)@, worker@).dom().len(),
            final(self).limit() == old(self).limit(),
    {
        let owner = worker.to_owned();
        let r = self.root.purge(&owner, true);
        self.chars = self.chars - r.1;
        proof {
            self.law_size_counts_positions();
            let m0 = old(self)@;
            let m1 = self@;
            let w = worker@;
            let f = old(self).root.look();
            let e = Seq::<char>::empty();
            old(self).root.lemma_own(e);
            self.root.lemma_own(e);
            assert(e.is_prefix_of(old(self).root.text@));
            assert(e.is_prefix_of(self.root.text@));
            let g = purge(m0, w);
            assert forall|p: Seq<char>| p.len() > 0 implies self.root.probe(p) == cleared(held(m0), p, w) by {
                lemma_cleared_same(f, held(m0), p, w);
            }
            assert forall|p: Seq<char>| #[trigger] m1.contains_key(p) == g.contains_key(p) by {
                if p.len() == 0 {
                    assert(p =~= e);
                } else {
                    assert(self.root.probe(p) == cleared(held(m0), p, w));
                }
            }
            assert forall|p: Seq<char>| m1.contains_key(p) implies #[trigger] m1[p] == g[p] by {
                if p.len() == 0 {
                    assert(p =~= e);
                } else {
                    assert(self.root.probe(p) == cleared(held(m0), p, w));
                }
            }
            assert(m1 =~= g);
        }
    }

    /// Removes the leaf that was accessed least recently, if the tree has one.
    pub fn evict_one(&mut self) -> (r: bool)
        requires
            old(self).wf(),
        ensures
            final(self).wf(),
            final(self).limit() == old(self).limit(),
            r == (old(self).size() > 0),
            !r ==> final(self)@ == old(self)@ && final(self).size() == old(self).size(),
            r ==> sheds(old(self)@, old(self).size(), final(self)@, final(self).size()),
    {
        if self.root.children.len() == 0 {
            proof {
                assert(Node::sizes(self.root.children@) == 0);
            }
            return false;
        }
        let target = self.root.oldest();
        let r = self.root.drop_leaf(target);
        self.chars = self.chars - r.0;
        proof {
            let m0 = old(self)@;
            let m1 = self@;
            let pre = old(self).root;
            let f = pre.look();
            let q = r.1@;
            let a = r.2@;
            assert forall|x: Seq<char>| is_leaf(f, x) == #[trigger] is_leaf(held(m0), x) by {
                if is_leaf(f, x) {
                    assert forall|c: char| held(m0)(#[trigger] x.push(c)) is None by {
                        assert(f(x.push(c)) is None);
                    }
                }
                if is_leaf(held(m0), x) {
                    assert forall|c: char| f(#[trigger] x.push(c)) is None by {
                        assert(held(m0)(x.push(c)) is None);
                    }
                }
            }
            assert(oldest_leaf(m0, q)) by {
                assert(is_leaf(held(m0), q));
                assert forall|x: Seq<char>| x.len() > 0 && #[trigger] is_leaf(held(m0), x) implies m0[q].end.unwrap() <= m0[x].end.unwrap() by {
                    assert(is_leaf(f, x));
                }
            }
            let up = q.drop_last();
            assert forall|n: int| 0 <= n <= up.len() implies #[trigger] up.take(n) == q.take(n) by {
                assert(up.take(n) =~= q.take(n));
            }
            assert(a == 0 || ends(m0, up.take(a)));
            assert forall|n: int| a < n <= up.len() implies !#[trigger] ends(m0, up.take(n)) by {
                assert(pre.probe(q.take(n)) matches Some(s) ==> s.end is None);
            }
            lemma_hold(m0, up, a as nat, up.len());
            let g = shed(m0, q);
            assert forall|p: Seq<char>| #[trigger] m1.contains_key(p) == g.contains_key(p) by {
                assert(self.root.probe(p) == if p.is_prefix_of(q) && p.len() > a {
                    None
                } else {
                    pre.probe(p)
                });
            }
            assert forall|p: Seq<char>| m1.contains_key(p) implies #[trigger] m1[p] == g[p] by {
                assert(self.root.probe(p) == if p.is_prefix_of(q) && p.len() > a {
                    None
                } else {
                    pre.probe(p)
                });
            }
            assert(m1 =~= g);
            assert(oldest_leaf(m0, q) && m1 == shed(m0, q) && 0 < edge_len(m0, q) <= old(self).size());
        }
        true
    }

    /// Brings the tree back to its size limit: while it holds more
    /// characters than that, removes the leaf that was accessed least
    /// recently. Returns the number of leaves removed.
    pub fn evict(&mut self) -> (n: usize)
        requires
            old(self).wf(),
        ensures
            final(self).wf(),
            final(self).limit() == old(self).limit(),
            final(self).size() <= final(self).limit(),
            pruned(old(self)@, old(self).size(), final(self)@, final(self).size(), final(self).limit(), n as nat),
    {
        let mut n: usize = 0;
        while self.chars > self.max_size
            invariant
                self.wf(),
                self.limit() == old(self).limit(),
                n + self.size() <= old(self).size(),
                old(self).size() <= usize::MAX,
                pruned(old(self)@, old(self).size(), self@, self.size(), self.limit(), n as nat),
            decreases self.size(),
        {
            let ghost m1 = self@;
            let ghost s1 = self.size();
            let r = self.evict_one();
            proof {
                assert(pruned(old(self)@, old(self).size(), m1, s1, self.limit(), n as nat) && s1 > self.limit() && sheds(
                    m1,
                    s1,
                    self@,
                    self.size(),
                ));
            }
            n = n + 1;
            proof {
                lemma_pruned_more(old(self)@, old(self).size(), m1, s1, self@, self.size(), self.limit(), (n - 1) as nat);
            }
        }
        n
    }

    /// Matches `text` against the tree. The worker of the result is taken
    /// among those of `order`, the earlier one winning a tie.
    pub fn prefix_match(&self, text: &str, order: &Vec<String>) -> (r: PrefixMatch)
        requires
            self.wf(),
        ensures
            r.matched_len == reach(self@, text@),
            r.anchor_len == hold(self@, text@),
            r.anchor_len <= r.matched_len <= text@.len(),
            ends(self@, text@.take(r.anchor_len as int)),
            r.worker.deep_view() == leader(self@[text@.take(r.anchor_len as int)].counts, order.deep_view()),
    {
        let chars = chars_of(text);
        proof {
            assert(self.root.text@ =~= chars@.subrange(0, 0));
            assert(chars@.skip(0) =~= chars@);
        }
        let r = self.root.scan(&chars, 0, order);
        let worker = match r.2 {
            Some(i) => Some(order[i].clone()),
            None => None,
        };
        proof {
            let m = self@;
            assert forall|n: int| 0 <= n <= text@.len() implies (#[trigger] m.contains_key(text@.take(n)) <==> n <= r.0) by {
                assert(self.root.probe(chars@.skip(0).take(n)) is Some <==> 0 + n <= r.0);
            }
            lemma_reach(m, text@, r.0 as nat, 0);
            assert forall|n: int| r.1 < n <= text@.len() implies !#[trigger] ends(m, text@.take(n)) by {
                assert(self.root.probe(chars@.skip(0).take(n)) matches Some(s) ==> s.end is None);
            }
            assert(ends(m, text@.take(r.1 as int)));
            lemma_hold(m, text@, r.1 as nat, text@.len());
            let lead = match r.2 {
                Some(i) => Some(i as int),
                None => None,
            };
            lemma_leader(m[text@.take(r.1 as int)].counts, order.deep_view(), lead);
            if let Some(i) = r.2 {
                assert(order.deep_view()[i as int] == order@[i as int]@);
            }
        }
        PrefixMatch { matched_len: r.0, anchor_len: r.1, worker }
    }
}

} // verus!
