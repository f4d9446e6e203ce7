//! The policy engine: which worker gets a request under the random, the
//! round-robin and the cache-aware policy.

use vstd::prelude::*;
use vstd::arithmetic::div_mod::lemma_mod_pos_bound;
use crate::counter::amount;
use crate::registry::{first_objection, objection, round_robin_index, round_robin_step, AddError, WorkerRegistry};
use crate::tree::{below, blank, ends, grow, hold, leader, prefix_closed, purge, pruned, reach, Spot, Tree};
use crate::tree_laws::{law_leader_has_most, law_stored_load_grows};

verus! {

/// The seconds between two eviction passes over the prefix tree: the
/// eviction interval of the cache-aware policy, and one second where that
/// is zero, so that no pass follows another without a pause. The other
/// policies keep no tree and evict nothing.
pub fn eviction_pause_secs(config: &PolicyConfig) -> (r: Option<u64>)
    ensures
        r == match *config {
            PolicyConfig::CacheAwareConfig { eviction_interval_secs, .. } => Some(
                if eviction_interval_secs == 0 {
                    1u64
                } else {
                    eviction_interval_secs
                },
            ),
            _ => None,
        },
{
    match config {
        PolicyConfig::CacheAwareConfig { eviction_interval_secs, .. } => {
            if *eviction_interval_secs == 0 {
                Some(1)
            } else {
                Some(*eviction_interval_secs)
            }
        },
        _ => None,
    }
}

/// The size to which eviction brings the prefix tree back: the greatest
/// tree size of the cache-aware policy. The other policies store nothing,
/// and their limit is zero.
pub open spec fn tree_limit_of(config: PolicyConfig) -> nat {
    match config {
        PolicyConfig::CacheAwareConfig { max_tree_size, .. } => max_tree_size as nat,
        _ => 0,
    }
}

/// A fraction, in millionths.
#[derive(Debug, Clone, Copy, PartialEq, Eq, Structural)]
pub struct Ratio {
    pub millionths: u64,
}

/// The policy and its settings. Every policy carries the window and the
/// interval of the startup probe, in seconds.
#[derive(Debug, Clone, Copy)]
pub enum PolicyConfig {
    RandomConfig { timeout_secs: u64, interval_secs: u64 },
    RoundRobinConfig { timeout_secs: u64, interval_secs: u64 },
    CacheAwareConfig {
        timeout_secs: u64,
        interval_secs: u64,
        /// The share of a text that must match for the match to steer.
        cache_threshold: Ratio,
        /// The load difference above which the fleet may count as skewed.
        balance_abs_threshold: usize,
        /// The load ratio above which the fleet may count as skewed.
        balance_rel_threshold: Ratio,
        eviction_interval_secs: u64,
        max_tree_size: usize,
    },
}

/// Why no worker was selected.
#[derive(Debug, Clone, Copy, PartialEq, Eq, Structural)]
pub enum SelectError {
    /// No worker is ready.
    Unavailable,
}

/// The fields of a request body that routing reads.
#[derive(Debug, Clone)]
pub struct RequestFields {
    /// The field `text`, where it is a string.
    pub text: Option<String>,
    /// The content strings of the field `messages`, where it is an array.
    pub messages: Option<Vec<String>>,
    /// The field `stream`, false where it is absent.
    pub stream: bool,
}

/// The texts of `parts`, one after the other.
pub open spec fn joined(parts: Seq<Seq<char>>) -> Seq<char>
    decreases parts.len(),
{
    if parts.len() == 0 {
        Seq::empty()
    } else {
        joined(parts.drop_last()) + parts.last()
    }
}

/// The text by whose prefix a request is routed: the field `text`, or else
/// the content strings of `messages` one after the other. `None` where the
/// request has neither.
pub open spec fn prefix_text(fields: RequestFields) -> Option<Seq<char>> {
    match fields.text {
        Some(t) => Some(t@),
        None => match fields.messages {
            Some(ms) => Some(joined(ms.deep_view())),
            None => None,
        },
    }
}

/// The text by whose prefix a request is routed.
pub fn routing_text(fields: &RequestFields) -> (r: Option<String>)
    ensures
        r.deep_view() == prefix_text(*fields),
{
    match &fields.text {
        Some(t) => Some(t.clone()),
        None => match &fields.messages {
            Some(ms) => {
                let mut out = String::new();
                let ghost all = ms.deep_view();
                let mut i: usize = 0;
                while i < ms.len()
                    invariant
                        i <= ms@.len(),
                        all == ms.deep_view(),
                        all.len() == ms@.len(),
                        out@ == joined(all.take(i as int)),
                    decreases ms@.len() - i,
                {
                    assert(all[i as int] == ms@[i as int]@);
                    assert(all.take(i + 1).drop_last() =~= all.take(i as int));
                    out.append(ms[i].as_str());
                    i += 1;
                }
                assert(all.take(i as int) =~= all);
                Some(out)
            },
            None => None,
        },
    }
}

/// The load of `worker`: the number of stored texts attributed to it.
pub open spec fn load_of(m: Map<Seq<char>, Spot>, worker: Seq<char>) -> nat {
    amount(m[Seq::empty()].counts, worker)
}

/// The position of the least loaded among the first `n` workers, the
/// earliest of them where several are.
pub open spec fn lightest(m: Map<Seq<char>, Spot>, workers: Seq<Seq<char>>, n: nat) -> int
    decreases n,
{
    if n <= 1 {
        0
    } else {
        let b = lightest(m, workers, (n - 1) as nat);
        if load_of(m, workers[n - 1]) < load_of(m, workers[b]) {
            n - 1
        } else {
            b
        }
    }
}

/// The highest load among the first `n` workers.
pub open spec fn top_load(m: Map<Seq<char>, Spot>, workers: Seq<Seq<char>>, n: nat) -> nat
    decreases n,
{
    if n == 0 {
        0
    } else {
        let b = top_load(m, workers, (n - 1) as nat);
        if load_of(m, workers[n - 1]) > b {
            load_of(m, workers[n - 1])
        } else {
            b
        }
    }
}

/// Whether the loads are skewed: the highest exceeds the lowest by more
/// than `abs`, and exceeds the lowest times `rel`.
pub open spec fn skewed(lo: nat, hi: nat, abs: nat, rel: Ratio) -> bool {
    hi - lo > abs && hi * 1_000_000 > lo * rel.millionths
}

/// Whether a match of `matched` characters of a text of `len` characters
/// reaches the share `threshold`. The share matched of an empty text is zero.
pub open spec fn reaches(matched: nat, len: nat, threshold: Ratio) -> bool {
    if len == 0 {
        threshold.millionths == 0
    } else {
        matched * 1_000_000 >= threshold.millionths * len
    }
}

/// The worker that the cache-aware policy selects for `text` among the
/// workers `workers`, of which there is one at least: the least loaded one
/// where the loads are skewed; else the worker that leads the counter of
/// the last node that `text` matches in full, where the match reaches the
/// threshold and such a worker is there; else the least loaded one.
pub open spec fn cache_choice(
    m: Map<Seq<char>, Spot>,
    workers: Seq<Seq<char>>,
    text: Seq<char>,
    cache_threshold: Ratio,
    abs: nat,
    rel: Ratio,
) -> Seq<char> {
    let low = workers[lightest(m, workers, workers.len())];
    let best = leader(m[text.take(hold(m, text) as int)].counts, workers);
    if skewed(load_of(m, low), top_load(m, workers, workers.len()), abs, rel) {
        low
    } else if reaches(reach(m, text), text.len(), cache_threshold) && best is Some {
        best.unwrap()
    } else {
        low
    }
}

/// The least loaded worker has a load that no worker undercuts, and comes
/// before every other worker of that load; the top load is the load of
/// some worker and no worker exceeds it.
pub proof fn lemma_lightest(m: Map<Seq<char>, Spot>, workers: Seq<Seq<char>>, n: nat)
    requires
        0 < n <= workers.len(),
    ensures
        0 <= lightest(m, workers, n) < n,
        forall|j: int| 0 <= j < n ==> load_of(m, workers[lightest(m, workers, n)]) <= load_of(m, #[trigger] workers[j]),
        forall|j: int|
            0 <= j < lightest(m, workers, n) ==> load_of(m, workers[lightest(m, workers, n)]) < load_of(m, #[trigger] workers[j]),
        forall|j: int| 0 <= j < n ==> load_of(m, #[trigger] workers[j]) <= top_load(m, workers, n),
        exists|j: int| 0 <= j < n && load_of(m, #[trigger] workers[j]) == top_load(m, workers, n),
    decreases n,
{
    if n > 1 {
        lemma_lightest(m, workers, (n - 1) as nat);
        let j0 = choose|j: int| 0 <= j < n - 1 && load_of(m, #[trigger] workers[j]) == top_load(m, workers, (n - 1) as nat);
        if load_of(m, workers[n - 1]) > top_load(m, workers, (n - 1) as nat) {
            assert(load_of(m, workers[n - 1]) == top_load(m, workers, n));
        } else {
            assert(load_of(m, workers[j0]) == top_load(m, workers, n));
        }
    } else {
        reveal_with_fuel(top_load, 2);
        assert(load_of(m, workers[0]) == top_load(m, workers, n));
    }
}

/// What a router is: its ready workers, the cursor of round-robin
/// selection, and the prefix tree of the cache-aware policy.
pub ghost struct RouterView {
    pub workers: Seq<Seq<char>>,
    pub turn: nat,
    pub tree: Map<Seq<char>, Spot>,
}

/// The policy engine with the registry and the prefix tree that it owns.
pub struct Router {
    registry: WorkerRegistry,
    config: PolicyConfig,
    tree: Tree,
}

impl View for Router {
    type V = RouterView;

    closed spec fn view(&self) -> RouterView {
        RouterView { workers: self.registry@, turn: self.registry.turn(), tree: self.tree@ }
    }
}

proof fn lemma_mul_fits(a: u64, b: u64)
    ensures
        a * b <= u128::MAX,
{
    assert(a * b <= 0xffff_ffff_ffff_ffff * 0xffff_ffff_ffff_ffff) by (nonlinear_arith)
        requires
            0 <= a <= 0xffff_ffff_ffff_ffff,
            0 <= b <= 0xffff_ffff_ffff_ffff,
    ;
}

/// Whether the loads are skewed.
pub fn is_skewed(lo: u64, hi: u64, abs: usize, rel: Ratio) -> (r: bool)
    requires
        lo <= hi,
    ensures
        r == skewed(lo as nat, hi as nat, abs as nat, rel),
{
    proof {
        lemma_mul_fits(hi, 1_000_000);
        lemma_mul_fits(lo, rel.millionths);
    }
    let gap = hi - lo;
    gap as u128 > abs as u128 && (hi as u128) * 1_000_000u128 > (lo as u128) * (rel.millionths as u128)
}

/// Whether a match reaches the threshold.
pub fn match_reaches(matched: usize, len: usize, threshold: Ratio) -> (r: bool)
    ensures
        r == reaches(matched as nat, len as nat, threshold),
{
    if len == 0 {
        return threshold.millionths == 0;
    }
    proof {
        lemma_mul_fits(matched as u64, 1_000_000);
        lemma_mul_fits(threshold.millionths, len as u64);
    }
    (matched as u128) * 1_000_000u128 >= (threshold.millionths as u128) * (len as u128)
}

impl Router {
    /// The policy and its settings.
    pub closed spec fn policy(&self) -> PolicyConfig {
        self.config
    }

    /// The structural invariant: the registry and the tree are well formed,
    /// and the tree has the size limit of the policy.
    pub closed spec fn wf(&self) -> bool {
        &&& self.registry.wf()
        &&& self.tree.wf()
        &&& self.tree@.contains_key(Seq::empty())
        &&& self.tree.limit() == tree_limit_of(self.config)
    }

    /// What holds of every router. The size limit of its tree is that of
    /// its policy, and no worker is ready twice. Its tree has the shape of
    /// every tree: the root ends at the empty position; every prefix of a
    /// position held is held; a position other than the empty one is held
    /// because some worker has a count there; no count is zero; along a
    /// text the counts of a worker never grow, so that the load of a worker
    /// bounds its count everywhere; and the size of the tree is the number
    /// of positions held, the empty one apart.
    pub proof fn law_router(&self)
        requires
            self.wf(),
        ensures
            self.tree_limit() == tree_limit_of(self.policy()),
            self@.workers.no_duplicates(),
            ends(self@.tree, Seq::empty()),
            prefix_closed(self@.tree),
            forall|p: Seq<char>| #[trigger]
                self@.tree.contains_key(p) && p.len() > 0 ==> self@.tree[p].counts != Map::<Seq<char>, nat>::empty(),
            forall|p: Seq<char>, w: Seq<char>|
                self@.tree.contains_key(p) && (#[trigger] self@.tree[p].counts.contains_key(w)) ==> self@.tree[p].counts[w] > 0,
            forall|p: Seq<char>, n: int|
                self@.tree.contains_key(p) && 0 <= n <= p.len() ==> below(
                    self@.tree[p].counts,
                    (#[trigger] self@.tree[p.take(n)]).counts,
                ),
            forall|p: Seq<char>, w: Seq<char>|
                self@.tree.contains_key(p) ==> #[trigger] amount(self@.tree[p].counts, w) <= load_of(self@.tree, w),
            forall|w: Seq<char>| #[trigger] load_of(self@.tree, w) <= u64::MAX,
            self@.tree.dom().finite(),
            self@.tree.dom().len() == self.tree_size() + 1,
            self.tree_size() <= usize::MAX,
    {
        self.registry.lemma_distinct();
        self.tree.lemma_root();
        self.tree.law_shape();
        self.tree.law_size_counts_positions();
        assert forall|w: Seq<char>| #[trigger] load_of(self@.tree, w) <= u64::MAX by {
            assert(self.tree.load(w) <= u64::MAX);
        }
    }

    /// The number of characters on the edges of the prefix tree.
    pub closed spec fn tree_size(&self) -> nat {
        self.tree.size()
    }

    /// The size above which eviction removes leaves of the prefix tree.
    pub closed spec fn tree_limit(&self) -> nat {
        self.tree.limit()
    }

    /// Whether the counters and the size of the tree can take in one more
    /// text of `len` characters, whoever is selected.
    pub open spec fn has_room(&self, len: nat) -> bool {
        &&& self.tree_size() + len <= usize::MAX
        &&& forall|i: int| 0 <= i < self@.workers.len() ==> load_of(self@.tree, #[trigger] self@.workers[i]) < u64::MAX
    }

    /// Whether a request with the routing text `text` can be selected for:
    /// under the cache-aware policy a request with a text needs room for it
    /// in the tree; every other request can.
    pub open spec fn admits(&self, text: Option<Seq<char>>) -> bool {
        self.policy() is CacheAwareConfig && text is Some ==> self.has_room(text.unwrap().len())
    }

    /// The router of the workers `worker_urls`, which are ready from the
    /// start. Fails on the first URL that is malformed or occurs twice.
    pub fn new(worker_urls: &Vec<String>, policy_config: PolicyConfig) -> (r: Result<Router, AddError>)
        ensures
            match r {
                Ok(router) => {
                    &&& first_objection(worker_urls.deep_view(), worker_urls@.len()) is None
                    &&& router.wf()
                    &&& router.policy() == policy_config
                    &&& router@.workers == worker_urls.deep_view()
                    &&& router@.turn == 0
                    &&& router@.tree == blank()
                    &&& router.tree_size() == 0
                    &&& router.tree_limit() == tree_limit_of(policy_config)
                },
                Err(e) => first_objection(worker_urls.deep_view(), worker_urls@.len()) == Some(e),
            },
    {
        let limit = match policy_config {
            PolicyConfig::CacheAwareConfig { max_tree_size, .. } => max_tree_size,
            _ => 0,
        };
        match WorkerRegistry::from_urls(worker_urls) {
            Err(e) => Err(e),
            Ok(registry) => {
                let tree = Tree::new(limit);
                Ok(Router { registry, config: policy_config, tree })
            },
        }
    }

    /// The policy and its settings.
    pub fn config(&self) -> (r: PolicyConfig)
        ensures
            r == self.policy(),
    {
        self.config
    }

    /// The URLs of the ready workers, in the order in which they were added.
    pub fn get_worker_urls(&self) -> (r: Vec<String>)
        ensures
            r.deep_view() == self@.workers,
    {
        self.registry.list()
    }

    /// The worker that was added first, if any is ready: the target of the
    /// requests that any worker can answer.
    pub fn first_worker(&self) -> (r: Option<String>)
        ensures
            r.deep_view() == if self@.workers.len() == 0 {
                None
            } else {
                Some(self@.workers[0])
            },
    {
        self.registry.first()
    }

    /// What stands against adding `url`, if anything.
    pub fn check_worker(&self, url: &str) -> (r: Option<AddError>)
        ensures
            r == objection(self@.workers, url@),
    {
        self.registry.check(url)
    }

    /// Adds `url` to the ready workers, unless its form or its presence
    /// stands against it. It is called once the startup probe has succeeded.
    pub fn add_worker(&mut self, url: &str) -> (r: Result<(), AddError>)
        requires
            old(self).wf(),
        ensures
            final(self).wf(),
            final(self).policy() == old(self).policy(),
            final(self)@.turn == old(self)@.turn,
            final(self)@.tree == old(self)@.tree,
            final(self).tree_size() == old(self).tree_size(),
            final(self).tree_limit() == old(self).tree_limit(),
            match objection(old(self)@.workers, url@) {
                None => r is Ok && final(self)@.workers == old(self)@.workers.push(url@),
                Some(e) => r == Err::<(), AddError>(e) && final(self)@.workers == old(self)@.workers,
            },
    {
        self.registry.enroll(url)
    }

    /// Removes `url` from the ready workers and from every counter of the
    /// prefix tree. Removing a worker that is not there changes nothing of
    /// the registry.
    pub fn remove_worker(&mut self, url: &str)
        requires
            old(self).wf(),
        ensures
            final(self).wf(),
            final(self).policy() == old(self).policy(),
            final(self)@.turn == old(self)@.turn,
            !final(self)@.workers.contains(url@),
            final(self)@.workers == if old(self)@.workers.contains(url@) {
                old(self)@.workers.remove(old(self)@.workers.index_of(url@))
            } else {
                old(self)@.workers
            },
            final(self)@.tree == purge(old(self)@.tree, url@),
            final(self).tree_size() <= old(self).tree_size(),
            final(self).tree_size() + 1 == purge(old(self)@.tree, url@).dom().len(),
            final(self).tree_limit() == old(self).tree_limit(),
    {
        self.registry.remove(url);
        self.tree.remove_worker(url);
        proof {
            self.tree.lemma_root();
        }
    }

    /// Stores `text` for `worker` in the prefix tree, as a selection of that
    /// worker for that text does.
    pub fn record(&mut self, text: &str, worker: &str, now: u64)
        requires
            old(self).wf(),
            old(self).tree_size() + text@.len() <= usize::MAX,
            load_of(old(self)@.tree, worker@) < u64::MAX,
        ensures
            final(self).wf(),
            final(self).policy() == old(self).policy(),
            final(self)@.workers == old(self)@.workers,
            final(self)@.turn == old(self)@.turn,
            final(self)@.tree == grow(old(self)@.tree, text@, worker@, now),
            final(self).tree_size() == old(self).tree_size() + text@.len() - reach(old(self)@.tree, text@),
            final(self).tree_limit() == old(self).tree_limit(),
    {
        self.tree.insert(text, worker, now);
        proof {
            self.tree.lemma_root();
        }
    }

    /// Brings the prefix tree back to its size limit; returns the number of
    /// leaves removed.
    pub fn evict(&mut self) -> (n: usize)
        requires
            old(self).wf(),
        ensures
            final(self).wf(),
            final(self).policy() == old(self).policy(),
            final(self)@.workers == old(self)@.workers,
            final(self)@.turn == old(self)@.turn,
            final(self).tree_size() <= final(self).tree_limit(),
            final(self).tree_limit() == old(self).tree_limit(),
            pruned(old(self)@.tree, old(self).tree_size(), final(self)@.tree, final(self).tree_size(), final(self).tree_limit(), n as nat),
    {
        let n = self.tree.evict();
        proof {
            self.tree.lemma_root();
        }
        n
    }

    /// Whether the counters and the size of the tree can take in one more
    /// text of `len` characters.
    pub fn can_record(&self, len: usize) -> (r: bool)
        requires
            self.wf(),
        ensures
            r == self.has_room(len as nat),
    {
        if self.tree.chars() > usize::MAX - len {
            return false;
        }
        let workers = self.registry.as_vec();
        let mut i: usize = 0;
        while i < workers.len()
            invariant
                self.wf(),
                i <= workers@.len(),
                workers.deep_view() == self@.workers,
                workers.deep_view().len() == workers@.len(),
                forall|j: int| 0 <= j < i ==> load_of(self@.tree, #[trigger] self@.workers[j]) < u64::MAX,
            decreases workers@.len() - i,
        {
            assert(workers.deep_view()[i as int] == workers@[i as int]@);
            if self.tree.load_of(workers[i].as_str()) == u64::MAX {
                return false;
            }
            i += 1;
        }
        true
    }

    /// The position of the least loaded worker, its load, and the highest load.
    fn survey(&self) -> (r: (usize, u64, u64))
        requires
            self.wf(),
            self@.workers.len() > 0,
        ensures
            r.0 == lightest(self@.tree, self@.workers, self@.workers.len()),
            r.0 < self@.workers.len(),
            r.1 == load_of(self@.tree, self@.workers[r.0 as int]),
            r.2 == top_load(self@.tree, self@.workers, self@.workers.len()),
            r.1 <= r.2,
    {
        let workers = self.registry.as_vec();
        assert(workers.deep_view()[0] == workers@[0]@);
        let mut low: usize = 0;
        let mut low_load: u64 = self.tree.load_of(workers[0].as_str());
        let mut high: u64 = low_load;
        let mut i: usize = 1;
        proof {
            reveal_with_fuel(top_load, 2);
        }
        while i < workers.len()
            invariant
                self.wf(),
                1 <= i <= workers@.len(),
                workers.deep_view() == self@.workers,
                workers.deep_view().len() == workers@.len(),
                low == lightest(self@.tree, self@.workers, i as nat),
                low < i,
                low_load == load_of(self@.tree, self@.workers[low as int]),
                high == top_load(self@.tree, self@.workers, i as nat),
                low_load <= high,
            decreases workers@.len() - i,
        {
            assert(workers.deep_view()[i as int] == workers@[i as int]@);
            let l = self.tree.load_of(workers[i].as_str());
            if l < low_load {
                low = i;
                low_load = l;
            }
            if l > high {
                high = l;
            }
            i += 1;
        }
        (low, low_load, high)
    }

    /// Selects the worker for a request. `draw` is a number drawn at random,
    /// which the random policy reads; `now` is the time, which stamps the
    /// nodes that the cache-aware policy touches.
    ///
    /// With no worker ready the selection fails. The random policy selects
    /// the worker at position `draw` modulo the number of workers. The
    /// round-robin policy selects the worker at the cursor and moves the
    /// cursor on. The cache-aware policy does as the round-robin policy for
    /// a request without text; for one with text it selects as `cache_choice`
    /// says and stores the text for the worker selected.
    pub fn select(&mut self, request: &RequestFields, draw: usize, now: u64) -> (r: Result<String, SelectError>)
        requires
            old(self).wf(),
            old(self).admits(prefix_text(*request)),
        ensures
            final(self).wf(),
            final(self).policy() == old(self).policy(),
            final(self)@.workers == old(self)@.workers,
            chosen(r) == selection(old(self)@, old(self).policy(), prefix_text(*request), draw as nat),
            final(self)@ == after_selection(old(self)@, old(self).policy(), prefix_text(*request), draw as nat, now),
            final(self).tree_size() == old(self).tree_size() + stored_by_selection(
                old(self)@,
                old(self).policy(),
                prefix_text(*request),
            ),
            final(self).tree_limit() == old(self).tree_limit(),
    {
        let k = self.registry.len();
        if k == 0 {
            return Err(SelectError::Unavailable);
        }
        match self.config {
            PolicyConfig::RandomConfig { .. } => {
                let w = self.registry.pick(draw);
                Ok(w.unwrap())
            },
            PolicyConfig::RoundRobinConfig { .. } => {
                let w = self.registry.next();
                Ok(w.unwrap())
            },
            PolicyConfig::CacheAwareConfig { cache_threshold, balance_abs_threshold, balance_rel_threshold, .. } => {
                match routing_text(request) {
                    None => {
                        let w = self.registry.next();
                        Ok(w.unwrap())
                    },
                    Some(text) => {
                        let (low, low_load, high) = self.survey();
                        let found = self.tree.prefix_match(text.as_str(), self.registry.as_vec());
                        let len = text.as_str().unicode_len();
                        let chosen = if is_skewed(low_load, high, balance_abs_threshold, balance_rel_threshold) {
                            self.registry.at(low)
                        } else if match_reaches(found.matched_len, len, cache_threshold) && found.worker.is_some() {
                            found.worker.unwrap()
                        } else {
                            self.registry.at(low)
                        };
                        proof {
                            let m = self@.tree;
                            let ws = self@.workers;
                            law_leader_has_most(m[text@.take(hold(m, text@) as int)].counts, ws);
                            assert(ws.contains(chosen@)) by {
                                assert(ws[low as int] == ws[low as int]);
                            }
                            let i = choose|i: int| 0 <= i < ws.len() && ws[i] == chosen@;
                            assert(load_of(m, ws[i]) < u64::MAX);
                        }
                        self.tree.insert(text.as_str(), chosen.as_str(), now);
                        proof {
                            self.tree.lemma_root();
                        }
                        Ok(chosen)
                    },
                }
            },
        }
    }

    /// Selects the worker for a request where the tree has room for what
    /// the selection stores, and does nothing where it has none. `None`
    /// says that nothing was done.
    pub fn try_select(&mut self, request: &RequestFields, draw: usize, now: u64) -> (r: Option<
        Result<String, SelectError>,
    >)
        requires
            old(self).wf(),
        ensures
            final(self).wf(),
            final(self).policy() == old(self).policy(),
            final(self)@.workers == old(self)@.workers,
            final(self).tree_limit() == old(self).tree_limit(),
            r is Some == old(self).admits(prefix_text(*request)),
            r matches Some(x) ==> {
                &&& chosen(x) == selection(old(self)@, old(self).policy(), prefix_text(*request), draw as nat)
                &&& final(self)@ == after_selection(old(self)@, old(self).policy(), prefix_text(*request), draw as nat, now)
                &&& final(self).tree_size() == old(self).tree_size() + stored_by_selection(
                    old(self)@,
                    old(self).policy(),
                    prefix_text(*request),
                )
            },
            r is None ==> final(self)@ == old(self)@ && final(self).tree_size() == old(self).tree_size(),
    {
        if let PolicyConfig::CacheAwareConfig { .. } = self.config {
            if let Some(text) = routing_text(request) {
                if !self.can_record(text.as_str().unicode_len()) {
                    return None;
                }
            }
        }
        Some(self.select(request, draw, now))
    }
}

/// The number of characters that a selection adds to the prefix tree: those
/// of the text that the tree did not hold yet, where the cache-aware policy
/// selects by a text; none otherwise.
pub open spec fn stored_by_selection(v: RouterView, policy: PolicyConfig, text: Option<Seq<char>>) -> nat {
    if v.workers.len() > 0 && policy is CacheAwareConfig && text is Some {
        (text.unwrap().len() - reach(v.tree, text.unwrap())) as nat
    } else {
        0
    }
}

/// The result of a selection with the URL as a text.
pub open spec fn chosen(r: Result<String, SelectError>) -> Result<Seq<char>, SelectError> {
    match r {
        Ok(w) => Ok(w@),
        Err(e) => Err(e),
    }
}

/// The worker selected, or why none was.
pub open spec fn selection(
    v: RouterView,
    policy: PolicyConfig,
    text: Option<Seq<char>>,
    draw: nat,
) -> Result<Seq<char>, SelectError> {
    if v.workers.len() == 0 {
        Err(SelectError::Unavailable)
    } else {
        match policy {
            PolicyConfig::RandomConfig { .. } => Ok(v.workers[draw as int % v.workers.len() as int]),
            PolicyConfig::RoundRobinConfig { .. } => Ok(v.workers[round_robin_index(v.turn, v.workers.len())]),
            PolicyConfig::CacheAwareConfig { cache_threshold, balance_abs_threshold, balance_rel_threshold, .. } => match text {
                None => Ok(v.workers[round_robin_index(v.turn, v.workers.len())]),
                Some(t) => Ok(
                    cache_choice(v.tree, v.workers, t, cache_threshold, balance_abs_threshold as nat, balance_rel_threshold),
                ),
            },
        }
    }
}

/// The router after the selection: the round-robin cursor has moved on
/// where it was read, and the tree has taken in the text where the
/// cache-aware policy selected by it.
pub open spec fn after_selection(
    v: RouterView,
    policy: PolicyConfig,
    text: Option<Seq<char>>,
    draw: nat,
    now: u64,
) -> RouterView {
    if v.workers.len() == 0 {
        v
    } else {
        match policy {
            PolicyConfig::RandomConfig { .. } => v,
            PolicyConfig::RoundRobinConfig { .. } => RouterView { turn: round_robin_step(v.turn, v.workers.len()), ..v },
            PolicyConfig::CacheAwareConfig { cache_threshold, balance_abs_threshold, balance_rel_threshold, .. } => match text {
                None => RouterView { turn: round_robin_step(v.turn, v.workers.len()), ..v },
                Some(t) => RouterView {
                    tree: grow(
                        v.tree,
                        t,
                        cache_choice(v.tree, v.workers, t, cache_threshold, balance_abs_threshold as nat, balance_rel_threshold),
                        now,
                    ),
                    ..v
                },
            },
        }
    }
}

/// The worker selected is a ready worker, whatever the policy.
pub proof fn law_selected_is_ready(v: RouterView, policy: PolicyConfig, text: Option<Seq<char>>, draw: nat)
    requires
        v.workers.len() > 0,
    ensures
        selection(v, policy, text, draw) matches Ok(w) && v.workers.contains(w),
{
    let k = v.workers.len() as int;
    lemma_mod_pos_bound(draw as int, k);
    lemma_mod_pos_bound(v.turn as int, k);
    match policy {
        PolicyConfig::RandomConfig { .. } => {
            assert(v.workers[draw as int % k] == v.workers[draw as int % k]);
        },
        PolicyConfig::RoundRobinConfig { .. } => {
            assert(v.workers[v.turn as int % k] == v.workers[v.turn as int % k]);
        },
        PolicyConfig::CacheAwareConfig { .. } => {
            match text {
                None => {
                    assert(v.workers[v.turn as int % k] == v.workers[v.turn as int % k]);
                },
                Some(t) => {
                    lemma_lightest(v.tree, v.workers, v.workers.len());
                    let low = lightest(v.tree, v.workers, v.workers.len());
                    assert(v.workers[low] == v.workers[low]);
                    law_leader_has_most(v.tree[t.take(hold(v.tree, t) as int)].counts, v.workers);
                },
            }
        },
    }
}

/// A selection by a text under the cache-aware policy adds one to the load
/// of the worker selected and leaves the load of every other worker as it
/// was.
pub proof fn law_selected_load_grows(
    v: RouterView,
    policy: PolicyConfig,
    text: Seq<char>,
    draw: nat,
    now: u64,
    other: Seq<char>,
)
    requires
        v.workers.len() > 0,
        policy is CacheAwareConfig,
        v.tree.contains_key(Seq::empty()),
    ensures
        selection(v, policy, Some(text), draw) matches Ok(w) && {
            &&& load_of(after_selection(v, policy, Some(text), draw, now).tree, w) == load_of(v.tree, w) + 1
            &&& other != w ==> load_of(after_selection(v, policy, Some(text), draw, now).tree, other) == load_of(v.tree, other)
        },
{
    let w = selection(v, policy, Some(text), draw)->Ok_0;
    law_stored_load_grows(v.tree, text, w, now, other);
}

} // verus!
