//! The registry of ready workers: an ordered list of URLs without
//! repetition, with the cursor of round-robin selection, and the decisions
//! of the startup probe that precedes an addition.

use vstd::prelude::*;
use vstd::arithmetic::div_mod::{lemma_fundamental_div_mod, lemma_fundamental_div_mod_converse, lemma_mod_pos_bound};
use crate::tree::chars_of;

verus! {

/// Why a worker was not added.
#[derive(Debug, Clone, Copy, PartialEq, Eq, Structural)]
pub enum AddError {
    /// The URL is not of the form that a worker URL must have.
    Invalid,
    /// The URL is in the registry already.
    Duplicate,
    /// The worker did not answer its health check within the startup window.
    TimedOut,
}

/// Whether `c` may stand in a URL: neither blank nor a control character.
pub open spec fn url_char(c: char) -> bool {
    c as u32 > 0x20 && c as u32 != 0x7f
}

/// Whether `s` has the form of a worker URL: the scheme `http://` or
/// `https://`, then at least one character, and nowhere a blank or a
/// control character.
pub open spec fn valid_url(s: Seq<char>) -> bool {
    &&& ("http://"@.is_prefix_of(s) && s.len() > "http://"@.len()) || ("https://"@.is_prefix_of(s) && s.len()
        > "https://"@.len())
    &&& forall|i: int| 0 <= i < s.len() ==> url_char(#[trigger] s[i])
}

/// What stands against adding `url` to the workers `seen`, if anything.
pub open spec fn objection(seen: Seq<Seq<char>>, url: Seq<char>) -> Option<AddError> {
    if !valid_url(url) {
        Some(AddError::Invalid)
    } else if seen.contains(url) {
        Some(AddError::Duplicate)
    } else {
        None
    }
}

/// The first objection met when the first `n` of `urls` are added in order.
pub open spec fn first_objection(urls: Seq<Seq<char>>, n: nat) -> Option<AddError>
    decreases n,
{
    if n == 0 {
        None
    } else {
        match first_objection(urls, (n - 1) as nat) {
            Some(e) => Some(e),
            None => objection(urls.take(n - 1), urls[n - 1]),
        }
    }
}

/// Whether `pre` is a prefix of `s`.
pub fn starts_with(s: &Vec<char>, pre: &Vec<char>) -> (r: bool)
    ensures
        r == pre@.is_prefix_of(s@),
{
    if pre.len() > s.len() {
        return false;
    }
    let mut i: usize = 0;
    while i < pre.len()
        invariant
            i <= pre@.len() <= s@.len(),
            pre@.take(i as int) =~= s@.take(i as int),
        decreases pre@.len() - i,
    {
        if pre[i] != s[i] {
            proof {
                if pre@.is_prefix_of(s@) {
                    assert(pre@[i as int] == s@.subrange(0, pre@.len() as int)[i as int]);
                }
            }
            return false;
        }
        i += 1;
        assert(pre@.take(i as int) =~= pre@.take(i - 1).push(pre@[i - 1]));
        assert(s@.take(i as int) =~= s@.take(i - 1).push(s@[i - 1]));
    }
    assert(pre@.take(i as int) =~= pre@);
    assert(s@.take(i as int) =~= s@.subrange(0, pre@.len() as int));
    true
}

/// Whether `url` has the form of a worker URL.
pub fn is_valid_url(url: &str) -> (r: bool)
    ensures
        r == valid_url(url@),
{
    let s = chars_of(url);
    let plain = chars_of("http://");
    let secure = chars_of("https://");
    let scheme = (starts_with(&s, &plain) && s.len() > plain.len()) || (starts_with(&s, &secure) && s.len()
        > secure.len());
    if !scheme {
        return false;
    }
    let mut i: usize = 0;
    while i < s.len()
        invariant
            i <= s@.len(),
            s@ == url@,
            forall|j: int| 0 <= j < i ==> url_char(#[trigger] s@[j]),
        decreases s@.len() - i,
    {
        let c = s[i] as u32;
        if c <= 0x20 || c == 0x7f {
            assert(!url_char(s@[i as int]));
            return false;
        }
        i += 1;
    }
    true
}

/// A copy of the texts of `v`, in their order.
pub fn clone_urls(v: &Vec<String>) -> (r: Vec<String>)
    ensures
        r.deep_view() == v.deep_view(),
{
    let mut out: Vec<String> = Vec::new();
    let mut i: usize = 0;
    while i < v.len()
        invariant
            i <= v@.len(),
            out@.len() == i,
            forall|j: int| 0 <= j < i ==> (#[trigger] out@[j])@ == v@[j]@,
        decreases v@.len() - i,
    {
        out.push(v[i].clone());
        i += 1;
    }
    proof {
        let a = out.deep_view();
        let b = v.deep_view();
        assert(a.len() == b.len());
        assert forall|j: int| 0 <= j < a.len() implies a[j] == b[j] by {
            assert(a[j] == out@[j]@);
            assert(b[j] == v@[j]@);
        }
        assert(a =~= b);
    }
    out
}

/// The ready workers, in the order in which they were added.
pub struct WorkerRegistry {
    workers: Vec<String>,
    cursor: usize,
}

impl View for WorkerRegistry {
    type V = Seq<Seq<char>>;

    /// The URLs of the ready workers, in the order in which they were added.
    closed spec fn view(&self) -> Seq<Seq<char>> {
        self.workers.deep_view()
    }
}

impl WorkerRegistry {
    /// No URL occurs twice.
    pub closed spec fn wf(&self) -> bool {
        self.workers.deep_view().no_duplicates()
    }

    /// The cursor of round-robin selection.
    pub closed spec fn turn(&self) -> nat {
        self.cursor as nat
    }

    /// No URL is ready twice.
    pub proof fn lemma_distinct(&self)
        requires
            self.wf(),
        ensures
            self@.no_duplicates(),
    {
    }

    /// A registry without workers.
    pub fn new() -> (r: WorkerRegistry)
        ensures
            r.wf(),
            r@ == Seq::<Seq<char>>::empty(),
            r.turn() == 0,
    {
        let r = WorkerRegistry { workers: Vec::new(), cursor: 0 };
        assert(r.workers.deep_view() =~= Seq::<Seq<char>>::empty());
        r
    }

    /// The position of `url` among the workers.
    fn find(&self, url: &String) -> (r: Option<usize>)
        ensures
            match r {
                Some(i) => i < self@.len() && self@[i as int] == url@,
                None => !self@.contains(url@),
            },
    {
        let mut i: usize = 0;
        while i < self.workers.len()
            invariant
                i <= self.workers@.len(),
                self.workers.deep_view().len() == self.workers@.len(),
                forall|j: int| 0 <= j < i ==> #[trigger] self.workers.deep_view()[j] != url@,
            decreases self.workers@.len() - i,
        {
            assert(self.workers.deep_view()[i as int] == self.workers@[i as int]@);
            if self.workers[i] == *url {
                return Some(i);
            }
            i += 1;
        }
        None
    }

    /// The number of ready workers.
    pub fn len(&self) -> (r: usize)
        ensures
            r == self@.len(),
    {
        self.workers.len()
    }

    /// Whether no worker is ready.
    pub fn is_empty(&self) -> (r: bool)
        ensures
            r == (self@.len() == 0),
    {
        self.workers.len() == 0
    }

    /// Whether `url` is the URL of a ready worker.
    pub fn contains(&self, url: &str) -> (r: bool)
        ensures
            r == self@.contains(url@),
    {
        let owned = url.to_owned();
        self.find(&owned).is_some()
    }

    /// What stands against adding `url`, if anything: its form, or that it
    /// is ready already. It is what `enroll` would answer, and is asked
    /// before any probe is sent.
    pub fn check(&self, url: &str) -> (r: Option<AddError>)
        ensures
            r == objection(self@, url@),
    {
        if !is_valid_url(url) {
            return Some(AddError::Invalid);
        }
        if self.contains(url) {
            return Some(AddError::Duplicate);
        }
        None
    }

    /// Appends `url` to the ready workers, unless its form or its presence
    /// stands against it.
    pub fn enroll(&mut self, url: &str) -> (r: Result<(), AddError>)
        requires
            old(self).wf(),
        ensures
            final(self).wf(),
            final(self).turn() == old(self).turn(),
            match objection(old(self)@, url@) {
                None => r is Ok && final(self)@ == old(self)@.push(url@),
                Some(e) => r == Err::<(), AddError>(e) && final(self)@ == old(self)@,
            },
    {
        match self.check(url) {
            Some(e) => Err(e),
            None => {
                let owned = url.to_owned();
                self.workers.push(owned);
                proof {
                    let before = old(self).workers.deep_view();
                    let after = self.workers.deep_view();
                    assert(after.len() == before.len() + 1);
                    assert forall|i: int| 0 <= i < before.len() implies after[i] == before[i] by {
                        assert(after[i] == self.workers@[i]@);
                        assert(before[i] == old(self).workers@[i]@);
                    }
                    assert(after[before.len() as int] == self.workers@[before.len() as int]@);
                    assert(after =~= before.push(url@));
                    assert forall|i: int, j: int| 0 <= i < after.len() && 0 <= j < after.len() && i != j implies after[i]
                        != after[j] by {
                        if i < before.len() && j < before.len() {
                        } else if i < before.len() {
                            assert(before.contains(before[i]));
                        } else {
                            assert(before.contains(before[j]));
                        }
                    }
                }
                Ok(())
            },
        }
    }

    /// The registry of the workers `urls`, which are ready from the start.
    /// The first URL that could not be added fails the whole.
    pub fn from_urls(urls: &Vec<String>) -> (r: Result<WorkerRegistry, AddError>)
        ensures
            match r {
                Ok(reg) => {
                    &&& first_objection(urls.deep_view(), urls@.len()) is None
                    &&& reg.wf()
                    &&& reg@ == urls.deep_view()
                    &&& reg.turn() == 0
                },
                Err(e) => first_objection(urls.deep_view(), urls@.len()) == Some(e),
            },
    {
        let mut reg = WorkerRegistry::new();
        let ghost all = urls.deep_view();
        let mut i: usize = 0;
        while i < urls.len()
            invariant
                i <= urls@.len(),
                all == urls.deep_view(),
                all.len() == urls@.len(),
                reg.wf(),
                reg.turn() == 0,
                reg@ == all.take(i as int),
                first_objection(all, i as nat) is None,
            decreases urls@.len() - i,
        {
            assert(all[i as int] == urls@[i as int]@);
            match reg.enroll(urls[i].as_str()) {
                Err(e) => {
                    proof {
                        assert(first_objection(all, (i + 1) as nat) == Some(e));
                        lemma_objection_stays(all, (i + 1) as nat, urls@.len());
                    }
                    return Err(e);
                },
                Ok(_) => {
                    assert(all.take(i as int).push(all[i as int]) =~= all.take(i + 1));
                },
            }
            i += 1;
        }
        assert(all.take(i as int) =~= all);
        Ok(reg)
    }

    /// Removes `url` from the ready workers; says whether it was there.
    pub fn remove(&mut self, url: &str) -> (r: bool)
        requires
            old(self).wf(),
        ensures
            final(self).wf(),
            final(self).turn() == old(self).turn(),
            r == old(self)@.contains(url@),
            !final(self)@.contains(url@),
            r ==> final(self)@ == old(self)@.remove(old(self)@.index_of(url@)),
            !r ==> final(self)@ == old(self)@,
    {
        let owned = url.to_owned();
        match self.find(&owned) {
            None => false,
            Some(i) => {
                let gone = self.workers.remove(i);
                proof {
                    let before = old(self).workers.deep_view();
                    let after = self.workers.deep_view();
                    assert(after.len() == before.len() - 1);
                    assert forall|j: int| 0 <= j < after.len() implies after[j] == before.remove(i as int)[j] by {
                        assert(after[j] == self.workers@[j]@);
                        let j0 = if j < i { j } else { j + 1 };
                        assert(before[j0] == old(self).workers@[j0]@);
                    }
                    assert(after =~= before.remove(i as int));
                    let k = before.index_of(url@);
                    assert(before.contains(url@));
                    assert(before[k] == url@ && 0 <= k < before.len());
                    assert(k == i);
                    assert forall|a: int, b: int| 0 <= a < after.len() && 0 <= b < after.len() && a != b implies after[a]
                        != after[b] by {
                        let a0 = if a < i { a } else { a + 1 };
                        let b0 = if b < i { b } else { b + 1 };
                        assert(before[a0] != before[b0]);
                    }
                    assert(!after.contains(url@)) by {
                        if after.contains(url@) {
                            let a = choose|a: int| 0 <= a < after.len() && after[a] == url@;
                            let a0 = if a < i { a } else { a + 1 };
                            assert(before[a0] == before[i as int]);
                        }
                    }
                }
                true
            },
        }
    }

    /// The URLs of the ready workers, in the order in which they were added.
    pub fn list(&self) -> (r: Vec<String>)
        ensures
            r.deep_view() == self@,
    {
        clone_urls(&self.workers)
    }

    /// The ready workers as a list.
    pub fn as_vec(&self) -> (r: &Vec<String>)
        ensures
            r.deep_view() == self@,
    {
        &self.workers
    }

    /// The URL of the worker at position `i`.
    pub fn at(&self, i: usize) -> (r: String)
        requires
            i < self@.len(),
        ensures
            r@ == self@[i as int],
    {
        assert(self.workers.deep_view()[i as int] == self.workers@[i as int]@);
        self.workers[i].clone()
    }

    /// The worker that was added first, if any is ready.
    pub fn first(&self) -> (r: Option<String>)
        ensures
            r.deep_view() == if self@.len() == 0 {
                None
            } else {
                Some(self@[0])
            },
    {
        if self.workers.len() == 0 {
            None
        } else {
            Some(self.at(0))
        }
    }

    /// The worker at position `n` modulo the number of workers: the choice
    /// of the random policy once `n` has been drawn.
    pub fn pick(&self, n: usize) -> (r: Option<String>)
        ensures
            r.deep_view() == if self@.len() == 0 {
                None
            } else {
                Some(self@[n as int % self@.len() as int])
            },
    {
        let k = self.workers.len();
        if k == 0 {
            None
        } else {
            Some(self.at(n % k))
        }
    }

    /// The round-robin choice: the worker at the cursor modulo the number
    /// of workers; the cursor moves one worker on.
    pub fn next(&mut self) -> (r: Option<String>)
        ensures
            final(self)@ == old(self)@,
            final(self).wf() == old(self).wf(),
            old(self)@.len() == 0 ==> r is None && final(self).turn() == old(self).turn(),
            old(self)@.len() > 0 ==> {
                &&& r.deep_view() == Some(old(self)@[round_robin_index(old(self).turn(), old(self)@.len())])
                &&& final(self).turn() == round_robin_step(old(self).turn(), old(self)@.len())
            },
    {
        let k = self.workers.len();
        if k == 0 {
            return None;
        }
        let i = self.cursor % k;
        self.cursor = (i + 1) % k;
        Some(self.at(i))
    }
}

/// The position that round-robin selection picks at cursor `c` among `k` workers.
pub open spec fn round_robin_index(c: nat, k: nat) -> int {
    c as int % k as int
}

/// The cursor after one round-robin selection at cursor `c` among `k` workers.
pub open spec fn round_robin_step(c: nat, k: nat) -> nat {
    ((c as int % k as int + 1) % k as int) as nat
}

/// The cursor after `n` round-robin selections that began at cursor `c`.
pub open spec fn round_robin_cursor(c: nat, k: nat, n: nat) -> nat
    decreases n,
{
    if n == 0 {
        c
    } else {
        round_robin_step(round_robin_cursor(c, k, (n - 1) as nat), k)
    }
}

/// How many of `n` round-robin selections that began at cursor `c` picked
/// position `j`.
pub open spec fn round_robin_share(c: nat, k: nat, n: nat, j: int) -> nat
    decreases n,
{
    if n == 0 {
        0
    } else {
        round_robin_share(c, k, (n - 1) as nat, j) + if round_robin_index(
            round_robin_cursor(c, k, (n - 1) as nat),
            k,
        ) == j {
            1nat
        } else {
            0nat
        }
    }
}

/// An objection, once met, is the answer for any longer list.
pub proof fn lemma_objection_stays(urls: Seq<Seq<char>>, n: nat, m: nat)
    requires
        n <= m,
        first_objection(urls, n) is Some,
    ensures
        first_objection(urls, m) == first_objection(urls, n),
    decreases m,
{
    if n < m {
        lemma_objection_stays(urls, n, (m - 1) as nat);
    }
}

/// The `n`-th of a run of round-robin selections picks the position `n`
/// places after the first, counted round the list.
pub proof fn lemma_round_robin_nth(c: nat, k: nat, n: nat)
    requires
        k > 0,
    ensures
        round_robin_index(round_robin_cursor(c, k, n), k) == (c + n) as int % k as int,
    decreases n,
{
    let kk = k as int;
    if n > 0 {
        let prev = round_robin_cursor(c, k, (n - 1) as nat) as int;
        lemma_round_robin_nth(c, k, (n - 1) as nat);
        let x = c + n - 1;
        assert(prev % kk == x % kk);
        lemma_fundamental_div_mod(x, kk);
        let r = x % kk;
        let q = x / kk;
        assert(0 <= r < kk);
        if r + 1 < kk {
            assert(x + 1 == q * kk + (r + 1)) by (nonlinear_arith)
                requires
                    x == kk * q + r,
            ;
            lemma_fundamental_div_mod_converse(x + 1, kk, q, r + 1);
            lemma_fundamental_div_mod_converse(r + 1, kk, 0, r + 1);
        } else {
            assert(x + 1 == (q + 1) * kk + 0) by (nonlinear_arith)
                requires
                    x == kk * q + r,
                    r + 1 == kk,
            ;
            lemma_fundamental_div_mod_converse(x + 1, kk, q + 1, 0);
            assert(r + 1 == 1 * kk + 0) by (nonlinear_arith)
                requires
                    r + 1 == kk,
            ;
            lemma_fundamental_div_mod_converse(r + 1, kk, 1, 0);
        }
        lemma_fundamental_div_mod_converse((r + 1) % kk, kk, 0, (r + 1) % kk);
    }
}

/// How often the numbers below `x` leave the remainder `j` when divided by `k`.
pub open spec fn residue_count(x: int, k: int, j: int) -> int {
    x / k + if j < x % k {
        1int
    } else {
        0int
    }
}

proof fn lemma_residue_count_step(x: int, k: int, j: int)
    requires
        k > 0,
        0 <= j < k,
        x >= 0,
    ensures
        residue_count(x + 1, k, j) == residue_count(x, k, j) + if x % k == j {
            1int
        } else {
            0int
        },
{
    lemma_fundamental_div_mod(x, k);
    let r = x % k;
    let q = x / k;
    if r + 1 < k {
        assert(x + 1 == q * k + (r + 1)) by (nonlinear_arith)
            requires
                x == k * q + r,
        ;
        lemma_fundamental_div_mod_converse(x + 1, k, q, r + 1);
    } else {
        assert(x + 1 == (q + 1) * k + 0) by (nonlinear_arith)
            requires
                x == k * q + r,
                r + 1 == k,
        ;
        lemma_fundamental_div_mod_converse(x + 1, k, q + 1, 0);
    }
}

proof fn lemma_share_is_count(c: nat, k: nat, n: nat, j: int)
    requires
        k > 0,
        0 <= j < k,
    ensures
        round_robin_share(c, k, n, j) == residue_count((c + n) as int, k as int, j) - residue_count(c as int, k as int, j),
    decreases n,
{
    if n > 0 {
        lemma_share_is_count(c, k, (n - 1) as nat, j);
        lemma_round_robin_nth(c, k, (n - 1) as nat);
        lemma_residue_count_step(c + n - 1, k as int, j);
    }
}

/// Round-robin selection is fair: of `n` selections in a row among `k`
/// workers, each worker gets the `k`-th part of `n`, rounded down or up;
/// where `k` divides `n`, each gets exactly that part.
pub proof fn law_round_robin_is_fair(c: nat, k: nat, n: nat, j: int)
    requires
        k > 0,
        0 <= j < k,
    ensures
        round_robin_share(c, k, n, j) == n / k || (n % k != 0 && round_robin_share(c, k, n, j) == n / k + 1),
{
    let kk = k as int;
    lemma_share_is_count(c, k, n, j);
    lemma_fundamental_div_mod(c as int, kk);
    lemma_fundamental_div_mod(n as int, kk);
    lemma_fundamental_div_mod((c + n) as int, kk);
    let qc = c as int / kk;
    let rc = c as int % kk;
    let qn = n as int / kk;
    let rn = n as int % kk;
    if rc + rn < kk {
        assert(c + n == (qc + qn) * kk + (rc + rn)) by (nonlinear_arith)
            requires
                c == kk * qc + rc,
                n == kk * qn + rn,
        ;
        lemma_fundamental_div_mod_converse((c + n) as int, kk, qc + qn, rc + rn);
    } else {
        assert(c + n == (qc + qn + 1) * kk + (rc + rn - kk)) by (nonlinear_arith)
            requires
                c == kk * qc + rc,
                n == kk * qn + rn,
        ;
        lemma_fundamental_div_mod_converse((c + n) as int, kk, qc + qn + 1, rc + rn - kk);
    }
}

/// How many of `n` round-robin selections that began at cursor `c` picked
/// one of the first `m` positions.
pub open spec fn round_robin_shares(c: nat, k: nat, n: nat, m: nat) -> nat
    decreases m,
{
    if m == 0 {
        0
    } else {
        round_robin_shares(c, k, n, (m - 1) as nat) + round_robin_share(c, k, n, m - 1)
    }
}

proof fn lemma_shares_step(c: nat, k: nat, n: nat, m: nat)
    requires
        n > 0,
    ensures
        round_robin_shares(c, k, n, m) == round_robin_shares(c, k, (n - 1) as nat, m) + if 0 <= round_robin_index(
            round_robin_cursor(c, k, (n - 1) as nat),
            k,
        ) < m {
            1nat
        } else {
            0nat
        },
    decreases m,
{
    if m > 0 {
        lemma_shares_step(c, k, n, (m - 1) as nat);
    }
}

proof fn lemma_shares_none(c: nat, k: nat, m: nat)
    ensures
        round_robin_shares(c, k, 0, m) == 0,
    decreases m,
{
    if m > 0 {
        lemma_shares_none(c, k, (m - 1) as nat);
    }
}

/// Every selection goes to one worker: of `n` round-robin selections among
/// `k` workers, the shares of the workers add up to `n`.
pub proof fn law_round_robin_shares_add_up(c: nat, k: nat, n: nat)
    requires
        k > 0,
    ensures
        round_robin_shares(c, k, n, k) == n,
    decreases n,
{
    if n == 0 {
        lemma_shares_none(c, k, k);
    } else {
        law_round_robin_shares_add_up(c, k, (n - 1) as nat);
        lemma_shares_step(c, k, n, k);
        lemma_mod_pos_bound(round_robin_cursor(c, k, (n - 1) as nat) as int, k as int);
    }
}

} // verus!
