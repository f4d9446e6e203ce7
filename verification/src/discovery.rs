//! Worker discovery: what an endpoint group says of the workers it owns,
//! and the commands that bring the registry in line with it.

use vstd::prelude::*;

verus! {

/// A change that discovery asks of the registry.
#[derive(Debug, Clone)]
pub enum DiscoveryCommand {
    AddWorker(String),
    RemoveWorker(String),
}

/// What went wrong in discovery.
#[derive(Debug, Clone)]
pub enum K8sDiscoveryError {
    /// The client of the cluster failed; the text is its own account.
    KubeError(String),
    /// The stream of watch events failed or ended.
    WatchError(String),
    /// The configuration cannot be used.
    ConfigError(String),
}

/// Which endpoints count as workers, and how their URLs are written.
#[derive(Debug, Clone)]
pub struct K8sDiscoveryConfig {
    /// The label selector of the endpoint groups that hold workers.
    pub label_selector: String,
    /// The name of the port to take; every port is taken where none is named.
    pub port_name: Option<String>,
    /// The scheme of the worker URLs.
    pub protocol: String,
    /// The path of the worker URLs.
    pub worker_path: String,
}

/// One port of an endpoint subset.
#[derive(Debug, Clone)]
pub struct EndpointPort {
    pub name: Option<String>,
    pub port: Option<i32>,
}

/// Addresses that share a list of ports.
#[derive(Debug, Clone)]
pub struct EndpointSubset {
    pub addresses: Vec<String>,
    pub ports: Vec<EndpointPort>,
}

/// The full state of one endpoint group, as one watch event carries it.
#[derive(Debug, Clone)]
pub struct EndpointGroup {
    pub name: String,
    pub subsets: Vec<EndpointSubset>,
}

/// The URL that a command names.
pub open spec fn command_url(c: DiscoveryCommand) -> Seq<char> {
    match c {
        DiscoveryCommand::AddWorker(u) => u@,
        DiscoveryCommand::RemoveWorker(u) => u@,
    }
}

/// The decimal digit for `d`.
pub open spec fn digit(d: int) -> char {
    if d == 0 {
        '0'
    } else if d == 1 {
        '1'
    } else if d == 2 {
        '2'
    } else if d == 3 {
        '3'
    } else if d == 4 {
        '4'
    } else if d == 5 {
        '5'
    } else if d == 6 {
        '6'
    } else if d == 7 {
        '7'
    } else if d == 8 {
        '8'
    } else {
        '9'
    }
}

/// The decimal numeral of a number that is not negative.
pub open spec fn numeral(n: nat) -> Seq<char>
    decreases n,
{
    if n < 10 {
        seq![digit(n as int)]
    } else {
        numeral(n / 10).push(digit(n as int % 10))
    }
}

/// The decimal numeral of `n`, with a minus sign where it is negative.
pub open spec fn decimal(n: int) -> Seq<char> {
    if n < 0 {
        seq!['-'] + numeral((-n) as nat)
    } else {
        numeral(n as nat)
    }
}

/// The path as it stands in a URL: empty, or starting with a slash.
pub open spec fn path_text(path: Seq<char>) -> Seq<char> {
    if path.len() == 0 || path[0] == '/' {
        path
    } else {
        seq!['/'] + path
    }
}

/// The URL of the worker at `address` and `port`.
pub open spec fn url_text(protocol: Seq<char>, address: Seq<char>, port: int, path: Seq<char>) -> Seq<char> {
    protocol + seq![':', '/', '/'] + address + seq![':'] + decimal(port) + path_text(path)
}

/// Whether a port of the given name is taken under `wanted`.
pub open spec fn port_taken(wanted: Option<String>, name: Option<String>) -> bool {
    match wanted {
        None => true,
        Some(w) => match name {
            Some(n) => n@ == w@,
            None => false,
        },
    }
}

/// Whether `u` is the URL of address `a` and port `p` of subset `s` of the
/// group, and that port is taken and has a number.
pub open spec fn yields(group: EndpointGroup, config: K8sDiscoveryConfig, s: int, a: int, p: int, u: Seq<char>) -> bool {
    &&& 0 <= s < group.subsets@.len()
    &&& 0 <= a < group.subsets@[s].addresses@.len()
    &&& 0 <= p < group.subsets@[s].ports@.len()
    &&& port_taken(config.port_name, group.subsets@[s].ports@[p].name)
    &&& group.subsets@[s].ports@[p].port matches Some(n) && u == url_text(
        config.protocol@,
        group.subsets@[s].addresses@[a]@,
        n as int,
        config.worker_path@,
    )
}

/// The URLs of the workers that the group owns under `config`.
pub open spec fn group_workers(group: EndpointGroup, config: K8sDiscoveryConfig) -> Set<Seq<char>> {
    Set::new(|u: Seq<char>| exists|s: int, a: int, p: int| yields(group, config, s, a, p, u))
}

/// Whether place `(s, a, p)` comes before place `(cs, ca, cp)` in the walk
/// through subsets, addresses and ports.
pub open spec fn before(s: int, a: int, p: int, cs: int, ca: int, cp: int) -> bool {
    s < cs || (s == cs && (a < ca || (a == ca && p < cp)))
}

/// The one-character text for the digit `d`.
fn digit_str(d: u64) -> (r: &'static str)
    requires
        d < 10,
    ensures
        r@ == seq![digit(d as int)],
{
    proof {
        reveal_strlit("0");
        reveal_strlit("1");
        reveal_strlit("2");
        reveal_strlit("3");
        reveal_strlit("4");
        reveal_strlit("5");
        reveal_strlit("6");
        reveal_strlit("7");
        reveal_strlit("8");
        reveal_strlit("9");
    }
    let r = if d == 0 {
        "0"
    } else if d == 1 {
        "1"
    } else if d == 2 {
        "2"
    } else if d == 3 {
        "3"
    } else if d == 4 {
        "4"
    } else if d == 5 {
        "5"
    } else if d == 6 {
        "6"
    } else if d == 7 {
        "7"
    } else if d == 8 {
        "8"
    } else {
        "9"
    };
    assert(r@ =~= seq![digit(d as int)]);
    r
}

/// Appends the decimal numeral of `n` to `out`.
fn push_numeral(out: &mut String, n: u64)
    ensures
        final(out)@ == old(out)@ + numeral(n as nat),
    decreases n,
{
    if n >= 10 {
        push_numeral(out, n / 10);
    }
    out.append(digit_str(n % 10));
    proof {
        if n >= 10 {
            assert(old(out)@ + numeral(n as nat / 10) + seq![digit(n as int % 10)] =~= old(out)@ + numeral(n as nat / 10).push(
                digit(n as int % 10),
            ));
        }
    }
}

/// The URL of the worker at `address` and `port`: the scheme, `://`, the
/// address, a colon, the port in decimal, and the path, which gets a slash
/// in front where it is not empty and has none.
pub fn worker_url(protocol: &str, address: &str, port: i32, path: &str) -> (r: String)
    ensures
        r@ == url_text(protocol@, address@, port as int, path@),
{
    proof {
        reveal_strlit("://");
        reveal_strlit(":");
        reveal_strlit("-");
        reveal_strlit("/");
    }
    let mut out = protocol.to_owned();
    out.append("://");
    out.append(address);
    out.append(":");
    assert(out@ =~= protocol@ + seq![':', '/', '/'] + address@ + seq![':']);
    let ghost head = out@;
    if port < 0 {
        out.append("-");
        let m: u64 = (-(port as i64)) as u64;
        push_numeral(&mut out, m);
        assert(out@ =~= head + decimal(port as int));
    } else {
        push_numeral(&mut out, port as u64);
        assert(out@ =~= head + decimal(port as int));
    }
    let slashed = path.unicode_len() == 0 || path.get_char(0) == '/';
    if !slashed {
        out.append("/");
    }
    out.append(path);
    assert(out@ =~= head + decimal(port as int) + path_text(path@));
    out
}

/// Whether `u` is among `v`.
pub fn among(v: &Vec<String>, u: &String) -> (r: bool)
    ensures
        r == v.deep_view().contains(u@),
{
    let mut i: usize = 0;
    while i < v.len()
        invariant
            i <= v@.len(),
            v.deep_view().len() == v@.len(),
            forall|j: int| 0 <= j < i ==> #[trigger] v.deep_view()[j] != u@,
        decreases v@.len() - i,
    {
        assert(v.deep_view()[i as int] == v@[i as int]@);
        if v[i] == *u {
            return true;
        }
        i += 1;
    }
    false
}

/// What pushing a text does to the texts of a list.
pub proof fn lemma_pushed(before: &Vec<String>, after: &Vec<String>, u: Seq<char>)
    requires
        after@.len() == before@.len() + 1,
        forall|i: int| 0 <= i < before@.len() ==> (#[trigger] after@[i])@ == before@[i]@,
        after@[before@.len() as int]@ == u,
    ensures
        after.deep_view() == before.deep_view().push(u),
        forall|x: Seq<char>| after.deep_view().contains(x) <==> before.deep_view().contains(x) || x == u,
        before.deep_view().no_duplicates() && !before.deep_view().contains(u) ==> after.deep_view().no_duplicates(),
{
    let a = after.deep_view();
    let b = before.deep_view();
    assert(a.len() == b.len() + 1);
    assert forall|i: int| 0 <= i < a.len() implies a[i] == b.push(u)[i] by {
        assert(a[i] == after@[i]@);
        if i < b.len() {
            assert(b[i] == before@[i]@);
        }
    }
    assert(a =~= b.push(u));
    assert forall|x: Seq<char>| a.contains(x) <==> b.contains(x) || x == u by {
        if a.contains(x) {
            let i = choose|i: int| 0 <= i < a.len() && a[i] == x;
            if i < b.len() {
                assert(b[i] == x);
            }
        }
        if b.contains(x) {
            let i = choose|i: int| 0 <= i < b.len() && b[i] == x;
            assert(a[i] == x);
        }
        if x == u {
            assert(a[b.len() as int] == x);
        }
    }
    if b.no_duplicates() && !b.contains(u) {
        assert forall|i: int, j: int| 0 <= i < a.len() && 0 <= j < a.len() && i != j implies a[i] != a[j] by {
            if i < b.len() && j < b.len() {
            } else if i < b.len() {
                assert(b.contains(b[i]));
            } else {
                assert(b.contains(b[j]));
            }
        }
    }
}

/// Whether the port is taken under the configuration.
fn takes(config: &K8sDiscoveryConfig, port: &EndpointPort) -> (r: bool)
    ensures
        r == port_taken(config.port_name, port.name),
{
    match &config.port_name {
        None => true,
        Some(w) => match &port.name {
            Some(n) => *n == *w,
            None => false,
        },
    }
}

/// The URLs of the workers that the group owns under `config`, each once.
pub fn group_urls(group: &EndpointGroup, config: &K8sDiscoveryConfig) -> (r: Vec<String>)
    ensures
        r.deep_view().no_duplicates(),
        r.deep_view().to_set() == group_workers(*group, *config),
{
    let mut out: Vec<String> = Vec::new();
    assert(out.deep_view() =~= Seq::<Seq<char>>::empty());
    let mut s: usize = 0;
    while s < group.subsets.len()
        invariant
            s <= group.subsets@.len(),
            out.deep_view().no_duplicates(),
            forall|u: Seq<char>|
                out.deep_view().contains(u) <==> exists|s1: int, a1: int, p1: int|
                    yields(*group, *config, s1, a1, p1, u) && before(s1, a1, p1, s as int, 0, 0),
        decreases group.subsets@.len() - s,
    {
        let subset = &group.subsets[s];
        let mut a: usize = 0;
        while a < subset.addresses.len()
            invariant
                s < group.subsets@.len(),
                *subset == group.subsets@[s as int],
                a <= subset.addresses@.len(),
                out.deep_view().no_duplicates(),
                forall|u: Seq<char>|
                    out.deep_view().contains(u) <==> exists|s1: int, a1: int, p1: int|
                        yields(*group, *config, s1, a1, p1, u) && before(s1, a1, p1, s as int, a as int, 0),
            decreases subset.addresses@.len() - a,
        {
            let mut p: usize = 0;
            while p < subset.ports.len()
                invariant
                    s < group.subsets@.len(),
                    *subset == group.subsets@[s as int],
                    a < subset.addresses@.len(),
                    p <= subset.ports@.len(),
                    out.deep_view().no_duplicates(),
                    forall|u: Seq<char>|
                        out.deep_view().contains(u) <==> exists|s1: int, a1: int, p1: int|
                            yields(*group, *config, s1, a1, p1, u) && before(s1, a1, p1, s as int, a as int, p as int),
                decreases subset.ports@.len() - p,
            {
                let port = &subset.ports[p];
                let ghost was = out;
                if takes(config, port) {
                    if let Some(n) = port.port {
                        let url = worker_url(
                            config.protocol.as_str(),
                            subset.addresses[a].as_str(),
                            n,
                            config.worker_path.as_str(),
                        );
                        assert(yields(*group, *config, s as int, a as int, p as int, url@));
                        if !among(&out, &url) {
                            let ghost u = url@;
                            out.push(url);
                            proof {
                                lemma_pushed(&was, &out, u);
                            }
                        }
                    }
                }
                proof {
                    assert forall|u: Seq<char>|
                        out.deep_view().contains(u) <==> exists|s1: int, a1: int, p1: int|
                            yields(*group, *config, s1, a1, p1, u) && before(s1, a1, p1, s as int, a as int, p + 1) by {
                        if out.deep_view().contains(u) {
                            if was.deep_view().contains(u) {
                                let (s1, a1, p1) = choose|s1: int, a1: int, p1: int|
                                    yields(*group, *config, s1, a1, p1, u) && before(s1, a1, p1, s as int, a as int, p as int);
                                assert(yields(*group, *config, s1, a1, p1, u) && before(s1, a1, p1, s as int, a as int, p + 1));
                            } else {
                                assert(yields(*group, *config, s as int, a as int, p as int, u) && before(
                                    s as int,
                                    a as int,
                                    p as int,
                                    s as int,
                                    a as int,
                                    p + 1,
                                ));
                            }
                        }
                        if exists|s1: int, a1: int, p1: int|
                            yields(*group, *config, s1, a1, p1, u) && before(s1, a1, p1, s as int, a as int, p + 1) {
                            let (s1, a1, p1) = choose|s1: int, a1: int, p1: int|
                                yields(*group, *config, s1, a1, p1, u) && before(s1, a1, p1, s as int, a as int, p + 1);
                            if before(s1, a1, p1, s as int, a as int, p as int) {
                                assert(was.deep_view().contains(u));
                            } else {
                                assert(s1 == s && a1 == a && p1 == p);
                            }
                        }
                    }
                }
                p += 1;
            }
            proof {
                assert forall|u: Seq<char>|
                    out.deep_view().contains(u) <==> exists|s1: int, a1: int, p1: int|
                        yields(*group, *config, s1, a1, p1, u) && before(s1, a1, p1, s as int, a + 1, 0) by {
                    if out.deep_view().contains(u) {
                        let (s1, a1, p1) = choose|s1: int, a1: int, p1: int|
                            yields(*group, *config, s1, a1, p1, u) && before(s1, a1, p1, s as int, a as int, p as int);
                        assert(yields(*group, *config, s1, a1, p1, u) && before(s1, a1, p1, s as int, a + 1, 0));
                    }
                    if exists|s1: int, a1: int, p1: int|
                        yields(*group, *config, s1, a1, p1, u) && before(s1, a1, p1, s as int, a + 1, 0) {
                        let (s1, a1, p1) = choose|s1: int, a1: int, p1: int|
                            yields(*group, *config, s1, a1, p1, u) && before(s1, a1, p1, s as int, a + 1, 0);
                        assert(yields(*group, *config, s1, a1, p1, u) && before(s1, a1, p1, s as int, a as int, p as int));
                    }
                }
            }
            a += 1;
        }
        proof {
            assert forall|u: Seq<char>|
                out.deep_view().contains(u) <==> exists|s1: int, a1: int, p1: int|
                    yields(*group, *config, s1, a1, p1, u) && before(s1, a1, p1, s + 1, 0, 0) by {
                if out.deep_view().contains(u) {
                    let (s1, a1, p1) = choose|s1: int, a1: int, p1: int|
                        yields(*group, *config, s1, a1, p1, u) && before(s1, a1, p1, s as int, a as int, 0);
                    assert(yields(*group, *config, s1, a1, p1, u) && before(s1, a1, p1, s + 1, 0, 0));
                }
                if exists|s1: int, a1: int, p1: int|
                    yields(*group, *config, s1, a1, p1, u) && before(s1, a1, p1, s + 1, 0, 0) {
                    let (s1, a1, p1) = choose|s1: int, a1: int, p1: int|
                        yields(*group, *config, s1, a1, p1, u) && before(s1, a1, p1, s + 1, 0, 0);
                    assert(yields(*group, *config, s1, a1, p1, u) && before(s1, a1, p1, s as int, a as int, 0));
                }
            }
        }
        s += 1;
    }
    proof {
        let got = out.deep_view().to_set();
        let want = group_workers(*group, *config);
        assert forall|u: Seq<char>| got.contains(u) <==> want.contains(u) by {
            if want.contains(u) {
                let (s1, a1, p1) = choose|s1: int, a1: int, p1: int| yields(*group, *config, s1, a1, p1, u);
                assert(yields(*group, *config, s1, a1, p1, u) && before(s1, a1, p1, s as int, 0, 0));
            }
            if out.deep_view().contains(u) {
                let (s1, a1, p1) = choose|s1: int, a1: int, p1: int|
                    yields(*group, *config, s1, a1, p1, u) && before(s1, a1, p1, s as int, 0, 0);
                assert(yields(*group, *config, s1, a1, p1, u));
            }
        }
        assert(got =~= want);
    }
    out
}


/// The URLs that the commands add.
pub open spec fn added(cmds: Seq<DiscoveryCommand>) -> Set<Seq<char>> {
    Set::new(|u: Seq<char>| exists|i: int| 0 <= i < cmds.len() && #[trigger] cmds[i] is AddWorker && command_url(cmds[i]) == u)
}

/// The URLs that the commands remove.
pub open spec fn removed(cmds: Seq<DiscoveryCommand>) -> Set<Seq<char>> {
    Set::new(
        |u: Seq<char>| exists|i: int| 0 <= i < cmds.len() && #[trigger] cmds[i] is RemoveWorker && command_url(cmds[i]) == u,
    )
}

/// Whether `cmds` are the commands that lead from the workers `old` to the
/// workers `new`: they add the newcomers and remove the departers, the
/// additions first, and name no URL twice.
pub open spec fn is_diff(cmds: Seq<DiscoveryCommand>, old: Set<Seq<char>>, new: Set<Seq<char>>) -> bool {
    &&& added(cmds) == new.difference(old)
    &&& removed(cmds) == old.difference(new)
    &&& forall|i: int, j: int| 0 <= i < j < cmds.len() && #[trigger] cmds[j] is AddWorker ==> #[trigger] cmds[i] is AddWorker
    &&& forall|i: int, j: int| 0 <= i < j < cmds.len() ==> command_url(#[trigger] cmds[i]) != command_url(#[trigger] cmds[j])
}

/// The workers that result when `cmds` are carried out, in their order, on
/// the workers `w`.
pub open spec fn replay(cmds: Seq<DiscoveryCommand>, w: Set<Seq<char>>) -> Set<Seq<char>>
    decreases cmds.len(),
{
    if cmds.len() == 0 {
        w
    } else {
        let so_far = replay(cmds.drop_last(), w);
        match cmds.last() {
            DiscoveryCommand::AddWorker(u) => so_far.insert(u@),
            DiscoveryCommand::RemoveWorker(u) => so_far.remove(u@),
        }
    }
}

/// The workers that result when the batches of commands are carried out one
/// after the other.
pub open spec fn replay_all(batches: Seq<Seq<DiscoveryCommand>>, w: Set<Seq<char>>) -> Set<Seq<char>>
    decreases batches.len(),
{
    if batches.len() == 0 {
        w
    } else {
        replay(batches.last(), replay_all(batches.drop_last(), w))
    }
}

/// The workers that the state attributes to the group `name`.
pub open spec fn owned(m: Map<Seq<char>, Set<Seq<char>>>, name: Seq<char>) -> Set<Seq<char>> {
    if m.contains_key(name) {
        m[name]
    } else {
        Set::empty()
    }
}

proof fn lemma_replay_prefix(cmds: Seq<DiscoveryCommand>, w: Set<Seq<char>>, n: int)
    requires
        0 <= n <= cmds.len(),
        forall|i: int, j: int| 0 <= i < j < cmds.len() && #[trigger] cmds[j] is AddWorker ==> #[trigger] cmds[i] is AddWorker,
    ensures
        replay(cmds.take(n), w) == w.union(added(cmds.take(n))).difference(removed(cmds.take(n))),
    decreases n,
{
    let part = cmds.take(n);
    if n == 0 {
        assert(replay(part, w) =~= w.union(added(part)).difference(removed(part)));
    } else {
        let less = cmds.take(n - 1);
        assert(part.drop_last() =~= less);
        lemma_replay_prefix(cmds, w, n - 1);
        let so_far = replay(less, w);
        let last = part.last();
        assert(last == cmds[n - 1]);
        assert forall|i: int| 0 <= i < n - 1 implies less[i] == #[trigger] part[i] by {}
        match last {
            DiscoveryCommand::AddWorker(u) => {
                assert forall|i: int| 0 <= i < n implies #[trigger] part[i] is AddWorker by {
                    if i < n - 1 {
                        assert(cmds[n - 1] is AddWorker);
                        assert(cmds[i] is AddWorker);
                    }
                }
                assert(removed(part) =~= Set::<Seq<char>>::empty());
                assert(removed(less) =~= Set::<Seq<char>>::empty()) by {
                    assert forall|x: Seq<char>| !removed(less).contains(x) by {
                        if removed(less).contains(x) {
                            let i = choose|i: int| 0 <= i < less.len() && #[trigger] less[i] is RemoveWorker && command_url(less[i]) == x;
                            assert(part[i] is AddWorker);
                        }
                    }
                }
                assert(added(part) =~= added(less).insert(u@)) by {
                    assert forall|x: Seq<char>| added(part).contains(x) <==> added(less).insert(u@).contains(x) by {
                        if added(part).contains(x) {
                            let i = choose|i: int| 0 <= i < part.len() && #[trigger] part[i] is AddWorker && command_url(part[i]) == x;
                            if i < n - 1 {
                                assert(less[i] is AddWorker && command_url(less[i]) == x);
                            }
                        }
                        if added(less).contains(x) {
                            let i = choose|i: int| 0 <= i < less.len() && #[trigger] less[i] is AddWorker && command_url(less[i]) == x;
                            assert(part[i] is AddWorker && command_url(part[i]) == x);
                        }
                        if x == u@ {
                            assert(part[n - 1] is AddWorker && command_url(part[n - 1]) == x);
                        }
                    }
                }
                assert(so_far.insert(u@) =~= w.union(added(part)).difference(removed(part)));
            },
            DiscoveryCommand::RemoveWorker(u) => {
                assert(added(part) =~= added(less)) by {
                    assert forall|x: Seq<char>| added(part).contains(x) <==> added(less).contains(x) by {
                        if added(part).contains(x) {
                            let i = choose|i: int| 0 <= i < part.len() && #[trigger] part[i] is AddWorker && command_url(part[i]) == x;
                            assert(less[i] is AddWorker && command_url(less[i]) == x);
                        }
                        if added(less).contains(x) {
                            let i = choose|i: int| 0 <= i < less.len() && #[trigger] less[i] is AddWorker && command_url(less[i]) == x;
                            assert(part[i] is AddWorker && command_url(part[i]) == x);
                        }
                    }
                }
                assert(removed(part) =~= removed(less).insert(u@)) by {
                    assert forall|x: Seq<char>| removed(part).contains(x) <==> removed(less).insert(u@).contains(x) by {
                        if removed(part).contains(x) {
                            let i = choose|i: int| 0 <= i < part.len() && #[trigger] part[i] is RemoveWorker && command_url(part[i]) == x;
                            if i < n - 1 {
                                assert(less[i] is RemoveWorker && command_url(less[i]) == x);
                            }
                        }
                        if removed(less).contains(x) {
                            let i = choose|i: int| 0 <= i < less.len() && #[trigger] less[i] is RemoveWorker && command_url(less[i]) == x;
                            assert(part[i] is RemoveWorker && command_url(part[i]) == x);
                        }
                        if x == u@ {
                            assert(part[n - 1] is RemoveWorker && command_url(part[n - 1]) == x);
                        }
                    }
                }
                assert(so_far.remove(u@) =~= w.union(added(part)).difference(removed(part)));
            },
        }
    }
}

/// Carrying out the commands of a diff on the old workers gives the new
/// workers: what was added, with what was there, less what was removed, is
/// the set that was observed.
pub proof fn law_replay_reaches_observed(cmds: Seq<DiscoveryCommand>, old: Set<Seq<char>>, new: Set<Seq<char>>)
    requires
        is_diff(cmds, old, new),
    ensures
        replay(cmds, old) == new,
{
    lemma_replay_prefix(cmds, old, cmds.len() as int);
    assert(cmds.take(cmds.len() as int) =~= cmds);
    assert(old.union(new.difference(old)).difference(old.difference(new)) =~= new);
}

/// After any run of full-state updates of a group, the workers that were
/// there at first, with all that the commands added and less all that they
/// removed, in the order of the commands, are the workers observed last.
pub proof fn law_discovery_tracks_last(
    initial: Set<Seq<char>>,
    seen: Seq<Set<Seq<char>>>,
    batches: Seq<Seq<DiscoveryCommand>>,
)
    requires
        batches.len() == seen.len(),
        forall|i: int|
            0 <= i < seen.len() ==> is_diff(
                #[trigger] batches[i],
                if i == 0 {
                    initial
                } else {
                    seen[i - 1]
                },
                seen[i],
            ),
    ensures
        replay_all(batches, initial) == if seen.len() == 0 {
            initial
        } else {
            seen.last()
        },
    decreases seen.len(),
{
    if seen.len() > 0 {
        let n = seen.len() - 1;
        let less = batches.drop_last();
        let seen_less = seen.drop_last();
        assert forall|i: int| 0 <= i < seen_less.len() implies is_diff(
            #[trigger] less[i],
            if i == 0 {
                initial
            } else {
                seen_less[i - 1]
            },
            seen_less[i],
        ) by {
            assert(less[i] == batches[i]);
        }
        law_discovery_tracks_last(initial, seen_less, less);
        let before = if n == 0 {
            initial
        } else {
            seen[n - 1]
        };
        assert(replay_all(less, initial) == before);
        assert(is_diff(batches[n], before, seen[n]));
        law_replay_reaches_observed(batches.last(), before, seen.last());
    }
}

/// One full-state update as discovery takes it in: the name of a group with
/// the workers that it now owns, or with `None` where the group is gone.
pub type Update = (Seq<char>, Option<Set<Seq<char>>>);

/// The workers that an update shows for its group.
pub open spec fn shown(u: Update) -> Set<Seq<char>> {
    match u.1 {
        Some(s) => s,
        None => Set::empty(),
    }
}

/// What discovery knows once it has taken in the update `u`.
pub open spec fn after_update(m: Map<Seq<char>, Set<Seq<char>>>, u: Update) -> Map<Seq<char>, Set<Seq<char>>> {
    match u.1 {
        Some(s) => m.insert(u.0, s),
        None => m.remove(u.0),
    }
}

/// What discovery knows once it has taken in the updates, in their order.
pub open spec fn after_updates(m: Map<Seq<char>, Set<Seq<char>>>, updates: Seq<Update>) -> Map<
    Seq<char>,
    Set<Seq<char>>,
>
    decreases updates.len(),
{
    if updates.len() == 0 {
        m
    } else {
        after_update(after_updates(m, updates.drop_last()), updates.last())
    }
}

/// Whether `batches` are the commands that discovery gives for the
/// updates, one batch for each, when it starts from what `m` knows.
pub open spec fn answers(m: Map<Seq<char>, Set<Seq<char>>>, updates: Seq<Update>, batches: Seq<Seq<DiscoveryCommand>>) -> bool {
    &&& batches.len() == updates.len()
    &&& forall|i: int|
        0 <= i < updates.len() ==> is_diff(
            #[trigger] batches[i],
            owned(after_updates(m, updates.take(i)), updates[i].0),
            shown(updates[i]),
        )
}

/// The workers that result when the batches that belong to the updates of
/// the group `name` are carried out, in their order, on the workers `w`.
pub open spec fn replay_group(
    name: Seq<char>,
    updates: Seq<Update>,
    batches: Seq<Seq<DiscoveryCommand>>,
    w: Set<Seq<char>>,
) -> Set<Seq<char>>
    decreases updates.len(),
{
    if updates.len() == 0 {
        w
    } else {
        let so_far = replay_group(name, updates.drop_last(), batches.drop_last(), w);
        if updates.last().0 == name {
            replay(batches.last(), so_far)
        } else {
            so_far
        }
    }
}

/// The workers of all groups together.
pub open spec fn fleet(m: Map<Seq<char>, Set<Seq<char>>>) -> Set<Seq<char>> {
    Set::new(|u: Seq<char>| exists|n: Seq<char>| m.contains_key(n) && #[trigger] m[n].contains(u))
}

/// Whether the group `name`, which is to own the workers `new`, shares no
/// worker with another group, neither among those it owns nor among `new`.
pub open spec fn apart(m: Map<Seq<char>, Set<Seq<char>>>, name: Seq<char>, new: Set<Seq<char>>) -> bool {
    forall|n: Seq<char>, u: Seq<char>|
        n != name && m.contains_key(n) && #[trigger] m[n].contains(u) ==> !owned(m, name).contains(u) && !new.contains(u)
}

/// In a stream of updates over several groups, each group is tracked by
/// itself: the commands given for the updates of one group, carried out in
/// their order on the workers that the group owned at first, give the
/// workers that the group owns in the end, which are those that its last
/// update showed.
pub proof fn law_discovery_tracks_each_group(
    m: Map<Seq<char>, Set<Seq<char>>>,
    updates: Seq<Update>,
    batches: Seq<Seq<DiscoveryCommand>>,
    name: Seq<char>,
)
    requires
        answers(m, updates, batches),
    ensures
        replay_group(name, updates, batches, owned(m, name)) == owned(after_updates(m, updates), name),
    decreases updates.len(),
{
    if updates.len() > 0 {
        let n = updates.len() - 1;
        let less = updates.drop_last();
        let fewer = batches.drop_last();
        assert(answers(m, less, fewer)) by {
            assert forall|i: int| 0 <= i < less.len() implies is_diff(
                #[trigger] fewer[i],
                owned(after_updates(m, less.take(i)), less[i].0),
                shown(less[i]),
            ) by {
                assert(less.take(i) =~= updates.take(i));
                assert(fewer[i] == batches[i]);
            }
        }
        law_discovery_tracks_each_group(m, less, fewer, name);
        let before = after_updates(m, less);
        assert(updates.take(n) =~= less);
        assert(is_diff(batches[n], owned(before, updates[n].0), shown(updates[n])));
        if updates.last().0 == name {
            law_replay_reaches_observed(batches.last(), owned(before, name), shown(updates.last()));
        }
    }
}

/// Where a group shares no worker with another group, the commands for its
/// update keep the whole fleet right: carried out on the workers of all
/// groups together, they give the workers of all groups after the update.
/// Where two groups own one worker, the removal for one takes the worker
/// from the other as well, and this does not hold.
pub proof fn law_replay_tracks_fleet(m: Map<Seq<char>, Set<Seq<char>>>, u: Update, cmds: Seq<DiscoveryCommand>)
    requires
        is_diff(cmds, owned(m, u.0), shown(u)),
        apart(m, u.0, shown(u)),
    ensures
        replay(cmds, fleet(m)) == fleet(after_update(m, u)),
{
    let name = u.0;
    let had = owned(m, name);
    let new = shown(u);
    let all = fleet(m);
    let m1 = after_update(m, u);
    lemma_replay_prefix(cmds, all, cmds.len() as int);
    assert(cmds.take(cmds.len() as int) =~= cmds);
    let got = all.union(new.difference(had)).difference(had.difference(new));
    assert forall|x: Seq<char>| got.contains(x) <==> fleet(m1).contains(x) by {
        if fleet(m1).contains(x) {
            let n = choose|n: Seq<char>| m1.contains_key(n) && #[trigger] m1[n].contains(x);
            if n != name {
                assert(m.contains_key(n) && m[n].contains(x));
            }
        }
        if got.contains(x) {
            if new.contains(x) {
                assert(m1.contains_key(name) && m1[name].contains(x));
            } else {
                let n = choose|n: Seq<char>| m.contains_key(n) && #[trigger] m[n].contains(x);
                assert(n != name);
                assert(m1.contains_key(n) && m1[n].contains(x));
            }
        }
    }
    assert(got =~= fleet(m1));
}

/// The workers that one endpoint group owns.
struct GroupState {
    name: String,
    urls: Vec<String>,
}

/// What discovery knows: for each endpoint group, the workers it owns.
pub struct EndpointState {
    groups: Vec<GroupState>,
}

impl View for EndpointState {
    type V = Map<Seq<char>, Set<Seq<char>>>;

    /// For the name of each known group, the URLs of its workers.
    closed spec fn view(&self) -> Map<Seq<char>, Set<Seq<char>>> {
        Map::new(
            |n: Seq<char>| exists|i: int| 0 <= i < self.groups@.len() && #[trigger] self.groups@[i].name@ == n,
            |n: Seq<char>| self.groups@[Self::place(self.groups@, n)].urls.deep_view().to_set(),
        )
    }
}

/// The texts of `a` that are not among `b`.
fn minus(a: &Vec<String>, b: &Vec<String>) -> (r: Vec<String>)
    requires
        a.deep_view().no_duplicates(),
    ensures
        r.deep_view().no_duplicates(),
        r.deep_view().to_set() == a.deep_view().to_set().difference(b.deep_view().to_set()),
{
    let mut out: Vec<String> = Vec::new();
    assert(out.deep_view() =~= Seq::<Seq<char>>::empty());
    let ghost all = a.deep_view();
    let mut i: usize = 0;
    while i < a.len()
        invariant
            i <= a@.len(),
            all == a.deep_view(),
            all.len() == a@.len(),
            all.no_duplicates(),
            out.deep_view().no_duplicates(),
            forall|u: Seq<char>|
                out.deep_view().contains(u) <==> all.take(i as int).contains(u) && !b.deep_view().contains(u),
        decreases a@.len() - i,
    {
        let ghost was = out;
        assert(all[i as int] == a@[i as int]@);
        assert(all.take(i + 1) =~= all.take(i as int).push(all[i as int]));
        assert(!all.take(i as int).contains(all[i as int])) by {
            if all.take(i as int).contains(all[i as int]) {
                let j = choose|j: int| 0 <= j < i && all.take(i as int)[j] == all[i as int];
                assert(all[j] == all[i as int]);
            }
        }
        if !among(b, &a[i]) {
            out.push(a[i].clone());
            proof {
                lemma_pushed(&was, &out, all[i as int]);
            }
        }
        proof {
            assert forall|u: Seq<char>|
                out.deep_view().contains(u) <==> all.take(i + 1).contains(u) && !b.deep_view().contains(u) by {
                let shorter = all.take(i as int);
                let longer = all.take(i + 1);
                if longer.contains(u) {
                    let j = choose|j: int| 0 <= j < longer.len() && longer[j] == u;
                    if j < i {
                        assert(shorter[j] == u);
                    }
                }
                if shorter.contains(u) {
                    let j = choose|j: int| 0 <= j < shorter.len() && shorter[j] == u;
                    assert(longer[j] == u);
                }
                if u == all[i as int] {
                    assert(longer[i as int] == u);
                }
            }
        }
        i += 1;
    }
    proof {
        assert(all.take(i as int) =~= all);
        assert(out.deep_view().to_set() =~= a.deep_view().to_set().difference(b.deep_view().to_set()));
    }
    out
}

/// The commands that lead from the workers `old` to the workers `new`.
fn diff_commands(old: &Vec<String>, new: &Vec<String>) -> (r: Vec<DiscoveryCommand>)
    requires
        old.deep_view().no_duplicates(),
        new.deep_view().no_duplicates(),
    ensures
        is_diff(r@, old.deep_view().to_set(), new.deep_view().to_set()),
{
    let adds = minus(new, old);
    let drops = minus(old, new);
    let ghost a = adds.deep_view();
    let ghost d = drops.deep_view();
    let mut out: Vec<DiscoveryCommand> = Vec::new();
    let mut i: usize = 0;
    while i < adds.len()
        invariant
            i <= adds@.len(),
            a == adds.deep_view(),
            a.len() == adds@.len(),
            out@.len() == i,
            forall|j: int| 0 <= j < i ==> #[trigger] out@[j] is AddWorker && command_url(out@[j]) == a[j],
        decreases adds@.len() - i,
    {
        assert(a[i as int] == adds@[i as int]@);
        out.push(DiscoveryCommand::AddWorker(adds[i].clone()));
        i += 1;
    }
    let n = adds.len();
    let mut k: usize = 0;
    while k < drops.len()
        invariant
            k <= drops@.len(),
            n == a.len(),
            d == drops.deep_view(),
            d.len() == drops@.len(),
            out@.len() == n + k,
            forall|j: int| 0 <= j < n ==> #[trigger] out@[j] is AddWorker && command_url(out@[j]) == a[j],
            forall|j: int| n <= j < n + k ==> #[trigger] out@[j] is RemoveWorker && command_url(out@[j]) == d[j - n],
        decreases drops@.len() - k,
    {
        assert(d[k as int] == drops@[k as int]@);
        out.push(DiscoveryCommand::RemoveWorker(drops[k].clone()));
        k += 1;
    }
    proof {
        let cmds = out@;
        let o = old.deep_view().to_set();
        let w = new.deep_view().to_set();
        assert forall|u: Seq<char>| added(cmds).contains(u) <==> w.difference(o).contains(u) by {
            if added(cmds).contains(u) {
                let j = choose|j: int| 0 <= j < cmds.len() && #[trigger] cmds[j] is AddWorker && command_url(cmds[j]) == u;
                assert(j < n);
                assert(a.contains(a[j]));
                assert(a.to_set().contains(u));
            }
            if w.difference(o).contains(u) {
                assert(a.to_set().contains(u));
                let j = choose|j: int| 0 <= j < a.len() && a[j] == u;
                assert(cmds[j] is AddWorker && command_url(cmds[j]) == u);
            }
        }
        assert(added(cmds) =~= w.difference(o));
        assert forall|u: Seq<char>| removed(cmds).contains(u) <==> o.difference(w).contains(u) by {
            if removed(cmds).contains(u) {
                let j = choose|j: int| 0 <= j < cmds.len() && #[trigger] cmds[j] is RemoveWorker && command_url(cmds[j]) == u;
                assert(j >= n);
                assert(d.contains(d[j - n]));
                assert(d.to_set().contains(u));
            }
            if o.difference(w).contains(u) {
                assert(d.to_set().contains(u));
                let j = choose|j: int| 0 <= j < d.len() && d[j] == u;
                assert(cmds[n + j] is RemoveWorker && command_url(cmds[n + j]) == u);
            }
        }
        assert(removed(cmds) =~= o.difference(w));
        assert forall|x: int, y: int| 0 <= x < y < cmds.len() implies command_url(#[trigger] cmds[x]) != command_url(
            #[trigger] cmds[y],
        ) by {
            if y < n {
                assert(a[x] != a[y]);
            } else if x >= n {
                assert(d[x - n] != d[y - n]);
            } else {
                assert(a.contains(a[x]));
                assert(a.to_set().contains(a[x]));
                assert(d.contains(d[y - n]));
                assert(d.to_set().contains(d[y - n]));
            }
        }
    }
    out
}

impl EndpointState {
    spec fn place(groups: Seq<GroupState>, n: Seq<char>) -> int {
        choose|i: int| 0 <= i < groups.len() && #[trigger] groups[i].name@ == n
    }

    /// No group is known twice and no group owns a worker twice.
    pub closed spec fn wf(&self) -> bool {
        &&& forall|i: int, j: int|
            0 <= i < j < self.groups@.len() ==> #[trigger] self.groups@[i].name@ != #[trigger] self.groups@[j].name@
        &&& forall|i: int| 0 <= i < self.groups@.len() ==> (#[trigger] self.groups@[i]).urls.deep_view().no_duplicates()
    }

    proof fn lemma_entry(&self, i: int)
        requires
            self.wf(),
            0 <= i < self.groups@.len(),
        ensures
            self@.contains_key(self.groups@[i].name@),
            self@[self.groups@[i].name@] == self.groups@[i].urls.deep_view().to_set(),
    {
        let n = self.groups@[i].name@;
        let j = Self::place(self.groups@, n);
        assert(self.groups@[j].name@ == n);
        if j < i {
            assert(self.groups@[j].name@ != self.groups@[i].name@);
        } else if i < j {
            assert(self.groups@[i].name@ != self.groups@[j].name@);
        }
    }

    /// The state that knows no group.
    pub fn new() -> (r: EndpointState)
        ensures
            r.wf(),
            r@ == Map::<Seq<char>, Set<Seq<char>>>::empty(),
    {
        let r = EndpointState { groups: Vec::new() };
        assert(r@ =~= Map::<Seq<char>, Set<Seq<char>>>::empty());
        r
    }

    fn find(&self, name: &String) -> (r: Option<usize>)
        ensures
            match r {
                Some(i) => i < self.groups@.len() && self.groups@[i as int].name@ == name@,
                None => !self@.contains_key(name@),
            },
    {
        let mut i: usize = 0;
        while i < self.groups.len()
            invariant
                i <= self.groups@.len(),
                forall|j: int| 0 <= j < i ==> (#[trigger] self.groups@[j]).name@ != name@,
            decreases self.groups@.len() - i,
        {
            if self.groups[i].name == *name {
                return Some(i);
            }
            i += 1;
        }
        None
    }

    /// The workers attributed to the group `name`, none where it is not known.
    pub fn workers_of(&self, name: &str) -> (r: Vec<String>)
        requires
            self.wf(),
        ensures
            r.deep_view().no_duplicates(),
            r.deep_view().to_set() == owned(self@, name@),
    {
        let key = name.to_owned();
        match self.find(&key) {
            None => {
                let r: Vec<String> = Vec::new();
                assert(r.deep_view() =~= Seq::<Seq<char>>::empty());
                assert(r.deep_view().to_set() =~= Set::<Seq<char>>::empty());
                r
            },
            Some(i) => {
                proof {
                    self.lemma_entry(i as int);
                }
                let empty: Vec<String> = Vec::new();
                assert(empty.deep_view() =~= Seq::<Seq<char>>::empty());
                assert(empty.deep_view().to_set() =~= Set::<Seq<char>>::empty());
                assert(self.groups@[i as int].urls.deep_view().no_duplicates());
                let r = minus(&self.groups[i].urls, &empty);
                assert(r.deep_view().to_set() =~= self.groups@[i as int].urls.deep_view().to_set());
                r
            },
        }
    }

    /// What the state knows once the entry at `k` holds the workers `set`
    /// of the group `name`, whether that entry was there before or is new,
    /// while every other entry is as it was.
    proof fn lemma_put(before: &EndpointState, after: &EndpointState, k: int, name: Seq<char>, set: Set<Seq<char>>)
        requires
            before.wf(),
            0 <= k < after.groups@.len(),
            after.groups@.len() == before.groups@.len() || (after.groups@.len() == before.groups@.len() + 1 && k
                == before.groups@.len()),
            forall|j: int| 0 <= j < before.groups@.len() && j != k ==> #[trigger] after.groups@[j] == before.groups@[j],
            after.groups@[k].name@ == name,
            after.groups@[k].urls.deep_view().no_duplicates(),
            after.groups@[k].urls.deep_view().to_set() == set,
            k < before.groups@.len() ==> before.groups@[k].name@ == name,
            k == before.groups@.len() ==> !before@.contains_key(name),
        ensures
            after.wf(),
            after@ == before@.insert(name, set),
    {
        let old_groups = before.groups@;
        let new_groups = after.groups@;
        let want = before@.insert(name, set);
        assert forall|j: int| 0 <= j < old_groups.len() implies (#[trigger] new_groups[j]).name@ == old_groups[j].name@ by {}
        assert forall|j: int| 0 <= j < old_groups.len() implies before@.contains_key(#[trigger] old_groups[j].name@) by {}
        assert(after.wf()) by {
            assert forall|x: int, y: int| 0 <= x < y < new_groups.len() implies #[trigger] new_groups[x].name@ != #[trigger] new_groups[y].name@ by {
                if y < old_groups.len() {
                    assert(old_groups[x].name@ != old_groups[y].name@);
                } else {
                    assert(before@.contains_key(old_groups[x].name@));
                }
            }
            assert forall|x: int| 0 <= x < new_groups.len() implies (#[trigger] new_groups[x]).urls.deep_view().no_duplicates() by {
                if x != k {
                    assert(old_groups[x].urls.deep_view().no_duplicates());
                }
            }
        }
        assert forall|n: Seq<char>| #[trigger] after@.contains_key(n) == want.contains_key(n) by {
            if after@.contains_key(n) && n != name {
                let j = Self::place(new_groups, n);
                assert(old_groups[j].name@ == n);
            }
            if before@.contains_key(n) {
                let j = Self::place(old_groups, n);
                assert(new_groups[j].name@ == n);
            }
            if n == name {
                assert(new_groups[k].name@ == n);
            }
        }
        assert forall|n: Seq<char>| after@.contains_key(n) implies #[trigger] after@[n] == want[n] by {
            let j = Self::place(new_groups, n);
            after.lemma_entry(j);
            if j != k {
                before.lemma_entry(j);
            } else if k < old_groups.len() {
                before.lemma_entry(k);
            }
        }
        assert(after@ =~= want);
    }

    /// Takes in the full state of a group: the group now owns the workers that
    /// the event shows, and the commands returned add the newcomers and
    /// remove the departers.
    pub fn observe(&mut self, group: &EndpointGroup, config: &K8sDiscoveryConfig) -> (r: Vec<DiscoveryCommand>)
        requires
            old(self).wf(),
        ensures
            final(self).wf(),
            final(self)@ == old(self)@.insert(group.name@, group_workers(*group, *config)),
            is_diff(r@, owned(old(self)@, group.name@), group_workers(*group, *config)),
    {
        let new_urls = group_urls(group, config);
        let found = self.find(&group.name);
        match found {
            Some(i) => {
                proof {
                    self.lemma_entry(i as int);
                }
                let cmds = diff_commands(&self.groups[i].urls, &new_urls);
                let entry = &mut self.groups[i];
                entry.urls = new_urls;
                proof {
                    Self::lemma_put(old(self), self, i as int, group.name@, group_workers(*group, *config));
                }
                cmds
            },
            None => {
                let nothing: Vec<String> = Vec::new();
                assert(nothing.deep_view() =~= Seq::<Seq<char>>::empty());
                assert(nothing.deep_view().to_set() =~= Set::<Seq<char>>::empty());
                let cmds = diff_commands(&nothing, &new_urls);
                self.groups.push(GroupState { name: group.name.clone(), urls: new_urls });
                proof {
                    Self::lemma_put(old(self), self, old(self).groups@.len() as int, group.name@, group_workers(*group, *config));
                }
                cmds
            },
        }
    }

    /// Takes in that a group is gone: the state knows it no more, and the
    /// commands returned remove every worker that it owned.
    pub fn forget(&mut self, name: &str) -> (r: Vec<DiscoveryCommand>)
        requires
            old(self).wf(),
        ensures
            final(self).wf(),
            final(self)@ == old(self)@.remove(name@),
            is_diff(r@, owned(old(self)@, name@), Set::empty()),
    {
        let key = name.to_owned();
        let nothing: Vec<String> = Vec::new();
        assert(nothing.deep_view() =~= Seq::<Seq<char>>::empty());
        assert(nothing.deep_view().to_set() =~= Set::<Seq<char>>::empty());
        match self.find(&key) {
            None => {
                let cmds = diff_commands(&nothing, &nothing);
                assert(self@ =~= old(self)@.remove(name@));
                cmds
            },
            Some(i) => {
                proof {
                    self.lemma_entry(i as int);
                }
                let gone = self.groups.remove(i);
                let cmds = diff_commands(&gone.urls, &nothing);
                proof {
                    let before = old(self).groups@;
                    let after = self.groups@;
                    let want = old(self)@.remove(name@);
                    assert forall|j: int| 0 <= j < after.len() implies #[trigger] after[j] == before[if j < i { j } else { j + 1 }] by {}
                    assert(self.wf()) by {
                        assert forall|x: int, y: int| 0 <= x < y < after.len() implies #[trigger] after[x].name@ != #[trigger] after[y].name@ by {
                            let x0 = if x < i { x } else { x + 1 };
                            let y0 = if y < i { y } else { y + 1 };
                            assert(before[x0].name@ != before[y0].name@);
                        }
                        assert forall|x: int| 0 <= x < after.len() implies (#[trigger] after[x]).urls.deep_view().no_duplicates() by {
                            let x0 = if x < i { x } else { x + 1 };
                            assert(before[x0].urls.deep_view().no_duplicates());
                        }
                    }
                    assert forall|n: Seq<char>| #[trigger] self@.contains_key(n) == want.contains_key(n) by {
                        if self@.contains_key(n) {
                            let j = Self::place(after, n);
                            let j0 = if j < i { j } else { j + 1 };
                            assert(before[j0].name@ == n);
                            if j0 < i {
                                assert(before[j0].name@ != before[i as int].name@);
                            } else {
                                assert(before[i as int].name@ != before[j0].name@);
                            }
                        }
                        if old(self)@.contains_key(n) && n != name@ {
                            let j = Self::place(before, n);
                            let j1 = if j < i { j } else { j - 1 };
                            assert(after[j1].name@ == n);
                        }
                    }
                    assert forall|n: Seq<char>| self@.contains_key(n) implies #[trigger] self@[n] == want[n] by {
                        let j = Self::place(after, n);
                        let j0 = if j < i { j } else { j + 1 };
                        self.lemma_entry(j);
                        old(self).lemma_entry(j0);
                    }
                    assert(self@ =~= want);
                }
                cmds
            },
        }
    }
}


/// What the watch of the discovery source reports.
#[derive(Debug, Clone)]
pub enum WatchEvent {
    /// A group was added or modified; the event carries its full state.
    Applied(EndpointGroup),
    /// The group of this name was deleted.
    Deleted(String),
    /// A bookmark: nothing changed.
    Bookmark,
    /// The source reported an error; the watch goes on.
    Error,
}

/// The queue from discovery to the registry holds this many commands.
pub const COMMAND_QUEUE_CAPACITY: usize = 100;

/// Discovery starts again this many seconds after its watch ended or failed.
pub const RETRY_DELAY_SECS: u64 = 10;

/// How long to wait before discovery is started again: the retry delay,
/// whether the watch failed or ended by itself.
pub fn restart_delay_secs(failed: bool) -> (r: u64)
    ensures
        r == RETRY_DELAY_SECS,
{
    RETRY_DELAY_SECS
}

impl EndpointState {
    /// Takes in one watch event and returns the commands that follow from
    /// it: those of `observe` for a group that was added or modified, those
    /// of `forget` for one that was deleted, none for anything else.
    pub fn handle(&mut self, event: &WatchEvent, config: &K8sDiscoveryConfig) -> (r: Vec<DiscoveryCommand>)
        requires
            old(self).wf(),
        ensures
            final(self).wf(),
            match *event {
                WatchEvent::Applied(group) => {
                    &&& final(self)@ == old(self)@.insert(group.name@, group_workers(group, *config))
                    &&& is_diff(r@, owned(old(self)@, group.name@), group_workers(group, *config))
                },
                WatchEvent::Deleted(name) => {
                    &&& final(self)@ == old(self)@.remove(name@)
                    &&& is_diff(r@, owned(old(self)@, name@), Set::empty())
                },
                _ => final(self)@ == old(self)@ && r@.len() == 0,
            },
    {
        match event {
            WatchEvent::Applied(group) => self.observe(group, config),
            WatchEvent::Deleted(name) => self.forget(name.as_str()),
            WatchEvent::Bookmark => Vec::new(),
            WatchEvent::Error => Vec::new(),
        }
    }
}

impl K8sDiscoveryConfig {
    /// The configuration with the given values, and with the defaults where
    /// none is given: the label selector `sgl-role=llm-worker`, no port
    /// name, the scheme `http` and an empty path.
    pub fn from_overrides(
        label_selector: Option<String>,
        port_name: Option<String>,
        protocol: Option<String>,
        worker_path: Option<String>,
    ) -> (r: K8sDiscoveryConfig)
        ensures
            r.label_selector@ == match label_selector {
                Some(l) => l@,
                None => "sgl-role=llm-worker"@,
            },
            r.port_name == port_name,
            r.protocol@ == match protocol {
                Some(p) => p@,
                None => "http"@,
            },
            r.worker_path@ == match worker_path {
                Some(p) => p@,
                None => Seq::<char>::empty(),
            },
    {
        K8sDiscoveryConfig {
            label_selector: match label_selector {
                Some(l) => l,
                None => "sgl-role=llm-worker".to_owned(),
            },
            port_name,
            protocol: match protocol {
                Some(p) => p,
                None => "http".to_owned(),
            },
            worker_path: match worker_path {
                Some(p) => p,
                None => String::new(),
            },
        }
    }
}

impl Default for K8sDiscoveryConfig {
    /// The configuration in which nothing is overridden.
    fn default() -> (r: K8sDiscoveryConfig)
        ensures
            r.label_selector@ == "sgl-role=llm-worker"@,
            r.port_name is None,
            r.protocol@ == "http"@,
            r.worker_path@ == Seq::<char>::empty(),
    {
        K8sDiscoveryConfig::from_overrides(None, None, None, None)
    }
}

impl K8sDiscoveryError {
    /// The error in words.
    pub fn message(&self) -> (r: String)
        ensures
            r@ == match *self {
                K8sDiscoveryError::KubeError(m) => "Kubernetes client error: "@ + m@,
                K8sDiscoveryError::WatchError(m) => "Failed to watch Kubernetes endpoints: "@ + m@,
                K8sDiscoveryError::ConfigError(m) => "Configuration error: "@ + m@,
            },
    {
        match self {
            K8sDiscoveryError::KubeError(m) => {
                let mut out = "Kubernetes client error: ".to_owned();
                out.append(m.as_str());
                out
            },
            K8sDiscoveryError::WatchError(m) => {
                let mut out = "Failed to watch Kubernetes endpoints: ".to_owned();
                out.append(m.as_str());
                out
            },
            K8sDiscoveryError::ConfigError(m) => {
                let mut out = "Configuration error: ".to_owned();
                out.append(m.as_str());
                out
            },
        }
    }
}

} // verus!
