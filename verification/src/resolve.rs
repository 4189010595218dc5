//! Graph resolution: turns a raw, possibly self-referential topology
//! snapshot into a flat, latency-annotated view.
//!
//! The latency of a node is its most recent own measurement; a group with no
//! measurements borrows the latency of its active member (`now`), following
//! such pointers recursively. A dangling pointer, a missing history or a
//! cyclic `now` chain all degrade to an absent ("unknown") latency; the
//! recursion is guarded by a visited-name set, so a cycle is detected rather
//! than followed forever.

use vstd::prelude::*;
use vstd::multiset::Multiset;

use crate::data::HistoryEntry;
use crate::data::Provider;
use crate::data::ProxyEntryRaw;
use crate::data::ProxyGroupRaw;
use crate::data::ProxyRaw;
use crate::data::ProxyType;
use crate::data::Root;
use crate::data::last_delay;
use crate::data::lemma_lookup_in_name_set;
use crate::data::lemma_lookup_index;
use crate::data::lookup;
use crate::data::name_set;
use crate::data::unique_names;
use crate::name_order::lemma_name_le_total;
use crate::name_order::lemma_name_le_trans;
use crate::name_order::name_le;
use crate::name_order::name_le_exec;

verus! {

/// A flattened, latency-annotated view of one node: what a member list shows.
#[derive(Debug, Clone)]
pub struct SelectableProxy {
    pub name: String,
    pub udp: bool,
    pub proxy_type: ProxyType,
    pub latency: Option<u64>,
}

impl SelectableProxy {
    /// A copy that is equal to the original, field by field.
    pub fn duplicate(&self) -> (r: Self)
        ensures
            r == *self,
    {
        SelectableProxy {
            name: self.name.clone(),
            udp: self.udp,
            proxy_type: self.proxy_type,
            latency: self.latency,
        }
    }
}

/// A resolved group: its own annotation plus one resolved entry per member,
/// in the group's declared member order.
#[derive(Debug, Clone)]
pub struct ProxyGroup {
    pub name: String,
    pub now: Option<String>,
    pub proxy_type: ProxyType,
    pub udp: bool,
    pub latency: Option<u64>,
    pub proxies: Vec<SelectableProxy>,
}

/// The latency rule, guarded by a visited-name set: a visited name ends the
/// walk with "unknown", a recorded history wins, and otherwise a group
/// follows its `now` pointer.
pub open spec fn resolve_latency(
    t: Seq<(String, ProxyEntryRaw)>,
    name: Seq<char>,
    visited: Set<Seq<char>>,
) -> Option<u64>
    decreases name_set(t).difference(visited).len(),
        when visited.finite()
        via resolve_latency_decreases
{
    if visited.contains(name) {
        None
    } else {
        match lookup(t, name) {
            Option::None => None,
            Option::Some(e) => match e {
                ProxyEntryRaw::Proxy(p) => last_delay(p.history@),
                ProxyEntryRaw::Group(g) => {
                    if g.history@.len() > 0 {
                        last_delay(g.history@)
                    } else {
                        match g.now {
                            Option::None => None,
                            Option::Some(now) => resolve_latency(t, now@, visited.insert(name)),
                        }
                    }
                },
            },
        }
    }
}

/// Visiting one more unvisited name of the snapshot shrinks the measure.
proof fn lemma_visit_decreases(
    t: Seq<(String, ProxyEntryRaw)>,
    name: Seq<char>,
    visited: Set<Seq<char>>,
)
    requires
        visited.finite(),
        name_set(t).contains(name),
        !visited.contains(name),
    ensures
        name_set(t).difference(visited.insert(name)).len() < name_set(t).difference(
            visited,
        ).len(),
{
    broadcast use vstd::seq_lib::seq_to_set_is_finite;
    broadcast use vstd::set::axiom_set_difference_finite;
    broadcast use vstd::set::axiom_set_remove_len;

    assert(name_set(t).difference(visited.insert(name)) =~= name_set(t).difference(
        visited,
    ).remove(name));
    assert(name_set(t).difference(visited).contains(name));
}

#[via_fn]
proof fn resolve_latency_decreases(
    t: Seq<(String, ProxyEntryRaw)>,
    name: Seq<char>,
    visited: Set<Seq<char>>,
)
{
    if !visited.contains(name) && lookup(t, name) is Some {
        lemma_lookup_in_name_set(t, name);
        lemma_visit_decreases(t, name, visited);
    }
}

/// The resolved latency of a node: the latency rule started with nothing
/// visited.
pub open spec fn node_latency(t: Seq<(String, ProxyEntryRaw)>, name: Seq<char>) -> Option<u64> {
    resolve_latency(t, name, Set::empty())
}

/// The latency rule as the memoized pass computes it: a name already in the
/// cache is answered from the cache instead of being walked again.
pub open spec fn cached_latency(
    t: Seq<(String, ProxyEntryRaw)>,
    cache: Map<Seq<char>, SelectableProxy>,
    name: Seq<char>,
    visited: Set<Seq<char>>,
) -> Option<u64>
    decreases name_set(t).difference(visited).len(),
        when visited.finite()
        via cached_latency_decreases
{
    if visited.contains(name) {
        None
    } else if cache.dom().contains(name) {
        cache[name].latency
    } else {
        match lookup(t, name) {
            Option::None => None,
            Option::Some(e) => match e {
                ProxyEntryRaw::Proxy(p) => last_delay(p.history@),
                ProxyEntryRaw::Group(g) => {
                    if g.history@.len() > 0 {
                        last_delay(g.history@)
                    } else {
                        match g.now {
                            Option::None => None,
                            Option::Some(now) => cached_latency(
                                t,
                                cache,
                                now@,
                                visited.insert(name),
                            ),
                        }
                    }
                },
            },
        }
    }
}

#[via_fn]
proof fn cached_latency_decreases(
    t: Seq<(String, ProxyEntryRaw)>,
    cache: Map<Seq<char>, SelectableProxy>,
    name: Seq<char>,
    visited: Set<Seq<char>>,
)
{
    if !visited.contains(name) && lookup(t, name) is Some {
        lemma_lookup_in_name_set(t, name);
        lemma_visit_decreases(t, name, visited);
    }
}

/// The views of a sequence of names, as a set.
pub open spec fn str_views(s: Seq<String>) -> Set<Seq<char>> {
    s.map_values(|q: String| q@).to_set()
}

/// Appending one name adds exactly its view to the set.
proof fn lemma_str_views_push(s: Seq<String>, x: String)
    ensures
        str_views(s.push(x)) =~= str_views(s).insert(x@),
{
    let f = |q: String| q@;
    let big = s.push(x).map_values(f);
    let small = s.map_values(f);
    assert(big =~= small.push(x@));
    assert forall|n: Seq<char>| #[trigger] big.to_set().contains(n) implies small.to_set().insert(
        x@,
    ).contains(n) by {
        let i = choose|i: int| 0 <= i < big.len() && big[i] == n;
        if i < small.len() {
            assert(small[i] == n);
        }
    }
    assert forall|n: Seq<char>| #[trigger] small.to_set().insert(x@).contains(n) implies big
        .to_set().contains(n) by {
        if n == x@ {
            assert(big[big.len() - 1] == n);
        } else {
            let i = choose|i: int| 0 <= i < small.len() && small[i] == n;
            assert(big[i] == n);
        }
    }
}

/// Whether a name of the list has the given view.
spec fn has_entry_name(s: Seq<(String, SelectableProxy)>, n: Seq<char>) -> bool {
    exists|i: int| 0 <= i < s.len() && s[i].0@ == n
}

/// One resolved entry per distinct name.
pub open spec fn unique_entry_names(s: Seq<(String, SelectableProxy)>) -> bool {
    forall|i: int, j: int| 0 <= i < j < s.len() ==> s[i].0@ != s[j].0@
}

/// The map an entry list stands for: each name to its entry.
pub open spec fn entries_map(s: Seq<(String, SelectableProxy)>) -> Map<Seq<char>, SelectableProxy>
    decreases s.len(),
{
    if s.len() == 0 {
        Map::empty()
    } else {
        entries_map(s.drop_last()).insert(s.last().0@, s.last().1)
    }
}

proof fn lemma_entries_map_contains(s: Seq<(String, SelectableProxy)>, n: Seq<char>)
    ensures
        entries_map(s).dom().contains(n) == has_entry_name(s, n),
    decreases s.len(),
{
    if s.len() > 0 {
        lemma_entries_map_contains(s.drop_last(), n);
        if s.last().0@ == n {
            assert(s[s.len() - 1].0@ == n);
        } else {
            if has_entry_name(s.drop_last(), n) {
                let i = choose|i: int|
                    0 <= i < s.drop_last().len() && s.drop_last()[i].0@ == n;
                assert(s[i].0@ == n);
            }
            if has_entry_name(s, n) {
                let i = choose|i: int| 0 <= i < s.len() && s[i].0@ == n;
                assert(s.drop_last()[i].0@ == n);
            }
        }
    }
}

proof fn lemma_entries_map_index(s: Seq<(String, SelectableProxy)>, i: int)
    requires
        unique_entry_names(s),
        0 <= i < s.len(),
    ensures
        entries_map(s).dom().contains(s[i].0@),
        entries_map(s)[s[i].0@] == s[i].1,
    decreases s.len(),
{
    if i < s.len() - 1 {
        let rest = s.drop_last();
        assert(forall|k: int| 0 <= k < rest.len() ==> rest[k] == s[k]);
        lemma_entries_map_index(rest, i);
    }
}

/// Per-pass memo of resolved entries, keyed by node name; it keeps the
/// first entry recorded for a name.
#[derive(Debug)]
pub struct ProxyCache {
    entries: Vec<(String, SelectableProxy)>,
}

impl View for ProxyCache {
    type V = Map<Seq<char>, SelectableProxy>;

    closed spec fn view(&self) -> Map<Seq<char>, SelectableProxy> {
        entries_map(self.entries@)
    }
}

impl ProxyCache {
    /// The cache invariant: one entry per name. Constructors establish it
    /// and the methods keep it.
    pub closed spec fn wf(self) -> bool {
        unique_entry_names(self.entries@)
    }

    pub fn new() -> (r: Self)
        ensures
            r.wf(),
            r@ == Map::<Seq<char>, SelectableProxy>::empty(),
    {
        ProxyCache { entries: Vec::new() }
    }

    /// The entry recorded under `name`, if any.
    pub fn get(&self, name: &String) -> (r: Option<&SelectableProxy>)
        requires
            self.wf(),
        ensures
            match r {
                Option::Some(p) => self@.dom().contains(name@) && *p == self@[name@],
                Option::None => !self@.dom().contains(name@),
            },
    {
        let mut i: usize = 0;
        while i < self.entries.len()
            invariant
                self.wf(),
                i <= self.entries@.len(),
                forall|k: int| 0 <= k < i ==> self.entries@[k].0@ != name@,
            decreases self.entries@.len() - i,
        {
            if self.entries[i].0.eq(name) {
                proof {
                    lemma_entries_map_index(self.entries@, i as int);
                }
                return Some(&self.entries[i].1);
            }
            i = i + 1;
        }
        proof {
            lemma_entries_map_contains(self.entries@, name@);
        }
        None
    }

    /// Records an entry for a name not yet present; a present name keeps its
    /// first entry.
    pub fn insert(&mut self, name: String, p: SelectableProxy)
        requires
            old(self).wf(),
        ensures
            final(self).wf(),
            final(self)@ == if old(self)@.dom().contains(name@) {
                old(self)@
            } else {
                old(self)@.insert(name@, p)
            },
    {
        let mut i: usize = 0;
        while i < self.entries.len()
            invariant
                self.wf(),
                *self == *old(self),
                i <= self.entries@.len(),
                forall|k: int| 0 <= k < i ==> self.entries@[k].0@ != name@,
            decreases self.entries@.len() - i,
        {
            if self.entries[i].0.eq(&name) {
                proof {
                    lemma_entries_map_contains(self.entries@, name@);
                }
                return ;
            }
            i = i + 1;
        }
        proof {
            lemma_entries_map_contains(self.entries@, name@);
        }
        let ghost pre = self.entries@;
        self.entries.push((name, p));
        proof {
            assert(self.entries@.drop_last() =~= pre);
        }
    }
}

/// The node stored under `name`, if any.
fn lookup_entry<'a>(t: &'a Vec<(String, ProxyEntryRaw)>, name: &String) -> (r: Option<
    &'a ProxyEntryRaw,
>)
    ensures
        match r {
            Option::Some(e) => lookup(t@, name@) == Some(*e),
            Option::None => lookup(t@, name@) is None,
        },
{
    let mut i: usize = 0;
    proof {
        assert(t@.skip(0) =~= t@);
    }
    while i < t.len()
        invariant
            i <= t@.len(),
            lookup(t@, name@) == lookup(t@.skip(i as int), name@),
        decreases t@.len() - i,
    {
        proof {
            assert(t@.skip(i as int)[0] == t@[i as int]);
        }
        if t[i].0.eq(name) {
            return Some(&t[i].1);
        }
        proof {
            assert(t@.skip(i as int).drop_first() =~= t@.skip(i as int + 1));
        }
        i = i + 1;
    }
    None
}

/// Whether a name was already walked through.
fn contains_name(v: &Vec<String>, name: &String) -> (r: bool)
    ensures
        r == str_views(v@).contains(name@),
{
    let mut i: usize = 0;
    while i < v.len()
        invariant
            i <= v@.len(),
            forall|k: int| 0 <= k < i ==> v@[k]@ != name@,
        decreases v@.len() - i,
    {
        if v[i].eq(name) {
            proof {
                assert(v@.map_values(|q: String| q@)[i as int] == name@);
            }
            return true;
        }
        i = i + 1;
    }
    proof {
        if str_views(v@).contains(name@) {
            let f = |q: String| q@;
            let j = choose|j: int| 0 <= j < v@.map_values(f).len() && v@.map_values(f)[j] == name@;
            assert(v@[j]@ == name@);
        }
    }
    false
}

/// The most recent measurement of a history.
fn last_delay_exec(h: &Vec<HistoryEntry>) -> (r: Option<u64>)
    ensures
        r == last_delay(h@),
{
    if h.len() > 0 {
        Some(h[h.len() - 1].delay)
    } else {
        None
    }
}

/// The memoized latency walk from one name: answers from the cache where it
/// can, walks `now` pointers where it must, and gives up on a repeat visit.
fn find_latency(root: &Root, cache: &ProxyCache, name: &String) -> (r: Option<u64>)
    requires
        cache.wf(),
    ensures
        r == cached_latency(root.proxies@, cache@, name@, Set::empty()),
{
    let ghost t = root.proxies@;
    let mut visited: Vec<String> = Vec::new();
    let mut cur: String = name.clone();
    proof {
        assert(str_views(visited@) =~= Set::<Seq<char>>::empty());
    }
    loop
        invariant
            cache.wf(),
            t == root.proxies@,
            cached_latency(t, cache@, name@, Set::empty()) == cached_latency(
                t,
                cache@,
                cur@,
                str_views(visited@),
            ),
        decreases name_set(t).difference(str_views(visited@)).len(),
    {
        broadcast use vstd::seq_lib::seq_to_set_is_finite;

        let ghost vs = str_views(visited@);
        if contains_name(&visited, &cur) {
            return None;
        }
        if let Option::Some(p) = cache.get(&cur) {
            return p.latency;
        }
        match lookup_entry(&root.proxies, &cur) {
            Option::None => {
                return None;
            },
            Option::Some(entry) => match entry {
                ProxyEntryRaw::Proxy(p) => {
                    return last_delay_exec(&p.history);
                },
                ProxyEntryRaw::Group(g) => {
                    if g.history.len() > 0 {
                        return last_delay_exec(&g.history);
                    }
                    match &g.now {
                        Option::None => {
                            return None;
                        },
                        Option::Some(n) => {
                            let next = n.clone();
                            proof {
                                lemma_lookup_in_name_set(t, cur@);
                                lemma_visit_decreases(t, cur@, vs);
                                lemma_str_views_push(visited@, cur);
                                assert(cached_latency(t, cache@, cur@, vs) == cached_latency(
                                    t,
                                    cache@,
                                    next@,
                                    vs.insert(cur@),
                                ));
                            }
                            visited.push(cur);
                            cur = next;
                        },
                    }
                },
            },
        }
    }
}

impl SelectableProxy {
    /// Resolves one group against a snapshot: a cached entry is returned as
    /// it is; otherwise the group's annotation is built and its latency is
    /// attributed by the memoized rule.
    pub fn from_group(group: &ProxyGroupRaw, root: &Root, cache: &ProxyCache) -> (r: Self)
        requires
            cache.wf(),
        ensures
            cache@.dom().contains(group.name@) ==> r == cache@[group.name@],
            !cache@.dom().contains(group.name@) ==> {
                &&& r.name@ == group.name@
                &&& r.udp == group.udp
                &&& r.proxy_type == group.typ
                &&& r.latency == group_latency(root.proxies@, cache@, *group)
            },
    {
        let name = group.name.clone();
        if let Option::Some(p) = cache.get(&name) {
            return p.duplicate();
        }
        let latency = if group.history.len() > 0 {
            last_delay_exec(&group.history)
        } else {
            match &group.now {
                Option::Some(n) => find_latency(root, cache, n),
                Option::None => None,
            }
        };
        SelectableProxy { name, udp: group.udp, proxy_type: group.typ, latency }
    }

    /// Resolves one single proxy against the cache: a cached entry is
    /// returned as it is; otherwise its own history decides.
    pub fn from_proxy(proxy: &ProxyRaw, cache: &ProxyCache) -> (r: Self)
        requires
            cache.wf(),
        ensures
            cache@.dom().contains(proxy.name@) ==> r == cache@[proxy.name@],
            !cache@.dom().contains(proxy.name@) ==> {
                &&& r.name@ == proxy.name@
                &&& r.udp == proxy.udp
                &&& r.proxy_type == proxy.typ
                &&& r.latency == last_delay(proxy.history@)
            },
    {
        let name = proxy.name.clone();
        if let Option::Some(p) = cache.get(&name) {
            return p.duplicate();
        }
        let latency = last_delay_exec(&proxy.history);
        SelectableProxy { name, udp: proxy.udp, proxy_type: proxy.typ, latency }
    }

    /// Resolves one single proxy from its own history alone.
    pub fn from_proxy_without_cache(proxy: &ProxyRaw) -> (r: Self)
        ensures
            r.name@ == proxy.name@,
            r.udp == proxy.udp,
            r.proxy_type == proxy.typ,
            r.latency == last_delay(proxy.history@),
    {
        let name = proxy.name.clone();
        let latency = last_delay_exec(&proxy.history);
        SelectableProxy { name, udp: proxy.udp, proxy_type: proxy.typ, latency }
    }
}

/// A hop of a latency walk: a group with no history of its own and an
/// active-member pointer to follow.
pub open spec fn is_walk_node(t: Seq<(String, ProxyEntryRaw)>, v: Seq<char>) -> bool {
    match lookup(t, v) {
        Option::Some(e) => match e {
            ProxyEntryRaw::Group(g) => g.history@.len() == 0 && g.now is Some,
            ProxyEntryRaw::Proxy(_) => false,
        },
        Option::None => false,
    }
}

/// Where the hop leads.
pub open spec fn walk_next(t: Seq<(String, ProxyEntryRaw)>, v: Seq<char>) -> Seq<char>
    recommends
        is_walk_node(t, v),
{
    match lookup(t, v) {
        Option::Some(e) => match e {
            ProxyEntryRaw::Group(g) => match g.now {
                Option::Some(n) => n@,
                Option::None => Seq::empty(),
            },
            ProxyEntryRaw::Proxy(_) => Seq::empty(),
        },
        Option::None => Seq::empty(),
    }
}

/// One unfolding of the latency rule at a hop.
proof fn lemma_walk_step(t: Seq<(String, ProxyEntryRaw)>, v: Seq<char>, w: Set<Seq<char>>)
    requires
        w.finite(),
        !w.contains(v),
        is_walk_node(t, v),
    ensures
        resolve_latency(t, v, w) == resolve_latency(t, walk_next(t, v), w.insert(v)),
{
}

/// One unfolding of the memoized rule at an uncached hop.
proof fn lemma_cached_walk_step(
    t: Seq<(String, ProxyEntryRaw)>,
    cache: Map<Seq<char>, SelectableProxy>,
    v: Seq<char>,
    w: Set<Seq<char>>,
)
    requires
        w.finite(),
        !w.contains(v),
        !cache.dom().contains(v),
        is_walk_node(t, v),
    ensures
        cached_latency(t, cache, v, w) == cached_latency(t, cache, walk_next(t, v), w.insert(v)),
{
}

/// A walk that can only move inside a set of history-less groups never finds
/// a measurement: it ends on a repeat visit, hence "unknown".
proof fn lemma_closed_walk_none(
    t: Seq<(String, ProxyEntryRaw)>,
    y: Seq<char>,
    w: Set<Seq<char>>,
    s: Set<Seq<char>>,
)
    requires
        w.finite(),
        s.contains(y),
        forall|v: Seq<char>| #[trigger] s.contains(v) ==> is_walk_node(t, v) && s.union(
            w,
        ).contains(walk_next(t, v)),
    ensures
        resolve_latency(t, y, w) == None::<u64>,
    decreases name_set(t).difference(w).len(),
{
    if !w.contains(y) {
        let n = walk_next(t, y);
        lemma_lookup_in_name_set(t, y);
        lemma_visit_decreases(t, y, w);
        lemma_walk_step(t, y, w);
        if w.insert(y).contains(n) {
            assert(resolve_latency(t, n, w.insert(y)) == None::<u64>);
        } else {
            assert(s.union(w).contains(n));
            assert(s.contains(n));
            lemma_closed_walk_none(t, n, w.insert(y), s);
        }
    }
}

/// Names already visited make no difference when every extra one is a hop
/// whose pointer stays among the visited names (or at the walk's head):
/// if the walk from `name` meets one of them, it is trapped in a loop of
/// history-less groups either way.
proof fn lemma_resolve_extra_visited(
    t: Seq<(String, ProxyEntryRaw)>,
    name: Seq<char>,
    big: Set<Seq<char>>,
    small: Set<Seq<char>>,
)
    requires
        big.finite(),
        small.finite(),
        small.subset_of(big),
        !big.contains(name),
        forall|v: Seq<char>| #[trigger] big.contains(v) && !small.contains(v) ==> is_walk_node(
            t,
            v,
        ) && big.insert(name).contains(walk_next(t, v)),
    ensures
        resolve_latency(t, name, big) == resolve_latency(t, name, small),
    decreases name_set(t).difference(big).len(),
{
    if is_walk_node(t, name) {
        let n = walk_next(t, name);
        lemma_walk_step(t, name, big);
        lemma_walk_step(t, name, small);
        if small.insert(name).contains(n) {
            assert(big.insert(name).contains(n));
            assert(resolve_latency(t, n, big.insert(name)) == None::<u64>);
            assert(resolve_latency(t, n, small.insert(name)) == None::<u64>);
        } else if big.contains(n) {
            assert(resolve_latency(t, n, big.insert(name)) == None::<u64>);
            let s = big.difference(small);
            assert(big.insert(name) =~= s.union(small.insert(name)));
            assert forall|v: Seq<char>| #[trigger] s.contains(v) implies is_walk_node(t, v)
                && s.union(small.insert(name)).contains(walk_next(t, v)) by {
                assert(big.contains(v) && !small.contains(v));
            }
            assert(s.contains(n));
            lemma_closed_walk_none(t, n, small.insert(name), s);
        } else {
            lemma_lookup_in_name_set(t, name);
            lemma_visit_decreases(t, name, big);
            assert(big.insert(name).difference(small.insert(name)) =~= big.difference(small));
            assert forall|v: Seq<char>|
                #[trigger] big.insert(name).contains(v) && !small.insert(name).contains(
                    v,
                ) implies is_walk_node(t, v) && big.insert(name).insert(n).contains(
                walk_next(t, v),
            ) by {
                assert(big.contains(v) && !small.contains(v));
            }
            lemma_resolve_extra_visited(t, n, big.insert(name), small.insert(name));
        }
    }
}

/// Every cached latency agrees with the unmemoized rule.
pub open spec fn cache_latencies_ok(
    t: Seq<(String, ProxyEntryRaw)>,
    cache: Map<Seq<char>, SelectableProxy>,
) -> bool {
    forall|n: Seq<char>| #[trigger] cache.dom().contains(n) ==> cache[n].latency == node_latency(
        t,
        n,
    )
}

/// Against a cache that agrees with the unmemoized rule, the memoized walk
/// computes exactly the unmemoized rule: the cache speeds the pass up, it
/// never changes a result.
proof fn lemma_cached_resolve(
    t: Seq<(String, ProxyEntryRaw)>,
    cache: Map<Seq<char>, SelectableProxy>,
    name: Seq<char>,
    visited: Set<Seq<char>>,
)
    requires
        visited.finite(),
        cache_latencies_ok(t, cache),
        forall|v: Seq<char>| #[trigger] visited.contains(v) ==> is_walk_node(t, v)
            && visited.insert(name).contains(walk_next(t, v)),
    ensures
        cached_latency(t, cache, name, visited) == resolve_latency(t, name, visited),
    decreases name_set(t).difference(visited).len(),
{
    if visited.contains(name) {
    } else if cache.dom().contains(name) {
        lemma_resolve_extra_visited(t, name, visited, Set::empty());
    } else if is_walk_node(t, name) {
        let n = walk_next(t, name);
        lemma_walk_step(t, name, visited);
        lemma_cached_walk_step(t, cache, name, visited);
        lemma_lookup_in_name_set(t, name);
        lemma_visit_decreases(t, name, visited);
        assert forall|v: Seq<char>| #[trigger] visited.insert(name).contains(v) implies
            is_walk_node(t, v) && visited.insert(name).insert(n).contains(walk_next(t, v)) by {
            if v == name {
            } else {
                assert(visited.contains(v));
            }
        }
        lemma_cached_resolve(t, cache, n, visited.insert(name));
    }
}

/// The memoized walk from any name equals the unmemoized rule, as long as
/// the cache holds only latencies the rule itself attributes: the cache
/// exists to avoid recomputation, never to change a result.
pub proof fn lemma_memo_sound(
    t: Seq<(String, ProxyEntryRaw)>,
    cache: Map<Seq<char>, SelectableProxy>,
    name: Seq<char>,
)
    requires
        cache_latencies_ok(t, cache),
    ensures
        cached_latency(t, cache, name, Set::empty()) == node_latency(t, name),
{
    lemma_cached_resolve(t, cache, name, Set::empty());
}

/// A leaf with recorded history resolves to its most recent measurement,
/// regardless of what references it via `now`.
pub proof fn lemma_leaf_latency(t: Seq<(String, ProxyEntryRaw)>, p: ProxyRaw, name: Seq<char>)
    requires
        lookup(t, name) == Some(ProxyEntryRaw::Proxy(p)),
        p.history@.len() > 0,
    ensures
        node_latency(t, name) == Some(p.history@.last().delay),
{
}

/// A group with recorded history resolves to its most recent measurement.
pub proof fn lemma_group_history_latency(
    t: Seq<(String, ProxyEntryRaw)>,
    g: ProxyGroupRaw,
    name: Seq<char>,
)
    requires
        lookup(t, name) == Some(ProxyEntryRaw::Group(g)),
        g.history@.len() > 0,
    ensures
        node_latency(t, name) == Some(g.history@.last().delay),
{
}

/// A group with no measurements of its own resolves to whatever its active
/// member resolves to.
pub proof fn lemma_group_follows_now(
    t: Seq<(String, ProxyEntryRaw)>,
    g: ProxyGroupRaw,
    name: Seq<char>,
    n: String,
)
    requires
        lookup(t, name) == Some(ProxyEntryRaw::Group(g)),
        g.history@.len() == 0,
        g.now == Some(n),
    ensures
        node_latency(t, name) == node_latency(t, n@),
{
    if n@ == name {
        assert(node_latency(t, name) == resolve_latency(t, n@, Set::empty().insert(name)));
        assert(resolve_latency(t, n@, Set::empty().insert(name)) == None::<u64>);
        assert(resolve_latency(t, name, Set::empty().insert(name)) == None::<u64>);
    } else {
        lemma_walk_step(t, name, Set::empty());
        lemma_resolve_extra_visited(t, n@, Set::empty().insert(name), Set::empty());
    }
}

/// A `now` pointer naming a node absent from the snapshot degrades to
/// unknown rather than an error.
pub proof fn lemma_dangling_now(
    t: Seq<(String, ProxyEntryRaw)>,
    g: ProxyGroupRaw,
    name: Seq<char>,
    n: String,
)
    requires
        lookup(t, name) == Some(ProxyEntryRaw::Group(g)),
        g.history@.len() == 0,
        g.now == Some(n),
        lookup(t, n@) is None,
    ensures
        node_latency(t, name) == None::<u64>,
{
    assert(node_latency(t, name) == resolve_latency(t, n@, Set::empty().insert(name)));
}

/// A group with no measurements and no active member is unknown.
pub proof fn lemma_group_unknown(
    t: Seq<(String, ProxyEntryRaw)>,
    g: ProxyGroupRaw,
    name: Seq<char>,
)
    requires
        lookup(t, name) == Some(ProxyEntryRaw::Group(g)),
        g.history@.len() == 0,
        g.now is None,
    ensures
        node_latency(t, name) == None::<u64>,
{
}

/// Whether an entry is stored under the node's own name.
pub open spec fn entry_own_name(p: (String, ProxyEntryRaw)) -> bool {
    match p.1 {
        ProxyEntryRaw::Group(g) => g.name@ == p.0@,
        ProxyEntryRaw::Proxy(x) => x.name@ == p.0@,
    }
}

/// Snapshot well-formedness: names unique, each node under its own name.
pub open spec fn wf_snapshot(t: Seq<(String, ProxyEntryRaw)>) -> bool {
    &&& unique_names(t)
    &&& forall|i: int| 0 <= i < t.len() ==> entry_own_name(#[trigger] t[i])
}

/// The fields a resolved entry must carry for a member name: the node's own
/// tags and the latency the rule attributes; a name absent from the snapshot
/// yields a placeholder with no capabilities and no latency.
pub open spec fn is_entry_for(
    t: Seq<(String, ProxyEntryRaw)>,
    m: Seq<char>,
    p: SelectableProxy,
) -> bool {
    &&& p.name@ == m
    &&& p.latency == node_latency(t, m)
    &&& match lookup(t, m) {
        Option::Some(e) => match e {
            ProxyEntryRaw::Group(g) => p.udp == g.udp && p.proxy_type == g.typ,
            ProxyEntryRaw::Proxy(x) => p.udp == x.udp && p.proxy_type == x.typ,
        },
        Option::None => p.udp == false && p.proxy_type == ProxyType::Compatible,
    }
}

/// Equality of optional names, at the view level.
pub open spec fn opt_name_eq(a: Option<String>, b: Option<String>) -> bool {
    match (a, b) {
        (Option::Some(x), Option::Some(y)) => x@ == y@,
        (Option::None, Option::None) => true,
        _ => false,
    }
}

/// A faithful resolution of one raw group: the group's own annotation, the
/// rule's latency, and one resolved entry per member in declared order.
pub open spec fn is_resolved_group(
    t: Seq<(String, ProxyEntryRaw)>,
    g: ProxyGroupRaw,
    r: ProxyGroup,
) -> bool {
    &&& r.name@ == g.name@
    &&& opt_name_eq(r.now, g.now)
    &&& r.proxy_type == g.typ
    &&& r.udp == g.udp
    &&& r.latency == node_latency(t, g.name@)
    &&& r.proxies@.len() == g.all@.len()
    &&& forall|i: int|
        0 <= i < g.all@.len() ==> is_entry_for(t, g.all@[i]@, #[trigger] r.proxies@[i])
}

/// An output group is the faithful resolution of the snapshot node under its
/// name.
pub open spec fn resolved_group_ok(t: Seq<(String, ProxyEntryRaw)>, r: ProxyGroup) -> bool {
    match lookup(t, r.name@) {
        Option::Some(e) => match e {
            ProxyEntryRaw::Group(g) => is_resolved_group(t, g, r),
            ProxyEntryRaw::Proxy(_) => false,
        },
        Option::None => false,
    }
}

/// The names of the group nodes, in snapshot order.
pub open spec fn group_keys(t: Seq<(String, ProxyEntryRaw)>) -> Seq<Seq<char>>
    decreases t.len(),
{
    if t.len() == 0 {
        Seq::empty()
    } else {
        let rest = group_keys(t.drop_last());
        match t.last().1 {
            ProxyEntryRaw::Group(_) => rest.push(t.last().0@),
            ProxyEntryRaw::Proxy(_) => rest,
        }
    }
}

/// The name view of a group, for name-level statements about group lists.
pub open spec fn group_name_fn() -> spec_fn(ProxyGroup) -> Seq<char> {
    |g: ProxyGroup| g.name@
}

/// The resolved entry for one member name: the cached entry, or a
/// placeholder for a name absent from the snapshot.
fn member_entry(cache: &ProxyCache, m: &String) -> (r: SelectableProxy)
    requires
        cache.wf(),
    ensures
        cache@.dom().contains(m@) ==> r == cache@[m@],
        !cache@.dom().contains(m@) ==> r.name@ == m@ && r.udp == false && r.proxy_type
            == ProxyType::Compatible && r.latency is None,
{
    match cache.get(m) {
        Option::Some(p) => p.duplicate(),
        Option::None => SelectableProxy {
            name: m.clone(),
            udp: false,
            proxy_type: ProxyType::Compatible,
            latency: None,
        },
    }
}

/// Orders resolved groups case-insensitively by name; the collection of
/// groups is otherwise unchanged.
fn sort_groups(v: Vec<ProxyGroup>) -> (r: Vec<ProxyGroup>)
    ensures
        r@.to_multiset() == v@.to_multiset(),
        r@.map_values(group_name_fn()).to_multiset() == v@.map_values(
            group_name_fn(),
        ).to_multiset(),
        forall|i: int, j: int| 0 <= i < j < r@.len() ==> name_le(r@[i].name@, r@[j].name@),
{
    broadcast use vstd::seq_lib::group_to_multiset_ensures;

    let mut rest = v;
    let mut out: Vec<ProxyGroup> = Vec::new();
    proof {
        assert(out@.to_multiset().add(rest@.to_multiset()) =~= rest@.to_multiset());
        assert(out@.map_values(group_name_fn()).to_multiset().add(
            rest@.map_values(group_name_fn()).to_multiset(),
        ) =~= rest@.map_values(group_name_fn()).to_multiset());
    }
    while rest.len() > 0
        invariant
            out@.to_multiset().add(rest@.to_multiset()) == v@.to_multiset(),
            out@.map_values(group_name_fn()).to_multiset().add(
                rest@.map_values(group_name_fn()).to_multiset(),
            ) == v@.map_values(group_name_fn()).to_multiset(),
            forall|i: int, j: int|
                0 <= i < j < out@.len() ==> name_le(out@[i].name@, out@[j].name@),
            forall|i: int, j: int|
                0 <= i < out@.len() && 0 <= j < rest@.len() ==> name_le(
                    out@[i].name@,
                    rest@[j].name@,
                ),
        decreases rest@.len(),
    {
        let mut mi: usize = 0;
        let mut k: usize = 1;
        proof {
            lemma_name_le_total(rest@[0].name@, rest@[0].name@);
        }
        while k < rest.len()
            invariant
                0 < rest@.len(),
                mi < k,
                k <= rest@.len(),
                forall|j: int| 0 <= j < k ==> name_le(rest@[mi as int].name@, rest@[j].name@),
            decreases rest@.len() - k,
        {
            proof {
                lemma_name_le_total(rest@[mi as int].name@, rest@[mi as int].name@);
            }
            if name_le_exec(rest[k].name.as_str(), rest[mi].name.as_str()) {
                proof {
                    lemma_name_le_total(rest@[k as int].name@, rest@[k as int].name@);
                    assert forall|j: int| 0 <= j < k + 1 implies name_le(
                        rest@[k as int].name@,
                        rest@[j].name@,
                    ) by {
                        if j < k {
                            lemma_name_le_trans(
                                rest@[k as int].name@,
                                rest@[mi as int].name@,
                                rest@[j].name@,
                            );
                        }
                    }
                }
                mi = k;
            } else {
                proof {
                    lemma_name_le_total(rest@[mi as int].name@, rest@[k as int].name@);
                }
            }
            k = k + 1;
        }
        let ghost pre_rest = rest@;
        let ghost pre_out = out@;
        let m = rest.remove(mi);
        out.push(m);
        proof {
            assert(out@ == pre_out.push(m));
            assert(rest@ == pre_rest.remove(mi as int));
            assert(out@.map_values(group_name_fn()) =~= pre_out.map_values(
                group_name_fn(),
            ).push(m.name@));
            assert(rest@.map_values(group_name_fn()) =~= pre_rest.map_values(
                group_name_fn(),
            ).remove(mi as int));
            assert(pre_rest.map_values(group_name_fn())[mi as int] == m.name@);
            pre_out.to_multiset_ensures();
            pre_rest.to_multiset_ensures();
            pre_out.map_values(group_name_fn()).to_multiset_ensures();
            pre_rest.map_values(group_name_fn()).to_multiset_ensures();
            assert(pre_rest.contains(m));
            assert(pre_rest.to_multiset().count(m) > 0);
            assert(out@.to_multiset() =~= pre_out.to_multiset().insert(m));
            assert(rest@.to_multiset() =~= pre_rest.to_multiset().remove(m));
            assert(out@.to_multiset().add(rest@.to_multiset()) =~= pre_out.to_multiset().add(
                pre_rest.to_multiset(),
            ));
            let ghost pn = pre_rest.map_values(group_name_fn());
            assert(pn.contains(m.name@));
            assert(pn.to_multiset().count(m.name@) > 0);
            assert(out@.map_values(group_name_fn()).to_multiset() =~= pre_out.map_values(
                group_name_fn(),
            ).to_multiset().insert(m.name@));
            assert(rest@.map_values(group_name_fn()).to_multiset() =~= pn.to_multiset().remove(
                m.name@,
            ));
            assert(out@.map_values(group_name_fn()).to_multiset().add(
                rest@.map_values(group_name_fn()).to_multiset(),
            ) =~= pre_out.map_values(group_name_fn()).to_multiset().add(pn.to_multiset()));
            assert forall|i: int, j: int|
                0 <= i < out@.len() && 0 <= j < rest@.len() implies name_le(
                out@[i].name@,
                rest@[j].name@,
            ) by {
                if j < mi as int {
                    assert(rest@[j] == pre_rest[j]);
                } else {
                    assert(rest@[j] == pre_rest[j + 1]);
                }
            }
        }
    }
    out
}

/// Resolves a whole snapshot: one resolved group per group node, each
/// annotated by the latency rule, its members flattened in declared order,
/// and the group list ordered case-insensitively by name. The pass never
/// fails: missing data, dangling pointers and cyclic `now` chains all
/// degrade to an absent latency.
pub fn resolve(root: &Root) -> (r: Vec<ProxyGroup>)
    requires
        wf_snapshot(root.proxies@),
    ensures
        forall|i: int| 0 <= i < r@.len() ==> resolved_group_ok(root.proxies@, #[trigger] r@[i]),
        r@.map_values(group_name_fn()).to_multiset() == group_keys(root.proxies@).to_multiset(),
        forall|i: int, j: int| 0 <= i < j < r@.len() ==> name_le(r@[i].name@, r@[j].name@),
{
    let ghost t = root.proxies@;

    // first pass: resolve every node once, in snapshot order
    let mut cache = ProxyCache::new();
    let mut i: usize = 0;
    proof {
        assert(t.take(0) =~= Seq::<(String, ProxyEntryRaw)>::empty());
        assert(name_set(t.take(0)) =~= Set::<Seq<char>>::empty());
    }
    while i < root.proxies.len()
        invariant
            wf_snapshot(t),
            t == root.proxies@,
            cache.wf(),
            i <= t.len(),
            cache@.dom() == name_set(t.take(i as int)),
            forall|n: Seq<char>| #[trigger]
                cache@.dom().contains(n) ==> is_entry_for(t, n, cache@[n]),
        decreases t.len() - i,
    {
        let ghost pre = cache@;
        let ghost key = t[i as int].0@;
        proof {
            // the name at index i is not yet cached
            if name_set(t.take(i as int)).contains(key) {
                crate::data::lemma_name_set_index(t.take(i as int), key);
                let j = choose|j: int| 0 <= j < i as int && t.take(i as int)[j].0@ == key;
                assert(t[j].0@ == key);
                assert(false);
            }
            lemma_lookup_index(t, i as int);
        }
        let sp = match &root.proxies[i].1 {
            ProxyEntryRaw::Group(g) => SelectableProxy::from_group(g, root, &cache),
            ProxyEntryRaw::Proxy(p) => SelectableProxy::from_proxy(p, &cache),
        };
        proof {
            assert(entry_own_name(t[i as int]));
            match t[i as int].1 {
                ProxyEntryRaw::Group(g) => {
                    if g.history@.len() == 0 {
                        match g.now {
                            Option::Some(n) => {
                                lemma_memo_sound(t, pre, n@);
                                if n@ == key {
                                    assert(node_latency(t, key) == resolve_latency(
                                        t,
                                        key,
                                        Set::empty().insert(key),
                                    ));
                                } else {
                                    lemma_walk_step(t, key, Set::empty());
                                    lemma_resolve_extra_visited(
                                        t,
                                        n@,
                                        Set::empty().insert(key),
                                        Set::empty(),
                                    );
                                }
                            },
                            Option::None => {},
                        }
                    }
                },
                ProxyEntryRaw::Proxy(_) => {},
            }
            assert(is_entry_for(t, key, sp));
        }
        cache.insert(root.proxies[i].0.clone(), sp);
        proof {
            assert(t.take(i as int + 1).drop_last() =~= t.take(i as int));
            assert(t.take(i as int + 1) =~= t.take(i as int).push(t[i as int]));
            crate::data::lemma_name_set_push(t.take(i as int), t[i as int]);
            assert(cache@.dom() =~= name_set(t.take(i as int + 1)));
        }
        i = i + 1;
    }
    proof {
        assert(t.take(t.len() as int) =~= t);
    }

    // second pass: assemble one resolved group per group node
    let mut groups: Vec<ProxyGroup> = Vec::new();
    let mut i: usize = 0;
    proof {
        assert(t.take(0) =~= Seq::<(String, ProxyEntryRaw)>::empty());
        assert(groups@.map_values(group_name_fn()) =~= group_keys(t.take(0)));
    }
    while i < root.proxies.len()
        invariant
            wf_snapshot(t),
            t == root.proxies@,
            cache.wf(),
            i <= t.len(),
            cache@.dom() == name_set(t),
            forall|n: Seq<char>| #[trigger]
                cache@.dom().contains(n) ==> is_entry_for(t, n, cache@[n]),
            forall|k: int| 0 <= k < groups@.len() ==> resolved_group_ok(t, #[trigger] groups@[k]),
            groups@.map_values(group_name_fn()) == group_keys(t.take(i as int)),
        decreases t.len() - i,
    {
        let ghost pre_groups = groups@;
        match &root.proxies[i].1 {
            ProxyEntryRaw::Proxy(_) => {},
            ProxyEntryRaw::Group(g) => {
                let mut members: Vec<SelectableProxy> = Vec::new();
                let mut k: usize = 0;
                while k < g.all.len()
                    invariant
                        wf_snapshot(t),
                        t == root.proxies@,
                        cache.wf(),
                        cache@.dom() == name_set(t),
                        forall|n: Seq<char>| #[trigger]
                            cache@.dom().contains(n) ==> is_entry_for(t, n, cache@[n]),
                        k <= g.all@.len(),
                        members@.len() == k,
                        forall|j: int|
                            0 <= j < k ==> is_entry_for(t, g.all@[j]@, #[trigger] members@[j]),
                    decreases g.all@.len() - k,
                {
                    let m = member_entry(&cache, &g.all[k]);
                    proof {
                        if !cache@.dom().contains(g.all@[k as int]@) {
                            if lookup(t, g.all@[k as int]@) is Some {
                                lemma_lookup_in_name_set(t, g.all@[k as int]@);
                            }
                        }
                        assert(is_entry_for(t, g.all@[k as int]@, m));
                    }
                    members.push(m);
                    k = k + 1;
                }
                let ghost key = t[i as int].0@;
                proof {
                    crate::data::lemma_name_at_index(t, i as int);
                    assert(name_set(t).contains(key));
                    lemma_lookup_index(t, i as int);
                    assert(entry_own_name(t[i as int]));
                }
                let latency = match cache.get(&root.proxies[i].0) {
                    Option::Some(p) => p.latency,
                    Option::None => {
                        proof {
                            assert(false);
                        }
                        None
                    },
                };
                let pg = ProxyGroup {
                    name: g.name.clone(),
                    now: match &g.now {
                        Option::Some(s) => Some(s.clone()),
                        Option::None => None,
                    },
                    proxy_type: g.typ,
                    udp: g.udp,
                    latency,
                    proxies: members,
                };
                proof {
                    assert(resolved_group_ok(t, pg));
                }
                groups.push(pg);
            },
        }
        proof {
            assert(t.take(i as int + 1).drop_last() =~= t.take(i as int));
            assert(groups@.map_values(group_name_fn()) =~= group_keys(t.take(i as int + 1)));
        }
        i = i + 1;
    }
    proof {
        assert(t.take(t.len() as int) =~= t);
    }

    // third pass: order the groups case-insensitively by name
    let ghost pre_sort = groups@;
    let sorted = sort_groups(groups);
    proof {
        broadcast use vstd::seq_lib::group_to_multiset_ensures;

        assert forall|i: int| 0 <= i < sorted@.len() implies resolved_group_ok(
            t,
            #[trigger] sorted@[i],
        ) by {
            assert(sorted@.to_multiset().count(sorted@[i]) > 0);
            assert(pre_sort.to_multiset().count(sorted@[i]) > 0);
            assert(pre_sort.contains(sorted@[i]));
            let k = choose|k: int| 0 <= k < pre_sort.len() && pre_sort[k] == sorted@[i];
            assert(resolved_group_ok(t, pre_sort[k]));
        }
    }
    sorted
}

/// The provider-list rule: the placeholder entry and compatibility stubs are
/// not shown.
pub open spec fn keeps_provider(p: Provider) -> bool {
    p.name@ != "default"@ && p.vehicle_type@ != "Compatible"@
}

/// The values of the kept provider entries, in list order.
pub open spec fn kept_provider_values(s: Seq<(String, Provider)>) -> Seq<Provider>
    decreases s.len(),
{
    if s.len() == 0 {
        Seq::empty()
    } else {
        let rest = kept_provider_values(s.drop_last());
        if keeps_provider(s.last().1) {
            rest.push(s.last().1)
        } else {
            rest
        }
    }
}

/// Keeps the providers worth showing: drops the daemon's `default`
/// placeholder and `Compatible` stubs.
pub fn filter_providers(entries: Vec<(String, Provider)>) -> (r: Vec<Provider>)
    ensures
        r@.to_multiset() == kept_provider_values(entries@).to_multiset(),
{
    broadcast use vstd::seq_lib::group_to_multiset_ensures;

    let ghost orig = entries@;
    let mut rest = entries;
    let mut vals: Vec<Provider> = Vec::new();
    proof {
        assert(kept_provider_values(rest@).to_multiset().add(vals@.to_multiset())
            =~= kept_provider_values(orig).to_multiset());
    }
    while rest.len() > 0
        invariant
            kept_provider_values(rest@).to_multiset().add(vals@.to_multiset())
                == kept_provider_values(orig).to_multiset(),
        decreases rest@.len(),
    {
        let ghost pre_rest = rest@;
        let ghost pre_vals = vals@;
        let last = match rest.pop() {
            Option::Some(p) => p,
            Option::None => {
                proof {
                    assert(false);
                }
                vstd::pervasive::unreached()
            },
        };
        let keep = !crate::name_order::str_eq_exec(last.1.name.as_str(), "default")
            && !crate::name_order::str_eq_exec(last.1.vehicle_type.as_str(), "Compatible");
        proof {
            assert(rest@ =~= pre_rest.drop_last());
            assert(last == pre_rest.last());
            pre_vals.to_multiset_ensures();
            kept_provider_values(rest@).to_multiset_ensures();
        }
        if keep {
            vals.push(last.1);
            proof {
                assert(vals@ == pre_vals.push(pre_rest.last().1));
                assert(kept_provider_values(pre_rest) == kept_provider_values(rest@).push(
                    pre_rest.last().1,
                ));
                assert(kept_provider_values(rest@).to_multiset().add(vals@.to_multiset())
                    =~= kept_provider_values(pre_rest).to_multiset().add(
                    pre_vals.to_multiset(),
                ));
            }
        } else {
            proof {
                assert(kept_provider_values(pre_rest) == kept_provider_values(rest@));
            }
        }
    }
    proof {
        assert(kept_provider_values(rest@).to_multiset() =~= Multiset::<Provider>::empty());
        assert(kept_provider_values(rest@).to_multiset().add(vals@.to_multiset())
            =~= vals@.to_multiset());
    }
    vals
}

/// Orders providers case-insensitively by name; the collection of providers
/// is otherwise unchanged.
pub fn sort_providers(v: Vec<Provider>) -> (r: Vec<Provider>)
    ensures
        r@.to_multiset() == v@.to_multiset(),
        forall|i: int, j: int| 0 <= i < j < r@.len() ==> name_le(r@[i].name@, r@[j].name@),
{
    broadcast use vstd::seq_lib::group_to_multiset_ensures;

    let mut rest = v;
    let mut out: Vec<Provider> = Vec::new();
    proof {
        assert(out@.to_multiset().add(rest@.to_multiset()) =~= rest@.to_multiset());
    }
    while rest.len() > 0
        invariant
            out@.to_multiset().add(rest@.to_multiset()) == v@.to_multiset(),
            forall|i: int, j: int|
                0 <= i < j < out@.len() ==> name_le(out@[i].name@, out@[j].name@),
            forall|i: int, j: int|
                0 <= i < out@.len() && 0 <= j < rest@.len() ==> name_le(
                    out@[i].name@,
                    rest@[j].name@,
                ),
        decreases rest@.len(),
    {
        let mut mi: usize = 0;
        let mut k: usize = 1;
        proof {
            lemma_name_le_total(rest@[0].name@, rest@[0].name@);
        }
        while k < rest.len()
            invariant
                0 < rest@.len(),
                mi < k,
                k <= rest@.len(),
                forall|j: int| 0 <= j < k ==> name_le(rest@[mi as int].name@, rest@[j].name@),
            decreases rest@.len() - k,
        {
            if name_le_exec(rest[k].name.as_str(), rest[mi].name.as_str()) {
                proof {
                    lemma_name_le_total(rest@[k as int].name@, rest@[k as int].name@);
                    assert forall|j: int| 0 <= j < k + 1 implies name_le(
                        rest@[k as int].name@,
                        rest@[j].name@,
                    ) by {
                        if j < k {
                            lemma_name_le_trans(
                                rest@[k as int].name@,
                                rest@[mi as int].name@,
                                rest@[j].name@,
                            );
                        }
                    }
                }
                mi = k;
            } else {
                proof {
                    lemma_name_le_total(rest@[mi as int].name@, rest@[k as int].name@);
                }
            }
            k = k + 1;
        }
        let ghost pre_rest = rest@;
        let ghost pre_out = out@;
        let m = rest.remove(mi);
        out.push(m);
        proof {
            pre_out.to_multiset_ensures();
            pre_rest.to_multiset_ensures();
            assert(out@ == pre_out.push(m));
            assert(rest@ == pre_rest.remove(mi as int));
            assert(pre_rest.contains(m));
            assert(pre_rest.to_multiset().count(m) > 0);
            assert(out@.to_multiset() =~= pre_out.to_multiset().insert(m));
            assert(rest@.to_multiset() =~= pre_rest.to_multiset().remove(m));
            assert(out@.to_multiset().add(rest@.to_multiset()) =~= pre_out.to_multiset().add(
                pre_rest.to_multiset(),
            ));
            assert forall|i: int, j: int|
                0 <= i < out@.len() && 0 <= j < rest@.len() implies name_le(
                out@[i].name@,
                rest@[j].name@,
            ) by {
                if j < mi as int {
                    assert(rest@[j] == pre_rest[j]);
                } else {
                    assert(rest@[j] == pre_rest[j + 1]);
                }
            }
        }
    }
    out
}

/// What the memoized pass attributes to a group: its own last measurement,
/// else the walk from its `now` pointer against the given cache.
pub open spec fn group_latency(
    t: Seq<(String, ProxyEntryRaw)>,
    cache: Map<Seq<char>, SelectableProxy>,
    g: ProxyGroupRaw,
) -> Option<u64> {
    if g.history@.len() > 0 {
        last_delay(g.history@)
    } else {
        match g.now {
            Option::Some(n) => cached_latency(t, cache, n@, Set::empty()),
            Option::None => None,
        }
    }
}

} // verus!
