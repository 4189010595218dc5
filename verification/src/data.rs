//! Raw topology snapshot as the daemon reports it: named nodes, each either
//! a group (ordered member list, optional active member) or a single proxy,
//! both carrying a latency history.

use vstd::prelude::*;

verus! {

/// A single latency measurement; `delay` is the round-trip time in
/// milliseconds, `time` the daemon's timestamp text.
#[derive(Debug, Clone)]
pub struct HistoryEntry {
    pub time: String,
    pub delay: u64,
}

/// Additional per-node info some daemons attach under an `extra` map.
#[derive(Debug, Clone)]
pub struct ExtraInfo {
    pub alive: bool,
    pub history: Vec<HistoryEntry>,
}

/// Kind tag of a proxy or a group.
#[derive(Debug, Clone, Copy, PartialEq, Eq, Structural)]
pub enum ProxyType {
    Direct,
    Reject,
    RejectDrop,
    Compatible,
    Pass,
    Shadowsocks,
    ShadowsocksR,
    Snell,
    Socks5,
    Http,
    Vmess,
    Vless,
    Trojan,
    Hysteria,
    Hysteria2,
    Tuic,
    WireGuard,
    Dns,
    Ssh,
    Mieru,
    AnyTLS,
    Relay,
    Selector,
    Fallback,
    URLTest,
    LoadBalance,
}

impl ProxyType {
    /// The group kinds: everything a daemon can dispatch through, as opposed
    /// to a concrete outbound.
    pub open spec fn is_group_spec(self) -> bool {
        self is Relay || self is Selector || self is Fallback || self is URLTest
            || self is LoadBalance
    }

    /// The display name of the kind tag.
    pub open spec fn name_spec(self) -> Seq<char> {
        match self {
            ProxyType::Direct => "Direct"@,
            ProxyType::Reject => "Reject"@,
            ProxyType::RejectDrop => "RejectDrop"@,
            ProxyType::Compatible => "Compatible"@,
            ProxyType::Pass => "Pass"@,
            ProxyType::Shadowsocks => "Shadowsocks"@,
            ProxyType::ShadowsocksR => "ShadowsocksR"@,
            ProxyType::Snell => "Snell"@,
            ProxyType::Socks5 => "Socks5"@,
            ProxyType::Http => "Http"@,
            ProxyType::Vmess => "Vmess"@,
            ProxyType::Vless => "Vless"@,
            ProxyType::Trojan => "Trojan"@,
            ProxyType::Hysteria => "Hysteria"@,
            ProxyType::Hysteria2 => "Hysteria2"@,
            ProxyType::Tuic => "Tuic"@,
            ProxyType::WireGuard => "WireGuard"@,
            ProxyType::Dns => "Dns"@,
            ProxyType::Ssh => "Ssh"@,
            ProxyType::Mieru => "Mieru"@,
            ProxyType::AnyTLS => "AnyTLS"@,
            ProxyType::Relay => "Relay"@,
            ProxyType::Selector => "Selector"@,
            ProxyType::Fallback => "Fallback"@,
            ProxyType::URLTest => "URLTest"@,
            ProxyType::LoadBalance => "LoadBalance"@,
        }
    }

    pub fn is_group(&self) -> (r: bool)
        ensures
            r == self.is_group_spec(),
    {
        matches!(
            self,
            ProxyType::Relay
                | ProxyType::Selector
                | ProxyType::Fallback
                | ProxyType::URLTest
                | ProxyType::LoadBalance
        )
    }

    pub fn str(&self) -> (r: &'static str)
        ensures
            r@ == self.name_spec(),
    {
        match self {
            ProxyType::Direct => "Direct",
            ProxyType::Reject => "Reject",
            ProxyType::RejectDrop => "RejectDrop",
            ProxyType::Compatible => "Compatible",
            ProxyType::Pass => "Pass",
            ProxyType::Shadowsocks => "Shadowsocks",
            ProxyType::ShadowsocksR => "ShadowsocksR",
            ProxyType::Snell => "Snell",
            ProxyType::Socks5 => "Socks5",
            ProxyType::Http => "Http",
            ProxyType::Vmess => "Vmess",
            ProxyType::Vless => "Vless",
            ProxyType::Trojan => "Trojan",
            ProxyType::Hysteria => "Hysteria",
            ProxyType::Hysteria2 => "Hysteria2",
            ProxyType::Tuic => "Tuic",
            ProxyType::WireGuard => "WireGuard",
            ProxyType::Dns => "Dns",
            ProxyType::Ssh => "Ssh",
            ProxyType::Mieru => "Mieru",
            ProxyType::AnyTLS => "AnyTLS",
            ProxyType::Relay => "Relay",
            ProxyType::Selector => "Selector",
            ProxyType::Fallback => "Fallback",
            ProxyType::URLTest => "URLTest",
            ProxyType::LoadBalance => "LoadBalance",
        }
    }
}

/// A proxy group: an ordered member list `all`, an optional pointer `now` to
/// the currently active member, and the group's own latency history.
#[derive(Debug, Clone)]
pub struct ProxyGroupRaw {
    pub all: Vec<String>,
    pub history: Vec<HistoryEntry>,
    pub name: String,
    pub now: Option<String>,
    pub typ: ProxyType,
    pub udp: bool,
}

/// A single concrete proxy with its own latency history.
#[derive(Debug, Clone)]
pub struct ProxyRaw {
    pub id: String,
    pub name: String,
    pub udp: bool,
    pub history: Vec<HistoryEntry>,
    pub typ: ProxyType,
}

/// A node of the topology: a group or a single proxy.
#[derive(Debug, Clone)]
pub enum ProxyEntryRaw {
    Group(ProxyGroupRaw),
    Proxy(ProxyRaw),
}

/// A whole topology snapshot: nodes keyed by unique name. The reference
/// graph formed by `now` pointers is not guaranteed acyclic and a `now`
/// name need not exist in the snapshot.
#[derive(Debug, Clone)]
pub struct Root {
    pub proxies: Vec<(String, ProxyEntryRaw)>,
}

/// One proxy provider, with the nodes it supplies.
#[derive(Debug, Clone)]
pub struct Provider {
    pub name: String,
    pub vehicle_type: String,
    pub subscription_info: Option<SubscriptionInfo>,
    pub updated_at: String,
    pub proxies: Vec<ProxyEntryRaw>,
}

/// Subscription counters of a provider, in bytes (and a Unix expiry time).
#[derive(Debug, Clone)]
pub struct SubscriptionInfo {
    pub download: Option<u64>,
    pub upload: Option<u64>,
    pub total: Option<u64>,
    pub expire: Option<u64>,
}

/// All providers of a daemon, keyed by unique name.
#[derive(Debug, Clone)]
pub struct ProviderRoot {
    pub providers: Vec<(String, Provider)>,
}

/// The most recent measurement of a history, by recording order.
pub open spec fn last_delay(h: Seq<HistoryEntry>) -> Option<u64> {
    if h.len() == 0 {
        None
    } else {
        Some(h.last().delay)
    }
}

/// The node stored under `name`, if any. Names are unique in a well-formed
/// snapshot, so the first match is the only one.
pub open spec fn lookup(t: Seq<(String, ProxyEntryRaw)>, name: Seq<char>) -> Option<
    ProxyEntryRaw,
>
    decreases t.len(),
{
    if t.len() == 0 {
        None
    } else if t[0].0@ == name {
        Some(t[0].1)
    } else {
        lookup(t.drop_first(), name)
    }
}

/// All names of a snapshot.
pub open spec fn name_set(t: Seq<(String, ProxyEntryRaw)>) -> Set<Seq<char>> {
    t.map_values(|p: (String, ProxyEntryRaw)| p.0@).to_set()
}

/// The snapshot invariant: every node under its own unique name.
pub open spec fn unique_names(t: Seq<(String, ProxyEntryRaw)>) -> bool {
    forall|i: int, j: int| 0 <= i < j < t.len() ==> t[i].0@ != t[j].0@
}

/// Under unique names, a lookup finds exactly the entry stored at an index.
pub proof fn lemma_lookup_index(t: Seq<(String, ProxyEntryRaw)>, i: int)
    requires
        unique_names(t),
        0 <= i < t.len(),
    ensures
        lookup(t, t[i].0@) == Some(t[i].1),
    decreases t.len(),
{
    if i > 0 {
        let rest = t.drop_first();
        assert(forall|k: int, l: int|
            0 <= k < l < rest.len() ==> rest[k].0@ != rest[l].0@) by {
            assert(forall|k: int| 0 <= k < rest.len() ==> rest[k] == t[k + 1]);
        }
        lemma_lookup_index(rest, i - 1);
    }
}

/// Appending one entry adds exactly its name to the name set.
pub proof fn lemma_name_set_push(t: Seq<(String, ProxyEntryRaw)>, p: (String, ProxyEntryRaw))
    ensures
        name_set(t.push(p)) =~= name_set(t).insert(p.0@),
{
    let f = |q: (String, ProxyEntryRaw)| q.0@;
    let big = t.push(p).map_values(f);
    let small = t.map_values(f);
    assert(big =~= small.push(p.0@));
    assert forall|n: Seq<char>| #[trigger] big.to_set().contains(n) implies small.to_set().insert(
        p.0@,
    ).contains(n) by {
        let i = choose|i: int| 0 <= i < big.len() && big[i] == n;
        if i < small.len() {
            assert(small[i] == n);
        }
    }
    assert forall|n: Seq<char>| #[trigger] small.to_set().insert(p.0@).contains(n) implies big
        .to_set().contains(n) by {
        if n == p.0@ {
            assert(big[big.len() - 1] == n);
        } else {
            let i = choose|i: int| 0 <= i < small.len() && small[i] == n;
            assert(big[i] == n);
        }
    }
}

/// The name at an index is one of the snapshot's names.
pub proof fn lemma_name_at_index(t: Seq<(String, ProxyEntryRaw)>, i: int)
    requires
        0 <= i < t.len(),
    ensures
        name_set(t).contains(t[i].0@),
{
    assert(t.map_values(|p: (String, ProxyEntryRaw)| p.0@)[i] == t[i].0@);
}

/// A name of the name set is the name stored at some index.
pub proof fn lemma_name_set_index(t: Seq<(String, ProxyEntryRaw)>, n: Seq<char>)
    requires
        name_set(t).contains(n),
    ensures
        exists|i: int| 0 <= i < t.len() && t[i].0@ == n,
{
    let names = t.map_values(|p: (String, ProxyEntryRaw)| p.0@);
    let i = choose|i: int| 0 <= i < names.len() && names[i] == n;
    assert(t[i].0@ == n);
}

/// A successful lookup means the name is one of the snapshot's names.
pub proof fn lemma_lookup_in_name_set(t: Seq<(String, ProxyEntryRaw)>, name: Seq<char>)
    requires
        lookup(t, name) is Some,
    ensures
        name_set(t).contains(name),
    decreases t.len(),
{
    if t.len() > 0 {
        if t[0].0@ == name {
            assert(t.map_values(|p: (String, ProxyEntryRaw)| p.0@)[0] == name);
        } else {
            lemma_lookup_in_name_set(t.drop_first(), name);
            let names = t.drop_first().map_values(|p: (String, ProxyEntryRaw)| p.0@);
            let i = choose|i: int| 0 <= i < names.len() && names[i] == name;
            assert(t.map_values(|p: (String, ProxyEntryRaw)| p.0@)[i + 1] == name);
        }
    }
}

} // verus!
