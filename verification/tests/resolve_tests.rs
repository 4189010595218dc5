use proxy_board::data::HistoryEntry;
use proxy_board::data::Provider;
use proxy_board::data::ProxyEntryRaw;
use proxy_board::data::ProxyGroupRaw;
use proxy_board::data::ProxyRaw;
use proxy_board::data::ProxyType;
use proxy_board::data::Root;
use proxy_board::resolve::ProxyCache;
use proxy_board::resolve::SelectableProxy;
use proxy_board::resolve::filter_providers;
use proxy_board::resolve::resolve;
use proxy_board::resolve::sort_providers;

fn history(delays: &[u64]) -> Vec<HistoryEntry> {
    delays
        .iter()
        .map(|d| HistoryEntry { time: String::new(), delay: *d })
        .collect()
}

fn leaf(name: &str, delays: &[u64]) -> (String, ProxyEntryRaw) {
    (
        name.to_string(),
        ProxyEntryRaw::Proxy(ProxyRaw {
            id: format!("id-{name}"),
            name: name.to_string(),
            udp: true,
            history: history(delays),
            typ: ProxyType::Vmess,
        }),
    )
}

fn group(
    name: &str,
    members: &[&str],
    now: Option<&str>,
    delays: &[u64],
) -> (String, ProxyEntryRaw) {
    (
        name.to_string(),
        ProxyEntryRaw::Group(ProxyGroupRaw {
            all: members.iter().map(|m| m.to_string()).collect(),
            history: history(delays),
            name: name.to_string(),
            now: now.map(|n| n.to_string()),
            typ: ProxyType::Selector,
            udp: false,
        }),
    )
}

fn find<'a>(
    groups: &'a [proxy_board::resolve::ProxyGroup],
    name: &str,
) -> &'a proxy_board::resolve::ProxyGroup {
    groups.iter().find(|g| g.name == name).expect("group missing")
}

#[test]
fn leaf_history_wins_through_any_chain() {
    // the leaf's last measurement is 42; groups referencing it transitively
    // via `now` all resolve to 42 as well
    let root = Root {
        proxies: vec![
            group("outer", &["mid"], Some("mid"), &[]),
            group("mid", &["fast"], Some("fast"), &[]),
            leaf("fast", &[7, 100, 42]),
        ],
    };
    let groups = resolve(&root);
    assert_eq!(find(&groups, "outer").latency, Some(42));
    assert_eq!(find(&groups, "mid").latency, Some(42));
    assert_eq!(find(&groups, "mid").proxies[0].latency, Some(42));
}

#[test]
fn group_follows_now_target() {
    let root = Root {
        proxies: vec![
            leaf("x", &[7]),
            group("g", &["x"], Some("x"), &[]),
        ],
    };
    let groups = resolve(&root);
    assert_eq!(find(&groups, "g").latency, Some(7));
}

#[test]
fn group_own_history_beats_now() {
    let root = Root {
        proxies: vec![
            leaf("x", &[7]),
            group("g", &["x"], Some("x"), &[3, 99]),
        ],
    };
    let groups = resolve(&root);
    assert_eq!(find(&groups, "g").latency, Some(99));
}

#[test]
fn group_without_history_or_now_is_unknown() {
    let root = Root {
        proxies: vec![group("g", &[], None, &[])],
    };
    let groups = resolve(&root);
    assert_eq!(find(&groups, "g").latency, None);
}

#[test]
fn dangling_now_is_unknown() {
    let root = Root {
        proxies: vec![group("g", &[], Some("nowhere"), &[])],
    };
    let groups = resolve(&root);
    assert_eq!(find(&groups, "g").latency, None);
}

#[test]
fn cyclic_now_chain_is_unknown() {
    let root = Root {
        proxies: vec![
            group("a", &["b"], Some("b"), &[]),
            group("b", &["a"], Some("a"), &[]),
            group("selfloop", &[], Some("selfloop"), &[]),
        ],
    };
    let groups = resolve(&root);
    assert_eq!(find(&groups, "a").latency, None);
    assert_eq!(find(&groups, "b").latency, None);
    assert_eq!(find(&groups, "selfloop").latency, None);
}

#[test]
fn members_keep_declared_order_and_annotations() {
    let root = Root {
        proxies: vec![
            group("g", &["slow", "fast"], Some("fast"), &[]),
            leaf("slow", &[300]),
            leaf("fast", &[20]),
        ],
    };
    let groups = resolve(&root);
    let g = find(&groups, "g");
    assert_eq!(g.now.as_deref(), Some("fast"));
    assert_eq!(g.proxies.len(), 2);
    assert_eq!(g.proxies[0].name, "slow");
    assert_eq!(g.proxies[0].latency, Some(300));
    assert!(g.proxies[0].udp);
    assert!(matches!(g.proxies[0].proxy_type, ProxyType::Vmess));
    assert_eq!(g.proxies[1].name, "fast");
    assert_eq!(g.proxies[1].latency, Some(20));
}

#[test]
fn missing_member_becomes_placeholder() {
    let root = Root {
        proxies: vec![group("g", &["ghost"], None, &[])],
    };
    let groups = resolve(&root);
    let g = find(&groups, "g");
    assert_eq!(g.proxies.len(), 1);
    assert_eq!(g.proxies[0].name, "ghost");
    assert_eq!(g.proxies[0].latency, None);
    assert!(!g.proxies[0].udp);
    assert!(matches!(g.proxies[0].proxy_type, ProxyType::Compatible));
}

#[test]
fn groups_come_sorted_case_insensitively() {
    // byte order alone would put "Beta" before "alpha"
    let root = Root {
        proxies: vec![
            group("Beta", &[], None, &[]),
            group("alpha", &[], None, &[]),
            group("Gamma", &[], None, &[]),
            leaf("x", &[1]),
        ],
    };
    let groups = resolve(&root);
    let names: Vec<&str> = groups.iter().map(|g| g.name.as_str()).collect();
    assert_eq!(names, vec!["alpha", "Beta", "Gamma"]);
}

#[test]
fn from_group_prefers_cached_entry() {
    let raw = ProxyGroupRaw {
        all: vec![],
        history: history(&[5]),
        name: "g".to_string(),
        now: None,
        typ: ProxyType::URLTest,
        udp: true,
    };
    let root = Root { proxies: vec![] };
    let mut cache = ProxyCache::new();
    cache.insert(
        "g".to_string(),
        SelectableProxy {
            name: "g".to_string(),
            udp: false,
            proxy_type: ProxyType::Direct,
            latency: Some(1),
        },
    );
    let sp = SelectableProxy::from_group(&raw, &root, &cache);
    assert_eq!(sp.latency, Some(1));
    assert!(matches!(sp.proxy_type, ProxyType::Direct));
}

#[test]
fn from_group_resolves_now_through_cache() {
    let raw = ProxyGroupRaw {
        all: vec![],
        history: vec![],
        name: "g".to_string(),
        now: Some("target".to_string()),
        typ: ProxyType::Fallback,
        udp: false,
    };
    let root = Root { proxies: vec![] };
    let mut cache = ProxyCache::new();
    cache.insert(
        "target".to_string(),
        SelectableProxy {
            name: "target".to_string(),
            udp: true,
            proxy_type: ProxyType::Trojan,
            latency: Some(88),
        },
    );
    let sp = SelectableProxy::from_group(&raw, &root, &cache);
    assert_eq!(sp.name, "g");
    assert_eq!(sp.latency, Some(88));
}

#[test]
fn from_proxy_uses_last_measurement() {
    let raw = ProxyRaw {
        id: "i".to_string(),
        name: "p".to_string(),
        udp: true,
        history: history(&[10, 20, 30]),
        typ: ProxyType::Socks5,
    };
    let cache = ProxyCache::new();
    let sp = SelectableProxy::from_proxy(&raw, &cache);
    assert_eq!(sp.latency, Some(30));
    let sp2 = SelectableProxy::from_proxy_without_cache(&raw);
    assert_eq!(sp2.latency, Some(30));
    assert_eq!(sp2.name, "p");
    assert!(sp2.udp);
}

#[test]
fn cache_keeps_first_entry() {
    let mut cache = ProxyCache::new();
    let first = SelectableProxy {
        name: "n".to_string(),
        udp: false,
        proxy_type: ProxyType::Direct,
        latency: Some(1),
    };
    let second = SelectableProxy {
        name: "n".to_string(),
        udp: true,
        proxy_type: ProxyType::Reject,
        latency: Some(2),
    };
    cache.insert("n".to_string(), first);
    cache.insert("n".to_string(), second);
    let got = cache.get(&"n".to_string()).expect("entry");
    assert_eq!(got.latency, Some(1));
    assert!(cache.get(&"other".to_string()).is_none());
}

fn provider(name: &str, vehicle: &str) -> Provider {
    Provider {
        name: name.to_string(),
        vehicle_type: vehicle.to_string(),
        subscription_info: None,
        updated_at: String::new(),
        proxies: vec![],
    }
}

#[test]
fn provider_filter_drops_default_and_compatible() {
    let entries = vec![
        ("a".to_string(), provider("mysub", "HTTP")),
        ("b".to_string(), provider("default", "HTTP")),
        ("c".to_string(), provider("stub", "Compatible")),
        ("d".to_string(), provider("other", "File")),
    ];
    let mut kept: Vec<String> = filter_providers(entries)
        .into_iter()
        .map(|p| p.name)
        .collect();
    kept.sort();
    assert_eq!(kept, vec!["mysub".to_string(), "other".to_string()]);
}

#[test]
fn providers_sort_case_insensitively() {
    let vals = vec![
        provider("Zed", "HTTP"),
        provider("apex", "HTTP"),
        provider("Mid", "HTTP"),
    ];
    let sorted = sort_providers(vals);
    let names: Vec<&str> = sorted.iter().map(|p| p.name.as_str()).collect();
    assert_eq!(names, vec!["apex", "Mid", "Zed"]);
}
