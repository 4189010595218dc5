use proxy_board::data::ProxyType;
use proxy_board::tab::Tab;

#[test]
fn group_kinds_are_groups() {
    assert!(ProxyType::Relay.is_group());
    assert!(ProxyType::Selector.is_group());
    assert!(ProxyType::Fallback.is_group());
    assert!(ProxyType::URLTest.is_group());
    assert!(ProxyType::LoadBalance.is_group());
}

#[test]
fn leaf_kinds_are_not_groups() {
    assert!(!ProxyType::Direct.is_group());
    assert!(!ProxyType::Vmess.is_group());
    assert!(!ProxyType::Shadowsocks.is_group());
    assert!(!ProxyType::WireGuard.is_group());
}

#[test]
fn kind_names() {
    assert_eq!(ProxyType::Direct.str(), "Direct");
    assert_eq!(ProxyType::URLTest.str(), "URLTest");
    assert_eq!(ProxyType::ShadowsocksR.str(), "ShadowsocksR");
    assert_eq!(ProxyType::LoadBalance.str(), "LoadBalance");
}

#[test]
fn tabs_cycle_both_ways() {
    let mut t = Tab::Group;
    t.next();
    assert_eq!(t, Tab::Provider);
    t.next();
    assert_eq!(t, Tab::Group);
    t.prev();
    assert_eq!(t, Tab::Provider);
    t.prev();
    assert_eq!(t, Tab::Group);
}

#[test]
fn tab_names() {
    assert_eq!(Tab::Group.str(), "Group");
    assert_eq!(Tab::Provider.str(), "Provider");
    let names = Tab::all_names();
    assert_eq!(names, vec!["Group", "Provider"]);
    let variants = Tab::variants();
    assert_eq!(variants, vec![Tab::Group, Tab::Provider]);
}
