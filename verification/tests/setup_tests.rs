use dpdk_utest::input::{CmdLine, Flags};
use dpdk_utest::setup::{
    agent_kind, get_app_tags, get_rhosts, get_test_tags, AgentKind, HostsError, Inputs, RHost,
};
use dpdk_utest::yaml::{YamlMapping, YamlValue};

fn s(x: &str) -> YamlValue {
    YamlValue::Str(x.to_string())
}

fn dict(entries: Vec<(&str, YamlValue)>) -> YamlValue {
    YamlValue::Dict(entries.into_iter().map(|(k, v)| (s(k), v)).collect())
}

fn commands() -> YamlMapping {
    vec![
        (s("dut"), dict(vec![("agent", s("testpmd")), ("cmd", s("dpdk-testpmd -a pci0 -- -i"))])),
        (s("note"), s("not an application")),
        (s("tg"), dict(vec![("agent", s("scapy")), ("setup", YamlValue::List(vec![s("config-fdb")]))])),
        (s("other"), dict(vec![("cmd", s("no agent"))])),
        (s("sh"), dict(vec![("agent", s("shell"))])),
        (s("flow"), YamlValue::List(vec![])),
    ]
}

fn hosts() -> YamlMapping {
    vec![
        (s("dut"), dict(vec![("host", s("10.0.0.1")), ("path", s("/opt/dpdk"))])),
        (s("tg"), dict(vec![("host", s("10.0.0.2"))])),
        (s("sh"), dict(vec![("host", s("10.0.0.1"))])),
    ]
}

fn inputs(hosts: YamlMapping) -> Inputs {
    let mut i = Inputs::default();
    i.cmdline.ssh_key = "/root/.ssh/id_rsa".to_string();
    i.commands = commands();
    i.hosts = hosts;
    i
}

fn strings(v: &[&str]) -> Vec<String> {
    v.iter().map(|x| x.to_string()).collect()
}

#[test]
fn app_tags_setup_first_in_document_order() {
    assert_eq!(get_app_tags(&commands()), Some(strings(&["tg", "dut", "sh"])));
}

#[test]
fn app_tags_without_applications() {
    assert_eq!(get_app_tags(&vec![(s("flow"), YamlValue::List(vec![]))]), Some(vec![]));
}

#[test]
fn app_tag_must_be_a_string() {
    let bad = vec![(YamlValue::Bool(true), dict(vec![("agent", s("scapy"))]))];
    assert_eq!(get_app_tags(&bad), None);
}

#[test]
fn rhosts_each_host_once_in_order_of_use() {
    let i = inputs(hosts());
    let rh = get_rhosts(&strings(&["tg", "dut", "sh"]), &i).ok().unwrap();
    let names: Vec<&str> = rh.iter().map(|h| h.hostname.as_str()).collect();
    assert_eq!(names, vec!["10.0.0.2", "10.0.0.1"]);
    assert!(rh.iter().all(|h| h.ssh_key == "/root/.ssh/id_rsa"));
}

#[test]
fn rhosts_missing_tag() {
    let i = inputs(vec![(s("tg"), dict(vec![("host", s("10.0.0.2"))]))]);
    match get_rhosts(&strings(&["tg", "dut"]), &i) {
        Err(HostsError::MissingTag(t)) => assert_eq!(t, "dut"),
        _ => panic!("expected a missing tag"),
    }
}

#[test]
fn rhosts_bad_host_entry() {
    let i = inputs(vec![(s("tg"), dict(vec![("host", YamlValue::Null)]))]);
    match get_rhosts(&strings(&["tg"]), &i) {
        Err(HostsError::BadHostEntry(t)) => assert_eq!(t, "tg"),
        _ => panic!("expected a bad host entry"),
    }
}

#[test]
fn test_tags_carry_agent_and_host() {
    let i = inputs(hosts());
    let apps = strings(&["tg", "dut", "sh"]);
    let rh = get_rhosts(&apps, &i).ok().unwrap();
    let tags = get_test_tags(&apps, &rh, &i).unwrap();
    let view: Vec<(&str, &str, &str)> =
        tags.iter().map(|t| (t.app.as_str(), t.agent.as_str(), t.rhost.hostname.as_str())).collect();
    assert_eq!(
        view,
        vec![("tg", "scapy", "10.0.0.2"), ("dut", "testpmd", "10.0.0.1"), ("sh", "shell", "10.0.0.1")]
    );
}

#[test]
fn test_tags_need_a_known_host() {
    let i = inputs(hosts());
    let apps = strings(&["dut"]);
    let rh = vec![RHost::new("10.9.9.9".to_string(), "k".to_string())];
    assert!(get_test_tags(&apps, &rh, &i).is_none());
    let none_agent = strings(&["other"]);
    let i2 = inputs(vec![(s("other"), dict(vec![("host", s("10.0.0.1"))]))]);
    let rh2 = vec![RHost::new("10.0.0.1".to_string(), "k".to_string())];
    assert!(get_test_tags(&none_agent, &rh2, &i2).is_none());
}

#[test]
fn agent_kinds() {
    assert_eq!(agent_kind("testpmd"), Some(AgentKind::Testpmd));
    assert_eq!(agent_kind("scapy"), Some(AgentKind::Scapy));
    assert_eq!(agent_kind("shell"), Some(AgentKind::Shell));
    assert_eq!(agent_kind("bash"), None);
}

#[test]
fn inputs_reuse_needs_fast_and_stored_interfaces() {
    let mut i = inputs(hosts());
    assert!(!i.try_reuse_config());
    i.cmdline.reuse_conifiguration = true;
    assert!(!i.try_reuse_config());
    i.hosts.push((s("interfaces"), dict(vec![])));
    assert!(i.try_reuse_config());
    i.cmdline.reuse_conifiguration = false;
    assert!(!i.try_reuse_config());
}

#[test]
fn inputs_flags_and_mt_dev() {
    let mut i = Inputs::default();
    assert!(!i.loopback());
    assert!(!i.reset());
    assert_eq!(i.mt_dev(), None);
    i.cmdline.mlx_dev = "mt4125".to_string();
    i.cmdline.loopback = true;
    assert_eq!(i.mt_dev(), Some("mt4125"));
    assert!(i.loopback());
}

fn flags() -> Flags {
    Flags { verbose: true, silent: false, show: true, fast: false, loopback: true, reset: false }
}

#[test]
fn cmdline_from_params_defaults_key() {
    let c = CmdLine::from_params(
        Some("t.yaml".to_string()),
        None,
        None,
        None,
        Some("/home/u".to_string()),
        flags(),
    );
    assert_eq!(c.commands_file, "t.yaml");
    assert_eq!(c.hosts_file, "");
    assert_eq!(c.mlx_dev, "");
    assert_eq!(c.ssh_key, "/home/u/.ssh/id_rsa");
    assert!(c.verbose && !c.silent && c.show_commands && !c.reuse_conifiguration && c.loopback);
    assert!(!c.reset);
}

#[test]
fn cmdline_from_params_given_key() {
    let c = CmdLine::from_params(
        None,
        Some("h.yaml".to_string()),
        Some("mt4125".to_string()),
        Some("/k".to_string()),
        None,
        flags(),
    );
    assert_eq!(c.hosts_file, "h.yaml");
    assert_eq!(c.mlx_dev, "mt4125");
    assert_eq!(c.ssh_key, "/k");
    let mut f = flags();
    f.reset = true;
    let r = CmdLine::from_params(None, None, None, Some("/k".to_string()), None, f);
    assert!(r.reset);
}

#[test]
fn cmdline_default_is_empty() {
    let c = CmdLine::default();
    assert_eq!(c.commands_file, "");
    assert!(!c.verbose && !c.silent && !c.show_commands && !c.loopback && !c.reset);
}
