use dpdk_utest::hostcfg::{
    host_setup_commands, interfaces_offset, netdev_setup_commands, reset_step, testpmd_command_line,
    testpmd_ready, ResetAction, ResetFailure, ResetState, APP_CONFIGURATION_COMMANDS_MAX,
    REMOTE_SCRIPTS_PATH,
};
use dpdk_utest::interfaces::InterfaceMap;
use dpdk_utest::yaml::{YamlMapping, YamlValue};

fn s(x: &str) -> YamlValue {
    YamlValue::Str(x.to_string())
}

fn imap(pairs: &[(&str, &str)]) -> InterfaceMap {
    let mut m = InterfaceMap::new();
    for (k, v) in pairs {
        m.insert(k.to_string(), v.to_string());
    }
    m
}

fn app(entries: Vec<(&str, YamlValue)>) -> YamlMapping {
    entries.into_iter().map(|(k, v)| (s(k), v)).collect()
}

#[test]
fn setup_commands_translated_in_order() {
    let cmds = app(vec![(
        "setup",
        YamlValue::List(vec![s("config-fdb --port 0 --vf 4 pci0"), s("shell echo pci0"), s("")]),
    )]);
    let m = imap(&[("pci0", "0000:08:00.0")]);
    assert_eq!(
        host_setup_commands(&cmds, &m),
        Some(vec![
            format!("bash {}/config-fdb --port 0 --vf 4 0000:08:00.0\n", REMOTE_SCRIPTS_PATH),
            "echo 0000:08:00.0".to_string(),
        ])
    );
}

#[test]
fn setup_commands_absent_or_malformed() {
    let m = imap(&[]);
    assert_eq!(host_setup_commands(&app(vec![("agent", s("scapy"))]), &m), Some(vec![]));
    assert_eq!(host_setup_commands(&app(vec![("setup", s("x"))]), &m), None);
    assert_eq!(
        host_setup_commands(&app(vec![("setup", YamlValue::List(vec![YamlValue::Null]))]), &m),
        None
    );
    let too_many = YamlValue::List((0..APP_CONFIGURATION_COMMANDS_MAX + 1).map(|i| s(&format!("s{i}"))).collect());
    assert_eq!(host_setup_commands(&app(vec![("setup", too_many)]), &m), None);
    let full = YamlValue::List((0..APP_CONFIGURATION_COMMANDS_MAX).map(|i| s(&format!("s{i}"))).collect());
    assert_eq!(host_setup_commands(&app(vec![("setup", full)]), &m).unwrap().len(), APP_CONFIGURATION_COMMANDS_MAX);
}

#[test]
fn testpmd_command_from_path_and_template() {
    let cmd = app(vec![("agent", s("testpmd")), ("cmd", s("dpdk-testpmd -a pci0 -- -i"))]);
    let cfg = app(vec![("host", s("10.0.0.1")), ("path", s("/opt/dpdk"))]);
    let m = imap(&[("pci0", "0000:08:00.0")]);
    assert_eq!(
        testpmd_command_line(&cmd, &cfg, &m),
        Some("/opt/dpdk/dpdk-testpmd -a 0000:08:00.0 -- -i".to_string())
    );
    assert_eq!(testpmd_command_line(&cmd, &app(vec![("host", s("h"))]), &m), None);
    assert_eq!(testpmd_command_line(&app(vec![]), &cfg, &m), None);
}

#[test]
fn testpmd_prompt_detection() {
    assert!(testpmd_ready("Configuring Port 0\ntestpmd> "));
    assert!(!testpmd_ready("Configuring Port 0\n"));
}

#[test]
fn netdev_commands() {
    let m = imap(&[("pf0", "eth2"), ("pf1", "eth3")]);
    let (ifup, scapy) = netdev_setup_commands(&m);
    assert_eq!(ifup, "ip link set up dev eth2\nip link set up dev eth3\n");
    assert_eq!(scapy, "pf0 = 'eth2'\npf1 = 'eth3'\n");
    let (e1, e2) = netdev_setup_commands(&InterfaceMap::new());
    assert_eq!((e1.as_str(), e2.as_str()), ("", ""));
}

fn exec_of(a: &ResetAction) -> &str {
    match a {
        ResetAction::Exec(c) => c.as_str(),
        _ => panic!("expected a command"),
    }
}

#[test]
fn reset_physical_host() {
    let (st, a) = reset_step(ResetState::Start, 0, "mt4125");
    assert_eq!((st, exec_of(&a)), (ResetState::Probed, "test -e /workspace"));
    let (st, a) = reset_step(st, 1, "mt4125");
    assert_eq!((st, exec_of(&a)), (ResetState::MstRestarted, "mst restart"));
    let (st, a) = reset_step(st, 0, "mt4125");
    assert_eq!(
        (st, exec_of(&a)),
        (ResetState::FirmwareReset, "mlxfwreset -d /dev/mst/mt4125_pciconf0 r --yes --level 3")
    );
    let (st, a) = reset_step(st, 0, "mt4125");
    assert_eq!((st, exec_of(&a)), (ResetState::OfedRestarted, "/etc/init.d/openibd force-restart"));
    // a failed OFED restart is tolerated
    let (st, a) = reset_step(st, 7, "mt4125");
    assert_eq!((st, exec_of(&a)), (ResetState::FinalMst, "mst restart"));
    let (st, a) = reset_step(st, 0, "mt4125");
    assert_eq!(st, ResetState::Finished);
    assert!(matches!(a, ResetAction::Done));
}

#[test]
fn reset_cloud_host() {
    let (st, a) = reset_step(ResetState::Probed, 0, "mt4125");
    assert_eq!((st, exec_of(&a)), (ResetState::Rebooting, "/usr/sbin/reboot"));
    let (st, a) = reset_step(st, 255, "mt4125");
    assert_eq!(st, ResetState::HostUp);
    assert!(matches!(a, ResetAction::WaitForHost));
    let (st, a) = reset_step(st, 0, "mt4125");
    assert_eq!((st, exec_of(&a)), (ResetState::FinalMst, "mst restart"));
}

#[test]
fn reset_failures() {
    let (st, a) = reset_step(ResetState::MstRestarted, 1, "mt");
    assert_eq!(st, ResetState::Finished);
    assert!(matches!(a, ResetAction::Fail(ResetFailure::MstRestart)));
    let (_, a) = reset_step(ResetState::FirmwareReset, 1, "mt");
    assert!(matches!(a, ResetAction::Fail(ResetFailure::FirmwareReset)));
    let (_, a) = reset_step(ResetState::FinalMst, 2, "mt");
    assert!(matches!(a, ResetAction::Fail(ResetFailure::MstRestart)));
    let (st, a) = reset_step(ResetState::Finished, 0, "mt");
    assert_eq!(st, ResetState::Finished);
    assert!(matches!(a, ResetAction::Done));
}

#[test]
fn reset_always_finishes_in_six_steps() {
    for statuses in [[0, 0, 0, 0, 0, 0], [1, 1, 1, 1, 1, 1], [1, 0, 0, 1, 0, 0], [0, 1, 0, 0, 0, 0], [1, 0, 1, 0, 0, 0]] {
        let mut st = ResetState::Start;
        for code in statuses {
            st = reset_step(st, code, "mt4125").0;
        }
        assert_eq!(st, ResetState::Finished);
    }
}

#[test]
fn stored_section_offset() {
    let text = "dut:\n  host: 10.0.0.1\ninterfaces:\n  10.0.0.1: []\n";
    assert_eq!(interfaces_offset(text), text.find("interfaces:"));
    assert_eq!(interfaces_offset(text), Some(22));
    let kept = &text[..interfaces_offset(text).unwrap()];
    assert!(!kept.contains("interfaces:"));
    assert_eq!(kept, "dut:\n  host: 10.0.0.1\n");
    assert_eq!(interfaces_offset("dut:\n  host: x\n"), None);
    assert_eq!(interfaces_offset("é\ninterfaces:"), Some(3));
    assert_eq!(interfaces_offset(""), None);
}

#[test]
fn trimming_undoes_the_stored_section() {
    let f = "dut:\n  host: 10.0.0.1\n";
    let stored = format!("{f}interfaces:\n  10.0.0.1:\n  - pci: {{}}\n");
    let offset = interfaces_offset(&stored).unwrap();
    assert_eq!(&stored[..offset], f);
    assert_eq!(interfaces_offset(f), None);
    // a file ending in part of the key still trims at the stored section
    let g = "note: interfac";
    let stored2 = format!("{g}interfaces:\n");
    assert_eq!(interfaces_offset(&stored2), Some(g.len()));
}
