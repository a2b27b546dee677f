use dpdk_utest::listing::show_flow_commands;
use dpdk_utest::runner::{
    first_phase, flow_phases, flow_repeat, is_known_app, next_phase, phase_mapping, phase_name, phase_plan, test_flows,
    PlanError, Step,
};
use dpdk_utest::setup::{AppTag, RHost};
use dpdk_utest::yaml::{YamlMapping, YamlNumber, YamlValue};

fn s(x: &str) -> YamlValue {
    YamlValue::Str(x.to_string())
}

fn dict(entries: Vec<(&str, YamlValue)>) -> YamlValue {
    YamlValue::Dict(mapping(entries))
}

fn mapping(entries: Vec<(&str, YamlValue)>) -> YamlMapping {
    entries.into_iter().map(|(k, v)| (s(k), v)).collect()
}

fn num(n: u64) -> YamlValue {
    YamlValue::Num(YamlNumber { text: n.to_string(), unsigned: Some(n) })
}

fn strings(v: &[&str]) -> Vec<String> {
    v.iter().map(|x| x.to_string()).collect()
}

fn show(steps: &[Step]) -> Vec<String> {
    steps
        .iter()
        .map(|st| match st {
            Step::ClearOutputs => "clear".to_string(),
            Step::Command { app, cmd } => format!("cmd {app}: {cmd}"),
            Step::Check { app, expected } => format!("check {app}: {:?}", expected),
            Step::Delay => "delay".to_string(),
            Step::ReadOutputs => "read".to_string(),
            Step::Fail(e) => format!("fail {:?}", e),
        })
        .collect()
}

#[test]
fn phase_plan_in_entry_order() {
    let phase = mapping(vec![
        ("name", s("start")),
        ("dut", s("start\n")),
        (
            "tg",
            YamlValue::List(vec![
                dict(vec![("command", s("sendp(pkt)")), ("result", s("Sent 1"))]),
                dict(vec![("command", s("x"))]),
            ]),
        ),
        ("unknown", s("ignored")),
        ("result", dict(vec![("dut", s("received")), ("tg", YamlValue::Null)])),
    ]);
    let apps = strings(&["dut", "tg"]);
    let plan = phase_plan(&apps, &phase);
    assert_eq!(
        show(&plan),
        vec![
            "clear".to_string(),
            "cmd dut: start\n".to_string(),
            "cmd tg: sendp(pkt)".to_string(),
            format!("check tg: {:?}", s("Sent 1")),
            "cmd tg: x".to_string(),
            "delay".to_string(),
            "read".to_string(),
            format!("check dut: {:?}", s("received")),
            format!("check tg: {:?}", YamlValue::Null),
        ]
    );
}

#[test]
fn phase_plan_single_command_mapping() {
    let phase = mapping(vec![("dut", dict(vec![("command", s("stop"))]))]);
    let plan = phase_plan(&strings(&["dut"]), &phase);
    assert_eq!(show(&plan), strings(&["clear", "cmd dut: stop", "delay", "read"]));
}

#[test]
fn phase_plan_stops_at_failure() {
    let apps = strings(&["dut"]);
    let p1 = mapping(vec![("dut", num(5)), ("dut", s("never"))]);
    assert_eq!(
        show(&phase_plan(&apps, &p1)),
        vec!["clear".to_string(), format!("fail {:?}", PlanError::UnsupportedCommandFormat)]
    );
    let p2 = mapping(vec![("dut", YamlValue::List(vec![s("x")]))]);
    assert_eq!(
        show(&phase_plan(&apps, &p2)),
        vec!["clear".to_string(), format!("fail {:?}", PlanError::CommandItemNotMapping)]
    );
    let p3 = mapping(vec![("dut", dict(vec![("result", s("x"))]))]);
    assert_eq!(
        show(&phase_plan(&apps, &p3)),
        vec!["clear".to_string(), format!("fail {:?}", PlanError::MissingCommand)]
    );
    let p4 = vec![(YamlValue::Bool(true), s("x"))];
    assert_eq!(
        show(&phase_plan(&apps, &p4)),
        vec!["clear".to_string(), format!("fail {:?}", PlanError::KeyNotString)]
    );
    let p5 = mapping(vec![("dut", s("go")), ("result", s("x"))]);
    assert_eq!(
        show(&phase_plan(&apps, &p5)),
        vec![
            "clear".to_string(),
            "cmd dut: go".to_string(),
            "delay".to_string(),
            "read".to_string(),
            format!("fail {:?}", PlanError::ResultNotMapping),
        ]
    );
}

#[test]
fn phase_plan_failure_only_last() {
    let apps = strings(&["dut", "tg"]);
    let phases = vec![
        mapping(vec![("dut", s("a")), ("tg", num(1)), ("dut", s("b"))]),
        mapping(vec![("result", dict(vec![("dut", s("x"))])), ("tg", YamlValue::List(vec![YamlValue::Null]))]),
        mapping(vec![]),
    ];
    for p in phases.iter() {
        let plan = phase_plan(&apps, p);
        assert!(matches!(plan[0], Step::ClearOutputs));
        for st in plan.iter().take(plan.len() - 1) {
            assert!(!matches!(st, Step::Fail(_)));
        }
    }
}

#[test]
fn flows_and_phases() {
    let cmds = mapping(vec![(
        "flow",
        YamlValue::List(vec![
            dict(vec![("phases", YamlValue::List(vec![dict(vec![("name", s("p1"))])])), ("repeat", num(3))]),
            dict(vec![("phases", YamlValue::List(vec![]))]),
            s("not a flow"),
            dict(vec![("repeat", s("x"))]),
        ]),
    )]);
    let flows = test_flows(&cmds).unwrap();
    assert_eq!(flows.len(), 4);
    assert_eq!(flow_repeat(&flows[0]), Ok(3));
    assert_eq!(flow_repeat(&flows[1]), Ok(1));
    assert_eq!(flow_repeat(&flows[2]), Err(PlanError::FlowNotMapping));
    assert_eq!(flow_repeat(&flows[3]), Err(PlanError::BadRepeat));
    let phases = flow_phases(&flows[0]).unwrap();
    assert_eq!(phases.len(), 1);
    assert!(flow_phases(&flows[3]).err() == Some(PlanError::NoPhases));
    assert!(flow_phases(&flows[2]).err() == Some(PlanError::FlowNotMapping));
    let p = phase_mapping(&phases[0]).unwrap();
    assert_eq!(phase_name(p), Ok(Some("p1".to_string())));
    assert_eq!(phase_name(&mapping(vec![])), Ok(None));
    assert_eq!(phase_name(&mapping(vec![("name", num(1))])), Err(PlanError::BadPhaseName));
    assert!(phase_mapping(&s("x")).err() == Some(PlanError::PhaseNotMapping));
    assert!(test_flows(&mapping(vec![])).err() == Some(PlanError::NoFlow));
}

#[test]
fn known_apps() {
    let apps = strings(&["dut", "tg"]);
    assert!(is_known_app(&apps, &"tg".to_string()));
    assert!(!is_known_app(&apps, &"t".to_string()));
}

fn listing_commands() -> YamlMapping {
    let p1 = dict(vec![
        ("name", s("x")),
        ("dut", s("start\n")),
        ("tg", YamlValue::List(vec![dict(vec![("command", s("a\n"))]), dict(vec![("command", s("b\n"))])])),
    ]);
    let p2 = dict(vec![("dut", s("stop\n")), ("tg", dict(vec![("command", s("c\n"))]))]);
    mapping(vec![
        ("dut", dict(vec![("agent", s("testpmd")), ("cmd", s("dpdk-testpmd -i"))])),
        ("tg", dict(vec![("agent", s("scapy"))])),
        ("tg1", dict(vec![("agent", s("scapy"))])),
        ("flow", YamlValue::List(vec![dict(vec![("phases", YamlValue::List(vec![p1, p2]))])])),
    ])
}

#[test]
fn listing_per_application() {
    let h = RHost::new("10.0.0.1".to_string(), "k".to_string());
    let tags = vec![
        AppTag { app: "dut".to_string(), agent: "testpmd".to_string(), rhost: &h },
        AppTag { app: "tg".to_string(), agent: "scapy".to_string(), rhost: &h },
        AppTag { app: "tg1".to_string(), agent: "scapy".to_string(), rhost: &h },
    ];
    let l = show_flow_commands(&listing_commands(), &tags).ok().unwrap();
    let view: Vec<(&str, &str, &str)> =
        l.iter().map(|a| (a.app.as_str(), a.cmdline.as_str(), a.commands.as_str())).collect();
    assert_eq!(
        view,
        vec![
            ("dut", "dpdk-testpmd -i", "start\nstop\n"),
            ("tg", "scapy", "a\nb\n"),
            // no phase lists commands under `tg1`
            ("tg1", "scapy", ""),
        ]
    );
}

#[test]
fn listing_errors() {
    let h = RHost::new("10.0.0.1".to_string(), "k".to_string());
    let tags = vec![AppTag { app: "nope".to_string(), agent: "shell".to_string(), rhost: &h }];
    assert!(show_flow_commands(&listing_commands(), &tags).err() == Some(PlanError::AppNotMapping));
    let bad_cmd = mapping(vec![
        ("nope", dict(vec![("cmd", num(1))])),
        ("flow", YamlValue::List(vec![])),
    ]);
    assert!(show_flow_commands(&bad_cmd, &tags).err() == Some(PlanError::BadCmdLine));
    assert!(show_flow_commands(&mapping(vec![]), &tags).err() == Some(PlanError::NoFlow));
    let no_tags: Vec<AppTag> = vec![];
    assert_eq!(show_flow_commands(&listing_commands(), &no_tags).ok().map(|v| v.len()), Some(0));
}

#[test]
fn phase_plan_only_known_apps() {
    let apps = strings(&["dut"]);
    let phase = mapping(vec![
        ("tg", s("never sent")),
        ("dut", s("sent")),
        ("result", dict(vec![("tg", s("x")), ("dut", s("y"))])),
    ]);
    for st in phase_plan(&apps, &phase) {
        match st {
            Step::Command { app, .. } | Step::Check { app, .. } => assert_eq!(app, "dut"),
            _ => (),
        }
    }
}

#[test]
fn listing_only_own_id() {
    let h = RHost::new("10.0.0.1".to_string(), "k".to_string());
    let phase = dict(vec![("tg", s("a\n")), ("tg2", s("b\n"))]);
    let cmds = mapping(vec![
        ("tg", dict(vec![("agent", s("scapy"))])),
        ("tg2", dict(vec![("agent", s("scapy"))])),
        ("flow", YamlValue::List(vec![dict(vec![("phases", YamlValue::List(vec![phase]))])])),
    ]);
    let tags = vec![
        AppTag { app: "tg".to_string(), agent: "scapy".to_string(), rhost: &h },
        AppTag { app: "tg2".to_string(), agent: "scapy".to_string(), rhost: &h },
    ];
    let l = show_flow_commands(&cmds, &tags).ok().unwrap();
    assert_eq!(l[0].commands, "a\n");
    assert_eq!(l[1].commands, "b\n");
}

#[test]
fn flow_runs_phases_in_order_repeat_times() {
    let mut seen = vec![];
    let mut at = first_phase(2, 3);
    while let Some(c) = at {
        seen.push((c.cycle, c.phase));
        at = next_phase(2, 3, c);
    }
    assert_eq!(seen, vec![(1, 0), (1, 1), (1, 2), (2, 0), (2, 1), (2, 2)]);
    assert!(first_phase(0, 3).is_none());
    assert!(first_phase(4, 0).is_none());
    let mut one = vec![];
    let mut at = first_phase(3, 1);
    while let Some(c) = at {
        one.push((c.cycle, c.phase));
        at = next_phase(3, 1, c);
    }
    assert_eq!(one, vec![(1, 0), (2, 0), (3, 0)]);
}
