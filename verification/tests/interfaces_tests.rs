use dpdk_utest::interfaces::{
    devlink_command, interfaces_document, interfaces_yaml, load_interfaces,
    load_interfaces_checked, needs_vf_scan, parse_devlink, parse_vfs, translate_interfaces,
    translate_interfaces_checked, vf_scan_command, HostInterfaces, InterfaceDb, InterfaceMap,
};
use dpdk_utest::yaml::YamlValue;

fn imap(pairs: &[(&str, &str)]) -> InterfaceMap {
    let mut m = InterfaceMap::new();
    for (k, v) in pairs {
        m.insert(k.to_string(), v.to_string());
    }
    m
}

fn pairs(m: &InterfaceMap) -> Vec<(String, String)> {
    m.entries.clone()
}

fn owned(p: &[(&str, &str)]) -> Vec<(String, String)> {
    p.iter().map(|(a, b)| (a.to_string(), b.to_string())).collect()
}

const DEVLINK: &str = "pci/0000:08:00.0/65535: type eth netdev enp8s0f0np0 flavour physical port 0 splittable false\n\
pci/0000:08:00.1/131071: type eth netdev enp8s0f1np1 flavour physical port 1 splittable false\n\
pci/0000:08:00.0/1: type eth netdev enp8s0f0pf0vf0 flavour pcivf controller 0 pfnum 0 vfnum 0 external false splittable false\n\
pci/0000:08:00.2/131072: type eth netdev enp8s0f0v0 flavour virtual splittable false\n";

const VIRTFN: &str = "lrwxrwxrwx 1 root root 0 Jan  1 00:00 /sys/bus/pci/devices/0000:08:00.0/virtfn0 -> ../0000:08:00.2\n";

#[test]
fn interface_map_insert_replaces() {
    let mut m = imap(&[("pf0", "eth0"), ("pf1", "eth1")]);
    m.insert("pf0".to_string(), "eth9".to_string());
    assert_eq!(pairs(&m), owned(&[("pf0", "eth9"), ("pf1", "eth1")]));
    assert_eq!(m.get("pf1"), Some(&"eth1".to_string()));
    assert_eq!(m.get("pf2"), None);
    assert_eq!(m.find("pf1"), Some(1));
}

#[test]
fn translate_whole_words() {
    let m = imap(&[("pci0", "0000:08:00.0"), ("pci1", "0000:08:00.1")]);
    assert_eq!(
        translate_interfaces("dpdk-testpmd -a pci0 -a pci1 -- -i", &m),
        "dpdk-testpmd -a 0000:08:00.0 -a 0000:08:00.1 -- -i"
    );
    // `pci0vf0` is not the word `pci0`: only the text from the word on is replaced
    assert_eq!(translate_interfaces("-a pci0vf0 -a pci0", &m), "-a pci0vf0 -a 0000:08:00.0");
    assert_eq!(translate_interfaces("-a pci0 -a pci0vf0", &m), "-a 0000:08:00.0 -a pci0vf0");
    assert_eq!(translate_interfaces("no names here", &m), "no names here");
}

#[test]
fn each_name_becomes_its_own_interface() {
    let a = imap(&[("pf0", "eth2"), ("pf0vf0", "eth2v0")]);
    let b = imap(&[("pf0vf0", "eth2v0"), ("pf0", "eth2")]);
    assert_eq!(translate_interfaces("iface=pf0 iface=pf0vf0", &a), "iface=eth2 iface=eth2v0");
    assert_eq!(translate_interfaces("iface=pf0 iface=pf0vf0", &b), "iface=eth2 iface=eth2v0");
    assert_eq!(translate_interfaces("pf0 pf0vf0 pf0,pf0", &a), "eth2 eth2v0 eth2,eth2");
}

#[test]
fn translate_with_identity_and_empty_maps() {
    let id = imap(&[("pf0", "pf0"), ("pci1", "pci1")]);
    assert_eq!(translate_interfaces("x pf0 pci1 pf0", &id), "x pf0 pci1 pf0");
    assert_eq!(translate_interfaces("x pf0", &InterfaceMap::new()), "x pf0");
}

#[test]
fn translate_checked_rejects_bad_names() {
    let bad = imap(&[("(", "x")]);
    assert_eq!(translate_interfaces_checked("a ( b", &bad), None);
    let good = imap(&[("pf0", "eth0")]);
    assert_eq!(translate_interfaces_checked("up pf0", &good), Some("up eth0".to_string()));
}

#[test]
fn devlink_ports_are_mapped() {
    let (pci, netdev) = parse_devlink(DEVLINK).unwrap();
    assert_eq!(pairs(&pci), owned(&[("pci0", "0000:08:00.0"), ("pci1", "0000:08:00.1")]));
    assert_eq!(
        pairs(&netdev),
        owned(&[("pf0", "enp8s0f0np0"), ("pf1", "enp8s0f1np1"), ("pf0rf0", "enp8s0f0pf0vf0")])
    );
    assert!(needs_vf_scan(DEVLINK));
    assert!(!needs_vf_scan("pci/0000:08:00.0/65535: type eth netdev x flavour physical port 0"));
}

#[test]
fn virtual_functions_are_mapped() {
    let (pci, netdev) = parse_devlink(DEVLINK).unwrap();
    let (pci, netdev) = parse_vfs(pci, netdev, VIRTFN, DEVLINK).unwrap();
    assert_eq!(
        pairs(&pci),
        owned(&[("pci0", "0000:08:00.0"), ("pci1", "0000:08:00.1"), ("pci0vf0", "0000:08:00.2")])
    );
    assert_eq!(
        pairs(&netdev),
        owned(&[
            ("pf0", "enp8s0f0np0"),
            ("pf1", "enp8s0f1np1"),
            ("pf0rf0", "enp8s0f0pf0vf0"),
            ("pf0vf0", "enp8s0f0v0"),
        ])
    );
}

#[test]
fn empty_listing_maps_nothing() {
    let (pci, netdev) = parse_devlink("").unwrap();
    assert!(pci.entries.is_empty());
    assert!(netdev.entries.is_empty());
}

#[test]
fn remote_listing_commands() {
    assert_eq!(devlink_command("0000:08:00.0"), "devlink port | grep 0000:08\n");
    assert_eq!(vf_scan_command("0000:08:00.0"), "ls -l /sys/bus/pci/devices/0000:08*/virtfn*\n");
}

fn sample_db() -> InterfaceDb {
    let mut db = InterfaceDb::new();
    db.insert(HostInterfaces {
        hostname: "10.0.0.1".to_string(),
        pci: imap(&[("pci0", "0000:08:00.0"), ("pci1", "0000:08:00.1")]),
        netdev: imap(&[("pf0", "eth2"), ("pf1", "eth3")]),
    });
    db.insert(HostInterfaces {
        hostname: "10.0.0.2".to_string(),
        pci: imap(&[("pci0", "0000:05:00.0")]),
        netdev: imap(&[]),
    });
    db
}

#[test]
fn stored_interfaces_load_back() {
    let db = sample_db();
    let doc = interfaces_document(&db);
    assert_eq!(doc.len(), 1);
    let m = match (&doc[0].0, &doc[0].1) {
        (YamlValue::Str(k), YamlValue::Dict(m)) if k == "interfaces" => m,
        _ => panic!("unexpected document shape"),
    };
    let back = load_interfaces_checked(m).unwrap();
    assert_eq!(back.hosts.len(), 2);
    for (a, b) in back.hosts.iter().zip(db.hosts.iter()) {
        assert_eq!(a.hostname, b.hostname);
        assert_eq!(pairs(&a.pci), pairs(&b.pci));
        assert_eq!(pairs(&a.netdev), pairs(&b.netdev));
    }
    let again = load_interfaces(&interfaces_yaml(&db));
    assert_eq!(again.hosts.len(), 2);
    assert_eq!(pairs(&again.hosts[1].pci), owned(&[("pci0", "0000:05:00.0")]));
}

#[test]
fn db_insert_replaces_host() {
    let mut db = sample_db();
    db.insert(HostInterfaces {
        hostname: "10.0.0.1".to_string(),
        pci: imap(&[]),
        netdev: imap(&[("pf0", "x")]),
    });
    assert_eq!(db.hosts.len(), 2);
    let h = db.get("10.0.0.1").unwrap();
    assert!(h.pci.entries.is_empty());
    assert_eq!(db.find("10.0.0.2"), Some(1));
    assert!(db.get("10.0.0.3").is_none());
}

#[test]
fn load_rejects_other_shapes() {
    let s = |x: &str| YamlValue::Str(x.to_string());
    // a host whose value is not a list
    let bad = vec![(s("h"), s("x"))];
    assert!(load_interfaces_checked(&bad).is_none());
    // a list entry that is neither `pci` nor `netdev` mapping
    let bad2 = vec![(s("h"), YamlValue::List(vec![YamlValue::Dict(vec![(s("other"), YamlValue::Dict(vec![]))])]))];
    assert!(load_interfaces_checked(&bad2).is_none());
    // a stored name map with a non-string value
    let bad3 = vec![(
        s("h"),
        YamlValue::List(vec![YamlValue::Dict(vec![(s("pci"), YamlValue::Dict(vec![(s("pci0"), YamlValue::Null)]))])]),
    )];
    assert!(load_interfaces_checked(&bad3).is_none());
}
