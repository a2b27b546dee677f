use dpdk_utest::mst::{fetch_mtdev, mst_status, MlxDevDb, MAX_HOST_PORTS_NUM};
use dpdk_utest::rhost::RHost;

const MST_OUTPUT: &str = "MST modules:\n\
------------\n\
    MST PCI configuration module loaded\n\
PCI devices:\n\
------------\n\
DEVICE_TYPE             MST                           PCI       RDMA            NET                     NUMA\n\
ConnectX6DX(rev:0)      /dev/mst/mt4125_pciconf0.1    08:00.1   mlx5_1          net-enp8s0f1np1         0\n\
ConnectX6DX(rev:0)      /dev/mst/mt4125_pciconf0      08:00.0   mlx5_0          net-enp8s0f0np0         0\n\
ConnectX7(rev:0)        /dev/mst/mt4129_pciconf0      0a:00.0   mlx5_2          net-enp10s0f0np0        0\n";

fn entries(db: &MlxDevDb) -> Vec<(String, Vec<String>)> {
    db.entries.clone()
}

fn slots(v: &[&str]) -> Vec<String> {
    v.iter().map(|s| s.to_string()).collect()
}

#[test]
fn mst_status_records_functions_by_slot() {
    let db = mst_status(MST_OUTPUT).unwrap();
    assert_eq!(
        entries(&db),
        vec![
            ("mt4125".to_string(), slots(&["0000:08:00.0", "0000:08:00.1", "", ""])),
            ("mt4129".to_string(), slots(&["0000:0a:00.0", "", "", ""])),
        ]
    );
    assert!(db.entries.iter().all(|e| e.1.len() == MAX_HOST_PORTS_NUM));
}

#[test]
fn mst_status_without_devices() {
    assert!(mst_status("MST modules:\n").is_none());
    assert!(mst_status("").is_none());
}

#[test]
fn mst_status_function_out_of_range() {
    assert!(mst_status("/dev/mst/mt4125_pciconf0 08:00.5\n").is_none());
    assert!(mst_status("/dev/mst/mt4125_pciconf0 08:00.a\n").is_none());
    assert!(mst_status("/dev/mst/mt4125_pciconf0 08:00.3\n").is_some());
}

#[test]
fn fetch_named_and_last_device() {
    let db = mst_status(MST_OUTPUT).unwrap();
    let (mt, pci) = fetch_mtdev(&db, Some("mt4125")).unwrap();
    assert_eq!(mt, "mt4125");
    assert_eq!(pci, slots(&["0000:08:00.0", "0000:08:00.1", "", ""]));
    let (last, pci2) = fetch_mtdev(&db, None).unwrap();
    assert_eq!(last, "mt4129");
    assert_eq!(pci2[0], "0000:0a:00.0");
    assert!(fetch_mtdev(&db, Some("mt9999")).is_none());
}

#[test]
fn db_set_and_find() {
    let mut db = MlxDevDb::new();
    db.set(&"mt1".to_string(), 2, "0000:01:00.2".to_string());
    db.set(&"mt1".to_string(), 0, "0000:01:00.0".to_string());
    assert_eq!(db.find("mt1"), Some(0));
    assert_eq!(db.find("mt2"), None);
    assert_eq!(entries(&db), vec![("mt1".to_string(), slots(&["0000:01:00.0", "", "0000:01:00.2", ""]))]);
}

#[test]
fn remote_host_commands_and_devices() {
    let mut h = RHost::new("10.0.0.1");
    assert_eq!(h.hostname(), "10.0.0.1");
    let c = h.exec("mst status -v");
    assert_eq!(c.host, "10.0.0.1");
    assert_eq!(c.line, "mst status -v\n");
    assert!(h.mst_db().entries.is_empty());
    assert!(h.mst_status(MST_OUTPUT));
    assert_eq!(h.mst_db().entries.len(), 2);
    // a listing without devices adds nothing to what is known
    assert!(h.mst_status("nothing"));
    assert_eq!(h.mst_db().entries.len(), 2);
    // a host that knows no device and lists none fails
    let mut fresh = RHost::new("10.0.0.2");
    assert!(!fresh.mst_status("nothing"));
    assert!(fresh.mst_db().entries.is_empty());
    // a later listing adds to what is known
    assert!(h.mst_status("/dev/mst/mt4125_pciconf0.2 08:00.2\n"));
    assert_eq!(h.mst_db().entries[0].1[2], "0000:08:00.2");
}
