//! The commands that prepare a host and start its applications.
use vstd::prelude::*;
use vstd::string::StringSliceAdditionalSpecFns;
use crate::interfaces::{InterfaceMap, translatable, translate_interfaces, translate_spec};
use crate::text::{chars_of, string_of};
use crate::yaml::{YamlMapping, YamlValue, as_sequence, as_str, lookup, lookup_str, get_str, mapping_get, value_as_sequence, value_as_str};

verus! {

/// Where the host configuration scripts are copied.
pub const REMOTE_SCRIPTS_PATH: &'static str = "/var/run/dpdk-utest";

/// Where the host configuration scripts are taken from.
pub const LOCAL_SCRIPTS_PATH: &'static str = "rhost-config";

/// At most this many setup commands per application.
pub const APP_CONFIGURATION_COMMANDS_MAX: usize = 8;

pub open spec fn key_setup() -> Seq<char> {
    seq!['s', 'e', 't', 'u', 'p']
}

pub open spec fn shell_prefix() -> Seq<char> {
    seq!['s', 'h', 'e', 'l', 'l', ' ']
}

/// The remote command of one setup entry: `shell <command>` runs the command itself,
/// anything else runs as a configuration script.
pub open spec fn setup_command(script: Seq<char>) -> Seq<char> {
    if script.len() >= 6 && script.take(6) == shell_prefix() {
        script.skip(6)
    } else {
        "bash "@ + REMOTE_SCRIPTS_PATH@ + "/"@ + script + "\n"@
    }
}

/// The remote commands of the translated setup entries, skipping empty ones.
pub open spec fn setup_commands_of(scripts: Seq<Seq<char>>) -> Seq<Seq<char>>
    decreases scripts.len(),
{
    if scripts.len() == 0 {
        Seq::empty()
    } else if scripts[0].len() == 0 {
        setup_commands_of(scripts.skip(1))
    } else {
        seq![setup_command(scripts[0])] + setup_commands_of(scripts.skip(1))
    }
}

/// The setup commands of an application: its `setup` entries, translated with the
/// interface map, as remote commands in order; none without `setup`. `None` when
/// `setup` is not a list of at most `APP_CONFIGURATION_COMMANDS_MAX` strings, or when
/// there is an entry to translate and the map cannot translate.
pub open spec fn setup_spec(commands: Seq<(YamlValue, YamlValue)>, interfaces: Seq<(Seq<char>, Seq<char>)>) -> Option<
    Seq<Seq<char>>,
> {
    match lookup(commands, key_setup()) {
        None => Some(Seq::empty()),
        Some(v) => match as_sequence(v) {
            None => None,
            Some(items) => if items.len() > APP_CONFIGURATION_COMMANDS_MAX || !crate::matching::all_strings(
                items,
            ) || (items.len() > 0 && !translatable(interfaces)) {
                None
            } else {
                Some(
                    setup_commands_of(
                        items.map_values(
                            |v: YamlValue| translate_spec(as_str(v).unwrap(), interfaces),
                        ),
                    ),
                )
            },
        },
    }
}

fn setup_command_exec(script: &String) -> (r: String)
    ensures
        r@ == setup_command(script@),
{
    let v = chars_of(script.as_str());
    let p = vec!['s', 'h', 'e', 'l', 'l', ' '];
    assert(p@ =~= shell_prefix());
    if crate::text::starts_with_chars(&v, &p) {
        let mut out: Vec<char> = Vec::new();
        crate::text::extend_from(&mut out, &v, 6);
        string_of(&out)
    } else {
        let mut r = crate::interfaces::cat4("bash ", REMOTE_SCRIPTS_PATH, "/", script.as_str());
        r.append("\n");
        r
    }
}

/// The setup commands of an application (see `setup_spec`).
pub fn host_setup_commands(commands: &YamlMapping, interfaces: &InterfaceMap) -> (r: Option<
    Vec<String>,
>)
    ensures
        match r {
            None => setup_spec(commands@, interfaces@) is None,
            Some(v) => setup_spec(commands@, interfaces@) == Some(
                v@.map_values(|s: String| s@),
            ),
        },
{
    proof {
        reveal_strlit("setup");
        assert("setup"@ =~= key_setup());
    }
    let items = match mapping_get(commands, "setup") {
        None => {
            let r: Vec<String> = Vec::new();
            assert(r@.map_values(|s: String| s@) =~= Seq::<Seq<char>>::empty());
            return Some(r);
        },
        Some(v) => match value_as_sequence(v) {
            None => {
                return None;
            },
            Some(items) => items,
        },
    };
    if items.len() > APP_CONFIGURATION_COMMANDS_MAX {
        return None;
    }
    let mut scripts: Vec<String> = Vec::new();
    let mut i: usize = 0;
    assert(crate::yaml::lookup_sequence(commands@, key_setup()) == Some(items@));
    while i < items.len()
        invariant
            i <= items.len(),
            "setup"@ == key_setup(),
            crate::yaml::lookup_sequence(commands@, key_setup()) == Some(items@),
            scripts@.len() == i,
            forall|j: int| 0 <= j < i ==> (#[trigger] as_str(items@[j])) is Some,
        decreases items.len() - i,
    {
        match value_as_str(&items[i]) {
            None => {
                assert(!crate::matching::all_strings(items@));
                return None;
            },
            Some(s) => {
                scripts.push(s.clone());
            },
        }
        i += 1;
    }
    if items.len() > 0 {
        match crate::interfaces::translate_interfaces_checked("", interfaces) {
            None => {
                return None;
            },
            Some(_) => {},
        }
    }
    let ghost translated = items@.map_values(
        |v: YamlValue| translate_spec(as_str(v).unwrap(), interfaces@),
    );
    let mut out: Vec<String> = Vec::new();
    let mut k = items.len();
    assert(translated.skip(items.len() as int).len() == 0);
    while k > 0
        invariant
            k <= items.len(),
            items.len() > 0 ==> translatable(interfaces@),
            translated == items@.map_values(
                |v: YamlValue| translate_spec(as_str(v).unwrap(), interfaces@),
            ),
            forall|j: int| 0 <= j < items.len() ==> (#[trigger] as_str(items@[j])) is Some,
            out@.map_values(|s: String| s@).reverse() == setup_commands_of(
                translated.skip(k as int),
            ),
        decreases k,
    {
        let idx = k - 1;
        let s = value_as_str(&items[idx]).unwrap();
        let t = translate_interfaces(s.as_str(), interfaces);
        assert(translated.skip(idx as int).skip(1) =~= translated.skip(k as int));
        assert(translated.skip(idx as int)[0] == translated[idx as int]);
        assert(t@ == translated[idx as int]);
        if !t.as_str().is_empty() {
            let c = setup_command_exec(&t);
            let ghost before = out@.map_values(|s: String| s@);
            out.push(c);
            assert(out@.map_values(|s: String| s@) =~= before.push(c@));
            assert(before.push(c@).reverse() =~= seq![c@] + before.reverse());
        }
        k -= 1;
    }
    assert(translated.skip(0) =~= translated);
    let mut res: Vec<String> = Vec::new();
    let mut j = out.len();
    while j > 0
        invariant
            j <= out.len(),
            res@.map_values(|s: String| s@) == out@.map_values(|s: String| s@).reverse().take(
                (out.len() - j) as int,
            ),
        decreases j,
    {
        res.push(out[j - 1].clone());
        assert(out@.map_values(|s: String| s@).reverse().take((out.len() - j + 1) as int)
            =~= out@.map_values(|s: String| s@).reverse().take((out.len() - j) as int).push(
            out@[j - 1]@,
        ));
        assert(res@.map_values(|s: String| s@) =~= out@.map_values(|s: String| s@).reverse().take(
            (out.len() - j + 1) as int,
        ));
        j -= 1;
    }
    assert(out@.map_values(|s: String| s@).reverse().take(out.len() as int) =~= out@.map_values(
        |s: String| s@,
    ).reverse());
    Some(res)
}

pub open spec fn key_cmd() -> Seq<char> {
    seq!['c', 'm', 'd']
}

pub open spec fn key_path() -> Seq<char> {
    seq!['p', 'a', 't', 'h']
}

/// The command that starts testpmd: `<path>/<cmd>`, the application's `cmd` translated
/// with the PCI map and its `path` taken from the hosts file; `None` when either entry
/// is missing or not a string, or the map cannot translate.
pub open spec fn testpmd_spec(
    app_cmd: Seq<(YamlValue, YamlValue)>,
    app_config: Seq<(YamlValue, YamlValue)>,
    pci_map: Seq<(Seq<char>, Seq<char>)>,
) -> Option<Seq<char>> {
    match (lookup_str(app_cmd, key_cmd()), lookup_str(app_config, key_path())) {
        (Some(tmpl), Some(path)) => if translatable(pci_map) {
            Some(path + "/"@ + translate_spec(tmpl, pci_map))
        } else {
            None
        },
        _ => None,
    }
}

/// The command that starts testpmd (see `testpmd_spec`).
pub fn testpmd_command_line(app_cmd: &YamlMapping, app_config: &YamlMapping, pci_map: &InterfaceMap) -> (r:
    Option<String>)
    ensures
        match r {
            None => testpmd_spec(app_cmd@, app_config@, pci_map@) is None,
            Some(c) => testpmd_spec(app_cmd@, app_config@, pci_map@) == Some(c@),
        },
{
    proof {
        reveal_strlit("cmd");
        reveal_strlit("path");
        assert("cmd"@ =~= key_cmd());
        assert("path"@ =~= key_path());
    }
    let tmpl = match get_str(app_cmd, "cmd") {
        None => {
            return None;
        },
        Some(t) => t,
    };
    let path = match get_str(app_config, "path") {
        None => {
            return None;
        },
        Some(p) => p,
    };
    match crate::interfaces::translate_interfaces_checked(tmpl.as_str(), pci_map) {
        None => None,
        Some(t) => Some(crate::interfaces::cat3(path.as_str(), "/", t.as_str())),
    }
}

/// Whether testpmd has started: its output shows the `testpmd>` prompt.
pub fn testpmd_ready(output: &str) -> (r: bool)
    ensures
        r == crate::text::contains_seq(output@, "testpmd>"@),
{
    crate::text::str_contains(output, "testpmd>")
}

/// The commands that bring up the network devices of a map and name them in scapy:
/// `ip link set up dev <netdev>` for every device, and `<name> = '<netdev>'`.
pub open spec fn ifup_lines(m: Seq<(Seq<char>, Seq<char>)>) -> Seq<char>
    decreases m.len(),
{
    if m.len() == 0 {
        Seq::empty()
    } else {
        ifup_lines(m.drop_last()) + "ip link set up dev "@ + m.last().1 + "\n"@
    }
}

pub open spec fn scapy_lines(m: Seq<(Seq<char>, Seq<char>)>) -> Seq<char>
    decreases m.len(),
{
    if m.len() == 0 {
        Seq::empty()
    } else {
        scapy_lines(m.drop_last()) + m.last().0 + " = \'"@ + m.last().1 + "\'\n"@
    }
}

/// The shell command that brings up the devices of `netdev_map`, and the scapy
/// command that names them.
pub fn netdev_setup_commands(netdev_map: &InterfaceMap) -> (r: (String, String))
    ensures
        r.0@ == ifup_lines(netdev_map@),
        r.1@ == scapy_lines(netdev_map@),
{
    let mut ifup_cmd = String::new();
    let mut scapy_cmd = String::new();
    let mut i: usize = 0;
    while i < netdev_map.entries.len()
        invariant
            i <= netdev_map.entries.len(),
            ifup_cmd@ == ifup_lines(netdev_map@.take(i as int)),
            scapy_cmd@ == scapy_lines(netdev_map@.take(i as int)),
        decreases netdev_map.entries.len() - i,
    {
        let key = &netdev_map.entries[i].0;
        let dev = &netdev_map.entries[i].1;
        assert(netdev_map@.take(i + 1).drop_last() =~= netdev_map@.take(i as int));
        assert(netdev_map@.take(i + 1).last() == (key@, dev@));
        ifup_cmd.append("ip link set up dev ");
        ifup_cmd.append(dev.as_str());
        ifup_cmd.append("\n");
        scapy_cmd.append(key.as_str());
        scapy_cmd.append(" = \'");
        scapy_cmd.append(dev.as_str());
        scapy_cmd.append("\'\n");
        i += 1;
    }
    assert(netdev_map@.take(netdev_map.entries.len() as int) =~= netdev_map@);
    (ifup_cmd, scapy_cmd)
}

/// Where the reset of a host stands.
#[derive(PartialEq, Eq, Structural, Clone, Copy, Debug)]
pub enum ResetState {
    /// Nothing done yet.
    Start,
    /// Waiting for the result of the probe for `/workspace` (a cloud host has it).
    Probed,
    /// Physical host: waiting for the first MST restart.
    MstRestarted,
    /// Physical host: waiting for the firmware reset.
    FirmwareReset,
    /// Physical host: waiting for the OFED driver restart.
    OfedRestarted,
    /// Cloud host: the reboot was sent.
    Rebooting,
    /// Cloud host: it is reachable again.
    HostUp,
    /// Waiting for the final MST restart.
    FinalMst,
    /// The reset has completed.
    Finished,
}

/// Why a host reset stops.
#[derive(PartialEq, Eq, Structural, Clone, Copy, Debug)]
pub enum ResetFailure {
    MstRestart,
    FirmwareReset,
}

/// What the runner does next for a host reset.
pub enum ResetAction {
    /// Run this command on the host and report its exit status.
    Exec(String),
    /// Wait until the host accepts SSH connections again, then report status 0.
    WaitForHost,
    /// Stop: the reset failed.
    Fail(ResetFailure),
    /// The reset has completed.
    Done,
}

/// `ResetAction` with its command as characters.
pub enum ResetActionV {
    Exec(Seq<char>),
    WaitForHost,
    Fail(ResetFailure),
    Done,
}

impl View for ResetAction {
    type V = ResetActionV;

    open spec fn view(&self) -> ResetActionV {
        match self {
            ResetAction::Exec(c) => ResetActionV::Exec(c@),
            ResetAction::WaitForHost => ResetActionV::WaitForHost,
            ResetAction::Fail(f) => ResetActionV::Fail(*f),
            ResetAction::Done => ResetActionV::Done,
        }
    }
}

/// The firmware reset command for MT device `mtdev`.
pub open spec fn fw_reset_command(mtdev: Seq<char>) -> Seq<char> {
    "mlxfwreset -d /dev/mst/"@ + mtdev + "_pciconf0 r --yes --level 3"@
}

/// The reset of a host, one step at a time: the state it moves to and what to do,
/// given the exit status of the last command. A physical host restarts MST, resets the
/// firmware of `mtdev` and restarts the OFED driver (whose failure is tolerated); a
/// cloud host (one with `/workspace`) reboots and is waited for. Both end with an MST
/// restart. A failed MST restart or firmware reset stops the reset.
pub open spec fn reset_spec(state: ResetState, status: i32, mtdev: Seq<char>) -> (ResetState, ResetActionV) {
    match state {
        ResetState::Start => (ResetState::Probed, ResetActionV::Exec("test -e /workspace"@)),
        ResetState::Probed => if status != 0 {
            (ResetState::MstRestarted, ResetActionV::Exec("mst restart"@))
        } else {
            (ResetState::Rebooting, ResetActionV::Exec("/usr/sbin/reboot"@))
        },
        ResetState::MstRestarted => if status != 0 {
            (ResetState::Finished, ResetActionV::Fail(ResetFailure::MstRestart))
        } else {
            (ResetState::FirmwareReset, ResetActionV::Exec(fw_reset_command(mtdev)))
        },
        ResetState::FirmwareReset => if status != 0 {
            (ResetState::Finished, ResetActionV::Fail(ResetFailure::FirmwareReset))
        } else {
            (ResetState::OfedRestarted, ResetActionV::Exec("/etc/init.d/openibd force-restart"@))
        },
        ResetState::OfedRestarted => (ResetState::FinalMst, ResetActionV::Exec("mst restart"@)),
        ResetState::Rebooting => (ResetState::HostUp, ResetActionV::WaitForHost),
        ResetState::HostUp => (ResetState::FinalMst, ResetActionV::Exec("mst restart"@)),
        ResetState::FinalMst => if status != 0 {
            (ResetState::Finished, ResetActionV::Fail(ResetFailure::MstRestart))
        } else {
            (ResetState::Finished, ResetActionV::Done)
        },
        ResetState::Finished => (ResetState::Finished, ResetActionV::Done),
    }
}

/// One step of a host reset (see `reset_spec`).
pub fn reset_step(state: ResetState, status: i32, mtdev: &str) -> (r: (ResetState, ResetAction))
    ensures
        (r.0, r.1@) == reset_spec(state, status, mtdev@),
{
    match state {
        ResetState::Start => (ResetState::Probed, ResetAction::Exec("test -e /workspace".to_owned())),
        ResetState::Probed => if status != 0 {
            (ResetState::MstRestarted, ResetAction::Exec("mst restart".to_owned()))
        } else {
            (ResetState::Rebooting, ResetAction::Exec("/usr/sbin/reboot".to_owned()))
        },
        ResetState::MstRestarted => if status != 0 {
            (ResetState::Finished, ResetAction::Fail(ResetFailure::MstRestart))
        } else {
            (
                ResetState::FirmwareReset,
                ResetAction::Exec(
                    crate::interfaces::cat3(
                        "mlxfwreset -d /dev/mst/",
                        mtdev,
                        "_pciconf0 r --yes --level 3",
                    ),
                ),
            )
        },
        ResetState::FirmwareReset => if status != 0 {
            (ResetState::Finished, ResetAction::Fail(ResetFailure::FirmwareReset))
        } else {
            (
                ResetState::OfedRestarted,
                ResetAction::Exec("/etc/init.d/openibd force-restart".to_owned()),
            )
        },
        ResetState::OfedRestarted => (ResetState::FinalMst, ResetAction::Exec("mst restart".to_owned())),
        ResetState::Rebooting => (ResetState::HostUp, ResetAction::WaitForHost),
        ResetState::HostUp => (ResetState::FinalMst, ResetAction::Exec("mst restart".to_owned())),
        ResetState::FinalMst => if status != 0 {
            (ResetState::Finished, ResetAction::Fail(ResetFailure::MstRestart))
        } else {
            (ResetState::Finished, ResetAction::Done)
        },
        ResetState::Finished => (ResetState::Finished, ResetAction::Done),
    }
}

/// `needle` occurs in the bytes `h` at `i`.
pub open spec fn bytes_at(h: Seq<u8>, needle: Seq<u8>, i: int) -> bool {
    0 <= i && i + needle.len() <= h.len() && h.subrange(i, i + needle.len()) == needle
}

/// The bytes of `interfaces:`, the key that starts the stored section of a hosts file.
pub open spec fn section_key() -> Seq<u8> {
    seq![105u8, 110u8, 116u8, 101u8, 114u8, 102u8, 97u8, 99u8, 101u8, 115u8, 58u8]
}

/// The byte offset where the stored `interfaces:` section of a hosts file starts, if
/// it has one: the first occurrence of `interfaces:`.
pub fn interfaces_offset(buffer: &str) -> (r: Option<usize>)
    ensures
        match r {
            Some(i) => bytes_at(buffer.spec_bytes(), section_key(), i as int)
                && forall|j: int| 0 <= j < i ==> !bytes_at(
                    buffer.spec_bytes(),
                    section_key(),
                    j,
                ),
            None => forall|j: int| 0 <= j ==> !bytes_at(
                buffer.spec_bytes(),
                section_key(),
                j,
            ),
        },
{
    let h = buffer.as_bytes();
    let n: Vec<u8> = vec![105u8, 110u8, 116u8, 101u8, 114u8, 102u8, 97u8, 99u8, 101u8, 115u8, 58u8];
    assert(n@ =~= section_key());
    let mut i: usize = 0;
    while i < h.len()
        invariant
            h@ == buffer.spec_bytes(),
            n@ == section_key(),
            i <= h.len(),
            forall|j: int| 0 <= j < i ==> !bytes_at(h@, n@, j),
        decreases h.len() - i,
    {
        if n.len() <= h.len() - i {
            let mut k: usize = 0;
            let mut same = true;
            while k < n.len()
                invariant
                    i + n.len() <= h.len(),
                    k <= n.len(),
                    same == forall|m: int| 0 <= m < k ==> h@[i + m] == n@[m],
                decreases n.len() - k,
            {
                if h[i + k] != n[k] {
                    same = false;
                }
                k += 1;
            }
            if same {
                assert(h@.subrange(i as int, i + n.len()) =~= n@);
                return Some(i);
            } else {
                assert(!bytes_at(h@, n@, i as int)) by {
                    if bytes_at(h@, n@, i as int) {
                        assert forall|m: int| 0 <= m < n.len() implies h@[i + m] == n@[m] by {
                            assert(h@.subrange(i as int, i + n.len())[m] == h@[i + m]);
                        }
                    }
                }
            }
        }
        i += 1;
    }
    if n.len() == 0 {
        assert(h@.subrange(i as int, i as int) =~= n@);
        return Some(i);
    }
    None
}

/// The state a reset reaches from `state` when its commands exit with `statuses`, one
/// per step.
pub open spec fn reset_run(state: ResetState, statuses: Seq<i32>, mtdev: Seq<char>) -> ResetState
    decreases statuses.len(),
{
    if statuses.len() == 0 {
        state
    } else {
        reset_run(reset_spec(state, statuses[0], mtdev).0, statuses.skip(1), mtdev)
    }
}

proof fn lemma_finished_stays(statuses: Seq<i32>, mtdev: Seq<char>)
    ensures
        reset_run(ResetState::Finished, statuses, mtdev) == ResetState::Finished,
    decreases statuses.len(),
{
    if statuses.len() > 0 {
        lemma_finished_stays(statuses.skip(1), mtdev);
    }
}

/// The number of steps that certainly bring a reset from `state` to its end.
pub open spec fn steps_left(state: ResetState) -> nat {
    match state {
        ResetState::Start => 6,
        ResetState::Probed => 5,
        ResetState::MstRestarted => 4,
        ResetState::FirmwareReset => 3,
        ResetState::OfedRestarted => 2,
        ResetState::Rebooting => 3,
        ResetState::HostUp => 2,
        ResetState::FinalMst => 1,
        ResetState::Finished => 0,
    }
}

proof fn lemma_run_finishes(state: ResetState, statuses: Seq<i32>, mtdev: Seq<char>)
    requires
        statuses.len() >= steps_left(state),
    ensures
        reset_run(state, statuses, mtdev) == ResetState::Finished,
    decreases statuses.len(),
{
    if state == ResetState::Finished {
        lemma_finished_stays(statuses, mtdev);
    } else {
        let next = reset_spec(state, statuses[0], mtdev).0;
        assert(steps_left(next) < steps_left(state));
        lemma_run_finishes(next, statuses.skip(1), mtdev);
    }
}

/// A host reset always comes to an end: whatever the exit statuses of its commands,
/// six steps from the start reach `Finished`, and it stays there.
pub proof fn law_reset_finishes(statuses: Seq<i32>, mtdev: Seq<char>)
    requires
        statuses.len() >= 6,
    ensures
        reset_run(ResetState::Start, statuses, mtdev) == ResetState::Finished,
{
    lemma_run_finishes(ResetState::Start, statuses, mtdev);
}

/// A reset reports `Done` only once its final MST restart has succeeded, or after it has
/// already finished.
pub proof fn law_reset_done_after_final_mst(state: ResetState, status: i32, mtdev: Seq<char>)
    ensures
        reset_spec(state, status, mtdev).1 is Done ==> (state == ResetState::FinalMst && status
            == 0) || state == ResetState::Finished,
{
}

/// Cutting a hosts file at `interfaces_offset` leaves no stored `interfaces:` section in
/// what is kept.
pub proof fn law_trimmed_file_has_no_section(buffer: Seq<u8>, i: int)
    requires
        0 <= i <= buffer.len(),
        forall|j: int| 0 <= j < i ==> !bytes_at(buffer, section_key(), j),
    ensures
        forall|j: int| 0 <= j ==> !#[trigger] bytes_at(buffer.take(i), section_key(), j),
{
    let needle = section_key();
    assert forall|j: int| 0 <= j implies !#[trigger] bytes_at(buffer.take(i), needle, j) by {
        if bytes_at(buffer.take(i), needle, j) {
            assert(buffer.take(i).subrange(j, j + needle.len()) =~= buffer.subrange(
                j,
                j + needle.len(),
            ));
            assert(bytes_at(buffer, needle, j));
        }
    }
}

/// Trimming undoes storing: a hosts file `f` without an `interfaces:` section, followed
/// by a stored document that starts with `interfaces:`, has its first section right
/// where `f` ends, so cutting there gives `f` back; `f` itself has no section, so
/// trimming it again leaves it unchanged.
pub proof fn law_trim_undoes_store(f: Seq<u8>, doc: Seq<u8>)
    requires
        forall|j: int| 0 <= j ==> !#[trigger] bytes_at(f, section_key(), j),
        doc.len() >= section_key().len(),
        doc.take(section_key().len() as int) == section_key(),
    ensures
        bytes_at(f + doc, section_key(), f.len() as int),
        forall|j: int| 0 <= j < f.len() ==> !#[trigger] bytes_at(f + doc, section_key(), j),
        (f + doc).take(f.len() as int) == f,
{
    let n = section_key();
    let h = f + doc;
    assert(h.subrange(f.len() as int, f.len() + n.len() as int) =~= doc.take(n.len() as int));
    assert forall|j: int| 0 <= j < f.len() implies !#[trigger] bytes_at(h, n, j) by {
        if bytes_at(h, n, j) {
            if j + n.len() <= f.len() {
                assert(f.subrange(j, j + n.len()) =~= h.subrange(j, j + n.len()));
                assert(bytes_at(f, n, j));
            } else {
                // the `:` that ends the key would fall inside the document's key, which
                // has no `:` before its end
                let k = j + 10 - f.len();
                assert(0 <= k < 10);
                assert(h.subrange(j, j + n.len())[10] == h[j + 10]);
                assert(h[j + 10] == doc[k]);
                assert(doc.take(n.len() as int)[k] == doc[k]);
                assert(n[10] == 58u8);
                assert(n[k] != 58u8);
            }
        }
    }
    assert(h.take(f.len() as int) =~= f);
}

} // verus!
