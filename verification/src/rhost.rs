//! A remote host that remembers what it learnt of its Mellanox devices.
use vstd::prelude::*;
use crate::mst::{MlxDevDb, MlxDevV, devs_distinct, mst_merge, mst_merge_spec, slots_ok, MST_STATUS_REGEX};
use crate::pattern::{Pattern, regex_captures, regex_compiles};

verus! {

/// What is known of a host's devices.
pub struct DevInfo {
    mst_status: MlxDevDb,
}

impl DevInfo {
    /// Nothing known yet.
    fn new() -> (r: DevInfo)
        ensures
            r.mst_status@ == Seq::<MlxDevV>::empty(),
    {
        DevInfo { mst_status: MlxDevDb::new() }
    }
}

/// A command to run on a remote host: the host's name and the line sent to its shell.
pub struct RemoteCommand {
    pub host: String,
    pub line: String,
}

/// A remote host, by name, with the devices recorded for it.
pub struct RHost {
    hostname: String,
    devinfo: DevInfo,
}

impl RHost {
    /// Every recorded device has its full set of function slots, and none is recorded
    /// twice.
    pub closed spec fn wf(&self) -> bool {
        slots_ok(self.devinfo.mst_status@) && devs_distinct(self.devinfo.mst_status@)
    }

    pub closed spec fn name(&self) -> Seq<char> {
        self.hostname@
    }

    pub closed spec fn devices(&self) -> Seq<MlxDevV> {
        self.devinfo.mst_status@
    }

    /// A host with no recorded devices.
    pub fn new(hostname: &str) -> (r: RHost)
        ensures
            r.wf(),
            r.name() == hostname@,
            r.devices() == Seq::<MlxDevV>::empty(),
    {
        RHost { hostname: hostname.to_owned(), devinfo: DevInfo::new() }
    }

    /// The host's name.
    pub fn hostname(&self) -> (r: &String)
        ensures
            r@ == self.name(),
    {
        &self.hostname
    }

    /// What running `cmd` on this host sends: the command as one line, ended by a newline.
    pub fn exec(&self, cmd: &str) -> (r: RemoteCommand)
        ensures
            r.host@ == self.name(),
            r.line@ == cmd@ + seq!['\n'],
    {
        let line = crate::text::concat(cmd, "\n");
        proof {
            reveal_strlit("\n");
        }
        RemoteCommand { host: self.hostname.clone(), line }
    }

    /// The devices recorded so far.
    pub fn mst_db(&self) -> (r: &MlxDevDb)
        ensures
            r@ == self.devices(),
    {
        &self.devinfo.mst_status
    }

    /// Adds what an `mst status -v` listing shows to the recorded devices. Returns
    /// `false`, recording nothing, when the regular expression does not compile, a
    /// match lacks a group or names no recorded slot, or no device would be recorded.
    pub fn mst_status(&mut self, output: &str) -> (ok: bool)
        requires
            old(self).wf(),
        ensures
            final(self).wf(),
            final(self).name() == old(self).name(),
            ok == (regex_compiles(MST_STATUS_REGEX@) && mst_merge_spec(
                old(self).devices(),
                regex_captures(MST_STATUS_REGEX@, output@),
            ) is Some),
            ok ==> Some(final(self).devices()) == mst_merge_spec(
                old(self).devices(),
                regex_captures(MST_STATUS_REGEX@, output@),
            ),
            !ok ==> final(self).devices() == old(self).devices(),
    {
        let p = match Pattern::new(MST_STATUS_REGEX) {
            None => {
                return false;
            },
            Some(p) => p,
        };
        let rows = p.captures(output);
        let copy = MlxDevDb { entries: copy_entries(&self.devinfo.mst_status.entries) };
        match mst_merge(copy, &rows) {
            Some(db) => {
                self.devinfo.mst_status = db;
                true
            },
            None => false,
        }
    }
}

/// A copy of device entries.
fn copy_entries(v: &Vec<(String, Vec<String>)>) -> (r: Vec<(String, Vec<String>)>)
    ensures
        r@.map_values(|e: (String, Vec<String>)| crate::mst::dev_view(e)) == v@.map_values(
            |e: (String, Vec<String>)| crate::mst::dev_view(e),
        ),
{
    let mut r: Vec<(String, Vec<String>)> = Vec::new();
    let mut i: usize = 0;
    while i < v.len()
        invariant
            i <= v.len(),
            r@.len() == i,
            forall|j: int|
                0 <= j < i ==> crate::mst::dev_view(r@[j]) == crate::mst::dev_view(v@[j]),
        decreases v.len() - i,
    {
        let slots = crate::mst::clone_strings(&v[i].1);
        r.push((v[i].0.clone(), slots));
        i += 1;
    }
    assert(r@.map_values(|e: (String, Vec<String>)| crate::mst::dev_view(e)) =~= v@.map_values(
        |e: (String, Vec<String>)| crate::mst::dev_view(e),
    ));
    r
}

} // verus!
