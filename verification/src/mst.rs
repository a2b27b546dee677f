//! Mellanox devices as `mst status -v` lists them: each MT device (`mt4125`, ...) with
//! the PCI addresses of its functions, slot `f` holding function `f`.
use vstd::prelude::*;
use crate::interfaces::{CaptureRows, CaptureRowsV, grp, row_ok};
use crate::pattern::{Pattern, regex_captures, regex_compiles};
use crate::xregex::{all_digits, digits_value};

verus! {

/// How many functions of a device are recorded.
pub const MAX_HOST_PORTS_NUM: usize = 4;

/// Each MT device with the PCI addresses of its functions (`MAX_HOST_PORTS_NUM`
/// slots, empty where no function was listed), in the order devices were first seen.
pub struct MlxDevDb {
    pub entries: Vec<(String, Vec<String>)>,
}

pub type MlxDevV = (Seq<char>, Seq<Seq<char>>);

pub open spec fn dev_view(e: (String, Vec<String>)) -> MlxDevV {
    (e.0@, e.1@.map_values(|s: String| s@))
}

impl View for MlxDevDb {
    type V = Seq<MlxDevV>;

    open spec fn view(&self) -> Seq<MlxDevV> {
        self.entries@.map_values(|e: (String, Vec<String>)| dev_view(e))
    }
}

/// A device with the PCI addresses of its functions.
pub type MlxDev = (String, Vec<String>);

/// Every device has exactly `MAX_HOST_PORTS_NUM` slots.
pub open spec fn slots_ok(db: Seq<MlxDevV>) -> bool {
    forall|i: int| 0 <= i < db.len() ==> (#[trigger] db[i]).1.len() == MAX_HOST_PORTS_NUM
}

/// The position of the first device named `k`, or -1.
pub open spec fn index_of_dev(db: Seq<MlxDevV>, k: Seq<char>) -> int
    decreases db.len(),
{
    if db.len() == 0 {
        -1
    } else if db.last().0 == k && index_of_dev(db.drop_last(), k) < 0 {
        db.len() - 1
    } else {
        index_of_dev(db.drop_last(), k)
    }
}

pub open spec fn empty_slots() -> Seq<Seq<char>> {
    seq![Seq::<char>::empty(), Seq::<char>::empty(), Seq::<char>::empty(), Seq::<char>::empty()]
}

/// The database after recording `addr` as function `f` of device `k`.
pub open spec fn dev_set(db: Seq<MlxDevV>, k: Seq<char>, f: int, addr: Seq<char>) -> Seq<MlxDevV> {
    let i = index_of_dev(db, k);
    if i < 0 {
        db.push((k, empty_slots().update(f, addr)))
    } else {
        db.update(i, (k, db[i].1.update(f, addr)))
    }
}

/// No device is listed twice.
pub open spec fn devs_distinct(db: Seq<MlxDevV>) -> bool {
    forall|i: int, j: int| 0 <= i < j < db.len() ==> db[i].0 != db[j].0
}

/// The function number written in a match: decimal digits, optionally after `+`
/// (what `usize::from_str` accepts), when it names one of the recorded slots.
pub open spec fn function_index(s: Seq<char>) -> Option<int> {
    let d = if s.len() > 0 && s[0] == '+' { s.skip(1) } else { s };
    if all_digits(d) && digits_value(d) < MAX_HOST_PORTS_NUM {
        Some(digits_value(d) as int)
    } else {
        None
    }
}

/// `0000:<bus>:<dev>.<function>`.
pub open spec fn pci_address(bus: Seq<char>, dev: Seq<char>, func: Seq<char>) -> Seq<char> {
    seq!['0', '0', '0', '0', ':'] + bus + seq![':'] + dev + seq!['.'] + func
}

/// Records the matches `[device, bus, dev, function]` of `MST_STATUS_REGEX`, in order;
/// `None` when a match lacks a group or its function is not a recorded slot.
pub open spec fn apply_mst_rows(db: Seq<MlxDevV>, rows: CaptureRowsV) -> Option<Seq<MlxDevV>>
    decreases rows.len(),
{
    if rows.len() == 0 {
        Some(db)
    } else {
        let r = rows[0];
        if !row_ok(r, 4) {
            None
        } else {
            match function_index(grp(r, 3)) {
                None => None,
                Some(f) => apply_mst_rows(
                    dev_set(db, grp(r, 0), f, pci_address(grp(r, 1), grp(r, 2), grp(r, 3))),
                    rows.skip(1),
                ),
            }
        }
    }
}

/// The device database after recording the matches; `None` also when it ends up empty.
pub open spec fn mst_merge_spec(db: Seq<MlxDevV>, rows: CaptureRowsV) -> Option<Seq<MlxDevV>> {
    match apply_mst_rows(db, rows) {
        Some(d) => if d.len() > 0 {
            Some(d)
        } else {
            None
        },
        None => None,
    }
}

/// `mst status -v` lines: `/dev/mst/<device>... <bus>:<dev>.<function>`.
pub const MST_STATUS_REGEX: &'static str =
    r#"(?m)/dev/mst/(mt[[:digit:]]{1,}).*([[:xdigit:]]{2}):([[:xdigit:]]{2})\.([[:xdigit:]]{1})"#;

proof fn lemma_index_of_dev(db: Seq<MlxDevV>, k: Seq<char>)
    ensures
        -1 <= index_of_dev(db, k) < db.len(),
        index_of_dev(db, k) >= 0 ==> db[index_of_dev(db, k)].0 == k,
        forall|j: int|
            0 <= j < db.len() && (index_of_dev(db, k) < 0 || j < index_of_dev(db, k)) ==> db[j].0
                != k,
    decreases db.len(),
{
    if db.len() > 0 {
        lemma_index_of_dev(db.drop_last(), k);
        assert forall|j: int|
            0 <= j < db.len() && (index_of_dev(db, k) < 0 || j < index_of_dev(db, k)) implies db[j].0
            != k by {
            if j < db.len() - 1 {
                assert(db.drop_last()[j] == db[j]);
            }
        }
    }
}

proof fn lemma_index_of_dev_is(db: Seq<MlxDevV>, k: Seq<char>, i: int)
    requires
        -1 <= i < db.len(),
        i >= 0 ==> db[i].0 == k,
        forall|j: int| 0 <= j < db.len() && (i < 0 || j < i) ==> db[j].0 != k,
    ensures
        index_of_dev(db, k) == i,
{
    lemma_index_of_dev(db, k);
    let r = index_of_dev(db, k);
    if r != i {
        if r < 0 {
            assert(db[i].0 != k);
        } else if i < 0 {
            assert(db[r].0 != k);
        } else if r < i {
            assert(db[r].0 != k);
        } else {
            assert(db[i].0 != k);
        }
    }
}

/// Parses a function number (see `function_index`).
fn function_index_exec(s: &String) -> (r: Option<usize>)
    ensures
        match r {
            Some(f) => function_index(s@) == Some(f as int),
            None => function_index(s@) is None,
        },
{
    let v = crate::text::chars_of(s.as_str());
    let start: usize = if v.len() > 0 && v[0] == '+' { 1 } else { 0 };
    let ghost d = if s@.len() > 0 && s@[0] == '+' { s@.skip(1) } else { s@ };
    assert(v@.subrange(start as int, v.len() as int) =~= d);
    let mut i = start;
    let mut value: usize = 0;
    if start == v.len() {
        return None;
    }
    while i < v.len()
        invariant
            start <= i <= v.len(),
            start < v.len(),
            v@ == s@,
            d == (if s@.len() > 0 && s@[0] == '+' { s@.skip(1) } else { s@ }),
            d == v@.subrange(start as int, v.len() as int),
            forall|j: int| start <= j < i ==> crate::xregex::is_digit(v@[j]),
            value < MAX_HOST_PORTS_NUM,
            value as nat == digits_value(v@.subrange(start as int, i as int)),
        decreases v.len() - i,
    {
        let c = v[i];
        if !('0' <= c && c <= '9') {
            assert(!crate::xregex::is_digit(d[i - start]));
            return None;
        }
        let dv = (c as u32 - '0' as u32) as usize;
        assert(v@.subrange(start as int, i + 1) =~= v@.subrange(start as int, i as int).push(c));
        assert(v@.subrange(start as int, i + 1).drop_last() =~= v@.subrange(start as int, i as int));
        if value * 10 + dv >= MAX_HOST_PORTS_NUM {
            proof {
                assert(d.take(i - start + 1) =~= v@.subrange(start as int, i + 1));
                assert forall|k: int| 0 <= k < i - start + 1 implies crate::xregex::is_digit(d[k]) by {
                    assert(d[k] == v@[start + k]);
                }
                lemma_digits_grow(d, i - start + 1);
            }
            return None;
        }
        value = value * 10 + dv;
        i += 1;
    }
    assert forall|k: int| 0 <= k < d.len() implies crate::xregex::is_digit(#[trigger] d[k]) by {
        assert(d[k] == v@[start + k]);
    }
    Some(value)
}

proof fn lemma_digits_grow(d: Seq<char>, n: int)
    requires
        0 < n <= d.len(),
        forall|k: int| 0 <= k < n ==> crate::xregex::is_digit(d[k]),
    ensures
        all_digits(d) ==> digits_value(d) >= digits_value(d.take(n)),
    decreases d.len(),
{
    if d.len() > n {
        assert(d.drop_last().take(n) =~= d.take(n));
        lemma_digits_grow(d.drop_last(), n);
        if all_digits(d) {
            assert(all_digits(d.drop_last()));
        }
    } else {
        assert(d.take(n) =~= d);
    }
}

/// Recording a function keeps the devices distinct.
proof fn lemma_dev_set_distinct(db: Seq<MlxDevV>, k: Seq<char>, f: int, addr: Seq<char>)
    requires
        devs_distinct(db),
    ensures
        devs_distinct(dev_set(db, k, f, addr)),
{
    lemma_index_of_dev(db, k);
    let r = dev_set(db, k, f, addr);
    let i = index_of_dev(db, k);
    assert forall|a: int, b: int| 0 <= a < b < r.len() implies r[a].0 != r[b].0 by {
        if i < 0 {
            if b == db.len() {
                assert(r[a] == db[a]);
            } else {
                assert(r[a] == db[a] && r[b] == db[b]);
            }
        } else {
            assert(r[a].0 == db[a].0 && r[b].0 == db[b].0);
        }
    }
}

proof fn lemma_mst_rows_distinct(db: Seq<MlxDevV>, rows: CaptureRowsV)
    requires
        devs_distinct(db),
        apply_mst_rows(db, rows) is Some,
    ensures
        devs_distinct(apply_mst_rows(db, rows).unwrap()),
    decreases rows.len(),
{
    if rows.len() > 0 {
        let r = rows[0];
        let f = function_index(grp(r, 3)).unwrap();
        let d2 = dev_set(db, grp(r, 0), f, pci_address(grp(r, 1), grp(r, 2), grp(r, 3)));
        lemma_dev_set_distinct(db, grp(r, 0), f, pci_address(grp(r, 1), grp(r, 2), grp(r, 3)));
        lemma_mst_rows_distinct(d2, rows.skip(1));
    }
}

impl MlxDevDb {
    /// An empty database.
    pub fn new() -> (r: MlxDevDb)
        ensures
            r@ == Seq::<MlxDevV>::empty(),
    {
        let r = MlxDevDb { entries: Vec::new() };
        assert(r@ =~= Seq::<MlxDevV>::empty());
        r
    }

    /// The position of device `k`.
    pub fn find(&self, k: &str) -> (r: Option<usize>)
        ensures
            match r {
                Some(i) => index_of_dev(self@, k@) == i as int && i < self.entries.len(),
                None => index_of_dev(self@, k@) == -1,
            },
    {
        let ks = k.to_owned();
        let mut i: usize = 0;
        while i < self.entries.len()
            invariant
                i <= self.entries.len(),
                ks@ == k@,
                forall|j: int| 0 <= j < i ==> self@[j].0 != k@,
            decreases self.entries.len() - i,
        {
            if self.entries[i].0 == ks {
                proof {
                    lemma_index_of_dev_is(self@, k@, i as int);
                }
                return Some(i);
            }
            i += 1;
        }
        proof {
            lemma_index_of_dev_is(self@, k@, -1);
        }
        None
    }

    /// Records `addr` as function `f` of device `k` (adding the device if it is new).
    pub fn set(&mut self, k: &String, f: usize, addr: String)
        requires
            f < MAX_HOST_PORTS_NUM,
            slots_ok(old(self)@),
        ensures
            final(self)@ == dev_set(old(self)@, k@, f as int, addr@),
            slots_ok(final(self)@),
            devs_distinct(old(self)@) ==> devs_distinct(final(self)@),
    {
        proof {
            if devs_distinct(old(self)@) {
                lemma_dev_set_distinct(old(self)@, k@, f as int, addr@);
            }
        }
        match self.find(k.as_str()) {
            Some(i) => {
                let mut slots = clone_strings(&self.entries[i].1);
                assert(slots@.map_values(|s: String| s@) == old(self)@[i as int].1) by {
                    assert(slots@.map_values(|s: String| s@) =~= old(self)@[i as int].1);
                }
                slots.set(f, addr);
                let ghost sv = slots@.map_values(|s: String| s@);
                self.entries.set(i, (k.clone(), slots));
                assert(sv =~= old(self)@[i as int].1.update(f as int, addr@));
                assert(self@ =~= dev_set(old(self)@, k@, f as int, addr@));
            },
            None => {
                let mut slots: Vec<String> = Vec::new();
                slots.push(String::new());
                slots.push(String::new());
                slots.push(String::new());
                slots.push(String::new());
                slots.set(f, addr);
                let ghost sv = slots@.map_values(|s: String| s@);
                assert(sv =~= empty_slots().update(f as int, addr@));
                self.entries.push((k.clone(), slots));
                assert(self@ =~= dev_set(old(self)@, k@, f as int, addr@));
            },
        }
    }
}

/// Records the matches of `MST_STATUS_REGEX` into `db` (see `mst_merge_spec`); `None`
/// when a match lacks a group, a function is not a recorded slot, or nothing is recorded.
pub fn mst_merge(db: MlxDevDb, rows: &CaptureRows) -> (r: Option<MlxDevDb>)
    requires
        slots_ok(db@),
    ensures
        match r {
            None => mst_merge_spec(db@, rows.deep_view()) is None,
            Some(d) => mst_merge_spec(db@, rows.deep_view()) == Some(d@) && slots_ok(d@),
        },
        devs_distinct(db@) ==> (r matches Some(d) ==> devs_distinct(d@)),
{
    proof {
        if devs_distinct(db@) && apply_mst_rows(db@, rows.deep_view()) is Some {
            lemma_mst_rows_distinct(db@, rows.deep_view());
        }
    }
    let ghost rv = rows.deep_view();
    let ghost start = apply_mst_rows(db@, rv);
    let mut cur = db;
    let mut i: usize = 0;
    assert(rv.skip(0) =~= rv);
    while i < rows.len()
        invariant
            i <= rows.len(),
            rv == rows.deep_view(),
            slots_ok(cur@),
            start == apply_mst_rows(db@, rv),
            start == apply_mst_rows(cur@, rv.skip(i as int)),
        decreases rows.len() - i,
    {
        assert(rv.skip(i as int).skip(1) =~= rv.skip(i + 1));
        assert(rv.skip(i as int)[0] == rv[i as int]);
        let row = &rows[i];
        assert(row.deep_view() == rv[i as int]);
        if !crate::interfaces::row_ok_exec(row, 4) {
            return None;
        }
        let mt = crate::interfaces::group_text(row, 0);
        let bus = crate::interfaces::group_text(row, 1);
        let dev = crate::interfaces::group_text(row, 2);
        let func = crate::interfaces::group_text(row, 3);
        let f = match function_index_exec(func) {
            None => {
                return None;
            },
            Some(f) => f,
        };
        let mut addr = crate::interfaces::cat4("0000:", bus.as_str(), ":", dev.as_str());
        addr.append(".");
        addr.append(func.as_str());
        proof {
            reveal_strlit("0000:");
            reveal_strlit(":");
            reveal_strlit(".");
            assert(addr@ =~= pci_address(bus@, dev@, func@));
        }
        cur.set(mt, f, addr);
        i += 1;
    }
    assert(rv.skip(rows.len() as int).len() == 0);
    if cur.entries.len() == 0 {
        return None;
    }
    Some(cur)
}

/// The devices that an `mst status -v` listing shows; `None` when the regular
/// expression does not compile, a match lacks a group, a function is not a recorded
/// slot, or no device is listed.
pub fn mst_status(output: &str) -> (r: Option<MlxDevDb>)
    ensures
        match r {
            None => !regex_compiles(MST_STATUS_REGEX@) || mst_merge_spec(
                Seq::empty(),
                regex_captures(MST_STATUS_REGEX@, output@),
            ) is None,
            Some(d) => regex_compiles(MST_STATUS_REGEX@) && mst_merge_spec(
                Seq::empty(),
                regex_captures(MST_STATUS_REGEX@, output@),
            ) == Some(d@) && slots_ok(d@) && devs_distinct(d@),
        },
{
    let p = match Pattern::new(MST_STATUS_REGEX) {
        None => {
            return None;
        },
        Some(p) => p,
    };
    let rows = p.captures(output);
    mst_merge(MlxDevDb::new(), &rows)
}

/// The device that a test uses: the one named `mt` (which must be listed) or, with no
/// name given, the last listed device.
pub open spec fn select_spec(db: Seq<MlxDevV>, mt: Option<Seq<char>>) -> Option<MlxDevV> {
    match mt {
        Some(name) => if index_of_dev(db, name) >= 0 {
            Some(db[index_of_dev(db, name)])
        } else {
            None
        },
        None => Some(db.last()),
    }
}

/// The characters of an optional string.
pub open spec fn opt_str_view(o: Option<&str>) -> Option<Seq<char>> {
    match o {
        Some(s) => Some(s@),
        None => None,
    }
}

/// Picks the device a test uses (see `select_spec`); `None` when the named device
/// is not listed.
pub fn fetch_mtdev(db: &MlxDevDb, mt_opt: Option<&str>) -> (r: Option<MlxDev>)
    requires
        db@.len() > 0,
    ensures
        match r {
            None => select_spec(db@, opt_str_view(mt_opt)) is None,
            Some(d) => select_spec(db@, opt_str_view(mt_opt)) == Some(dev_view(d)),
        },
{
    match mt_opt {
        Some(name) => match db.find(name) {
            Some(i) => {
                let slots = clone_strings(&db.entries[i].1);
                let d = (db.entries[i].0.clone(), slots);
                assert(dev_view(d) =~= db@[i as int]);
                Some(d)
            },
            None => None,
        },
        None => {
            let i = db.entries.len() - 1;
            let slots = clone_strings(&db.entries[i].1);
            let d = (db.entries[i].0.clone(), slots);
            assert(dev_view(d) =~= db@[i as int]);
            Some(d)
        },
    }
}

/// A copy of a list of strings.
pub fn clone_strings(v: &Vec<String>) -> (r: Vec<String>)
    ensures
        r@.map_values(|s: String| s@) == v@.map_values(|s: String| s@),
{
    let mut r: Vec<String> = Vec::new();
    let mut i: usize = 0;
    while i < v.len()
        invariant
            i <= v.len(),
            r@.len() == i,
            forall|j: int| 0 <= j < i ==> r@[j]@ == v@[j]@,
        decreases v.len() - i,
    {
        r.push(v[i].clone());
        i += 1;
    }
    assert(r@.map_values(|s: String| s@) =~= v@.map_values(|s: String| s@));
    r
}

/// A device asked for by name is picked exactly when it is listed, and the picked device
/// carries that name.
pub proof fn law_fetch_named_device(db: Seq<MlxDevV>, name: Seq<char>)
    ensures
        (select_spec(db, Some(name)) is Some) == (exists|i: int|
            0 <= i < db.len() && (#[trigger] db[i]).0 == name),
        select_spec(db, Some(name)) is Some ==> select_spec(db, Some(name)).unwrap().0 == name,
{
    lemma_index_of_dev(db, name);
    if exists|i: int| 0 <= i < db.len() && (#[trigger] db[i]).0 == name {
        let i = choose|i: int| 0 <= i < db.len() && (#[trigger] db[i]).0 == name;
        assert(index_of_dev(db, name) >= 0);
    }
}

} // verus!
