//! Interface maps: the names a test template uses (`pci0`, `pci0vf1`, `pf0`, `pf0vf1`,
//! `pf0rf1`, ...) and the host's PCI addresses and network devices they stand for;
//! their translation into test commands, and their storage in the hosts file.
use vstd::prelude::*;
use crate::pattern::{Pattern, regex_captures, regex_compiles, regex_match_spans, spans_ordered};
use crate::text::{chars_of, string_of};
use crate::yaml::{
    YamlMapping, YamlValue, key_is, as_mapping, as_sequence, as_str, lookup, lookup_mapping,
    get_mapping, mapping_contains, value_as_mapping, value_as_sequence, value_as_str,
};

verus! {

/// An interface map: template name to host PCI address or network device.
/// Entries keep the order in which names were first inserted.
pub struct InterfaceMap {
    pub entries: Vec<(String, String)>,
}

pub open spec fn pairs_view(v: Seq<(String, String)>) -> Seq<(Seq<char>, Seq<char>)> {
    v.map_values(|e: (String, String)| (e.0@, e.1@))
}

impl View for InterfaceMap {
    type V = Seq<(Seq<char>, Seq<char>)>;

    open spec fn view(&self) -> Seq<(Seq<char>, Seq<char>)> {
        pairs_view(self.entries@)
    }
}

/// The position of the first entry named `k`, or -1.
pub open spec fn index_of_key(m: Seq<(Seq<char>, Seq<char>)>, k: Seq<char>) -> int
    decreases m.len(),
{
    if m.len() == 0 {
        -1
    } else if m.last().0 == k && index_of_key(m.drop_last(), k) < 0 {
        m.len() - 1
    } else {
        index_of_key(m.drop_last(), k)
    }
}

/// The map after `insert(k, v)`: the entry named `k` takes the value `v`, or a new
/// entry is added at the end.
pub open spec fn map_insert(m: Seq<(Seq<char>, Seq<char>)>, k: Seq<char>, v: Seq<char>) -> Seq<
    (Seq<char>, Seq<char>),
> {
    let i = index_of_key(m, k);
    if i < 0 {
        m.push((k, v))
    } else {
        m.update(i, (k, v))
    }
}

/// The value under `k`, if any.
pub open spec fn map_get(m: Seq<(Seq<char>, Seq<char>)>, k: Seq<char>) -> Option<Seq<char>> {
    let i = index_of_key(m, k);
    if i < 0 {
        None
    } else {
        Some(m[i].1)
    }
}

/// No name occurs twice.
pub open spec fn keys_distinct(m: Seq<(Seq<char>, Seq<char>)>) -> bool {
    forall|i: int, j: int| 0 <= i < j < m.len() ==> m[i].0 != m[j].0
}

proof fn lemma_index_of_key(m: Seq<(Seq<char>, Seq<char>)>, k: Seq<char>)
    ensures
        -1 <= index_of_key(m, k) < m.len(),
        index_of_key(m, k) >= 0 ==> m[index_of_key(m, k)].0 == k,
        forall|j: int|
            0 <= j < m.len() && (index_of_key(m, k) < 0 || j < index_of_key(m, k)) ==> m[j].0 != k,
    decreases m.len(),
{
    if m.len() > 0 {
        lemma_index_of_key(m.drop_last(), k);
        assert forall|j: int|
            0 <= j < m.len() && (index_of_key(m, k) < 0 || j < index_of_key(m, k)) implies m[j].0
            != k by {
            if j < m.len() - 1 {
                assert(m.drop_last()[j] == m[j]);
            }
        }
    }
}

proof fn lemma_index_of_key_is(m: Seq<(Seq<char>, Seq<char>)>, k: Seq<char>, i: int)
    requires
        -1 <= i < m.len(),
        i >= 0 ==> m[i].0 == k,
        forall|j: int| 0 <= j < m.len() && (i < 0 || j < i) ==> m[j].0 != k,
    ensures
        index_of_key(m, k) == i,
{
    lemma_index_of_key(m, k);
    let r = index_of_key(m, k);
    if r != i {
        if r < 0 {
            assert(m[i].0 != k);
        } else if i < 0 {
            assert(m[r].0 != k);
        } else if r < i {
            assert(m[r].0 != k);
        } else {
            assert(m[i].0 != k);
        }
    }
}

/// After `insert(k, v)`, `k` holds `v` and every other name keeps its value.
pub proof fn lemma_map_get_insert(m: Seq<(Seq<char>, Seq<char>)>, k: Seq<char>, v: Seq<char>, k2: Seq<char>)
    ensures
        map_get(map_insert(m, k, v), k2) == (if k2 == k {
            Some(v)
        } else {
            map_get(m, k2)
        }),
{
    lemma_index_of_key(m, k);
    lemma_index_of_key(m, k2);
    let i = index_of_key(m, k);
    let r = map_insert(m, k, v);
    let j = index_of_key(m, k2);
    if i < 0 {
        if k2 == k {
            lemma_index_of_key_is(r, k2, m.len() as int);
        } else {
            assert forall|x: int| 0 <= x < r.len() && (j < 0 || x < j) implies r[x].0 != k2 by {
                if x < m.len() {
                    assert(r[x] == m[x]);
                }
            }
            if j >= 0 {
                assert(r[j] == m[j]);
            }
            lemma_index_of_key_is(r, k2, j);
        }
    } else {
        assert forall|x: int| 0 <= x < r.len() implies r[x].0 == m[x].0 by {}
        if j >= 0 {
            assert(r[j].0 == m[j].0);
        }
        assert forall|x: int| 0 <= x < r.len() && (j < 0 || x < j) implies r[x].0 != k2 by {
            assert(r[x].0 == m[x].0);
        }
        lemma_index_of_key_is(r, k2, j);
        if k2 == k {
            assert(j == i);
        } else if j >= 0 {
            assert(j != i);
            assert(r[j] == m[j]);
        }
    }
}

/// Inserting into a map without repeated names leaves it without repeated names.
pub proof fn lemma_map_insert_distinct(m: Seq<(Seq<char>, Seq<char>)>, k: Seq<char>, v: Seq<char>)
    requires
        keys_distinct(m),
    ensures
        keys_distinct(map_insert(m, k, v)),
{
    lemma_index_of_key(m, k);
    let r = map_insert(m, k, v);
    let i = index_of_key(m, k);
    assert forall|a: int, b: int| 0 <= a < b < r.len() implies r[a].0 != r[b].0 by {
        if i < 0 {
            if b == m.len() {
                assert(r[a] == m[a]);
            } else {
                assert(r[a] == m[a] && r[b] == m[b]);
            }
        } else {
            assert(r[a].0 == m[a].0 && r[b].0 == m[b].0);
        }
    }
}

impl InterfaceMap {
    /// An empty map.
    pub fn new() -> (r: InterfaceMap)
        ensures
            r@ == Seq::<(Seq<char>, Seq<char>)>::empty(),
    {
        let r = InterfaceMap { entries: Vec::new() };
        assert(r@ =~= Seq::<(Seq<char>, Seq<char>)>::empty());
        r
    }

    /// The position of the entry named `k`.
    pub fn find(&self, k: &str) -> (r: Option<usize>)
        ensures
            match r {
                Some(i) => index_of_key(self@, k@) == i as int,
                None => index_of_key(self@, k@) == -1,
            },
    {
        let ks = k.to_owned();
        let mut i: usize = 0;
        while i < self.entries.len()
            invariant
                i <= self.entries.len(),
                ks@ == k@,
                forall|j: int| 0 <= j < i ==> self@[j].0 != k@,
            decreases self.entries.len() - i,
        {
            if self.entries[i].0 == ks {
                proof {
                    lemma_index_of_key_is(self@, k@, i as int);
                }
                return Some(i);
            }
            i += 1;
        }
        proof {
            lemma_index_of_key_is(self@, k@, -1);
        }
        None
    }

    /// The value under `k`.
    pub fn get(&self, k: &str) -> (r: Option<&String>)
        ensures
            match r {
                Some(v) => map_get(self@, k@) == Some(v@),
                None => map_get(self@, k@) is None,
            },
    {
        proof {
            lemma_index_of_key(self@, k@);
        }
        match self.find(k) {
            Some(i) => Some(&self.entries[i].1),
            None => None,
        }
    }

    /// Stores `v` under `k` (`HashMap::insert`).
    pub fn insert(&mut self, k: String, v: String)
        ensures
            final(self)@ == map_insert(old(self)@, k@, v@),
            keys_distinct(old(self)@) ==> keys_distinct(final(self)@),
    {
        proof {
            lemma_index_of_key(self@, k@);
            if keys_distinct(self@) {
                lemma_map_insert_distinct(self@, k@, v@);
            }
        }
        match self.find(k.as_str()) {
            Some(i) => {
                self.entries.set(i, (k, v));
                assert(self@ =~= map_insert(old(self)@, k@, v@));
            },
            None => {
                self.entries.push((k, v));
                assert(self@ =~= map_insert(old(self)@, k@, v@));
            },
        }
    }
}

/// `\b` + `name` + `\b`: `name` as a whole word.
pub open spec fn word_pattern(name: Seq<char>) -> Seq<char> {
    seq!['\\', 'b'] + name + seq!['\\', 'b']
}

/// `s` with each of the spans `spans` (character positions, in order, not
/// overlapping) replaced by `device`, the text between them kept.
pub open spec fn splice(s: Seq<char>, spans: Seq<(usize, usize)>, device: Seq<char>) -> Seq<char>
    decreases spans.len(),
{
    if spans.len() == 0 {
        s
    } else {
        let (a, b) = spans.last();
        splice(s.take(a as int), spans.drop_last(), device) + device + s.skip(b as int)
    }
}

/// One translation: every whole-word match of `name` becomes `device`; longer names
/// that merely contain `name` are left alone.
pub open spec fn translate_one(s: Seq<char>, name: Seq<char>, device: Seq<char>) -> Seq<char> {
    splice(s, regex_match_spans(word_pattern(name), s), device)
}

/// The template after translating the names of `entries`, one after the other.
pub open spec fn translate_spec(tmpl: Seq<char>, entries: Seq<(Seq<char>, Seq<char>)>) -> Seq<char>
    decreases entries.len(),
{
    if entries.len() == 0 {
        tmpl
    } else {
        translate_spec(translate_one(tmpl, entries[0].0, entries[0].1), entries.skip(1))
    }
}

/// Splicing up to `pos` and then keeping the text from `pos` to `a` is splicing up to
/// `a`, when every span ends by `pos`.
proof fn lemma_splice_extend(s: Seq<char>, spans: Seq<(usize, usize)>, device: Seq<char>, pos: int, a: int)
    requires
        0 <= pos <= a <= s.len(),
        forall|i: int| 0 <= i < spans.len() ==> (#[trigger] spans[i]).0 <= spans[i].1 <= pos,
    ensures
        splice(s.take(a), spans, device) == splice(s.take(pos), spans, device) + s.subrange(pos, a),
{
    if spans.len() == 0 {
        assert(s.take(a) =~= s.take(pos) + s.subrange(pos, a));
    } else {
        let (x, y) = spans.last();
        assert(spans[spans.len() - 1] == spans.last());
        assert(s.take(a).take(x as int) =~= s.take(pos).take(x as int));
        assert(s.take(a).skip(y as int) =~= s.take(pos).skip(y as int) + s.subrange(pos, a));
        assert((splice(s.take(pos).take(x as int), spans.drop_last(), device) + device + s.take(
            pos,
        ).skip(y as int)) + s.subrange(pos, a) =~= splice(
            s.take(pos).take(x as int),
            spans.drop_last(),
            device,
        ) + device + (s.take(pos).skip(y as int) + s.subrange(pos, a)));
    }
}

/// `s` with the spans replaced by `device` (see `splice`).
fn splice_exec(s: &str, spans: &Vec<(usize, usize)>, device: &str) -> (r: String)
    requires
        spans_ordered(spans@, s@.len()),
    ensures
        r@ == splice(s@, spans@, device@),
{
    let sv = chars_of(s);
    let dv = chars_of(device);
    let mut out: Vec<char> = Vec::new();
    let mut pos: usize = 0;
    let mut i: usize = 0;
    assert(s@.take(0) =~= Seq::<char>::empty());
    assert(spans@.take(0) =~= Seq::<(usize, usize)>::empty());
    while i < spans.len()
        invariant
            i <= spans.len(),
            sv@ == s@,
            dv@ == device@,
            spans_ordered(spans@, s@.len()),
            pos <= s@.len(),
            i > 0 ==> pos == spans@[i - 1].1,
            i == 0 ==> pos == 0,
            out@ == splice(s@.take(pos as int), spans@.take(i as int), device@),
        decreases spans.len() - i,
    {
        let (a, b) = spans[i];
        assert(spans@[i as int] == (a, b));
        if i > 0 {
            assert(spans@[i - 1].1 <= spans@[i as int].0);
        }
        let ghost before = out@;
        proof {
            lemma_splice_extend(s@, spans@.take(i as int), device@, pos as int, a as int);
        }
        crate::xregex::extend_range(&mut out, &sv, pos, a);
        crate::text::extend_chars(&mut out, &dv);
        proof {
            let t = spans@.take(i + 1);
            assert(t.drop_last() =~= spans@.take(i as int));
            assert(t.last() == (a, b));
            assert(s@.take(b as int).take(a as int) =~= s@.take(a as int));
            assert(s@.take(b as int).skip(b as int) =~= Seq::<char>::empty());
            assert(out@ =~= splice(s@.take(b as int), t, device@));
        }
        pos = b;
        i += 1;
    }
    proof {
        assert(spans@.take(i as int) =~= spans@);
        lemma_splice_extend(s@, spans@, device@, pos as int, s@.len() as int);
        assert(s@.take(s@.len() as int) =~= s@);
    }
    crate::text::extend_from(&mut out, &sv, pos);
    assert(out@ =~= splice(s@, spans@, device@));
    string_of(&out)
}

/// Every name of the map makes a whole-word pattern that compiles.
pub open spec fn translatable(entries: Seq<(Seq<char>, Seq<char>)>) -> bool {
    forall|i: int| 0 <= i < entries.len() ==> regex_compiles(word_pattern(#[trigger] entries[i].0))
}

fn word_pattern_exec(name: &String) -> (r: String)
    ensures
        r@ == word_pattern(name@),
{
    let nv = chars_of(name.as_str());
    let mut p: Vec<char> = vec!['\\', 'b'];
    crate::text::extend_chars(&mut p, &nv);
    p.push('\\');
    p.push('b');
    assert(p@ =~= word_pattern(name@));
    string_of(&p)
}

/// Translates the interface names in a command template into the host's interfaces.
pub fn translate_interfaces(tmpl: &str, interfaces: &InterfaceMap) -> (r: String)
    requires
        translatable(interfaces@),
    ensures
        r@ == translate_spec(tmpl@, interfaces@),
{
    let mut result = tmpl.to_owned();
    let mut i: usize = 0;
    assert(interfaces@.skip(0) =~= interfaces@);
    while i < interfaces.entries.len()
        invariant
            i <= interfaces.entries.len(),
            translatable(interfaces@),
            translate_spec(tmpl@, interfaces@) == translate_spec(result@, interfaces@.skip(i as int)),
        decreases interfaces.entries.len() - i,
    {
        let name = &interfaces.entries[i].0;
        let device = &interfaces.entries[i].1;
        assert(interfaces@[i as int] == (name@, device@));
        assert(interfaces@.skip(i as int).skip(1) =~= interfaces@.skip(i + 1));
        let wp = word_pattern_exec(name);
        assert(regex_compiles(word_pattern(interfaces@[i as int].0)));
        let re = Pattern::new(wp.as_str()).unwrap();
        let spans = re.match_spans(result.as_str());
        result = splice_exec(result.as_str(), &spans, device.as_str());
        i += 1;
    }
    result
}

/// Translates the interface names in a template, or `None` when some name does not
/// make a whole-word pattern that compiles.
pub fn translate_interfaces_checked(tmpl: &str, interfaces: &InterfaceMap) -> (r: Option<String>)
    ensures
        r is Some <==> translatable(interfaces@),
        r matches Some(s) ==> s@ == translate_spec(tmpl@, interfaces@),
{
    let mut i: usize = 0;
    while i < interfaces.entries.len()
        invariant
            i <= interfaces.entries.len(),
            forall|j: int| 0 <= j < i ==> regex_compiles(word_pattern(#[trigger] interfaces@[j].0)),
        decreases interfaces.entries.len() - i,
    {
        let wp = word_pattern_exec(&interfaces.entries[i].0);
        assert(interfaces@[i as int].0 == interfaces.entries@[i as int].0@);
        if Pattern::new(wp.as_str()).is_none() {
            return None;
        }
        i += 1;
    }
    Some(translate_interfaces(tmpl, interfaces))
}

/// The interfaces of one host: its name, PCI map and network device map.
pub struct HostInterfaces {
    pub hostname: String,
    pub pci: InterfaceMap,
    pub netdev: InterfaceMap,
}

pub type HostInterfacesV = (Seq<char>, Seq<(Seq<char>, Seq<char>)>, Seq<(Seq<char>, Seq<char>)>);

impl View for HostInterfaces {
    type V = HostInterfacesV;

    open spec fn view(&self) -> HostInterfacesV {
        (self.hostname@, self.pci@, self.netdev@)
    }
}

/// The interfaces of every host, in the order hosts were first recorded.
pub struct InterfaceDb {
    pub hosts: Vec<HostInterfaces>,
}

impl View for InterfaceDb {
    type V = Seq<HostInterfacesV>;

    open spec fn view(&self) -> Seq<HostInterfacesV> {
        self.hosts@.map_values(|h: HostInterfaces| h@)
    }
}

/// The position of the first host named `h`, or -1.
pub open spec fn index_of_host(db: Seq<HostInterfacesV>, h: Seq<char>) -> int
    decreases db.len(),
{
    if db.len() == 0 {
        -1
    } else if db.last().0 == h && index_of_host(db.drop_last(), h) < 0 {
        db.len() - 1
    } else {
        index_of_host(db.drop_last(), h)
    }
}

/// The database after recording the maps of host `h` (replacing earlier ones).
pub open spec fn db_insert(db: Seq<HostInterfacesV>, h: HostInterfacesV) -> Seq<HostInterfacesV> {
    let i = index_of_host(db, h.0);
    if i < 0 {
        db.push(h)
    } else {
        db.update(i, h)
    }
}

/// No host occurs twice and no map has a name twice.
pub open spec fn db_well_formed(db: Seq<HostInterfacesV>) -> bool {
    &&& forall|i: int, j: int| 0 <= i < j < db.len() ==> db[i].0 != db[j].0
    &&& forall|i: int| 0 <= i < db.len() ==> keys_distinct(#[trigger] db[i].1) && keys_distinct(
        db[i].2,
    )
}

pub open spec fn key_pci() -> Seq<char> {
    seq!['p', 'c', 'i']
}

pub open spec fn key_netdev() -> Seq<char> {
    seq!['n', 'e', 't', 'd', 'e', 'v']
}

pub open spec fn key_interfaces() -> Seq<char> {
    seq!['i', 'n', 't', 'e', 'r', 'f', 'a', 'c', 'e', 's']
}

/// Inserts the string pairs of a YAML mapping into a map, in order.
pub open spec fn load_pairs(
    target: Seq<(Seq<char>, Seq<char>)>,
    data: Seq<(YamlValue, YamlValue)>,
) -> Option<Seq<(Seq<char>, Seq<char>)>>
    decreases data.len(),
{
    if data.len() == 0 {
        Some(target)
    } else {
        match (as_str(data[0].0), as_str(data[0].1)) {
            (Some(k), Some(v)) => load_pairs(map_insert(target, k, v), data.skip(1)),
            _ => None,
        }
    }
}

/// Reads the `pci` and `netdev` mappings of a host's list.
pub open spec fn load_items(
    pci: Seq<(Seq<char>, Seq<char>)>,
    netdev: Seq<(Seq<char>, Seq<char>)>,
    items: Seq<YamlValue>,
) -> Option<(Seq<(Seq<char>, Seq<char>)>, Seq<(Seq<char>, Seq<char>)>)>
    decreases items.len(),
{
    if items.len() == 0 {
        Some((pci, netdev))
    } else {
        match as_mapping(items[0]) {
            None => None,
            Some(m) => if lookup(m, key_pci()) is Some {
                match lookup_mapping(m, key_pci()) {
                    None => None,
                    Some(d) => match load_pairs(pci, d) {
                        None => None,
                        Some(p2) => load_items(p2, netdev, items.skip(1)),
                    },
                }
            } else {
                match lookup_mapping(m, key_netdev()) {
                    None => None,
                    Some(d) => match load_pairs(netdev, d) {
                        None => None,
                        Some(n2) => load_items(pci, n2, items.skip(1)),
                    },
                }
            },
        }
    }
}

/// Reads the hosts of the `interfaces` mapping, in order.
pub open spec fn load_hosts(db: Seq<HostInterfacesV>, entries: Seq<(YamlValue, YamlValue)>) -> Option<
    Seq<HostInterfacesV>,
>
    decreases entries.len(),
{
    if entries.len() == 0 {
        Some(db)
    } else {
        match as_sequence(entries[0].1) {
            None => None,
            Some(items) => match load_items(
                Seq::<(Seq<char>, Seq<char>)>::empty(),
                Seq::<(Seq<char>, Seq<char>)>::empty(),
                items,
            ) {
                None => None,
                Some((p, n)) => match as_str(entries[0].0) {
                    None => None,
                    Some(h) => load_hosts(db_insert(db, (h, p, n)), entries.skip(1)),
                },
            },
        }
    }
}

/// The interface database described by the `interfaces` mapping of a hosts file;
/// `None` when the mapping does not have the stored shape.
pub open spec fn load_spec(ival: Seq<(YamlValue, YamlValue)>) -> Option<Seq<HostInterfacesV>> {
    load_hosts(Seq::<HostInterfacesV>::empty(), ival)
}

impl InterfaceDb {
    /// An empty database.
    pub fn new() -> (r: InterfaceDb)
        ensures
            r@ == Seq::<HostInterfacesV>::empty(),
    {
        let r = InterfaceDb { hosts: Vec::new() };
        assert(r@ =~= Seq::<HostInterfacesV>::empty());
        r
    }

    /// The position of the host named `h`.
    pub fn find(&self, h: &str) -> (r: Option<usize>)
        ensures
            match r {
                Some(i) => index_of_host(self@, h@) == i as int && i < self.hosts.len(),
                None => index_of_host(self@, h@) == -1,
            },
    {
        let hs = h.to_owned();
        let mut i: usize = 0;
        while i < self.hosts.len()
            invariant
                i <= self.hosts.len(),
                hs@ == h@,
                forall|j: int| 0 <= j < i ==> self@[j].0 != h@,
            decreases self.hosts.len() - i,
        {
            if self.hosts[i].hostname == hs {
                proof {
                    lemma_index_of_host_is(self@, h@, i as int);
                }
                return Some(i);
            }
            i += 1;
        }
        proof {
            lemma_index_of_host_is(self@, h@, -1);
        }
        None
    }

    /// The maps of the host named `h`.
    pub fn get(&self, h: &str) -> (r: Option<&HostInterfaces>)
        ensures
            match r {
                Some(x) => index_of_host(self@, h@) >= 0 && self@[index_of_host(self@, h@)] == x@,
                None => index_of_host(self@, h@) == -1,
            },
    {
        match self.find(h) {
            Some(i) => Some(&self.hosts[i]),
            None => None,
        }
    }

    /// Records the maps of a host, replacing any earlier record of it.
    pub fn insert(&mut self, host: HostInterfaces)
        ensures
            final(self)@ == db_insert(old(self)@, host@),
            db_well_formed(old(self)@) && keys_distinct(host.pci@) && keys_distinct(host.netdev@)
                ==> db_well_formed(final(self)@),
    {
        proof {
            if db_well_formed(self@) && keys_distinct(host.pci@) && keys_distinct(host.netdev@) {
                lemma_db_insert_well_formed(self@, host@);
            }
        }
        match self.find(host.hostname.as_str()) {
            Some(i) => {
                self.hosts.set(i, host);
                assert(self@ =~= db_insert(old(self)@, host@));
            },
            None => {
                self.hosts.push(host);
                assert(self@ =~= db_insert(old(self)@, host@));
            },
        }
    }
}

proof fn lemma_index_of_host(db: Seq<HostInterfacesV>, h: Seq<char>)
    ensures
        -1 <= index_of_host(db, h) < db.len(),
        index_of_host(db, h) >= 0 ==> db[index_of_host(db, h)].0 == h,
        forall|j: int|
            0 <= j < db.len() && (index_of_host(db, h) < 0 || j < index_of_host(db, h)) ==> db[j].0
                != h,
    decreases db.len(),
{
    if db.len() > 0 {
        lemma_index_of_host(db.drop_last(), h);
        assert forall|j: int|
            0 <= j < db.len() && (index_of_host(db, h) < 0 || j < index_of_host(db, h)) implies db[j].0
            != h by {
            if j < db.len() - 1 {
                assert(db.drop_last()[j] == db[j]);
            }
        }
    }
}

/// Recording a host with maps free of repeated names in a well-formed database keeps
/// it well formed.
pub proof fn lemma_db_insert_well_formed(db: Seq<HostInterfacesV>, h: HostInterfacesV)
    requires
        db_well_formed(db),
        keys_distinct(h.1),
        keys_distinct(h.2),
    ensures
        db_well_formed(db_insert(db, h)),
{
    lemma_index_of_host(db, h.0);
    let r = db_insert(db, h);
    let i = index_of_host(db, h.0);
    assert forall|a: int, b: int| 0 <= a < b < r.len() implies r[a].0 != r[b].0 by {
        if i < 0 {
            if b == db.len() {
                assert(r[a] == db[a]);
            } else {
                assert(r[a] == db[a] && r[b] == db[b]);
            }
        } else {
            assert(r[a].0 == db[a].0 && r[b].0 == db[b].0);
        }
    }
    assert forall|a: int| 0 <= a < r.len() implies keys_distinct(#[trigger] r[a].1) && keys_distinct(
        r[a].2,
    ) by {
        if a < db.len() && a != i {
            assert(r[a] == db[a]);
        }
    }
}

proof fn lemma_index_of_host_is(db: Seq<HostInterfacesV>, h: Seq<char>, i: int)
    requires
        -1 <= i < db.len(),
        i >= 0 ==> db[i].0 == h,
        forall|j: int| 0 <= j < db.len() && (i < 0 || j < i) ==> db[j].0 != h,
    ensures
        index_of_host(db, h) == i,
{
    lemma_index_of_host(db, h);
    let r = index_of_host(db, h);
    if r != i {
        if r < 0 {
            assert(db[i].0 != h);
        } else if i < 0 {
            assert(db[r].0 != h);
        } else if r < i {
            assert(db[r].0 != h);
        } else {
            assert(db[i].0 != h);
        }
    }
}

/// Inserts the string pairs of `data` into `target`.
fn load_pairs_exec(target: &mut InterfaceMap, data: &YamlMapping) -> (ok: bool)
    ensures
        ok == load_pairs(old(target)@, data@) is Some,
        ok ==> load_pairs(old(target)@, data@) == Some(final(target)@),
{
    let mut i: usize = 0;
    assert(data@.skip(0) =~= data@);
    while i < data.len()
        invariant
            i <= data.len(),
            load_pairs(old(target)@, data@) == load_pairs(target@, data@.skip(i as int)),
        decreases data.len() - i,
    {
        assert(data@.skip(i as int).skip(1) =~= data@.skip(i + 1));
        assert(data@.skip(i as int)[0] == data@[i as int]);
        match (value_as_str(&data[i].0), value_as_str(&data[i].1)) {
            (Some(k), Some(v)) => {
                target.insert(k.clone(), v.clone());
            },
            _ => {
                return false;
            },
        }
        i += 1;
    }
    true
}

proof fn lemma_load_pairs_distinct(target: Pairs, data: Seq<(YamlValue, YamlValue)>)
    requires
        keys_distinct(target),
        load_pairs(target, data) is Some,
    ensures
        keys_distinct(load_pairs(target, data).unwrap()),
    decreases data.len(),
{
    if data.len() > 0 {
        let k = as_str(data[0].0).unwrap();
        let v = as_str(data[0].1).unwrap();
        lemma_map_insert_distinct(target, k, v);
        lemma_load_pairs_distinct(map_insert(target, k, v), data.skip(1));
    }
}

proof fn lemma_load_items_distinct(pci: Pairs, netdev: Pairs, items: Seq<YamlValue>)
    requires
        keys_distinct(pci),
        keys_distinct(netdev),
        load_items(pci, netdev, items) is Some,
    ensures
        keys_distinct(load_items(pci, netdev, items).unwrap().0),
        keys_distinct(load_items(pci, netdev, items).unwrap().1),
    decreases items.len(),
{
    if items.len() > 0 {
        let m = as_mapping(items[0]).unwrap();
        if lookup(m, key_pci()) is Some {
            let d = lookup_mapping(m, key_pci()).unwrap();
            lemma_load_pairs_distinct(pci, d);
            lemma_load_items_distinct(load_pairs(pci, d).unwrap(), netdev, items.skip(1));
        } else {
            let d = lookup_mapping(m, key_netdev()).unwrap();
            lemma_load_pairs_distinct(netdev, d);
            lemma_load_items_distinct(pci, load_pairs(netdev, d).unwrap(), items.skip(1));
        }
    }
}

proof fn lemma_load_hosts_well_formed(db: Seq<HostInterfacesV>, entries: Seq<(YamlValue, YamlValue)>)
    requires
        db_well_formed(db),
        load_hosts(db, entries) is Some,
    ensures
        db_well_formed(load_hosts(db, entries).unwrap()),
    decreases entries.len(),
{
    if entries.len() > 0 {
        let e = Seq::<(Seq<char>, Seq<char>)>::empty();
        let items = as_sequence(entries[0].1).unwrap();
        lemma_load_items_distinct(e, e, items);
        let (p, n) = load_items(e, e, items).unwrap();
        let h = as_str(entries[0].0).unwrap();
        lemma_db_insert_well_formed(db, (h, p, n));
        lemma_load_hosts_well_formed(db_insert(db, (h, p, n)), entries.skip(1));
    }
}

/// What is loaded from a hosts file never records a host twice, nor a name twice in a map.
pub proof fn lemma_loaded_well_formed(ival: Seq<(YamlValue, YamlValue)>)
    requires
        load_spec(ival) is Some,
    ensures
        db_well_formed(load_spec(ival).unwrap()),
{
    lemma_load_hosts_well_formed(Seq::<HostInterfacesV>::empty(), ival);
}

/// Reads the interface database from the `interfaces` mapping of a hosts file, or
/// `None` when the mapping does not have the stored shape.
pub fn load_interfaces_checked(ival: &YamlMapping) -> (r: Option<InterfaceDb>)
    ensures
        match r {
            Some(db) => load_spec(ival@) == Some(db@) && db_well_formed(db@),
            None => load_spec(ival@) is None,
        },
{
    proof {
        if load_spec(ival@) is Some {
            lemma_loaded_well_formed(ival@);
        }
        reveal_strlit("pci");
        reveal_strlit("netdev");
        assert("pci"@ =~= key_pci());
        assert("netdev"@ =~= key_netdev());
    }
    let mut db = InterfaceDb::new();
    let mut i: usize = 0;
    assert(ival@.skip(0) =~= ival@);
    while i < ival.len()
        invariant
            i <= ival.len(),
            "pci"@ == key_pci(),
            "netdev"@ == key_netdev(),
            load_spec(ival@) == load_hosts(db@, ival@.skip(i as int)),
        decreases ival.len() - i,
    {
        assert(ival@.skip(i as int).skip(1) =~= ival@.skip(i + 1));
        assert(ival@.skip(i as int)[0] == ival@[i as int]);
        let items = match value_as_sequence(&ival[i].1) {
            None => {
                return None;
            },
            Some(items) => items,
        };
        let mut pci = InterfaceMap::new();
        let mut netdev = InterfaceMap::new();
        let mut j: usize = 0;
        assert(items@.skip(0) =~= items@);
        while j < items.len()
            invariant
                j <= items.len(),
                i < ival.len(),
                "pci"@ == key_pci(),
                "netdev"@ == key_netdev(),
                load_spec(ival@) == load_hosts(db@, ival@.skip(i as int)),
                ival@.skip(i as int)[0] == ival@[i as int],
                as_sequence(ival@[i as int].1) == Some(items@),
                load_items(
                    Seq::<(Seq<char>, Seq<char>)>::empty(),
                    Seq::<(Seq<char>, Seq<char>)>::empty(),
                    items@,
                ) == load_items(pci@, netdev@, items@.skip(j as int)),
            decreases items.len() - j,
        {
            assert(items@.skip(j as int).skip(1) =~= items@.skip(j + 1));
            assert(items@.skip(j as int)[0] == items@[j as int]);
            let m = match value_as_mapping(&items[j]) {
                None => {
                    return None;
                },
                Some(m) => m,
            };
            if mapping_contains(m, "pci") {
                match get_mapping(m, "pci") {
                    None => {
                        return None;
                    },
                    Some(d) => {
                        if !load_pairs_exec(&mut pci, d) {
                            return None;
                        }
                    },
                }
            } else {
                match get_mapping(m, "netdev") {
                    None => {
                        return None;
                    },
                    Some(d) => {
                        if !load_pairs_exec(&mut netdev, d) {
                            return None;
                        }
                    },
                }
            }
            j += 1;
        }
        assert(items@.skip(items.len() as int).len() == 0);
        match value_as_str(&ival[i].0) {
            None => {
                return None;
            },
            Some(h) => {
                db.insert(HostInterfaces { hostname: h.clone(), pci, netdev });
            },
        }
        i += 1;
    }
    assert(ival@.skip(ival.len() as int).len() == 0);
    Some(db)
}

/// Reads the interface database from the `interfaces` mapping of a hosts file, which
/// must have the stored shape.
pub fn load_interfaces(ival: &YamlMapping) -> (r: InterfaceDb)
    requires
        load_spec(ival@) is Some,
    ensures
        load_spec(ival@) == Some(r@),
        db_well_formed(r@),
{
    load_interfaces_checked(ival).unwrap()
}

/// `m` is the YAML mapping that stores the name map `pairs`: one string entry per name,
/// in order.
pub open spec fn is_pairs_yaml(m: Seq<(YamlValue, YamlValue)>, pairs: Seq<(Seq<char>, Seq<char>)>) -> bool {
    &&& m.len() == pairs.len()
    &&& forall|i: int|
        0 <= i < m.len() ==> key_is((#[trigger] m[i]).0, pairs[i].0) && key_is(m[i].1, pairs[i].1)
}

/// `v` is the YAML value that stores the maps of host `h`:
/// `[ {pci: <pci map>}, {netdev: <netdev map>} ]`.
pub open spec fn is_host_yaml(v: YamlValue, h: HostInterfacesV) -> bool {
    &&& v matches YamlValue::List(l)
    &&& l@.len() == 2
    &&& l@[0] matches YamlValue::Dict(d0)
    &&& d0@.len() == 1
    &&& key_is(d0@[0].0, key_pci())
    &&& d0@[0].1 matches YamlValue::Dict(pm)
    &&& is_pairs_yaml(pm@, h.1)
    &&& l@[1] matches YamlValue::Dict(d1)
    &&& d1@.len() == 1
    &&& key_is(d1@[0].0, key_netdev())
    &&& d1@[0].1 matches YamlValue::Dict(nm)
    &&& is_pairs_yaml(nm@, h.2)
}

/// `m` is the `interfaces` mapping that stores the database `db`, host by host.
pub open spec fn is_interfaces_yaml(m: Seq<(YamlValue, YamlValue)>, db: Seq<HostInterfacesV>) -> bool {
    &&& m.len() == db.len()
    &&& forall|i: int|
        0 <= i < m.len() ==> key_is((#[trigger] m[i]).0, db[i].0) && is_host_yaml(m[i].1, db[i])
}

/// The YAML mapping that stores a name map.
fn pairs_yaml(map: &InterfaceMap) -> (r: YamlMapping)
    ensures
        is_pairs_yaml(r@, map@),
{
    let mut r: YamlMapping = Vec::new();
    let mut i: usize = 0;
    while i < map.entries.len()
        invariant
            i <= map.entries.len(),
            r@.len() == i,
            forall|j: int|
                0 <= j < i ==> key_is((#[trigger] r@[j]).0, map@[j].0) && key_is(r@[j].1, map@[j].1),
        decreases map.entries.len() - i,
    {
        r.push(
            (
                YamlValue::Str(map.entries[i].0.clone()),
                YamlValue::Str(map.entries[i].1.clone()),
            ),
        );
        i += 1;
    }
    r
}

/// The `interfaces` mapping that stores the database, as written to the hosts file.
pub fn interfaces_yaml(db: &InterfaceDb) -> (r: YamlMapping)
    ensures
        is_interfaces_yaml(r@, db@),
{
    proof {
        reveal_strlit("pci");
        reveal_strlit("netdev");
    }
    let mut r: YamlMapping = Vec::new();
    let mut i: usize = 0;
    while i < db.hosts.len()
        invariant
            i <= db.hosts.len(),
            r@.len() == i,
            "pci"@ =~= key_pci(),
            "netdev"@ =~= key_netdev(),
            forall|j: int|
                0 <= j < i ==> key_is((#[trigger] r@[j]).0, db@[j].0) && is_host_yaml(
                    r@[j].1,
                    db@[j],
                ),
        decreases db.hosts.len() - i,
    {
        let h = &db.hosts[i];
        let mut pci: YamlMapping = Vec::new();
        pci.push((YamlValue::Str("pci".to_owned()), YamlValue::Dict(pairs_yaml(&h.pci))));
        let mut netdev: YamlMapping = Vec::new();
        netdev.push(
            (YamlValue::Str("netdev".to_owned()), YamlValue::Dict(pairs_yaml(&h.netdev))),
        );
        let mut l: Vec<YamlValue> = Vec::new();
        l.push(YamlValue::Dict(pci));
        l.push(YamlValue::Dict(netdev));
        r.push((YamlValue::Str(h.hostname.clone()), YamlValue::List(l)));
        assert(is_host_yaml(r@[i as int].1, db@[i as int]));
        i += 1;
    }
    r
}

/// The hosts-file section that stores the database: `interfaces: <mapping>`.
pub fn interfaces_document(db: &InterfaceDb) -> (r: YamlMapping)
    ensures
        r@.len() == 1,
        key_is(r@[0].0, key_interfaces()),
        r@[0].1 matches YamlValue::Dict(m) && is_interfaces_yaml(m@, db@),
{
    proof {
        reveal_strlit("interfaces");
        assert("interfaces"@ =~= key_interfaces());
    }
    let mut r: YamlMapping = Vec::new();
    r.push((YamlValue::Str("interfaces".to_owned()), YamlValue::Dict(interfaces_yaml(db))));
    r
}

proof fn lemma_absent_key(m: Seq<(Seq<char>, Seq<char>)>, k: Seq<char>)
    requires
        forall|j: int| 0 <= j < m.len() ==> m[j].0 != k,
    ensures
        index_of_key(m, k) == -1,
{
    lemma_index_of_key_is(m, k, -1);
}

proof fn lemma_load_pairs(
    t: Seq<(Seq<char>, Seq<char>)>,
    m: Seq<(YamlValue, YamlValue)>,
    pairs: Seq<(Seq<char>, Seq<char>)>,
)
    requires
        is_pairs_yaml(m, pairs),
        keys_distinct(t + pairs),
    ensures
        load_pairs(t, m) == Some(t + pairs),
    decreases m.len(),
{
    if m.len() == 0 {
        assert(t + pairs =~= t);
    } else {
        let k = pairs[0].0;
        let v = pairs[0].1;
        assert(as_str(m[0].0) == Some(k));
        assert(as_str(m[0].1) == Some(v));
        assert forall|j: int| 0 <= j < t.len() implies t[j].0 != k by {
            assert((t + pairs)[j] == t[j]);
            assert((t + pairs)[t.len() as int] == pairs[0]);
        }
        lemma_absent_key(t, k);
        let t2 = t.push((k, v));
        assert(map_insert(t, k, v) == t2);
        assert(t2 + pairs.skip(1) =~= t + pairs);
        assert forall|a: int| 0 <= a < m.skip(1).len() implies key_is(
            (#[trigger] m.skip(1)[a]).0,
            pairs.skip(1)[a].0,
        ) && key_is(m.skip(1)[a].1, pairs.skip(1)[a].1) by {
            assert(m.skip(1)[a] == m[a + 1]);
        }
        lemma_load_pairs(t2, m.skip(1), pairs.skip(1));
    }
}

proof fn lemma_load_host_items(v: YamlValue, h: HostInterfacesV)
    requires
        is_host_yaml(v, h),
        keys_distinct(h.1),
        keys_distinct(h.2),
    ensures
        as_sequence(v) matches Some(items) && load_items(
            Seq::<(Seq<char>, Seq<char>)>::empty(),
            Seq::<(Seq<char>, Seq<char>)>::empty(),
            items,
        ) == Some((h.1, h.2)),
{
    let e = Seq::<(Seq<char>, Seq<char>)>::empty();
    let l = v->List_0;
    let items = l@;
    assert(as_sequence(v) == Some(items));
    let d0 = items[0]->Dict_0;
    let d1 = items[1]->Dict_0;
    let pm = d0@[0].1->Dict_0;
    let nm = d1@[0].1->Dict_0;
    assert(as_mapping(items[0]) == Some(d0@));
    assert(lookup(d0@, key_pci()) == Some(d0@[0].1));
    assert(lookup_mapping(d0@, key_pci()) == Some(pm@));
    assert(e + h.1 =~= h.1);
    lemma_load_pairs(e, pm@, h.1);
    let rest = items.skip(1);
    assert(rest[0] == items[1]);
    assert(as_mapping(rest[0]) == Some(d1@));
    assert(key_pci() != key_netdev()) by {
        assert(key_pci().len() != key_netdev().len());
    }
    assert(!key_is(d1@[0].0, key_pci()));
    assert(lookup(d1@.skip(1), key_pci()) is None);
    assert(lookup(d1@, key_pci()) is None);
    assert(lookup(d1@, key_netdev()) == Some(d1@[0].1));
    assert(lookup_mapping(d1@, key_netdev()) == Some(nm@));
    assert(e + h.2 =~= h.2);
    lemma_load_pairs(e, nm@, h.2);
    let rest2 = rest.skip(1);
    assert(rest2.len() == 0);
    assert(load_items(h.1, h.2, rest2) == Some((h.1, h.2)));
    assert(load_items(h.1, e, rest) == Some((h.1, h.2)));
    assert(load_items(e, e, items) == Some((h.1, h.2)));
}

proof fn lemma_load_hosts(db: Seq<HostInterfacesV>, m: Seq<(YamlValue, YamlValue)>, i: int)
    requires
        db_well_formed(db),
        is_interfaces_yaml(m, db),
        0 <= i <= m.len(),
    ensures
        load_hosts(db.take(i), m.skip(i)) == Some(db),
    decreases m.len() - i,
{
    if i == m.len() {
        assert(db.take(i) =~= db);
    } else {
        let s = m.skip(i);
        assert(s[0] == m[i]);
        assert(s.skip(1) =~= m.skip(i + 1));
        lemma_load_host_items(m[i].1, db[i]);
        assert(as_str(m[i].0) == Some(db[i].0));
        assert forall|j: int| 0 <= j < db.take(i).len() implies db.take(i)[j].0 != db[i].0 by {
            assert(db.take(i)[j] == db[j]);
        }
        lemma_index_of_host_is(db.take(i), db[i].0, -1);
        assert(db_insert(db.take(i), db[i]) =~= db.take(i + 1));
        lemma_load_hosts(db, m, i + 1);
    }
}

/// What the runner stores of the hosts' interfaces, it reads back unchanged: a
/// database with no host and no name twice, written as its `interfaces` mapping,
/// loads as that same database.
pub proof fn law_stored_interfaces_load_back(m: Seq<(YamlValue, YamlValue)>, db: Seq<HostInterfacesV>)
    requires
        db_well_formed(db),
        is_interfaces_yaml(m, db),
    ensures
        load_spec(m) == Some(db),
{
    lemma_load_hosts(db, m, 0);
    assert(db.take(0) =~= Seq::<HostInterfacesV>::empty());
    assert(m.skip(0) =~= m);
}

/// Matches of a regular expression with capture groups, as `Pattern::captures` gives them.
pub type CaptureRows = Vec<Vec<Option<String>>>;

pub type CaptureRowsV = Seq<Seq<Option<Seq<char>>>>;

/// A match with exactly `n` groups, every one of which took part.
pub open spec fn row_ok(row: Seq<Option<Seq<char>>>, n: nat) -> bool {
    row.len() == n && forall|i: int| 0 <= i < n ==> (#[trigger] row[i]) is Some
}

/// The text of group `i` of a match.
pub open spec fn grp(row: Seq<Option<Seq<char>>>, i: int) -> Seq<char> {
    row[i].unwrap()
}

/// `devlink port` lines of physical functions:
/// `pci/<PCI address>/... type eth netdev <netdev> flavour physical port <port>`.
pub const DEVLINK_PF_REGEX: &'static str =
    r#"(?m)^pci/(\S{12})/.*type eth netdev (\S{1,}) flavour physical port ([0-9]{1,})"#;

/// `devlink port` lines of VF representors:
/// `pci... netdev <netdev> flavour ... pfnum <pf> vfnum <vf>`.
pub const DEVLINK_VFREP_REGEX: &'static str =
    r#"(?m)^pci.*netdev (\S{1,}) flavour.*pfnum ([0-9]{1,}) vfnum ([0-9]{1,})"#;

/// `ls -l /sys/bus/pci/devices/.../virtfn*` lines:
/// `/sys/bus/pci/devices/<PF PCI>/virtfn<vf> -> ../<VF PCI>`.
pub const VF_PCI_REGEX: &'static str =
    r#"(?m)/sys/bus/pci/devices/[[:xdigit:]]{4}:[[:xdigit:]]{2}:[[:xdigit:]]{2}.([[:xdigit:]]{1})/virtfn([[:digit:]]{1}).*/([[:xdigit:]]{4}:[[:xdigit:]]{2}:[[:xdigit:]]{2}.[[:xdigit:]]{1})"#;

/// `devlink port` lines of virtual functions:
/// `pci/<VF PCI>/...: type eth netdev <netdev> flavour virtual ...`.
pub const VF_NETDEV_REGEX: &'static str =
    r#"(?m)^pci/([[:xdigit:]]{4}:[[:xdigit:]]{2}:[[:xdigit:]]{2}.[[:xdigit:]]{1})/.*netdev (\S{1,}) flavour virtual"#;

pub open spec fn s_pci() -> Seq<char> {
    seq!['p', 'c', 'i']
}

pub open spec fn s_pf() -> Seq<char> {
    seq!['p', 'f']
}

pub open spec fn s_rf() -> Seq<char> {
    seq!['r', 'f']
}

pub open spec fn s_vf() -> Seq<char> {
    seq!['v', 'f']
}

pub type Pairs = Seq<(Seq<char>, Seq<char>)>;

/// The physical functions: `pci<port>` is the PF's PCI address, `pf<port>` its netdev.
pub open spec fn apply_pf_rows(pci: Pairs, netdev: Pairs, rows: CaptureRowsV) -> Option<(Pairs, Pairs)>
    decreases rows.len(),
{
    if rows.len() == 0 {
        Some((pci, netdev))
    } else if !row_ok(rows[0], 3) {
        None
    } else {
        let r = rows[0];
        apply_pf_rows(
            map_insert(pci, s_pci() + grp(r, 2), grp(r, 0)),
            map_insert(netdev, s_pf() + grp(r, 2), grp(r, 1)),
            rows.skip(1),
        )
    }
}

/// The VF representors: `pf<pf>rf<vf>` is the representor's netdev.
pub open spec fn apply_vfrep_rows(netdev: Pairs, rows: CaptureRowsV) -> Option<Pairs>
    decreases rows.len(),
{
    if rows.len() == 0 {
        Some(netdev)
    } else if !row_ok(rows[0], 3) {
        None
    } else {
        let r = rows[0];
        apply_vfrep_rows(
            map_insert(netdev, s_pf() + grp(r, 1) + s_rf() + grp(r, 2), grp(r, 0)),
            rows.skip(1),
        )
    }
}

/// The maps that `devlink port` shows: physical functions, then VF representors.
pub open spec fn devlink_maps_spec(pf_rows: CaptureRowsV, vfrep_rows: CaptureRowsV) -> Option<
    (Pairs, Pairs),
> {
    match apply_pf_rows(Seq::empty(), Seq::empty(), pf_rows) {
        None => None,
        Some((pci, netdev)) => match apply_vfrep_rows(netdev, vfrep_rows) {
            None => None,
            Some(n2) => Some((pci, n2)),
        },
    }
}

/// The netdev of VF `<pf>vf<vf>`: every virtual-function line whose PCI address is the
/// VF's gives `pf<pf>vf<vf>` that line's netdev.
pub open spec fn apply_vf_netdev_rows(
    netdev: Pairs,
    name: Seq<char>,
    vf_pci: Seq<char>,
    rows: CaptureRowsV,
) -> Option<Pairs>
    decreases rows.len(),
{
    if rows.len() == 0 {
        Some(netdev)
    } else if !row_ok(rows[0], 2) {
        None
    } else if grp(rows[0], 0) != vf_pci {
        apply_vf_netdev_rows(netdev, name, vf_pci, rows.skip(1))
    } else {
        apply_vf_netdev_rows(map_insert(netdev, name, grp(rows[0], 1)), name, vf_pci, rows.skip(1))
    }
}

/// The virtual functions: `pci<pf>vf<vf>` is the VF's PCI address, and `pf<pf>vf<vf>`
/// its netdev where `devlink port` shows one.
pub open spec fn apply_vf_rows(
    pci: Pairs,
    netdev: Pairs,
    vf_rows: CaptureRowsV,
    netdev_rows: CaptureRowsV,
) -> Option<(Pairs, Pairs)>
    decreases vf_rows.len(),
{
    if vf_rows.len() == 0 {
        Some((pci, netdev))
    } else if !row_ok(vf_rows[0], 3) {
        None
    } else {
        let r = vf_rows[0];
        match apply_vf_netdev_rows(
            netdev,
            s_pf() + grp(r, 0) + s_vf() + grp(r, 1),
            grp(r, 2),
            netdev_rows,
        ) {
            None => None,
            Some(n2) => apply_vf_rows(
                map_insert(pci, s_pci() + grp(r, 0) + s_vf() + grp(r, 1), grp(r, 2)),
                n2,
                vf_rows.skip(1),
                netdev_rows,
            ),
        }
    }
}

proof fn lemma_pf_rows_distinct(pci: Pairs, netdev: Pairs, rows: CaptureRowsV)
    requires
        keys_distinct(pci),
        keys_distinct(netdev),
        apply_pf_rows(pci, netdev, rows) is Some,
    ensures
        keys_distinct(apply_pf_rows(pci, netdev, rows).unwrap().0),
        keys_distinct(apply_pf_rows(pci, netdev, rows).unwrap().1),
    decreases rows.len(),
{
    if rows.len() > 0 {
        let r = rows[0];
        lemma_map_insert_distinct(pci, s_pci() + grp(r, 2), grp(r, 0));
        lemma_map_insert_distinct(netdev, s_pf() + grp(r, 2), grp(r, 1));
        lemma_pf_rows_distinct(
            map_insert(pci, s_pci() + grp(r, 2), grp(r, 0)),
            map_insert(netdev, s_pf() + grp(r, 2), grp(r, 1)),
            rows.skip(1),
        );
    }
}

proof fn lemma_vfrep_rows_distinct(netdev: Pairs, rows: CaptureRowsV)
    requires
        keys_distinct(netdev),
        apply_vfrep_rows(netdev, rows) is Some,
    ensures
        keys_distinct(apply_vfrep_rows(netdev, rows).unwrap()),
    decreases rows.len(),
{
    if rows.len() > 0 {
        let r = rows[0];
        lemma_map_insert_distinct(netdev, s_pf() + grp(r, 1) + s_rf() + grp(r, 2), grp(r, 0));
        lemma_vfrep_rows_distinct(
            map_insert(netdev, s_pf() + grp(r, 1) + s_rf() + grp(r, 2), grp(r, 0)),
            rows.skip(1),
        );
    }
}

/// The maps that `devlink port` shows have no name twice.
pub proof fn lemma_devlink_maps_distinct(pf_rows: CaptureRowsV, vfrep_rows: CaptureRowsV)
    requires
        devlink_maps_spec(pf_rows, vfrep_rows) is Some,
    ensures
        keys_distinct(devlink_maps_spec(pf_rows, vfrep_rows).unwrap().0),
        keys_distinct(devlink_maps_spec(pf_rows, vfrep_rows).unwrap().1),
{
    let e = Seq::<(Seq<char>, Seq<char>)>::empty();
    lemma_pf_rows_distinct(e, e, pf_rows);
    let (pci, netdev) = apply_pf_rows(e, e, pf_rows).unwrap();
    lemma_vfrep_rows_distinct(netdev, vfrep_rows);
}

proof fn lemma_vfrep_keeps(netdev: Pairs, rows: CaptureRowsV, k: Seq<char>)
    requires
        apply_vfrep_rows(netdev, rows) is Some,
        forall|j: int|
            0 <= j < rows.len() ==> s_pf() + grp(#[trigger] rows[j], 1) + s_rf() + grp(rows[j], 2)
                != k,
    ensures
        map_get(apply_vfrep_rows(netdev, rows).unwrap(), k) == map_get(netdev, k),
    decreases rows.len(),
{
    if rows.len() > 0 {
        let r = rows[0];
        let name = s_pf() + grp(r, 1) + s_rf() + grp(r, 2);
        lemma_map_get_insert(netdev, name, grp(r, 0), k);
        assert forall|j: int| 0 <= j < rows.skip(1).len() implies s_pf() + grp(
            #[trigger] rows.skip(1)[j],
            1,
        ) + s_rf() + grp(rows.skip(1)[j], 2) != k by {
            assert(rows.skip(1)[j] == rows[j + 1]);
        }
        lemma_vfrep_keeps(map_insert(netdev, name, grp(r, 0)), rows.skip(1), k);
    }
}

proof fn lemma_vfrep_row(netdev: Pairs, rows: CaptureRowsV, i: int)
    requires
        apply_vfrep_rows(netdev, rows) is Some,
        0 <= i < rows.len(),
        forall|j: int|
            i < j < rows.len() ==> s_pf() + grp(#[trigger] rows[j], 1) + s_rf() + grp(rows[j], 2)
                != s_pf() + grp(rows[i], 1) + s_rf() + grp(rows[i], 2),
    ensures
        map_get(
            apply_vfrep_rows(netdev, rows).unwrap(),
            s_pf() + grp(rows[i], 1) + s_rf() + grp(rows[i], 2),
        ) == Some(grp(rows[i], 0)),
    decreases rows.len(),
{
    let r = rows[0];
    let name = s_pf() + grp(r, 1) + s_rf() + grp(r, 2);
    let next = map_insert(netdev, name, grp(r, 0));
    if i == 0 {
        lemma_map_get_insert(netdev, name, grp(r, 0), name);
        assert forall|j: int| 0 <= j < rows.skip(1).len() implies s_pf() + grp(
            #[trigger] rows.skip(1)[j],
            1,
        ) + s_rf() + grp(rows.skip(1)[j], 2) != name by {
            assert(rows.skip(1)[j] == rows[j + 1]);
        }
        lemma_vfrep_keeps(next, rows.skip(1), name);
    } else {
        assert(rows.skip(1)[i - 1] == rows[i]);
        assert forall|j: int| i - 1 < j < rows.skip(1).len() implies s_pf() + grp(
            #[trigger] rows.skip(1)[j],
            1,
        ) + s_rf() + grp(rows.skip(1)[j], 2) != s_pf() + grp(rows.skip(1)[i - 1], 1) + s_rf()
            + grp(rows.skip(1)[i - 1], 2) by {
            assert(rows.skip(1)[j] == rows[j + 1]);
        }
        lemma_vfrep_row(next, rows.skip(1), i - 1);
    }
}

/// A VF representor line of `devlink port`, with netdev `D`, `pfnum X` and `vfnum Y`,
/// gives the netdev map the name `pfXrfY` for `D` (a later line of the same name
/// replaces it).
pub proof fn law_devlink_representor_names(pf_rows: CaptureRowsV, vfrep_rows: CaptureRowsV, i: int)
    requires
        devlink_maps_spec(pf_rows, vfrep_rows) is Some,
        0 <= i < vfrep_rows.len(),
        forall|j: int|
            i < j < vfrep_rows.len() ==> s_pf() + grp(#[trigger] vfrep_rows[j], 1) + s_rf() + grp(
                vfrep_rows[j],
                2,
            ) != s_pf() + grp(vfrep_rows[i], 1) + s_rf() + grp(vfrep_rows[i], 2),
    ensures
        map_get(
            devlink_maps_spec(pf_rows, vfrep_rows).unwrap().1,
            seq!['p', 'f'] + grp(vfrep_rows[i], 1) + seq!['r', 'f'] + grp(vfrep_rows[i], 2),
        ) == Some(grp(vfrep_rows[i], 0)),
{
    let e = Seq::<(Seq<char>, Seq<char>)>::empty();
    let (pci, netdev) = apply_pf_rows(e, e, pf_rows).unwrap();
    lemma_vfrep_row(netdev, vfrep_rows, i);
}

proof fn lemma_pf_keeps(pci: Pairs, netdev: Pairs, rows: CaptureRowsV, kp: Seq<char>, kn: Seq<char>)
    requires
        apply_pf_rows(pci, netdev, rows) is Some,
        forall|j: int| 0 <= j < rows.len() ==> s_pci() + grp(#[trigger] rows[j], 2) != kp,
        forall|j: int| 0 <= j < rows.len() ==> s_pf() + grp(#[trigger] rows[j], 2) != kn,
    ensures
        map_get(apply_pf_rows(pci, netdev, rows).unwrap().0, kp) == map_get(pci, kp),
        map_get(apply_pf_rows(pci, netdev, rows).unwrap().1, kn) == map_get(netdev, kn),
    decreases rows.len(),
{
    if rows.len() > 0 {
        let r = rows[0];
        lemma_map_get_insert(pci, s_pci() + grp(r, 2), grp(r, 0), kp);
        lemma_map_get_insert(netdev, s_pf() + grp(r, 2), grp(r, 1), kn);
        assert forall|j: int| 0 <= j < rows.skip(1).len() implies s_pci() + grp(
            #[trigger] rows.skip(1)[j],
            2,
        ) != kp && s_pf() + grp(rows.skip(1)[j], 2) != kn by {
            assert(rows.skip(1)[j] == rows[j + 1]);
        }
        lemma_pf_keeps(
            map_insert(pci, s_pci() + grp(r, 2), grp(r, 0)),
            map_insert(netdev, s_pf() + grp(r, 2), grp(r, 1)),
            rows.skip(1),
            kp,
            kn,
        );
    }
}

proof fn lemma_pf_row(pci: Pairs, netdev: Pairs, rows: CaptureRowsV, i: int)
    requires
        apply_pf_rows(pci, netdev, rows) is Some,
        0 <= i < rows.len(),
        forall|j: int| i < j < rows.len() ==> grp(#[trigger] rows[j], 2) != grp(rows[i], 2),
    ensures
        map_get(apply_pf_rows(pci, netdev, rows).unwrap().0, s_pci() + grp(rows[i], 2)) == Some(
            grp(rows[i], 0),
        ),
        map_get(apply_pf_rows(pci, netdev, rows).unwrap().1, s_pf() + grp(rows[i], 2)) == Some(
            grp(rows[i], 1),
        ),
    decreases rows.len(),
{
    let r = rows[0];
    let p2 = map_insert(pci, s_pci() + grp(r, 2), grp(r, 0));
    let n2 = map_insert(netdev, s_pf() + grp(r, 2), grp(r, 1));
    if i == 0 {
        lemma_map_get_insert(pci, s_pci() + grp(r, 2), grp(r, 0), s_pci() + grp(r, 2));
        lemma_map_get_insert(netdev, s_pf() + grp(r, 2), grp(r, 1), s_pf() + grp(r, 2));
        assert forall|j: int| 0 <= j < rows.skip(1).len() implies s_pci() + grp(
            #[trigger] rows.skip(1)[j],
            2,
        ) != s_pci() + grp(r, 2) && s_pf() + grp(rows.skip(1)[j], 2) != s_pf() + grp(r, 2) by {
            assert(rows.skip(1)[j] == rows[j + 1]);
            let g = grp(rows[j + 1], 2);
            if s_pci() + g == s_pci() + grp(r, 2) {
                assert(g =~= (s_pci() + g).skip(3));
                assert(grp(r, 2) =~= (s_pci() + grp(r, 2)).skip(3));
            }
            if s_pf() + g == s_pf() + grp(r, 2) {
                assert(g =~= (s_pf() + g).skip(2));
                assert(grp(r, 2) =~= (s_pf() + grp(r, 2)).skip(2));
            }
        }
        lemma_pf_keeps(p2, n2, rows.skip(1), s_pci() + grp(r, 2), s_pf() + grp(r, 2));
    } else {
        assert(rows.skip(1)[i - 1] == rows[i]);
        assert forall|j: int| i - 1 < j < rows.skip(1).len() implies grp(
            #[trigger] rows.skip(1)[j],
            2,
        ) != grp(rows.skip(1)[i - 1], 2) by {
            assert(rows.skip(1)[j] == rows[j + 1]);
        }
        lemma_pf_row(p2, n2, rows.skip(1), i - 1);
    }
}

/// A physical-function line of `devlink port`, with PCI address `A`, netdev `D` and
/// `port X`, gives the PCI map `pciX` for `A` and the netdev map `pfX` for `D` (a later
/// line of the same port, or a representor of that name, replaces it).
pub proof fn law_devlink_pf_names(pf_rows: CaptureRowsV, vfrep_rows: CaptureRowsV, i: int)
    requires
        devlink_maps_spec(pf_rows, vfrep_rows) is Some,
        0 <= i < pf_rows.len(),
        forall|j: int| i < j < pf_rows.len() ==> grp(#[trigger] pf_rows[j], 2) != grp(pf_rows[i], 2),
        forall|j: int|
            0 <= j < vfrep_rows.len() ==> s_pf() + grp(#[trigger] vfrep_rows[j], 1) + s_rf() + grp(
                vfrep_rows[j],
                2,
            ) != s_pf() + grp(pf_rows[i], 2),
    ensures
        map_get(devlink_maps_spec(pf_rows, vfrep_rows).unwrap().0, seq!['p', 'c', 'i'] + grp(
            pf_rows[i],
            2,
        )) == Some(grp(pf_rows[i], 0)),
        map_get(devlink_maps_spec(pf_rows, vfrep_rows).unwrap().1, seq!['p', 'f'] + grp(
            pf_rows[i],
            2,
        )) == Some(grp(pf_rows[i], 1)),
{
    let e = Seq::<(Seq<char>, Seq<char>)>::empty();
    lemma_pf_row(e, e, pf_rows, i);
    let (pci, netdev) = apply_pf_rows(e, e, pf_rows).unwrap();
    lemma_vfrep_keeps(netdev, vfrep_rows, s_pf() + grp(pf_rows[i], 2));
}

proof fn lemma_vf_netdev_rows_distinct(netdev: Pairs, name: Seq<char>, vf_pci: Seq<char>, rows: CaptureRowsV)
    requires
        keys_distinct(netdev),
        apply_vf_netdev_rows(netdev, name, vf_pci, rows) is Some,
    ensures
        keys_distinct(apply_vf_netdev_rows(netdev, name, vf_pci, rows).unwrap()),
    decreases rows.len(),
{
    if rows.len() > 0 && row_ok(rows[0], 2) {
        if grp(rows[0], 0) != vf_pci {
            lemma_vf_netdev_rows_distinct(netdev, name, vf_pci, rows.skip(1));
        } else {
            lemma_map_insert_distinct(netdev, name, grp(rows[0], 1));
            lemma_vf_netdev_rows_distinct(
                map_insert(netdev, name, grp(rows[0], 1)),
                name,
                vf_pci,
                rows.skip(1),
            );
        }
    }
}

proof fn lemma_vf_netdev_keeps(netdev: Pairs, name: Seq<char>, vf_pci: Seq<char>, rows: CaptureRowsV, k: Seq<char>)
    requires
        apply_vf_netdev_rows(netdev, name, vf_pci, rows) is Some,
        k != name,
    ensures
        map_get(apply_vf_netdev_rows(netdev, name, vf_pci, rows).unwrap(), k) == map_get(netdev, k),
    decreases rows.len(),
{
    if rows.len() > 0 {
        if grp(rows[0], 0) != vf_pci {
            lemma_vf_netdev_keeps(netdev, name, vf_pci, rows.skip(1), k);
        } else {
            lemma_map_get_insert(netdev, name, grp(rows[0], 1), k);
            lemma_vf_netdev_keeps(map_insert(netdev, name, grp(rows[0], 1)), name, vf_pci, rows.skip(1), k);
        }
    }
}

proof fn lemma_vf_netdev_last_value(netdev: Pairs, name: Seq<char>, vf_pci: Seq<char>, rows: CaptureRowsV)
    requires
        apply_vf_netdev_rows(netdev, name, vf_pci, rows) is Some,
        forall|j: int| 0 <= j < rows.len() ==> grp(#[trigger] rows[j], 0) != vf_pci,
    ensures
        apply_vf_netdev_rows(netdev, name, vf_pci, rows).unwrap() == netdev,
    decreases rows.len(),
{
    if rows.len() > 0 {
        assert forall|j: int| 0 <= j < rows.skip(1).len() implies grp(#[trigger] rows.skip(1)[j], 0)
            != vf_pci by {
            assert(rows.skip(1)[j] == rows[j + 1]);
        }
        lemma_vf_netdev_last_value(netdev, name, vf_pci, rows.skip(1));
    }
}

proof fn lemma_vf_netdev_row(netdev: Pairs, name: Seq<char>, vf_pci: Seq<char>, rows: CaptureRowsV, k: int)
    requires
        apply_vf_netdev_rows(netdev, name, vf_pci, rows) is Some,
        0 <= k < rows.len(),
        grp(rows[k], 0) == vf_pci,
        forall|j: int| k < j < rows.len() ==> grp(#[trigger] rows[j], 0) != vf_pci,
    ensures
        map_get(apply_vf_netdev_rows(netdev, name, vf_pci, rows).unwrap(), name) == Some(
            grp(rows[k], 1),
        ),
    decreases rows.len(),
{
    if k == 0 {
        let n2 = map_insert(netdev, name, grp(rows[0], 1));
        lemma_map_get_insert(netdev, name, grp(rows[0], 1), name);
        assert forall|j: int| 0 <= j < rows.skip(1).len() implies grp(#[trigger] rows.skip(1)[j], 0)
            != vf_pci by {
            assert(rows.skip(1)[j] == rows[j + 1]);
        }
        lemma_vf_netdev_last_value(n2, name, vf_pci, rows.skip(1));
    } else {
        assert(rows.skip(1)[k - 1] == rows[k]);
        assert forall|j: int| k - 1 < j < rows.skip(1).len() implies grp(
            #[trigger] rows.skip(1)[j],
            0,
        ) != vf_pci by {
            assert(rows.skip(1)[j] == rows[j + 1]);
        }
        if grp(rows[0], 0) != vf_pci {
            lemma_vf_netdev_row(netdev, name, vf_pci, rows.skip(1), k - 1);
        } else {
            lemma_vf_netdev_row(map_insert(netdev, name, grp(rows[0], 1)), name, vf_pci, rows.skip(1), k - 1);
        }
    }
}

/// The PCI name of a `virtfn` line: `pci<pf>vf<vf>`.
pub open spec fn vf_pci_name(r: Seq<Option<Seq<char>>>) -> Seq<char> {
    seq!['p', 'c', 'i'] + grp(r, 0) + seq!['v', 'f'] + grp(r, 1)
}

/// The netdev name of a `virtfn` line: `pf<pf>vf<vf>`.
pub open spec fn vf_netdev_name(r: Seq<Option<Seq<char>>>) -> Seq<char> {
    seq!['p', 'f'] + grp(r, 0) + seq!['v', 'f'] + grp(r, 1)
}

proof fn lemma_vf_rows_keeps(
    pci: Pairs,
    netdev: Pairs,
    vf_rows: CaptureRowsV,
    netdev_rows: CaptureRowsV,
    kp: Seq<char>,
    kn: Seq<char>,
)
    requires
        apply_vf_rows(pci, netdev, vf_rows, netdev_rows) is Some,
    ensures
        (forall|j: int| 0 <= j < vf_rows.len() ==> vf_pci_name(#[trigger] vf_rows[j]) != kp)
            ==> map_get(apply_vf_rows(pci, netdev, vf_rows, netdev_rows).unwrap().0, kp)
            == map_get(pci, kp),
        (forall|j: int| 0 <= j < vf_rows.len() ==> vf_netdev_name(#[trigger] vf_rows[j]) != kn)
            ==> map_get(apply_vf_rows(pci, netdev, vf_rows, netdev_rows).unwrap().1, kn)
            == map_get(netdev, kn),
    decreases vf_rows.len(),
{
    if vf_rows.len() > 0 {
        let r = vf_rows[0];
        assert(s_pci() + grp(r, 0) + s_vf() + grp(r, 1) == vf_pci_name(r)) by {
            lemma_strlits();
        }
        assert(s_pf() + grp(r, 0) + s_vf() + grp(r, 1) == vf_netdev_name(r));
        let n2 = apply_vf_netdev_rows(netdev, vf_netdev_name(r), grp(r, 2), netdev_rows).unwrap();
        let p2 = map_insert(pci, vf_pci_name(r), grp(r, 2));
        lemma_vf_rows_keeps(p2, n2, vf_rows.skip(1), netdev_rows, kp, kn);
        if forall|j: int| 0 <= j < vf_rows.len() ==> vf_pci_name(#[trigger] vf_rows[j]) != kp {
            assert(vf_pci_name(vf_rows[0]) != kp);
            lemma_map_get_insert(pci, vf_pci_name(r), grp(r, 2), kp);
            assert forall|j: int| 0 <= j < vf_rows.skip(1).len() implies vf_pci_name(
                #[trigger] vf_rows.skip(1)[j],
            ) != kp by {
                assert(vf_rows.skip(1)[j] == vf_rows[j + 1]);
            }
        }
        if forall|j: int| 0 <= j < vf_rows.len() ==> vf_netdev_name(#[trigger] vf_rows[j]) != kn {
            assert(vf_netdev_name(vf_rows[0]) != kn);
            lemma_vf_netdev_keeps(netdev, vf_netdev_name(r), grp(r, 2), netdev_rows, kn);
            assert forall|j: int| 0 <= j < vf_rows.skip(1).len() implies vf_netdev_name(
                #[trigger] vf_rows.skip(1)[j],
            ) != kn by {
                assert(vf_rows.skip(1)[j] == vf_rows[j + 1]);
            }
        }
    }
}

/// A `virtfn` line for VF `Y` of PF function `X`, pointing at PCI address `A`, gives the
/// PCI map the name `pciXvfY` for `A` (a later line of the same name replaces it).
pub proof fn law_vf_pci_names(pci: Pairs, netdev: Pairs, vf_rows: CaptureRowsV, netdev_rows: CaptureRowsV, i: int)
    requires
        apply_vf_rows(pci, netdev, vf_rows, netdev_rows) is Some,
        0 <= i < vf_rows.len(),
        forall|j: int| i < j < vf_rows.len() ==> vf_pci_name(#[trigger] vf_rows[j]) != vf_pci_name(vf_rows[i]),
    ensures
        map_get(apply_vf_rows(pci, netdev, vf_rows, netdev_rows).unwrap().0, vf_pci_name(vf_rows[i]))
            == Some(grp(vf_rows[i], 2)),
    decreases vf_rows.len(),
{
    let r = vf_rows[0];
    assert(s_pci() + grp(r, 0) + s_vf() + grp(r, 1) == vf_pci_name(r)) by {
        lemma_strlits();
    }
    assert(s_pf() + grp(r, 0) + s_vf() + grp(r, 1) == vf_netdev_name(r));
    let n2 = apply_vf_netdev_rows(netdev, vf_netdev_name(r), grp(r, 2), netdev_rows).unwrap();
    let p2 = map_insert(pci, vf_pci_name(r), grp(r, 2));
    if i == 0 {
        lemma_map_get_insert(pci, vf_pci_name(r), grp(r, 2), vf_pci_name(r));
        assert forall|j: int| 0 <= j < vf_rows.skip(1).len() implies vf_pci_name(
            #[trigger] vf_rows.skip(1)[j],
        ) != vf_pci_name(r) by {
            assert(vf_rows.skip(1)[j] == vf_rows[j + 1]);
        }
        lemma_vf_rows_keeps(p2, n2, vf_rows.skip(1), netdev_rows, vf_pci_name(r), Seq::empty());
    } else {
        assert(vf_rows.skip(1)[i - 1] == vf_rows[i]);
        assert forall|j: int| i - 1 < j < vf_rows.skip(1).len() implies vf_pci_name(
            #[trigger] vf_rows.skip(1)[j],
        ) != vf_pci_name(vf_rows.skip(1)[i - 1]) by {
            assert(vf_rows.skip(1)[j] == vf_rows[j + 1]);
        }
        law_vf_pci_names(p2, n2, vf_rows.skip(1), netdev_rows, i - 1);
    }
}

/// A `virtfn` line for VF `Y` of PF function `X`, pointing at PCI address `A`, gives the
/// netdev map the name `pfXvfY` for the netdev that the last virtual-function line of
/// `devlink port` at `A` shows (a later `virtfn` line of the same name replaces it).
pub proof fn law_vf_netdev_names(
    pci: Pairs,
    netdev: Pairs,
    vf_rows: CaptureRowsV,
    netdev_rows: CaptureRowsV,
    i: int,
    k: int,
)
    requires
        apply_vf_rows(pci, netdev, vf_rows, netdev_rows) is Some,
        0 <= i < vf_rows.len(),
        forall|j: int|
            i < j < vf_rows.len() ==> vf_netdev_name(#[trigger] vf_rows[j]) != vf_netdev_name(
                vf_rows[i],
            ),
        0 <= k < netdev_rows.len(),
        grp(netdev_rows[k], 0) == grp(vf_rows[i], 2),
        forall|j: int| k < j < netdev_rows.len() ==> grp(#[trigger] netdev_rows[j], 0) != grp(vf_rows[i], 2),
    ensures
        map_get(apply_vf_rows(pci, netdev, vf_rows, netdev_rows).unwrap().1, vf_netdev_name(vf_rows[i]))
            == Some(grp(netdev_rows[k], 1)),
    decreases vf_rows.len(),
{
    let r = vf_rows[0];
    assert(s_pci() + grp(r, 0) + s_vf() + grp(r, 1) == vf_pci_name(r)) by {
        lemma_strlits();
    }
    assert(s_pf() + grp(r, 0) + s_vf() + grp(r, 1) == vf_netdev_name(r));
    let n2 = apply_vf_netdev_rows(netdev, vf_netdev_name(r), grp(r, 2), netdev_rows).unwrap();
    let p2 = map_insert(pci, vf_pci_name(r), grp(r, 2));
    if i == 0 {
        lemma_vf_netdev_row(netdev, vf_netdev_name(r), grp(r, 2), netdev_rows, k);
        assert forall|j: int| 0 <= j < vf_rows.skip(1).len() implies vf_netdev_name(
            #[trigger] vf_rows.skip(1)[j],
        ) != vf_netdev_name(r) by {
            assert(vf_rows.skip(1)[j] == vf_rows[j + 1]);
        }
        lemma_vf_rows_keeps(p2, n2, vf_rows.skip(1), netdev_rows, Seq::empty(), vf_netdev_name(r));
    } else {
        assert(vf_rows.skip(1)[i - 1] == vf_rows[i]);
        assert forall|j: int| i - 1 < j < vf_rows.skip(1).len() implies vf_netdev_name(
            #[trigger] vf_rows.skip(1)[j],
        ) != vf_netdev_name(vf_rows.skip(1)[i - 1]) by {
            assert(vf_rows.skip(1)[j] == vf_rows[j + 1]);
        }
        law_vf_netdev_names(p2, n2, vf_rows.skip(1), netdev_rows, i - 1, k);
    }
}

/// Adding the virtual functions keeps the maps free of repeated names.
pub proof fn lemma_vf_rows_distinct(pci: Pairs, netdev: Pairs, vf_rows: CaptureRowsV, netdev_rows: CaptureRowsV)
    requires
        keys_distinct(pci),
        keys_distinct(netdev),
        apply_vf_rows(pci, netdev, vf_rows, netdev_rows) is Some,
    ensures
        keys_distinct(apply_vf_rows(pci, netdev, vf_rows, netdev_rows).unwrap().0),
        keys_distinct(apply_vf_rows(pci, netdev, vf_rows, netdev_rows).unwrap().1),
    decreases vf_rows.len(),
{
    if vf_rows.len() > 0 {
        let r = vf_rows[0];
        let name = s_pf() + grp(r, 0) + s_vf() + grp(r, 1);
        lemma_vf_netdev_rows_distinct(netdev, name, grp(r, 2), netdev_rows);
        let n2 = apply_vf_netdev_rows(netdev, name, grp(r, 2), netdev_rows).unwrap();
        lemma_map_insert_distinct(pci, s_pci() + grp(r, 0) + s_vf() + grp(r, 1), grp(r, 2));
        lemma_vf_rows_distinct(
            map_insert(pci, s_pci() + grp(r, 0) + s_vf() + grp(r, 1), grp(r, 2)),
            n2,
            vf_rows.skip(1),
            netdev_rows,
        );
    }
}

/// The text of group `i` of a checked match.
pub(crate) fn group_text(row: &Vec<Option<String>>, i: usize) -> (r: &String)
    requires
        i < row.len(),
        row@[i as int] is Some,
    ensures
        r@ == row.deep_view()[i as int].unwrap(),
{
    match &row[i] {
        Some(s) => s,
        None => {
            proof {
                assert(false);
            }
            &row[i].as_ref().unwrap()
        },
    }
}

/// Whether a match has exactly `n` groups that all took part.
pub(crate) fn row_ok_exec(row: &Vec<Option<String>>, n: usize) -> (r: bool)
    ensures
        r == row_ok(row.deep_view(), n as nat),
{
    if row.len() != n {
        return false;
    }
    let mut i: usize = 0;
    while i < n
        invariant
            i <= n,
            row.len() == n,
            forall|j: int| 0 <= j < i ==> (#[trigger] row.deep_view()[j]) is Some,
        decreases n - i,
    {
        if row[i].is_none() {
            assert(row.deep_view()[i as int] is None);
            return false;
        }
        assert(row.deep_view()[i as int] is Some);
        i += 1;
    }
    true
}

/// Concatenation of three strings.
pub fn cat3(a: &str, b: &str, c: &str) -> (r: String)
    ensures
        r@ == a@ + b@ + c@,
{
    let mut r = a.to_owned();
    r.append(b);
    r.append(c);
    r
}

/// Concatenation of four strings.
pub fn cat4(a: &str, b: &str, c: &str, d: &str) -> (r: String)
    ensures
        r@ == a@ + b@ + c@ + d@,
{
    let mut r = cat3(a, b, c);
    r.append(d);
    r
}

proof fn lemma_strlits()
    ensures
        "pci"@ == s_pci(),
        "pf"@ == s_pf(),
        "rf"@ == s_rf(),
        "vf"@ == s_vf(),
{
    reveal_strlit("pci");
    reveal_strlit("pf");
    reveal_strlit("rf");
    reveal_strlit("vf");
    assert("pci"@ =~= s_pci());
    assert("pf"@ =~= s_pf());
    assert("rf"@ =~= s_rf());
    assert("vf"@ =~= s_vf());
}

/// The PCI and netdev maps that `devlink port` shows, from the matches of
/// `DEVLINK_PF_REGEX` and `DEVLINK_VFREP_REGEX`; `None` when a match does not have the
/// expected groups.
pub fn devlink_maps(pf_rows: &CaptureRows, vfrep_rows: &CaptureRows) -> (r: Option<
    (InterfaceMap, InterfaceMap),
>)
    ensures
        match r {
            None => devlink_maps_spec(pf_rows.deep_view(), vfrep_rows.deep_view()) is None,
            Some((p, n)) => devlink_maps_spec(pf_rows.deep_view(), vfrep_rows.deep_view()) == Some(
                (p@, n@),
            ),
        },
        r matches Some((p, n)) ==> keys_distinct(p@) && keys_distinct(n@),
{
    proof {
        if devlink_maps_spec(pf_rows.deep_view(), vfrep_rows.deep_view()) is Some {
            lemma_devlink_maps_distinct(pf_rows.deep_view(), vfrep_rows.deep_view());
        }
    }
    proof {
        lemma_strlits();
    }
    let mut pci = InterfaceMap::new();
    let mut netdev = InterfaceMap::new();
    let ghost pf = pf_rows.deep_view();
    let mut i: usize = 0;
    assert(pf.skip(0) =~= pf);
    while i < pf_rows.len()
        invariant
            i <= pf_rows.len(),
            pf == pf_rows.deep_view(),
            "pci"@ == s_pci(),
            "pf"@ == s_pf(),
            apply_pf_rows(Seq::empty(), Seq::empty(), pf) == apply_pf_rows(
                pci@,
                netdev@,
                pf.skip(i as int),
            ),
        decreases pf_rows.len() - i,
    {
        assert(pf.skip(i as int).skip(1) =~= pf.skip(i + 1));
        assert(pf.skip(i as int)[0] == pf[i as int]);
        let row = &pf_rows[i];
        assert(row.deep_view() == pf[i as int]);
        if !row_ok_exec(row, 3) {
            return None;
        }
        let port = group_text(row, 2);
        pci.insert(cat3("pci", port.as_str(), ""), group_text(row, 0).clone());
        netdev.insert(cat3("pf", port.as_str(), ""), group_text(row, 1).clone());
        proof {
            assert(s_pci() + port@ + ""@ =~= s_pci() + port@) by {
                reveal_strlit("");
            }
            assert(s_pf() + port@ + ""@ =~= s_pf() + port@) by {
                reveal_strlit("");
            }
        }
        i += 1;
    }
    let ghost vr = vfrep_rows.deep_view();
    let mut j: usize = 0;
    assert(vr.skip(0) =~= vr);
    assert(pf.skip(pf_rows.len() as int).len() == 0);
    while j < vfrep_rows.len()
        invariant
            j <= vfrep_rows.len(),
            vr == vfrep_rows.deep_view(),
            pf == pf_rows.deep_view(),
            "pf"@ == s_pf(),
            "rf"@ == s_rf(),
            devlink_maps_spec(pf, vr) == match apply_vfrep_rows(netdev@, vr.skip(j as int)) {
                None => None,
                Some(n2) => Some((pci@, n2)),
            },
        decreases vfrep_rows.len() - j,
    {
        assert(vr.skip(j as int).skip(1) =~= vr.skip(j + 1));
        assert(vr.skip(j as int)[0] == vr[j as int]);
        let row = &vfrep_rows[j];
        assert(row.deep_view() == vr[j as int]);
        if !row_ok_exec(row, 3) {
            return None;
        }
        netdev.insert(
            cat4("pf", group_text(row, 1).as_str(), "rf", group_text(row, 2).as_str()),
            group_text(row, 0).clone(),
        );
        j += 1;
    }
    assert(vr.skip(vfrep_rows.len() as int).len() == 0);
    Some((pci, netdev))
}

/// Records the netdev of one VF (see `apply_vf_netdev_rows`).
fn vf_netdev(
    netdev: &mut InterfaceMap,
    name: &String,
    vf_pci: &String,
    rows: &CaptureRows,
) -> (ok: bool)
    ensures
        match apply_vf_netdev_rows(old(netdev)@, name@, vf_pci@, rows.deep_view()) {
            None => !ok,
            Some(n) => ok && final(netdev)@ == n,
        },
{
    let ghost rv = rows.deep_view();
    let mut i: usize = 0;
    assert(rv.skip(0) =~= rv);
    while i < rows.len()
        invariant
            i <= rows.len(),
            rv == rows.deep_view(),
            apply_vf_netdev_rows(old(netdev)@, name@, vf_pci@, rv) == apply_vf_netdev_rows(
                netdev@,
                name@,
                vf_pci@,
                rv.skip(i as int),
            ),
        decreases rows.len() - i,
    {
        assert(rv.skip(i as int).skip(1) =~= rv.skip(i + 1));
        assert(rv.skip(i as int)[0] == rv[i as int]);
        let row = &rows[i];
        assert(row.deep_view() == rv[i as int]);
        if !row_ok_exec(row, 2) {
            return false;
        }
        if *group_text(row, 0) == *vf_pci {
            netdev.insert(name.clone(), group_text(row, 1).clone());
        }
        i += 1;
    }
    assert(rv.skip(rows.len() as int).len() == 0);
    true
}

/// Adds the virtual functions to the maps, from the matches of `VF_PCI_REGEX` on the
/// `virtfn` listing and of `VF_NETDEV_REGEX` on the `devlink port` output; `None` when a
/// match does not have the expected groups.
pub fn vf_maps(
    pci: InterfaceMap,
    netdev: InterfaceMap,
    vf_rows: &CaptureRows,
    netdev_rows: &CaptureRows,
) -> (r: Option<(InterfaceMap, InterfaceMap)>)
    ensures
        match r {
            None => apply_vf_rows(pci@, netdev@, vf_rows.deep_view(), netdev_rows.deep_view()) is None,
            Some((p, n)) => apply_vf_rows(pci@, netdev@, vf_rows.deep_view(), netdev_rows.deep_view())
                == Some((p@, n@)),
        },
        keys_distinct(pci@) && keys_distinct(netdev@) ==> (r matches Some((p, n)) ==> keys_distinct(p@) && keys_distinct(n@)),
{
    proof {
        if keys_distinct(pci@) && keys_distinct(netdev@) && apply_vf_rows(
            pci@,
            netdev@,
            vf_rows.deep_view(),
            netdev_rows.deep_view(),
        ) is Some {
            lemma_vf_rows_distinct(pci@, netdev@, vf_rows.deep_view(), netdev_rows.deep_view());
        }
    }
    proof {
        lemma_strlits();
    }
    let ghost vr = vf_rows.deep_view();
    let ghost nr = netdev_rows.deep_view();
    let ghost start = apply_vf_rows(pci@, netdev@, vr, nr);
    let mut p_map = pci;
    let mut n_map = netdev;
    let mut i: usize = 0;
    assert(vr.skip(0) =~= vr);
    while i < vf_rows.len()
        invariant
            i <= vf_rows.len(),
            vr == vf_rows.deep_view(),
            nr == netdev_rows.deep_view(),
            "pci"@ == s_pci(),
            "pf"@ == s_pf(),
            "vf"@ == s_vf(),
            start == apply_vf_rows(pci@, netdev@, vr, nr),
            start == apply_vf_rows(p_map@, n_map@, vr.skip(i as int), nr),
        decreases vf_rows.len() - i,
    {
        assert(vr.skip(i as int).skip(1) =~= vr.skip(i + 1));
        assert(vr.skip(i as int)[0] == vr[i as int]);
        let row = &vf_rows[i];
        assert(row.deep_view() == vr[i as int]);
        if !row_ok_exec(row, 3) {
            return None;
        }
        let pfx = group_text(row, 0);
        let vfx = group_text(row, 1);
        let vf_pci = group_text(row, 2);
        let name = cat4("pf", pfx.as_str(), "vf", vfx.as_str());
        if !vf_netdev(&mut n_map, &name, vf_pci, netdev_rows) {
            return None;
        }
        p_map.insert(cat4("pci", pfx.as_str(), "vf", vfx.as_str()), vf_pci.clone());
        i += 1;
    }
    assert(vr.skip(vf_rows.len() as int).len() == 0);
    Some((p_map, n_map))
}

/// Runs a constant regular expression over `haystack`; `None` when it does not compile.
fn captures_of(regex: &str, haystack: &str) -> (r: Option<CaptureRows>)
    ensures
        r is Some <==> regex_compiles(regex@),
        r matches Some(rows) ==> rows.deep_view() == regex_captures(regex@, haystack@),
{
    match Pattern::new(regex) {
        None => None,
        Some(p) => Some(p.captures(haystack)),
    }
}

/// The maps that a `devlink port` listing shows, or `None` when a regular expression
/// does not compile or a match lacks a group.
pub fn parse_devlink(devlink_output: &str) -> (r: Option<(InterfaceMap, InterfaceMap)>)
    ensures
        match r {
            None => !regex_compiles(DEVLINK_PF_REGEX@) || !regex_compiles(DEVLINK_VFREP_REGEX@)
                || devlink_maps_spec(
                regex_captures(DEVLINK_PF_REGEX@, devlink_output@),
                regex_captures(DEVLINK_VFREP_REGEX@, devlink_output@),
            ) is None,
            Some((p, n)) => regex_compiles(DEVLINK_PF_REGEX@) && regex_compiles(
                DEVLINK_VFREP_REGEX@,
            ) && devlink_maps_spec(
                regex_captures(DEVLINK_PF_REGEX@, devlink_output@),
                regex_captures(DEVLINK_VFREP_REGEX@, devlink_output@),
            ) == Some((p@, n@)),
        },
        r matches Some((p, n)) ==> keys_distinct(p@) && keys_distinct(n@),
{
    proof {
        if devlink_maps_spec(
            regex_captures(DEVLINK_PF_REGEX@, devlink_output@),
            regex_captures(DEVLINK_VFREP_REGEX@, devlink_output@),
        ) is Some {
            lemma_devlink_maps_distinct(
                regex_captures(DEVLINK_PF_REGEX@, devlink_output@),
                regex_captures(DEVLINK_VFREP_REGEX@, devlink_output@),
            );
        }
    }
    let pf = match captures_of(DEVLINK_PF_REGEX, devlink_output) {
        None => {
            return None;
        },
        Some(rows) => rows,
    };
    let vfrep = match captures_of(DEVLINK_VFREP_REGEX, devlink_output) {
        None => {
            return None;
        },
        Some(rows) => rows,
    };
    devlink_maps(&pf, &vfrep)
}

/// Adds the virtual functions that a `virtfn` listing and the `devlink port` listing
/// show, or `None` when a regular expression does not compile or a match lacks a group.
pub fn parse_vfs(
    pci: InterfaceMap,
    netdev: InterfaceMap,
    vf_output: &str,
    devlink_output: &str,
) -> (r: Option<(InterfaceMap, InterfaceMap)>)
    ensures
        match r {
            None => !regex_compiles(VF_PCI_REGEX@) || !regex_compiles(VF_NETDEV_REGEX@)
                || apply_vf_rows(
                pci@,
                netdev@,
                regex_captures(VF_PCI_REGEX@, vf_output@),
                regex_captures(VF_NETDEV_REGEX@, devlink_output@),
            ) is None,
            Some((p, n)) => regex_compiles(VF_PCI_REGEX@) && regex_compiles(VF_NETDEV_REGEX@)
                && apply_vf_rows(
                pci@,
                netdev@,
                regex_captures(VF_PCI_REGEX@, vf_output@),
                regex_captures(VF_NETDEV_REGEX@, devlink_output@),
            ) == Some((p@, n@)),
        },
        keys_distinct(pci@) && keys_distinct(netdev@) ==> (r matches Some((p, n)) ==> keys_distinct(p@) && keys_distinct(n@)),
{
    proof {
        if keys_distinct(pci@) && keys_distinct(netdev@) && apply_vf_rows(
            pci@,
            netdev@,
            regex_captures(VF_PCI_REGEX@, vf_output@),
            regex_captures(VF_NETDEV_REGEX@, devlink_output@),
        ) is Some {
            lemma_vf_rows_distinct(
                pci@,
                netdev@,
                regex_captures(VF_PCI_REGEX@, vf_output@),
                regex_captures(VF_NETDEV_REGEX@, devlink_output@),
            );
        }
    }
    let vf = match captures_of(VF_PCI_REGEX, vf_output) {
        None => {
            return None;
        },
        Some(rows) => rows,
    };
    let nd = match captures_of(VF_NETDEV_REGEX, devlink_output) {
        None => {
            return None;
        },
        Some(rows) => rows,
    };
    vf_maps(pci, netdev, &vf, &nd)
}

/// Whether the `devlink port` listing shows VF ports (`pcivf controller`), so that the
/// virtual functions must be scanned too.
pub fn needs_vf_scan(devlink_output: &str) -> (r: bool)
    ensures
        r == crate::text::contains_seq(devlink_output@, "pcivf controller"@),
{
    crate::text::str_contains(devlink_output, "pcivf controller")
}

/// The first seven characters of a PCI address (`0000:05`), which select the
/// device's ports.
pub open spec fn pci_prefix(pci: Seq<char>) -> Seq<char> {
    pci.take(7)
}

/// The address is long enough and its first seven characters are ASCII.
pub open spec fn pci_prefix_ok(pci: Seq<char>) -> bool {
    pci.len() >= 7 && forall|i: int| 0 <= i < 7 ==> crate::xregex::is_ascii_char(#[trigger] pci[i])
}

fn pci_prefix_exec(pci: &str) -> (r: String)
    requires
        pci_prefix_ok(pci@),
    ensures
        r@ == pci_prefix(pci@),
{
    let v = chars_of(pci);
    let mut out: Vec<char> = Vec::new();
    crate::xregex::extend_range(&mut out, &v, 0, 7);
    assert(v@.subrange(0, 7) =~= v@.take(7));
    string_of(&out)
}

/// The command that lists the `devlink` ports of the device at `pci`.
pub fn devlink_command(pci: &str) -> (r: String)
    requires
        pci_prefix_ok(pci@),
    ensures
        r@ == "devlink port | grep "@ + pci_prefix(pci@) + "\n"@,
{
    let p = pci_prefix_exec(pci);
    cat3("devlink port | grep ", p.as_str(), "\n")
}

/// The command that lists the virtual functions of the device at `pci`.
pub fn vf_scan_command(pci: &str) -> (r: String)
    requires
        pci_prefix_ok(pci@),
    ensures
        r@ == "ls -l /sys/bus/pci/devices/"@ + pci_prefix(pci@) + "*/virtfn*\n"@,
{
    let p = pci_prefix_exec(pci);
    cat3("ls -l /sys/bus/pci/devices/", p.as_str(), "*/virtfn*\n")
}

} // verus!
