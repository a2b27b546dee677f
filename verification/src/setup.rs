//! The test setup: which applications a test runs, on which hosts, with which agent.
use vstd::prelude::*;
use crate::input::CmdLine;
use crate::yaml::{
    YamlMapping, YamlValue, as_mapping, as_str, lookup, lookup_str, get_str,
    mapping_contains, mapping_get, value_as_mapping, value_as_str,
};

verus! {

/// A remote host of the test and the SSH key to reach it.
pub struct RHost {
    pub hostname: String,
    pub ssh_key: String,
}

impl RHost {
    pub fn new(h: String, k: String) -> (r: RHost)
        ensures
            r.hostname@ == h@,
            r.ssh_key@ == k@,
    {
        RHost { hostname: h, ssh_key: k }
    }
}

pub type RHosts = Vec<RHost>;

/// An application of the test: its tag, its agent (`testpmd`, `scapy`, `shell`) and
/// the host it runs on.
pub struct AppTag<'a> {
    pub app: String,
    pub agent: String,
    pub rhost: &'a RHost,
}

/// What the runner was given: its command line and the two YAML documents.
pub struct Inputs {
    pub cmdline: CmdLine,
    pub commands: YamlMapping,
    pub hosts: YamlMapping,
}

pub open spec fn key_interfaces() -> Seq<char> {
    seq!['i', 'n', 't', 'e', 'r', 'f', 'a', 'c', 'e', 's']
}

impl Default for Inputs {
    fn default() -> (r: Self)
        ensures
            r.commands@.len() == 0,
            r.hosts@.len() == 0,
            r.cmdline.commands_file@ == Seq::<char>::empty(),
            r.cmdline.hosts_file@ == Seq::<char>::empty(),
            r.cmdline.mlx_dev@ == Seq::<char>::empty(),
            r.cmdline.ssh_key@ == Seq::<char>::empty(),
            !r.cmdline.verbose,
            !r.cmdline.silent,
            !r.cmdline.show_commands,
            !r.cmdline.reuse_conifiguration,
            !r.cmdline.loopback,
            !r.cmdline.reset,
    {
        Inputs { cmdline: CmdLine::default(), commands: Vec::new(), hosts: Vec::new() }
    }
}

impl Inputs {
    /// The stored interfaces can be reused: `--fast` was given and the hosts file has
    /// an `interfaces` entry.
    pub fn try_reuse_config(&self) -> (r: bool)
        ensures
            r == (self.cmdline.reuse_conifiguration && lookup(self.hosts@, key_interfaces())
                is Some),
    {
        proof {
            reveal_strlit("interfaces");
            assert("interfaces"@ =~= key_interfaces());
        }
        self.cmdline.reuse_conifiguration && mapping_contains(&self.hosts, "interfaces")
    }

    pub fn loopback(&self) -> (r: bool)
        ensures
            r == self.cmdline.loopback,
    {
        self.cmdline.loopback
    }

    pub fn reset(&self) -> (r: bool)
        ensures
            r == self.cmdline.reset,
    {
        self.cmdline.reset
    }

    /// The MT device named on the command line, if one was.
    pub fn mt_dev(&self) -> (r: Option<&str>)
        ensures
            match r {
                Some(s) => s@ == self.cmdline.mlx_dev@ && s@.len() > 0,
                None => self.cmdline.mlx_dev@.len() == 0,
            },
    {
        if !self.cmdline.mlx_dev.as_str().is_empty() {
            Some(self.cmdline.mlx_dev.as_str())
        } else {
            None
        }
    }
}

pub open spec fn key_agent() -> Seq<char> {
    seq!['a', 'g', 'e', 'n', 't']
}

pub open spec fn key_setup() -> Seq<char> {
    seq!['s', 'e', 't', 'u', 'p']
}

pub open spec fn key_host() -> Seq<char> {
    seq!['h', 'o', 's', 't']
}

/// An entry of the commands document that describes an application: a mapping with
/// an `agent`.
pub open spec fn is_app_entry(e: (YamlValue, YamlValue)) -> bool {
    as_mapping(e.1) matches Some(m) && lookup(m, key_agent()) is Some
}

/// An application entry with a `setup` section.
pub open spec fn has_setup(e: (YamlValue, YamlValue)) -> bool {
    as_mapping(e.1) matches Some(m) && lookup(m, key_setup()) is Some
}

/// The tags of the application entries with (`setup == true`) or without a `setup`
/// section, in document order; `None` when such an entry's tag is not a string.
pub open spec fn app_tags_with(entries: Seq<(YamlValue, YamlValue)>, setup: bool) -> Option<
    Seq<Seq<char>>,
>
    decreases entries.len(),
{
    if entries.len() == 0 {
        Some(Seq::empty())
    } else {
        let e = entries[0];
        let rest = app_tags_with(entries.skip(1), setup);
        if rest is None {
            None
        } else if !is_app_entry(e) {
            rest
        } else if as_str(e.0) is None {
            None
        } else if has_setup(e) == setup {
            Some(seq![as_str(e.0).unwrap()] + rest.unwrap())
        } else {
            rest
        }
    }
}

/// The application tags of a test: those with a `setup` section first, then the
/// others, each group in document order.
pub open spec fn app_tags_spec(commands: Seq<(YamlValue, YamlValue)>) -> Option<Seq<Seq<char>>> {
    match (app_tags_with(commands, true), app_tags_with(commands, false)) {
        (Some(a), Some(b)) => Some(a + b),
        _ => None,
    }
}

pub open spec fn strings_view(v: Seq<String>) -> Seq<Seq<char>> {
    v.map_values(|s: String| s@)
}

proof fn lemma_app_tags_with_none(entries: Seq<(YamlValue, YamlValue)>, setup: bool, other: bool)
    requires
        app_tags_with(entries, setup) is None,
    ensures
        app_tags_with(entries, other) is None,
    decreases entries.len(),
{
    if entries.len() > 0 {
        if app_tags_with(entries.skip(1), setup) is None {
            lemma_app_tags_with_none(entries.skip(1), setup, other);
        }
    }
}

proof fn lemma_tags_none_propagates(entries: Seq<(YamlValue, YamlValue)>, setup: bool, k: int)
    requires
        0 <= k <= entries.len(),
        app_tags_with(entries.skip(k), setup) is None,
    ensures
        app_tags_with(entries, setup) is None,
    decreases k,
{
    if k > 0 {
        let s = entries.skip(k - 1);
        assert(s.skip(1) =~= entries.skip(k));
        lemma_tags_none_propagates(entries, setup, k - 1);
    } else {
        assert(entries.skip(0) =~= entries);
    }
}

/// The tags of the application entries (see `app_tags_with`), collected from the end.
fn collect_tags(commands: &YamlMapping, setup: bool) -> (r: Option<Vec<String>>)
    ensures
        match r {
            None => app_tags_with(commands@, setup) is None,
            Some(v) => app_tags_with(commands@, setup) == Some(strings_view(v@)),
        },
{
    proof {
        reveal_strlit("agent");
        reveal_strlit("setup");
        assert("agent"@ =~= key_agent());
        assert("setup"@ =~= key_setup());
    }
    let mut rev: Vec<String> = Vec::new();
    let mut i = commands.len();
    assert(commands@.skip(commands.len() as int).len() == 0);
    assert(strings_view(rev@) =~= Seq::<Seq<char>>::empty());
    while i > 0
        invariant
            i <= commands.len(),
            "agent"@ == key_agent(),
            "setup"@ == key_setup(),
            app_tags_with(commands@.skip(i as int), setup) == Some(strings_view(rev@).reverse()),
        decreases i,
    {
        let ghost s = commands@.skip(i - 1);
        assert(s.skip(1) =~= commands@.skip(i as int));
        assert(s[0] == commands@[i - 1]);
        let e = &commands[i - 1];
        let keep = match value_as_mapping(&e.1) {
            None => false,
            Some(m) => mapping_contains(m, "agent"),
        };
        if keep {
            match value_as_str(&e.0) {
                None => {
                    proof {
                        lemma_tags_none_propagates(commands@, setup, (i - 1) as int);
                    }
                    return None;
                },
                Some(t) => {
                    let with_setup = match value_as_mapping(&e.1) {
                        None => false,
                        Some(m) => mapping_contains(m, "setup"),
                    };
                    if with_setup == setup {
                        let ghost before = strings_view(rev@);
                        rev.push(t.clone());
                        assert(strings_view(rev@) =~= before.push(t@));
                        assert(before.push(t@).reverse() =~= seq![t@] + before.reverse());
                    }
                },
            }
        }
        i -= 1;
    }
    assert(commands@.skip(0) =~= commands@);
    let mut out: Vec<String> = Vec::new();
    let mut j = rev.len();
    while j > 0
        invariant
            j <= rev.len(),
            strings_view(out@) == strings_view(rev@).reverse().take((rev.len() - j) as int),
        decreases j,
    {
        out.push(rev[j - 1].clone());
        assert(strings_view(rev@).reverse().take((rev.len() - j + 1) as int) =~= strings_view(
            rev@,
        ).reverse().take((rev.len() - j) as int).push(rev@[j - 1]@));
        j -= 1;
    }
    assert(strings_view(rev@).reverse().take(rev.len() as int) =~= strings_view(rev@).reverse());
    Some(out)
}

/// The application tags of a test (see `app_tags_spec`), or `None` when an
/// application entry's tag is not a string.
pub fn get_app_tags(commands: &YamlMapping) -> (r: Option<Vec<String>>)
    ensures
        match r {
            None => app_tags_spec(commands@) is None,
            Some(v) => app_tags_spec(commands@) == Some(strings_view(v@)),
        },
{
    let first = collect_tags(commands, true);
    let second = collect_tags(commands, false);
    match (first, second) {
        (Some(a), Some(b)) => {
            let mut a = a;
            let mut b = b;
            let ghost av = strings_view(a@);
            let ghost bv = strings_view(b@);
            a.append(&mut b);
            assert(strings_view(a@) =~= av + bv);
            Some(a)
        },
        (None, _) => {
            proof {
                lemma_app_tags_with_none(commands@, true, false);
            }
            None
        },
        (_, None) => None,
    }
}

/// Why the hosts of a test cannot be determined.
pub enum HostsError {
    /// The hosts file has no entry for this application tag.
    MissingTag(String),
    /// The entry of this application tag is not a mapping with a string `host`.
    BadHostEntry(String),
}

/// The host named for application `t`, if its entry is a mapping with a string `host`.
pub open spec fn host_of(hosts: Seq<(YamlValue, YamlValue)>, t: Seq<char>) -> Option<Seq<char>> {
    match lookup(hosts, t) {
        Some(v) => match as_mapping(v) {
            Some(m) => lookup_str(m, key_host()),
            None => None,
        },
        None => None,
    }
}

/// The distinct hosts of the applications `tags`, in order of first use; `None` when
/// an application has no usable host entry.
pub open spec fn hosts_spec(hosts: Seq<(YamlValue, YamlValue)>, tags: Seq<Seq<char>>) -> Option<
    Seq<Seq<char>>,
>
    decreases tags.len(),
{
    if tags.len() == 0 {
        Some(Seq::empty())
    } else {
        match hosts_spec(hosts, tags.drop_last()) {
            None => None,
            Some(hs) => match host_of(hosts, tags.last()) {
                None => None,
                Some(h) => if hs.contains(h) {
                    Some(hs)
                } else {
                    Some(hs.push(h))
                },
            },
        }
    }
}

/// The first application of `tags` without a usable host entry.
pub open spec fn first_bad_tag(hosts: Seq<(YamlValue, YamlValue)>, tags: Seq<Seq<char>>) -> int
    decreases tags.len(),
{
    if tags.len() == 0 {
        -1
    } else if first_bad_tag(hosts, tags.drop_last()) >= 0 {
        first_bad_tag(hosts, tags.drop_last())
    } else if host_of(hosts, tags.last()) is None {
        tags.len() - 1
    } else {
        -1
    }
}

pub open spec fn rhost_names(v: Seq<RHost>) -> Seq<Seq<char>> {
    v.map_values(|h: RHost| h.hostname@)
}

/// Whether a host is already among `rhosts`.
fn has_host(rhosts: &Vec<RHost>, h: &String) -> (r: bool)
    ensures
        r == rhost_names(rhosts@).contains(h@),
{
    let mut i: usize = 0;
    while i < rhosts.len()
        invariant
            i <= rhosts.len(),
            forall|j: int| 0 <= j < i ==> rhosts@[j].hostname@ != h@,
        decreases rhosts.len() - i,
    {
        if rhosts[i].hostname == *h {
            assert(rhost_names(rhosts@)[i as int] == h@);
            return true;
        }
        i += 1;
    }
    assert forall|j: int| 0 <= j < rhost_names(rhosts@).len() implies rhost_names(rhosts@)[j]
        != h@ by {
        assert(rhost_names(rhosts@)[j] == rhosts@[j].hostname@);
    }
    false
}

proof fn lemma_hosts_spec_bad(hosts: Seq<(YamlValue, YamlValue)>, tags: Seq<Seq<char>>)
    ensures
        (hosts_spec(hosts, tags) is None) == (first_bad_tag(hosts, tags) >= 0),
        first_bad_tag(hosts, tags) < tags.len(),
        first_bad_tag(hosts, tags) >= 0 ==> host_of(hosts, tags[first_bad_tag(hosts, tags)])
            is None,
        forall|j: int|
            0 <= j < tags.len() && (first_bad_tag(hosts, tags) < 0 || j < first_bad_tag(
                hosts,
                tags,
            )) ==> host_of(hosts, tags[j]) is Some,
    decreases tags.len(),
{
    if tags.len() > 0 {
        lemma_hosts_spec_bad(hosts, tags.drop_last());
        assert forall|j: int|
            0 <= j < tags.len() && (first_bad_tag(hosts, tags) < 0 || j < first_bad_tag(
                hosts,
                tags,
            )) implies host_of(hosts, tags[j]) is Some by {
            if j < tags.len() - 1 {
                assert(tags.drop_last()[j] == tags[j]);
            }
        }
        if first_bad_tag(hosts, tags.drop_last()) >= 0 {
            assert(tags.drop_last()[first_bad_tag(hosts, tags.drop_last())] == tags[first_bad_tag(
                hosts,
                tags,
            )]);
        }
    }
}

/// The remote hosts of the applications `app_tags`, each host once, in order of first
/// use, all reached with the command line's SSH key. An application without an entry
/// in the hosts file, or whose entry is not a mapping with a string `host`, is
/// reported (the first one, in order).
pub fn get_rhosts(app_tags: &Vec<String>, inputs: &Inputs) -> (r: Result<RHosts, HostsError>)
    ensures
        match r {
            Ok(v) => hosts_spec(inputs.hosts@, strings_view(app_tags@)) == Some(rhost_names(v@))
                && forall|i: int| 0 <= i < v@.len() ==> (#[trigger] v@[i]).ssh_key@
                    == inputs.cmdline.ssh_key@,
            Err(e) => {
                let k = first_bad_tag(inputs.hosts@, strings_view(app_tags@));
                &&& 0 <= k < app_tags@.len()
                &&& match e {
                    HostsError::MissingTag(t) => t@ == app_tags@[k]@ && lookup(
                        inputs.hosts@,
                        app_tags@[k]@,
                    ) is None,
                    HostsError::BadHostEntry(t) => t@ == app_tags@[k]@ && lookup(
                        inputs.hosts@,
                        app_tags@[k]@,
                    ) is Some,
                }
            },
        },
{
    proof {
        reveal_strlit("host");
        assert("host"@ =~= key_host());
    }
    let ghost tv = strings_view(app_tags@);
    let mut rhosts: RHosts = Vec::new();
    let mut i: usize = 0;
    assert(tv.take(0) =~= Seq::<Seq<char>>::empty());
    assert(rhost_names(rhosts@) =~= Seq::<Seq<char>>::empty());
    while i < app_tags.len()
        invariant
            i <= app_tags.len(),
            tv == strings_view(app_tags@),
            "host"@ == key_host(),
            hosts_spec(inputs.hosts@, tv.take(i as int)) == Some(rhost_names(rhosts@)),
            forall|j: int| 0 <= j < rhosts@.len() ==> (#[trigger] rhosts@[j]).ssh_key@
                == inputs.cmdline.ssh_key@,
        decreases app_tags.len() - i,
    {
        let t = &app_tags[i];
        assert(tv.take(i + 1).drop_last() =~= tv.take(i as int));
        assert(tv.take(i + 1).last() == t@);
        assert(tv[i as int] == t@);
        proof {
            lemma_hosts_spec_bad(inputs.hosts@, tv.take(i as int));
        }
        let entry = match mapping_get(&inputs.hosts, t.as_str()) {
            None => {
                proof {
                    lemma_first_bad_prefix(inputs.hosts@, tv, i as int);
                }
                return Err(HostsError::MissingTag(t.clone()));
            },
            Some(v) => v,
        };
        let hostname = match value_as_mapping(entry) {
            None => {
                proof {
                    lemma_first_bad_prefix(inputs.hosts@, tv, i as int);
                }
                return Err(HostsError::BadHostEntry(t.clone()));
            },
            Some(m) => match get_str(m, "host") {
                None => {
                    proof {
                        lemma_first_bad_prefix(inputs.hosts@, tv, i as int);
                    }
                    return Err(HostsError::BadHostEntry(t.clone()));
                },
                Some(h) => h,
            },
        };
        assert(host_of(inputs.hosts@, t@) == Some(hostname@));
        if !has_host(&rhosts, hostname) {
            let ghost before = rhost_names(rhosts@);
            rhosts.push(RHost::new(hostname.clone(), inputs.cmdline.ssh_key.clone()));
            assert(rhost_names(rhosts@) =~= before.push(hostname@));
        }
        i += 1;
    }
    assert(tv.take(app_tags.len() as int) =~= tv);
    Ok(rhosts)
}

/// Once an application without a usable host entry appears in a prefix, it is the
/// first such application of the whole list; before it, every prefix is usable.
proof fn lemma_first_bad_prefix(hosts: Seq<(YamlValue, YamlValue)>, tags: Seq<Seq<char>>, i: int)
    requires
        0 <= i < tags.len(),
        first_bad_tag(hosts, tags.take(i)) < 0,
        host_of(hosts, tags[i]) is None,
    ensures
        first_bad_tag(hosts, tags) == i,
    decreases tags.len(),
{
    if tags.len() - 1 > i {
        assert(tags.drop_last().take(i) =~= tags.take(i));
        assert(tags.drop_last()[i] == tags[i]);
        lemma_first_bad_prefix(hosts, tags.drop_last(), i);
    } else {
        assert(tags.drop_last() =~= tags.take(i));
    }
}

/// The agent named in an application's `agent` entry.
pub open spec fn agent_of(commands: Seq<(YamlValue, YamlValue)>, t: Seq<char>) -> Option<Seq<char>> {
    match lookup(commands, t) {
        Some(v) => match as_mapping(v) {
            Some(m) => lookup_str(m, key_agent()),
            None => None,
        },
        None => None,
    }
}

/// The first position of host `h` among `names`, or -1.
pub open spec fn first_host_index(names: Seq<Seq<char>>, h: Seq<char>) -> int
    decreases names.len(),
{
    if names.len() == 0 {
        -1
    } else if first_host_index(names.drop_last(), h) >= 0 {
        first_host_index(names.drop_last(), h)
    } else if names.last() == h {
        names.len() - 1
    } else {
        -1
    }
}

/// Application `t` can be set up: it has a host among `rhosts` and a string agent.
pub open spec fn tag_ok(inputs: Inputs, rhosts: Seq<RHost>, t: Seq<char>) -> bool {
    &&& host_of(inputs.hosts@, t) matches Some(h) && first_host_index(rhost_names(rhosts), h) >= 0
    &&& agent_of(inputs.commands@, t) is Some
}

proof fn lemma_first_host_index(names: Seq<Seq<char>>, h: Seq<char>)
    ensures
        -1 <= first_host_index(names, h) < names.len(),
        first_host_index(names, h) >= 0 ==> names[first_host_index(names, h)] == h,
        forall|j: int|
            0 <= j < names.len() && (first_host_index(names, h) < 0 || j < first_host_index(
                names,
                h,
            )) ==> names[j] != h,
    decreases names.len(),
{
    if names.len() > 0 {
        lemma_first_host_index(names.drop_last(), h);
        assert forall|j: int|
            0 <= j < names.len() && (first_host_index(names, h) < 0 || j < first_host_index(
                names,
                h,
            )) implies names[j] != h by {
            if j < names.len() - 1 {
                assert(names.drop_last()[j] == names[j]);
            }
        }
    }
}

proof fn lemma_first_host_index_is(names: Seq<Seq<char>>, h: Seq<char>, i: int)
    requires
        -1 <= i < names.len(),
        i >= 0 ==> names[i] == h,
        forall|j: int| 0 <= j < names.len() && (i < 0 || j < i) ==> names[j] != h,
    ensures
        first_host_index(names, h) == i,
{
    lemma_first_host_index(names, h);
    let r = first_host_index(names, h);
    if r != i {
        if r < 0 {
            assert(names[i] != h);
        } else if i < 0 {
            assert(names[r] != h);
        } else if r < i {
            assert(names[r] != h);
        } else {
            assert(names[i] != h);
        }
    }
}

/// The first remote host named `h`.
fn find_rhost<'a>(rhosts: &'a Vec<RHost>, h: &String) -> (r: Option<&'a RHost>)
    ensures
        match r {
            Some(x) => {
                let k = first_host_index(rhost_names(rhosts@), h@);
                k >= 0 && *x == rhosts@[k]
            },
            None => first_host_index(rhost_names(rhosts@), h@) == -1,
        },
{
    let ghost names = rhost_names(rhosts@);
    let mut i: usize = 0;
    while i < rhosts.len()
        invariant
            i <= rhosts.len(),
            names == rhost_names(rhosts@),
            forall|j: int| 0 <= j < i ==> names[j] != h@,
        decreases rhosts.len() - i,
    {
        assert(names[i as int] == rhosts@[i as int].hostname@);
        if rhosts[i].hostname == *h {
            proof {
                lemma_first_host_index_is(names, h@, i as int);
            }
            return Some(&rhosts[i]);
        }
        i += 1;
    }
    proof {
        lemma_first_host_index_is(names, h@, -1);
    }
    None
}

/// The applications of the test with their agents and hosts, in the order of
/// `app_tags`: each application runs on the first of `rhosts` named in its host entry.
/// `None` when an application has no such host or no string agent.
pub fn get_test_tags<'a>(app_tags: &Vec<String>, rhosts: &'a Vec<RHost>, inputs: &Inputs) -> (r:
    Option<Vec<AppTag<'a>>>)
    ensures
        match r {
            None => exists|i: int|
                0 <= i < app_tags@.len() && !tag_ok(*inputs, rhosts@, #[trigger] app_tags@[i]@),
            Some(tags) => {
                &&& tags@.len() == app_tags@.len()
                &&& forall|i: int|
                    #![trigger tags@[i]]
                    0 <= i < tags@.len() ==> {
                        let t = app_tags@[i]@;
                        let h = host_of(inputs.hosts@, t).unwrap();
                        &&& tags@[i].app@ == t
                        &&& Some(tags@[i].agent@) == agent_of(inputs.commands@, t)
                        &&& *tags@[i].rhost == rhosts@[first_host_index(rhost_names(rhosts@), h)]
                        &&& first_host_index(rhost_names(rhosts@), h) >= 0
                    }
            },
        },
{
    proof {
        reveal_strlit("host");
        reveal_strlit("agent");
        assert("host"@ =~= key_host());
        assert("agent"@ =~= key_agent());
    }
    let mut tags: Vec<AppTag<'a>> = Vec::new();
    let mut i: usize = 0;
    while i < app_tags.len()
        invariant
            i <= app_tags.len(),
            "host"@ == key_host(),
            "agent"@ == key_agent(),
            tags@.len() == i,
            forall|k: int|
                #![trigger tags@[k]]
                0 <= k < i ==> {
                    let t = app_tags@[k]@;
                    let h = host_of(inputs.hosts@, t).unwrap();
                    &&& tags@[k].app@ == t
                    &&& Some(tags@[k].agent@) == agent_of(inputs.commands@, t)
                    &&& *tags@[k].rhost == rhosts@[first_host_index(rhost_names(rhosts@), h)]
                    &&& first_host_index(rhost_names(rhosts@), h) >= 0
                },
        decreases app_tags.len() - i,
    {
        let t = &app_tags[i];
        let hostname = match mapping_get(&inputs.hosts, t.as_str()) {
            None => {
                return None;
            },
            Some(v) => match value_as_mapping(v) {
                None => {
                    return None;
                },
                Some(m) => match get_str(m, "host") {
                    None => {
                        return None;
                    },
                    Some(h) => h,
                },
            },
        };
        assert(host_of(inputs.hosts@, t@) == Some(hostname@));
        let rhost = match find_rhost(rhosts, hostname) {
            None => {
                return None;
            },
            Some(rh) => rh,
        };
        let agent = match mapping_get(&inputs.commands, t.as_str()) {
            None => {
                return None;
            },
            Some(v) => match value_as_mapping(v) {
                None => {
                    return None;
                },
                Some(m) => match get_str(m, "agent") {
                    None => {
                        return None;
                    },
                    Some(a) => a,
                },
            },
        };
        tags.push(AppTag { app: t.clone(), agent: agent.clone(), rhost });
        i += 1;
    }
    Some(tags)
}

/// The kinds of application the runner can drive.
#[derive(PartialEq, Eq, Structural, Clone, Copy, Debug)]
pub enum AgentKind {
    Testpmd,
    Scapy,
    Shell,
}

/// The kind of application an agent name stands for, if the runner knows it.
pub fn agent_kind(agent: &str) -> (r: Option<AgentKind>)
    ensures
        r == (if agent@ == "testpmd"@ {
            Some(AgentKind::Testpmd)
        } else if agent@ == "scapy"@ {
            Some(AgentKind::Scapy)
        } else if agent@ == "shell"@ {
            Some(AgentKind::Shell)
        } else {
            None
        }),
{
    let a = agent.to_owned();
    let t = "testpmd".to_owned();
    let s = "scapy".to_owned();
    let h = "shell".to_owned();
    if a == t {
        Some(AgentKind::Testpmd)
    } else if a == s {
        Some(AgentKind::Scapy)
    } else if a == h {
        Some(AgentKind::Shell)
    } else {
        None
    }
}

/// The hosts of a test are listed once each, and the host of every application is
/// among them.
pub proof fn law_hosts_distinct_and_complete(hosts: Seq<(YamlValue, YamlValue)>, tags: Seq<Seq<char>>)
    requires
        hosts_spec(hosts, tags) is Some,
    ensures
        hosts_spec(hosts, tags).unwrap().no_duplicates(),
        forall|i: int|
            0 <= i < tags.len() ==> host_of(hosts, #[trigger] tags[i]) is Some && hosts_spec(
                hosts,
                tags,
            ).unwrap().contains(host_of(hosts, tags[i]).unwrap()),
    decreases tags.len(),
{
    if tags.len() > 0 {
        let init = tags.drop_last();
        law_hosts_distinct_and_complete(hosts, init);
        let hs = hosts_spec(hosts, init).unwrap();
        let h = host_of(hosts, tags.last()).unwrap();
        let r = hosts_spec(hosts, tags).unwrap();
        if !hs.contains(h) {
            assert(r == hs.push(h));
            assert forall|a: int, b: int| 0 <= a < b < r.len() implies r[a] != r[b] by {
                if b == r.len() - 1 {
                    assert(r[a] == hs[a]);
                }
            }
        }
        assert forall|i: int| 0 <= i < tags.len() implies host_of(hosts, #[trigger] tags[i])
            is Some && r.contains(host_of(hosts, tags[i]).unwrap()) by {
            if i < tags.len() - 1 {
                assert(init[i] == tags[i]);
                let g = host_of(hosts, init[i]).unwrap();
                assert(hs.contains(g));
                if !hs.contains(h) {
                    let k = choose|k: int| 0 <= k < hs.len() && hs[k] == g;
                    assert(r[k] == g);
                }
            } else if !hs.contains(h) {
                assert(r[r.len() - 1] == h);
            }
        }
    }
}

/// Every application entry of the commands is listed by `get_app_tags`, and every
/// listed tag is the tag of an application entry.
pub proof fn law_app_tags_complete(commands: Seq<(YamlValue, YamlValue)>)
    requires
        app_tags_spec(commands) is Some,
    ensures
        forall|k: int|
            0 <= k < commands.len() && is_app_entry(#[trigger] commands[k]) ==> as_str(
                commands[k].0,
            ) is Some && app_tags_spec(commands).unwrap().contains(as_str(commands[k].0).unwrap()),
        forall|t: Seq<char>|
            app_tags_spec(commands).unwrap().contains(t) ==> exists|k: int|
                0 <= k < commands.len() && is_app_entry(#[trigger] commands[k]) && as_str(
                    commands[k].0,
                ) == Some(t),
{
    lemma_app_tags_with_members(commands, true);
    lemma_app_tags_with_members(commands, false);
    let a = app_tags_with(commands, true).unwrap();
    let b = app_tags_with(commands, false).unwrap();
    let r = a + b;
    assert forall|k: int|
        0 <= k < commands.len() && is_app_entry(#[trigger] commands[k]) implies as_str(
        commands[k].0,
    ) is Some && r.contains(as_str(commands[k].0).unwrap()) by {
        let t = as_str(commands[k].0).unwrap();
        if has_setup(commands[k]) {
            let j = choose|j: int| 0 <= j < a.len() && a[j] == t;
            assert(r[j] == t);
        } else {
            let j = choose|j: int| 0 <= j < b.len() && b[j] == t;
            assert(r[a.len() + j] == t);
        }
    }
    assert forall|t: Seq<char>| r.contains(t) implies exists|k: int|
        0 <= k < commands.len() && is_app_entry(#[trigger] commands[k]) && as_str(commands[k].0)
            == Some(t) by {
        let j = choose|j: int| 0 <= j < r.len() && r[j] == t;
        if j < a.len() {
            assert(a[j] == t);
            assert(a.contains(t));
        } else {
            assert(b[j - a.len()] == t);
            assert(b.contains(t));
        }
    }
}

proof fn lemma_app_tags_with_members(entries: Seq<(YamlValue, YamlValue)>, setup: bool)
    requires
        app_tags_with(entries, setup) is Some,
    ensures
        forall|k: int|
            0 <= k < entries.len() && is_app_entry(#[trigger] entries[k]) && has_setup(entries[k])
                == setup ==> as_str(entries[k].0) is Some && app_tags_with(
                entries,
                setup,
            ).unwrap().contains(as_str(entries[k].0).unwrap()),
        forall|t: Seq<char>|
            app_tags_with(entries, setup).unwrap().contains(t) ==> exists|k: int|
                0 <= k < entries.len() && is_app_entry(#[trigger] entries[k]) && as_str(
                    entries[k].0,
                ) == Some(t),
    decreases entries.len(),
{
    if entries.len() > 0 {
        let tail = entries.skip(1);
        lemma_app_tags_with_members(tail, setup);
        let rest = app_tags_with(tail, setup).unwrap();
        let r = app_tags_with(entries, setup).unwrap();
        let e = entries[0];
        let added = is_app_entry(e) && has_setup(e) == setup;
        if added {
            assert(r == seq![as_str(e.0).unwrap()] + rest);
        } else {
            assert(r == rest);
        }
        assert forall|k: int|
            0 <= k < entries.len() && is_app_entry(#[trigger] entries[k]) && has_setup(entries[k])
                == setup implies as_str(entries[k].0) is Some && r.contains(
                as_str(entries[k].0).unwrap(),
            ) by {
            if k == 0 {
                assert(r[0] == as_str(e.0).unwrap());
            } else {
                assert(tail[k - 1] == entries[k]);
                let t = as_str(entries[k].0).unwrap();
                let j = choose|j: int| 0 <= j < rest.len() && rest[j] == t;
                if added {
                    assert(r[j + 1] == t);
                } else {
                    assert(r[j] == t);
                }
            }
        }
        assert forall|t: Seq<char>| r.contains(t) implies exists|k: int|
            0 <= k < entries.len() && is_app_entry(#[trigger] entries[k]) && as_str(entries[k].0)
                == Some(t) by {
            let j = choose|j: int| 0 <= j < r.len() && r[j] == t;
            if added && j == 0 {
                assert(is_app_entry(entries[0]));
            } else {
                let jj = if added { j - 1 } else { j };
                assert(rest[jj] == t);
                assert(rest.contains(t));
                let k = choose|k: int|
                    0 <= k < tail.len() && is_app_entry(#[trigger] tail[k]) && as_str(tail[k].0)
                        == Some(t);
                assert(tail[k] == entries[k + 1]);
            }
        }
    }
}

} // verus!
