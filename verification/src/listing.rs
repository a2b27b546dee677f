//! The listing of a test's commands, application by application, that the runner
//! shows instead of running the test.
//!
//! An application collects, phase after phase, the commands of the phase entries under
//! its own name: a string entry is one command, a list entry
//! gives the `command` of each of its items, any other entry gives nothing. Each
//! application is listed with its command line: its `cmd`, or `scapy` when it has none.
use vstd::prelude::*;
use crate::runner::{PlanError, key_command, key_flow, key_phases};
use crate::setup::AppTag;
use crate::yaml::{
    YamlMapping, YamlValue, as_mapping, as_str, lookup, lookup_mapping, lookup_sequence,
    lookup_str,
};

verus! {

/// `a` before the text of `r`, or the error of `r`.
pub open spec fn prefixed(a: Seq<char>, r: Result<Seq<char>, PlanError>) -> Result<
    Seq<char>,
    PlanError,
> {
    match r {
        Ok(t) => Ok(a + t),
        Err(e) => Err(e),
    }
}

/// The `command` of each item of a command list, one after the other.
pub open spec fn item_commands(items: Seq<YamlValue>) -> Result<Seq<char>, PlanError>
    decreases items.len(),
{
    if items.len() == 0 {
        Ok(Seq::empty())
    } else {
        match as_mapping(items[0]) {
            None => Err(PlanError::CommandItemNotMapping),
            Some(m) => match lookup_str(m, key_command()) {
                None => Err(PlanError::MissingCommand),
                Some(c) => prefixed(c, item_commands(items.skip(1))),
            },
        }
    }
}

/// What one phase entry gives application `app`.
pub open spec fn entry_commands(app: Seq<char>, entry: (YamlValue, YamlValue)) -> Result<
    Seq<char>,
    PlanError,
> {
    match as_str(entry.0) {
        None => Err(PlanError::KeyNotString),
        Some(tag) => if tag != app {
            Ok(Seq::empty())
        } else {
            match entry.1 {
                YamlValue::Str(s) => Ok(s@),
                YamlValue::List(items) => item_commands(items@),
                _ => Ok(Seq::empty()),
            }
        },
    }
}

/// What a phase gives application `app`, entry by entry.
pub open spec fn phase_commands(app: Seq<char>, entries: Seq<(YamlValue, YamlValue)>) -> Result<
    Seq<char>,
    PlanError,
>
    decreases entries.len(),
{
    if entries.len() == 0 {
        Ok(Seq::empty())
    } else {
        match entry_commands(app, entries[0]) {
            Err(e) => Err(e),
            Ok(t) => prefixed(t, phase_commands(app, entries.skip(1))),
        }
    }
}

/// The texts of the applications `apps` after a phase: each extended by what the phase
/// gives it; the error of the first application the phase fails on.
pub open spec fn add_phase(
    apps: Seq<Seq<char>>,
    texts: Seq<Seq<char>>,
    phase: Seq<(YamlValue, YamlValue)>,
) -> Result<Seq<Seq<char>>, PlanError>
    decreases apps.len(),
{
    if apps.len() == 0 {
        Ok(Seq::empty())
    } else {
        match phase_commands(apps[0], phase) {
            Err(e) => Err(e),
            Ok(t) => match add_phase(apps.skip(1), texts.skip(1), phase) {
                Err(e) => Err(e),
                Ok(rest) => Ok(seq![texts[0] + t] + rest),
            },
        }
    }
}

/// The texts after a list of phases, in order.
pub open spec fn add_phases(apps: Seq<Seq<char>>, texts: Seq<Seq<char>>, phases: Seq<YamlValue>) -> Result<
    Seq<Seq<char>>,
    PlanError,
>
    decreases phases.len(),
{
    if phases.len() == 0 {
        Ok(texts)
    } else {
        match as_mapping(phases[0]) {
            None => Err(PlanError::PhaseNotMapping),
            Some(p) => match add_phase(apps, texts, p) {
                Err(e) => Err(e),
                Ok(t) => add_phases(apps, t, phases.skip(1)),
            },
        }
    }
}

/// The texts after a list of flows, in order.
pub open spec fn add_flows(apps: Seq<Seq<char>>, texts: Seq<Seq<char>>, flows: Seq<YamlValue>) -> Result<
    Seq<Seq<char>>,
    PlanError,
>
    decreases flows.len(),
{
    if flows.len() == 0 {
        Ok(texts)
    } else {
        match as_mapping(flows[0]) {
            None => Err(PlanError::FlowNotMapping),
            Some(f) => match lookup_sequence(f, key_phases()) {
                None => Err(PlanError::NoPhases),
                Some(ps) => match add_phases(apps, texts, ps) {
                    Err(e) => Err(e),
                    Ok(t) => add_flows(apps, t, flows.skip(1)),
                },
            },
        }
    }
}

pub open spec fn key_cmd() -> Seq<char> {
    seq!['c', 'm', 'd']
}

pub open spec fn scapy_name() -> Seq<char> {
    seq!['s', 'c', 'a', 'p', 'y']
}

/// The command line listed for application `app`: its `cmd`, or `scapy` without one.
pub open spec fn app_cmdline(cmd_map: Seq<(YamlValue, YamlValue)>, app: Seq<char>) -> Result<
    Seq<char>,
    PlanError,
> {
    match lookup_mapping(cmd_map, app) {
        None => Err(PlanError::AppNotMapping),
        Some(m) => match lookup(m, key_cmd()) {
            None => Ok(scapy_name()),
            Some(v) => match as_str(v) {
                Some(s) => Ok(s),
                None => Err(PlanError::BadCmdLine),
            },
        },
    }
}

/// One listed application: its name, command line and collected commands.
pub type ListedApp = (Seq<char>, Seq<char>, Seq<char>);

/// The listed applications, in order; the error of the first one without a command line.
pub open spec fn listed_apps(
    cmd_map: Seq<(YamlValue, YamlValue)>,
    apps: Seq<Seq<char>>,
    texts: Seq<Seq<char>>,
) -> Result<Seq<ListedApp>, PlanError>
    decreases apps.len(),
{
    if apps.len() == 0 {
        Ok(Seq::empty())
    } else {
        match app_cmdline(cmd_map, apps[0]) {
            Err(e) => Err(e),
            Ok(c) => match listed_apps(cmd_map, apps.skip(1), texts.skip(1)) {
                Err(e) => Err(e),
                Ok(rest) => Ok(seq![(apps[0], c, texts[0])] + rest),
            },
        }
    }
}

/// An empty text for each application.
pub open spec fn empty_texts(n: nat) -> Seq<Seq<char>> {
    Seq::new(n, |i: int| Seq::<char>::empty())
}

/// The whole listing of a test for the applications `apps`.
pub open spec fn listing_spec(cmd_map: Seq<(YamlValue, YamlValue)>, apps: Seq<Seq<char>>) -> Result<
    Seq<ListedApp>,
    PlanError,
> {
    match lookup_sequence(cmd_map, key_flow()) {
        None => Err(PlanError::NoFlow),
        Some(flows) => match add_flows(apps, empty_texts(apps.len()), flows) {
            Err(e) => Err(e),
            Ok(texts) => listed_apps(cmd_map, apps, texts),
        },
    }
}

/// One application of the listing.
pub struct AppCommands {
    pub app: String,
    pub cmdline: String,
    pub commands: String,
}

impl View for AppCommands {
    type V = ListedApp;

    open spec fn view(&self) -> ListedApp {
        (self.app@, self.cmdline@, self.commands@)
    }
}

/// The names of the applications of a test.
pub open spec fn tag_names<'a>(tags: Seq<AppTag<'a>>) -> Seq<Seq<char>> {
    tags.map_values(|t: AppTag<'a>| t.app@)
}

pub open spec fn texts_view(v: Seq<String>) -> Seq<Seq<char>> {
    v.map_values(|s: String| s@)
}

/// The commands of a command list (see `item_commands`).
fn item_commands_exec(items: &Vec<YamlValue>) -> (r: Result<String, PlanError>)
    ensures
        match r {
            Ok(s) => item_commands(items@) == Ok::<Seq<char>, PlanError>(s@),
            Err(e) => item_commands(items@) == Err::<Seq<char>, PlanError>(e),
        },
{
    let mut acc = String::new();
    let mut i: usize = 0;
    assert(items@.skip(0) =~= items@);
    assert(acc@ + Seq::<char>::empty() =~= acc@);
    while i < items.len()
        invariant
            i <= items.len(),
            item_commands(items@) == prefixed(acc@, item_commands(items@.skip(i as int))),
        decreases items.len() - i,
    {
        let ghost rest = items@.skip(i as int);
        assert(rest.skip(1) =~= items@.skip(i + 1));
        assert(rest[0] == items@[i as int]);
        proof {
            reveal_strlit("command");
            assert("command"@ =~= key_command());
        }
        match crate::yaml::value_as_mapping(&items[i]) {
            None => {
                return Err(PlanError::CommandItemNotMapping);
            },
            Some(m) => match crate::yaml::get_str(m, "command") {
                None => {
                    return Err(PlanError::MissingCommand);
                },
                Some(c) => {
                    let ghost before = acc@;
                    acc.append(c.as_str());
                    proof {
                        match item_commands(items@.skip(i + 1)) {
                            Ok(t) => {
                                assert(before + (c@ + t) =~= acc@ + t);
                            },
                            Err(_) => {},
                        }
                    }
                },
            },
        }
        i += 1;
    }
    assert(acc@ + Seq::<char>::empty() =~= acc@);
    Ok(acc)
}

/// What a phase gives application `app` (see `phase_commands`).
fn phase_commands_exec(app: &String, phase: &YamlMapping) -> (r: Result<String, PlanError>)
    ensures
        match r {
            Ok(s) => phase_commands(app@, phase@) == Ok::<Seq<char>, PlanError>(s@),
            Err(e) => phase_commands(app@, phase@) == Err::<Seq<char>, PlanError>(e),
        },
{
    let mut acc = String::new();
    let mut i: usize = 0;
    assert(phase@.skip(0) =~= phase@);
    assert(acc@ + Seq::<char>::empty() =~= acc@);
    while i < phase.len()
        invariant
            i <= phase.len(),
            phase_commands(app@, phase@) == prefixed(acc@, phase_commands(app@, phase@.skip(i as int))),
        decreases phase.len() - i,
    {
        let ghost rest = phase@.skip(i as int);
        assert(rest.skip(1) =~= phase@.skip(i + 1));
        assert(rest[0] == phase@[i as int]);
        let entry = &phase[i];
        let piece: String = match crate::yaml::value_as_str(&entry.0) {
            None => {
                return Err(PlanError::KeyNotString);
            },
            Some(tag) => {
                if *tag != *app {
                    String::new()
                } else {
                    match &entry.1 {
                        YamlValue::Str(s) => s.clone(),
                        YamlValue::List(items) => match item_commands_exec(items) {
                            Ok(t) => t,
                            Err(e) => {
                                return Err(e);
                            },
                        },
                        _ => String::new(),
                    }
                }
            },
        };
        assert(entry_commands(app@, phase@[i as int]) == Ok::<Seq<char>, PlanError>(piece@));
        let ghost before = acc@;
        acc.append(piece.as_str());
        proof {
            match phase_commands(app@, phase@.skip(i + 1)) {
                Ok(t) => {
                    assert(before + (piece@ + t) =~= acc@ + t);
                },
                Err(_) => {},
            }
        }
        i += 1;
    }
    assert(acc@ + Seq::<char>::empty() =~= acc@);
    Ok(acc)
}

/// The texts after one more phase (see `add_phase`).
fn add_phase_exec(apps: &Vec<String>, texts: &Vec<String>, phase: &YamlMapping) -> (r: Result<
    Vec<String>,
    PlanError,
>)
    requires
        apps@.len() == texts@.len(),
    ensures
        match r {
            Ok(t) => add_phase(texts_view(apps@), texts_view(texts@), phase@) == Ok::<
                Seq<Seq<char>>,
                PlanError,
            >(texts_view(t@)) && t@.len() == apps@.len(),
            Err(e) => add_phase(texts_view(apps@), texts_view(texts@), phase@) == Err::<
                Seq<Seq<char>>,
                PlanError,
            >(e),
        },
{
    let ghost av = texts_view(apps@);
    let ghost tv = texts_view(texts@);
    let mut next: Vec<String> = Vec::new();
    let mut i: usize = 0;
    assert(av.skip(0) =~= av);
    assert(tv.skip(0) =~= tv);
    assert(texts_view(next@) + Seq::<Seq<char>>::empty() =~= texts_view(next@));
    while i < apps.len()
        invariant
            i <= apps.len(),
            apps@.len() == texts@.len(),
            next@.len() == i,
            av == texts_view(apps@),
            tv == texts_view(texts@),
            add_phase(av, tv, phase@) == match add_phase(
                av.skip(i as int),
                tv.skip(i as int),
                phase@,
            ) {
                Err(e) => Err(e),
                Ok(rest) => Ok(texts_view(next@) + rest),
            },
        decreases apps.len() - i,
    {
        assert(av.skip(i as int).skip(1) =~= av.skip(i + 1));
        assert(tv.skip(i as int).skip(1) =~= tv.skip(i + 1));
        assert(av.skip(i as int)[0] == apps@[i as int]@);
        assert(tv.skip(i as int)[0] == texts@[i as int]@);
        let t = match phase_commands_exec(&apps[i], phase) {
            Ok(t) => t,
            Err(e) => {
                return Err(e);
            },
        };
        let mut s = texts[i].clone();
        s.append(t.as_str());
        let ghost before = texts_view(next@);
        next.push(s);
        proof {
            assert(texts_view(next@) =~= before + seq![texts@[i as int]@ + t@]);
            match add_phase(av.skip(i + 1), tv.skip(i + 1), phase@) {
                Ok(rest) => {
                    assert(before + (seq![texts@[i as int]@ + t@] + rest) =~= texts_view(next@)
                        + rest);
                },
                Err(_) => {},
            }
        }
        i += 1;
    }
    assert(av.skip(i as int).len() == 0);
    assert(texts_view(next@) + Seq::<Seq<char>>::empty() =~= texts_view(next@));
    Ok(next)
}

/// The texts after the flows (see `add_flows`).
fn add_flows_exec(apps: &Vec<String>, flows: &Vec<YamlValue>) -> (r: Result<Vec<String>, PlanError>)
    ensures
        match r {
            Ok(t) => add_flows(texts_view(apps@), empty_texts(apps@.len()), flows@) == Ok::<
                Seq<Seq<char>>,
                PlanError,
            >(texts_view(t@)) && t@.len() == apps@.len(),
            Err(e) => add_flows(texts_view(apps@), empty_texts(apps@.len()), flows@) == Err::<
                Seq<Seq<char>>,
                PlanError,
            >(e),
        },
{
    let ghost av = texts_view(apps@);
    let mut texts: Vec<String> = Vec::new();
    let mut k: usize = 0;
    while k < apps.len()
        invariant
            k <= apps.len(),
            texts@.len() == k,
            forall|j: int| 0 <= j < k ==> texts@[j]@ == Seq::<char>::empty(),
        decreases apps.len() - k,
    {
        texts.push(String::new());
        k += 1;
    }
    assert(texts_view(texts@) =~= empty_texts(apps@.len()));
    let ghost goal = add_flows(av, empty_texts(apps@.len()), flows@);
    let mut i: usize = 0;
    assert(flows@.skip(0) =~= flows@);
    while i < flows.len()
        invariant
            i <= flows.len(),
            texts@.len() == apps@.len(),
            av == texts_view(apps@),
            goal == add_flows(av, empty_texts(apps@.len()), flows@),
            goal == add_flows(av, texts_view(texts@), flows@.skip(i as int)),
        decreases flows.len() - i,
    {
        assert(flows@.skip(i as int).skip(1) =~= flows@.skip(i + 1));
        assert(flows@.skip(i as int)[0] == flows@[i as int]);
        let phases = match crate::runner::flow_phases(&flows[i]) {
            Ok(p) => p,
            Err(e) => {
                return Err(e);
            },
        };
        let ghost fl = flows@.skip(i + 1);
        let ghost goal_here = add_phases(av, texts_view(texts@), phases@);
        assert(goal == match goal_here {
            Err(e) => Err(e),
            Ok(t) => add_flows(av, t, fl),
        });
        let mut j: usize = 0;
        assert(phases@.skip(0) =~= phases@);
        while j < phases.len()
            invariant
                j <= phases.len(),
                texts@.len() == apps@.len(),
                av == texts_view(apps@),
                goal_here == add_phases(av, texts_view(texts@), phases@.skip(j as int)),
                goal == match goal_here {
                    Err(e) => Err(e),
                    Ok(t) => add_flows(av, t, fl),
                },
                goal == add_flows(av, empty_texts(apps@.len()), flows@),
                fl == flows@.skip(i + 1),
                i < flows@.len(),
            decreases phases.len() - j,
        {
            assert(phases@.skip(j as int).skip(1) =~= phases@.skip(j + 1));
            assert(phases@.skip(j as int)[0] == phases@[j as int]);
            let p = match crate::runner::phase_mapping(&phases[j]) {
                Ok(p) => p,
                Err(e) => {
                    return Err(e);
                },
            };
            texts = match add_phase_exec(apps, &texts, p) {
                Ok(t) => t,
                Err(e) => {
                    return Err(e);
                },
            };
            j += 1;
        }
        assert(phases@.skip(j as int).len() == 0);
        i += 1;
    }
    assert(flows@.skip(i as int).len() == 0);
    Ok(texts)
}

/// The command line listed for an application (see `app_cmdline`).
fn app_cmdline_exec(cmd_map: &YamlMapping, app: &String) -> (r: Result<String, PlanError>)
    ensures
        match r {
            Ok(s) => app_cmdline(cmd_map@, app@) == Ok::<Seq<char>, PlanError>(s@),
            Err(e) => app_cmdline(cmd_map@, app@) == Err::<Seq<char>, PlanError>(e),
        },
{
    proof {
        reveal_strlit("cmd");
        reveal_strlit("scapy");
        assert("cmd"@ =~= key_cmd());
        assert("scapy"@ =~= scapy_name());
    }
    match crate::yaml::get_mapping(cmd_map, app.as_str()) {
        None => Err(PlanError::AppNotMapping),
        Some(m) => match crate::yaml::mapping_get(m, "cmd") {
            None => Ok("scapy".to_owned()),
            Some(v) => match crate::yaml::value_as_str(v) {
                Some(s) => Ok(s.clone()),
                None => Err(PlanError::BadCmdLine),
            },
        },
    }
}

/// The commands of a test, listed application by application in the order of `tags`
/// (see `listing_spec`); the error that stops the listing otherwise.
pub fn show_flow_commands<'a>(cmd_map: &YamlMapping, tags: &Vec<AppTag<'a>>) -> (r: Result<
    Vec<AppCommands>,
    PlanError,
>)
    ensures
        match r {
            Ok(v) => listing_spec(cmd_map@, tag_names(tags@)) == Ok::<Seq<ListedApp>, PlanError>(
                v@.map_values(|a: AppCommands| a@),
            ),
            Err(e) => listing_spec(cmd_map@, tag_names(tags@)) == Err::<Seq<ListedApp>, PlanError>(
                e,
            ),
        },
{
    let mut apps: Vec<String> = Vec::new();
    let mut k: usize = 0;
    while k < tags.len()
        invariant
            k <= tags.len(),
            texts_view(apps@) == tag_names(tags@).take(k as int),
        decreases tags.len() - k,
    {
        let ghost before = texts_view(apps@);
        apps.push(tags[k].app.clone());
        assert(texts_view(apps@) =~= before.push(tags@[k as int].app@));
        assert(tag_names(tags@).take(k + 1) =~= tag_names(tags@).take(k as int).push(
            tags@[k as int].app@,
        ));
        k += 1;
    }
    assert(tag_names(tags@).take(k as int) =~= tag_names(tags@));
    let ghost av = texts_view(apps@);
    let flows = match crate::runner::test_flows(cmd_map) {
        Ok(f) => f,
        Err(e) => {
            return Err(e);
        },
    };
    let texts = match add_flows_exec(&apps, flows) {
        Ok(t) => t,
        Err(e) => {
            return Err(e);
        },
    };
    let ghost tv = texts_view(texts@);
    assert(listing_spec(cmd_map@, av) == listed_apps(cmd_map@, av, tv));
    let mut out: Vec<AppCommands> = Vec::new();
    let mut i: usize = 0;
    assert(av.skip(0) =~= av);
    assert(tv.skip(0) =~= tv);
    assert(out@.map_values(|a: AppCommands| a@) + Seq::<ListedApp>::empty() =~= out@.map_values(
        |a: AppCommands| a@,
    ));
    while i < apps.len()
        invariant
            i <= apps.len(),
            apps@.len() == texts@.len(),
            out@.len() == i,
            av == texts_view(apps@),
            tv == texts_view(texts@),
            av == tag_names(tags@),
            listing_spec(cmd_map@, av) == listed_apps(cmd_map@, av, tv),
            listed_apps(cmd_map@, av, tv) == match listed_apps(
                cmd_map@,
                av.skip(i as int),
                tv.skip(i as int),
            ) {
                Err(e) => Err(e),
                Ok(rest) => Ok(out@.map_values(|a: AppCommands| a@) + rest),
            },
        decreases apps.len() - i,
    {
        assert(av.skip(i as int).skip(1) =~= av.skip(i + 1));
        assert(tv.skip(i as int).skip(1) =~= tv.skip(i + 1));
        assert(av.skip(i as int)[0] == apps@[i as int]@);
        assert(tv.skip(i as int)[0] == texts@[i as int]@);
        let c = match app_cmdline_exec(cmd_map, &apps[i]) {
            Ok(c) => c,
            Err(e) => {
                return Err(e);
            },
        };
        let ghost before = out@.map_values(|a: AppCommands| a@);
        let item = AppCommands { app: apps[i].clone(), cmdline: c, commands: texts[i].clone() };
        out.push(item);
        proof {
            assert(out@.map_values(|a: AppCommands| a@) =~= before + seq![
                (apps@[i as int]@, c@, texts@[i as int]@),
            ]);
            match listed_apps(cmd_map@, av.skip(i + 1), tv.skip(i + 1)) {
                Ok(rest) => {
                    assert(before + (seq![(apps@[i as int]@, c@, texts@[i as int]@)] + rest)
                        =~= out@.map_values(|a: AppCommands| a@) + rest);
                },
                Err(_) => {},
            }
        }
        i += 1;
    }
    assert(av.skip(i as int).len() == 0);
    assert(out@.map_values(|a: AppCommands| a@) + Seq::<ListedApp>::empty() =~= out@.map_values(
        |a: AppCommands| a@,
    ));
    Ok(out)
}

proof fn lemma_listed_apps_names(
    cmd_map: Seq<(YamlValue, YamlValue)>,
    apps: Seq<Seq<char>>,
    texts: Seq<Seq<char>>,
)
    requires
        listed_apps(cmd_map, apps, texts) is Ok,
    ensures
        listed_apps(cmd_map, apps, texts).unwrap().len() == apps.len(),
        forall|i: int|
            0 <= i < apps.len() ==> (#[trigger] listed_apps(cmd_map, apps, texts).unwrap()[i]).0
                == apps[i],
    decreases apps.len(),
{
    if apps.len() > 0 {
        lemma_listed_apps_names(cmd_map, apps.skip(1), texts.skip(1));
        let r = listed_apps(cmd_map, apps, texts).unwrap();
        let rest = listed_apps(cmd_map, apps.skip(1), texts.skip(1)).unwrap();
        assert forall|i: int| 0 <= i < apps.len() implies (#[trigger] r[i]).0 == apps[i] by {
            if i > 0 {
                assert(r[i] == rest[i - 1]);
                assert(apps.skip(1)[i - 1] == apps[i]);
            }
        }
    }
}

/// The listing names every application once, in the order given.
pub proof fn law_listing_follows_tags(cmd_map: Seq<(YamlValue, YamlValue)>, apps: Seq<Seq<char>>)
    requires
        listing_spec(cmd_map, apps) is Ok,
    ensures
        listing_spec(cmd_map, apps).unwrap().len() == apps.len(),
        forall|i: int|
            0 <= i < apps.len() ==> (#[trigger] listing_spec(cmd_map, apps).unwrap()[i]).0 == apps[i],
{
    let flows = lookup_sequence(cmd_map, key_flow()).unwrap();
    let texts = add_flows(apps, empty_texts(apps.len()), flows).unwrap();
    lemma_listed_apps_names(cmd_map, apps, texts);
}

/// An application collects only the commands listed under its own name: a phase entry
/// under any other name adds nothing to its commands.
pub proof fn law_only_own_entries(
    app: Seq<char>,
    entry: (YamlValue, YamlValue),
    rest: Seq<(YamlValue, YamlValue)>,
)
    requires
        as_str(entry.0) matches Some(t) && t != app,
    ensures
        phase_commands(app, seq![entry] + rest) == phase_commands(app, rest),
{
    let p = seq![entry] + rest;
    assert(p[0] == entry);
    assert(p.skip(1) =~= rest);
    match phase_commands(app, rest) {
        Ok(t) => assert(Seq::<char>::empty() + t =~= t),
        Err(_) => {},
    }
}

/// Listing two lists of flows one after the other is listing the first, then going on
/// from its texts with the second: the commands of every flow are listed, in order.
pub proof fn law_listing_flows_concat(
    apps: Seq<Seq<char>>,
    texts: Seq<Seq<char>>,
    f1: Seq<YamlValue>,
    f2: Seq<YamlValue>,
)
    ensures
        add_flows(apps, texts, f1 + f2) == match add_flows(apps, texts, f1) {
            Err(e) => Err(e),
            Ok(t) => add_flows(apps, t, f2),
        },
    decreases f1.len(),
{
    if f1.len() == 0 {
        assert(f1 + f2 =~= f2);
    } else {
        assert((f1 + f2)[0] == f1[0]);
        assert((f1 + f2).skip(1) =~= f1.skip(1) + f2);
        match as_mapping(f1[0]) {
            None => {},
            Some(f) => match lookup_sequence(f, key_phases()) {
                None => {},
                Some(ps) => match add_phases(apps, texts, ps) {
                    Err(_) => {},
                    Ok(t) => law_listing_flows_concat(apps, t, f1.skip(1), f2),
                },
            },
        }
    }
}

/// A flow of a single phase extends each application's text by exactly what that phase
/// gives the application.
pub proof fn law_listing_one_phase_flow(
    apps: Seq<Seq<char>>,
    texts: Seq<Seq<char>>,
    flow: YamlValue,
    phases: Seq<YamlValue>,
    phase: Seq<(YamlValue, YamlValue)>,
    i: int,
)
    requires
        apps.len() == texts.len(),
        0 <= i < apps.len(),
        as_mapping(flow) matches Some(f) && lookup_sequence(f, key_phases()) == Some(phases),
        phases.len() == 1,
        as_mapping(phases[0]) == Some(phase),
        add_flows(apps, texts, seq![flow]) is Ok,
    ensures
        phase_commands(apps[i], phase) is Ok,
        add_flows(apps, texts, seq![flow]).unwrap()[i] == texts[i] + phase_commands(apps[i], phase).unwrap(),
{
    let fl = seq![flow];
    assert(fl[0] == flow);
    assert(fl.skip(1) =~= Seq::<YamlValue>::empty());
    assert(phases.skip(1) =~= Seq::<YamlValue>::empty());
    let f = as_mapping(flow).unwrap();
    assert(add_flows(apps, texts, fl) == match add_phases(apps, texts, phases) {
        Err(e) => Err(e),
        Ok(t) => add_flows(apps, t, fl.skip(1)),
    });
    assert(add_phases(apps, texts, phases) == match add_phase(apps, texts, phase) {
        Err(e) => Err(e),
        Ok(t) => add_phases(apps, t, phases.skip(1)),
    });
    assert(add_phase(apps, texts, phase) is Ok);
    let t = add_phase(apps, texts, phase).unwrap();
    assert(add_phases(apps, t, phases.skip(1)) == Ok::<Seq<Seq<char>>, PlanError>(t));
    assert(add_flows(apps, t, fl.skip(1)) == Ok::<Seq<Seq<char>>, PlanError>(t));
    lemma_add_phase_at(apps, texts, phase, i);
}

proof fn lemma_add_phase_at(apps: Seq<Seq<char>>, texts: Seq<Seq<char>>, phase: Seq<(YamlValue, YamlValue)>, i: int)
    requires
        apps.len() == texts.len(),
        0 <= i < apps.len(),
        add_phase(apps, texts, phase) is Ok,
    ensures
        phase_commands(apps[i], phase) is Ok,
        add_phase(apps, texts, phase).unwrap().len() == apps.len(),
        add_phase(apps, texts, phase).unwrap()[i] == texts[i] + phase_commands(apps[i], phase).unwrap(),
    decreases apps.len(),
{
    if i == 0 {
        if apps.len() > 1 {
            lemma_add_phase_at(apps.skip(1), texts.skip(1), phase, 0);
        } else {
            assert(apps.skip(1).len() == 0);
        }
    } else {
        assert(apps.skip(1)[i - 1] == apps[i]);
        assert(texts.skip(1)[i - 1] == texts[i]);
        lemma_add_phase_at(apps.skip(1), texts.skip(1), phase, i - 1);
    }
}

/// Within a flow, the phases are listed one after the other: listing phases `p1 ++ p2`
/// is listing `p1`, then going on from its texts with `p2`.
pub proof fn law_listing_phases_concat(
    apps: Seq<Seq<char>>,
    texts: Seq<Seq<char>>,
    p1: Seq<YamlValue>,
    p2: Seq<YamlValue>,
)
    ensures
        add_phases(apps, texts, p1 + p2) == match add_phases(apps, texts, p1) {
            Err(e) => Err(e),
            Ok(t) => add_phases(apps, t, p2),
        },
    decreases p1.len(),
{
    if p1.len() == 0 {
        assert(p1 + p2 =~= p2);
    } else {
        assert((p1 + p2)[0] == p1[0]);
        assert((p1 + p2).skip(1) =~= p1.skip(1) + p2);
        match as_mapping(p1[0]) {
            None => {},
            Some(p) => match add_phase(apps, texts, p) {
                Err(_) => {},
                Ok(t) => law_listing_phases_concat(apps, t, p1.skip(1), p2),
            },
        }
    }
}

/// Within a phase, an application's commands are those of the entries in order: the
/// commands of entries `e1 ++ e2` are those of `e1` followed by those of `e2`.
pub proof fn law_phase_commands_concat(
    app: Seq<char>,
    e1: Seq<(YamlValue, YamlValue)>,
    e2: Seq<(YamlValue, YamlValue)>,
)
    ensures
        phase_commands(app, e1 + e2) == match phase_commands(app, e1) {
            Err(e) => Err(e),
            Ok(a) => prefixed(a, phase_commands(app, e2)),
        },
    decreases e1.len(),
{
    if e1.len() == 0 {
        assert(e1 + e2 =~= e2);
        match phase_commands(app, e2) {
            Ok(t) => assert(Seq::<char>::empty() + t =~= t),
            Err(_) => {},
        }
    } else {
        assert((e1 + e2)[0] == e1[0]);
        assert((e1 + e2).skip(1) =~= e1.skip(1) + e2);
        law_phase_commands_concat(app, e1.skip(1), e2);
        match entry_commands(app, e1[0]) {
            Err(_) => {},
            Ok(x) => match phase_commands(app, e1.skip(1)) {
                Err(_) => {},
                Ok(y) => match phase_commands(app, e2) {
                    Err(_) => {},
                    Ok(z) => assert(x + (y + z) =~= (x + y) + z),
                },
            },
        }
    }
}

/// An entry under an application's own name whose value is the string `c` gives it `c`,
/// and a list of command mappings gives it their `command`s, in order.
pub proof fn law_own_entry_commands(app: Seq<char>, key: YamlValue, value: YamlValue)
    requires
        as_str(key) == Some(app),
    ensures
        value matches YamlValue::Str(c) ==> entry_commands(app, (key, value)) == Ok::<
            Seq<char>,
            PlanError,
        >(c@),
        value matches YamlValue::List(items) ==> entry_commands(app, (key, value)) == item_commands(
            items@,
        ),
{
}

/// The commands of a list of command mappings are their `command`s one after the other:
/// those of `a ++ b` are those of `a` followed by those of `b`, and a single mapping
/// gives its `command`.
pub proof fn law_item_commands(a: Seq<YamlValue>, b: Seq<YamlValue>, m: YamlValue, c: Seq<char>)
    requires
        as_mapping(m) matches Some(mm) && lookup_str(mm, key_command()) == Some(c),
    ensures
        item_commands(seq![m]) == Ok::<Seq<char>, PlanError>(c),
        item_commands(a + b) == match item_commands(a) {
            Err(e) => Err(e),
            Ok(x) => prefixed(x, item_commands(b)),
        },
    decreases a.len(),
{
    let one = seq![m];
    assert(one[0] == m);
    assert(one.skip(1) =~= Seq::<YamlValue>::empty());
    assert(item_commands(one.skip(1)) == Ok::<Seq<char>, PlanError>(Seq::empty()));
    assert(c + Seq::<char>::empty() =~= c);
    assert(item_commands(one) == prefixed(c, item_commands(one.skip(1))));
    if a.len() == 0 {
        assert(a + b =~= b);
        match item_commands(b) {
            Ok(t) => assert(Seq::<char>::empty() + t =~= t),
            Err(_) => {},
        }
    } else {
        assert((a + b)[0] == a[0]);
        assert((a + b).skip(1) =~= a.skip(1) + b);
        law_item_commands(a.skip(1), b, m, c);
        match as_mapping(a[0]) {
            None => {},
            Some(mm) => match lookup_str(mm, key_command()) {
                None => {},
                Some(x) => match item_commands(a.skip(1)) {
                    Err(_) => {},
                    Ok(y) => match item_commands(b) {
                        Err(_) => {},
                        Ok(z) => assert(x + (y + z) =~= (x + y) + z),
                    },
                },
            },
        }
    }
}

} // verus!
