//! What a test does, decided from its description: the flows, how often each repeats,
//! and for every phase the ordered steps the runner performs on the applications.
//!
//! A phase clears every application's output, sends each application its commands in
//! the order the phase lists them (a command with its own `result` is checked right
//! away), waits, reads all outputs, and checks the phase's `result` entries. A phase
//! description that cannot be carried out ends its plan with a `Fail` step at the
//! point where the runner has to stop.
use vstd::prelude::*;
use crate::yaml::{
    YamlMapping, YamlValue, key_is, as_mapping, as_str, as_u64, lookup, lookup_str,
    get_str, mapping_get, value_as_mapping, value_as_str, value_as_u64,
};

verus! {

/// Why a test description cannot be carried out.
#[derive(PartialEq, Eq, Structural, Clone, Copy, Debug)]
pub enum PlanError {
    /// The commands have no `flow` list.
    NoFlow,
    /// A flow entry is not a mapping.
    FlowNotMapping,
    /// A flow's `repeat` is not an unsigned integer.
    BadRepeat,
    /// A flow has no `phases` list.
    NoPhases,
    /// A phase is not a mapping.
    PhaseNotMapping,
    /// A phase's `name` is not a string.
    BadPhaseName,
    /// A key of a phase or of a phase's `result` is not a string.
    KeyNotString,
    /// An application's commands are neither a string, a list nor a mapping.
    UnsupportedCommandFormat,
    /// An item of an application's command list is not a mapping.
    CommandItemNotMapping,
    /// A command mapping has no string `command`.
    MissingCommand,
    /// A phase's `result` is not a mapping.
    ResultNotMapping,
    /// An application has no mapping among the commands.
    AppNotMapping,
    /// An application's `cmd` is not a string.
    BadCmdLine,
}

/// One thing the runner does during a phase.
pub enum Step<'a> {
    /// Clear the collected output of every application.
    ClearOutputs,
    /// Send `cmd` to application `app` and wait until it completes.
    Command { app: String, cmd: String },
    /// Read what application `app` printed, then check its output against `expected`.
    Check { app: String, expected: &'a YamlValue },
    /// Give the applications time to react.
    Delay,
    /// Read what every application printed.
    ReadOutputs,
    /// Stop the test.
    Fail(PlanError),
}

/// `Step` with its strings as character sequences.
pub enum StepV {
    ClearOutputs,
    Command(Seq<char>, Seq<char>),
    Check(Seq<char>, YamlValue),
    Delay,
    ReadOutputs,
    Fail(PlanError),
}

impl<'a> View for Step<'a> {
    type V = StepV;

    open spec fn view(&self) -> StepV {
        match self {
            Step::ClearOutputs => StepV::ClearOutputs,
            Step::Command { app, cmd } => StepV::Command(app@, cmd@),
            Step::Check { app, expected } => StepV::Check(app@, **expected),
            Step::Delay => StepV::Delay,
            Step::ReadOutputs => StepV::ReadOutputs,
            Step::Fail(e) => StepV::Fail(*e),
        }
    }
}

pub open spec fn steps_view<'a>(v: Seq<Step<'a>>) -> Seq<StepV> {
    v.map_values(|s: Step<'a>| s@)
}

/// The steps end with a `Fail`.
pub open spec fn ends_in_fail(s: Seq<StepV>) -> bool {
    s.len() > 0 && s.last() is Fail
}

/// `a` followed by `b`, unless `a` already stopped the test.
pub open spec fn then(a: Seq<StepV>, b: Seq<StepV>) -> Seq<StepV> {
    if ends_in_fail(a) {
        a
    } else {
        a + b
    }
}

pub open spec fn key_command() -> Seq<char> {
    seq!['c', 'o', 'm', 'm', 'a', 'n', 'd']
}

pub open spec fn key_result() -> Seq<char> {
    seq!['r', 'e', 's', 'u', 'l', 't']
}

/// One command mapping of application `app`: its `command`, then, if it has one,
/// the check of its `result`.
pub open spec fn pmd_steps(app: Seq<char>, m: Seq<(YamlValue, YamlValue)>) -> Seq<StepV> {
    match lookup_str(m, key_command()) {
        None => seq![StepV::Fail(PlanError::MissingCommand)],
        Some(c) => seq![StepV::Command(app, c)] + match lookup(m, key_result()) {
            Some(r) => seq![StepV::Check(app, r)],
            None => Seq::<StepV>::empty(),
        },
    }
}

/// A list of command mappings of application `app`.
pub open spec fn item_steps(app: Seq<char>, items: Seq<YamlValue>) -> Seq<StepV>
    decreases items.len(),
{
    if items.len() == 0 {
        Seq::<StepV>::empty()
    } else {
        then(
            match as_mapping(items[0]) {
                None => seq![StepV::Fail(PlanError::CommandItemNotMapping)],
                Some(m) => pmd_steps(app, m),
            },
            item_steps(app, items.skip(1)),
        )
    }
}

/// One entry of a phase: the commands of a known application, nothing otherwise.
pub open spec fn entry_steps(apps: Seq<Seq<char>>, entry: (YamlValue, YamlValue)) -> Seq<StepV> {
    match as_str(entry.0) {
        None => seq![StepV::Fail(PlanError::KeyNotString)],
        Some(app) => if !apps.contains(app) {
            Seq::<StepV>::empty()
        } else {
            match entry.1 {
                YamlValue::Str(s) => seq![StepV::Command(app, s@)],
                YamlValue::List(items) => item_steps(app, items@),
                YamlValue::Dict(m) => pmd_steps(app, m@),
                _ => seq![StepV::Fail(PlanError::UnsupportedCommandFormat)],
            }
        },
    }
}

/// The commands of a phase, entry by entry.
pub open spec fn command_steps(apps: Seq<Seq<char>>, entries: Seq<(YamlValue, YamlValue)>) -> Seq<
    StepV,
>
    decreases entries.len(),
{
    if entries.len() == 0 {
        Seq::<StepV>::empty()
    } else {
        then(entry_steps(apps, entries[0]), command_steps(apps, entries.skip(1)))
    }
}

/// One entry of a phase's `result`: the check of a known application.
pub open spec fn result_entry_steps(apps: Seq<Seq<char>>, entry: (YamlValue, YamlValue)) -> Seq<
    StepV,
> {
    match as_str(entry.0) {
        None => seq![StepV::Fail(PlanError::KeyNotString)],
        Some(app) => if apps.contains(app) {
            seq![StepV::Check(app, entry.1)]
        } else {
            Seq::<StepV>::empty()
        },
    }
}

/// The checks of a phase's `result`, entry by entry.
pub open spec fn result_steps(apps: Seq<Seq<char>>, entries: Seq<(YamlValue, YamlValue)>) -> Seq<
    StepV,
>
    decreases entries.len(),
{
    if entries.len() == 0 {
        Seq::<StepV>::empty()
    } else {
        then(result_entry_steps(apps, entries[0]), result_steps(apps, entries.skip(1)))
    }
}

/// The phase's `result` checks, if it has a `result`.
pub open spec fn phase_result_steps(apps: Seq<Seq<char>>, phase: Seq<(YamlValue, YamlValue)>) -> Seq<
    StepV,
> {
    match lookup(phase, key_result()) {
        None => Seq::<StepV>::empty(),
        Some(v) => match as_mapping(v) {
            None => seq![StepV::Fail(PlanError::ResultNotMapping)],
            Some(rm) => result_steps(apps, rm),
        },
    }
}

/// All the steps of a phase, for the applications `apps`.
pub open spec fn phase_steps(apps: Seq<Seq<char>>, phase: Seq<(YamlValue, YamlValue)>) -> Seq<StepV> {
    then(
        then(
            seq![StepV::ClearOutputs] + command_steps(apps, phase),
            seq![StepV::Delay, StepV::ReadOutputs],
        ),
        phase_result_steps(apps, phase),
    )
}

/// The names of the applications, as character sequences.
pub open spec fn names_view(apps: Seq<String>) -> Seq<Seq<char>> {
    apps.map_values(|s: String| s@)
}

proof fn lemma_then_assoc(a: Seq<StepV>, b: Seq<StepV>, c: Seq<StepV>)
    requires
        !ends_in_fail(a),
    ensures
        then(a, then(b, c)) == then(a + b, c),
{
    if ends_in_fail(b) {
        assert((a + b).last() == b.last());
    } else if b.len() > 0 {
        assert((a + b).last() == b.last());
        assert(a + (b + c) =~= (a + b) + c);
    } else {
        assert(a + b =~= a);
        assert(a + (b + c) =~= a + c);
    }
}

/// Whether `name` is one of `apps`.
pub fn is_known_app(apps: &Vec<String>, name: &String) -> (r: bool)
    ensures
        r == names_view(apps@).contains(name@),
{
    let mut i: usize = 0;
    while i < apps.len()
        invariant
            i <= apps.len(),
            forall|j: int| 0 <= j < i ==> apps@[j]@ != name@,
        decreases apps.len() - i,
    {
        if apps[i] == *name {
            assert(names_view(apps@)[i as int] == name@);
            return true;
        }
        i += 1;
    }
    assert forall|j: int| 0 <= j < names_view(apps@).len() implies names_view(apps@)[j]
        != name@ by {
        assert(names_view(apps@)[j] == apps@[j]@);
    }
    false
}

/// Appends `piece` to `out` and tells whether the test stops there.
fn push_steps<'a>(out: &mut Vec<Step<'a>>, piece: Vec<Step<'a>>) -> (stop: bool)
    requires
        !ends_in_fail(steps_view(old(out)@)),
    ensures
        steps_view(final(out)@) == steps_view(old(out)@) + steps_view(piece@),
        stop == ends_in_fail(steps_view(piece@)),
{
    let mut piece = piece;
    let stop = piece.len() > 0 && match &piece[piece.len() - 1] {
        Step::Fail(_) => true,
        _ => false,
    };
    let ghost pv = steps_view(piece@);
    let ghost ov = steps_view(out@);
    out.append(&mut piece);
    assert(steps_view(out@) =~= ov + pv);
    stop
}

/// The steps of one command mapping of application `app`.
fn pmd_plan<'a>(app: &String, m: &'a YamlMapping) -> (r: Vec<Step<'a>>)
    ensures
        steps_view(r@) == pmd_steps(app@, m@),
{
    proof {
        reveal_strlit("command");
        reveal_strlit("result");
        assert("command"@ =~= key_command());
        assert("result"@ =~= key_result());
    }
    let mut out: Vec<Step<'a>> = Vec::new();
    match get_str(m, "command") {
        None => {
            out.push(Step::Fail(PlanError::MissingCommand));
            assert(steps_view(out@) =~= pmd_steps(app@, m@));
        },
        Some(c) => {
            out.push(Step::Command { app: app.clone(), cmd: c.clone() });
            match mapping_get(m, "result") {
                Some(v) => {
                    out.push(Step::Check { app: app.clone(), expected: v });
                },
                None => {},
            }
            assert(steps_view(out@) =~= pmd_steps(app@, m@));
        },
    }
    out
}

/// The steps of a list of command mappings of application `app`.
fn item_plan<'a>(app: &String, items: &'a Vec<YamlValue>) -> (r: Vec<Step<'a>>)
    ensures
        steps_view(r@) == item_steps(app@, items@),
{
    let mut out: Vec<Step<'a>> = Vec::new();
    let mut i: usize = 0;
    assert(items@.skip(0) =~= items@);
    assert(steps_view(out@) =~= Seq::<StepV>::empty());
    while i < items.len()
        invariant
            i <= items.len(),
            !ends_in_fail(steps_view(out@)),
            item_steps(app@, items@) == then(steps_view(out@), item_steps(app@, items@.skip(i as int))),
        decreases items.len() - i,
    {
        assert(items@.skip(i as int).skip(1) =~= items@.skip(i + 1));
        assert(items@.skip(i as int)[0] == items@[i as int]);
        let piece = match value_as_mapping(&items[i]) {
            None => {
                let mut p: Vec<Step<'a>> = Vec::new();
                p.push(Step::Fail(PlanError::CommandItemNotMapping));
                assert(steps_view(p@) =~= seq![StepV::Fail(PlanError::CommandItemNotMapping)]);
                p
            },
            Some(m) => pmd_plan(app, m),
        };
        let ghost pv = steps_view(piece@);
        let ghost ov = steps_view(out@);
        proof {
            lemma_then_assoc(ov, pv, item_steps(app@, items@.skip(i + 1)));
        }
        if push_steps(&mut out, piece) {
            return out;
        }
        i += 1;
    }
    assert(items@.skip(items.len() as int).len() == 0);
    assert(steps_view(out@) + Seq::<StepV>::empty() =~= steps_view(out@));
    out
}

/// The steps of one phase entry.
fn entry_plan<'a>(apps: &Vec<String>, entry: &'a (YamlValue, YamlValue)) -> (r: Vec<Step<'a>>)
    ensures
        steps_view(r@) == entry_steps(names_view(apps@), *entry),
{
    let mut out: Vec<Step<'a>> = Vec::new();
    match value_as_str(&entry.0) {
        None => {
            out.push(Step::Fail(PlanError::KeyNotString));
            assert(steps_view(out@) =~= entry_steps(names_view(apps@), *entry));
            out
        },
        Some(app) => {
            if !is_known_app(apps, app) {
                assert(steps_view(out@) =~= entry_steps(names_view(apps@), *entry));
                return out;
            }
            match &entry.1 {
                YamlValue::Str(s) => {
                    out.push(Step::Command { app: app.clone(), cmd: s.clone() });
                    assert(steps_view(out@) =~= entry_steps(names_view(apps@), *entry));
                    out
                },
                YamlValue::List(items) => item_plan(app, items),
                YamlValue::Dict(m) => pmd_plan(app, m),
                _ => {
                    out.push(Step::Fail(PlanError::UnsupportedCommandFormat));
                    assert(steps_view(out@) =~= entry_steps(names_view(apps@), *entry));
                    out
                },
            }
        },
    }
}

/// The steps of one entry of a phase's `result`.
fn result_entry_plan<'a>(apps: &Vec<String>, entry: &'a (YamlValue, YamlValue)) -> (r: Vec<Step<'a>>)
    ensures
        steps_view(r@) == result_entry_steps(names_view(apps@), *entry),
{
    let mut out: Vec<Step<'a>> = Vec::new();
    match value_as_str(&entry.0) {
        None => {
            out.push(Step::Fail(PlanError::KeyNotString));
        },
        Some(app) => {
            if is_known_app(apps, app) {
                out.push(Step::Check { app: app.clone(), expected: &entry.1 });
            }
        },
    }
    assert(steps_view(out@) =~= result_entry_steps(names_view(apps@), *entry));
    out
}

/// Which of the two entry planners a loop over mapping entries uses.
enum EntryKind {
    Commands,
    Results,
}

spec fn kind_entry_steps(kind: EntryKind, apps: Seq<Seq<char>>, e: (YamlValue, YamlValue)) -> Seq<StepV> {
    match kind {
        EntryKind::Commands => entry_steps(apps, e),
        EntryKind::Results => result_entry_steps(apps, e),
    }
}

spec fn kind_steps(kind: EntryKind, apps: Seq<Seq<char>>, es: Seq<(YamlValue, YamlValue)>) -> Seq<StepV> {
    match kind {
        EntryKind::Commands => command_steps(apps, es),
        EntryKind::Results => result_steps(apps, es),
    }
}

/// Appends the steps of every entry of `entries` to `out`, stopping at a `Fail`;
/// tells whether the test stops.
fn push_entries<'a>(
    kind: EntryKind,
    apps: &Vec<String>,
    entries: &'a YamlMapping,
    out: &mut Vec<Step<'a>>,
) -> (stop: bool)
    requires
        !ends_in_fail(steps_view(old(out)@)),
    ensures
        steps_view(final(out)@) == then(
            steps_view(old(out)@),
            kind_steps(kind, names_view(apps@), entries@),
        ),
        stop == ends_in_fail(steps_view(final(out)@)),
{
    let ghost start = steps_view(out@);
    let ghost names = names_view(apps@);
    let mut i: usize = 0;
    assert(entries@.skip(0) =~= entries@);
    assert(start + Seq::<StepV>::empty() =~= start);
    while i < entries.len()
        invariant
            i <= entries.len(),
            !ends_in_fail(start),
            start == steps_view(old(out)@),
            !ends_in_fail(steps_view(out@)),
            names == names_view(apps@),
            then(start, kind_steps(kind, names, entries@)) == then(
                steps_view(out@),
                kind_steps(kind, names, entries@.skip(i as int)),
            ),
        decreases entries.len() - i,
    {
        assert(entries@.skip(i as int).skip(1) =~= entries@.skip(i + 1));
        assert(entries@.skip(i as int)[0] == entries@[i as int]);
        let piece = match kind {
            EntryKind::Commands => entry_plan(apps, &entries[i]),
            EntryKind::Results => result_entry_plan(apps, &entries[i]),
        };
        assert(steps_view(piece@) == kind_entry_steps(kind, names, entries@[i as int]));
        let ghost pv = steps_view(piece@);
        let ghost ov = steps_view(out@);
        proof {
            lemma_then_assoc(ov, pv, kind_steps(kind, names, entries@.skip(i + 1)));
            assert(kind_steps(kind, names, entries@.skip(i as int)) == then(
                pv,
                kind_steps(kind, names, entries@.skip(i + 1)),
            ));
        }
        if push_steps(out, piece) {
            assert((ov + pv).last() == pv.last());
            return true;
        }
        i += 1;
    }
    assert(entries@.skip(entries.len() as int).len() == 0);
    assert(steps_view(out@) + Seq::<StepV>::empty() =~= steps_view(out@));
    false
}

/// The steps of a phase, for the applications `apps` (see `phase_steps`).
pub fn phase_plan<'a>(apps: &Vec<String>, phase: &'a YamlMapping) -> (r: Vec<Step<'a>>)
    ensures
        steps_view(r@) == phase_steps(names_view(apps@), phase@),
{
    let ghost names = names_view(apps@);
    let mut out: Vec<Step<'a>> = Vec::new();
    out.push(Step::ClearOutputs);
    assert(steps_view(out@) =~= seq![StepV::ClearOutputs]);
    let ghost first = steps_view(out@);
    if push_entries(EntryKind::Commands, apps, phase, &mut out) {
        assert(then(first, command_steps(names, phase@)) == first + command_steps(names, phase@));
        return out;
    }
    assert(then(first, command_steps(names, phase@)) == first + command_steps(names, phase@));
    out.push(Step::Delay);
    out.push(Step::ReadOutputs);
    let ghost second = first + command_steps(names, phase@);
    assert(steps_view(out@) =~= second + seq![StepV::Delay, StepV::ReadOutputs]);
    proof {
        reveal_strlit("result");
        assert("result"@ =~= key_result());
    }
    match mapping_get(phase, "result") {
        None => {
            assert(steps_view(out@) + Seq::<StepV>::empty() =~= steps_view(out@));
        },
        Some(v) => match value_as_mapping(v) {
            None => {
                out.push(Step::Fail(PlanError::ResultNotMapping));
                assert(steps_view(out@) =~= then(
                    second + seq![StepV::Delay, StepV::ReadOutputs],
                    seq![StepV::Fail(PlanError::ResultNotMapping)],
                ));
            },
            Some(rm) => {
                push_entries(EntryKind::Results, apps, rm, &mut out);
            },
        },
    }
    out
}

pub open spec fn key_flow() -> Seq<char> {
    seq!['f', 'l', 'o', 'w']
}

pub open spec fn key_repeat() -> Seq<char> {
    seq!['r', 'e', 'p', 'e', 'a', 't']
}

pub open spec fn key_phases() -> Seq<char> {
    seq!['p', 'h', 'a', 's', 'e', 's']
}

pub open spec fn key_name() -> Seq<char> {
    seq!['n', 'a', 'm', 'e']
}

/// The flows of a test: its `flow` list.
pub fn test_flows(commands: &YamlMapping) -> (r: Result<&Vec<YamlValue>, PlanError>)
    ensures
        match r {
            Ok(f) => crate::yaml::lookup_sequence(commands@, key_flow()) == Some(f@),
            Err(e) => crate::yaml::lookup_sequence(commands@, key_flow()) is None && e
                == PlanError::NoFlow,
        },
{
    proof {
        reveal_strlit("flow");
        assert("flow"@ =~= key_flow());
    }
    match crate::yaml::get_sequence(commands, "flow") {
        Some(f) => Ok(f),
        None => Err(PlanError::NoFlow),
    }
}

/// How many times a flow runs: its `repeat`, 1 when it has none.
pub open spec fn flow_repeat_spec(flow: YamlValue) -> Result<u64, PlanError> {
    match as_mapping(flow) {
        None => Err(PlanError::FlowNotMapping),
        Some(m) => match lookup(m, key_repeat()) {
            None => Ok(1),
            Some(v) => match as_u64(v) {
                Some(n) => Ok(n),
                None => Err(PlanError::BadRepeat),
            },
        },
    }
}

/// How many times a flow runs.
pub fn flow_repeat(flow: &YamlValue) -> (r: Result<u64, PlanError>)
    ensures
        r == flow_repeat_spec(*flow),
{
    proof {
        reveal_strlit("repeat");
        assert("repeat"@ =~= key_repeat());
    }
    match value_as_mapping(flow) {
        None => Err(PlanError::FlowNotMapping),
        Some(m) => match mapping_get(m, "repeat") {
            None => Ok(1),
            Some(v) => match value_as_u64(v) {
                Some(n) => Ok(n),
                None => Err(PlanError::BadRepeat),
            },
        },
    }
}

/// Where a flow stands: its cycle, counted from 1, and the position of the phase in
/// the flow's `phases` list.
#[derive(PartialEq, Eq, Structural, Clone, Copy, Debug)]
pub struct FlowCursor {
    pub cycle: u64,
    pub phase: usize,
}

/// The cursor as a pair of numbers.
pub open spec fn cursor_view(c: FlowCursor) -> (nat, nat) {
    (c.cycle as nat, c.phase as nat)
}

pub open spec fn opt_cursor_view(c: Option<FlowCursor>) -> Option<(nat, nat)> {
    match c {
        Some(x) => Some(cursor_view(x)),
        None => None,
    }
}

/// The first phase a flow runs: phase 0 of cycle 1, unless it repeats zero times or
/// has no phases.
pub open spec fn schedule_start(repeat: nat, n: nat) -> Option<(nat, nat)> {
    if repeat > 0 && n > 0 {
        Some((1, 0))
    } else {
        None
    }
}

/// The phase after `at`: the next one of the cycle, else the first of the next cycle,
/// else none once the last cycle is done.
pub open spec fn schedule_next(repeat: nat, n: nat, at: (nat, nat)) -> Option<(nat, nat)> {
    if at.1 + 1 < n {
        Some((at.0, at.1 + 1))
    } else if at.0 < repeat {
        Some((at.0 + 1, 0))
    } else {
        None
    }
}

/// The phase a flow runs as its `k`-th (from 0), if it runs that many.
pub open spec fn schedule_walk(repeat: nat, n: nat, k: nat) -> Option<(nat, nat)>
    decreases k,
{
    if k == 0 {
        schedule_start(repeat, n)
    } else {
        match schedule_walk(repeat, n, (k - 1) as nat) {
            None => None,
            Some(at) => schedule_next(repeat, n, at),
        }
    }
}

/// The first phase of a flow that repeats `repeat` times over `n` phases.
pub fn first_phase(repeat: u64, n: usize) -> (r: Option<FlowCursor>)
    ensures
        opt_cursor_view(r) == schedule_start(repeat as nat, n as nat),
{
    if repeat > 0 && n > 0 {
        Some(FlowCursor { cycle: 1, phase: 0 })
    } else {
        None
    }
}

/// The phase that follows `at` in a flow that repeats `repeat` times over `n` phases.
pub fn next_phase(repeat: u64, n: usize, at: FlowCursor) -> (r: Option<FlowCursor>)
    ensures
        opt_cursor_view(r) == schedule_next(repeat as nat, n as nat, cursor_view(at)),
{
    if at.phase < n && at.phase + 1 < n {
        Some(FlowCursor { cycle: at.cycle, phase: at.phase + 1 })
    } else if at.cycle < repeat {
        Some(FlowCursor { cycle: at.cycle + 1, phase: 0 })
    } else {
        None
    }
}

/// `w` is phase `j` of cycle `c`, within the flow, with `(c - 1) * n + j == k`.
pub open spec fn is_position(w: Option<(nat, nat)>, repeat: nat, n: nat, k: nat) -> bool {
    match w {
        Some((c, j)) => 1 <= c <= repeat && j < n && (c - 1) * n + j == k,
        None => false,
    }
}

/// A flow runs its phases in order, once per cycle, for `repeat` cycles: its `k`-th
/// phase is phase `j` of cycle `c` with `(c - 1) * n + j == k`, for every `k` below
/// `repeat * n`, and then it stops.
pub proof fn law_flow_schedule(repeat: nat, n: nat, k: nat)
    ensures
        k < repeat * n ==> is_position(schedule_walk(repeat, n, k), repeat, n, k),
        k >= repeat * n ==> schedule_walk(repeat, n, k) is None,
    decreases k,
{
    if k == 0 {
        if repeat == 0 || n == 0 {
            assert(repeat * n == 0) by (nonlinear_arith)
                requires
                    repeat == 0 || n == 0,
            ;
        } else {
            assert((1 - 1) * n == 0) by (nonlinear_arith);
            assert(repeat * n >= 1) by (nonlinear_arith)
                requires
                    repeat >= 1,
                    n >= 1,
            ;
        }
    } else {
        let k1 = (k - 1) as nat;
        law_flow_schedule(repeat, n, k1);
        if k1 < repeat * n {
            let (c, j) = schedule_walk(repeat, n, k1).unwrap();
            assert(schedule_walk(repeat, n, k) == schedule_next(repeat, n, (c, j)));
            if j + 1 < n {
                assert((c - 1) * n + (j + 1) == k);
                if k >= repeat * n {
                    assert(false) by (nonlinear_arith)
                        requires
                            (c - 1) * n + j + 1 >= repeat * n,
                            c <= repeat,
                            j + 1 < n,
                    ;
                }
            } else if c < repeat {
                assert(j == n - 1);
                assert(c * n == (c - 1) * n + n) by (nonlinear_arith);
                assert(((c + 1) - 1) * n + 0 == k);
                if k >= repeat * n {
                    assert(false) by (nonlinear_arith)
                        requires
                            c * n >= repeat * n,
                            c < repeat,
                            n > 0,
                    ;
                }
            } else {
                assert(c == repeat && j == n - 1);
                assert(repeat * n == (repeat - 1) * n + n) by (nonlinear_arith);
                assert(k == repeat * n);
            }
        }
    }
}

/// The phases a flow runs through, in order: its `phases` list.
pub fn flow_phases(flow: &YamlValue) -> (r: Result<&Vec<YamlValue>, PlanError>)
    ensures
        match r {
            Ok(p) => as_mapping(*flow) matches Some(m) && crate::yaml::lookup_sequence(
                m,
                key_phases(),
            ) == Some(p@),
            Err(e) => match as_mapping(*flow) {
                None => e == PlanError::FlowNotMapping,
                Some(m) => crate::yaml::lookup_sequence(m, key_phases()) is None && e
                    == PlanError::NoPhases,
            },
        },
{
    proof {
        reveal_strlit("phases");
        assert("phases"@ =~= key_phases());
    }
    match value_as_mapping(flow) {
        None => Err(PlanError::FlowNotMapping),
        Some(m) => match crate::yaml::get_sequence(m, "phases") {
            Some(p) => Ok(p),
            None => Err(PlanError::NoPhases),
        },
    }
}

/// A phase's description, which must be a mapping.
pub fn phase_mapping(phase: &YamlValue) -> (r: Result<&YamlMapping, PlanError>)
    ensures
        match r {
            Ok(m) => as_mapping(*phase) == Some(m@),
            Err(e) => as_mapping(*phase) is None && e == PlanError::PhaseNotMapping,
        },
{
    match value_as_mapping(phase) {
        Some(m) => Ok(m),
        None => Err(PlanError::PhaseNotMapping),
    }
}

/// A phase's `name`, if it has one; an error if its `name` is not a string.
pub fn phase_name(phase: &YamlMapping) -> (r: Result<Option<String>, PlanError>)
    ensures
        match r {
            Ok(None) => lookup(phase@, key_name()) is None,
            Ok(Some(n)) => lookup_str(phase@, key_name()) == Some(n@),
            Err(e) => lookup(phase@, key_name()) is Some && lookup_str(phase@, key_name()) is None
                && e == PlanError::BadPhaseName,
        },
{
    proof {
        reveal_strlit("name");
        assert("name"@ =~= key_name());
    }
    match mapping_get(phase, "name") {
        None => Ok(None),
        Some(v) => match value_as_str(v) {
            Some(s) => Ok(Some(s.clone())),
            None => Err(PlanError::BadPhaseName),
        },
    }
}

/// No step but the last is a `Fail`.
pub open spec fn fail_only_last(s: Seq<StepV>) -> bool {
    forall|i: int| 0 <= i < s.len() - 1 ==> !(#[trigger] s[i] is Fail)
}

proof fn lemma_then_fail_only_last(a: Seq<StepV>, b: Seq<StepV>)
    requires
        fail_only_last(a),
        fail_only_last(b),
    ensures
        fail_only_last(then(a, b)),
{
    if !ends_in_fail(a) {
        assert forall|i: int| 0 <= i < (a + b).len() - 1 implies !(#[trigger] (a + b)[i] is Fail) by {
            if i < a.len() {
                assert((a + b)[i] == a[i]);
            } else {
                assert((a + b)[i] == b[i - a.len()]);
            }
        }
    }
}

proof fn lemma_pmd_steps_shape(app: Seq<char>, m: Seq<(YamlValue, YamlValue)>)
    ensures
        fail_only_last(pmd_steps(app, m)),
{
}

proof fn lemma_item_steps_shape(app: Seq<char>, items: Seq<YamlValue>)
    ensures
        fail_only_last(item_steps(app, items)),
    decreases items.len(),
{
    if items.len() > 0 {
        lemma_item_steps_shape(app, items.skip(1));
        match as_mapping(items[0]) {
            None => {},
            Some(m) => lemma_pmd_steps_shape(app, m),
        }
        lemma_then_fail_only_last(
            match as_mapping(items[0]) {
                None => seq![StepV::Fail(PlanError::CommandItemNotMapping)],
                Some(m) => pmd_steps(app, m),
            },
            item_steps(app, items.skip(1)),
        );
    }
}

proof fn lemma_command_steps_shape(apps: Seq<Seq<char>>, entries: Seq<(YamlValue, YamlValue)>)
    ensures
        fail_only_last(command_steps(apps, entries)),
    decreases entries.len(),
{
    if entries.len() > 0 {
        lemma_command_steps_shape(apps, entries.skip(1));
        let e = entries[0];
        match e.1 {
            YamlValue::List(items) => lemma_item_steps_shape(as_str(e.0).unwrap(), items@),
            YamlValue::Dict(m) => lemma_pmd_steps_shape(as_str(e.0).unwrap(), m@),
            _ => {},
        }
        lemma_then_fail_only_last(entry_steps(apps, e), command_steps(apps, entries.skip(1)));
    }
}

proof fn lemma_result_steps_shape(apps: Seq<Seq<char>>, entries: Seq<(YamlValue, YamlValue)>)
    ensures
        fail_only_last(result_steps(apps, entries)),
    decreases entries.len(),
{
    if entries.len() > 0 {
        lemma_result_steps_shape(apps, entries.skip(1));
        lemma_then_fail_only_last(
            result_entry_steps(apps, entries[0]),
            result_steps(apps, entries.skip(1)),
        );
    }
}

/// The plan of a phase starts by clearing the outputs, and a `Fail` step can only be its
/// last step: the runner does nothing more once a phase description fails.
pub proof fn law_phase_plan_shape(apps: Seq<Seq<char>>, phase: Seq<(YamlValue, YamlValue)>)
    ensures
        phase_steps(apps, phase).len() > 0,
        phase_steps(apps, phase)[0] == StepV::ClearOutputs,
        fail_only_last(phase_steps(apps, phase)),
{
    let cmds = command_steps(apps, phase);
    lemma_command_steps_shape(apps, phase);
    let first = seq![StepV::ClearOutputs] + cmds;
    assert(fail_only_last(first)) by {
        assert forall|i: int| 0 <= i < first.len() - 1 implies !(#[trigger] first[i] is Fail) by {
            if i > 0 {
                assert(first[i] == cmds[i - 1]);
            }
        }
    }
    assert(fail_only_last(seq![StepV::Delay, StepV::ReadOutputs]));
    lemma_then_fail_only_last(first, seq![StepV::Delay, StepV::ReadOutputs]);
    let second = then(first, seq![StepV::Delay, StepV::ReadOutputs]);
    match lookup(phase, key_result()) {
        None => {},
        Some(v) => match as_mapping(v) {
            None => {},
            Some(rm) => lemma_result_steps_shape(apps, rm),
        },
    }
    lemma_then_fail_only_last(second, phase_result_steps(apps, phase));
    assert(second.len() > 0 && second[0] == StepV::ClearOutputs);
    assert(then(second, phase_result_steps(apps, phase))[0] == StepV::ClearOutputs);
}

/// Every `Command` and `Check` step names one of `apps`.
pub open spec fn steps_name_known(apps: Seq<Seq<char>>, s: Seq<StepV>) -> bool {
    forall|i: int|
        0 <= i < s.len() ==> match #[trigger] s[i] {
            StepV::Command(a, _) => apps.contains(a),
            StepV::Check(a, _) => apps.contains(a),
            _ => true,
        }
}

proof fn lemma_known_concat(apps: Seq<Seq<char>>, a: Seq<StepV>, b: Seq<StepV>)
    requires
        steps_name_known(apps, a),
        steps_name_known(apps, b),
    ensures
        steps_name_known(apps, a + b),
        steps_name_known(apps, then(a, b)),
{
    assert forall|i: int| 0 <= i < (a + b).len() implies match #[trigger] (a + b)[i] {
        StepV::Command(x, _) => apps.contains(x),
        StepV::Check(x, _) => apps.contains(x),
        _ => true,
    } by {
        if i < a.len() {
            assert((a + b)[i] == a[i]);
        } else {
            assert((a + b)[i] == b[i - a.len()]);
        }
    }
}

proof fn lemma_pmd_known(apps: Seq<Seq<char>>, app: Seq<char>, m: Seq<(YamlValue, YamlValue)>)
    requires
        apps.contains(app),
    ensures
        steps_name_known(apps, pmd_steps(app, m)),
{
    let s = pmd_steps(app, m);
    assert forall|i: int| 0 <= i < s.len() implies match #[trigger] s[i] {
        StepV::Command(x, _) => apps.contains(x),
        StepV::Check(x, _) => apps.contains(x),
        _ => true,
    } by {
        match lookup_str(m, key_command()) {
            None => {},
            Some(c) => {
                if i == 0 {
                    assert(s[i] == StepV::Command(app, c));
                } else {
                    assert(s[i] == StepV::Check(app, lookup(m, key_result()).unwrap()));
                }
            },
        }
    }
}

proof fn lemma_items_known(apps: Seq<Seq<char>>, app: Seq<char>, items: Seq<YamlValue>)
    requires
        apps.contains(app),
    ensures
        steps_name_known(apps, item_steps(app, items)),
    decreases items.len(),
{
    if items.len() > 0 {
        lemma_items_known(apps, app, items.skip(1));
        let first = match as_mapping(items[0]) {
            None => seq![StepV::Fail(PlanError::CommandItemNotMapping)],
            Some(m) => pmd_steps(app, m),
        };
        match as_mapping(items[0]) {
            None => {
                assert(steps_name_known(apps, first)) by {
                    assert forall|i: int| 0 <= i < first.len() implies match #[trigger] first[i] {
                        StepV::Command(x, _) => apps.contains(x),
                        StepV::Check(x, _) => apps.contains(x),
                        _ => true,
                    } by {
                        assert(first[i] == StepV::Fail(PlanError::CommandItemNotMapping));
                    }
                }
            },
            Some(m) => lemma_pmd_known(apps, app, m),
        }
        lemma_known_concat(apps, first, item_steps(app, items.skip(1)));
    }
}

proof fn lemma_single_known(apps: Seq<Seq<char>>, st: StepV)
    requires
        match st {
            StepV::Command(x, _) => apps.contains(x),
            StepV::Check(x, _) => apps.contains(x),
            _ => true,
        },
    ensures
        steps_name_known(apps, seq![st]),
{
    assert forall|i: int| 0 <= i < seq![st].len() implies match #[trigger] seq![st][i] {
        StepV::Command(x, _) => apps.contains(x),
        StepV::Check(x, _) => apps.contains(x),
        _ => true,
    } by {
        assert(seq![st][i] == st);
    }
}

proof fn lemma_command_steps_known(apps: Seq<Seq<char>>, entries: Seq<(YamlValue, YamlValue)>)
    ensures
        steps_name_known(apps, command_steps(apps, entries)),
    decreases entries.len(),
{
    if entries.len() > 0 {
        lemma_command_steps_known(apps, entries.skip(1));
        let e = entries[0];
        match as_str(e.0) {
            None => lemma_single_known(apps, StepV::Fail(PlanError::KeyNotString)),
            Some(app) => if !apps.contains(app) {
                assert(steps_name_known(apps, Seq::<StepV>::empty()));
            } else {
                match e.1 {
                    YamlValue::Str(s) => lemma_single_known(apps, StepV::Command(app, s@)),
                    YamlValue::List(items) => lemma_items_known(apps, app, items@),
                    YamlValue::Dict(m) => lemma_pmd_known(apps, app, m@),
                    _ => lemma_single_known(apps, StepV::Fail(PlanError::UnsupportedCommandFormat)),
                }
            },
        }
        lemma_known_concat(apps, entry_steps(apps, e), command_steps(apps, entries.skip(1)));
    }
}

proof fn lemma_result_steps_known(apps: Seq<Seq<char>>, entries: Seq<(YamlValue, YamlValue)>)
    ensures
        steps_name_known(apps, result_steps(apps, entries)),
    decreases entries.len(),
{
    if entries.len() > 0 {
        lemma_result_steps_known(apps, entries.skip(1));
        let e = entries[0];
        match as_str(e.0) {
            None => lemma_single_known(apps, StepV::Fail(PlanError::KeyNotString)),
            Some(app) => if apps.contains(app) {
                lemma_single_known(apps, StepV::Check(app, e.1));
            } else {
                assert(steps_name_known(apps, Seq::<StepV>::empty()));
            },
        }
        lemma_known_concat(apps, result_entry_steps(apps, e), result_steps(apps, entries.skip(1)));
    }
}

/// A phase sends commands to, and checks the output of, the given applications only:
/// entries for other names are passed over.
pub proof fn law_phase_plan_known_apps(apps: Seq<Seq<char>>, phase: Seq<(YamlValue, YamlValue)>)
    ensures
        steps_name_known(apps, phase_steps(apps, phase)),
{
    lemma_single_known(apps, StepV::ClearOutputs);
    lemma_command_steps_known(apps, phase);
    lemma_known_concat(apps, seq![StepV::ClearOutputs], command_steps(apps, phase));
    let first = seq![StepV::ClearOutputs] + command_steps(apps, phase);
    lemma_single_known(apps, StepV::Delay);
    lemma_single_known(apps, StepV::ReadOutputs);
    lemma_known_concat(apps, seq![StepV::Delay], seq![StepV::ReadOutputs]);
    assert(seq![StepV::Delay] + seq![StepV::ReadOutputs] =~= seq![StepV::Delay, StepV::ReadOutputs]);
    lemma_known_concat(apps, first, seq![StepV::Delay, StepV::ReadOutputs]);
    let second = then(first, seq![StepV::Delay, StepV::ReadOutputs]);
    match lookup(phase, key_result()) {
        None => assert(steps_name_known(apps, Seq::<StepV>::empty())),
        Some(v) => match as_mapping(v) {
            None => lemma_single_known(apps, StepV::Fail(PlanError::ResultNotMapping)),
            Some(rm) => lemma_result_steps_known(apps, rm),
        },
    }
    lemma_known_concat(apps, second, phase_result_steps(apps, phase));
}

/// A command mapping `{command: c, result: r}` of a known application is sent and its
/// result checked right away: the phase entry gives `c` to the application and then
/// checks its output against `r`, and a phase made of that entry alone clears the
/// outputs, sends `c`, checks `r`, waits and reads the outputs.
pub proof fn law_command_result_checked(
    apps: Seq<Seq<char>>,
    key: YamlValue,
    d: YamlValue,
    app: Seq<char>,
    c: Seq<char>,
    r: YamlValue,
)
    requires
        as_str(key) == Some(app),
        apps.contains(app),
        d matches YamlValue::Dict(m) && lookup_str(m@, key_command()) == Some(c) && lookup(
            m@,
            key_result(),
        ) == Some(r),
    ensures
        command_steps(apps, seq![(key, d)]) == seq![StepV::Command(app, c), StepV::Check(app, r)],
        !key_is(key, key_result()) ==> phase_steps(apps, seq![(key, d)]) == seq![
            StepV::ClearOutputs,
            StepV::Command(app, c),
            StepV::Check(app, r),
            StepV::Delay,
            StepV::ReadOutputs,
        ],
{
    let e = seq![(key, d)];
    let two = seq![StepV::Command(app, c), StepV::Check(app, r)];
    assert(entry_steps(apps, (key, d)) == two);
    assert(e[0] == (key, d));
    assert(e.skip(1) =~= Seq::<(YamlValue, YamlValue)>::empty());
    assert(command_steps(apps, e.skip(1)) == Seq::<StepV>::empty());
    assert(command_steps(apps, e) == then(two, Seq::<StepV>::empty()));
    assert(two + Seq::<StepV>::empty() =~= two);
    if !key_is(key, key_result()) {
        assert(e[0] == (key, d));
        assert(e.skip(1) =~= Seq::<(YamlValue, YamlValue)>::empty());
        assert(lookup(e.skip(1), key_result()) is None);
        assert(lookup(e, key_result()) is None);
        let first = seq![StepV::ClearOutputs] + two;
        assert(!ends_in_fail(first));
        assert(then(first, seq![StepV::Delay, StepV::ReadOutputs]) =~= seq![
            StepV::ClearOutputs,
            StepV::Command(app, c),
            StepV::Check(app, r),
            StepV::Delay,
            StepV::ReadOutputs,
        ]);
        let all = seq![
            StepV::ClearOutputs,
            StepV::Command(app, c),
            StepV::Check(app, r),
            StepV::Delay,
            StepV::ReadOutputs,
        ];
        assert(!ends_in_fail(all));
        assert(all + Seq::<StepV>::empty() =~= all);
    }
}

/// A single command mapping is planned exactly as the one-item command list holding it.
pub proof fn law_command_mapping_as_list(apps: Seq<Seq<char>>, key: YamlValue, d: YamlValue, l: YamlValue)
    requires
        d is Dict,
        l matches YamlValue::List(v) && v@ == seq![d],
    ensures
        entry_steps(apps, (key, d)) == entry_steps(apps, (key, l)),
{
    match as_str(key) {
        None => {},
        Some(app) => if apps.contains(app) {
            let v = l->List_0@;
            assert(v[0] == d);
            assert(v.skip(1) =~= Seq::<YamlValue>::empty());
            let m = d->Dict_0@;
            assert(as_mapping(d) == Some(m));
            let x = pmd_steps(app, m);
            assert(item_steps(app, v.skip(1)) == Seq::<StepV>::empty());
            assert(item_steps(app, v) == then(x, Seq::<StepV>::empty()));
            assert(x + Seq::<StepV>::empty() =~= x);
        },
    }
}

proof fn lemma_then_assoc_any(a: Seq<StepV>, b: Seq<StepV>, c: Seq<StepV>)
    ensures
        then(a, then(b, c)) == then(then(a, b), c),
{
    if !ends_in_fail(a) {
        lemma_then_assoc(a, b, c);
    }
}

/// The steps of a phase's entries `e1 ++ e2` are those of `e1` followed by those of
/// `e2`, unless `e1` already failed: commands are sent in the order of the entries.
pub proof fn law_command_steps_concat(
    apps: Seq<Seq<char>>,
    e1: Seq<(YamlValue, YamlValue)>,
    e2: Seq<(YamlValue, YamlValue)>,
)
    ensures
        command_steps(apps, e1 + e2) == then(command_steps(apps, e1), command_steps(apps, e2)),
    decreases e1.len(),
{
    if e1.len() == 0 {
        assert(e1 + e2 =~= e2);
        assert(!ends_in_fail(Seq::<StepV>::empty()));
        assert(Seq::<StepV>::empty() + command_steps(apps, e2) =~= command_steps(apps, e2));
    } else {
        assert((e1 + e2)[0] == e1[0]);
        assert((e1 + e2).skip(1) =~= e1.skip(1) + e2);
        law_command_steps_concat(apps, e1.skip(1), e2);
        lemma_then_assoc_any(
            entry_steps(apps, e1[0]),
            command_steps(apps, e1.skip(1)),
            command_steps(apps, e2),
        );
    }
}

/// A string entry of a known application sends that string to it as one command; an
/// entry under a name that is not one of the applications sends nothing.
pub proof fn law_entry_targets(apps: Seq<Seq<char>>, key: YamlValue, value: YamlValue, name: Seq<char>)
    requires
        as_str(key) == Some(name),
    ensures
        apps.contains(name) ==> (value matches YamlValue::Str(c) ==> entry_steps(apps, (key, value))
            == seq![StepV::Command(name, c@)]),
        !apps.contains(name) ==> entry_steps(apps, (key, value)) == Seq::<StepV>::empty(),
{
}

/// The steps of a command list `a ++ b` are those of `a` followed by those of `b`,
/// unless `a` already failed.
pub proof fn law_item_steps_concat(app: Seq<char>, a: Seq<YamlValue>, b: Seq<YamlValue>)
    ensures
        item_steps(app, a + b) == then(item_steps(app, a), item_steps(app, b)),
    decreases a.len(),
{
    if a.len() == 0 {
        assert(a + b =~= b);
        assert(!ends_in_fail(Seq::<StepV>::empty()));
        assert(Seq::<StepV>::empty() + item_steps(app, b) =~= item_steps(app, b));
    } else {
        assert((a + b)[0] == a[0]);
        assert((a + b).skip(1) =~= a.skip(1) + b);
        law_item_steps_concat(app, a.skip(1), b);
        lemma_then_assoc_any(
            match as_mapping(a[0]) {
                None => seq![StepV::Fail(PlanError::CommandItemNotMapping)],
                Some(m) => pmd_steps(app, m),
            },
            item_steps(app, a.skip(1)),
            item_steps(app, b),
        );
    }
}

} // verus!
