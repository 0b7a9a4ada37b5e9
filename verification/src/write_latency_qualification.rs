//! Measuring where the time of a write goes. A probe is told the time, in
//! nanoseconds of a clock that does not run backwards.
use crate::text::{begins, begins_with, joined, reads};
use vstd::prelude::*;

pub mod worker;

verus! {

// ------------------------------------------------------------------ ledgers

/// Amounts under distinct names.
#[derive(Debug)]
pub struct Ledger<V> {
    names: Vec<String>,
    amounts: Vec<V>,
}

/// The amounts of a ledger by name.
pub open spec fn entered<V>(names: Seq<String>, amounts: Seq<V>) -> Map<Seq<char>, V>
    decreases names.len(),
{
    if names.len() == 0 {
        Map::empty()
    } else {
        entered(names.drop_last(), amounts.drop_last()).insert(names.last()@, amounts.last())
    }
}

pub open spec fn distinct(names: Seq<String>) -> bool {
    forall|i: int, j: int|
        #![trigger names[i], names[j]]
        0 <= i < j < names.len() ==> names[i]@ != names[j]@
}

proof fn lemma_entered<V>(names: Seq<String>, amounts: Seq<V>)
    requires
        names.len() == amounts.len(),
        distinct(names),
    ensures
        forall|i: int|
            0 <= i < names.len() ==> {
                &&& entered(names, amounts).dom().contains((#[trigger] names[i])@)
                &&& entered(names, amounts)[names[i]@] == amounts[i]
            },
        forall|name: Seq<char>|
            entered(names, amounts).dom().contains(name) ==> exists|i: int|
                0 <= i < names.len() && (#[trigger] names[i])@ == name,
    decreases names.len(),
{
    if names.len() > 0 {
        let front = names.drop_last();
        lemma_entered(front, amounts.drop_last());
        assert forall|i: int| 0 <= i < names.len() implies {
            &&& entered(names, amounts).dom().contains((#[trigger] names[i])@)
            &&& entered(names, amounts)[names[i]@] == amounts[i]
        } by {
            if i < front.len() {
                assert(front[i] == names[i]);
                assert(names[i]@ != names[names.len() - 1]@);
            }
        }
        assert forall|name: Seq<char>| entered(names, amounts).dom().contains(name) implies exists|
            i: int,
        | 0 <= i < names.len() && (#[trigger] names[i])@ == name by {
            if name == names.last()@ {
                assert(names[names.len() - 1]@ == name);
            } else {
                assert(entered(front, amounts.drop_last()).dom().contains(name));
                let i = choose|i: int| 0 <= i < front.len() && (#[trigger] front[i])@ == name;
                assert(front[i] == names[i]);
            }
        }
    }
}

impl<V: Copy> Ledger<V> {
    pub closed spec fn wf(&self) -> bool {
        self.names@.len() == self.amounts@.len() && distinct(self.names@)
    }

    pub closed spec fn spec_entries(&self) -> Map<Seq<char>, V> {
        entered(self.names@, self.amounts@)
    }

    pub fn new() -> (ledger: Self)
        ensures
            ledger.wf(),
            ledger.spec_entries() == Map::<Seq<char>, V>::empty(),
    {
        Ledger { names: Vec::new(), amounts: Vec::new() }
    }

    fn position(&self, name: &str) -> (at: Option<usize>)
        requires
            self.wf(),
        ensures
            match at {
                Some(i) => i < self.names@.len() && self.names@[i as int]@ == name@,
                None => !self.spec_entries().dom().contains(name@),
            },
    {
        let mut i: usize = 0;
        while i < self.names.len()
            invariant
                i <= self.names@.len(),
                forall|j: int| 0 <= j < i ==> (#[trigger] self.names@[j])@ != name@,
            decreases self.names@.len() - i,
        {
            if reads(&self.names[i], name) {
                return Some(i);
            }
            i = i + 1;
        }
        proof {
            lemma_entered(self.names@, self.amounts@);
        }
        None
    }

    /// The amount under a name.
    pub fn get(&self, name: &str) -> (amount: Option<V>)
        requires
            self.wf(),
        ensures
            amount == (if self.spec_entries().dom().contains(name@) {
                Some(self.spec_entries()[name@])
            } else {
                None
            }),
    {
        match self.position(name) {
            None => None,
            Some(i) => {
                proof {
                    lemma_entered(self.names@, self.amounts@);
                }
                Some(self.amounts[i])
            },
        }
    }

    /// Enters an amount under a name, in place of one that is there.
    pub fn put(&mut self, name: &str, amount: V)
        requires
            old(self).wf(),
        ensures
            final(self).wf(),
            final(self).spec_entries() == old(self).spec_entries().insert(name@, amount),
    {
        let ghost names = self.names@;
        let ghost amounts = self.amounts@;
        proof {
            lemma_entered(names, amounts);
        }
        match self.position(name) {
            Some(i) => {
                self.amounts.set(i, amount);
                proof {
                    lemma_entered(self.names@, self.amounts@);
                    let before = entered(names, amounts).insert(name@, amount);
                    let after = entered(self.names@, self.amounts@);
                    assert forall|key: Seq<char>| before.dom().contains(key)
                        == after.dom().contains(key) by {
                        if entered(names, amounts).dom().contains(key) {
                            let j = choose|j: int|
                                0 <= j < names.len() && (#[trigger] names[j])@ == key;
                            assert(self.names@[j]@ == key);
                        }
                        if after.dom().contains(key) {
                            let j = choose|j: int|
                                0 <= j < names.len() && (#[trigger] self.names@[j])@ == key;
                            assert(names[j]@ == key);
                        }
                        assert(self.names@[i as int]@ == name@);
                    }
                    assert forall|key: Seq<char>| before.dom().contains(key) implies before[key]
                        == after[key] by {
                        assert(after.dom().contains(key));
                        let j = choose|j: int|
                            0 <= j < names.len() && (#[trigger] self.names@[j])@ == key;
                        assert(names[j]@ == key);
                        if j != i {
                            assert(names[i as int]@ == name@);
                            if j < i {
                                assert(names[j]@ != names[i as int]@);
                            } else {
                                assert(names[i as int]@ != names[j]@);
                            }
                        }
                    }
                    assert(before =~= after);
                }
            },
            None => {
                proof {
                    assert forall|j: int| 0 <= j < names.len() implies (#[trigger] names[j])@
                        != name@ by {
                        assert(entered(names, amounts).dom().contains(names[j]@));
                    }
                }
                self.names.push(name.to_owned());
                self.amounts.push(amount);
                proof {
                    assert(self.names@.drop_last() =~= names);
                    assert(self.amounts@.drop_last() =~= amounts);
                }
            },
        }
    }

    /// How many names there are.
    pub fn len(&self) -> (n: usize)
        ensures
            n == self.count(),
    {
        self.names.len()
    }

    pub closed spec fn count(&self) -> nat {
        self.names@.len()
    }

    /// The entry at a position.
    pub fn entry(&self, at: usize) -> (entry: (&String, V))
        requires
            self.wf(),
            at < self.count(),
        ensures
            self.spec_entries().dom().contains(entry.0@),
            self.spec_entries()[entry.0@] == entry.1,
    {
        proof {
            lemma_entered(self.names@, self.amounts@);
        }
        (&self.names[at], self.amounts[at])
    }
}

// ------------------------------------------------------------------- probes

#[derive(Debug)]
pub struct PhaseMeasurement {
    pub name: String,
    pub duration_ns: u64,
    pub depth: u32,
    pub performed: bool,
}

pub struct PhaseView {
    pub name: Seq<char>,
    pub duration_ns: u64,
    pub depth: u32,
    pub performed: bool,
}

impl View for PhaseMeasurement {
    type V = PhaseView;

    open spec fn view(&self) -> PhaseView {
        PhaseView {
            name: self.name@,
            duration_ns: self.duration_ns,
            depth: self.depth,
            performed: self.performed,
        }
    }
}

pub open spec fn phases_view(phases: Seq<PhaseMeasurement>) -> Seq<PhaseView> {
    Seq::new(phases.len(), |i: int| phases[i]@)
}

/// Requests to a store and the bytes they moved.
#[derive(Clone, Copy, Debug, PartialEq, Eq, Structural)]
pub struct ObjectIo {
    pub requests: u64,
    pub bytes_read: u64,
    pub bytes_written: u64,
}

pub open spec fn no_io() -> ObjectIo {
    ObjectIo { requests: 0, bytes_read: 0, bytes_written: 0 }
}

impl Default for ObjectIo {
    fn default() -> (io: Self)
        ensures
            io == no_io(),
    {
        ObjectIo { requests: 0, bytes_read: 0, bytes_written: 0 }
    }
}

/// What a probe has measured.
#[derive(Debug)]
pub struct ProbeReport {
    pub acknowledged_latency_ns: u64,
    pub phases: Vec<PhaseMeasurement>,
    pub counters: Ledger<u64>,
    pub object_store: Ledger<ObjectIo>,
}

#[derive(Debug)]
pub struct ProbeError {
    pub message: String,
}

#[derive(Debug)]
struct ActivePhase {
    name: String,
    started: u64,
    depth: u32,
}

pub struct ActiveView {
    pub name: Seq<char>,
    pub started: u64,
    pub depth: u32,
}

impl View for ActivePhase {
    type V = ActiveView;

    closed spec fn view(&self) -> ActiveView {
        ActiveView { name: self.name@, started: self.started, depth: self.depth }
    }
}

#[derive(Debug)]
struct ActiveSession {
    started: u64,
    last_top_end: Option<u64>,
    last_top_phase: Option<usize>,
    active_phases: Vec<ActivePhase>,
    phases: Vec<PhaseMeasurement>,
    counters: Ledger<u64>,
    object_store: Ledger<ObjectIo>,
    nesting_error: Option<String>,
}

/// A session in progress.
pub struct SessionView {
    pub started: u64,
    pub last_top_end: Option<u64>,
    pub last_top_phase: Option<usize>,
    pub active: Seq<ActiveView>,
    pub phases: Seq<PhaseView>,
    pub counters: Map<Seq<char>, u64>,
    pub object_store: Map<Seq<char>, ObjectIo>,
    pub nesting_error: Option<Seq<char>>,
}

impl View for ActiveSession {
    type V = SessionView;

    closed spec fn view(&self) -> SessionView {
        SessionView {
            started: self.started,
            last_top_end: self.last_top_end,
            last_top_phase: self.last_top_phase,
            active: Seq::new(self.active_phases@.len(), |i: int| self.active_phases@[i]@),
            phases: phases_view(self.phases@),
            counters: self.counters.spec_entries(),
            object_store: self.object_store.spec_entries(),
            nesting_error: match self.nesting_error {
                Some(text) => Some(text@),
                None => None,
            },
        }
    }
}

/// The place that holds the session in progress, of which there is at most one.
#[derive(Debug)]
pub struct Probe {
    slot: Option<ActiveSession>,
}

impl View for Probe {
    type V = Option<SessionView>;

    closed spec fn view(&self) -> Option<SessionView> {
        match self.slot {
            Some(session) => Some(session@),
            None => None,
        }
    }
}

/// The ledgers of a new session.
pub open spec fn first_counters() -> Map<Seq<char>, u64> {
    Map::<Seq<char>, u64>::empty().insert("parent_logical_bytes"@, 0).insert(
        "candidate_logical_bytes"@,
        0,
    ).insert("changed_pages"@, 0).insert("temporary_file_bytes"@, 0).insert(
        "published_image_artifact_bytes"@,
        0,
    )
}

pub open spec fn first_object_store() -> Map<Seq<char>, ObjectIo> {
    Map::<Seq<char>, ObjectIo>::empty().insert("head"@, no_io()).insert("commit"@, no_io()).insert(
        "generation"@,
        no_io(),
    ).insert("checkpoint"@, no_io()).insert("page_map"@, no_io()).insert(
        "page_pack"@,
        no_io(),
    ).insert("other"@, no_io())
}

/// A session that starts now.
pub open spec fn new_session(now: u64) -> SessionView {
    SessionView {
        started: now,
        last_top_end: None,
        last_top_phase: None,
        active: Seq::empty(),
        phases: Seq::empty(),
        counters: first_counters(),
        object_store: first_object_store(),
        nesting_error: None,
    }
}

/// When the next phase of the top level starts: where the last one ended.
pub open spec fn resumes(session: SessionView) -> u64 {
    match session.last_top_end {
        Some(end) => end,
        None => session.started,
    }
}

pub open spec fn depth_of(n: nat) -> u32 {
    if n > u32::MAX {
        u32::MAX
    } else {
        n as u32
    }
}

/// The session after a phase begins.
pub open spec fn begun(session: SessionView, name: Seq<char>, now: u64) -> SessionView {
    let depth = depth_of(session.active.len());
    SessionView {
        active: session.active.push(
            ActiveView {
                name,
                started: if depth == 0 {
                    resumes(session)
                } else {
                    now
                },
                depth,
            },
        ),
        ..session
    }
}

/// The time between two moments, and none where they are out of order.
pub open spec fn elapsed(from: u64, to: u64) -> u64 {
    if to >= from {
        (to - from) as u64
    } else {
        0
    }
}

pub open spec fn nesting_message(name: Seq<char>) -> Seq<char> {
    "probe phase nesting error at "@ + name
}

/// The session after a phase ends.
pub open spec fn ended(session: SessionView, name: Seq<char>, now: u64) -> SessionView {
    if session.active.len() == 0 {
        SessionView { nesting_error: Some(nesting_message(name)), ..session }
    } else {
        let phase = session.active.last();
        let at = session.phases.len() as usize;
        SessionView {
            active: session.active.drop_last(),
            nesting_error: if phase.name != name {
                Some(nesting_message(name))
            } else {
                session.nesting_error
            },
            phases: session.phases.push(
                PhaseView {
                    name,
                    duration_ns: elapsed(phase.started, now),
                    depth: phase.depth,
                    performed: true,
                },
            ),
            last_top_end: if phase.depth == 0 {
                Some(now)
            } else {
                session.last_top_end
            },
            last_top_phase: if phase.depth == 0 {
                Some(at)
            } else {
                session.last_top_phase
            },
            ..session
        }
    }
}

/// The session after a phase is passed over.
pub open spec fn skipped(session: SessionView, name: Seq<char>, depth: u32) -> SessionView {
    SessionView {
        phases: session.phases.push(PhaseView { name, duration_ns: 0, depth, performed: false }),
        ..session
    }
}

pub open spec fn capped(n: int) -> u64 {
    if n > u64::MAX {
        u64::MAX
    } else {
        n as u64
    }
}

pub open spec fn counted(session: SessionView, name: Seq<char>, bytes: u64) -> SessionView {
    let before = if session.counters.dom().contains(name) {
        session.counters[name]
    } else {
        0
    };
    SessionView { counters: session.counters.insert(name, capped(before + bytes)), ..session }
}

pub open spec fn recorded(
    session: SessionView,
    category: Seq<char>,
    bytes_read: u64,
    bytes_written: u64,
) -> SessionView {
    let before = if session.object_store.dom().contains(category) {
        session.object_store[category]
    } else {
        no_io()
    };
    SessionView {
        object_store: session.object_store.insert(
            category,
            ObjectIo {
                requests: capped(before.requests + 1),
                bytes_read: capped(before.bytes_read + bytes_read),
                bytes_written: capped(before.bytes_written + bytes_written),
            },
        ),
        ..session
    }
}

/// The names of phases, with a comma between them.
pub open spec fn listed(active: Seq<ActiveView>) -> Seq<char>
    decreases active.len(),
{
    if active.len() == 0 {
        Seq::empty()
    } else if active.len() == 1 {
        active[0].name
    } else {
        listed(active.drop_last()) + ", "@ + active.last().name
    }
}

/// What is wrong with a session that is to finish.
pub open spec fn session_fault(session: SessionView) -> Option<Seq<char>> {
    if session.active.len() > 0 {
        Some("unfinished probe phases: "@ + listed(session.active))
    } else {
        session.nesting_error
    }
}

/// The measurements of a session that finishes now: the last phase of the top
/// level lasts until then.
pub open spec fn closed_phases(session: SessionView, now: u64) -> Seq<PhaseView> {
    match (session.last_top_end, session.last_top_phase) {
        (Some(end), Some(at)) => session.phases.update(
            at as int,
            PhaseView {
                duration_ns: capped(
                    session.phases[at as int].duration_ns + elapsed(end, now),
                ),
                ..session.phases[at as int]
            },
        ),
        _ => session.phases,
    }
}

/// A session whose marks point at what it has measured.
pub open spec fn session_ok(session: SessionView) -> bool {
    &&& session.last_top_phase matches Some(at) ==> at < session.phases.len()
    &&& session.phases.len() <= usize::MAX
}

fn active_names(active: &Vec<ActivePhase>) -> (text: String)
    ensures
        text@ == listed(Seq::new(active@.len(), |i: int| active@[i]@)),
{
    let ghost all = Seq::new(active@.len(), |i: int| active@[i]@);
    let mut text = String::new();
    let mut i: usize = 0;
    while i < active.len()
        invariant
            i <= active@.len(),
            all == Seq::new(active@.len(), |i: int| active@[i]@),
            text@ == listed(all.take(i as int)),
        decreases active@.len() - i,
    {
        proof {
            assert(all.take(i + 1).drop_last() =~= all.take(i as int));
            assert(all.take(i + 1).last() == active@[i as int]@);
        }
        if i > 0 {
            text.append(", ");
        }
        text.append(active[i].name.as_str());
        proof {
            if i == 0 {
                assert(text@ =~= active@[0].name@);
            } else {
                assert(text@ =~= listed(all.take(i as int)) + ", "@ + active@[i as int].name@);
            }
        }
        i = i + 1;
    }
    assert(all.take(i as int) =~= all);
    text
}

fn since(from: u64, to: u64) -> (n: u64)
    ensures
        n == elapsed(from, to),
{
    if to >= from {
        to - from
    } else {
        0
    }
}

fn capped_sum(a: u64, b: u64) -> (n: u64)
    ensures
        n == capped(a + b),
{
    if a > u64::MAX - b {
        u64::MAX
    } else {
        a + b
    }
}

/// A duration in nanoseconds, as far as the range goes.
pub fn nanos(duration: u128) -> (n: u64)
    ensures
        n == (if duration > u64::MAX {
            u64::MAX
        } else {
            duration as u64
        }),
{
    if duration > u64::MAX as u128 {
        u64::MAX
    } else {
        duration as u64
    }
}

/// The right to finish the session that was started.
#[derive(Debug)]
pub struct ProbeSession {}

/// The right to end a phase. Without a session there is nothing to end.
#[derive(Debug)]
pub struct PhaseGuard {
    name: Option<String>,
}

impl PhaseGuard {
    pub closed spec fn spec_name(&self) -> Option<Seq<char>> {
        match self.name {
            Some(name) => Some(name@),
            None => None,
        }
    }
}

impl Probe {
    pub closed spec fn wf(&self) -> bool {
        self.slot matches Some(session) ==> {
            &&& session.counters.wf()
            &&& session.object_store.wf()
            &&& session_ok(session@)
        }
    }

    pub fn new() -> (probe: Self)
        ensures
            probe.wf(),
            probe@ is None,
    {
        Probe { slot: None }
    }
}

/// Starts a session.
pub fn start(probe: &mut Probe, now: u64) -> (r: Result<ProbeSession, ProbeError>)
    requires
        old(probe).wf(),
    ensures
        final(probe).wf(),
        match r {
            Ok(_) => old(probe)@ is None && final(probe)@ == Some(new_session(now)),
            Err(e) => {
                &&& old(probe)@ is Some
                &&& final(probe)@ == old(probe)@
                &&& e.message@ == "a write-latency probe session is already active"@
            },
        },
{
    if probe.slot.is_some() {
        return Err(
            ProbeError { message: "a write-latency probe session is already active".to_owned() },
        );
    }
    let mut counters: Ledger<u64> = Ledger::new();
    counters.put("parent_logical_bytes", 0);
    counters.put("candidate_logical_bytes", 0);
    counters.put("changed_pages", 0);
    counters.put("temporary_file_bytes", 0);
    counters.put("published_image_artifact_bytes", 0);
    let none = ObjectIo { requests: 0, bytes_read: 0, bytes_written: 0 };
    let mut object_store: Ledger<ObjectIo> = Ledger::new();
    object_store.put("head", none);
    object_store.put("commit", none);
    object_store.put("generation", none);
    object_store.put("checkpoint", none);
    object_store.put("page_map", none);
    object_store.put("page_pack", none);
    object_store.put("other", none);
    let session = ActiveSession {
        started: now,
        last_top_end: None,
        last_top_phase: None,
        active_phases: Vec::new(),
        phases: Vec::new(),
        counters,
        object_store,
        nesting_error: None,
    };
    assert(session@.active =~= Seq::<ActiveView>::empty());
    assert(session@.phases =~= Seq::<PhaseView>::empty());
    probe.slot = Some(session);
    Ok(ProbeSession {  })
}

impl ProbeSession {
    /// Finishes the session. It is over even where it was not in order.
    pub fn finish(self, probe: &mut Probe, now: u64) -> (r: Result<ProbeReport, ProbeError>)
        requires
            old(probe).wf(),
        ensures
            final(probe).wf(),
            final(probe)@ is None,
            match old(probe)@ {
                None => r matches Err(e) && e.message@ == "probe session is not active"@,
                Some(session) => match session_fault(session) {
                    Some(fault) => r matches Err(e) && e.message@ == fault,
                    None => r matches Ok(report) && {
                        &&& report.acknowledged_latency_ns == elapsed(session.started, now)
                        &&& phases_view(report.phases@) == closed_phases(session, now)
                        &&& report.counters.wf()
                        &&& report.counters.spec_entries() == session.counters
                        &&& report.object_store.wf()
                        &&& report.object_store.spec_entries() == session.object_store
                    },
                },
            },
    {
        let taken = probe.slot.take();
        let mut session = match taken {
            None => {
                return Err(ProbeError { message: "probe session is not active".to_owned() });
            },
            Some(session) => session,
        };
        let ghost view = session@;
        if session.active_phases.len() > 0 {
            let names = active_names(&session.active_phases);
            let message = joined("unfinished probe phases: ", names.as_str());
            return Err(ProbeError { message });
        }
        if let Some(message) = session.nesting_error {
            return Err(ProbeError { message });
        }
        if let Some(end) = session.last_top_end {
            if let Some(at) = session.last_top_phase {
                assert(at < view.phases.len());
                let phase = &session.phases[at];
                let longer = PhaseMeasurement {
                    name: phase.name.clone(),
                    duration_ns: capped_sum(phase.duration_ns, since(end, now)),
                    depth: phase.depth,
                    performed: phase.performed,
                };
                session.phases.set(at, longer);
            }
        }
        let report = ProbeReport {
            acknowledged_latency_ns: since(session.started, now),
            phases: session.phases,
            counters: session.counters,
            object_store: session.object_store,
        };
        assert(phases_view(report.phases@) =~= closed_phases(view, now));
        Ok(report)
    }

    /// Gives the session up.
    pub fn abandon(self, probe: &mut Probe)
        requires
            old(probe).wf(),
        ensures
            final(probe).wf(),
            final(probe)@ is None,
    {
        probe.slot = None;
    }
}

/// Begins a phase of the session.
pub fn phase(probe: &mut Probe, name: &str, now: u64) -> (guard: PhaseGuard)
    requires
        old(probe).wf(),
    ensures
        final(probe).wf(),
        match old(probe)@ {
            None => final(probe)@ is None && guard.spec_name() is None,
            Some(session) => {
                &&& final(probe)@ == Some(begun(session, name@, now))
                &&& guard.spec_name() == Some(name@)
            },
        },
{
    let taken = probe.slot.take();
    let mut session = match taken {
        None => {
            return PhaseGuard { name: None };
        },
        Some(session) => session,
    };
    let ghost view = session@;
    let open: usize = session.active_phases.len();
    let depth: u32 = if open > u32::MAX as usize {
        u32::MAX
    } else {
        open as u32
    };
    let started: u64 = if depth == 0 {
        match session.last_top_end {
            Some(end) => end,
            None => session.started,
        }
    } else {
        now
    };
    session.active_phases.push(ActivePhase { name: name.to_owned(), started, depth });
    assert(session@.active =~= begun(view, name@, now).active);
    probe.slot = Some(session);
    PhaseGuard { name: Some(name.to_owned()) }
}

impl PhaseGuard {
    /// Ends the phase.
    pub fn end(self, probe: &mut Probe, now: u64)
        requires
            old(probe).wf(),
            old(probe)@ matches Some(session) ==> session.phases.len() < usize::MAX,
        ensures
            final(probe).wf(),
            match (self.spec_name(), old(probe)@) {
                (Some(name), Some(session)) => final(probe)@ == Some(ended(session, name, now)),
                _ => final(probe)@ == old(probe)@,
            },
    {
        let name = match self.name {
            None => {
                return ;
            },
            Some(name) => name,
        };
        let taken = probe.slot.take();
        let mut session = match taken {
            None => {
                return ;
            },
            Some(session) => session,
        };
        let ghost view = session@;
        match session.active_phases.pop() {
            None => {
                session.nesting_error = Some(
                    joined("probe phase nesting error at ", name.as_str()),
                );
                assert(session@.active =~= view.active);
                probe.slot = Some(session);
            },
            Some(phase) => {
                assert(view.active.last() == phase@);
                if phase.name != name {
                    session.nesting_error = Some(
                        joined("probe phase nesting error at ", name.as_str()),
                    );
                }
                let at: usize = session.phases.len();
                let ghost text = name@;
                session.phases.push(
                    PhaseMeasurement {
                        name,
                        duration_ns: since(phase.started, now),
                        depth: phase.depth,
                        performed: true,
                    },
                );
                if phase.depth == 0 {
                    session.last_top_end = Some(now);
                    session.last_top_phase = Some(at);
                }
                proof {
                    let expected = ended(view, text, now);
                    assert(session@.active =~= expected.active);
                    assert(session@.phases =~= expected.phases);
                }
                probe.slot = Some(session);
            },
        }
    }
}

/// Records that a phase was passed over.
pub fn skipped_phase(probe: &mut Probe, name: &str, depth: u32)
    requires
        old(probe).wf(),
        old(probe)@ matches Some(session) ==> session.phases.len() < usize::MAX,
    ensures
        final(probe).wf(),
        final(probe)@ == (match old(probe)@ {
            Some(session) => Some(skipped(session, name@, depth)),
            None => None,
        }),
{
    let taken = probe.slot.take();
    if let Some(mut session) = taken {
        let ghost view = session@;
        session.phases.push(
            PhaseMeasurement { name: name.to_owned(), duration_ns: 0, depth, performed: false },
        );
        assert(session@.phases =~= skipped(view, name@, depth).phases);
        assert(session@.active =~= view.active);
        probe.slot = Some(session);
    }
}

/// Adds to a counter of the session.
pub fn add_bytes(probe: &mut Probe, name: &str, bytes: u64)
    requires
        old(probe).wf(),
    ensures
        final(probe).wf(),
        final(probe)@ == (match old(probe)@ {
            Some(session) => Some(counted(session, name@, bytes)),
            None => None,
        }),
{
    let taken = probe.slot.take();
    if let Some(mut session) = taken {
        let ghost view = session@;
        let before: u64 = match session.counters.get(name) {
            Some(n) => n,
            None => 0,
        };
        session.counters.put(name, capped_sum(before, bytes));
        assert(session@.phases =~= view.phases);
        assert(session@.active =~= view.active);
        probe.slot = Some(session);
    }
}

/// Adds a request to the session.
pub fn record_io(probe: &mut Probe, category: &str, bytes_read: u64, bytes_written: u64)
    requires
        old(probe).wf(),
    ensures
        final(probe).wf(),
        final(probe)@ == (match old(probe)@ {
            Some(session) => Some(recorded(session, category@, bytes_read, bytes_written)),
            None => None,
        }),
{
    let taken = probe.slot.take();
    if let Some(mut session) = taken {
        let ghost view = session@;
        let before: ObjectIo = match session.object_store.get(category) {
            Some(io) => io,
            None => ObjectIo { requests: 0, bytes_read: 0, bytes_written: 0 },
        };
        session.object_store.put(
            category,
            ObjectIo {
                requests: capped_sum(before.requests, 1),
                bytes_read: capped_sum(before.bytes_read, bytes_read),
                bytes_written: capped_sum(before.bytes_written, bytes_written),
            },
        );
        assert(session@.phases =~= view.phases);
        assert(session@.active =~= view.active);
        probe.slot = Some(session);
    }
}

/// What kind of object a key names.
pub open spec fn category_of(key: Seq<char>) -> Seq<char> {
    if key == "_otmp/HEAD"@ {
        "head"@
    } else if begins(key, "_otmp/commits/"@) {
        "commit"@
    } else if begins(key, "_otmp/generations/"@) {
        "generation"@
    } else if begins(key, "_otmp/checkpoints/"@) {
        "checkpoint"@
    } else if begins(key, "_otmp/page-maps/"@) {
        "page_map"@
    } else if begins(key, "_otmp/page-packs/"@) {
        "page_pack"@
    } else {
        "other"@
    }
}

/// What kind of object a key names.
pub fn category(key: &String) -> (name: &'static str)
    ensures
        name@ == category_of(key@),
{
    if reads(key, "_otmp/HEAD") {
        "head"
    } else if begins_with(key.as_str(), "_otmp/commits/") {
        "commit"
    } else if begins_with(key.as_str(), "_otmp/generations/") {
        "generation"
    } else if begins_with(key.as_str(), "_otmp/checkpoints/") {
        "checkpoint"
    } else if begins_with(key.as_str(), "_otmp/page-maps/") {
        "page_map"
    } else if begins_with(key.as_str(), "_otmp/page-packs/") {
        "page_pack"
    } else {
        "other"
    }
}

/// A store whose requests are recorded.
#[derive(Debug)]
pub struct QualificationStore<S> {
    pub store: S,
}

impl<S> QualificationStore<S> {
    pub fn new(store: S) -> (measured: Self)
        ensures
            measured.store == store,
    {
        QualificationStore { store }
    }
}

// ----------------------------------------------------- where the time goes

/// The time that the phases of the top level account for.
pub open spec fn top_total(phases: Seq<PhaseView>) -> nat
    decreases phases.len(),
{
    if phases.len() == 0 {
        0
    } else {
        top_total(phases.drop_last()) + (if phases.last().depth == 0 {
            phases.last().duration_ns as nat
        } else {
            0
        })
    }
}

/// All time up to the end of the last top-level phase is accounted for, and an
/// open one takes up from there.
pub open spec fn attributed(session: SessionView) -> bool {
    &&& session_ok(session)
    &&& session.started <= resumes(session)
    &&& top_total(session.phases) == resumes(session) - session.started
    &&& session.last_top_end is Some <==> session.last_top_phase is Some
    &&& session.last_top_phase matches Some(at) ==> session.phases[at as int].depth == 0
    &&& forall|i: int|
        0 <= i < session.active.len() ==> ((#[trigger] session.active[i]).depth == 0 <==> i == 0)
    &&& session.active.len() > 0 ==> session.active[0].started == resumes(session)
}

/// A new session accounts for its time, which is none.
pub proof fn lemma_start_attributes(now: u64)
    ensures
        attributed(new_session(now)),
{
}

/// Beginning, ending and passing over phases, and counting, keep all time
/// accounted for, as long as the clock does not run backwards.
pub proof fn lemma_steps_attribute(session: SessionView, name: Seq<char>, now: u64, bytes: u64, more: u64)
    requires
        attributed(session),
        session.phases.len() < usize::MAX,
        resumes(session) <= now,
    ensures
        attributed(begun(session, name, now)),
        attributed(ended(session, name, now)),
        forall|depth: u32| attributed(#[trigger] skipped(session, name, depth)),
        attributed(counted(session, name, bytes)),
        attributed(recorded(session, name, bytes, more)),
{
    let b = begun(session, name, now);
    assert forall|i: int| 0 <= i < b.active.len() implies ((#[trigger] b.active[i]).depth == 0
        <==> i == 0) by {
        if i < session.active.len() {
            assert(b.active[i] == session.active[i]);
        }
    }
    let e = ended(session, name, now);
    if session.active.len() > 0 {
        assert(e.phases.drop_last() =~= session.phases);
        assert forall|i: int| 0 <= i < e.active.len() implies ((#[trigger] e.active[i]).depth == 0
            <==> i == 0) by {
            assert(e.active[i] == session.active[i]);
        }
        let phase = session.active.last();
        assert(phase == session.active[session.active.len() - 1]);
    }
    assert forall|depth: u32| attributed(#[trigger] skipped(session, name, depth)) by {
        let s = skipped(session, name, depth);
        assert(s.phases.drop_last() =~= session.phases);
    }
}

proof fn lemma_top_update(phases: Seq<PhaseView>, at: int, more: u64)
    requires
        0 <= at < phases.len(),
        phases[at].depth == 0,
        phases[at].duration_ns + more <= u64::MAX,
    ensures
        top_total(
            phases.update(
                at,
                PhaseView {
                    duration_ns: (phases[at].duration_ns + more) as u64,
                    ..phases[at]
                },
            ),
        ) == top_total(phases) + more,
        phases[at].duration_ns <= top_total(phases),
    decreases phases.len(),
{
    let longer = PhaseView { duration_ns: (phases[at].duration_ns + more) as u64, ..phases[at] };
    let updated = phases.update(at, longer);
    if at == phases.len() - 1 {
        assert(updated.drop_last() =~= phases.drop_last());
    } else {
        lemma_top_update(phases.drop_last(), at, more);
        assert(updated.drop_last() =~= phases.drop_last().update(at, longer));
    }
}

proof fn lemma_top_member(phases: Seq<PhaseView>, at: int)
    requires
        0 <= at < phases.len(),
        phases[at].depth == 0,
    ensures
        phases[at].duration_ns <= top_total(phases),
    decreases phases.len(),
{
    if at < phases.len() - 1 {
        lemma_top_member(phases.drop_last(), at);
    }
}

/// The phases of the top level of a finished session account for exactly the
/// latency that it reports, once there has been one.
pub proof fn lemma_latency_is_attributed(session: SessionView, now: u64)
    requires
        attributed(session),
        session.last_top_end is Some,
        resumes(session) <= now,
    ensures
        top_total(closed_phases(session, now)) == elapsed(session.started, now),
{
    let at = session.last_top_phase->Some_0 as int;
    let end = session.last_top_end->Some_0;
    lemma_top_member(session.phases, at);
    lemma_top_update(session.phases, at, elapsed(end, now));
}

/// What happens in a session.
pub enum SessionEvent {
    Begin { name: Seq<char>, now: u64 },
    End { name: Seq<char>, now: u64 },
    Skip { name: Seq<char>, depth: u32 },
    Count { name: Seq<char>, bytes: u64 },
    Request { category: Seq<char>, bytes_read: u64, bytes_written: u64 },
}

pub open spec fn after_event(session: SessionView, event: SessionEvent) -> SessionView {
    match event {
        SessionEvent::Begin { name, now } => begun(session, name, now),
        SessionEvent::End { name, now } => ended(session, name, now),
        SessionEvent::Skip { name, depth } => skipped(session, name, depth),
        SessionEvent::Count { name, bytes } => counted(session, name, bytes),
        SessionEvent::Request { category, bytes_read, bytes_written } => recorded(
            session,
            category,
            bytes_read,
            bytes_written,
        ),
    }
}

/// The session after events in their order.
pub open spec fn after_events(session: SessionView, events: Seq<SessionEvent>) -> SessionView
    decreases events.len(),
{
    if events.len() == 0 {
        session
    } else {
        after_event(after_events(session, events.drop_last()), events.last())
    }
}

/// The moment of the last event that has one.
pub open spec fn last_moment(started: u64, events: Seq<SessionEvent>) -> u64
    decreases events.len(),
{
    if events.len() == 0 {
        started
    } else {
        match events.last() {
            SessionEvent::Begin { now, .. } => now,
            SessionEvent::End { now, .. } => now,
            _ => last_moment(started, events.drop_last()),
        }
    }
}

/// The clock never goes back.
pub open spec fn in_time(started: u64, events: Seq<SessionEvent>) -> bool
    decreases events.len(),
{
    events.len() > 0 ==> {
        &&& in_time(started, events.drop_last())
        &&& last_moment(started, events.drop_last()) <= last_moment(started, events)
    }
}

/// After any events in time all time is accounted for.
proof fn lemma_events_attribute(started: u64, events: Seq<SessionEvent>)
    requires
        in_time(started, events),
        events.len() <= usize::MAX,
    ensures
        ({
            let session = after_events(new_session(started), events);
            &&& attributed(session)
            &&& session.started == started
            &&& session.phases.len() <= events.len()
            &&& resumes(session) <= last_moment(started, events)
        }),
    decreases events.len(),
{
    if events.len() == 0 {
        lemma_start_attributes(started);
    } else {
        let front = events.drop_last();
        lemma_events_attribute(started, front);
        let before = after_events(new_session(started), front);
        match events.last() {
            SessionEvent::Begin { name, now } => {
                lemma_steps_attribute(before, name, now, 0, 0);
            },
            SessionEvent::End { name, now } => {
                lemma_steps_attribute(before, name, now, 0, 0);
            },
            SessionEvent::Skip { name, depth } => {
                lemma_steps_attribute(before, name, resumes(before), 0, 0);
            },
            SessionEvent::Count { name, bytes } => {
                lemma_steps_attribute(before, name, resumes(before), bytes, 0);
            },
            SessionEvent::Request { category, bytes_read, bytes_written } => {
                lemma_steps_attribute(before, category, resumes(before), bytes_read, bytes_written);
            },
        }
    }
}

/// The phases of the top level fill a whole session: once one has ended, all
/// together last from the start of the session to its finish.
pub proof fn lemma_top_phases_fill_the_session(started: u64, events: Seq<SessionEvent>, now: u64)
    requires
        in_time(started, events),
        last_moment(started, events) <= now,
        events.len() <= usize::MAX,
        after_events(new_session(started), events).last_top_end is Some,
    ensures
        top_total(closed_phases(after_events(new_session(started), events), now)) == elapsed(
            started,
            now,
        ),
{
    lemma_events_attribute(started, events);
    lemma_latency_is_attributed(after_events(new_session(started), events), now);
}

/// Phases are listed in the order in which they end: later events only add to
/// the list.
pub proof fn lemma_phases_are_listed_as_they_end(
    session: SessionView,
    events: Seq<SessionEvent>,
    n: int,
)
    requires
        0 <= n <= events.len(),
    ensures
        after_events(session, events.take(n)).phases.is_prefix_of(
            after_events(session, events).phases,
        ),
    decreases events.len(),
{
    if n == events.len() {
        assert(events.take(n) =~= events);
    } else {
        let front = events.drop_last();
        assert(front.take(n) =~= events.take(n));
        lemma_phases_are_listed_as_they_end(session, front, n);
        let before = after_events(session, front).phases;
        let after = after_events(session, events).phases;
        assert(before.is_prefix_of(after));
    }
}

/// The phases that are open after events, innermost last, if every phase ended
/// before the one around it.
pub open spec fn open_phases(events: Seq<SessionEvent>) -> Option<Seq<Seq<char>>>
    decreases events.len(),
{
    if events.len() == 0 {
        Some(Seq::empty())
    } else {
        match open_phases(events.drop_last()) {
            None => None,
            Some(open) => match events.last() {
                SessionEvent::Begin { name, .. } => Some(open.push(name)),
                SessionEvent::End { name, .. } => if open.len() > 0 && open.last() == name {
                    Some(open.drop_last())
                } else {
                    None
                },
                _ => Some(open),
            },
        }
    }
}

spec fn names_of(active: Seq<ActiveView>) -> Seq<Seq<char>> {
    Seq::new(active.len(), |i: int| active[i].name)
}

proof fn lemma_nested_events(started: u64, events: Seq<SessionEvent>)
    requires
        open_phases(events) is Some,
    ensures
        ({
            let session = after_events(new_session(started), events);
            &&& open_phases(events) == Some(names_of(session.active))
            &&& session.nesting_error is None
        }),
    decreases events.len(),
{
    if events.len() == 0 {
        assert(names_of(new_session(started).active) =~= Seq::empty());
    } else {
        let front = events.drop_last();
        lemma_nested_events(started, front);
        let before = after_events(new_session(started), front);
        let after = after_events(new_session(started), events);
        match events.last() {
            SessionEvent::Begin { name, .. } => {
                assert(names_of(after.active) =~= names_of(before.active).push(name));
            },
            SessionEvent::End { name, .. } => {
                assert(names_of(before.active).last() == before.active.last().name);
                assert(names_of(after.active) =~= names_of(before.active).drop_last());
            },
            _ => {},
        }
    }
}

/// A session in which every phase ended, innermost first, is in order when it
/// finishes.
pub proof fn lemma_nested_sessions_are_in_order(started: u64, events: Seq<SessionEvent>)
    requires
        open_phases(events) == Some(Seq::<Seq<char>>::empty()),
    ensures
        session_fault(after_events(new_session(started), events)) is None,
{
    lemma_nested_events(started, events);
    assert(names_of(after_events(new_session(started), events).active).len() == 0);
}

} // verus!
