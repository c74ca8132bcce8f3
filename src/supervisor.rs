//! The supervisor's decisions: the registry of live children, the start
//! barrier that holds every decision back until all replicas are registered,
//! what each wait result leads to, and the one-shot shutdown cascade.
use crate::num::{decimal, decimal_string};
use vstd::prelude::*;

verus! {

/// A launched child: its label slot, display name and process id.
pub struct ProcessRecord {
    pub index: usize,
    pub name: String,
    pub pid: i32,
}

/// What the registry holds of a child: `(pid, name, index)`.
pub type RecordModel = (i32, Seq<char>, usize);

pub open spec fn record_model(r: &ProcessRecord) -> RecordModel {
    (r.pid, r.name@, r.index)
}

pub open spec fn has_pid(s: Seq<RecordModel>, pid: i32) -> bool {
    exists|i: int| 0 <= i < s.len() && (#[trigger] s[i]).0 == pid
}

pub open spec fn pids_distinct(s: Seq<RecordModel>) -> bool {
    forall|i: int, j: int| 0 <= i < j < s.len() ==> (#[trigger] s[i]).0 != (#[trigger] s[j]).0
}

/// The live children, in the order they were registered, each pid once.
pub struct Registry {
    procs: Vec<ProcessRecord>,
}

impl View for Registry {
    type V = Seq<RecordModel>;

    closed spec fn view(&self) -> Seq<RecordModel> {
        self.procs@.map_values(|r: ProcessRecord| record_model(&r))
    }
}

impl Registry {
    proof fn lemma_view(&self)
        ensures
            self@.len() == self.procs@.len(),
            forall|i: int| 0 <= i < self@.len() ==> #[trigger] self@[i] == record_model(&self.procs@[i]),
    {
    }

    pub open spec fn wf(&self) -> bool {
        pids_distinct(self@)
    }

    /// An empty registry.
    pub fn new() -> (r: Registry)
        ensures
            r@ == Seq::<RecordModel>::empty(),
            r.wf(),
    {
        let r = Registry { procs: Vec::new() };
        assert(r@ =~= Seq::<RecordModel>::empty());
        r
    }

    pub fn len(&self) -> (r: usize)
        ensures
            r == self@.len(),
    {
        self.procs.len()
    }

    pub fn is_empty(&self) -> (r: bool)
        ensures
            r == (self@.len() == 0),
    {
        self.procs.len() == 0
    }

    /// The pids, in order.
    pub fn pids(&self) -> (r: Vec<i32>)
        ensures
            r@.len() == self@.len(),
            forall|i: int| 0 <= i < r@.len() ==> #[trigger] r@[i] == self@[i].0,
    {
        proof {
            self.lemma_view();
        }
        let mut out: Vec<i32> = Vec::new();
        let mut i: usize = 0;
        while i < self.procs.len()
            invariant
                i <= self@.len(),
                self@.len() == self.procs@.len(),
                forall|j: int| 0 <= j < self@.len() ==> #[trigger] self@[j] == record_model(&self.procs@[j]),
                out@.len() == i,
                forall|j: int| 0 <= j < i ==> #[trigger] out@[j] == self@[j].0,
            decreases self@.len() - i,
        {
            out.push(self.procs[i].pid);
            i = i + 1;
        }
        out
    }

    fn position(&self, pid: i32) -> (r: Option<usize>)
        ensures
            match r {
                Some(i) => i < self@.len() && self@[i as int].0 == pid,
                None => !has_pid(self@, pid),
            },
    {
        proof {
            self.lemma_view();
        }
        let mut i: usize = 0;
        while i < self.procs.len()
            invariant
                i <= self@.len(),
                self@.len() == self.procs@.len(),
                forall|j: int| 0 <= j < self@.len() ==> #[trigger] self@[j] == record_model(&self.procs@[j]),
                forall|j: int| 0 <= j < i ==> (#[trigger] self@[j]).0 != pid,
            decreases self@.len() - i,
        {
            if self.procs[i].pid == pid {
                return Some(i);
            }
            i = i + 1;
        }
        None
    }

    /// Adds a child; refused (`false`, nothing changed) when its pid is
    /// already registered.
    pub fn register(&mut self, rec: ProcessRecord) -> (r: bool)
        requires
            old(self).wf(),
        ensures
            r == !has_pid(old(self)@, rec.pid),
            r ==> final(self)@ == old(self)@.push(record_model(&rec)),
            !r ==> final(self)@ == old(self)@,
            final(self).wf(),
    {
        let ghost m = record_model(&rec);
        match self.position(rec.pid) {
            Some(_) => false,
            None => {
                self.procs.push(rec);
                proof {
                    self.lemma_view();
                    assert(self@ =~= old(self)@.push(m));
                }
                true
            },
        }
    }

    /// Takes the child with `pid` out, if it is registered.
    pub fn remove(&mut self, pid: i32) -> (r: Option<ProcessRecord>)
        requires
            old(self).wf(),
        ensures
            final(self).wf(),
            match r {
                Some(rec) => rec.pid == pid && exists|i: int|
                    0 <= i < old(self)@.len() && old(self)@[i] == record_model(&rec)
                        && final(self)@ == old(self)@.remove(i),
                None => !has_pid(old(self)@, pid) && final(self)@ == old(self)@,
            },
    {
        match self.position(pid) {
            None => None,
            Some(i) => {
                proof {
                    self.lemma_view();
                }
                let rec = self.procs.remove(i);
                proof {
                    self.lemma_view();
                    assert(self@ =~= old(self)@.remove(i as int));
                    assert forall|a: int, b: int| 0 <= a < b < self@.len() implies (
                    #[trigger] self@[a]).0 != (#[trigger] self@[b]).0 by {
                        let a0 = if a < i { a } else { a + 1 };
                        let b0 = if b < i { b } else { b + 1 };
                        assert(self@[a] == old(self)@[a0]);
                        assert(self@[b] == old(self)@[b0]);
                    }
                }
                Some(rec)
            },
        }
    }
}

/// Where the supervisor stands.
#[derive(Debug, Clone, Copy, PartialEq, Eq, Structural)]
pub enum Phase {
    /// Replicas are being launched and registered; nothing is decided yet.
    Starting,
    /// Every replica is registered; no shutdown has begun.
    Running,
    /// The cascade has begun; the program ends with this code.
    Stopping(i32),
}

/// What a non-blocking wait for any child reported.
pub enum WaitEvent {
    /// A child exited with a code.
    Exited(i32, i32),
    /// A child was ended by the named signal.
    Signaled(i32, String),
    /// No child has changed state.
    NotReady,
    /// There are no children left.
    NoChildren,
}

/// A line for the output about one child: its name, label slot and text.
pub struct LogLine {
    pub name: String,
    pub index: usize,
    pub message: String,
}

/// What the supervisor does after a wait result.
pub struct ReapAction {
    /// A line to print about the child that ended.
    pub log: Option<LogLine>,
    /// Children to send SIGTERM, where this result began the cascade.
    pub terminate: Vec<i32>,
    /// The code to exit with, where the program is done.
    pub exit: Option<i32>,
}

/// The child with `pid` was taken out of `before`, leaving `after`: where it
/// was registered, exactly its record is gone, the others stay in order, and
/// `log` names it; where it was not, nothing changed and nothing is logged.
pub open spec fn reaped(
    before: Seq<RecordModel>,
    after: Seq<RecordModel>,
    pid: i32,
    log: Option<LogLine>,
) -> bool {
    match log {
        Some(line) => exists|i: int|
            0 <= i < before.len() && before[i].0 == pid && after == before.remove(i)
                && line.name@ == before[i].1 && line.index == before[i].2,
        None => !has_pid(before, pid) && after == before,
    }
}

/// The decimal text of an `i32`, with `-` before a negative value.
pub open spec fn int_text(n: int) -> Seq<char> {
    if n < 0 {
        seq!['-'] + decimal((-n) as nat)
    } else {
        decimal(n as nat)
    }
}

pub open spec fn exited_text(code: int) -> Seq<char> {
    seq!['e', 'x', 'i', 't', 'e', 'd', ' ', 'w', 'i', 't', 'h', ' ', 'c', 'o', 'd', 'e', ' ']
        + int_text(code)
}

pub open spec fn terminated_text(signal: Seq<char>) -> Seq<char> {
    seq!['t', 'e', 'r', 'm', 'i', 'n', 'a', 't', 'e', 'd', ' ', 'b', 'y', ' '] + signal
}

pub open spec fn received_text(signal: Seq<char>) -> Seq<char> {
    signal + seq![' ', 'r', 'e', 'c', 'e', 'i', 'v', 'e', 'd']
}

/// The decimal text of `n`.
pub fn int_string(n: i32) -> (r: String)
    ensures
        r@ == int_text(n as int),
{
    if n < 0 {
        let m: i64 = -(n as i64);
        let mut s = String::from_str("-");
        let d = decimal_string(m as usize);
        s.append(d.as_str());
        proof {
            reveal_strlit("-");
            assert(s@ =~= int_text(n as int));
        }
        s
    } else {
        decimal_string(n as usize)
    }
}

/// The supervisor's state: the registry, how many replicas the start barrier
/// waits for, and the phase.
pub struct Supervisor {
    pub registry: Registry,
    pub expected: usize,
    pub phase: Phase,
}

impl Supervisor {
    pub open spec fn wf(&self) -> bool {
        &&& self.registry.wf()
        &&& self.phase == Phase::Starting ==> self.registry@.len() < self.expected
    }

    /// Whether the start barrier is open: every replica is registered.
    pub open spec fn started(&self) -> bool {
        self.phase != Phase::Starting
    }

    /// A supervisor that waits for `expected` replicas; with none, the barrier
    /// is open at once.
    pub fn new(expected: usize) -> (r: Supervisor)
        ensures
            r.wf(),
            r.registry@.len() == 0,
            r.expected == expected,
            r.phase == if expected == 0 {
                Phase::Running
            } else {
                Phase::Starting
            },
    {
        Supervisor {
            registry: Registry::new(),
            expected,
            phase: if expected == 0 {
                Phase::Running
            } else {
                Phase::Starting
            },
        }
    }

    /// Registers a launched replica. Returns whether the record was taken
    /// (its pid was new). The barrier opens when the last of the expected
    /// replicas is registered, and not before.
    pub fn register(&mut self, rec: ProcessRecord) -> (r: bool)
        requires
            old(self).wf(),
            old(self).phase == Phase::Starting,
        ensures
            final(self).wf(),
            final(self).expected == old(self).expected,
            r == !has_pid(old(self).registry@, rec.pid),
            r ==> final(self).registry@ == old(self).registry@.push(record_model(&rec)),
            !r ==> final(self).registry@ == old(self).registry@,
            final(self).started() == (final(self).registry@.len() == final(self).expected),
            final(self).started() ==> final(self).phase == Phase::Running,
    {
        let r = self.registry.register(rec);
        if self.registry.len() == self.expected {
            self.phase = Phase::Running;
        }
        r
    }

    /// Whether output may be written: only once the barrier is open.
    pub fn may_output(&self) -> (r: bool)
        ensures
            r == self.started(),
    {
        match self.phase {
            Phase::Starting => false,
            _ => true,
        }
    }

    /// Begins the shutdown cascade with exit code `code`. Only the first
    /// call does anything: it returns every registered pid, to be sent
    /// SIGTERM; later calls return nothing and change nothing.
    pub fn cascade(&mut self, code: i32) -> (r: Vec<i32>)
        requires
            old(self).wf(),
            old(self).started(),
        ensures
            cascade_step(old(self), final(self), code, r@),
    {
        match self.phase {
            Phase::Stopping(_) => Vec::new(),
            _ => {
                self.phase = Phase::Stopping(code);
                self.registry.pids()
            },
        }
    }

    /// The exit code, once the cascade has begun and no child is left.
    pub fn exit_code(&self) -> (r: Option<i32>)
        ensures
            r == match self.phase {
                Phase::Stopping(c) => if self.registry@.len() == 0 {
                    Some(c)
                } else {
                    None
                },
                _ => None,
            },
    {
        match self.phase {
            Phase::Stopping(c) => if self.registry.is_empty() {
                Some(c)
            } else {
                None
            },
            _ => None,
        }
    }

    /// At the cascade's deadline: the children still alive, to be sent
    /// SIGKILL. There are some exactly when the cascade has begun and some
    /// child is still registered.
    pub fn on_deadline(&self) -> (r: Vec<i32>)
        requires
            self.wf(),
        ensures
            r@.len() > 0 <==> (self.phase is Stopping && self.registry@.len() > 0),
            self.phase is Stopping ==> r@.len() == self.registry@.len() && forall|i: int|
                0 <= i < r@.len() ==> #[trigger] r@[i] == self.registry@[i].0,
    {
        match self.phase {
            Phase::Stopping(_) => self.registry.pids(),
            _ => Vec::new(),
        }
    }

    /// A termination signal arrived: the line to print and the pids to send
    /// SIGTERM, through a cascade with code 0.
    pub fn on_signal(&mut self, signal: &str) -> (r: (String, Vec<i32>))
        requires
            old(self).wf(),
            old(self).started(),
        ensures
            final(self).wf(),
            r.0@ == received_text(signal@),
            final(self).registry@ == old(self).registry@,
            final(self).expected == old(self).expected,
            match old(self).phase {
                Phase::Stopping(c) => final(self).phase == old(self).phase && r.1@.len() == 0,
                _ => final(self).phase == Phase::Stopping(0) && r.1@.len() == old(self).registry@.len()
                    && forall|i: int| 0 <= i < r.1@.len() ==> #[trigger] r.1@[i] == old(self).registry@[i].0,
            },
    {
        let mut line = String::from_str(signal);
        line.append(" received");
        proof {
            reveal_strlit(" received");
            assert(line@ =~= received_text(signal@));
        }
        let pids = self.cascade(0);
        (line, pids)
    }

    /// What a wait result leads to. A child that exited is taken out of the
    /// registry with a line `exited with code C`, and begins the cascade
    /// with code C. A child ended by a signal is taken out with a line
    /// `terminated by S` and begins nothing: the signal came from the
    /// cascade. With no children left the registry is emptied and the
    /// program ends: with the cascade's code where it has begun, else with 0. The program also ends once the
    /// cascade has begun and the registry is empty.
    pub fn on_wait(&mut self, ev: WaitEvent) -> (r: ReapAction)
        requires
            old(self).wf(),
            old(self).started(),
        ensures
            final(self).wf(),
            final(self).started(),
            final(self).expected == old(self).expected,
            r.exit is Some ==> final(self).registry@.len() == 0,
            match ev {
                WaitEvent::Exited(pid, code) => {
                    &&& reaped(old(self).registry@, final(self).registry@, pid, r.log)
                    &&& !has_pid(final(self).registry@, pid)
                    &&& final(self).registry@.len() == old(self).registry@.len() - if has_pid(
                        old(self).registry@,
                        pid,
                    ) {
                        1int
                    } else {
                        0
                    }
                    &&& r.log is Some ==> r.log->Some_0.message@ == exited_text(code as int)
                    &&& match old(self).phase {
                        Phase::Stopping(c) => final(self).phase == old(self).phase && r.terminate@.len() == 0,
                        _ => {
                            &&& final(self).phase == Phase::Stopping(code)
                            &&& r.terminate@.len() == final(self).registry@.len()
                            &&& forall|i: int|
                                0 <= i < r.terminate@.len() ==> #[trigger] r.terminate@[i]
                                    == final(self).registry@[i].0
                        },
                    }
                    &&& r.exit == match final(self).phase {
                        Phase::Stopping(c) => if final(self).registry@.len() == 0 {
                            Some(c)
                        } else {
                            None
                        },
                        _ => None,
                    }
                },
                WaitEvent::Signaled(pid, signal) => {
                    &&& reaped(old(self).registry@, final(self).registry@, pid, r.log)
                    &&& !has_pid(final(self).registry@, pid)
                    &&& final(self).registry@.len() == old(self).registry@.len() - if has_pid(
                        old(self).registry@,
                        pid,
                    ) {
                        1int
                    } else {
                        0
                    }
                    &&& r.log is Some ==> r.log->Some_0.message@ == terminated_text(signal@)
                    &&& final(self).phase == old(self).phase
                    &&& r.terminate@.len() == 0
                    &&& r.exit == match final(self).phase {
                        Phase::Stopping(c) => if final(self).registry@.len() == 0 {
                            Some(c)
                        } else {
                            None
                        },
                        _ => None,
                    }
                },
                WaitEvent::NotReady => {
                    &&& final(self).registry@ == old(self).registry@
                    &&& final(self).phase == old(self).phase
                    &&& r.log is None && r.terminate@.len() == 0
                    &&& r.exit == match old(self).phase {
                        Phase::Stopping(c) => if old(self).registry@.len() == 0 {
                            Some(c)
                        } else {
                            None
                        },
                        _ => None,
                    }
                },
                WaitEvent::NoChildren => {
                    &&& final(self).registry@.len() == 0
                    &&& final(self).phase == old(self).phase
                    &&& r.log is None && r.terminate@.len() == 0
                    &&& r.exit == Some(
                        match old(self).phase {
                            Phase::Stopping(c) => c,
                            _ => 0i32,
                        },
                    )
                },
            },
    {
        match ev {
            WaitEvent::Exited(pid, code) => {
                let log = match self.registry.remove(pid) {
                    Some(rec) => {
                        let mut message = String::from_str("exited with code ");
                        let c = int_string(code);
                        message.append(c.as_str());
                        proof {
                            reveal_strlit("exited with code ");
                            assert(message@ =~= exited_text(code as int));
                        }
                        Some(LogLine { name: rec.name, index: rec.index, message })
                    },
                    None => None,
                };
                proof {
                    lemma_removed_pid(old(self).registry@, self.registry@, pid);
                }
                let terminate = self.cascade(code);
                let exit = self.exit_code();
                ReapAction { log, terminate, exit }
            },
            WaitEvent::Signaled(pid, signal) => {
                let log = match self.registry.remove(pid) {
                    Some(rec) => {
                        let mut message = String::from_str("terminated by ");
                        message.append(signal.as_str());
                        proof {
                            reveal_strlit("terminated by ");
                            assert(message@ =~= terminated_text(signal@));
                        }
                        Some(LogLine { name: rec.name, index: rec.index, message })
                    },
                    None => None,
                };
                proof {
                    lemma_removed_pid(old(self).registry@, self.registry@, pid);
                }
                let exit = self.exit_code();
                ReapAction { log, terminate: Vec::new(), exit }
            },
            WaitEvent::NotReady => {
                let exit = self.exit_code();
                ReapAction { log: None, terminate: Vec::new(), exit }
            },
            WaitEvent::NoChildren => {
                let code = match self.phase {
                    Phase::Stopping(c) => c,
                    _ => 0,
                };
                self.registry = Registry::new();
                ReapAction { log: None, terminate: Vec::new(), exit: Some(code) }
            },
        }
    }
}

proof fn lemma_removed_pid(before: Seq<RecordModel>, after: Seq<RecordModel>, pid: i32)
    requires
        pids_distinct(before),
        (!has_pid(before, pid) && after == before) || exists|i: int|
            0 <= i < before.len() && before[i].0 == pid && after == before.remove(i),
    ensures
        !has_pid(after, pid),
        after.len() == before.len() - if has_pid(before, pid) {
            1int
        } else {
            0
        },
{
    if has_pid(before, pid) && after != before {
        let i = choose|i: int| 0 <= i < before.len() && before[i].0 == pid && after == before.remove(i);
        if has_pid(after, pid) {
            let j = choose|j: int| 0 <= j < after.len() && (#[trigger] after[j]).0 == pid;
            if j < i {
                assert(after[j] == before[j]);
            } else {
                assert(after[j] == before[j + 1]);
            }
        }
    } else if has_pid(before, pid) {
        let i = choose|i: int| 0 <= i < before.len() && before[i].0 == pid && after == before.remove(i);
        assert(after.len() == before.len() - 1);
    }
}

/// What one call of `cascade(code)` may do, taking `before` to `after` and
/// returning `r`.
pub open spec fn cascade_step(before: &Supervisor, after: &Supervisor, code: i32, r: Seq<i32>) -> bool {
    &&& after.wf()
    &&& after.registry@ == before.registry@
    &&& after.expected == before.expected
    &&& match before.phase {
        Phase::Stopping(c) => after.phase == before.phase && r.len() == 0,
        _ => after.phase == Phase::Stopping(code) && r.len() == before.registry@.len() && forall|
            i: int,
        | 0 <= i < r.len() ==> #[trigger] r[i] == before.registry@[i].0,
    }
}

/// However many times the cascade is begun, it does its work once: over
/// calls `0..n` on a supervisor that had not begun it, the first call
/// returns every registered pid and fixes the exit code, and every later
/// call returns no pid and changes nothing.
pub proof fn lemma_cascade_once(
    states: Seq<Supervisor>,
    codes: Seq<i32>,
    results: Seq<Seq<i32>>,
)
    requires
        states.len() == codes.len() + 1,
        results.len() == codes.len(),
        codes.len() >= 1,
        !(states[0].phase is Stopping),
        forall|k: int|
            0 <= k < codes.len() ==> cascade_step(
                &#[trigger] states[k],
                &states[k + 1],
                codes[k],
                results[k],
            ),
    ensures
        results[0].len() == states[0].registry@.len(),
        forall|k: int| 1 <= k < results.len() ==> (#[trigger] results[k]).len() == 0,
        forall|k: int|
            1 <= k < states.len() ==> (#[trigger] states[k]).phase == Phase::Stopping(codes[0])
                && states[k].registry@ == states[0].registry@,
{
    assert(cascade_step(&states[0], &states[1], codes[0], results[0]));
    assert forall|k: int| 1 <= k < states.len() implies (#[trigger] states[k]).phase
        == Phase::Stopping(codes[0]) && states[k].registry@ == states[0].registry@ by {
        lemma_cascade_stays(states, codes, results, k);
    }
    assert forall|k: int| 1 <= k < results.len() implies (#[trigger] results[k]).len() == 0 by {
        lemma_cascade_stays(states, codes, results, k);
        assert(cascade_step(&states[k], &states[k + 1], codes[k], results[k]));
    }
}

proof fn lemma_cascade_stays(
    states: Seq<Supervisor>,
    codes: Seq<i32>,
    results: Seq<Seq<i32>>,
    k: int,
)
    requires
        states.len() == codes.len() + 1,
        results.len() == codes.len(),
        codes.len() >= 1,
        !(states[0].phase is Stopping),
        forall|j: int|
            0 <= j < codes.len() ==> cascade_step(
                &#[trigger] states[j],
                &states[j + 1],
                codes[j],
                results[j],
            ),
        1 <= k < states.len(),
    ensures
        states[k].phase == Phase::Stopping(codes[0]),
        states[k].registry@ == states[0].registry@,
    decreases k,
{
    assert(cascade_step(&states[k - 1], &states[k], codes[k - 1], results[k - 1]));
    if k > 1 {
        lemma_cascade_stays(states, codes, results, k - 1);
    }
}

} // verus!
