use std::sync::atomic::AtomicU32;
use std::sync::Arc;
use std::sync::RwLock;
use vstd::prelude::*;

verus! {

/// One more than the largest payload (hot count or compiled-trace index) that a pack can hold:
/// the payload lives in the low 30 bits, the phase tag in the high 2 bits.
pub const PAYLOAD_LIMIT: u32 = 0x4000_0000;

/// Mask of the tag bits of a pack.
pub const PHASE_TAG: u32 = 0xC000_0000;
/// Tag of a location whose trace is compiled; the payload is the trace's index in the code cache.
pub const PHASE_COMPILED: u32 = 0x0000_0000;
/// Tag of a location that is being traced.
pub const PHASE_TRACING: u32 = 0x4000_0000;
/// Tag of a location that is counting towards the hot threshold; the payload is the count.
pub const PHASE_COUNTING: u32 = 0x8000_0000;
/// Tag of a location whose trace is being compiled.
pub const PHASE_COMPILING: u32 = 0xC000_0000;

/// The meta-tracing phase of a location, as its pack encodes it.
#[derive(PartialEq, Eq, Structural, Clone, Copy, Debug)]
pub enum Phase {
    /// Not yet hot: the location has been passed this many times.
    Counting(u32),
    /// A thread is tracing from this location.
    Tracing,
    /// The trace is being compiled.
    Compiling,
    /// The compiled trace has this index in the code cache.
    Compiled(u32),
}

/// The phase that a 32-bit pack encodes: the high two bits select the phase, the low thirty
/// bits are the payload of `Counting` and `Compiled`.
pub open spec fn phase_of(pack: u32) -> Phase {
    let payload: u32 = (pack % PAYLOAD_LIMIT) as u32;
    let tag: u32 = pack / PAYLOAD_LIMIT;
    if tag == 0 {
        Phase::Compiled(payload)
    } else if tag == 1 {
        Phase::Tracing
    } else if tag == 2 {
        Phase::Counting(payload)
    } else {
        Phase::Compiling
    }
}

impl Phase {
    /// The payload fits in the thirty payload bits of a pack.
    pub open spec fn fits(self) -> bool {
        match self {
            Phase::Counting(c) => c < PAYLOAD_LIMIT,
            Phase::Compiled(i) => i < PAYLOAD_LIMIT,
            _ => true,
        }
    }

    /// The pack that encodes this phase (for a phase that fits).
    pub open spec fn spec_pack(self) -> u32 {
        match self {
            Phase::Counting(c) => (2 * PAYLOAD_LIMIT + c) as u32,
            Phase::Tracing => PHASE_TRACING,
            Phase::Compiling => PHASE_COMPILING,
            Phase::Compiled(i) => i,
        }
    }

    /// Encodes this phase as a pack.
    pub fn pack(&self) -> (r: u32)
        requires
            self.fits(),
        ensures
            r == self.spec_pack(),
            phase_of(r) == *self,
    {
        match *self {
            Phase::Counting(c) => {
                assert(c < 0x4000_0000u32 ==> (0x8000_0000u32 | c) == 0x8000_0000u32 + c) by (bit_vector);
                PHASE_COUNTING | c
            },
            Phase::Tracing => PHASE_TRACING,
            Phase::Compiling => PHASE_COMPILING,
            Phase::Compiled(i) => {
                assert((0u32 | i) == i) by (bit_vector);
                PHASE_COMPILED | i
            },
        }
    }

    /// Decodes a pack.
    pub fn unpack(pack: u32) -> (r: Phase)
        ensures
            r == phase_of(pack),
            r.fits(),
    {
        let tag: u32 = pack & PHASE_TAG;
        let payload: u32 = pack & !PHASE_TAG;
        assert(payload == pack % 0x4000_0000u32) by (bit_vector)
            requires payload == pack & !0xC000_0000u32;
        assert(tag == 0u32 <==> pack / 0x4000_0000u32 == 0u32) by (bit_vector)
            requires tag == pack & 0xC000_0000u32;
        assert(tag == 0x4000_0000u32 <==> pack / 0x4000_0000u32 == 1u32) by (bit_vector)
            requires tag == pack & 0xC000_0000u32;
        assert(tag == 0x8000_0000u32 <==> pack / 0x4000_0000u32 == 2u32) by (bit_vector)
            requires tag == pack & 0xC000_0000u32;
        if tag == PHASE_COUNTING {
            Phase::Counting(payload)
        } else if tag == PHASE_TRACING {
            Phase::Tracing
        } else if tag == PHASE_COMPILED {
            Phase::Compiled(payload)
        } else {
            Phase::Compiling
        }
    }
}


/// A count of passes over a location.
pub type HotThreshold = u32;

/// The hot threshold of `MetaTracer::new`.
pub const DEFAULT_HOT_THRESHOLD: HotThreshold = 50;

#[verifier::external_type_specification]
#[verifier::external_body]
#[verifier::reject_recursive_types(T)]
pub struct ExRwLock<T: ?Sized>(RwLock<T>);

/// Calls `std::sync::RwLock::new`, which wraps `value` in a new, unlocked reader-writer lock.
/// The lock is opaque here: nothing is stated of what it holds.
#[verifier::external_body]
fn new_rwlock<T>(value: T) -> RwLock<T> {
    RwLock::new(value)
}

/// A compiled native code trace.
pub struct Code {}

impl Code {
    /// Compiles a trace. Compilation does not yet translate anything: the code is empty.
    pub fn compile<T: ?Sized>(_trace: &T) -> (code: Code) {
        Code {}
    }

    /// Runs the compiled trace, which does nothing yet.
    pub fn execute(&self) {
    }
}

/// A `Location` identifies a control point position in the end-user's program: every position
/// that can be a control point needs one `Location`, always the same one. The pack holds the
/// location's phase (see `phase_of`); it is shared among threads.
pub struct Location {
    pub pack: Arc<AtomicU32>,
}

impl Location {
    /// Creates a fresh location, counting from zero.
    pub fn new() -> (loc: Self) {
        let initial = Phase::Counting(0);
        Location { pack: Arc::new(AtomicU32::new(initial.pack())) }
    }
}

/// A meta-tracer: the hot threshold and the cache of compiled traces, whose indices identify
/// the traces.
pub struct MetaTracer {
    pub hot_threshold: HotThreshold,
    pub code_cache: Arc<RwLock<Vec<Code>>>,
}

impl MetaTracer {
    /// Creates a meta-tracer with the default hot threshold.
    pub fn new() -> (mt: Self)
        ensures
            mt.hot_threshold == DEFAULT_HOT_THRESHOLD,
    {
        Self::new_with_hot_threshold(DEFAULT_HOT_THRESHOLD)
    }

    /// Creates a meta-tracer with a specific hot threshold and an empty code cache.
    pub fn new_with_hot_threshold(hot_threshold: HotThreshold) -> (mt: Self)
        ensures
            mt.hot_threshold == hot_threshold,
    {
        let cache: Vec<Code> = Vec::new();
        MetaTracer { hot_threshold, code_cache: Arc::new(new_rwlock(cache)) }
    }
}


/// The pack a counting location gets on one more pass: the count goes up by one. A count that
/// would reach `PAYLOAD_LIMIT` carries into the tag bits, which then read `PHASE_COMPILING`.
pub open spec fn bumped_pack(count: u32) -> u32 {
    if count + 1 < PAYLOAD_LIMIT {
        (2 * PAYLOAD_LIMIT + count + 1) as u32
    } else {
        PHASE_COMPILING
    }
}

/// What the driver of a control point reports after it has performed an `Action`.
#[derive(PartialEq, Eq, Structural, Clone, Copy, Debug)]
pub enum Event {
    /// The location's pack was read and holds this value.
    Loaded(u32),
    /// The compare-and-swap took (`true`), or found another value in the pack (`false`).
    Swapped(bool),
    /// This thread's tracer has started tracing.
    TracerStarted,
    /// This thread's tracer was already tracing (perhaps for another meta-tracer).
    TracerBusy,
    /// This thread's tracer has stopped and handed over its trace, which the driver keeps.
    TraceTaken,
    /// This thread's tracer was not tracing: another thread is tracing this location.
    TracerIdle,
}

/// What the driver of a control point is to do next.
#[derive(PartialEq, Eq, Structural, Clone, Copy, Debug)]
pub enum Action {
    /// Read the location's pack; report `Event::Loaded`.
    Load,
    /// Swap the pack from `current` to `new` if it still holds `current`; report `Event::Swapped`.
    Swap { current: u32, new: u32 },
    /// Start this thread's tracer; report `Event::TracerStarted` or `Event::TracerBusy`.
    StartTracer,
    /// Stop this thread's tracer; report `Event::TraceTaken` or `Event::TracerIdle`.
    StopTracer,
    /// Store this value in the pack; the control point is then done.
    Restore(u32),
    /// Compile the kept trace in the background, append it to the code cache and store
    /// `Phase::Compiled(index)` in the pack; the control point is then done.
    Compile,
    /// Execute the compiled trace with this index in the code cache; the control point is then done.
    Execute(u32),
    /// The control point is done.
    Finish,
}

/// The event a control point waits for.
#[derive(PartialEq, Eq, Structural, Clone, Copy, Debug)]
pub enum Waiting {
    /// The pack's value.
    Load,
    /// Whether the count was bumped.
    Bump,
    /// Whether the location was claimed for tracing; `count` is the count it had.
    ClaimTracing { count: u32 },
    /// Whether the tracer started; `count` is the count the location had before it was claimed.
    Start { count: u32 },
    /// Whether the tracer handed over a trace; `current` is the pack read before.
    Stop { current: u32 },
    /// Whether the location was claimed for compiling.
    ClaimCompiling,
    /// Nothing: the control point is done.
    Done,
}

/// One pass of a thread over a location: the decisions of `MetaTracer::control_point`, as a
/// state machine. The driver performs each `Action`, which needs atomic memory, the thread's
/// tracer and threads, and reports the outcome as an `Event`.
#[derive(PartialEq, Eq, Structural, Clone, Copy, Debug)]
pub struct ControlPoint {
    pub hot_threshold: HotThreshold,
    /// A trace has been taken from the tracer during this pass.
    pub holds_trace: bool,
    pub waiting: Waiting,
}

impl ControlPoint {
    /// The counts that the state carries fit in a pack's payload, a stop remembers a tracing
    /// pack, and a claim for compiling is made only with a trace in hand.
    pub open spec fn wf(self) -> bool {
        match self.waiting {
            Waiting::ClaimTracing { count } => count < PAYLOAD_LIMIT,
            Waiting::Start { count } => count < PAYLOAD_LIMIT,
            Waiting::Stop { current } => phase_of(current) is Tracing,
            Waiting::ClaimCompiling => self.holds_trace,
            _ => true,
        }
    }

    /// The control point waits for an event of this kind.
    pub open spec fn accepts(self, event: Event) -> bool {
        match self.waiting {
            Waiting::Load => event is Loaded,
            Waiting::Bump => event is Swapped,
            Waiting::ClaimTracing { .. } => event is Swapped,
            Waiting::Start { .. } => event is TracerStarted || event is TracerBusy,
            Waiting::Stop { .. } => event is TraceTaken || event is TracerIdle,
            Waiting::ClaimCompiling => event is Swapped,
            Waiting::Done => false,
        }
    }

    /// The same control point, now waiting for `waiting`.
    pub open spec fn waiting_for(self, waiting: Waiting) -> ControlPoint {
        ControlPoint { hot_threshold: self.hot_threshold, holds_trace: self.holds_trace, waiting }
    }

    /// The decision on a loaded pack `lp`: bump a cold count, claim a hot location for tracing,
    /// stop tracing (or, with a trace in hand, claim the location for compiling), wait for a
    /// compilation, or execute the compiled trace.
    pub open spec fn on_load(self, lp: u32) -> (ControlPoint, Action) {
        match phase_of(lp) {
            Phase::Counting(count) => if count >= self.hot_threshold {
                (
                    self.waiting_for(Waiting::ClaimTracing { count }),
                    Action::Swap { current: lp, new: PHASE_TRACING },
                )
            } else {
                (self.waiting_for(Waiting::Bump), Action::Swap { current: lp, new: bumped_pack(count) })
            },
            Phase::Tracing => if self.holds_trace {
                (
                    self.waiting_for(Waiting::ClaimCompiling),
                    Action::Swap { current: lp, new: PHASE_COMPILING },
                )
            } else {
                (self.waiting_for(Waiting::Stop { current: lp }), Action::StopTracer)
            },
            Phase::Compiling => (self.waiting_for(Waiting::Done), Action::Finish),
            Phase::Compiled(_) => (self.waiting_for(Waiting::Done), Action::Execute(lp)),
        }
    }

    /// The next state and action after `event`. A lost compare-and-swap starts over with a
    /// fresh load; a busy tracer puts the count back.
    pub open spec fn spec_step(self, event: Event) -> (ControlPoint, Action) {
        match self.waiting {
            Waiting::Load => match event {
                Event::Loaded(lp) => self.on_load(lp),
                _ => (self, Action::Finish),
            },
            Waiting::Bump => match event {
                Event::Swapped(true) => (self.waiting_for(Waiting::Done), Action::Finish),
                _ => (self.waiting_for(Waiting::Load), Action::Load),
            },
            Waiting::ClaimTracing { count } => match event {
                Event::Swapped(true) => (self.waiting_for(Waiting::Start { count }), Action::StartTracer),
                _ => (self.waiting_for(Waiting::Load), Action::Load),
            },
            Waiting::Start { count } => match event {
                Event::TracerStarted => (self.waiting_for(Waiting::Done), Action::Finish),
                _ => (
                    self.waiting_for(Waiting::Done),
                    Action::Restore(Phase::Counting(count).spec_pack()),
                ),
            },
            Waiting::Stop { current } => match event {
                Event::TraceTaken => (
                    ControlPoint {
                        hot_threshold: self.hot_threshold,
                        holds_trace: true,
                        waiting: Waiting::ClaimCompiling,
                    },
                    Action::Swap { current, new: PHASE_COMPILING },
                ),
                _ => (self.waiting_for(Waiting::Done), Action::Finish),
            },
            Waiting::ClaimCompiling => match event {
                Event::Swapped(true) => (self.waiting_for(Waiting::Done), Action::Compile),
                _ => (self.waiting_for(Waiting::Load), Action::Load),
            },
            Waiting::Done => (self, Action::Finish),
        }
    }

    /// The control point before anything is known, and its first action.
    pub open spec fn spec_start(hot_threshold: HotThreshold) -> (ControlPoint, Action) {
        (ControlPoint { hot_threshold, holds_trace: false, waiting: Waiting::Load }, Action::Load)
    }

    /// Starts a pass over a location for a meta-tracer with this hot threshold.
    pub fn start(hot_threshold: HotThreshold) -> (r: (ControlPoint, Action))
        ensures
            r == Self::spec_start(hot_threshold),
            r.0.wf(),
    {
        (ControlPoint { hot_threshold, holds_trace: false, waiting: Waiting::Load }, Action::Load)
    }

    /// Whether the control point waits for an event of this kind.
    pub fn expects(&self, event: Event) -> (r: bool)
        ensures
            r == self.accepts(event),
    {
        match self.waiting {
            Waiting::Load => matches!(event, Event::Loaded(_)),
            Waiting::Bump => matches!(event, Event::Swapped(_)),
            Waiting::ClaimTracing { .. } => matches!(event, Event::Swapped(_)),
            Waiting::Start { .. } => matches!(event, Event::TracerStarted | Event::TracerBusy),
            Waiting::Stop { .. } => matches!(event, Event::TraceTaken | Event::TracerIdle),
            Waiting::ClaimCompiling => matches!(event, Event::Swapped(_)),
            Waiting::Done => false,
        }
    }

    /// Takes in the outcome of the last action and decides the next one.
    pub fn step(&mut self, event: Event) -> (action: Action)
        requires
            old(self).wf(),
            old(self).accepts(event),
        ensures
            final(self).wf(),
            *final(self) == old(self).spec_step(event).0,
            action == old(self).spec_step(event).1,
    {
        match self.waiting {
            Waiting::Load => {
                let lp: u32 = match event {
                    Event::Loaded(lp) => lp,
                    _ => 0,
                };
                match Phase::unpack(lp) {
                    Phase::Counting(count) => {
                        if count >= self.hot_threshold {
                            self.waiting = Waiting::ClaimTracing { count };
                            Action::Swap { current: lp, new: PHASE_TRACING }
                        } else {
                            let next: u32 = count + 1;
                            assert(count < 0x4000_0000u32 ==> ((0x8000_0000u32 | next) as int)
                                == (if next < 0x4000_0000u32 {
                                0x8000_0000u32 + next
                            } else {
                                0xC000_0000u32 as int
                            })) by (bit_vector)
                                requires
                                    next == count + 1,
                            ;
                            self.waiting = Waiting::Bump;
                            Action::Swap { current: lp, new: PHASE_COUNTING | next }
                        }
                    },
                    Phase::Tracing => {
                        if self.holds_trace {
                            self.waiting = Waiting::ClaimCompiling;
                            Action::Swap { current: lp, new: PHASE_COMPILING }
                        } else {
                            self.waiting = Waiting::Stop { current: lp };
                            Action::StopTracer
                        }
                    },
                    Phase::Compiling => {
                        self.waiting = Waiting::Done;
                        Action::Finish
                    },
                    Phase::Compiled(_) => {
                        self.waiting = Waiting::Done;
                        Action::Execute(lp)
                    },
                }
            },
            Waiting::Bump => {
                if event == Event::Swapped(true) {
                    self.waiting = Waiting::Done;
                    Action::Finish
                } else {
                    self.waiting = Waiting::Load;
                    Action::Load
                }
            },
            Waiting::ClaimTracing { count } => {
                if event == Event::Swapped(true) {
                    self.waiting = Waiting::Start { count };
                    Action::StartTracer
                } else {
                    self.waiting = Waiting::Load;
                    Action::Load
                }
            },
            Waiting::Start { count } => {
                self.waiting = Waiting::Done;
                if event == Event::TracerStarted {
                    Action::Finish
                } else {
                    Action::Restore(Phase::Counting(count).pack())
                }
            },
            Waiting::Stop { current } => {
                if event == Event::TraceTaken {
                    self.holds_trace = true;
                    self.waiting = Waiting::ClaimCompiling;
                    Action::Swap { current, new: PHASE_COMPILING }
                } else {
                    self.waiting = Waiting::Done;
                    Action::Finish
                }
            },
            Waiting::ClaimCompiling => {
                if event == Event::Swapped(true) {
                    self.waiting = Waiting::Done;
                    Action::Compile
                } else {
                    self.waiting = Waiting::Load;
                    Action::Load
                }
            },
            Waiting::Done => Action::Finish,
        }
    }
}


/// Performs `action` on a location that no other thread touches, with this thread's tracer
/// tracing or not, and feeds the outcome back to the control point until it is done (or `fuel`
/// runs out): the pack afterwards, whether the tracer is tracing afterwards, and the last action.
pub open spec fn run_alone(
    cp: ControlPoint,
    action: Action,
    pack: u32,
    tracing: bool,
    fuel: nat,
) -> (u32, bool, Action)
    decreases fuel,
{
    if fuel == 0 {
        (pack, tracing, action)
    } else {
        let rest: nat = (fuel - 1) as nat;
        match action {
            Action::Load => {
                let (next, act) = cp.spec_step(Event::Loaded(pack));
                run_alone(next, act, pack, tracing, rest)
            },
            Action::Swap { current, new } => if pack == current {
                let (next, act) = cp.spec_step(Event::Swapped(true));
                run_alone(next, act, new, tracing, rest)
            } else {
                let (next, act) = cp.spec_step(Event::Swapped(false));
                run_alone(next, act, pack, tracing, rest)
            },
            Action::StartTracer => if tracing {
                let (next, act) = cp.spec_step(Event::TracerBusy);
                run_alone(next, act, pack, true, rest)
            } else {
                let (next, act) = cp.spec_step(Event::TracerStarted);
                run_alone(next, act, pack, true, rest)
            },
            Action::StopTracer => if tracing {
                let (next, act) = cp.spec_step(Event::TraceTaken);
                run_alone(next, act, pack, false, rest)
            } else {
                let (next, act) = cp.spec_step(Event::TracerIdle);
                run_alone(next, act, pack, false, rest)
            },
            Action::Restore(value) => (value, tracing, action),
            _ => (pack, tracing, action),
        }
    }
}

/// Decoding an encoded phase gives the phase back.
pub proof fn lemma_phase_of_pack(phase: Phase)
    requires
        phase.fits(),
    ensures
        phase_of(phase.spec_pack()) == phase,
{
}

/// Encoding a decoded pack gives the pack back, unless the pack is tagged `Tracing` or
/// `Compiling` and has payload bits set (which no control point writes).
pub proof fn lemma_pack_of_phase(pack: u32)
    ensures
        phase_of(pack).fits(),
        phase_of(pack).spec_pack() == pack <==> (phase_of(pack) is Counting || phase_of(pack) is Compiled
            || pack % PAYLOAD_LIMIT == 0),
{
}

/// A pass of one thread over a location that no other thread touches: a cold location counts
/// one more pass; a hot one starts tracing, unless this thread's tracer is busy, in which case
/// the location keeps its count; a location traced by this thread is claimed for compiling and
/// its trace handed over; one traced by another thread, or being compiled, is left as it is;
/// a compiled one has its trace executed.
pub proof fn lemma_control_point_alone(hot_threshold: HotThreshold, pack: u32, tracing: bool)
    ensures
        ({
            let (cp, first) = ControlPoint::spec_start(hot_threshold);
            let (after, tracing_after, last) = run_alone(cp, first, pack, tracing, 4);
            match phase_of(pack) {
                Phase::Counting(count) => if count < hot_threshold {
                    after == bumped_pack(count) && tracing_after == tracing && last == Action::Finish
                } else if !tracing {
                    after == PHASE_TRACING && tracing_after && last == Action::Finish
                } else {
                    after == pack && tracing_after && last == Action::Restore(pack)
                },
                Phase::Tracing => if tracing {
                    after == PHASE_COMPILING && !tracing_after && last == Action::Compile
                } else {
                    after == pack && !tracing_after && last == Action::Finish
                },
                Phase::Compiling => after == pack && tracing_after == tracing && last
                    == Action::Finish,
                Phase::Compiled(index) => after == pack && tracing_after == tracing && last
                    == Action::Execute(index),
            }
        }),
{
    reveal_with_fuel(run_alone, 5);
    lemma_pack_of_phase(pack);
}


/// A location's pack moves from `from` to `to` by one step of the phase order, for a
/// meta-tracer with hot threshold `hot_threshold`: a count below the threshold by one more
/// pass, a count at or above it to tracing, or tracing to compiling. So no count that a
/// control point writes exceeds the threshold.
pub open spec fn advances(hot_threshold: HotThreshold, from: u32, to: u32) -> bool {
    match (phase_of(from), phase_of(to)) {
        (Phase::Counting(c), Phase::Counting(d)) => c < hot_threshold && d == c + 1,
        (Phase::Counting(c), Phase::Tracing) => c >= hot_threshold,
        (Phase::Tracing, Phase::Compiling) => true,
        _ => false,
    }
}

/// Every compare-and-swap that a control point asks for moves the location one step forward in
/// the phase order, from the value it last read.
pub proof fn lemma_swaps_advance(cp: ControlPoint, event: Event)
    requires
        cp.wf(),
        cp.accepts(event),
        cp.hot_threshold < PAYLOAD_LIMIT,
    ensures
        match cp.spec_step(event).1 {
            Action::Swap { current, new } => advances(cp.hot_threshold, current, new),
            _ => true,
        },
{
}

/// A location claimed for tracing and given back because this thread's tracer was busy holds
/// again exactly the pack it held when it was claimed.
pub proof fn lemma_busy_tracer_gives_back(cp: ControlPoint, lp: u32)
    requires
        cp.wf(),
        cp.waiting is Load,
    ensures
        ({
            let (claimed, claim) = cp.spec_step(Event::Loaded(lp));
            let (started, start) = claimed.spec_step(Event::Swapped(true));
            let (done, last) = started.spec_step(Event::TracerBusy);
            claim == (Action::Swap { current: lp, new: PHASE_TRACING }) ==> start
                == Action::StartTracer && last == Action::Restore(lp)
        }),
{
    lemma_pack_of_phase(lp);
}


/// The tracer is driven only as the location's phase allows: tracing starts only right after
/// this thread claimed the location for tracing, a count is given back only when this
/// thread's tracer was found busy, and once a trace is in hand the tracer is
/// never stopped again in the same pass. No compare-and-swap ever starts from a location that
/// is being compiled or is compiled.
pub proof fn lemma_tracer_discipline(cp: ControlPoint, event: Event)
    requires
        cp.wf(),
        cp.accepts(event),
    ensures
        cp.spec_step(event).1 == Action::StartTracer ==> cp.waiting is ClaimTracing && event
            == Event::Swapped(true),
        cp.spec_step(event).1 is Restore ==> cp.waiting is Start && event == Event::TracerBusy,
        cp.holds_trace ==> cp.spec_step(event).0.holds_trace && cp.spec_step(event).1
            != Action::StopTracer,
        match cp.spec_step(event).1 {
            Action::Swap { current, new } => phase_of(current) is Counting || phase_of(
                current,
            ) is Tracing,
            _ => true,
        },
{
}


/// One thread's pass over a location: its control point and the action it is to perform next.
pub struct Pass {
    pub cp: ControlPoint,
    pub action: Action,
}

/// The pass is over.
pub open spec fn pass_done(pass: Pass) -> bool {
    pass.action == Action::Finish
}

/// One thread performs its next action atomically on the shared pack, with its own tracer
/// (tracing or not), and hands the outcome to its control point: a compare-and-swap takes only
/// if the pack still holds `current`. A pass that is over does nothing; storing, compiling and
/// executing end the pass (the compiled trace's index is stored later, by the compiling thread).
pub open spec fn perform(pass: Pass, pack: u32, tracing: bool) -> (Pass, u32, bool) {
    match pass.action {
        Action::Load => {
            let (cp, action) = pass.cp.spec_step(Event::Loaded(pack));
            (Pass { cp, action }, pack, tracing)
        },
        Action::Swap { current, new } => if pack == current {
            let (cp, action) = pass.cp.spec_step(Event::Swapped(true));
            (Pass { cp, action }, new, tracing)
        } else {
            let (cp, action) = pass.cp.spec_step(Event::Swapped(false));
            (Pass { cp, action }, pack, tracing)
        },
        Action::StartTracer => if tracing {
            let (cp, action) = pass.cp.spec_step(Event::TracerBusy);
            (Pass { cp, action }, pack, true)
        } else {
            let (cp, action) = pass.cp.spec_step(Event::TracerStarted);
            (Pass { cp, action }, pack, true)
        },
        Action::StopTracer => if tracing {
            let (cp, action) = pass.cp.spec_step(Event::TraceTaken);
            (Pass { cp, action }, pack, false)
        } else {
            let (cp, action) = pass.cp.spec_step(Event::TracerIdle);
            (Pass { cp, action }, pack, false)
        },
        Action::Restore(value) => (Pass { cp: pass.cp, action: Action::Finish }, value, tracing),
        Action::Compile => (Pass { cp: pass.cp, action: Action::Finish }, pack, tracing),
        Action::Execute(_) => (Pass { cp: pass.cp, action: Action::Finish }, pack, tracing),
        Action::Finish => (pass, pack, tracing),
    }
}

/// Threads making passes over one location: the location's pack, each thread's pass, and
/// whether each thread's tracer is tracing.
pub struct Threads {
    pub pack: u32,
    pub passes: Seq<Pass>,
    pub tracing: Seq<bool>,
}

/// Thread `t` performs its next action; the others wait.
pub open spec fn schedule_step(threads: Threads, t: int) -> Threads {
    if 0 <= t < threads.passes.len() && threads.tracing.len() == threads.passes.len() {
        let (pass, pack, tracing) = perform(threads.passes[t], threads.pack, threads.tracing[t]);
        Threads {
            pack,
            passes: threads.passes.update(t, pass),
            tracing: threads.tracing.update(t, tracing),
        }
    } else {
        threads
    }
}

/// The threads perform actions in the order that `schedule` gives: any interleaving of the
/// passes.
pub open spec fn run_schedule(threads: Threads, schedule: Seq<int>) -> Threads
    decreases schedule.len(),
{
    if schedule.len() == 0 {
        threads
    } else {
        run_schedule(schedule_step(threads, schedule[0]), schedule.drop_first())
    }
}

/// `n` passes, each just started for a meta-tracer with hot threshold `hot_threshold`.
pub open spec fn fresh_passes(hot_threshold: HotThreshold, n: nat) -> Seq<Pass> {
    Seq::new(
        n,
        |i: int|
            Pass {
                cp: ControlPoint::spec_start(hot_threshold).0,
                action: ControlPoint::spec_start(hot_threshold).1,
            },
    )
}

/// The number of passes that are over.
pub open spec fn count_done(passes: Seq<Pass>) -> nat
    decreases passes.len(),
{
    if passes.len() == 0 {
        0
    } else {
        count_done(passes.drop_last()) + if pass_done(passes.last()) {
            1nat
        } else {
            0nat
        }
    }
}

proof fn lemma_count_done_update(passes: Seq<Pass>, t: int, pass: Pass)
    requires
        0 <= t < passes.len(),
    ensures
        count_done(passes.update(t, pass)) + (if pass_done(passes[t]) {
            1int
        } else {
            0int
        }) == count_done(passes) + (if pass_done(pass) {
            1int
        } else {
            0int
        }),
    decreases passes.len(),
{
    let updated = passes.update(t, pass);
    if t == passes.len() - 1 {
        assert(updated.drop_last() =~= passes.drop_last());
    } else {
        assert(updated.drop_last() =~= passes.drop_last().update(t, pass));
        lemma_count_done_update(passes.drop_last(), t, pass);
    }
}

proof fn lemma_count_done_bound(passes: Seq<Pass>, t: int)
    requires
        0 <= t < passes.len(),
        !pass_done(passes[t]),
    ensures
        count_done(passes) < passes.len(),
    decreases passes.len(),
{
    lemma_count_done_le(passes.drop_last());
    if t < passes.len() - 1 {
        lemma_count_done_bound(passes.drop_last(), t);
    }
}

proof fn lemma_count_done_le(passes: Seq<Pass>)
    ensures
        count_done(passes) <= passes.len(),
    decreases passes.len(),
{
    if passes.len() > 0 {
        lemma_count_done_le(passes.drop_last());
    }
}

proof fn lemma_fresh_none_done(hot_threshold: HotThreshold, n: nat)
    ensures
        count_done(fresh_passes(hot_threshold, n)) == 0,
    decreases n,
{
    if n > 0 {
        assert(fresh_passes(hot_threshold, n).drop_last() =~= fresh_passes(
            hot_threshold,
            (n - 1) as nat,
        ));
        lemma_fresh_none_done(hot_threshold, (n - 1) as nat);
    }
}

/// A pass of a counting phase: about to load, waiting to bump a count it read, or over.
pub open spec fn counting_pass(pass: Pass, hot_threshold: HotThreshold) -> bool {
    &&& pass.cp.hot_threshold == hot_threshold
    &&& !pass.cp.holds_trace
    &&& {
        ||| pass.cp.waiting == Waiting::Load && pass.action == Action::Load
        ||| pass.cp.waiting == Waiting::Bump && (pass.action matches Action::Swap { current, new }
            && phase_of(current) is Counting && new == bumped_pack(phase_of(current)->Counting_0))
        ||| pass.cp.waiting == Waiting::Done && pass.action == Action::Finish
    }
}

/// Passes that started at count `start` and all count: the pack holds `start` plus the number
/// of passes that are over.
pub open spec fn counting_threads(threads: Threads, hot_threshold: HotThreshold, start: u32, tracing: Seq<bool>) -> bool {
    &&& threads.tracing == tracing
    &&& threads.passes.len() == tracing.len()
    &&& start + tracing.len() <= hot_threshold < PAYLOAD_LIMIT
    &&& threads.pack == Phase::Counting((start + count_done(threads.passes)) as u32).spec_pack()
    &&& forall|t: int| 0 <= t < threads.passes.len() ==> counting_pass(#[trigger] threads.passes[t], hot_threshold)
}

proof fn lemma_counting_step(threads: Threads, hot_threshold: HotThreshold, start: u32, tracing: Seq<bool>, t: int)
    requires
        counting_threads(threads, hot_threshold, start, tracing),
    ensures
        counting_threads(schedule_step(threads, t), hot_threshold, start, tracing),
{
    if 0 <= t < threads.passes.len() {
        let pass = threads.passes[t];
        let (next, pack, tr) = perform(pass, threads.pack, threads.tracing[t]);
        let after = schedule_step(threads, t);
        let done = count_done(threads.passes);
        lemma_count_done_update(threads.passes, t, next);
        if !pass_done(pass) {
            lemma_count_done_bound(threads.passes, t);
        }
        assert(tr == threads.tracing[t]);
        assert(after.tracing =~= tracing);
        assert(counting_pass(next, hot_threshold));
        assert forall|u: int| 0 <= u < after.passes.len() implies counting_pass(
            #[trigger] after.passes[u],
            hot_threshold,
        ) by {
            if u != t {
                assert(after.passes[u] == threads.passes[u]);
            }
        }
    }
}

proof fn lemma_counting_run(threads: Threads, hot_threshold: HotThreshold, start: u32, tracing: Seq<bool>, schedule: Seq<int>)
    requires
        counting_threads(threads, hot_threshold, start, tracing),
    ensures
        counting_threads(run_schedule(threads, schedule), hot_threshold, start, tracing),
    decreases schedule.len(),
{
    if schedule.len() > 0 {
        lemma_counting_step(threads, hot_threshold, start, tracing, schedule[0]);
        lemma_counting_run(
            schedule_step(threads, schedule[0]),
            hot_threshold,
            start,
            tracing,
            schedule.drop_first(),
        );
    }
}

/// Passes of many threads over one location lose no count, however they interleave: started
/// at count `start`, with at most `hot_threshold - start` passes, the pack always holds `start`
/// plus the number of passes that are over, each pass over added exactly one, and no tracer is
/// touched. When every pass is over, the count is `start` plus the number of passes, and if
/// that is the hot threshold, the next pass (with a free tracer) starts tracing.
pub proof fn lemma_counting_passes_lose_nothing(
    hot_threshold: HotThreshold,
    start: u32,
    tracing: Seq<bool>,
    schedule: Seq<int>,
)
    requires
        start + tracing.len() <= hot_threshold < PAYLOAD_LIMIT,
    ensures
        ({
            let n = tracing.len();
            let end = run_schedule(
                Threads {
                    pack: Phase::Counting(start).spec_pack(),
                    passes: fresh_passes(hot_threshold, n),
                    tracing,
                },
                schedule,
            );
            &&& end.pack == Phase::Counting((start + count_done(end.passes)) as u32).spec_pack()
            &&& end.tracing == tracing
            &&& end.passes.len() == n
            &&& forall|t: int|
                0 <= t < n ==> (#[trigger] end.passes[t]).action is Load || end.passes[t].action is Swap
                    || end.passes[t].action == Action::Finish
            &&& count_done(end.passes) == n ==> end.pack == Phase::Counting(
                (start + n) as u32,
            ).spec_pack()
            &&& count_done(end.passes) == n && start + n == hot_threshold ==> run_alone(
                ControlPoint::spec_start(hot_threshold).0,
                ControlPoint::spec_start(hot_threshold).1,
                end.pack,
                false,
                4,
            ).0 == PHASE_TRACING
        }),
{
    let n = tracing.len();
    let begin = Threads {
        pack: Phase::Counting(start).spec_pack(),
        passes: fresh_passes(hot_threshold, n),
        tracing,
    };
    lemma_fresh_none_done(hot_threshold, n);
    assert(counting_threads(begin, hot_threshold, start, tracing));
    lemma_counting_run(begin, hot_threshold, start, tracing, schedule);
    let end = run_schedule(begin, schedule);
    assert forall|t: int| 0 <= t < n implies (#[trigger] end.passes[t]).action is Load
        || end.passes[t].action is Swap || end.passes[t].action == Action::Finish by {
        assert(counting_pass(end.passes[t], hot_threshold));
    }
    lemma_count_done_le(end.passes);
    lemma_phase_of_pack(Phase::Counting((start + count_done(end.passes)) as u32));
    lemma_control_point_alone(hot_threshold, end.pack, false);
}


/// A pack that control points of a meta-tracer with hot threshold `hot_threshold` can leave in
/// a location: a count no greater than the threshold, tracing, compiling (each without payload
/// bits), or a compiled trace.
pub open spec fn valid_pack(pack: u32, hot_threshold: HotThreshold) -> bool {
    match phase_of(pack) {
        Phase::Counting(count) => count <= hot_threshold,
        Phase::Tracing => pack == PHASE_TRACING,
        Phase::Compiling => pack == PHASE_COMPILING,
        Phase::Compiled(_) => true,
    }
}

/// What a pass in progress may still write is a valid pack.
pub open spec fn pass_ok(pass: Pass, hot_threshold: HotThreshold) -> bool {
    &&& pass.cp.hot_threshold == hot_threshold
    &&& pass.cp.wf()
    &&& match pass.cp.waiting {
        Waiting::Load => pass.action == Action::Load,
        Waiting::Bump => pass.action matches Action::Swap { current, new } && phase_of(
            current,
        ) is Counting && phase_of(current)->Counting_0 < hot_threshold && new == bumped_pack(
            phase_of(current)->Counting_0,
        ),
        Waiting::ClaimTracing { count } => hot_threshold <= count <= hot_threshold
            && pass.action == (Action::Swap {
            current: Phase::Counting(count).spec_pack(),
            new: PHASE_TRACING,
        }),
        Waiting::Start { count } => hot_threshold <= count <= hot_threshold && pass.action
            == Action::StartTracer,
        Waiting::Stop { current } => current == PHASE_TRACING && pass.action == Action::StopTracer,
        Waiting::ClaimCompiling => pass.action == (Action::Swap {
            current: PHASE_TRACING,
            new: PHASE_COMPILING,
        }),
        Waiting::Done => pass.action == Action::Finish || pass.action is Compile
            || pass.action is Execute || (pass.action matches Action::Restore(v) && valid_pack(
            v,
            hot_threshold,
        )),
    }
}

/// Threads whose passes are all in order, over a valid pack.
pub open spec fn threads_ok(threads: Threads, hot_threshold: HotThreshold) -> bool {
    &&& hot_threshold < PAYLOAD_LIMIT
    &&& threads.tracing.len() == threads.passes.len()
    &&& valid_pack(threads.pack, hot_threshold)
    &&& forall|t: int| 0 <= t < threads.passes.len() ==> pass_ok(#[trigger] threads.passes[t], hot_threshold)
}

proof fn lemma_perform_ok(pass: Pass, pack: u32, tracing: bool, hot_threshold: HotThreshold)
    requires
        hot_threshold < PAYLOAD_LIMIT,
        pass_ok(pass, hot_threshold),
        valid_pack(pack, hot_threshold),
    ensures
        pass_ok(perform(pass, pack, tracing).0, hot_threshold),
        valid_pack(perform(pass, pack, tracing).1, hot_threshold),
{
    lemma_pack_of_phase(pack);
    match phase_of(pack) {
        Phase::Counting(c) => {
            lemma_phase_of_pack(Phase::Counting(c));
            if c + 1 < PAYLOAD_LIMIT {
                lemma_phase_of_pack(Phase::Counting((c + 1) as u32));
            }
        },
        _ => {},
    }
    match pass.action {
        Action::Swap { current, new } => {
            lemma_pack_of_phase(current);
            match pass.cp.waiting {
                Waiting::Bump => {
                    let k = phase_of(current)->Counting_0;
                    lemma_phase_of_pack(Phase::Counting((k + 1) as u32));
                },
                Waiting::ClaimTracing { count } => {
                    lemma_phase_of_pack(Phase::Counting(count));
                },
                _ => {},
            }
        },
        Action::StartTracer => {
            if let Waiting::Start { count } = pass.cp.waiting {
                lemma_phase_of_pack(Phase::Counting(count));
            }
        },
        _ => {},
    }
}

/// Control points never leave a location in a pack that no pass should see, however the
/// passes of many threads interleave, whichever tracers are busy: counts never exceed the hot
/// threshold, and tracing and compiling packs carry no payload bits.
pub proof fn lemma_interleaved_packs_stay_valid(
    hot_threshold: HotThreshold,
    pack: u32,
    tracing: Seq<bool>,
    schedule: Seq<int>,
)
    requires
        hot_threshold < PAYLOAD_LIMIT,
        valid_pack(pack, hot_threshold),
    ensures
        valid_pack(
            run_schedule(
                Threads { pack, passes: fresh_passes(hot_threshold, tracing.len()), tracing },
                schedule,
            ).pack,
            hot_threshold,
        ),
{
    let begin = Threads { pack, passes: fresh_passes(hot_threshold, tracing.len()), tracing };
    assert(threads_ok(begin, hot_threshold));
    lemma_threads_ok_run_any(begin, hot_threshold, schedule);
}



/// Running one schedule and then another is running the two one after the other.
pub proof fn lemma_run_schedule_concat(threads: Threads, first: Seq<int>, then: Seq<int>)
    ensures
        run_schedule(threads, first + then) == run_schedule(run_schedule(threads, first), then),
    decreases first.len(),
{
    if first.len() > 0 {
        assert((first + then).drop_first() =~= first.drop_first() + then);
        assert((first + then)[0] == first[0]);
        lemma_run_schedule_concat(schedule_step(threads, first[0]), first.drop_first(), then);
    } else {
        assert(first + then =~= then);
    }
}

/// A pass that is over stays over, and the number of passes over never falls.
proof fn lemma_done_stays(threads: Threads, schedule: Seq<int>)
    requires
        threads.tracing.len() == threads.passes.len(),
    ensures
        run_schedule(threads, schedule).passes.len() == threads.passes.len(),
        run_schedule(threads, schedule).tracing.len() == threads.passes.len(),
        count_done(run_schedule(threads, schedule).passes) >= count_done(threads.passes),
        forall|t: int|
            0 <= t < threads.passes.len() && pass_done(threads.passes[t]) ==> #[trigger] pass_done(
                run_schedule(threads, schedule).passes[t],
            ),
    decreases schedule.len(),
{
    if schedule.len() > 0 {
        let t = schedule[0];
        let after = schedule_step(threads, t);
        if 0 <= t < threads.passes.len() {
            let (next, pack, tr) = perform(threads.passes[t], threads.pack, threads.tracing[t]);
            lemma_count_done_update(threads.passes, t, next);
        }
        lemma_done_stays(after, schedule.drop_first());
        assert forall|u: int|
            0 <= u < threads.passes.len() && pass_done(threads.passes[u]) implies #[trigger] pass_done(
            run_schedule(threads, schedule).passes[u],
        ) by {
            assert(pass_done(after.passes[u]));
        }
    }
}

/// Counts never fall: of two moments of the same counting passes (the second after running
/// `later` more), the later count is `start` plus the passes over by then, at least the
/// earlier one; each pass that ends in between adds one. So a thread that reads the count after
/// each of its passes reads counts that rise strictly.
pub proof fn lemma_counts_never_fall(
    hot_threshold: HotThreshold,
    start: u32,
    tracing: Seq<bool>,
    earlier: Seq<int>,
    later: Seq<int>,
    t: int,
)
    requires
        start + tracing.len() <= hot_threshold < PAYLOAD_LIMIT,
        0 <= t < tracing.len(),
    ensures
        ({
            let begin = Threads {
                pack: Phase::Counting(start).spec_pack(),
                passes: fresh_passes(hot_threshold, tracing.len()),
                tracing,
            };
            let a = run_schedule(begin, earlier);
            let b = run_schedule(begin, earlier + later);
            &&& phase_of(a.pack) == Phase::Counting((start + count_done(a.passes)) as u32)
            &&& phase_of(b.pack) == Phase::Counting((start + count_done(b.passes)) as u32)
            &&& count_done(a.passes) <= count_done(b.passes)
            &&& pass_done(a.passes[t]) ==> pass_done(b.passes[t])
            &&& !pass_done(a.passes[t]) && pass_done(b.passes[t]) ==> count_done(a.passes) + 1
                <= count_done(b.passes)
        }),
{
    let n = tracing.len();
    let begin = Threads {
        pack: Phase::Counting(start).spec_pack(),
        passes: fresh_passes(hot_threshold, n),
        tracing,
    };
    let a = run_schedule(begin, earlier);
    lemma_run_schedule_concat(begin, earlier, later);
    lemma_fresh_none_done(hot_threshold, n);
    assert(counting_threads(begin, hot_threshold, start, tracing));
    lemma_counting_run(begin, hot_threshold, start, tracing, earlier);
    lemma_counting_run(a, hot_threshold, start, tracing, later);
    let b = run_schedule(a, later);
    lemma_done_stays(a, later);
    lemma_count_done_le(a.passes);
    lemma_count_done_le(b.passes);
    lemma_phase_of_pack(Phase::Counting((start + count_done(a.passes)) as u32));
    lemma_phase_of_pack(Phase::Counting((start + count_done(b.passes)) as u32));
    if !pass_done(a.passes[t]) && pass_done(b.passes[t]) {
        lemma_done_grows(a, later, t);
    }
}

/// A pass that ends during a schedule adds one to the passes over, beyond those over before.
proof fn lemma_done_grows(threads: Threads, schedule: Seq<int>, t: int)
    requires
        threads.tracing.len() == threads.passes.len(),
        0 <= t < threads.passes.len(),
        !pass_done(threads.passes[t]),
        pass_done(run_schedule(threads, schedule).passes[t]),
    ensures
        count_done(threads.passes) + 1 <= count_done(run_schedule(threads, schedule).passes),
    decreases schedule.len(),
{
    if schedule.len() > 0 {
        let u = schedule[0];
        let after = schedule_step(threads, u);
        if 0 <= u < threads.passes.len() {
            let (next, pack, tr) = perform(threads.passes[u], threads.pack, threads.tracing[u]);
            lemma_count_done_update(threads.passes, u, next);
        }
        if pass_done(after.passes[t]) {
            lemma_done_stays(after, schedule.drop_first());
        } else {
            lemma_done_grows(after, schedule.drop_first(), t);
        }
    }
}

/// Every tracer that is tracing belongs to a pass that is over, and no pass is about to give a
/// location back.
pub open spec fn tracers_owned(threads: Threads) -> bool {
    &&& forall|t: int|
        0 <= t < threads.passes.len() && #[trigger] threads.tracing[t] ==> threads.passes[t].action
            == Action::Finish
    &&& forall|t: int| 0 <= t < threads.passes.len() ==> !(#[trigger] threads.passes[t].action is Restore)
}

/// One action of any thread keeps the threads in order, and leaves the pack as it was, moves
/// it one step forward, or is a pass giving a count back.
proof fn lemma_step_moves_forward(threads: Threads, hot_threshold: HotThreshold, t: int)
    requires
        threads_ok(threads, hot_threshold),
    ensures
        threads_ok(schedule_step(threads, t), hot_threshold),
        schedule_step(threads, t).pack == threads.pack || advances(
            hot_threshold,
            threads.pack,
            schedule_step(threads, t).pack,
        ) || (0 <= t < threads.passes.len() && threads.passes[t].action is Restore),
{
    let after = schedule_step(threads, t);
    if 0 <= t < threads.passes.len() {
        let pass = threads.passes[t];
        lemma_perform_ok(pass, threads.pack, threads.tracing[t], hot_threshold);
        assert forall|u: int| 0 <= u < after.passes.len() implies pass_ok(
            #[trigger] after.passes[u],
            hot_threshold,
        ) by {
            if u != t {
                assert(after.passes[u] == threads.passes[u]);
            }
        }
        match pass.action {
            Action::Swap { current, new } => {
                if threads.pack == current {
                    lemma_pack_of_phase(current);
                    match pass.cp.waiting {
                        Waiting::Bump => {
                            let k = phase_of(current)->Counting_0;
                            lemma_phase_of_pack(Phase::Counting((k + 1) as u32));
                        },
                        Waiting::ClaimTracing { count } => {
                            lemma_phase_of_pack(Phase::Counting(count));
                        },
                        _ => {},
                    }
                }
            },
            _ => {},
        }
    }
}

proof fn lemma_step_advances(threads: Threads, hot_threshold: HotThreshold, t: int)
    requires
        threads_ok(threads, hot_threshold),
        tracers_owned(threads),
    ensures
        threads_ok(schedule_step(threads, t), hot_threshold),
        tracers_owned(schedule_step(threads, t)),
        schedule_step(threads, t).pack == threads.pack || advances(
            hot_threshold,
            threads.pack,
            schedule_step(threads, t).pack,
        ),
{
    let after = schedule_step(threads, t);
    lemma_step_moves_forward(threads, hot_threshold, t);
    if 0 <= t < threads.passes.len() {
        let pass = threads.passes[t];
        lemma_perform_ok(pass, threads.pack, threads.tracing[t], hot_threshold);
        assert forall|u: int| 0 <= u < after.passes.len() && #[trigger] after.tracing[u] implies after.passes[u].action
            == Action::Finish by {
            if u != t {
                assert(after.passes[u] == threads.passes[u]);
                assert(after.tracing[u] == threads.tracing[u]);
            }
        }
        assert forall|u: int| 0 <= u < after.passes.len() implies !(#[trigger] after.passes[u].action is Restore) by {
            if u != t {
                assert(after.passes[u] == threads.passes[u]);
            }
        }
    }
}

proof fn lemma_threads_ok_run_any(threads: Threads, hot_threshold: HotThreshold, schedule: Seq<int>)
    requires
        threads_ok(threads, hot_threshold),
    ensures
        threads_ok(run_schedule(threads, schedule), hot_threshold),
    decreases schedule.len(),
{
    if schedule.len() > 0 {
        lemma_step_moves_forward(threads, hot_threshold, schedule[0]);
        lemma_threads_ok_run_any(schedule_step(threads, schedule[0]), hot_threshold, schedule.drop_first());
    }
}

/// Whichever tracers are busy and however the passes interleave, a location only moves
/// forward except where a pass gives a count back: each action leaves the pack as it was,
/// moves it one step of the phase order, or is a restore, which a pass performs only after it
/// claimed the location for tracing and found its own tracer busy (`lemma_tracer_discipline`).
pub proof fn lemma_only_restores_go_back(
    hot_threshold: HotThreshold,
    pack: u32,
    tracing: Seq<bool>,
    schedule: Seq<int>,
    t: int,
)
    requires
        hot_threshold < PAYLOAD_LIMIT,
        valid_pack(pack, hot_threshold),
    ensures
        ({
            let begin = Threads { pack, passes: fresh_passes(hot_threshold, tracing.len()), tracing };
            let before = run_schedule(begin, schedule);
            let after = schedule_step(before, t);
            after.pack == before.pack || advances(hot_threshold, before.pack, after.pack) || (0 <= t
                < before.passes.len() && before.passes[t].action is Restore)
        }),
{
    let begin = Threads { pack, passes: fresh_passes(hot_threshold, tracing.len()), tracing };
    assert(threads_ok(begin, hot_threshold));
    lemma_threads_ok_run_any(begin, hot_threshold, schedule);
    lemma_step_moves_forward(run_schedule(begin, schedule), hot_threshold, t);
}

proof fn lemma_run_advances(threads: Threads, hot_threshold: HotThreshold, schedule: Seq<int>)
    requires
        threads_ok(threads, hot_threshold),
        tracers_owned(threads),
    ensures
        threads_ok(run_schedule(threads, schedule), hot_threshold),
        tracers_owned(run_schedule(threads, schedule)),
    decreases schedule.len(),
{
    if schedule.len() > 0 {
        lemma_step_advances(threads, hot_threshold, schedule[0]);
        lemma_run_advances(schedule_step(threads, schedule[0]), hot_threshold, schedule.drop_first());
    }
}

/// With no tracer busy when the passes begin, a location only moves forward, however the
/// passes interleave: each action leaves the pack as it was or moves it one step of the phase
/// order (a count below the threshold up by one, a count at the threshold to tracing, tracing
/// to compiling). (A tracer already busy with another location may make a pass give a
/// location back after another thread took it on to compiling.)
pub proof fn lemma_free_tracers_only_advance(
    hot_threshold: HotThreshold,
    pack: u32,
    n: nat,
    schedule: Seq<int>,
    t: int,
)
    requires
        hot_threshold < PAYLOAD_LIMIT,
        valid_pack(pack, hot_threshold),
    ensures
        ({
            let begin = Threads {
                pack,
                passes: fresh_passes(hot_threshold, n),
                tracing: Seq::new(n, |i: int| false),
            };
            let before = run_schedule(begin, schedule);
            let after = schedule_step(before, t);
            after.pack == before.pack || advances(hot_threshold, before.pack, after.pack)
        }),
{
    let begin = Threads {
        pack,
        passes: fresh_passes(hot_threshold, n),
        tracing: Seq::new(n, |i: int| false),
    };
    assert(threads_ok(begin, hot_threshold));
    assert(tracers_owned(begin));
    lemma_run_advances(begin, hot_threshold, schedule);
    lemma_step_advances(run_schedule(begin, schedule), hot_threshold, t);
}


/// A lost compare-and-swap is never acted on: whatever the control point was waiting for, when
/// its swap finds another value in the pack it starts over with a fresh load, keeping what it
/// holds.
pub proof fn lemma_lost_swap_reloads(cp: ControlPoint)
    requires
        cp.wf(),
        cp.accepts(Event::Swapped(false)),
    ensures
        cp.spec_step(Event::Swapped(false)) == (
            ControlPoint { hot_threshold: cp.hot_threshold, holds_trace: cp.holds_trace, waiting: Waiting::Load },
            Action::Load,
        ),
{
}

/// A control point claims a location for compiling, or has it compiled, only with a trace
/// taken from its own tracer in hand: every swap to `PHASE_COMPILING` and every `Compile` comes
/// from a control point holding a trace (for hot thresholds below `PAYLOAD_LIMIT`, where no
/// count carries into the tag bits).
pub proof fn lemma_compiles_only_own_trace(cp: ControlPoint, event: Event)
    requires
        cp.wf(),
        cp.accepts(event),
        cp.hot_threshold < PAYLOAD_LIMIT,
    ensures
        cp.spec_step(event).1 == Action::Compile ==> cp.holds_trace,
        cp.spec_step(event).1 matches Action::Swap { current, new } && new == PHASE_COMPILING
            ==> cp.spec_step(event).0.holds_trace && (cp.holds_trace || event
            == Event::TraceTaken),
        !cp.holds_trace && cp.spec_step(event).0.holds_trace ==> event == Event::TraceTaken,
{
}

} // verus!
