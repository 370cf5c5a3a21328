use std::sync::atomic::Ordering;

use yktrace::metatracer::{
    Action, Code, ControlPoint, Event, Location, MetaTracer, Phase, DEFAULT_HOT_THRESHOLD,
    PHASE_COMPILED, PHASE_COMPILING, PHASE_COUNTING, PHASE_TAG, PHASE_TRACING,
};

/// Runs one control point of `mt` over `loc` on this thread, whose tracer is tracing when
/// `tracing` holds. Compilation is done at once, on this thread. Returns the last action.
fn control_point(mt: &MetaTracer, loc: &Location, tracing: &mut bool) -> Action {
    let (mut cp, mut action) = ControlPoint::start(mt.hot_threshold);
    loop {
        let event = match action {
            Action::Load => Event::Loaded(loc.pack.load(Ordering::Acquire)),
            Action::Swap { current, new } => Event::Swapped(
                loc.pack
                    .compare_exchange(current, new, Ordering::Release, Ordering::Relaxed)
                    .is_ok(),
            ),
            Action::StartTracer => {
                if *tracing {
                    Event::TracerBusy
                } else {
                    *tracing = true;
                    Event::TracerStarted
                }
            }
            Action::StopTracer => {
                if *tracing {
                    *tracing = false;
                    Event::TraceTaken
                } else {
                    Event::TracerIdle
                }
            }
            Action::Restore(value) => {
                loc.pack.store(value, Ordering::Relaxed);
                return action;
            }
            Action::Compile => {
                let mut cache = mt.code_cache.write().unwrap();
                let idx = cache.len() as u32;
                cache.push(Code::compile(&()));
                loc.pack.store(Phase::Compiled(idx).pack(), Ordering::Release);
                return action;
            }
            Action::Execute(idx) => {
                mt.code_cache.read().unwrap()[idx as usize].execute();
                return action;
            }
            Action::Finish => return action,
        };
        assert!(cp.expects(event));
        action = cp.step(event);
    }
}

#[test]
fn threshold_passed() {
    let hot_thrsh = 1500;
    let mt = MetaTracer::new_with_hot_threshold(hot_thrsh);
    let lp = Location::new();
    let mut tracing = false;
    for i in 0..hot_thrsh {
        control_point(&mt, &lp, &mut tracing);
        assert_eq!(lp.pack.load(Ordering::Relaxed), PHASE_COUNTING | (i + 1));
    }
    control_point(&mt, &lp, &mut tracing);
    assert_eq!(lp.pack.load(Ordering::Relaxed), PHASE_TRACING);
    control_point(&mt, &lp, &mut tracing);
    let pack = lp.pack.load(Ordering::Relaxed);
    assert!(pack == PHASE_COMPILING || pack & PHASE_TAG == PHASE_COMPILED);
}

// Two meta-tracers on the same thread, sharing its tracer.
#[test]
fn threshold_passed_multiple_metatracers() {
    let hot_thrsh = 4000;
    let mt1 = MetaTracer::new_with_hot_threshold(hot_thrsh);
    let mt2 = MetaTracer::new_with_hot_threshold(hot_thrsh);
    let loc1 = Location::new();
    let loc2 = Location::new();
    let mut tracing = false;

    let mut lp1;
    let mut lp2;
    // Get both locations to one less than their hot threshold.
    for _ in 0..hot_thrsh {
        control_point(&mt1, &loc1, &mut tracing);
        control_point(&mt2, &loc2, &mut tracing);
        lp1 = loc1.pack.load(Ordering::Relaxed);
        lp2 = loc2.pack.load(Ordering::Relaxed);
        assert_eq!(lp1 & PHASE_TAG, PHASE_COUNTING);
        assert_eq!(lp2 & PHASE_TAG, PHASE_COUNTING);
    }

    // mt1 starts tracing, mt2 wants to, but the thread's tracer is busy.
    control_point(&mt1, &loc1, &mut tracing);
    control_point(&mt2, &loc2, &mut tracing);
    lp1 = loc1.pack.load(Ordering::Relaxed);
    lp2 = loc2.pack.load(Ordering::Relaxed);
    assert_eq!(lp1 & PHASE_TAG, PHASE_TRACING);
    assert_eq!(lp2 & PHASE_TAG, PHASE_COUNTING);

    // mt1 finishes tracing, freeing the thread's tracer for mt2.
    control_point(&mt1, &loc1, &mut tracing);
    control_point(&mt2, &loc2, &mut tracing);
    lp1 = loc1.pack.load(Ordering::Relaxed);
    lp2 = loc2.pack.load(Ordering::Relaxed);
    assert!(lp1 == PHASE_COMPILING || lp1 & PHASE_TAG == PHASE_COMPILED);
    assert_eq!(lp2 & PHASE_TAG, PHASE_TRACING);

    // Once more and mt2 is finished tracing too.
    control_point(&mt2, &loc2, &mut tracing);
    lp2 = loc2.pack.load(Ordering::Relaxed);
    assert!(lp2 == PHASE_COMPILING || lp2 & PHASE_TAG == PHASE_COMPILED);
}

#[test]
fn default_hot_threshold_is_fifty() {
    assert_eq!(DEFAULT_HOT_THRESHOLD, 50);
    assert_eq!(MetaTracer::new().hot_threshold, 50);
    assert_eq!(MetaTracer::new_with_hot_threshold(7).hot_threshold, 7);
}

#[test]
fn fresh_location_counts_from_zero() {
    let loc = Location::new();
    assert_eq!(loc.pack.load(Ordering::Relaxed), 0x8000_0000);
    assert_eq!(Phase::unpack(loc.pack.load(Ordering::Relaxed)), Phase::Counting(0));
}

#[test]
fn pack_encodings() {
    assert_eq!(Phase::Counting(5).pack(), 0x8000_0005);
    assert_eq!(Phase::Tracing.pack(), 0x4000_0000);
    assert_eq!(Phase::Compiling.pack(), 0xC000_0000);
    assert_eq!(Phase::Compiled(12).pack(), 12);
    assert_eq!(Phase::unpack(0x8000_0005), Phase::Counting(5));
    assert_eq!(Phase::unpack(0x4000_0000), Phase::Tracing);
    assert_eq!(Phase::unpack(0xC000_0000), Phase::Compiling);
    assert_eq!(Phase::unpack(12), Phase::Compiled(12));
    // Tracing and compiling packs ignore their payload bits.
    assert_eq!(Phase::unpack(0x4000_0003), Phase::Tracing);
    assert_eq!(Phase::unpack(0xC000_0009), Phase::Compiling);
}

#[test]
fn pack_round_trip() {
    for phase in [
        Phase::Counting(0),
        Phase::Counting(0x3FFF_FFFF),
        Phase::Tracing,
        Phase::Compiling,
        Phase::Compiled(0),
        Phase::Compiled(0x3FFF_FFFF),
    ] {
        assert_eq!(Phase::unpack(phase.pack()), phase);
    }
}

#[test]
fn cold_location_bumps_its_count() {
    let (mut cp, action) = ControlPoint::start(10);
    assert_eq!(action, Action::Load);
    let action = cp.step(Event::Loaded(0x8000_0003));
    assert_eq!(action, Action::Swap { current: 0x8000_0003, new: 0x8000_0004 });
    assert_eq!(cp.step(Event::Swapped(true)), Action::Finish);
}

#[test]
fn lost_swap_reloads() {
    let (mut cp, _) = ControlPoint::start(10);
    cp.step(Event::Loaded(0x8000_0003));
    assert_eq!(cp.step(Event::Swapped(false)), Action::Load);
    assert!(cp.expects(Event::Loaded(0)));
    assert!(!cp.expects(Event::Swapped(true)));
}

#[test]
fn count_at_payload_limit_carries_into_tag() {
    let (mut cp, _) = ControlPoint::start(u32::MAX);
    let action = cp.step(Event::Loaded(0xBFFF_FFFF));
    assert_eq!(action, Action::Swap { current: 0xBFFF_FFFF, new: PHASE_COMPILING });
}

#[test]
fn busy_tracer_gives_the_location_back() {
    let (mut cp, _) = ControlPoint::start(3);
    assert_eq!(
        cp.step(Event::Loaded(0x8000_0003)),
        Action::Swap { current: 0x8000_0003, new: PHASE_TRACING }
    );
    assert_eq!(cp.step(Event::Swapped(true)), Action::StartTracer);
    assert_eq!(cp.step(Event::TracerBusy), Action::Restore(0x8000_0003));
}

#[test]
fn tracing_thread_claims_compilation() {
    let (mut cp, _) = ControlPoint::start(3);
    assert_eq!(cp.step(Event::Loaded(PHASE_TRACING)), Action::StopTracer);
    assert_eq!(
        cp.step(Event::TraceTaken),
        Action::Swap { current: PHASE_TRACING, new: PHASE_COMPILING }
    );
    assert!(cp.holds_trace);
    assert_eq!(cp.step(Event::Swapped(true)), Action::Compile);
}

#[test]
fn kept_trace_is_not_stopped_twice() {
    let (mut cp, _) = ControlPoint::start(3);
    cp.step(Event::Loaded(PHASE_TRACING));
    cp.step(Event::TraceTaken);
    assert_eq!(cp.step(Event::Swapped(false)), Action::Load);
    assert_eq!(
        cp.step(Event::Loaded(PHASE_TRACING)),
        Action::Swap { current: PHASE_TRACING, new: PHASE_COMPILING }
    );
}

#[test]
fn other_threads_trace_is_left_alone() {
    let (mut cp, _) = ControlPoint::start(3);
    assert_eq!(cp.step(Event::Loaded(PHASE_TRACING)), Action::StopTracer);
    assert_eq!(cp.step(Event::TracerIdle), Action::Finish);
}

#[test]
fn compiling_and_compiled_locations() {
    let (mut cp, _) = ControlPoint::start(3);
    assert_eq!(cp.step(Event::Loaded(PHASE_COMPILING)), Action::Finish);
    let (mut cp, _) = ControlPoint::start(3);
    assert_eq!(cp.step(Event::Loaded(PHASE_COMPILED | 7)), Action::Execute(7));
}

#[test]
fn compiled_trace_is_executed_through_the_cache() {
    let mt = MetaTracer::new_with_hot_threshold(0);
    let loc = Location::new();
    let mut tracing = false;
    assert_eq!(control_point(&mt, &loc, &mut tracing), Action::Finish);
    assert_eq!(loc.pack.load(Ordering::Relaxed), PHASE_TRACING);
    assert!(tracing);
    assert_eq!(control_point(&mt, &loc, &mut tracing), Action::Compile);
    assert!(!tracing);
    assert_eq!(loc.pack.load(Ordering::Relaxed), 0);
    assert_eq!(control_point(&mt, &loc, &mut tracing), Action::Execute(0));
    assert_eq!(mt.code_cache.read().unwrap().len(), 1);
}

#[test]
fn interleaved_counting_loses_nothing() {
    let mut pack: u32 = Phase::Counting(3).pack();
    let (mut a, _) = ControlPoint::start(10);
    let (mut b, _) = ControlPoint::start(10);
    let a_swap = a.step(Event::Loaded(pack));
    let b_swap = b.step(Event::Loaded(pack));
    // A's swap takes.
    if let Action::Swap { current, new } = a_swap {
        assert_eq!(current, pack);
        pack = new;
    }
    assert_eq!(a.step(Event::Swapped(true)), Action::Finish);
    // B's swap finds another value and B starts over.
    if let Action::Swap { current, .. } = b_swap {
        assert_ne!(current, pack);
    }
    assert_eq!(b.step(Event::Swapped(false)), Action::Load);
    let b_swap = b.step(Event::Loaded(pack));
    assert_eq!(b_swap, Action::Swap { current: 0x8000_0004, new: 0x8000_0005 });
    pack = 0x8000_0005;
    assert_eq!(b.step(Event::Swapped(true)), Action::Finish);
    assert_eq!(Phase::unpack(pack), Phase::Counting(5));
}

// Two threads whose tracers are both busy: the one that claimed the location for tracing puts
// the count back even after the other took the location on to compiling.
#[test]
fn busy_tracers_can_roll_back_over_compiling() {
    let mut pack: u32 = Phase::Counting(1).pack();
    let (mut a, _) = ControlPoint::start(1);
    let (mut b, _) = ControlPoint::start(1);
    assert_eq!(a.step(Event::Loaded(pack)), Action::Swap { current: pack, new: PHASE_TRACING });
    pack = PHASE_TRACING;
    assert_eq!(a.step(Event::Swapped(true)), Action::StartTracer);
    assert_eq!(b.step(Event::Loaded(pack)), Action::StopTracer);
    assert_eq!(
        b.step(Event::TraceTaken),
        Action::Swap { current: PHASE_TRACING, new: PHASE_COMPILING }
    );
    pack = PHASE_COMPILING;
    assert_eq!(b.step(Event::Swapped(true)), Action::Compile);
    assert_eq!(a.step(Event::TracerBusy), Action::Restore(0x8000_0001));
    assert_ne!(pack, 0x8000_0001);
}
