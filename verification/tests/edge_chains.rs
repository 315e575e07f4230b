//! Edge cases of nested transition chains: transitions returned from a new
//! state's own `start` while the previous top is already gone or paused.
//! These pin down the engine's behaviour on chains the simple scenarios
//! never reach, in particular that the lifecycle ordering (one `start`
//! first; `pause` then only `resume` or `stop`; one terminal `stop`) holds
//! on every path.

use machinae::{State, StateMachine, Trans};
use std::cell::RefCell;
use std::rc::Rc;

type Log = Rc<RefCell<Vec<String>>>;

fn note(log: &Log, what: &str) {
    log.borrow_mut().push(what.to_string());
}

fn logged(log: &Log) -> Vec<String> {
    log.borrow().clone()
}

fn strings(items: &[&str]) -> Vec<String> {
    items.iter().map(|s| s.to_string()).collect()
}

/// The switched-out state is stopped before its replacement starts; a `Pop`
/// from the replacement's own `start` then finds nothing left to remove and
/// shuts the machine down, discarding the replacement without further calls.
enum SwitchThenPop {
    First,
    Second,
}

impl State<Log, (), ()> for SwitchThenPop {
    fn start(&mut self, log: Log) -> Result<Trans<Self>, ()> {
        match self {
            SwitchThenPop::First => {
                note(&log, "f.start");
                Ok(Trans::Stay)
            }
            SwitchThenPop::Second => {
                note(&log, "s.start");
                Ok(Trans::Pop)
            }
        }
    }

    fn update(&mut self, log: Log) -> Result<Trans<Self>, ()> {
        note(&log, "f.update");
        Ok(Trans::Switch(SwitchThenPop::Second))
    }

    fn resume(&mut self, log: Log) {
        note(&log, "resume");
    }

    fn pause(&mut self, log: Log) {
        match self {
            SwitchThenPop::First => note(&log, "f.pause"),
            SwitchThenPop::Second => note(&log, "s.pause"),
        }
    }

    fn stop(&mut self, log: Log) {
        match self {
            SwitchThenPop::First => note(&log, "f.stop"),
            SwitchThenPop::Second => note(&log, "s.stop"),
        }
    }
}

#[test]
fn switch_start_pop_shuts_down() {
    let log: Log = Rc::new(RefCell::new(Vec::new()));
    let mut sm = StateMachine::new(SwitchThenPop::First);
    sm.start(log.clone()).unwrap();
    sm.update(log.clone()).unwrap();
    assert!(!sm.running());
    assert_eq!(
        logged(&log),
        strings(&["f.start", "f.update", "f.pause", "f.stop", "s.start"]),
    );
}

/// A `start` failure inside a switch chain: the old top was already stopped
/// and removed, so nothing is left; the machine is marked not running and
/// the error propagates.
enum SwitchToFailure {
    First,
    Bad,
}

impl State<Log, String, ()> for SwitchToFailure {
    fn start(&mut self, log: Log) -> Result<Trans<Self>, String> {
        match self {
            SwitchToFailure::First => {
                note(&log, "f.start");
                Ok(Trans::Stay)
            }
            SwitchToFailure::Bad => {
                note(&log, "bad.start");
                Err("replacement refused to start".to_string())
            }
        }
    }

    fn update(&mut self, log: Log) -> Result<Trans<Self>, String> {
        note(&log, "f.update");
        Ok(Trans::Switch(SwitchToFailure::Bad))
    }

    fn pause(&mut self, log: Log) {
        note(&log, "f.pause");
    }

    fn stop(&mut self, log: Log) {
        note(&log, "f.stop");
    }
}

#[test]
fn switch_error_empties_machine() {
    let log: Log = Rc::new(RefCell::new(Vec::new()));
    let mut sm = StateMachine::new(SwitchToFailure::First);
    sm.start(log.clone()).unwrap();
    let err = sm.update(log.clone()).unwrap_err();
    assert_eq!(err, "replacement refused to start");
    assert!(!sm.running());
    assert_eq!(
        logged(&log),
        strings(&["f.start", "f.update", "f.pause", "f.stop", "bad.start"]),
    );
}

/// A `Pop` from a pushed state's own `start` removes the state that pushed
/// it (the pushed one is not on the stack yet); here that empties the stack,
/// so the machine shuts down and the pushed state is discarded.
enum PushThenPop {
    Base,
    Popper,
}

impl State<Log, (), ()> for PushThenPop {
    fn start(&mut self, log: Log) -> Result<Trans<Self>, ()> {
        match self {
            PushThenPop::Base => {
                note(&log, "b.start");
                Ok(Trans::Stay)
            }
            PushThenPop::Popper => {
                note(&log, "p.start");
                Ok(Trans::Pop)
            }
        }
    }

    fn update(&mut self, log: Log) -> Result<Trans<Self>, ()> {
        note(&log, "b.update");
        Ok(Trans::Push(PushThenPop::Popper))
    }

    fn resume(&mut self, log: Log) {
        note(&log, "resume");
    }

    fn pause(&mut self, log: Log) {
        match self {
            PushThenPop::Base => note(&log, "b.pause"),
            PushThenPop::Popper => note(&log, "p.pause"),
        }
    }

    fn stop(&mut self, log: Log) {
        match self {
            PushThenPop::Base => note(&log, "b.stop"),
            PushThenPop::Popper => note(&log, "p.stop"),
        }
    }
}

#[test]
fn push_start_pop_removes_old_top() {
    let log: Log = Rc::new(RefCell::new(Vec::new()));
    let mut sm = StateMachine::new(PushThenPop::Base);
    sm.start(log.clone()).unwrap();
    sm.update(log.clone()).unwrap();
    assert!(!sm.running());
    // The base, paused by the push, receives its stop; the popper was never
    // resumed, placed, paused or stopped.
    assert_eq!(
        logged(&log),
        strings(&["b.start", "b.update", "b.pause", "p.start", "b.stop"]),
    );
}

/// A `Pop` in the middle of a push chain: the popped top is replaced by the
/// pending pushed state, and the state below stays paused throughout (it is
/// not resumed, since it does not become current).
enum MidChain {
    A,
    B,
    C,
}

impl State<Log, (), ()> for MidChain {
    fn start(&mut self, log: Log) -> Result<Trans<Self>, ()> {
        match self {
            MidChain::A => {
                note(&log, "a.start");
                Ok(Trans::Push(MidChain::B))
            }
            MidChain::B => {
                note(&log, "b.start");
                Ok(Trans::Stay)
            }
            MidChain::C => {
                note(&log, "c.start");
                Ok(Trans::Pop)
            }
        }
    }

    fn update(&mut self, log: Log) -> Result<Trans<Self>, ()> {
        match self {
            MidChain::A => {
                note(&log, "a.update");
                Ok(Trans::Stay)
            }
            MidChain::B => {
                note(&log, "b.update");
                Ok(Trans::Push(MidChain::C))
            }
            MidChain::C => {
                note(&log, "c.update");
                Ok(Trans::Stay)
            }
        }
    }

    fn resume(&mut self, log: Log) {
        match self {
            MidChain::A => note(&log, "a.resume"),
            MidChain::B => note(&log, "b.resume"),
            MidChain::C => note(&log, "c.resume"),
        }
    }

    fn pause(&mut self, log: Log) {
        match self {
            MidChain::A => note(&log, "a.pause"),
            MidChain::B => note(&log, "b.pause"),
            MidChain::C => note(&log, "c.pause"),
        }
    }

    fn stop(&mut self, log: Log) {
        match self {
            MidChain::A => note(&log, "a.stop"),
            MidChain::B => note(&log, "b.stop"),
            MidChain::C => note(&log, "c.stop"),
        }
    }
}

#[test]
fn pop_in_push_chain_replaces_top() {
    let log: Log = Rc::new(RefCell::new(Vec::new()));
    let mut sm = StateMachine::new(MidChain::A);
    sm.start(log.clone()).unwrap();
    assert_eq!(
        logged(&log),
        strings(&["a.start", "a.pause", "b.start", "b.resume"]),
    );
    // B pushes C; C's own start pops B away; C takes its place. A stays
    // paused below and is never resumed in between.
    sm.update(log.clone()).unwrap();
    assert!(sm.running());
    assert_eq!(
        logged(&log)[4..].to_vec(),
        strings(&["b.update", "b.pause", "c.start", "b.stop", "c.resume"]),
    );
    // C is current now.
    sm.update(log.clone()).unwrap();
    assert_eq!(logged(&log).last().unwrap(), "c.update");
}
