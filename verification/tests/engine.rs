//! Scenario tests for the owned/cloned argument mode: states record every
//! lifecycle call they receive into a shared log, and the tests check the
//! exact call sequences the engine issues.

use machinae::{State, StateMachine, Trans};
use std::cell::RefCell;
use std::rc::Rc;

type Log = Rc<RefCell<Vec<String>>>;

fn note(log: &Log, what: &str) {
    log.borrow_mut().push(what.to_string());
}

fn logged(log: &Log) -> Vec<String> {
    log.borrow().clone()
}

fn strings(items: &[&str]) -> Vec<String> {
    items.iter().map(|s| s.to_string()).collect()
}

struct MyState;

impl State<i32, (), ()> for MyState {
    fn start(&mut self, x: i32) -> Result<Trans<Self>, ()> {
        if x == 5 {
            Ok(Trans::Quit)
        } else {
            Ok(Trans::Stay)
        }
    }
}

#[test]
fn start_and_stop() {
    let mut sm = StateMachine::new(MyState);
    sm.start(3).unwrap();
    assert!(sm.running());
    let mut sm = StateMachine::new(MyState);
    sm.start(5).unwrap();
    assert!(!sm.running());
}

/// Three states that report every call; each one's `start` pushes the next,
/// and any `update` quits.
enum Scripted {
    A,
    B,
    C,
}

impl Scripted {
    fn name(&self) -> &'static str {
        match self {
            Scripted::A => "a",
            Scripted::B => "b",
            Scripted::C => "c",
        }
    }
}

/// Scenario: initial state returns no transition from `start`; one `update`
/// that returns `Quit` shuts the machine down.
enum NoneThenQuit {
    Only,
}

impl State<Log, (), ()> for NoneThenQuit {
    fn start(&mut self, log: Log) -> Result<Trans<Self>, ()> {
        note(&log, "a.start");
        Ok(Trans::Stay)
    }

    fn update(&mut self, log: Log) -> Result<Trans<Self>, ()> {
        note(&log, "a.update");
        Ok(Trans::Quit)
    }

    fn pause(&mut self, log: Log) {
        note(&log, "a.pause");
    }

    fn stop(&mut self, log: Log) {
        note(&log, "a.stop");
    }
}

#[test]
fn scenario_none_then_quit() {
    let log: Log = Rc::new(RefCell::new(Vec::new()));
    let mut sm = StateMachine::new(NoneThenQuit::Only);
    sm.start(log.clone()).unwrap();
    assert!(sm.running());
    sm.update(log.clone()).unwrap();
    assert!(!sm.running());
    assert_eq!(logged(&log), strings(&["a.start", "a.update", "a.pause", "a.stop"]));
}

/// Scenarios around push and pop: the base state pushes a child from its
/// `start`; the child pops itself on `update`.
enum PushPop {
    Base,
    Child,
}

impl State<Log, (), ()> for PushPop {
    fn start(&mut self, log: Log) -> Result<Trans<Self>, ()> {
        match self {
            PushPop::Base => {
                note(&log, "base.start");
                Ok(Trans::Push(PushPop::Child))
            }
            PushPop::Child => {
                note(&log, "child.start");
                Ok(Trans::Stay)
            }
        }
    }

    fn update(&mut self, log: Log) -> Result<Trans<Self>, ()> {
        match self {
            PushPop::Base => {
                note(&log, "base.update");
                Ok(Trans::Stay)
            }
            PushPop::Child => {
                note(&log, "child.update");
                Ok(Trans::Pop)
            }
        }
    }

    fn resume(&mut self, log: Log) {
        match self {
            PushPop::Base => note(&log, "base.resume"),
            PushPop::Child => note(&log, "child.resume"),
        }
    }

    fn pause(&mut self, log: Log) {
        match self {
            PushPop::Base => note(&log, "base.pause"),
            PushPop::Child => note(&log, "child.pause"),
        }
    }

    fn stop(&mut self, log: Log) {
        match self {
            PushPop::Base => note(&log, "base.stop"),
            PushPop::Child => note(&log, "child.stop"),
        }
    }
}

#[test]
fn scenario_push_from_start() {
    let log: Log = Rc::new(RefCell::new(Vec::new()));
    let mut sm = StateMachine::new(PushPop::Base);
    sm.start(log.clone()).unwrap();
    assert!(sm.running());
    // The base is paused, not stopped; the child was started, then resumed
    // once its (empty) chain resolved.
    assert_eq!(
        logged(&log),
        strings(&["base.start", "base.pause", "child.start", "child.resume"]),
    );
    // The child is the current state now: an update reaches it.
    sm.update(log.clone()).unwrap();
    assert!(logged(&log).contains(&"child.update".to_string()));
}

#[test]
fn scenario_pop_resumes_below() {
    let log: Log = Rc::new(RefCell::new(Vec::new()));
    let mut sm = StateMachine::new(PushPop::Base);
    sm.start(log.clone()).unwrap();
    // Child pops itself: it is paused and stopped, the base resumes.
    sm.update(log.clone()).unwrap();
    assert!(sm.running());
    assert_eq!(
        logged(&log),
        strings(&[
            "base.start",
            "base.pause",
            "child.start",
            "child.resume",
            "child.update",
            "child.pause",
            "child.stop",
            "base.resume",
        ]),
    );
    // One element is left: the base receives the next update.
    sm.update(log.clone()).unwrap();
    assert_eq!(logged(&log).last().unwrap(), "base.update");
}

/// Scenario: `Pop` on a single-element stack shuts the machine down and
/// resumes nothing.
enum PopOnly {
    Only,
}

impl State<Log, (), ()> for PopOnly {
    fn start(&mut self, log: Log) -> Result<Trans<Self>, ()> {
        note(&log, "a.start");
        Ok(Trans::Stay)
    }

    fn update(&mut self, log: Log) -> Result<Trans<Self>, ()> {
        note(&log, "a.update");
        Ok(Trans::Pop)
    }

    fn resume(&mut self, log: Log) {
        note(&log, "a.resume");
    }

    fn pause(&mut self, log: Log) {
        note(&log, "a.pause");
    }

    fn stop(&mut self, log: Log) {
        note(&log, "a.stop");
    }
}

#[test]
fn scenario_pop_on_single_element() {
    let log: Log = Rc::new(RefCell::new(Vec::new()));
    let mut sm = StateMachine::new(PopOnly::Only);
    sm.start(log.clone()).unwrap();
    sm.update(log.clone()).unwrap();
    assert!(!sm.running());
    // Exactly one pause then one stop; no resume was ever issued.
    assert_eq!(logged(&log), strings(&["a.start", "a.update", "a.pause", "a.stop"]));
}

/// Scenario: `Switch` replaces the single state in place.
enum Switcher {
    First,
    Second,
}

impl State<Log, (), ()> for Switcher {
    fn start(&mut self, log: Log) -> Result<Trans<Self>, ()> {
        match self {
            Switcher::First => note(&log, "a.start"),
            Switcher::Second => note(&log, "b.start"),
        }
        Ok(Trans::Stay)
    }

    fn update(&mut self, log: Log) -> Result<Trans<Self>, ()> {
        match self {
            Switcher::First => {
                note(&log, "a.update");
                Ok(Trans::Switch(Switcher::Second))
            }
            Switcher::Second => {
                note(&log, "b.update");
                Ok(Trans::Stay)
            }
        }
    }

    fn resume(&mut self, log: Log) {
        match self {
            Switcher::First => note(&log, "a.resume"),
            Switcher::Second => note(&log, "b.resume"),
        }
    }

    fn pause(&mut self, log: Log) {
        match self {
            Switcher::First => note(&log, "a.pause"),
            Switcher::Second => note(&log, "b.pause"),
        }
    }

    fn stop(&mut self, log: Log) {
        match self {
            Switcher::First => note(&log, "a.stop"),
            Switcher::Second => note(&log, "b.stop"),
        }
    }
}

#[test]
fn scenario_switch_in_place() {
    let log: Log = Rc::new(RefCell::new(Vec::new()));
    let mut sm = StateMachine::new(Switcher::First);
    sm.start(log.clone()).unwrap();
    sm.update(log.clone()).unwrap();
    assert!(sm.running());
    // The first state receives pause then stop; the replacement start then
    // resume; the stack depth stays one.
    assert_eq!(
        logged(&log),
        strings(&["a.start", "a.update", "a.pause", "a.stop", "b.start", "b.resume"]),
    );
    // The replacement is the current state.
    sm.update(log.clone()).unwrap();
    assert_eq!(logged(&log).last().unwrap(), "b.update");
}

/// Scenario: a three-deep stack torn down by one `Quit`: every stacked state
/// gets its one `stop`, top to bottom, and each had already received its one
/// `pause` when something ran above it.
impl State<Log, (), ()> for Scripted {
    fn start(&mut self, log: Log) -> Result<Trans<Self>, ()> {
        note(&log, &format!("{}.start", self.name()));
        match self {
            Scripted::A => Ok(Trans::Push(Scripted::B)),
            Scripted::B => Ok(Trans::Push(Scripted::C)),
            Scripted::C => Ok(Trans::Stay),
        }
    }

    fn update(&mut self, log: Log) -> Result<Trans<Self>, ()> {
        note(&log, &format!("{}.update", self.name()));
        Ok(Trans::Quit)
    }

    fn resume(&mut self, log: Log) {
        note(&log, &format!("{}.resume", self.name()));
    }

    fn pause(&mut self, log: Log) {
        note(&log, &format!("{}.pause", self.name()));
    }

    fn stop(&mut self, log: Log) {
        note(&log, &format!("{}.stop", self.name()));
    }
}

#[test]
fn scenario_quit_tears_down_top_to_bottom() {
    let log: Log = Rc::new(RefCell::new(Vec::new()));
    let mut sm = StateMachine::new(Scripted::A);
    sm.start(log.clone()).unwrap();
    assert!(sm.running());
    // B's own start asked for C, so C was placed first and paused when B
    // went above it.
    assert_eq!(
        logged(&log),
        strings(&[
            "a.start", "a.pause", "b.start", "c.start", "c.resume", "c.pause", "b.resume",
        ]),
    );
    sm.update(log.clone()).unwrap();
    assert!(!sm.running());
    // Teardown: the active top is paused, then stops run top to bottom.
    assert_eq!(
        logged(&log)[7..].to_vec(),
        strings(&["b.update", "b.pause", "b.stop", "c.stop", "a.stop"]),
    );
}

/// Scenario: a pushed state quits inside its own `start`: only the states
/// already on the stack are torn down, the pushed one is discarded without
/// any further call.
enum QuitInStart {
    Base,
    Doomed,
}

impl State<Log, (), ()> for QuitInStart {
    fn start(&mut self, log: Log) -> Result<Trans<Self>, ()> {
        match self {
            QuitInStart::Base => {
                note(&log, "base.start");
                Ok(Trans::Stay)
            }
            QuitInStart::Doomed => {
                note(&log, "doomed.start");
                Ok(Trans::Quit)
            }
        }
    }

    fn update(&mut self, log: Log) -> Result<Trans<Self>, ()> {
        note(&log, "base.update");
        Ok(Trans::Push(QuitInStart::Doomed))
    }

    fn resume(&mut self, log: Log) {
        match self {
            QuitInStart::Base => note(&log, "base.resume"),
            QuitInStart::Doomed => note(&log, "doomed.resume"),
        }
    }

    fn pause(&mut self, log: Log) {
        match self {
            QuitInStart::Base => note(&log, "base.pause"),
            QuitInStart::Doomed => note(&log, "doomed.pause"),
        }
    }

    fn stop(&mut self, log: Log) {
        match self {
            QuitInStart::Base => note(&log, "base.stop"),
            QuitInStart::Doomed => note(&log, "doomed.stop"),
        }
    }
}

#[test]
fn scenario_push_then_quit_in_start() {
    let log: Log = Rc::new(RefCell::new(Vec::new()));
    let mut sm = StateMachine::new(QuitInStart::Base);
    sm.start(log.clone()).unwrap();
    sm.update(log.clone()).unwrap();
    assert!(!sm.running());
    // The doomed state was started and nothing else: never resumed, never
    // placed, never paused or stopped. The base, already paused by the push,
    // receives only its stop.
    assert_eq!(
        logged(&log),
        strings(&["base.start", "base.update", "base.pause", "doomed.start", "base.stop"]),
    );
}

/// `running()` is a pure read: asking repeatedly changes nothing.
#[test]
fn running_is_idempotent() {
    let log: Log = Rc::new(RefCell::new(Vec::new()));
    let mut sm = StateMachine::new(NoneThenQuit::Only);
    assert!(!sm.running());
    assert!(!sm.running());
    sm.start(log.clone()).unwrap();
    assert!(sm.running());
    assert!(sm.running());
    assert!(sm.running());
    // No lifecycle call was recorded by the reads.
    assert_eq!(logged(&log), strings(&["a.start"]));
    sm.update(log.clone()).unwrap();
    assert!(!sm.running());
    assert!(!sm.running());
}

/// Host-initiated `stop` pauses the top and stops everything, top first.
#[test]
fn host_stop_tears_down() {
    let log: Log = Rc::new(RefCell::new(Vec::new()));
    let mut sm = StateMachine::new(PushPop::Base);
    sm.start(log.clone()).unwrap();
    sm.stop(log.clone());
    assert!(!sm.running());
    assert_eq!(
        logged(&log),
        strings(&[
            "base.start",
            "base.pause",
            "child.start",
            "child.resume",
            "child.pause",
            "child.stop",
            "base.stop",
        ]),
    );
}

/// A state whose `start` fails while being pushed: the chain aborts, the
/// error reaches the caller, the old top stays paused on the stack, and the
/// failed state is discarded. A host `stop` then cleans up without a second
/// pause.
enum FailingChild {
    Base,
    Bad,
}

impl State<Log, String, ()> for FailingChild {
    fn start(&mut self, log: Log) -> Result<Trans<Self>, String> {
        match self {
            FailingChild::Base => {
                note(&log, "base.start");
                Ok(Trans::Stay)
            }
            FailingChild::Bad => {
                note(&log, "bad.start");
                Err("bad state refused to start".to_string())
            }
        }
    }

    fn update(&mut self, log: Log) -> Result<Trans<Self>, String> {
        note(&log, "base.update");
        Ok(Trans::Push(FailingChild::Bad))
    }

    fn resume(&mut self, log: Log) {
        note(&log, "resume");
    }

    fn pause(&mut self, log: Log) {
        match self {
            FailingChild::Base => note(&log, "base.pause"),
            FailingChild::Bad => note(&log, "bad.pause"),
        }
    }

    fn stop(&mut self, log: Log) {
        match self {
            FailingChild::Base => note(&log, "base.stop"),
            FailingChild::Bad => note(&log, "bad.stop"),
        }
    }
}

#[test]
fn error_aborts_chain_without_rollback() {
    let log: Log = Rc::new(RefCell::new(Vec::new()));
    let mut sm = StateMachine::new(FailingChild::Base);
    sm.start(log.clone()).unwrap();
    let err = sm.update(log.clone()).unwrap_err();
    assert_eq!(err, "bad state refused to start");
    // Still running: the host is responsible for the final stop.
    assert!(sm.running());
    sm.stop(log.clone());
    assert!(!sm.running());
    // The base was paused by the push and not resumed; the cleanup stop
    // issues no second pause, and the failed state got no call after its
    // start.
    assert_eq!(
        logged(&log),
        strings(&["base.start", "base.update", "base.pause", "bad.start", "base.stop"]),
    );
}

/// A failure of the very first `start`: the machine never begins running.
enum NeverStarts {
    Only,
}

impl State<(), i32, ()> for NeverStarts {
    fn start(&mut self, _args: ()) -> Result<Trans<Self>, i32> {
        Err(41)
    }
}

#[test]
fn initial_start_failure_keeps_machine_stopped() {
    let mut sm = StateMachine::new(NeverStarts::Only);
    assert_eq!(sm.start(()).unwrap_err(), 41);
    assert!(!sm.running());
}

/// `fixed_update` and `event` reach the current state like `update` does.
enum Reactive {
    Only,
}

impl State<Log, (), u32> for Reactive {
    fn fixed_update(&mut self, log: Log) -> Result<Trans<Self>, ()> {
        note(&log, "fixed_update");
        Ok(Trans::Stay)
    }

    fn event(&mut self, log: Log, event: u32) -> Result<Trans<Self>, ()> {
        note(&log, &format!("event:{}", event));
        if event == 9 {
            Ok(Trans::Quit)
        } else {
            Ok(Trans::Stay)
        }
    }
}

#[test]
fn fixed_update_and_event_reach_the_top() {
    let log: Log = Rc::new(RefCell::new(Vec::new()));
    let mut sm = StateMachine::new(Reactive::Only);
    sm.start(log.clone()).unwrap();
    sm.fixed_update(log.clone()).unwrap();
    sm.event(log.clone(), 7).unwrap();
    assert!(sm.running());
    sm.event(log.clone(), 9).unwrap();
    assert!(!sm.running());
    assert_eq!(logged(&log), strings(&["fixed_update", "event:7", "event:9"]));
}

/// The default machine starts from the state type's default value.
#[derive(Default)]
struct Defaulted {
    hits: u32,
}

impl State<(), (), ()> for Defaulted {
    fn update(&mut self, _args: ()) -> Result<Trans<Self>, ()> {
        self.hits += 1;
        Ok(Trans::Stay)
    }
}

#[test]
fn default_machine_is_fresh() {
    let mut sm: StateMachine<(), (), (), Defaulted> = Default::default();
    assert!(!sm.running());
    sm.start(()).unwrap();
    assert!(sm.running());
}

/// `last` hands out the current top for direct inspection or mutation.
#[test]
fn last_reaches_the_current_top() {
    let mut sm = StateMachine::new(Defaulted { hits: 3 });
    assert_eq!(sm.last().hits, 3);
    sm.last().hits = 10;
    assert_eq!(sm.last().hits, 10);
    sm.start(()).unwrap();
    sm.assert_running();
    sm.update(()).unwrap();
    assert_eq!(sm.last().hits, 11);
}
