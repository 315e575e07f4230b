//! Tests for the exclusive-reference argument mode: one mutable context is
//! threaded, unduplicated, through every lifecycle call of a pass, and the
//! states write into it directly, seeing each other's writes in call order.

use machinae::{State, StateMachine, StateMachineRef, Trans};

enum RefStates {
    Base,
    Child,
}

impl<'a> State<&'a mut Vec<String>, (), u32> for RefStates {
    fn start(&mut self, ctx: &'a mut Vec<String>) -> Result<Trans<Self>, ()> {
        match self {
            RefStates::Base => {
                ctx.push("base.start".to_string());
                Ok(Trans::Push(RefStates::Child))
            }
            RefStates::Child => {
                ctx.push("child.start".to_string());
                Ok(Trans::Stay)
            }
        }
    }

    fn update(&mut self, ctx: &'a mut Vec<String>) -> Result<Trans<Self>, ()> {
        match self {
            RefStates::Base => {
                ctx.push("base.update".to_string());
                Ok(Trans::Stay)
            }
            RefStates::Child => {
                ctx.push("child.update".to_string());
                Ok(Trans::Pop)
            }
        }
    }

    fn event(&mut self, ctx: &'a mut Vec<String>, event: u32) -> Result<Trans<Self>, ()> {
        ctx.push(format!("event:{}", event));
        if event == 0 {
            Ok(Trans::Quit)
        } else {
            Ok(Trans::Stay)
        }
    }

    fn resume(&mut self, ctx: &'a mut Vec<String>) {
        match self {
            RefStates::Base => ctx.push("base.resume".to_string()),
            RefStates::Child => ctx.push("child.resume".to_string()),
        }
    }

    fn pause(&mut self, ctx: &'a mut Vec<String>) {
        match self {
            RefStates::Base => ctx.push("base.pause".to_string()),
            RefStates::Child => ctx.push("child.pause".to_string()),
        }
    }

    fn stop(&mut self, ctx: &'a mut Vec<String>) {
        match self {
            RefStates::Base => ctx.push("base.stop".to_string()),
            RefStates::Child => ctx.push("child.stop".to_string()),
        }
    }
}

fn strings(items: &[&str]) -> Vec<String> {
    items.iter().map(|s| s.to_string()).collect()
}

#[test]
fn ref_mode_threads_one_context() {
    let mut ctx: Vec<String> = Vec::new();
    let mut sm: StateMachineRef<Vec<String>, (), u32, RefStates> =
        StateMachine::new(RefStates::Base);
    assert!(!sm.running());
    sm.start(&mut ctx).unwrap();
    assert!(sm.running());
    assert_eq!(
        ctx,
        strings(&["base.start", "base.pause", "child.start", "child.resume"]),
    );
    // The child pops itself; the base resumes and sees all earlier writes.
    sm.update(&mut ctx).unwrap();
    assert!(sm.running());
    assert_eq!(
        ctx[4..].to_vec(),
        strings(&["child.update", "child.pause", "child.stop", "base.resume"]),
    );
    sm.update(&mut ctx).unwrap();
    assert_eq!(ctx.last().unwrap(), "base.update");
}

#[test]
fn ref_mode_event_and_stop() {
    let mut ctx: Vec<String> = Vec::new();
    let mut sm: StateMachineRef<Vec<String>, (), u32, RefStates> =
        StateMachine::new(RefStates::Child);
    sm.start(&mut ctx).unwrap();
    sm.event(&mut ctx, 7).unwrap();
    assert!(sm.running());
    sm.stop(&mut ctx);
    assert!(!sm.running());
    assert_eq!(
        ctx,
        strings(&["child.start", "event:7", "child.pause", "child.stop"]),
    );
}

#[test]
fn ref_mode_quit_by_event() {
    let mut ctx: Vec<String> = Vec::new();
    let mut sm: StateMachineRef<Vec<String>, (), u32, RefStates> =
        StateMachine::new(RefStates::Child);
    sm.start(&mut ctx).unwrap();
    sm.event(&mut ctx, 0).unwrap();
    assert!(!sm.running());
    assert_eq!(
        ctx,
        strings(&["child.start", "event:0", "child.pause", "child.stop"]),
    );
}
