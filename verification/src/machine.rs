//! The engine: a stack of states, a running flag, and the interpreter for
//! the transitions states return.

use vstd::prelude::*;
use core::marker::PhantomData;
use crate::lifecycle::{
    Answer, Call, Ev, Phase, lemma_append_ok, lemma_prefix_trans, lifecycle_ok, phase_of,
    stops_of,
};

verus! {

/// A potential transition to another state, returned by a state's lifecycle
/// calls and interpreted by the engine.
pub enum Trans<S> {
    /// Pushes another state onto the state machine.
    /// This causes the current state to be paused and the pushed
    /// state to become the current one.
    Push(S),
    /// Removes the current state and pushes a new state to the state machine.
    /// The current state will be paused and stopped.
    Switch(S),
    /// Removes the current state after pausing and stopping it.
    /// If there's a state "below" this one, it'll be resumed and become the
    /// current state. Otherwise, the state machine will shut down.
    Pop,
    /// Don't do any transition, continue with the current state.
    Stay,
    /// Shuts down the state machine.
    Quit,
}

/// The [`Answer`] a transition-returning lifecycle call gave: the kind of
/// transition in its `Ok`, or `Failed` for the host's error.
pub open spec fn answer_of<S, E>(r: Result<Trans<S>, E>) -> Answer {
    match r {
        Result::Ok(t) => match t {
            Trans::Push(_) => Answer::Push,
            Trans::Switch(_) => Answer::Switch,
            Trans::Pop => Answer::Pop,
            Trans::Stay => Answer::Stay,
            Trans::Quit => Answer::Quit,
        },
        Result::Err(_) => Answer::Failed,
    }
}

/// `State` trait with several callbacks which allow state transitions.
/// It's recommended that you use this with an enum; if you prefer trait
/// objects, bridge them into this trait from outside the verified core.
pub trait State<A, E, F>: Sized {
    /// This method will be called before any other method of this state.
    /// Also see `StateMachine::start`.
    fn start(&mut self, _args: A) -> (r: Result<Trans<Self>, E>)
        default_ensures
            answer_of(r) == Answer::Stay,
    {
        Ok(Trans::Stay)
    }

    /// Resumes the `State`. This will be called only if the state has been
    /// paused before (e.g. after a state has been pushed and popped again),
    /// or right after its own `start` chain resolved.
    fn resume(&mut self, _args: A) {
    }

    /// A state will be paused when a new state runs above it.
    /// Also, `pause` is always called before `stop`.
    fn pause(&mut self, _args: A) {
    }

    /// A state gets stopped one moment before it gets dropped,
    /// either because it got popped, it did a switch or the state machine
    /// has shut down.
    fn stop(&mut self, _args: A) {
    }

    /// State updates are performed by `StateMachine::update`.
    fn update(&mut self, _args: A) -> (r: Result<Trans<Self>, E>)
        default_ensures
            answer_of(r) == Answer::Stay,
    {
        Ok(Trans::Stay)
    }

    /// Fixed state updates are performed by `StateMachine::fixed_update`.
    fn fixed_update(&mut self, _args: A) -> (r: Result<Trans<Self>, E>)
        default_ensures
            answer_of(r) == Answer::Stay,
    {
        Ok(Trans::Stay)
    }

    /// This method allows supplying events to the state via
    /// `StateMachine::event`.
    fn event(&mut self, _args: A, _event: F) -> (r: Result<Trans<Self>, E>)
        default_ensures
            answer_of(r) == Answer::Stay,
    {
        Ok(Trans::Stay)
    }
}

/// A helper type used for the first type parameter of the
/// state machine in case the argument (`A`) is a mutable reference.
pub struct Ref<A: ?Sized> {
    marker: PhantomData<A>,
}

/// A simple, generic state machine over an argument type `A`, a host error
/// type `E`, a host event type `F` and a state type `S`.
pub struct StateMachine<A, E, F, S> {
    marker: PhantomData<(A, E, F)>,
    running: bool,
    /// Whether the current top of the stack is active (started or resumed,
    /// and not paused since). False while no state may receive updates.
    active: bool,
    stack: Vec<S>,
    /// Every lifecycle call ever issued, in order.
    events: Ghost<Seq<Ev>>,
    /// The id of each stacked state, bottom first; parallel to `stack`.
    ids: Ghost<Seq<nat>>,
    /// The next id to hand to a newly accepted state.
    next: Ghost<nat>,
}

impl<A, E, F, S> StateMachine<A, E, F, S> {
    /// The full lifecycle history: every call issued so far, in order.
    pub closed spec fn history(self) -> Seq<Ev> {
        self.events@
    }

    /// The ids of the stacked states, bottom of the stack first.
    pub closed spec fn state_ids(self) -> Seq<nat> {
        self.ids@
    }

    /// Ids at or above this one have never received a call.
    pub closed spec fn next_id(self) -> nat {
        self.next@
    }

    /// The running flag.
    pub closed spec fn is_running(self) -> bool {
        self.running
    }

    /// How many states the stack holds.
    pub closed spec fn depth(self) -> nat {
        self.stack@.len()
    }

    /// The stacked states themselves, bottom of the stack first.
    pub closed spec fn states(self) -> Seq<S> {
        self.stack@
    }

    /// Whether the current top of the stack is active: it may receive
    /// updates and events. False after a callback error aborted an
    /// interpretation chain and left the top paused.
    pub closed spec fn top_active(self) -> bool {
        self.active
    }

    /// The id of the current top of the stack.
    pub open spec fn top_id(self) -> nat {
        self.state_ids()[self.state_ids().len() - 1]
    }

    /// The phase the state at stack position `i` is in.
    pub open spec fn phase_at(self, i: int) -> Phase {
        phase_of(self.history(), self.state_ids()[i])
    }

    /// The phase of the current top of the stack.
    pub open spec fn top_phase(self) -> Phase {
        phase_of(self.history(), self.top_id())
    }

    /// The stack discipline: ids are distinct and below `next_id`, the
    /// history is a well-formed lifecycle history, and every stacked state
    /// but the top is paused.
    pub open spec fn phases_ok(self) -> bool {
        &&& self.state_ids().len() == self.depth()
        &&& (forall|i: int, j: int|
            0 <= i < j < self.state_ids().len() ==> self.state_ids()[i] != self.state_ids()[j])
        &&& (forall|i: int| 0 <= i < self.state_ids().len() ==> self.state_ids()[i] < self.next_id())
        &&& (forall|id: nat| id >= self.next_id() ==> phase_of(self.history(), id) == Phase::Unborn)
        &&& lifecycle_ok(self.history())
        &&& (forall|i: int|
            0 <= i < self.state_ids().len() - 1 ==> #[trigger] phase_of(
                self.history(),
                self.state_ids()[i],
            ) == Phase::Paused)
    }

    /// Well-formedness of a machine at rest (between entry points).
    pub open spec fn wf(self) -> bool {
        &&& self.phases_ok()
        &&& self.states().len() == self.depth()
        &&& if self.is_running() {
            &&& self.depth() > 0
            &&& (self.top_phase() is Started || self.top_phase() is Live || self.top_phase()
                is Paused)
            &&& (self.top_active() <==> (self.top_phase() is Started || self.top_phase() is Live))
        } else {
            &&& !self.top_active()
            &&& (self.depth() == 0 || (self.depth() == 1 && (self.top_phase() is Unborn
                || self.top_phase() is Started)))
        }
    }

    /// A machine that was created and never started.
    pub open spec fn fresh(self) -> bool {
        &&& !self.is_running()
        &&& self.depth() == 1
        &&& self.history().len() == 0
    }

    /// Well-formedness in the middle of interpreting a transition chain: the
    /// stack discipline holds, but the stack may be momentarily empty while
    /// running (a switch has removed the old top and its replacement is not
    /// placed yet).
    spec fn mid_ok(self) -> bool {
        &&& self.phases_ok()
        &&& (self.top_active() ==> self.is_running() && self.depth() > 0 && (self.top_phase()
            is Started || self.top_phase() is Live))
        &&& (self.is_running() && self.depth() > 0 && !self.top_active() ==> self.top_phase()
            is Paused)
        &&& (!self.is_running() ==> self.depth() == 0 && !self.top_active())
    }

    /// The outcome of interpreting `Trans::Stay` from a running machine with
    /// history `h`, stacked ids `ids` and next fresh id `next`: nothing
    /// changes, the machine keeps running with its top active.
    pub open spec fn after_stay(h: Seq<Ev>, ids: Seq<nat>, next: nat, post: Self) -> bool {
        &&& post.history() == h
        &&& post.state_ids() == ids
        &&& post.next_id() == next
        &&& post.is_running()
        &&& post.top_active()
    }

    /// The outcome of interpreting `Trans::Quit` from a running machine
    /// whose (active) top received the call: the top is paused, every
    /// stacked state is stopped top to bottom, and the machine shuts down.
    pub open spec fn after_quit(h: Seq<Ev>, ids: Seq<nat>, next: nat, post: Self) -> bool {
        &&& post.history() == h + seq![Ev { id: ids[ids.len() - 1], call: Call::Pause }]
            + stops_of(ids)
        &&& post.state_ids() == Seq::<nat>::empty()
        &&& post.next_id() == next
        &&& !post.is_running()
        &&& !post.top_active()
    }

    /// The outcome of interpreting `Trans::Pop`: the top is paused and
    /// stopped, then removed and dropped; the state below, if any, is
    /// resumed and is current again; a pop of the only state shuts the
    /// machine down, and nothing is resumed.
    pub open spec fn after_pop(h: Seq<Ev>, ids: Seq<nat>, next: nat, post: Self) -> bool {
        &&& post.history() == h + seq![
            Ev { id: ids[ids.len() - 1], call: Call::Pause },
            Ev { id: ids[ids.len() - 1], call: Call::Stop },
        ] + (if ids.len() > 1 {
            seq![Ev { id: ids[ids.len() - 2], call: Call::Resume }]
        } else {
            Seq::<Ev>::empty()
        })
        &&& post.state_ids() == ids.drop_last()
        &&& post.next_id() == next
        &&& post.is_running() == (ids.len() > 1)
        &&& post.top_active() == (ids.len() > 1)
    }

    /// What interpreting `Trans::Push(n)` records first, whatever `n`'s own
    /// `start` chain then does: the old top is paused, and `n` receives its
    /// one `start` under the fresh id `next`.
    pub open spec fn push_begun(h: Seq<Ev>, ids: Seq<nat>, next: nat, post: Self) -> bool {
        &&& post.history().len() >= h.len() + 2
        &&& post.history()[h.len() as int] == (Ev { id: ids[ids.len() - 1], call: Call::Pause })
        &&& post.history()[h.len() as int + 1].id == next
        &&& post.history()[h.len() as int + 1].call is Start
        &&& next < post.next_id()
    }

    /// The outcome of `Trans::Push(n)` when `n`'s own `start` answered
    /// `Stay`: the old top is paused, `n` is started, resumed and placed
    /// above it, and is current.
    pub open spec fn after_push_stay(h: Seq<Ev>, ids: Seq<nat>, next: nat, post: Self) -> bool {
        &&& post.history() == h + seq![
            Ev { id: ids[ids.len() - 1], call: Call::Pause },
            Ev { id: next, call: Call::Start(Answer::Stay) },
            Ev { id: next, call: Call::Resume },
        ]
        &&& post.state_ids() == ids.push(next)
        &&& post.next_id() == next + 1
        &&& post.is_running()
        &&& post.top_active()
    }

    /// The outcome of `Trans::Push(n)` when `n`'s own `start` answered
    /// `Quit`: exactly the states already on the stack are torn down (the
    /// old top, paused by the push, gets no second pause); `n` is discarded
    /// without ever being resumed, placed, paused or stopped.
    pub open spec fn after_push_quit(h: Seq<Ev>, ids: Seq<nat>, next: nat, post: Self) -> bool {
        &&& post.history() == h + seq![
            Ev { id: ids[ids.len() - 1], call: Call::Pause },
            Ev { id: next, call: Call::Start(Answer::Quit) },
        ] + stops_of(ids)
        &&& post.state_ids() == Seq::<nat>::empty()
        &&& post.next_id() == next + 1
        &&& !post.is_running()
        &&& !post.top_active()
    }

    /// The outcome of `Trans::Push(n)` when `n`'s own `start` failed: the
    /// chain aborts with the host's error; the old top stays paused on the
    /// stack (no rollback), the machine keeps running, and `n` is discarded.
    pub open spec fn after_push_failed(h: Seq<Ev>, ids: Seq<nat>, next: nat, post: Self) -> bool {
        &&& post.history() == h + seq![
            Ev { id: ids[ids.len() - 1], call: Call::Pause },
            Ev { id: next, call: Call::Start(Answer::Failed) },
        ]
        &&& post.state_ids() == ids
        &&& post.next_id() == next + 1
        &&& post.is_running()
        &&& !post.top_active()
    }

    /// The three ways a push chain can end, by the recorded answer of the
    /// pushed state's own `start`; chains that push or switch further are
    /// pinned down only up to `push_begun`.
    pub open spec fn push_outcome(
        h: Seq<Ev>,
        ids: Seq<nat>,
        next: nat,
        r_is_ok: bool,
        post: Self,
    ) -> bool {
        &&& Self::push_begun(h, ids, next, post)
        &&& (post.history()[h.len() as int + 1].call == Call::Start(Answer::Stay) ==> r_is_ok
            && Self::after_push_stay(h, ids, next, post))
        &&& (post.history()[h.len() as int + 1].call == Call::Start(Answer::Quit) ==> r_is_ok
            && Self::after_push_quit(h, ids, next, post))
        &&& (post.history()[h.len() as int + 1].call == Call::Start(Answer::Failed) ==> !r_is_ok
            && Self::after_push_failed(h, ids, next, post))
    }

    /// What interpreting `Trans::Switch(n)` records first, whatever `n`'s
    /// own `start` chain then does: the old top is paused, stopped and
    /// removed, and `n` receives its one `start` under the fresh id `next`.
    pub open spec fn switch_begun(h: Seq<Ev>, ids: Seq<nat>, next: nat, post: Self) -> bool {
        &&& post.history().len() >= h.len() + 3
        &&& post.history()[h.len() as int] == (Ev { id: ids[ids.len() - 1], call: Call::Pause })
        &&& post.history()[h.len() as int + 1] == (Ev { id: ids[ids.len() - 1], call: Call::Stop })
        &&& post.history()[h.len() as int + 2].id == next
        &&& post.history()[h.len() as int + 2].call is Start
        &&& next < post.next_id()
    }

    /// The outcome of `Trans::Switch(n)` when `n`'s own `start` answered
    /// `Stay`: the old top is paused, stopped and dropped; `n` is started,
    /// resumed and takes its place; the stack depth is unchanged.
    pub open spec fn after_switch_stay(h: Seq<Ev>, ids: Seq<nat>, next: nat, post: Self) -> bool {
        &&& post.history() == h + seq![
            Ev { id: ids[ids.len() - 1], call: Call::Pause },
            Ev { id: ids[ids.len() - 1], call: Call::Stop },
            Ev { id: next, call: Call::Start(Answer::Stay) },
            Ev { id: next, call: Call::Resume },
        ]
        &&& post.state_ids() == ids.drop_last().push(next)
        &&& post.next_id() == next + 1
        &&& post.is_running()
        &&& post.top_active()
    }

    /// The outcome of `Trans::Switch(n)` when `n`'s own `start` answered
    /// `Quit`: the old top was already stopped, so the states below it are
    /// stopped top to bottom; `n` is discarded without further calls.
    pub open spec fn after_switch_quit(h: Seq<Ev>, ids: Seq<nat>, next: nat, post: Self) -> bool {
        &&& post.history() == h + seq![
            Ev { id: ids[ids.len() - 1], call: Call::Pause },
            Ev { id: ids[ids.len() - 1], call: Call::Stop },
            Ev { id: next, call: Call::Start(Answer::Quit) },
        ] + stops_of(ids.drop_last())
        &&& post.state_ids() == Seq::<nat>::empty()
        &&& post.next_id() == next + 1
        &&& !post.is_running()
        &&& !post.top_active()
    }

    /// The outcome of `Trans::Switch(n)` when `n`'s own `start` failed: the
    /// old top is already stopped and gone, `n` is discarded, and the error
    /// propagates; a failed switch of the only state leaves the machine
    /// empty and shut down.
    pub open spec fn after_switch_failed(
        h: Seq<Ev>,
        ids: Seq<nat>,
        next: nat,
        post: Self,
    ) -> bool {
        &&& post.history() == h + seq![
            Ev { id: ids[ids.len() - 1], call: Call::Pause },
            Ev { id: ids[ids.len() - 1], call: Call::Stop },
            Ev { id: next, call: Call::Start(Answer::Failed) },
        ]
        &&& post.state_ids() == ids.drop_last()
        &&& post.next_id() == next + 1
        &&& post.is_running() == (ids.len() > 1)
        &&& !post.top_active()
    }

    /// The three ways a switch chain can end, by the recorded answer of the
    /// switched-in state's own `start`; chains that push or switch further
    /// are pinned down only up to `switch_begun`.
    pub open spec fn switch_outcome(
        h: Seq<Ev>,
        ids: Seq<nat>,
        next: nat,
        r_is_ok: bool,
        post: Self,
    ) -> bool {
        &&& Self::switch_begun(h, ids, next, post)
        &&& (post.history()[h.len() as int + 2].call == Call::Start(Answer::Stay) ==> r_is_ok
            && Self::after_switch_stay(h, ids, next, post))
        &&& (post.history()[h.len() as int + 2].call == Call::Start(Answer::Quit) ==> r_is_ok
            && Self::after_switch_quit(h, ids, next, post))
        &&& (post.history()[h.len() as int + 2].call == Call::Start(Answer::Failed) ==> !r_is_ok
            && Self::after_switch_failed(h, ids, next, post))
    }

    /// The outcome of one lifecycle entry point, read off the recorded entry
    /// event `e`: per answer the state gave, what the history, the stack ids,
    /// the id counter, the flags and the result are. `was_running` is the
    /// flag before the entry point ran (false only for `start`), which the
    /// machine keeps when the entry callback itself fails.
    pub open spec fn entry_outcome(
        h0: Seq<Ev>,
        ids: Seq<nat>,
        next: nat,
        e: Ev,
        r_is_ok: bool,
        was_running: bool,
        post: Self,
    ) -> bool {
        let h = h0.push(e);
        match e.call {
            Call::Start(a) | Call::Update(a) | Call::FixedUpdate(a) | Call::Event(a) => match a {
                Answer::Stay => r_is_ok && Self::after_stay(h, ids, next, post),
                Answer::Quit => r_is_ok && Self::after_quit(h, ids, next, post),
                Answer::Pop => r_is_ok && Self::after_pop(h, ids, next, post),
                Answer::Push => Self::push_outcome(h, ids, next, r_is_ok, post),
                Answer::Switch => Self::switch_outcome(h, ids, next, r_is_ok, post),
                Answer::Failed => {
                    &&& !r_is_ok
                    &&& post.history() == h
                    &&& post.state_ids() == ids
                    &&& post.next_id() == next
                    &&& post.is_running() == was_running
                    &&& post.top_active() == was_running
                },
            },
            _ => true,
        }
    }

    /// Creates a new state machine with a given `initial` state: its stack
    /// holds exactly that state, which has received no call yet.
    pub fn new(initial: S) -> (m: Self)
        ensures
            m.wf(),
            m.fresh(),
            !m.is_running(),
            m.depth() == 1,
            m.states() == seq![initial],
            m.state_ids() == seq![0nat],
            m.next_id() == 1,
    {
        let ghost initial_ids: Seq<nat> = seq![0nat];
        let m = StateMachine {
            marker: PhantomData,
            running: false,
            active: false,
            stack: vec![initial],
            events: Ghost(Seq::empty()),
            ids: Ghost(initial_ids),
            next: Ghost(1nat),
        };
        proof {
            assert(m.stack@ =~= seq![initial]);
        }
        m
    }

    /// Checks if the state machine is running.
    ///
    /// A pure read: it can change nothing, and repeated calls return the
    /// same flag.
    pub fn running(&self) -> (r: bool)
        ensures
            r == self.is_running(),
    {
        self.running
    }

    /// The claim that the machine is running, stated as a precondition:
    /// verified callers discharge this misuse check statically.
    pub fn assert_running(&self)
        requires
            self.is_running(),
    {
    }

    /// Exclusive access to the current top of the stack: the returned
    /// reference is to the last stacked state, and only that element changes
    /// through it.
    ///
    /// Whatever the caller does to the state itself, the machine's flags,
    /// history and id bookkeeping are untouched.
    pub fn last(&mut self) -> (s: &mut S)
        requires
            old(self).depth() > 0,
        ensures
            *s == old(self).states()[old(self).depth() - 1],
            final(self).states() == old(self).states().update(
                old(self).depth() - 1,
                *final(s),
            ),
            final(self).depth() == old(self).depth(),
            final(self).is_running() == old(self).is_running(),
            final(self).top_active() == old(self).top_active(),
            final(self).history() == old(self).history(),
            final(self).state_ids() == old(self).state_ids(),
            final(self).next_id() == old(self).next_id(),
            old(self).wf() ==> final(self).wf(),
            old(self).fresh() ==> final(self).fresh(),
    {
        let i: usize = self.stack.len() - 1;
        &mut self.stack[i]
    }
}

impl<A: Clone, E, F, S: State<A, E, F>> StateMachine<A, E, F, S> {
    /// Pauses the current top of the stack and records the call.
    fn pause_top(&mut self, args: A)
        requires
            old(self).mid_ok(),
            old(self).top_active(),
        ensures
            final(self).mid_ok(),
            !final(self).top_active(),
            final(self).is_running() == old(self).is_running(),
            final(self).depth() == old(self).depth(),
            final(self).state_ids() == old(self).state_ids(),
            final(self).next_id() == old(self).next_id(),
            final(self).history() == old(self).history().push(
                Ev { id: old(self).top_id(), call: Call::Pause },
            ),
            final(self).top_phase() == Phase::Paused,
            forall|id: nat|
                id != old(self).top_id() ==> phase_of(final(self).history(), id) == phase_of(
                    old(self).history(),
                    id,
                ),
    {
        let mut top = self.stack.pop().unwrap();
        top.pause(args);
        self.stack.push(top);
        let ghost pre = self.events@;
        let ghost ev = Ev { id: self.ids@.last(), call: Call::Pause };
        self.events = Ghost(pre.push(ev));
        self.active = false;
        proof {
            let n = self.ids@.len() as int;
            lemma_append_ok(pre, ev);
            assert forall|i: int| 0 <= i < n - 1 implies phase_of(self.events@, self.ids@[i])
                == Phase::Paused by {
                assert(old(self).phase_at(i) == Phase::Paused);
                assert(old(self).state_ids()[i] != old(self).state_ids()[n - 1]);
                assert(self.ids@[i] != ev.id);
            }
            assert forall|id: nat| id >= self.next@ implies phase_of(self.events@, id)
                == Phase::Unborn by {
                assert(ev.id < self.next@);
                assert(phase_of(pre, id) == Phase::Unborn);
            }
            assert(self.stack@.len() == old(self).stack@.len());
        }
    }

    /// Pauses (if still active) and stops the current top of the stack, then
    /// removes it. The removed state is dropped by the caller.
    fn stop_top(&mut self, args: A) -> (s: S)
        requires
            old(self).mid_ok(),
            old(self).depth() > 0,
        ensures
            final(self).mid_ok(),
            !final(self).top_active(),
            final(self).is_running() == old(self).is_running(),
            final(self).depth() == old(self).depth() - 1,
            final(self).state_ids() == old(self).state_ids().drop_last(),
            final(self).next_id() == old(self).next_id(),
            final(self).history() == old(self).history() + (if old(self).top_active() {
                seq![Ev { id: old(self).top_id(), call: Call::Pause }]
            } else {
                Seq::<Ev>::empty()
            }) + seq![Ev { id: old(self).top_id(), call: Call::Stop }],
            forall|id: nat|
                id != old(self).top_id() ==> phase_of(final(self).history(), id) == phase_of(
                    old(self).history(),
                    id,
                ),
            phase_of(final(self).history(), old(self).top_id()) == Phase::Dead,
    {
        if self.active {
            self.pause_top(args.clone());
        }
        let mut top = self.stack.pop().unwrap();
        let ghost oid = self.ids@.last();
        let ghost n = self.ids@.len() as int;
        self.ids = Ghost(self.ids@.drop_last());
        top.stop(args.clone());
        let ghost pre = self.events@;
        let ghost ev = Ev { id: oid, call: Call::Stop };
        self.events = Ghost(pre.push(ev));
        proof {
            lemma_append_ok(pre, ev);
            assert forall|i: int| 0 <= i < self.ids@.len() - 1 implies phase_of(
                self.events@,
                self.ids@[i],
            ) == Phase::Paused by {
                assert(old(self).state_ids()[i] != old(self).state_ids()[n - 1]);
                assert(phase_of(pre, self.ids@[i]) == phase_of(
                    old(self).history(),
                    self.ids@[i],
                ));
                assert(old(self).phase_at(i) == Phase::Paused);
            }
            assert forall|id: nat| id >= self.next@ implies phase_of(self.events@, id)
                == Phase::Unborn by {
                assert(ev.id < self.next@);
                assert(phase_of(pre, id) == phase_of(old(self).history(), id));
                assert(phase_of(old(self).history(), id) == Phase::Unborn);
            }
            if self.ids@.len() > 0 {
                assert(old(self).state_ids()[n - 2] != old(self).state_ids()[n - 1]);
                assert(phase_of(pre, self.ids@[n - 2]) == phase_of(
                    old(self).history(),
                    self.ids@[n - 2],
                ));
                assert(old(self).phase_at(n - 2) == Phase::Paused);
                assert(self.top_phase() == Phase::Paused);
            }
            assert(self.events@ =~= old(self).history() + (if old(self).top_active() {
                seq![Ev { id: old(self).top_id(), call: Call::Pause }]
            } else {
                Seq::<Ev>::empty()
            }) + seq![Ev { id: old(self).top_id(), call: Call::Stop }]);
            assert forall|id: nat| id != old(self).top_id() implies phase_of(
                self.events@,
                id,
            ) == phase_of(old(self).history(), id) by {
                assert(phase_of(pre, id) == phase_of(old(self).history(), id));
            }
        }
        top
    }

    /// Resumes the current (paused) top of the stack and records the call.
    fn resume_top(&mut self, args: A)
        requires
            old(self).mid_ok(),
            old(self).is_running(),
            old(self).depth() > 0,
            !old(self).top_active(),
        ensures
            final(self).mid_ok(),
            final(self).top_active(),
            final(self).is_running() == old(self).is_running(),
            final(self).depth() == old(self).depth(),
            final(self).state_ids() == old(self).state_ids(),
            final(self).next_id() == old(self).next_id(),
            final(self).history() == old(self).history().push(
                Ev { id: old(self).top_id(), call: Call::Resume },
            ),
    {
        let mut top = self.stack.pop().unwrap();
        top.resume(args);
        self.stack.push(top);
        let ghost pre = self.events@;
        let ghost n = self.ids@.len() as int;
        let ghost ev = Ev { id: self.ids@.last(), call: Call::Resume };
        self.events = Ghost(pre.push(ev));
        self.active = true;
        proof {
            lemma_append_ok(pre, ev);
            assert forall|i: int| 0 <= i < n - 1 implies phase_of(self.events@, self.ids@[i])
                == Phase::Paused by {
                assert(old(self).phase_at(i) == Phase::Paused);
                assert(old(self).state_ids()[i] != old(self).state_ids()[n - 1]);
            }
            assert forall|id: nat| id >= self.next@ implies phase_of(self.events@, id)
                == Phase::Unborn by {
                assert(ev.id < self.next@);
                assert(phase_of(pre, id) == Phase::Unborn);
            }
            assert(self.stack@.len() == old(self).stack@.len());
        }
    }

    /// Assigns a fresh id to a newly handed-over state and issues its one
    /// `start` call, recording the answer. The state is not placed on the
    /// stack; the caller holds it (and its returned transition) until its
    /// chain resolves.
    fn start_fresh(&mut self, args: A, s: S) -> (out: (S, Result<Trans<S>, E>))
        requires
            old(self).mid_ok(),
            !old(self).top_active(),
        ensures
            final(self).mid_ok(),
            !final(self).top_active(),
            final(self).is_running() == old(self).is_running(),
            final(self).depth() == old(self).depth(),
            final(self).state_ids() == old(self).state_ids(),
            final(self).next_id() == old(self).next_id() + 1,
            final(self).history() == old(self).history().push(
                Ev { id: old(self).next_id(), call: Call::Start(answer_of(out.1)) },
            ),
            phase_of(final(self).history(), old(self).next_id()) == Phase::Started,
            forall|id: nat|
                id != old(self).next_id() ==> phase_of(final(self).history(), id) == phase_of(
                    old(self).history(),
                    id,
                ),
    {
        let mut s = s;
        let ghost sid = self.next@;
        self.next = Ghost(self.next@ + 1);
        let res = s.start(args);
        let ghost pre = self.events@;
        let ghost ev = Ev { id: sid, call: Call::Start(answer_of(res)) };
        self.events = Ghost(pre.push(ev));
        proof {
            assert(phase_of(pre, sid) == Phase::Unborn);
            lemma_append_ok(pre, ev);
            assert forall|i: int| 0 <= i < self.ids@.len() - 1 implies phase_of(
                self.events@,
                self.ids@[i],
            ) == Phase::Paused by {
                assert(old(self).phase_at(i) == Phase::Paused);
                assert(old(self).state_ids()[i] < sid);
            }
            assert forall|i: int| 0 <= i < self.ids@.len() implies self.ids@[i] < self.next@ by {
                assert(old(self).state_ids()[i] < sid);
            }
            assert forall|id: nat| id >= self.next@ implies phase_of(self.events@, id)
                == Phase::Unborn by {
                assert(phase_of(pre, id) == Phase::Unborn);
            }
            if self.ids@.len() > 0 {
                assert(old(self).state_ids()[self.ids@.len() - 1] < sid);
            }
        }
        (s, res)
    }

    /// Tears the whole stack down: pauses the top if it is still active, then
    /// pops and stops every state from top to bottom, then marks the machine
    /// not running. Pending (never placed) states are not its concern; it
    /// touches only what is on the stack.
    fn teardown(&mut self, args: A)
        requires
            old(self).mid_ok(),
        ensures
            final(self).mid_ok(),
            !final(self).is_running(),
            !final(self).top_active(),
            final(self).depth() == 0,
            final(self).state_ids() == Seq::<nat>::empty(),
            final(self).next_id() == old(self).next_id(),
            final(self).history() == old(self).history() + (if old(self).top_active() {
                seq![Ev { id: old(self).top_id(), call: Call::Pause }]
            } else {
                Seq::<Ev>::empty()
            }) + stops_of(old(self).state_ids()),
            forall|id: nat|
                !old(self).state_ids().contains(id) ==> phase_of(final(self).history(), id)
                    == phase_of(old(self).history(), id),
    {
        if self.active {
            self.pause_top(args.clone());
        }
        let ghost base = self.events@;
        let ghost all_ids = self.ids@;
        proof {
            assert(base =~= old(self).history() + (if old(self).top_active() {
                seq![Ev { id: old(self).top_id(), call: Call::Pause }]
            } else {
                Seq::<Ev>::empty()
            }));
            assert(all_ids.take(all_ids.len() as int) =~= all_ids);
            assert(stops_of(all_ids).take(0) =~= Seq::<Ev>::empty());
            assert(base + Seq::<Ev>::empty() =~= base);
            assert forall|i: int| 0 <= i < self.ids@.len() implies phase_of(
                self.events@,
                self.ids@[i],
            ) == Phase::Paused by {
                if i == self.ids@.len() - 1 {
                    assert(self.top_phase() == Phase::Paused);
                } else {
                    assert(self.phase_at(i) == Phase::Paused);
                }
            }
            assert forall|id: nat| !all_ids.contains(id) implies phase_of(self.events@, id)
                == phase_of(old(self).history(), id) by {
                if old(self).top_active() {
                    assert(all_ids[all_ids.len() - 1] == old(self).top_id());
                    assert(id != old(self).top_id());
                }
            }
        }
        while self.stack.len() > 0
            invariant
                forall|id: nat|
                    !all_ids.contains(id) ==> phase_of(self.events@, id) == phase_of(
                        old(self).history(),
                        id,
                    ),
                self.mid_ok(),
                !self.top_active(),
                self.is_running() == old(self).is_running(),
                self.next@ == old(self).next@,
                self.ids@.len() == self.stack@.len(),
                self.ids@.len() <= all_ids.len(),
                self.ids@ == all_ids.take(self.ids@.len() as int),
                forall|i: int, j: int|
                    0 <= i < j < all_ids.len() ==> all_ids[i] != all_ids[j],
                forall|i: int| 0 <= i < all_ids.len() ==> all_ids[i] < self.next@,
                forall|i: int|
                    0 <= i < self.ids@.len() ==> phase_of(self.events@, self.ids@[i])
                        == Phase::Paused,
                self.events@ == base + stops_of(all_ids).take(
                    all_ids.len() - self.ids@.len(),
                ),
            decreases self.stack@.len(),
        {
            let mut s = self.stack.pop().unwrap();
            let ghost oid = self.ids@.last();
            let ghost len_before = self.ids@.len() as int;
            self.ids = Ghost(self.ids@.drop_last());
            s.stop(args.clone());
            let ghost pre = self.events@;
            let ghost ev = Ev { id: oid, call: Call::Stop };
            self.events = Ghost(pre.push(ev));
            proof {
                let n = all_ids.len() as int;
                lemma_append_ok(pre, ev);
                assert(oid == all_ids[len_before - 1]);
                assert(self.ids@ =~= all_ids.take(len_before - 1));
                assert forall|i: int| 0 <= i < self.ids@.len() implies phase_of(
                    self.events@,
                    self.ids@[i],
                ) == Phase::Paused by {
                    assert(self.ids@[i] == all_ids[i]);
                    assert(all_ids[i] != all_ids[len_before - 1]);
                    assert(phase_of(pre, self.ids@[i]) == Phase::Paused);
                }
                assert forall|id: nat| id >= self.next@ implies phase_of(self.events@, id)
                    == Phase::Unborn by {
                    assert(ev.id < self.next@);
                    assert(phase_of(pre, id) == Phase::Unborn);
                }
                assert(stops_of(all_ids)[n - len_before] == ev);
                assert(self.events@ =~= base + stops_of(all_ids).take(n - len_before + 1));
                assert forall|id: nat| !all_ids.contains(id) implies phase_of(self.events@, id)
                    == phase_of(old(self).history(), id) by {
                    assert(all_ids[len_before - 1] == oid);
                    assert(id != oid);
                    assert(phase_of(pre, id) == phase_of(old(self).history(), id));
                }
            }
        }
        self.running = false;
        self.active = false;
        proof {
            assert(stops_of(all_ids).take(all_ids.len() as int) =~= stops_of(all_ids));
            assert(self.ids@ =~= Seq::<nat>::empty());
            assert(self.events@ =~= old(self).history() + (if old(self).top_active() {
                seq![Ev { id: old(self).top_id(), call: Call::Pause }]
            } else {
                Seq::<Ev>::empty()
            }) + stops_of(old(self).state_ids()));
        }
    }

    /// Resumes a state whose `start` chain has resolved and places it on
    /// the stack as the new current top.
    fn place(&mut self, args: A, s: S, Ghost(sid): Ghost<nat>)
        requires
            old(self).mid_ok(),
            old(self).is_running(),
            !old(self).top_active(),
            phase_of(old(self).history(), sid) == Phase::Started,
            sid < old(self).next_id(),
            forall|j: int|
                0 <= j < old(self).state_ids().len() ==> sid != old(self).state_ids()[j],
        ensures
            final(self).mid_ok(),
            final(self).is_running(),
            final(self).top_active(),
            final(self).state_ids() == old(self).state_ids().push(sid),
            final(self).next_id() == old(self).next_id(),
            final(self).history() == old(self).history().push(
                Ev { id: sid, call: Call::Resume },
            ),
    {
        let mut s = s;
        s.resume(args);
        let ghost pre = self.events@;
        let ghost ev = Ev { id: sid, call: Call::Resume };
        self.events = Ghost(pre.push(ev));
        self.stack.push(s);
        let ghost n1 = self.ids@.len() as int;
        self.ids = Ghost(self.ids@.push(sid));
        self.active = true;
        proof {
            lemma_append_ok(pre, ev);
            if n1 > 0 {
                assert(old(self).top_phase() == Phase::Paused);
            }
            assert forall|i: int, j: int| 0 <= i < j < self.ids@.len() implies self.ids@[i]
                != self.ids@[j] by {
                if j < n1 {
                    assert(old(self).state_ids()[i] != old(self).state_ids()[j]);
                } else {
                    assert(sid != old(self).state_ids()[i]);
                }
            }
            assert forall|i: int| 0 <= i < self.ids@.len() implies self.ids@[i] < self.next@ by {
                if i < n1 {
                    assert(old(self).state_ids()[i] < old(self).next_id());
                }
            }
            assert forall|i: int| 0 <= i < self.ids@.len() - 1 implies phase_of(
                self.events@,
                self.ids@[i],
            ) == Phase::Paused by {
                assert(sid != old(self).state_ids()[i]);
                assert(phase_of(pre, old(self).state_ids()[i]) == Phase::Paused);
            }
            assert forall|id: nat| id >= self.next@ implies phase_of(self.events@, id)
                == Phase::Unborn by {
                assert(sid < self.next@);
                assert(phase_of(pre, id) == Phase::Unborn);
            }
            assert(self.top_phase() == Phase::Live);
        }
    }

    /// Interprets a transition returned by a lifecycle call. A pushed or
    /// switched-in state's own `start` chain resolves fully before that
    /// state is resumed and placed on the stack. A `Quit`, or a `Pop` that
    /// empties the stack, shuts the machine down; states whose chains were
    /// still unresolved are then discarded without further calls. A callback
    /// error aborts the whole chain at once; nothing already done is rolled
    /// back.
    #[verifier::rlimit(100)]
    fn interpret(&mut self, args: A, t: Trans<S>) -> (r: Result<(), E>)
        requires
            old(self).mid_ok(),
            old(self).is_running(),
            old(self).depth() > 0,
            old(self).top_active(),
        ensures
            final(self).mid_ok(),
            old(self).history().is_prefix_of(final(self).history()),
            old(self).next_id() <= final(self).next_id(),
            final(self).is_running() ==> final(self).depth() > 0,
            !final(self).is_running() ==> final(self).depth() == 0 && !final(self).top_active(),
            r is Ok && final(self).is_running() ==> final(self).top_active(),
            t is Stay ==> r is Ok && Self::after_stay(
                old(self).history(),
                old(self).state_ids(),
                old(self).next_id(),
                *final(self),
            ),
            t is Quit ==> r is Ok && Self::after_quit(
                old(self).history(),
                old(self).state_ids(),
                old(self).next_id(),
                *final(self),
            ),
            t is Pop ==> r is Ok && Self::after_pop(
                old(self).history(),
                old(self).state_ids(),
                old(self).next_id(),
                *final(self),
            ),
            t is Push ==> Self::push_outcome(
                old(self).history(),
                old(self).state_ids(),
                old(self).next_id(),
                r is Ok,
                *final(self),
            ),
            t is Switch ==> Self::switch_outcome(
                old(self).history(),
                old(self).state_ids(),
                old(self).next_id(),
                r is Ok,
                *final(self),
            ),
    {
        let ghost h0 = self.events@;
        let ghost ids0 = self.ids@;
        match t {
            Trans::Stay => Ok(()),
            Trans::Quit => {
                self.teardown(args);
                proof {
                    assert(self.events@ =~= h0 + seq![
                        Ev { id: ids0[ids0.len() - 1], call: Call::Pause },
                    ] + stops_of(ids0));
                    assert(h0.is_prefix_of(self.events@)) by {
                        assert(h0 =~= self.events@.subrange(0, h0.len() as int));
                    }
                }
                Ok(())
            },
            Trans::Pop => {
                let _dead = self.stop_top(args.clone());
                if self.stack.len() == 0 {
                    self.running = false;
                } else {
                    self.resume_top(args.clone());
                }
                proof {
                    assert(self.events@ =~= h0 + seq![
                        Ev { id: ids0[ids0.len() - 1], call: Call::Pause },
                        Ev { id: ids0[ids0.len() - 1], call: Call::Stop },
                    ] + (if ids0.len() > 1 {
                        seq![Ev { id: ids0[ids0.len() - 2], call: Call::Resume }]
                    } else {
                        Seq::<Ev>::empty()
                    }));
                    assert(h0.is_prefix_of(self.events@)) by {
                        assert(h0 =~= self.events@.subrange(0, h0.len() as int));
                    }
                }
                Ok(())
            },
            Trans::Push(s) => {
                self.pause_top(args.clone());
                let ghost sid = self.next@;
                let (s, res) = self.start_fresh(args.clone(), s);
                let ghost h2 = self.events@;
                match res {
                    Result::Err(e) => {
                        proof {
                            assert(self.events@ =~= h0 + seq![
                                Ev { id: ids0[ids0.len() - 1], call: Call::Pause },
                                Ev { id: sid, call: Call::Start(Answer::Failed) },
                            ]);
                            assert(h0.is_prefix_of(self.events@)) by {
                                assert(h0 =~= self.events@.subrange(0, h0.len() as int));
                            }
                        }
                        Result::Err(e)
                    },
                    Result::Ok(t2) => match t2 {
                        Trans::Stay => {
                            proof {
                                assert forall|j: int|
                                    0 <= j < self.ids@.len() implies sid != self.ids@[j] by {
                                    assert(ids0[j] < sid);
                                }
                            }
                            self.place(args, s, Ghost(sid));
                            proof {
                                assert(self.events@ =~= h0 + seq![
                                    Ev { id: ids0[ids0.len() - 1], call: Call::Pause },
                                    Ev { id: sid, call: Call::Start(Answer::Stay) },
                                    Ev { id: sid, call: Call::Resume },
                                ]);
                                assert(self.ids@ =~= ids0.push(sid));
                                assert(h0.is_prefix_of(self.events@)) by {
                                    assert(h0 =~= self.events@.subrange(0, h0.len() as int));
                                }
                            }
                            Ok(())
                        },
                        Trans::Quit => {
                            // the pushed state is dropped here, never resumed
                            self.teardown(args);
                            proof {
                                assert(self.events@ =~= h0 + seq![
                                    Ev { id: ids0[ids0.len() - 1], call: Call::Pause },
                                    Ev { id: sid, call: Call::Start(Answer::Quit) },
                                ] + stops_of(ids0));
                                assert(h0.is_prefix_of(self.events@)) by {
                                    assert(h0 =~= self.events@.subrange(0, h0.len() as int));
                                }
                            }
                            Ok(())
                        },
                        _ => {
                            let r = self.run_chain(args, s, Ghost(sid), t2);
                            proof {
                                let l = h0.len() as int;
                                assert(h2 =~= self.events@.subrange(0, h2.len() as int));
                                assert(self.events@[l] == h2[l]);
                                assert(self.events@[l + 1] == h2[l + 1]);
                                assert(h0.is_prefix_of(self.events@)) by {
                                    assert(h0 =~= self.events@.subrange(0, h0.len() as int));
                                }
                            }
                            r
                        },
                    },
                }
            },
            Trans::Switch(s) => {
                let _dead = self.stop_top(args.clone());
                let ghost sid = self.next@;
                let ghost h1 = self.events@;
                proof {
                    assert(h1 =~= h0 + seq![
                        Ev { id: ids0[ids0.len() - 1], call: Call::Pause },
                        Ev { id: ids0[ids0.len() - 1], call: Call::Stop },
                    ]);
                }
                let (s, res) = self.start_fresh(args.clone(), s);
                let ghost h2 = self.events@;
                match res {
                    Result::Err(e) => {
                        if self.stack.len() == 0 {
                            self.running = false;
                        }
                        proof {
                            assert(self.events@ =~= h0 + seq![
                                Ev { id: ids0[ids0.len() - 1], call: Call::Pause },
                                Ev { id: ids0[ids0.len() - 1], call: Call::Stop },
                                Ev { id: sid, call: Call::Start(Answer::Failed) },
                            ]);
                            assert(h0.is_prefix_of(self.events@)) by {
                                assert(h0 =~= self.events@.subrange(0, h0.len() as int));
                            }
                        }
                        Result::Err(e)
                    },
                    Result::Ok(t2) => match t2 {
                        Trans::Stay => {
                            proof {
                                assert forall|j: int|
                                    0 <= j < self.ids@.len() implies sid != self.ids@[j] by {
                                    assert(self.ids@[j] == ids0[j]);
                                    assert(ids0[j] < sid);
                                }
                            }
                            self.place(args, s, Ghost(sid));
                            proof {
                                assert(self.events@ =~= h0 + seq![
                                    Ev { id: ids0[ids0.len() - 1], call: Call::Pause },
                                    Ev { id: ids0[ids0.len() - 1], call: Call::Stop },
                                    Ev { id: sid, call: Call::Start(Answer::Stay) },
                                    Ev { id: sid, call: Call::Resume },
                                ]);
                                assert(self.ids@ =~= ids0.drop_last().push(sid));
                                assert(h0.is_prefix_of(self.events@)) by {
                                    assert(h0 =~= self.events@.subrange(0, h0.len() as int));
                                }
                            }
                            Ok(())
                        },
                        Trans::Quit => {
                            // the replacement is dropped here, never resumed
                            self.teardown(args);
                            proof {
                                assert(self.events@ =~= h0 + seq![
                                    Ev { id: ids0[ids0.len() - 1], call: Call::Pause },
                                    Ev { id: ids0[ids0.len() - 1], call: Call::Stop },
                                    Ev { id: sid, call: Call::Start(Answer::Quit) },
                                ] + stops_of(ids0.drop_last()));
                                assert(h0.is_prefix_of(self.events@)) by {
                                    assert(h0 =~= self.events@.subrange(0, h0.len() as int));
                                }
                            }
                            Ok(())
                        },
                        _ => {
                            let r = self.run_chain(args, s, Ghost(sid), t2);
                            proof {
                                let l = h0.len() as int;
                                assert(h2 =~= self.events@.subrange(0, h2.len() as int));
                                assert(self.events@[l] == h2[l]);
                                assert(self.events@[l + 1] == h2[l + 1]);
                                assert(self.events@[l + 2] == h2[l + 2]);
                                assert(h0.is_prefix_of(self.events@)) by {
                                    assert(h0 =~= self.events@.subrange(0, h0.len() as int));
                                }
                            }
                            r
                        },
                    },
                }
            },
        }
    }

    /// Resolves the rest of a push or switch chain: the handed-over state
    /// `first` has had its `start` call (recorded under `first_id`), which
    /// answered with the transition `t`; this runs `t` and everything it
    /// leads to, with an explicit work list of states awaiting placement.
    /// States whose chains are unresolved when the machine shuts down are
    /// discarded without further calls; a callback error aborts the whole
    /// chain at once.
    #[verifier::rlimit(100)]
    fn run_chain(&mut self, args: A, first: S, Ghost(first_id): Ghost<nat>, t: Trans<S>) -> (r:
        Result<(), E>)
        requires
            old(self).mid_ok(),
            old(self).is_running(),
            !old(self).top_active(),
            phase_of(old(self).history(), first_id) == Phase::Started,
            first_id < old(self).next_id(),
            forall|j: int|
                0 <= j < old(self).state_ids().len() ==> first_id != old(self).state_ids()[j],
        ensures
            final(self).mid_ok(),
            old(self).history().is_prefix_of(final(self).history()),
            old(self).next_id() <= final(self).next_id(),
            final(self).is_running() ==> final(self).depth() > 0,
            !final(self).is_running() ==> final(self).depth() == 0 && !final(self).top_active(),
            r is Ok && final(self).is_running() ==> final(self).top_active(),
    {
        let mut pending: Vec<S> = Vec::new();
        pending.push(first);
        let ghost mut pend_ids: Seq<nat> = seq![first_id];
        let mut cur: Trans<S> = t;
        // One chain interprets at most u64::MAX transitions, a bound no
        // feasible execution reaches; it makes the interpreter provably
        // terminating. An exhausted budget ends the chain as if the last
        // lifecycle call had returned no transition.
        let mut fuel: u64 = u64::MAX;
        proof {
            assert(old(self).history().is_prefix_of(self.events@)) by {
                assert(old(self).history() =~= self.events@.subrange(
                    0,
                    old(self).history().len() as int,
                ));
            }
            assert(pend_ids[0] == first_id);
            assert forall|i: int, j: int|
                0 <= i < pend_ids.len() && 0 <= j < self.ids@.len() implies pend_ids[i]
                != self.ids@[j] by {
                assert(first_id != old(self).state_ids()[j]);
            }
        }
        loop
            invariant
                self.mid_ok(),
                pend_ids.len() == pending@.len(),
                forall|i: int, j: int| 0 <= i < j < pend_ids.len() ==> pend_ids[i] != pend_ids[j],
                forall|i: int| 0 <= i < pend_ids.len() ==> pend_ids[i] < self.next@,
                forall|i: int|
                    0 <= i < pend_ids.len() ==> phase_of(self.events@, pend_ids[i])
                        == Phase::Started,
                forall|i: int, j: int|
                    0 <= i < pend_ids.len() && 0 <= j < self.ids@.len() ==> pend_ids[i]
                        != self.ids@[j],
                !(cur is Stay) ==> self.is_running(),
                (!(cur is Stay) && pend_ids.len() == 0) ==> self.top_active(),
                (cur is Stay && pend_ids.len() == 0 && self.is_running()) ==> self.top_active(),
                old(self).history().is_prefix_of(self.events@),
                old(self).next@ <= self.next@,
            decreases fuel, pending@.len(), (if cur is Stay { 0int } else { 1int }),
        {
            let ghost h_iter = self.events@;
            let ghost ids0 = self.ids@;
            let ghost pend0 = pend_ids;
            if fuel == 0 && !(matches!(cur, Trans::Stay)) {
                cur = Trans::Stay;
                continue;
            }
            match cur {
                Trans::Stay => {
                    if pending.len() == 0 {
                        return Ok(());
                    }
                    let s = pending.pop().unwrap();
                    let ghost sid = pend0.last();
                    proof {
                        pend_ids = pend0.drop_last();
                        assert(phase_of(h_iter, pend0[pend0.len() - 1]) == Phase::Started);
                    }
                    if self.running {
                        // Place the resolved state: pause whatever is on top,
                        // then resume the new state and push it.
                        if self.active {
                            proof {
                                assert(pend0[pend0.len() - 1] != ids0[ids0.len() - 1]);
                            }
                            self.pause_top(args.clone());
                        }
                        let mut s = s;
                        s.resume(args.clone());
                        let ghost pre = self.events@;
                        let ghost ev = Ev { id: sid, call: Call::Resume };
                        self.events = Ghost(pre.push(ev));
                        self.stack.push(s);
                        let ghost n1 = ids0.len() as int;
                        self.ids = Ghost(ids0.push(sid));
                        self.active = true;
                        proof {
                            assert(phase_of(pre, sid) == Phase::Started);
                            lemma_append_ok(pre, ev);
                            // the new stack: distinct ids, all below the new
                            // top paused, the new top live
                            assert forall|i: int, j: int| 0 <= i < j < self.ids@.len() implies
                                self.ids@[i] != self.ids@[j] by {
                                if j < n1 {
                                    assert(ids0[i] != ids0[j]);
                                } else {
                                    assert(pend0[pend0.len() - 1] != ids0[i]);
                                }
                            }
                            assert forall|i: int| 0 <= i < self.ids@.len() - 1 implies phase_of(
                                self.events@,
                                self.ids@[i],
                            ) == Phase::Paused by {
                                assert(pend0[pend0.len() - 1] != ids0[i]);
                                if i < n1 - 1 {
                                    assert(ids0[i] != ids0[n1 - 1]);
                                    assert(phase_of(h_iter, ids0[i]) == Phase::Paused);
                                }
                                assert(phase_of(pre, ids0[i]) == Phase::Paused);
                            }
                            assert forall|id: nat| id >= self.next@ implies phase_of(
                                self.events@,
                                id,
                            ) == Phase::Unborn by {
                                assert(phase_of(pre, id) == Phase::Unborn);
                            }
                            assert(self.top_phase() == Phase::Live);
                            // the remaining pending states are untouched
                            assert forall|i: int| 0 <= i < pend_ids.len() implies phase_of(
                                self.events@,
                                pend_ids[i],
                            ) == Phase::Started by {
                                assert(pend0[i] != pend0[pend0.len() - 1]);
                                if ids0.len() > 0 {
                                    assert(pend0[i] != ids0[ids0.len() - 1]);
                                }
                                assert(phase_of(pre, pend0[i]) == phase_of(h_iter, pend0[i]));
                                assert(phase_of(h_iter, pend0[i]) == Phase::Started);
                            }
                            assert forall|i: int, j: int|
                                0 <= i < pend_ids.len() && 0 <= j < self.ids@.len() implies
                                pend_ids[i] != self.ids@[j] by {
                                if j < n1 {
                                    assert(pend0[i] != ids0[j]);
                                } else {
                                    assert(pend0[i] != pend0[pend0.len() - 1]);
                                }
                            }
                        }
                        cur = Trans::Stay;
                    } else {
                        // The machine shut down during the chain: the state
                        // is discarded, never resumed, never placed.
                        cur = Trans::Stay;
                    }
                }
                Trans::Push(s) => {
                    fuel = fuel - 1;
                    if self.active {
                        self.pause_top(args.clone());
                    }
                    let ghost h1 = self.events@;
                    let ghost sid = self.next@;
                    let (s, res) = self.start_fresh(args.clone(), s);
                    proof {
                        assert forall|i: int| 0 <= i < pend0.len() implies phase_of(
                            self.events@,
                            pend0[i],
                        ) == Phase::Started by {
                            if ids0.len() > 0 {
                                assert(pend0[i] != ids0[ids0.len() - 1]);
                            }
                            assert(pend0[i] < sid);
                            assert(phase_of(h1, pend0[i]) == phase_of(h_iter, pend0[i]));
                            assert(phase_of(self.events@, pend0[i]) == phase_of(h1, pend0[i]));
                        }
                    }
                    match res {
                        Result::Err(e) => {
                            if self.stack.len() == 0 {
                                self.running = false;
                            }
                            proof {
                                assert(h_iter.is_prefix_of(self.events@)) by {
                                    assert(h_iter =~= self.events@.subrange(
                                        0,
                                        h_iter.len() as int,
                                    ));
                                }
                                lemma_prefix_trans(old(self).history(), h_iter, self.events@);
                            }
                            return Result::Err(e);
                        }
                        Result::Ok(t2) => {
                            pending.push(s);
                            proof {
                                pend_ids = pend0.push(sid);
                                assert forall|i: int, j: int|
                                    0 <= i < pend_ids.len() && 0 <= j < self.ids@.len() implies
                                    pend_ids[i] != self.ids@[j] by {
                                    assert(self.ids@[j] == ids0[j]);
                                    assert(ids0[j] < sid);
                                    if i < pend0.len() {
                                        assert(pend0[i] != ids0[j]);
                                    }
                                }
                            }
                            cur = t2;
                        }
                    }
                }
                Trans::Switch(s) => {
                    fuel = fuel - 1;
                    if self.stack.len() > 0 {
                        let _dead = self.stop_top(args.clone());
                    }
                    let ghost h1 = self.events@;
                    let ghost ids1 = self.ids@;
                    let ghost sid = self.next@;
                    let (s, res) = self.start_fresh(args.clone(), s);
                    proof {
                        assert forall|i: int| 0 <= i < pend0.len() implies phase_of(
                            self.events@,
                            pend0[i],
                        ) == Phase::Started by {
                            if ids0.len() > 0 {
                                assert(pend0[i] != ids0[ids0.len() - 1]);
                            }
                            assert(pend0[i] < sid);
                            assert(phase_of(h1, pend0[i]) == phase_of(h_iter, pend0[i]));
                            assert(phase_of(self.events@, pend0[i]) == phase_of(h1, pend0[i]));
                        }
                    }
                    match res {
                        Result::Err(e) => {
                            if self.stack.len() == 0 {
                                self.running = false;
                            }
                            proof {
                                assert(h_iter.is_prefix_of(self.events@)) by {
                                    assert(h_iter =~= self.events@.subrange(
                                        0,
                                        h_iter.len() as int,
                                    ));
                                }
                                lemma_prefix_trans(old(self).history(), h_iter, self.events@);
                            }
                            return Result::Err(e);
                        }
                        Result::Ok(t2) => {
                            pending.push(s);
                            proof {
                                pend_ids = pend0.push(sid);
                                assert forall|i: int, j: int|
                                    0 <= i < pend_ids.len() && 0 <= j < self.ids@.len() implies
                                    pend_ids[i] != self.ids@[j] by {
                                    assert(self.ids@[j] == ids1[j]);
                                    assert(ids1[j] == ids0[j]);
                                    assert(ids0[j] < sid);
                                    if i < pend0.len() {
                                        assert(pend0[i] != ids0[j]);
                                    }
                                }
                            }
                            cur = t2;
                        }
                    }
                }
                Trans::Pop => {
                    fuel = fuel - 1;
                    if self.stack.len() == 0 {
                        // A switched-out hole is being popped: nothing is
                        // left to remove, the machine shuts down.
                        self.running = false;
                        cur = Trans::Stay;
                    } else {
                        let _dead = self.stop_top(args.clone());
                        let ghost h1 = self.events@;
                        if self.stack.len() == 0 {
                            self.running = false;
                        } else if pending.len() == 0 {
                            self.resume_top(args.clone());
                        }
                        proof {
                            assert forall|i: int| 0 <= i < pend_ids.len() implies phase_of(
                                self.events@,
                                pend_ids[i],
                            ) == Phase::Started by {
                                assert(pend0[i] != ids0[ids0.len() - 1]);
                                if ids0.len() > 1 {
                                    assert(pend0[i] != ids0[ids0.len() - 2]);
                                }
                                assert(phase_of(h1, pend0[i]) == phase_of(h_iter, pend0[i]));
                                assert(phase_of(self.events@, pend0[i]) == phase_of(
                                    h1,
                                    pend0[i],
                                ));
                            }
                        }
                        cur = Trans::Stay;
                    }
                }
                Trans::Quit => {
                    fuel = fuel - 1;
                    self.teardown(args.clone());
                    proof {
                        assert forall|i: int| 0 <= i < pend_ids.len() implies phase_of(
                            self.events@,
                            pend_ids[i],
                        ) == Phase::Started by {
                            assert(!ids0.contains(pend0[i])) by {
                                if ids0.contains(pend0[i]) {
                                    let j = choose|j: int|
                                        0 <= j < ids0.len() && ids0[j] == pend0[i];
                                    assert(pend0[i] != ids0[j]);
                                }
                            }
                            assert(phase_of(h_iter, pend0[i]) == Phase::Started);
                        }
                    }
                    cur = Trans::Stay;
                }
            }
            proof {
                assert(h_iter.is_prefix_of(self.events@)) by {
                    assert(h_iter =~= self.events@.subrange(0, h_iter.len() as int));
                }
                lemma_prefix_trans(old(self).history(), h_iter, self.events@);
            }
        }
    }

    /// Starts the state machine, calling `start` on the initial state and
    /// interpreting the transition it returns. The machine is marked running
    /// as soon as that first `start` call succeeds; a `Quit` (or a `Pop`) in
    /// the opening chain can shut it down again before this returns.
    ///
    /// Starting a machine twice, or one already shut down, is a misuse; the
    /// precondition admits a freshly created machine only.
    pub fn start(&mut self, args: A) -> (r: Result<(), E>)
        requires
            old(self).wf(),
            old(self).fresh(),
        ensures
            final(self).wf(),
            old(self).history().is_prefix_of(final(self).history()),
            final(self).history().len() > 0,
            final(self).history()[0].id == old(self).state_ids()[0],
            final(self).history()[0].call is Start,
            old(self).next_id() <= final(self).next_id(),
            r is Ok ==> (final(self).is_running() <==> final(self).depth() > 0),
            r is Ok && final(self).is_running() ==> final(self).top_active(),
            Self::entry_outcome(
                old(self).history(),
                old(self).state_ids(),
                old(self).next_id(),
                final(self).history()[0],
                r is Ok,
                false,
                *final(self),
            ),
    {
        let mut s0 = self.stack.pop().unwrap();
        let res = s0.start(args.clone());
        self.stack.push(s0);
        let ghost ans = answer_of(res);
        let ghost pre = self.events@;
        let ghost ev = Ev { id: self.ids@.last(), call: Call::Start(ans) };
        self.events = Ghost(pre.push(ev));
        proof {
            assert(phase_of(pre, ev.id) == Phase::Unborn);
            lemma_append_ok(pre, ev);
            assert(self.stack@.len() == old(self).stack@.len());
            assert forall|id: nat| id >= self.next@ implies phase_of(self.events@, id)
                == Phase::Unborn by {
                assert(ev.id < self.next@);
                assert(phase_of(pre, id) == Phase::Unborn);
            }
            assert(pre.is_prefix_of(self.events@)) by {
                assert(pre =~= self.events@.subrange(0, pre.len() as int));
            }
        }
        match res {
            Result::Err(e) => Result::Err(e),
            Result::Ok(t) => {
                self.running = true;
                self.active = true;
                let ghost h1 = self.events@;
                let r = self.interpret(args, t);
                proof {
                    lemma_prefix_trans(pre, h1, self.events@);
                    assert(self.events@[0] == ev);
                }
                r
            },
        }
    }

    /// Updates the current state by calling `State::update` with `args`,
    /// then interprets the transition it returns.
    ///
    /// Calling this on a machine that is not running, or whose current top
    /// was left paused by an aborted chain, is a misuse; the precondition
    /// rules it out.
    pub fn update(&mut self, args: A) -> (r: Result<(), E>)
        requires
            old(self).wf(),
            old(self).is_running(),
            old(self).top_active(),
        ensures
            final(self).wf(),
            old(self).history().is_prefix_of(final(self).history()),
            final(self).history().len() > old(self).history().len(),
            final(self).history()[old(self).history().len() as int].id == old(self).top_id(),
            final(self).history()[old(self).history().len() as int].call is Update,
            old(self).next_id() <= final(self).next_id(),
            !final(self).is_running() ==> final(self).depth() == 0,
            r is Ok && final(self).is_running() ==> final(self).top_active(),
            Self::entry_outcome(
                old(self).history(),
                old(self).state_ids(),
                old(self).next_id(),
                final(self).history()[old(self).history().len() as int],
                r is Ok,
                true,
                *final(self),
            ),
    {
        let mut top = self.stack.pop().unwrap();
        let res = top.update(args.clone());
        self.stack.push(top);
        let ghost ans = answer_of(res);
        let ghost pre = self.events@;
        let ghost ev = Ev { id: self.ids@.last(), call: Call::Update(ans) };
        self.events = Ghost(pre.push(ev));
        proof {
            let n = self.ids@.len() as int;
            lemma_append_ok(pre, ev);
            assert forall|i: int| 0 <= i < n - 1 implies phase_of(self.events@, self.ids@[i])
                == Phase::Paused by {
                assert(old(self).state_ids()[i] != old(self).state_ids()[n - 1]);
                assert(phase_of(pre, self.ids@[i]) == Phase::Paused);
            }
            assert forall|id: nat| id >= self.next@ implies phase_of(self.events@, id)
                == Phase::Unborn by {
                assert(ev.id < self.next@);
                assert(phase_of(pre, id) == Phase::Unborn);
            }
            assert(self.stack@.len() == old(self).stack@.len());
            assert(pre.is_prefix_of(self.events@)) by {
                assert(pre =~= self.events@.subrange(0, pre.len() as int));
            }
        }
        match res {
            Result::Err(e) => Result::Err(e),
            Result::Ok(t) => {
                let ghost h1 = self.events@;
                let r = self.interpret(args, t);
                proof {
                    lemma_prefix_trans(pre, h1, self.events@);
                    assert(self.events@[pre.len() as int] == ev);
                }
                r
            },
        }
    }

    /// Performs a fixed update on the current state by calling
    /// `State::fixed_update` with `args`, then interprets the transition it
    /// returns.
    ///
    /// Calling this on a machine that is not running, or whose current top
    /// was left paused by an aborted chain, is a misuse; the precondition
    /// rules it out.
    pub fn fixed_update(&mut self, args: A) -> (r: Result<(), E>)
        requires
            old(self).wf(),
            old(self).is_running(),
            old(self).top_active(),
        ensures
            final(self).wf(),
            old(self).history().is_prefix_of(final(self).history()),
            final(self).history().len() > old(self).history().len(),
            final(self).history()[old(self).history().len() as int].id == old(self).top_id(),
            final(self).history()[old(self).history().len() as int].call is FixedUpdate,
            old(self).next_id() <= final(self).next_id(),
            !final(self).is_running() ==> final(self).depth() == 0,
            r is Ok && final(self).is_running() ==> final(self).top_active(),
            Self::entry_outcome(
                old(self).history(),
                old(self).state_ids(),
                old(self).next_id(),
                final(self).history()[old(self).history().len() as int],
                r is Ok,
                true,
                *final(self),
            ),
    {
        let mut top = self.stack.pop().unwrap();
        let res = top.fixed_update(args.clone());
        self.stack.push(top);
        let ghost ans = answer_of(res);
        let ghost pre = self.events@;
        let ghost ev = Ev { id: self.ids@.last(), call: Call::FixedUpdate(ans) };
        self.events = Ghost(pre.push(ev));
        proof {
            let n = self.ids@.len() as int;
            lemma_append_ok(pre, ev);
            assert forall|i: int| 0 <= i < n - 1 implies phase_of(self.events@, self.ids@[i])
                == Phase::Paused by {
                assert(old(self).state_ids()[i] != old(self).state_ids()[n - 1]);
                assert(phase_of(pre, self.ids@[i]) == Phase::Paused);
            }
            assert forall|id: nat| id >= self.next@ implies phase_of(self.events@, id)
                == Phase::Unborn by {
                assert(ev.id < self.next@);
                assert(phase_of(pre, id) == Phase::Unborn);
            }
            assert(self.stack@.len() == old(self).stack@.len());
            assert(pre.is_prefix_of(self.events@)) by {
                assert(pre =~= self.events@.subrange(0, pre.len() as int));
            }
        }
        match res {
            Result::Err(e) => Result::Err(e),
            Result::Ok(t) => {
                let ghost h1 = self.events@;
                let r = self.interpret(args, t);
                proof {
                    lemma_prefix_trans(pre, h1, self.events@);
                    assert(self.events@[pre.len() as int] == ev);
                }
                r
            },
        }
    }

    /// Sends an `event` to the current state by calling `State::event`,
    /// then interprets the transition it returns.
    ///
    /// Calling this on a machine that is not running, or whose current top
    /// was left paused by an aborted chain, is a misuse; the precondition
    /// rules it out.
    pub fn event(&mut self, args: A, event: F) -> (r: Result<(), E>)
        requires
            old(self).wf(),
            old(self).is_running(),
            old(self).top_active(),
        ensures
            final(self).wf(),
            old(self).history().is_prefix_of(final(self).history()),
            final(self).history().len() > old(self).history().len(),
            final(self).history()[old(self).history().len() as int].id == old(self).top_id(),
            final(self).history()[old(self).history().len() as int].call is Event,
            old(self).next_id() <= final(self).next_id(),
            !final(self).is_running() ==> final(self).depth() == 0,
            r is Ok && final(self).is_running() ==> final(self).top_active(),
            Self::entry_outcome(
                old(self).history(),
                old(self).state_ids(),
                old(self).next_id(),
                final(self).history()[old(self).history().len() as int],
                r is Ok,
                true,
                *final(self),
            ),
    {
        let mut top = self.stack.pop().unwrap();
        let res = top.event(args.clone(), event);
        self.stack.push(top);
        let ghost ans = answer_of(res);
        let ghost pre = self.events@;
        let ghost ev = Ev { id: self.ids@.last(), call: Call::Event(ans) };
        self.events = Ghost(pre.push(ev));
        proof {
            let n = self.ids@.len() as int;
            lemma_append_ok(pre, ev);
            assert forall|i: int| 0 <= i < n - 1 implies phase_of(self.events@, self.ids@[i])
                == Phase::Paused by {
                assert(old(self).state_ids()[i] != old(self).state_ids()[n - 1]);
                assert(phase_of(pre, self.ids@[i]) == Phase::Paused);
            }
            assert forall|id: nat| id >= self.next@ implies phase_of(self.events@, id)
                == Phase::Unborn by {
                assert(ev.id < self.next@);
                assert(phase_of(pre, id) == Phase::Unborn);
            }
            assert(self.stack@.len() == old(self).stack@.len());
            assert(pre.is_prefix_of(self.events@)) by {
                assert(pre =~= self.events@.subrange(0, pre.len() as int));
            }
        }
        match res {
            Result::Err(e) => Result::Err(e),
            Result::Ok(t) => {
                let ghost h1 = self.events@;
                let r = self.interpret(args, t);
                proof {
                    lemma_prefix_trans(pre, h1, self.events@);
                    assert(self.events@[pre.len() as int] == ev);
                }
                r
            },
        }
    }

    /// Stops the state machine.
    /// This removes all states from the state machine and calls `stop` on
    /// them, the current top first, after pausing the top if it was active.
    ///
    /// It is highly recommended that you call this method in case you want to
    /// stop the state machine, otherwise the states can't do anything on a
    /// shut down. If `running()` is false already, don't call this method.
    pub fn stop(&mut self, args: A)
        requires
            old(self).wf(),
            old(self).is_running(),
        ensures
            final(self).wf(),
            !final(self).is_running(),
            final(self).depth() == 0,
            final(self).next_id() == old(self).next_id(),
            final(self).history() == old(self).history() + (if old(self).top_active() {
                seq![Ev { id: old(self).top_id(), call: Call::Pause }]
            } else {
                Seq::<Ev>::empty()
            }) + stops_of(old(self).state_ids()),
    {
        self.teardown(args);
    }
}

impl<A: ?Sized, E, F, S> StateMachine<Ref<A>, E, F, S> where S: for<'a> State<&'a mut A, E, F> {
    /// Pauses the current top of the stack and records the call.
    fn pause_top(&mut self, args: &mut A)
        requires
            old(self).mid_ok(),
            old(self).top_active(),
        ensures
            final(self).mid_ok(),
            !final(self).top_active(),
            final(self).is_running() == old(self).is_running(),
            final(self).depth() == old(self).depth(),
            final(self).state_ids() == old(self).state_ids(),
            final(self).next_id() == old(self).next_id(),
            final(self).history() == old(self).history().push(
                Ev { id: old(self).top_id(), call: Call::Pause },
            ),
            final(self).top_phase() == Phase::Paused,
            forall|id: nat|
                id != old(self).top_id() ==> phase_of(final(self).history(), id) == phase_of(
                    old(self).history(),
                    id,
                ),
    {
        let mut top = self.stack.pop().unwrap();
        top.pause(args);
        self.stack.push(top);
        let ghost pre = self.events@;
        let ghost ev = Ev { id: self.ids@.last(), call: Call::Pause };
        self.events = Ghost(pre.push(ev));
        self.active = false;
        proof {
            let n = self.ids@.len() as int;
            lemma_append_ok(pre, ev);
            assert forall|i: int| 0 <= i < n - 1 implies phase_of(self.events@, self.ids@[i])
                == Phase::Paused by {
                assert(old(self).phase_at(i) == Phase::Paused);
                assert(old(self).state_ids()[i] != old(self).state_ids()[n - 1]);
                assert(self.ids@[i] != ev.id);
            }
            assert forall|id: nat| id >= self.next@ implies phase_of(self.events@, id)
                == Phase::Unborn by {
                assert(ev.id < self.next@);
                assert(phase_of(pre, id) == Phase::Unborn);
            }
            assert(self.stack@.len() == old(self).stack@.len());
        }
    }

    /// Pauses (if still active) and stops the current top of the stack, then
    /// removes it. The removed state is dropped by the caller.
    fn stop_top(&mut self, args: &mut A) -> (s: S)
        requires
            old(self).mid_ok(),
            old(self).depth() > 0,
        ensures
            final(self).mid_ok(),
            !final(self).top_active(),
            final(self).is_running() == old(self).is_running(),
            final(self).depth() == old(self).depth() - 1,
            final(self).state_ids() == old(self).state_ids().drop_last(),
            final(self).next_id() == old(self).next_id(),
            final(self).history() == old(self).history() + (if old(self).top_active() {
                seq![Ev { id: old(self).top_id(), call: Call::Pause }]
            } else {
                Seq::<Ev>::empty()
            }) + seq![Ev { id: old(self).top_id(), call: Call::Stop }],
            forall|id: nat|
                id != old(self).top_id() ==> phase_of(final(self).history(), id) == phase_of(
                    old(self).history(),
                    id,
                ),
            phase_of(final(self).history(), old(self).top_id()) == Phase::Dead,
    {
        if self.active {
            self.pause_top(&mut *args);
        }
        let mut top = self.stack.pop().unwrap();
        let ghost oid = self.ids@.last();
        let ghost n = self.ids@.len() as int;
        self.ids = Ghost(self.ids@.drop_last());
        top.stop(&mut *args);
        let ghost pre = self.events@;
        let ghost ev = Ev { id: oid, call: Call::Stop };
        self.events = Ghost(pre.push(ev));
        proof {
            lemma_append_ok(pre, ev);
            assert forall|i: int| 0 <= i < self.ids@.len() - 1 implies phase_of(
                self.events@,
                self.ids@[i],
            ) == Phase::Paused by {
                assert(old(self).state_ids()[i] != old(self).state_ids()[n - 1]);
                assert(phase_of(pre, self.ids@[i]) == phase_of(
                    old(self).history(),
                    self.ids@[i],
                ));
                assert(old(self).phase_at(i) == Phase::Paused);
            }
            assert forall|id: nat| id >= self.next@ implies phase_of(self.events@, id)
                == Phase::Unborn by {
                assert(ev.id < self.next@);
                assert(phase_of(pre, id) == phase_of(old(self).history(), id));
                assert(phase_of(old(self).history(), id) == Phase::Unborn);
            }
            if self.ids@.len() > 0 {
                assert(old(self).state_ids()[n - 2] != old(self).state_ids()[n - 1]);
                assert(phase_of(pre, self.ids@[n - 2]) == phase_of(
                    old(self).history(),
                    self.ids@[n - 2],
                ));
                assert(old(self).phase_at(n - 2) == Phase::Paused);
                assert(self.top_phase() == Phase::Paused);
            }
            assert(self.events@ =~= old(self).history() + (if old(self).top_active() {
                seq![Ev { id: old(self).top_id(), call: Call::Pause }]
            } else {
                Seq::<Ev>::empty()
            }) + seq![Ev { id: old(self).top_id(), call: Call::Stop }]);
            assert forall|id: nat| id != old(self).top_id() implies phase_of(
                self.events@,
                id,
            ) == phase_of(old(self).history(), id) by {
                assert(phase_of(pre, id) == phase_of(old(self).history(), id));
            }
        }
        top
    }

    /// Resumes the current (paused) top of the stack and records the call.
    fn resume_top(&mut self, args: &mut A)
        requires
            old(self).mid_ok(),
            old(self).is_running(),
            old(self).depth() > 0,
            !old(self).top_active(),
        ensures
            final(self).mid_ok(),
            final(self).top_active(),
            final(self).is_running() == old(self).is_running(),
            final(self).depth() == old(self).depth(),
            final(self).state_ids() == old(self).state_ids(),
            final(self).next_id() == old(self).next_id(),
            final(self).history() == old(self).history().push(
                Ev { id: old(self).top_id(), call: Call::Resume },
            ),
    {
        let mut top = self.stack.pop().unwrap();
        top.resume(args);
        self.stack.push(top);
        let ghost pre = self.events@;
        let ghost n = self.ids@.len() as int;
        let ghost ev = Ev { id: self.ids@.last(), call: Call::Resume };
        self.events = Ghost(pre.push(ev));
        self.active = true;
        proof {
            lemma_append_ok(pre, ev);
            assert forall|i: int| 0 <= i < n - 1 implies phase_of(self.events@, self.ids@[i])
                == Phase::Paused by {
                assert(old(self).phase_at(i) == Phase::Paused);
                assert(old(self).state_ids()[i] != old(self).state_ids()[n - 1]);
            }
            assert forall|id: nat| id >= self.next@ implies phase_of(self.events@, id)
                == Phase::Unborn by {
                assert(ev.id < self.next@);
                assert(phase_of(pre, id) == Phase::Unborn);
            }
            assert(self.stack@.len() == old(self).stack@.len());
        }
    }

    /// Assigns a fresh id to a newly handed-over state and issues its one
    /// `start` call, recording the answer. The state is not placed on the
    /// stack; the caller holds it (and its returned transition) until its
    /// chain resolves.
    fn start_fresh(&mut self, args: &mut A, s: S) -> (out: (S, Result<Trans<S>, E>))
        requires
            old(self).mid_ok(),
            !old(self).top_active(),
        ensures
            final(self).mid_ok(),
            !final(self).top_active(),
            final(self).is_running() == old(self).is_running(),
            final(self).depth() == old(self).depth(),
            final(self).state_ids() == old(self).state_ids(),
            final(self).next_id() == old(self).next_id() + 1,
            final(self).history() == old(self).history().push(
                Ev { id: old(self).next_id(), call: Call::Start(answer_of(out.1)) },
            ),
            phase_of(final(self).history(), old(self).next_id()) == Phase::Started,
            forall|id: nat|
                id != old(self).next_id() ==> phase_of(final(self).history(), id) == phase_of(
                    old(self).history(),
                    id,
                ),
    {
        let mut s = s;
        let ghost sid = self.next@;
        self.next = Ghost(self.next@ + 1);
        let res = s.start(args);
        let ghost pre = self.events@;
        let ghost ev = Ev { id: sid, call: Call::Start(answer_of(res)) };
        self.events = Ghost(pre.push(ev));
        proof {
            assert(phase_of(pre, sid) == Phase::Unborn);
            lemma_append_ok(pre, ev);
            assert forall|i: int| 0 <= i < self.ids@.len() - 1 implies phase_of(
                self.events@,
                self.ids@[i],
            ) == Phase::Paused by {
                assert(old(self).phase_at(i) == Phase::Paused);
                assert(old(self).state_ids()[i] < sid);
            }
            assert forall|i: int| 0 <= i < self.ids@.len() implies self.ids@[i] < self.next@ by {
                assert(old(self).state_ids()[i] < sid);
            }
            assert forall|id: nat| id >= self.next@ implies phase_of(self.events@, id)
                == Phase::Unborn by {
                assert(phase_of(pre, id) == Phase::Unborn);
            }
            if self.ids@.len() > 0 {
                assert(old(self).state_ids()[self.ids@.len() - 1] < sid);
            }
        }
        (s, res)
    }

    /// Tears the whole stack down: pauses the top if it is still active, then
    /// pops and stops every state from top to bottom, then marks the machine
    /// not running. Pending (never placed) states are not its concern; it
    /// touches only what is on the stack.
    fn teardown(&mut self, args: &mut A)
        requires
            old(self).mid_ok(),
        ensures
            final(self).mid_ok(),
            !final(self).is_running(),
            !final(self).top_active(),
            final(self).depth() == 0,
            final(self).state_ids() == Seq::<nat>::empty(),
            final(self).next_id() == old(self).next_id(),
            final(self).history() == old(self).history() + (if old(self).top_active() {
                seq![Ev { id: old(self).top_id(), call: Call::Pause }]
            } else {
                Seq::<Ev>::empty()
            }) + stops_of(old(self).state_ids()),
            forall|id: nat|
                !old(self).state_ids().contains(id) ==> phase_of(final(self).history(), id)
                    == phase_of(old(self).history(), id),
    {
        if self.active {
            self.pause_top(&mut *args);
        }
        let ghost base = self.events@;
        let ghost all_ids = self.ids@;
        proof {
            assert(base =~= old(self).history() + (if old(self).top_active() {
                seq![Ev { id: old(self).top_id(), call: Call::Pause }]
            } else {
                Seq::<Ev>::empty()
            }));
            assert(all_ids.take(all_ids.len() as int) =~= all_ids);
            assert(stops_of(all_ids).take(0) =~= Seq::<Ev>::empty());
            assert(base + Seq::<Ev>::empty() =~= base);
            assert forall|i: int| 0 <= i < self.ids@.len() implies phase_of(
                self.events@,
                self.ids@[i],
            ) == Phase::Paused by {
                if i == self.ids@.len() - 1 {
                    assert(self.top_phase() == Phase::Paused);
                } else {
                    assert(self.phase_at(i) == Phase::Paused);
                }
            }
            assert forall|id: nat| !all_ids.contains(id) implies phase_of(self.events@, id)
                == phase_of(old(self).history(), id) by {
                if old(self).top_active() {
                    assert(all_ids[all_ids.len() - 1] == old(self).top_id());
                    assert(id != old(self).top_id());
                }
            }
        }
        while self.stack.len() > 0
            invariant
                forall|id: nat|
                    !all_ids.contains(id) ==> phase_of(self.events@, id) == phase_of(
                        old(self).history(),
                        id,
                    ),
                self.mid_ok(),
                !self.top_active(),
                self.is_running() == old(self).is_running(),
                self.next@ == old(self).next@,
                self.ids@.len() == self.stack@.len(),
                self.ids@.len() <= all_ids.len(),
                self.ids@ == all_ids.take(self.ids@.len() as int),
                forall|i: int, j: int|
                    0 <= i < j < all_ids.len() ==> all_ids[i] != all_ids[j],
                forall|i: int| 0 <= i < all_ids.len() ==> all_ids[i] < self.next@,
                forall|i: int|
                    0 <= i < self.ids@.len() ==> phase_of(self.events@, self.ids@[i])
                        == Phase::Paused,
                self.events@ == base + stops_of(all_ids).take(
                    all_ids.len() - self.ids@.len(),
                ),
            decreases self.stack@.len(),
        {
            let mut s = self.stack.pop().unwrap();
            let ghost oid = self.ids@.last();
            let ghost len_before = self.ids@.len() as int;
            self.ids = Ghost(self.ids@.drop_last());
            s.stop(&mut *args);
            let ghost pre = self.events@;
            let ghost ev = Ev { id: oid, call: Call::Stop };
            self.events = Ghost(pre.push(ev));
            proof {
                let n = all_ids.len() as int;
                lemma_append_ok(pre, ev);
                assert(oid == all_ids[len_before - 1]);
                assert(self.ids@ =~= all_ids.take(len_before - 1));
                assert forall|i: int| 0 <= i < self.ids@.len() implies phase_of(
                    self.events@,
                    self.ids@[i],
                ) == Phase::Paused by {
                    assert(self.ids@[i] == all_ids[i]);
                    assert(all_ids[i] != all_ids[len_before - 1]);
                    assert(phase_of(pre, self.ids@[i]) == Phase::Paused);
                }
                assert forall|id: nat| id >= self.next@ implies phase_of(self.events@, id)
                    == Phase::Unborn by {
                    assert(ev.id < self.next@);
                    assert(phase_of(pre, id) == Phase::Unborn);
                }
                assert(stops_of(all_ids)[n - len_before] == ev);
                assert(self.events@ =~= base + stops_of(all_ids).take(n - len_before + 1));
                assert forall|id: nat| !all_ids.contains(id) implies phase_of(self.events@, id)
                    == phase_of(old(self).history(), id) by {
                    assert(all_ids[len_before - 1] == oid);
                    assert(id != oid);
                    assert(phase_of(pre, id) == phase_of(old(self).history(), id));
                }
            }
        }
        self.running = false;
        self.active = false;
        proof {
            assert(stops_of(all_ids).take(all_ids.len() as int) =~= stops_of(all_ids));
            assert(self.ids@ =~= Seq::<nat>::empty());
            assert(self.events@ =~= old(self).history() + (if old(self).top_active() {
                seq![Ev { id: old(self).top_id(), call: Call::Pause }]
            } else {
                Seq::<Ev>::empty()
            }) + stops_of(old(self).state_ids()));
        }
    }

    /// Resumes a state whose `start` chain has resolved and places it on
    /// the stack as the new current top.
    fn place(&mut self, args: &mut A, s: S, Ghost(sid): Ghost<nat>)
        requires
            old(self).mid_ok(),
            old(self).is_running(),
            !old(self).top_active(),
            phase_of(old(self).history(), sid) == Phase::Started,
            sid < old(self).next_id(),
            forall|j: int|
                0 <= j < old(self).state_ids().len() ==> sid != old(self).state_ids()[j],
        ensures
            final(self).mid_ok(),
            final(self).is_running(),
            final(self).top_active(),
            final(self).state_ids() == old(self).state_ids().push(sid),
            final(self).next_id() == old(self).next_id(),
            final(self).history() == old(self).history().push(
                Ev { id: sid, call: Call::Resume },
            ),
    {
        let mut s = s;
        s.resume(args);
        let ghost pre = self.events@;
        let ghost ev = Ev { id: sid, call: Call::Resume };
        self.events = Ghost(pre.push(ev));
        self.stack.push(s);
        let ghost n1 = self.ids@.len() as int;
        self.ids = Ghost(self.ids@.push(sid));
        self.active = true;
        proof {
            lemma_append_ok(pre, ev);
            if n1 > 0 {
                assert(old(self).top_phase() == Phase::Paused);
            }
            assert forall|i: int, j: int| 0 <= i < j < self.ids@.len() implies self.ids@[i]
                != self.ids@[j] by {
                if j < n1 {
                    assert(old(self).state_ids()[i] != old(self).state_ids()[j]);
                } else {
                    assert(sid != old(self).state_ids()[i]);
                }
            }
            assert forall|i: int| 0 <= i < self.ids@.len() implies self.ids@[i] < self.next@ by {
                if i < n1 {
                    assert(old(self).state_ids()[i] < old(self).next_id());
                }
            }
            assert forall|i: int| 0 <= i < self.ids@.len() - 1 implies phase_of(
                self.events@,
                self.ids@[i],
            ) == Phase::Paused by {
                assert(sid != old(self).state_ids()[i]);
                assert(phase_of(pre, old(self).state_ids()[i]) == Phase::Paused);
            }
            assert forall|id: nat| id >= self.next@ implies phase_of(self.events@, id)
                == Phase::Unborn by {
                assert(sid < self.next@);
                assert(phase_of(pre, id) == Phase::Unborn);
            }
            assert(self.top_phase() == Phase::Live);
        }
    }

    /// Interprets a transition returned by a lifecycle call. A pushed or
    /// switched-in state's own `start` chain resolves fully before that
    /// state is resumed and placed on the stack. A `Quit`, or a `Pop` that
    /// empties the stack, shuts the machine down; states whose chains were
    /// still unresolved are then discarded without further calls. A callback
    /// error aborts the whole chain at once; nothing already done is rolled
    /// back.
    #[verifier::rlimit(100)]
    fn interpret(&mut self, args: &mut A, t: Trans<S>) -> (r: Result<(), E>)
        requires
            old(self).mid_ok(),
            old(self).is_running(),
            old(self).depth() > 0,
            old(self).top_active(),
        ensures
            final(self).mid_ok(),
            old(self).history().is_prefix_of(final(self).history()),
            old(self).next_id() <= final(self).next_id(),
            final(self).is_running() ==> final(self).depth() > 0,
            !final(self).is_running() ==> final(self).depth() == 0 && !final(self).top_active(),
            r is Ok && final(self).is_running() ==> final(self).top_active(),
            t is Stay ==> r is Ok && Self::after_stay(
                old(self).history(),
                old(self).state_ids(),
                old(self).next_id(),
                *final(self),
            ),
            t is Quit ==> r is Ok && Self::after_quit(
                old(self).history(),
                old(self).state_ids(),
                old(self).next_id(),
                *final(self),
            ),
            t is Pop ==> r is Ok && Self::after_pop(
                old(self).history(),
                old(self).state_ids(),
                old(self).next_id(),
                *final(self),
            ),
            t is Push ==> Self::push_outcome(
                old(self).history(),
                old(self).state_ids(),
                old(self).next_id(),
                r is Ok,
                *final(self),
            ),
            t is Switch ==> Self::switch_outcome(
                old(self).history(),
                old(self).state_ids(),
                old(self).next_id(),
                r is Ok,
                *final(self),
            ),
    {
        let ghost h0 = self.events@;
        let ghost ids0 = self.ids@;
        match t {
            Trans::Stay => Ok(()),
            Trans::Quit => {
                self.teardown(args);
                proof {
                    assert(self.events@ =~= h0 + seq![
                        Ev { id: ids0[ids0.len() - 1], call: Call::Pause },
                    ] + stops_of(ids0));
                    assert(h0.is_prefix_of(self.events@)) by {
                        assert(h0 =~= self.events@.subrange(0, h0.len() as int));
                    }
                }
                Ok(())
            },
            Trans::Pop => {
                let _dead = self.stop_top(&mut *args);
                if self.stack.len() == 0 {
                    self.running = false;
                } else {
                    self.resume_top(&mut *args);
                }
                proof {
                    assert(self.events@ =~= h0 + seq![
                        Ev { id: ids0[ids0.len() - 1], call: Call::Pause },
                        Ev { id: ids0[ids0.len() - 1], call: Call::Stop },
                    ] + (if ids0.len() > 1 {
                        seq![Ev { id: ids0[ids0.len() - 2], call: Call::Resume }]
                    } else {
                        Seq::<Ev>::empty()
                    }));
                    assert(h0.is_prefix_of(self.events@)) by {
                        assert(h0 =~= self.events@.subrange(0, h0.len() as int));
                    }
                }
                Ok(())
            },
            Trans::Push(s) => {
                self.pause_top(&mut *args);
                let ghost sid = self.next@;
                let (s, res) = self.start_fresh(&mut *args, s);
                let ghost h2 = self.events@;
                match res {
                    Result::Err(e) => {
                        proof {
                            assert(self.events@ =~= h0 + seq![
                                Ev { id: ids0[ids0.len() - 1], call: Call::Pause },
                                Ev { id: sid, call: Call::Start(Answer::Failed) },
                            ]);
                            assert(h0.is_prefix_of(self.events@)) by {
                                assert(h0 =~= self.events@.subrange(0, h0.len() as int));
                            }
                        }
                        Result::Err(e)
                    },
                    Result::Ok(t2) => match t2 {
                        Trans::Stay => {
                            proof {
                                assert forall|j: int|
                                    0 <= j < self.ids@.len() implies sid != self.ids@[j] by {
                                    assert(ids0[j] < sid);
                                }
                            }
                            self.place(args, s, Ghost(sid));
                            proof {
                                assert(self.events@ =~= h0 + seq![
                                    Ev { id: ids0[ids0.len() - 1], call: Call::Pause },
                                    Ev { id: sid, call: Call::Start(Answer::Stay) },
                                    Ev { id: sid, call: Call::Resume },
                                ]);
                                assert(self.ids@ =~= ids0.push(sid));
                                assert(h0.is_prefix_of(self.events@)) by {
                                    assert(h0 =~= self.events@.subrange(0, h0.len() as int));
                                }
                            }
                            Ok(())
                        },
                        Trans::Quit => {
                            // the pushed state is dropped here, never resumed
                            self.teardown(args);
                            proof {
                                assert(self.events@ =~= h0 + seq![
                                    Ev { id: ids0[ids0.len() - 1], call: Call::Pause },
                                    Ev { id: sid, call: Call::Start(Answer::Quit) },
                                ] + stops_of(ids0));
                                assert(h0.is_prefix_of(self.events@)) by {
                                    assert(h0 =~= self.events@.subrange(0, h0.len() as int));
                                }
                            }
                            Ok(())
                        },
                        _ => {
                            let r = self.run_chain(args, s, Ghost(sid), t2);
                            proof {
                                let l = h0.len() as int;
                                assert(h2 =~= self.events@.subrange(0, h2.len() as int));
                                assert(self.events@[l] == h2[l]);
                                assert(self.events@[l + 1] == h2[l + 1]);
                                assert(h0.is_prefix_of(self.events@)) by {
                                    assert(h0 =~= self.events@.subrange(0, h0.len() as int));
                                }
                            }
                            r
                        },
                    },
                }
            },
            Trans::Switch(s) => {
                let _dead = self.stop_top(&mut *args);
                let ghost sid = self.next@;
                let ghost h1 = self.events@;
                proof {
                    assert(h1 =~= h0 + seq![
                        Ev { id: ids0[ids0.len() - 1], call: Call::Pause },
                        Ev { id: ids0[ids0.len() - 1], call: Call::Stop },
                    ]);
                }
                let (s, res) = self.start_fresh(&mut *args, s);
                let ghost h2 = self.events@;
                match res {
                    Result::Err(e) => {
                        if self.stack.len() == 0 {
                            self.running = false;
                        }
                        proof {
                            assert(self.events@ =~= h0 + seq![
                                Ev { id: ids0[ids0.len() - 1], call: Call::Pause },
                                Ev { id: ids0[ids0.len() - 1], call: Call::Stop },
                                Ev { id: sid, call: Call::Start(Answer::Failed) },
                            ]);
                            assert(h0.is_prefix_of(self.events@)) by {
                                assert(h0 =~= self.events@.subrange(0, h0.len() as int));
                            }
                        }
                        Result::Err(e)
                    },
                    Result::Ok(t2) => match t2 {
                        Trans::Stay => {
                            proof {
                                assert forall|j: int|
                                    0 <= j < self.ids@.len() implies sid != self.ids@[j] by {
                                    assert(self.ids@[j] == ids0[j]);
                                    assert(ids0[j] < sid);
                                }
                            }
                            self.place(args, s, Ghost(sid));
                            proof {
                                assert(self.events@ =~= h0 + seq![
                                    Ev { id: ids0[ids0.len() - 1], call: Call::Pause },
                                    Ev { id: ids0[ids0.len() - 1], call: Call::Stop },
                                    Ev { id: sid, call: Call::Start(Answer::Stay) },
                                    Ev { id: sid, call: Call::Resume },
                                ]);
                                assert(self.ids@ =~= ids0.drop_last().push(sid));
                                assert(h0.is_prefix_of(self.events@)) by {
                                    assert(h0 =~= self.events@.subrange(0, h0.len() as int));
                                }
                            }
                            Ok(())
                        },
                        Trans::Quit => {
                            // the replacement is dropped here, never resumed
                            self.teardown(args);
                            proof {
                                assert(self.events@ =~= h0 + seq![
                                    Ev { id: ids0[ids0.len() - 1], call: Call::Pause },
                                    Ev { id: ids0[ids0.len() - 1], call: Call::Stop },
                                    Ev { id: sid, call: Call::Start(Answer::Quit) },
                                ] + stops_of(ids0.drop_last()));
                                assert(h0.is_prefix_of(self.events@)) by {
                                    assert(h0 =~= self.events@.subrange(0, h0.len() as int));
                                }
                            }
                            Ok(())
                        },
                        _ => {
                            let r = self.run_chain(args, s, Ghost(sid), t2);
                            proof {
                                let l = h0.len() as int;
                                assert(h2 =~= self.events@.subrange(0, h2.len() as int));
                                assert(self.events@[l] == h2[l]);
                                assert(self.events@[l + 1] == h2[l + 1]);
                                assert(self.events@[l + 2] == h2[l + 2]);
                                assert(h0.is_prefix_of(self.events@)) by {
                                    assert(h0 =~= self.events@.subrange(0, h0.len() as int));
                                }
                            }
                            r
                        },
                    },
                }
            },
        }
    }

    /// Resolves the rest of a push or switch chain: the handed-over state
    /// `first` has had its `start` call (recorded under `first_id`), which
    /// answered with the transition `t`; this runs `t` and everything it
    /// leads to, with an explicit work list of states awaiting placement.
    /// States whose chains are unresolved when the machine shuts down are
    /// discarded without further calls; a callback error aborts the whole
    /// chain at once.
    #[verifier::rlimit(100)]
    fn run_chain(&mut self, args: &mut A, first: S, Ghost(first_id): Ghost<nat>, t: Trans<S>) -> (r:
        Result<(), E>)
        requires
            old(self).mid_ok(),
            old(self).is_running(),
            !old(self).top_active(),
            phase_of(old(self).history(), first_id) == Phase::Started,
            first_id < old(self).next_id(),
            forall|j: int|
                0 <= j < old(self).state_ids().len() ==> first_id != old(self).state_ids()[j],
        ensures
            final(self).mid_ok(),
            old(self).history().is_prefix_of(final(self).history()),
            old(self).next_id() <= final(self).next_id(),
            final(self).is_running() ==> final(self).depth() > 0,
            !final(self).is_running() ==> final(self).depth() == 0 && !final(self).top_active(),
            r is Ok && final(self).is_running() ==> final(self).top_active(),
    {
        let mut pending: Vec<S> = Vec::new();
        pending.push(first);
        let ghost mut pend_ids: Seq<nat> = seq![first_id];
        let mut cur: Trans<S> = t;
        // One chain interprets at most u64::MAX transitions, a bound no
        // feasible execution reaches; it makes the interpreter provably
        // terminating. An exhausted budget ends the chain as if the last
        // lifecycle call had returned no transition.
        let mut fuel: u64 = u64::MAX;
        proof {
            assert(old(self).history().is_prefix_of(self.events@)) by {
                assert(old(self).history() =~= self.events@.subrange(
                    0,
                    old(self).history().len() as int,
                ));
            }
            assert(pend_ids[0] == first_id);
            assert forall|i: int, j: int|
                0 <= i < pend_ids.len() && 0 <= j < self.ids@.len() implies pend_ids[i]
                != self.ids@[j] by {
                assert(first_id != old(self).state_ids()[j]);
            }
        }
        loop
            invariant
                self.mid_ok(),
                pend_ids.len() == pending@.len(),
                forall|i: int, j: int| 0 <= i < j < pend_ids.len() ==> pend_ids[i] != pend_ids[j],
                forall|i: int| 0 <= i < pend_ids.len() ==> pend_ids[i] < self.next@,
                forall|i: int|
                    0 <= i < pend_ids.len() ==> phase_of(self.events@, pend_ids[i])
                        == Phase::Started,
                forall|i: int, j: int|
                    0 <= i < pend_ids.len() && 0 <= j < self.ids@.len() ==> pend_ids[i]
                        != self.ids@[j],
                !(cur is Stay) ==> self.is_running(),
                (!(cur is Stay) && pend_ids.len() == 0) ==> self.top_active(),
                (cur is Stay && pend_ids.len() == 0 && self.is_running()) ==> self.top_active(),
                old(self).history().is_prefix_of(self.events@),
                old(self).next@ <= self.next@,
            decreases fuel, pending@.len(), (if cur is Stay { 0int } else { 1int }),
        {
            let ghost h_iter = self.events@;
            let ghost ids0 = self.ids@;
            let ghost pend0 = pend_ids;
            if fuel == 0 && !(matches!(cur, Trans::Stay)) {
                cur = Trans::Stay;
                continue;
            }
            match cur {
                Trans::Stay => {
                    if pending.len() == 0 {
                        return Ok(());
                    }
                    let s = pending.pop().unwrap();
                    let ghost sid = pend0.last();
                    proof {
                        pend_ids = pend0.drop_last();
                        assert(phase_of(h_iter, pend0[pend0.len() - 1]) == Phase::Started);
                    }
                    if self.running {
                        // Place the resolved state: pause whatever is on top,
                        // then resume the new state and push it.
                        if self.active {
                            proof {
                                assert(pend0[pend0.len() - 1] != ids0[ids0.len() - 1]);
                            }
                            self.pause_top(&mut *args);
                        }
                        let mut s = s;
                        s.resume(&mut *args);
                        let ghost pre = self.events@;
                        let ghost ev = Ev { id: sid, call: Call::Resume };
                        self.events = Ghost(pre.push(ev));
                        self.stack.push(s);
                        let ghost n1 = ids0.len() as int;
                        self.ids = Ghost(ids0.push(sid));
                        self.active = true;
                        proof {
                            assert(phase_of(pre, sid) == Phase::Started);
                            lemma_append_ok(pre, ev);
                            // the new stack: distinct ids, all below the new
                            // top paused, the new top live
                            assert forall|i: int, j: int| 0 <= i < j < self.ids@.len() implies
                                self.ids@[i] != self.ids@[j] by {
                                if j < n1 {
                                    assert(ids0[i] != ids0[j]);
                                } else {
                                    assert(pend0[pend0.len() - 1] != ids0[i]);
                                }
                            }
                            assert forall|i: int| 0 <= i < self.ids@.len() - 1 implies phase_of(
                                self.events@,
                                self.ids@[i],
                            ) == Phase::Paused by {
                                assert(pend0[pend0.len() - 1] != ids0[i]);
                                if i < n1 - 1 {
                                    assert(ids0[i] != ids0[n1 - 1]);
                                    assert(phase_of(h_iter, ids0[i]) == Phase::Paused);
                                }
                                assert(phase_of(pre, ids0[i]) == Phase::Paused);
                            }
                            assert forall|id: nat| id >= self.next@ implies phase_of(
                                self.events@,
                                id,
                            ) == Phase::Unborn by {
                                assert(phase_of(pre, id) == Phase::Unborn);
                            }
                            assert(self.top_phase() == Phase::Live);
                            // the remaining pending states are untouched
                            assert forall|i: int| 0 <= i < pend_ids.len() implies phase_of(
                                self.events@,
                                pend_ids[i],
                            ) == Phase::Started by {
                                assert(pend0[i] != pend0[pend0.len() - 1]);
                                if ids0.len() > 0 {
                                    assert(pend0[i] != ids0[ids0.len() - 1]);
                                }
                                assert(phase_of(pre, pend0[i]) == phase_of(h_iter, pend0[i]));
                                assert(phase_of(h_iter, pend0[i]) == Phase::Started);
                            }
                            assert forall|i: int, j: int|
                                0 <= i < pend_ids.len() && 0 <= j < self.ids@.len() implies
                                pend_ids[i] != self.ids@[j] by {
                                if j < n1 {
                                    assert(pend0[i] != ids0[j]);
                                } else {
                                    assert(pend0[i] != pend0[pend0.len() - 1]);
                                }
                            }
                        }
                        cur = Trans::Stay;
                    } else {
                        // The machine shut down during the chain: the state
                        // is discarded, never resumed, never placed.
                        cur = Trans::Stay;
                    }
                }
                Trans::Push(s) => {
                    fuel = fuel - 1;
                    if self.active {
                        self.pause_top(&mut *args);
                    }
                    let ghost h1 = self.events@;
                    let ghost sid = self.next@;
                    let (s, res) = self.start_fresh(&mut *args, s);
                    proof {
                        assert forall|i: int| 0 <= i < pend0.len() implies phase_of(
                            self.events@,
                            pend0[i],
                        ) == Phase::Started by {
                            if ids0.len() > 0 {
                                assert(pend0[i] != ids0[ids0.len() - 1]);
                            }
                            assert(pend0[i] < sid);
                            assert(phase_of(h1, pend0[i]) == phase_of(h_iter, pend0[i]));
                            assert(phase_of(self.events@, pend0[i]) == phase_of(h1, pend0[i]));
                        }
                    }
                    match res {
                        Result::Err(e) => {
                            if self.stack.len() == 0 {
                                self.running = false;
                            }
                            proof {
                                assert(h_iter.is_prefix_of(self.events@)) by {
                                    assert(h_iter =~= self.events@.subrange(
                                        0,
                                        h_iter.len() as int,
                                    ));
                                }
                                lemma_prefix_trans(old(self).history(), h_iter, self.events@);
                            }
                            return Result::Err(e);
                        }
                        Result::Ok(t2) => {
                            pending.push(s);
                            proof {
                                pend_ids = pend0.push(sid);
                                assert forall|i: int, j: int|
                                    0 <= i < pend_ids.len() && 0 <= j < self.ids@.len() implies
                                    pend_ids[i] != self.ids@[j] by {
                                    assert(self.ids@[j] == ids0[j]);
                                    assert(ids0[j] < sid);
                                    if i < pend0.len() {
                                        assert(pend0[i] != ids0[j]);
                                    }
                                }
                            }
                            cur = t2;
                        }
                    }
                }
                Trans::Switch(s) => {
                    fuel = fuel - 1;
                    if self.stack.len() > 0 {
                        let _dead = self.stop_top(&mut *args);
                    }
                    let ghost h1 = self.events@;
                    let ghost ids1 = self.ids@;
                    let ghost sid = self.next@;
                    let (s, res) = self.start_fresh(&mut *args, s);
                    proof {
                        assert forall|i: int| 0 <= i < pend0.len() implies phase_of(
                            self.events@,
                            pend0[i],
                        ) == Phase::Started by {
                            if ids0.len() > 0 {
                                assert(pend0[i] != ids0[ids0.len() - 1]);
                            }
                            assert(pend0[i] < sid);
                            assert(phase_of(h1, pend0[i]) == phase_of(h_iter, pend0[i]));
                            assert(phase_of(self.events@, pend0[i]) == phase_of(h1, pend0[i]));
                        }
                    }
                    match res {
                        Result::Err(e) => {
                            if self.stack.len() == 0 {
                                self.running = false;
                            }
                            proof {
                                assert(h_iter.is_prefix_of(self.events@)) by {
                                    assert(h_iter =~= self.events@.subrange(
                                        0,
                                        h_iter.len() as int,
                                    ));
                                }
                                lemma_prefix_trans(old(self).history(), h_iter, self.events@);
                            }
                            return Result::Err(e);
                        }
                        Result::Ok(t2) => {
                            pending.push(s);
                            proof {
                                pend_ids = pend0.push(sid);
                                assert forall|i: int, j: int|
                                    0 <= i < pend_ids.len() && 0 <= j < self.ids@.len() implies
                                    pend_ids[i] != self.ids@[j] by {
                                    assert(self.ids@[j] == ids1[j]);
                                    assert(ids1[j] == ids0[j]);
                                    assert(ids0[j] < sid);
                                    if i < pend0.len() {
                                        assert(pend0[i] != ids0[j]);
                                    }
                                }
                            }
                            cur = t2;
                        }
                    }
                }
                Trans::Pop => {
                    fuel = fuel - 1;
                    if self.stack.len() == 0 {
                        // A switched-out hole is being popped: nothing is
                        // left to remove, the machine shuts down.
                        self.running = false;
                        cur = Trans::Stay;
                    } else {
                        let _dead = self.stop_top(&mut *args);
                        let ghost h1 = self.events@;
                        if self.stack.len() == 0 {
                            self.running = false;
                        } else if pending.len() == 0 {
                            self.resume_top(&mut *args);
                        }
                        proof {
                            assert forall|i: int| 0 <= i < pend_ids.len() implies phase_of(
                                self.events@,
                                pend_ids[i],
                            ) == Phase::Started by {
                                assert(pend0[i] != ids0[ids0.len() - 1]);
                                if ids0.len() > 1 {
                                    assert(pend0[i] != ids0[ids0.len() - 2]);
                                }
                                assert(phase_of(h1, pend0[i]) == phase_of(h_iter, pend0[i]));
                                assert(phase_of(self.events@, pend0[i]) == phase_of(
                                    h1,
                                    pend0[i],
                                ));
                            }
                        }
                        cur = Trans::Stay;
                    }
                }
                Trans::Quit => {
                    fuel = fuel - 1;
                    self.teardown(&mut *args);
                    proof {
                        assert forall|i: int| 0 <= i < pend_ids.len() implies phase_of(
                            self.events@,
                            pend_ids[i],
                        ) == Phase::Started by {
                            assert(!ids0.contains(pend0[i])) by {
                                if ids0.contains(pend0[i]) {
                                    let j = choose|j: int|
                                        0 <= j < ids0.len() && ids0[j] == pend0[i];
                                    assert(pend0[i] != ids0[j]);
                                }
                            }
                            assert(phase_of(h_iter, pend0[i]) == Phase::Started);
                        }
                    }
                    cur = Trans::Stay;
                }
            }
            proof {
                assert(h_iter.is_prefix_of(self.events@)) by {
                    assert(h_iter =~= self.events@.subrange(0, h_iter.len() as int));
                }
                lemma_prefix_trans(old(self).history(), h_iter, self.events@);
            }
        }
    }

    /// Starts the state machine, calling `start` on the initial state and
    /// interpreting the transition it returns. The machine is marked running
    /// as soon as that first `start` call succeeds; a `Quit` (or a `Pop`) in
    /// the opening chain can shut it down again before this returns.
    ///
    /// Starting a machine twice, or one already shut down, is a misuse; the
    /// precondition admits a freshly created machine only.
    pub fn start(&mut self, args: &mut A) -> (r: Result<(), E>)
        requires
            old(self).wf(),
            old(self).fresh(),
        ensures
            final(self).wf(),
            old(self).history().is_prefix_of(final(self).history()),
            final(self).history().len() > 0,
            final(self).history()[0].id == old(self).state_ids()[0],
            final(self).history()[0].call is Start,
            old(self).next_id() <= final(self).next_id(),
            r is Ok ==> (final(self).is_running() <==> final(self).depth() > 0),
            r is Ok && final(self).is_running() ==> final(self).top_active(),
            Self::entry_outcome(
                old(self).history(),
                old(self).state_ids(),
                old(self).next_id(),
                final(self).history()[0],
                r is Ok,
                false,
                *final(self),
            ),
    {
        let mut s0 = self.stack.pop().unwrap();
        let res = s0.start(&mut *args);
        self.stack.push(s0);
        let ghost ans = answer_of(res);
        let ghost pre = self.events@;
        let ghost ev = Ev { id: self.ids@.last(), call: Call::Start(ans) };
        self.events = Ghost(pre.push(ev));
        proof {
            assert(phase_of(pre, ev.id) == Phase::Unborn);
            lemma_append_ok(pre, ev);
            assert(self.stack@.len() == old(self).stack@.len());
            assert forall|id: nat| id >= self.next@ implies phase_of(self.events@, id)
                == Phase::Unborn by {
                assert(ev.id < self.next@);
                assert(phase_of(pre, id) == Phase::Unborn);
            }
            assert(pre.is_prefix_of(self.events@)) by {
                assert(pre =~= self.events@.subrange(0, pre.len() as int));
            }
        }
        match res {
            Result::Err(e) => Result::Err(e),
            Result::Ok(t) => {
                self.running = true;
                self.active = true;
                let ghost h1 = self.events@;
                let r = self.interpret(args, t);
                proof {
                    lemma_prefix_trans(pre, h1, self.events@);
                    assert(self.events@[0] == ev);
                }
                r
            },
        }
    }

    /// Updates the current state by calling `State::update` with `args`,
    /// then interprets the transition it returns.
    ///
    /// Calling this on a machine that is not running, or whose current top
    /// was left paused by an aborted chain, is a misuse; the precondition
    /// rules it out.
    pub fn update(&mut self, args: &mut A) -> (r: Result<(), E>)
        requires
            old(self).wf(),
            old(self).is_running(),
            old(self).top_active(),
        ensures
            final(self).wf(),
            old(self).history().is_prefix_of(final(self).history()),
            final(self).history().len() > old(self).history().len(),
            final(self).history()[old(self).history().len() as int].id == old(self).top_id(),
            final(self).history()[old(self).history().len() as int].call is Update,
            old(self).next_id() <= final(self).next_id(),
            !final(self).is_running() ==> final(self).depth() == 0,
            r is Ok && final(self).is_running() ==> final(self).top_active(),
            Self::entry_outcome(
                old(self).history(),
                old(self).state_ids(),
                old(self).next_id(),
                final(self).history()[old(self).history().len() as int],
                r is Ok,
                true,
                *final(self),
            ),
    {
        let mut top = self.stack.pop().unwrap();
        let res = top.update(&mut *args);
        self.stack.push(top);
        let ghost ans = answer_of(res);
        let ghost pre = self.events@;
        let ghost ev = Ev { id: self.ids@.last(), call: Call::Update(ans) };
        self.events = Ghost(pre.push(ev));
        proof {
            let n = self.ids@.len() as int;
            lemma_append_ok(pre, ev);
            assert forall|i: int| 0 <= i < n - 1 implies phase_of(self.events@, self.ids@[i])
                == Phase::Paused by {
                assert(old(self).state_ids()[i] != old(self).state_ids()[n - 1]);
                assert(phase_of(pre, self.ids@[i]) == Phase::Paused);
            }
            assert forall|id: nat| id >= self.next@ implies phase_of(self.events@, id)
                == Phase::Unborn by {
                assert(ev.id < self.next@);
                assert(phase_of(pre, id) == Phase::Unborn);
            }
            assert(self.stack@.len() == old(self).stack@.len());
            assert(pre.is_prefix_of(self.events@)) by {
                assert(pre =~= self.events@.subrange(0, pre.len() as int));
            }
        }
        match res {
            Result::Err(e) => Result::Err(e),
            Result::Ok(t) => {
                let ghost h1 = self.events@;
                let r = self.interpret(args, t);
                proof {
                    lemma_prefix_trans(pre, h1, self.events@);
                    assert(self.events@[pre.len() as int] == ev);
                }
                r
            },
        }
    }

    /// Performs a fixed update on the current state by calling
    /// `State::fixed_update` with `args`, then interprets the transition it
    /// returns.
    ///
    /// Calling this on a machine that is not running, or whose current top
    /// was left paused by an aborted chain, is a misuse; the precondition
    /// rules it out.
    pub fn fixed_update(&mut self, args: &mut A) -> (r: Result<(), E>)
        requires
            old(self).wf(),
            old(self).is_running(),
            old(self).top_active(),
        ensures
            final(self).wf(),
            old(self).history().is_prefix_of(final(self).history()),
            final(self).history().len() > old(self).history().len(),
            final(self).history()[old(self).history().len() as int].id == old(self).top_id(),
            final(self).history()[old(self).history().len() as int].call is FixedUpdate,
            old(self).next_id() <= final(self).next_id(),
            !final(self).is_running() ==> final(self).depth() == 0,
            r is Ok && final(self).is_running() ==> final(self).top_active(),
            Self::entry_outcome(
                old(self).history(),
                old(self).state_ids(),
                old(self).next_id(),
                final(self).history()[old(self).history().len() as int],
                r is Ok,
                true,
                *final(self),
            ),
    {
        let mut top = self.stack.pop().unwrap();
        let res = top.fixed_update(&mut *args);
        self.stack.push(top);
        let ghost ans = answer_of(res);
        let ghost pre = self.events@;
        let ghost ev = Ev { id: self.ids@.last(), call: Call::FixedUpdate(ans) };
        self.events = Ghost(pre.push(ev));
        proof {
            let n = self.ids@.len() as int;
            lemma_append_ok(pre, ev);
            assert forall|i: int| 0 <= i < n - 1 implies phase_of(self.events@, self.ids@[i])
                == Phase::Paused by {
                assert(old(self).state_ids()[i] != old(self).state_ids()[n - 1]);
                assert(phase_of(pre, self.ids@[i]) == Phase::Paused);
            }
            assert forall|id: nat| id >= self.next@ implies phase_of(self.events@, id)
                == Phase::Unborn by {
                assert(ev.id < self.next@);
                assert(phase_of(pre, id) == Phase::Unborn);
            }
            assert(self.stack@.len() == old(self).stack@.len());
            assert(pre.is_prefix_of(self.events@)) by {
                assert(pre =~= self.events@.subrange(0, pre.len() as int));
            }
        }
        match res {
            Result::Err(e) => Result::Err(e),
            Result::Ok(t) => {
                let ghost h1 = self.events@;
                let r = self.interpret(args, t);
                proof {
                    lemma_prefix_trans(pre, h1, self.events@);
                    assert(self.events@[pre.len() as int] == ev);
                }
                r
            },
        }
    }

    /// Sends an `event` to the current state by calling `State::event`,
    /// then interprets the transition it returns.
    ///
    /// Calling this on a machine that is not running, or whose current top
    /// was left paused by an aborted chain, is a misuse; the precondition
    /// rules it out.
    pub fn event(&mut self, args: &mut A, event: F) -> (r: Result<(), E>)
        requires
            old(self).wf(),
            old(self).is_running(),
            old(self).top_active(),
        ensures
            final(self).wf(),
            old(self).history().is_prefix_of(final(self).history()),
            final(self).history().len() > old(self).history().len(),
            final(self).history()[old(self).history().len() as int].id == old(self).top_id(),
            final(self).history()[old(self).history().len() as int].call is Event,
            old(self).next_id() <= final(self).next_id(),
            !final(self).is_running() ==> final(self).depth() == 0,
            r is Ok && final(self).is_running() ==> final(self).top_active(),
            Self::entry_outcome(
                old(self).history(),
                old(self).state_ids(),
                old(self).next_id(),
                final(self).history()[old(self).history().len() as int],
                r is Ok,
                true,
                *final(self),
            ),
    {
        let mut top = self.stack.pop().unwrap();
        let res = top.event(&mut *args, event);
        self.stack.push(top);
        let ghost ans = answer_of(res);
        let ghost pre = self.events@;
        let ghost ev = Ev { id: self.ids@.last(), call: Call::Event(ans) };
        self.events = Ghost(pre.push(ev));
        proof {
            let n = self.ids@.len() as int;
            lemma_append_ok(pre, ev);
            assert forall|i: int| 0 <= i < n - 1 implies phase_of(self.events@, self.ids@[i])
                == Phase::Paused by {
                assert(old(self).state_ids()[i] != old(self).state_ids()[n - 1]);
                assert(phase_of(pre, self.ids@[i]) == Phase::Paused);
            }
            assert forall|id: nat| id >= self.next@ implies phase_of(self.events@, id)
                == Phase::Unborn by {
                assert(ev.id < self.next@);
                assert(phase_of(pre, id) == Phase::Unborn);
            }
            assert(self.stack@.len() == old(self).stack@.len());
            assert(pre.is_prefix_of(self.events@)) by {
                assert(pre =~= self.events@.subrange(0, pre.len() as int));
            }
        }
        match res {
            Result::Err(e) => Result::Err(e),
            Result::Ok(t) => {
                let ghost h1 = self.events@;
                let r = self.interpret(args, t);
                proof {
                    lemma_prefix_trans(pre, h1, self.events@);
                    assert(self.events@[pre.len() as int] == ev);
                }
                r
            },
        }
    }

    /// Stops the state machine.
    /// This removes all states from the state machine and calls `stop` on
    /// them, the current top first, after pausing the top if it was active.
    ///
    /// It is highly recommended that you call this method in case you want to
    /// stop the state machine, otherwise the states can't do anything on a
    /// shut down. If `running()` is false already, don't call this method.
    pub fn stop(&mut self, args: &mut A)
        requires
            old(self).wf(),
            old(self).is_running(),
        ensures
            final(self).wf(),
            !final(self).is_running(),
            final(self).depth() == 0,
            final(self).next_id() == old(self).next_id(),
            final(self).history() == old(self).history() + (if old(self).top_active() {
                seq![Ev { id: old(self).top_id(), call: Call::Pause }]
            } else {
                Seq::<Ev>::empty()
            }) + stops_of(old(self).state_ids()),
    {
        self.teardown(args);
    }
}

/// A state machine accepting a mutable reference as argument.
/// **You need to use this in case you're passing a mutable argument to
/// the state machine, otherwise the compiler will complain.**
pub type StateMachineRef<A, E, F, S> = StateMachine<Ref<A>, E, F, S>;

/// Law: a well-formed machine's history is always a well-formed lifecycle
/// history. Together with the laws on histories this says: every state is
/// started before any other call reaches it; a paused state's next own call
/// is a `resume` or a `stop`; a state is stopped only right after a pause,
/// and never receives a call after its `stop`.
pub proof fn lemma_machine_lifecycle<A, E, F, S>(m: StateMachine<A, E, F, S>)
    requires
        m.wf(),
    ensures
        lifecycle_ok(m.history()),
{
}

impl<A, E, F, S: Default> Default for StateMachine<A, E, F, S> {
    /// A machine whose initial state is the state type's default value.
    fn default() -> (m: Self)
        ensures
            m.wf(),
            m.fresh(),
    {
        StateMachine::new(Default::default())
    }
}

} // verus!
