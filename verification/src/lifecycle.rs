//! The lifecycle protocol, as a ghost model.
//!
//! The engine assigns every state instance it ever accepts a distinct id and
//! records each lifecycle call it issues as an [`Ev`] in a ghost history.
//! [`phase_of`] replays the calls a given id has received and yields the
//! phase the state is in; a history is well formed ([`lifecycle_ok`]) when no
//! state has ever been driven into [`Phase::Invalid`].

use vstd::prelude::*;

verus! {

/// What a transition-returning lifecycle call answered: the kind of
/// transition it asked for, or that it failed with the host's error.
#[derive(PartialEq, Eq, Structural, Clone, Copy, Debug)]
pub enum Answer {
    /// `Trans::Push(..)`: run a new state above the current one.
    Push,
    /// `Trans::Switch(..)`: replace the current state.
    Switch,
    /// `Trans::Pop`: remove the current state.
    Pop,
    /// `Trans::Stay`: no transition.
    Stay,
    /// `Trans::Quit`: shut the machine down.
    Quit,
    /// The call returned the host's error; the chain aborts.
    Failed,
}

/// A lifecycle call the engine can issue to a state. The four calls that
/// return a transition record what the state answered.
#[derive(PartialEq, Eq, Structural, Clone, Copy, Debug)]
pub enum Call {
    /// The one-time initialisation call, with the state's answer.
    Start(Answer),
    /// Reactivation, after `Start` returned or after a `Pause`.
    Resume,
    /// Deactivation, before another state runs above or before removal.
    Pause,
    /// The terminal call, issued exactly once, immediately before removal.
    Stop,
    /// A regular update of the current state, with its answer.
    Update(Answer),
    /// A fixed-rate update of the current state, with its answer.
    FixedUpdate(Answer),
    /// Delivery of one host event to the current state, with its answer.
    Event(Answer),
}

/// One recorded lifecycle call: which state (by engine-assigned id) received
/// which call. Ghost data only; nothing of it exists at run time.
pub struct Ev {
    /// The engine-assigned id of the state that received the call.
    pub id: nat,
    /// The call it received.
    pub call: Call,
}

/// The phase a state is in, determined solely by the calls it has received.
#[derive(PartialEq, Eq, Structural, Clone, Copy, Debug)]
pub enum Phase {
    /// No call received yet.
    Unborn,
    /// `Start` has been issued; neither paused nor resumed since.
    Started,
    /// Active after a `Resume`.
    Live,
    /// Deactivated by a `Pause`; retained, awaiting `Resume` or `Stop`.
    Paused,
    /// Removed after its one `Stop`.
    Dead,
    /// A call arrived that the protocol does not allow in the prior phase.
    Invalid,
}

/// The lifecycle protocol: which call is legal in which phase, and the phase
/// it leads to. `Invalid` is absorbing.
pub open spec fn step(p: Phase, c: Call) -> Phase {
    match c {
        Call::Start(_) => if p is Unborn {
            Phase::Started
        } else {
            Phase::Invalid
        },
        Call::Resume => if p is Started || p is Paused {
            Phase::Live
        } else {
            Phase::Invalid
        },
        Call::Pause => if p is Started || p is Live {
            Phase::Paused
        } else {
            Phase::Invalid
        },
        Call::Stop => if p is Paused {
            Phase::Dead
        } else {
            Phase::Invalid
        },
        Call::Update(_) | Call::FixedUpdate(_) | Call::Event(_) => if p is Started || p is Live {
            p
        } else {
            Phase::Invalid
        },
    }
}

/// The phase the state `id` is in after the calls recorded in `t`.
pub open spec fn phase_of(t: Seq<Ev>, id: nat) -> Phase
    decreases t.len(),
{
    if t.len() == 0 {
        Phase::Unborn
    } else if t.last().id == id {
        step(phase_of(t.drop_last(), id), t.last().call)
    } else {
        phase_of(t.drop_last(), id)
    }
}

/// A history is well formed when no state was ever driven into an illegal
/// phase. This is the lifecycle-ordering law the engine maintains.
pub open spec fn lifecycle_ok(t: Seq<Ev>) -> bool {
    forall|id: nat| phase_of(t, id) != Phase::Invalid
}

/// The history a full teardown appends: one `Stop` for each stacked state,
/// top (last of `ids`) to bottom (first).
pub open spec fn stops_of(ids: Seq<nat>) -> Seq<Ev> {
    Seq::new(ids.len(), |i: int| Ev { id: ids[ids.len() - 1 - i], call: Call::Stop })
}

/// Appending one call steps the phase of the state it addresses and leaves
/// every other state's phase unchanged.
pub proof fn lemma_phase_append(t: Seq<Ev>, e: Ev, id: nat)
    ensures
        phase_of(t.push(e), id) == if e.id == id {
            step(phase_of(t, id), e.call)
        } else {
            phase_of(t, id)
        },
{
    assert(t.push(e).drop_last() =~= t);
    assert(t.push(e).last() == e);
}

/// Appending a call that is legal for its addressee keeps the whole history
/// well formed.
pub proof fn lemma_append_ok(t: Seq<Ev>, e: Ev)
    requires
        lifecycle_ok(t),
        step(phase_of(t, e.id), e.call) != Phase::Invalid,
    ensures
        lifecycle_ok(t.push(e)),
        phase_of(t.push(e), e.id) == step(phase_of(t, e.id), e.call),
        forall|id: nat| id != e.id ==> phase_of(t.push(e), id) == phase_of(t, id),
{
    assert forall|id: nat| phase_of(t.push(e), id) != Phase::Invalid by {
        lemma_phase_append(t, e, id);
    }
    assert forall|id: nat| id != e.id implies phase_of(t.push(e), id) == phase_of(t, id) by {
        lemma_phase_append(t, e, id);
    }
    lemma_phase_append(t, e, e.id);
}

/// Once a state's calls are invalid in a prefix, they stay invalid in the
/// whole history: `Invalid` is absorbing.
proof fn lemma_invalid_sticks(t: Seq<Ev>, k: int, id: nat)
    requires
        0 <= k <= t.len(),
        phase_of(t.take(k), id) == Phase::Invalid,
    ensures
        phase_of(t, id) == Phase::Invalid,
    decreases t.len() - k,
{
    if k == t.len() {
        assert(t.take(k) =~= t);
    } else {
        assert(t.take(k + 1) =~= t.take(k).push(t[k]));
        lemma_phase_append(t.take(k), t[k], id);
        lemma_invalid_sticks(t, k + 1, id);
    }
}

/// Every prefix of a well-formed history is well formed.
pub proof fn lemma_valid_prefix(t: Seq<Ev>, k: int)
    requires
        lifecycle_ok(t),
        0 <= k <= t.len(),
    ensures
        lifecycle_ok(t.take(k)),
{
    assert forall|id: nat| phase_of(t.take(k), id) != Phase::Invalid by {
        if phase_of(t.take(k), id) == Phase::Invalid {
            lemma_invalid_sticks(t, k, id);
        }
    }
}

/// A stretch of history without calls to `id` leaves its phase unchanged.
proof fn lemma_skip_others(t: Seq<Ev>, a: int, b: int, id: nat)
    requires
        0 <= a <= b <= t.len(),
        forall|k: int| a <= k < b ==> t[k].id != id,
    ensures
        phase_of(t.take(b), id) == phase_of(t.take(a), id),
    decreases b - a,
{
    if a < b {
        assert(t.take(b) =~= t.take(b - 1).push(t[b - 1]));
        lemma_phase_append(t.take(b - 1), t[b - 1], id);
        lemma_skip_others(t, a, b - 1, id);
    }
}

/// Law: in a well-formed history, a state's first call is its `start`.
/// No `resume`, `pause`, `stop`, update or event delivery ever reaches a
/// state that was not started before.
pub proof fn lemma_start_comes_first(t: Seq<Ev>, i: int)
    requires
        lifecycle_ok(t),
        0 <= i < t.len(),
        forall|j: int| 0 <= j < i ==> t[j].id != t[i].id,
    ensures
        t[i].call is Start,
{
    assert(t.take(0) =~= Seq::<Ev>::empty());
    lemma_skip_others(t, 0, i, t[i].id);
    assert(phase_of(t.take(i), t[i].id) == Phase::Unborn);
    assert(t.take(i + 1) =~= t.take(i).push(t[i]));
    lemma_phase_append(t.take(i), t[i], t[i].id);
    lemma_valid_prefix(t, i + 1);
}

/// Law: in a well-formed history, the call a state receives immediately
/// after a `pause` (counting only its own calls) is a `resume` or a `stop`;
/// no other ordering occurs.
pub proof fn lemma_pause_then_resume_or_stop(t: Seq<Ev>, i: int, j: int)
    requires
        lifecycle_ok(t),
        0 <= i < j < t.len(),
        t[i].id == t[j].id,
        t[i].call == Call::Pause,
        forall|k: int| i < k < j ==> t[k].id != t[i].id,
    ensures
        t[j].call == Call::Resume || t[j].call == Call::Stop,
{
    assert(t.take(i + 1) =~= t.take(i).push(t[i]));
    lemma_phase_append(t.take(i), t[i], t[i].id);
    lemma_valid_prefix(t, i + 1);
    assert(phase_of(t.take(i + 1), t[i].id) == Phase::Paused);
    lemma_skip_others(t, i + 1, j, t[i].id);
    assert(t.take(j + 1) =~= t.take(j).push(t[j]));
    lemma_phase_append(t.take(j), t[j], t[i].id);
    lemma_valid_prefix(t, j + 1);
}

/// Law: in a well-formed history, `stop` is a state's last call: nothing is
/// ever issued to a stopped state, so each state is stopped at most once.
pub proof fn lemma_stop_is_terminal(t: Seq<Ev>, i: int, j: int)
    requires
        lifecycle_ok(t),
        0 <= i < j < t.len(),
        t[i].call == Call::Stop,
    ensures
        t[j].id != t[i].id,
{
    if t[j].id == t[i].id {
        assert(t.take(i + 1) =~= t.take(i).push(t[i]));
        lemma_phase_append(t.take(i), t[i], t[i].id);
        lemma_valid_prefix(t, i + 1);
        assert(phase_of(t.take(i + 1), t[i].id) == Phase::Dead);
        let jj = choose|jj: int|
            i < jj < t.len() && t[jj].id == t[i].id && (forall|k: int|
                i < k < jj ==> t[k].id != t[i].id);
        assert(i < jj < t.len() && t[jj].id == t[i].id && (forall|k: int|
            i < k < jj ==> t[k].id != t[i].id)) by {
            lemma_first_after_exists(t, i, j);
        }
        lemma_skip_others(t, i + 1, jj, t[i].id);
        assert(phase_of(t.take(jj), t[i].id) == Phase::Dead);
        assert(t.take(jj + 1) =~= t.take(jj).push(t[jj]));
        lemma_phase_append(t.take(jj), t[jj], t[i].id);
        lemma_valid_prefix(t, jj + 1);
        assert(false);
    }
}

/// Between an index `i` and a later call to the same state there is a first
/// later call to that state.
proof fn lemma_first_after_exists(t: Seq<Ev>, i: int, j: int)
    requires
        0 <= i < j < t.len(),
        t[j].id == t[i].id,
    ensures
        exists|jj: int|
            i < jj < t.len() && t[jj].id == t[i].id && (forall|k: int|
                i < k < jj ==> t[k].id != t[i].id),
    decreases j - i,
{
    if forall|k: int| i < k < j ==> t[k].id != t[i].id {
        assert(i < j < t.len() && t[j].id == t[i].id && (forall|k: int|
            i < k < j ==> t[k].id != t[i].id));
    } else {
        let k0 = choose|k0: int| i < k0 < j && t[k0].id == t[i].id;
        lemma_first_after_exists(t, i, k0);
    }
}

/// Law: in a well-formed history, the call a state received immediately
/// before its `stop` (counting only its own calls) was a `pause`: no state
/// is stopped without having just been paused.
pub proof fn lemma_stop_follows_pause(t: Seq<Ev>, i: int, j: int)
    requires
        lifecycle_ok(t),
        0 <= i < j < t.len(),
        t[i].id == t[j].id,
        t[j].call == Call::Stop,
        forall|k: int| i < k < j ==> t[k].id != t[i].id,
    ensures
        t[i].call == Call::Pause,
{
    assert(t.take(j + 1) =~= t.take(j).push(t[j]));
    lemma_phase_append(t.take(j), t[j], t[i].id);
    lemma_valid_prefix(t, j + 1);
    assert(phase_of(t.take(j), t[i].id) == Phase::Paused);
    lemma_skip_others(t, i + 1, j, t[i].id);
    assert(phase_of(t.take(i + 1), t[i].id) == Phase::Paused);
    assert(t.take(i + 1) =~= t.take(i).push(t[i]));
    lemma_phase_append(t.take(i), t[i], t[i].id);
}

/// Being a prefix is transitive.
pub proof fn lemma_prefix_trans(a: Seq<Ev>, b: Seq<Ev>, c: Seq<Ev>)
    requires
        a.is_prefix_of(b),
        b.is_prefix_of(c),
    ensures
        a.is_prefix_of(c),
{
    assert(a =~= c.subrange(0, a.len() as int));
}

} // verus!
