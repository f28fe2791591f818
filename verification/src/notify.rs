//! Completion notifier: a shared counter plus a single-slot waiter
//! registration. It fires its wakeup exactly once, when every handle obtained
//! at construction time has been released, whatever order the releases come
//! in. The waiter itself is a `futures` task handle, opaque to the model.

use futures::task::Task;
use vstd::prelude::*;

verus! {

#[verifier::external_type_specification]
#[verifier::external_body]
pub struct ExTask(Task);

/// Relies on `futures::task::Task::notify`: schedules the registered task to
/// be polled again. A pure executor side effect; nothing is claimed of it.
#[verifier::external_body]
fn task_notify(t: &Task) {
    t.notify()
}

/// Abstract state of a notifier: the fixed release baseline, the number of
/// outstanding handles, whether the wakeup already fired, and the currently
/// registered waiter, if any.
#[verifier::ext_equal]
pub ghost struct NotifyV {
    pub expect: int,
    pub live: int,
    pub fired: bool,
    pub task: Option<Task>,
}

/// One release step: the live count drops by one; the step that empties an
/// armed baseline fires the wakeup, consuming the registration.
pub open spec fn note_release(n: NotifyV) -> NotifyV {
    let f = n.expect > 0 && !n.fired && n.live == 1;
    NotifyV {
        expect: n.expect,
        live: n.live - 1,
        fired: n.fired || f,
        task: if f {
            None
        } else {
            n.task
        },
    }
}

/// The state after `j` releases in a row.
pub open spec fn releases(n: NotifyV, j: nat) -> NotifyV
    decreases j,
{
    if j == 0 {
        n
    } else {
        note_release(releases(n, (j - 1) as nat))
    }
}

/// Fan-in law: from a freshly armed notifier whose whole baseline is
/// outstanding, a run of releases fires the wakeup exactly at the last one
/// and never earlier. Single releases are indistinguishable, so the same
/// holds for every permutation of the handles.
pub proof fn lemma_wakeup_exactly_once(n: NotifyV, j: nat)
    requires
        n.expect >= 1,
        n.live == n.expect,
        !n.fired,
        j <= n.expect,
    ensures
        releases(n, j).fired <==> j == n.expect,
        releases(n, j).live == n.live - j,
        releases(n, j).expect == n.expect,
    decreases j,
{
    if j > 0 {
        lemma_wakeup_exactly_once(n, (j - 1) as nat);
    }
}

/// An inert notifier — one with no expectation — never fires, however many
/// releases come.
pub proof fn lemma_inert_never_fires(n: NotifyV, j: nat)
    requires
        n.expect == 0,
        !n.fired,
    ensures
        !releases(n, j).fired,
        releases(n, j).expect == 0,
        releases(n, j).task == n.task,
    decreases j,
{
    if j > 0 {
        lemma_inert_never_fires(n, (j - 1) as nat);
    }
}

/// Shared counting + single-wakeup primitive signaling fan-in completion.
pub struct Notify {
    expect: usize,
    live: usize,
    fired: bool,
    task: Option<Task>,
}

impl View for Notify {
    type V = NotifyV;

    closed spec fn view(&self) -> NotifyV {
        NotifyV {
            expect: self.expect as int,
            live: self.live as int,
            fired: self.fired,
            task: self.task,
        }
    }
}

impl Notify {
    /// Inert notifier for internally generated, waiter-less requests: it has
    /// no expectation and never fires. Its one construction handle is live.
    pub fn empty() -> (n: Notify)
        ensures
            n@ == (NotifyV { expect: 0, live: 1, fired: false, task: None }),
    {
        Notify { expect: 0, live: 1, fired: false, task: None }
    }

    /// Fixes the release baseline, called exactly once, at split time: all
    /// `e` construction handles are outstanding from here on. A notifier
    /// whose wakeup already fired stays fired, so a stray re-arm can never
    /// wake a waiter twice.
    pub fn set_expect(&mut self, e: usize)
        ensures
            final(self)@ == (NotifyV {
                expect: e as int,
                live: e as int,
                fired: old(self)@.fired,
                task: old(self)@.task,
            }),
    {
        self.expect = e;
        self.live = e;
    }

    /// Records the given waiter, replacing any prior registration; safe to
    /// call again whenever the consumer is re-polled.
    pub fn set_task(&mut self, t: Task)
        ensures
            final(self)@ == (NotifyV { task: Some(t), ..old(self)@ }),
    {
        self.task = Some(t);
    }

    /// One release of one handle: decrements the live count and returns the
    /// pre-decrement value. The release that empties an armed baseline fires
    /// the wakeup, exactly once.
    pub fn release(&mut self) -> (pre: usize)
        requires
            old(self)@.live >= 1,
        ensures
            pre as int == old(self)@.live,
            final(self)@ == note_release(old(self)@),
    {
        let pre = self.live;
        self.live = self.live - 1;
        if self.expect > 0 && !self.fired && self.live == 0 {
            self.fired = true;
            self.wake();
        }
        pre
    }

    /// Wakes the registered waiter at most once per registration; a no-op if
    /// nothing is currently registered.
    pub fn wake(&mut self)
        ensures
            final(self)@ == (NotifyV { task: None, ..old(self)@ }),
    {
        let t = self.task.take();
        match t {
            Some(task) => task_notify(&task),
            None => (),
        }
    }

    /// Whether the wakeup has fired.
    pub fn has_fired(&self) -> (r: bool)
        ensures
            r == self@.fired,
    {
        self.fired
    }

    /// The fixed release baseline.
    pub fn expectation(&self) -> (r: usize)
        ensures
            r as int == self@.expect,
    {
        self.expect
    }

    /// How many handles of the fan-out set are still outstanding.
    pub fn live_count(&self) -> (r: usize)
        ensures
            r as int == self@.live,
    {
        self.live
    }
}

} // verus!
