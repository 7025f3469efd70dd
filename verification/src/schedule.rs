use vstd::prelude::*;

verus! {

/// The step loop of a run: it takes the `num_steps` steps that follow the
/// start step in turn, writes output on every step that is a multiple of
/// `dump`, can be stopped early (when the window is closed), and reports the
/// step whose state is saved at the end.
pub struct RunSchedule {
    pub start: usize,
    pub end: usize,
    pub dump: usize,
    pub next: usize,
    pub stopped: bool,
    pub last: usize,
}

/// What one call of `next_step` does: it hands out the next step and moves on,
/// or returns `None` and changes nothing once the run is over or stopped.
pub open spec fn advanced(s: RunSchedule) -> (RunSchedule, Option<usize>) {
    if s.stopped || s.next >= s.end {
        (s, None)
    } else {
        (RunSchedule { next: (s.next + 1) as usize, last: s.next, ..s }, Some(s.next))
    }
}

/// What `k` successive calls of `next_step` return.
pub open spec fn steps_returned(s: RunSchedule, k: nat) -> Seq<Option<usize>>
    decreases k,
{
    if k == 0 {
        Seq::empty()
    } else {
        seq![advanced(s).1] + steps_returned(advanced(s).0, (k - 1) as nat)
    }
}

/// The state after `k` successive calls of `next_step`.
pub open spec fn state_after(s: RunSchedule, k: nat) -> RunSchedule
    decreases k,
{
    if k == 0 {
        s
    } else {
        state_after(advanced(s).0, (k - 1) as nat)
    }
}

impl RunSchedule {
    /// The schedule of a run of `num_steps` steps from `start`, dumping every
    /// `dump` steps. Before any step has run, the step to save is `start`.
    pub fn new(start: usize, num_steps: usize, dump: usize) -> (s: RunSchedule)
        requires
            start + num_steps <= usize::MAX,
            dump > 0,
        ensures
            s.start == start,
            s.end == start + num_steps,
            s.dump == dump,
            s.next == start,
            !s.stopped,
            s.last == start,
    {
        RunSchedule { start, end: start + num_steps, dump, next: start, stopped: false, last: start }
    }

    /// The next step to take, or `None` once all steps are taken or the run
    /// was stopped.
    pub fn next_step(&mut self) -> (step: Option<usize>)
        ensures
            (*final(self), step) == advanced(*old(self)),
            step is Some <==> (!old(self).stopped && old(self).next < old(self).end),
            step matches Some(k) ==> k == old(self).next && final(self).last == k && final(self).next == k + 1,
            step is None ==> *final(self) == *old(self),
    {
        if self.stopped || self.next >= self.end {
            None
        } else {
            let step = self.next;
            self.next = step + 1;
            self.last = step;
            Some(step)
        }
    }

    /// Whether output is written after `step`: every `dump` steps.
    pub fn is_dump_step(&self, step: usize) -> (b: bool)
        requires
            self.dump > 0,
        ensures
            b == (step % self.dump == 0),
    {
        step % self.dump == 0
    }

    /// Ends the run early; no further step is handed out.
    pub fn stop(&mut self)
        ensures
            *final(self) == (RunSchedule { stopped: true, ..*old(self) }),
    {
        self.stopped = true;
    }

    /// The step whose state is saved when the run ends: the last step taken,
    /// or the start step if none was.
    pub fn final_step(&self) -> (step: usize)
        ensures
            step == self.last,
    {
        self.last
    }
}

/// Every call of `next_step` that hands out a step hands out the next one,
/// records it as the step to save, and moves on by one, leaving start, end,
/// dump interval and the stop flag as they were; a call that hands out
/// nothing changes nothing, and that happens exactly when the run was
/// stopped or has taken its last step.
pub proof fn lemma_next_step_records_the_step(s: RunSchedule)
    ensures
        advanced(s).1 is Some <==> (!s.stopped && s.next < s.end),
        advanced(s).1 is Some ==> {
            let t = advanced(s).0;
            &&& advanced(s).1 == Some(s.next)
            &&& t.last == s.next
            &&& t.next == s.next + 1
            &&& t.start == s.start && t.end == s.end && t.dump == s.dump && t.stopped == s.stopped
        },
        advanced(s).1 is None ==> advanced(s).0 == s,
{
}

/// A run that is not stopped hands out each step from its next step up to
/// its end exactly once, in increasing order, and then `None`; the step saved
/// at the end is then the last of them.
pub proof fn lemma_run_visits_every_step(s: RunSchedule)
    requires
        !s.stopped,
        s.next <= s.end,
    ensures
        steps_returned(s, (s.end - s.next + 1) as nat)
            == Seq::new((s.end - s.next) as nat, |i: int| Some((s.next + i) as usize)).push(None),
        s.next < s.end ==> state_after(s, (s.end - s.next + 1) as nat).last == s.end - 1,
        s.next == s.end ==> state_after(s, (s.end - s.next + 1) as nat).last == s.last,
    decreases s.end - s.next,
{
    let k = (s.end - s.next + 1) as nat;
    if s.next == s.end {
        assert(advanced(s).1 == None::<usize>);
        assert(steps_returned(advanced(s).0, 0) == Seq::<Option<usize>>::empty());
        assert(steps_returned(s, 1) =~= seq![None]);
        assert(steps_returned(s, 1) == steps_returned(s, k));
        assert(Seq::new(0, |i: int| Some((s.next + i) as usize)).push(None) =~= seq![None]);
        assert(state_after(s, 1) == state_after(advanced(s).0, 0));
    } else {
        let t = advanced(s).0;
        lemma_run_visits_every_step(t);
        assert(t.next == s.next + 1);
        assert((t.end - t.next + 1) as nat == (k - 1) as nat);
        assert(steps_returned(s, k) == seq![Some(s.next)] + steps_returned(t, (k - 1) as nat));
        assert(steps_returned(s, k) =~= Seq::new((s.end - s.next) as nat, |i: int| Some((s.next + i) as usize)).push(None));
        assert(state_after(s, k) == state_after(t, (k - 1) as nat));
        if t.next == t.end {
            assert(t.last == s.end - 1);
        }
    }
}

} // verus!
