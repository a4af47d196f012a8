use vstd::prelude::*;

verus! {

pub const N_NUMBER_BALLS: usize = 17;
pub const N_BLACK_BALLS: usize = 3;
pub const N_BALLS: usize = N_NUMBER_BALLS + N_BLACK_BALLS;

/// Physics steps the tombola runs per second.
pub const STEPS_PER_SECOND: i64 = 60;
/// Number of milliseconds per turn of the tombola.
pub const TURN_TIME: i64 = 2000;
/// Number of turns to do before stopping.
pub const N_TURNS: i64 = 3;
/// The most steps that are run at once to catch up with the clock; when more
/// are due the simulation is taken to have paused.
pub const MAX_CATCH_UP_STEPS: i64 = 4;

/// The largest step count the clock holds, so that a count of milliseconds
/// derived from it fits in an `i64`.
pub const MAX_STEPS: i64 = 9_223_372_036_854_775;

/// The largest elapsed time, in milliseconds, that the clock can be asked to
/// catch up with.
pub const MAX_ELAPSED_MS: i64 = 153_722_867_280_912_930;

/// Whole turns made after `executed` steps of a spin.
pub open spec fn turns_after(executed: int) -> int {
    executed * 1000 / STEPS_PER_SECOND as int / TURN_TIME as int
}

/// Step count that a clock started at time zero should have reached after
/// `elapsed_ms` milliseconds.
pub open spec fn target_steps(elapsed_ms: int) -> int {
    elapsed_ms * STEPS_PER_SECOND as int / 1000
}

/// What the tombola's rotation does on one step.
#[derive(PartialEq, Eq, Structural, Copy, Clone, Debug)]
pub enum SpinState {
    /// The tombola is not spinning and stays where it is.
    Idle,
    /// The tombola is spinning and has run this many steps of its spin.
    Turning(i64),
    /// The spin has just ended: the tombola goes back to its resting angle.
    Finished,
}

/// The step clock of a tombola: how many physics steps it has run and, while
/// it spins, the step at which the spin started.
#[derive(PartialEq, Eq, Structural, Copy, Clone, Debug)]
pub struct SpinClock {
    steps_executed: i64,
    spin_start_steps: Option<i64>,
}

/// The state of a spin clock as plain values.
#[derive(PartialEq, Eq, Structural, Copy, Clone, Debug)]
pub struct ClockView {
    pub steps_executed: i64,
    pub spin_start_steps: Option<i64>,
}

impl View for SpinClock {
    type V = ClockView;

    closed spec fn view(&self) -> ClockView {
        ClockView { steps_executed: self.steps_executed, spin_start_steps: self.spin_start_steps }
    }
}

/// Step counts stay where the arithmetic on them cannot overflow.
pub open spec fn clock_wf(c: ClockView) -> bool {
    &&& 0 <= c.steps_executed <= MAX_STEPS
    &&& c.spin_start_steps matches Some(s) ==> 0 <= s <= MAX_STEPS
}

/// The clock after a request to spin: a spin already under way goes on.
pub open spec fn start_spin_spec(c: ClockView) -> ClockView {
    if c.spin_start_steps is None {
        ClockView { spin_start_steps: Some(c.steps_executed), ..c }
    } else {
        c
    }
}

impl SpinClock {
    pub fn new() -> (r: SpinClock)
        ensures
            r@ == (ClockView { steps_executed: 0, spin_start_steps: None }),
            clock_wf(r@),
    {
        SpinClock { steps_executed: 0, spin_start_steps: None }
    }

    pub fn steps_executed(&self) -> (r: i64)
        ensures
            r == self@.steps_executed,
    {
        self.steps_executed
    }

    pub fn is_spinning(&self) -> (r: bool)
        ensures
            r == self@.spin_start_steps is Some,
    {
        self.spin_start_steps.is_some()
    }

    /// Starts a spin from the current step, unless one is already under way.
    pub fn start_spin(&mut self)
        ensures
            final(self)@ == start_spin_spec(old(self)@),
    {
        if self.spin_start_steps.is_none() {
            self.spin_start_steps = Some(self.steps_executed);
        }
    }

    /// Works out how many steps to run so that the clock catches up with
    /// `elapsed_ms` milliseconds since it started. When the clock is ahead, or
    /// more than `MAX_CATCH_UP_STEPS` behind, it jumps to the target instead and
    /// no step is run.
    pub fn catch_up(&mut self, elapsed_ms: i64) -> (n: i64)
        requires
            clock_wf(old(self)@),
            0 <= elapsed_ms <= MAX_ELAPSED_MS,
        ensures
            clock_wf(final(self)@),
            ({
                let target = target_steps(elapsed_ms as int);
                let due = target - old(self)@.steps_executed;
                if due < 0 || due > MAX_CATCH_UP_STEPS {
                    &&& n == 0
                    &&& final(self)@ == (ClockView { steps_executed: target as i64, ..old(self)@ })
                } else {
                    &&& n == due
                    &&& final(self)@ == old(self)@
                }
            }),
            final(self)@.steps_executed + n <= MAX_STEPS,
    {
        let target = elapsed_ms * STEPS_PER_SECOND / 1000;
        let due = target - self.steps_executed;
        if due < 0 || due > MAX_CATCH_UP_STEPS {
            self.steps_executed = target;
            0
        } else {
            due
        }
    }

    /// Runs one step of the clock: says what the rotation does on this step,
    /// ending the spin once it has made `N_TURNS` turns, then counts the step.
    pub fn step(&mut self) -> (r: SpinState)
        requires
            clock_wf(old(self)@),
            old(self)@.steps_executed < MAX_STEPS,
        ensures
            clock_wf(final(self)@),
            final(self)@.steps_executed == old(self)@.steps_executed + 1,
            match old(self)@.spin_start_steps {
                None => {
                    &&& r == SpinState::Idle
                    &&& final(self)@.spin_start_steps is None
                },
                Some(start) => {
                    let executed = old(self)@.steps_executed - start;
                    if turns_after(executed) >= N_TURNS {
                        &&& r == SpinState::Finished
                        &&& final(self)@.spin_start_steps is None
                    } else {
                        &&& r == SpinState::Turning(executed as i64)
                        &&& final(self)@.spin_start_steps == Some(start)
                    }
                },
            },
    {
        let r = match self.spin_start_steps {
            Some(start) => {
                let executed = self.steps_executed - start;
                let n_turns = executed * 1000 / STEPS_PER_SECOND / TURN_TIME;
                if n_turns >= N_TURNS {
                    self.spin_start_steps = None;
                    SpinState::Finished
                } else {
                    SpinState::Turning(executed)
                }
            },
            None => SpinState::Idle,
        };
        self.steps_executed = self.steps_executed + 1;
        r
    }
}

/// A spin makes its `N_TURNS` turns in 360 steps: six seconds at
/// `STEPS_PER_SECOND` steps a second.
pub proof fn lemma_spin_length(executed: int)
    requires
        executed >= 0,
    ensures
        (turns_after(executed) >= N_TURNS) <==> executed >= 360,
{
    let a = executed * 1000;
    let b = a / 60;
    assert(executed >= 360 ==> a >= 360000) by (nonlinear_arith)
        requires
            a == executed * 1000,
    ;
    assert(executed < 360 ==> a <= 359000) by (nonlinear_arith)
        requires
            a == executed * 1000,
            executed >= 0,
    ;
    assert(a >= 360000 ==> b >= 6000) by (nonlinear_arith)
        requires
            b == a / 60,
    ;
    assert(a <= 359000 && a >= 0 ==> b <= 5983) by (nonlinear_arith)
        requires
            b == a / 60,
    ;
}

} // verus!
