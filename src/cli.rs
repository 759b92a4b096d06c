//! The decisions of the sampling loop: which action each event calls for.
//!
//! The loop that waits on the timer, the keyboard and the shutdown signal
//! lives outside the library; it hands each event to [`App::step`], performs
//! the action returned, and hands a sample's readings to [`App::on_tick`].
use vstd::prelude::*;

use crate::error::Error;
use crate::interval::{decreased, increased, IntervalController};
use crate::platform::{readings_ok, sample_error, sample_of, Readings, Rpi};
use crate::series::{lemma_full_keeps_last, pushed_all, RollingSeries};

verus! {

/// How many power totals the chart keeps.
pub const CHART_LEN: usize = 200;

/// The period the loop starts with, in milliseconds.
pub const DEFAULT_PERIOD_MS: u64 = 1000;

/// A key, as far as the loop tells keys apart.
#[derive(Debug, Clone, Copy, PartialEq, Eq)]
pub enum KeyCode {
    Char(char),
    Esc,
    Other,
}

/// A key press, with whether the control modifier was held.
#[derive(Debug, Clone, Copy, PartialEq, Eq)]
pub struct KeyPress {
    pub code: KeyCode,
    pub ctrl: bool,
}

#[derive(Debug, Clone, Copy, PartialEq, Eq)]
pub enum Event {
    /// The sampling timer fired.
    Tick,
    /// A key was pressed.
    Key(KeyPress),
    /// The process was asked to terminate.
    Shutdown,
}

/// What the loop is to do next.
#[derive(Debug, Clone, Copy, PartialEq, Eq)]
pub enum Action {
    /// Take a sample and hand its readings to [`App::on_tick`], then redraw.
    Sample,
    /// Restart the timer with this period in milliseconds.
    Reschedule(u64),
    /// Restore the terminal and return.
    Exit,
    /// Nothing.
    Nothing,
}

/// Whether a key asks to quit: `q`, Escape, or Ctrl+C.
pub open spec fn is_quit_key(k: KeyPress) -> bool {
    k.code == KeyCode::Char('q') || k.code == KeyCode::Esc || (k.code == KeyCode::Char('c')
        && k.ctrl)
}

/// The loop's next state (running, period) and action for one event. Once the
/// loop is exiting, every event is discarded.
pub open spec fn next(running: bool, period: u64, ev: Event) -> (bool, u64, Action) {
    if !running {
        (false, period, Action::Nothing)
    } else {
        match ev {
            Event::Shutdown => (false, period, Action::Exit),
            Event::Tick => (true, period, Action::Sample),
            Event::Key(k) => if is_quit_key(k) {
                (false, period, Action::Exit)
            } else if k.code == KeyCode::Char('+') {
                (true, increased(period), Action::Reschedule(increased(period)))
            } else if k.code == KeyCode::Char('-') {
                (true, decreased(period), Action::Reschedule(decreased(period)))
            } else {
                (true, period, Action::Nothing)
            },
        }
    }
}

/// The actions that the events `evs` call for, one per event, from the given state.
pub open spec fn actions(running: bool, period: u64, evs: Seq<Event>) -> Seq<Action>
    decreases evs.len(),
{
    if evs.len() == 0 {
        Seq::empty()
    } else {
        let (r, p, a) = next(running, period, evs[0]);
        seq![a] + actions(r, p, evs.drop_first())
    }
}

/// The state of the sampling loop: whether it runs, the period, the last
/// sample read and the history of power totals.
pub struct App {
    quit: bool,
    tick_interval: IntervalController,
    platform: Option<Rpi>,
    chart_data: RollingSeries<u128>,
}

impl App {
    pub closed spec fn wf(&self) -> bool {
        self.chart_data.wf() && self.chart_data.cap() == CHART_LEN && self.chart_data@.len()
            == CHART_LEN
    }

    pub closed spec fn running(&self) -> bool {
        !self.quit
    }

    pub closed spec fn period(&self) -> u64 {
        self.tick_interval@
    }

    /// The last sample read, if any.
    pub closed spec fn sample(&self) -> Option<Rpi> {
        self.platform
    }

    /// The power totals charted, oldest first.
    pub closed spec fn chart(&self) -> Seq<u128> {
        self.chart_data@
    }

    /// A running loop at the default period, with no sample yet and a chart
    /// of zeros.
    pub fn new() -> (r: App)
        ensures
            r.wf(),
            r.running(),
            r.period() == DEFAULT_PERIOD_MS,
            r.sample() is None,
            r.chart() == Seq::new(CHART_LEN as nat, |i: int| 0u128),
    {
        App {
            quit: false,
            tick_interval: IntervalController::new(DEFAULT_PERIOD_MS),
            platform: None,
            chart_data: RollingSeries::filled(CHART_LEN, 0),
        }
    }

    /// The same loop with the period set to `period_ms`, which must not be zero.
    pub fn with_tick_duration(self, period_ms: u64) -> (r: App)
        requires
            period_ms > 0,
        ensures
            r.period() == period_ms,
            r.wf() == self.wf(),
            r.running() == self.running(),
            r.sample() == self.sample(),
            r.chart() == self.chart(),
    {
        App { tick_interval: IntervalController::new(period_ms), ..self }
    }

    pub fn is_running(&self) -> (r: bool)
        ensures
            r == self.running(),
    {
        !self.quit
    }

    pub fn period_ms(&self) -> (r: u64)
        ensures
            r == self.period(),
            r > 0,
    {
        self.tick_interval.period_ms()
    }

    pub fn platform(&self) -> (r: Option<&Rpi>)
        ensures
            match r {
                Some(p) => self.sample() == Some(*p),
                None => self.sample() is None,
            },
    {
        self.platform.as_ref()
    }

    pub fn chart_data(&self) -> (r: &[u128])
        ensures
            r@ == self.chart(),
    {
        self.chart_data.values()
    }

    /// Decides what one event calls for and updates the state accordingly.
    pub fn step(&mut self, ev: Event) -> (r: Action)
        ensures
            (final(self).running(), final(self).period(), r) == next(
                old(self).running(),
                old(self).period(),
                ev,
            ),
            final(self).wf() == old(self).wf(),
            final(self).sample() == old(self).sample(),
            final(self).chart() == old(self).chart(),
    {
        if self.quit {
            return Action::Nothing;
        }
        match ev {
            Event::Shutdown => {
                self.quit = true;
                Action::Exit
            },
            Event::Tick => Action::Sample,
            Event::Key(k) => self.handle_event(k),
        }
    }

    fn handle_event(&mut self, key: KeyPress) -> (r: Action)
        requires
            old(self).running(),
        ensures
            (final(self).running(), final(self).period(), r) == next(
                old(self).running(),
                old(self).period(),
                Event::Key(key),
            ),
            final(self).wf() == old(self).wf(),
            final(self).sample() == old(self).sample(),
            final(self).chart() == old(self).chart(),
    {
        match key.code {
            KeyCode::Char('q') | KeyCode::Esc => {
                self.quit = true;
                Action::Exit
            },
            KeyCode::Char('c') if key.ctrl => {
                self.quit = true;
                Action::Exit
            },
            KeyCode::Char('+') => {
                self.tick_interval.increase();
                Action::Reschedule(self.tick_interval.period_ms())
            },
            KeyCode::Char('-') => {
                self.tick_interval.decrease();
                Action::Reschedule(self.tick_interval.period_ms())
            },
            _ => Action::Nothing,
        }
    }

    /// Takes in one sample's readings. On success the sample replaces the last
    /// one and its total power joins the chart, pushing out the oldest total; on failure the loop stops (the
    /// failure is for the caller to report) and nothing else changes. A loop
    /// that is already exiting ignores the readings.
    pub fn on_tick(&mut self, readings: &Readings) -> (r: Result<(), Error>)
        requires
            old(self).wf(),
        ensures
            final(self).wf(),
            final(self).period() == old(self).period(),
            !old(self).running() ==> r is Ok && *final(self) == *old(self),
            old(self).running() ==> (r is Ok <==> readings_ok(*readings)),
            old(self).running() && r is Ok ==> final(self).running() && (final(self).sample() matches Some(p)
                && sample_of(*readings, p) && final(self).chart() == old(self).chart().drop_first().push(
                p.power.power.total_power,
            )),
            r matches Err(e) ==> sample_error(*readings, e),
            old(self).running() && r is Err ==> !final(self).running() && final(self).sample()
                == old(self).sample() && final(self).chart() == old(self).chart(),
    {
        if self.quit {
            return Ok(());
        }
        match Rpi::new(readings) {
            Ok(p) => {
                let total = p.power.power.total_power;
                self.platform = Some(p);
                self.chart_data.push(total);
                Ok(())
            },
            Err(e) => {
                self.quit = true;
                Err(e)
            },
        }
    }
}

/// The chart of a new loop holds exactly `CHART_LEN` totals after any number
/// of samples: the last `CHART_LEN` of the zeros it starts with followed by the
/// sampled totals, so once `CHART_LEN` or more samples were taken, exactly the
/// last `CHART_LEN` totals, in sampling order.
pub proof fn lemma_chart_after_samples(totals: Seq<u128>)
    ensures
        pushed_all(Seq::new(CHART_LEN as nat, |i: int| 0u128), CHART_LEN as nat, totals).len()
            == CHART_LEN,
        totals.len() >= CHART_LEN ==> pushed_all(
            Seq::new(CHART_LEN as nat, |i: int| 0u128),
            CHART_LEN as nat,
            totals,
        ) == totals.subrange(totals.len() - CHART_LEN, totals.len() as int),
{
    lemma_full_keeps_last(Seq::new(CHART_LEN as nat, |i: int| 0u128), CHART_LEN as nat, totals);
}

/// Once a shutdown is seen, no later event starts a sample: the shutdown
/// calls for the exit and every event after it for nothing.
pub proof fn lemma_shutdown_precedence(running: bool, period: u64, evs: Seq<Event>)
    ensures
        actions(running, period, seq![Event::Shutdown] + evs)[0] == (if running {
            Action::Exit
        } else {
            Action::Nothing
        }),
        forall|i: int|
            1 <= i <= evs.len() ==> #[trigger] actions(running, period, seq![Event::Shutdown] + evs)[i]
                == Action::Nothing,
{
    let all = seq![Event::Shutdown] + evs;
    assert(all.drop_first() =~= evs);
    lemma_exiting_ignores(period, evs);
}

/// An exiting loop answers every event with nothing.
pub proof fn lemma_exiting_ignores(period: u64, evs: Seq<Event>)
    ensures
        actions(false, period, evs).len() == evs.len(),
        forall|i: int| 0 <= i < evs.len() ==> #[trigger] actions(false, period, evs)[i] == Action::Nothing,
    decreases evs.len(),
{
    if evs.len() > 0 {
        lemma_exiting_ignores(period, evs.drop_first());
        assert forall|i: int| 0 <= i < evs.len() implies #[trigger] actions(false, period, evs)[i]
            == Action::Nothing by {
            if i > 0 {
                assert(actions(false, period, evs)[i] == actions(false, period, evs.drop_first())[i - 1]);
            }
        }
    }
}

} // verus!
