//! The store of recent readings.
//!
//! Four metrics are kept as bounded series; the two converter values are
//! kept as their latest value only. A message changes the one slot that its
//! kind names and nothing else.

use vstd::prelude::*;
use crate::decimal::Decimal;
use crate::gps::Message;
use crate::message::CartainMessage;
use crate::series::{retained, Sample, Series};

verus! {

/// What the store holds, as a mathematical value.
pub struct Readings {
    /// The frequency readings, oldest first.
    pub current: Seq<Sample<u64>>,
    /// The current-deviation readings, oldest first.
    pub devcurr: Seq<Sample<Decimal>>,
    /// The accumulated-deviation readings, oldest first.
    pub devaccum: Seq<Sample<Decimal>>,
    /// The latest value of the first converter, if one was received.
    pub dac1: Option<u32>,
    /// The latest value of the second converter, if one was received.
    pub dac2: Option<u32>,
    /// The deviation readings in parts per billion, oldest first.
    pub deviation: Seq<Sample<Decimal>>,
}

/// A series after it received `value` at second `now`.
pub open spec fn extended<V>(series: Seq<Sample<V>>, now: i64, value: V) -> Seq<Sample<V>> {
    retained(series.push(Sample { timestamp: now, value }))
}

/// The store after it received `message` at second `now`.
pub open spec fn applied(state: Readings, message: CartainMessage, now: i64) -> Readings {
    match message {
        CartainMessage::Curr(v) => Readings { current: extended(state.current, now, v), ..state },
        CartainMessage::DevCurr(d) => Readings {
            devcurr: extended(state.devcurr, now, d),
            ..state
        },
        CartainMessage::DevAccum(d) => Readings {
            devaccum: extended(state.devaccum, now, d),
            ..state
        },
        CartainMessage::Deviation(d) => Readings {
            deviation: extended(state.deviation, now, d),
            ..state
        },
        CartainMessage::DAC1(v) => Readings { dac1: Some(v), ..state },
        CartainMessage::DAC2(v) => Readings { dac2: Some(v), ..state },
    }
}

/// What the presentation loop is told to do next.
#[derive(Debug, PartialEq, Eq)]
pub enum Control {
    /// Go on with the next round.
    Continue,
    /// The operator asked to leave.
    Quit,
    /// The link has failed; the session ends with this description.
    Failed(String),
}

/// What the presentation loop has observed.
#[derive(Debug, PartialEq, Eq)]
pub enum Event {
    /// The operator pressed the key for this character.
    Key(char),
    /// An item was taken from the telemetry channel at the given second,
    /// counted from the Unix epoch.
    Received(Message, i64),
}

/// The store of recent readings.
pub struct App {
    current: Series<u64>,
    devcurr: Series<Decimal>,
    devaccum: Series<Decimal>,
    dac1: Option<u32>,
    dac2: Option<u32>,
    deviation: Series<Decimal>,
}

impl View for App {
    type V = Readings;

    closed spec fn view(&self) -> Readings {
        Readings {
            current: self.current@,
            devcurr: self.devcurr@,
            devaccum: self.devaccum@,
            dac1: self.dac1,
            dac2: self.dac2,
            deviation: self.deviation@,
        }
    }
}

impl App {
    /// No series holds more than its capacity.
    pub closed spec fn wf(&self) -> bool {
        &&& self.current.wf()
        &&& self.devcurr.wf()
        &&& self.devaccum.wf()
        &&& self.deviation.wf()
    }

    /// A store that has received nothing.
    pub fn new() -> (app: App)
        ensures
            app.wf(),
            app@ == (Readings {
                current: Seq::empty(),
                devcurr: Seq::empty(),
                devaccum: Seq::empty(),
                dac1: None,
                dac2: None,
                deviation: Seq::empty(),
            }),
    {
        App {
            current: Series::new(),
            devcurr: Series::new(),
            devaccum: Series::new(),
            dac1: None,
            dac2: None,
            deviation: Series::new(),
        }
    }

    /// Records `message` as received at second `now`.
    pub fn apply(&mut self, message: CartainMessage, now: i64)
        requires
            old(self).wf(),
        ensures
            final(self).wf(),
            final(self)@ == applied(old(self)@, message, now),
    {
        match message {
            CartainMessage::Curr(v) => {
                self.current.push(now, v);
            },
            CartainMessage::DevCurr(d) => {
                self.devcurr.push(now, d);
            },
            CartainMessage::DevAccum(d) => {
                self.devaccum.push(now, d);
            },
            CartainMessage::Deviation(d) => {
                self.deviation.push(now, d);
            },
            CartainMessage::DAC1(v) => {
                self.dac1 = Some(v);
            },
            CartainMessage::DAC2(v) => {
                self.dac2 = Some(v);
            },
        }
    }

    /// Takes one item of the telemetry channel at second `now`: a message is
    /// recorded with that second as its timestamp; a link failure is handed
    /// back as the error and leaves the store as it is.
    pub fn process_message(&mut self, message: Message, now: i64) -> (r: Result<(), String>)
        requires
            old(self).wf(),
        ensures
            final(self).wf(),
            match message {
                Message::Data(m) => r is Ok && final(self)@ == applied(old(self)@, m, now),
                Message::SerialError(e) => r == Err::<(), String>(e) && final(self)@ == old(
                    self,
                )@,
            },
    {
        match message {
            Message::Data(m) => {
                self.apply(m, now);
                Ok(())
            },
            Message::SerialError(e) => Err(e),
        }
    }

    /// Decides what the presentation loop does after `event`: the key `q`
    /// ends the session, a link failure ends it with an error, and anything
    /// else lets it go on. A received message is recorded on the way, with
    /// the second of its receipt as its timestamp.
    pub fn step(&mut self, event: Event) -> (next: Control)
        requires
            old(self).wf(),
        ensures
            final(self).wf(),
            match event {
                Event::Key(c) => {
                    &&& final(self)@ == old(self)@
                    &&& next == if c == 'q' {
                        Control::Quit
                    } else {
                        Control::Continue
                    }
                },
                Event::Received(Message::Data(m), now) => {
                    &&& next == Control::Continue
                    &&& final(self)@ == applied(old(self)@, m, now)
                },
                Event::Received(Message::SerialError(e), _) => {
                    &&& final(self)@ == old(self)@
                    &&& next == Control::Failed(e)
                },
            },
    {
        match event {
            Event::Key(c) => {
                if c == 'q' {
                    Control::Quit
                } else {
                    Control::Continue
                }
            },
            Event::Received(message, now) => match self.process_message(message, now) {
                Ok(()) => Control::Continue,
                Err(e) => Control::Failed(e),
            },
        }
    }

    /// The frequency readings.
    pub fn current(&self) -> (series: &Series<u64>)
        requires
            self.wf(),
        ensures
            series.wf(),
            series@ == self@.current,
    {
        &self.current
    }

    /// The current-deviation readings.
    pub fn devcurr(&self) -> (series: &Series<Decimal>)
        requires
            self.wf(),
        ensures
            series.wf(),
            series@ == self@.devcurr,
    {
        &self.devcurr
    }

    /// The accumulated-deviation readings.
    pub fn devaccum(&self) -> (series: &Series<Decimal>)
        requires
            self.wf(),
        ensures
            series.wf(),
            series@ == self@.devaccum,
    {
        &self.devaccum
    }

    /// The deviation readings in parts per billion.
    pub fn deviation(&self) -> (series: &Series<Decimal>)
        requires
            self.wf(),
        ensures
            series.wf(),
            series@ == self@.deviation,
    {
        &self.deviation
    }

    /// The latest value of the first converter, if one was received.
    pub fn dac1(&self) -> (value: Option<u32>)
        ensures
            value == self@.dac1,
    {
        self.dac1
    }

    /// The latest value of the second converter, if one was received.
    pub fn dac2(&self) -> (value: Option<u32>)
        ensures
            value == self@.dac2,
    {
        self.dac2
    }
}

} // verus!
