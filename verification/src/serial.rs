//! The periodic serial transmitter and the receive indicator.
//!
//! Once per timer period the transmit task writes a fixed message to the
//! serial port, byte by byte. The session kept here decides what the two
//! status indicators show: the rx-error indicator from the first failed
//! write on, the tx-ok indicator once the whole message went out without a
//! failure. Both are put out again when the period ends. The firmware makes
//! the writes and drives the pins; the session is told how each write went.
//!
//! The receive task is separate: it flips one more indicator on every
//! receive-complete event and shares no state with the transmitter.

use crate::pin::Level;
use vstd::prelude::*;

verus! {

/// The two status indicators of the transmitter.
#[derive(Clone, Copy, Debug, PartialEq, Eq, Structural)]
pub enum Indicator {
    TxOk,
    RxError,
}

/// One write to the pin of a status indicator.
#[derive(Clone, Copy, Debug, PartialEq, Eq, Structural)]
pub struct IndicatorWrite {
    pub indicator: Indicator,
    pub level: Level,
}

/// What the indicators showed when a period ended, and how many bytes of the
/// message had been handed to the serial port by then.
#[derive(Clone, Copy, Debug, PartialEq, Eq, Structural)]
pub struct PeriodReport {
    pub tx_ok: bool,
    pub rx_error: bool,
    pub attempted: usize,
}

/// The mathematical state of a [`SerialSession`].
pub struct SessionView {
    /// The message sent in every period.
    pub message: Seq<u8>,
    /// How many bytes of the message were handed to the serial port in the
    /// current period.
    pub cursor: nat,
    /// Whether a period is under way.
    pub sending: bool,
    /// Whether the tx-ok indicator is shown.
    pub tx_ok: bool,
    /// Whether the rx-error indicator is shown.
    pub rx_error: bool,
}

impl SessionView {
    /// The invariant of a session: the cursor stays inside the message, both
    /// indicators are out between periods, tx-ok is shown exactly when the
    /// whole message went out without a failure, and rx-error is shown only
    /// after a write.
    pub open spec fn wf(self) -> bool {
        &&& self.cursor <= self.message.len()
        &&& !self.sending ==> self.cursor == 0 && !self.tx_ok && !self.rx_error
        &&& self.sending ==> (self.tx_ok <==> self.cursor == self.message.len() && !self.rx_error)
        &&& self.rx_error ==> self.cursor > 0
    }

    /// The state of a fresh session for `message`.
    pub open spec fn idle(message: Seq<u8>) -> SessionView {
        SessionView { message, cursor: 0, sending: false, tx_ok: false, rx_error: false }
    }

    /// Whether the session waits for the outcome of a write.
    pub open spec fn expects_write(self) -> bool {
        self.sending && self.cursor < self.message.len()
    }

    /// The state after a period began. An empty message is complete at once.
    pub open spec fn begun(self) -> SessionView {
        SessionView {
            cursor: 0,
            sending: true,
            tx_ok: self.message.len() == 0,
            rx_error: false,
            ..self
        }
    }

    /// The state after the write of the byte under the cursor succeeded
    /// (`ok`) or failed. Outside a period, and past the end of the message,
    /// nothing changes.
    pub open spec fn written(self, ok: bool) -> SessionView {
        if self.expects_write() {
            let rx_error = self.rx_error || !ok;
            let cursor = self.cursor + 1;
            SessionView {
                cursor: cursor as nat,
                rx_error,
                tx_ok: cursor == self.message.len() && !rx_error,
                ..self
            }
        } else {
            self
        }
    }

    /// The pin write that goes with `written(ok)`: rx-error is lit by the
    /// first failure of the period, tx-ok by the last byte of a period
    /// without a failure.
    pub open spec fn signal(self, ok: bool) -> Option<IndicatorWrite> {
        if self.expects_write() && !ok && !self.rx_error {
            Some(IndicatorWrite { indicator: Indicator::RxError, level: Level::Low })
        } else if self.expects_write() && self.written(ok).tx_ok {
            Some(IndicatorWrite { indicator: Indicator::TxOk, level: Level::Low })
        } else {
            None
        }
    }

    /// The state after the period ended: idle, both indicators out.
    pub open spec fn ended(self) -> SessionView {
        SessionView::idle(self.message)
    }

    /// What the session reports when the period ends now.
    pub open spec fn report(self) -> PeriodReport {
        PeriodReport { tx_ok: self.tx_ok, rx_error: self.rx_error, attempted: self.cursor as usize }
    }

    /// The state after a period began and the first `k` bytes were written
    /// with the outcomes that `outcomes` scripts.
    pub open spec fn after_writes(self, outcomes: Seq<bool>, k: nat) -> SessionView
        decreases k,
    {
        if k == 0 {
            self.begun()
        } else {
            self.after_writes(outcomes, (k - 1) as nat).written(write_succeeds(outcomes, k - 1))
        }
    }
}

/// The outcome that a script of write outcomes gives for the byte at index
/// `i`: the entry at `i`, and success where the script has run out.
pub open spec fn write_succeeds(outcomes: Seq<bool>, i: int) -> bool {
    i < 0 || i >= outcomes.len() || outcomes[i]
}

/// Whether some byte of a message of `len` bytes meets a failed write under
/// the script `outcomes`.
pub open spec fn some_write_fails(len: nat, outcomes: Seq<bool>) -> bool {
    exists|i: int| 0 <= i < len && !#[trigger] write_succeeds(outcomes, i)
}

/// What a whole period reports for `message` when its writes go as
/// `outcomes` scripts: the error indicator if any write failed, the ok
/// indicator if none did. Every byte is attempted either way.
pub open spec fn period_report(message: Seq<u8>, outcomes: Seq<bool>) -> PeriodReport {
    let failed = some_write_fails(message.len(), outcomes);
    PeriodReport { tx_ok: !failed, rx_error: failed, attempted: message.len() as usize }
}

/// The bytes of the greeting `Hello World`.
pub open spec fn greeting_bytes() -> Seq<u8> {
    seq![72u8, 101u8, 108u8, 108u8, 111u8, 32u8, 87u8, 111u8, 114u8, 108u8, 100u8]
}

/// Returns the greeting that the transmitter sends: the ASCII bytes of
/// `Hello World`, without framing or terminator.
pub fn greeting() -> (message: Vec<u8>)
    ensures
        message@ == greeting_bytes(),
{
    let mut message: Vec<u8> = Vec::new();
    message.push(72u8);
    message.push(101u8);
    message.push(108u8);
    message.push(108u8);
    message.push(111u8);
    message.push(32u8);
    message.push(87u8);
    message.push(111u8);
    message.push(114u8);
    message.push(108u8);
    message.push(100u8);
    assert(message@ =~= greeting_bytes());
    message
}

/// The state that the transmit task keeps: the message, the cursor into it
/// and the two indicators.
pub struct SerialSession {
    message: Vec<u8>,
    cursor: usize,
    sending: bool,
    tx_ok: bool,
    rx_error: bool,
}

impl View for SerialSession {
    type V = SessionView;

    closed spec fn view(&self) -> SessionView {
        SessionView {
            message: self.message@,
            cursor: self.cursor as nat,
            sending: self.sending,
            tx_ok: self.tx_ok,
            rx_error: self.rx_error,
        }
    }
}

impl SerialSession {
    /// A session that sends `message` in every period. No period is under
    /// way and both indicators are out.
    pub fn new(message: Vec<u8>) -> (session: SerialSession)
        ensures
            session@ == SessionView::idle(message@),
            session@.wf(),
    {
        SerialSession { message, cursor: 0, sending: false, tx_ok: false, rx_error: false }
    }

    /// Returns the message sent in every period.
    pub fn message(&self) -> (message: &Vec<u8>)
        ensures
            message@ == self@.message,
    {
        &self.message
    }

    /// Tells whether a period is under way.
    pub fn is_sending(&self) -> (sending: bool)
        ensures
            sending == self@.sending,
    {
        self.sending
    }

    /// Tells whether the tx-ok indicator is shown.
    pub fn tx_ok(&self) -> (shown: bool)
        ensures
            shown == self@.tx_ok,
    {
        self.tx_ok
    }

    /// Tells whether the rx-error indicator is shown.
    pub fn rx_error(&self) -> (shown: bool)
        ensures
            shown == self@.rx_error,
    {
        self.rx_error
    }

    /// Starts a period: the cursor goes back to the first byte. Returns the
    /// pin write to make, which there is only for an empty message: it is
    /// complete at once, and tx-ok is lit.
    pub fn begin_period(&mut self) -> (write: Option<IndicatorWrite>)
        ensures
            final(self)@ == old(self)@.begun(),
            old(self)@.wf() ==> final(self)@.wf(),
            write == if old(self)@.message.len() == 0 {
                Some(IndicatorWrite { indicator: Indicator::TxOk, level: Level::Low })
            } else {
                None
            },
    {
        self.cursor = 0;
        self.sending = true;
        self.rx_error = false;
        self.tx_ok = self.message.len() == 0;
        if self.tx_ok {
            Some(IndicatorWrite { indicator: Indicator::TxOk, level: Level::Low })
        } else {
            None
        }
    }

    /// Returns the byte to hand to the serial port next, or `None` when no
    /// period is under way or the whole message has been attempted.
    pub fn next_byte(&self) -> (byte: Option<u8>)
        ensures
            byte == if self@.expects_write() {
                Some(self@.message[self@.cursor as int])
            } else {
                None
            },
    {
        if self.sending && self.cursor < self.message.len() {
            Some(self.message[self.cursor])
        } else {
            None
        }
    }

    /// Records how the write of the byte under the cursor went and moves the
    /// cursor on, whether the write succeeded or not: a failed byte is not
    /// tried again. Returns the pin write to make, if any. A call that no
    /// write went before (outside a period, or past the end of the message)
    /// changes nothing.
    pub fn record_write(&mut self, ok: bool) -> (write: Option<IndicatorWrite>)
        ensures
            final(self)@ == old(self)@.written(ok),
            old(self)@.wf() ==> final(self)@.wf(),
            write == old(self)@.signal(ok),
    {
        if self.sending && self.cursor < self.message.len() {
            let first_failure = !ok && !self.rx_error;
            if !ok {
                self.rx_error = true;
            }
            self.cursor = self.cursor + 1;
            self.tx_ok = self.cursor == self.message.len() && !self.rx_error;
            if first_failure {
                Some(IndicatorWrite { indicator: Indicator::RxError, level: Level::Low })
            } else if self.tx_ok {
                Some(IndicatorWrite { indicator: Indicator::TxOk, level: Level::Low })
            } else {
                None
            }
        } else {
            None
        }
    }

    /// Ends the period, whatever its outcome: returns what the indicators
    /// showed, and the two pin writes that put them out. The session is idle
    /// afterwards.
    pub fn end_period(&mut self) -> (end: (PeriodReport, Vec<IndicatorWrite>))
        ensures
            final(self)@ == old(self)@.ended(),
            final(self)@.wf(),
            end.0 == old(self)@.report(),
            end.1@ == seq![
                IndicatorWrite { indicator: Indicator::TxOk, level: Level::High },
                IndicatorWrite { indicator: Indicator::RxError, level: Level::High },
            ],
    {
        let report = PeriodReport {
            tx_ok: self.tx_ok,
            rx_error: self.rx_error,
            attempted: self.cursor,
        };
        self.cursor = 0;
        self.sending = false;
        self.tx_ok = false;
        self.rx_error = false;
        let mut writes: Vec<IndicatorWrite> = Vec::new();
        writes.push(IndicatorWrite { indicator: Indicator::TxOk, level: Level::High });
        writes.push(IndicatorWrite { indicator: Indicator::RxError, level: Level::High });
        (report, writes)
    }

    /// Runs one whole period against a scripted serial port: the write of
    /// byte `i` fails exactly when `outcomes` has an entry `false` at `i`.
    /// Returns the report of the period; the session is idle afterwards.
    pub fn run_period(&mut self, outcomes: &[bool]) -> (report: PeriodReport)
        ensures
            final(self)@ == old(self)@.ended(),
            final(self)@.wf(),
            report == period_report(old(self)@.message, outcomes@),
    {
        let _ = self.begin_period();
        let ghost start = old(self)@;
        proof {
            lemma_after_writes(start, outcomes@, 0);
        }
        while self.cursor < self.message.len()
            invariant
                self@ == start.after_writes(outcomes@, self@.cursor),
                self@.sending,
                self@.cursor <= self@.message.len(),
                self@.message == start.message,
            decreases self.message.len() - self.cursor,
        {
            let ok = self.cursor >= outcomes.len() || outcomes[self.cursor];
            let _ = self.record_write(ok);
        }
        proof {
            lemma_after_writes(start, outcomes@, self@.cursor);
        }
        let (report, _) = self.end_period();
        report
    }
}

/// Writing the first `k` bytes of a period leaves the session in a state
/// that depends on the script alone: the cursor stands at `k`, rx-error is
/// shown exactly if one of the `k` writes failed, and tx-ok exactly if the
/// message is complete and none failed.
pub proof fn lemma_after_writes(start: SessionView, outcomes: Seq<bool>, k: nat)
    requires
        k <= start.message.len(),
    ensures
        start.after_writes(outcomes, k) == (SessionView {
            message: start.message,
            cursor: k,
            sending: true,
            tx_ok: k == start.message.len() && !some_write_fails(k, outcomes),
            rx_error: some_write_fails(k, outcomes),
        }),
        start.after_writes(outcomes, k).wf(),
    decreases k,
{
    if k > 0 {
        let j = (k - 1) as nat;
        lemma_after_writes(start, outcomes, j);
        if some_write_fails(k, outcomes) {
            let i = choose|i: int| 0 <= i < k && !#[trigger] write_succeeds(outcomes, i);
            if i < j {
                assert(some_write_fails(j, outcomes));
            }
        }
        if !write_succeeds(outcomes, j as int) {
            assert(some_write_fails(k, outcomes));
        }
        if some_write_fails(j, outcomes) {
            let i = choose|i: int| 0 <= i < j && !#[trigger] write_succeeds(outcomes, i);
            assert(0 <= i < k && !write_succeeds(outcomes, i));
        }
    }
}

/// A period in which every byte is written reports what `period_report`
/// says, step by step or as a whole.
pub proof fn lemma_period_by_steps(start: SessionView, outcomes: Seq<bool>)
    ensures
        start.after_writes(outcomes, start.message.len()).report() == period_report(
            start.message,
            outcomes,
        ),
{
    lemma_after_writes(start, outcomes, start.message.len());
}

/// A write that fails at some byte of the message makes the period report
/// the error indicator, and not the ok indicator, wherever in the message it
/// fails and whatever the other writes do.
pub proof fn lemma_failure_is_reported(message: Seq<u8>, outcomes: Seq<bool>, i: int)
    requires
        0 <= i < message.len(),
        i < outcomes.len(),
        !outcomes[i],
    ensures
        period_report(message, outcomes).rx_error,
        !period_report(message, outcomes).tx_ok,
{
    assert(!write_succeeds(outcomes, i));
}

/// A period in which no write fails reports the ok indicator, and not the
/// error indicator.
pub proof fn lemma_clean_period_is_ok(message: Seq<u8>, outcomes: Seq<bool>)
    requires
        forall|i: int| 0 <= i < message.len() && i < outcomes.len() ==> outcomes[i],
    ensures
        period_report(message, outcomes).tx_ok,
        !period_report(message, outcomes).rx_error,
{
}

/// The indicator that the receive task flips on every receive-complete
/// event. It shows that bytes arrive; it says nothing of what they hold.
pub struct ReceiveBeacon {
    level: Level,
}

impl ReceiveBeacon {
    /// The level the indicator is driven at.
    pub closed spec fn level(&self) -> Level {
        self.level
    }

    /// A beacon whose pin stands at `level`.
    pub fn new(level: Level) -> (beacon: ReceiveBeacon)
        ensures
            beacon.level() == level,
    {
        ReceiveBeacon { level }
    }

    /// Returns the level the indicator is driven at.
    pub fn current(&self) -> (level: Level)
        ensures
            level == self.level(),
    {
        self.level
    }

    /// One receive-complete event: flips the indicator and returns the level
    /// to drive.
    pub fn on_receive_complete(&mut self) -> (level: Level)
        ensures
            level == old(self).level().flipped(),
            final(self).level() == level,
    {
        self.level = self.level.toggled();
        self.level
    }
}

} // verus!
