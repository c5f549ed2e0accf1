use sparkfun_samd21_mini::pin::Level;
use sparkfun_samd21_mini::serial::{
    greeting, Indicator, IndicatorWrite, PeriodReport, ReceiveBeacon, SerialSession,
};

const TX_ON: IndicatorWrite = IndicatorWrite { indicator: Indicator::TxOk, level: Level::Low };
const RX_ON: IndicatorWrite = IndicatorWrite { indicator: Indicator::RxError, level: Level::Low };
const TX_OFF: IndicatorWrite = IndicatorWrite { indicator: Indicator::TxOk, level: Level::High };
const RX_OFF: IndicatorWrite = IndicatorWrite { indicator: Indicator::RxError, level: Level::High };

/// Drives one period by hand, the way the transmit task does, against a
/// serial port whose write fails at the byte indices in `failing`. Returns
/// the bytes handed to the port, the pin writes made and the report.
fn drive(session: &mut SerialSession, failing: &[usize]) -> (Vec<u8>, Vec<IndicatorWrite>, PeriodReport) {
    let mut sent = Vec::new();
    let mut pins = Vec::new();
    pins.extend(session.begin_period());
    let mut index = 0;
    while let Some(byte) = session.next_byte() {
        sent.push(byte);
        let ok = !failing.contains(&index);
        pins.extend(session.record_write(ok));
        index += 1;
    }
    let (report, reset) = session.end_period();
    pins.extend(reset);
    (sent, pins, report)
}

#[test]
fn the_greeting_is_hello_world() {
    assert_eq!(greeting(), b"Hello World".to_vec());
    assert_eq!(greeting().len(), 11);
}

#[test]
fn a_new_session_is_idle_with_both_indicators_out() {
    let session = SerialSession::new(greeting());
    assert!(!session.is_sending());
    assert!(!session.tx_ok());
    assert!(!session.rx_error());
    assert_eq!(session.next_byte(), None);
    assert_eq!(session.message(), &b"Hello World".to_vec());
}

#[test]
fn all_eleven_writes_succeed_sets_tx_ok() {
    let mut session = SerialSession::new(greeting());
    assert_eq!(session.begin_period(), None);
    let mut sent = Vec::new();
    while let Some(byte) = session.next_byte() {
        sent.push(byte);
        let write = session.record_write(true);
        if sent.len() < 11 {
            assert_eq!(write, None);
            assert!(!session.tx_ok());
        } else {
            assert_eq!(write, Some(TX_ON));
        }
    }
    assert_eq!(sent, b"Hello World".to_vec());
    assert!(session.tx_ok());
    assert!(!session.rx_error());
    let (report, reset) = session.end_period();
    assert_eq!(report, PeriodReport { tx_ok: true, rx_error: false, attempted: 11 });
    assert_eq!(reset, vec![TX_OFF, RX_OFF]);
}

#[test]
fn a_failure_on_byte_five_sets_rx_error() {
    let mut session = SerialSession::new(greeting());
    session.begin_period();
    for _ in 0..5 {
        assert!(session.next_byte().is_some());
        assert_eq!(session.record_write(true), None);
    }
    assert_eq!(session.next_byte(), Some(b' '));
    assert_eq!(session.record_write(false), Some(RX_ON));
    assert!(session.rx_error());
    assert!(!session.tx_ok());
    let (report, _) = session.end_period();
    assert!(report.rx_error);
    assert!(!report.tx_ok);
    assert_eq!(report.attempted, 6);
}

#[test]
fn a_failure_on_byte_five_is_reported_by_a_whole_period() {
    let mut session = SerialSession::new(greeting());
    let mut outcomes = vec![true; 11];
    outcomes[5] = false;
    let report = session.run_period(&outcomes);
    assert_eq!(report, PeriodReport { tx_ok: false, rx_error: true, attempted: 11 });
}

#[test]
fn a_failure_at_any_byte_reports_the_error_indicator() {
    for length in 1..14 {
        let message: Vec<u8> = (0..length as u8).collect();
        for failing in 0..length {
            let mut outcomes = vec![true; length];
            outcomes[failing] = false;
            let mut session = SerialSession::new(message.clone());
            let report = session.run_period(&outcomes);
            assert!(report.rx_error, "length {length}, failing byte {failing}");
            assert!(!report.tx_ok, "length {length}, failing byte {failing}");
            let mut by_hand = SerialSession::new(message.clone());
            let (sent, pins, stepped) = drive(&mut by_hand, &[failing]);
            assert_eq!(stepped, report);
            assert_eq!(sent, message);
            assert_eq!(pins, vec![RX_ON, TX_OFF, RX_OFF]);
        }
    }
}

#[test]
fn a_period_without_failure_reports_the_ok_indicator() {
    for length in 0..14 {
        let message: Vec<u8> = (0..length as u8).collect();
        let mut session = SerialSession::new(message.clone());
        let report = session.run_period(&vec![true; length]);
        assert_eq!(report, PeriodReport { tx_ok: true, rx_error: false, attempted: length });
        let mut by_hand = SerialSession::new(message.clone());
        let (sent, pins, stepped) = drive(&mut by_hand, &[]);
        assert_eq!(stepped, report);
        assert_eq!(sent, message);
        assert_eq!(pins, vec![TX_ON, TX_OFF, RX_OFF]);
    }
}

#[test]
fn a_script_that_runs_out_lets_the_remaining_writes_succeed() {
    let mut session = SerialSession::new(greeting());
    assert_eq!(
        session.run_period(&[]),
        PeriodReport { tx_ok: true, rx_error: false, attempted: 11 }
    );
    assert_eq!(
        session.run_period(&[true, false]),
        PeriodReport { tx_ok: false, rx_error: true, attempted: 11 }
    );
    let mut long = vec![true; 11];
    long.push(false);
    assert_eq!(
        session.run_period(&long),
        PeriodReport { tx_ok: true, rx_error: false, attempted: 11 }
    );
}

#[test]
fn only_the_first_failure_of_a_period_drives_the_pin() {
    let mut session = SerialSession::new(vec![1, 2, 3, 4]);
    session.begin_period();
    assert_eq!(session.record_write(false), Some(RX_ON));
    assert_eq!(session.record_write(false), None);
    assert_eq!(session.record_write(true), None);
    assert_eq!(session.record_write(true), None);
    assert!(session.rx_error());
    assert!(!session.tx_ok());
    assert_eq!(session.next_byte(), None);
}

#[test]
fn a_failed_byte_is_not_sent_again() {
    let mut session = SerialSession::new(vec![10, 20, 30]);
    let (sent, _, report) = drive(&mut session, &[1]);
    assert_eq!(sent, vec![10, 20, 30]);
    assert_eq!(report, PeriodReport { tx_ok: false, rx_error: true, attempted: 3 });
}

#[test]
fn the_indicators_are_out_after_every_period() {
    let mut session = SerialSession::new(greeting());
    for failing in [vec![], vec![0], vec![10], vec![3, 4]] {
        let (_, pins, _) = drive(&mut session, &failing);
        assert_eq!(pins[pins.len() - 2..], [TX_OFF, RX_OFF]);
        assert!(!session.is_sending());
        assert!(!session.tx_ok());
        assert!(!session.rx_error());
        assert_eq!(session.next_byte(), None);
    }
}

#[test]
fn an_error_in_one_period_does_not_reach_the_next() {
    let mut session = SerialSession::new(greeting());
    let mut outcomes = vec![true; 11];
    outcomes[0] = false;
    assert!(session.run_period(&outcomes).rx_error);
    let report = session.run_period(&vec![true; 11]);
    assert_eq!(report, PeriodReport { tx_ok: true, rx_error: false, attempted: 11 });
}

#[test]
fn an_empty_message_is_complete_when_the_period_begins() {
    let mut session = SerialSession::new(Vec::new());
    assert_eq!(session.begin_period(), Some(TX_ON));
    assert!(session.tx_ok());
    assert_eq!(session.next_byte(), None);
    let (report, reset) = session.end_period();
    assert_eq!(report, PeriodReport { tx_ok: true, rx_error: false, attempted: 0 });
    assert_eq!(reset, vec![TX_OFF, RX_OFF]);
    assert!(!session.tx_ok());
}

#[test]
fn a_write_outside_a_period_is_ignored() {
    let mut session = SerialSession::new(vec![7]);
    assert_eq!(session.record_write(false), None);
    assert!(!session.rx_error());
    session.begin_period();
    assert_eq!(session.record_write(true), Some(TX_ON));
    assert_eq!(session.record_write(false), None);
    assert!(session.tx_ok());
    assert!(!session.rx_error());
    let (report, _) = session.end_period();
    assert_eq!(report, PeriodReport { tx_ok: true, rx_error: false, attempted: 1 });
}

#[test]
fn beginning_again_restarts_the_period() {
    let mut session = SerialSession::new(vec![1, 2]);
    session.begin_period();
    assert_eq!(session.record_write(false), Some(RX_ON));
    assert_eq!(session.begin_period(), None);
    assert!(session.is_sending());
    assert!(!session.rx_error());
    assert_eq!(session.next_byte(), Some(1));
}

#[test]
fn the_receive_beacon_flips_on_every_event() {
    let mut beacon = ReceiveBeacon::new(Level::Low);
    assert_eq!(beacon.current(), Level::Low);
    assert_eq!(beacon.on_receive_complete(), Level::High);
    assert_eq!(beacon.current(), Level::High);
    assert_eq!(beacon.on_receive_complete(), Level::Low);
    assert_eq!(beacon.on_receive_complete(), Level::High);
    assert_eq!(beacon.current(), Level::High);
}
