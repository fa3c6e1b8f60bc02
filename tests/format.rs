use queues::analyser::{EventAnalyser, Parameters};
use queues::customer::{ArrivingCustomer, Customer};
use queues::format::{column_name, parameter_record, parse, parse_time, tokenize};
use queues::queues::{ColumnError, Queue, QueueError, QueueEvent};
use queues::ratio::Ratio;

fn text(bytes: Vec<u8>) -> String {
    String::from_utf8(bytes).unwrap()
}

fn departure() -> QueueEvent {
    let arriving = ArrivingCustomer::next_1_fcfs(ArrivingCustomer::first(5), 1_500_000, 2_000_001);
    let customer = Customer::start_service(arriving, 2_250_000);
    QueueEvent { time: 4_250_001, arrivals: 3, departures: 2, in_system: 1, served_customer: Some(customer) }
}

#[test]
fn an_arrival_is_written_with_dashes() {
    let e = QueueEvent { time: 12_345_678, arrivals: 10, departures: 7, in_system: 3, served_customer: None };
    assert_eq!(text(e.dump_line()), "12.345678 10 7 3 A - - - - - - -");
}

#[test]
fn a_departure_is_written_with_its_customer() {
    assert_eq!(
        text(departure().dump_line()),
        "4.250001 3 2 1 D 1.500000 1.500000 2.000001 2.250000 4.250001 0.750000 2.750001"
    );
}

#[test]
fn the_header_names_the_columns() {
    assert_eq!(
        QueueEvent::dump_line_header(),
        "# time(s) arrivals departures in_system type interarrival_time time_of_arrival service_time time_of_service_start time_of_departure wait_in_queue wait_in_system"
    );
    assert_eq!(column_name(0), "time(s)");
    assert_eq!(column_name(11), "wait_in_system");
}

#[test]
fn lines_read_back_as_their_events() {
    let e = departure();
    assert_eq!(QueueEvent::try_from(&e.dump_line()).unwrap(), e);
    let a = QueueEvent { time: 0, arrivals: 1, departures: 0, in_system: 1, served_customer: None };
    assert_eq!(QueueEvent::try_from(&a.dump_line()).unwrap(), a);
    let big = QueueEvent { time: u64::MAX, arrivals: u64::MAX, departures: 0, in_system: u64::MAX, served_customer: None };
    assert_eq!(QueueEvent::try_from(&big.dump_line()).unwrap(), big);
}

#[test]
fn times_accept_up_to_six_decimals() {
    let t = |s: &str| parse_time(s.as_bytes(), 0, s.len());
    assert_eq!(t("3"), Some(3_000_000));
    assert_eq!(t("3.5"), Some(3_500_000));
    assert_eq!(t("0.000001"), Some(1));
    assert_eq!(t("3.0000001"), None);
    assert_eq!(t("3."), None);
    assert_eq!(t(".5"), None);
    assert_eq!(t("-1"), None);
    assert_eq!(t("1e3"), None);
    assert_eq!(t("18446744073709.551615"), Some(u64::MAX));
    assert_eq!(t("18446744073709.551616"), None);
}

#[test]
fn tokens_are_split_on_white_space() {
    let line = b"  1.5\t2  3 ";
    let spans = tokenize(line);
    assert_eq!(spans, vec![(2, 5), (6, 7), (9, 10)]);
    assert_eq!(parse(line, &spans, 0).unwrap(), 1_500_000);
    assert_eq!(parse(line, &spans, 1).unwrap(), 2);
    assert_eq!(parse(line, &spans, 2).unwrap(), 3);
}

#[test]
fn a_missing_column_is_named() {
    let err = QueueEvent::try_from(b"1.0 1 0").unwrap_err();
    assert_eq!(err, QueueError::LineParsing(ColumnError { column: 3, token: None }));
    let err = QueueEvent::try_from(b"1.0 1 0 1").unwrap_err();
    assert_eq!(err, QueueError::LineParsing(ColumnError { column: 4, token: None }));
    let err = QueueEvent::try_from(b"1.0 1 0 1 D 1.0 1.0").unwrap_err();
    assert_eq!(err, QueueError::LineParsing(ColumnError { column: 7, token: None }));
}

#[test]
fn a_bad_column_is_named_with_its_token() {
    let err = QueueEvent::try_from(b"1.0 x 0 1 A - - - - - - -").unwrap_err();
    assert_eq!(err, QueueError::LineParsing(ColumnError { column: 1, token: Some(b"x".to_vec()) }));
    let err = QueueEvent::try_from(b"1.0 1 0 1 B - - - - - - -").unwrap_err();
    assert_eq!(err, QueueError::LineParsing(ColumnError { column: 4, token: Some(b"B".to_vec()) }));
    let err = QueueEvent::try_from(b"1.0 1 0 1 D 1.0 1.0 - - - - -").unwrap_err();
    assert_eq!(err, QueueError::LineParsing(ColumnError { column: 7, token: Some(b"-".to_vec()) }));
}

#[test]
fn the_parameter_line_is_a_comment() {
    assert_eq!(parameter_record(b"# {\"a\":1}").unwrap(), b" {\"a\":1}".to_vec());
    assert_eq!(parameter_record(b"{\"a\":1}").unwrap_err(), QueueError::ParameterReading);
    assert_eq!(parameter_record(b"").unwrap_err(), QueueError::ParameterReading);
}

#[test]
fn the_column_header_must_match() {
    let p = Parameters { lambda: Ratio::new(1, 2), mu: Ratio::new(1, 3) };
    assert!(EventAnalyser::new(p, QueueEvent::dump_line_header()).is_ok());
    assert_eq!(
        EventAnalyser::new(p, "# time(s) arrivals departures in_system").err(),
        Some(QueueError::HeaderMismatch)
    );
}

#[test]
fn analysing_the_written_stream_gives_the_same_statistics() {
    let p = Parameters { lambda: Ratio::new(1, 300), mu: Ratio::new(1, 250) };
    let mut q = Queue::new_exp_exp(p.lambda, p.mu, 1, 123_456).unwrap();
    let mut events = Vec::new();
    let mut x: u64 = 99;
    for _ in 0..500 {
        if q.needs_arrival() {
            x = x.wrapping_mul(6364136223846793005).wrapping_add(1442695040888963407);
            let t = (x >> 40) % 400_000;
            x = x.wrapping_mul(6364136223846793005).wrapping_add(1442695040888963407);
            let s = (x >> 40) % 300_000;
            q.commit_arrival(t, s);
        }
        events.push(q.next_event().unwrap());
    }
    events.extend(q.empty());

    let mut direct = EventAnalyser::with_parameters(p);
    let mut replayed = EventAnalyser::new(p, QueueEvent::dump_line_header()).unwrap();
    for e in &events {
        direct.add_count(*e);
        let line = e.dump_line();
        let read = QueueEvent::try_from(&line).unwrap();
        assert_eq!(read, *e);
        replayed.add_count(read);
    }
    let (a, b) = (direct.analysis(), replayed.analysis());
    assert_eq!(a.sample_lambda, b.sample_lambda);
    assert_eq!(a.sample_mu, b.sample_mu);
    assert_eq!(a.sample_w, b.sample_w);
    assert_eq!(a.sample_w_q, b.sample_w_q);
    assert_eq!(a.elapsed, b.elapsed);
    assert_eq!(a.levels(), b.levels());
    for n in 0..a.levels() as u64 {
        assert_eq!(a.proportion(n), b.proportion(n));
    }
}
