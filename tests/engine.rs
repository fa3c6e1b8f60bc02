use queues::analyser::{EventAnalyser, Parameters};
use queues::customer::{ArrivingCustomer, Customer, NEVER};
use queues::queues::{Queue, QueueError, QueueEvent};
use queues::ratio::Ratio;

/// A fixed stream of draws, standing in for a seeded random generator.
struct Draws {
    values: Vec<u64>,
    next: usize,
}

impl Draws {
    fn new(seed: u64) -> Draws {
        let mut values = Vec::new();
        let mut x = seed;
        for _ in 0..10_000 {
            x = x.wrapping_mul(6364136223846793005).wrapping_add(1442695040888963407);
            values.push((x >> 33) % 1000);
        }
        Draws { values, next: 0 }
    }

    fn draw(&mut self) -> u64 {
        let v = self.values[self.next];
        self.next += 1;
        v
    }
}

fn rate(num: u128, den: u128) -> Ratio {
    Ratio::new(num, den)
}

fn run(seed: u64, servers: u64, steps: usize) -> (Queue, Vec<QueueEvent>) {
    let mut draws = Draws::new(seed);
    let first = draws.draw();
    let mut queue = Queue::new_exp_exp(rate(1, 300), rate(1, 250), servers, first).unwrap();
    let mut events = Vec::new();
    for _ in 0..steps {
        if queue.needs_arrival() {
            let t = draws.draw();
            let s = draws.draw();
            queue.commit_arrival(t, s);
        }
        match queue.next_event() {
            Some(e) => events.push(e),
            None => break,
        }
    }
    (queue, events)
}

#[test]
fn first_customer_arrives_at_zero() {
    let c = ArrivingCustomer::first(42);
    assert_eq!(c.a(), 0);
    assert_eq!(c.arrival_time(), 0);
    assert_eq!(c.service_time, 42);
    assert_eq!(c.interarrival_time, 0);
}

#[test]
fn next_customer_arrives_after_the_previous_one() {
    let c = ArrivingCustomer::next_1_fcfs(ArrivingCustomer::first(5), 7, 9);
    assert_eq!(c.a(), 7);
    assert_eq!(c.interarrival_time, 7);
    assert_eq!(c.service_time, 9);
    let later = ArrivingCustomer::next_1_fcfs(c, 3, 1);
    assert_eq!(later.a(), 10);
    let never = ArrivingCustomer::never();
    assert_eq!(never.a(), NEVER);
    assert_eq!(ArrivingCustomer::next_1_fcfs(never, 3, 1).a(), NEVER);
}

#[test]
fn start_service_derives_the_waits() {
    let arriving = ArrivingCustomer::next_1_fcfs(ArrivingCustomer::first(5), 7, 9);
    let c = Customer::start_service(arriving, 12);
    assert_eq!(c.time_of_service_start, 12);
    assert_eq!(c.time_of_departure(), 21);
    assert_eq!(c.wait_in_queue, 5);
    assert_eq!(c.wait_in_system(), 14);
}

#[test]
fn invalid_rates_are_rejected() {
    assert_eq!(Queue::new_exp_exp(rate(0, 1), rate(1, 1), 1, 0).err(), Some(QueueError::InvalidRate));
    assert_eq!(Queue::new_exp_exp(rate(1, 1), rate(1, 0), 1, 0).err(), Some(QueueError::InvalidRate));
    assert_eq!(
        Queue::new_exp_exp(rate(1, 1), rate(1, 1), 0, 0).err(),
        Some(QueueError::InvalidServerCount)
    );
}

#[test]
fn a_single_server_serves_first_come_first_served() {
    let mut q = Queue::new_exp_exp(rate(1, 1), rate(1, 1), 1, 10).unwrap();
    // First customer arrives at 0 and is served until 10.
    let e = q.next_event().unwrap();
    assert_eq!((e.time, e.arrivals, e.departures, e.in_system), (0, 1, 0, 1));
    assert!(e.served_customer.is_none());
    assert!(q.needs_arrival());
    // Second customer arrives at 3 and waits.
    q.commit_arrival(3, 4);
    let e = q.next_event().unwrap();
    assert_eq!((e.time, e.in_system), (3, 2));
    assert_eq!(q.waiting(), 1);
    // Third customer would arrive at 30: the first departs at 10 before that.
    q.commit_arrival(27, 1);
    let e = q.next_event().unwrap();
    assert_eq!((e.time, e.arrivals, e.departures, e.in_system), (10, 2, 1, 1));
    let c = e.served_customer.unwrap();
    assert_eq!(c.wait_in_queue, 0);
    assert_eq!(c.wait_in_system, 10);
    // The second starts at 10 and leaves at 14, having waited 7.
    let e = q.next_event().unwrap();
    let c = e.served_customer.unwrap();
    assert_eq!(e.time, 14);
    assert_eq!(c.time_of_service_start, 10);
    assert_eq!(c.wait_in_queue, 7);
    assert_eq!(c.wait_in_system, 11);
    // Then the third arrives.
    let e = q.next_event().unwrap();
    assert_eq!((e.time, e.in_system), (30, 1));
}

#[test]
fn an_arrival_wins_a_tie_with_a_departure() {
    let mut q = Queue::new_exp_exp(rate(1, 1), rate(1, 1), 1, 5).unwrap();
    q.next_event().unwrap();
    q.commit_arrival(5, 1);
    let e = q.next_event().unwrap();
    assert!(e.served_customer.is_none());
    assert_eq!((e.time, e.in_system), (5, 2));
}

#[test]
fn two_servers_serve_side_by_side() {
    let mut q = Queue::new_exp_exp(rate(1, 1), rate(1, 1), 2, 10).unwrap();
    q.next_event().unwrap();
    q.commit_arrival(1, 2);
    q.next_event().unwrap();
    assert_eq!(q.serving(), 2);
    assert_eq!(q.waiting(), 0);
    q.commit_arrival(100, 1);
    // The second customer, served from 1 to 3, leaves first.
    let e = q.next_event().unwrap();
    assert_eq!(e.time, 3);
    assert_eq!(e.served_customer.unwrap().time_of_arrival, 1);
    let e = q.next_event().unwrap();
    assert_eq!(e.time, 10);
}

#[test]
fn runs_with_the_same_draws_are_identical() {
    let (_, a) = run(7, 1, 2000);
    let (_, b) = run(7, 1, 2000);
    assert_eq!(a, b);
    let (_, c) = run(8, 1, 2000);
    assert_ne!(a, c);
}

#[test]
fn every_event_balances_its_counts() {
    for servers in 1..4 {
        let (_, events) = run(11, servers, 3000);
        let mut last_time = 0;
        for e in &events {
            assert!(e.arrivals >= e.departures);
            assert_eq!(e.arrivals - e.departures, e.in_system);
            assert!(e.time >= last_time);
            last_time = e.time;
        }
    }
}

#[test]
fn draining_serves_everyone() {
    let (mut q, events) = run(3, 1, 1500);
    let before = q.last_event();
    let drained = q.empty();
    assert_eq!(drained.len() as u64, before.in_system);
    assert_eq!(q.waiting(), 0);
    assert_eq!(q.serving(), 0);
    let after = q.last_event();
    assert_eq!(after.arrivals, after.departures);
    assert_eq!(after.arrivals, before.arrivals);
    assert!(drained.iter().all(|e| e.served_customer.is_some()));
    let departures = events.iter().chain(drained.iter()).filter(|e| e.served_customer.is_some()).count();
    assert_eq!(departures as u64, after.arrivals);
    assert!(q.next_event().is_none());
}

#[test]
fn analyser_on_two_events() {
    let mut analyser = EventAnalyser::with_parameters(Parameters { lambda: rate(1, 5), mu: rate(1, 5) });
    let arrival = QueueEvent::new().arrival(0);
    let customer = Customer::start_service(ArrivingCustomer::first(5), 0);
    assert_eq!(customer.wait_in_system, 5);
    let departure = arrival.departure(5, customer);
    assert!(analyser.accepts(&arrival));
    analyser.add_count(arrival);
    assert!(analyser.accepts(&departure));
    analyser.add_count(departure);
    let a = analyser.analysis();
    assert_eq!(a.sample_w, Ratio::new(5, 1));
    assert_eq!(a.sample_w_q, Ratio::new(0, 1));
    assert_eq!(a.proportion(0), Ratio::new(0, 5));
    assert_eq!(a.proportion(1), Ratio::new(5, 5));
    assert_eq!(a.levels(), 2);
    assert_eq!(a.lambda, rate(1, 5));
}

#[test]
fn analyser_measures_rates_and_time_shares() {
    let mut analyser = EventAnalyser::with_parameters(Parameters { lambda: rate(1, 1), mu: rate(1, 1) });
    let mut q = Queue::new_exp_exp(rate(1, 1), rate(1, 1), 1, 4).unwrap();
    // Arrivals at 0 and 2, services of 4 and 1: departures at 4 and 5.
    let mut events = vec![q.next_event().unwrap()];
    q.commit_arrival(2, 1);
    events.push(q.next_event().unwrap());
    events.extend(q.empty());
    for e in events {
        analyser.add_count(e);
    }
    let a = analyser.analysis();
    // Two arrivals over 2 ticks; two services of 4 and 1 ticks.
    assert_eq!(a.sample_lambda, Ratio::new(2, 2));
    assert_eq!(a.sample_mu, Ratio::new(2, 5));
    // Waits in the system: 4 and 3; in the queue: 0 and 2.
    assert_eq!(a.sample_w, Ratio::new(7, 2));
    assert_eq!(a.sample_w_q, Ratio::new(2, 2));
    // One in the system over [0,2) and [4,5), two over [2,4).
    assert_eq!(a.proportion(0), Ratio::new(0, 5));
    assert_eq!(a.proportion(1), Ratio::new(3, 5));
    assert_eq!(a.proportion(2), Ratio::new(2, 5));
    assert_eq!(a.proportion(3), Ratio::new(0, 5));
    assert_eq!(a.elapsed, 5);
}

#[test]
fn analyser_refuses_an_event_out_of_order() {
    let mut analyser = EventAnalyser::with_parameters(Parameters { lambda: rate(1, 1), mu: rate(1, 1) });
    analyser.add_count(QueueEvent::new().arrival(10));
    assert!(!analyser.accepts(&QueueEvent::new().arrival(5)));
    // A fall in the number in the system without a customer is refused too.
    let bare = QueueEvent { time: 12, arrivals: 1, departures: 1, in_system: 0, served_customer: None };
    assert!(!analyser.accepts(&bare));
}
