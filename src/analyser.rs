use vstd::prelude::*;

use crate::format::{column_header, header_text};
use crate::queues::{QueueError, QueueEvent};
use crate::ratio::Ratio;

verus! {

broadcast use vstd::std_specs::hash::group_hash_axioms;

/// The arrival and service rates that a run was made with.
#[derive(Clone, Copy, Debug, PartialEq, Eq, Structural)]
pub struct Parameters {
    pub lambda: Ratio,
    pub mu: Ratio,
}

/// The accumulated state of an analyser as the contracts see it.
pub struct AnalyserView {
    pub lambda: Ratio,
    pub mu: Ratio,
    pub last_service_start: u64,
    pub n_served: u64,
    pub service_time_sum: u64,
    pub last_arrival: u64,
    pub n_arrivals: u64,
    pub arrival_time_sum: u64,
    pub queue_wait_sum: u128,
    pub system_wait_sum: u128,
    /// The number in the system since the last event.
    pub last_n: u64,
    /// For each number in the system, the time spent with that number.
    pub time_in_n: Map<u64, u64>,
    pub time_of_last_event: u64,
}

/// The time spent so far with `n` in the system.
pub open spec fn time_at(m: Map<u64, u64>, n: u64) -> int {
    if m.contains_key(n) {
        m[n] as int
    } else {
        0
    }
}

impl AnalyserView {
    /// The bounds that the running sums keep.
    pub open spec fn wf(self) -> bool {
        &&& self.last_service_start <= self.time_of_last_event
        &&& self.last_arrival <= self.time_of_last_event
        &&& self.service_time_sum <= self.last_service_start
        &&& self.arrival_time_sum <= self.last_arrival
        &&& forall|k: u64| #[trigger]
            self.time_in_n.contains_key(k) ==> self.time_in_n[k] <= self.time_of_last_event
        &&& self.queue_wait_sum <= self.n_served * (u64::MAX as int)
        &&& self.system_wait_sum <= self.n_served * (u64::MAX as int)
    }

    /// Whether `e` may come next: no earlier than the last event, and a
    /// departure (a fall in the number in the system) carries its customer.
    pub open spec fn accepts(self, e: QueueEvent) -> bool {
        &&& self.time_of_last_event <= e.time
        &&& e.in_system < self.last_n ==> e.served_customer is Some
        &&& self.n_served < u64::MAX
        &&& self.n_arrivals < u64::MAX
    }

    /// The state after `e`: the time since the last event is credited to the
    /// number that was in the system during it; then a fall in that number
    /// counts a service and a rise (or no change) counts an arrival.
    pub open spec fn after(self, e: QueueEvent) -> AnalyserView {
        let delta = e.time - self.time_of_last_event;
        let time_in_n = self.time_in_n.insert(
            self.last_n,
            (time_at(self.time_in_n, self.last_n) + delta) as u64,
        );
        if e.in_system < self.last_n {
            let c = e.served_customer.unwrap();
            AnalyserView {
                n_served: (self.n_served + 1) as u64,
                service_time_sum: (self.service_time_sum + (e.time - self.last_service_start)) as u64,
                last_service_start: e.time,
                queue_wait_sum: (self.queue_wait_sum + c.wait_in_queue) as u128,
                system_wait_sum: (self.system_wait_sum + c.wait_in_system) as u128,
                last_n: e.in_system,
                time_in_n,
                time_of_last_event: e.time,
                ..self
            }
        } else {
            AnalyserView {
                n_arrivals: (self.n_arrivals + 1) as u64,
                arrival_time_sum: (self.arrival_time_sum + (e.time - self.last_arrival)) as u64,
                last_arrival: e.time,
                last_service_start: if self.last_n == 0 {
                    e.time
                } else {
                    self.last_service_start
                },
                last_n: e.in_system,
                time_in_n,
                time_of_last_event: e.time,
                ..self
            }
        }
    }
}

/// Reads a stream of events in one forward pass and keeps the sums from which
/// the sample rates, mean waits and the time-weighted distribution of the
/// number in the system follow.
pub struct EventAnalyser {
    lambda: Ratio,
    mu: Ratio,
    last_service_start: u64,
    n_served: u64,
    service_time_sum: u64,
    last_arrival: u64,
    n_arrivals: u64,
    arrival_time_sum: u64,
    queue_wait_sum: u128,
    system_wait_sum: u128,
    last_n: u64,
    time_in_n: std::collections::HashMap<u64, u64>,
    time_of_last_event: u64,
}

impl View for EventAnalyser {
    type V = AnalyserView;

    closed spec fn view(&self) -> AnalyserView {
        AnalyserView {
            lambda: self.lambda,
            mu: self.mu,
            last_service_start: self.last_service_start,
            n_served: self.n_served,
            service_time_sum: self.service_time_sum,
            last_arrival: self.last_arrival,
            n_arrivals: self.n_arrivals,
            arrival_time_sum: self.arrival_time_sum,
            queue_wait_sum: self.queue_wait_sum,
            system_wait_sum: self.system_wait_sum,
            last_n: self.last_n,
            time_in_n: self.time_in_n@,
            time_of_last_event: self.time_of_last_event,
        }
    }
}

/// The state of an analyser that has seen nothing, for a run made with `p`.
pub open spec fn fresh(p: Parameters) -> AnalyserView {
    AnalyserView {
        lambda: p.lambda,
        mu: p.mu,
        last_service_start: 0,
        n_served: 0,
        service_time_sum: 0,
        last_arrival: 0,
        n_arrivals: 0,
        arrival_time_sum: 0,
        queue_wait_sum: 0,
        system_wait_sum: 0,
        last_n: 0,
        time_in_n: Map::empty(),
        time_of_last_event: 0,
    }
}

impl EventAnalyser {
    /// An analyser for a run made with `parameters`, that has seen nothing.
    pub fn with_parameters(parameters: Parameters) -> (r: EventAnalyser)
        ensures
            r@ == fresh(parameters),
            r@.wf(),
    {
        EventAnalyser {
            lambda: parameters.lambda,
            mu: parameters.mu,
            last_service_start: 0,
            n_served: 0,
            service_time_sum: 0,
            last_arrival: 0,
            n_arrivals: 0,
            arrival_time_sum: 0,
            queue_wait_sum: 0,
            system_wait_sum: 0,
            last_n: 0,
            time_in_n: std::collections::HashMap::new(),
            time_of_last_event: 0,
        }
    }

    /// An analyser for a stream whose parameter line gave `parameters` and
    /// whose column header line (without its terminator) is `header`.
    pub fn new(parameters: Parameters, header: &str) -> (r: Result<EventAnalyser, QueueError>)
        ensures
            header@ == header_text() ==> (r matches Ok(a) && a@ == fresh(parameters)),
            header@ != header_text() ==> r == Err::<EventAnalyser, QueueError>(
                QueueError::HeaderMismatch,
            ),
    {
        let expected = column_header().to_owned();
        let found = header.to_owned();
        if found == expected {
            Ok(EventAnalyser::with_parameters(parameters))
        } else {
            Err(QueueError::HeaderMismatch)
        }
    }

    /// Whether `count` may come next (see `AnalyserView::accepts`).
    pub fn accepts(&self, count: &QueueEvent) -> (r: bool)
        ensures
            r == self@.accepts(*count),
    {
        self.time_of_last_event <= count.time && (count.in_system >= self.last_n
            || count.served_customer.is_some()) && self.n_served < u64::MAX && self.n_arrivals
            < u64::MAX
    }

    /// Takes in the next event of the stream.
    pub fn add_count(&mut self, count: QueueEvent)
        requires
            old(self)@.wf(),
            old(self)@.accepts(count),
        ensures
            final(self)@ == old(self)@.after(count),
            final(self)@.wf(),
    {
        let ghost s0 = self@;
        let delta_t = count.time - self.time_of_last_event;
        let before = match self.time_in_n.get(&self.last_n) {
            Some(t) => *t,
            None => 0,
        };
        proof {
            assert(before == time_at(s0.time_in_n, s0.last_n));
        }
        self.time_in_n.insert(self.last_n, before + delta_t);

        if count.in_system < self.last_n {
            // A departure.
            let service_time = count.time - self.last_service_start;
            self.n_served = self.n_served + 1;
            self.service_time_sum = self.service_time_sum + service_time;
            self.last_service_start = count.time;

            let customer = count.served_customer.unwrap();
            proof {
                assert(self.system_wait_sum + customer.wait_in_system <= self.n_served * (
                u64::MAX as int)) by (nonlinear_arith)
                    requires
                        self.system_wait_sum <= (self.n_served - 1) * (u64::MAX as int),
                        customer.wait_in_system <= u64::MAX,
                ;
                assert(self.queue_wait_sum + customer.wait_in_queue <= self.n_served * (
                u64::MAX as int)) by (nonlinear_arith)
                    requires
                        self.queue_wait_sum <= (self.n_served - 1) * (u64::MAX as int),
                        customer.wait_in_queue <= u64::MAX,
                ;
                assert(self.n_served * (u64::MAX as int) <= u128::MAX) by (nonlinear_arith)
                    requires
                        self.n_served <= u64::MAX,
                ;
            }
            self.system_wait_sum = self.system_wait_sum + customer.wait_in_system as u128;
            self.queue_wait_sum = self.queue_wait_sum + customer.wait_in_queue as u128;
        } else {
            // An arrival.
            let interarrival_time = count.time - self.last_arrival;
            self.n_arrivals = self.n_arrivals + 1;
            self.arrival_time_sum = self.arrival_time_sum + interarrival_time;
            self.last_arrival = count.time;

            if self.last_n == 0 {
                self.last_service_start = count.time;
            }
        }

        self.last_n = count.in_system;
        self.time_of_last_event = count.time;
        proof {
            assert(self@.time_in_n == s0.after(count).time_in_n);
            assert(self@ == s0.after(count));
        }
    }

    /// The sample statistics of everything seen so far.
    pub fn analysis(&self) -> (r: CountAnalysis)
        ensures
            r.lambda == self@.lambda,
            r.mu == self@.mu,
            r.sample_lambda == (Ratio { num: self@.n_arrivals as u128, den: self@.arrival_time_sum as u128 }),
            r.sample_mu == (Ratio { num: self@.n_served as u128, den: self@.service_time_sum as u128 }),
            r.sample_w_q == (Ratio { num: self@.queue_wait_sum, den: self@.n_served as u128 }),
            r.sample_w == (Ratio { num: self@.system_wait_sum, den: self@.n_served as u128 }),
            r.time_in_n@ == self@.time_in_n,
            r.elapsed == self@.time_of_last_event,
    {
        CountAnalysis {
            lambda: self.lambda,
            sample_lambda: Ratio::new(self.n_arrivals as u128, self.arrival_time_sum as u128),
            mu: self.mu,
            sample_mu: Ratio::new(self.n_served as u128, self.service_time_sum as u128),
            sample_w_q: Ratio::new(self.queue_wait_sum, self.n_served as u128),
            sample_w: Ratio::new(self.system_wait_sum, self.n_served as u128),
            time_in_n: self.time_in_n.clone(),
            elapsed: self.time_of_last_event,
        }
    }
}

/// The sample statistics of an event stream: the input and sample rates, the
/// mean waits, and the proportion of time spent with each number in the system.
pub struct CountAnalysis {
    pub lambda: Ratio,
    pub sample_lambda: Ratio,
    pub mu: Ratio,
    pub sample_mu: Ratio,
    pub sample_w_q: Ratio,
    pub sample_w: Ratio,
    /// The time spent with each number in the system.
    pub time_in_n: std::collections::HashMap<u64, u64>,
    /// The time from the start to the last event.
    pub elapsed: u64,
}

impl CountAnalysis {
    /// The proportion of the elapsed time spent with `n` in the system.
    pub fn proportion(&self, n: u64) -> (r: Ratio)
        ensures
            r.num == time_at(self.time_in_n@, n),
            r.den == self.elapsed,
    {
        let time = match self.time_in_n.get(&n) {
            Some(t) => *t,
            None => 0,
        };
        Ratio::new(time as u128, self.elapsed as u128)
    }

    /// The number of distinct numbers in the system that were seen.
    pub fn levels(&self) -> (r: usize)
        ensures
            r == self.time_in_n@.len(),
    {
        self.time_in_n.len()
    }
}

} // verus!
