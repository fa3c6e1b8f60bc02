use vstd::prelude::*;

use crate::customer::{is_served_record, never_arriving, promoted, ArrivingCustomer, Customer, NEVER};
use crate::ratio::Ratio;

verus! {

/// What can go wrong when a queue is configured or an event stream is read.
#[derive(Clone, Debug, PartialEq, Eq)]
pub enum QueueError {
    /// A rate that is not positive cannot parameterise an exponential distribution.
    InvalidRate,
    /// A queue needs at least one server.
    InvalidServerCount,
    /// The first line of a stream is not a `#` comment holding the parameters.
    ParameterReading,
    /// The second line of a stream is not the expected column header.
    HeaderMismatch,
    /// A line of a stream lacks a column, or a column does not parse.
    LineParsing(ColumnError),
}

/// The column of a line that is missing (`token` is `None`) or that does not
/// parse (`token` holds it).
#[derive(Clone, Debug, PartialEq, Eq)]
pub struct ColumnError {
    pub column: usize,
    pub token: Option<Vec<u8>>,
}

/// One arrival or departure, with the counts of arrivals and departures so far
/// and the number of customers in the system just after it. A departure
/// carries the departing customer's record.
#[derive(Clone, Copy, Debug, PartialEq, Eq, Structural)]
pub struct QueueEvent {
    pub time: u64,
    pub arrivals: u64,
    pub departures: u64,
    pub in_system: u64,
    pub served_customer: Option<Customer>,
}

/// The state before anything has happened: time 0, nobody arrived or left.
pub open spec fn initial_event() -> QueueEvent {
    QueueEvent { time: 0, arrivals: 0, departures: 0, in_system: 0, served_customer: None }
}

/// The event that follows `e` when a customer arrives at `time`.
pub open spec fn arrival_after(e: QueueEvent, time: u64) -> QueueEvent {
    QueueEvent {
        time,
        arrivals: (e.arrivals + 1) as u64,
        departures: e.departures,
        in_system: (e.in_system + 1) as u64,
        served_customer: None,
    }
}

/// The event that follows `e` when `c` departs at `time`.
pub open spec fn departure_after(e: QueueEvent, time: u64, c: Customer) -> QueueEvent {
    QueueEvent {
        time,
        arrivals: e.arrivals,
        departures: (e.departures + 1) as u64,
        in_system: (e.in_system - 1) as u64,
        served_customer: Some(c),
    }
}

impl QueueEvent {
    /// The state before anything has happened.
    pub fn new() -> (r: QueueEvent)
        ensures
            r == initial_event(),
    {
        QueueEvent { time: 0, arrivals: 0, departures: 0, in_system: 0, served_customer: None }
    }

    pub fn arrival(self, time: u64) -> (r: QueueEvent)
        requires
            self.arrivals < u64::MAX,
            self.in_system < u64::MAX,
        ensures
            r == arrival_after(self, time),
    {
        QueueEvent {
            time,
            arrivals: self.arrivals + 1,
            departures: self.departures,
            in_system: self.in_system + 1,
            served_customer: None,
        }
    }

    pub fn departure(self, time: u64, served_customer: Customer) -> (r: QueueEvent)
        requires
            self.departures < u64::MAX,
            self.in_system > 0,
        ensures
            r == departure_after(self, time, served_customer),
    {
        QueueEvent {
            time,
            arrivals: self.arrivals,
            departures: self.departures + 1,
            in_system: self.in_system - 1,
            served_customer: Some(served_customer),
        }
    }

    /// The customer that left, on a departure.
    pub fn served_customer(&self) -> (r: Option<Customer>)
        ensures
            r == self.served_customer,
    {
        self.served_customer
    }
}

/// The state of a queue as the contracts see it.
pub struct QueueView {
    pub arrival_rate: Ratio,
    pub service_rate: Ratio,
    pub servers: nat,
    /// Customers waiting for a server, first come first.
    pub waiting: Seq<ArrivingCustomer>,
    /// Customers being served.
    pub in_service: Seq<Customer>,
    pub clock: u64,
    /// The next customer to arrive; `None` until it has been drawn.
    pub pending: Option<ArrivingCustomer>,
    /// The customer admitted last, from whom the next one is drawn.
    pub last_admitted: ArrivingCustomer,
    pub last_event: QueueEvent,
}

/// The index of the first customer of `cs[0..n]` with the earliest departure.
pub open spec fn first_departing(cs: Seq<Customer>, n: int) -> int
    decreases n,
{
    if n <= 1 {
        0
    } else {
        let i = first_departing(cs, n - 1);
        if cs[n - 1].time_of_departure < cs[i].time_of_departure {
            n - 1
        } else {
            i
        }
    }
}

pub proof fn lemma_first_departing(cs: Seq<Customer>, n: int)
    requires
        1 <= n <= cs.len(),
    ensures
        0 <= first_departing(cs, n) < n,
        forall|j: int|
            0 <= j < n ==> cs[first_departing(cs, n)].time_of_departure
                <= #[trigger] cs[j].time_of_departure,
    decreases n,
{
    if n > 1 {
        lemma_first_departing(cs, n - 1);
    }
}

impl QueueView {
    /// The invariant that every queue keeps between calls.
    pub open spec fn wf(self) -> bool {
        &&& self.arrival_rate.is_positive()
        &&& self.service_rate.is_positive()
        &&& 1 <= self.servers
        &&& self.in_service.len() <= self.servers
        &&& self.waiting.len() > 0 ==> self.in_service.len() == self.servers
        &&& self.last_event.departures <= self.last_event.arrivals
        &&& self.last_event.in_system == self.last_event.arrivals - self.last_event.departures
        &&& self.last_event.in_system == self.waiting.len() + self.in_service.len()
        &&& self.last_event.time == self.clock
        &&& forall|i: int|
            0 <= i < self.in_service.len() ==> self.clock
                <= #[trigger] self.in_service[i].time_of_departure
        &&& forall|i: int|
            0 <= i < self.waiting.len() ==> #[trigger] self.waiting[i].time_of_arrival
                <= self.clock
        &&& forall|i: int|
            0 <= i < self.in_service.len() ==> is_served_record(#[trigger] self.in_service[i])
        &&& forall|i: int, j: int|
            0 <= i < j < self.waiting.len() ==> #[trigger] self.waiting[i].time_of_arrival
                <= #[trigger] self.waiting[j].time_of_arrival
        &&& match self.pending {
            Some(p) => self.clock <= p.time_of_arrival,
            None => self.clock <= self.last_admitted.time_of_arrival,
        }
    }

    /// The index and time of the next departure, if anyone is being served.
    pub open spec fn next_departure(self) -> Option<(int, u64)> {
        if self.in_service.len() == 0 {
            None
        } else {
            let i = first_departing(self.in_service, self.in_service.len() as int);
            Some((i, self.in_service[i].time_of_departure))
        }
    }

    /// A departure comes next: it is strictly earlier than the next arrival,
    /// or no arrival will come.
    pub open spec fn departs_next(self) -> bool {
        match (self.next_departure(), self.pending) {
            (Some((_, d)), Some(p)) => d < p.time_of_arrival || p.time_of_arrival == NEVER,
            _ => false,
        }
    }

    /// An arrival comes next (it wins a tie with a departure).
    pub open spec fn arrives_next(self) -> bool {
        match self.pending {
            Some(p) => p.time_of_arrival != NEVER && !self.departs_next(),
            None => false,
        }
    }

    /// The state after the next departure: the departing customer leaves, and
    /// the first waiting customer, if any, starts service on the freed server.
    pub open spec fn after_departure(self) -> QueueView {
        let (i, d) = self.next_departure().unwrap();
        let rest = self.in_service.remove(i);
        QueueView {
            clock: d,
            in_service: if self.waiting.len() > 0 {
                rest.push(promoted(self.waiting[0], d))
            } else {
                rest
            },
            waiting: if self.waiting.len() > 0 {
                self.waiting.drop_first()
            } else {
                self.waiting
            },
            last_event: departure_after(self.last_event, d, self.in_service[i]),
            ..self
        }
    }

    /// The state after the next arrival: the arriving customer starts service
    /// at once if a server is free, else joins the back of the line.
    pub open spec fn after_arrival(self) -> QueueView {
        let p = self.pending.unwrap();
        let t = p.time_of_arrival;
        QueueView {
            clock: t,
            in_service: if self.in_service.len() < self.servers {
                self.in_service.push(promoted(p, t))
            } else {
                self.in_service
            },
            waiting: if self.in_service.len() < self.servers {
                self.waiting
            } else {
                self.waiting.push(p)
            },
            pending: None,
            last_admitted: p,
            last_event: arrival_after(self.last_event, t),
            ..self
        }
    }
}

/// The state after `n` departures in a row, and the events that they emit.
pub open spec fn drained(s: QueueView, n: nat) -> (QueueView, Seq<QueueEvent>)
    decreases n,
{
    if n == 0 {
        (s, Seq::empty())
    } else {
        let s1 = s.after_departure();
        let (t, es) = drained(s1, (n - 1) as nat);
        (t, seq![s1.last_event] + es)
    }
}

/// An event-driven simulation of a first-come-first-served queue with one or
/// more servers. Interarrival and service times are drawn outside and handed
/// in: the queue decides, the caller samples.
pub struct Queue {
    customer_arrival_rate: Ratio,
    customer_service_rate: Ratio,
    servers: u64,
    queue: std::collections::VecDeque<ArrivingCustomer>,
    in_service: Vec<Customer>,
    time: u64,
    next_customer: Option<ArrivingCustomer>,
    last_admitted: ArrivingCustomer,
    last_event: QueueEvent,
}

impl View for Queue {
    type V = QueueView;

    closed spec fn view(&self) -> QueueView {
        QueueView {
            arrival_rate: self.customer_arrival_rate,
            service_rate: self.customer_service_rate,
            servers: self.servers as nat,
            waiting: self.queue@,
            in_service: self.in_service@,
            clock: self.time,
            pending: self.next_customer,
            last_admitted: self.last_admitted,
            last_event: self.last_event,
        }
    }
}

impl Queue {
    /// A queue with exponential interarrival and service times of the given
    /// rates and `servers` servers, whose first customer arrives at time 0 and
    /// needs `first_service_time` ticks of service.
    pub fn new_exp_exp(
        customer_arrival_rate: Ratio,
        customer_service_rate: Ratio,
        servers: u64,
        first_service_time: u64,
    ) -> (r: Result<Queue, QueueError>)
        ensures
            !customer_arrival_rate.is_positive() || !customer_service_rate.is_positive() ==> r
                == Err::<Queue, QueueError>(QueueError::InvalidRate),
            customer_arrival_rate.is_positive() && customer_service_rate.is_positive() && servers
                == 0 ==> r == Err::<Queue, QueueError>(QueueError::InvalidServerCount),
            customer_arrival_rate.is_positive() && customer_service_rate.is_positive() && servers
                > 0 ==> r is Ok,
            r matches Ok(q) ==> {
                &&& q@.wf()
                &&& q@.arrival_rate == customer_arrival_rate
                &&& q@.service_rate == customer_service_rate
                &&& q@.servers == servers
                &&& q@.waiting.len() == 0
                &&& q@.in_service.len() == 0
                &&& q@.clock == 0
                &&& q@.pending == Some(
                    ArrivingCustomer {
                        interarrival_time: 0,
                        time_of_arrival: 0,
                        service_time: first_service_time,
                    },
                )
                &&& q@.last_event == initial_event()
            },
    {
        if customer_arrival_rate.num == 0 || customer_arrival_rate.den == 0
            || customer_service_rate.num == 0 || customer_service_rate.den == 0 {
            return Err(QueueError::InvalidRate);
        }
        if servers == 0 {
            return Err(QueueError::InvalidServerCount);
        }
        let customer = ArrivingCustomer::first(first_service_time);
        Ok(Queue {
            customer_arrival_rate,
            customer_service_rate,
            servers,
            queue: std::collections::VecDeque::new(),
            in_service: Vec::new(),
            time: 0,
            next_customer: Some(customer),
            last_admitted: customer,
            last_event: QueueEvent::new(),
        })
    }

    pub fn arrival_rate(&self) -> (r: Ratio)
        ensures
            r == self@.arrival_rate,
    {
        self.customer_arrival_rate
    }

    pub fn service_rate(&self) -> (r: Ratio)
        ensures
            r == self@.service_rate,
    {
        self.customer_service_rate
    }

    /// The current simulated time.
    pub fn time(&self) -> (r: u64)
        ensures
            r == self@.clock,
    {
        self.time
    }

    /// The number of customers waiting for a server.
    pub fn waiting(&self) -> (r: usize)
        ensures
            r == self@.waiting.len(),
    {
        self.queue.len()
    }

    /// The number of customers being served.
    pub fn serving(&self) -> (r: usize)
        ensures
            r == self@.in_service.len(),
    {
        self.in_service.len()
    }

    /// The last event emitted, or the initial state.
    pub fn last_event(&self) -> (r: QueueEvent)
        ensures
            r == self@.last_event,
    {
        self.last_event
    }

    /// The next customer has not been drawn yet: `commit_arrival` must come
    /// before the next event.
    pub fn needs_arrival(&self) -> (r: bool)
        ensures
            r == (self@.pending is None),
    {
        self.next_customer.is_none()
    }

    /// The customer that arrives next, if drawn.
    pub fn peek_next_arrival(&self) -> (r: Option<ArrivingCustomer>)
        ensures
            r == self@.pending,
    {
        self.next_customer
    }

    /// Fixes the next customer from the drawn interarrival and service times.
    pub fn commit_arrival(&mut self, interarrival_time: u64, service_time: u64)
        requires
            old(self)@.wf(),
            old(self)@.pending is None,
        ensures
            final(self)@ == (QueueView {
                pending: Some(
                    ArrivingCustomer {
                        interarrival_time,
                        time_of_arrival: old(
                            self,
                        )@.last_admitted.time_of_arrival.saturating_add(interarrival_time),
                        service_time,
                    },
                ),
                ..old(self)@
            }),
            final(self)@.wf(),
    {
        self.next_customer = Some(
            ArrivingCustomer::next_1_fcfs(self.last_admitted, interarrival_time, service_time),
        );
    }


    /// Produces the next event: the earliest departure if it comes strictly
    /// before the next arrival (or no arrival will come), else the next
    /// arrival. `None` when nobody is served and nobody will arrive.
    pub fn next_event(&mut self) -> (r: Option<QueueEvent>)
        requires
            old(self)@.wf(),
            old(self)@.pending is Some,
            old(self)@.arrives_next() ==> old(self)@.last_event.arrivals < u64::MAX,
        ensures
            final(self)@.wf(),
            old(self)@.departs_next() ==> final(self)@ == old(self)@.after_departure() && r == Some(
                final(self)@.last_event,
            ),
            old(self)@.arrives_next() ==> final(self)@ == old(self)@.after_arrival() && r == Some(
                final(self)@.last_event,
            ),
            !old(self)@.departs_next() && !old(self)@.arrives_next() ==> final(self)@ == old(
                self,
            )@ && r is None,
            old(self)@.clock <= final(self)@.clock,
            r matches Some(e) ==> e.departures <= e.arrivals && e.in_system == e.arrivals
                - e.departures && e.time == final(self)@.clock,
            r matches Some(e) ==> (e.served_customer matches Some(c) ==> is_served_record(c)
                && c.time_of_departure == e.time),
    {
        let ghost s0 = self@;
        let next_departure = self.next_departure();
        let next_arrival = self.next_customer.unwrap();
        let next_arrival_time = next_arrival.time_of_arrival;
        let mut departs = false;
        let mut index: usize = 0;
        let mut departure_time: u64 = 0;
        if let Some((i, d)) = next_departure {
            if d < next_arrival_time || next_arrival_time == NEVER {
                departs = true;
                index = i;
                departure_time = d;
            }
        }
        if departs {
            proof {
                lemma_first_departing(s0.in_service, s0.in_service.len() as int);
                assert(s0.next_departure() == Some((index as int, departure_time)));
            }
            let served_customer = self.in_service.remove(index);
            self.time = departure_time;
            self.last_event = self.last_event.departure(self.time, served_customer);
            if let Some(waiting_customer) = self.queue.pop_front() {
                let customer = Customer::start_service(waiting_customer, self.time);
                self.in_service.push(customer);
            }
            proof {
                assert(served_customer == s0.in_service[index as int]);
                assert(self@.clock == s0.after_departure().clock);
                assert(self@.last_event == s0.after_departure().last_event);
                assert(self@.in_service =~= s0.after_departure().in_service);
                assert(self@.waiting =~= s0.after_departure().waiting);
                assert(self@ == s0.after_departure());
                assert forall|j: int| 0 <= j < self@.in_service.len() implies self@.clock
                    <= #[trigger] self@.in_service[j].time_of_departure by {
                    if j < s0.in_service.len() - 1 {
                        if j < index {
                            assert(self@.in_service[j] == s0.in_service[j]);
                        } else {
                            assert(self@.in_service[j] == s0.in_service[j + 1]);
                        }
                    }
                }
                assert forall|j: int| 0 <= j < self@.waiting.len() implies #[trigger] self@.waiting[j].time_of_arrival
                    <= self@.clock by {
                    assert(self@.waiting[j] == s0.waiting[j + 1]);
                }
            }
            Some(self.last_event)
        } else if next_arrival_time == NEVER {
            None
        } else {
            proof {
                if s0.in_service.len() > 0 {
                    lemma_first_departing(s0.in_service, s0.in_service.len() as int);
                }
            }
            self.time = next_arrival_time;
            self.last_event = self.last_event.arrival(self.time);
            if (self.in_service.len() as u64) < self.servers {
                let customer = Customer::start_service(next_arrival, self.time);
                self.in_service.push(customer);
            } else {
                self.queue.push_back(next_arrival);
            }
            self.next_customer = None;
            self.last_admitted = next_arrival;
            proof {
                assert(self@ == s0.after_arrival());
                assert forall|j: int| 0 <= j < self@.in_service.len() implies self@.clock
                    <= #[trigger] self@.in_service[j].time_of_departure by {
                    if j < s0.in_service.len() {
                        assert(self@.in_service[j] == s0.in_service[j]);
                    }
                }
                assert forall|j: int| 0 <= j < self@.waiting.len() implies #[trigger] self@.waiting[j].time_of_arrival
                    <= self@.clock by {
                    if j < s0.waiting.len() {
                        assert(self@.waiting[j] == s0.waiting[j]);
                    }
                }
            }
            Some(self.last_event)
        }
    }


    /// Cuts off arrivals and serves everyone already in the system, returning
    /// the departures in the order they happen.
    pub fn empty(&mut self) -> (r: Vec<QueueEvent>)
        requires
            old(self)@.wf(),
        ensures
            ({
                let s = QueueView { pending: Some(never_arriving()), ..old(self)@ };
                (final(self)@, r@) == drained(s, old(self)@.last_event.in_system as nat)
            }),
            final(self)@.wf(),
            final(self)@.waiting.len() == 0,
            final(self)@.in_service.len() == 0,
            final(self)@.last_event.arrivals == final(self)@.last_event.departures,
            final(self)@.last_event.arrivals == old(self)@.last_event.arrivals,
            r@.len() == old(self)@.last_event.in_system,
            forall|i: int| 0 <= i < r@.len() ==> (#[trigger] r@[i]).served_customer is Some,
    {
        self.next_customer = Some(ArrivingCustomer::never());
        let ghost s = self@;
        let ghost total = s.last_event.in_system as nat;
        let mut emptied: Vec<QueueEvent> = Vec::new();
        while self.in_service.len() > 0
            invariant
                self@.wf(),
                self@.pending == Some(never_arriving()),
                self@.last_event.arrivals == s.last_event.arrivals,
                emptied@.len() + self@.last_event.in_system == total,
                drained(s, total).0 == drained(self@, self@.last_event.in_system as nat).0,
                drained(s, total).1 == emptied@ + drained(
                    self@,
                    self@.last_event.in_system as nat,
                ).1,
                forall|i: int| 0 <= i < emptied@.len() ==> (#[trigger] emptied@[i]).served_customer is Some,
            decreases self@.last_event.in_system,
        {
            let ghost before = self@;
            let ghost es = emptied@;
            let event = self.next_event();
            let e = event.unwrap();
            emptied.push(e);
            proof {
                let n = before.last_event.in_system as nat;
                assert(drained(before, n).1 == seq![e] + drained(self@, (n - 1) as nat).1);
                assert(emptied@ + drained(self@, (n - 1) as nat).1 =~= es + (seq![e] + drained(
                    self@,
                    (n - 1) as nat,
                ).1));
            }
        }
        emptied
    }

    /// The index and time of the next departure, if anyone is being served.
    fn next_departure(&self) -> (r: Option<(usize, u64)>)
        ensures
            r is None <==> self@.next_departure() is None,
            r matches Some((i, d)) ==> self@.next_departure() == Some((i as int, d)),
    {
        let n = self.in_service.len();
        if n == 0 {
            return None;
        }
        let mut index: usize = 0;
        let mut next_departure_time = self.in_service[0].time_of_departure;
        let mut i: usize = 1;
        while i < n
            invariant
                n == self.in_service@.len(),
                1 <= i <= n,
                index as int == first_departing(self.in_service@, i as int),
                index < i,
                next_departure_time == self.in_service@[index as int].time_of_departure,
            decreases n - i,
        {
            if self.in_service[i].time_of_departure < next_departure_time {
                next_departure_time = self.in_service[i].time_of_departure;
                index = i;
            }
            i = i + 1;
        }
        Some((index, next_departure_time))
    }
}

} // verus!
