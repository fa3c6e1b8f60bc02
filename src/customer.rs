use vstd::prelude::*;

verus! {

/// The instant that never comes: arrival and departure times saturate here.
pub const NEVER: u64 = 0xffff_ffff_ffff_ffff;

/// A customer that has arrived, or will arrive, but has not been served yet.
#[derive(Clone, Copy, Debug, PartialEq, Eq, Structural)]
pub struct ArrivingCustomer {
    pub interarrival_time: u64,
    pub time_of_arrival: u64,
    pub service_time: u64,
}

/// A customer whose service has started at `time_of_service_start`.
#[derive(Clone, Copy, Debug, PartialEq, Eq, Structural)]
pub struct Customer {
    pub interarrival_time: u64,
    pub time_of_arrival: u64,
    pub service_time: u64,
    pub time_of_service_start: u64,
    pub time_of_departure: u64,
    pub wait_in_queue: u64,
    pub wait_in_system: u64,
}

/// The customer that never arrives: every time is `NEVER`.
pub open spec fn never_arriving() -> ArrivingCustomer {
    ArrivingCustomer { interarrival_time: NEVER, time_of_arrival: NEVER, service_time: NEVER }
}

impl ArrivingCustomer {
    /// The first customer of a run: arrives at time 0 into an empty system.
    pub fn first(service_time: u64) -> (r: ArrivingCustomer)
        ensures
            r == (ArrivingCustomer { interarrival_time: 0, time_of_arrival: 0, service_time }),
    {
        ArrivingCustomer { interarrival_time: 0, time_of_arrival: 0, service_time }
    }

    /// The customer after `previous`, arriving `interarrival_time` ticks later
    /// (saturating at `NEVER`).
    pub fn next_1_fcfs(previous: ArrivingCustomer, interarrival_time: u64, service_time: u64) -> (r:
        ArrivingCustomer)
        ensures
            r == (ArrivingCustomer {
                interarrival_time,
                time_of_arrival: previous.time_of_arrival.saturating_add(interarrival_time),
                service_time,
            }),
    {
        ArrivingCustomer {
            interarrival_time,
            time_of_arrival: previous.time_of_arrival.saturating_add(interarrival_time),
            service_time,
        }
    }

    /// The customer that never arrives, and if served would never leave.
    pub fn never() -> (r: ArrivingCustomer)
        ensures
            r == never_arriving(),
    {
        ArrivingCustomer { interarrival_time: NEVER, time_of_arrival: NEVER, service_time: NEVER }
    }

    /// The arrival time `A_n`.
    pub fn a(&self) -> (r: u64)
        ensures
            r == self.time_of_arrival,
    {
        self.time_of_arrival
    }

    pub fn arrival_time(&self) -> (r: u64)
        ensures
            r == self.time_of_arrival,
    {
        self.time_of_arrival
    }
}

/// What `Customer::start_service` makes of `c` when its service starts at `start`.
pub open spec fn promoted(c: ArrivingCustomer, start: u64) -> Customer
    recommends
        c.time_of_arrival <= start,
{
    Customer {
        interarrival_time: c.interarrival_time,
        time_of_arrival: c.time_of_arrival,
        service_time: c.service_time,
        time_of_service_start: start,
        time_of_departure: start.saturating_add(c.service_time),
        wait_in_queue: (start - c.time_of_arrival) as u64,
        wait_in_system: ((start - c.time_of_arrival) as u64).saturating_add(c.service_time),
    }
}

/// `c` is a record that `Customer::start_service` makes: its service starts
/// no earlier than its arrival, and the departure time and the waits follow
/// from the start of service.
pub open spec fn is_served_record(c: Customer) -> bool {
    &&& c.time_of_arrival <= c.time_of_service_start
    &&& c == promoted(
        ArrivingCustomer {
            interarrival_time: c.interarrival_time,
            time_of_arrival: c.time_of_arrival,
            service_time: c.service_time,
        },
        c.time_of_service_start,
    )
}

impl Customer {
    /// The timing record of a customer whose service starts at `time_of_service_start`.
    pub fn start_service(arriving_customer: ArrivingCustomer, time_of_service_start: u64) -> (r:
        Customer)
        requires
            arriving_customer.time_of_arrival <= time_of_service_start,
        ensures
            r == promoted(arriving_customer, time_of_service_start),
    {
        let wait_in_queue = time_of_service_start - arriving_customer.time_of_arrival;
        Customer {
            interarrival_time: arriving_customer.interarrival_time,
            time_of_arrival: arriving_customer.time_of_arrival,
            service_time: arriving_customer.service_time,
            time_of_service_start,
            time_of_departure: time_of_service_start.saturating_add(arriving_customer.service_time),
            wait_in_queue,
            wait_in_system: wait_in_queue.saturating_add(arriving_customer.service_time),
        }
    }

    pub fn time_of_departure(&self) -> (r: u64)
        ensures
            r == self.time_of_departure,
    {
        self.time_of_departure
    }

    pub fn wait_in_system(&self) -> (r: u64)
        ensures
            r == self.wait_in_system,
    {
        self.wait_in_system
    }
}

} // verus!
