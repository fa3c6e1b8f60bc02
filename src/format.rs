use vstd::arithmetic::power::pow;
use vstd::prelude::*;

use crate::customer::Customer;
use crate::queues::{ColumnError, QueueError, QueueEvent};

verus! {

/// Ticks in one second: the line format writes times in seconds with six
/// decimals, so one tick is a microsecond there.
pub const TICKS_PER_SECOND: u64 = 1_000_000;

/// The number of decimals written for a time.
pub const TIME_DECIMALS: u64 = 6;

pub open spec fn is_digit(b: u8) -> bool {
    48 <= b <= 57
}

/// A non-empty run of decimal digits.
pub open spec fn is_digits(s: Seq<u8>) -> bool {
    s.len() > 0 && forall|i: int| 0 <= i < s.len() ==> is_digit(#[trigger] s[i])
}

/// The number that the digits `s` write, most significant first.
pub open spec fn digits_value(s: Seq<u8>) -> nat
    decreases s.len(),
{
    if s.len() == 0 {
        0
    } else {
        digits_value(s.drop_last()) * 10 + (s.last() - 48) as nat
    }
}

/// The shortest decimal writing of `n`.
pub open spec fn decimal(n: nat) -> Seq<u8>
    decreases n,
{
    if n < 10 {
        seq![(n + 48) as u8]
    } else {
        decimal(n / 10).push((n % 10 + 48) as u8)
    }
}

/// `n` written with exactly `width` digits, zeros first (`n < 10^width`).
pub open spec fn padded(n: nat, width: nat) -> Seq<u8>
    decreases width,
{
    if width == 0 {
        Seq::empty()
    } else {
        padded(n / 10, (width - 1) as nat).push((n % 10 + 48) as u8)
    }
}

/// The index of the first `.` in `s`, or its length.
pub open spec fn dot_index(s: Seq<u8>) -> nat
    decreases s.len(),
{
    if s.len() == 0 {
        0
    } else if s[0] == 46 {
        0
    } else {
        1 + dot_index(s.drop_first())
    }
}

/// The value of a count token: decimal digits that fit in 64 bits.
pub open spec fn count_of(tok: Seq<u8>) -> Option<u64> {
    if is_digits(tok) && digits_value(tok) <= u64::MAX {
        Some(digits_value(tok) as u64)
    } else {
        None
    }
}

/// The value in ticks of a time token `S` or `S.F` in seconds, with one to
/// six decimals, if it fits in 64 bits.
pub open spec fn time_of(tok: Seq<u8>) -> Option<u64> {
    let k = dot_index(tok);
    let ip = tok.subrange(0, k as int);
    let fp = tok.subrange(k as int + 1, tok.len() as int);
    let v: int = if k == tok.len() {
        digits_value(ip) * TICKS_PER_SECOND
    } else {
        digits_value(ip) * TICKS_PER_SECOND + digits_value(fp) * pow(
            10,
            (TIME_DECIMALS - fp.len()) as nat,
        )
    };
    if is_digits(ip) && (k == tok.len() || (is_digits(fp) && fp.len() <= TIME_DECIMALS)) && v
        <= u64::MAX {
        Some(v as u64)
    } else {
        None
    }
}

/// How `t` ticks are written: whole seconds, a dot, six decimals.
pub open spec fn time_text(t: u64) -> Seq<u8> {
    decimal((t / TICKS_PER_SECOND) as nat) + seq![46u8] + padded(
        (t % TICKS_PER_SECOND) as nat,
        TIME_DECIMALS as nat,
    )
}

pub proof fn lemma_digits_value_prefix(s: Seq<u8>, i: int)
    requires
        0 <= i <= s.len(),
        forall|j: int| 0 <= j < s.len() ==> is_digit(#[trigger] s[j]),
    ensures
        digits_value(s.subrange(0, i)) <= digits_value(s),
    decreases s.len() - i,
{
    if i < s.len() {
        lemma_digits_value_prefix(s, i + 1);
        assert(s.subrange(0, i + 1).drop_last() =~= s.subrange(0, i));
    } else {
        assert(s.subrange(0, i) =~= s);
    }
}

/// The number written by `s[start..end]`, if all are digits, there is at
/// least one, and it fits in 64 bits.
pub fn parse_digits(s: &[u8], start: usize, end: usize) -> (r: Option<u64>)
    requires
        start <= end <= s@.len(),
    ensures
        r == count_of(s@.subrange(start as int, end as int)),
{
    let ghost t = s@.subrange(start as int, end as int);
    if start == end {
        return None;
    }
    let mut v: u64 = 0;
    let mut i: usize = start;
    while i < end
        invariant
            start <= i <= end <= s@.len(),
            start < end,
            t == s@.subrange(start as int, end as int),
            forall|j: int| start <= j < i ==> is_digit(#[trigger] s@[j]),
            v == digits_value(s@.subrange(start as int, i as int)),
        decreases end - i,
    {
        let b = s[i];
        if b < 48 || b > 57 {
            proof {
                assert(!is_digit(t[i - start]));
            }
            return None;
        }
        proof {
            assert(s@.subrange(start as int, i + 1).drop_last() =~= s@.subrange(start as int, i as int));
        }
        let next = (v as u128) * 10 + (b - 48) as u128;
        if next > u64::MAX as u128 {
            proof {
                if is_digits(t) {
                    assert(t.subrange(0, i + 1 - start) =~= s@.subrange(start as int, i + 1));
                    lemma_digits_value_prefix(t, i + 1 - start);
                }
            }
            return None;
        }
        v = next as u64;
        i = i + 1;
    }
    proof {
        assert(s@.subrange(start as int, i as int) =~= t);
    }
    Some(v)
}

pub proof fn lemma_dot_index(t: Seq<u8>, m: int)
    requires
        0 <= m <= t.len(),
        forall|j: int| 0 <= j < m ==> #[trigger] t[j] != 46,
        m == t.len() || t[m] == 46,
    ensures
        dot_index(t) == m,
    decreases m,
{
    if m > 0 {
        let u = t.drop_first();
        assert forall|j: int| 0 <= j < m - 1 implies #[trigger] u[j] != 46 by {
            assert(u[j] == t[j + 1]);
        }
        lemma_dot_index(u, m - 1);
    }
}

/// The ticks written by the time token `s[start..end]`, if it is one.
pub fn parse_time(s: &[u8], start: usize, end: usize) -> (r: Option<u64>)
    requires
        start <= end <= s@.len(),
    ensures
        r == time_of(s@.subrange(start as int, end as int)),
{
    let ghost t = s@.subrange(start as int, end as int);
    let mut k: usize = start;
    while k < end && s[k] != 46
        invariant
            start <= k <= end <= s@.len(),
            forall|j: int| start <= j < k ==> #[trigger] s@[j] != 46,
        decreases end - k,
    {
        k = k + 1;
    }
    proof {
        assert forall|j: int| 0 <= j < k - start implies #[trigger] t[j] != 46 by {
            assert(t[j] == s@[start + j]);
        }
        lemma_dot_index(t, k - start);
        assert(t.subrange(0, k - start) =~= s@.subrange(start as int, k as int));
        let ip = t.subrange(0, k - start);
        assert(digits_value(ip) * 1_000_000 >= digits_value(ip)) by (nonlinear_arith);
        if k < end {
            let fp = t.subrange(k - start + 1, t.len() as int);
            let e = (TIME_DECIMALS - fp.len()) as nat;
            vstd::arithmetic::power::lemma_pow_positive(10, e);
            assert(digits_value(fp) * pow(10, e) >= 0) by (nonlinear_arith)
                requires
                    pow(10, e) > 0,
            ;
        }
    }
    let seconds = parse_digits(s, start, k)?;
    let whole = seconds.checked_mul(TICKS_PER_SECOND)?;
    if k == end {
        return Some(whole);
    }
    proof {
        assert(t.subrange(k - start + 1, t.len() as int) =~= s@.subrange(k + 1, end as int));
    }
    let places = end - k - 1;
    if places == 0 || places > 6 {
        return None;
    }
    proof {
        vstd::arithmetic::power::lemma_pow_positive(10, (6 - places) as nat);
        assert(pow(10, (6 - places) as nat) <= 1_000_000) by {
            vstd::arithmetic::power::lemma_pow_increases(10, (6 - places) as nat, 6);
            reveal_with_fuel(pow, 7);
        }
    }
    let scale = match crate::arith::checked_pow(10, (6 - places) as u64) {
        Some(v) => v,
        None => return None,
    };
    proof {
        let fp = s@.subrange(k + 1, end as int);
        assert(digits_value(fp) * scale >= digits_value(fp)) by (nonlinear_arith)
            requires
                scale >= 1,
        ;
    }
    let fraction = parse_digits(s, k + 1, end)?;
    let part = fraction.checked_mul(scale as u64)?;
    whole.checked_add(part)
}

/// Appends the shortest decimal writing of `n`.
pub fn push_decimal(out: &mut Vec<u8>, n: u64)
    ensures
        final(out)@ == old(out)@ + decimal(n as nat),
    decreases n,
{
    if n < 10 {
        out.push((n as u8) + 48);
        proof {
            assert(final(out)@ =~= old(out)@ + decimal(n as nat));
        }
    } else {
        push_decimal(out, n / 10);
        out.push(((n % 10) as u8) + 48);
        proof {
            assert(final(out)@ =~= old(out)@ + decimal(n as nat));
        }
    }
}

/// Appends `n` written with exactly `width` digits, zeros first.
pub fn push_padded(out: &mut Vec<u8>, n: u64, width: u64)
    ensures
        final(out)@ == old(out)@ + padded(n as nat, width as nat),
    decreases width,
{
    if width > 0 {
        push_padded(out, n / 10, width - 1);
        out.push(((n % 10) as u8) + 48);
        proof {
            assert(final(out)@ =~= old(out)@ + padded(n as nat, width as nat));
        }
    } else {
        proof {
            assert(final(out)@ =~= old(out)@ + padded(n as nat, width as nat));
        }
    }
}

/// Appends the writing of `t` ticks in seconds.
pub fn push_time(out: &mut Vec<u8>, t: u64)
    ensures
        final(out)@ == old(out)@ + time_text(t),
{
    push_decimal(out, t / TICKS_PER_SECOND);
    out.push(46);
    push_padded(out, t % TICKS_PER_SECOND, TIME_DECIMALS);
    proof {
        assert(final(out)@ =~= old(out)@ + time_text(t));
    }
}

pub open spec fn is_space(b: u8) -> bool {
    b == 32 || b == 9 || b == 10 || b == 12 || b == 13
}

/// The tokens of `s`, after a token `cur` begun before it: the maximal runs
/// of bytes other than ASCII white space.
pub open spec fn tokens_after(s: Seq<u8>, cur: Seq<u8>) -> Seq<Seq<u8>>
    decreases s.len(),
{
    if s.len() == 0 {
        if cur.len() > 0 {
            seq![cur]
        } else {
            Seq::empty()
        }
    } else if is_space(s[0]) {
        (if cur.len() > 0 {
            seq![cur]
        } else {
            Seq::empty()
        }) + tokens_after(s.drop_first(), Seq::empty())
    } else {
        tokens_after(s.drop_first(), cur.push(s[0]))
    }
}

/// The white-space separated tokens of `s`.
pub open spec fn tokens(s: Seq<u8>) -> Seq<Seq<u8>> {
    tokens_after(s, Seq::empty())
}

/// `spans` marks the tokens `ts` in `s`.
pub open spec fn marks(s: Seq<u8>, spans: Seq<(usize, usize)>, ts: Seq<Seq<u8>>) -> bool {
    &&& spans.len() == ts.len()
    &&& forall|i: int|
        0 <= i < spans.len() ==> {
            &&& (#[trigger] spans[i]).0 <= spans[i].1 <= s.len()
            &&& s.subrange(spans[i].0 as int, spans[i].1 as int) == ts[i]
        }
}

/// The start and end of each white-space separated token of `s`.
pub fn tokenize(s: &[u8]) -> (r: Vec<(usize, usize)>)
    ensures
        marks(s@, r@, tokens(s@)),
{
    let mut spans: Vec<(usize, usize)> = Vec::new();
    let ghost mut done: Seq<Seq<u8>> = Seq::empty();
    let mut start: usize = 0;
    let mut i: usize = 0;
    let n = s.len();
    proof {
        assert(s@.subrange(0, 0) =~= Seq::<u8>::empty());
        assert(s@.subrange(0, n as int) =~= s@);
    }
    while i < n
        invariant
            n == s@.len(),
            start <= i <= n,
            marks(s@, spans@, done),
            tokens(s@) == done + tokens_after(
                s@.subrange(i as int, n as int),
                s@.subrange(start as int, i as int),
            ),
        decreases n - i,
    {
        let ghost rest = s@.subrange(i as int, n as int);
        let ghost cur = s@.subrange(start as int, i as int);
        proof {
            assert(rest.drop_first() =~= s@.subrange(i + 1, n as int));
            assert(rest[0] == s@[i as int]);
        }
        let b = s[i];
        if b == 32 || b == 9 || b == 10 || b == 12 || b == 13 {
            let ghost before = done;
            if start < i {
                spans.push((start, i));
                proof {
                    done = done.push(cur);
                }
            }
            proof {
                let after = tokens_after(rest.drop_first(), Seq::empty());
                assert(tokens_after(rest, cur) == (if cur.len() > 0 {
                    seq![cur]
                } else {
                    Seq::<Seq<u8>>::empty()
                }) + after);
                assert(s@.subrange(i + 1, i + 1) =~= Seq::<u8>::empty());
                if start < i {
                    assert(before + (seq![cur] + after) =~= done + after);
                } else {
                    assert(Seq::<Seq<u8>>::empty() + after =~= after);
                }
            }
            start = i + 1;
        } else {
            proof {
                assert(s@.subrange(start as int, i + 1) =~= cur.push(b));
            }
        }
        i = i + 1;
    }
    proof {
        assert(s@.subrange(n as int, n as int) =~= Seq::<u8>::empty());
    }
    if start < n {
        spans.push((start, n));
        proof {
            let cur = s@.subrange(start as int, n as int);
            done = done.push(cur);
        }
    }
    proof {
        if start == n {
            assert(done + Seq::<Seq<u8>>::empty() =~= done);
        }
    }
    spans
}

/// The column header line of an event stream.
pub open spec fn header_text() -> Seq<char> {
    "# "@ + column_text(0) + " "@ + column_text(1) + " "@ + column_text(2) + " "@ + column_text(3)
        + " "@ + column_text(4) + " "@ + column_text(5) + " "@ + column_text(6) + " "@
        + column_text(7) + " "@ + column_text(8) + " "@ + column_text(9) + " "@ + column_text(10)
        + " "@ + column_text(11)
}

/// The name of column `index` of an event line.
pub open spec fn column_text(index: nat) -> Seq<char> {
    if index == 0 {
        "time(s)"@
    } else if index == 1 {
        "arrivals"@
    } else if index == 2 {
        "departures"@
    } else if index == 3 {
        "in_system"@
    } else if index == 4 {
        "type"@
    } else if index == 5 {
        "interarrival_time"@
    } else if index == 6 {
        "time_of_arrival"@
    } else if index == 7 {
        "service_time"@
    } else if index == 8 {
        "time_of_service_start"@
    } else if index == 9 {
        "time_of_departure"@
    } else if index == 10 {
        "wait_in_queue"@
    } else {
        "wait_in_system"@
    }
}

/// The column header line of an event stream.
pub fn column_header() -> (r: &'static str)
    ensures
        r@ == header_text(),
{
    proof {
        reveal_strlit("# time(s) arrivals departures in_system type interarrival_time time_of_arrival service_time time_of_service_start time_of_departure wait_in_queue wait_in_system");
        reveal_strlit("# ");
        reveal_strlit(" ");
        reveal_strlit("time(s)");
        reveal_strlit("arrivals");
        reveal_strlit("departures");
        reveal_strlit("in_system");
        reveal_strlit("type");
        reveal_strlit("interarrival_time");
        reveal_strlit("time_of_arrival");
        reveal_strlit("service_time");
        reveal_strlit("time_of_service_start");
        reveal_strlit("time_of_departure");
        reveal_strlit("wait_in_queue");
        reveal_strlit("wait_in_system");
        assert("# time(s) arrivals departures in_system type interarrival_time time_of_arrival service_time time_of_service_start time_of_departure wait_in_queue wait_in_system"@ =~= header_text());
    }
    "# time(s) arrivals departures in_system type interarrival_time time_of_arrival service_time time_of_service_start time_of_departure wait_in_queue wait_in_system"
}

/// The number of columns of a departure line.
pub const N_COLUMNS: usize = 12;

/// The column that says whether a line is an arrival or a departure.
pub const I_TYPE: usize = 4;

/// The name of column `index`, as the header writes it.
pub fn column_name(index: usize) -> (r: &'static str)
    requires
        index < N_COLUMNS,
    ensures
        r@ == column_text(index as nat),
{
    match index {
        0 => "time(s)",
        1 => "arrivals",
        2 => "departures",
        3 => "in_system",
        4 => "type",
        5 => "interarrival_time",
        6 => "time_of_arrival",
        7 => "service_time",
        8 => "time_of_service_start",
        9 => "time_of_departure",
        10 => "wait_in_queue",
        _ => "wait_in_system",
    }
}

/// Columns 1 to 3 hold counts; the others but the type hold times.
pub open spec fn is_count_column(j: nat) -> bool {
    1 <= j <= 3
}

/// The value of numeric column `j` of the tokens `ts`, or the column and
/// whether its token was there.
pub open spec fn column_value(ts: Seq<Seq<u8>>, j: nat) -> Result<u64, (nat, bool)> {
    if j >= ts.len() {
        Err((j, false))
    } else {
        let v = if is_count_column(j) {
            count_of(ts[j as int])
        } else {
            time_of(ts[j as int])
        };
        match v {
            Some(x) => Ok(x),
            None => Err((j, true)),
        }
    }
}

pub open spec fn value_at(ts: Seq<Seq<u8>>, j: nat) -> u64 {
    match column_value(ts, j) {
        Ok(v) => v,
        Err(_) => 0,
    }
}

/// The first of the numeric columns `from..to` that fails.
pub open spec fn first_bad(ts: Seq<Seq<u8>>, from: nat, to: nat) -> Option<(nat, bool)>
    decreases to - from,
{
    if from >= to {
        None
    } else {
        match column_value(ts, from) {
            Err(e) => Some(e),
            Ok(_) => first_bad(ts, from + 1, to),
        }
    }
}

/// The event that a line writes, or the first column that is missing or
/// does not parse: the four numeric columns first, then the type (`A` or
/// `D`), then for a departure the seven columns of the customer.
pub open spec fn event_of(line: Seq<u8>) -> Result<QueueEvent, (nat, bool)> {
    event_of_tokens(tokens(line))
}

/// The event that the tokens `ts` of a line write (see `event_of`).
pub open spec fn event_of_tokens(ts: Seq<Seq<u8>>) -> Result<QueueEvent, (nat, bool)> {
    match first_bad(ts, 0, 4) {
        Some(e) => Err(e),
        None => {
            let head = |c: Option<Customer>|
                QueueEvent {
                    time: value_at(ts, 0),
                    arrivals: value_at(ts, 1),
                    departures: value_at(ts, 2),
                    in_system: value_at(ts, 3),
                    served_customer: c,
                };
            if ts.len() <= 4 {
                Err((4, false))
            } else if ts[4] == seq![65u8] {
                Ok(head(None))
            } else if ts[4] == seq![68u8] {
                match first_bad(ts, 5, 12) {
                    Some(e) => Err(e),
                    None => Ok(
                        head(
                            Some(
                                Customer {
                                    interarrival_time: value_at(ts, 5),
                                    time_of_arrival: value_at(ts, 6),
                                    service_time: value_at(ts, 7),
                                    time_of_service_start: value_at(ts, 8),
                                    time_of_departure: value_at(ts, 9),
                                    wait_in_queue: value_at(ts, 10),
                                    wait_in_system: value_at(ts, 11),
                                },
                            ),
                        ),
                    ),
                }
            } else {
                Err((4, true))
            }
        },
    }
}

/// `err` reports the failure `e` of a line whose tokens are `ts`.
pub open spec fn reports(err: QueueError, e: (nat, bool), ts: Seq<Seq<u8>>) -> bool {
    match err {
        QueueError::LineParsing(ce) => {
            &&& ce.column == e.0
            &&& (ce.token is Some) == e.1
            &&& ce.token matches Some(t) ==> t@ == ts[e.0 as int]
        },
        _ => false,
    }
}

/// A copy of `s[start..end]`.
fn copy_range(s: &[u8], start: usize, end: usize) -> (r: Vec<u8>)
    requires
        start <= end <= s@.len(),
    ensures
        r@ == s@.subrange(start as int, end as int),
{
    let mut v: Vec<u8> = Vec::new();
    let mut i: usize = start;
    while i < end
        invariant
            start <= i <= end <= s@.len(),
            v@ == s@.subrange(start as int, i as int),
        decreases end - i,
    {
        v.push(s[i]);
        proof {
            assert(v@ =~= s@.subrange(start as int, i + 1));
        }
        i = i + 1;
    }
    v
}

/// Reads numeric column `index` of `line`, whose tokens `spans` marks.
pub fn parse(line: &[u8], spans: &Vec<(usize, usize)>, index: usize) -> (r: Result<u64, QueueError>)
    requires
        marks(line@, spans@, tokens(line@)),
        index < N_COLUMNS,
        index != I_TYPE,
    ensures
        match column_value(tokens(line@), index as nat) {
            Ok(v) => r == Ok::<u64, QueueError>(v),
            Err(e) => r matches Err(err) && reports(err, e, tokens(line@)),
        },
{
    if index >= spans.len() {
        return Err(QueueError::LineParsing(ColumnError { column: index, token: None }));
    }
    let (start, end) = spans[index];
    let v = if 1 <= index && index <= 3 {
        parse_digits(line, start, end)
    } else {
        parse_time(line, start, end)
    };
    match v {
        Some(x) => Ok(x),
        None => Err(
            QueueError::LineParsing(
                ColumnError { column: index, token: Some(copy_range(line, start, end)) },
            ),
        ),
    }
}

/// `n` times a space and a dash.
pub open spec fn dashes(n: nat) -> Seq<u8>
    decreases n,
{
    if n == 0 {
        Seq::empty()
    } else {
        dashes((n - 1) as nat) + seq![32u8, 45]
    }
}

/// The record after the `#` of a stream's parameter line.
pub fn parameter_record(line: &[u8]) -> (r: Result<Vec<u8>, QueueError>)
    ensures
        line@.len() > 0 && line@[0] == 35 ==> (r matches Ok(v) && v@ == line@.subrange(
            1,
            line@.len() as int,
        )),
        !(line@.len() > 0 && line@[0] == 35) ==> r == Err::<Vec<u8>, QueueError>(
            QueueError::ParameterReading,
        ),
{
    if line.len() == 0 || line[0] != 35 {
        return Err(QueueError::ParameterReading);
    }
    Ok(copy_range(line, 1, line.len()))
}

/// The line that writes `e`: time, counts, then `A` and seven dashes for an
/// arrival, or `D` and the departing customer's seven times.
pub open spec fn line_text(e: QueueEvent) -> Seq<u8> {
    let sp = seq![32u8];
    let head = time_text(e.time) + sp + decimal(e.arrivals as nat) + sp + decimal(
        e.departures as nat,
    ) + sp + decimal(e.in_system as nat);
    match e.served_customer {
        None => head + seq![32u8, 65] + dashes(7),
        Some(c) => head + sp + seq![68u8] + sp + time_text(c.interarrival_time) + sp + time_text(
            c.time_of_arrival,
        ) + sp + time_text(c.service_time) + sp + time_text(c.time_of_service_start) + sp
            + time_text(c.time_of_departure) + sp + time_text(c.wait_in_queue) + sp + time_text(
            c.wait_in_system,
        ),
    }
}

impl QueueEvent {
    /// The column header line of an event stream.
    pub fn dump_line_header() -> (r: &'static str)
        ensures
            r@ == header_text(),
    {
        column_header()
    }

    /// The line that writes this event, without a line terminator.
    pub fn dump_line(&self) -> (r: Vec<u8>)
        ensures
            r@ == line_text(*self),
    {
        let mut out: Vec<u8> = Vec::new();
        push_time(&mut out, self.time);
        out.push(32);
        push_decimal(&mut out, self.arrivals);
        out.push(32);
        push_decimal(&mut out, self.departures);
        out.push(32);
        push_decimal(&mut out, self.in_system);
        match self.served_customer {
            None => {
                let mut i: usize = 0;
                let ghost head = out@;
                out.push(32);
                out.push(65);
                proof {
                    assert(out@ =~= head + seq![32u8, 65] + dashes(0));
                }
                while i < 7
                    invariant
                        i <= 7,
                        out@ == head + seq![32u8, 65] + dashes(i as nat),
                    decreases 7 - i,
                {
                    out.push(32);
                    out.push(45);
                    i = i + 1;
                    proof {
                        assert(out@ =~= head + seq![32u8, 65] + dashes(i as nat));
                    }
                }
            },
            Some(c) => {
                out.push(32);
                out.push(68);
                out.push(32);
                push_time(&mut out, c.interarrival_time);
                out.push(32);
                push_time(&mut out, c.time_of_arrival);
                out.push(32);
                push_time(&mut out, c.service_time);
                out.push(32);
                push_time(&mut out, c.time_of_service_start);
                out.push(32);
                push_time(&mut out, c.time_of_departure);
                out.push(32);
                push_time(&mut out, c.wait_in_queue);
                out.push(32);
                push_time(&mut out, c.wait_in_system);
            },
        }
        proof {
            assert(out@ =~= line_text(*self));
        }
        out
    }

    /// Reads an event from its line.
    pub fn try_from(line: &[u8]) -> (r: Result<QueueEvent, QueueError>)
        ensures
            match event_of(line@) {
                Ok(e) => r == Ok::<QueueEvent, QueueError>(e),
                Err(e) => r matches Err(err) && reports(err, e, tokens(line@)),
            },
    {
        let spans = tokenize(line);
        let ghost ts = tokens(line@);
        proof {
            reveal_with_fuel(first_bad, 9);
        }
        let time = parse(line, &spans, 0)?;
        let arrivals = parse(line, &spans, 1)?;
        let departures = parse(line, &spans, 2)?;
        let in_system = parse(line, &spans, 3)?;
        if spans.len() <= I_TYPE {
            return Err(QueueError::LineParsing(ColumnError { column: I_TYPE, token: None }));
        }
        let (start, end) = spans[I_TYPE];
        let served_customer = if end - start == 1 && line[start] == 65 {
            proof {
                assert(ts[4] =~= seq![65u8]);
            }
            None
        } else if end - start == 1 && line[start] == 68 {
            proof {
                assert(ts[4] =~= seq![68u8]);
            }
            let interarrival_time = parse(line, &spans, 5)?;
            let time_of_arrival = parse(line, &spans, 6)?;
            let service_time = parse(line, &spans, 7)?;
            let time_of_service_start = parse(line, &spans, 8)?;
            let time_of_departure = parse(line, &spans, 9)?;
            let wait_in_queue = parse(line, &spans, 10)?;
            let wait_in_system = parse(line, &spans, 11)?;
            Some(
                Customer {
                    interarrival_time,
                    time_of_arrival,
                    service_time,
                    time_of_service_start,
                    time_of_departure,
                    wait_in_queue,
                    wait_in_system,
                },
            )
        } else {
            proof {
                assert(ts[4].len() != 1 || (ts[4][0] != 65 && ts[4][0] != 68));
                assert(ts[4] != seq![65u8]);
                assert(ts[4] != seq![68u8]);
            }
            return Err(
                QueueError::LineParsing(
                    ColumnError { column: I_TYPE, token: Some(copy_range(line, start, end)) },
                ),
            );
        };
        Ok(QueueEvent { time, arrivals, departures, in_system, served_customer })
    }
}

// ----- Round trip -----
/// The tokens `ts` joined by single spaces.
pub open spec fn join(ts: Seq<Seq<u8>>) -> Seq<u8>
    decreases ts.len(),
{
    if ts.len() == 0 {
        Seq::empty()
    } else if ts.len() == 1 {
        ts[0]
    } else {
        ts[0] + seq![32u8] + join(ts.drop_first())
    }
}

/// A token: not empty, and no white space in it.
pub open spec fn is_token(t: Seq<u8>) -> bool {
    t.len() > 0 && forall|i: int| 0 <= i < t.len() ==> !is_space(#[trigger] t[i])
}

proof fn lemma_tokens_after_token(t: Seq<u8>, rest: Seq<u8>, cur: Seq<u8>)
    requires
        forall|i: int| 0 <= i < t.len() ==> !is_space(#[trigger] t[i]),
    ensures
        tokens_after(t + rest, cur) == tokens_after(rest, cur + t),
    decreases t.len(),
{
    if t.len() > 0 {
        assert((t + rest).drop_first() =~= t.drop_first() + rest);
        assert(cur.push(t[0]) + t.drop_first() =~= cur + t);
        assert(!is_space((t + rest)[0]));
        assert forall|i: int| 0 <= i < t.drop_first().len() implies !is_space(
            #[trigger] t.drop_first()[i],
        ) by {
            assert(t.drop_first()[i] == t[i + 1]);
        }
        lemma_tokens_after_token(t.drop_first(), rest, cur.push(t[0]));
    } else {
        assert(t + rest =~= rest);
        assert(cur + t =~= cur);
    }
}

proof fn lemma_tokens_of_join(ts: Seq<Seq<u8>>, cur: Seq<u8>)
    requires
        ts.len() > 0,
        forall|i: int| 0 <= i < ts.len() ==> is_token(#[trigger] ts[i]),
    ensures
        tokens_after(join(ts), cur) == seq![cur + ts[0]] + ts.drop_first(),
    decreases ts.len(),
{
    assert(is_token(ts[0]));
    if ts.len() == 1 {
        lemma_tokens_after_token(ts[0], Seq::empty(), cur);
        assert(ts[0] + Seq::<u8>::empty() =~= ts[0]);
        assert(ts.drop_first() =~= Seq::<Seq<u8>>::empty());
        assert(seq![cur + ts[0]] + ts.drop_first() =~= seq![cur + ts[0]]);
    } else {
        let rest = ts.drop_first();
        assert(join(ts) =~= ts[0] + (seq![32u8] + join(rest)));
        lemma_tokens_after_token(ts[0], seq![32u8] + join(rest), cur);
        let sp = seq![32u8] + join(rest);
        assert(sp.drop_first() =~= join(rest));
        assert forall|i: int| 0 <= i < rest.len() implies is_token(#[trigger] rest[i]) by {
            assert(rest[i] == ts[i + 1]);
        }
        lemma_tokens_of_join(rest, Seq::empty());
        assert(Seq::<u8>::empty() + rest[0] =~= rest[0]);
        assert(seq![rest[0]] + rest.drop_first() =~= rest);
        assert(seq![cur + ts[0]] + rest =~= seq![cur + ts[0]] + ts.drop_first());
    }
}

/// The white-space separated tokens of tokens joined by spaces are those tokens.
pub proof fn lemma_tokens_join(ts: Seq<Seq<u8>>)
    requires
        forall|i: int| 0 <= i < ts.len() ==> is_token(#[trigger] ts[i]),
    ensures
        tokens(join(ts)) == ts,
{
    if ts.len() > 0 {
        lemma_tokens_of_join(ts, Seq::empty());
        assert(Seq::<u8>::empty() + ts[0] =~= ts[0]);
        assert(seq![ts[0]] + ts.drop_first() =~= ts);
    }
}

pub proof fn lemma_decimal(n: nat)
    ensures
        is_digits(decimal(n)),
        digits_value(decimal(n)) == n,
    decreases n,
{
    let d = decimal(n);
    assert(digits_value(d) == digits_value(d.drop_last()) * 10 + (d.last() - 48) as nat);
    if n < 10 {
        assert(d.drop_last() =~= Seq::<u8>::empty());
        assert(d.last() - 48 == n);
    } else {
        lemma_decimal(n / 10);
        assert(d.drop_last() =~= decimal(n / 10));
        assert(d.last() == (n % 10 + 48) as u8);
        assert(d.last() - 48 == n % 10);
        assert(n == (n / 10) * 10 + n % 10) by (nonlinear_arith);
        assert forall|i: int| 0 <= i < d.len() implies is_digit(#[trigger] d[i]) by {
            if i < d.len() - 1 {
                assert(d[i] == decimal(n / 10)[i]);
            }
        }
    }
}

pub proof fn lemma_padded(n: nat, w: nat)
    requires
        n < pow(10, w),
    ensures
        padded(n, w).len() == w,
        forall|i: int| 0 <= i < w ==> is_digit(#[trigger] padded(n, w)[i]),
        digits_value(padded(n, w)) == n,
    decreases w,
{
    reveal(pow);
    if w > 0 {
        assert(n / 10 < pow(10, (w - 1) as nat)) by (nonlinear_arith)
            requires
                n < 10 * pow(10, (w - 1) as nat),
        ;
        lemma_padded(n / 10, (w - 1) as nat);
        let d = padded(n, w);
        assert(d.drop_last() =~= padded(n / 10, (w - 1) as nat));
        assert forall|i: int| 0 <= i < w implies is_digit(#[trigger] d[i]) by {
            if i < w - 1 {
                assert(d[i] == padded(n / 10, (w - 1) as nat)[i]);
            }
        }
    }
}

/// A count reads back as itself.
pub proof fn lemma_count_round_trip(n: u64)
    ensures
        count_of(decimal(n as nat)) == Some(n),
        is_token(decimal(n as nat)),
{
    lemma_decimal(n as nat);
    let d = decimal(n as nat);
    assert forall|i: int| 0 <= i < d.len() implies !is_space(#[trigger] d[i]) by {
        assert(is_digit(d[i]));
    }
}

/// A time reads back as itself.
pub proof fn lemma_time_round_trip(t: u64)
    ensures
        time_of(time_text(t)) == Some(t),
        is_token(time_text(t)),
{
    let ip = decimal((t / TICKS_PER_SECOND) as nat);
    let f = (t % TICKS_PER_SECOND) as nat;
    lemma_decimal((t / TICKS_PER_SECOND) as nat);
    assert(pow(10, 6) == 1_000_000) by {
        reveal_with_fuel(pow, 7);
    }
    lemma_padded(f, 6);
    let fp = padded(f, 6);
    let text = time_text(t);
    assert(text =~= ip + seq![46u8] + fp);
    assert forall|j: int| 0 <= j < ip.len() implies #[trigger] text[j] != 46 by {
        assert(text[j] == ip[j]);
        assert(is_digit(ip[j]));
    }
    assert(text[ip.len() as int] == 46);
    lemma_dot_index(text, ip.len() as int);
    assert(text.subrange(0, ip.len() as int) =~= ip);
    assert(text.subrange(ip.len() as int + 1, text.len() as int) =~= fp);
    assert(pow(10, 0) == 1) by {
        reveal(pow);
    }
    assert forall|i: int| 0 <= i < text.len() implies !is_space(#[trigger] text[i]) by {
        if i < ip.len() {
            assert(text[i] == ip[i]);
            assert(is_digit(ip[i]));
        } else if i > ip.len() {
            assert(text[i] == fp[i - ip.len() - 1]);
            assert(is_digit(fp[i - ip.len() - 1]));
        }
    }
}

/// The tokens of the line that writes `e`.
pub open spec fn line_tokens(e: QueueEvent) -> Seq<Seq<u8>> {
    let head = seq![
        time_text(e.time),
        decimal(e.arrivals as nat),
        decimal(e.departures as nat),
        decimal(e.in_system as nat),
    ];
    match e.served_customer {
        None => head + seq![
            seq![65u8],
            seq![45u8],
            seq![45u8],
            seq![45u8],
            seq![45u8],
            seq![45u8],
            seq![45u8],
            seq![45u8],
        ],
        Some(c) => head + seq![
            seq![68u8],
            time_text(c.interarrival_time),
            time_text(c.time_of_arrival),
            time_text(c.service_time),
            time_text(c.time_of_service_start),
            time_text(c.time_of_departure),
            time_text(c.wait_in_queue),
            time_text(c.wait_in_system),
        ],
    }
}

/// Writing an event as a line and reading the line back gives the event.
#[verifier::spinoff_prover]
#[verifier::rlimit(60)]
pub proof fn lemma_line_round_trip(e: QueueEvent)
    ensures
        event_of(line_text(e)) == Ok::<QueueEvent, (nat, bool)>(e),
{
    let ts = line_tokens(e);
    lemma_time_round_trip(e.time);
    lemma_count_round_trip(e.arrivals);
    lemma_count_round_trip(e.departures);
    lemma_count_round_trip(e.in_system);
    if let Some(c) = e.served_customer {
        lemma_time_round_trip(c.interarrival_time);
        lemma_time_round_trip(c.time_of_arrival);
        lemma_time_round_trip(c.service_time);
        lemma_time_round_trip(c.time_of_service_start);
        lemma_time_round_trip(c.time_of_departure);
        lemma_time_round_trip(c.wait_in_queue);
        lemma_time_round_trip(c.wait_in_system);
    }
    assert(ts.len() == 12);
    assert forall|i: int| 0 <= i < ts.len() implies is_token(#[trigger] ts[i]) by {
        if 4 <= i && (e.served_customer is None || i == 4) {
            assert(ts[i].len() == 1);
            assert(ts[i][0] == 65 || ts[i][0] == 45 || ts[i][0] == 68);
        }
    }
    lemma_tokens_join(ts);
    lemma_line_is_join(e);
    lemma_event_of_line_tokens(e);
}

/// Writing a stream of events line by line and reading each line back gives
/// the stream, event for event, so whatever is computed from the events read
/// back equals what is computed from the events themselves.
pub proof fn lemma_stream_round_trip(es: Seq<QueueEvent>)
    ensures
        es.map_values(|e: QueueEvent| event_of(line_text(e))) == es.map_values(
            |e: QueueEvent| Ok::<QueueEvent, (nat, bool)>(e),
        ),
{
    assert forall|i: int| 0 <= i < es.len() implies event_of(line_text(#[trigger] es[i])) == Ok::<
        QueueEvent,
        (nat, bool),
    >(es[i]) by {
        lemma_line_round_trip(es[i]);
    }
    assert(es.map_values(|e: QueueEvent| event_of(line_text(e))) =~= es.map_values(
        |e: QueueEvent| Ok::<QueueEvent, (nat, bool)>(e),
    ));
}

proof fn lemma_event_of_line_tokens(e: QueueEvent)
    requires
        column_value(line_tokens(e), 0) == Ok::<u64, (nat, bool)>(e.time),
        column_value(line_tokens(e), 1) == Ok::<u64, (nat, bool)>(e.arrivals),
        column_value(line_tokens(e), 2) == Ok::<u64, (nat, bool)>(e.departures),
        column_value(line_tokens(e), 3) == Ok::<u64, (nat, bool)>(e.in_system),
    ensures
        event_of_tokens(line_tokens(e)) == Ok::<QueueEvent, (nat, bool)>(e),
{
    let ts = line_tokens(e);
    assert(first_bad(ts, 4, 4) is None);
    assert(first_bad(ts, 3, 4) is None);
    assert(first_bad(ts, 2, 4) is None);
    assert(first_bad(ts, 1, 4) is None);
    assert(first_bad(ts, 0, 4) is None);
    if let Some(c) = e.served_customer {
        lemma_departure_columns(e, c);
        assert(ts[4] == seq![68u8]);
        assert(ts[4][0] == 68u8);
        assert(ts[4] != seq![65u8]);
    } else {
        assert(ts[4] == seq![65u8]);
    }
}

proof fn lemma_time_column(ts: Seq<Seq<u8>>, j: nat, t: u64)
    requires
        4 <= j < ts.len(),
        ts[j as int] == time_text(t),
    ensures
        column_value(ts, j) == Ok::<u64, (nat, bool)>(t),
{
    lemma_time_round_trip(t);
}

proof fn lemma_departure_columns(e: QueueEvent, c: Customer)
    requires
        e.served_customer == Some(c),
    ensures
        first_bad(line_tokens(e), 5, 12) is None,
        value_at(line_tokens(e), 5) == c.interarrival_time,
        value_at(line_tokens(e), 6) == c.time_of_arrival,
        value_at(line_tokens(e), 7) == c.service_time,
        value_at(line_tokens(e), 8) == c.time_of_service_start,
        value_at(line_tokens(e), 9) == c.time_of_departure,
        value_at(line_tokens(e), 10) == c.wait_in_queue,
        value_at(line_tokens(e), 11) == c.wait_in_system,
{
    let ts = line_tokens(e);
    assert(ts.len() == 12);
    lemma_time_column(ts, 11, c.wait_in_system);
    assert(first_bad(ts, 12, 12) is None);
    assert(first_bad(ts, 11, 12) is None);
    lemma_time_column(ts, 10, c.wait_in_queue);
    assert(first_bad(ts, 10, 12) is None);
    lemma_time_column(ts, 9, c.time_of_departure);
    assert(first_bad(ts, 9, 12) is None);
    lemma_time_column(ts, 8, c.time_of_service_start);
    assert(first_bad(ts, 8, 12) is None);
    lemma_time_column(ts, 7, c.service_time);
    assert(first_bad(ts, 7, 12) is None);
    lemma_time_column(ts, 6, c.time_of_arrival);
    assert(first_bad(ts, 6, 12) is None);
    lemma_time_column(ts, 5, c.interarrival_time);
    assert(first_bad(ts, 5, 12) is None);
}

proof fn lemma_join_append(x: Seq<Seq<u8>>, y: Seq<Seq<u8>>)
    requires
        x.len() > 0,
        y.len() > 0,
    ensures
        join(x + y) == join(x) + seq![32u8] + join(y),
    decreases x.len(),
{
    if x.len() == 1 {
        assert((x + y).drop_first() =~= y);
    } else {
        lemma_join_append(x.drop_first(), y);
        assert((x + y).drop_first() =~= x.drop_first() + y);
        assert(join(x + y) =~= join(x) + seq![32u8] + join(y));
    }
}

#[verifier::spinoff_prover]
#[verifier::rlimit(60)]
proof fn lemma_line_is_join(e: QueueEvent)
    ensures
        line_text(e) == join(line_tokens(e)),
{
    let sp = seq![32u8];
    let head = seq![
        time_text(e.time),
        decimal(e.arrivals as nat),
        decimal(e.departures as nat),
        decimal(e.in_system as nat),
    ];
    let h2 = seq![decimal(e.departures as nat), decimal(e.in_system as nat)];
    assert(head.drop_first().drop_first() =~= h2);
    assert(h2.drop_first() =~= seq![decimal(e.in_system as nat)]);
    assert(join(h2.drop_first()) == decimal(e.in_system as nat));
    assert(join(h2) == decimal(e.departures as nat) + sp + decimal(e.in_system as nat));
    assert(join(head.drop_first()) == decimal(e.arrivals as nat) + sp + join(
        head.drop_first().drop_first(),
    ));
    assert(join(head) =~= time_text(e.time) + sp + decimal(e.arrivals as nat) + sp + decimal(
        e.departures as nat,
    ) + sp + decimal(e.in_system as nat));
    match e.served_customer {
        None => {
            let tail = seq![
                seq![65u8],
                seq![45u8],
                seq![45u8],
                seq![45u8],
                seq![45u8],
                seq![45u8],
                seq![45u8],
                seq![45u8],
            ];
            lemma_join_arrival_tail(tail);
            lemma_join_append(head, tail);
            assert(line_tokens(e) == head + tail);
            assert(line_text(e) =~= join(head) + sp + join(tail));
        },
        Some(c) => {
            let tail = seq![
                seq![68u8],
                time_text(c.interarrival_time),
                time_text(c.time_of_arrival),
                time_text(c.service_time),
                time_text(c.time_of_service_start),
                time_text(c.time_of_departure),
                time_text(c.wait_in_queue),
                time_text(c.wait_in_system),
            ];
            lemma_join_eight(tail);
            lemma_join_append(head, tail);
            assert(line_tokens(e) == head + tail);
            assert(line_text(e) =~= join(head) + sp + join(tail));
        },
    }
}

proof fn lemma_join_eight(t: Seq<Seq<u8>>)
    requires
        t.len() == 8,
    ensures
        join(t) == t[0] + seq![32u8] + t[1] + seq![32u8] + t[2] + seq![32u8] + t[3] + seq![32u8]
            + t[4] + seq![32u8] + t[5] + seq![32u8] + t[6] + seq![32u8] + t[7],
{
    let sp = seq![32u8];
    let j7 = join(t.subrange(7, 8));
    assert(j7 == t[7]);
    assert(t.subrange(6, 8).drop_first() =~= t.subrange(7, 8));
    let j6 = join(t.subrange(6, 8));
    assert(j6 == t[6] + sp + j7);
    assert(t.subrange(5, 8).drop_first() =~= t.subrange(6, 8));
    let j5 = join(t.subrange(5, 8));
    assert(j5 == t[5] + sp + j6);
    assert(t.subrange(4, 8).drop_first() =~= t.subrange(5, 8));
    let j4 = join(t.subrange(4, 8));
    assert(j4 == t[4] + sp + j5);
    assert(t.subrange(3, 8).drop_first() =~= t.subrange(4, 8));
    let j3 = join(t.subrange(3, 8));
    assert(j3 == t[3] + sp + j4);
    assert(t.subrange(2, 8).drop_first() =~= t.subrange(3, 8));
    let j2 = join(t.subrange(2, 8));
    assert(j2 == t[2] + sp + j3);
    assert(t.subrange(1, 8).drop_first() =~= t.subrange(2, 8));
    let j1 = join(t.subrange(1, 8));
    assert(j1 == t[1] + sp + j2);
    assert(t.drop_first() =~= t.subrange(1, 8));
    assert(join(t) == t[0] + sp + j1);
    assert(join(t) =~= t[0] + sp + t[1] + sp + t[2] + sp + t[3] + sp + t[4] + sp + t[5] + sp + t[6]
        + sp + t[7]);
}

proof fn lemma_join_arrival_tail(t: Seq<Seq<u8>>)
    requires
        t == seq![
            seq![65u8],
            seq![45u8],
            seq![45u8],
            seq![45u8],
            seq![45u8],
            seq![45u8],
            seq![45u8],
            seq![45u8],
        ],
    ensures
        join(t) == seq![65u8] + dashes(7),
{
    lemma_join_eight(t);
    reveal_with_fuel(dashes, 8);
    assert(join(t) =~= seq![65u8] + dashes(7));
}

} // verus!
