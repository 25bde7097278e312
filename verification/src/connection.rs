//! Edge cost model: a connection's duration together with its departure
//! model, either a full day's wait table or an instantaneous walking link.

use vstd::prelude::*;

verus! {

/// Minutes in one day; every wait table has exactly this many entries.
pub const MINUTES_PER_DAY: usize = 1440;

/// Walking speed used to turn a distance into a walking duration, in metres
/// per minute.
pub const WALKING_SPEED_M_PER_MIN: u64 = 80;

/// One raw connection record: a directed timetabled segment between two
/// stops, with its departure times given as minutes of the day.
pub struct DirectConnection {
    pub origin: String,
    pub destination: String,
    pub duration_minutes: u16,
    /// Departure times as minutes since midnight, sorted strictly
    /// increasing, each below [`MINUTES_PER_DAY`].
    pub departure_times: Vec<u16>,
}

/// Mathematical view of a raw connection record.
pub struct DirectConnectionV {
    pub origin: Seq<char>,
    pub destination: Seq<char>,
    pub duration_minutes: u16,
    pub departure_times: Seq<u16>,
}

impl View for DirectConnection {
    type V = DirectConnectionV;

    open spec fn view(&self) -> DirectConnectionV {
        DirectConnectionV {
            origin: self.origin@,
            destination: self.destination@,
            duration_minutes: self.duration_minutes,
            departure_times: self.departure_times@,
        }
    }
}

impl DeepView for DirectConnection {
    type V = DirectConnectionV;

    open spec fn deep_view(&self) -> DirectConnectionV {
        self.view()
    }
}

impl DirectConnectionV {
    /// The departure list is sorted, duplicate-free and within the day.
    pub open spec fn wf(self) -> bool {
        &&& forall|i: int, j: int|
            0 <= i < j < self.departure_times.len() ==> self.departure_times[i]
                < self.departure_times[j]
        &&& forall|i: int|
            0 <= i < self.departure_times.len() ==> self.departure_times[i]
                < MINUTES_PER_DAY as u16
    }
}

impl DirectConnection {
    /// The departure list is sorted, duplicate-free and within the day.
    pub open spec fn wf(self) -> bool {
        self@.wf()
    }
}

/// Departure model of a connection.
pub enum DepartureTime {
    /// No schedule: the edge can be taken at any minute with no wait.
    Instantaneous,
    /// A dense wait table: entry `m` holds the minutes until the next
    /// scheduled departure at or after minute `m` of the day.
    Timetable(Vec<u16>),
}

/// A directed edge's cost: travel duration plus the departure model.
pub struct Connection {
    pub duration_minutes: u16,
    pub departure_times: DepartureTime,
}

/// Mathematical view of a departure model.
pub enum DepartureTimeV {
    Instantaneous,
    Timetable(Seq<u16>),
}

/// Mathematical view of a connection.
pub struct ConnectionV {
    pub duration_minutes: u16,
    pub departure_times: DepartureTimeV,
}

impl View for Connection {
    type V = ConnectionV;

    open spec fn view(&self) -> ConnectionV {
        ConnectionV {
            duration_minutes: self.duration_minutes,
            departure_times: match self.departure_times {
                DepartureTime::Instantaneous => DepartureTimeV::Instantaneous,
                DepartureTime::Timetable(table) => DepartureTimeV::Timetable(table@),
            },
        }
    }
}

impl DeepView for Connection {
    type V = ConnectionV;

    open spec fn deep_view(&self) -> ConnectionV {
        self.view()
    }
}

impl ConnectionV {
    /// A timetabled connection carries a full day of in-day waits.
    pub open spec fn wf(self) -> bool {
        match self.departure_times {
            DepartureTimeV::Instantaneous => true,
            DepartureTimeV::Timetable(table) => {
                &&& table.len() == MINUTES_PER_DAY
                &&& forall|i: int| 0 <= i < table.len() ==> table[i] < MINUTES_PER_DAY as u16
            },
        }
    }

    /// The wait at minute `m` of the day, `0 <= m < MINUTES_PER_DAY`.
    pub open spec fn wait(self, m: int) -> int {
        match self.departure_times {
            DepartureTimeV::Instantaneous => 0,
            DepartureTimeV::Timetable(table) => table[m] as int,
        }
    }

    /// The absolute minute at which a traveller who reaches the edge's tail
    /// at absolute minute `t` arrives at its head: wait for the next
    /// departure (by the minute of the day), then travel.
    pub open spec fn arrival(self, t: int) -> int {
        t + self.wait(t % (MINUTES_PER_DAY as int)) + self.duration_minutes
    }
}

/// The wait table that belongs to a departure list: entry `m` is the wait at
/// minute `m` of the day.
pub open spec fn wait_table_of(departures: Seq<u16>) -> Seq<u16> {
    Seq::new(MINUTES_PER_DAY as nat, |m: int| wait_from(departures, m) as u16)
}

/// Waits are never negative.
pub proof fn lemma_wait_from_nonneg(departures: Seq<u16>, m: int)
    ensures
        wait_from(departures, m) >= 0,
    decreases departures.len(),
{
    if departures.len() > 0 && departures[0] < m {
        lemma_wait_from_nonneg(departures.drop_first(), m);
    }
}

/// Waiting never lets a later minute depart earlier: the departure minute
/// reached from `m1` is no later than the one reached from `m2 >= m1`.
pub proof fn lemma_wait_from_monotone(departures: Seq<u16>, m1: int, m2: int)
    requires
        m1 <= m2,
    ensures
        m1 + wait_from(departures, m1) <= m2 + wait_from(departures, m2),
    decreases departures.len(),
{
    lemma_wait_from_nonneg(departures, m2);
    if departures.len() > 0 {
        if departures[0] < m1 {
            lemma_wait_from_monotone(departures.drop_first(), m1, m2);
        } else if departures[0] < m2 {
            // From m1 the first departure is taken; from m2 it has gone.
            lemma_wait_from_nonneg(departures.drop_first(), m2);
        }
    }
}

/// A day's departures keep the reached departure minute inside the day.
pub proof fn lemma_wait_from_day_bound(departures: Seq<u16>, m: int)
    requires
        0 <= m < MINUTES_PER_DAY,
        forall|i: int| 0 <= i < departures.len() ==> departures[i] < MINUTES_PER_DAY as u16,
    ensures
        m + wait_from(departures, m) < MINUTES_PER_DAY,
    decreases departures.len(),
{
    if departures.len() > 0 && departures[0] < m {
        assert(forall|i: int|
            0 <= i < departures.drop_first().len() ==> departures.drop_first()[i]
                < MINUTES_PER_DAY as u16);
        lemma_wait_from_day_bound(departures.drop_first(), m);
    }
}

impl ConnectionV {
    /// First-in-first-out: reaching the edge's tail earlier never means
    /// arriving at its head later.
    pub open spec fn fifo(self) -> bool {
        forall|t1: int, t2: int| 0 <= t1 <= t2 ==> self.arrival(t1) <= self.arrival(t2)
    }
}

/// An instantaneous connection is trivially first-in-first-out.
pub proof fn lemma_instantaneous_fifo(c: ConnectionV)
    requires
        c.departure_times is Instantaneous,
    ensures
        c.fifo(),
{
}

/// A connection built from a day of departures is first-in-first-out: the
/// wait always reaches a departure minute inside the same day, and within
/// a day waiting is monotone.
pub proof fn lemma_connection_of_fifo(rec: DirectConnectionV)
    requires
        rec.wf(),
    ensures
        connection_of(rec).fifo(),
{
    let c = connection_of(rec);
    let deps = rec.departure_times;
    let day = MINUTES_PER_DAY as int;
    assert forall|t1: int, t2: int| 0 <= t1 <= t2 implies c.arrival(t1) <= c.arrival(t2) by {
        let m1 = t1 % day;
        let m2 = t2 % day;
        let q1 = t1 / day;
        let q2 = t2 / day;
        vstd::arithmetic::div_mod::lemma_fundamental_div_mod(t1, day);
        vstd::arithmetic::div_mod::lemma_fundamental_div_mod(t2, day);
        vstd::arithmetic::div_mod::lemma_mod_bound(t1, day);
        vstd::arithmetic::div_mod::lemma_mod_bound(t2, day);
        vstd::arithmetic::div_mod::lemma_div_is_ordered(t1, t2, day);
        lemma_wait_from_bound(deps, m1);
        lemma_wait_from_bound(deps, m2);
        assert(c.wait(m1) == wait_from(deps, m1));
        assert(c.wait(m2) == wait_from(deps, m2));
        if q1 == q2 {
            lemma_wait_from_monotone(deps, m1, m2);
        } else {
            lemma_wait_from_day_bound(deps, m1);
            assert(day * q1 + day <= day * q2) by (nonlinear_arith)
                requires
                    q1 + 1 <= q2,
                    day == 1440,
            ;
        }
    }
}

/// Minutes from minute `m` of the day until the first departure at or after
/// `m`, or `0` when every departure of the day lies before `m`.
pub open spec fn wait_from(departures: Seq<u16>, m: int) -> int
    decreases departures.len(),
{
    if departures.len() == 0 {
        0
    } else if departures[0] >= m {
        departures[0] - m
    } else {
        wait_from(departures.drop_first(), m)
    }
}

/// When every departure lies strictly before `m`, there is nothing to wait
/// for.
pub proof fn lemma_wait_from_past(departures: Seq<u16>, m: int)
    requires
        forall|i: int| 0 <= i < departures.len() ==> departures[i] < m,
    ensures
        wait_from(departures, m) == 0,
    decreases departures.len(),
{
    if departures.len() > 0 {
        lemma_wait_from_past(departures.drop_first(), m);
    }
}

/// Dropping a prefix of departures that all lie strictly before `m` does not
/// change the wait at `m`.
pub proof fn lemma_wait_from_skip(departures: Seq<u16>, m: int, k: int)
    requires
        0 <= k <= departures.len(),
        forall|j: int| 0 <= j < k ==> departures[j] < m,
    ensures
        wait_from(departures, m) == wait_from(departures.skip(k), m),
    decreases k,
{
    if k > 0 {
        assert(departures.drop_first().skip(k - 1) =~= departures.skip(k));
        lemma_wait_from_skip(departures.drop_first(), m, k - 1);
    } else {
        assert(departures.skip(0) =~= departures);
    }
}

/// The connection that a raw record denotes: its duration together with the
/// record's full wait table.
pub open spec fn connection_of(rec: DirectConnectionV) -> ConnectionV {
    ConnectionV {
        duration_minutes: rec.duration_minutes,
        departure_times: DepartureTimeV::Timetable(wait_table_of(rec.departure_times)),
    }
}

impl Connection {
    /// A timetabled connection carries a full day of in-day waits.
    pub open spec fn wf(self) -> bool {
        self@.wf()
    }

    /// The wait at minute `m` of the day, `0 <= m < MINUTES_PER_DAY`.
    pub open spec fn spec_wait(self, m: int) -> int {
        self@.wait(m)
    }

    /// Builds the dense wait table of a timetabled connection from a raw
    /// record: entry `m` becomes the distance from `m` to the record's first
    /// departure at or after `m`, and minutes after the last departure keep
    /// a wait of zero.
    pub fn from_direct_connection(con: &DirectConnection) -> (r: Connection)
        requires
            con.wf(),
        ensures
            r.wf(),
            r@ == connection_of(con@),
    {
        let ghost deps = con@.departure_times;
        let mut table: Vec<u16> = vec![0u16; MINUTES_PER_DAY];
        let mut start: usize = 0;
        let mut k: usize = 0;
        while k < con.departure_times.len()
            invariant
                con.wf(),
                deps == con@.departure_times,
                k <= deps.len(),
                table@.len() == MINUTES_PER_DAY,
                start == if k == 0 {
                    0int
                } else {
                    deps[k - 1] + 1int
                },
                start <= MINUTES_PER_DAY,
                forall|m: int| 0 <= m < start ==> table@[m] == wait_from(deps, m),
                forall|m: int| start <= m < MINUTES_PER_DAY ==> table@[m] == 0,
            decreases deps.len() - k,
        {
            let end = con.departure_times[k] as usize;
            assert(start <= end) by {
                if k > 0 {
                    assert(deps[k - 1] < deps[k as int]);
                }
            }
            let mut wait: u16 = (end - start) as u16;
            let mut i: usize = start;
            while i < end
                invariant
                    con.wf(),
                    deps == con@.departure_times,
                    k < deps.len(),
                    deps[k as int] == end,
                    start <= i <= end,
                    end < MINUTES_PER_DAY,
                    wait == end - i,
                    table@.len() == MINUTES_PER_DAY,
                    start == if k == 0 {
                        0int
                    } else {
                        deps[k - 1] + 1int
                    },
                    forall|m: int| 0 <= m < start ==> table@[m] == wait_from(deps, m),
                    forall|m: int| start <= m < i ==> table@[m] == end - m,
                    forall|m: int| i <= m < MINUTES_PER_DAY ==> table@[m] == 0,
                decreases end - i,
            {
                table[i] = wait;
                wait = wait - 1;
                i = i + 1;
            }
            proof {
                assert forall|m: int| start <= m <= end implies wait_from(deps, m) == end - m by {
                    assert(forall|j: int| 0 <= j < k ==> deps[j] < m);
                    lemma_wait_from_skip(deps, m, k as int);
                    assert(deps.skip(k as int)[0] == deps[k as int]);
                }
            }
            start = end + 1;
            k = k + 1;
        }
        proof {
            assert forall|m: int| start <= m < MINUTES_PER_DAY implies wait_from(deps, m) == 0 by {
                assert(forall|i: int| 0 <= i < deps.len() ==> deps[i] < m);
                lemma_wait_from_past(deps, m);
            }
            assert forall|m: int| 0 <= m < MINUTES_PER_DAY implies wait_from(deps, m)
                < MINUTES_PER_DAY by {
                lemma_wait_from_bound(deps, m);
            }
            assert(forall|m: int| 0 <= m < MINUTES_PER_DAY ==> table@[m] == wait_from(deps, m));
            assert forall|m: int| 0 <= m < table@.len() implies table@[m]
                < MINUTES_PER_DAY as u16 by {
                assert(table@[m] == wait_from(deps, m));
            }
            assert(table@ =~= wait_table_of(deps));
        }
        Connection { duration_minutes: con.duration_minutes, departure_times: DepartureTime::Timetable(table) }
    }

    /// The wait read from the departure model at a given absolute minute;
    /// the day wraps, so the table is indexed by the minute of the day.
    pub fn get_minutes_to_departure(&self, minutes_since_midnight: usize) -> (r: u16)
        requires
            self.wf(),
        ensures
            r == self.spec_wait(minutes_since_midnight as int % (MINUTES_PER_DAY as int)),
            r < MINUTES_PER_DAY as u16,
    {
        match &self.departure_times {
            DepartureTime::Instantaneous => 0,
            DepartureTime::Timetable(table) => table[minutes_since_midnight % MINUTES_PER_DAY],
        }
    }

    /// A walking connection from a distance in metres: duration is the
    /// distance over the walking speed, truncated, and saturated to the
    /// widest duration the edge can carry; no schedule, so no wait.
    pub fn from_dist(dist_meters: u64) -> (r: Connection)
        ensures
            r.wf(),
            r.departure_times is Instantaneous,
            r.duration_minutes == if dist_meters / WALKING_SPEED_M_PER_MIN <= u16::MAX as u64 {
                (dist_meters / WALKING_SPEED_M_PER_MIN) as u16
            } else {
                u16::MAX
            },
    {
        let d = dist_meters / WALKING_SPEED_M_PER_MIN;
        let duration: u16 = if d <= u16::MAX as u64 {
            d as u16
        } else {
            u16::MAX
        };
        Connection { duration_minutes: duration, departure_times: DepartureTime::Instantaneous }
    }
}

/// An in-day wait is always shorter than the day: it either reaches a
/// departure inside the day or is zero.
pub proof fn lemma_wait_from_bound(departures: Seq<u16>, m: int)
    requires
        0 <= m,
        forall|i: int| 0 <= i < departures.len() ==> departures[i] < MINUTES_PER_DAY as u16,
    ensures
        0 <= wait_from(departures, m) < MINUTES_PER_DAY,
    decreases departures.len(),
{
    if departures.len() > 0 && departures[0] < m {
        lemma_wait_from_bound(departures.drop_first(), m);
    }
}

} // verus!
