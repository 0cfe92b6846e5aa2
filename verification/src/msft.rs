//! The Microsoft Graph provider: schedule queries and event creation
//! through the Microsoft Graph calendar API.

use vstd::prelude::*;
use vstd::utf8::encode_utf8;
use crate::time::{MAX_UNIX_SECS, Timestamp, now};
use crate::slots::{
    Availability, Booking, BookingRequest, conflicts, has_conflict, lemma_concat_contains, lemma_proper_concat,
    lemma_slots_are_free,
    lemma_wf_concat, ranges_proper, ranges_wf, slot_secs, slots_exact, slots_fit, try_availability_slots,
};
use crate::http::{
    Auth, Event, HttpMethod, HttpRequest, Step, CONFLICT, FORBIDDEN, UNAUTHORIZED, header_views, is_bearer,
    is_success, owned, status_is_success,
};
use crate::text::{percent_encode, percent_encoded, trim_end_char, trim_end_char_str};

verus! {

/// The Microsoft Graph API unless configured.
pub const DEFAULT_GRAPH_BASE: &'static str = "https://graph.microsoft.com/v1.0";

/// Days ahead that availability covers unless configured.
pub const DEFAULT_LOOKAHEAD_DAYS: i64 = 14;

/// Length of a slot in minutes unless configured.
pub const DEFAULT_SLOT_MINUTES: i64 = 30;

/// Summary of booked events unless configured.
pub const DEFAULT_BOOKING_SUMMARY: &'static str = "Schedj booking";

/// The most days that a duration can hold.
pub const MAX_LOOKAHEAD_DAYS: i64 = 106_751_991_167;

/// A Microsoft 365 calendar reached with an OAuth access token.
#[derive(Clone, Debug)]
pub struct MicrosoftCalendarProvider {
    client: reqwest::Client,
    access_token: String,
    schedule_id: String,
    user_id: Option<String>,
    calendar_id: Option<String>,
    graph_base: String,
    lookahead_days: i64,
    slot_minutes: i64,
    booking_summary: String,
}

/// The settings of a [`MicrosoftCalendarProvider`].
pub struct GraphSettings {
    pub client: reqwest::Client,
    pub access_token: Seq<char>,
    pub schedule_id: Seq<char>,
    pub user_id: Option<Seq<char>>,
    pub calendar_id: Option<Seq<char>>,
    pub graph_base: Seq<char>,
    pub lookahead_days: i64,
    pub slot_minutes: i64,
    pub booking_summary: Seq<char>,
}

/// The text of an optional string.
pub open spec fn opt_view(o: Option<String>) -> Option<Seq<char>> {
    match o {
        Some(s) => Some(s@),
        None => None,
    }
}

impl View for MicrosoftCalendarProvider {
    type V = GraphSettings;

    closed spec fn view(&self) -> GraphSettings {
        GraphSettings {
            client: self.client,
            access_token: self.access_token@,
            schedule_id: self.schedule_id@,
            user_id: opt_view(self.user_id),
            calendar_id: opt_view(self.calendar_id),
            graph_base: self.graph_base@,
            lookahead_days: self.lookahead_days,
            slot_minutes: self.slot_minutes,
            booking_summary: self.booking_summary@,
        }
    }
}

/// Why a Microsoft Graph operation failed.
#[derive(Debug)]
pub enum ProviderError {
    /// The booking overlaps an existing event.
    Conflict,
    /// The API refused the access token.
    Unauthorized,
    /// The HTTP request failed, or its reply could not be read.
    Http(reqwest::Error),
    /// JSON handling failed.
    Json(serde_json::Error),
    /// The API answered with an unexpected status.
    HttpStatus(u16),
    /// The requested range is empty.
    InvalidRequest,
}

/// A date and time in UTC, with its time zone named.
#[derive(Clone, Copy, Debug)]
pub struct RequestDateTime {
    pub date_time: Timestamp,
    pub time_zone: &'static str,
}

/// The body of a schedule query.
#[derive(Clone, Debug)]
pub struct GetScheduleRequest {
    pub schedules: Vec<String>,
    pub start_time: RequestDateTime,
    pub end_time: RequestDateTime,
    pub availability_view_interval: i64,
}

/// The body of an event to create.
#[derive(Clone, Debug)]
pub struct EventRequest {
    pub subject: String,
    pub start: RequestDateTime,
    pub end: RequestDateTime,
}

/// The JSON body of a request.
#[derive(Clone, Debug)]
pub enum GraphBody {
    Schedule(GetScheduleRequest),
    Event(EventRequest),
}

/// A date and time in a schedule reply, in UTC.
#[derive(Clone, Copy, Debug)]
pub struct ResponseDateTime {
    pub date_time: Timestamp,
}

/// An item of a schedule.
#[derive(Clone, Copy, Debug)]
pub struct ScheduleItem {
    pub start: ResponseDateTime,
    pub end: ResponseDateTime,
}

/// The items of one schedule.
#[derive(Clone, Debug)]
pub struct Schedule {
    pub schedule_items: Vec<ScheduleItem>,
}

/// A schedule reply.
#[derive(Clone, Debug)]
pub struct GetScheduleResponse {
    pub value: Vec<Schedule>,
}

/// `value` as a request date-time in UTC.
pub fn graph_request_datetime(value: Timestamp) -> (r: RequestDateTime)
    ensures
        r.date_time == value,
        r.time_zone@ == "UTC"@,
{
    RequestDateTime { date_time: value, time_zone: "UTC" }
}

/// Every instant of the list is well formed.
pub open spec fn items_wf(items: Seq<ScheduleItem>) -> bool {
    forall|k: int| 0 <= k < items.len() ==> (#[trigger] items[k]).start.date_time.wf() && items[k].end.date_time.wf()
}

/// Every instant of the reply is well formed.
pub open spec fn response_wf(r: GetScheduleResponse) -> bool {
    forall|c: int| 0 <= c < r.value@.len() ==> items_wf((#[trigger] r.value@[c]).schedule_items@)
}

/// The items that end after they start, as pairs, in order.
pub open spec fn proper_items(items: Seq<ScheduleItem>) -> Seq<crate::slots::BusyRange>
    decreases items.len(),
{
    if items.len() == 0 {
        seq![]
    } else {
        (if items[0].end.date_time.pos() > items[0].start.date_time.pos() {
            seq![(items[0].start.date_time, items[0].end.date_time)]
        } else {
            seq![]
        }) + proper_items(items.skip(1))
    }
}

/// The proper items of all schedules, schedule after schedule.
pub open spec fn schedule_ranges(schedules: Seq<Schedule>) -> Seq<crate::slots::BusyRange>
    decreases schedules.len(),
{
    if schedules.len() == 0 {
        seq![]
    } else {
        proper_items(schedules[0].schedule_items@) + schedule_ranges(schedules.skip(1))
    }
}

proof fn lemma_proper_items_push(items: Seq<ScheduleItem>, i: int)
    requires
        0 <= i < items.len(),
    ensures
        proper_items(items.take(i + 1)) == proper_items(items.take(i)) + proper_items(seq![items[i]]),
    decreases i,
{
    assert(seq![items[i]].skip(1) =~= Seq::<ScheduleItem>::empty());
    let t = items.take(i + 1);
    if i == 0 {
        assert(t.skip(1) =~= Seq::<ScheduleItem>::empty());
        assert(items.take(0) =~= Seq::<ScheduleItem>::empty());
    } else {
        let rest = items.skip(1);
        lemma_proper_items_push(rest, i - 1);
        assert(t.skip(1) =~= rest.take(i));
        assert(items.take(i).skip(1) =~= rest.take(i - 1));
        assert(rest[i - 1] == items[i]);
        assert(t[0] == items[0]);
        assert(items.take(i)[0] == items[0]);
        assert(proper_items(items.take(i + 1)) =~= proper_items(items.take(i)) + proper_items(seq![items[i]]));
    }
}

proof fn lemma_schedule_ranges_push(schedules: Seq<Schedule>, i: int)
    requires
        0 <= i < schedules.len(),
    ensures
        schedule_ranges(schedules.take(i + 1)) == schedule_ranges(schedules.take(i)) + proper_items(
            schedules[i].schedule_items@,
        ),
    decreases i,
{
    let t = schedules.take(i + 1);
    if i == 0 {
        assert(t.skip(1) =~= Seq::<Schedule>::empty());
        assert(schedules.take(0) =~= Seq::<Schedule>::empty());
        assert(schedule_ranges(t) =~= proper_items(schedules[0].schedule_items@) + schedule_ranges(
            Seq::<Schedule>::empty(),
        ));
    } else {
        let rest = schedules.skip(1);
        lemma_schedule_ranges_push(rest, i - 1);
        assert(t.skip(1) =~= rest.take(i));
        assert(schedules.take(i).skip(1) =~= rest.take(i - 1));
        assert(rest[i - 1] == schedules[i]);
        assert(t[0] == schedules[0]);
        assert(schedules.take(i)[0] == schedules[0]);
        assert(schedule_ranges(t) =~= schedule_ranges(schedules.take(i)) + proper_items(
            schedules[i].schedule_items@,
        ));
    }
}

/// The busy ranges of a schedule reply: the items of each schedule in turn,
/// leaving out those that do not end after they start.
pub fn schedule_items(response: GetScheduleResponse) -> (r: Vec<crate::slots::BusyRange>)
    requires
        response_wf(response),
    ensures
        r@ == schedule_ranges(response.value@),
        ranges_wf(r@),
        forall|x: crate::slots::BusyRange|
            r@.contains(x) <==> exists|c: int, k: int|
                0 <= c < response.value@.len() && 0 <= k < response.value@[c].schedule_items@.len()
                    && is_reported(#[trigger] response.value@[c].schedule_items@[k], x),
{
    proof {
        lemma_schedule_items_exact(response.value@);
    }
    let schedules = &response.value;
    let mut out: Vec<crate::slots::BusyRange> = Vec::new();
    let n = schedules.len();
    let mut c: usize = 0;
    while c < n
        invariant
            n == schedules@.len(),
            0 <= c <= n,
            response_wf(response),
            schedules@ == response.value@,
            out@ == schedule_ranges(schedules@.take(c as int)),
            ranges_wf(out@),
        decreases n - c,
    {
        let items = &schedules[c].schedule_items;
        assert(items_wf(schedules@[c as int].schedule_items@));
        let ghost before = out@;
        let m = items.len();
        let mut k: usize = 0;
        assert(items@.take(0) =~= Seq::<ScheduleItem>::empty());
        while k < m
            invariant
                m == items@.len(),
                0 <= k <= m,
                items_wf(items@),
                out@ == before + proper_items(items@.take(k as int)),
                ranges_wf(out@),
            decreases m - k,
        {
            let item = items[k];
            assert(item.start.date_time.wf() && item.end.date_time.wf());
            proof {
                lemma_proper_items_push(items@, k as int);
                assert(seq![item].skip(1) =~= Seq::<ScheduleItem>::empty());
            }
            let start = item.start.date_time;
            let end = item.end.date_time;
            if start.is_before(&end) {
                out.push((start, end));
                assert(proper_items(seq![item]) =~= seq![(start, end)] + proper_items(Seq::<ScheduleItem>::empty()));
            } else {
                assert(proper_items(seq![item]) =~= proper_items(Seq::<ScheduleItem>::empty()));
            }
            assert(out@ =~= before + proper_items(items@.take(k + 1)));
            k = k + 1;
        }
        assert(items@.take(m as int) == items@);
        proof {
            lemma_schedule_ranges_push(schedules@, c as int);
        }
        c = c + 1;
    }
    assert(schedules@.take(n as int) == schedules@);
    out
}

// ---------------------------------------------------------------------------
// Requests and replies.

/// The path of the calendar owner: `users/<id>` for a configured user, `me` otherwise.
pub open spec fn owner_path_text(s: GraphSettings) -> Seq<char> {
    match s.user_id {
        Some(u) => "users/"@ + percent_encoded(encode_utf8(u)),
        None => "me"@,
    }
}

/// The API base without trailing slashes.
pub open spec fn graph_root(s: GraphSettings) -> Seq<char> {
    trim_end_char(s.graph_base, '/')
}

/// The URL that events are created at: the configured calendar, or the
/// owner's default calendar.
pub open spec fn create_event_url_text(s: GraphSettings) -> Seq<char> {
    match s.calendar_id {
        Some(c) => graph_root(s) + "/"@ + owner_path_text(s) + "/calendars/"@ + percent_encoded(encode_utf8(c))
            + "/events"@,
        None => graph_root(s) + "/"@ + owner_path_text(s) + "/events"@,
    }
}

/// The request that asks for the schedule in `[from, to]`.
pub open spec fn is_busy_request(s: GraphSettings, req: HttpRequest<GraphBody>, from: Timestamp, to: Timestamp) -> bool {
    &&& req.method == HttpMethod::Post
    &&& req.url@ == graph_root(s) + "/"@ + owner_path_text(s) + "/calendar/getSchedule"@
    &&& is_bearer(req.auth, s.access_token)
    &&& header_views(req.headers@) == seq![("Content-Type"@, "application/json"@)]
    &&& req.body matches GraphBody::Schedule(gs) && gs.schedules@.len() == 1 && gs.schedules@[0]@ == s.schedule_id
        && gs.start_time.date_time == from && gs.start_time.time_zone@ == "UTC"@ && gs.end_time.date_time == to
        && gs.end_time.time_zone@ == "UTC"@ && gs.availability_view_interval == (if s.slot_minutes >= 1 {
        s.slot_minutes
    } else {
        1
    })
}

/// The request that creates the event for `booking`.
pub open spec fn is_create_request(s: GraphSettings, req: HttpRequest<GraphBody>, booking: BookingRequest) -> bool {
    &&& req.method == HttpMethod::Post
    &&& req.url@ == create_event_url_text(s)
    &&& is_bearer(req.auth, s.access_token)
    &&& header_views(req.headers@) == seq![("Content-Type"@, "application/json"@)]
    &&& req.body matches GraphBody::Event(ev) && ev.subject@ == s.booking_summary && ev.start.date_time
        == booking.from && ev.start.time_zone@ == "UTC"@ && ev.end.date_time == booking.to && ev.end.time_zone@
        == "UTC"@
}

/// The error for the status of a schedule reply: 401 and 403 are refused
/// credentials; other statuses outside 200 to 299 are unexpected.
pub open spec fn status_error(status: u16) -> Option<ProviderError> {
    if status == UNAUTHORIZED || status == FORBIDDEN {
        Some(ProviderError::Unauthorized)
    } else if !is_success(status) {
        Some(ProviderError::HttpStatus(status))
    } else {
        None
    }
}

/// The error for the status of an event creation reply: as for schedules,
/// and 409 is a conflict.
pub open spec fn create_status_error(status: u16) -> Option<ProviderError> {
    if status == UNAUTHORIZED || status == FORBIDDEN {
        Some(ProviderError::Unauthorized)
    } else if status == CONFLICT {
        Some(ProviderError::Conflict)
    } else if !is_success(status) {
        Some(ProviderError::HttpStatus(status))
    } else {
        None
    }
}

fn check_status(status: u16) -> (r: Option<ProviderError>)
    ensures
        r == status_error(status),
{
    if status == UNAUTHORIZED || status == FORBIDDEN {
        Some(ProviderError::Unauthorized)
    } else if !status_is_success(status) {
        Some(ProviderError::HttpStatus(status))
    } else {
        None
    }
}

fn check_create_status(status: u16) -> (r: Option<ProviderError>)
    ensures
        r == create_status_error(status),
{
    if status == UNAUTHORIZED || status == FORBIDDEN {
        Some(ProviderError::Unauthorized)
    } else if status == CONFLICT {
        Some(ProviderError::Conflict)
    } else if !status_is_success(status) {
        Some(ProviderError::HttpStatus(status))
    } else {
        None
    }
}

/// A step of a busy-time query.
pub type BusyStep = Step<GraphBody, Result<Vec<crate::slots::BusyRange>, ProviderError>>;

/// A step of an availability query.
pub type AvailabilityStep = Step<GraphBody, Result<Availability, ProviderError>>;

/// A step of a booking.
pub type BookingStep = Step<GraphBody, Result<Booking, ProviderError>>;

/// What the HTTP layer reports to a Microsoft Graph operation.
pub type GraphEvent = Event<GetScheduleResponse>;

/// A busy-time query for `[from, to]` under way.
#[derive(Clone, Copy, Debug)]
pub struct BusyQuery {
    pub from: Timestamp,
    pub to: Timestamp,
    /// The reply status was accepted and its body is awaited.
    pub reading: bool,
}

/// An availability query under way.
#[derive(Clone, Copy, Debug)]
pub struct AvailabilityQuery {
    pub busy: BusyQuery,
}

/// A booking under way: checking the calendar for conflicts, then creating the event.
#[derive(Clone, Copy, Debug)]
pub struct BookingFlow {
    pub booking: BookingRequest,
    /// The conflict check under way, or `None` once the event is being created.
    pub checking: Option<BusyQuery>,
}

/// The event fits the stage of the query, and a reply body is well formed.
pub open spec fn fits_busy_stage(q: BusyQuery, event: GraphEvent) -> bool {
    &&& q.reading ==> !(event is Replied)
    &&& !q.reading ==> !(event is Body)
    &&& event matches Event::Body(resp) ==> response_wf(resp)
}

/// What a busy-time query does on an event.
pub open spec fn busy_step_spec(q: BusyQuery, event: GraphEvent, r: (BusyQuery, BusyStep)) -> bool {
    match event {
        Event::Failed(e) => r.1 == BusyStep::Finish(Err(ProviderError::Http(e))),
        Event::Replied(status) => match status_error(status) {
            Some(err) => r.1 == BusyStep::Finish(Err(err)),
            None => r.1 is ReadBody && r.0 == (BusyQuery { reading: true, ..q }),
        },
        Event::Body(resp) => r.1 matches Step::Finish(Ok(v)) && v@ == schedule_ranges(resp.value@) && ranges_wf(v@),
    }
}

impl BusyQuery {
    /// Takes the next step on `event`.
    pub fn step(self, provider: &MicrosoftCalendarProvider, event: GraphEvent) -> (r: (BusyQuery, BusyStep))
        requires
            fits_busy_stage(self, event),
        ensures
            busy_step_spec(self, event, r),
            event matches Event::Replied(st) ==> {
                &&& 200 <= st <= 299 ==> r.1 is ReadBody
                &&& (st == 401 || st == 403) ==> r.1 == (BusyStep::Finish(Err(ProviderError::Unauthorized)))
                &&& (!(200 <= st <= 299) && st != 401 && st != 403) ==> r.1 == (BusyStep::Finish(
                    Err(ProviderError::HttpStatus(st)),
                ))
            },
    {
        match event {
            Event::Failed(e) => (self, Step::Finish(Err(ProviderError::Http(e)))),
            Event::Replied(status) => match check_status(status) {
                Some(err) => (self, Step::Finish(Err(err))),
                None => (BusyQuery { reading: true, ..self }, Step::ReadBody),
            },
            Event::Body(resp) => (self, Step::Finish(Ok(schedule_items(resp)))),
        }
    }
}

/// What starting a busy-time query for `[from, to]` does.
pub open spec fn busy_start_spec(s: GraphSettings, from: Timestamp, to: Timestamp, r: (BusyQuery, BusyStep)) -> bool {
    if to.pos() <= from.pos() {
        r.1 == BusyStep::Finish(Err(ProviderError::InvalidRequest))
    } else {
        &&& r.0 == (BusyQuery { from, to, reading: false })
        &&& r.1 matches Step::Send(req) && is_busy_request(s, req, from, to)
    }
}

/// What an availability query does when its busy-time query finishes with `done`.
pub open spec fn availability_finish_spec(
    s: GraphSettings,
    q: BusyQuery,
    done: Result<Seq<crate::slots::BusyRange>, ProviderError>,
    r: AvailabilityStep,
) -> bool {
    match done {
        Err(e) => r == AvailabilityStep::Finish(Err(e)),
        Ok(busy) => if slots_fit(busy, q.from, q.to, s.slot_minutes) {
            r matches Step::Finish(Ok(a)) && slots_exact(busy, q.from, q.to, s.slot_minutes, a.slots@)
        } else {
            r is Overflow
        },
    }
}

impl AvailabilityQuery {
    /// Takes the next step on `event`.
    pub fn step(self, provider: &MicrosoftCalendarProvider, event: GraphEvent) -> (r: (AvailabilityQuery, AvailabilityStep))
        requires
            self.busy.from.wf(),
            self.busy.to.wf(),
            fits_busy_stage(self.busy, event),
        ensures
            match event {
                Event::Failed(e) => availability_finish_spec(provider@, self.busy, Err(ProviderError::Http(e)), r.1),
                Event::Replied(status) => match status_error(status) {
                    Some(err) => availability_finish_spec(provider@, self.busy, Err(err), r.1),
                    None => r.1 is ReadBody && r.0.busy == (BusyQuery { reading: true, ..self.busy }),
                },
                Event::Body(resp) => availability_finish_spec(
                    provider@,
                    self.busy,
                    Ok(schedule_ranges(resp.value@)),
                    r.1,
                ),
            },
    {
        let (busy, step) = self.busy.step(provider, event);
        let next = AvailabilityQuery { busy };
        match step {
            Step::Finish(Ok(ranges)) => {
                match try_availability_slots(self.busy.from, self.busy.to, &ranges, provider.slot_minutes) {
                    Some(a) => (next, Step::Finish(Ok(a))),
                    None => (next, Step::Overflow),
                }
            },
            Step::Finish(Err(e)) => (next, Step::Finish(Err(e))),
            Step::ReadBody => (next, Step::ReadBody),
            Step::Send(req) => (next, Step::Send(req)),
            Step::Overflow => (next, Step::Overflow),
        }
    }
}

/// What a booking does when its conflict check finishes with `done`.
pub open spec fn booking_checked_spec(
    s: GraphSettings,
    booking: BookingRequest,
    done: Result<Seq<crate::slots::BusyRange>, ProviderError>,
    r: (BookingFlow, BookingStep),
) -> bool {
    match done {
        Err(e) => r.1 == BookingStep::Finish(Err(e)),
        Ok(busy) => if conflicts(busy, booking.from, booking.to) {
            r.1 == BookingStep::Finish(Err(ProviderError::Conflict))
        } else {
            &&& r.0 == (BookingFlow { booking, checking: None })
            &&& r.1 matches Step::Send(req) && is_create_request(s, req, booking)
        },
    }
}

/// What a booking does on the reply to creating its event.
pub open spec fn booking_stored_spec(booking: BookingRequest, event: GraphEvent, r: BookingStep) -> bool {
    match event {
        Event::Failed(e) => r == BookingStep::Finish(Err(ProviderError::Http(e))),
        Event::Replied(status) => match create_status_error(status) {
            Some(err) => r == BookingStep::Finish(Err(err)),
            None => r == BookingStep::Finish(Ok(Booking { from: booking.from, to: booking.to })),
        },
        Event::Body(_) => true,
    }
}

/// The event fits the stage of the booking.
pub open spec fn fits_booking_stage(f: BookingFlow, event: GraphEvent) -> bool {
    match f.checking {
        Some(q) => fits_busy_stage(q, event),
        None => !(event is Body),
    }
}

impl BookingFlow {
    /// Takes the next step on `event`.
    pub fn step(self, provider: &MicrosoftCalendarProvider, event: GraphEvent) -> (r: (BookingFlow, BookingStep))
        requires
            self.booking.from.wf(),
            self.booking.to.wf(),
            self.checking matches Some(q) ==> q.from == self.booking.from && q.to == self.booking.to,
            fits_booking_stage(self, event),
        ensures
            match self.checking {
                Some(q) => match event {
                    Event::Failed(e) => booking_checked_spec(provider@, self.booking, Err(ProviderError::Http(e)), r),
                    Event::Replied(status) => match status_error(status) {
                        Some(err) => booking_checked_spec(provider@, self.booking, Err(err), r),
                        None => r.1 is ReadBody && r.0 == (BookingFlow {
                            checking: Some(BusyQuery { reading: true, ..q }),
                            ..self
                        }),
                    },
                    Event::Body(resp) => booking_checked_spec(
                        provider@,
                        self.booking,
                        Ok(schedule_ranges(resp.value@)),
                        r,
                    ),
                },
                None => booking_stored_spec(self.booking, event, r.1),
            },
            self.checking is None ==> (event matches Event::Replied(st) ==> {
                &&& 200 <= st <= 299 ==> r.1 == (BookingStep::Finish(
                    Ok(Booking { from: self.booking.from, to: self.booking.to }),
                ))
                &&& (st == 401 || st == 403) ==> r.1 == (BookingStep::Finish(Err(ProviderError::Unauthorized)))
                &&& st == 409 ==> r.1 == (BookingStep::Finish(Err(ProviderError::Conflict)))
                &&& (!(200 <= st <= 299) && st != 401 && st != 403 && st != 409) ==> r.1 == (BookingStep::Finish(
                    Err(ProviderError::HttpStatus(st)),
                ))
            }),
    {
        let booking = self.booking;
        match self.checking {
            Some(q) => {
                let (q2, step) = q.step(provider, event);
                match step {
                    Step::Finish(Ok(busy)) => {
                        if has_conflict(&busy, booking.from, booking.to) {
                            (self, Step::Finish(Err(ProviderError::Conflict)))
                        } else {
                            let req = provider.create_request(booking);
                            (BookingFlow { booking, checking: None }, Step::Send(req))
                        }
                    },
                    Step::Finish(Err(e)) => (self, Step::Finish(Err(e))),
                    Step::ReadBody => (BookingFlow { booking, checking: Some(q2) }, Step::ReadBody),
                    Step::Send(req) => (BookingFlow { booking, checking: Some(q2) }, Step::Send(req)),
                    Step::Overflow => (self, Step::Overflow),
                }
            },
            None => match event {
                Event::Failed(e) => (self, Step::Finish(Err(ProviderError::Http(e)))),
                Event::Replied(status) => match check_create_status(status) {
                    Some(err) => (self, Step::Finish(Err(err))),
                    None => (self, Step::Finish(Ok(Booking { from: booking.from, to: booking.to }))),
                },
                Event::Body(_) => (self, Step::ReadBody),
            },
        }
    }
}

fn json_headers() -> (r: Vec<(String, String)>)
    ensures
        header_views(r@) == seq![("Content-Type"@, "application/json"@)],
{
    let mut headers: Vec<(String, String)> = Vec::new();
    headers.push((owned("Content-Type"), owned("application/json")));
    assert(header_views(headers@) =~= seq![("Content-Type"@, "application/json"@)]);
    headers
}

impl MicrosoftCalendarProvider {
    /// A provider for the schedule `schedule_id`, with the default settings.
    pub fn new(client: reqwest::Client, access_token: &str, schedule_id: &str) -> (r: Self)
        ensures
            r@ == (GraphSettings {
                client,
                access_token: access_token@,
                schedule_id: schedule_id@,
                user_id: None,
                calendar_id: None,
                graph_base: DEFAULT_GRAPH_BASE@,
                lookahead_days: DEFAULT_LOOKAHEAD_DAYS,
                slot_minutes: DEFAULT_SLOT_MINUTES,
                booking_summary: DEFAULT_BOOKING_SUMMARY@,
            }),
    {
        MicrosoftCalendarProvider {
            client,
            access_token: owned(access_token),
            schedule_id: owned(schedule_id),
            user_id: None,
            calendar_id: None,
            graph_base: owned(DEFAULT_GRAPH_BASE),
            lookahead_days: DEFAULT_LOOKAHEAD_DAYS,
            slot_minutes: DEFAULT_SLOT_MINUTES,
            booking_summary: owned(DEFAULT_BOOKING_SUMMARY),
        }
    }

    /// Acts for the user `user_id` in place of the signed-in user.
    pub fn with_user_id(self, user_id: &str) -> (r: Self)
        ensures
            r@ == (GraphSettings { user_id: Some(user_id@), ..self@ }),
    {
        MicrosoftCalendarProvider { user_id: Some(owned(user_id)), ..self }
    }

    /// Creates events in the calendar `calendar_id` in place of the default calendar.
    pub fn with_calendar_id(self, calendar_id: &str) -> (r: Self)
        ensures
            r@ == (GraphSettings { calendar_id: Some(calendar_id@), ..self@ }),
    {
        MicrosoftCalendarProvider { calendar_id: Some(owned(calendar_id)), ..self }
    }

    /// Sets the base URL of the API.
    pub fn with_graph_base(self, graph_base: &str) -> (r: Self)
        ensures
            r@ == (GraphSettings { graph_base: graph_base@, ..self@ }),
    {
        MicrosoftCalendarProvider { graph_base: owned(graph_base), ..self }
    }

    /// Sets how many days ahead availability covers.
    pub fn with_lookahead_days(self, days: i64) -> (r: Self)
        ensures
            r@ == (GraphSettings { lookahead_days: days, ..self@ }),
    {
        MicrosoftCalendarProvider { lookahead_days: days, ..self }
    }

    /// Sets the length of a slot in minutes.
    pub fn with_slot_minutes(self, minutes: i64) -> (r: Self)
        ensures
            r@ == (GraphSettings { slot_minutes: minutes, ..self@ }),
    {
        MicrosoftCalendarProvider { slot_minutes: minutes, ..self }
    }

    /// Sets the summary of booked events.
    pub fn with_booking_summary(self, summary: &str) -> (r: Self)
        ensures
            r@ == (GraphSettings { booking_summary: summary@, ..self@ }),
    {
        MicrosoftCalendarProvider { booking_summary: owned(summary), ..self }
    }

    /// The HTTP client of the provider.
    pub fn client(&self) -> (r: &reqwest::Client)
        ensures
            *r == self@.client,
    {
        &self.client
    }

    /// The path of the calendar owner.
    pub fn owner_path(&self) -> (r: String)
        ensures
            r@ == owner_path_text(self@),
    {
        match &self.user_id {
            Some(user_id) => {
                let mut r = owned("users/");
                r.append(percent_encode(user_id.as_str()).as_str());
                r
            },
            None => owned("me"),
        }
    }

    /// The URL that events are created at.
    pub fn create_event_url(&self) -> (r: String)
        ensures
            r@ == create_event_url_text(self@),
    {
        let owner_path = self.owner_path();
        let mut url = trim_end_char_str(self.graph_base.as_str(), '/');
        url.append("/");
        url.append(owner_path.as_str());
        match &self.calendar_id {
            Some(calendar_id) => {
                url.append("/calendars/");
                url.append(percent_encode(calendar_id.as_str()).as_str());
                url.append("/events");
            },
            None => {
                url.append("/events");
            },
        }
        url
    }

    /// Starts a query for the busy ranges in `[from, to]`.
    pub fn busy_between(&self, from: Timestamp, to: Timestamp) -> (r: (BusyQuery, BusyStep))
        requires
            from.wf(),
            to.wf(),
        ensures
            busy_start_spec(self@, from, to, r),
    {
        let q = BusyQuery { from, to, reading: false };
        if to.is_not_after(&from) {
            return (q, Step::Finish(Err(ProviderError::InvalidRequest)));
        }
        let mut url = trim_end_char_str(self.graph_base.as_str(), '/');
        url.append("/");
        url.append(self.owner_path().as_str());
        url.append("/calendar/getSchedule");
        let mut schedules: Vec<String> = Vec::new();
        schedules.push(self.schedule_id.clone());
        let interval = if self.slot_minutes >= 1 { self.slot_minutes } else { 1 };
        let req = HttpRequest {
            method: HttpMethod::Post,
            url,
            auth: Auth::Bearer { token: self.access_token.clone() },
            headers: json_headers(),
            body: GraphBody::Schedule(
                GetScheduleRequest {
                    schedules,
                    start_time: graph_request_datetime(from),
                    end_time: graph_request_datetime(to),
                    availability_view_interval: interval,
                },
            ),
        };
        (q, Step::Send(req))
    }

    /// Starts a query for the free slots in `[from, to]`.
    pub fn availability_between(&self, from: Timestamp, to: Timestamp) -> (r: (AvailabilityQuery, AvailabilityStep))
        requires
            from.wf(),
            to.wf(),
        ensures
            if to.pos() <= from.pos() {
                r.1 == AvailabilityStep::Finish(Err(ProviderError::InvalidRequest))
            } else {
                &&& r.0.busy == (BusyQuery { from, to, reading: false })
                &&& r.1 matches Step::Send(req) && is_busy_request(self@, req, from, to)
            },
    {
        let (busy, step) = self.busy_between(from, to);
        let q = AvailabilityQuery { busy };
        match step {
            Step::Send(req) => (q, Step::Send(req)),
            Step::Finish(Err(e)) => (q, Step::Finish(Err(e))),
            Step::Finish(Ok(_)) => (q, Step::ReadBody),
            Step::ReadBody => (q, Step::ReadBody),
            Step::Overflow => (q, Step::Overflow),
        }
    }

    /// Starts booking `booking`: the calendar is checked for conflicts first.
    pub fn create_booking(&self, booking: BookingRequest) -> (r: (BookingFlow, BookingStep))
        requires
            booking.from.wf(),
            booking.to.wf(),
        ensures
            if booking.to.pos() <= booking.from.pos() {
                r.1 == BookingStep::Finish(Err(ProviderError::InvalidRequest))
            } else {
                &&& r.0 == (BookingFlow {
                    booking,
                    checking: Some(BusyQuery { from: booking.from, to: booking.to, reading: false }),
                })
                &&& r.1 matches Step::Send(req) && is_busy_request(self@, req, booking.from, booking.to)
            },
    {
        let (q, step) = self.busy_between(booking.from, booking.to);
        let flow = BookingFlow { booking, checking: Some(q) };
        match step {
            Step::Send(req) => (flow, Step::Send(req)),
            Step::Finish(Err(e)) => (flow, Step::Finish(Err(e))),
            Step::Finish(Ok(_)) => (flow, Step::ReadBody),
            Step::ReadBody => (flow, Step::ReadBody),
            Step::Overflow => (flow, Step::Overflow),
        }
    }

    /// The request that creates the event for `booking`.
    fn create_request(&self, booking: BookingRequest) -> (r: HttpRequest<GraphBody>)
        ensures
            is_create_request(self@, r, booking),
    {
        HttpRequest {
            method: HttpMethod::Post,
            url: self.create_event_url(),
            auth: Auth::Bearer { token: self.access_token.clone() },
            headers: json_headers(),
            body: GraphBody::Event(
                EventRequest {
                    subject: self.booking_summary.clone(),
                    start: graph_request_datetime(booking.from),
                    end: graph_request_datetime(booking.to),
                },
            ),
        }
    }
    /// The window `[start, start + lookahead days]` (at least one day) that
    /// availability covers, or `None` where its end would leave the
    /// representable range.
    pub fn lookahead_window(&self, start: Timestamp) -> (r: Option<(Timestamp, Timestamp)>)
        requires
            start.wf(),
        ensures
            ({
                let days = if self@.lookahead_days >= 1 { self@.lookahead_days as int } else { 1 };
                r == if days <= MAX_LOOKAHEAD_DAYS && start.secs + days * 86400 <= MAX_UNIX_SECS {
                    Some((start, start.plus_secs(days * 86400)))
                } else {
                    None::<(Timestamp, Timestamp)>
                }
            }),
    {
        let days = if self.lookahead_days >= 1 { self.lookahead_days } else { 1 };
        if days > MAX_LOOKAHEAD_DAYS {
            return None;
        }
        match start.checked_add_secs(days * 86400) {
            Some(end) => Some((start, end)),
            None => None,
        }
    }

    /// The availability window starting now, or `None` where its end would
    /// leave the representable range.
    pub fn current_window(&self) -> (r: Option<(Timestamp, Timestamp)>)
        ensures
            exists|start: Timestamp|
                start.wf() && r == ({
                    let days = if self@.lookahead_days >= 1 { self@.lookahead_days as int } else { 1 };
                    if days <= MAX_LOOKAHEAD_DAYS && start.secs + days * 86400 <= MAX_UNIX_SECS {
                        Some((start, start.plus_secs(days * 86400)))
                    } else {
                        None::<(Timestamp, Timestamp)>
                    }
                }),
    {
        let start = now();
        self.lookahead_window(start)
    }
}


// ---------------------------------------------------------------------------
// Laws.

proof fn lemma_proper_items_facts(items: Seq<ScheduleItem>)
    ensures
        ranges_proper(proper_items(items)),
        items_wf(items) ==> ranges_wf(proper_items(items)),
    decreases items.len(),
{
    if items.len() > 0 {
        let rest = items.skip(1);
        if items_wf(items) {
            assert forall|k: int| 0 <= k < rest.len() implies (#[trigger] rest[k]).start.date_time.wf()
                && rest[k].end.date_time.wf() by {
                assert(rest[k] == items[k + 1]);
            }
        }
        lemma_proper_items_facts(rest);
        let head: Seq<crate::slots::BusyRange> = if items[0].end.date_time.pos() > items[0].start.date_time.pos() {
            seq![(items[0].start.date_time, items[0].end.date_time)]
        } else {
            seq![]
        };
        lemma_proper_concat(head, proper_items(rest));
        if items_wf(items) {
            lemma_wf_concat(head, proper_items(rest));
        }
    }
}

proof fn lemma_schedule_ranges_facts(schedules: Seq<Schedule>)
    ensures
        ranges_proper(schedule_ranges(schedules)),
        (forall|c: int| 0 <= c < schedules.len() ==> items_wf((#[trigger] schedules[c]).schedule_items@))
            ==> ranges_wf(schedule_ranges(schedules)),
    decreases schedules.len(),
{
    if schedules.len() > 0 {
        let rest = schedules.skip(1);
        let all_wf = forall|c: int| 0 <= c < schedules.len() ==> items_wf((#[trigger] schedules[c]).schedule_items@);
        if all_wf {
            assert forall|c: int| 0 <= c < rest.len() implies items_wf((#[trigger] rest[c]).schedule_items@) by {
                assert(rest[c] == schedules[c + 1]);
            }
            assert(items_wf(schedules[0].schedule_items@));
        }
        lemma_schedule_ranges_facts(rest);
        lemma_proper_items_facts(schedules[0].schedule_items@);
        lemma_proper_concat(proper_items(schedules[0].schedule_items@), schedule_ranges(rest));
        if all_wf {
            lemma_wf_concat(proper_items(schedules[0].schedule_items@), schedule_ranges(rest));
        }
    }
}

/// Every busy range read from a schedule reply ends after it starts, and its
/// instants are well formed when those of the reply are.
pub proof fn lemma_reply_ranges_proper(resp: GetScheduleResponse)
    ensures
        ranges_proper(schedule_ranges(resp.value@)),
        response_wf(resp) ==> ranges_wf(schedule_ranges(resp.value@)),
{
    lemma_schedule_ranges_facts(resp.value@);
}

/// Every slot that an availability query offers lies in its window, has the
/// configured length and overlaps no item of the schedule reply that it was
/// computed from; no two slots overlap.
pub proof fn lemma_offered_slots_free(s: GraphSettings, q: BusyQuery, resp: GetScheduleResponse, r: AvailabilityStep)
    requires
        q.from.wf(),
        q.to.wf(),
        response_wf(resp),
        availability_finish_spec(s, q, Ok(schedule_ranges(resp.value@)), r),
    ensures
        r matches Step::Finish(Ok(a)) ==> {
            &&& forall|i: int|
                0 <= i < a.slots@.len() ==> {
                    &&& q.from.pos() <= (#[trigger] a.slots@[i]).start.pos()
                    &&& a.slots@[i].end.pos() <= q.to.pos()
                    &&& a.slots@[i].end == a.slots@[i].start.plus_secs(slot_secs(s.slot_minutes))
                    &&& !conflicts(schedule_ranges(resp.value@), a.slots@[i].start, a.slots@[i].end)
                }
            &&& forall|i: int, j: int|
                0 <= i < j < a.slots@.len() ==> (#[trigger] a.slots@[i]).end.pos() <= (#[trigger] a.slots@[j]).start.pos()
        },
{
    lemma_reply_ranges_proper(resp);
    match r {
        Step::Finish(Ok(a)) => {
            lemma_slots_are_free(schedule_ranges(resp.value@), q.from, q.to, s.slot_minutes, a.slots@);
        },
        _ => {},
    }
}

/// The busy range `x` is the item `b`, which ends after it starts.
pub open spec fn is_reported(b: ScheduleItem, x: crate::slots::BusyRange) -> bool {
    b.start.date_time.pos() < b.end.date_time.pos() && x.0 == b.start.date_time && x.1 == b.end.date_time
}

proof fn lemma_proper_items_contains(items: Seq<ScheduleItem>, x: crate::slots::BusyRange)
    ensures
        proper_items(items).contains(x) <==> exists|k: int| 0 <= k < items.len() && is_reported(#[trigger] items[k], x),
    decreases items.len(),
{
    if items.len() > 0 {
        let rest = items.skip(1);
        lemma_proper_items_contains(rest, x);
        let head: Seq<crate::slots::BusyRange> = if items[0].end.date_time.pos() > items[0].start.date_time.pos() {
            seq![(items[0].start.date_time, items[0].end.date_time)]
        } else {
            seq![]
        };
        lemma_concat_contains(head, proper_items(rest), x);
        if head.contains(x) {
            assert(is_reported(items[0], x));
        }
        if proper_items(rest).contains(x) {
            let k = choose|k: int| 0 <= k < rest.len() && is_reported(#[trigger] rest[k], x);
            assert(rest[k] == items[k + 1]);
        }
        if exists|k: int| 0 <= k < items.len() && is_reported(#[trigger] items[k], x) {
            let k = choose|k: int| 0 <= k < items.len() && is_reported(#[trigger] items[k], x);
            if k == 0 {
                assert(head[0] == x);
            } else {
                assert(rest[k - 1] == items[k]);
            }
        }
    }
}

proof fn lemma_schedule_ranges_contains(schedules: Seq<Schedule>, x: crate::slots::BusyRange)
    ensures
        schedule_ranges(schedules).contains(x) <==> exists|c: int|
            0 <= c < schedules.len() && proper_items((#[trigger] schedules[c]).schedule_items@).contains(x),
    decreases schedules.len(),
{
    if schedules.len() > 0 {
        let rest = schedules.skip(1);
        lemma_schedule_ranges_contains(rest, x);
        lemma_concat_contains(proper_items(schedules[0].schedule_items@), schedule_ranges(rest), x);
        if schedule_ranges(rest).contains(x) {
            let c = choose|c: int| 0 <= c < rest.len() && proper_items((#[trigger] rest[c]).schedule_items@).contains(x);
            assert(rest[c] == schedules[c + 1]);
        }
        if exists|c: int| 0 <= c < schedules.len() && proper_items((#[trigger] schedules[c]).schedule_items@).contains(x) {
            let c = choose|c: int| 0 <= c < schedules.len() && proper_items((#[trigger] schedules[c]).schedule_items@).contains(x);
            if c > 0 {
                assert(rest[c - 1] == schedules[c]);
            }
        }
    }
}

/// The busy ranges read from a schedule reply are exactly the items of its
/// schedules that end after they start, whatever their length: every such
/// item is reported, and nothing else is.
pub proof fn lemma_schedule_items_exact(schedules: Seq<Schedule>)
    ensures
        forall|x: crate::slots::BusyRange|
            schedule_ranges(schedules).contains(x) <==> exists|c: int, k: int|
                0 <= c < schedules.len() && 0 <= k < schedules[c].schedule_items@.len() && is_reported(
                    #[trigger] schedules[c].schedule_items@[k],
                    x,
                ),
{
    assert forall|x: crate::slots::BusyRange|
        schedule_ranges(schedules).contains(x) <==> exists|c: int, k: int|
            0 <= c < schedules.len() && 0 <= k < schedules[c].schedule_items@.len() && is_reported(
                #[trigger] schedules[c].schedule_items@[k],
                x,
            ) by {
        lemma_schedule_ranges_contains(schedules, x);
        if schedule_ranges(schedules).contains(x) {
            let c = choose|c: int|
                0 <= c < schedules.len() && proper_items((#[trigger] schedules[c]).schedule_items@).contains(x);
            lemma_proper_items_contains(schedules[c].schedule_items@, x);
            let k = choose|k: int|
                0 <= k < schedules[c].schedule_items@.len() && is_reported(#[trigger] schedules[c].schedule_items@[k], x);
            assert(is_reported(schedules[c].schedule_items@[k], x));
        }
        if exists|c: int, k: int|
            0 <= c < schedules.len() && 0 <= k < schedules[c].schedule_items@.len() && is_reported(
                #[trigger] schedules[c].schedule_items@[k],
                x,
            ) {
            let (c, k) = choose|c: int, k: int|
                0 <= c < schedules.len() && 0 <= k < schedules[c].schedule_items@.len() && is_reported(
                    #[trigger] schedules[c].schedule_items@[k],
                    x,
                );
            lemma_proper_items_contains(schedules[c].schedule_items@, x);
            assert(proper_items(schedules[c].schedule_items@).contains(x));
        }
    }
}

} // verus!
