//! The Google Calendar provider: free/busy queries and event creation
//! through the Google Calendar API.

use vstd::prelude::*;
use vstd::utf8::encode_utf8;
use crate::time::{MAX_UNIX_SECS, Timestamp, now};
use crate::slots::{
    Availability, AvailabilitySlot, Booking, BookingRequest, conflicts, has_conflict, lemma_concat_contains,
    lemma_proper_concat,
    lemma_slots_are_free, lemma_slots_order_free, lemma_wf_concat, ranges_proper, ranges_wf, slot_secs,
    slots_exact, slots_fit, try_availability_slots,
};
use crate::http::{
    Auth, Event, HttpMethod, HttpRequest, Step, CONFLICT, FORBIDDEN, UNAUTHORIZED, header_views, is_bearer,
    is_success, owned, status_is_success,
};
use crate::text::{percent_encode, percent_encoded, trim_end_char, trim_end_char_str};

verus! {

/// A failure of JSON encoding or decoding.
#[verifier::external_type_specification]
#[verifier::external_body]
pub struct ExJsonError(serde_json::Error);

/// The Google Calendar API unless configured.
pub const DEFAULT_API_BASE: &'static str = "https://www.googleapis.com/calendar/v3";

/// Days ahead that availability covers unless configured.
pub const DEFAULT_LOOKAHEAD_DAYS: i64 = 14;

/// Length of a slot in minutes unless configured.
pub const DEFAULT_SLOT_MINUTES: i64 = 30;

/// Summary of booked events unless configured.
pub const DEFAULT_BOOKING_SUMMARY: &'static str = "Schedj booking";

/// The most days that a duration can hold.
pub const MAX_LOOKAHEAD_DAYS: i64 = 106_751_991_167;

/// A Google calendar reached with an OAuth access token.
#[derive(Clone, Debug)]
pub struct GoogleCalendarProvider {
    client: reqwest::Client,
    access_token: String,
    calendar_id: String,
    api_base: String,
    lookahead_days: i64,
    slot_minutes: i64,
    booking_summary: String,
}

/// The settings of a [`GoogleCalendarProvider`].
pub struct GoogleSettings {
    pub client: reqwest::Client,
    pub access_token: Seq<char>,
    pub calendar_id: Seq<char>,
    pub api_base: Seq<char>,
    pub lookahead_days: i64,
    pub slot_minutes: i64,
    pub booking_summary: Seq<char>,
}

impl View for GoogleCalendarProvider {
    type V = GoogleSettings;

    closed spec fn view(&self) -> GoogleSettings {
        GoogleSettings {
            client: self.client,
            access_token: self.access_token@,
            calendar_id: self.calendar_id@,
            api_base: self.api_base@,
            lookahead_days: self.lookahead_days,
            slot_minutes: self.slot_minutes,
            booking_summary: self.booking_summary@,
        }
    }
}

/// Why a Google Calendar operation failed.
#[derive(Debug)]
pub enum ProviderError {
    /// The booking overlaps an existing event.
    Conflict,
    /// The API refused the access token.
    Unauthorized,
    /// The HTTP request failed, or its reply could not be read.
    Http(reqwest::Error),
    /// JSON handling failed.
    Json(serde_json::Error),
    /// The API answered with an unexpected status.
    HttpStatus(u16),
    /// The requested range is empty.
    InvalidRequest,
}

/// A calendar named in a free/busy query.
#[derive(Clone, Debug)]
pub struct CalendarItem {
    pub id: String,
}

/// The body of a free/busy query.
#[derive(Clone, Debug)]
pub struct FreeBusyRequest {
    pub time_min: Timestamp,
    pub time_max: Timestamp,
    pub items: Vec<CalendarItem>,
}

/// A busy range in a free/busy reply.
#[derive(Clone, Copy, Debug)]
pub struct BusyRange {
    pub start: Timestamp,
    pub end: Timestamp,
}

/// The busy ranges of one calendar in a free/busy reply.
#[derive(Clone, Debug)]
pub struct CalendarBusy {
    pub busy: Vec<BusyRange>,
}

/// A free/busy reply: each calendar with its busy ranges, in the order in
/// which the reply's map was walked. The slots computed from a reply do not
/// depend on that order (`lemma_calendar_order_free`).
#[derive(Clone, Debug)]
pub struct FreeBusyResponse {
    pub calendars: Vec<(String, CalendarBusy)>,
}

/// A date-time in an event.
#[derive(Clone, Copy, Debug)]
pub struct EventDateTime {
    pub date_time: Timestamp,
}

/// The body of an event to create.
#[derive(Clone, Debug)]
pub struct EventRequest {
    pub summary: String,
    pub start: EventDateTime,
    pub end: EventDateTime,
}

/// The JSON body of a request.
#[derive(Clone, Debug)]
pub enum GoogleBody {
    FreeBusy(FreeBusyRequest),
    Event(EventRequest),
}

/// Every instant of the list is well formed.
pub open spec fn items_wf(items: Seq<BusyRange>) -> bool {
    forall|k: int| 0 <= k < items.len() ==> (#[trigger] items[k]).start.wf() && items[k].end.wf()
}

/// Every instant of the reply is well formed.
pub open spec fn response_wf(r: FreeBusyResponse) -> bool {
    forall|c: int| 0 <= c < r.calendars@.len() ==> items_wf((#[trigger] r.calendars@[c]).1.busy@)
}

/// The proper ranges of a list of busy ranges, as pairs, in order.
pub open spec fn proper_ranges(items: Seq<BusyRange>) -> Seq<crate::slots::BusyRange>
    decreases items.len(),
{
    if items.len() == 0 {
        seq![]
    } else {
        (if items[0].end.pos() > items[0].start.pos() {
            seq![(items[0].start, items[0].end)]
        } else {
            seq![]
        }) + proper_ranges(items.skip(1))
    }
}

/// The proper busy ranges of all calendars, calendar after calendar.
pub open spec fn calendar_ranges(cals: Seq<(String, CalendarBusy)>) -> Seq<crate::slots::BusyRange>
    decreases cals.len(),
{
    if cals.len() == 0 {
        seq![]
    } else {
        proper_ranges(cals[0].1.busy@) + calendar_ranges(cals.skip(1))
    }
}

proof fn lemma_proper_ranges_push(items: Seq<BusyRange>, i: int)
    requires
        0 <= i < items.len(),
    ensures
        proper_ranges(items.take(i + 1)) == proper_ranges(items.take(i)) + proper_ranges(seq![items[i]]),
    decreases i,
{
    assert(seq![items[i]].skip(1) =~= Seq::<BusyRange>::empty());
    let t = items.take(i + 1);
    if i == 0 {
        assert(t.skip(1) =~= Seq::<BusyRange>::empty());
        assert(items.take(0) =~= Seq::<BusyRange>::empty());
    } else {
        let rest = items.skip(1);
        lemma_proper_ranges_push(rest, i - 1);
        assert(t.skip(1) =~= rest.take(i));
        assert(items.take(i).skip(1) =~= rest.take(i - 1));
        assert(rest[i - 1] == items[i]);
        assert(t[0] == items[0]);
        assert(items.take(i)[0] == items[0]);
        assert(proper_ranges(items.take(i + 1)) =~= proper_ranges(items.take(i)) + proper_ranges(seq![items[i]]));
    }
}

proof fn lemma_calendar_ranges_push(cals: Seq<(String, CalendarBusy)>, i: int)
    requires
        0 <= i < cals.len(),
    ensures
        calendar_ranges(cals.take(i + 1)) == calendar_ranges(cals.take(i)) + proper_ranges(cals[i].1.busy@),
    decreases i,
{
    let t = cals.take(i + 1);
    if i == 0 {
        assert(t.skip(1) =~= Seq::<(String, CalendarBusy)>::empty());
        assert(cals.take(0) =~= Seq::<(String, CalendarBusy)>::empty());
        assert(calendar_ranges(t) =~= proper_ranges(cals[0].1.busy@) + calendar_ranges(
            Seq::<(String, CalendarBusy)>::empty(),
        ));
    } else {
        let rest = cals.skip(1);
        lemma_calendar_ranges_push(rest, i - 1);
        assert(t.skip(1) =~= rest.take(i));
        assert(cals.take(i).skip(1) =~= rest.take(i - 1));
        assert(rest[i - 1] == cals[i]);
        assert(t[0] == cals[0]);
        assert(cals.take(i)[0] == cals[0]);
        assert(calendar_ranges(t) =~= calendar_ranges(cals.take(i)) + proper_ranges(cals[i].1.busy@));
    }
}

/// The busy ranges of a free/busy reply: the ranges of each calendar in
/// turn, leaving out those that do not end after they start.
pub fn busy_ranges(response: FreeBusyResponse) -> (r: Vec<crate::slots::BusyRange>)
    requires
        response_wf(response),
    ensures
        r@ == calendar_ranges(response.calendars@),
        ranges_wf(r@),
        forall|x: crate::slots::BusyRange|
            r@.contains(x) <==> exists|c: int, k: int|
                0 <= c < response.calendars@.len() && 0 <= k < response.calendars@[c].1.busy@.len()
                    && is_reported(#[trigger] response.calendars@[c].1.busy@[k], x),
{
    proof {
        lemma_busy_ranges_exact(response.calendars@);
    }
    let cals = &response.calendars;
    let mut out: Vec<crate::slots::BusyRange> = Vec::new();
    let n = cals.len();
    let mut c: usize = 0;
    while c < n
        invariant
            n == cals@.len(),
            0 <= c <= n,
            response_wf(response),
            cals@ == response.calendars@,
            out@ == calendar_ranges(cals@.take(c as int)),
            ranges_wf(out@),
        decreases n - c,
    {
        let items = &cals[c].1.busy;
        assert(items_wf(cals@[c as int].1.busy@));
        let ghost before = out@;
        let m = items.len();
        let mut k: usize = 0;
        assert(items@.take(0) =~= Seq::<BusyRange>::empty());
        while k < m
            invariant
                m == items@.len(),
                0 <= k <= m,
                response_wf(response),
                cals@ == response.calendars@,
                0 <= c < n,
                items@ == cals@[c as int].1.busy@,
                items_wf(items@),
                out@ == before + proper_ranges(items@.take(k as int)),
                ranges_wf(out@),
            decreases m - k,
        {
            let item = items[k];
            assert(items_wf(items@));
            assert(item.start.wf() && item.end.wf());
            proof {
                lemma_proper_ranges_push(items@, k as int);
                assert(seq![item].skip(1) =~= Seq::<BusyRange>::empty());
            }
            if item.start.is_before(&item.end) {
                out.push((item.start, item.end));
                assert(proper_ranges(seq![item]) =~= seq![(item.start, item.end)] + proper_ranges(Seq::<BusyRange>::empty()));
            } else {
                assert(proper_ranges(seq![item]) =~= proper_ranges(Seq::<BusyRange>::empty()));
            }
            assert(out@ =~= before + proper_ranges(items@.take(k + 1)));
            k = k + 1;
        }
        assert(items@.take(m as int) == items@);
        proof {
            lemma_calendar_ranges_push(cals@, c as int);
        }
        c = c + 1;
    }
    assert(cals@.take(n as int) == cals@);
    out
}


// ---------------------------------------------------------------------------
// Requests and replies.

/// The API base without trailing slashes.
pub open spec fn api_root(s: GoogleSettings) -> Seq<char> {
    trim_end_char(s.api_base, '/')
}

/// The request that asks for the busy ranges in `[from, to]`.
pub open spec fn is_busy_request(s: GoogleSettings, req: HttpRequest<GoogleBody>, from: Timestamp, to: Timestamp) -> bool {
    &&& req.method == HttpMethod::Post
    &&& req.url@ == api_root(s) + "/freeBusy"@
    &&& is_bearer(req.auth, s.access_token)
    &&& header_views(req.headers@) == seq![("Content-Type"@, "application/json"@)]
    &&& req.body matches GoogleBody::FreeBusy(fb) && fb.time_min == from && fb.time_max == to && fb.items@.len() == 1
        && fb.items@[0].id@ == s.calendar_id
}

/// The request that creates the event for `booking`.
pub open spec fn is_create_request(s: GoogleSettings, req: HttpRequest<GoogleBody>, booking: BookingRequest) -> bool {
    &&& req.method == HttpMethod::Post
    &&& req.url@ == api_root(s) + "/calendars/"@ + percent_encoded(encode_utf8(s.calendar_id)) + "/events"@
    &&& is_bearer(req.auth, s.access_token)
    &&& header_views(req.headers@) == seq![("Content-Type"@, "application/json"@)]
    &&& req.body matches GoogleBody::Event(ev) && ev.summary@ == s.booking_summary && ev.start.date_time
        == booking.from && ev.end.date_time == booking.to
}

/// The error for the status of a free/busy reply: 401 and 403 are refused
/// credentials; other statuses outside 200 to 299 are unexpected.
pub open spec fn status_error(status: u16) -> Option<ProviderError> {
    if status == UNAUTHORIZED || status == FORBIDDEN {
        Some(ProviderError::Unauthorized)
    } else if !is_success(status) {
        Some(ProviderError::HttpStatus(status))
    } else {
        None
    }
}

/// The error for the status of an event creation reply: as for free/busy,
/// and 409 is a conflict.
pub open spec fn create_status_error(status: u16) -> Option<ProviderError> {
    if status == UNAUTHORIZED || status == FORBIDDEN {
        Some(ProviderError::Unauthorized)
    } else if status == CONFLICT {
        Some(ProviderError::Conflict)
    } else if !is_success(status) {
        Some(ProviderError::HttpStatus(status))
    } else {
        None
    }
}

fn check_status(status: u16) -> (r: Option<ProviderError>)
    ensures
        r == status_error(status),
{
    if status == UNAUTHORIZED || status == FORBIDDEN {
        Some(ProviderError::Unauthorized)
    } else if !status_is_success(status) {
        Some(ProviderError::HttpStatus(status))
    } else {
        None
    }
}

fn check_create_status(status: u16) -> (r: Option<ProviderError>)
    ensures
        r == create_status_error(status),
{
    if status == UNAUTHORIZED || status == FORBIDDEN {
        Some(ProviderError::Unauthorized)
    } else if status == CONFLICT {
        Some(ProviderError::Conflict)
    } else if !status_is_success(status) {
        Some(ProviderError::HttpStatus(status))
    } else {
        None
    }
}

/// A step of a busy-time query.
pub type BusyStep = Step<GoogleBody, Result<Vec<crate::slots::BusyRange>, ProviderError>>;

/// A step of an availability query.
pub type AvailabilityStep = Step<GoogleBody, Result<Availability, ProviderError>>;

/// A step of a booking.
pub type BookingStep = Step<GoogleBody, Result<Booking, ProviderError>>;

/// What the HTTP layer reports to a Google Calendar operation.
pub type GoogleEvent = Event<FreeBusyResponse>;

/// A busy-time query for `[from, to]` under way.
#[derive(Clone, Copy, Debug)]
pub struct BusyQuery {
    pub from: Timestamp,
    pub to: Timestamp,
    /// The reply status was accepted and its body is awaited.
    pub reading: bool,
}

/// An availability query under way.
#[derive(Clone, Copy, Debug)]
pub struct AvailabilityQuery {
    pub busy: BusyQuery,
}

/// A booking under way: checking the calendar for conflicts, then creating the event.
#[derive(Clone, Copy, Debug)]
pub struct BookingFlow {
    pub booking: BookingRequest,
    /// The conflict check under way, or `None` once the event is being created.
    pub checking: Option<BusyQuery>,
}

/// The event fits the stage of the query, and a reply body is well formed.
pub open spec fn fits_busy_stage(q: BusyQuery, event: GoogleEvent) -> bool {
    &&& q.reading ==> !(event is Replied)
    &&& !q.reading ==> !(event is Body)
    &&& event matches Event::Body(resp) ==> response_wf(resp)
}

/// What a busy-time query does on an event.
pub open spec fn busy_step_spec(q: BusyQuery, event: GoogleEvent, r: (BusyQuery, BusyStep)) -> bool {
    match event {
        Event::Failed(e) => r.1 == BusyStep::Finish(Err(ProviderError::Http(e))),
        Event::Replied(status) => match status_error(status) {
            Some(err) => r.1 == BusyStep::Finish(Err(err)),
            None => r.1 is ReadBody && r.0 == (BusyQuery { reading: true, ..q }),
        },
        Event::Body(resp) => r.1 matches Step::Finish(Ok(v)) && v@ == calendar_ranges(resp.calendars@) && ranges_wf(
            v@,
        ),
    }
}

impl BusyQuery {
    /// Takes the next step on `event`.
    pub fn step(self, provider: &GoogleCalendarProvider, event: GoogleEvent) -> (r: (BusyQuery, BusyStep))
        requires
            fits_busy_stage(self, event),
        ensures
            busy_step_spec(self, event, r),
            event matches Event::Replied(st) ==> {
                &&& 200 <= st <= 299 ==> r.1 is ReadBody
                &&& (st == 401 || st == 403) ==> r.1 == (BusyStep::Finish(Err(ProviderError::Unauthorized)))
                &&& (!(200 <= st <= 299) && st != 401 && st != 403) ==> r.1 == (BusyStep::Finish(
                    Err(ProviderError::HttpStatus(st)),
                ))
            },
    {
        match event {
            Event::Failed(e) => (self, Step::Finish(Err(ProviderError::Http(e)))),
            Event::Replied(status) => match check_status(status) {
                Some(err) => (self, Step::Finish(Err(err))),
                None => (BusyQuery { reading: true, ..self }, Step::ReadBody),
            },
            Event::Body(resp) => (self, Step::Finish(Ok(busy_ranges(resp)))),
        }
    }
}

/// What starting a busy-time query for `[from, to]` does.
pub open spec fn busy_start_spec(s: GoogleSettings, from: Timestamp, to: Timestamp, r: (BusyQuery, BusyStep)) -> bool {
    if to.pos() <= from.pos() {
        r.1 == BusyStep::Finish(Err(ProviderError::InvalidRequest))
    } else {
        &&& r.0 == (BusyQuery { from, to, reading: false })
        &&& r.1 matches Step::Send(req) && is_busy_request(s, req, from, to)
    }
}

/// What an availability query does when its busy-time query finishes with `done`.
pub open spec fn availability_finish_spec(
    s: GoogleSettings,
    q: BusyQuery,
    done: Result<Seq<crate::slots::BusyRange>, ProviderError>,
    r: AvailabilityStep,
) -> bool {
    match done {
        Err(e) => r == AvailabilityStep::Finish(Err(e)),
        Ok(busy) => if slots_fit(busy, q.from, q.to, s.slot_minutes) {
            r matches Step::Finish(Ok(a)) && slots_exact(busy, q.from, q.to, s.slot_minutes, a.slots@)
        } else {
            r is Overflow
        },
    }
}

impl AvailabilityQuery {
    /// Takes the next step on `event`.
    pub fn step(self, provider: &GoogleCalendarProvider, event: GoogleEvent) -> (r: (AvailabilityQuery, AvailabilityStep))
        requires
            self.busy.from.wf(),
            self.busy.to.wf(),
            fits_busy_stage(self.busy, event),
        ensures
            match event {
                Event::Failed(e) => availability_finish_spec(provider@, self.busy, Err(ProviderError::Http(e)), r.1),
                Event::Replied(status) => match status_error(status) {
                    Some(err) => availability_finish_spec(provider@, self.busy, Err(err), r.1),
                    None => r.1 is ReadBody && r.0.busy == (BusyQuery { reading: true, ..self.busy }),
                },
                Event::Body(resp) => availability_finish_spec(
                    provider@,
                    self.busy,
                    Ok(calendar_ranges(resp.calendars@)),
                    r.1,
                ),
            },
    {
        let (busy, step) = self.busy.step(provider, event);
        let next = AvailabilityQuery { busy };
        match step {
            Step::Finish(Ok(ranges)) => {
                match try_availability_slots(self.busy.from, self.busy.to, &ranges, provider.slot_minutes) {
                    Some(a) => (next, Step::Finish(Ok(a))),
                    None => (next, Step::Overflow),
                }
            },
            Step::Finish(Err(e)) => (next, Step::Finish(Err(e))),
            Step::ReadBody => (next, Step::ReadBody),
            Step::Send(req) => (next, Step::Send(req)),
            Step::Overflow => (next, Step::Overflow),
        }
    }
}

/// What a booking does when its conflict check finishes with `done`.
pub open spec fn booking_checked_spec(
    s: GoogleSettings,
    booking: BookingRequest,
    done: Result<Seq<crate::slots::BusyRange>, ProviderError>,
    r: (BookingFlow, BookingStep),
) -> bool {
    match done {
        Err(e) => r.1 == BookingStep::Finish(Err(e)),
        Ok(busy) => if conflicts(busy, booking.from, booking.to) {
            r.1 == BookingStep::Finish(Err(ProviderError::Conflict))
        } else {
            &&& r.0 == (BookingFlow { booking, checking: None })
            &&& r.1 matches Step::Send(req) && is_create_request(s, req, booking)
        },
    }
}

/// What a booking does on the reply to creating its event.
pub open spec fn booking_stored_spec(booking: BookingRequest, event: GoogleEvent, r: BookingStep) -> bool {
    match event {
        Event::Failed(e) => r == BookingStep::Finish(Err(ProviderError::Http(e))),
        Event::Replied(status) => match create_status_error(status) {
            Some(err) => r == BookingStep::Finish(Err(err)),
            None => r == BookingStep::Finish(Ok(Booking { from: booking.from, to: booking.to })),
        },
        Event::Body(_) => true,
    }
}

/// The event fits the stage of the booking.
pub open spec fn fits_booking_stage(f: BookingFlow, event: GoogleEvent) -> bool {
    match f.checking {
        Some(q) => fits_busy_stage(q, event),
        None => !(event is Body),
    }
}

impl BookingFlow {
    /// Takes the next step on `event`.
    pub fn step(self, provider: &GoogleCalendarProvider, event: GoogleEvent) -> (r: (BookingFlow, BookingStep))
        requires
            self.booking.from.wf(),
            self.booking.to.wf(),
            self.checking matches Some(q) ==> q.from == self.booking.from && q.to == self.booking.to,
            fits_booking_stage(self, event),
        ensures
            match self.checking {
                Some(q) => match event {
                    Event::Failed(e) => booking_checked_spec(provider@, self.booking, Err(ProviderError::Http(e)), r),
                    Event::Replied(status) => match status_error(status) {
                        Some(err) => booking_checked_spec(provider@, self.booking, Err(err), r),
                        None => r.1 is ReadBody && r.0 == (BookingFlow {
                            checking: Some(BusyQuery { reading: true, ..q }),
                            ..self
                        }),
                    },
                    Event::Body(resp) => booking_checked_spec(
                        provider@,
                        self.booking,
                        Ok(calendar_ranges(resp.calendars@)),
                        r,
                    ),
                },
                None => booking_stored_spec(self.booking, event, r.1),
            },
            self.checking is None ==> (event matches Event::Replied(st) ==> {
                &&& 200 <= st <= 299 ==> r.1 == (BookingStep::Finish(
                    Ok(Booking { from: self.booking.from, to: self.booking.to }),
                ))
                &&& (st == 401 || st == 403) ==> r.1 == (BookingStep::Finish(Err(ProviderError::Unauthorized)))
                &&& st == 409 ==> r.1 == (BookingStep::Finish(Err(ProviderError::Conflict)))
                &&& (!(200 <= st <= 299) && st != 401 && st != 403 && st != 409) ==> r.1 == (BookingStep::Finish(
                    Err(ProviderError::HttpStatus(st)),
                ))
            }),
    {
        let booking = self.booking;
        match self.checking {
            Some(q) => {
                let (q2, step) = q.step(provider, event);
                match step {
                    Step::Finish(Ok(busy)) => {
                        if has_conflict(&busy, booking.from, booking.to) {
                            (self, Step::Finish(Err(ProviderError::Conflict)))
                        } else {
                            let req = provider.create_request(booking);
                            (BookingFlow { booking, checking: None }, Step::Send(req))
                        }
                    },
                    Step::Finish(Err(e)) => (self, Step::Finish(Err(e))),
                    Step::ReadBody => (BookingFlow { booking, checking: Some(q2) }, Step::ReadBody),
                    Step::Send(req) => (BookingFlow { booking, checking: Some(q2) }, Step::Send(req)),
                    Step::Overflow => (self, Step::Overflow),
                }
            },
            None => match event {
                Event::Failed(e) => (self, Step::Finish(Err(ProviderError::Http(e)))),
                Event::Replied(status) => match check_create_status(status) {
                    Some(err) => (self, Step::Finish(Err(err))),
                    None => (self, Step::Finish(Ok(Booking { from: booking.from, to: booking.to }))),
                },
                Event::Body(_) => (self, Step::ReadBody),
            },
        }
    }
}

fn json_headers() -> (r: Vec<(String, String)>)
    ensures
        header_views(r@) == seq![("Content-Type"@, "application/json"@)],
{
    let mut headers: Vec<(String, String)> = Vec::new();
    headers.push((owned("Content-Type"), owned("application/json")));
    assert(header_views(headers@) =~= seq![("Content-Type"@, "application/json"@)]);
    headers
}

impl GoogleCalendarProvider {
    /// A provider for the calendar `calendar_id`, with the default settings.
    pub fn new(client: reqwest::Client, access_token: &str, calendar_id: &str) -> (r: Self)
        ensures
            r@ == (GoogleSettings {
                client,
                access_token: access_token@,
                calendar_id: calendar_id@,
                api_base: DEFAULT_API_BASE@,
                lookahead_days: DEFAULT_LOOKAHEAD_DAYS,
                slot_minutes: DEFAULT_SLOT_MINUTES,
                booking_summary: DEFAULT_BOOKING_SUMMARY@,
            }),
    {
        GoogleCalendarProvider {
            client,
            access_token: owned(access_token),
            calendar_id: owned(calendar_id),
            api_base: owned(DEFAULT_API_BASE),
            lookahead_days: DEFAULT_LOOKAHEAD_DAYS,
            slot_minutes: DEFAULT_SLOT_MINUTES,
            booking_summary: owned(DEFAULT_BOOKING_SUMMARY),
        }
    }

    /// Sets the base URL of the API.
    pub fn with_api_base(self, api_base: &str) -> (r: Self)
        ensures
            r@ == (GoogleSettings { api_base: api_base@, ..self@ }),
    {
        GoogleCalendarProvider { api_base: owned(api_base), ..self }
    }

    /// Sets how many days ahead availability covers.
    pub fn with_lookahead_days(self, days: i64) -> (r: Self)
        ensures
            r@ == (GoogleSettings { lookahead_days: days, ..self@ }),
    {
        GoogleCalendarProvider { lookahead_days: days, ..self }
    }

    /// Sets the length of a slot in minutes.
    pub fn with_slot_minutes(self, minutes: i64) -> (r: Self)
        ensures
            r@ == (GoogleSettings { slot_minutes: minutes, ..self@ }),
    {
        GoogleCalendarProvider { slot_minutes: minutes, ..self }
    }

    /// Sets the summary of booked events.
    pub fn with_booking_summary(self, summary: &str) -> (r: Self)
        ensures
            r@ == (GoogleSettings { booking_summary: summary@, ..self@ }),
    {
        GoogleCalendarProvider { booking_summary: owned(summary), ..self }
    }

    /// The HTTP client of the provider.
    pub fn client(&self) -> (r: &reqwest::Client)
        ensures
            *r == self@.client,
    {
        &self.client
    }

    /// Starts a query for the busy ranges in `[from, to]`.
    pub fn busy_between(&self, from: Timestamp, to: Timestamp) -> (r: (BusyQuery, BusyStep))
        requires
            from.wf(),
            to.wf(),
        ensures
            busy_start_spec(self@, from, to, r),
    {
        let q = BusyQuery { from, to, reading: false };
        if to.is_not_after(&from) {
            return (q, Step::Finish(Err(ProviderError::InvalidRequest)));
        }
        let mut url = trim_end_char_str(self.api_base.as_str(), '/');
        url.append("/freeBusy");
        let mut items: Vec<CalendarItem> = Vec::new();
        items.push(CalendarItem { id: self.calendar_id.clone() });
        let req = HttpRequest {
            method: HttpMethod::Post,
            url,
            auth: Auth::Bearer { token: self.access_token.clone() },
            headers: json_headers(),
            body: GoogleBody::FreeBusy(FreeBusyRequest { time_min: from, time_max: to, items }),
        };
        (q, Step::Send(req))
    }

    /// Starts a query for the free slots in `[from, to]`.
    pub fn availability_between(&self, from: Timestamp, to: Timestamp) -> (r: (AvailabilityQuery, AvailabilityStep))
        requires
            from.wf(),
            to.wf(),
        ensures
            if to.pos() <= from.pos() {
                r.1 == AvailabilityStep::Finish(Err(ProviderError::InvalidRequest))
            } else {
                &&& r.0.busy == (BusyQuery { from, to, reading: false })
                &&& r.1 matches Step::Send(req) && is_busy_request(self@, req, from, to)
            },
    {
        let (busy, step) = self.busy_between(from, to);
        let q = AvailabilityQuery { busy };
        match step {
            Step::Send(req) => (q, Step::Send(req)),
            Step::Finish(Err(e)) => (q, Step::Finish(Err(e))),
            Step::Finish(Ok(_)) => (q, Step::ReadBody),
            Step::ReadBody => (q, Step::ReadBody),
            Step::Overflow => (q, Step::Overflow),
        }
    }

    /// Starts booking `booking`: the calendar is checked for conflicts first.
    pub fn create_booking(&self, booking: BookingRequest) -> (r: (BookingFlow, BookingStep))
        requires
            booking.from.wf(),
            booking.to.wf(),
        ensures
            if booking.to.pos() <= booking.from.pos() {
                r.1 == BookingStep::Finish(Err(ProviderError::InvalidRequest))
            } else {
                &&& r.0 == (BookingFlow {
                    booking,
                    checking: Some(BusyQuery { from: booking.from, to: booking.to, reading: false }),
                })
                &&& r.1 matches Step::Send(req) && is_busy_request(self@, req, booking.from, booking.to)
            },
    {
        let (q, step) = self.busy_between(booking.from, booking.to);
        let flow = BookingFlow { booking, checking: Some(q) };
        match step {
            Step::Send(req) => (flow, Step::Send(req)),
            Step::Finish(Err(e)) => (flow, Step::Finish(Err(e))),
            Step::Finish(Ok(_)) => (flow, Step::ReadBody),
            Step::ReadBody => (flow, Step::ReadBody),
            Step::Overflow => (flow, Step::Overflow),
        }
    }

    /// The request that creates the event for `booking`.
    fn create_request(&self, booking: BookingRequest) -> (r: HttpRequest<GoogleBody>)
        ensures
            is_create_request(self@, r, booking),
    {
        let mut url = trim_end_char_str(self.api_base.as_str(), '/');
        url.append("/calendars/");
        url.append(percent_encode(self.calendar_id.as_str()).as_str());
        url.append("/events");
        HttpRequest {
            method: HttpMethod::Post,
            url,
            auth: Auth::Bearer { token: self.access_token.clone() },
            headers: json_headers(),
            body: GoogleBody::Event(
                EventRequest {
                    summary: self.booking_summary.clone(),
                    start: EventDateTime { date_time: booking.from },
                    end: EventDateTime { date_time: booking.to },
                },
            ),
        }
    }

    /// The window `[start, start + lookahead days]` (at least one day) that
    /// availability covers, or `None` where its end would leave the
    /// representable range.
    pub fn lookahead_window(&self, start: Timestamp) -> (r: Option<(Timestamp, Timestamp)>)
        requires
            start.wf(),
        ensures
            ({
                let days = if self@.lookahead_days >= 1 { self@.lookahead_days as int } else { 1 };
                r == if days <= MAX_LOOKAHEAD_DAYS && start.secs + days * 86400 <= MAX_UNIX_SECS {
                    Some((start, start.plus_secs(days * 86400)))
                } else {
                    None::<(Timestamp, Timestamp)>
                }
            }),
    {
        let days = if self.lookahead_days >= 1 { self.lookahead_days } else { 1 };
        if days > MAX_LOOKAHEAD_DAYS {
            return None;
        }
        match start.checked_add_secs(days * 86400) {
            Some(end) => Some((start, end)),
            None => None,
        }
    }

    /// The availability window starting now, or `None` where its end would
    /// leave the representable range.
    pub fn current_window(&self) -> (r: Option<(Timestamp, Timestamp)>)
        ensures
            exists|start: Timestamp|
                start.wf() && r == ({
                    let days = if self@.lookahead_days >= 1 { self@.lookahead_days as int } else { 1 };
                    if days <= MAX_LOOKAHEAD_DAYS && start.secs + days * 86400 <= MAX_UNIX_SECS {
                        Some((start, start.plus_secs(days * 86400)))
                    } else {
                        None::<(Timestamp, Timestamp)>
                    }
                }),
    {
        let start = now();
        self.lookahead_window(start)
    }
}


// ---------------------------------------------------------------------------
// Laws.

proof fn lemma_proper_ranges_facts(items: Seq<BusyRange>)
    ensures
        ranges_proper(proper_ranges(items)),
        items_wf(items) ==> ranges_wf(proper_ranges(items)),
    decreases items.len(),
{
    if items.len() > 0 {
        let rest = items.skip(1);
        if items_wf(items) {
            assert forall|k: int| 0 <= k < rest.len() implies (#[trigger] rest[k]).start.wf() && rest[k].end.wf() by {
                assert(rest[k] == items[k + 1]);
            }
        }
        lemma_proper_ranges_facts(rest);
        let head: Seq<crate::slots::BusyRange> = if items[0].end.pos() > items[0].start.pos() {
            seq![(items[0].start, items[0].end)]
        } else {
            seq![]
        };
        lemma_proper_concat(head, proper_ranges(rest));
        if items_wf(items) {
            lemma_wf_concat(head, proper_ranges(rest));
        }
    }
}

proof fn lemma_calendar_ranges_facts(cals: Seq<(String, CalendarBusy)>)
    ensures
        ranges_proper(calendar_ranges(cals)),
        (forall|c: int| 0 <= c < cals.len() ==> items_wf((#[trigger] cals[c]).1.busy@)) ==> ranges_wf(
            calendar_ranges(cals),
        ),
    decreases cals.len(),
{
    if cals.len() > 0 {
        let rest = cals.skip(1);
        let all_wf = forall|c: int| 0 <= c < cals.len() ==> items_wf((#[trigger] cals[c]).1.busy@);
        if all_wf {
            assert forall|c: int| 0 <= c < rest.len() implies items_wf((#[trigger] rest[c]).1.busy@) by {
                assert(rest[c] == cals[c + 1]);
            }
            assert(items_wf(cals[0].1.busy@));
        }
        lemma_calendar_ranges_facts(rest);
        lemma_proper_ranges_facts(cals[0].1.busy@);
        lemma_proper_concat(proper_ranges(cals[0].1.busy@), calendar_ranges(rest));
        if all_wf {
            lemma_wf_concat(proper_ranges(cals[0].1.busy@), calendar_ranges(rest));
        }
    }
}

/// Every busy range read from a free/busy reply ends after it starts, and
/// its instants are well formed when those of the reply are.
pub proof fn lemma_reply_ranges_proper(resp: FreeBusyResponse)
    ensures
        ranges_proper(calendar_ranges(resp.calendars@)),
        response_wf(resp) ==> ranges_wf(calendar_ranges(resp.calendars@)),
{
    lemma_calendar_ranges_facts(resp.calendars@);
}

/// Every slot that an availability query offers lies in its window, has the
/// configured length and overlaps no busy range of the free/busy reply that
/// it was computed from; no two slots overlap.
pub proof fn lemma_offered_slots_free(s: GoogleSettings, q: BusyQuery, resp: FreeBusyResponse, r: AvailabilityStep)
    requires
        q.from.wf(),
        q.to.wf(),
        response_wf(resp),
        availability_finish_spec(s, q, Ok(calendar_ranges(resp.calendars@)), r),
    ensures
        r matches Step::Finish(Ok(a)) ==> {
            &&& forall|i: int|
                0 <= i < a.slots@.len() ==> {
                    &&& q.from.pos() <= (#[trigger] a.slots@[i]).start.pos()
                    &&& a.slots@[i].end.pos() <= q.to.pos()
                    &&& a.slots@[i].end == a.slots@[i].start.plus_secs(slot_secs(s.slot_minutes))
                    &&& !conflicts(calendar_ranges(resp.calendars@), a.slots@[i].start, a.slots@[i].end)
                }
            &&& forall|i: int, j: int|
                0 <= i < j < a.slots@.len() ==> (#[trigger] a.slots@[i]).end.pos() <= (#[trigger] a.slots@[j]).start.pos()
        },
{
    lemma_reply_ranges_proper(resp);
    match r {
        Step::Finish(Ok(a)) => {
            lemma_slots_are_free(calendar_ranges(resp.calendars@), q.from, q.to, s.slot_minutes, a.slots@);
        },
        _ => {},
    }
}

proof fn lemma_calendar_ranges_contains(cals: Seq<(String, CalendarBusy)>, r: crate::slots::BusyRange)
    ensures
        calendar_ranges(cals).contains(r) <==> exists|c: int|
            0 <= c < cals.len() && proper_ranges((#[trigger] cals[c]).1.busy@).contains(r),
    decreases cals.len(),
{
    if cals.len() > 0 {
        let rest = cals.skip(1);
        lemma_calendar_ranges_contains(rest, r);
        let a = proper_ranges(cals[0].1.busy@);
        let b = calendar_ranges(rest);
        assert(calendar_ranges(cals) == a + b);
        if (a + b).contains(r) {
            let i = choose|i: int| 0 <= i < (a + b).len() && (a + b)[i] == r;
            if i < a.len() {
                assert(a[i] == r);
                assert(proper_ranges(cals[0].1.busy@).contains(r));
            } else {
                assert(b[i - a.len()] == r);
                let c = choose|c: int| 0 <= c < rest.len() && proper_ranges((#[trigger] rest[c]).1.busy@).contains(r);
                assert(rest[c] == cals[c + 1]);
                assert(proper_ranges(cals[c + 1].1.busy@).contains(r));
            }
        }
        if exists|c: int| 0 <= c < cals.len() && proper_ranges((#[trigger] cals[c]).1.busy@).contains(r) {
            let c = choose|c: int| 0 <= c < cals.len() && proper_ranges((#[trigger] cals[c]).1.busy@).contains(r);
            if c == 0 {
                let i = choose|i: int| 0 <= i < a.len() && a[i] == r;
                assert((a + b)[i] == r);
            } else {
                assert(rest[c - 1] == cals[c]);
                assert(proper_ranges(rest[c - 1].1.busy@).contains(r));
                let i = choose|i: int| 0 <= i < b.len() && b[i] == r;
                assert((a + b)[a.len() + i] == r);
            }
        }
    }
}

/// The slots that a free/busy reply leaves free do not depend on the order
/// in which its calendars are listed, which is the order in which the reply's
/// map was walked.
pub proof fn lemma_calendar_order_free(
    c1: Seq<(String, CalendarBusy)>,
    c2: Seq<(String, CalendarBusy)>,
    from: Timestamp,
    to: Timestamp,
    slot_minutes: i64,
    s1: Seq<AvailabilitySlot>,
    s2: Seq<AvailabilitySlot>,
)
    requires
        forall|c: (String, CalendarBusy)| c1.contains(c) <==> c2.contains(c),
        slots_exact(calendar_ranges(c1), from, to, slot_minutes, s1),
        slots_exact(calendar_ranges(c2), from, to, slot_minutes, s2),
    ensures
        s1 == s2,
{
    assert forall|r: crate::slots::BusyRange| calendar_ranges(c1).contains(r) <==> calendar_ranges(c2).contains(r) by {
        lemma_calendar_ranges_contains(c1, r);
        lemma_calendar_ranges_contains(c2, r);
        if calendar_ranges(c1).contains(r) {
            let c = choose|c: int| 0 <= c < c1.len() && proper_ranges((#[trigger] c1[c]).1.busy@).contains(r);
            assert(c1.contains(c1[c]));
            let d = choose|d: int| 0 <= d < c2.len() && c2[d] == c1[c];
            assert(proper_ranges(c2[d].1.busy@).contains(r));
        }
        if calendar_ranges(c2).contains(r) {
            let c = choose|c: int| 0 <= c < c2.len() && proper_ranges((#[trigger] c2[c]).1.busy@).contains(r);
            assert(c2.contains(c2[c]));
            let d = choose|d: int| 0 <= d < c1.len() && c1[d] == c2[c];
            assert(proper_ranges(c1[d].1.busy@).contains(r));
        }
    }
    lemma_slots_order_free(calendar_ranges(c1), calendar_ranges(c2), from, to, slot_minutes, s1, s2);
}

/// The busy range `x` is the item `b`, which ends after it starts.
pub open spec fn is_reported(b: BusyRange, x: crate::slots::BusyRange) -> bool {
    b.start.pos() < b.end.pos() && x.0 == b.start && x.1 == b.end
}

proof fn lemma_proper_ranges_contains(items: Seq<BusyRange>, x: crate::slots::BusyRange)
    ensures
        proper_ranges(items).contains(x) <==> exists|k: int| 0 <= k < items.len() && is_reported(#[trigger] items[k], x),
    decreases items.len(),
{
    if items.len() > 0 {
        let rest = items.skip(1);
        lemma_proper_ranges_contains(rest, x);
        let head: Seq<crate::slots::BusyRange> = if items[0].end.pos() > items[0].start.pos() {
            seq![(items[0].start, items[0].end)]
        } else {
            seq![]
        };
        lemma_concat_contains(head, proper_ranges(rest), x);
        if head.contains(x) {
            assert(is_reported(items[0], x));
        }
        if proper_ranges(rest).contains(x) {
            let k = choose|k: int| 0 <= k < rest.len() && is_reported(#[trigger] rest[k], x);
            assert(rest[k] == items[k + 1]);
        }
        if exists|k: int| 0 <= k < items.len() && is_reported(#[trigger] items[k], x) {
            let k = choose|k: int| 0 <= k < items.len() && is_reported(#[trigger] items[k], x);
            if k == 0 {
                assert(head[0] == x);
            } else {
                assert(rest[k - 1] == items[k]);
            }
        }
    }
}

/// The busy ranges read from a free/busy reply are exactly the busy items of
/// its calendars that end after they start, whatever their length: every
/// such item is reported, and nothing else is.
pub proof fn lemma_busy_ranges_exact(cals: Seq<(String, CalendarBusy)>)
    ensures
        forall|x: crate::slots::BusyRange|
            calendar_ranges(cals).contains(x) <==> exists|c: int, k: int|
                0 <= c < cals.len() && 0 <= k < cals[c].1.busy@.len() && is_reported(#[trigger] cals[c].1.busy@[k], x),
{
    assert forall|x: crate::slots::BusyRange|
        calendar_ranges(cals).contains(x) <==> exists|c: int, k: int|
            0 <= c < cals.len() && 0 <= k < cals[c].1.busy@.len() && is_reported(#[trigger] cals[c].1.busy@[k], x) by {
        lemma_calendar_ranges_contains(cals, x);
        if calendar_ranges(cals).contains(x) {
            let c = choose|c: int| 0 <= c < cals.len() && proper_ranges((#[trigger] cals[c]).1.busy@).contains(x);
            lemma_proper_ranges_contains(cals[c].1.busy@, x);
            let k = choose|k: int| 0 <= k < cals[c].1.busy@.len() && is_reported(#[trigger] cals[c].1.busy@[k], x);
            assert(is_reported(cals[c].1.busy@[k], x));
        }
        if exists|c: int, k: int|
            0 <= c < cals.len() && 0 <= k < cals[c].1.busy@.len() && is_reported(#[trigger] cals[c].1.busy@[k], x) {
            let (c, k) = choose|c: int, k: int|
                0 <= c < cals.len() && 0 <= k < cals[c].1.busy@.len() && is_reported(#[trigger] cals[c].1.busy@[k], x);
            lemma_proper_ranges_contains(cals[c].1.busy@, x);
            assert(proper_ranges(cals[c].1.busy@).contains(x));
        }
    }
}

} // verus!
