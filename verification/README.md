# schedj

Scheduling against calendar providers: the free slots of a calendar, and
bookings that never overlap an existing event, for CalDAV servers, Google
Calendar and Microsoft Graph.

`src/` is the library, verified with Verus:

- `time`: UTC instants as plain values, and the calls into chrono that read,
  write and take them.
- `slots`: busy ranges, conflicts, and the free slots of a window, with the
  laws that every offered slot is free, that the slots are determined by the
  busy ranges, that their order and irrelevant ranges do not matter, that a
  slot length below a minute counts as a minute, and that more busy ranges
  never give more slots (where no added range ends in a leap second).
- `text`: searching, replacing, trimming, splitting and percent-encoding,
  stated over characters; percent-encoding decodes back to its bytes.
- `http`: the requests a provider asks to send and the events it is told of.
- `caldav`, `gcal`, `msft`: each provider's requests, reply parsing, and its
  operations as step functions from state and event to next state and action.
  iCalendar escaping decodes back to its text, and unfolding lines is idempotent.

`app/` performs those actions with reqwest and holds what needs serde,
thiserror or async: the JSON bodies, the error types, the
`CalendarProvider` trait and the database pool.
