//! Scheduling logic for calendar providers: timestamps, free-slot computation,
//! and the request/response handling of the CalDAV, Google Calendar and
//! Microsoft Graph providers.

pub mod time;
pub mod slots;
pub mod text;
pub mod caldav;
pub mod http;
pub mod gcal;
pub mod msft;
