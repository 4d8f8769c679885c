//! The scheduling, calendar and messaging rules of the Friends Calendar
//! backend, as a verified library.

pub mod text;
pub mod time;
pub mod availability;
pub mod ics;
pub mod calendar_feed;
pub mod models;
pub mod reminders;
pub mod nudge;
pub mod digest;
pub mod discord_announcement;
pub mod discord;
pub mod external_calendar;
pub mod notifications;
pub mod origins;
pub mod friend_requests;
pub mod api;
pub mod calendar;
pub mod friends;
pub mod config;
pub mod auth;

