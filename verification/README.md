# friends_calendar

The backend of a small calendar that a group of friends shares through a
Discord server: events with invitations and RSVPs, a subscribable `.ics`
feed, imported busy times from other calendars, "when could we meet"
suggestions, reminders, nudges and a weekly digest.

The crate is in two parts.

- `src/` is the verified library. It holds the rules: the `.ics`
  reader (line unfolding, properties, dates and time zones, `RRULE`
  expansion, busy intervals inside a window), the feed writer (escaping,
  75-octet line folding, the whole `VCALENDAR` document), availability and
  slot ranking, reminder, nudge and digest timing, friend-request
  decisions, configuration defaults, allowed CORS origins, and the texts
  the server posts. Each public function states what it returns in its
  contract, and the properties that span several calls stand as public
  proof functions named `law_*`.
- `app/` is a partial server around it: configuration from the
  environment, Discord login, a subset of the HTTP routes (profile, the
  feed and its link, imported calendars, best slot, creating and editing
  events, nudges, friend requests), the SQL those need, posting to
  Discord, and the background loops. It hands the library plain values
  and acts on what comes back. The Discord gateway bot and the
  announcement, guild and notification-list routes are not part of it.

Instants are whole seconds since the Unix epoch in UTC and identifiers are
`u128` throughout the library; `app/convert.rs` maps them to and from
`chrono` and `uuid`.

The tests under `tests/` exercise the library with the real outside
crates linked.
