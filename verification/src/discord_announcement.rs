//! The announcement posted to Discord for a new event.

use vstd::prelude::*;
use crate::models::CalendarEvent;
use crate::text::{int_decimal, push_int, push_str};

verus! {

/// Discord's own timestamp markup, rendered in each reader's zone.
pub open spec fn discord_datetime(t: int) -> Seq<char> {
    "<t:"@ + int_decimal(t) + ":F>"@
}

pub fn format_datetime(t: i64) -> (s: String)
    ensures
        s@ == discord_datetime(t as int),
{
    let mut s = String::new();
    push_str(&mut s, "<t:");
    push_int(&mut s, t);
    push_str(&mut s, ":F>");
    proof {
        assert(s@ =~= discord_datetime(t as int));
    }
    s
}

/// The announcement: a heading, one quoted line per field with the value
/// emphasised, a masked link where there is one, and the RSVP instruction.
pub open spec fn event_message(e: CalendarEvent) -> Seq<char> {
    "@everyone\n## Proposition d'activité :\n"@ + "> Date : **"@ + discord_datetime(
        e.start_time as int,
    ) + "**\n"@ + "> Activité : **"@ + e.title@ + "**\n"@ + "> Lieu : **"@ + (match e.location {
        Some(l) => l@,
        None => "Non spécifié"@,
    }) + "**\n"@ + "> Prix : **"@ + (match e.price {
        Some(p) => p@,
        None => "À définir"@,
    }) + "**\n"@ + (match e.link {
        Some(link) => "> Lien : ["@ + (match e.description {
            Some(d) => d@,
            None => "Informations"@,
        }) + "]("@ + link@ + ")\n"@,
        None => seq![],
    }) + "\n**Réagissez avec ✅ pour participer !**"@
}

/// The message announcing `event`; also what the preview shows, so the two
/// cannot drift.
pub fn format_event_message(event: &CalendarEvent) -> (s: String)
    ensures
        s@ == event_message(*event),
{
    let mut s = String::new();
    push_str(&mut s, "@everyone\n## Proposition d'activité :\n");
    push_str(&mut s, "> Date : **");
    let when = format_datetime(event.start_time);
    push_str(&mut s, when.as_str());
    push_str(&mut s, "**\n");
    push_str(&mut s, "> Activité : **");
    push_str(&mut s, event.title.as_str());
    push_str(&mut s, "**\n");
    push_str(&mut s, "> Lieu : **");
    match &event.location {
        Some(l) => push_str(&mut s, l.as_str()),
        None => push_str(&mut s, "Non spécifié"),
    }
    push_str(&mut s, "**\n");
    push_str(&mut s, "> Prix : **");
    match &event.price {
        Some(p) => push_str(&mut s, p.as_str()),
        None => push_str(&mut s, "À définir"),
    }
    push_str(&mut s, "**\n");
    let ghost mid = s@;
    match &event.link {
        Some(link) => {
            push_str(&mut s, "> Lien : [");
            match &event.description {
                Some(d) => push_str(&mut s, d.as_str()),
                None => push_str(&mut s, "Informations"),
            }
            push_str(&mut s, "](");
            push_str(&mut s, link.as_str());
            push_str(&mut s, ")\n");
        },
        None => {},
    }
    let ghost mid2 = s@;
    push_str(&mut s, "\n**Réagissez avec ✅ pour participer !**");
    proof {
        assert(mid2 =~= mid + (match event.link {
            Some(link) => "> Lien : ["@ + (match event.description {
                Some(d) => d@,
                None => "Informations"@,
            }) + "]("@ + link@ + ")\n"@,
            None => seq![],
        }));
        assert(s@ =~= event_message(*event));
    }
    s
}

} // verus!
