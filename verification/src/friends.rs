//! Friends from a shared Discord server: who a sync matches, and who it
//! drops.

use vstd::prelude::*;
use crate::text::{chars_eq, to_chars};

verus! {

/// The server's members other than the syncing user, in order.
pub fn guild_candidates(member_discord_ids: &[String], own_discord_id: &str) -> (r: Vec<String>)
    ensures
        r@.map_values(|s: String| s@) == member_discord_ids@.map_values(|s: String| s@).filter(
            |s: Seq<char>| s != own_discord_id@,
        ),
{
    let ghost all = member_discord_ids@.map_values(|s: String| s@);
    let ghost p = |s: Seq<char>| s != own_discord_id@;
    let own = to_chars(own_discord_id);
    let mut r: Vec<String> = Vec::new();
    let mut k: usize = 0;
    while k < member_discord_ids.len()
        invariant
            k <= member_discord_ids@.len(),
            all == member_discord_ids@.map_values(|s: String| s@),
            p == (|s: Seq<char>| s != own_discord_id@),
            own@ == own_discord_id@,
            r@.map_values(|s: String| s@) == all.take(k as int).filter(p),
        decreases member_discord_ids@.len() - k,
    {
        proof {
            crate::text::lemma_filter_step(all, k as int, p);
        }
        let id = &member_discord_ids[k];
        if !chars_eq(&to_chars(id.as_str()), &own) {
            let ghost before = r@.map_values(|s: String| s@);
            r.push(id.clone());
            proof {
                assert(r@.map_values(|s: String| s@) =~= before.push(all[k as int]));
            }
        }
        k = k + 1;
    }
    assert(all.take(member_discord_ids@.len() as int) =~= all);
    r
}

fn contains_id(v: &[u128], x: u128) -> (b: bool)
    ensures
        b == v@.contains(x),
{
    let mut k: usize = 0;
    while k < v.len()
        invariant
            k <= v@.len(),
            forall|j: int| 0 <= j < k ==> v@[j] != x,
        decreases v@.len() - k,
    {
        if v[k] == x {
            assert(v@[k as int] == x);
            return true;
        }
        k = k + 1;
    }
    false
}

/// The friends an earlier sync made that this one no longer confirms, in
/// the order they were listed.
pub fn stale_friends(previous: &[u128], synced: &[u128]) -> (r: Vec<u128>)
    ensures
        r@ == previous@.filter(|id: u128| !synced@.contains(id)),
{
    let ghost p = |id: u128| !synced@.contains(id);
    let mut r: Vec<u128> = Vec::new();
    let mut k: usize = 0;
    while k < previous.len()
        invariant
            k <= previous@.len(),
            p == (|id: u128| !synced@.contains(id)),
            r@ == previous@.take(k as int).filter(p),
        decreases previous@.len() - k,
    {
        proof {
            crate::text::lemma_filter_step(previous@, k as int, p);
        }
        if !contains_id(synced, previous[k]) {
            r.push(previous[k]);
        }
        k = k + 1;
    }
    assert(previous@.take(previous@.len() as int) =~= previous@);
    r
}

/// A sync never drops a friend it has just confirmed, and drops only
/// friends it had before.
pub proof fn law_sync_drops_only_unconfirmed(previous: Seq<u128>, synced: Seq<u128>, id: u128)
    ensures
        previous.filter(|x: u128| !synced.contains(x)).contains(id) <==> (previous.contains(id)
            && !synced.contains(id)),
{
    let p = |x: u128| !synced.contains(x);
    let f = previous.filter(p);
    if f.contains(id) {
        previous.lemma_filter_contains_rev(p, id);
        let j = choose|j: int| 0 <= j < f.len() && #[trigger] f[j] == id;
        previous.lemma_filter_pred(p, j);
    }
    if previous.contains(id) && p(id) {
        let i = choose|i: int| 0 <= i < previous.len() && #[trigger] previous[i] == id;
        previous.lemma_filter_contains(p, i);
    }
}

/// The members a sync records for the server: the matched users and the
/// syncing user.
pub fn guild_members(matched: &[u128], me: u128) -> (r: Vec<u128>)
    ensures
        r@ == matched@.push(me),
{
    let mut r: Vec<u128> = Vec::new();
    let mut k: usize = 0;
    while k < matched.len()
        invariant
            k <= matched@.len(),
            r@ == matched@.take(k as int),
        decreases matched@.len() - k,
    {
        r.push(matched[k]);
        k = k + 1;
        assert(r@ =~= matched@.take(k as int));
    }
    r.push(me);
    assert(r@ =~= matched@.push(me));
    r
}

/// The member ids of one page of a server's member list that are people
/// rather than bots, in order.
pub open spec fn people_of(members: Seq<Option<(Seq<char>, bool)>>) -> Seq<Seq<char>>
    decreases members.len(),
{
    if members.len() == 0 {
        seq![]
    } else {
        let r = people_of(members.drop_last());
        match members.last() {
            Some((id, bot)) => if bot {
                r
            } else {
                r.push(id)
            },
            None => r,
        }
    }
}

pub open spec fn member_view(m: Option<(String, bool)>) -> Option<(Seq<char>, bool)> {
    match m {
        Some((id, bot)) => Some((id@, bot)),
        None => None,
    }
}

/// One page of the server's member list (each entry's user, where it has
/// one, with whether that user is a bot): the people on it, and where the
/// next page starts - nowhere once a page comes back short or ends on an
/// entry without a user.
pub fn member_page(members: &[Option<(String, bool)>], page_size: usize) -> (r: (
    Vec<String>,
    Option<String>,
))
    ensures
        r.0@.map_values(|s: String| s@) == people_of(members@.map_values(|m| member_view(m))),
        match r.1 {
            Some(c) => members@.len() >= page_size && members@.len() > 0 && (members@.last() matches Some(
                (id, _),
            ) && c@ == id@),
            None => members@.len() < page_size || members@.len() == 0 || members@.last() is None,
        },
{
    let ghost mv = members@.map_values(|m| member_view(m));
    let mut ids: Vec<String> = Vec::new();
    let mut k: usize = 0;
    while k < members.len()
        invariant
            k <= members@.len(),
            mv == members@.map_values(|m| member_view(m)),
            ids@.map_values(|s: String| s@) == people_of(mv.take(k as int)),
        decreases members@.len() - k,
    {
        proof {
            assert(mv.take(k + 1).drop_last() =~= mv.take(k as int));
            assert(mv.take(k + 1).last() == member_view(members@[k as int]));
        }
        match &members[k] {
            Some((id, bot)) => {
                if !*bot {
                    let ghost before = ids@.map_values(|s: String| s@);
                    ids.push(id.clone());
                    proof {
                        assert(ids@.map_values(|s: String| s@) =~= before.push(id@));
                    }
                }
            },
            None => {},
        }
        k = k + 1;
    }
    proof {
        assert(mv.take(members@.len() as int) =~= mv);
    }
    let n = members.len();
    if n < page_size || n == 0 {
        return (ids, None);
    }
    match &members[n - 1] {
        Some((id, _)) => (ids, Some(id.clone())),
        None => (ids, None),
    }
}

} // verus!
