//! The origins the API answers cross-origin requests from.

use vstd::prelude::*;
use crate::ics::property::strip_trail;
use crate::text::{push_chars, slice_range, to_chars};

verus! {

/// A character `http::HeaderValue` accepts: visible ASCII, a tab, or any
/// non-ASCII character (whose UTF-8 bytes are all at least 0x80).
pub open spec fn header_char_ok(c: char) -> bool {
    (c as u32 >= 32 && c as u32 != 127) || c == '\t'
}

pub open spec fn header_ok(s: Seq<char>) -> bool {
    forall|i: int| 0 <= i < s.len() ==> header_char_ok(#[trigger] s[i])
}

/// Whether `s.parse::<http::HeaderValue>()` succeeds. Its source accepts
/// exactly the strings whose every byte is at least 32 and not 127, or a
/// tab, which is what the contract states over characters.
#[verifier::external_body]
fn is_header_value(s: &str) -> (b: bool)
    ensures
        b == header_ok(s@),
{
    s.parse::<axum::http::HeaderValue>().is_ok()
}

/// The origins allowed, in order: each candidate without its trailing
/// slashes, where that is a valid header value and not already listed.
pub open spec fn origins_of(cands: Seq<Seq<char>>) -> Seq<Seq<char>>
    decreases cands.len(),
{
    if cands.len() == 0 {
        seq![]
    } else {
        let acc = origins_of(cands.drop_last());
        let o = strip_trail(cands.last(), '/');
        if header_ok(o) && !acc.contains(o) {
            acc.push(o)
        } else {
            acc
        }
    }
}

/// The configured frontend, then the local development origins.
pub open spec fn origin_candidates(frontend_url: Seq<char>) -> Seq<Seq<char>> {
    seq![frontend_url, "http://localhost:1420"@, "tauri://localhost"@, "https://tauri.localhost"@]
}

/// Whether `s` lists nothing twice.
pub open spec fn no_duplicates(s: Seq<Seq<char>>) -> bool {
    forall|i: int, j: int| 0 <= i < j < s.len() ==> s[i] != s[j]
}

fn string_without_trailing_slashes(s: &str) -> (r: String)
    ensures
        r@ == strip_trail(s@, '/'),
{
    let c = to_chars(s);
    let mut hi = c.len();
    assert(c@.subrange(0, c@.len() as int) =~= c@);
    while hi > 0 && c[hi - 1] == '/'
        invariant
            hi <= c@.len(),
            c@ == s@,
            strip_trail(s@, '/') == strip_trail(c@.subrange(0, hi as int), '/'),
        decreases hi,
    {
        assert(c@.subrange(0, hi as int).drop_last() =~= c@.subrange(0, hi - 1));
        hi = hi - 1;
    }
    let kept = slice_range(&c, 0, hi);
    let mut r = String::new();
    push_chars(&mut r, &kept);
    assert(r@ =~= kept@);
    r
}

fn listed(acc: &Vec<String>, o: &String) -> (b: bool)
    ensures
        b == acc@.map_values(|x: String| x@).contains(o@),
{
    let ghost v = acc@.map_values(|x: String| x@);
    let mut k: usize = 0;
    while k < acc.len()
        invariant
            k <= acc@.len(),
            v == acc@.map_values(|x: String| x@),
            forall|j: int| 0 <= j < k ==> v[j] != o@,
        decreases acc@.len() - k,
    {
        if acc[k] == *o {
            assert(v[k as int] == o@);
            return true;
        }
        k = k + 1;
    }
    false
}

proof fn lemma_origins_distinct(cands: Seq<Seq<char>>)
    ensures
        no_duplicates(origins_of(cands)),
        forall|i: int| 0 <= i < origins_of(cands).len() ==> header_ok(#[trigger] origins_of(cands)[i]),
    decreases cands.len(),
{
    if cands.len() > 0 {
        lemma_origins_distinct(cands.drop_last());
        let acc = origins_of(cands.drop_last());
        let o = strip_trail(cands.last(), '/');
        if header_ok(o) && !acc.contains(o) {
            let r = acc.push(o);
            assert forall|i: int, j: int| 0 <= i < j < r.len() implies r[i] != r[j] by {
                if j == acc.len() {
                    assert(r[i] == acc[i]);
                    if acc[i] == o {
                        assert(acc.contains(o));
                    }
                }
            }
            assert forall|i: int| 0 <= i < r.len() implies header_ok(#[trigger] r[i]) by {
                if i < acc.len() {
                    assert(r[i] == acc[i]);
                }
            }
        }
    }
}

/// The origins allowed to call the API with credentials (which forbids
/// the `*` wildcard): a malformed configured origin is dropped rather than
/// stopping the server, and nothing is listed twice.
pub fn allowed_origins(frontend_url: &str) -> (r: Vec<String>)
    ensures
        r@.map_values(|x: String| x@) == origins_of(origin_candidates(frontend_url@)),
        no_duplicates(r@.map_values(|x: String| x@)),
        forall|i: int| 0 <= i < r@.len() ==> header_ok(#[trigger] r@[i]@),
{
    let cands: [&str; 4] = [frontend_url, "http://localhost:1420", "tauri://localhost", "https://tauri.localhost"];
    let ghost cs = origin_candidates(frontend_url@);
    let mut acc: Vec<String> = Vec::new();
    let mut k: usize = 0;
    proof {
        assert(cs.take(0) =~= Seq::<Seq<char>>::empty());
        assert(acc@.map_values(|x: String| x@) =~= Seq::<Seq<char>>::empty());
    }
    while k < 4
        invariant
            k <= 4,
            cs == origin_candidates(frontend_url@),
            forall|i: int| 0 <= i < 4 ==> (#[trigger] cands@[i])@ == cs[i],
            acc@.map_values(|x: String| x@) == origins_of(cs.take(k as int)),
        decreases 4 - k,
    {
        proof {
            assert(cs.take(k + 1).drop_last() =~= cs.take(k as int));
            assert(cs.take(k + 1).last() == cs[k as int]);
        }
        let o = string_without_trailing_slashes(cands[k]);
        if is_header_value(o.as_str()) && !listed(&acc, &o) {
            let ghost before = acc@.map_values(|x: String| x@);
            acc.push(o);
            proof {
                assert(acc@.map_values(|x: String| x@) =~= before.push(o@));
            }
        }
        k = k + 1;
    }
    proof {
        assert(cs.take(4) =~= cs);
        lemma_origins_distinct(cs);
        let v = acc@.map_values(|x: String| x@);
        assert forall|i: int| 0 <= i < acc@.len() implies header_ok(#[trigger] acc@[i]@) by {
            assert(v[i] == acc@[i]@);
        }
    }
    acc
}

} // verus!
