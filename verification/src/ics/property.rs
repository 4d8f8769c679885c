//! Content lines: `NAME;PARAM=VALUE;...:VALUE`.

use vstd::prelude::*;
use crate::text::{
    lemma_split_on_nonempty, push_chars, slice_range, split_all, split_on, split_once,
    split_once_at, to_chars, upper_all, upper_chars,
};

verus! {

/// `s` without any leading `c`.
pub open spec fn strip_lead(s: Seq<char>, c: char) -> Seq<char>
    decreases s.len(),
{
    if s.len() > 0 && s[0] == c {
        strip_lead(s.drop_first(), c)
    } else {
        s
    }
}

/// `s` without any trailing `c`.
pub open spec fn strip_trail(s: Seq<char>, c: char) -> Seq<char>
    decreases s.len(),
{
    if s.len() > 0 && s.last() == c {
        strip_trail(s.drop_last(), c)
    } else {
        s
    }
}

/// `s.trim_matches('"')`.
pub open spec fn trim_quotes(s: Seq<char>) -> Seq<char> {
    strip_trail(strip_lead(s, '"'), '"')
}

/// One parameter `k=v`: its upper-cased key and its unquoted value.
pub open spec fn param_of(p: Seq<char>) -> Option<(Seq<char>, Seq<char>)> {
    match split_once(p, '=') {
        Some((k, v)) => Some((upper_all(k), trim_quotes(v))),
        None => None,
    }
}

/// The parameters among `parts`, in order; a part without `=` is skipped.
pub open spec fn params_of(parts: Seq<Seq<char>>) -> Seq<(Seq<char>, Seq<char>)>
    decreases parts.len(),
{
    if parts.len() == 0 {
        seq![]
    } else {
        let r = params_of(parts.drop_last());
        match param_of(parts.last()) {
            Some(kv) => r.push(kv),
            None => r,
        }
    }
}

/// A content line split into its upper-cased name, its parameters and its
/// value; `None` where the line has no `:`.
pub open spec fn property_of(line: Seq<char>) -> Option<
    (Seq<char>, Seq<(Seq<char>, Seq<char>)>, Seq<char>),
> {
    match split_once(line, ':') {
        None => None,
        Some((left, value)) => {
            let parts = split_on(left, ';');
            Some((upper_all(parts[0]), params_of(parts.drop_first()), value))
        },
    }
}

/// The character sequences of a list of parameters.
pub open spec fn params_view(v: Seq<(Vec<char>, Vec<char>)>) -> Seq<(Seq<char>, Seq<char>)> {
    v.map_values(|p: (Vec<char>, Vec<char>)| (p.0@, p.1@))
}

/// A parsed content line.
pub struct Property {
    pub name: Vec<char>,
    pub params: Vec<(Vec<char>, Vec<char>)>,
    pub value: Vec<char>,
}

/// `s.trim_matches('"')`.
fn unquote(s: &[char]) -> (r: Vec<char>)
    ensures
        r@ == trim_quotes(s@),
{
    let mut lo: usize = 0;
    assert(s@.subrange(0, s@.len() as int) =~= s@);
    while lo < s.len() && s[lo] == '"'
        invariant
            lo <= s@.len(),
            strip_lead(s@, '"') == strip_lead(s@.subrange(lo as int, s@.len() as int), '"'),
        decreases s@.len() - lo,
    {
        assert(s@.subrange(lo as int, s@.len() as int).drop_first() =~= s@.subrange(
            lo + 1,
            s@.len() as int,
        ));
        lo = lo + 1;
    }
    assert(strip_lead(s@, '"') == s@.subrange(lo as int, s@.len() as int));
    let mut hi: usize = s.len();
    while hi > lo && s[hi - 1] == '"'
        invariant
            lo <= hi <= s@.len(),
            trim_quotes(s@) == strip_trail(s@.subrange(lo as int, hi as int), '"'),
        decreases hi,
    {
        assert(s@.subrange(lo as int, hi as int).drop_last() =~= s@.subrange(lo as int, hi - 1));
        hi = hi - 1;
    }
    slice_range(s, lo, hi)
}

/// Splits `NAME;K=V;...:VALUE` into its parts.
pub fn parse_property(line: &[char]) -> (r: Option<Property>)
    ensures
        match r {
            Some(p) => property_of(line@) == Some((p.name@, params_view(p.params@), p.value@)),
            None => property_of(line@) is None,
        },
{
    let (left, value) = match split_once_at(line, ':') {
        Some(lv) => lv,
        None => return None,
    };
    let parts = split_all(&left, ';');
    let ghost ps = split_on(left@, ';');
    proof {
        lemma_split_on_nonempty(left@, ';');
    }
    let name = upper_chars(&parts[0]);
    let mut params: Vec<(Vec<char>, Vec<char>)> = Vec::new();
    let mut k: usize = 1;
    while k < parts.len()
        invariant
            1 <= k <= parts@.len() == ps.len(),
            ps == split_on(left@, ';'),
            forall|i: int| 0 <= i < parts@.len() ==> (#[trigger] parts@[i])@ == ps[i],
            params_view(params@) == params_of(ps.drop_first().take(k - 1)),
        decreases parts@.len() - k,
    {
        proof {
            assert(ps.drop_first().take(k as int).drop_last() =~= ps.drop_first().take(k - 1));
            assert(ps.drop_first().take(k as int).last() == ps[k as int]);
        }
        match split_once_at(&parts[k], '=') {
            Some((key, val)) => {
                let ukey = upper_chars(&key);
                let uval = unquote(&val);
                params.push((ukey, uval));
                proof {
                    assert(params_view(params@) =~= params_of(ps.drop_first().take(k - 1)).push(
                        (ukey@, uval@),
                    ));
                }
            },
            None => {},
        }
        k = k + 1;
    }
    proof {
        assert(ps.drop_first().take(parts@.len() - 1) =~= ps.drop_first());
    }
    Some(Property { name, params, value })
}

/// The character sequences of a list of string parameters.
pub open spec fn string_params_view(v: Seq<(String, String)>) -> Seq<(Seq<char>, Seq<char>)> {
    v.map_values(|p: (String, String)| (p.0@, p.1@))
}

/// Splits `DTSTART;TZID=Europe/Paris:20260301T190000` into its name, its
/// parameters, and its value.
pub fn split_property(line: &str) -> (r: Option<(String, Vec<(String, String)>, String)>)
    ensures
        match r {
            Some((name, params, value)) => property_of(line@) == Some(
                (name@, string_params_view(params@), value@),
            ),
            None => property_of(line@) is None,
        },
{
    let chars = to_chars(line);
    let p = match parse_property(&chars) {
        Some(p) => p,
        None => return None,
    };
    let mut params: Vec<(String, String)> = Vec::new();
    let mut k: usize = 0;
    while k < p.params.len()
        invariant
            k <= p.params@.len(),
            params@.len() == k,
            string_params_view(params@) == params_view(p.params@).take(k as int),
        decreases p.params@.len() - k,
    {
        let mut key = String::new();
        push_chars(&mut key, &p.params[k].0);
        let mut val = String::new();
        push_chars(&mut val, &p.params[k].1);
        assert(key@ =~= p.params@[k as int].0@);
        assert(val@ =~= p.params@[k as int].1@);
        params.push((key, val));
        k = k + 1;
        proof {
            let a = string_params_view(params@);
            let b = params_view(p.params@).take(k as int);
            assert(a.len() == b.len());
            assert forall|i: int| 0 <= i < a.len() implies a[i] == b[i] by {
                if i < k - 1 {
                    assert(a[i] == string_params_view(params@.drop_last())[i]);
                }
            }
            assert(a =~= b);
        }
    }
    let mut name = String::new();
    push_chars(&mut name, &p.name);
    let mut value = String::new();
    push_chars(&mut value, &p.value);
    proof {
        assert(params_view(p.params@).take(p.params@.len() as int) =~= params_view(p.params@));
        assert(name@ =~= p.name@);
        assert(value@ =~= p.value@);
    }
    Some((name, params, value))
}

} // verus!
