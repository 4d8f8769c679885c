//! Splitting an iCalendar document into its logical lines.

use vstd::prelude::*;
use crate::text::{extend_chars, lemma_split_on_nonempty, push_chars, split_all, split_on, to_chars};

verus! {

/// `s` without one trailing carriage return, if it has one.
pub open spec fn strip_cr(s: Seq<char>) -> Seq<char> {
    if s.len() > 0 && s.last() == '\r' {
        s.drop_last()
    } else {
        s
    }
}

/// The physical lines of `s`: what `s.replace("\r\n", "\n").split('\n')`
/// yields. Every line but the last ended in a line feed, and loses the
/// carriage return that stood right before it.
pub open spec fn crlf_lines(s: Seq<char>) -> Seq<Seq<char>> {
    let parts = split_on(s, '\n');
    Seq::new(
        parts.len(),
        |i: int|
            if i + 1 < parts.len() {
                strip_cr(parts[i])
            } else {
                parts[i]
            },
    )
}

/// Whether a physical line continues the previous one (RFC 5545 folding).
pub open spec fn is_continuation(x: Seq<char>) -> bool {
    x.len() > 0 && (x[0] == ' ' || x[0] == '\t')
}

/// The logical lines of the physical lines `raws`: a line that starts with
/// a space or a tab is glued, without that first character, to the line
/// before it, if there is one.
pub open spec fn unfold_lines(raws: Seq<Seq<char>>) -> Seq<Seq<char>>
    decreases raws.len(),
{
    if raws.len() == 0 {
        seq![]
    } else {
        let prev = unfold_lines(raws.drop_last());
        let x = raws.last();
        if prev.len() > 0 && is_continuation(x) {
            prev.update(prev.len() - 1, prev.last() + x.drop_first())
        } else {
            prev.push(x)
        }
    }
}

/// The logical lines of the document `s`.
pub open spec fn ics_lines(s: Seq<char>) -> Seq<Seq<char>> {
    unfold_lines(crlf_lines(s))
}

fn copy_without(s: &[char], drop_first: bool, drop_cr: bool) -> (r: Vec<char>)
    requires
        drop_first ==> s@.len() > 0,
    ensures
        r@ == (if drop_cr { strip_cr(if drop_first { s@.drop_first() } else { s@ }) } else {
            if drop_first { s@.drop_first() } else { s@ }
        }),
{
    let lo: usize = if drop_first { 1 } else { 0 };
    let mut hi: usize = s.len();
    if drop_cr && hi > lo && s[hi - 1] == '\r' {
        hi = hi - 1;
    }
    let mut r: Vec<char> = Vec::new();
    let mut k = lo;
    while k < hi
        invariant
            lo <= k <= hi <= s@.len(),
            r@ == s@.subrange(lo as int, k as int),
        decreases hi - k,
    {
        r.push(s[k]);
        k = k + 1;
        assert(r@ =~= s@.subrange(lo as int, k as int));
    }
    proof {
        let base = if drop_first { s@.drop_first() } else { s@ };
        assert(base =~= s@.subrange(lo as int, s@.len() as int));
        if drop_cr && base.len() > 0 && base.last() == '\r' {
            assert(r@ =~= base.drop_last());
        } else {
            assert(r@ =~= base);
        }
    }
    r
}

/// The logical lines of `input`, as character vectors.
pub fn unfold_chars(input: &[char]) -> (lines: Vec<Vec<char>>)
    ensures
        lines@.len() == ics_lines(input@).len(),
        forall|i: int| 0 <= i < lines@.len() ==> (#[trigger] lines@[i])@ == ics_lines(input@)[i],
{
    let parts = split_all(input, '\n');
    let ghost raws = crlf_lines(input@);
    proof {
        lemma_split_on_nonempty(input@, '\n');
    }
    let mut lines: Vec<Vec<char>> = Vec::new();
    let mut k: usize = 0;
    while k < parts.len()
        invariant
            k <= parts@.len() == raws.len(),
            raws == crlf_lines(input@),
            parts@.len() == split_on(input@, '\n').len(),
            forall|i: int| 0 <= i < parts@.len() ==> (#[trigger] parts@[i])@ == split_on(input@, '\n')[i],
            lines@.len() == unfold_lines(raws.take(k as int)).len(),
            forall|i: int|
                0 <= i < lines@.len() ==> (#[trigger] lines@[i])@ == unfold_lines(raws.take(k as int))[i],
        decreases parts@.len() - k,
    {
        let last = k + 1 == parts.len();
        let part = &parts[k];
        let cont = part.len() > 0 && (part[0] == ' ' || part[0] == '\t');
        proof {
            assert(raws.take(k + 1).drop_last() =~= raws.take(k as int));
            assert(raws.take(k + 1).last() == raws[k as int]);
            assert(raws[k as int] == (if !last { strip_cr(part@) } else { part@ }));
        }
        if cont && lines.len() > 0 {
            let rest = copy_without(part, true, !last);
            let n = lines.len();
            let mut joined = lines[n - 1].clone();
            let ghost before = joined@;
            extend_chars(&mut joined, &rest);
            proof {
                assert(strip_cr(part@).len() > 0 ==> strip_cr(part@)[0] == part@[0]);
                if !last {
                    if part@.len() > 0 && part@.last() == '\r' && part@.len() > 1 {
                        assert(strip_cr(part@).drop_first() =~= strip_cr(part@.drop_first()));
                    } else if part@.len() == 1 && part@.last() == '\r' {
                        assert(false);
                    } else {
                        assert(strip_cr(part@.drop_first()) =~= part@.drop_first());
                    }
                }
            }
            lines.set(n - 1, joined);
        } else {
            let whole = copy_without(part, false, !last);
            proof {
                if !last && part@.len() > 0 && part@.last() == '\r' && part@.len() == 1 {
                    assert(strip_cr(part@).len() == 0);
                }
            }
            lines.push(whole);
        }
        k = k + 1;
        proof {
            let u = unfold_lines(raws.take(k as int));
            assert(lines@.len() == u.len());
            assert forall|i: int| 0 <= i < lines@.len() implies (#[trigger] lines@[i])@ == u[i] by {}
        }
    }
    proof {
        assert(raws.take(parts@.len() as int) =~= raws);
    }
    lines
}

/// Undoes RFC 5545 line folding: CRLF (or LF) followed by a single space or
/// tab continues the previous line.
pub fn unfold(input: &str) -> (lines: Vec<String>)
    ensures
        lines@.len() == ics_lines(input@).len(),
        forall|i: int| 0 <= i < lines@.len() ==> (#[trigger] lines@[i])@ == ics_lines(input@)[i],
{
    let chars = to_chars(input);
    let raw = unfold_chars(&chars);
    let mut out: Vec<String> = Vec::new();
    let mut k: usize = 0;
    while k < raw.len()
        invariant
            k <= raw@.len(),
            raw@.len() == ics_lines(input@).len(),
            chars@ == input@,
            forall|i: int| 0 <= i < raw@.len() ==> (#[trigger] raw@[i])@ == ics_lines(input@)[i],
            out@.len() == k,
            forall|i: int| 0 <= i < k ==> (#[trigger] out@[i])@ == ics_lines(input@)[i],
        decreases raw@.len() - k,
    {
        let mut s = String::new();
        push_chars(&mut s, &raw[k]);
        proof {
            assert(s@ =~= raw@[k as int]@);
        }
        out.push(s);
        k = k + 1;
    }
    out
}

} // verus!
