//! The subscribable `.ics` feed: escaping, folding and the document itself.
//! A malformed feed fails silently - the calendar app subscribes and shows
//! nothing - so every rule of the format is stated and proved here.

use vstd::prelude::*;
use rand::RngCore;
use crate::ics::lines::{crlf_lines, ics_lines, is_continuation, strip_cr, unfold_lines};
use crate::text::{lemma_split_on_nonempty, split_on, byte_len, byte_len_of, char_utf8_len, push_chars, push_str, to_chars, utf8_len};
use crate::time::representable;
use crate::models::{CalendarEvent, EventWithParticipants};

verus! {

/// How `c` is written in an RFC 5545 TEXT value.
pub open spec fn escape_char(c: char) -> Seq<char> {
    if c == '\\' {
        seq!['\\', '\\']
    } else if c == ';' {
        seq!['\\', ';']
    } else if c == ',' {
        seq!['\\', ',']
    } else if c == '\n' || c == '\r' {
        seq!['\\', 'n']
    } else {
        seq![c]
    }
}

/// `s` escaped as an RFC 5545 TEXT value: backslash, semicolon and comma
/// get a backslash; a CRLF pair, a lone LF and a lone CR each become the
/// two characters `\n`.
pub open spec fn escaped(s: Seq<char>) -> Seq<char>
    decreases s.len(),
{
    if s.len() == 0 {
        seq![]
    } else if s.len() >= 2 && s[0] == '\r' && s[1] == '\n' {
        seq!['\\', 'n'] + escaped(s.skip(2))
    } else {
        escape_char(s[0]) + escaped(s.drop_first())
    }
}

/// Escapes a TEXT value per RFC 5545 §3.3.11.
pub fn escape_text(value: &str) -> (r: String)
    ensures
        r@ == escaped(value@),
{
    let s = to_chars(value);
    let mut out = String::new();
    let mut i: usize = 0;
    proof {
        assert(s@.skip(0) =~= s@);
    }
    while i < s.len()
        invariant
            i <= s@.len(),
            s@ == value@,
            out@ + escaped(s@.skip(i as int)) == escaped(s@),
        decreases s@.len() - i,
    {
        let ghost rest = s@.skip(i as int);
        let c = s[i];
        if c == '\r' && i + 1 < s.len() && s[i + 1] == '\n' {
            out.push('\\');
            out.push('n');
            proof {
                assert(rest.skip(2) =~= s@.skip(i + 2));
                assert(out@ + escaped(s@.skip(i + 2)) =~= escaped(s@));
            }
            i = i + 2;
        } else {
            if c == '\\' {
                out.push('\\');
                out.push('\\');
            } else if c == ';' {
                out.push('\\');
                out.push(';');
            } else if c == ',' {
                out.push('\\');
                out.push(',');
            } else if c == '\n' || c == '\r' {
                out.push('\\');
                out.push('n');
            } else {
                out.push(c);
            }
            proof {
                assert(rest.drop_first() =~= s@.skip(i + 1));
                assert(out@ + escaped(s@.skip(i + 1)) =~= escaped(s@));
            }
            i = i + 1;
        }
    }
    proof {
        assert(s@.skip(s@.len() as int) =~= seq![]);
        assert(out@ + seq![] =~= out@);
    }
    out
}

/// Reads an escaped TEXT value back: `\\`, `\;` and `\,` give the
/// character after the backslash, `\n` gives a line feed, and anything
/// else stands for itself.
pub open spec fn unescaped(s: Seq<char>) -> Seq<char>
    decreases s.len(),
{
    if s.len() == 0 {
        seq![]
    } else if s.len() >= 2 && s[0] == '\\' && (s[1] == '\\' || s[1] == ';' || s[1] == ',') {
        seq![s[1]] + unescaped(s.skip(2))
    } else if s.len() >= 2 && s[0] == '\\' && s[1] == 'n' {
        seq!['\n'] + unescaped(s.skip(2))
    } else {
        seq![s[0]] + unescaped(s.drop_first())
    }
}

/// Escaping loses nothing and leaves no line break: reading the escaped
/// text back gives the value again (for a value without carriage returns,
/// which escaping folds into line feeds), and the escaped text fits on
/// one content line. Backslash is escaped too, so an added escape is never
/// read as part of another.
pub proof fn law_escape_round_trip(value: Seq<char>)
    requires
        forall|i: int| 0 <= i < value.len() ==> #[trigger] value[i] != '\r',
    ensures
        unescaped(escaped(value)) == value,
        no_break(escaped(value)),
    decreases value.len(),
{
    if value.len() > 0 {
        let c = value[0];
        let tail = value.drop_first();
        assert forall|i: int| 0 <= i < tail.len() implies #[trigger] tail[i] != '\r' by {
            assert(tail[i] == value[i + 1]);
        }
        law_escape_round_trip(tail);
        let rest = escaped(tail);
        assert(escaped(value) == escape_char(c) + rest);
        let e = escape_char(c) + rest;
        if c == '\\' || c == ';' || c == ',' || c == '\n' {
            assert(e.skip(2) =~= rest);
        } else {
            assert(e.drop_first() =~= rest);
        }
        assert(unescaped(e) =~= value);
        assert forall|i: int| 0 <= i < e.len() implies e[i] != '\n' && e[i] != '\r' by {
            if i >= escape_char(c).len() {
                assert(e[i] == rest[i - escape_char(c).len()]);
            }
        }
    } else {
        assert(escaped(value) =~= seq![]);
        assert(unescaped(seq![]) =~= value);
    }
}

/// The octet length of a content line.
pub const LINE_LIMIT: usize = 75;

/// How many leading characters of `s` fit in `budget` octets.
pub open spec fn prefix_fit(s: Seq<char>, budget: int) -> int
    decreases s.len(),
{
    if s.len() == 0 || utf8_len(s[0]) > budget {
        0
    } else {
        1 + prefix_fit(s.drop_first(), budget - utf8_len(s[0]))
    }
}

/// `s` folded with a first line of at most `limit` octets: where it is
/// longer, as many whole characters as fit, then CRLF and a space, then
/// the rest folded at 74 octets (the space takes the 75th).
pub open spec fn fold_from(s: Seq<char>, limit: int) -> Seq<char>
    decreases s.len(),
{
    if byte_len(s) <= limit {
        s
    } else {
        let k = prefix_fit(s, limit);
        proof {
            lemma_prefix_fit(s, limit);
        }
        if k <= 0 {
            s
        } else {
            s.take(k) + seq!['\r', '\n', ' '] + fold_from(s.skip(k), 74)
        }
    }
}

/// A content line folded to 75 octets (RFC 5545 §3.1).
pub open spec fn folded(line: Seq<char>) -> Seq<char> {
    fold_from(line, 75)
}

pub proof fn lemma_utf8_len_range(c: char)
    ensures
        1 <= utf8_len(c) <= 4,
{
}

/// `byte_len` counted from the front.
pub proof fn lemma_byte_len_first(s: Seq<char>)
    requires
        s.len() > 0,
    ensures
        byte_len(s) == utf8_len(s[0]) + byte_len(s.drop_first()),
    decreases s.len(),
{
    if s.len() > 1 {
        lemma_byte_len_first(s.drop_last());
        assert(s.drop_last().drop_first() =~= s.drop_first().drop_last());
        assert(s.drop_first().last() == s.last());
        assert(s.drop_last()[0] == s[0]);
        assert(byte_len(s.drop_first()) == byte_len(s.drop_first().drop_last()) + utf8_len(s.drop_first().last()));
        assert(byte_len(s) == byte_len(s.drop_last()) + utf8_len(s.last()));
    } else {
        assert(s.drop_first().len() == 0);
        assert(s.drop_last().len() == 0);
        assert(byte_len(s.drop_first()) == 0);
        assert(byte_len(s.drop_last()) == 0);
        assert(s.last() == s[0]);
    }
}

pub proof fn lemma_byte_len_concat(a: Seq<char>, b: Seq<char>)
    ensures
        byte_len(a + b) == byte_len(a) + byte_len(b),
    decreases b.len(),
{
    if b.len() > 0 {
        lemma_byte_len_concat(a, b.drop_last());
        assert((a + b).drop_last() =~= a + b.drop_last());
    } else {
        assert(a + b =~= a);
    }
}

/// The characters counted by `prefix_fit` fit, and one more would not.
pub proof fn lemma_prefix_fit(s: Seq<char>, budget: int)
    ensures
        0 <= prefix_fit(s, budget) <= s.len(),
        budget >= 0 ==> byte_len(s.take(prefix_fit(s, budget))) <= budget,
        prefix_fit(s, budget) < s.len() ==> byte_len(s.take(prefix_fit(s, budget) + 1)) > budget,
        budget >= 4 && s.len() > 0 ==> prefix_fit(s, budget) >= 1,
    decreases s.len(),
{
    lemma_utf8_len_range(if s.len() > 0 { s[0] } else { 'a' });
    if s.len() == 0 {
        assert(s.take(0) =~= seq![]);
    } else if utf8_len(s[0]) > budget {
        assert(s.take(0) =~= seq![]);
        assert(s.take(1) =~= seq![s[0]]);
        lemma_byte_len_first(s.take(1));
        assert(s.take(1).drop_first() =~= seq![]);
    } else {
        let t = s.drop_first();
        let b = budget - utf8_len(s[0]);
        lemma_prefix_fit(t, b);
        let k = prefix_fit(t, b);
        assert(s.take(k + 1).drop_first() =~= t.take(k));
        lemma_byte_len_first(s.take(k + 1));
        if k < t.len() {
            assert(s.take(k + 2).drop_first() =~= t.take(k + 1));
            lemma_byte_len_first(s.take(k + 2));
        }
    }
}

/// How many characters of `s[pos..]` fit in `budget` octets.
fn fit_count(s: &[char], pos: usize, budget: usize) -> (k: usize)
    requires
        pos <= s@.len(),
    ensures
        k as int == prefix_fit(s@.skip(pos as int), budget as int),
        pos + k <= s@.len(),
{
    let mut j = pos;
    let mut used: usize = 0;
    while j < s.len() && char_utf8_len(s[j]) <= budget - used
        invariant
            pos <= j <= s@.len(),
            used <= budget,
            prefix_fit(s@.skip(pos as int), budget as int) == (j - pos) + prefix_fit(
                s@.skip(j as int),
                budget - used,
            ),
        decreases s@.len() - j,
    {
        proof {
            assert(s@.skip(j as int).drop_first() =~= s@.skip(j + 1));
        }
        used = used + char_utf8_len(s[j]);
        j = j + 1;
    }
    proof {
        if j < s@.len() {
            assert(s@.skip(j as int)[0] == s@[j as int]);
        }
        lemma_prefix_fit(s@.skip(pos as int), budget as int);
    }
    j - pos
}

/// Folds a content line to 75 octets, continuations starting with one
/// space (RFC 5545 §3.1). Octets, not characters: a multi-byte character
/// is never cut.
pub fn fold(line: &str) -> (r: String)
    ensures
        r@ == folded(line@),
{
    let s = to_chars(line);
    let n = s.len();
    let mut out = String::new();
    let mut pos: usize = 0;
    let mut limit: usize = LINE_LIMIT;
    proof {
        assert(s@.skip(0) =~= s@);
    }
    loop
        invariant
            pos <= n == s@.len(),
            s@ == line@,
            limit == 75 || limit == 74,
            out@ + fold_from(s@.skip(pos as int), limit as int) == folded(line@),
        decreases n - pos,
    {
        let rest_len = byte_len_of(&s, pos, n);
        proof {
            assert(s@.subrange(pos as int, n as int) =~= s@.skip(pos as int));
        }
        if rest_len <= limit as u128 {
            let ghost before = out@;
            let mut k = pos;
            while k < n
                invariant
                    pos <= k <= n == s@.len(),
                    out@ == before + s@.subrange(pos as int, k as int),
                decreases n - k,
            {
                out.push(s[k]);
                k = k + 1;
                assert(out@ =~= before + s@.subrange(pos as int, k as int));
            }
            return out;
        }
        let k = fit_count(&s, pos, limit);
        proof {
            lemma_prefix_fit(s@.skip(pos as int), limit as int);
        }
        let ghost before = out@;
        let mut j = pos;
        while j < pos + k
            invariant
                pos <= j <= pos + k <= n == s@.len(),
                out@ == before + s@.subrange(pos as int, j as int),
            decreases pos + k - j,
        {
            out.push(s[j]);
            j = j + 1;
            assert(out@ =~= before + s@.subrange(pos as int, j as int));
        }
        out.push('\r');
        out.push('\n');
        out.push(' ');
        proof {
            let rest = s@.skip(pos as int);
            assert(rest.take(k as int) =~= s@.subrange(pos as int, (pos + k) as int));
            assert(rest.skip(k as int) =~= s@.skip((pos + k) as int));
            assert(fold_from(rest, limit as int) == rest.take(k as int) + seq!['\r', '\n', ' ']
                + fold_from(rest.skip(k as int), 74));
            assert(out@ + fold_from(s@.skip((pos + k) as int), 74) =~= before + fold_from(
                rest,
                limit as int,
            ));
        }
        pos = pos + k;
        limit = LINE_LIMIT - 1;
    }
}

/// The physical lines a fold makes of `s`, before the CRLF-and-space
/// separators go between them.
pub open spec fn fold_parts(s: Seq<char>, limit: int) -> Seq<Seq<char>>
    decreases s.len(),
{
    if byte_len(s) <= limit {
        seq![s]
    } else {
        let k = prefix_fit(s, limit);
        proof {
            lemma_prefix_fit(s, limit);
        }
        if k <= 0 {
            seq![s]
        } else {
            seq![s.take(k)] + fold_parts(s.skip(k), 74)
        }
    }
}

/// `parts` joined by CRLF and a space.
pub open spec fn join_folded(parts: Seq<Seq<char>>) -> Seq<char>
    decreases parts.len(),
{
    if parts.len() == 0 {
        seq![]
    } else if parts.len() == 1 {
        parts[0]
    } else {
        parts[0] + seq!['\r', '\n', ' '] + join_folded(parts.drop_first())
    }
}

proof fn lemma_fold_parts(s: Seq<char>, limit: int)
    requires
        limit >= 74,
    ensures
        fold_from(s, limit) == join_folded(fold_parts(s, limit)),
        fold_parts(s, limit).flatten() == s,
        fold_parts(s, limit).len() >= 1,
        byte_len(fold_parts(s, limit)[0]) <= limit,
        forall|i: int| 1 <= i < fold_parts(s, limit).len() ==> byte_len(
            #[trigger] fold_parts(s, limit)[i],
        ) <= 74,
    decreases s.len(),
{
    if byte_len(s) <= limit {
        assert(seq![s].drop_first() =~= Seq::<Seq<char>>::empty());
        assert(seq![s].drop_first().flatten() =~= Seq::<char>::empty());
        assert(seq![s].flatten() =~= s);
    } else {
        let k = prefix_fit(s, limit);
        lemma_prefix_fit(s, limit);
        assert(s.len() > 0) by {
            if s.len() == 0 {
                assert(byte_len(s) == 0);
            }
        }
        let rest = s.skip(k);
        lemma_fold_parts(rest, 74);
        let parts = fold_parts(s, limit);
        assert(parts == seq![s.take(k)] + fold_parts(rest, 74));
        assert(parts.drop_first() =~= fold_parts(rest, 74));
        assert(parts[0] == s.take(k));
        assert(s.take(k) + rest =~= s);
        assert forall|i: int| 1 <= i < parts.len() implies byte_len(#[trigger] parts[i]) <= 74 by {
            assert(parts[i] == fold_parts(rest, 74)[i - 1]);
        }
    }
}

/// What folding promises: the folded line is its pieces joined by CRLF and
/// a space; the pieces put back together are the line itself; the first
/// piece takes at most 75 octets and every other at most 74, so with its
/// leading space no physical line exceeds 75 octets.
pub proof fn law_fold_keeps_lines_short(line: Seq<char>)
    ensures
        folded(line) == join_folded(fold_parts(line, 75)),
        fold_parts(line, 75).flatten() == line,
        byte_len(fold_parts(line, 75)[0]) <= 75,
        forall|i: int| 1 <= i < fold_parts(line, 75).len() ==> byte_len(
            #[trigger] fold_parts(line, 75)[i],
        ) + 1 <= 75,
{
    lemma_fold_parts(line, 75);
}

/// Whether `s` holds neither a line feed nor a carriage return.
pub open spec fn no_break(s: Seq<char>) -> bool {
    forall|i: int| 0 <= i < s.len() ==> s[i] != '\n' && s[i] != '\r'
}

/// Whether every line feed in `s` comes right after a carriage return.
pub open spec fn crlf_only(s: Seq<char>) -> bool {
    forall|i: int| 0 <= i < s.len() && #[trigger] s[i] == '\n' ==> i > 0 && s[i - 1] == '\r'
}

/// Whether `s` does not start with a line feed.
pub open spec fn no_lead_lf(s: Seq<char>) -> bool {
    s.len() == 0 || s[0] != '\n'
}

pub proof fn lemma_crlf_concat(a: Seq<char>, b: Seq<char>)
    requires
        crlf_only(a),
        crlf_only(b),
        no_lead_lf(b),
    ensures
        crlf_only(a + b),
{
    let c = a + b;
    assert forall|i: int| 0 <= i < c.len() && #[trigger] c[i] == '\n' implies i > 0 && c[i - 1] == '\r' by {
        if i < a.len() {
            assert(a[i] == '\n');
        } else {
            assert(b[i - a.len()] == '\n');
            assert(i - a.len() > 0);
            assert(c[i - 1] == b[i - a.len() - 1]);
        }
    }
}

pub proof fn lemma_no_break_concat(a: Seq<char>, b: Seq<char>)
    requires
        no_break(a),
        no_break(b),
    ensures
        no_break(a + b),
{
    assert forall|i: int| 0 <= i < (a + b).len() implies (a + b)[i] != '\n' && (a + b)[i] != '\r' by {
        if i < a.len() {
            assert((a + b)[i] == a[i]);
        } else {
            assert((a + b)[i] == b[i - a.len()]);
        }
    }
}

/// An escaped TEXT value never holds a line break.
pub proof fn lemma_escaped_no_break(s: Seq<char>)
    ensures
        no_break(escaped(s)),
    decreases s.len(),
{
    if s.len() == 0 {
    } else if s.len() >= 2 && s[0] == '\r' && s[1] == '\n' {
        lemma_escaped_no_break(s.skip(2));
        lemma_no_break_concat(seq!['\\', 'n'], escaped(s.skip(2)));
    } else {
        lemma_escaped_no_break(s.drop_first());
        lemma_no_break_concat(escape_char(s[0]), escaped(s.drop_first()));
    }
}

/// Folding a line without breaks adds only CRLF-and-space separators.
pub proof fn lemma_fold_from_crlf(s: Seq<char>, limit: int)
    requires
        no_break(s),
    ensures
        crlf_only(fold_from(s, limit)),
        no_lead_lf(fold_from(s, limit)),
    decreases s.len(),
{
    if byte_len(s) <= limit {
    } else {
        let k = prefix_fit(s, limit);
        lemma_prefix_fit(s, limit);
        if k > 0 {
            let rest = s.skip(k);
            assert(no_break(rest)) by {
                assert forall|i: int| 0 <= i < rest.len() implies rest[i] != '\n' && rest[i] != '\r' by {
                    assert(rest[i] == s[i + k]);
                }
            }
            assert(no_break(s.take(k))) by {
                assert forall|i: int| 0 <= i < s.take(k).len() implies s.take(k)[i] != '\n' && s.take(k)[i] != '\r' by {
                    assert(s.take(k)[i] == s[i]);
                }
            }
            lemma_fold_from_crlf(rest, 74);
            let sep = seq!['\r', '\n', ' '];
            assert(crlf_only(sep));
            assert(crlf_only(s.take(k)));
            lemma_crlf_concat(s.take(k), sep);
            lemma_crlf_concat(s.take(k) + sep, fold_from(rest, 74));
            assert((s.take(k) + sep)[0] == s[0]);
        }
    }
}

/// CRLF.
pub open spec fn crlf() -> Seq<char> {
    seq!['\r', '\n']
}

/// One content line of the document: folded, then ended by CRLF.
pub open spec fn line_doc(l: Seq<char>) -> Seq<char> {
    folded(l) + crlf()
}

/// The text `DateTime::<Utc>::format("%Y%m%dT%H%M%SZ")` writes for the
/// instant `t`.
pub uninterp spec fn utc_stamp(t: int) -> Seq<char>;

/// The sixteen bytes of `id`, most significant first, as
/// `uuid::Uuid::from_u128` lays them out.
pub open spec fn uuid_bytes(id: u128) -> Seq<u8> {
    Seq::new(16, |k: int| ((id >> (8 * (15 - k)) as u128) & 0xff) as u8)
}

/// The hyphenated lower-case text of the UUID `id`: its bytes in hex, in
/// groups of 4, 2, 2, 2 and 6 bytes joined by hyphens.
pub open spec fn uuid_text(id: u128) -> Seq<char> {
    let b = uuid_bytes(id);
    hex_of(b.subrange(0, 4)) + "-"@ + hex_of(b.subrange(4, 6)) + "-"@ + hex_of(b.subrange(6, 8))
        + "-"@ + hex_of(b.subrange(8, 10)) + "-"@ + hex_of(b.subrange(10, 16))
}

/// `DateTime::<Utc>::format("%Y%m%dT%H%M%SZ")` of the instant `t`. The
/// contract claims the named result, and, as the format's documentation
/// describes it (digits, a sign for years past four digits, and the
/// literal `T` and `Z`), that it holds no line break.
#[verifier::external_body]
fn format_utc(t: i64) -> (s: String)
    requires
        representable(t as int),
    ensures
        s@ == utc_stamp(t as int),
        no_break(s@),
{
    let at = chrono::DateTime::from_timestamp(t, 0).unwrap_or_default();
    at.format("%Y%m%dT%H%M%SZ").to_string()
}

/// `uuid::Uuid::from_u128(id).to_string()`: the contract claims the
/// hyphenated lower-case hex of the big-endian bytes, which is how the
/// crate lays out and formats a UUID.
#[verifier::external_body]
fn uuid_string(id: u128) -> (s: String)
    ensures
        s@ == uuid_text(id),
{
    uuid::Uuid::from_u128(id).to_string()
}

proof fn lemma_uuid_text_no_break(id: u128)
    ensures
        no_break(uuid_text(id)),
{
    let b = uuid_bytes(id);
    reveal_strlit("-");
    lemma_hex_of(b.subrange(0, 4));
    lemma_hex_of(b.subrange(4, 6));
    lemma_hex_of(b.subrange(6, 8));
    lemma_hex_of(b.subrange(8, 10));
    lemma_hex_of(b.subrange(10, 16));
    let parts = seq![
        hex_of(b.subrange(0, 4)),
        "-"@,
        hex_of(b.subrange(4, 6)),
        "-"@,
        hex_of(b.subrange(6, 8)),
        "-"@,
        hex_of(b.subrange(8, 10)),
        "-"@,
        hex_of(b.subrange(10, 16)),
    ];
    assert forall|k: int| 0 <= k < 9 implies no_break(#[trigger] parts[k]) by {
        let x = parts[k];
        assert forall|i: int| 0 <= i < x.len() implies x[i] != '\n' && x[i] != '\r' by {
            if k % 2 == 0 {
                assert(is_hex_lower(x[i]));
            }
        }
    }
    lemma_no_break_concat(parts[0], parts[1]);
    lemma_no_break_concat(parts[0] + parts[1], parts[2]);
    lemma_no_break_concat(parts[0] + parts[1] + parts[2], parts[3]);
    lemma_no_break_concat(parts[0] + parts[1] + parts[2] + parts[3], parts[4]);
    lemma_no_break_concat(parts[0] + parts[1] + parts[2] + parts[3] + parts[4], parts[5]);
    lemma_no_break_concat(parts[0] + parts[1] + parts[2] + parts[3] + parts[4] + parts[5], parts[6]);
    lemma_no_break_concat(
        parts[0] + parts[1] + parts[2] + parts[3] + parts[4] + parts[5] + parts[6],
        parts[7],
    );
    lemma_no_break_concat(
        parts[0] + parts[1] + parts[2] + parts[3] + parts[4] + parts[5] + parts[6] + parts[7],
        parts[8],
    );
}

/// The description a feed event shows: its description, then its link on
/// a line of its own (or alone when there is no description).
pub open spec fn description_of(e: CalendarEvent) -> Seq<char> {
    let d = match e.description {
        Some(d) => d@,
        None => seq![],
    };
    match e.link {
        Some(l) => if d.len() > 0 {
            d.push('\n') + l@
        } else {
            l@
        },
        None => d,
    }
}

/// The lines of one event, each folded and ended by CRLF.
pub open spec fn event_doc(e: CalendarEvent, app_url: Seq<char>) -> Seq<char> {
    line_doc("BEGIN:VEVENT"@) + line_doc("UID:"@ + uuid_text(e.id) + "@friends-calendar"@)
        + line_doc("DTSTAMP:"@ + utc_stamp(e.updated_at as int)) + line_doc(
        "DTSTART:"@ + utc_stamp(e.start_time as int),
    ) + line_doc("DTEND:"@ + utc_stamp(e.end_time as int)) + line_doc(
        "SUMMARY:"@ + escaped(e.title@),
    ) + (if description_of(e).len() > 0 {
        line_doc("DESCRIPTION:"@ + escaped(description_of(e)))
    } else {
        seq![]
    }) + (match e.location {
        Some(l) => line_doc("LOCATION:"@ + escaped(l@)),
        None => seq![],
    }) + line_doc("URL:"@ + app_url + "/"@) + line_doc("END:VEVENT"@)
}

pub open spec fn events_doc(events: Seq<EventWithParticipants>, app_url: Seq<char>) -> Seq<char>
    decreases events.len(),
{
    if events.len() == 0 {
        seq![]
    } else {
        events_doc(events.drop_last(), app_url) + event_doc(events.last().event, app_url)
    }
}

/// The calendar's opening lines.
pub open spec fn header_doc() -> Seq<char> {
    line_doc("BEGIN:VCALENDAR"@) + line_doc("VERSION:2.0"@) + line_doc(
        "PRODID:-//Friends Calendar//EN"@,
    ) + line_doc("CALSCALE:GREGORIAN"@) + line_doc("METHOD:PUBLISH"@) + line_doc(
        "X-WR-CALNAME:Friends Calendar"@,
    )
}

/// The whole feed document for `events`.
pub open spec fn feed_document(events: Seq<EventWithParticipants>, app_url: Seq<char>) -> Seq<char> {
    header_doc() + events_doc(events, app_url) + line_doc("END:VCALENDAR"@)
}

/// Appends one content line, folded and ended by CRLF. Where the line
/// holds no break, what was CRLF-only stays so.
fn emit_line(out: &mut String, line: &String)
    ensures
        final(out)@ == old(out)@ + line_doc(line@),
        crlf_only(old(out)@) && no_break(line@) ==> crlf_only(final(out)@),
{
    let ghost before = out@;
    let f = fold(line.as_str());
    push_str(out, f.as_str());
    out.push('\r');
    out.push('\n');
    proof {
        assert(out@ =~= before + line_doc(line@));
        if crlf_only(before) && no_break(line@) {
            lemma_fold_from_crlf(line@, 75);
            assert(crlf_only(crlf()));
            lemma_crlf_concat(folded(line@), crlf());
            lemma_crlf_concat(before, line_doc(line@));
            assert(line_doc(line@) =~= folded(line@) + crlf());
        }
    }
}

/// A line made of the literal `head` and the text `tail`.
fn line_of(head: &str, tail: &str) -> (l: String)
    ensures
        l@ == head@ + tail@,
{
    let mut l = String::new();
    push_str(&mut l, head);
    push_str(&mut l, tail);
    proof {
        assert(l@ =~= head@ + tail@);
    }
    l
}

fn literal_line(text: &str) -> (l: String)
    ensures
        l@ == text@,
{
    let mut l = String::new();
    push_str(&mut l, text);
    proof {
        assert(l@ =~= text@);
    }
    l
}

/// The literal pieces of the feed hold no line break.
proof fn lemma_literals_no_break()
    ensures
        no_break("BEGIN:VCALENDAR"@),
        no_break("VERSION:2.0"@),
        no_break("PRODID:-//Friends Calendar//EN"@),
        no_break("CALSCALE:GREGORIAN"@),
        no_break("METHOD:PUBLISH"@),
        no_break("X-WR-CALNAME:Friends Calendar"@),
        no_break("BEGIN:VEVENT"@),
        no_break("UID:"@),
        no_break("@friends-calendar"@),
        no_break("DTSTAMP:"@),
        no_break("DTSTART:"@),
        no_break("DTEND:"@),
        no_break("SUMMARY:"@),
        no_break("DESCRIPTION:"@),
        no_break("LOCATION:"@),
        no_break("URL:"@),
        no_break("/"@),
        no_break("END:VEVENT"@),
        no_break("END:VCALENDAR"@),
        "BEGIN:VCALENDAR"@.len() > 0 && !is_continuation("BEGIN:VCALENDAR"@),
        "VERSION:2.0"@.len() > 0 && !is_continuation("VERSION:2.0"@),
        "PRODID:-//Friends Calendar//EN"@.len() > 0 && !is_continuation("PRODID:-//Friends Calendar//EN"@),
        "CALSCALE:GREGORIAN"@.len() > 0 && !is_continuation("CALSCALE:GREGORIAN"@),
        "METHOD:PUBLISH"@.len() > 0 && !is_continuation("METHOD:PUBLISH"@),
        "X-WR-CALNAME:Friends Calendar"@.len() > 0 && !is_continuation("X-WR-CALNAME:Friends Calendar"@),
        "BEGIN:VEVENT"@.len() > 0 && !is_continuation("BEGIN:VEVENT"@),
        "UID:"@.len() > 0 && !is_continuation("UID:"@),
        "DTSTAMP:"@.len() > 0 && !is_continuation("DTSTAMP:"@),
        "DTSTART:"@.len() > 0 && !is_continuation("DTSTART:"@),
        "DTEND:"@.len() > 0 && !is_continuation("DTEND:"@),
        "SUMMARY:"@.len() > 0 && !is_continuation("SUMMARY:"@),
        "DESCRIPTION:"@.len() > 0 && !is_continuation("DESCRIPTION:"@),
        "LOCATION:"@.len() > 0 && !is_continuation("LOCATION:"@),
        "URL:"@.len() > 0 && !is_continuation("URL:"@),
        "END:VEVENT"@.len() > 0 && !is_continuation("END:VEVENT"@),
        "END:VCALENDAR"@.len() > 0 && !is_continuation("END:VCALENDAR"@),
{
    reveal_strlit("BEGIN:VCALENDAR");
    reveal_strlit("VERSION:2.0");
    reveal_strlit("PRODID:-//Friends Calendar//EN");
    reveal_strlit("CALSCALE:GREGORIAN");
    reveal_strlit("METHOD:PUBLISH");
    reveal_strlit("X-WR-CALNAME:Friends Calendar");
    reveal_strlit("BEGIN:VEVENT");
    reveal_strlit("UID:");
    reveal_strlit("@friends-calendar");
    reveal_strlit("DTSTAMP:");
    reveal_strlit("DTSTART:");
    reveal_strlit("DTEND:");
    reveal_strlit("SUMMARY:");
    reveal_strlit("DESCRIPTION:");
    reveal_strlit("LOCATION:");
    reveal_strlit("URL:");
    reveal_strlit("/");
    reveal_strlit("END:VEVENT");
    reveal_strlit("END:VCALENDAR");
}

/// Appends the lines of one event.
#[verifier::rlimit(60)]
fn emit_event(out: &mut String, e: &CalendarEvent, app_url: &str)
    requires
        representable(e.start_time as int),
        representable(e.end_time as int),
        representable(e.updated_at as int),
    ensures
        final(out)@ == old(out)@ + event_doc(*e, app_url@),
        crlf_only(old(out)@) && no_break(app_url@) ==> crlf_only(final(out)@),
        whole_lines(old(out)@) && no_break(app_url@) ==> whole_lines(final(out)@) && ics_lines(
            final(out)@,
        ).drop_last() == ics_lines(old(out)@).drop_last() + event_lines(*e, app_url@),
{
    let ghost before = out@;
    let ghost ok = whole_lines(before) && no_break(app_url@);
    let ghost base = ics_lines(before).drop_last();
    let ghost mut acc: Seq<Seq<char>> = seq![];
    proof {
        lemma_literals_no_break();
        if ok {
            assert(base + acc =~= base);
        }
    }
    let l = literal_line("BEGIN:VEVENT");
    let ghost s = out@;
    emit_line(out, &l);
    proof {
        if ok {
            lemma_emit_more(base, s, acc, l@);
        }
        acc = acc.push(l@);
    }
    let uid = uuid_string(e.id);
    let mut l = line_of("UID:", uid.as_str());
    push_str(&mut l, "@friends-calendar");
    proof {
        lemma_uuid_text_no_break(e.id);
        lemma_no_break_concat("UID:"@, uid@);
        lemma_no_break_concat("UID:"@ + uid@, "@friends-calendar"@);
        lemma_lead("UID:"@, uid@);
        lemma_lead("UID:"@ + uid@, "@friends-calendar"@);
    }
    let ghost s = out@;
    emit_line(out, &l);
    proof {
        if ok {
            lemma_emit_more(base, s, acc, l@);
        }
        acc = acc.push(l@);
    }
    let stamp = format_utc(e.updated_at);
    proof {
        lemma_no_break_concat("DTSTAMP:"@, stamp@);
        lemma_lead("DTSTAMP:"@, stamp@);
    }
    let l = line_of("DTSTAMP:", stamp.as_str());
    let ghost s = out@;
    emit_line(out, &l);
    proof {
        if ok {
            lemma_emit_more(base, s, acc, l@);
        }
        acc = acc.push(l@);
    }
    let start = format_utc(e.start_time);
    proof {
        lemma_no_break_concat("DTSTART:"@, start@);
        lemma_lead("DTSTART:"@, start@);
    }
    let l = line_of("DTSTART:", start.as_str());
    let ghost s = out@;
    emit_line(out, &l);
    proof {
        if ok {
            lemma_emit_more(base, s, acc, l@);
        }
        acc = acc.push(l@);
    }
    let end = format_utc(e.end_time);
    proof {
        lemma_no_break_concat("DTEND:"@, end@);
        lemma_lead("DTEND:"@, end@);
    }
    let l = line_of("DTEND:", end.as_str());
    let ghost s = out@;
    emit_line(out, &l);
    proof {
        if ok {
            lemma_emit_more(base, s, acc, l@);
        }
        acc = acc.push(l@);
    }
    let title = escape_text(e.title.as_str());
    proof {
        lemma_escaped_no_break(e.title@);
        lemma_no_break_concat("SUMMARY:"@, title@);
        lemma_lead("SUMMARY:"@, title@);
    }
    let l = line_of("SUMMARY:", title.as_str());
    let ghost s = out@;
    emit_line(out, &l);
    proof {
        if ok {
            lemma_emit_more(base, s, acc, l@);
        }
        acc = acc.push(l@);
    }
    let mut desc = match &e.description {
        Some(d) => d.clone(),
        None => String::new(),
    };
    match &e.link {
        Some(link) => {
            if !desc.as_str().is_empty() {
                desc.push('\n');
            }
            push_str(&mut desc, link.as_str());
        },
        None => {},
    }
    proof {
        assert(desc@ =~= description_of(*e));
    }
    if !desc.as_str().is_empty() {
        let d = escape_text(desc.as_str());
        proof {
            lemma_escaped_no_break(desc@);
            lemma_no_break_concat("DESCRIPTION:"@, d@);
            lemma_lead("DESCRIPTION:"@, d@);
        }
        let l = line_of("DESCRIPTION:", d.as_str());
        let ghost s = out@;
        emit_line(out, &l);
        proof {
            if ok {
                lemma_emit_more(base, s, acc, l@);
            }
            acc = acc.push(l@);
        }
    }
    match &e.location {
        Some(loc) => {
            let x = escape_text(loc.as_str());
            proof {
                lemma_escaped_no_break(loc@);
                lemma_no_break_concat("LOCATION:"@, x@);
                lemma_lead("LOCATION:"@, x@);
            }
            let l = line_of("LOCATION:", x.as_str());
            let ghost s = out@;
            emit_line(out, &l);
            proof {
                if ok {
                    lemma_emit_more(base, s, acc, l@);
                }
                acc = acc.push(l@);
            }
        },
        None => {},
    }
    let mut u = line_of("URL:", app_url);
    push_str(&mut u, "/");
    proof {
        if no_break(app_url@) {
            lemma_no_break_concat("URL:"@, app_url@);
            lemma_no_break_concat("URL:"@ + app_url@, "/"@);
        }
        lemma_lead("URL:"@, app_url@);
        lemma_lead("URL:"@ + app_url@, "/"@);
    }
    let ghost s = out@;
    emit_line(out, &u);
    proof {
        if ok {
            lemma_emit_more(base, s, acc, u@);
        }
        acc = acc.push(u@);
    }
    let l = literal_line("END:VEVENT");
    let ghost s = out@;
    emit_line(out, &l);
    proof {
        if ok {
            lemma_emit_more(base, s, acc, l@);
        }
        acc = acc.push(l@);
        assert(out@ =~= before + event_doc(*e, app_url@));
        assert(acc =~= event_lines(*e, app_url@));
    }
}

/// Renders the whole calendar. It opens with `BEGIN:VCALENDAR` and closes
/// with `END:VCALENDAR`. Where the app URL holds no line break, every line
/// feed ends a CRLF pair, no carriage return stands anywhere but before
/// a line feed, no physical line takes more than 75 octets,
/// there is one `BEGIN:VEVENT` line per event, and a calendar app
/// unfolding the document reads back exactly its content lines (and the
/// empty rest after the last line feed).
#[verifier::rlimit(60)]
pub fn render(events: &[EventWithParticipants], app_url: &str) -> (r: String)
    requires
        forall|i: int|
            0 <= i < events@.len() ==> representable((#[trigger] events@[i]).event.start_time as int)
                && representable(events@[i].event.end_time as int) && representable(
                events@[i].event.updated_at as int,
            ),
    ensures
        r@ == feed_document(events@, app_url@),
        no_break(app_url@) ==> crlf_only(r@),
        no_break(app_url@) ==> lines_fit(r@) && lines_clean(r@) && ics_lines(r@) == feed_lines(events@, app_url@).push(
            seq![],
        ),
        r@.take(17) == "BEGIN:VCALENDAR\r\n"@,
        r@.skip(r@.len() - 15) == "END:VCALENDAR\r\n"@,
        no_break(app_url@) ==> count_lines(ics_lines(r@), "BEGIN:VEVENT"@) == events@.len()
            && count_lines(crlf_lines(r@), "BEGIN:VEVENT"@) == events@.len(),
{
    let mut out = String::new();
    let ghost ok = no_break(app_url@);
    let ghost mut acc: Seq<Seq<char>> = seq![];
    proof {
        lemma_literals_no_break();
        assert(crlf_only(out@));
        lemma_whole_empty();
        assert(Seq::<Seq<char>>::empty() + acc =~= acc);
    }
    let l = literal_line("BEGIN:VCALENDAR");
    let ghost s = out@;
    emit_line(&mut out, &l);
    proof {
        lemma_emit_more(Seq::<Seq<char>>::empty(), s, acc, l@);
        acc = acc.push(l@);
    }
    let l = literal_line("VERSION:2.0");
    let ghost s = out@;
    emit_line(&mut out, &l);
    proof {
        lemma_emit_more(Seq::<Seq<char>>::empty(), s, acc, l@);
        acc = acc.push(l@);
    }
    let l = literal_line("PRODID:-//Friends Calendar//EN");
    let ghost s = out@;
    emit_line(&mut out, &l);
    proof {
        lemma_emit_more(Seq::<Seq<char>>::empty(), s, acc, l@);
        acc = acc.push(l@);
    }
    let l = literal_line("CALSCALE:GREGORIAN");
    let ghost s = out@;
    emit_line(&mut out, &l);
    proof {
        lemma_emit_more(Seq::<Seq<char>>::empty(), s, acc, l@);
        acc = acc.push(l@);
    }
    let l = literal_line("METHOD:PUBLISH");
    let ghost s = out@;
    emit_line(&mut out, &l);
    proof {
        lemma_emit_more(Seq::<Seq<char>>::empty(), s, acc, l@);
        acc = acc.push(l@);
    }
    let l = literal_line("X-WR-CALNAME:Friends Calendar");
    let ghost s = out@;
    emit_line(&mut out, &l);
    proof {
        lemma_emit_more(Seq::<Seq<char>>::empty(), s, acc, l@);
        acc = acc.push(l@);
    }
    proof {
        assert(acc =~= header_lines());
        assert(Seq::<Seq<char>>::empty() + acc =~= acc);
        assert(out@ =~= header_doc());
        assert(events@.take(0) =~= Seq::<EventWithParticipants>::empty());
        assert(out@ =~= header_doc() + events_doc(events@.take(0), app_url@));
        assert(header_lines() + events_lines(events@.take(0), app_url@) =~= header_lines());
    }
    let mut k: usize = 0;
    while k < events.len()
        invariant
            k <= events@.len(),
            ok == no_break(app_url@),
            forall|i: int|
                0 <= i < events@.len() ==> representable((#[trigger] events@[i]).event.start_time as int)
                    && representable(events@[i].event.end_time as int) && representable(
                    events@[i].event.updated_at as int,
                ),
            out@ == header_doc() + events_doc(events@.take(k as int), app_url@),
            ok ==> crlf_only(out@),
            ok ==> whole_lines(out@),
            ok ==> ics_lines(out@).drop_last() == header_lines() + events_lines(
                events@.take(k as int),
                app_url@,
            ),
        decreases events@.len() - k,
    {
        proof {
            assert(events@.take(k + 1).drop_last() =~= events@.take(k as int));
            assert(events@.take(k + 1).last() == events@[k as int]);
        }
        let ghost s = out@;
        emit_event(&mut out, &events[k].event, app_url);
        k = k + 1;
        proof {
            assert(out@ =~= header_doc() + events_doc(events@.take(k as int), app_url@));
            if ok {
                assert(header_lines() + events_lines(events@.take(k - 1), app_url@) + event_lines(
                    events@[k - 1].event,
                    app_url@,
                ) =~= header_lines() + events_lines(events@.take(k as int), app_url@));
            }
        }
    }
    proof {
        lemma_literals_no_break();
        assert(events@.take(events@.len() as int) =~= events@);
    }
    let l = literal_line("END:VCALENDAR");
    let ghost s = out@;
    emit_line(&mut out, &l);
    proof {
        assert(out@ =~= feed_document(events@, app_url@));
        law_feed_frame(events@, app_url@);
        if ok {
            law_one_block_per_event(events@, app_url@);
            lemma_count_concat(feed_lines(events@, app_url@), seq![seq![]], "BEGIN:VEVENT"@);
            reveal_strlit("BEGIN:VEVENT");
            assert(seq![Seq::<char>::empty()].drop_last() =~= Seq::<Seq<char>>::empty());
            assert("BEGIN:VEVENT"@.len() == 12);
            assert(Seq::<char>::empty() != "BEGIN:VEVENT"@);
            assert(count_lines(Seq::<Seq<char>>::empty(), "BEGIN:VEVENT"@) == 0);
            assert(seq![Seq::<char>::empty()].last() == Seq::<char>::empty());
            assert(count_lines(seq![Seq::<char>::empty()], "BEGIN:VEVENT"@) == 0);
            assert(feed_lines(events@, app_url@) + seq![Seq::<char>::empty()] =~= feed_lines(
                events@,
                app_url@,
            ).push(seq![]));
            lemma_emit_more(header_lines(), s, events_lines(events@, app_url@), l@);
            let x = ics_lines(out@);
            assert(header_lines() + events_lines(events@, app_url@).push(l@) =~= feed_lines(
                events@,
                app_url@,
            ));
            assert(x =~= x.drop_last().push(x.last()));
        }
    }
    out
}

/// A lower-case hexadecimal digit.
pub open spec fn hex_digit(n: int) -> char {
    if n < 10 {
        (48 + n) as char
    } else {
        (87 + n) as char
    }
}

/// `bytes` as lower-case hex, two digits per byte - what
/// `format!("{b:02x}")` writes for each.
pub open spec fn hex_of(bytes: Seq<u8>) -> Seq<char>
    decreases bytes.len(),
{
    if bytes.len() == 0 {
        seq![]
    } else {
        hex_of(bytes.drop_last()) + seq![
            hex_digit(bytes.last() as int / 16),
            hex_digit(bytes.last() as int % 16),
        ]
    }
}

/// Whether `c` is an ASCII lower-case hex digit.
pub open spec fn is_hex_lower(c: char) -> bool {
    ('0' <= c <= '9') || ('a' <= c <= 'f')
}

proof fn lemma_hex_of(bytes: Seq<u8>)
    ensures
        hex_of(bytes).len() == 2 * bytes.len(),
        forall|i: int| 0 <= i < hex_of(bytes).len() ==> is_hex_lower(#[trigger] hex_of(bytes)[i]),
    decreases bytes.len(),
{
    if bytes.len() > 0 {
        lemma_hex_of(bytes.drop_last());
        let h = hex_of(bytes);
        let p = hex_of(bytes.drop_last());
        assert forall|i: int| 0 <= i < h.len() implies is_hex_lower(#[trigger] h[i]) by {
            if i < p.len() {
                assert(h[i] == p[i]);
            }
        }
    }
}

fn hex_char(n: u8) -> (c: char)
    requires
        n < 16,
    ensures
        c == hex_digit(n as int),
{
    if n < 10 {
        (48 + n) as char
    } else {
        (87 + n) as char
    }
}

/// `bytes` written as lower-case hex.
pub fn hex_token(bytes: &[u8]) -> (s: String)
    ensures
        s@ == hex_of(bytes@),
{
    let mut s = String::new();
    let mut k: usize = 0;
    proof {
        assert(bytes@.take(0) =~= Seq::<u8>::empty());
        assert(s@ =~= hex_of(bytes@.take(0)));
    }
    while k < bytes.len()
        invariant
            k <= bytes@.len(),
            s@ == hex_of(bytes@.take(k as int)),
        decreases bytes@.len() - k,
    {
        proof {
            assert(bytes@.take(k + 1).drop_last() =~= bytes@.take(k as int));
        }
        let b = bytes[k];
        s.push(hex_char(b / 16));
        s.push(hex_char(b % 16));
        k = k + 1;
        proof {
            assert(s@ =~= hex_of(bytes@.take(k as int)));
        }
    }
    proof {
        assert(bytes@.take(bytes@.len() as int) =~= bytes@);
    }
    s
}

/// Thirty-two bytes drawn by `rand::thread_rng().fill_bytes`. Nothing is
/// claimed of their values, which are random.
#[verifier::external_body]
fn random_bytes() -> (b: Vec<u8>)
    ensures
        b@.len() == 32,
{
    let mut bytes = vec![0u8; 32];
    rand::thread_rng().fill_bytes(&mut bytes);
    bytes
}

/// A fresh feed token: 32 random bytes, hex-encoded. Long enough that
/// guessing is not a strategy, and hex needs no URL escaping wherever it
/// gets pasted.
pub fn generate_token() -> (t: String)
    ensures
        t@.len() == 64,
        forall|i: int| 0 <= i < t@.len() ==> is_hex_lower(#[trigger] t@[i]),
        exists|b: Seq<u8>| b.len() == 32 && t@ == hex_of(b),
{
    let bytes = random_bytes();
    let t = hex_token(&bytes);
    proof {
        lemma_hex_of(bytes@);
    }
    t
}

proof fn lemma_fold_parts_no_break(s: Seq<char>, limit: int)
    requires
        no_break(s),
        limit >= 74,
    ensures
        forall|i: int| 0 <= i < fold_parts(s, limit).len() ==> no_break(#[trigger] fold_parts(s, limit)[i]),
    decreases s.len(),
{
    if byte_len(s) > limit {
        let k = prefix_fit(s, limit);
        lemma_prefix_fit(s, limit);
        if k > 0 {
            let rest = s.skip(k);
            assert(no_break(rest)) by {
                assert forall|i: int| 0 <= i < rest.len() implies rest[i] != '\n' && rest[i] != '\r' by {
                    assert(rest[i] == s[i + k]);
                }
            }
            assert(no_break(s.take(k))) by {
                assert forall|i: int| 0 <= i < s.take(k).len() implies s.take(k)[i] != '\n' && s.take(k)[i] != '\r' by {
                    assert(s.take(k)[i] == s[i]);
                }
            }
            lemma_fold_parts_no_break(rest, 74);
            let parts = fold_parts(s, limit);
            assert forall|i: int| 0 <= i < parts.len() implies no_break(#[trigger] parts[i]) by {
                if i > 0 {
                    assert(parts[i] == fold_parts(rest, 74)[i - 1]);
                }
            }
        }
    }
}

/// `x + seq![c] + b` splits at that `c` first, when `x` holds no `c`.
proof fn lemma_split_after(x: Seq<char>, b: Seq<char>, c: char)
    requires
        forall|i: int| 0 <= i < x.len() ==> x[i] != c,
    ensures
        split_on(x + seq![c] + b, c) == seq![x] + split_on(b, c),
    decreases b.len(),
{
    if b.len() == 0 {
        lemma_split_whole(x, c);
        assert(x + seq![c] + b =~= x.push(c));
        assert((x + seq![c] + b).drop_last() =~= x);
    } else {
        lemma_split_after(x, b.drop_last(), c);
        lemma_split_on_nonempty(b.drop_last(), c);
        assert((x + seq![c] + b).drop_last() =~= x + seq![c] + b.drop_last());
        assert((x + seq![c] + b).last() == b.last());
        let r = split_on(b.drop_last(), c);
        if b.last() == c {
            assert(split_on(x + seq![c] + b, c) =~= (seq![x] + r).push(seq![]));
            assert(split_on(b, c) =~= r.push(seq![]));
        } else {
            assert(split_on(b, c) =~= r.update(r.len() - 1, r.last().push(b.last())));
            assert((seq![x] + r).update(r.len() as int, (seq![x] + r).last().push(b.last())) =~= seq![x]
                + r.update(r.len() - 1, r.last().push(b.last())));
        }
    }
}

/// A string without `c` is one piece.
proof fn lemma_split_whole(x: Seq<char>, c: char)
    requires
        forall|i: int| 0 <= i < x.len() ==> x[i] != c,
    ensures
        split_on(x, c) == seq![x],
    decreases x.len(),
{
    if x.len() > 0 {
        lemma_split_whole(x.drop_last(), c);
        assert(x[x.len() - 1] != c);
        assert(x.drop_last().push(x.last()) =~= x);
        assert(seq![x.drop_last()].update(0, x.drop_last().push(x.last())) =~= seq![x]);
    } else {
        assert(x =~= seq![]);
    }
}

/// The folded pieces, each ended by CRLF: the document form of a line.
pub open spec fn folded_doc(parts: Seq<Seq<char>>) -> Seq<char> {
    join_folded(parts) + crlf()
}

/// The physical lines the folded pieces `parts` make after `x`, each still
/// ending in its carriage return, and the empty rest after the last line
/// feed.
pub open spec fn physical(x: Seq<char>, parts: Seq<Seq<char>>) -> Seq<Seq<char>> {
    Seq::new(
        parts.len() + 1,
        |i: int|
            if i == 0 {
                (x + parts[0]).push('\r')
            } else if i < parts.len() {
                (seq![' '] + parts[i]).push('\r')
            } else {
                seq![]
            },
    )
}

proof fn lemma_split_folded(x: Seq<char>, parts: Seq<Seq<char>>)
    requires
        parts.len() >= 1,
        no_break(x),
        forall|i: int| 0 <= i < parts.len() ==> no_break(#[trigger] parts[i]),
    ensures
        split_on(x + folded_doc(parts), '\n') == physical(x, parts),
    decreases parts.len(),
{
    let p0 = parts[0];
    lemma_no_break_concat(x, p0);
    let head = (x + p0).push('\r');
    assert forall|i: int| 0 <= i < head.len() implies head[i] != '\n' by {
        if i < (x + p0).len() {
            assert(head[i] == (x + p0)[i]);
        }
    }
    if parts.len() == 1 {
        assert(x + folded_doc(parts) =~= head + seq!['\n'] + seq![]);
        lemma_split_after(head, seq![], '\n');
        assert(split_on(Seq::<char>::empty(), '\n') =~= seq![seq![]]);
        assert(physical(x, parts) =~= seq![head, seq![]]);
    } else {
        let rest = parts.drop_first();
        assert(join_folded(parts) == p0 + seq!['\r', '\n', ' '] + join_folded(rest));
        assert(x + folded_doc(parts) =~= head + seq!['\n'] + (seq![' '] + folded_doc(rest)));
        lemma_split_after(head, seq![' '] + folded_doc(rest), '\n');
        assert forall|i: int| 0 <= i < rest.len() implies no_break(#[trigger] rest[i]) by {
            assert(rest[i] == parts[i + 1]);
        }
        assert(no_break(seq![' ']));
        lemma_split_folded(seq![' '], rest);
        assert(seq![' '] + folded_doc(rest) =~= seq![' '] + folded_doc(rest));
        assert(physical(x, parts) =~= seq![head] + physical(seq![' '], rest));
    }
}

/// The logical-line reading of the physical lines of a fold: the first
/// piece, then each later piece behind the space that continues it.
proof fn lemma_unfold_pieces(parts: Seq<Seq<char>>, n: int)
    requires
        1 <= n <= parts.len(),
    ensures
        unfold_lines(
            Seq::new(
                n as nat,
                |i: int|
                    if i == 0 {
                        parts[0]
                    } else {
                        seq![' '] + parts[i]
                    },
            ),
        ) == seq![parts.take(n).flatten()],
    decreases n,
{
    let raws = Seq::new(n as nat, |i: int| if i == 0 { parts[0] } else { seq![' '] + parts[i] });
    if n == 1 {
        assert(raws.drop_last() =~= Seq::<Seq<char>>::empty());
        assert(parts.take(1).drop_first() =~= Seq::<Seq<char>>::empty());
        assert(parts.take(1).drop_first().flatten() =~= Seq::<char>::empty());
        assert(parts.take(1).flatten() =~= parts[0]);
        assert(raws.last() == parts[0]);
        assert(unfold_lines(raws.drop_last()) =~= Seq::<Seq<char>>::empty());
        assert(unfold_lines(raws) == seq![parts[0]]);
    } else {
        lemma_unfold_pieces(parts, n - 1);
        let prev = Seq::new((n - 1) as nat, |i: int| if i == 0 { parts[0] } else { seq![' '] + parts[i] });
        assert(raws.drop_last() =~= prev);
        assert(is_continuation(raws.last()));
        assert((seq![' '] + parts[n - 1]).drop_first() =~= parts[n - 1]);
        lemma_flatten_take_step(parts, n - 1);
        let u = unfold_lines(prev);
        assert(u == seq![parts.take(n - 1).flatten()]);
        assert(raws.last() == seq![' '] + parts[n - 1]);
        assert(unfold_lines(raws) == u.update(0, u.last() + raws.last().drop_first()));
        assert(u.update(0, u.last() + raws.last().drop_first()) =~= seq![parts.take(n).flatten()]);
    }
}

proof fn lemma_flatten_take_step(parts: Seq<Seq<char>>, k: int)
    requires
        0 <= k < parts.len(),
    ensures
        parts.take(k + 1).flatten() == parts.take(k).flatten() + parts[k],
    decreases k,
{
    if k == 0 {
        assert(parts.take(1).drop_first() =~= Seq::<Seq<char>>::empty());
        assert(parts.take(1).drop_first().flatten() =~= Seq::<char>::empty());
        assert(parts.take(0) =~= Seq::<Seq<char>>::empty());
        assert(parts.take(0).flatten() =~= Seq::<char>::empty());
        assert(parts.take(1).flatten() =~= parts[0]);
    } else {
        let t = parts.drop_first();
        lemma_flatten_take_step(t, k - 1);
        assert(parts.take(k + 1).drop_first() =~= t.take(k));
        assert(parts.take(k).drop_first() =~= t.take(k - 1));
        assert(parts[k] == t[k - 1]);
    }
}

/// The physical lines a fold makes, carriage returns removed: the first
/// piece, then each later piece behind the space that continues it.
pub open spec fn fold_raws(parts: Seq<Seq<char>>) -> Seq<Seq<char>> {
    Seq::new(parts.len(), |i: int| if i == 0 { parts[0] } else { seq![' '] + parts[i] })
}

/// The physical lines of one content line of the document.
proof fn lemma_line_doc_physical(line: Seq<char>)
    requires
        no_break(line),
    ensures
        crlf_lines(line_doc(line)) == fold_raws(fold_parts(line, 75)).push(seq![]),
        fold_parts(line, 75).len() >= 1,
{
    let parts = fold_parts(line, 75);
    lemma_fold_parts(line, 75);
    lemma_fold_parts_no_break(line, 75);
    assert(line_doc(line) == folded_doc(parts));
    assert(no_break(Seq::<char>::empty()));
    lemma_split_folded(seq![], parts);
    assert(Seq::<char>::empty() + folded_doc(parts) =~= folded_doc(parts));
    let ph = physical(seq![], parts);
    let n = parts.len() as int;
    let raws = fold_raws(parts);
    let cl = crlf_lines(line_doc(line));
    assert(cl.len() == n + 1);
    assert forall|i: int| 0 <= i < n + 1 implies cl[i] == raws.push(seq![])[i] by {
        if i == 0 {
            assert(ph[0] == (Seq::<char>::empty() + parts[0]).push('\r'));
            assert(Seq::<char>::empty() + parts[0] =~= parts[0]);
            assert(strip_cr(ph[0]) =~= parts[0]);
        } else if i < n {
            assert(strip_cr(ph[i]) =~= seq![' '] + parts[i]);
        }
    }
    assert(cl =~= raws.push(seq![]));
}

/// What the feed writes the importer reads back: a content line without
/// line breaks, folded and ended by CRLF, unfolds to exactly that line
/// (and the empty rest after the final line feed).
pub proof fn law_folded_line_unfolds_back(line: Seq<char>)
    requires
        no_break(line),
    ensures
        ics_lines(line_doc(line)) == seq![line, seq![]],
{
    let parts = fold_parts(line, 75);
    lemma_fold_parts(line, 75);
    lemma_line_doc_physical(line);
    let n = parts.len() as int;
    let raws = fold_raws(parts);
    assert(raws =~= Seq::new(n as nat, |i: int| if i == 0 { parts[0] } else { seq![' '] + parts[i] }));
    lemma_unfold_pieces(parts, n);
    assert(parts.take(n) =~= parts);
    assert(raws.push(seq![]).drop_last() =~= raws);
    assert(!is_continuation(Seq::<char>::empty()));
}

/// A CRLF at the end of a document adds one empty logical line and
/// changes none of the others.
proof fn lemma_ics_lines_crlf(s: Seq<char>)
    ensures
        ics_lines(s + crlf()) == ics_lines(s).push(seq![]),
{
    let d = s + crlf();
    let sr = s.push('\r');
    assert(d.drop_last() =~= sr);
    assert(sr.drop_last() =~= s);
    let p = split_on(s, '\n');
    lemma_split_on_nonempty(s, '\n');
    let l = p.len() - 1;
    assert(split_on(sr, '\n') == p.update(l, p.last().push('\r')));
    let p2 = split_on(d, '\n');
    assert(p2 == p.update(l, p.last().push('\r')).push(seq![]));
    assert(crlf_lines(d) =~= crlf_lines(s).push(seq![])) by {
        assert forall|i: int| 0 <= i < p2.len() implies #[trigger] crlf_lines(d)[i] == crlf_lines(s).push(seq![])[i] by {
            if i < l {
                assert(p2[i] == p[i]);
            } else if i == l {
                assert(p2[i] == p[l].push('\r'));
                assert(strip_cr(p[l].push('\r')) =~= p[l]);
            }
        }
    }
    let raws = crlf_lines(s);
    assert(raws.push(seq![]).drop_last() =~= raws);
    assert(!is_continuation(Seq::<char>::empty()));
}

/// Unfolding undoes folding: a content line without line breaks, folded,
/// reads back as exactly that one line.
pub proof fn law_unfold_undoes_fold(line: Seq<char>)
    requires
        no_break(line),
    ensures
        ics_lines(folded(line)) == seq![line],
{
    law_folded_line_unfolds_back(line);
    lemma_ics_lines_crlf(folded(line));
    let u = ics_lines(folded(line));
    assert(u.push(seq![]) == seq![line, seq![]]);
    assert(u =~= u.push(seq![]).drop_last());
    assert(seq![line, seq![]].drop_last() =~= seq![line]);
}

/// Whether every physical line of `s` takes at most 75 octets.
pub open spec fn lines_fit(s: Seq<char>) -> bool {
    forall|i: int| 0 <= i < crlf_lines(s).len() ==> byte_len(#[trigger] crlf_lines(s)[i]) <= 75
}

/// Whether `s` is a whole number of CRLF-ended lines, each at most 75
/// octets: empty, or ending in a line feed, and reading back as its
/// logical lines followed by the empty rest.
pub open spec fn whole_lines(s: Seq<char>) -> bool {
    &&& s.len() == 0 || s.last() == '\n'
    &&& lines_fit(s)
    &&& ics_lines(s).len() >= 1
    &&& ics_lines(s).last() == Seq::<char>::empty()
    &&& count_lines(crlf_lines(s), "BEGIN:VEVENT"@) == count_lines(ics_lines(s), "BEGIN:VEVENT"@)
    &&& lines_clean(s)
}

/// Whether no physical line of `s` holds a carriage return or a line
/// feed: every carriage return in `s` is the one ending a line.
pub open spec fn lines_clean(s: Seq<char>) -> bool {
    forall|i: int| 0 <= i < crlf_lines(s).len() ==> no_break(#[trigger] crlf_lines(s)[i])
}

/// The physical lines of one folded content line hold `BEGIN:VEVENT`
/// exactly when the content line is `BEGIN:VEVENT`: continuations start
/// with a space, and a first piece of a folded line is longer.
proof fn lemma_raws_count(line: Seq<char>)
    requires
        no_break(line),
    ensures
        count_lines(fold_raws(fold_parts(line, 75)), "BEGIN:VEVENT"@) == if line == "BEGIN:VEVENT"@ {
            1nat
        } else {
            0nat
        },
{
    let b = "BEGIN:VEVENT"@;
    reveal_strlit("BEGIN:VEVENT");
    assert forall|i: int| 0 <= i < b.len() implies (#[trigger] b[i] as u32) < 128 by {}
    lemma_byte_len_ascii(b);
    let parts = fold_parts(line, 75);
    lemma_fold_parts(line, 75);
    let raws = fold_raws(parts);
    let rest = raws.drop_first();
    assert forall|i: int| 0 <= i < rest.len() implies #[trigger] rest[i] != b by {
        assert(rest[i] == seq![' '] + parts[i + 1]);
        assert(rest[i][0] == ' ');
    }
    lemma_count_none(rest, b);
    if byte_len(line) <= 75 {
        assert(parts == seq![line]);
    } else {
        lemma_prefix_fit(line, 75);
        let k = prefix_fit(line, 75);
        assert(parts[0] == line.take(k));
        assert(line.take(k + 1) =~= line.take(k).push(line[k]));
        assert(line.take(k + 1).drop_last() =~= line.take(k));
        lemma_utf8_len_range(line[k]);
        assert(byte_len(line.take(k)) > 71);
        assert(parts[0] != b);
        assert(line != b);
    }
    lemma_count_concat(seq![raws[0]], rest, b);
    assert(seq![raws[0]] + rest =~= raws);
    assert(seq![raws[0]].drop_last() =~= Seq::<Seq<char>>::empty());
    assert(count_lines(Seq::<Seq<char>>::empty(), b) == 0);
    assert(seq![raws[0]].last() == raws[0]);
}

proof fn lemma_split_concat(a: Seq<char>, b: Seq<char>, c: char)
    requires
        a.len() > 0,
        a.last() == c,
    ensures
        split_on(a + b, c) == split_on(a, c).drop_last() + split_on(b, c),
    decreases b.len(),
{
    lemma_split_on_nonempty(a, c);
    assert(split_on(a, c) == split_on(a.drop_last(), c).push(seq![]));
    if b.len() == 0 {
        assert(a + b =~= a);
        assert(split_on(a, c).drop_last() + split_on(b, c) =~= split_on(a, c));
    } else {
        lemma_split_concat(a, b.drop_last(), c);
        assert((a + b).drop_last() =~= a + b.drop_last());
        assert((a + b).last() == b.last());
        lemma_split_on_nonempty(b.drop_last(), c);
        let x = split_on(a, c).drop_last();
        let y = split_on(b.drop_last(), c);
        if b.last() == c {
            assert((x + y).push(seq![]) =~= x + y.push(seq![]));
        } else {
            assert((x + y).update((x + y).len() - 1, (x + y).last().push(b.last())) =~= x + y.update(
                y.len() - 1,
                y.last().push(b.last()),
            ));
        }
    }
}

proof fn lemma_crlf_lines_concat(a: Seq<char>, b: Seq<char>)
    requires
        a.len() > 0,
        a.last() == '\n',
    ensures
        crlf_lines(a + b) == crlf_lines(a).drop_last() + crlf_lines(b),
{
    lemma_split_concat(a, b, '\n');
    lemma_split_on_nonempty(a, '\n');
    lemma_split_on_nonempty(b, '\n');
    let pa = split_on(a, '\n');
    let pb = split_on(b, '\n');
    let l = crlf_lines(a + b);
    let r = crlf_lines(a).drop_last() + crlf_lines(b);
    assert(l.len() == r.len());
    assert forall|i: int| 0 <= i < l.len() implies l[i] == r[i] by {
        if i < pa.len() - 1 {
            assert(r[i] == crlf_lines(a)[i]);
        } else {
            assert(r[i] == crlf_lines(b)[i - (pa.len() - 1)]);
        }
    }
    assert(l =~= r);
}

proof fn lemma_unfold_nonempty(y: Seq<Seq<char>>)
    requires
        y.len() > 0,
    ensures
        unfold_lines(y).len() > 0,
    decreases y.len(),
{
    if y.len() > 1 {
        lemma_unfold_nonempty(y.drop_last());
    }
}

proof fn lemma_unfold_concat(x: Seq<Seq<char>>, y: Seq<Seq<char>>)
    requires
        y.len() > 0,
        !is_continuation(y[0]),
    ensures
        unfold_lines(x + y) == unfold_lines(x) + unfold_lines(y),
    decreases y.len(),
{
    if y.len() == 1 {
        assert((x + y).drop_last() =~= x);
        assert(y.drop_last() =~= Seq::<Seq<char>>::empty());
        assert(unfold_lines(y) =~= seq![y[0]]);
        assert(unfold_lines(x).push(y[0]) =~= unfold_lines(x) + seq![y[0]]);
    } else {
        let y2 = y.drop_last();
        assert(y2[0] == y[0]);
        lemma_unfold_concat(x, y2);
        lemma_unfold_nonempty(y2);
        assert((x + y).drop_last() =~= x + y2);
        assert((x + y).last() == y.last());
        let u = unfold_lines(x);
        let v = unfold_lines(y2);
        let z = y.last();
        if is_continuation(z) {
            assert((u + v).update((u + v).len() - 1, (u + v).last() + z.drop_first()) =~= u + v.update(
                v.len() - 1,
                v.last() + z.drop_first(),
            ));
        } else {
            assert((u + v).push(z) =~= u + v.push(z));
        }
    }
}

/// Appending one content line to a document of whole lines keeps it so,
/// and adds exactly that line to what it reads back as.
proof fn lemma_append_line(a: Seq<char>, line: Seq<char>)
    requires
        whole_lines(a),
        no_break(line),
        !is_continuation(line),
    ensures
        whole_lines(a + line_doc(line)),
        ics_lines(a + line_doc(line)) == ics_lines(a).drop_last().push(line).push(seq![]),
{
    let parts = fold_parts(line, 75);
    lemma_fold_parts(line, 75);
    lemma_line_doc_physical(line);
    law_folded_line_unfolds_back(line);
    let raws = fold_raws(parts);
    let b = line_doc(line);
    let cb = crlf_lines(b);
    // The first physical line is the start of the content line.
    assert(parts.flatten() == parts[0] + parts.drop_first().flatten());
    if parts[0].len() > 0 {
        assert((parts[0] + parts.drop_first().flatten())[0] == parts[0][0]);
    }
    assert(cb[0] == parts[0]);
    assert(!is_continuation(cb[0]));
    assert(b.last() == '\n');
    let ca = crlf_lines(a);
    let ra = ca.drop_last();
    let la = ics_lines(a);
    // What `a` reads back as, without its empty rest.
    assert(ra + cb == crlf_lines(a + b)) by {
        if a.len() == 0 {
            assert(a + b =~= b);
            assert(split_on(a, '\n') =~= seq![seq![]]);
            assert(ca =~= seq![seq![]]);
            assert(ra + cb =~= cb);
        } else {
            lemma_crlf_lines_concat(a, b);
        }
    }
    assert(unfold_lines(ra) == la.drop_last()) by {
        lemma_split_on_nonempty(a, '\n');
        if a.len() == 0 {
            assert(split_on(a, '\n') =~= seq![seq![]]);
            assert(ra =~= Seq::<Seq<char>>::empty());
            assert(ca =~= seq![seq![]]);
            assert(ca.drop_last() =~= Seq::<Seq<char>>::empty());
            assert(unfold_lines(ca.drop_last()) == Seq::<Seq<char>>::empty());
            assert(ca.last() == Seq::<char>::empty());
            assert(unfold_lines(ca) =~= seq![seq![]]);
            assert(la.drop_last() =~= Seq::<Seq<char>>::empty());
        } else {
            assert(a.drop_last().push(a.last()) =~= a);
            assert(split_on(a, '\n').last() == Seq::<char>::empty());
            assert(ca.last() == Seq::<char>::empty());
            assert(ca =~= ra.push(seq![]));
            assert(!is_continuation(Seq::<char>::empty()));
            assert(la == unfold_lines(ra).push(seq![]));
            assert(la.drop_last() =~= unfold_lines(ra));
        }
    }
    lemma_unfold_concat(ra, cb);
    assert(unfold_lines(cb) == seq![line, seq![]]);
    assert(ics_lines(a + b) =~= la.drop_last().push(line).push(seq![]));
    assert(lines_fit(a + b)) by {
        let c = crlf_lines(a + b);
        assert forall|i: int| 0 <= i < c.len() implies byte_len(#[trigger] c[i]) <= 75 by {
            if i < ra.len() {
                assert(c[i] == ca[i]);
            } else {
                let j = i - ra.len();
                assert(c[i] == cb[j]);
                if j == 0 {
                    assert(cb[0] == parts[0]);
                } else if j < parts.len() {
                    assert(cb[j] == seq![' '] + parts[j]);
                    lemma_byte_len_concat(seq![' '], parts[j]);
                    assert(seq![' '].drop_last() =~= Seq::<char>::empty());
                } else {
                    assert(cb[j] == Seq::<char>::empty());
                }
            }
        }
    }
    assert(lines_clean(a + b)) by {
        let c = crlf_lines(a + b);
        lemma_fold_parts_no_break(line, 75);
        assert forall|i: int| 0 <= i < c.len() implies no_break(#[trigger] c[i]) by {
            if i < ra.len() {
                assert(c[i] == ca[i]);
            } else {
                let j = i - ra.len();
                assert(c[i] == cb[j]);
                if j == 0 {
                    assert(cb[0] == parts[0]);
                } else if j < parts.len() {
                    assert(cb[j] == seq![' '] + parts[j]);
                    assert(no_break(seq![' ']));
                    lemma_no_break_concat(seq![' '], parts[j]);
                } else {
                    assert(cb[j] == Seq::<char>::empty());
                }
            }
        }
    }
    assert((a + b).last() == '\n');
    assert(count_lines(crlf_lines(a + b), "BEGIN:VEVENT"@) == count_lines(ics_lines(a + b), "BEGIN:VEVENT"@)) by {
        let bv = "BEGIN:VEVENT"@;
        reveal_strlit("BEGIN:VEVENT");
        assert(bv.len() == 12);
        let e = Seq::<char>::empty();
        assert(e != bv);
        lemma_raws_count(line);
        lemma_count_concat(ra, cb, bv);
        lemma_count_concat(raws, seq![e], bv);
        assert(raws + seq![e] =~= cb);
        assert(count_lines(Seq::<Seq<char>>::empty(), bv) == 0);
        assert(seq![e].drop_last() =~= Seq::<Seq<char>>::empty());
        assert(seq![e].last() == e);
        // what `a` had
        lemma_split_on_nonempty(a, '\n');
        assert(ca.len() >= 1);
        assert(ca.last() == e) by {
            if a.len() == 0 {
                assert(split_on(a, '\n') =~= seq![seq![]]);
            } else {
                assert(a.drop_last().push(a.last()) =~= a);
            }
        }
        assert(ca =~= ra.push(e));
        assert(la =~= la.drop_last().push(e));
        let l2 = la.drop_last().push(line);
        assert(ics_lines(a + b) == l2.push(e));
        assert(l2.drop_last() =~= la.drop_last());
        let one: nat = if line == bv { 1 } else { 0 };
        assert(ra.push(e).drop_last() =~= ra);
        assert(count_lines(ca, bv) == count_lines(ra, bv));
        assert(la.drop_last().push(e).drop_last() =~= la.drop_last());
        assert(count_lines(la, bv) == count_lines(la.drop_last(), bv));
        assert(l2.push(e).drop_last() =~= l2);
        assert(count_lines(l2.push(e), bv) == count_lines(l2, bv));
        assert(count_lines(l2, bv) == count_lines(la.drop_last(), bv) + one);
        assert(count_lines(cb, bv) == one);
        assert(count_lines(crlf_lines(a + b), bv) == count_lines(ra, bv) + one);
    }
}

/// The feed description of an event starts with the event's own
/// description and, without a link, is exactly it; a link stands on its
/// own after a line feed (alone when there is no description); with
/// neither there is none. So a non-empty description always gives the
/// event a `DESCRIPTION` line.
pub proof fn law_description_keeps_the_event_text(e: CalendarEvent, app_url: Seq<char>)
    ensures
        e.description matches Some(d) ==> description_of(e).take(d@.len() as int) == d@,
        e.description matches Some(d) ==> (e.link is None ==> description_of(e) == d@),
        e.description matches Some(d) ==> (d@.len() > 0 ==> event_lines(e, app_url).contains(
            "DESCRIPTION:"@ + escaped(description_of(e)),
        )),
        e.link matches Some(l) ==> (!(e.description matches Some(d) && d@.len() > 0)
            ==> description_of(e) == l@),
        e.description is None && e.link is None ==> description_of(e).len() == 0,
{
    if let Some(d) = e.description {
        let ds = description_of(e);
        match e.link {
            Some(l) => {
                if d@.len() > 0 {
                    assert((d@.push('\n') + l@).take(d@.len() as int) =~= d@);
                } else {
                    assert(l@.take(0) =~= d@);
                }
            },
            None => {
                assert(ds.take(d@.len() as int) =~= d@);
            },
        }
        if d@.len() > 0 {
            let ls = event_lines(e, app_url);
            let line = "DESCRIPTION:"@ + escaped(ds);
            assert(ds.len() > 0);
            assert(ls[6] == line);
        }
    }
}

/// The content lines of the calendar's opening.
pub open spec fn header_lines() -> Seq<Seq<char>> {
    seq![
        "BEGIN:VCALENDAR"@,
        "VERSION:2.0"@,
        "PRODID:-//Friends Calendar//EN"@,
        "CALSCALE:GREGORIAN"@,
        "METHOD:PUBLISH"@,
        "X-WR-CALNAME:Friends Calendar"@,
    ]
}

/// The content lines of one event.
pub open spec fn event_lines(e: CalendarEvent, app_url: Seq<char>) -> Seq<Seq<char>> {
    seq![
        "BEGIN:VEVENT"@,
        "UID:"@ + uuid_text(e.id) + "@friends-calendar"@,
        "DTSTAMP:"@ + utc_stamp(e.updated_at as int),
        "DTSTART:"@ + utc_stamp(e.start_time as int),
        "DTEND:"@ + utc_stamp(e.end_time as int),
        "SUMMARY:"@ + escaped(e.title@),
    ] + (if description_of(e).len() > 0 {
        seq!["DESCRIPTION:"@ + escaped(description_of(e))]
    } else {
        seq![]
    }) + (match e.location {
        Some(l) => seq!["LOCATION:"@ + escaped(l@)],
        None => seq![],
    }) + seq!["URL:"@ + app_url + "/"@, "END:VEVENT"@]
}

pub open spec fn events_lines(events: Seq<EventWithParticipants>, app_url: Seq<char>) -> Seq<Seq<char>>
    decreases events.len(),
{
    if events.len() == 0 {
        seq![]
    } else {
        events_lines(events.drop_last(), app_url) + event_lines(events.last().event, app_url)
    }
}

/// The content lines of the whole feed, as a calendar app reads them back.
pub open spec fn feed_lines(events: Seq<EventWithParticipants>, app_url: Seq<char>) -> Seq<Seq<char>> {
    header_lines() + events_lines(events, app_url) + seq!["END:VCALENDAR"@]
}

/// How many of `ls` are exactly `x`.
pub open spec fn count_lines(ls: Seq<Seq<char>>, x: Seq<char>) -> nat
    decreases ls.len(),
{
    if ls.len() == 0 {
        0
    } else {
        count_lines(ls.drop_last(), x) + if ls.last() == x {
            1nat
        } else {
            0nat
        }
    }
}

proof fn lemma_count_concat(a: Seq<Seq<char>>, b: Seq<Seq<char>>, x: Seq<char>)
    ensures
        count_lines(a + b, x) == count_lines(a, x) + count_lines(b, x),
    decreases b.len(),
{
    if b.len() == 0 {
        assert(a + b =~= a);
    } else {
        lemma_count_concat(a, b.drop_last(), x);
        assert((a + b).drop_last() =~= a + b.drop_last());
    }
}

proof fn lemma_count_none(ls: Seq<Seq<char>>, x: Seq<char>)
    requires
        forall|i: int| 0 <= i < ls.len() ==> #[trigger] ls[i] != x,
    ensures
        count_lines(ls, x) == 0,
    decreases ls.len(),
{
    if ls.len() > 0 {
        lemma_count_none(ls.drop_last(), x);
    }
}

proof fn lemma_lead(h: Seq<char>, t: Seq<char>)
    requires
        h.len() > 0,
    ensures
        (h + t).len() > 0 && (h + t)[0] == h[0],
{
}

/// The feed holds one event block per event: exactly as many
/// `BEGIN:VEVENT` lines as events.
pub proof fn law_one_block_per_event(events: Seq<EventWithParticipants>, app_url: Seq<char>)
    ensures
        count_lines(feed_lines(events, app_url), "BEGIN:VEVENT"@) == events.len(),
    decreases events.len(),
{
    let b = "BEGIN:VEVENT"@;
    reveal_strlit("BEGIN:VEVENT");
    reveal_strlit("BEGIN:VCALENDAR");
    reveal_strlit("VERSION:2.0");
    reveal_strlit("PRODID:-//Friends Calendar//EN");
    reveal_strlit("CALSCALE:GREGORIAN");
    reveal_strlit("METHOD:PUBLISH");
    reveal_strlit("X-WR-CALNAME:Friends Calendar");
    reveal_strlit("END:VCALENDAR");
    assert forall|i: int| 0 <= i < header_lines().len() implies #[trigger] header_lines()[i] != b by {
        if i == 0 {
            assert(header_lines()[0].len() != b.len());
        } else {
            assert(header_lines()[i][0] != b[0]);
        }
    }
    lemma_count_none(header_lines(), b);
    assert(seq!["END:VCALENDAR"@][0][0] != b[0]);
    lemma_count_none(seq!["END:VCALENDAR"@], b);
    lemma_events_blocks(events, app_url);
    lemma_count_concat(header_lines(), events_lines(events, app_url), b);
    lemma_count_concat(header_lines() + events_lines(events, app_url), seq!["END:VCALENDAR"@], b);
}

proof fn lemma_events_blocks(events: Seq<EventWithParticipants>, app_url: Seq<char>)
    ensures
        count_lines(events_lines(events, app_url), "BEGIN:VEVENT"@) == events.len(),
    decreases events.len(),
{
    if events.len() > 0 {
        lemma_events_blocks(events.drop_last(), app_url);
        lemma_event_block(events.last().event, app_url);
        lemma_count_concat(
            events_lines(events.drop_last(), app_url),
            event_lines(events.last().event, app_url),
            "BEGIN:VEVENT"@,
        );
    }
}

proof fn lemma_event_block(e: CalendarEvent, app_url: Seq<char>)
    ensures
        count_lines(event_lines(e, app_url), "BEGIN:VEVENT"@) == 1,
{
    let b = "BEGIN:VEVENT"@;
    reveal_strlit("BEGIN:VEVENT");
    reveal_strlit("UID:");
    reveal_strlit("DTSTAMP:");
    reveal_strlit("DTSTART:");
    reveal_strlit("DTEND:");
    reveal_strlit("SUMMARY:");
    reveal_strlit("DESCRIPTION:");
    reveal_strlit("LOCATION:");
    reveal_strlit("URL:");
    reveal_strlit("END:VEVENT");
    let ls = event_lines(e, app_url);
    let rest = ls.drop_first();
    assert forall|i: int| 0 <= i < rest.len() implies #[trigger] rest[i] != b by {
        let l = rest[i];
        assert(l == ls[i + 1]);
        if i == 0 {
            lemma_lead("UID:"@, uuid_text(e.id));
            lemma_lead("UID:"@ + uuid_text(e.id), "@friends-calendar"@);
        } else if i == 1 {
            lemma_lead("DTSTAMP:"@, utc_stamp(e.updated_at as int));
        } else if i == 2 {
            lemma_lead("DTSTART:"@, utc_stamp(e.start_time as int));
        } else if i == 3 {
            lemma_lead("DTEND:"@, utc_stamp(e.end_time as int));
        } else if i == 4 {
            lemma_lead("SUMMARY:"@, escaped(e.title@));
        } else {
            lemma_lead("DESCRIPTION:"@, escaped(description_of(e)));
            match e.location {
                Some(x) => lemma_lead("LOCATION:"@, escaped(x@)),
                None => {},
            }
            lemma_lead("URL:"@, app_url);
            lemma_lead("URL:"@ + app_url, "/"@);
        }
        assert(l[0] != b[0] || l.len() != b.len());
    }
    lemma_count_none(rest, b);
    lemma_count_concat(seq![b], rest, b);
    assert(ls[0] == b);
    assert(seq![b] + rest =~= ls);
    assert(seq![b].drop_last() =~= Seq::<Seq<char>>::empty());
    assert(count_lines(Seq::<Seq<char>>::empty(), b) == 0);
    assert(seq![b].last() == b);
    assert(count_lines(seq![b], b) == 1);
}

proof fn lemma_whole_empty()
    ensures
        whole_lines(Seq::<char>::empty()),
        ics_lines(Seq::<char>::empty()).drop_last() == Seq::<Seq<char>>::empty(),
{
    let e = Seq::<char>::empty();
    assert(split_on(e, '\n') =~= seq![e]);
    assert(crlf_lines(e) =~= seq![e]);
    assert(seq![e].drop_last() =~= Seq::<Seq<char>>::empty());
    assert(unfold_lines(Seq::<Seq<char>>::empty()) == Seq::<Seq<char>>::empty());
    assert(ics_lines(e) =~= seq![e]);
    assert(byte_len(e) == 0);
}

/// One more content line on a document of whole lines that reads back as
/// `base` followed by `acc`.
proof fn lemma_emit_more(base: Seq<Seq<char>>, s: Seq<char>, acc: Seq<Seq<char>>, line: Seq<char>)
    requires
        whole_lines(s),
        ics_lines(s).drop_last() == base + acc,
        no_break(line),
        !is_continuation(line),
    ensures
        whole_lines(s + line_doc(line)),
        ics_lines(s + line_doc(line)).drop_last() == base + acc.push(line),
{
    lemma_append_line(s, line);
    assert(ics_lines(s).drop_last().push(line).push(seq![]).drop_last() =~= (base + acc).push(line));
    assert((base + acc).push(line) =~= base + acc.push(line));
}

/// A CRLF at the end of a text adds one empty physical line and changes
/// none of the others.
proof fn lemma_crlf_lines_crlf(s: Seq<char>)
    ensures
        crlf_lines(s + crlf()) == crlf_lines(s).push(seq![]),
{
    let d = s + crlf();
    let sr = s.push('\r');
    assert(d.drop_last() =~= sr);
    assert(sr.drop_last() =~= s);
    let p = split_on(s, '\n');
    lemma_split_on_nonempty(s, '\n');
    let l = p.len() - 1;
    assert(split_on(sr, '\n') == p.update(l, p.last().push('\r')));
    let p2 = split_on(d, '\n');
    assert(p2 == p.update(l, p.last().push('\r')).push(seq![]));
    assert forall|i: int| 0 <= i < p2.len() implies #[trigger] crlf_lines(d)[i] == crlf_lines(s).push(
        seq![],
    )[i] by {
        if i < l {
            assert(p2[i] == p[i]);
        } else if i == l {
            assert(p2[i] == p[l].push('\r'));
            assert(strip_cr(p[l].push('\r')) =~= p[l]);
        }
    }
    assert(crlf_lines(d) =~= crlf_lines(s).push(seq![]));
}

proof fn lemma_byte_len_ascii(s: Seq<char>)
    requires
        forall|i: int| 0 <= i < s.len() ==> (#[trigger] s[i] as u32) < 128,
    ensures
        byte_len(s) == s.len(),
    decreases s.len(),
{
    if s.len() > 0 {
        assert(s.last() == s[s.len() - 1]);
        lemma_byte_len_ascii(s.drop_last());
    }
}

proof fn lemma_prefix_fit_ascii(s: Seq<char>, budget: int)
    requires
        budget >= 0,
        s.len() >= budget,
        forall|i: int| 0 <= i < s.len() ==> (#[trigger] s[i] as u32) < 128,
    ensures
        prefix_fit(s, budget) == budget,
    decreases s.len(),
{
    if budget > 0 {
        let t = s.drop_first();
        assert forall|i: int| 0 <= i < t.len() implies (#[trigger] t[i] as u32) < 128 by {
            assert(t[i] == s[i + 1]);
        }
        assert((s[0] as u32) < 128);
        lemma_prefix_fit_ascii(t, budget - 1);
    } else if s.len() > 0 {
        assert((s[0] as u32) < 128);
    }
}

/// How a line too long for one physical line is folded: into at least two
/// physical lines, the first at most 75 octets and the start of the line,
/// every later one a space and a further piece, at most 75 octets with
/// the space; the pieces put together are the line. For an ASCII line the
/// first physical line takes exactly 75 octets.
pub proof fn law_fold_pieces(line: Seq<char>)
    requires
        no_break(line),
        byte_len(line) > 75,
    ensures
        crlf_lines(folded(line)) == fold_raws(fold_parts(line, 75)),
        fold_parts(line, 75).flatten() == line,
        crlf_lines(folded(line)).len() >= 2,
        crlf_lines(folded(line))[0] == fold_parts(line, 75)[0],
        byte_len(crlf_lines(folded(line))[0]) <= 75,
        forall|i: int|
            1 <= i < crlf_lines(folded(line)).len() ==> (#[trigger] crlf_lines(folded(line))[i]) == seq![
                ' ',
            ] + fold_parts(line, 75)[i] && byte_len(crlf_lines(folded(line))[i]) <= 75,
        (forall|i: int| 0 <= i < line.len() ==> (#[trigger] line[i] as u32) < 128) ==> crlf_lines(
            folded(line),
        )[0].len() == 75,
{
    let parts = fold_parts(line, 75);
    law_fold_keeps_lines_short(line);
    lemma_line_doc_physical(line);
    lemma_crlf_lines_crlf(folded(line));
    let c = crlf_lines(folded(line));
    let raws = fold_raws(parts);
    assert(c.push(seq![]) == raws.push(seq![]));
    assert(c =~= c.push(seq![]).drop_last());
    assert(raws =~= raws.push(seq![]).drop_last());
    assert(line.len() > 0);
    lemma_prefix_fit(line, 75);
    let k = prefix_fit(line, 75);
    assert(k >= 1);
    lemma_fold_parts(line.skip(k), 74);
    assert(parts == seq![line.take(k)] + fold_parts(line.skip(k), 74));
    assert(parts.len() >= 2);
    assert forall|i: int| 1 <= i < c.len() implies (#[trigger] c[i]) == seq![' '] + parts[i]
        && byte_len(c[i]) <= 75 by {
        assert(c[i] == raws[i]);
        lemma_byte_len_concat(seq![' '], parts[i]);
        assert(seq![' '].drop_last() =~= Seq::<char>::empty());
        assert(byte_len(Seq::<char>::empty()) == 0);
        assert(seq![' '].last() == ' ');
        assert(byte_len(seq![' ']) == 1);
        assert(byte_len(fold_parts(line, 75)[i]) + 1 <= 75);
    }
    if forall|i: int| 0 <= i < line.len() ==> (#[trigger] line[i] as u32) < 128 {
        lemma_byte_len_ascii(line);
        lemma_prefix_fit_ascii(line, 75);
        assert(parts[0] == line.take(75));
    }
}

proof fn lemma_short_literal_line(l: Seq<char>)
    requires
        forall|i: int| 0 <= i < l.len() ==> (#[trigger] l[i] as u32) < 128,
        l.len() <= 75,
    ensures
        line_doc(l) == l + seq!['\r', '\n'],
{
    lemma_byte_len_ascii(l);
}

/// The document opens with the calendar's first line and closes with its
/// last.
pub proof fn law_feed_frame(events: Seq<EventWithParticipants>, app_url: Seq<char>)
    ensures
        feed_document(events, app_url).len() >= 17,
        feed_document(events, app_url).take(17) == "BEGIN:VCALENDAR\r\n"@,
        feed_document(events, app_url).skip(feed_document(events, app_url).len() - 15)
            == "END:VCALENDAR\r\n"@,
{
    reveal_strlit("BEGIN:VCALENDAR");
    reveal_strlit("END:VCALENDAR");
    reveal_strlit("BEGIN:VCALENDAR\r\n");
    reveal_strlit("END:VCALENDAR\r\n");
    let b = "BEGIN:VCALENDAR"@;
    let e = "END:VCALENDAR"@;
    assert forall|i: int| 0 <= i < b.len() implies (#[trigger] b[i] as u32) < 128 by {}
    assert forall|i: int| 0 <= i < e.len() implies (#[trigger] e[i] as u32) < 128 by {}
    lemma_short_literal_line(b);
    lemma_short_literal_line(e);
    let d = feed_document(events, app_url);
    let rest = line_doc("VERSION:2.0"@) + line_doc("PRODID:-//Friends Calendar//EN"@) + line_doc(
        "CALSCALE:GREGORIAN"@,
    ) + line_doc("METHOD:PUBLISH"@) + line_doc("X-WR-CALNAME:Friends Calendar"@) + events_doc(
        events,
        app_url,
    );
    assert(d =~= (b + seq!['\r', '\n']) + rest + (e + seq!['\r', '\n']));
    assert(d.take(17) =~= "BEGIN:VCALENDAR\r\n"@);
    assert(d.skip(d.len() - 15) =~= "END:VCALENDAR\r\n"@);
}

/// The token a feed path segment names: the segment without its `.ics`
/// suffix, where it has one.
pub open spec fn token_of_file(file: Seq<char>) -> Seq<char> {
    if file.len() >= 4 && file.skip(file.len() - 4) == ".ics"@ {
        file.take(file.len() - 4)
    } else {
        file
    }
}

/// The token a feed request names: the path's last segment without its
/// `.ics` suffix, where it has one.
pub fn feed_token(file: &str) -> (t: String)
    ensures
        t@ == token_of_file(file@),
{
    let c = to_chars(file);
    let n = c.len();
    let suffix = to_chars(".ics");
    proof {
        reveal_strlit(".ics");
    }
    let mut has = n >= 4;
    if has {
        let mut k: usize = 0;
        while k < 4
            invariant
                n == c@.len() >= 4,
                suffix@ == ".ics"@,
                suffix@.len() == 4,
                k <= 4,
                has == forall|i: int| 0 <= i < k ==> c@[n - 4 + i] == suffix@[i],
            decreases 4 - k,
        {
            has = has && c[n - 4 + k] == suffix[k];
            k = k + 1;
        }
        proof {
            if has {
                assert(c@.skip(n - 4) =~= suffix@);
            } else {
                assert(c@.skip(n - 4) != suffix@) by {
                    let i = choose|i: int| 0 <= i < 4 && c@[n - 4 + i] != suffix@[i];
                    assert(c@.skip(n - 4)[i] != suffix@[i]);
                }
            }
        }
    }
    let end = if has { n - 4 } else { n };
    let kept = crate::text::slice_range(&c, 0, end);
    let mut t = String::new();
    push_chars(&mut t, &kept);
    proof {
        assert(t@ =~= kept@);
        if has {
            assert(kept@ =~= file@.take(file@.len() - 4));
        } else {
            assert(kept@ =~= file@);
        }
    }
    t
}

} // verus!
