//! Character-level helpers shared by the formatting and parsing modules.

use vstd::prelude::*;

verus! {

/// `String::push` appends one character.
pub assume_specification[ String::push ](s: &mut String, ch: char)
    ensures
        final(s)@ == old(s)@.push(ch),
;

/// The characters of `s`, in order.
pub fn to_chars(s: &str) -> (v: Vec<char>)
    ensures
        v@ == s@,
{
    let mut v: Vec<char> = Vec::new();
    for c in it: s.chars()
        invariant
            v@ == it.seq().take(it.index() as int),
            it.seq() == s@,
    {
        v.push(c);
    }
    v
}

/// Appends every character of `chars` to `out`.
pub fn push_chars(out: &mut String, chars: &[char])
    ensures
        final(out)@ == old(out)@ + chars@,
{
    let ghost start = out@;
    let mut i: usize = 0;
    while i < chars.len()
        invariant
            i <= chars@.len(),
            out@ == start + chars@.take(i as int),
        decreases chars@.len() - i,
    {
        out.push(chars[i]);
        i = i + 1;
        assert(out@ =~= start + chars@.take(i as int));
    }
    assert(chars@.take(chars@.len() as int) =~= chars@);
}

/// Appends every character of `chars` to the vector `out`.
pub fn extend_chars(out: &mut Vec<char>, chars: &[char])
    ensures
        final(out)@ == old(out)@ + chars@,
{
    let ghost start = out@;
    let mut i: usize = 0;
    while i < chars.len()
        invariant
            i <= chars@.len(),
            out@ == start + chars@.take(i as int),
        decreases chars@.len() - i,
    {
        out.push(chars[i]);
        i = i + 1;
        assert(out@ =~= start + chars@.take(i as int));
    }
    assert(chars@.take(chars@.len() as int) =~= chars@);
}

/// A new string holding exactly `chars`.
pub fn string_from(chars: &[char]) -> (s: String)
    ensures
        s@ == chars@,
{
    let mut s = String::new();
    push_chars(&mut s, chars);
    assert(s@ =~= chars@);
    s
}

/// Appends the string slice `piece` to `out`.
pub fn push_str(out: &mut String, piece: &str)
    ensures
        final(out)@ == old(out)@ + piece@,
{
    out.append(piece);
}

/// The ASCII digit character for `d` in `0..10`.
pub open spec fn digit_char(d: int) -> char {
    (48 + d) as char
}

/// Decimal digits of a natural number, most significant first, no padding.
pub open spec fn nat_decimal(n: nat) -> Seq<char>
    decreases n,
{
    if n < 10 {
        seq![digit_char(n as int)]
    } else {
        nat_decimal(n / 10) + seq![digit_char((n % 10) as int)]
    }
}

/// Decimal rendering of an integer, with a leading `-` when negative - what
/// `format!("{n}")` writes for a Rust integer.
pub open spec fn int_decimal(n: int) -> Seq<char> {
    if n < 0 {
        seq!['-'] + nat_decimal((-n) as nat)
    } else {
        nat_decimal(n as nat)
    }
}

fn digit(d: u64) -> (c: char)
    requires
        d < 10,
    ensures
        c == digit_char(d as int),
{
    let b: u8 = 48u8 + (d as u8);
    b as char
}

/// Appends the decimal digits of `n`.
pub fn push_nat(out: &mut String, n: u64)
    ensures
        final(out)@ == old(out)@ + nat_decimal(n as nat),
    decreases n,
{
    let ghost start = out@;
    if n >= 10 {
        push_nat(out, n / 10);
    }
    out.push(digit(n % 10));
    assert(out@ =~= start + nat_decimal(n as nat));
}

/// Appends `n` in decimal, as `format!("{n}")` would.
pub fn push_int(out: &mut String, n: i64)
    ensures
        final(out)@ == old(out)@ + int_decimal(n as int),
{
    let ghost start = out@;
    if n < 0 {
        out.push('-');
        let m: u64 = (0i128 - (n as i128)) as u64;
        push_nat(out, m);
        assert(out@ =~= start + int_decimal(n as int));
    } else {
        push_nat(out, n as u64);
    }
}

/// Whether `c` has the Unicode `White_Space` property, which is what
/// `char::is_whitespace` and `str::trim` test.
pub open spec fn is_white(c: char) -> bool {
    let x = c as u32;
    ||| 9 <= x <= 13
    ||| x == 32
    ||| x == 0x85
    ||| x == 0xA0
    ||| x == 0x1680
    ||| 0x2000 <= x <= 0x200A
    ||| x == 0x2028
    ||| x == 0x2029
    ||| x == 0x202F
    ||| x == 0x205F
    ||| x == 0x3000
}

pub fn is_whitespace(c: char) -> (b: bool)
    ensures
        b == is_white(c),
{
    let x = c as u32;
    (9 <= x && x <= 13) || x == 32 || x == 0x85 || x == 0xA0 || x == 0x1680 || (0x2000 <= x
        && x <= 0x200A) || x == 0x2028 || x == 0x2029 || x == 0x202F || x == 0x205F || x
        == 0x3000
}

/// `s` without its leading white space.
pub open spec fn trim_start(s: Seq<char>) -> Seq<char>
    decreases s.len(),
{
    if s.len() > 0 && is_white(s[0]) {
        trim_start(s.drop_first())
    } else {
        s
    }
}

/// `s` without its trailing white space.
pub open spec fn trim_end(s: Seq<char>) -> Seq<char>
    decreases s.len(),
{
    if s.len() > 0 && is_white(s.last()) {
        trim_end(s.drop_last())
    } else {
        s
    }
}

/// `s` without white space at either end, as `str::trim` returns it.
pub open spec fn trim(s: Seq<char>) -> Seq<char> {
    trim_end(trim_start(s))
}

/// Index just past the trailing white space of `s[lo..hi]`.
pub fn trim_end_index(s: &[char], lo: usize, hi: usize) -> (j: usize)
    requires
        lo <= hi <= s@.len(),
    ensures
        lo <= j <= hi,
        trim_end(s@.subrange(lo as int, hi as int)) == s@.subrange(lo as int, j as int),
{
    let mut j = hi;
    while j > lo && is_whitespace(s[j - 1])
        invariant
            lo <= j <= hi <= s@.len(),
            trim_end(s@.subrange(lo as int, hi as int)) == trim_end(
                s@.subrange(lo as int, j as int),
            ),
        decreases j,
    {
        assert(s@.subrange(lo as int, j as int).drop_last() =~= s@.subrange(
            lo as int,
            j - 1,
        ));
        j = j - 1;
    }
    j
}

/// Index of the first non-white character of `s[lo..hi]`, or `hi`.
pub fn trim_start_index(s: &[char], lo: usize, hi: usize) -> (i: usize)
    requires
        lo <= hi <= s@.len(),
    ensures
        lo <= i <= hi,
        trim_start(s@.subrange(lo as int, hi as int)) == s@.subrange(i as int, hi as int),
{
    let mut i = lo;
    while i < hi && is_whitespace(s[i])
        invariant
            lo <= i <= hi <= s@.len(),
            trim_start(s@.subrange(lo as int, hi as int)) == trim_start(
                s@.subrange(i as int, hi as int),
            ),
        decreases hi - i,
    {
        assert(s@.subrange(i as int, hi as int).drop_first() =~= s@.subrange(
            i + 1,
            hi as int,
        ));
        i = i + 1;
    }
    i
}

/// The bounds of `s[lo..hi]` trimmed at both ends.
pub fn trim_bounds(s: &[char], lo: usize, hi: usize) -> (r: (usize, usize))
    requires
        lo <= hi <= s@.len(),
    ensures
        lo <= r.0 <= r.1 <= hi,
        trim(s@.subrange(lo as int, hi as int)) == s@.subrange(r.0 as int, r.1 as int),
{
    let i = trim_start_index(s, lo, hi);
    let j = trim_end_index(s, i, hi);
    (i, j)
}

/// `s` trimmed at both ends, as a new string.
pub fn trimmed(s: &[char]) -> (r: Vec<char>)
    ensures
        r@ == trim(s@),
{
    let (i, j) = trim_bounds(s, 0, s.len());
    assert(s@.subrange(0, s@.len() as int) =~= s@);
    slice_range(s, i, j)
}

/// A copy of `s[lo..hi]`.
pub fn slice_range(s: &[char], lo: usize, hi: usize) -> (r: Vec<char>)
    requires
        lo <= hi <= s@.len(),
    ensures
        r@ == s@.subrange(lo as int, hi as int),
{
    let mut r: Vec<char> = Vec::new();
    let mut k = lo;
    while k < hi
        invariant
            lo <= k <= hi <= s@.len(),
            r@ == s@.subrange(lo as int, k as int),
        decreases hi - k,
    {
        r.push(s[k]);
        k = k + 1;
        assert(r@ =~= s@.subrange(lo as int, k as int));
    }
    r
}

/// ASCII upper-casing of one character, as `char::to_ascii_uppercase`.
pub open spec fn upper(c: char) -> char {
    if 'a' <= c <= 'z' {
        ((c as u32) - 32) as char
    } else {
        c
    }
}

/// ASCII upper-casing of a string, as `str::to_ascii_uppercase`.
pub open spec fn upper_all(s: Seq<char>) -> Seq<char> {
    s.map_values(|c: char| upper(c))
}

pub fn to_upper(c: char) -> (r: char)
    ensures
        r == upper(c),
{
    if 'a' <= c && c <= 'z' {
        let x: u32 = (c as u32) - 32;
        let b: u8 = x as u8;
        b as char
    } else {
        c
    }
}

/// `s` upper-cased in the ASCII range.
pub fn upper_chars(s: &[char]) -> (r: Vec<char>)
    ensures
        r@ == upper_all(s@),
{
    let mut r: Vec<char> = Vec::new();
    let mut k: usize = 0;
    while k < s.len()
        invariant
            k <= s@.len(),
            r@ == upper_all(s@.take(k as int)),
        decreases s@.len() - k,
    {
        r.push(to_upper(s[k]));
        k = k + 1;
        assert(r@ =~= upper_all(s@.take(k as int)));
    }
    assert(s@.take(s@.len() as int) =~= s@);
    r
}

/// Case-insensitive ASCII equality, as `str::eq_ignore_ascii_case`.
pub open spec fn eq_ignore_case(a: Seq<char>, b: Seq<char>) -> bool {
    upper_all(a) == upper_all(b)
}

/// Whether two character sequences are equal.
pub fn chars_eq(a: &[char], b: &[char]) -> (r: bool)
    ensures
        r == (a@ == b@),
{
    if a.len() != b.len() {
        return false;
    }
    let mut k: usize = 0;
    while k < a.len()
        invariant
            k <= a@.len() == b@.len(),
            forall|i: int| 0 <= i < k ==> a@[i] == b@[i],
        decreases a@.len() - k,
    {
        if a[k] != b[k] {
            return false;
        }
        k = k + 1;
    }
    assert(a@ =~= b@);
    true
}

/// Case-insensitive ASCII comparison with a fixed upper-case word.
pub fn eq_upper(a: &[char], word: &[char]) -> (r: bool)
    requires
        upper_all(word@) == word@,
    ensures
        r == eq_ignore_case(a@, word@),
{
    let ua = upper_chars(a);
    let r = chars_eq(&ua, word);
    assert(r == eq_ignore_case(a@, word@)) by {
        if upper_all(a@) == upper_all(word@) {
            assert(ua@ == word@);
        }
    }
    r
}

} // verus!

verus! {

/// One step of a prefix filter: the filter of the first `i + 1` elements
/// extends the filter of the first `i` by at most that element.
pub proof fn lemma_filter_step<A>(s: Seq<A>, i: int, p: spec_fn(A) -> bool)
    requires
        0 <= i < s.len(),
    ensures
        s.take(i + 1).filter(p) == (if p(s[i]) {
            s.take(i).filter(p).push(s[i])
        } else {
            s.take(i).filter(p)
        }),
{
    reveal_with_fuel(Seq::filter, 1);
    assert(s.take(i + 1).drop_last() =~= s.take(i));
    assert(s.take(i + 1).last() == s[i]);
}

/// Inserting `x` adds exactly `x` to what a sequence contains.
pub proof fn lemma_insert_contains<A>(s: Seq<A>, p: int, x: A, y: A)
    requires
        0 <= p <= s.len(),
    ensures
        s.insert(p, x).contains(y) <==> (s.contains(y) || y == x),
{
    s.insert_ensures(p, x);
    let t = s.insert(p, x);
    if t.contains(y) {
        let k = choose|k: int| 0 <= k < t.len() && t[k] == y;
        if k < p {
            assert(s[k] == y);
        } else if k > p {
            assert(s[k - 1] == y);
        }
    }
    if s.contains(y) {
        let k = choose|k: int| 0 <= k < s.len() && s[k] == y;
        if k < p {
            assert(t[k] == y);
        } else {
            assert(t[k + 1] == y);
        }
    }
    if y == x {
        assert(t[p] == y);
    }
}

} // verus!

verus! {

/// Octets `c` takes in UTF-8.
pub open spec fn utf8_len(c: char) -> int {
    let x = c as u32;
    if x < 0x80 {
        1
    } else if x < 0x800 {
        2
    } else if x < 0x10000 {
        3
    } else {
        4
    }
}

/// Octets `s` takes in UTF-8 - what `str::len` returns.
pub open spec fn byte_len(s: Seq<char>) -> int
    decreases s.len(),
{
    if s.len() == 0 {
        0
    } else {
        byte_len(s.drop_last()) + utf8_len(s.last())
    }
}

pub fn char_utf8_len(c: char) -> (n: usize)
    ensures
        n as int == utf8_len(c),
        1 <= n <= 4,
{
    let x = c as u32;
    if x < 0x80 {
        1
    } else if x < 0x800 {
        2
    } else if x < 0x10000 {
        3
    } else {
        4
    }
}

pub proof fn lemma_byte_len_bounds(s: Seq<char>)
    ensures
        s.len() <= byte_len(s) <= 4 * s.len(),
    decreases s.len(),
{
    if s.len() > 0 {
        lemma_byte_len_bounds(s.drop_last());
    }
}

/// Octets of `s[lo..hi]`, as a `u128` so no length can overflow it.
pub fn byte_len_of(s: &[char], lo: usize, hi: usize) -> (n: u128)
    requires
        lo <= hi <= s@.len(),
    ensures
        n as int == byte_len(s@.subrange(lo as int, hi as int)),
{
    let mut n: u128 = 0;
    let mut k = lo;
    while k < hi
        invariant
            lo <= k <= hi <= s@.len(),
            n as int == byte_len(s@.subrange(lo as int, k as int)),
            n <= 4 * (k - lo),
        decreases hi - k,
    {
        proof {
            assert(s@.subrange(lo as int, k + 1).drop_last() =~= s@.subrange(lo as int, k as int));
        }
        n = n + (char_utf8_len(s[k]) as u128);
        k = k + 1;
    }
    n
}

/// Whether `c` is an ASCII digit.
pub open spec fn is_digit(c: char) -> bool {
    '0' <= c <= '9'
}

/// Value of a run of ASCII digits.
pub open spec fn digits_value(s: Seq<char>) -> int
    decreases s.len(),
{
    if s.len() == 0 {
        0
    } else {
        digits_value(s.drop_last()) * 10 + (s.last() as int - 48)
    }
}

pub open spec fn all_digits(s: Seq<char>) -> bool {
    forall|i: int| 0 <= i < s.len() ==> is_digit(#[trigger] s[i])
}

/// What `str::parse` returns for an integer type with range
/// `[min, max]`: an optional `+` (or `-` when `min < 0`), then one or more
/// ASCII digits whose value is in range.
pub open spec fn parse_int(s: Seq<char>, min: int, max: int) -> Option<int> {
    if s.len() == 0 {
        None
    } else if (s[0] == '+' || s[0] == '-') && s.len() == 1 {
        None
    } else if s[0] == '-' && min < 0 {
        let d = s.drop_first();
        if all_digits(d) && min <= -digits_value(d) {
            Some(-digits_value(d))
        } else {
            None
        }
    } else {
        let d = if s[0] == '+' { s.drop_first() } else { s };
        if all_digits(d) && digits_value(d) <= max {
            Some(digits_value(d))
        } else {
            None
        }
    }
}

proof fn lemma_digits_value_nonneg(s: Seq<char>)
    requires
        all_digits(s),
    ensures
        digits_value(s) >= 0,
    decreases s.len(),
{
    if s.len() > 0 {
        lemma_digits_value_nonneg(s.drop_last());
    }
}

/// Reads the digits of `s[lo..]` into a value, stopping with `None` as
/// soon as it exceeds `limit` or a non-digit is seen.
fn digits_upto(s: &[char], lo: usize, limit: u64) -> (r: Option<u64>)
    requires
        lo <= s@.len(),
    ensures
        match r {
            Some(v) => all_digits(s@.subrange(lo as int, s@.len() as int)) && v as int
                == digits_value(s@.subrange(lo as int, s@.len() as int)) && v <= limit,
            None => !(all_digits(s@.subrange(lo as int, s@.len() as int)) && digits_value(
                s@.subrange(lo as int, s@.len() as int),
            ) <= limit),
        },
{
    let mut v: u64 = 0;
    let mut k = lo;
    while k < s.len()
        invariant
            lo <= k <= s@.len(),
            all_digits(s@.subrange(lo as int, k as int)),
            v as int == digits_value(s@.subrange(lo as int, k as int)),
            v <= limit,
        decreases s@.len() - k,
    {
        let c = s[k];
        proof {
            assert(s@.subrange(lo as int, k + 1).drop_last() =~= s@.subrange(lo as int, k as int));
        }
        if !('0' <= c && c <= '9') {
            proof {
                assert(!is_digit(s@.subrange(lo as int, s@.len() as int)[k - lo]));
            }
            return None;
        }
        let d: u64 = (c as u32 - 48) as u64;
        if d > limit || v > (limit - d) / 10 {
            proof {
                lemma_digits_prefix_grows(s@.subrange(lo as int, s@.len() as int), (k - lo + 1) as int);
                assert(s@.subrange(lo as int, s@.len() as int).take((k - lo + 1) as int) =~= s@.subrange(lo as int, k + 1));
            }
            return None;
        }
        v = v * 10 + d;
        k = k + 1;
        proof {
            assert forall|i: int| 0 <= i < s@.subrange(lo as int, k as int).len() implies is_digit(
                #[trigger] s@.subrange(lo as int, k as int)[i],
            ) by {
                if i < k - 1 - lo {
                    assert(s@.subrange(lo as int, k as int)[i] == s@.subrange(lo as int, k - 1)[i]);
                }
            }
        }
    }
    Some(v)
}

/// A run of digits is worth at least any of its prefixes.
proof fn lemma_digits_prefix_grows(s: Seq<char>, n: int)
    requires
        0 <= n <= s.len(),
    ensures
        all_digits(s) ==> digits_value(s.take(n)) <= digits_value(s),
    decreases s.len(),
{
    if n < s.len() && all_digits(s) {
        assert(s.take(n) =~= s.drop_last().take(n));
        assert(all_digits(s.drop_last())) by {
            assert forall|i: int| 0 <= i < s.drop_last().len() implies is_digit(#[trigger] s.drop_last()[i]) by {
                assert(s.drop_last()[i] == s[i]);
            }
        }
        lemma_digits_prefix_grows(s.drop_last(), n);
        lemma_digits_value_nonneg(s.drop_last());
    } else if n == s.len() {
        assert(s.take(n) =~= s);
    }
}

/// `str::parse::<i64>`.
pub fn parse_i64(s: &[char]) -> (r: Option<i64>)
    ensures
        r matches Some(v) ==> parse_int(s@, i64::MIN as int, i64::MAX as int) == Some(v as int),
        r is None ==> parse_int(s@, i64::MIN as int, i64::MAX as int) is None,
{
    if s.len() == 0 {
        return None;
    }
    if (s[0] == '+' || s[0] == '-') && s.len() == 1 {
        return None;
    }
    if s[0] == '-' {
        let m = digits_upto(s, 1, 9223372036854775808u64);
        proof {
            assert(s@.drop_first() =~= s@.subrange(1, s@.len() as int));
        }
        match m {
            Some(v) => {
                let r: i64 = (0i128 - (v as i128)) as i64;
                Some(r)
            },
            None => None,
        }
    } else {
        let lo: usize = if s[0] == '+' { 1 } else { 0 };
        let m = digits_upto(s, lo, 9223372036854775807u64);
        proof {
            if lo == 1 {
                assert(s@.drop_first() =~= s@.subrange(1, s@.len() as int));
            } else {
                assert(s@ =~= s@.subrange(0, s@.len() as int));
            }
        }
        match m {
            Some(v) => Some(v as i64),
            None => None,
        }
    }
}

/// `str::parse::<usize>`.
pub fn parse_usize(s: &[char]) -> (r: Option<usize>)
    ensures
        r matches Some(v) ==> parse_int(s@, 0, usize::MAX as int) == Some(v as int),
        r is None ==> parse_int(s@, 0, usize::MAX as int) is None,
{
    if s.len() == 0 {
        return None;
    }
    if (s[0] == '+' || s[0] == '-') && s.len() == 1 {
        return None;
    }
    let lo: usize = if s[0] == '+' { 1 } else { 0 };
    let m = digits_upto(s, lo, usize::MAX as u64);
    proof {
        if lo == 1 {
            assert(s@.drop_first() =~= s@.subrange(1, s@.len() as int));
        } else {
            assert(s@ =~= s@.subrange(0, s@.len() as int));
        }
    }
    match m {
        Some(v) => Some(v as usize),
        None => None,
    }
}

/// `str::parse::<u64>`.
pub fn parse_u64(s: &[char]) -> (r: Option<u64>)
    ensures
        r matches Some(v) ==> parse_int(s@, 0, u64::MAX as int) == Some(v as int),
        r is None ==> parse_int(s@, 0, u64::MAX as int) is None,
{
    if s.len() == 0 {
        return None;
    }
    if (s[0] == '+' || s[0] == '-') && s.len() == 1 {
        return None;
    }
    let lo: usize = if s[0] == '+' { 1 } else { 0 };
    let m = digits_upto(s, lo, u64::MAX);
    proof {
        if lo == 1 {
            assert(s@.drop_first() =~= s@.subrange(1, s@.len() as int));
        } else {
            assert(s@ =~= s@.subrange(0, s@.len() as int));
        }
    }
    m
}

/// Index of the first `c` in `s`, if any.
pub open spec fn first_index(s: Seq<char>, c: char) -> Option<int> {
    if exists|i: int| 0 <= i < s.len() && s[i] == c {
        Some(choose|i: int| 0 <= i < s.len() && s[i] == c && forall|j: int| 0 <= j < i ==> s[j] != c)
    } else {
        None
    }
}

/// `str::split_once(c)`: the parts before and after the first `c`.
pub open spec fn split_once(s: Seq<char>, c: char) -> Option<(Seq<char>, Seq<char>)> {
    match first_index(s, c) {
        Some(i) => Some((s.take(i), s.skip(i + 1))),
        None => None,
    }
}

/// Position of the first `c` in `s[lo..hi]`, or `hi`.
pub fn find_char(s: &[char], lo: usize, hi: usize, c: char) -> (i: usize)
    requires
        lo <= hi <= s@.len(),
    ensures
        lo <= i <= hi,
        forall|j: int| lo <= j < i ==> s@[j] != c,
        i < hi ==> s@[i as int] == c,
{
    let mut i = lo;
    while i < hi && s[i] != c
        invariant
            lo <= i <= hi <= s@.len(),
            forall|j: int| lo <= j < i ==> s@[j] == s@[j] && s@[j] != c,
        decreases hi - i,
    {
        i = i + 1;
    }
    i
}

/// Exec `split_once`.
pub fn split_once_at(s: &[char], c: char) -> (r: Option<(Vec<char>, Vec<char>)>)
    ensures
        match r {
            Some((a, b)) => split_once(s@, c) == Some((a@, b@)),
            None => split_once(s@, c) is None,
        },
{
    let i = find_char(s, 0, s.len(), c);
    if i < s.len() {
        let a = slice_range(s, 0, i);
        let b = slice_range(s, i + 1, s.len());
        proof {
            assert(exists|j: int| 0 <= j < s@.len() && s@[j] == c);
            let k = choose|j: int| 0 <= j < s@.len() && s@[j] == c && forall|m: int| 0 <= m < j ==> s@[m] != c;
            assert(k == i as int) by {
                if k < i { assert(s@[k] != c); }
                if k > i { assert(s@[i as int] != c); }
            }
            assert(a@ =~= s@.take(i as int));
            assert(b@ =~= s@.skip(i + 1));
        }
        Some((a, b))
    } else {
        None
    }
}

/// `str::split(c)`: the pieces between occurrences of `c`, always at least
/// one.
pub open spec fn split_on(s: Seq<char>, c: char) -> Seq<Seq<char>>
    decreases s.len(),
{
    if s.len() == 0 {
        seq![seq![]]
    } else {
        let r = split_on(s.drop_last(), c);
        if s.last() == c {
            r.push(seq![])
        } else {
            r.update(r.len() - 1, r.last().push(s.last()))
        }
    }
}

pub proof fn lemma_split_on_nonempty(s: Seq<char>, c: char)
    ensures
        split_on(s, c).len() >= 1,
    decreases s.len(),
{
    if s.len() > 0 {
        lemma_split_on_nonempty(s.drop_last(), c);
    }
}

/// Exec `split`.
pub fn split_all(s: &[char], c: char) -> (r: Vec<Vec<char>>)
    ensures
        r@.len() == split_on(s@, c).len(),
        forall|i: int| 0 <= i < r@.len() ==> (#[trigger] r@[i])@ == split_on(s@, c)[i],
{
    let mut done: Vec<Vec<char>> = Vec::new();
    let mut cur: Vec<char> = Vec::new();
    let mut k: usize = 0;
    while k < s.len()
        invariant
            k <= s@.len(),
            split_on(s@.take(k as int), c).len() == done@.len() + 1,
            forall|i: int| 0 <= i < done@.len() ==> (#[trigger] done@[i])@ == split_on(s@.take(k as int), c)[i],
            cur@ == split_on(s@.take(k as int), c).last(),
        decreases s@.len() - k,
    {
        proof {
            assert(s@.take(k + 1).drop_last() =~= s@.take(k as int));
            lemma_split_on_nonempty(s@.take(k as int), c);
        }
        if s[k] == c {
            done.push(cur);
            cur = Vec::new();
        } else {
            cur.push(s[k]);
        }
        k = k + 1;
    }
    done.push(cur);
    proof {
        assert(s@.take(s@.len() as int) =~= s@);
    }
    done
}

/// Whether `p` is a prefix of `s`.
pub open spec fn starts_with(s: Seq<char>, p: Seq<char>) -> bool {
    p.len() <= s.len() && s.take(p.len() as int) == p
}

pub fn has_prefix(s: &[char], p: &[char]) -> (b: bool)
    ensures
        b == starts_with(s@, p@),
{
    if p.len() > s.len() {
        return false;
    }
    let mut k: usize = 0;
    while k < p.len()
        invariant
            k <= p@.len() <= s@.len(),
            forall|i: int| 0 <= i < k ==> s@[i] == p@[i],
        decreases p@.len() - k,
    {
        if s[k] != p[k] {
            proof {
                assert(s@.take(p@.len() as int)[k as int] != p@[k as int]);
            }
            return false;
        }
        k = k + 1;
    }
    assert(s@.take(p@.len() as int) =~= p@);
    true
}

} // verus!
