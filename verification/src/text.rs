//! Character-level helpers shared by the parsers of the library.

use vstd::prelude::*;

verus! {

/// `c` is one of the ASCII digits `0`..=`9`.
pub open spec fn is_digit(c: char) -> bool {
    '0' <= c && c <= '9'
}

/// The value of an ASCII digit.
pub open spec fn digit_value(c: char) -> nat {
    (c as int - '0' as int) as nat
}

/// Returns the characters of `s`, in order.
pub fn chars_of(s: &str) -> (v: Vec<char>)
    ensures
        v@ == s@,
{
    let n = s.unicode_len();
    let mut v: Vec<char> = Vec::new();
    let mut i: usize = 0;
    while i < n
        invariant
            n == s@.len(),
            i <= n,
            v@ == s@.subrange(0, i as int),
        decreases n - i,
    {
        let c = s.get_char(i);
        v.push(c);
        i = i + 1;
    }
    v
}

/// Appends `c` to `s`.
/// Calls `String::push`, which appends one character at the end.
#[verifier::external_body]
pub(crate) fn push_char(s: &mut String, c: char)
    ensures
        final(s)@ == old(s)@.push(c),
{
    s.push(c);
}

/// Builds a `String` holding the characters of `v`.
pub fn string_from(v: &[char]) -> (s: String)
    ensures
        s@ == v@,
{
    let mut s = String::new();
    let mut i: usize = 0;
    while i < v.len()
        invariant
            i <= v.len(),
            s@ == v@.subrange(0, i as int),
        decreases v.len() - i,
    {
        push_char(&mut s, v[i]);
        i = i + 1;
    }
    s
}

/// Value of a digit character in exec code.
pub fn digit_of(c: char) -> (d: u64)
    requires
        is_digit(c),
    ensures
        d as nat == digit_value(c),
        d < 10,
{
    (c as u32 - '0' as u32) as u64
}


/// `c` is an ASCII character.
pub open spec fn is_ascii_char(c: char) -> bool {
    (c as int) < 128
}

/// ASCII lower-casing of one character: `A`..=`Z` map to `a`..=`z`.
pub open spec fn ascii_lower(c: char) -> char {
    if 'A' <= c && c <= 'Z' {
        ((c as int) + 32) as char
    } else {
        c
    }
}

/// ASCII upper-casing of one character: `a`..=`z` map to `A`..=`Z`.
pub open spec fn ascii_upper(c: char) -> char {
    if 'a' <= c && c <= 'z' {
        ((c as int) - 32) as char
    } else {
        c
    }
}

/// Every character of `s` is ASCII.
pub open spec fn all_ascii(s: Seq<char>) -> bool {
    forall|i: int| 0 <= i < s.len() ==> is_ascii_char(#[trigger] s[i])
}

/// The first character of the Unicode lower-case mapping of `c`
/// (that of `char::to_lowercase`), or `c` itself where the mapping is empty.
pub uninterp spec fn lower_first(c: char) -> char;

/// The Unicode lower-case form of a string (that of `str::to_lowercase`).
pub uninterp spec fn lowercase_of(s: Seq<char>) -> Seq<char>;

/// The Unicode upper-case form of a string (that of `str::to_uppercase`).
pub uninterp spec fn uppercase_of(s: Seq<char>) -> Seq<char>;

/// Calls `char::to_lowercase` and keeps the first character it yields.
/// Stated: the result is `lower_first(c)`, and for an ASCII character it is
/// its ASCII lower-case form, as the standard library documents.
#[verifier::external_body]
pub(crate) fn char_lower_first(c: char) -> (r: char)
    ensures
        r == lower_first(c),
        is_ascii_char(c) ==> r == ascii_lower(c),
{
    c.to_lowercase().next().unwrap_or(c)
}

/// Calls `str::to_lowercase`.
/// Stated: the result is `lowercase_of(s)`, and for an all-ASCII string it is
/// the string with each ASCII upper-case letter lowered.
#[verifier::external_body]
pub(crate) fn str_lowercase(s: &str) -> (r: String)
    ensures
        r@ == lowercase_of(s@),
        all_ascii(s@) ==> r@ == s@.map_values(|c: char| ascii_lower(c)),
{
    s.to_lowercase()
}

/// Calls `str::to_uppercase`.
/// Stated: the result is `uppercase_of(s)`, and for an all-ASCII string it is
/// the string with each ASCII lower-case letter raised.
#[verifier::external_body]
pub(crate) fn str_uppercase(s: &str) -> (r: String)
    ensures
        r@ == uppercase_of(s@),
        all_ascii(s@) ==> r@ == s@.map_values(|c: char| ascii_upper(c)),
{
    s.to_uppercase()
}

/// The decimal digit character for `d < 10`.
pub open spec fn digit_char(d: nat) -> char {
    (('0' as int) + d) as char
}

/// Decimal representation of `n`, without leading zeros.
pub open spec fn decimal(n: nat) -> Seq<char>
    decreases n,
{
    if n < 10 {
        seq![digit_char(n)]
    } else {
        decimal(n / 10).push(digit_char(n % 10))
    }
}

/// The character of a decimal digit.
pub fn digit_to_char(d: u64) -> (c: char)
    requires
        d < 10,
    ensures
        c == digit_char(d as nat),
{
    let b: u8 = 48u8 + (d as u8);
    b as char
}

/// Appends the decimal representation of `n` to `s`.
pub fn push_decimal(s: &mut String, n: u64)
    ensures
        final(s)@ == old(s)@ + decimal(n as nat),
    decreases n,
{
    if n >= 10 {
        push_decimal(s, n / 10);
    }
    let c = digit_to_char(n % 10);
    push_char(s, c);
}

/// Appends the characters of `t` to `s`.
pub fn push_str(s: &mut String, t: &str)
    ensures
        final(s)@ == old(s)@ + t@,
{
    s.append(t);
}

/// Character-wise equality of two strings.
pub fn str_eq(a: &str, b: &str) -> (r: bool)
    ensures
        r == (a@ == b@),
{
    let n = a.unicode_len();
    let m = b.unicode_len();
    if n != m {
        return false;
    }
    let mut i: usize = 0;
    while i < n
        invariant
            n == a@.len(),
            m == b@.len(),
            n == m,
            i <= n,
            a@.subrange(0, i as int) == b@.subrange(0, i as int),
        decreases n - i,
    {
        if a.get_char(i) != b.get_char(i) {
            return false;
        }
        assert(a@.subrange(0, i + 1) == a@.subrange(0, i as int).push(a@[i as int]));
        assert(b@.subrange(0, i + 1) == b@.subrange(0, i as int).push(b@[i as int]));
        i = i + 1;
    }
    assert(a@ == a@.subrange(0, n as int));
    assert(b@ == b@.subrange(0, n as int));
    true
}


/// `c` has the Unicode `White_Space` property (that of `char::is_whitespace`).
pub open spec fn is_ws(c: char) -> bool {
    let n = c as int;
    (0x09 <= n && n <= 0x0d) || n == 0x20 || n == 0x85 || n == 0xa0 || n == 0x1680
        || (0x2000 <= n && n <= 0x200a) || n == 0x2028 || n == 0x2029 || n == 0x202f
        || n == 0x205f || n == 0x3000
}

/// Whether `c` is white space, as `char::is_whitespace` says.
pub fn is_ws_char(c: char) -> (r: bool)
    ensures
        r == is_ws(c),
{
    let n = c as u32;
    (0x09 <= n && n <= 0x0d) || n == 0x20 || n == 0x85 || n == 0xa0 || n == 0x1680
        || (0x2000 <= n && n <= 0x200a) || n == 0x2028 || n == 0x2029 || n == 0x202f
        || n == 0x205f || n == 0x3000
}

/// `s` without its leading white space.
pub open spec fn trim_start(s: Seq<char>) -> Seq<char>
    decreases s.len(),
{
    if s.len() > 0 && is_ws(s[0]) {
        trim_start(s.skip(1))
    } else {
        s
    }
}

/// `s` without its trailing white space.
pub open spec fn trim_end(s: Seq<char>) -> Seq<char>
    decreases s.len(),
{
    if s.len() > 0 && is_ws(s.last()) {
        trim_end(s.drop_last())
    } else {
        s
    }
}

/// `s` without leading and trailing white space (that of `str::trim`).
pub open spec fn trim(s: Seq<char>) -> Seq<char> {
    trim_end(trim_start(s))
}

/// Narrows `[i, j)` of `v` to its part without surrounding white space.
pub fn trim_span(v: &Vec<char>, i: usize, j: usize) -> (r: (usize, usize))
    requires
        i <= j <= v.len(),
    ensures
        i <= r.0 <= r.1 <= j,
        v@.subrange(r.0 as int, r.1 as int) == trim(v@.subrange(i as int, j as int)),
{
    let mut a = i;
    while a < j && is_ws_char(v[a])
        invariant
            i <= a <= j,
            j <= v.len(),
            trim_start(v@.subrange(i as int, j as int)) == trim_start(v@.subrange(a as int, j as int)),
        decreases j - a,
    {
        assert(v@.subrange(a + 1, j as int) =~= v@.subrange(a as int, j as int).skip(1));
        a = a + 1;
    }
    let mut b = j;
    while b > a && is_ws_char(v[b - 1])
        invariant
            a <= b <= j,
            j <= v.len(),
            trim_end(v@.subrange(a as int, j as int)) == trim_end(v@.subrange(a as int, b as int)),
        decreases b,
    {
        assert(v@.subrange(a as int, b - 1) =~= v@.subrange(a as int, b as int).drop_last());
        b = b - 1;
    }
    (a, b)
}

/// Index of the first `c` in `s`, or `s.len()` where there is none.
pub open spec fn find_char(s: Seq<char>, c: char) -> nat
    decreases s.len(),
{
    if s.len() == 0 {
        0
    } else if s[0] == c {
        0
    } else {
        1 + find_char(s.skip(1), c)
    }
}

pub proof fn lemma_find_char(s: Seq<char>, c: char)
    ensures
        find_char(s, c) <= s.len(),
        find_char(s, c) < s.len() ==> s[find_char(s, c) as int] == c,
        forall|k: int| 0 <= k < find_char(s, c) ==> s[k] != c,
    decreases s.len(),
{
    if s.len() > 0 && s[0] != c {
        lemma_find_char(s.skip(1), c);
        assert forall|k: int| 0 <= k < find_char(s, c) implies s[k] != c by {
            if k > 0 {
                assert(s.skip(1)[k - 1] == s[k]);
            }
        }
        if find_char(s, c) < s.len() {
            assert(s.skip(1)[find_char(s.skip(1), c) as int] == s[find_char(s, c) as int]);
        }
    }
}

/// Finds `c` in `v` at or after `i`, before `j`; `j` where it is absent.
pub fn find_from(v: &Vec<char>, c: char, i: usize, j: usize) -> (r: usize)
    requires
        i <= j <= v.len(),
    ensures
        i <= r <= j,
        r == i + find_char(v@.subrange(i as int, j as int), c),
{
    let mut k = i;
    proof {
        lemma_find_char(v@.subrange(i as int, j as int), c);
    }
    while k < j && v[k] != c
        invariant
            i <= k <= j,
            j <= v.len(),
            find_char(v@.subrange(i as int, j as int), c) <= j - i,
            forall|t: int| 0 <= t < find_char(v@.subrange(i as int, j as int), c) ==> v@.subrange(i as int, j as int)[t] != c,
            find_char(v@.subrange(i as int, j as int), c) < j - i ==> v@.subrange(i as int, j as int)[find_char(v@.subrange(i as int, j as int), c) as int] == c,
            k <= i + find_char(v@.subrange(i as int, j as int), c),
        decreases j - k,
    {
        assert(v@.subrange(i as int, j as int)[k - i] == v@[k as int]);
        k = k + 1;
    }
    proof {
        if k < i + find_char(v@.subrange(i as int, j as int), c) {
            assert(v@.subrange(i as int, j as int)[k - i] == v@[k as int]);
        }
    }
    k
}

/// `l` without one trailing carriage return.
pub open spec fn strip_cr(l: Seq<char>) -> Seq<char> {
    if l.len() > 0 && l.last() == '\r' {
        l.drop_last()
    } else {
        l
    }
}

/// The lines of `s`, as `str::lines` yields them: split at `\n`, a `\r`
/// just before the `\n` dropped, and no final empty line after a last `\n`.
pub open spec fn lines_of(s: Seq<char>) -> Seq<Seq<char>>
    decreases s.len(),
{
    if s.len() == 0 {
        Seq::empty()
    } else {
        let i = find_char(s, '\n');
        if i == s.len() {
            seq![s]
        } else {
            proof {
                lemma_find_char(s, '\n');
            }
            seq![strip_cr(s.take(i as int))] + lines_of(s.skip(i as int + 1))
        }
    }
}

/// The next line of `v` from `start`: returns its span `[a, b)` and where
/// the line after it starts.
pub fn next_line(v: &Vec<char>, start: usize) -> (r: (usize, usize, usize))
    requires
        start < v.len(),
    ensures
        start <= r.0 <= r.1 <= r.2 <= v.len(),
        r.2 > start,
        lines_of(v@.skip(start as int)) == seq![v@.subrange(r.0 as int, r.1 as int)] + lines_of(v@.skip(r.2 as int)),
{
    let n = v.len();
    let nl = find_from(v, '\n', start, n);
    let ghost s = v@.skip(start as int);
    proof {
        assert(v@.subrange(start as int, n as int) =~= s);
        lemma_find_char(s, '\n');
    }
    if nl == n {
        proof {
            assert(v@.skip(n as int) =~= Seq::<char>::empty());
            assert(v@.subrange(start as int, n as int) =~= s);
        }
        (start, n, n)
    } else {
        let mut b = nl;
        if b > start && v[b - 1] == '\r' {
            b = b - 1;
        }
        proof {
            assert(s.take(nl - start) =~= v@.subrange(start as int, nl as int));
            assert(s.skip(nl - start + 1) =~= v@.skip(nl + 1));
            assert(v@.subrange(start as int, b as int) =~= strip_cr(v@.subrange(start as int, nl as int)));
        }
        (start, b, nl + 1)
    }
}

/// The decimal value of a run of digits.
pub open spec fn decimal_value(d: Seq<char>) -> nat
    decreases d.len(),
{
    if d.len() == 0 {
        0
    } else {
        decimal_value(d.drop_last()) * 10 + digit_value(d.last())
    }
}

/// All characters of `d` are ASCII digits.
pub open spec fn all_digits(d: Seq<char>) -> bool {
    forall|k: int| 0 <= k < d.len() ==> is_digit(#[trigger] d[k])
}

/// Reads the digits in `[i, j)` of `v` as a number below `limit + 1`;
/// `None` when the span is empty, holds a non-digit or is too large.
pub fn parse_digits(v: &Vec<char>, i: usize, j: usize, limit: u64) -> (r: Option<u64>)
    requires
        i <= j <= v.len(),
    ensures
        match r {
            Some(x) => j > i && all_digits(v@.subrange(i as int, j as int))
                && x as nat == decimal_value(v@.subrange(i as int, j as int)) && x <= limit,
            None => !(j > i && all_digits(v@.subrange(i as int, j as int))
                && decimal_value(v@.subrange(i as int, j as int)) <= limit),
        },
{
    if i == j {
        return None;
    }
    let mut k = i;
    let mut acc: u64 = 0;
    let mut over = false;
    proof {
        assert(v@.subrange(i as int, i as int) =~= Seq::<char>::empty());
    }
    while k < j
        invariant
            i <= k <= j,
            j <= v.len(),
            all_digits(v@.subrange(i as int, k as int)),
            !over ==> acc as nat == decimal_value(v@.subrange(i as int, k as int)) && acc <= limit,
            over ==> decimal_value(v@.subrange(i as int, k as int)) > limit,
        decreases j - k,
    {
        let c = v[k];
        if !('0' <= c && c <= '9') {
            proof {
                assert(v@.subrange(i as int, j as int)[k - i] == c);
            }
            return None;
        }
        let d = digit_of(c);
        let ghost prev = v@.subrange(i as int, k as int);
        proof {
            assert(v@.subrange(i as int, k + 1).drop_last() =~= prev);
            assert(v@.subrange(i as int, k + 1).last() == c);
            assert(all_digits(v@.subrange(i as int, k + 1))) by {
                assert forall|t: int| 0 <= t < k + 1 - i implies is_digit(#[trigger] v@.subrange(i as int, k + 1)[t]) by {
                    if t < k - i {
                        assert(v@.subrange(i as int, k + 1)[t] == prev[t]);
                    }
                }
            }
        }
        if !over {
            if d > limit {
                over = true;
            } else if acc > (limit - d) / 10 {
                over = true;
                proof {
                    assert(acc * 10 + d > limit) by (nonlinear_arith)
                        requires acc > (limit - d) / 10, d <= limit;
                }
            } else {
                proof {
                    assert(acc * 10 + d <= limit) by (nonlinear_arith)
                        requires acc <= (limit - d) / 10, d <= limit;
                }
                acc = acc * 10 + d;
            }
        } else {
            proof {
                assert(decimal_value(prev) * 10 + digit_value(c) > limit) by (nonlinear_arith)
                    requires decimal_value(prev) > limit;
            }
        }
        k = k + 1;
    }
    if over { None } else { Some(acc) }
}


/// Value of `c` as a digit in `radix` (10 or 16), if it is one.
pub open spec fn radix_digit(c: char, radix: nat) -> Option<nat> {
    if '0' <= c && c <= '9' {
        Some((c as int - '0' as int) as nat)
    } else if radix == 16 && 'a' <= c && c <= 'f' {
        Some((c as int - 'a' as int + 10) as nat)
    } else if radix == 16 && 'A' <= c && c <= 'F' {
        Some((c as int - 'A' as int + 10) as nat)
    } else {
        None
    }
}

/// `s` is made of digits of `radix` only.
pub open spec fn all_radix(s: Seq<char>, radix: nat) -> bool {
    forall|k: int| 0 <= k < s.len() ==> (#[trigger] radix_digit(s[k], radix)).is_some()
}

/// The value of a run of digits of `radix`.
pub open spec fn radix_value(s: Seq<char>, radix: nat) -> nat
    decreases s.len(),
{
    if s.len() == 0 {
        0
    } else {
        radix_value(s.drop_last(), radix) * radix + radix_digit(s.last(), radix).unwrap()
    }
}

/// Unsigned number parsing as `from_str_radix` does it: an optional `+`,
/// then at least one digit, all digits of the radix, the value at most
/// `limit`.
pub open spec fn parse_unsigned(s: Seq<char>, radix: nat, limit: nat) -> Option<nat> {
    let digits = if s.len() > 0 && s[0] == '+' { s.skip(1) } else { s };
    if digits.len() > 0 && all_radix(digits, radix) && radix_value(digits, radix) <= limit {
        Some(radix_value(digits, radix))
    } else {
        None
    }
}

fn radix_digit_of(c: char, radix: u64) -> (r: Option<u64>)
    requires
        radix == 10 || radix == 16,
    ensures
        match radix_digit(c, radix as nat) {
            Some(d) => r == Some(d as u64),
            None => r.is_none(),
        },
        r matches Some(d) ==> d < radix,
{
    if '0' <= c && c <= '9' {
        Some((c as u32 - '0' as u32) as u64)
    } else if radix == 16 && 'a' <= c && c <= 'f' {
        Some((c as u32 - 'a' as u32 + 10) as u64)
    } else if radix == 16 && 'A' <= c && c <= 'F' {
        Some((c as u32 - 'A' as u32 + 10) as u64)
    } else {
        None
    }
}

/// Parses `v[i..j]` as an unsigned number (see `parse_unsigned`).
pub fn parse_unsigned_span(v: &Vec<char>, i: usize, j: usize, radix: u64, limit: u64) -> (r: Option<u64>)
    requires
        i <= j <= v.len(),
        radix == 10 || radix == 16,
    ensures
        match parse_unsigned(v@.subrange(i as int, j as int), radix as nat, limit as nat) {
            Some(x) => r == Some(x as u64),
            None => r.is_none(),
        },
{
    let ghost s = v@.subrange(i as int, j as int);
    let mut a = i;
    if i < j {
        assert(s[0] == v@[i as int]);
    }
    if a < j && v[a] == '+' {
        a = a + 1;
        assert(s.skip(1) =~= v@.subrange(a as int, j as int));
    } else {
        assert(s =~= v@.subrange(a as int, j as int));
    }
    let ghost digits = v@.subrange(a as int, j as int);
    if a == j {
        return None;
    }
    let mut k = a;
    let mut acc: u64 = 0;
    let mut over = false;
    proof {
        assert(v@.subrange(a as int, a as int) =~= Seq::<char>::empty());
    }
    while k < j
        invariant
            a <= k <= j,
            j <= v.len(),
            radix == 10 || radix == 16,
            digits == v@.subrange(a as int, j as int),
            s == v@.subrange(i as int, j as int),
            digits == (if s.len() > 0 && s[0] == '+' { s.skip(1) } else { s }),
            all_radix(v@.subrange(a as int, k as int), radix as nat),
            !over ==> acc as nat == radix_value(v@.subrange(a as int, k as int), radix as nat) && acc <= limit,
            over ==> radix_value(v@.subrange(a as int, k as int), radix as nat) > limit,
        decreases j - k,
    {
        let c = v[k];
        let ghost prev = v@.subrange(a as int, k as int);
        let dd = radix_digit_of(c, radix);
        match dd {
            None => {
                proof {
                    assert(digits[k - a] == c);
                    assert(radix_digit(digits[k - a], radix as nat).is_none());
                }
                return None;
            },
            Some(d) => {
                proof {
                    let next = v@.subrange(a as int, k + 1);
                    assert(next.drop_last() =~= prev);
                    assert(next.last() == c);
                    assert forall|t: int| 0 <= t < next.len() implies (#[trigger] radix_digit(next[t], radix as nat)).is_some() by {
                        if t < prev.len() {
                            assert(next[t] == prev[t]);
                        }
                    }
                }
                if !over {
                    if d > limit {
                        over = true;
                        proof {
                            assert(acc * radix + d > limit) by (nonlinear_arith)
                                requires d > limit, acc >= 0, radix > 0;
                        }
                    } else if acc > (limit - d) / radix {
                        over = true;
                        proof {
                            assert(acc * radix + d > limit) by (nonlinear_arith)
                                requires acc > (limit - d) / (radix as int), d <= limit, radix > 0;
                        }
                    } else {
                        proof {
                            assert(acc * radix + d <= limit) by (nonlinear_arith)
                                requires acc <= (limit - d) / (radix as int), d <= limit, radix > 0;
                        }
                        acc = acc * radix + d;
                    }
                } else {
                    proof {
                        assert(radix_value(prev, radix as nat) * radix + d > limit) by (nonlinear_arith)
                            requires radix_value(prev, radix as nat) > limit, radix > 0;
                    }
                }
            },
        }
        k = k + 1;
    }
    if over { None } else { Some(acc) }
}

/// `s` starts with `t`.
pub open spec fn starts_with(s: Seq<char>, t: Seq<char>) -> bool {
    s.len() >= t.len() && s.take(t.len() as int) == t
}

/// `t` occurs in `s` starting at `i`.
pub open spec fn occurs_at(s: Seq<char>, t: Seq<char>, i: int) -> bool {
    0 <= i && i + t.len() <= s.len() && s.subrange(i, i + t.len()) == t
}

/// `t` occurs somewhere in `s`.
pub open spec fn contains(s: Seq<char>, t: Seq<char>) -> bool {
    exists|i: int| occurs_at(s, t, i)
}

/// Whether `t` occurs in `v` at `i`.
pub fn occurs_at_exec(v: &Vec<char>, t: &Vec<char>, i: usize, end: usize) -> (r: bool)
    requires
        end <= v.len(),
        i <= end,
    ensures
        r == occurs_at(v@.subrange(0, end as int), t@, i as int),
{
    if t.len() > end - i {
        return false;
    }
    let mut k: usize = 0;
    while k < t.len()
        invariant
            k <= t.len(),
            i + t.len() <= end,
            end <= v.len(),
            forall|u: int| 0 <= u < k ==> v@[i + u] == t@[u],
        decreases t.len() - k,
    {
        if v[i + k] != t[k] {
            assert(v@.subrange(0, end as int).subrange(i as int, i + t@.len())[k as int] == v@[i + k]);
            return false;
        }
        k = k + 1;
    }
    assert(v@.subrange(0, end as int).subrange(i as int, i + t@.len()) =~= t@);
    true
}

/// Whether `t` occurs in `v[a..b]`.
pub fn contains_exec(v: &Vec<char>, a: usize, b: usize, t: &Vec<char>) -> (r: bool)
    requires
        a <= b <= v.len(),
    ensures
        r == contains(v@.subrange(a as int, b as int), t@),
{
    let ghost s = v@.subrange(a as int, b as int);
    let mut i = a;
    while i <= b
        invariant
            a <= i <= b + 1,
            b <= v.len(),
            s == v@.subrange(a as int, b as int),
            forall|u: int| 0 <= u < i - a ==> !occurs_at(s, t@, u),
        decreases b + 1 - i,
    {
        if occurs_at_exec(v, t, i, b) {
            proof {
                assert(v@.subrange(0, b as int).subrange(i as int, i + t@.len()) =~= s.subrange(i - a, i - a + t@.len()));
                assert(occurs_at(s, t@, i - a));
            }
            return true;
        }
        proof {
            if i + t@.len() <= b {
                assert(v@.subrange(0, b as int).subrange(i as int, i + t@.len()) =~= s.subrange(i - a, i - a + t@.len()));
            }
        }
        if i == b {
            proof {
                assert forall|u: int| !occurs_at(s, t@, u) by {
                    if 0 <= u && u < i + 1 - a {
                    }
                }
            }
            return false;
        }
        i = i + 1;
    }
    false
}

} // verus!
