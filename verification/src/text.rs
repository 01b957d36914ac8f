//! Strings and their bytes.

use vstd::prelude::*;

verus! {

use vstd::utf8::{decode_utf8, encode_utf8, encode_utf8_decode_utf8, valid_utf8};

/// The UTF-8 bytes of a string.
pub open spec fn utf8(s: Seq<char>) -> Seq<u8> {
    encode_utf8(s)
}

/// Wraps `String::from_utf8`, which succeeds exactly on well-formed UTF-8 and then
/// returns the string that the bytes encode.
#[verifier::external_body]
pub(crate) fn string_from_utf8(bytes: Vec<u8>) -> (r: Option<String>)
    ensures
        match r {
            Some(s) => valid_utf8(bytes@) && s@ == decode_utf8(bytes@),
            None => !valid_utf8(bytes@),
        },
{
    String::from_utf8(bytes).ok()
}

/// Two strings with the same bytes are the same.
pub proof fn utf8_is_injective(a: Seq<char>, b: Seq<char>)
    ensures
        utf8(a) == utf8(b) <==> a == b,
{
    encode_utf8_decode_utf8(a);
    encode_utf8_decode_utf8(b);
}

/// Byte strings in dictionary order: `a` comes before `b`.
pub open spec fn bytes_before(a: Seq<u8>, b: Seq<u8>) -> bool
    decreases a.len(),
{
    if b.len() == 0 {
        false
    } else if a.len() == 0 {
        true
    } else if a[0] != b[0] {
        a[0] < b[0]
    } else {
        bytes_before(a.skip(1), b.skip(1))
    }
}

/// Strings in the order in which Rust sorts them: by their bytes.
pub open spec fn before(a: Seq<char>, b: Seq<char>) -> bool {
    bytes_before(utf8(a), utf8(b))
}

proof fn bytes_before_is_total(a: Seq<u8>, b: Seq<u8>)
    ensures
        bytes_before(a, b) || bytes_before(b, a) || a == b,
        !(bytes_before(a, b) && bytes_before(b, a)),
        !bytes_before(a, a),
    decreases a.len(),
{
    if a.len() > 0 {
        bytes_before_is_total(a.skip(1), if b.len() > 0 {
            b.skip(1)
        } else {
            b
        });
        if b.len() > 0 && a[0] == b[0] && a.skip(1) == b.skip(1) {
            assert forall|i: int| 0 <= i < a.len() implies a[i] == b[i] by {
                if i > 0 {
                    assert(a.skip(1)[i - 1] == b.skip(1)[i - 1]);
                }
            }
            assert(a.len() == a.skip(1).len() + 1);
            assert(b.len() == b.skip(1).len() + 1);
            assert(a =~= b);
        }
    } else if b.len() == 0 {
        assert(a =~= b);
    }
}

proof fn bytes_before_is_transitive(a: Seq<u8>, b: Seq<u8>, c: Seq<u8>)
    requires
        bytes_before(a, b),
        bytes_before(b, c),
    ensures
        bytes_before(a, c),
    decreases a.len(),
{
    if a.len() > 0 && a[0] == b[0] && b[0] == c[0] {
        bytes_before_is_transitive(a.skip(1), b.skip(1), c.skip(1));
    }
}

/// Of two strings one comes first, or they are the same.
pub proof fn before_is_total(a: Seq<char>, b: Seq<char>)
    ensures
        before(a, b) || before(b, a) || a == b,
        !(before(a, b) && before(b, a)),
        !before(a, a),
{
    bytes_before_is_total(utf8(a), utf8(b));
    bytes_before_is_total(utf8(a), utf8(a));
    utf8_is_injective(a, b);
}

/// Coming before carries over.
pub proof fn before_is_transitive(a: Seq<char>, b: Seq<char>, c: Seq<char>)
    requires
        before(a, b),
        before(b, c),
    ensures
        before(a, c),
{
    bytes_before_is_transitive(utf8(a), utf8(b), utf8(c));
}

/// Whether `a` comes before `b` in the order of strings.
pub fn comes_before(a: &str, b: &str) -> (r: bool)
    ensures
        r == before(a@, b@),
{
    let x: &[u8] = a.as_bytes();
    let y: &[u8] = b.as_bytes();
    let mut i: usize = 0;
    assert(x@.skip(0) =~= x@);
    assert(y@.skip(0) =~= y@);
    while i < x.len() && i < y.len()
        invariant
            i <= x@.len(),
            i <= y@.len(),
            x@ == utf8(a@),
            y@ == utf8(b@),
            bytes_before(x@, y@) == bytes_before(x@.skip(i as int), y@.skip(i as int)),
        decreases x@.len() - i,
    {
        assert(x@.skip(i as int)[0] == x@[i as int]);
        assert(y@.skip(i as int)[0] == y@[i as int]);
        if x[i] != y[i] {
            return x[i] < y[i];
        }
        assert(x@.skip(i as int).skip(1) =~= x@.skip(i + 1));
        assert(y@.skip(i as int).skip(1) =~= y@.skip(i + 1));
        i = i + 1;
    }
    i < y.len()
}

/// Whether two strings are the same.
pub fn same(a: &str, b: &str) -> (r: bool)
    ensures
        r == (a@ == b@),
{
    let x: &[u8] = a.as_bytes();
    let y: &[u8] = b.as_bytes();
    proof {
        utf8_is_injective(a@, b@);
    }
    if x.len() != y.len() {
        return false;
    }
    let mut i: usize = 0;
    while i < x.len()
        invariant
            i <= x@.len(),
            x@.len() == y@.len(),
            x@ == utf8(a@),
            y@ == utf8(b@),
            utf8(a@) == utf8(b@) <==> a@ == b@,
            forall|j: int| 0 <= j < i ==> x@[j] == y@[j],
        decreases x@.len() - i,
    {
        if x[i] != y[i] {
            return false;
        }
        i = i + 1;
    }
    assert(x@ =~= y@);
    true
}

/// The character of the digit `d`.
pub open spec fn digit(d: int) -> char {
    ('0' as u32 + d) as char
}

/// `n` in decimal.
pub open spec fn decimal(n: nat) -> Seq<char>
    decreases n,
{
    if n < 10 {
        seq![digit(n as int)]
    } else {
        decimal(n / 10).push(digit((n % 10) as int))
    }
}

fn digit_text(d: u64) -> (r: &'static str)
    requires
        d < 10,
    ensures
        r@ == seq![digit(d as int)],
{
    proof {
        reveal_strlit("0");
        reveal_strlit("1");
        reveal_strlit("2");
        reveal_strlit("3");
        reveal_strlit("4");
        reveal_strlit("5");
        reveal_strlit("6");
        reveal_strlit("7");
        reveal_strlit("8");
        reveal_strlit("9");
    }
    let r: &'static str = match d {
        0 => "0",
        1 => "1",
        2 => "2",
        3 => "3",
        4 => "4",
        5 => "5",
        6 => "6",
        7 => "7",
        8 => "8",
        _ => "9",
    };
    assert(r@ =~= seq![digit(d as int)]);
    r
}

/// A number in decimal.
pub fn to_decimal(n: u64) -> (r: String)
    ensures
        r@ == decimal(n as nat),
    decreases n,
{
    if n < 10 {
        digit_text(n).to_owned()
    } else {
        let mut r: String = to_decimal(n / 10);
        let last: &str = digit_text(n % 10);
        r.append(last);
        assert(r@ =~= decimal(n as nat));
        r
    }
}

/// `c` is a decimal digit.
pub open spec fn is_digit(c: char) -> bool {
    '0' as u32 <= c as u32 <= '9' as u32
}

/// The number that the digits `s` write.
pub open spec fn digits_value(s: Seq<char>) -> nat
    decreases s.len(),
{
    if s.len() == 0 {
        0
    } else {
        (10 * digits_value(s.drop_last()) + (s.last() as u32 - '0' as u32)) as nat
    }
}

/// The digits of a number: what follows a leading plus sign, if there is one.
pub open spec fn unsigned_part(s: Seq<char>) -> Seq<char> {
    if s.len() > 1 && s[0] == '+' {
        s.skip(1)
    } else {
        s
    }
}

/// The number below 2^64 that `s` writes: one or more digits, after an optional plus
/// sign.
pub open spec fn parsed_u64(s: Seq<char>) -> Option<u64> {
    let d = unsigned_part(s);
    if d.len() > 0 && (forall|i: int| 0 <= i < d.len() ==> is_digit(#[trigger] d[i]))
        && digits_value(d) <= u64::MAX {
        Some(digits_value(d) as u64)
    } else {
        None
    }
}

proof fn digits_value_grows(s: Seq<char>, n: int)
    requires
        0 <= n <= s.len(),
        forall|i: int| 0 <= i < s.len() ==> is_digit(#[trigger] s[i]),
    ensures
        digits_value(s.take(n)) <= digits_value(s),
    decreases s.len(),
{
    if n < s.len() {
        let d = s.drop_last();
        assert forall|i: int| 0 <= i < d.len() implies is_digit(#[trigger] d[i]) by {
            assert(d[i] == s[i]);
        }
        digits_value_grows(d, n);
        assert(d.take(n) =~= s.take(n));
        assert(is_digit(s[s.len() - 1]));
    } else {
        assert(s.take(n) =~= s);
    }
}

/// The number that `s` writes.
pub fn parse_u64(s: &str) -> (r: Option<u64>)
    ensures
        r == parsed_u64(s@),
{
    let len: usize = s.unicode_len();
    let start: usize = if len > 1 && s.get_char(0) == '+' {
        1
    } else {
        0
    };
    let ghost d = unsigned_part(s@);
    assert(d =~= s@.skip(start as int));
    if start == len {
        return None;
    }
    let mut value: u64 = 0;
    let mut i: usize = start;
    assert(d.take(0) =~= Seq::empty());
    while i < len
        invariant
            len == s@.len(),
            start <= i <= len,
            d == s@.skip(start as int),
            d == unsigned_part(s@),
            d.len() > 0,
            value == digits_value(d.take(i - start)),
            forall|j: int| 0 <= j < i - start ==> is_digit(#[trigger] d[j]),
        decreases len - i,
    {
        let c: char = s.get_char(i);
        let ghost k = i - start;
        assert(d[k] == c);
        if !('0' <= c && c <= '9') {
            assert(!is_digit(d[k]));
            return None;
        }
        proof {
            assert(d.take(k + 1).drop_last() =~= d.take(k));
            assert(d.take(k + 1).last() == c);
            assert(digits_value(d.take(k + 1)) == 10 * value + (c as u32 - '0' as u32));
        }
        let low: u64 = (c as u32 - '0' as u32) as u64;
        if value > (u64::MAX - low) / 10 {
            proof {
                if forall|j: int| 0 <= j < d.len() ==> is_digit(#[trigger] d[j]) {
                    digits_value_grows(d, k + 1);
                }
            }
            return None;
        }
        value = 10 * value + low;
        i = i + 1;
    }
    assert(d.take(i - start) =~= d);
    Some(value)
}

/// What is written in decimal reads back.
pub proof fn decimal_roundtrip(n: u64)
    ensures
        parsed_u64(decimal(n as nat)) == Some(n),
{
    decimal_digits(n as nat);
    let s = decimal(n as nat);
    assert(is_digit(s[0]));
    assert(unsigned_part(s) == s);
}

pub(crate) proof fn decimal_digits(n: nat)
    ensures
        decimal(n).len() > 0,
        forall|i: int| 0 <= i < decimal(n).len() ==> is_digit(#[trigger] decimal(n)[i]),
        digits_value(decimal(n)) == n,
    decreases n,
{
    let s = decimal(n);
    if n < 10 {
        assert(s.drop_last() =~= Seq::empty());
        assert(s.last() == digit(n as int));
        reveal_with_fuel(digits_value, 2);
    } else {
        decimal_digits(n / 10);
        let t = decimal(n / 10);
        assert(s.drop_last() =~= t);
        assert(s.last() == digit((n % 10) as int));
        assert forall|i: int| 0 <= i < s.len() implies is_digit(#[trigger] s[i]) by {
            if i < t.len() {
                assert(s[i] == t[i]);
            }
        }
    }
}

/// The place of the first `c` in `s`, or its length.
pub open spec fn first_place(s: Seq<char>, c: char) -> int
    decreases s.len(),
{
    if s.len() == 0 {
        0
    } else if s[0] == c {
        0
    } else {
        1 + first_place(s.skip(1), c)
    }
}

/// Before and after the first `c` in `s`, where there is one.
pub open spec fn split_at_first(s: Seq<char>, c: char) -> Option<(Seq<char>, Seq<char>)> {
    if s.contains(c) {
        let p = first_place(s, c);
        Some((s.take(p), s.skip(p + 1)))
    } else {
        None
    }
}

proof fn first_place_is(s: Seq<char>, c: char, p: int)
    requires
        0 <= p <= s.len(),
        forall|i: int| 0 <= i < p ==> s[i] != c,
        p < s.len() ==> s[p] == c,
    ensures
        first_place(s, c) == p,
    decreases s.len(),
{
    if p > 0 {
        let t = s.skip(1);
        assert forall|i: int| 0 <= i < p - 1 implies t[i] != c by {
            assert(t[i] == s[i + 1]);
        }
        first_place_is(t, c, p - 1);
    }
}

/// The place of the first `c` in `s` from `from` on, or its length.
fn find_char(s: &str, c: char, from: usize) -> (r: usize)
    requires
        from <= s@.len(),
        s@.len() <= usize::MAX,
    ensures
        from <= r <= s@.len(),
        forall|i: int| from <= i < r ==> s@[i] != c,
        r < s@.len() ==> s@[r as int] == c,
{
    let len: usize = s.unicode_len();
    let mut i: usize = from;
    while i < len
        invariant
            len == s@.len(),
            from <= i <= len,
            forall|j: int| from <= j < i ==> s@[j] != c,
        decreases len - i,
    {
        if s.get_char(i) == c {
            return i;
        }
        i = i + 1;
    }
    i
}

/// Split a string at the first `c`.
pub fn split_once<'a>(s: &'a str, c: char) -> (r: Option<(&'a str, &'a str)>)
    ensures
        match r {
            Some((a, b)) => split_at_first(s@, c) == Some((a@, b@)),
            None => split_at_first(s@, c) is None,
        },
{
    let len: usize = s.unicode_len();
    let p: usize = find_char(s, c, 0);
    if p == len {
        return None;
    }
    proof {
        first_place_is(s@, c, p as int);
        assert(s@.contains(s@[p as int]));
        assert(s@.subrange(0, p as int) =~= s@.take(p as int));
        assert(s@.subrange(p + 1, len as int) =~= s@.skip(p + 1));
    }
    Some((s.substring_char(0, p), s.substring_char(p + 1, len)))
}

/// The parts of `s` between commas, without the empty ones.
pub open spec fn comma_parts(s: Seq<char>) -> Seq<Seq<char>>
    decreases s.len(),
{
    let p = first_place(s, ',');
    let head = s.take(p);
    let rest = if s.contains(',') && 0 <= p < s.len() {
        comma_parts(s.skip(p + 1))
    } else {
        Seq::empty()
    };
    if head.len() == 0 {
        rest
    } else {
        seq![head] + rest
    }
}

/// What a run of strings says.
pub open spec fn texts(v: Seq<String>) -> Seq<Seq<char>> {
    v.map_values(|t: String| t@)
}

/// Append the parts of `s` between commas, without the empty ones, to `out`.
pub fn split_commas(s: &str, out: &mut Vec<String>)
    ensures
        texts(final(out)@) == texts(old(out)@) + comma_parts(s@),
{
    let len: usize = s.unicode_len();
    let mut from: usize = 0;
    let ghost all = comma_parts(s@);
    let ghost start = texts(out@);
    assert(s@.skip(0) =~= s@);
    loop
        invariant_except_break
            texts(out@) + comma_parts(s@.skip(from as int)) == start + all,
        invariant
            len == s@.len(),
            from <= len,
        ensures
            texts(out@) == start + all,
        decreases len - from,
    {
        let p: usize = find_char(s, ',', from);
        let ghost rest = s@.skip(from as int);
        let ghost before = texts(out@);
        proof {
            let q = p - from;
            assert forall|i: int| 0 <= i < q implies rest[i] != ',' by {
                assert(rest[i] == s@[from + i]);
            }
            if q < rest.len() {
                assert(rest[q] == s@[p as int]);
                assert(rest.contains(rest[q]));
            } else {
                assert(!rest.contains(','));
            }
            first_place_is(rest, ',', q);
            assert(rest.take(q) =~= s@.subrange(from as int, p as int));
        }
        if p > from {
            let part: &str = s.substring_char(from, p);
            let ghost prior = out@;
            out.push(part.to_owned());
            assert(texts(out@) =~= texts(prior).push(part@));
        }
        if p == len {
            proof {
                assert(texts(out@) =~= before + comma_parts(rest));
            }
            break;
        }
        proof {
            assert(rest.skip(p - from + 1) =~= s@.skip(p + 1));
            assert(texts(out@) + comma_parts(s@.skip(p + 1)) =~= before + comma_parts(rest));
        }
        from = p + 1;
    }
}

/// `s` holds `part` somewhere.
pub open spec fn holds(s: Seq<char>, part: Seq<char>) -> bool {
    exists|i: int| 0 <= i && i + part.len() <= s.len() && #[trigger] part_at(s, part, i)
}

/// `part` stands at place `i` of `s`.
pub open spec fn part_at(s: Seq<char>, part: Seq<char>, i: int) -> bool {
    s.subrange(i, i + part.len()) == part
}

/// Whether `s` holds `part` somewhere.
pub fn contains(s: &str, part: &str) -> (r: bool)
    ensures
        r == holds(s@, part@),
{
    let n: usize = s.unicode_len();
    let m: usize = part.unicode_len();
    if m > n {
        return false;
    }
    let mut i: usize = 0;
    while i <= n - m
        invariant
            n == s@.len(),
            m == part@.len(),
            m <= n,
            i <= n - m + 1,
            forall|j: int| 0 <= j < i ==> !#[trigger] part_at(s@, part@, j),
        decreases n - m + 1 - i,
    {
        if same(s.substring_char(i, i + m), part) {
            assert(part_at(s@, part@, i as int));
            return true;
        }
        if i == n - m {
            return false;
        }
        i = i + 1;
    }
    false
}

/// `s` with each `\` turned into `/`.
pub open spec fn forward_slashes(s: Seq<char>) -> Seq<char> {
    s.map_values(
        |c: char|
            if c == '\\' {
                '/'
            } else {
                c
            },
    )
}

/// Turn each `\` into `/`.
pub fn to_forward_slashes(s: &str) -> (r: String)
    ensures
        r@ == forward_slashes(s@),
{
    let n: usize = s.unicode_len();
    let mut out: String = String::new();
    let mut i: usize = 0;
    assert(out@ =~= forward_slashes(s@.take(0)));
    while i < n
        invariant
            n == s@.len(),
            i <= n,
            out@ == forward_slashes(s@.take(i as int)),
        decreases n - i,
    {
        let ghost before = out@;
        if s.get_char(i) == '\\' {
            proof {
                reveal_strlit("/");
            }
            out.append("/");
        } else {
            let part: &str = s.substring_char(i, i + 1);
            out.append(part);
        }
        assert(out@ =~= forward_slashes(s@.take(i + 1)));
        i = i + 1;
    }
    assert(s@.take(i as int) =~= s@);
    out
}

/// One string after the other.
pub fn join(a: &str, b: &str) -> (r: String)
    ensures
        r@ == a@ + b@,
{
    let mut r: String = a.to_owned();
    r.append(b);
    r
}

/// What is said where vectors are `expected`-d and one was `got`-d.
pub open spec fn dims_text(what: Seq<char>, expected: nat, got: nat) -> Seq<char> {
    what + decimal(expected) + "-d, got "@ + decimal(got) + "-d"@
}

/// The words of [`dims_text`].
pub(crate) fn dims_message(what: &str, expected: usize, got: usize) -> (r: String)
    ensures
        r@ == dims_text(what@, expected as nat, got as nat),
{
    let mut r: String = join(what, to_decimal(expected as u64).as_str());
    r.append("-d, got ");
    r.append(to_decimal(got as u64).as_str());
    r.append("-d");
    r
}

/// What stands before and after the first separator is read back, and there is nothing to
/// read where there is none.
pub proof fn split_undoes_joining(a: Seq<char>, c: char, b: Seq<char>)
    requires
        !a.contains(c),
    ensures
        split_at_first(a.push(c) + b, c) == Some((a, b)),
        split_at_first(a, c) is None,
{
    let s = a.push(c) + b;
    let p = a.len() as int;
    assert(s[p] == c);
    assert forall|i: int| 0 <= i < p implies s[i] != c by {
        assert(a.contains(a[i]));
        assert(s[i] == a[i]);
    }
    first_place_is(s, c, p);
    assert(s.contains(c));
    assert(s.take(p) =~= a);
    assert(s.skip(p + 1) =~= b);
}

/// What was split, put together again, is what it was, and the first part has no
/// separator.
pub proof fn joining_undoes_split(s: Seq<char>, c: char)
    requires
        s.contains(c),
    ensures
        split_at_first(s, c) is Some,
        split_at_first(s, c).unwrap().0.push(c) + split_at_first(s, c).unwrap().1 == s,
        !split_at_first(s, c).unwrap().0.contains(c),
{
    first_place_found(s, c);
    let (a, b) = split_at_first(s, c).unwrap();
    let p = first_place(s, c);
    assert(a.push(c) + b =~= s);
    if a.contains(c) {
        let i = a.index_of(c);
        assert(s[i] == c);
    }
}

proof fn first_place_found(s: Seq<char>, c: char)
    requires
        s.contains(c),
    ensures
        0 <= first_place(s, c) < s.len(),
        s[first_place(s, c)] == c,
        forall|i: int| 0 <= i < first_place(s, c) ==> s[i] != c,
    decreases s.len(),
{
    if s[0] != c {
        let i = s.index_of(c);
        assert(s.skip(1)[i - 1] == c);
        first_place_found(s.skip(1), c);
        assert forall|j: int| 0 <= j < first_place(s, c) implies s[j] != c by {
            if j > 0 {
                assert(s.skip(1)[j - 1] == s[j]);
            }
        }
    }
}

/// Parts between commas come one after the other, without the empty ones: a text without
/// a comma is one part, or none where it is empty, and what follows a comma is taken
/// apart in turn.
pub proof fn commas_separate_parts(a: Seq<char>, b: Seq<char>)
    requires
        !a.contains(','),
    ensures
        a.len() == 0 ==> comma_parts(a).len() == 0,
        a.len() > 0 ==> comma_parts(a) == seq![a],
        a.len() == 0 ==> comma_parts(a.push(',') + b) == comma_parts(b),
        a.len() > 0 ==> comma_parts(a.push(',') + b) == seq![a] + comma_parts(b),
{
    let n = a.len() as int;
    assert forall|i: int| 0 <= i < n implies a[i] != ',' by {
        assert(a.contains(a[i]));
    }
    first_place_is(a, ',', n);
    assert(a.take(n) =~= a);
    assert(seq![a] + Seq::<Seq<char>>::empty() =~= seq![a]);
    let s = a.push(',') + b;
    assert(s[n] == ',');
    assert(s.contains(','));
    assert forall|i: int| 0 <= i < n implies s[i] != ',' by {
        assert(s[i] == a[i]);
    }
    first_place_is(s, ',', n);
    assert(s.take(n) =~= a);
    assert(s.skip(n + 1) =~= b);
}

/// A number is read with or without a plus sign; one that is too large is not read, nor
/// is a text with anything but digits in it.
pub proof fn numbers_are_read(n: nat, s: Seq<char>, i: int)
    ensures
        n <= u64::MAX ==> parsed_u64(decimal(n)) == Some(n as u64),
        n <= u64::MAX ==> parsed_u64(seq!['+'] + decimal(n)) == Some(n as u64),
        n > u64::MAX ==> parsed_u64(decimal(n)) is None,
        s.len() == 0 ==> parsed_u64(s) is None,
        1 <= i < s.len() && !is_digit(s[i]) ==> parsed_u64(s) is None,
        s.len() > 0 && !is_digit(s[0]) && s[0] != '+' ==> parsed_u64(s) is None,
{
    decimal_digits(n);
    let d = decimal(n);
    let p = seq!['+'] + d;
    assert(p.skip(1) =~= d);
    assert(d[0] != '+') by {
        assert(is_digit(d[0]));
    }
    assert(unsigned_part(d) == d);
    assert(unsigned_part(p) == d);
    if 1 <= i < s.len() && !is_digit(s[i]) {
        let u = unsigned_part(s);
        if s[0] == '+' {
            assert(u[i - 1] == s[i]);
        } else {
            assert(u[i] == s[i]);
        }
    }
}

/// Turning the slashes changes no other character and leaves no backslash.
pub proof fn slashes_are_turned(s: Seq<char>, i: int)
    requires
        0 <= i < s.len(),
    ensures
        forward_slashes(s).len() == s.len(),
        s[i] == '\\' ==> forward_slashes(s)[i] == '/',
        s[i] != '\\' ==> forward_slashes(s)[i] == s[i],
{
}

/// A text holds another exactly where it is that other with something before and after.
pub proof fn text_holds_its_parts(before: Seq<char>, part: Seq<char>, after: Seq<char>, s: Seq<char>)
    ensures
        holds(before + part + after, part),
        holds(s, part) ==> exists|a: Seq<char>, b: Seq<char>| s == #[trigger] (a + part + b),
{
    let w = before + part + after;
    let p = before.len() as int;
    assert(w.subrange(p, p + part.len()) =~= part);
    assert(part_at(w, part, p));
    if holds(s, part) {
        let i = choose|i: int| 0 <= i && i + part.len() <= s.len() && #[trigger] part_at(s, part, i);
        let a = s.take(i);
        let b = s.skip(i + part.len());
        assert(s.subrange(i, i + part.len()) == part);
        assert(s =~= a + part + b);
    }
}

/// Strings are ordered by the first byte in which they differ, and one that the other
/// begins with comes first.
pub proof fn first_difference_decides(a: Seq<char>, b: Seq<char>, i: int)
    requires
        0 <= i <= utf8(a).len(),
        i < utf8(b).len(),
        forall|j: int| 0 <= j < i ==> utf8(a)[j] == utf8(b)[j],
        i < utf8(a).len() ==> utf8(a)[i] < utf8(b)[i],
    ensures
        before(a, b),
        !before(b, a),
{
    first_byte_decides(utf8(a), utf8(b), i);
    before_is_total(a, b);
}

proof fn first_byte_decides(a: Seq<u8>, b: Seq<u8>, i: int)
    requires
        0 <= i <= a.len(),
        i < b.len(),
        forall|j: int| 0 <= j < i ==> a[j] == b[j],
        i < a.len() ==> a[i] < b[i],
    ensures
        bytes_before(a, b),
    decreases i,
{
    if i > 0 {
        assert(a[0] == b[0]);
        assert forall|j: int| 0 <= j < i - 1 implies a.skip(1)[j] == b.skip(1)[j] by {
            assert(a[j + 1] == b[j + 1]);
        }
        first_byte_decides(a.skip(1), b.skip(1), i - 1);
    }
}

/// A number in decimal is its digits from the most significant on: what stands before the
/// last digit is the number without it.
pub proof fn decimal_ends_in_the_last_digit(n: nat, d: nat)
    requires
        d < 10,
    ensures
        decimal(d).len() == 1,
        decimal(d)[0] as u32 == 48 + d,
        n > 0 ==> decimal(10 * n + d).drop_last() == decimal(n),
        n > 0 ==> decimal(10 * n + d).last() as u32 == 48 + d,
{
    if n > 0 {
        let m = 10 * n + d;
        assert(m / 10 == n && m % 10 == d);
        assert(decimal(m).drop_last() =~= decimal(n));
    }
}

} // verus!
