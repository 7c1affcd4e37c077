//! Character-level helpers shared by the rest of the library: decimal and
//! hexadecimal rendering, decimal parsing with the rules of `str::parse`,
//! splitting, and a few predicates on characters.

use vstd::prelude::*;

verus! {

/// The character for a decimal digit `d` (`0 <= d < 10`).
pub open spec fn digit_char(d: nat) -> char {
    ((d + 48) as u8) as char
}

/// The decimal rendering of a natural number, most significant digit first,
/// without leading zeros.
pub open spec fn dec_nat(n: nat) -> Seq<char>
    decreases n,
{
    if n < 10 {
        seq![digit_char(n)]
    } else {
        dec_nat(n / 10).push(digit_char(n % 10))
    }
}

/// The decimal rendering of an integer, with a leading `-` when negative.
pub open spec fn dec_int(i: int) -> Seq<char> {
    if i < 0 {
        seq!['-'] + dec_nat((-i) as nat)
    } else {
        dec_nat(i as nat)
    }
}

/// Appends one character to a string.
#[verifier::external_body]
pub fn push_char(s: &mut String, c: char)
    ensures
        final(s)@ == old(s)@.push(c),
{
    s.push(c);
}

/// Appends the decimal rendering of `n`.
pub fn push_dec_u64(s: &mut String, n: u64)
    ensures
        final(s)@ == old(s)@ + dec_nat(n as nat),
    decreases n,
{
    if n >= 10 {
        push_dec_u64(s, n / 10);
    }
    let d: u8 = (n % 10) as u8;
    push_char(s, (d + 48u8) as char);
    proof {
        if n >= 10 {
            assert(dec_nat(n as nat) == dec_nat((n / 10) as nat).push(digit_char((n % 10) as nat)));
        }
    }
}

/// Appends the decimal rendering of `n`.
pub fn push_dec_i64(s: &mut String, n: i64)
    ensures
        final(s)@ == old(s)@ + dec_int(n as int),
{
    if n < 0 {
        push_char(s, '-');
        let m: u64 = (-(n as i128)) as u64;
        push_dec_u64(s, m);
    } else {
        push_dec_u64(s, n as u64);
    }
}

/// The decimal rendering of `n` as a new string.
pub fn dec_string(n: i64) -> (r: String)
    ensures
        r@ == dec_int(n as int),
{
    let mut s = String::new();
    push_dec_i64(&mut s, n);
    s
}

/// The decimal rendering of `n` as a new string.
pub fn dec_string_u64(n: u64) -> (r: String)
    ensures
        r@ == dec_int(n as int),
{
    let mut s = String::new();
    push_dec_u64(&mut s, n);
    s
}

/// Appends a string slice.
pub fn push_str(s: &mut String, t: &str)
    ensures
        final(s)@ == old(s)@ + t@,
{
    s.append(t);
}

/// The characters of a string slice, in order.
pub fn chars_of(s: &str) -> (v: Vec<char>)
    ensures
        v@ == s@,
{
    let mut v: Vec<char> = Vec::new();
    for c in it: s.chars()
        invariant
            it.seq() == s@,
            v@ == it.seq().take(it.index() as int),
    {
        v.push(c);
    }
    v
}

/// What `String::from_utf8_lossy` makes of a byte sequence.
pub uninterp spec fn spec_utf8_lossy(bytes: Seq<u8>) -> Seq<char>;

/// Decodes bytes as UTF-8 with `String::from_utf8_lossy`, which replaces each
/// invalid sequence by U+FFFD. The contract only names the result: the
/// decoding table is std's.
#[verifier::external_body]
pub fn utf8_lossy(bytes: &[u8]) -> (r: String)
    ensures
        r@ == spec_utf8_lossy(bytes@),
{
    String::from_utf8_lossy(bytes).into_owned()
}

/// What `str::to_lowercase` makes of a string.
pub uninterp spec fn spec_lowercase(s: Seq<char>) -> Seq<char>;

/// What `str::to_uppercase` makes of a string.
pub uninterp spec fn spec_uppercase(s: Seq<char>) -> Seq<char>;

/// `str::to_lowercase`: the Unicode lowercase mapping of every character.
/// The contract names the result only; the mapping table is std's.
#[verifier::external_body]
pub fn to_lowercase(s: &str) -> (r: String)
    ensures
        r@ == spec_lowercase(s@),
{
    s.to_lowercase()
}

/// `str::to_uppercase`: the Unicode uppercase mapping of every character.
/// The contract names the result only; the mapping table is std's.
#[verifier::external_body]
pub fn to_uppercase(s: &str) -> (r: String)
    ensures
        r@ == spec_uppercase(s@),
{
    s.to_uppercase()
}

/// Whether `s` starts with `prefix`.
pub open spec fn has_prefix(s: Seq<char>, prefix: Seq<char>) -> bool {
    prefix.len() <= s.len() && s.subrange(0, prefix.len() as int) == prefix
}

/// Whether `s` ends with `suffix`.
pub open spec fn has_suffix(s: Seq<char>, suffix: Seq<char>) -> bool {
    suffix.len() <= s.len() && s.subrange(s.len() - suffix.len(), s.len() as int) == suffix
}

/// `str::starts_with` for a string prefix.
pub fn starts_with(s: &str, prefix: &str) -> (r: bool)
    ensures
        r == has_prefix(s@, prefix@),
{
    let a = chars_of(s);
    let b = chars_of(prefix);
    if b.len() > a.len() {
        return false;
    }
    let mut i: usize = 0;
    while i < b.len()
        invariant
            b@.len() <= a@.len(),
            i <= b@.len(),
            a@ == s@,
            b@ == prefix@,
            forall|j: int| 0 <= j < i ==> a@[j] == b@[j],
        decreases b@.len() - i,
    {
        if a[i] != b[i] {
            assert(s@.subrange(0, prefix@.len() as int)[i as int] != prefix@[i as int]);
            return false;
        }
        i += 1;
    }
    assert(s@.subrange(0, prefix@.len() as int) =~= prefix@);
    true
}

/// `str::ends_with` for a string suffix.
pub fn ends_with(s: &str, suffix: &str) -> (r: bool)
    ensures
        r == has_suffix(s@, suffix@),
{
    let a = chars_of(s);
    let b = chars_of(suffix);
    if b.len() > a.len() {
        return false;
    }
    let off = a.len() - b.len();
    let mut i: usize = 0;
    while i < b.len()
        invariant
            b@.len() <= a@.len(),
            off + b@.len() == a@.len(),
            a@.len() <= usize::MAX,
            i <= b@.len(),
            a@ == s@,
            b@ == suffix@,
            forall|j: int| 0 <= j < i ==> a@[off + j] == b@[j],
        decreases b@.len() - i,
    {
        if a[off + i] != b[i] {
            assert(s@.subrange(off as int, s@.len() as int)[i as int] != suffix@[i as int]);
            return false;
        }
        i += 1;
    }
    assert(s@.subrange(off as int, s@.len() as int) =~= suffix@);
    true
}

/// Whether two strings are equal.
pub fn str_eq(a: &str, b: &str) -> (r: bool)
    ensures
        r == (a@ == b@),
{
    let x = chars_of(a);
    let y = chars_of(b);
    if x.len() != y.len() {
        return false;
    }
    let mut i: usize = 0;
    while i < x.len()
        invariant
            x@.len() == y@.len(),
            i <= x@.len(),
            x@ == a@,
            y@ == b@,
            forall|j: int| 0 <= j < i ==> x@[j] == y@[j],
        decreases x@.len() - i,
    {
        if x[i] != y[i] {
            return false;
        }
        i += 1;
    }
    assert(x@ =~= y@);
    true
}

/// A string made of the given characters.
pub fn string_of(v: &Vec<char>) -> (r: String)
    ensures
        r@ == v@,
{
    let mut s = String::new();
    let mut i: usize = 0;
    while i < v.len()
        invariant
            i <= v@.len(),
            s@ == v@.take(i as int),
        decreases v@.len() - i,
    {
        push_char(&mut s, v[i]);
        assert(v@.take(i as int).push(v@[i as int]) =~= v@.take(i + 1));
        i += 1;
    }
    assert(v@.take(v@.len() as int) =~= v@);
    s
}

// ----- decimal parsing with the rules of `str::parse` -----

pub open spec fn is_digit(c: char) -> bool {
    '0' <= c && c <= '9'
}

pub open spec fn all_digits(s: Seq<char>) -> bool {
    forall|i: int| 0 <= i < s.len() ==> is_digit(#[trigger] s[i])
}

/// The value of a string of ASCII digits.
pub open spec fn digits_value(s: Seq<char>) -> int
    decreases s.len(),
{
    if s.len() == 0 {
        0
    } else {
        digits_value(s.drop_last()) * 10 + (s.last() as int - 48)
    }
}

/// The magnitude that `str::parse` reads after an optional sign: at least one
/// ASCII digit and nothing else.
pub open spec fn magnitude(body: Seq<char>) -> Option<int> {
    if body.len() == 0 || !all_digits(body) {
        None
    } else {
        Some(digits_value(body))
    }
}

/// `str::parse::<u64>` (and `u32` with a smaller bound): an optional `+`,
/// then ASCII digits, and a value that fits.
pub open spec fn parse_unsigned(s: Seq<char>, max: int) -> Option<int> {
    let body = if s.len() > 0 && s[0] == '+' { s.drop_first() } else { s };
    match magnitude(body) {
        Some(v) => if v <= max { Some(v) } else { None },
        None => None,
    }
}

/// `str::parse::<i32>`: an optional `+` or `-`, then ASCII digits, and a
/// value that fits.
pub open spec fn parse_i32_spec(s: Seq<char>) -> Option<int> {
    if s.len() > 0 && s[0] == '-' {
        match magnitude(s.drop_first()) {
            Some(v) => if v <= 0x8000_0000 { Some(-v) } else { None },
            None => None,
        }
    } else {
        let body = if s.len() > 0 && s[0] == '+' { s.drop_first() } else { s };
        match magnitude(body) {
            Some(v) => if v <= 0x7fff_ffff { Some(v) } else { None },
            None => None,
        }
    }
}

/// A value that `parse_unsigned` reads lies between 0 and the bound.
pub proof fn lemma_parse_unsigned_range(s: Seq<char>, max: int)
    ensures
        parse_unsigned(s, max) matches Some(v) ==> 0 <= v <= max,
{
    let body = if s.len() > 0 && s[0] == '+' { s.drop_first() } else { s };
    if all_digits(body) {
        lemma_digits_value_nonneg(body);
    }
}

/// A value that `parse_i32_spec` reads fits in an `i32`.
pub proof fn lemma_parse_i32_range(s: Seq<char>)
    ensures
        parse_i32_spec(s) matches Some(v) ==> i32::MIN <= v <= i32::MAX,
{
    if s.len() > 0 && s[0] == '-' {
        if all_digits(s.drop_first()) {
            lemma_digits_value_nonneg(s.drop_first());
        }
    } else {
        let body = if s.len() > 0 && s[0] == '+' { s.drop_first() } else { s };
        if all_digits(body) {
            lemma_digits_value_nonneg(body);
        }
    }
}

proof fn lemma_digits_value_nonneg(s: Seq<char>)
    requires
        all_digits(s),
    ensures
        digits_value(s) >= 0,
    decreases s.len(),
{
    if s.len() > 0 {
        lemma_digits_value_nonneg(s.drop_last());
    }
}

/// The decimal rendering of a natural number is a non-empty run of digits
/// whose value is that number.
pub proof fn lemma_dec_nat_digits(n: nat)
    ensures
        dec_nat(n).len() >= 1,
        all_digits(dec_nat(n)),
        digits_value(dec_nat(n)) == n,
    decreases n,
{
    let d = n % 10;
    assert(digit_char(d) as int == d + 48) by {
        assert(((d + 48) as u8) as int == d + 48);
    }
    if n >= 10 {
        lemma_dec_nat_digits(n / 10);
        let s = dec_nat(n);
        assert(s.drop_last() =~= dec_nat(n / 10));
        assert(s.last() == digit_char(d));
        assert forall|i: int| 0 <= i < s.len() implies is_digit(#[trigger] s[i]) by {
            if i < s.len() - 1 {
                assert(s[i] == dec_nat(n / 10)[i]);
            }
        }
        assert(digits_value(s) == digits_value(s.drop_last()) * 10 + (s.last() as int - 48));
        assert((n / 10) * 10 + d == n);
    } else {
        let s = dec_nat(n);
        assert(s.drop_last() =~= Seq::<char>::empty());
        assert(digits_value(s.drop_last()) == 0);
        assert(s.last() == digit_char(d));
        assert(digits_value(s) == digits_value(s.drop_last()) * 10 + (s.last() as int - 48));
    }
}

/// `str::parse::<i32>` reads back the decimal rendering of a number that fits.
pub proof fn lemma_parse_dec_nat(n: nat)
    requires
        n <= i32::MAX,
    ensures
        parse_i32_spec(dec_nat(n)) == Some(n as int),
{
    lemma_dec_nat_digits(n);
    let s = dec_nat(n);
    assert(is_digit(s[0]));
}

/// The value of the digits of `v[from..]`, if they are all digits, capped:
/// `None` as soon as the value passes `cap`.
fn digits_capped(v: &Vec<char>, from: usize, cap: u64) -> (r: Option<u64>)
    requires
        from <= v@.len(),
        cap >= 9,
    ensures
        ({
            let body = v@.subrange(from as int, v@.len() as int);
            match r {
                Some(x) => body.len() > 0 && all_digits(body) && digits_value(body) == x && x <= cap,
                None => !(body.len() > 0 && all_digits(body) && digits_value(body) <= cap),
            }
        }),
{
    if from == v.len() {
        return None;
    }
    let mut acc: u64 = 0;
    let mut i = from;
    while i < v.len()
        invariant
            from <= i <= v@.len(),
            cap >= 9,
            acc <= cap,
            all_digits(v@.subrange(from as int, i as int)),
            digits_value(v@.subrange(from as int, i as int)) == acc,
        decreases v@.len() - i,
    {
        let c = v[i];
        let ghost pre = v@.subrange(from as int, i as int);
        let ghost next = v@.subrange(from as int, i + 1);
        assert(next.drop_last() =~= pre);
        if !('0' <= c && c <= '9') {
            proof {
                let body = v@.subrange(from as int, v@.len() as int);
                assert(body[i - from] == c);
            }
            return None;
        }
        let d = (c as u32 - 48) as u64;
        if acc > (cap - d) / 10 {
            proof {
                let body = v@.subrange(from as int, v@.len() as int);
                assert(all_digits(next));
                assert(acc * 10 + d > cap) by (nonlinear_arith)
                    requires
                        acc > (cap - d) / 10,
                        d <= 9,
                        cap >= 9,
                {
                }
                assert(digits_value(next) > cap);
                assert(body.subrange(0, (i + 1 - from) as int) =~= next);
                lemma_digits_grow(body, (i + 1 - from) as int);
            }
            return None;
        }
        assert(acc * 10 + d <= cap) by (nonlinear_arith)
            requires
                acc <= (cap - d) / 10,
                d <= 9,
                cap >= 9,
        {
        }
        acc = acc * 10 + d;
        i += 1;
    }
    assert(v@.subrange(from as int, v@.len() as int) =~= v@.subrange(from as int, i as int));
    Some(acc)
}

/// Digits only make a value larger as more are added.
proof fn lemma_digits_grow(s: Seq<char>, k: int)
    requires
        0 <= k <= s.len(),
        all_digits(s.subrange(0, k)),
    ensures
        all_digits(s) ==> digits_value(s) >= digits_value(s.subrange(0, k)),
    decreases s.len() - k,
{
    if all_digits(s) && k < s.len() {
        lemma_digits_grow(s, k + 1);
        let a = s.subrange(0, k + 1);
        assert(a.drop_last() =~= s.subrange(0, k));
        lemma_digits_value_nonneg(s.subrange(0, k));
        assert(all_digits(a));
    } else if k == s.len() {
        assert(s.subrange(0, k) =~= s);
    }
}

/// `str::parse::<u64>`.
pub fn parse_u64(s: &str) -> (r: Option<u64>)
    ensures
        match parse_unsigned(s@, u64::MAX as int) {
            Some(v) => r == Some(v as u64),
            None => r is None,
        },
{
    let v = chars_of(s);
    let from: usize = if v.len() > 0 && v[0] == '+' { 1 } else { 0 };
    let r = digits_capped(&v, from, u64::MAX);
    proof {
        let body = if s@.len() > 0 && s@[0] == '+' { s@.drop_first() } else { s@ };
        assert(v@.subrange(from as int, v@.len() as int) =~= body);
    }
    r
}

/// `str::parse::<u32>`.
pub fn parse_u32(s: &str) -> (r: Option<u32>)
    ensures
        match parse_unsigned(s@, u32::MAX as int) {
            Some(v) => r == Some(v as u32),
            None => r is None,
        },
{
    let v = chars_of(s);
    let from: usize = if v.len() > 0 && v[0] == '+' { 1 } else { 0 };
    let r = digits_capped(&v, from, u32::MAX as u64);
    proof {
        let body = if s@.len() > 0 && s@[0] == '+' { s@.drop_first() } else { s@ };
        assert(v@.subrange(from as int, v@.len() as int) =~= body);
    }
    match r {
        Some(x) => Some(x as u32),
        None => None,
    }
}

/// `str::parse::<i32>`.
pub fn parse_i32(s: &str) -> (r: Option<i32>)
    ensures
        match parse_i32_spec(s@) {
            Some(v) => r == Some(v as i32),
            None => r is None,
        },
{
    let v = chars_of(s);
    if v.len() > 0 && v[0] == '-' {
        let r = digits_capped(&v, 1, 0x8000_0000);
        assert(v@.subrange(1, v@.len() as int) =~= s@.drop_first());
        match r {
            Some(x) => Some((-(x as i64)) as i32),
            None => None,
        }
    } else {
        let from: usize = if v.len() > 0 && v[0] == '+' { 1 } else { 0 };
        let r = digits_capped(&v, from, 0x7fff_ffff);
        proof {
            let body = if s@.len() > 0 && s@[0] == '+' { s@.drop_first() } else { s@ };
            assert(v@.subrange(from as int, v@.len() as int) =~= body);
        }
        match r {
            Some(x) => Some(x as i32),
            None => None,
        }
    }
}

// ----- whitespace, comparison, splitting -----

/// The Unicode `White_Space` property, which `char::is_whitespace` and
/// `str::trim` go by.
pub open spec fn is_ws(c: char) -> bool {
    let u = c as u32;
    (0x09 <= u && u <= 0x0D) || u == 0x20 || u == 0x85 || u == 0xA0 || u == 0x1680 || (0x2000 <= u && u
        <= 0x200A) || u == 0x2028 || u == 0x2029 || u == 0x202F || u == 0x205F || u == 0x3000
}

pub fn char_is_ws(c: char) -> (r: bool)
    ensures
        r == is_ws(c),
{
    let u = c as u32;
    (0x09 <= u && u <= 0x0D) || u == 0x20 || u == 0x85 || u == 0xA0 || u == 0x1680 || (0x2000 <= u && u
        <= 0x200A) || u == 0x2028 || u == 0x2029 || u == 0x202F || u == 0x205F || u == 0x3000
}

/// `s` without leading and trailing whitespace.
pub open spec fn trimmed(s: Seq<char>) -> Seq<char> {
    let lo = first_non_ws(s, 0);
    let hi = last_non_ws_end(s, s.len() as int);
    if lo >= hi { Seq::empty() } else { s.subrange(lo, hi) }
}

/// The index of the first non-whitespace character at or after `i`, or the length.
pub open spec fn first_non_ws(s: Seq<char>, i: int) -> int
    decreases s.len() - i,
{
    if i >= s.len() || i < 0 {
        s.len() as int
    } else if !is_ws(s[i]) {
        i
    } else {
        first_non_ws(s, i + 1)
    }
}

/// One past the last non-whitespace character before `j`, or 0.
pub open spec fn last_non_ws_end(s: Seq<char>, j: int) -> int
    decreases j,
{
    if j <= 0 || j > s.len() {
        0
    } else if !is_ws(s[j - 1]) {
        j
    } else {
        last_non_ws_end(s, j - 1)
    }
}

proof fn lemma_first_non_ws_bounds(s: Seq<char>, i: int)
    requires
        0 <= i,
    ensures
        i <= first_non_ws(s, i) <= s.len() || (i > s.len() && first_non_ws(s, i) == s.len()),
        0 <= first_non_ws(s, i) <= s.len(),
    decreases s.len() - i,
{
    if i < s.len() && is_ws(s[i]) {
        lemma_first_non_ws_bounds(s, i + 1);
    }
}

proof fn lemma_last_non_ws_bounds(s: Seq<char>, j: int)
    ensures
        0 <= last_non_ws_end(s, j) <= s.len(),
        0 <= j <= s.len() ==> last_non_ws_end(s, j) <= j,
    decreases j,
{
    if 0 < j <= s.len() && is_ws(s[j - 1]) {
        lemma_last_non_ws_bounds(s, j - 1);
    }
}

/// The bounds of the trimmed part of a sequence lie within it.
pub proof fn lemma_trim_bounds(s: Seq<char>)
    ensures
        0 <= first_non_ws(s, 0) <= s.len(),
        0 <= last_non_ws_end(s, s.len() as int) <= s.len(),
{
    lemma_first_non_ws_bounds(s, 0);
    lemma_last_non_ws_bounds(s, s.len() as int);
}

/// `str::trim`.
pub fn trim(s: &str) -> (r: String)
    ensures
        r@ == trimmed(s@),
{
    let v = chars_of(s);
    let mut lo: usize = 0;
    while lo < v.len() && char_is_ws(v[lo])
        invariant
            lo <= v@.len(),
            v@ == s@,
            first_non_ws(s@, 0) == first_non_ws(s@, lo as int),
        decreases v@.len() - lo,
    {
        lo += 1;
    }
    let mut hi: usize = v.len();
    while hi > 0 && char_is_ws(v[hi - 1])
        invariant
            hi <= v@.len(),
            v@ == s@,
            last_non_ws_end(s@, s@.len() as int) == last_non_ws_end(s@, hi as int),
        decreases hi,
    {
        hi -= 1;
    }
    let mut out: Vec<char> = Vec::new();
    if lo < hi {
        let mut i = lo;
        while i < hi
            invariant
                lo <= i <= hi <= v@.len(),
                out@ == v@.subrange(lo as int, i as int),
            decreases hi - i,
        {
            out.push(v[i]);
            assert(v@.subrange(lo as int, i as int).push(v@[i as int]) =~= v@.subrange(lo as int, i + 1));
            i += 1;
        }
    }
    string_of(&out)
}

/// Strict lexicographic order on character sequences, which is the order of
/// `str` (UTF-8 byte order coincides with code point order).
pub open spec fn seq_lt(a: Seq<char>, b: Seq<char>) -> bool
    decreases a.len(),
{
    if b.len() == 0 {
        false
    } else if a.len() == 0 {
        true
    } else if a[0] != b[0] {
        (a[0] as u32) < (b[0] as u32)
    } else {
        seq_lt(a.drop_first(), b.drop_first())
    }
}

/// No text is before itself.
pub proof fn lemma_lt_irreflexive(a: Seq<char>)
    ensures
        !seq_lt(a, a),
    decreases a.len(),
{
    if a.len() > 0 {
        lemma_lt_irreflexive(a.drop_first());
    }
}

/// Of two texts, at most one is before the other.
pub proof fn lemma_lt_asymmetric(a: Seq<char>, b: Seq<char>)
    ensures
        seq_lt(a, b) ==> !seq_lt(b, a),
    decreases a.len(),
{
    if a.len() > 0 && b.len() > 0 && a[0] == b[0] {
        lemma_lt_asymmetric(a.drop_first(), b.drop_first());
    }
}

/// Of two different texts, one is before the other.
pub proof fn lemma_lt_total(a: Seq<char>, b: Seq<char>)
    ensures
        a != b ==> seq_lt(a, b) || seq_lt(b, a),
    decreases a.len(),
{
    if a.len() == 0 && b.len() == 0 {
        assert(a =~= b);
    } else if a.len() > 0 && b.len() > 0 {
        if a[0] == b[0] {
            lemma_lt_total(a.drop_first(), b.drop_first());
            if a.drop_first() == b.drop_first() {
                assert(a =~= seq![a[0]] + a.drop_first());
                assert(b =~= seq![b[0]] + b.drop_first());
            }
        } else {
            let x = a[0];
            let y = b[0];
            if (x as u32) == (y as u32) {
                vstd::utf8::char_u32_cast(x, x as u32);
                vstd::utf8::char_u32_cast(y, y as u32);
            }
        }
    }
}

/// Being before is transitive.
pub proof fn lemma_lt_transitive(a: Seq<char>, b: Seq<char>, c: Seq<char>)
    ensures
        seq_lt(a, b) && seq_lt(b, c) ==> seq_lt(a, c),
    decreases a.len(),
{
    if a.len() > 0 && b.len() > 0 && c.len() > 0 && a[0] == b[0] && b[0] == c[0] {
        lemma_lt_transitive(a.drop_first(), b.drop_first(), c.drop_first());
    }
}

/// `a < b` for string slices.
pub fn str_lt(a: &str, b: &str) -> (r: bool)
    ensures
        r == seq_lt(a@, b@),
{
    let x = chars_of(a);
    let y = chars_of(b);
    let mut i: usize = 0;
    assert(a@.skip(0) =~= a@);
    assert(b@.skip(0) =~= b@);
    while i < x.len() && i < y.len() && x[i] == y[i]
        invariant
            i <= x@.len(),
            i <= y@.len(),
            x@ == a@,
            y@ == b@,
            seq_lt(a@, b@) == seq_lt(a@.skip(i as int), b@.skip(i as int)),
        decreases x@.len() - i,
    {
        assert(a@.skip(i as int).drop_first() =~= a@.skip(i + 1));
        assert(b@.skip(i as int).drop_first() =~= b@.skip(i + 1));
        i += 1;
    }
    if i == y.len() {
        return false;
    }
    if i == x.len() {
        return true;
    }
    assert(a@.skip(i as int)[0] == x@[i as int]);
    assert(b@.skip(i as int)[0] == y@[i as int]);
    (x[i] as u32) < (y[i] as u32)
}

} // verus!
