//! Text helpers: decoding bytes to strings and rendering numbers.
use vstd::prelude::*;
use vstd::utf8::{decode_utf8, valid_utf8};

verus! {

/// The string `String::from_utf8_lossy` makes of a byte string.
pub uninterp spec fn utf8_lossy(bytes: Seq<u8>) -> Seq<char>;

/// The text read from a byte string: its characters when it is valid UTF-8,
/// else what `String::from_utf8_lossy` makes of it.
pub open spec fn lossy_text(bytes: Seq<u8>) -> Seq<char> {
    if valid_utf8(bytes) {
        decode_utf8(bytes)
    } else {
        utf8_lossy(bytes)
    }
}

/// Calls `String::from_utf8_lossy` and takes the owned string. The contract
/// names the result `utf8_lossy(bytes)` and states the one fact the
/// documentation gives: bytes that are valid UTF-8 decode to their characters
/// unchanged. What replacement characters it puts for invalid input is left unsaid.
#[verifier::external_body]
pub(crate) fn lossy_string(bytes: &[u8]) -> (s: String)
    ensures
        s@ == utf8_lossy(bytes@),
        valid_utf8(bytes@) ==> s@ == decode_utf8(bytes@),
        s@ == lossy_text(bytes@),
{
    String::from_utf8_lossy(bytes).into_owned()
}

/// Calls `String::push`: appends one character.
#[verifier::external_body]
pub(crate) fn string_push(s: &mut String, c: char)
    ensures
        final(s)@ == old(s)@.push(c),
{
    s.push(c);
}

/// Decimal digits of `n`, most significant first; `0` renders as `"0"`.
pub open spec fn decimal(n: nat) -> Seq<char>
    decreases n,
{
    if n < 10 {
        seq![digit_char(n)]
    } else {
        decimal(n / 10).push(digit_char(n % 10))
    }
}

/// The character of a decimal digit.
pub open spec fn digit_char(d: nat) -> char {
    if d == 0 {
        '0'
    } else if d == 1 {
        '1'
    } else if d == 2 {
        '2'
    } else if d == 3 {
        '3'
    } else if d == 4 {
        '4'
    } else if d == 5 {
        '5'
    } else if d == 6 {
        '6'
    } else if d == 7 {
        '7'
    } else if d == 8 {
        '8'
    } else {
        '9'
    }
}

fn digit(d: u64) -> (c: char)
    requires
        d < 10,
    ensures
        c == digit_char(d as nat),
{
    if d == 0 {
        '0'
    } else if d == 1 {
        '1'
    } else if d == 2 {
        '2'
    } else if d == 3 {
        '3'
    } else if d == 4 {
        '4'
    } else if d == 5 {
        '5'
    } else if d == 6 {
        '6'
    } else if d == 7 {
        '7'
    } else if d == 8 {
        '8'
    } else {
        '9'
    }
}

/// Appends the decimal rendering of `n`.
pub fn push_decimal(s: &mut String, n: u64)
    ensures
        final(s)@ == old(s)@ + decimal(n as nat),
    decreases n,
{
    if n < 10 {
        string_push(s, digit(n));
        assert(decimal(n as nat) == seq![digit_char(n as nat)]);
        assert(old(s)@.push(digit_char(n as nat)) =~= old(s)@ + seq![digit_char(n as nat)]);
    } else {
        push_decimal(s, n / 10);
        string_push(s, digit(n % 10));
        assert(old(s)@ + decimal(n as nat) =~= (old(s)@ + decimal((n / 10) as nat)).push(
            digit_char((n % 10) as nat),
        ));
    }
}

/// Character-wise equality of two strings.
pub fn str_eq(a: &str, b: &str) -> (r: bool)
    ensures
        r == (a@ == b@),
{
    let n: usize = a.unicode_len();
    let m: usize = b.unicode_len();
    if n != m {
        return false;
    }
    let mut i: usize = 0;
    while i < n
        invariant
            i <= n,
            n == a@.len(),
            m == b@.len(),
            n == m,
            forall|j: int| 0 <= j < i ==> a@[j] == b@[j],
        decreases n - i,
    {
        if a.get_char(i) != b.get_char(i) {
            return false;
        }
        i = i + 1;
    }
    assert(a@ =~= b@);
    true
}

/// Appends a literal piece of text.
pub fn push_str(s: &mut String, t: &str)
    ensures
        final(s)@ == old(s)@ + t@,
{
    s.append(t);
}


// ─── Character classes ──────────────────────────────

/// The string `str::to_lowercase` makes of `s`.
pub uninterp spec fn lowercase_str(s: Seq<char>) -> Seq<char>;

/// `c` is an ASCII character.
pub open spec fn is_ascii_char(c: char) -> bool {
    (c as u32) < 128
}

/// `c` is an ASCII capital letter, `A` to `Z`.
pub open spec fn is_ascii_upper(c: char) -> bool {
    65 <= (c as u32) <= 90
}

/// `c` lower-cased the ASCII way: `A` to `Z` become `a` to `z`, any other
/// character stays.
pub open spec fn ascii_lower(c: char) -> char {
    if is_ascii_upper(c) {
        ((c as u32) + 32) as char
    } else {
        c
    }
}

/// All characters of `s` are ASCII.
pub open spec fn all_ascii(s: Seq<char>) -> bool {
    forall|i: int| 0 <= i < s.len() ==> is_ascii_char(#[trigger] s[i])
}

/// What `str::to_lowercase` makes of `s`: for ASCII text each character
/// lower-cased the ASCII way, otherwise the named result `lowercase_str(s)`.
pub open spec fn lower_text(s: Seq<char>) -> Seq<char> {
    if all_ascii(s) {
        s.map_values(|c: char| ascii_lower(c))
    } else {
        lowercase_str(s)
    }
}

/// What `char::to_lowercase` yields for `c`: the ASCII lower case of an
/// ASCII character, otherwise the named result `lowercase(c)`.
pub open spec fn lower_char(c: char) -> Seq<char> {
    if is_ascii_char(c) {
        seq![ascii_lower(c)]
    } else {
        lowercase(c)
    }
}

/// What `char::is_alphanumeric` says of `c`: among ASCII characters exactly
/// the digits and letters, otherwise the named result `is_alphanumeric(c)`.
pub open spec fn alnum(c: char) -> bool {
    if is_ascii_char(c) {
        48 <= (c as u32) <= 57 || 65 <= (c as u32) <= 90 || 97 <= (c as u32) <= 122
    } else {
        is_alphanumeric(c)
    }
}

/// Calls `str::to_lowercase`; the contract names the result `lowercase_str(s)`
/// and states the case its documentation settles in a few lines: a string of
/// ASCII characters is lower-cased character by character, `A` to `Z`
/// becoming `a` to `z`. Other characters' mappings are left unsaid.
#[verifier::external_body]
pub(crate) fn str_to_lowercase(s: &str) -> (r: String)
    ensures
        r@ == lowercase_str(s@),
        r@ == lower_text(s@),
{
    s.to_lowercase()
}

/// The characters `char::to_lowercase` yields for `c`.
pub uninterp spec fn lowercase(c: char) -> Seq<char>;

/// Calls `char::to_lowercase` and collects what it yields; the contract
/// names the result `lowercase(c)` and states the ASCII case the
/// documentation gives: one character, `A` to `Z` becoming `a` to `z` and
/// any other ASCII character unchanged. Other characters' mappings are left
/// unsaid.
#[verifier::external_body]
pub(crate) fn char_to_lowercase(c: char) -> (r: Vec<char>)
    ensures
        r@ == lowercase(c),
        r@ == lower_char(c),
{
    c.to_lowercase().collect()
}

/// `char::is_alphanumeric` (the Unicode Alphabetic or Numeric property).
pub uninterp spec fn is_alphanumeric(c: char) -> bool;

/// Calls `char::is_alphanumeric`; the contract names its result
/// `is_alphanumeric(c)` and states the ASCII case: among ASCII characters
/// exactly the digits and the letters are alphanumeric. Which other
/// characters are is left unsaid.
#[verifier::external_body]
pub(crate) fn char_is_alphanumeric(c: char) -> (b: bool)
    ensures
        b == is_alphanumeric(c),
        b == alnum(c),
{
    c.is_alphanumeric()
}

// ─── Previews ───────────────────────────────────────

/// `s` without newline characters.
pub open spec fn drop_newlines(s: Seq<char>) -> Seq<char>
    decreases s.len(),
{
    if s.len() == 0 {
        Seq::empty()
    } else if s.last() == '\n' {
        drop_newlines(s.drop_last())
    } else {
        drop_newlines(s.drop_last()).push(s.last())
    }
}

/// The first `n` characters of `s`, newlines removed.
pub open spec fn preview_spec(s: Seq<char>, n: nat) -> Seq<char> {
    drop_newlines(
        if s.len() < n {
            s
        } else {
            s.take(n as int)
        },
    )
}

/// The first `n` characters of `text` with its newlines left out.
pub fn preview(text: &str, n: usize) -> (r: String)
    ensures
        r@ == preview_spec(text@, n as nat),
{
    let len: usize = text.unicode_len();
    let m: usize = if len < n {
        len
    } else {
        n
    };
    let ghost src = if text@.len() < n {
        text@
    } else {
        text@.take(n as int)
    };
    let mut out = String::new();
    let mut i: usize = 0;
    assert(src.take(0) =~= Seq::<char>::empty());
    while i < m
        invariant
            i <= m,
            m == src.len(),
            len == text@.len(),
            src == (if text@.len() < n {
                text@
            } else {
                text@.take(n as int)
            }),
            out@ == drop_newlines(src.take(i as int)),
        decreases m - i,
    {
        let c = text.get_char(i);
        assert(src[i as int] == c);
        assert(src.take(i + 1).drop_last() =~= src.take(i as int));
        if c != '\n' {
            string_push(&mut out, c);
        }
        i = i + 1;
    }
    assert(src.take(m as int) =~= src);
    out
}

// ─── Trimming and number parsing ────────────────────

/// `char::is_whitespace`: the Unicode White_Space property, the 25 code
/// points U+0009 to U+000D, U+0020, U+0085, U+00A0, U+1680, U+2000 to
/// U+200A, U+2028, U+2029, U+202F, U+205F and U+3000.
pub open spec fn is_whitespace(c: char) -> bool {
    let n = c as u32;
    ||| 0x09 <= n <= 0x0d
    ||| n == 0x20
    ||| n == 0x85
    ||| n == 0xa0
    ||| n == 0x1680
    ||| 0x2000 <= n <= 0x200a
    ||| n == 0x2028
    ||| n == 0x2029
    ||| n == 0x202f
    ||| n == 0x205f
    ||| n == 0x3000
}

/// Whether `c` is whitespace, as `char::is_whitespace` decides it.
pub(crate) fn char_is_whitespace(c: char) -> (b: bool)
    ensures
        b == is_whitespace(c),
{
    let n: u32 = c as u32;
    (0x09 <= n && n <= 0x0d) || n == 0x20 || n == 0x85 || n == 0xa0 || n == 0x1680 || (0x2000 <= n
        && n <= 0x200a) || n == 0x2028 || n == 0x2029 || n == 0x202f || n == 0x205f || n == 0x3000
}

/// `s` without leading whitespace.
pub open spec fn trim_start(s: Seq<char>) -> Seq<char>
    decreases s.len(),
{
    if s.len() > 0 && is_whitespace(s[0]) {
        trim_start(s.drop_first())
    } else {
        s
    }
}

/// `s` without trailing whitespace.
pub open spec fn trim_end(s: Seq<char>) -> Seq<char>
    decreases s.len(),
{
    if s.len() > 0 && is_whitespace(s.last()) {
        trim_end(s.drop_last())
    } else {
        s
    }
}

/// `s` without leading and trailing whitespace.
pub open spec fn trim(s: Seq<char>) -> Seq<char> {
    trim_end(trim_start(s))
}

pub open spec fn is_digit(c: char) -> bool {
    '0' <= c && c <= '9'
}

/// Value of a string of decimal digits.
pub open spec fn digits_value(d: Seq<char>) -> nat
    decreases d.len(),
{
    if d.len() == 0 {
        0
    } else {
        digits_value(d.drop_last()) * 10 + (d.last() as nat - '0' as nat) as nat
    }
}

/// The digits of an unsigned number: the string without a leading `+`.
pub open spec fn unsigned_digits(s: Seq<char>) -> Seq<char> {
    if s.len() > 0 && s[0] == '+' {
        s.drop_first()
    } else {
        s
    }
}

pub open spec fn all_digits(d: Seq<char>) -> bool {
    forall|i: int| 0 <= i < d.len() ==> is_digit(#[trigger] d[i])
}

/// What `str::parse::<u64>` accepts: an optional `+` and one or more decimal
/// digits whose value fits in 64 bits.
pub open spec fn parse_u64_spec(s: Seq<char>) -> Option<u64> {
    let d = unsigned_digits(s);
    if d.len() == 0 || !all_digits(d) || digits_value(d) > 0xffff_ffff_ffff_ffff {
        None
    } else {
        Some(digits_value(d) as u64)
    }
}

proof fn lemma_digits_value_grows(d: Seq<char>, i: int)
    requires
        0 <= i <= d.len(),
        forall|k: int| 0 <= k < d.len() ==> is_digit(#[trigger] d[k]),
    ensures
        digits_value(d) >= digits_value(d.take(i)),
    decreases d.len(),
{
    if i < d.len() {
        assert(d.drop_last().take(i) =~= d.take(i));
        assert forall|k: int| 0 <= k < d.drop_last().len() implies is_digit(
            #[trigger] d.drop_last()[k],
        ) by {
            assert(d.drop_last()[k] == d[k]);
        }
        lemma_digits_value_grows(d.drop_last(), i);
    } else {
        assert(d.take(i) =~= d);
    }
}

/// Parses `s[from..to]` as `str::parse::<u64>` does.
pub fn parse_u64_range(s: &str, from: usize, to: usize) -> (r: Option<u64>)
    requires
        from <= to <= s@.len(),
    ensures
        r == parse_u64_spec(s@.subrange(from as int, to as int)),
{
    let ghost whole = s@.subrange(from as int, to as int);
    let mut start: usize = from;
    if from < to && s.get_char(from) == '+' {
        start = from + 1;
    }
    let ghost d = s@.subrange(start as int, to as int);
    assert(d =~= (if whole.len() > 0 && whole[0] == '+' {
        whole.drop_first()
    } else {
        whole
    }));
    if start == to {
        return None;
    }
    let mut val: u64 = 0;
    let mut i: usize = start;
    while i < to
        invariant
            from <= start <= i <= to <= s@.len(),
            whole == s@.subrange(from as int, to as int),
            d == unsigned_digits(whole),
            d == s@.subrange(start as int, to as int),
            forall|k: int| 0 <= k < i - start ==> is_digit(#[trigger] d[k]),
            val as nat == digits_value(d.take(i - start)),
        decreases to - i,
    {
        let c = s.get_char(i);
        if !('0' <= c && c <= '9') {
            assert(!is_digit(d[i - start]));
            assert(!all_digits(d));
            return None;
        }
        let v: u64 = (c as u32 - '0' as u32) as u64;
        assert(d.take(i + 1 - start).drop_last() =~= d.take(i - start));
        if val > (0xffff_ffff_ffff_ffff - v) / 10 {
            assert(val * 10 + v > 0xffff_ffff_ffff_ffff) by (nonlinear_arith)
                requires
                    val > (0xffff_ffff_ffff_ffff - v) / 10,
                    v < 10,
            ;
            assert(digits_value(d.take(i + 1 - start)) == val * 10 + v);
            proof {
                if all_digits(d) {
                    lemma_digits_value_grows(d, i + 1 - start);
                }
            }
            return None;
        }
        val = val * 10 + v;
        i = i + 1;
    }
    assert(d.take(to - start) =~= d);
    Some(val)
}

/// Bounds of `trim(s@)` inside `s@`.
pub fn trim_bounds(s: &str) -> (r: (usize, usize))
    ensures
        r.0 <= r.1 <= s@.len(),
        s@.subrange(r.0 as int, r.1 as int) == trim(s@),
{
    let n: usize = s.unicode_len();
    let mut a: usize = 0;
    assert(s@.skip(0) =~= s@);
    while a < n && char_is_whitespace(s.get_char(a))
        invariant
            a <= n,
            n == s@.len(),
            trim_start(s@) == trim_start(s@.skip(a as int)),
        decreases n - a,
    {
        assert(s@.skip(a as int).drop_first() =~= s@.skip(a + 1));
        a = a + 1;
    }
    let ghost t = s@.skip(a as int);
    assert(trim_start(s@) == t) by {
        if a < n {
            assert(t[0] == s@[a as int]);
        } else {
            assert(t.len() == 0);
        }
    }
    let mut b: usize = n;
    assert(t.take(n - a) =~= t);
    while b > a && char_is_whitespace(s.get_char(b - 1))
        invariant
            a <= b <= n,
            n == s@.len(),
            t == s@.skip(a as int),
            trim_end(t) == trim_end(t.take(b - a)),
        decreases b,
    {
        assert(t.take(b - a).drop_last() =~= t.take(b - 1 - a));
        b = b - 1;
    }
    assert(trim_end(t.take(b - a)) == t.take(b - a)) by {
        if b > a {
            assert(t.take(b - a).last() == s@[b - 1]);
        }
    }
    assert(s@.subrange(a as int, b as int) =~= t.take(b - a));
    (a, b)
}

/// `str::trim` followed by `str::parse::<u64>`.
pub fn parse_trimmed_u64(s: &str) -> (r: Option<u64>)
    ensures
        r == parse_u64_spec(trim(s@)),
{
    let (a, b) = trim_bounds(s);
    parse_u64_range(s, a, b)
}

/// The characters of `s`, collected in one pass.
pub fn chars_vec(s: &str) -> (r: Vec<char>)
    ensures
        r@ == s@,
{
    broadcast use vstd::string::axiom_spec_iter;
    let mut v: Vec<char> = Vec::new();
    for c in it: s.chars()
        invariant
            v@ == s@.take(it.index()),
            it.seq() == s@,
    {
        v.push(c);
        assert(v@ =~= s@.take(it.index() + 1));
    }
    assert(v@ =~= s@);
    v
}


// ─── Reading back a decimal rendering ───────────────

proof fn lemma_digit_char(d: nat)
    requires
        d < 10,
    ensures
        is_digit(digit_char(d)),
        digit_char(d) as nat - '0' as nat == d,
        !is_whitespace(digit_char(d)),
        digit_char(d) != '+',
{
}

/// The decimal rendering of `n` is one or more digits whose value is `n`.
pub proof fn lemma_decimal_digits(n: nat)
    ensures
        decimal(n).len() > 0,
        all_digits(decimal(n)),
        digits_value(decimal(n)) == n,
        decimal(n)[0] != '+',
        !is_whitespace(decimal(n)[0]),
        !is_whitespace(decimal(n).last()),
    decreases n,
{
    lemma_digit_char(n % 10);
    if n < 10 {
        assert(decimal(n) =~= seq![digit_char(n)]);
        assert(decimal(n).drop_last() =~= Seq::<char>::empty());
        assert(digits_value(decimal(n)) == digits_value(Seq::<char>::empty()) * 10 + (digit_char(n) as nat - '0' as nat) as nat);
    } else {
        lemma_decimal_digits(n / 10);
        let d = decimal(n / 10);
        let e = d.push(digit_char(n % 10));
        assert(decimal(n) == e);
        assert(e.drop_last() =~= d);
        assert forall|i: int| 0 <= i < e.len() implies is_digit(#[trigger] e[i]) by {
            if i < d.len() {
                assert(e[i] == d[i]);
            }
        }
        assert(e[0] == d[0]);
        assert(e.last() == digit_char(n % 10));
        assert(n == (n / 10) * 10 + n % 10);
        assert(digits_value(e) == digits_value(d) * 10 + (digit_char(n % 10) as nat - '0' as nat) as nat);
    }
}

/// Law: reading the decimal rendering of a number that fits in 64 bits,
/// with or without surrounding whitespace, gives the number back.
pub proof fn lemma_parse_decimal(n: nat)
    requires
        n <= 0xffff_ffff_ffff_ffff,
    ensures
        parse_u64_spec(decimal(n)) == Some(n as u64),
        trim(decimal(n)) == decimal(n),
        parse_u64_spec(trim(decimal(n))) == Some(n as u64),
{
    lemma_decimal_digits(n);
    let d = decimal(n);
    assert(unsigned_digits(d) == d);
    assert(trim_start(d) == d);
    assert(trim_end(d) == d);
}

} // verus!
