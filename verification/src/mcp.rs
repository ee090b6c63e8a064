//! The message layer of the MCP server: framing, the `Content-Length`
//! header, and the forgetting-curve label of session log entries.
use vstd::prelude::*;
use vstd::utf8::encode_utf8;
use crate::reader::{days_before_month, days_before_year, find_char, leap, month_days, year_days, days_in_month};
use crate::text::{
    decimal, is_whitespace, lemma_decimal_digits, lemma_parse_decimal, parse_u64_range, parse_u64_spec,
    push_decimal, push_str, string_push, trim, trim_bounds, trim_start,
};

verus! {

// ─── Framing ────────────────────────────────────────

/// The header a framed message starts with, lower-cased.
pub open spec fn length_header() -> Seq<char> {
    seq!['c', 'o', 'n', 't', 'e', 'n', 't', '-', 'l', 'e', 'n', 'g', 't', 'h', ':']
}

/// `c` lower-cases (ASCII only) to `p`.
pub open spec fn lowers_to(c: char, p: char) -> bool {
    c == p || ('a' <= p && p <= 'z' && c as u32 == p as u32 - 32)
}

/// The line starts, ignoring ASCII case, with `content-length:`.
pub open spec fn is_length_line(line: Seq<char>) -> bool {
    line.len() >= 15 && forall|i: int| 0 <= i < 15 ==> lowers_to(#[trigger] line[i], length_header()[i])
}

/// The length a header line gives: the number after the colon, trimmed, when
/// it parses as a `usize`.
pub open spec fn header_length(line: Seq<char>) -> Option<usize> {
    if !is_length_line(line) {
        None
    } else {
        match parse_u64_spec(trim(line.skip(15))) {
            Some(v) => if v <= usize::MAX {
                Some(v as usize)
            } else {
                None
            },
            None => None,
        }
    }
}

/// Reads one header line: a `Content-Length` header with a valid number sets
/// `content_length`; any other line leaves it as it was.
pub fn parse_header_line(line: &str, content_length: &mut Option<usize>)
    ensures
        *final(content_length) == (match header_length(line@) {
            Some(v) => Some(v),
            None => *old(content_length),
        }),
{
    let n: usize = line.unicode_len();
    if n < 15 {
        return;
    }
    let pat: &str = "content-length:";
    proof {
        reveal_strlit("content-length:");
    }
    assert(pat@ =~= length_header());
    let mut i: usize = 0;
    while i < 15
        invariant
            i <= 15 <= n,
            n == line@.len(),
            pat@ == length_header(),
            forall|k: int| 0 <= k < i ==> lowers_to(#[trigger] line@[k], length_header()[k]),
        decreases 15 - i,
    {
        let c = line.get_char(i);
        let p = pat.get_char(i);
        if !(c == p || ('a' <= p && p <= 'z' && c as u32 == p as u32 - 32)) {
            assert(!lowers_to(line@[i as int], length_header()[i as int]));
            return;
        }
        i = i + 1;
    }
    assert(is_length_line(line@));
    let rest: &str = line.substring_char(15, n);
    assert(rest@ =~= line@.skip(15));
    let (a, b) = trim_bounds(rest);
    match parse_u64_range(rest, a, b) {
        Some(v) => {
            if v <= usize::MAX as u64 {
                *content_length = Some(v as usize);
            }
        },
        None => {},
    }
}

/// A response as it is written: framed with a `Content-Length` header giving
/// its length in bytes, or on a line of its own.
pub open spec fn framed_text(payload: Seq<char>, framed: bool) -> Seq<char> {
    if framed {
        "Content-Length: "@ + decimal(encode_utf8(payload).len()) + "\r\n\r\n"@ + payload
    } else {
        payload.push('\n')
    }
}

/// The text that writing a response puts out.
pub fn frame_message(payload: &str, framed: bool) -> (r: String)
    ensures
        r@ == framed_text(payload@, framed),
{
    let mut out = String::new();
    if framed {
        push_str(&mut out, "Content-Length: ");
        push_decimal(&mut out, payload.as_bytes().len() as u64);
        push_str(&mut out, "\r\n\r\n");
        push_str(&mut out, payload);
    } else {
        push_str(&mut out, payload);
        string_push(&mut out, '\n');
    }
    assert(out@ =~= framed_text(payload@, framed));
    out
}

/// Law: a framed response is a header line, a blank line and the payload,
/// and reading that header line back gives exactly the payload's length in
/// UTF-8 bytes (when that length fits in `usize`).
pub proof fn lemma_frame_states_length(payload: Seq<char>)
    requires
        encode_utf8(payload).len() <= usize::MAX,
    ensures
        exists|line: Seq<char>| framed_text(payload, true) == line + "\r\n\r\n"@ + payload,
        forall|line: Seq<char>|
            framed_text(payload, true) == line + "\r\n\r\n"@ + payload ==> header_length(line) == Some(
                encode_utf8(payload).len() as usize,
            ),
{
    reveal_strlit("Content-Length: ");
    reveal_strlit("\r\n\r\n");
    let n = encode_utf8(payload).len();
    let d = decimal(n);
    let head = "Content-Length: "@ + d;
    assert(framed_text(payload, true) == head + "\r\n\r\n"@ + payload);
    assert forall|line: Seq<char>|
        framed_text(payload, true) == line + "\r\n\r\n"@ + payload implies header_length(line) == Some(
            n as usize,
        ) by {
        let f = framed_text(payload, true);
        assert(line.len() == head.len());
        assert(line =~= f.take(line.len() as int));
        assert(head =~= f.take(head.len() as int));
        lemma_header_of(n);
    }
}

/// The line `Content-Length: N`, `N` the decimal rendering of `n`, reads as
/// length `n`.
proof fn lemma_header_of(n: nat)
    requires
        n <= usize::MAX,
    ensures
        header_length("Content-Length: "@ + decimal(n)) == Some(n as usize),
{
    reveal_strlit("Content-Length: ");
    let d = decimal(n);
    let line = "Content-Length: "@ + d;
    assert(length_header() =~= seq!['c', 'o', 'n', 't', 'e', 'n', 't', '-', 'l', 'e', 'n', 'g', 't', 'h', ':']);
    assert forall|i: int| 0 <= i < 15 implies lowers_to(#[trigger] line[i], length_header()[i]) by {
        assert(line[i] == "Content-Length: "@[i]);
    }
    assert(is_length_line(line));
    lemma_decimal_digits(n);
    lemma_parse_decimal(n);
    let t = line.skip(15);
    assert(t =~= seq![' '] + d);
    assert(is_whitespace(' '));
    assert(t.drop_first() =~= d);
    assert(trim_start(t) == trim_start(d));
    assert(trim_start(d) == d);
    assert(trim(t) == trim(d));
}

// ─── Forgetting curve of session entries ────────────

/// `s` without the leading run of `c`.
pub open spec fn trim_leading(s: Seq<char>, c: char) -> Seq<char>
    decreases s.len(),
{
    if s.len() > 0 && s[0] == c {
        trim_leading(s.drop_first(), c)
    } else {
        s
    }
}

/// The text an entry holds in its leading brackets: everything before the
/// first `]`, leading `[`s removed.
pub open spec fn bracket_text(entry: Seq<char>) -> Seq<char> {
    let head = match find_char(entry, ']') {
        Some(i) => entry.take(i as int),
        None => entry,
    };
    trim_leading(head, '[')
}

pub open spec fn is_stamp_delim(c: char) -> bool {
    c == '-' || c == ' ' || c == ':'
}

/// `s` split at every `-`, space and `:`.
pub open spec fn stamp_parts(s: Seq<char>) -> Seq<Seq<char>>
    decreases s.len(),
{
    if s.len() == 0 {
        seq![Seq::empty()]
    } else if is_stamp_delim(s.last()) {
        stamp_parts(s.drop_last()).push(Seq::empty())
    } else {
        let p = stamp_parts(s.drop_last());
        p.update(p.len() - 1, p.last().push(s.last()))
    }
}

/// A part's number; a part that is not a `u64` counts as 0.
pub open spec fn part_value(p: Seq<char>) -> nat {
    match parse_u64_spec(p) {
        Some(v) => v as nat,
        None => 0,
    }
}

/// Year, month, day, hour and minute of the stamp that leads an entry, when
/// the entry starts with `[`, the stamp is at least 16 bytes long, splits into
/// at least five parts and names a day in 2020 or later.
pub open spec fn entry_time(entry: Seq<char>) -> Option<(nat, nat, nat, nat, nat)> {
    if entry.len() == 0 || entry[0] != '[' {
        None
    } else {
        let ts = bracket_text(entry);
        let parts = stamp_parts(ts);
        if encode_utf8(ts).len() < 16 || parts.len() < 5 {
            None
        } else {
            let y = part_value(parts[0]);
            let mo = part_value(parts[1]);
            let d = part_value(parts[2]);
            if y < 2020 || mo == 0 || d == 0 {
                None
            } else {
                Some((y, mo, d, part_value(parts[3]), part_value(parts[4])))
            }
        }
    }
}

/// Seconds since 1970-01-01 of a stamp (a month past December counts as the
/// year's end).
pub open spec fn stamp_secs(y: nat, mo: nat, d: nat, h: nat, m: nat) -> int {
    (days_before_year(y as int) + days_before_month(y as int, mo as int) + d - 1) * 86400 + h * 3600 + m
        * 60
}

/// The label of an age in hours.
pub open spec fn age_label(hours: int) -> Seq<char> {
    if hours < 1 {
        "░ FRESH"@
    } else if hours < 24 {
        "░ recent"@
    } else if hours < 72 {
        "▒ fading"@
    } else if hours < 168 {
        "▓ old"@
    } else {
        "█ forgotten"@
    }
}

/// The label of an entry read at `now`: by the whole hours since its stamp
/// (0 for a stamp in the future), or forgotten when it has none.
pub open spec fn decay_label(entry: Seq<char>, now: u64) -> Seq<char> {
    match entry_time(entry) {
        None => "█ forgotten"@,
        Some((y, mo, d, h, m)) => {
            let t = stamp_secs(y, mo, d, h, m);
            age_label(
                if now > t {
                    (now - t) / 3600
                } else {
                    0
                },
            )
        },
    }
}

/// The entry's stamp time fits in 64 bits (or it has none).
pub open spec fn entry_time_fits(entry: Seq<char>) -> bool {
    match entry_time(entry) {
        None => true,
        Some((y, mo, d, h, m)) => stamp_secs(y, mo, d, h, m) <= u64::MAX,
    }
}

/// Gregorian leap year.
pub fn is_leap_yr(y: u64) -> (b: bool)
    ensures
        b == leap(y as int),
{
    (y % 4 == 0 && y % 100 != 0) || y % 400 == 0
}

proof fn lemma_days_before_year_mono(a: int, b: int)
    requires
        a <= b,
    ensures
        days_before_year(a) <= days_before_year(b),
    decreases b - a,
{
    if a < b {
        lemma_days_before_year_mono(a, b - 1);
    }
}

proof fn lemma_days_before_month_mono(y: int, a: int, b: int)
    requires
        1 <= a <= b <= 13,
    ensures
        days_before_month(y, a) <= days_before_month(y, b),
    decreases b - a,
{
    if a < b {
        lemma_days_before_month_mono(y, a, b - 1);
    }
}

proof fn lemma_trim_leading_skip(s: Seq<char>, c: char, a: int)
    requires
        0 <= a <= s.len(),
        forall|i: int| 0 <= i < a ==> s[i] == c,
        a == s.len() || s[a] != c,
    ensures
        trim_leading(s, c) == s.skip(a),
    decreases a,
{
    if a > 0 {
        assert forall|i: int| 0 <= i < a - 1 implies s.drop_first()[i] == c by {
            assert(s.drop_first()[i] == s[i + 1]);
        }
        if a < s.len() {
            assert(s.drop_first()[a - 1] == s[a]);
        }
        lemma_trim_leading_skip(s.drop_first(), c, a - 1);
        assert(s.drop_first().skip(a - 1) =~= s.skip(a));
    } else {
        assert(s.skip(0) =~= s);
    }
}

proof fn lemma_find_first(s: Seq<char>, c: char, k: nat)
    requires
        k <= s.len(),
        forall|i: int| 0 <= i < k ==> s[i] != c,
    ensures
        k == s.len() ==> find_char(s, c) is None,
        k < s.len() && s[k as int] == c ==> find_char(s, c) == Some(k),
    decreases k,
{
    if k > 0 {
        assert forall|i: int| 0 <= i < k - 1 implies s.drop_first()[i] != c by {
            assert(s.drop_first()[i] == s[i + 1]);
        }
        if k < s.len() {
            assert(s.drop_first()[k - 1] == s[k as int]);
        }
        lemma_find_first(s.drop_first(), c, (k - 1) as nat);
        assert(s[0] != c);
    }
}

/// Bounds `(a, e)` of the bracket text inside `entry`.
fn bracket_bounds(entry: &str) -> (r: (usize, usize))
    ensures
        r.0 <= r.1 <= entry@.len(),
        entry@.subrange(r.0 as int, r.1 as int) == bracket_text(entry@),
{
    let n: usize = entry.unicode_len();
    let mut e: usize = 0;
    while e < n && entry.get_char(e) != ']'
        invariant
            e <= n,
            n == entry@.len(),
            forall|i: int| 0 <= i < e ==> entry@[i] != ']',
        decreases n - e,
    {
        e = e + 1;
    }
    proof {
        lemma_find_first(entry@, ']', e as nat);
    }
    let ghost head = match find_char(entry@, ']') {
        Some(i) => entry@.take(i as int),
        None => entry@,
    };
    assert(head =~= entry@.take(e as int));
    let mut a: usize = 0;
    while a < e && entry.get_char(a) == '['
        invariant
            a <= e <= n,
            n == entry@.len(),
            forall|i: int| 0 <= i < a ==> entry@[i] == '[',
        decreases e - a,
    {
        a = a + 1;
    }
    proof {
        lemma_trim_leading_skip(head, '[', a as int);
    }
    assert(entry@.subrange(a as int, e as int) =~= head.skip(a as int));
    (a, e)
}

/// The number of parts of a stamp (counted up to 6) and the values of its
/// first five parts.
fn stamp_values(ts: &str) -> (r: (usize, Vec<u64>))
    ensures
        r.0 == (if stamp_parts(ts@).len() < 6 { stamp_parts(ts@).len() } else { 6 }),
        r.1@.len() == (if r.0 < 5 { r.0 } else { 5 }),
        forall|j: int| 0 <= j < r.1@.len() ==> r.1@[j] as nat == part_value(#[trigger] stamp_parts(ts@)[j]),
{
    let ghost t = ts@;
    let m: usize = ts.unicode_len();
    let mut vals: Vec<u64> = Vec::new();
    let mut start: usize = 0;
    let mut i: usize = 0;
    let mut count: usize = 1;
    assert(t.take(0) =~= Seq::<char>::empty());
    assert(stamp_parts(t.take(0)) =~= seq![Seq::<char>::empty()]);
    while i < m
        invariant
            start <= i <= m,
            m == t.len(),
            t == ts@,
            1 <= count <= 6,
            count == (if stamp_parts(t.take(i as int)).len() < 6 { stamp_parts(t.take(i as int)).len() } else { 6 }),
            stamp_parts(t.take(i as int)).last() == t.subrange(start as int, i as int),
            vals@.len() == (if count - 1 < 5 { count - 1 } else { 5 }),
            forall|j: int| 0 <= j < vals@.len() ==> vals@[j] as nat == part_value(
                #[trigger] stamp_parts(t.take(i as int))[j],
            ),
        decreases m - i,
    {
        let c = ts.get_char(i);
        let ghost p = stamp_parts(t.take(i as int));
        assert(t.take(i + 1).drop_last() =~= t.take(i as int));
        assert(t.take(i + 1).last() == c);
        if c == '-' || c == ' ' || c == ':' {
            if vals.len() < 5 {
                assert(t.subrange(start as int, i as int) == ts@.subrange(start as int, i as int));
                let v: u64 = match parse_u64_range(ts, start, i) {
                    Some(v) => v,
                    None => 0,
                };
                vals.push(v);
            }
            let ghost q = stamp_parts(t.take(i + 1));
            assert(q == p.push(Seq::empty()));
            assert forall|j: int| 0 <= j < vals@.len() implies vals@[j] as nat == part_value(#[trigger] q[j]) by {
                if j < p.len() {
                    assert(q[j] == p[j]);
                }
            }
            if count < 6 {
                count = count + 1;
            }
            start = i + 1;
            assert(q.last() =~= t.subrange(start as int, i + 1));
        } else {
            let ghost q = stamp_parts(t.take(i + 1));
            assert(q == p.update(p.len() - 1, p.last().push(c)));
            assert forall|j: int| 0 <= j < vals@.len() implies vals@[j] as nat == part_value(#[trigger] q[j]) by {
                assert(j < p.len() - 1);
                assert(q[j] == p[j]);
            }
            assert(q.last() =~= t.subrange(start as int, i + 1));
        }
        i = i + 1;
    }
    assert(t.take(m as int) =~= t);
    let ghost parts = stamp_parts(t);
    if vals.len() < 5 {
        let v: u64 = match parse_u64_range(ts, start, m) {
            Some(v) => v,
            None => 0,
        };
        assert(parts.len() == count);
        assert(parts[count - 1] == parts.last());
        vals.push(v);
    }
    (count, vals)
}

/// Seconds since 1970-01-01 of a stamp.
fn stamp_seconds(y: u64, mo: u64, d: u64, h: u64, mi: u64) -> (r: u64)
    requires
        y >= 1970,
        d >= 1,
        stamp_secs(y as nat, mo as nat, d as nat, h as nat, mi as nat) <= u64::MAX,
    ensures
        r == stamp_secs(y as nat, mo as nat, d as nat, h as nat, mi as nat),
{
    let mcap: u64 = if mo < 13 {
        mo
    } else {
        13
    };
    assert(days_before_month(y as int, mo as int) == days_before_month(y as int, mcap as int));
    let mut days: u64 = 0;
    let mut yr: u64 = 1970;
    while yr < y
        invariant
            1970 <= yr <= y,
            d >= 1,
            days == days_before_year(yr as int),
            days_before_year(y as int) + days_before_month(y as int, mcap as int) + d - 1 <= u64::MAX,
        decreases y - yr,
    {
        proof {
            lemma_days_before_year_mono(yr + 1, y as int);
        }
        let diy: u64 = if is_leap_yr(yr) {
            366
        } else {
            365
        };
        assert(days_before_year(yr + 1) == days_before_year(yr as int) + year_days(yr as int));
        days = days + diy;
        yr = yr + 1;
    }
    let mut k: u64 = 1;
    if mcap == 0 {
        assert(days_before_month(y as int, 0) == 0);
    } else {
        while k < mcap
            invariant
                1 <= k <= mcap <= 13,
                d >= 1,
                days == days_before_year(y as int) + days_before_month(y as int, k as int),
                days_before_year(y as int) + days_before_month(y as int, mcap as int) + d - 1 <= u64::MAX,
            decreases mcap - k,
        {
            proof {
                lemma_days_before_month_mono(y as int, k + 1, mcap as int);
            }
            assert(days_before_month(y as int, k + 1) == days_before_month(y as int, k as int) + month_days(y as int, k as int));
            days = days + days_in_month(y, k);
            k = k + 1;
        }
    }
    days = days + (d - 1);
    assert(days * 86400 + h * 3600 + mi * 60 <= u64::MAX);
    days * 86400 + h * 3600 + mi * 60
}

/// The text of an age label.
fn age_text(hours: u64) -> (r: &'static str)
    ensures
        r@ == age_label(hours as int),
{
    if hours < 1 {
        "░ FRESH"
    } else if hours < 24 {
        "░ recent"
    } else if hours < 72 {
        "▒ fading"
    } else if hours < 168 {
        "▓ old"
    } else {
        "█ forgotten"
    }
}

/// The forgetting-curve label of a session log entry read at `now_secs`.
pub fn ebbinghaus_decay(entry: &str, now_secs: u64) -> (r: &'static str)
    requires
        entry_time_fits(entry@),
    ensures
        r@ == decay_label(entry@, now_secs),
{
    let n: usize = entry.unicode_len();
    if n == 0 || entry.get_char(0) != '[' {
        return "█ forgotten";
    }
    let (a, e) = bracket_bounds(entry);
    let ts: &str = entry.substring_char(a, e);
    assert(ts@ == bracket_text(entry@));
    if ts.as_bytes().len() < 16 {
        return "█ forgotten";
    }
    let (count, vals) = stamp_values(ts);
    if count < 5 {
        return "█ forgotten";
    }
    let y: u64 = vals[0];
    let mo: u64 = vals[1];
    let d: u64 = vals[2];
    let h: u64 = vals[3];
    let mi: u64 = vals[4];
    if y < 2020 || mo == 0 || d == 0 {
        return "█ forgotten";
    }
    assert(entry_time(entry@) == Some((y as nat, mo as nat, d as nat, h as nat, mi as nat)));
    let entry_secs: u64 = stamp_seconds(y, mo, d, h, mi);
    let age_hours: u64 = if now_secs > entry_secs {
        (now_secs - entry_secs) / 3600
    } else {
        0
    };
    age_text(age_hours)
}


/// Whether the stamp's time in seconds fits in 64 bits.
fn stamp_fits(y: u64, mo: u64, d: u64, h: u64, mi: u64) -> (r: bool)
    requires
        y >= 1970,
        d >= 1,
    ensures
        r == (stamp_secs(y as nat, mo as nat, d as nat, h as nat, mi as nat) <= u64::MAX),
{
    let mcap: u64 = if mo < 13 {
        mo
    } else {
        13
    };
    assert(days_before_month(y as int, mo as int) == days_before_month(y as int, mcap as int));
    let mut days: u64 = 0;
    let mut yr: u64 = 1970;
    while yr < y
        invariant
            1970 <= yr <= y,
            d >= 1,
            days == days_before_year(yr as int),
            days <= 0xffff_ffff_ffff_ffffu64 / 86400,
        decreases y - yr,
    {
        let diy: u64 = if is_leap_yr(yr) {
            366
        } else {
            365
        };
        assert(days_before_year(yr + 1) == days_before_year(yr as int) + year_days(yr as int));
        days = days + diy;
        yr = yr + 1;
        if days > 0xffff_ffff_ffff_ffffu64 / 86400 {
            proof {
                lemma_days_before_year_mono(yr as int, y as int);
                assert(days_before_year(y as int) * 86400 > u64::MAX) by (nonlinear_arith)
                    requires
                        days_before_year(y as int) >= days,
                        days > 0xffff_ffff_ffff_ffffu64 / 86400,
                ;
                assert(stamp_secs(y as nat, mo as nat, d as nat, h as nat, mi as nat)
                    >= days_before_year(y as int) * 86400) by (nonlinear_arith)
                    requires
                        d >= 1,
                        stamp_secs(y as nat, mo as nat, d as nat, h as nat, mi as nat) == (
                        days_before_year(y as int) + days_before_month(y as int, mo as int) + d
                            - 1) * 86400 + h * 3600 + mi * 60,
                ;
            }
            return false;
        }
    }
    let mut mdays: u64 = 0;
    let mut k: u64 = 1;
    if mcap == 0 {
        assert(days_before_month(y as int, 0) == 0);
    } else {
        while k < mcap
            invariant
                1 <= k <= mcap <= 13,
                mdays == days_before_month(y as int, k as int),
                mdays <= 31 * k,
            decreases mcap - k,
        {
            assert(days_before_month(y as int, k + 1) == days_before_month(y as int, k as int) + month_days(y as int, k as int));
            mdays = mdays + days_in_month(y, k);
            k = k + 1;
        }
    }
    let total: u128 = ((days as u128) + (mdays as u128) + (d as u128) - 1) * 86400 + (h as u128) * 3600
        + (mi as u128) * 60;
    total <= 0xffff_ffff_ffff_ffff
}

/// The forgetting-curve label of an entry, or `None` for an entry whose stamp
/// time does not fit in 64 bits (one `ebbinghaus_decay` cannot take).
pub fn try_ebbinghaus_decay(entry: &str, now_secs: u64) -> (r: Option<&'static str>)
    ensures
        r is None <==> !entry_time_fits(entry@),
        r matches Some(l) ==> l@ == decay_label(entry@, now_secs),
{
    let n: usize = entry.unicode_len();
    if n == 0 || entry.get_char(0) != '[' {
        return Some(ebbinghaus_decay(entry, now_secs));
    }
    let (a, e) = bracket_bounds(entry);
    let ts: &str = entry.substring_char(a, e);
    assert(ts@ == bracket_text(entry@));
    if ts.as_bytes().len() < 16 {
        return Some(ebbinghaus_decay(entry, now_secs));
    }
    let (count, vals) = stamp_values(ts);
    if count < 5 {
        return Some(ebbinghaus_decay(entry, now_secs));
    }
    let y: u64 = vals[0];
    let mo: u64 = vals[1];
    let d: u64 = vals[2];
    let h: u64 = vals[3];
    let mi: u64 = vals[4];
    if y < 2020 || mo == 0 || d == 0 {
        return Some(ebbinghaus_decay(entry, now_secs));
    }
    assert(entry_time(entry@) == Some((y as nat, mo as nat, d as nat, h as nat, mi as nat)));
    if stamp_fits(y, mo, d, h, mi) {
        Some(ebbinghaus_decay(entry, now_secs))
    } else {
        None
    }
}

} // verus!
