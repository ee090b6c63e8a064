//! Layer entries and their timestamps: the importance marker that leads an
//! entry, the calendar stamp of session entries, and layer colours.
use vstd::prelude::*;
use crate::text::{
    decimal, is_whitespace, parse_u64_spec, push_decimal, push_str, string_push, trim_start,
    char_is_whitespace, chars_vec, parse_u64_range, str_eq,
};

verus! {

/// Display colour of a layer.
pub fn layer_color(id: u8) -> (r: &'static str)
    ensures
        r@ == layer_color_spec(id),
{
    match id {
        0 => "white",
        1 => "blue",
        2 => "cyan",
        3 => "green",
        4 => "red",
        5 => "yellow",
        6 => "magenta",
        7 => "orange",
        8 => "lime",
        9 => "purple",
        _ => "white",
    }
}

pub open spec fn layer_color_spec(id: u8) -> Seq<char> {
    if id == 1 {
        "blue"@
    } else if id == 2 {
        "cyan"@
    } else if id == 3 {
        "green"@
    } else if id == 4 {
        "red"@
    } else if id == 5 {
        "yellow"@
    } else if id == 6 {
        "magenta"@
    } else if id == 7 {
        "orange"@
    } else if id == 8 {
        "lime"@
    } else if id == 9 {
        "purple"@
    } else {
        "white"@
    }
}

// ─── Importance marker ──────────────────────────────

/// What `str::parse::<u8>` accepts: an optional `+` and decimal digits whose
/// value is at most 255.
pub open spec fn parse_u8_spec(s: Seq<char>) -> Option<u8> {
    match parse_u64_spec(s) {
        Some(v) => if v <= 255 {
            Some(v as u8)
        } else {
            None
        },
        None => None,
    }
}

/// The marker's opening.
pub open spec fn imp_open() -> Seq<char> {
    seq!['(', 'i', 'm', 'p', '=']
}

/// Index of the first `c` in `s`, if any.
pub open spec fn find_char(s: Seq<char>, c: char) -> Option<nat>
    decreases s.len(),
{
    if s.len() == 0 {
        None
    } else if s[0] == c {
        Some(0)
    } else {
        match find_char(s.drop_first(), c) {
            Some(i) => Some(i + 1),
            None => None,
        }
    }
}

/// The entry text and importance of a layer entry: a leading `(imp=N)`
/// marker (after whitespace) with `N` a `u8` is taken off, with the
/// whitespace after it; an entry without one has importance 5 and stays whole.
pub open spec fn imp_marker_spec(entry: Seq<char>) -> (Seq<char>, u8) {
    let text = trim_start(entry);
    if text.len() >= 5 && text.take(5) == imp_open() {
        let rest = text.skip(5);
        match find_char(rest, ')') {
            Some(end) => match parse_u8_spec(rest.take(end as int)) {
                Some(imp) => (trim_start(rest.skip(end as int + 1)), imp),
                None => (entry, 5),
            },
            None => (entry, 5),
        }
    } else {
        (entry, 5)
    }
}

proof fn lemma_find_char(s: Seq<char>, c: char, k: nat)
    requires
        k <= s.len(),
        forall|i: int| 0 <= i < k ==> s[i] != c,
    ensures
        k == s.len() ==> find_char(s, c) is None,
        k < s.len() && s[k as int] == c ==> find_char(s, c) == Some(k),
    decreases k,
{
    if k > 0 {
        assert forall|i: int| 0 <= i < k - 1 implies s.drop_first()[i] != c by {
            assert(s.drop_first()[i] == s[i + 1]);
        }
        if k < s.len() {
            assert(s.drop_first()[k - 1] == s[k as int]);
        }
        lemma_find_char(s.drop_first(), c, (k - 1) as nat);
        assert(s[0] != c);
    } else if s.len() == 0 {
    }
}

/// Index of the first character at or after `from` that is not whitespace.
fn skip_whitespace(s: &str, from: usize) -> (r: usize)
    requires
        from <= s@.len(),
    ensures
        from <= r <= s@.len(),
        trim_start(s@.skip(from as int)) == s@.skip(r as int),
{
    let n: usize = s.unicode_len();
    let mut a: usize = from;
    while a < n && char_is_whitespace(s.get_char(a))
        invariant
            from <= a <= n,
            n == s@.len(),
            trim_start(s@.skip(from as int)) == trim_start(s@.skip(a as int)),
        decreases n - a,
    {
        assert(s@.skip(a as int).drop_first() =~= s@.skip(a + 1));
        a = a + 1;
    }
    assert(trim_start(s@.skip(a as int)) == s@.skip(a as int)) by {
        if a < n {
            assert(s@.skip(a as int)[0] == s@[a as int]);
        }
    }
    a
}

/// Splits a layer entry into its text and importance.
pub fn parse_imp_marker(entry: &str) -> (r: (&str, u8))
    ensures
        (r.0@, r.1) == imp_marker_spec(entry@),
{
    let n: usize = entry.unicode_len();
    let a: usize = skip_whitespace(entry, 0);
    assert(entry@.skip(0) =~= entry@);
    let ghost text = entry@.skip(a as int);
    if n - a >= 5 && entry.get_char(a) == '(' && entry.get_char(a + 1) == 'i' && entry.get_char(a + 2)
        == 'm' && entry.get_char(a + 3) == 'p' && entry.get_char(a + 4) == '=' {
        assert(text.take(5) =~= imp_open());
        let ghost rest = text.skip(5);
        let b: usize = a + 5;
        assert(rest =~= entry@.skip(b as int));
        let mut e: usize = b;
        while e < n && entry.get_char(e) != ')'
            invariant
                b <= e <= n,
                n == entry@.len(),
                rest == entry@.skip(b as int),
                forall|i: int| 0 <= i < e - b ==> rest[i] != ')',
            decreases n - e,
        {
            assert(rest[e - b] == entry@[e as int]);
            e = e + 1;
        }
        proof {
            if e < n {
                assert(rest[e - b] == entry@[e as int]);
            }
            lemma_find_char(rest, ')', (e - b) as nat);
        }
        if e == n {
            return (entry, 5);
        }
        let v = parse_u64_range(entry, b, e);
        assert(entry@.subrange(b as int, e as int) =~= rest.take(e - b));
        match v {
            Some(imp) => {
                if imp <= 255 {
                    let c: usize = skip_whitespace(entry, e + 1);
                    assert(rest.skip(e - b + 1) =~= entry@.skip(e + 1));
                    let t = entry.substring_char(c, n);
                    assert(t@ =~= entry@.skip(c as int));
                    return (t, imp as u8);
                }
                return (entry, 5);
            },
            None => {
                return (entry, 5);
            },
        }
    }
    proof {
        if text.len() >= 5 && text.take(5) == imp_open() {
            assert(text.take(5)[0] == entry@[a as int]);
            assert(text.take(5)[1] == entry@[a + 1]);
            assert(text.take(5)[2] == entry@[a + 2]);
            assert(text.take(5)[3] == entry@[a + 3]);
            assert(text.take(5)[4] == entry@[a + 4]);
        }
    }
    (entry, 5)
}

// ─── Calendar ───────────────────────────────────────

/// Gregorian leap year.
pub open spec fn leap(y: int) -> bool {
    (y % 4 == 0 && y % 100 != 0) || y % 400 == 0
}

/// Days in year `y`.
pub open spec fn year_days(y: int) -> nat {
    if leap(y) {
        366
    } else {
        365
    }
}

/// Days in month `m` (1 to 12) of year `y`.
pub open spec fn month_days(y: int, m: int) -> nat {
    if m == 2 {
        if leap(y) {
            29
        } else {
            28
        }
    } else if m == 4 || m == 6 || m == 9 || m == 11 {
        30
    } else {
        31
    }
}

/// Days from 1970-01-01 to the first day of year `y`.
pub open spec fn days_before_year(y: int) -> nat
    decreases y - 1970,
{
    if y <= 1970 {
        0
    } else {
        days_before_year(y - 1) + year_days(y - 1)
    }
}

/// Days from the first of the year to the first day of month `m` (months past
/// December count as December's end).
pub open spec fn days_before_month(y: int, m: int) -> nat
    decreases m,
{
    if m <= 1 {
        0
    } else if m > 13 {
        days_before_month(y, 13)
    } else {
        days_before_month(y, m - 1) + month_days(y, m - 1)
    }
}

/// The year of day number `days` counted from the first day of year `y`, and
/// the day within that year (from 0).
pub open spec fn year_and_day(days: nat, y: int) -> (int, nat)
    decreases days,
{
    if days < year_days(y) {
        (y, days)
    } else {
        year_and_day((days - year_days(y)) as nat, y + 1)
    }
}

/// The month of day `doy` (from 0) of year `y` counted from month `m`, and the
/// day of that month (from 1).
pub open spec fn month_and_day(y: int, doy: nat, m: int) -> (int, nat)
    decreases 13 - m,
{
    if m > 12 || doy < month_days(y, m) {
        (m, doy + 1)
    } else {
        month_and_day(y, (doy - month_days(y, m)) as nat, m + 1)
    }
}

/// `n` in decimal, with leading zeros up to `w` digits.
pub open spec fn zero_pad(n: nat, w: nat) -> Seq<char>
    decreases w,
{
    if w > 1 && n < pow10((w - 1) as nat) {
        seq!['0'] + zero_pad(n, (w - 1) as nat)
    } else {
        decimal(n)
    }
}

pub open spec fn pow10(k: nat) -> nat
    decreases k,
{
    if k == 0 {
        1
    } else {
        10 * pow10((k - 1) as nat)
    }
}

/// `YYYY-MM-DD HH:MM` (UTC) of a time in seconds since 1970-01-01.
pub open spec fn stamp_spec(t: nat) -> Seq<char> {
    let (y, doy) = year_and_day(t / 86400, 1970);
    let (mo, d) = month_and_day(y, doy, 1);
    let s = t % 86400;
    zero_pad(y as nat, 4) + seq!['-'] + zero_pad(mo as nat, 2) + seq!['-'] + zero_pad(d, 2) + seq![' ']
        + zero_pad(s / 3600, 2) + seq![':'] + zero_pad((s % 3600) / 60, 2)
}

/// Whether `y` is a leap year.
pub fn is_leap(y: u64) -> (b: bool)
    ensures
        b == leap(y as int),
{
    (y % 4 == 0 && y % 100 != 0) || y % 400 == 0
}

/// Days in month `m` (1 to 12) of year `y`.
pub fn days_in_month(y: u64, m: u64) -> (r: u64)
    ensures
        r == month_days(y as int, m as int),
{
    if m == 2 {
        if is_leap(y) {
            29
        } else {
            28
        }
    } else if m == 4 || m == 6 || m == 9 || m == 11 {
        30
    } else {
        31
    }
}

/// Appends `n` with leading zeros up to `w` digits (`w` at most 4).
fn push_padded(s: &mut String, n: u64, w: u64)
    requires
        1 <= w <= 4,
    ensures
        final(s)@ == old(s)@ + zero_pad(n as nat, w as nat),
    decreases w,
{
    let limit: u64 = if w == 4 {
        1000
    } else if w == 3 {
        100
    } else {
        10
    };
    assert(pow10(1) == 10 && pow10(2) == 100 && pow10(3) == 1000) by {
        reveal_with_fuel(pow10, 4);
    }
    if w > 1 && n < limit {
        string_push(s, '0');
        let ghost mid = s@;
        push_padded(s, n, w - 1);
        assert(old(s)@ + zero_pad(n as nat, w as nat) =~= mid + zero_pad(n as nat, (w - 1) as nat));
    } else {
        push_decimal(s, n);
    }
}

/// The `YYYY-MM-DD HH:MM` stamp of a time in seconds since 1970-01-01 (UTC).
pub fn chrono_stamp(epoch_secs: u64) -> (r: String)
    ensures
        r@ == stamp_spec(epoch_secs as nat),
{
    let total_days: u64 = epoch_secs / 86400;
    let mut y: u64 = 1970;
    let mut remaining: u64 = total_days;
    loop
        invariant
            1970 <= y <= 1970 + (total_days - remaining),
            remaining <= total_days,
            total_days == epoch_secs / 86400,
            year_and_day(total_days as nat, 1970) == year_and_day(remaining as nat, y as int),
        ensures
            year_and_day(total_days as nat, 1970) == (y as int, remaining as nat),
            remaining < year_days(y as int),
        decreases remaining,
    {
        let diy: u64 = if is_leap(y) {
            366
        } else {
            365
        };
        if remaining < diy {
            break;
        }
        remaining = remaining - diy;
        y = y + 1;
    }
    let mut mo: u64 = 1;
    let ghost doy = remaining;
    loop
        invariant
            1 <= mo <= 13,
            remaining < 367,
            month_and_day(y as int, doy as nat, 1) == month_and_day(y as int, remaining as nat, mo as int),
        ensures
            month_and_day(y as int, doy as nat, 1) == (mo as int, (remaining + 1) as nat),
            remaining < 367,
        decreases 13 - mo,
    {
        if mo > 12 {
            break;
        }
        let md: u64 = days_in_month(y, mo);
        if remaining < md {
            break;
        }
        remaining = remaining - md;
        mo = mo + 1;
    }
    let day: u64 = remaining + 1;
    let secs_in_day: u64 = epoch_secs % 86400;
    let h: u64 = secs_in_day / 3600;
    let m: u64 = (secs_in_day % 3600) / 60;
    let mut out = String::new();
    push_padded(&mut out, y, 4);
    string_push(&mut out, '-');
    push_padded(&mut out, mo, 2);
    string_push(&mut out, '-');
    push_padded(&mut out, day, 2);
    string_push(&mut out, ' ');
    push_padded(&mut out, h, 2);
    string_push(&mut out, ':');
    push_padded(&mut out, m, 2);
    assert(out@ =~= stamp_spec(epoch_secs as nat));
    out
}

// ─── Layer files ────────────────────────────────────

/// The entry a stored memory adds to its layer file: the importance marker,
/// for the session layer the UTC stamp of `now_secs` in brackets, then the text.
pub open spec fn layer_entry_spec(layer: Seq<char>, importance: u8, now_secs: nat, text: Seq<char>) -> Seq<char> {
    let head = seq!['(', 'i', 'm', 'p', '='] + decimal(importance as nat) + seq![')', ' '];
    if layer == seq!['s', 'e', 's', 's', 'i', 'o', 'n'] {
        head + seq!['['] + stamp_spec(now_secs) + seq![']', ' '] + text
    } else {
        head + text
    }
}

/// The text of a new layer-file entry.
pub fn layer_entry_text(layer: &str, importance: u8, now_secs: u64, text: &str) -> (r: String)
    ensures
        r@ == layer_entry_spec(layer@, importance, now_secs as nat, text@),
{
    let ghost head = seq!['(', 'i', 'm', 'p', '='] + decimal(importance as nat) + seq![')', ' '];
    let mut out = String::new();
    string_push(&mut out, '(');
    string_push(&mut out, 'i');
    string_push(&mut out, 'm');
    string_push(&mut out, 'p');
    string_push(&mut out, '=');
    push_decimal(&mut out, importance as u64);
    string_push(&mut out, ')');
    string_push(&mut out, ' ');
    assert(out@ =~= head);
    proof {
        reveal_strlit("session");
        assert("session"@ =~= seq!['s', 'e', 's', 's', 'i', 'o', 'n']);
    }
    let is_session = str_eq(layer, "session");
    assert(is_session == (layer@ == seq!['s', 'e', 's', 's', 'i', 'o', 'n']));
    if is_session {
        string_push(&mut out, '[');
        let stamp = chrono_stamp(now_secs);
        push_str(&mut out, stamp.as_str());
        string_push(&mut out, ']');
        string_push(&mut out, ' ');
        assert(out@ =~= head + seq!['['] + stamp_spec(now_secs as nat) + seq![']', ' ']);
    }
    let ghost before = out@;
    push_str(&mut out, text);
    assert(out@ =~= before + text@);
    out
}

/// The pieces of `s` between separators `"\n\n"`, found left to right as
/// `str::split` finds them; `cur` is the piece in progress.
pub open spec fn pieces_from(s: Seq<char>, cur: Seq<char>) -> Seq<Seq<char>>
    decreases s.len(),
{
    if s.len() == 0 {
        seq![cur]
    } else if s.len() >= 2 && s[0] == '\n' && s[1] == '\n' {
        seq![cur] + pieces_from(s.skip(2), Seq::empty())
    } else {
        pieces_from(s.drop_first(), cur.push(s[0]))
    }
}

/// A piece holds nothing but whitespace.
pub open spec fn is_blank(p: Seq<char>) -> bool {
    forall|i: int| 0 <= i < p.len() ==> is_whitespace(#[trigger] p[i])
}

/// Entries of a layer file: its pieces between blank lines that are not blank.
pub open spec fn layer_entries(content: Seq<char>) -> Seq<Seq<char>> {
    pieces_from(content, Seq::empty()).filter(|p: Seq<char>| !is_blank(p))
}

/// The entries kept after adding `entry`: all of them, or the last
/// `retention` when `retention` is positive and exceeded.
pub open spec fn kept_entries(content: Seq<char>, entry: Seq<char>, retention: nat) -> Seq<Seq<char>> {
    let e = layer_entries(content).push(entry);
    if retention > 0 && e.len() > retention {
        e.skip(e.len() - retention)
    } else {
        e
    }
}

/// Entries joined by blank lines.
pub open spec fn join_entries(v: Seq<Seq<char>>) -> Seq<char>
    decreases v.len(),
{
    if v.len() == 0 {
        Seq::empty()
    } else if v.len() == 1 {
        v[0]
    } else {
        join_entries(v.drop_last()) + seq!['\n', '\n'] + v.last()
    }
}

/// Non-blank pieces of `c[i..]` given the piece in progress `cur`, the pieces
/// found so far having been kept in `done`.
proof fn lemma_pieces_step(s: Seq<char>, cur: Seq<char>, c: char)
    requires
        s.len() > 0,
        s[0] == c,
        !(s.len() >= 2 && s[0] == '\n' && s[1] == '\n'),
    ensures
        pieces_from(s, cur) == pieces_from(s.drop_first(), cur.push(c)),
{
}

/// The new contents of a layer file holding `content` once `entry` is stored:
/// its non-blank entries, the new one, at most `retention` of them when
/// `retention` is positive, joined by blank lines.
pub fn layer_file_content(content: &str, entry: &str, retention: usize) -> (r: String)
    ensures
        r@ == join_entries(kept_entries(content@, entry@, retention as nat)),
{
    let chars = chars_vec(content);
    let n: usize = chars.len();
    let ghost all = pieces_from(content@, Seq::empty());
    let ghost pred = |p: Seq<char>| !is_blank(p);
    let mut done: Ghost<Seq<Seq<char>>> = Ghost(Seq::empty());
    let mut kept: Vec<String> = Vec::new();
    let mut cur = String::new();
    let mut cur_blank: bool = true;
    let mut i: usize = 0;
    proof {
        assert(content@.skip(0) =~= content@);
        assert(done@ + pieces_from(content@.skip(0), cur@) =~= all);
        reveal_with_fuel(Seq::filter, 1);
    }
    while i < n
        invariant
            i <= n,
            n == chars@.len(),
            chars@ == content@,
            all == pieces_from(content@, Seq::empty()),
            pred == (|p: Seq<char>| !is_blank(p)),
            done@ + pieces_from(content@.skip(i as int), cur@) == all,
            crate::relevance::strings_view(kept@) == done@.filter(pred),
            cur_blank == is_blank(cur@),
        decreases n - i,
    {
        let c = chars[i];
        let ghost rest = content@.skip(i as int);
        if c == '\n' && i + 1 < n && chars[i + 1] == '\n' {
            let ghost piece = cur@;
            assert(pieces_from(rest, piece) == seq![piece] + pieces_from(rest.skip(2), Seq::empty()));
            assert(rest.skip(2) =~= content@.skip(i + 2));
            proof {
                reveal_with_fuel(Seq::filter, 1);
                assert(done@.push(piece).drop_last() =~= done@);
            }
            if !cur_blank {
                let ghost prev = kept@;
                kept.push(cur);
                assert(crate::relevance::strings_view(kept@) =~= crate::relevance::strings_view(prev).push(piece));
            }
            proof {
                assert(done@.push(piece) + pieces_from(content@.skip(i + 2), Seq::empty()) =~= done@ + (seq![piece] + pieces_from(rest.skip(2), Seq::empty())));
                done@ = done@.push(piece);
            }
            cur = String::new();
            cur_blank = true;
            assert(cur@ =~= Seq::<char>::empty());
            i = i + 2;
        } else {
            proof {
                lemma_pieces_step(rest, cur@, c);
                assert(rest.drop_first() =~= content@.skip(i + 1));
            }
            let ws = char_is_whitespace(c);
            let ghost before = cur@;
            string_push(&mut cur, c);
            proof {
                if !ws {
                    assert(!is_whitespace(cur@[cur@.len() - 1]));
                }
                if cur_blank && ws {
                    assert forall|k: int| 0 <= k < cur@.len() implies is_whitespace(#[trigger] cur@[k]) by {
                        if k < before.len() {
                            assert(cur@[k] == before[k]);
                        }
                    }
                }
                if !cur_blank {
                    let k = choose|k: int| 0 <= k < before.len() && !is_whitespace(#[trigger] before[k]);
                    assert(cur@[k] == before[k]);
                }
            }
            cur_blank = cur_blank && ws;
            i = i + 1;
        }
    }
    // the piece in progress ends the content
    let ghost last = cur@;
    proof {
        assert(content@.skip(n as int) =~= Seq::<char>::empty());
        assert(pieces_from(Seq::<char>::empty(), last) == seq![last]);
        reveal_with_fuel(Seq::filter, 1);
        assert(done@.push(last).drop_last() =~= done@);
        assert(done@.push(last) =~= all);
    }
    if !cur_blank {
        let ghost prev = kept@;
        kept.push(cur);
        assert(crate::relevance::strings_view(kept@) =~= crate::relevance::strings_view(prev).push(last));
    }
    assert(crate::relevance::strings_view(kept@) == layer_entries(content@));
    let ghost with_new = layer_entries(content@).push(entry@);
    let ghost prev = kept@;
    kept.push(entry.to_string());
    assert(crate::relevance::strings_view(kept@) =~= with_new);
    let total: usize = kept.len();
    let start: usize = if retention > 0 && total > retention {
        total - retention
    } else {
        0
    };
    let ghost kept_view = kept_entries(content@, entry@, retention as nat);
    assert(kept_view =~= with_new.skip(start as int));
    let mut out = String::new();
    let mut j: usize = start;
    assert(with_new.subrange(start as int, start as int) =~= Seq::<Seq<char>>::empty());
    while j < total
        invariant
            start <= j <= total,
            total == kept@.len(),
            crate::relevance::strings_view(kept@) == with_new,
            out@ == join_entries(with_new.subrange(start as int, j as int)),
        decreases total - j,
    {
        let ghost part = with_new.subrange(start as int, j + 1);
        assert(part.drop_last() =~= with_new.subrange(start as int, j as int));
        if j > start {
            string_push(&mut out, '\n');
            string_push(&mut out, '\n');
        }
        push_str(&mut out, kept[j].as_str());
        proof {
            if j > start {
                assert(out@ =~= join_entries(part.drop_last()) + seq!['\n', '\n'] + part.last());
            } else {
                assert(part.len() == 1);
                assert(out@ =~= part[0]);
            }
        }
        j = j + 1;
    }
    assert(with_new.subrange(start as int, total as int) =~= kept_view);
    out
}


/// Law: storing an entry in a layer file keeps it as the file's last entry,
/// keeps at most `retention` entries when `retention` is positive, and keeps
/// the earlier entries in their order, dropping only the oldest.
pub proof fn lemma_layer_file_keeps_new_entry(content: Seq<char>, entry: Seq<char>, retention: nat)
    ensures
        kept_entries(content, entry, retention).len() > 0,
        kept_entries(content, entry, retention).last() == entry,
        retention > 0 ==> kept_entries(content, entry, retention).len() <= retention,
        ({
            let e = layer_entries(content).push(entry);
            let k = kept_entries(content, entry, retention);
            k == e.skip(e.len() - k.len())
        }),
{
    let e = layer_entries(content).push(entry);
    let k = kept_entries(content, entry, retention);
    if retention > 0 && e.len() > retention {
        assert(k.last() == e.last());
    } else {
        assert(e.skip(0) =~= e);
    }
}


/// An entry that reads back from a layer file as written: not blank, without
/// an empty line inside and not ending in a newline.
pub open spec fn clean_entry(p: Seq<char>) -> bool {
    &&& !is_blank(p)
    &&& p.len() > 0
    &&& p.last() != '\n'
    &&& forall|i: int| 0 <= i < p.len() - 1 ==> !(#[trigger] p[i] == '\n' && p[i + 1] == '\n')
}

/// Scanning a clean entry followed by a separator (or by nothing) never
/// splits inside the entry.
proof fn lemma_pieces_through(p: Seq<char>, rest: Seq<char>, cur: Seq<char>)
    requires
        forall|i: int| 0 <= i < p.len() - 1 ==> !(#[trigger] p[i] == '\n' && p[i + 1] == '\n'),
        p.len() > 0 ==> p.last() != '\n',
    ensures
        pieces_from(p + rest, cur) == pieces_from(rest, cur + p),
    decreases p.len(),
{
    if p.len() == 0 {
        assert(p + rest =~= rest);
        assert(cur + p =~= cur);
    } else {
        let s = p + rest;
        let q = p.drop_first();
        assert(s[0] == p[0]);
        if p.len() >= 2 {
            assert(s[1] == p[1]);
            assert(!(p[0] == '\n' && p[1] == '\n'));
        } else {
            assert(p[0] != '\n');
        }
        assert(s.drop_first() =~= q + rest);
        assert forall|i: int| 0 <= i < q.len() - 1 implies !(#[trigger] q[i] == '\n' && q[i + 1] == '\n') by {
            assert(q[i] == p[i + 1] && q[i + 1] == p[i + 2]);
        }
        if q.len() > 0 {
            assert(q.last() == p.last());
        }
        lemma_pieces_through(q, rest, cur.push(p[0]));
        assert(cur.push(p[0]) + q =~= cur + p);
    }
}

/// Joined entries, read from the front.
proof fn lemma_join_front(v: Seq<Seq<char>>)
    requires
        v.len() >= 2,
    ensures
        join_entries(v) == v[0] + (seq!['\n', '\n'] + join_entries(v.drop_first())),
    decreases v.len(),
{
    if v.len() == 2 {
        assert(v.drop_first().len() == 1);
        assert(join_entries(v.drop_last()) == v[0]);
        assert(join_entries(v) =~= v[0] + (seq!['\n', '\n'] + join_entries(v.drop_first())));
    } else {
        lemma_join_front(v.drop_last());
        assert(v.drop_last().drop_first() =~= v.drop_first().drop_last());
        assert(v.drop_first().last() == v.last());
        assert(join_entries(v) =~= v[0] + (seq!['\n', '\n'] + join_entries(v.drop_first())));
    }
}

/// The pieces of joined clean entries are the entries.
proof fn lemma_pieces_of_join(v: Seq<Seq<char>>)
    requires
        v.len() > 0,
        forall|i: int| 0 <= i < v.len() ==> clean_entry(#[trigger] v[i]),
    ensures
        pieces_from(join_entries(v), Seq::empty()) == v,
    decreases v.len(),
{
    let e = Seq::<char>::empty();
    assert(clean_entry(v[0]));
    if v.len() == 1 {
        lemma_pieces_through(v[0], e, e);
        assert(v[0] + e =~= v[0]);
        assert(e + v[0] =~= v[0]);
        assert(pieces_from(e, v[0]) == seq![v[0]]);
        assert(seq![v[0]] =~= v);
    } else {
        let rest = v.drop_first();
        lemma_join_front(v);
        let tail = seq!['\n', '\n'] + join_entries(rest);
        lemma_pieces_through(v[0], tail, e);
        assert(e + v[0] =~= v[0]);
        assert(tail.len() >= 2 && tail[0] == '\n' && tail[1] == '\n');
        assert(tail.skip(2) =~= join_entries(rest));
        assert forall|i: int| 0 <= i < rest.len() implies clean_entry(#[trigger] rest[i]) by {
            assert(rest[i] == v[i + 1]);
        }
        lemma_pieces_of_join(rest);
        assert(seq![v[0]] + rest =~= v);
    }
}

/// Filtering keeps a sequence whose items all pass.
proof fn lemma_filter_all(v: Seq<Seq<char>>)
    requires
        forall|i: int| 0 <= i < v.len() ==> !is_blank(#[trigger] v[i]),
    ensures
        v.filter(|p: Seq<char>| !is_blank(p)) == v,
    decreases v.len(),
{
    reveal_with_fuel(Seq::filter, 1);
    if v.len() > 0 {
        assert forall|i: int| 0 <= i < v.drop_last().len() implies !is_blank(#[trigger] v.drop_last()[i]) by {
            assert(v.drop_last()[i] == v[i]);
        }
        lemma_filter_all(v.drop_last());
        assert(!is_blank(v[v.len() - 1]));
        assert(v.drop_last().push(v.last()) =~= v);
    }
}

/// Law: a layer file written from clean entries reads back as those
/// entries, in order; in particular, after storing a clean entry in a file
/// whose entries are all clean, reading the file gives the kept entries.
pub proof fn lemma_layer_file_reads_back(v: Seq<Seq<char>>)
    requires
        v.len() > 0,
        forall|i: int| 0 <= i < v.len() ==> clean_entry(#[trigger] v[i]),
    ensures
        layer_entries(join_entries(v)) == v,
{
    lemma_pieces_of_join(v);
    assert forall|i: int| 0 <= i < v.len() implies !is_blank(#[trigger] v[i]) by {
        assert(clean_entry(v[i]));
    }
    lemma_filter_all(v);
}

} // verus!
