//! Microscope Query Language (MQL).
//!
//! Syntax:
//!   "keyword"                     text search
//!   layer:long_term "keyword"     filter by layer
//!   depth:3 "keyword"             filter by depth
//!   depth:2..5 "keyword"          depth range
//!   near:0.2,0.3,0.1 "keyword"    spatial filter (radius 0.1 unless a fourth value is given)
//!   "foo" AND "bar"               both keywords must match
//!   "foo" OR "bar"                either keyword matches
//!   limit:20                      override the default result count
//!
//! The layer filter keeps the layer's name; the values of `near:` tokens are
//! kept as written, in order, and their numbers are read where the spatial
//! filter is applied: the last one holding three numbers sets it.
use vstd::prelude::*;
use crate::prove::{contains_text, count_hits, keyword_hits};
use crate::reader::{find_char, parse_u8_spec};
use crate::relevance::strings_view;
use crate::text::{
    char_is_whitespace, chars_vec, decimal, is_digit, is_whitespace, lemma_decimal_digits,
    lemma_parse_decimal, lower_text, parse_u64_range, parse_u64_spec, str_to_lowercase, trim,
    trim_bounds, trim_start,
};

verus! {

#[derive(Debug, Clone, Copy, PartialEq, Eq)]
pub enum BoolOp {
    And,
    Or,
}

/// Index of the first whitespace character of `t`, or its length.
pub open spec fn first_space(t: Seq<char>) -> nat
    decreases t.len(),
{
    if t.len() == 0 || is_whitespace(t[0]) {
        0
    } else {
        1 + first_space(t.drop_first())
    }
}

proof fn lemma_first_space(t: Seq<char>, k: nat)
    requires
        k <= t.len(),
        forall|i: int| 0 <= i < k ==> !is_whitespace(#[trigger] t[i]),
        k == t.len() || is_whitespace(t[k as int]),
    ensures
        first_space(t) == k,
    decreases k,
{
    if k > 0 {
        assert forall|i: int| 0 <= i < k - 1 implies !is_whitespace(#[trigger] t.drop_first()[i]) by {
            assert(t.drop_first()[i] == t[i + 1]);
        }
        if k < t.len() {
            assert(t.drop_first()[k - 1] == t[k as int]);
        }
        lemma_first_space(t.drop_first(), (k - 1) as nat);
        assert(!is_whitespace(t[0]));
    }
}

/// Split off the first whitespace-delimited word (after skipping leading
/// whitespace): the word and the rest, which starts at the delimiter.
pub fn take_word(s: &str) -> (r: (String, &str))
    ensures
        r.0@ == trim_start(s@).take(first_space(trim_start(s@)) as int),
        r.1@ == trim_start(s@).skip(first_space(trim_start(s@)) as int),
{
    let n: usize = s.unicode_len();
    let mut a: usize = 0;
    assert(s@.skip(0) =~= s@);
    while a < n && char_is_whitespace(s.get_char(a))
        invariant
            a <= n,
            n == s@.len(),
            trim_start(s@) == trim_start(s@.skip(a as int)),
        decreases n - a,
    {
        assert(s@.skip(a as int).drop_first() =~= s@.skip(a + 1));
        a = a + 1;
    }
    let ghost t = s@.skip(a as int);
    assert(trim_start(s@) == t) by {
        if a < n {
            assert(t[0] == s@[a as int]);
        } else {
            assert(t.len() == 0);
        }
    }
    let mut e: usize = a;
    while e < n && !char_is_whitespace(s.get_char(e))
        invariant
            a <= e <= n,
            n == s@.len(),
            t == s@.skip(a as int),
            forall|i: int| 0 <= i < e - a ==> !is_whitespace(#[trigger] t[i]),
        decreases n - e,
    {
        assert(t[e - a] == s@[e as int]);
        e = e + 1;
    }
    proof {
        if e < n {
            assert(t[e - a] == s@[e as int]);
        }
        lemma_first_space(t, (e - a) as nat);
    }
    let word = s.substring_char(a, e).to_owned();
    let rest = s.substring_char(e, n);
    assert(word@ =~= t.take(e - a));
    assert(rest@ =~= t.skip(e - a));
    (word, rest)
}


// ─── Queries ────────────────────────────────────────

/// An inclusive depth range.
#[derive(Debug, Clone, Copy, PartialEq, Eq)]
pub struct DepthRange {
    pub lo: u8,
    pub hi: u8,
}

/// A parsed query.
#[derive(Debug)]
pub struct Query {
    pub keywords: Vec<String>,
    pub op: BoolOp,
    pub layer_filter: Option<String>,
    pub depth_filter: Option<DepthRange>,
    /// The values of the `near:` tokens, in order.
    pub near_values: Vec<String>,
    pub limit: usize,
}

/// Mathematical value of a query.
pub struct QueryState {
    pub keywords: Seq<Seq<char>>,
    pub op: BoolOp,
    pub layer: Option<Seq<char>>,
    pub depth: Option<DepthRange>,
    pub near: Seq<Seq<char>>,
    pub limit: usize,
}

impl View for Query {
    type V = QueryState;

    open spec fn view(&self) -> QueryState {
        QueryState {
            keywords: strings_view(self.keywords@),
            op: self.op,
            layer: match self.layer_filter {
                Some(l) => Some(l@),
                None => None,
            },
            depth: self.depth_filter,
            near: strings_view(self.near_values@),
            limit: self.limit,
        }
    }
}

/// The query with no keywords, `AND`, no filters and a limit of 10.
pub open spec fn default_query() -> QueryState {
    QueryState { keywords: Seq::empty(), op: BoolOp::And, layer: None, depth: None, near: Seq::empty(), limit: 10 }
}

impl Query {
    /// The default query.
    pub fn new() -> (q: Query)
        ensures
            q@ == default_query(),
    {
        let q = Query {
            keywords: Vec::new(),
            op: BoolOp::And,
            layer_filter: None,
            depth_filter: None,
            near_values: Vec::new(),
            limit: 10,
        };
        assert(q@.keywords =~= Seq::<Seq<char>>::empty());
        assert(q@.near =~= Seq::<Seq<char>>::empty());
        q
    }
}

/// `s` starts with `p`.
pub open spec fn has_prefix(s: Seq<char>, p: Seq<char>) -> bool {
    p.len() <= s.len() && s.take(p.len() as int) == p
}

/// The word of `t` after leading whitespace, and what follows it.
pub open spec fn word_split(t: Seq<char>) -> (Seq<char>, Seq<char>) {
    let u = trim_start(t);
    (u.take(first_space(u) as int), u.skip(first_space(u) as int))
}

/// Position of the first `..` in `s`.
pub open spec fn dots_at(s: Seq<char>) -> Option<nat>
    decreases s.len(),
{
    if s.len() < 2 {
        None
    } else if s[0] == '.' && s[1] == '.' {
        Some(0)
    } else {
        match dots_at(s.drop_first()) {
            Some(i) => Some(i + 1),
            None => None,
        }
    }
}

/// The depth filter a `depth:` value sets: `lo..hi` (0 and 8 where a side
/// is not a number), a single depth, or the filter as it was.
pub open spec fn depth_of(val: Seq<char>, old: Option<DepthRange>) -> Option<DepthRange> {
    match dots_at(val) {
        Some(i) => Some(
            DepthRange {
                lo: match parse_u8_spec(val.take(i as int)) {
                    Some(v) => v,
                    None => 0,
                },
                hi: match parse_u8_spec(val.skip((i + 2) as int)) {
                    Some(v) => v,
                    None => 8,
                },
            },
        ),
        None => match parse_u8_spec(val) {
            Some(d) => Some(DepthRange { lo: d, hi: d }),
            None => old,
        },
    }
}

proof fn lemma_dots_none(s: Seq<char>)
    requires
        forall|i: int| 0 <= i < s.len() ==> #[trigger] s[i] != '.',
    ensures
        dots_at(s) is None,
    decreases s.len(),
{
    if s.len() >= 2 {
        assert(s[0] != '.');
        assert forall|i: int| 0 <= i < s.drop_first().len() implies #[trigger] s.drop_first()[i] != '.' by {
            assert(s.drop_first()[i] == s[i + 1]);
        }
        lemma_dots_none(s.drop_first());
    }
}

proof fn lemma_dots_after(x: Seq<char>, y: Seq<char>)
    requires
        forall|i: int| 0 <= i < x.len() ==> #[trigger] x[i] != '.',
    ensures
        dots_at(x + seq!['.', '.'] + y) == Some(x.len()),
    decreases x.len(),
{
    let s = x + seq!['.', '.'] + y;
    if x.len() == 0 {
        assert(s[0] == '.' && s[1] == '.');
    } else {
        assert(s[0] == x[0]);
        assert(s.drop_first() =~= x.drop_first() + seq!['.', '.'] + y);
        assert forall|i: int| 0 <= i < x.drop_first().len() implies #[trigger] x.drop_first()[i] != '.' by {
            assert(x.drop_first()[i] == x[i + 1]);
        }
        lemma_dots_after(x.drop_first(), y);
    }
}

proof fn lemma_digits_no_dot(n: nat)
    ensures
        forall|i: int| 0 <= i < decimal(n).len() ==> #[trigger] decimal(n)[i] != '.',
{
    lemma_decimal_digits(n);
    assert forall|i: int| 0 <= i < decimal(n).len() implies #[trigger] decimal(n)[i] != '.' by {
        assert(is_digit(decimal(n)[i]));
    }
}

/// Law: a `depth:` value that is one depth `a` (below 256) filters to
/// exactly that depth, and one written `a..b` to the range from `a` to `b`,
/// whatever the filter was.
pub proof fn lemma_depth_values(a: nat, b: nat, old: Option<DepthRange>)
    requires
        a <= 255,
        b <= 255,
    ensures
        depth_of(decimal(a), old) == Some(DepthRange { lo: a as u8, hi: a as u8 }),
        depth_of(decimal(a) + seq!['.', '.'] + decimal(b), old) == Some(DepthRange { lo: a as u8, hi: b as u8 }),
{
    lemma_digits_no_dot(a);
    lemma_parse_decimal(a);
    lemma_parse_decimal(b);
    lemma_dots_none(decimal(a));
    let v = decimal(a) + seq!['.', '.'] + decimal(b);
    lemma_dots_after(decimal(a), decimal(b));
    assert(v.take(decimal(a).len() as int) =~= decimal(a));
    assert(v.skip(decimal(a).len() + 2 as int) =~= decimal(b));
}

/// The limit a `limit:` value sets.
pub open spec fn limit_of(val: Seq<char>, old: usize) -> usize {
    match parse_u64_spec(val) {
        Some(n) => if n <= usize::MAX {
            n as usize
        } else {
            old
        },
        None => old,
    }
}

/// Law: a `limit:` value that is the decimal rendering of a number fitting
/// in `usize` sets the limit to that number, whatever its size and whatever
/// the limit was.
pub proof fn lemma_limit_decimal(n: nat, old: usize)
    requires
        n <= usize::MAX,
    ensures
        limit_of(decimal(n), old) == n,
{
    lemma_parse_decimal(n);
}

/// Law: a `limit:N` token, `N` the decimal rendering of a number fitting in
/// `usize` and followed by whitespace or nothing, sets the query's limit to
/// that number, changes nothing else, and parsing goes on right after it.
pub proof fn lemma_limit_token(q: QueryState, n: nat, rest: Seq<char>)
    requires
        n <= usize::MAX,
        rest.len() == 0 || is_whitespace(rest[0]),
    ensures
        query_step(q, "limit:"@ + decimal(n) + rest) == (QueryState { limit: n as usize, ..q }, rest),
{
    reveal_strlit("limit:");
    reveal_strlit("layer:");
    reveal_strlit("depth:");
    reveal_strlit("near:");
    lemma_decimal_digits(n);
    lemma_parse_decimal(n);
    let d = decimal(n);
    let r = "limit:"@ + d + rest;
    assert(r[1] == 'i');
    assert(!has_prefix(r, "layer:"@)) by {
        if has_prefix(r, "layer:"@) {
            assert(r.take(6)[1] == "layer:"@[1]);
        }
    }
    assert(!has_prefix(r, "depth:"@)) by {
        if has_prefix(r, "depth:"@) {
            assert(r.take(6)[0] == "depth:"@[0]);
        }
    }
    assert(!has_prefix(r, "near:"@)) by {
        if has_prefix(r, "near:"@) {
            assert(r.take(5)[0] == "near:"@[0]);
        }
    }
    assert(r.take(6) =~= "limit:"@);
    let t = r.skip(6);
    assert(t =~= d + rest);
    assert(t[0] == d[0]);
    assert(trim_start(t) == t);
    assert forall|i: int| 0 <= i < d.len() implies !is_whitespace(#[trigger] t[i]) by {
        assert(t[i] == d[i]);
        assert(is_digit(d[i]));
    }
    if rest.len() > 0 {
        assert(t[d.len() as int] == rest[0]);
    }
    lemma_first_space(t, d.len());
    assert(t.take(d.len() as int) =~= d);
    assert(t.skip(d.len() as int) =~= rest);
}

pub open spec fn with_keyword(q: QueryState, k: Seq<char>) -> QueryState {
    QueryState { keywords: q.keywords.push(k), ..q }
}

/// One step of parsing: the token at the start of `r` (which has no leading
/// whitespace) and what follows it.
pub open spec fn query_step(q: QueryState, r: Seq<char>) -> (QueryState, Seq<char>) {
    if has_prefix(r, "layer:"@) {
        let (val, rest) = word_split(r.skip(6));
        (QueryState { layer: Some(val), ..q }, rest)
    } else if has_prefix(r, "depth:"@) {
        let (val, rest) = word_split(r.skip(6));
        (QueryState { depth: depth_of(val, q.depth), ..q }, rest)
    } else if has_prefix(r, "near:"@) {
        let (val, rest) = word_split(r.skip(5));
        (QueryState { near: q.near.push(val), ..q }, rest)
    } else if has_prefix(r, "limit:"@) {
        let (val, rest) = word_split(r.skip(6));
        (QueryState { limit: limit_of(val, q.limit), ..q }, rest)
    } else if has_prefix(r, "AND"@) && (r.len() == 3 || r[3] == ' ') {
        (QueryState { op: BoolOp::And, ..q }, r.skip(3))
    } else if has_prefix(r, "OR"@) && (r.len() == 2 || r[2] == ' ') {
        (QueryState { op: BoolOp::Or, ..q }, r.skip(2))
    } else if r[0] == '"' && find_char(r.skip(1), '"') is Some {
        let end = find_char(r.skip(1), '"')->0;
        (with_keyword(q, lower_text(r.subrange(1, (1 + end) as int))), r.skip((2 + end) as int))
    } else {
        let (w, rest) = word_split(r);
        (if w.len() > 0 {
            with_keyword(q, lower_text(w))
        } else {
            q
        }, rest)
    }
}

/// Parsing from `rem` with at most `fuel` steps (enough when `fuel` is at
/// least the length of `rem`, as each step consumes a character or more).
pub open spec fn parse_from(q: QueryState, rem: Seq<char>, fuel: nat) -> QueryState
    decreases fuel,
{
    let r = trim_start(rem);
    if r.len() == 0 || fuel == 0 {
        q
    } else {
        let (q2, r2) = query_step(q, r);
        parse_from(q2, r2, (fuel - 1) as nat)
    }
}

/// The query a string states: its tokens read from the trimmed string.
pub open spec fn parse_spec(input: Seq<char>) -> QueryState {
    parse_from(default_query(), trim(input), trim(input).len())
}

proof fn lemma_trim_start_shape(s: Seq<char>)
    ensures
        trim_start(s).len() <= s.len(),
        trim_start(s).len() > 0 ==> !is_whitespace(trim_start(s)[0]),
        trim_start(s) == s.skip(s.len() - trim_start(s).len()),
    decreases s.len(),
{
    if s.len() > 0 && is_whitespace(s[0]) {
        lemma_trim_start_shape(s.drop_first());
        assert(s.drop_first().skip(s.drop_first().len() - trim_start(s).len()) =~= s.skip(
            s.len() - trim_start(s).len(),
        ));
    } else {
        assert(s.skip(0) =~= s);
    }
}

proof fn lemma_first_space_bound(t: Seq<char>)
    ensures
        first_space(t) <= t.len(),
        t.len() > 0 && !is_whitespace(t[0]) ==> first_space(t) >= 1,
    decreases t.len(),
{
    if t.len() > 0 && !is_whitespace(t[0]) {
        lemma_first_space_bound(t.drop_first());
    }
}

proof fn lemma_word_split_shorter(t: Seq<char>)
    ensures
        word_split(t).1.len() <= t.len(),
        word_split(t).0.len() + word_split(t).1.len() <= t.len(),
{
    lemma_trim_start_shape(t);
    lemma_first_space_bound(trim_start(t));
}

proof fn lemma_find_char_bound(s: Seq<char>, c: char)
    ensures
        find_char(s, c) matches Some(i) ==> i < s.len() && s[i as int] == c,
    decreases s.len(),
{
    if s.len() > 0 && s[0] != c {
        lemma_find_char_bound(s.drop_first(), c);
    }
}

/// `s@` after leading whitespace.
fn skip_ws(s: &str) -> (r: &str)
    ensures
        r@ == trim_start(s@),
{
    let n: usize = s.unicode_len();
    let mut a: usize = 0;
    assert(s@.skip(0) =~= s@);
    while a < n && char_is_whitespace(s.get_char(a))
        invariant
            a <= n,
            n == s@.len(),
            trim_start(s@) == trim_start(s@.skip(a as int)),
        decreases n - a,
    {
        assert(s@.skip(a as int).drop_first() =~= s@.skip(a + 1));
        a = a + 1;
    }
    let r = s.substring_char(a, n);
    assert(r@ =~= s@.skip(a as int));
    proof {
        if a < n {
            assert(r@[0] == s@[a as int]);
        }
    }
    r
}

/// `s` starts with the characters of `p`.
fn starts_with_str(s: &str, p: &str) -> (r: bool)
    ensures
        r == has_prefix(s@, p@),
{
    let n: usize = s.unicode_len();
    let m: usize = p.unicode_len();
    if m > n {
        return false;
    }
    let mut i: usize = 0;
    while i < m
        invariant
            i <= m <= n,
            n == s@.len(),
            m == p@.len(),
            forall|k: int| 0 <= k < i ==> s@[k] == p@[k],
        decreases m - i,
    {
        if s.get_char(i) != p.get_char(i) {
            assert(s@.take(m as int)[i as int] != p@[i as int]);
            return false;
        }
        i = i + 1;
    }
    assert(s@.take(m as int) =~= p@);
    true
}

/// `str::parse::<u8>` on a whole string.
fn parse_u8_str(s: &str) -> (r: Option<u8>)
    ensures
        r == parse_u8_spec(s@),
{
    let n: usize = s.unicode_len();
    assert(s@.subrange(0, n as int) =~= s@);
    match parse_u64_range(s, 0, n) {
        Some(v) => if v <= 255 {
            Some(v as u8)
        } else {
            None
        },
        None => None,
    }
}

/// Position of the first `..` in `s`.
fn find_dots(s: &str) -> (r: Option<usize>)
    ensures
        r matches Some(k) ==> dots_at(s@) == Some(k as nat) && k + 2 <= s@.len(),
        r is None ==> dots_at(s@) is None,
{
    let n: usize = s.unicode_len();
    let mut i: usize = 0;
    assert(s@.skip(0) =~= s@);
    while i < n
        invariant
            i <= n,
            n == s@.len(),
            dots_at(s@) == match dots_at(s@.skip(i as int)) {
                Some(k) => Some((k + i) as nat),
                None => None,
            },
        decreases n - i,
    {
        let ghost t = s@.skip(i as int);
        if i + 1 < n && s.get_char(i) == '.' && s.get_char(i + 1) == '.' {
            assert(t[0] == '.' && t[1] == '.');
            return Some(i);
        }
        assert(t.drop_first() =~= s@.skip(i + 1));
        i = i + 1;
    }
    assert(s@.skip(n as int).len() == 0);
    None
}

/// Position of the first `c` in `s` from `from` on, counted from `from`.
fn find_from(s: &str, from: usize, c: char) -> (r: Option<usize>)
    requires
        from <= s@.len(),
    ensures
        r == match find_char(s@.skip(from as int), c) {
            Some(k) => Some(k as usize),
            None => None,
        },
        r matches Some(k) ==> from + k < s@.len() && find_char(s@.skip(from as int), c) == Some(k as nat),
        r is None ==> find_char(s@.skip(from as int), c) is None,
{
    let n: usize = s.unicode_len();
    let mut j: usize = from;
    assert(s@.skip(from as int) =~= s@.skip(j as int));
    while j < n
        invariant
            from <= j <= n,
            n == s@.len(),
            find_char(s@.skip(from as int), c) == match find_char(s@.skip(j as int), c) {
                Some(k) => Some((k + j - from) as nat),
                None => None,
            },
        decreases n - j,
    {
        if s.get_char(j) == c {
            assert(s@.skip(j as int)[0] == c);
            return Some(j - from);
        }
        assert(s@.skip(j as int).drop_first() =~= s@.skip(j + 1));
        j = j + 1;
    }
    assert(s@.skip(n as int).len() == 0);
    None
}

/// The depth filter of a `depth:` value.
fn depth_value(val: &str, old: Option<DepthRange>) -> (r: Option<DepthRange>)
    ensures
        r == depth_of(val@, old),
{
    let n: usize = val.unicode_len();
    let found = find_dots(val);
    match found {
        Some(k) => {
            let lo = match parse_u8_str(val.substring_char(0, k)) {
                Some(v) => v,
                None => 0,
            };
            let hi = match parse_u8_str(val.substring_char(k + 2, n)) {
                Some(v) => v,
                None => 8,
            };
            assert(val@.subrange(0, k as int) =~= val@.take(k as int));
            assert(val@.subrange(k + 2, n as int) =~= val@.skip(k + 2));
            Some(DepthRange { lo, hi })
        },
        None => {
            match parse_u8_str(val) {
                Some(d) => Some(DepthRange { lo: d, hi: d }),
                None => old,
            }
        },
    }
}

/// The limit of a `limit:` value.
fn limit_value(val: &str, old: usize) -> (r: usize)
    ensures
        r == limit_of(val@, old),
{
    let n: usize = val.unicode_len();
    assert(val@.subrange(0, n as int) =~= val@);
    match parse_u64_range(val, 0, n) {
        Some(v) => if v <= usize::MAX as u64 {
            v as usize
        } else {
            old
        },
        None => old,
    }
}

/// Parse a query string into a structured query.
pub fn parse(input: &str) -> (q: Query)
    ensures
        q@ == parse_spec(input@),
{
    let mut q = Query::new();
    let (a, b) = trim_bounds(input);
    let mut remaining: &str = input.substring_char(a, b);
    let ghost t = trim(input@);
    assert(remaining@ == t);
    let ghost mut fuel: nat = t.len();
    proof {
        reveal_strlit("layer:");
        reveal_strlit("depth:");
        reveal_strlit("near:");
        reveal_strlit("limit:");
        reveal_strlit("AND");
        reveal_strlit("OR");
    }
    loop
        invariant
            parse_spec(input@) == parse_from(q@, remaining@, fuel),
            remaining@.len() <= fuel,
            "layer:"@ == seq!['l', 'a', 'y', 'e', 'r', ':'],
            "depth:"@ == seq!['d', 'e', 'p', 't', 'h', ':'],
            "near:"@ == seq!['n', 'e', 'a', 'r', ':'],
            "limit:"@ == seq!['l', 'i', 'm', 'i', 't', ':'],
            "AND"@ == seq!['A', 'N', 'D'],
            "OR"@ == seq!['O', 'R'],
        ensures
            parse_spec(input@) == q@,
        decreases remaining@.len(),
    {
        let r: &str = skip_ws(remaining);
        proof {
            lemma_trim_start_shape(remaining@);
        }
        let n: usize = r.unicode_len();
        if n == 0 {
            break;
        }
        assert(fuel > 0);
        let ghost rs = r@;
        let ghost (q2, r2) = query_step(q@, rs);
        assert(parse_from(q@, remaining@, fuel) == parse_from(q2, r2, (fuel - 1) as nat));
        if starts_with_str(r, "layer:") {
            let (val, rest) = take_word(r.substring_char(6, n));
            assert(rs.subrange(6, n as int) =~= rs.skip(6));
            proof {
                lemma_word_split_shorter(rs.skip(6));
            }
            q.layer_filter = Some(val);
            remaining = rest;
        } else if starts_with_str(r, "depth:") {
            let (val, rest) = take_word(r.substring_char(6, n));
            assert(rs.subrange(6, n as int) =~= rs.skip(6));
            proof {
                lemma_word_split_shorter(rs.skip(6));
            }
            q.depth_filter = depth_value(val.as_str(), q.depth_filter);
            remaining = rest;
        } else if starts_with_str(r, "near:") {
            let (val, rest) = take_word(r.substring_char(5, n));
            assert(rs.subrange(5, n as int) =~= rs.skip(5));
            proof {
                lemma_word_split_shorter(rs.skip(5));
            }
            let ghost prev = q@;
            q.near_values.push(val);
            assert(q@.near =~= prev.near.push(word_split(rs.skip(5)).0));
            remaining = rest;
        } else if starts_with_str(r, "limit:") {
            let (val, rest) = take_word(r.substring_char(6, n));
            assert(rs.subrange(6, n as int) =~= rs.skip(6));
            proof {
                lemma_word_split_shorter(rs.skip(6));
            }
            q.limit = limit_value(val.as_str(), q.limit);
            remaining = rest;
        } else if starts_with_str(r, "AND") && (n == 3 || r.get_char(3) == ' ') {
            q.op = BoolOp::And;
            remaining = r.substring_char(3, n);
            assert(remaining@ =~= rs.skip(3));
        } else if starts_with_str(r, "OR") && (n == 2 || r.get_char(2) == ' ') {
            q.op = BoolOp::Or;
            remaining = r.substring_char(2, n);
            assert(remaining@ =~= rs.skip(2));
        } else {
            let mut handled = false;
            if r.get_char(0) == '"' {
                assert(rs.skip(1) =~= rs.skip(1));
                let end = find_from(r, 1, '"');
                if let Some(e) = end {
                    assert(find_char(rs.skip(1), '"') == Some(e as nat));
                    let word = str_to_lowercase(r.substring_char(1, 1 + e));
                    let ghost prev = q@;
                    q.keywords.push(word);
                    assert(q@.keywords =~= prev.keywords.push(lower_text(rs.subrange(1, 1 + e))));
                    remaining = r.substring_char(2 + e, n);
                    assert(remaining@ =~= rs.skip(2 + e));
                    handled = true;
                }
            }
            if !handled {
                let (word, rest) = take_word(r);
                proof {
                    lemma_word_split_shorter(rs);
                    lemma_first_space_bound(rs);
                    lemma_trim_start_shape(rs);
                    assert(trim_start(rs) == rs) by {
                        lemma_trim_start_shape(remaining@);
                        if rs.len() > 0 && is_whitespace(rs[0]) {
                        } else {
                        }
                    }
                }
                if word.as_str().unicode_len() > 0 {
                    let low = str_to_lowercase(word.as_str());
                    let ghost prev = q@;
                    q.keywords.push(low);
                    assert(q@.keywords =~= prev.keywords.push(lower_text(word@)));
                }
                remaining = rest;
            }
        }
        assert(q@ == q2 && remaining@ == r2);
        proof {
            fuel = (fuel - 1) as nat;
        }
    }
    q
}

// ─── Scoring ────────────────────────────────────────

/// The score of a text: 1 with no keywords; else the number of keywords it
/// contains, under `AND` only when it contains them all.
pub open spec fn keyword_score_spec(text: Seq<char>, keywords: Seq<Seq<char>>, op: BoolOp) -> nat {
    if keywords.len() == 0 {
        1
    } else {
        let h = keyword_hits(keywords, text);
        match op {
            BoolOp::And => if h == keywords.len() {
                h
            } else {
                0
            },
            BoolOp::Or => h,
        }
    }
}

/// Keyword score of a (lower-case) text.
pub fn keyword_score(text: &str, keywords: &[String], op: &BoolOp) -> (r: usize)
    ensures
        r == keyword_score_spec(text@, strings_view(keywords@), *op),
{
    if keywords.len() == 0 {
        return 1;
    }
    let cs = chars_vec(text);
    let h = count_hits(keywords, &cs);
    match op {
        BoolOp::And => if h == keywords.len() {
            h
        } else {
            0
        },
        BoolOp::Or => h,
    }
}


proof fn lemma_hits_bounds(kws: Seq<Seq<char>>, text: Seq<char>)
    ensures
        keyword_hits(kws, text) <= kws.len(),
        (forall|i: int| 0 <= i < kws.len() ==> contains_text(text, #[trigger] kws[i])) ==> keyword_hits(
            kws,
            text,
        ) == kws.len(),
        keyword_hits(kws, text) == kws.len() ==> forall|i: int|
            0 <= i < kws.len() ==> contains_text(text, #[trigger] kws[i]),
    decreases kws.len(),
{
    if kws.len() > 0 {
        let d = kws.drop_last();
        lemma_hits_bounds(d, text);
        assert forall|i: int| 0 <= i < d.len() implies d[i] == #[trigger] kws[i] by {}
        assert(kws.last() == kws[kws.len() - 1]);
        if keyword_hits(kws, text) == kws.len() {
            assert forall|i: int| 0 <= i < kws.len() implies contains_text(text, #[trigger] kws[i]) by {
                if i < kws.len() - 1 {
                    assert(d[i] == kws[i]);
                }
            }
        }
    }
}

/// Law: with no keywords every text scores 1. With keywords, an `OR` query
/// scores the number of keywords the text contains (at most all of them,
/// and 0 only when it contains none); an `AND` query scores all of them
/// when the text contains every keyword and 0 otherwise, and never more
/// than the `OR` score.
pub proof fn lemma_keyword_score_rules(text: Seq<char>, kws: Seq<Seq<char>>)
    ensures
        kws.len() == 0 ==> keyword_score_spec(text, kws, BoolOp::And) == 1 && keyword_score_spec(
            text,
            kws,
            BoolOp::Or,
        ) == 1,
        kws.len() > 0 ==> keyword_score_spec(text, kws, BoolOp::Or) <= kws.len(),
        kws.len() > 0 ==> (keyword_score_spec(text, kws, BoolOp::Or) == 0 <==> forall|i: int|
            0 <= i < kws.len() ==> !contains_text(text, #[trigger] kws[i])),
        kws.len() > 0 ==> (keyword_score_spec(text, kws, BoolOp::And) == kws.len() <==> forall|i: int|
            0 <= i < kws.len() ==> contains_text(text, #[trigger] kws[i])),
        kws.len() > 0 ==> (keyword_score_spec(text, kws, BoolOp::And) == 0 || keyword_score_spec(
            text,
            kws,
            BoolOp::And,
        ) == kws.len()),
        keyword_score_spec(text, kws, BoolOp::And) <= keyword_score_spec(text, kws, BoolOp::Or),
{
    lemma_hits_bounds(kws, text);
    lemma_hits_zero(kws, text);
}

proof fn lemma_hits_zero(kws: Seq<Seq<char>>, text: Seq<char>)
    ensures
        keyword_hits(kws, text) == 0 <==> forall|i: int| 0 <= i < kws.len() ==> !contains_text(text, #[trigger] kws[i]),
    decreases kws.len(),
{
    if kws.len() > 0 {
        let d = kws.drop_last();
        lemma_hits_zero(d, text);
        assert forall|i: int| 0 <= i < d.len() implies d[i] == #[trigger] kws[i] by {}
        assert(kws.last() == kws[kws.len() - 1]);
        if keyword_hits(kws, text) == 0 {
            assert forall|i: int| 0 <= i < kws.len() implies !contains_text(text, #[trigger] kws[i]) by {
                if i < kws.len() - 1 {
                    assert(d[i] == kws[i]);
                }
            }
        }
    }
}

// ─── Executing a query ──────────────────────────────

/// A stored memory as a query sees it: its layer id, depth, whether it
/// lies within the query's `near:` sphere (true when there is none), and
/// its text.
pub struct QueryCandidate {
    pub layer_id: u8,
    pub depth: u8,
    pub in_range: bool,
    pub text: String,
}

/// A memory that matched: its score, its index (appended memories are
/// numbered from 1_000_000 on) and whether it is in the main index.
#[derive(Clone, Copy, Debug, PartialEq, Eq)]
pub struct QueryHit {
    pub score: usize,
    pub block_idx: usize,
    pub is_main: bool,
}

/// Where appended memories are numbered from.
pub const APPENDED_BASE: usize = 1_000_000;

/// The candidate passes the layer, depth and `near:` filters.
pub open spec fn passes(c: QueryCandidate, layer: Option<u8>, depth: Option<DepthRange>) -> bool {
    &&& (layer matches Some(l) ==> c.layer_id == l)
    &&& (depth matches Some(d) ==> d.lo <= c.depth <= d.hi)
    &&& c.in_range
}

/// The score of a candidate: the keyword score of its lower-cased text.
pub open spec fn candidate_score(c: QueryCandidate, keywords: Seq<Seq<char>>, op: BoolOp) -> nat {
    keyword_score_spec(lower_text(c.text@), keywords, op)
}

/// The hits among the first `k` candidates of one list, in order, numbered
/// from `base`.
pub open spec fn hits_of(
    cs: Seq<QueryCandidate>,
    k: int,
    layer: Option<u8>,
    depth: Option<DepthRange>,
    keywords: Seq<Seq<char>>,
    op: BoolOp,
    base: int,
    is_main: bool,
) -> Seq<QueryHit>
    decreases k,
{
    if k <= 0 {
        Seq::empty()
    } else {
        let rest = hits_of(cs, k - 1, layer, depth, keywords, op, base, is_main);
        let c = cs[k - 1];
        if passes(c, layer, depth) && candidate_score(c, keywords, op) > 0 {
            rest.push(
                QueryHit {
                    score: candidate_score(c, keywords, op) as usize,
                    block_idx: (base + k - 1) as usize,
                    is_main: is_main,
                },
            )
        } else {
            rest
        }
    }
}

/// `h` placed into `s` after every hit whose score is at least its own.
pub open spec fn insert_desc(s: Seq<QueryHit>, h: QueryHit) -> Seq<QueryHit>
    decreases s.len(),
{
    if s.len() == 0 {
        seq![h]
    } else if s[0].score < h.score {
        seq![h] + s
    } else {
        seq![s[0]] + insert_desc(s.drop_first(), h)
    }
}

/// The hits ordered by score, highest first, equal scores in their order
/// (a stable sort).
pub open spec fn sort_desc(s: Seq<QueryHit>) -> Seq<QueryHit>
    decreases s.len(),
{
    if s.len() == 0 {
        Seq::empty()
    } else {
        insert_desc(sort_desc(s.drop_last()), s.last())
    }
}

/// The first position of `s` whose score is below `score`, or its length.
pub open spec fn first_below(s: Seq<QueryHit>, score: usize) -> int
    decreases s.len(),
{
    if s.len() == 0 {
        0
    } else if s[0].score < score {
        0
    } else {
        1 + first_below(s.drop_first(), score)
    }
}

proof fn lemma_insert_desc(s: Seq<QueryHit>, h: QueryHit)
    ensures
        0 <= first_below(s, h.score) <= s.len(),
        forall|j: int| 0 <= j < first_below(s, h.score) ==> !(#[trigger] s[j].score < h.score),
        first_below(s, h.score) < s.len() ==> s[first_below(s, h.score)].score < h.score,
        insert_desc(s, h) == s.take(first_below(s, h.score)) + seq![h] + s.skip(first_below(s, h.score)),
    decreases s.len(),
{
    if s.len() > 0 && !(s[0].score < h.score) {
        let t = s.drop_first();
        lemma_insert_desc(t, h);
        let p = first_below(t, h.score);
        assert forall|j: int| 0 <= j < p + 1 implies !(#[trigger] s[j].score < h.score) by {
            if j > 0 {
                assert(s[j] == t[j - 1]);
            }
        }
        assert(s.take(p + 1) =~= seq![s[0]] + t.take(p));
        assert(s.skip(p + 1) =~= t.skip(p));
        assert(insert_desc(s, h) =~= s.take(p + 1) + seq![h] + s.skip(p + 1));
    } else if s.len() > 0 {
        assert(s.take(0) =~= Seq::<QueryHit>::empty());
        assert(s.skip(0) =~= s);
        assert(insert_desc(s, h) =~= s.take(0) + seq![h] + s.skip(0));
    } else {
        assert(insert_desc(s, h) =~= s.take(0) + seq![h] + s.skip(0));
    }
}

/// Inserts `h` after every hit whose score is at least its own.
fn insert_hit(out: &mut Vec<QueryHit>, h: QueryHit)
    ensures
        final(out)@ == insert_desc(old(out)@, h),
{
    proof {
        lemma_insert_desc(old(out)@, h);
    }
    let ghost s = out@;
    let mut p: usize = 0;
    while p < out.len() && !(out[p].score < h.score)
        invariant
            p <= out@.len(),
            out@ == s,
            p <= first_below(s, h.score),
            forall|j: int| 0 <= j < first_below(s, h.score) ==> !(#[trigger] s[j].score < h.score),
            first_below(s, h.score) < s.len() ==> s[first_below(s, h.score)].score < h.score,
        decreases out.len() - p,
    {
        p = p + 1;
    }
    assert(p == first_below(s, h.score));
    out.insert(p, h);
    assert(out@ =~= s.take(p as int) + seq![h] + s.skip(p as int));
}

/// Collects the hits of one list of candidates, numbered from `base`.
fn collect_hits(
    out: &mut Vec<QueryHit>,
    cs: &Vec<QueryCandidate>,
    layer: Option<u8>,
    q: &Query,
    base: usize,
    is_main: bool,
)
    requires
        base + cs@.len() <= usize::MAX,
    ensures
        final(out)@ == old(out)@ + hits_of(
            cs@,
            cs@.len() as int,
            layer,
            q.depth_filter,
            strings_view(q.keywords@),
            q.op,
            base as int,
            is_main,
        ),
{
    let ghost start = out@;
    let mut i: usize = 0;
    while i < cs.len()
        invariant
            i <= cs@.len(),
            base + cs@.len() <= usize::MAX,
            out@ == start + hits_of(cs@, i as int, layer, q.depth_filter, strings_view(q.keywords@), q.op, base as int, is_main),
        decreases cs.len() - i,
    {
        let c = &cs[i];
        let layer_ok: bool = match layer {
            Some(l) => c.layer_id == l,
            None => true,
        };
        let depth_ok: bool = match q.depth_filter {
            Some(d) => d.lo <= c.depth && c.depth <= d.hi,
            None => true,
        };
        if layer_ok && depth_ok && c.in_range {
            let lower = str_to_lowercase(c.text.as_str());
            let score: usize = keyword_score(lower.as_str(), q.keywords.as_slice(), &q.op);
            if score > 0 {
                out.push(QueryHit { score, block_idx: base + i, is_main });
                assert(out@ =~= start + hits_of(cs@, i + 1, layer, q.depth_filter, strings_view(q.keywords@), q.op, base as int, is_main));
            }
        }
        i = i + 1;
    }
}

/// The result of a query: the memories of the main index and then the
/// appended ones that pass the layer (`layer`, the id of the query's layer
/// filter), depth and `near:` filters and score above zero, ordered by
/// score, highest first, ties in that order, cut to the query's limit.
pub fn select_hits(
    q: &Query,
    layer: Option<u8>,
    main: &Vec<QueryCandidate>,
    appended: &Vec<QueryCandidate>,
) -> (r: Vec<QueryHit>)
    requires
        main@.len() <= usize::MAX,
        APPENDED_BASE + appended@.len() <= usize::MAX,
    ensures
        ({
            let kws = strings_view(q.keywords@);
            let all = hits_of(main@, main@.len() as int, layer, q.depth_filter, kws, q.op, 0, true)
                + hits_of(appended@, appended@.len() as int, layer, q.depth_filter, kws, q.op, APPENDED_BASE as int, false);
            let sorted = sort_desc(all);
            r@ == if sorted.len() <= q.limit { sorted } else { sorted.take(q.limit as int) }
        }),
{
    let mut hits: Vec<QueryHit> = Vec::new();
    collect_hits(&mut hits, main, layer, q, 0, true);
    collect_hits(&mut hits, appended, layer, q, APPENDED_BASE, false);
    let ghost all = hits@;
    assert(all =~= hits_of(main@, main@.len() as int, layer, q.depth_filter, strings_view(q.keywords@), q.op, 0, true)
        + hits_of(appended@, appended@.len() as int, layer, q.depth_filter, strings_view(q.keywords@), q.op, APPENDED_BASE as int, false));
    let mut out: Vec<QueryHit> = Vec::new();
    let mut k: usize = 0;
    assert(all.take(0) =~= Seq::<QueryHit>::empty());
    while k < hits.len()
        invariant
            k <= all.len(),
            hits@ == all,
            out@ == sort_desc(all.take(k as int)),
        decreases hits.len() - k,
    {
        let ghost t = all.take(k + 1);
        assert(t.drop_last() =~= all.take(k as int));
        assert(t.last() == all[k as int]);
        insert_hit(&mut out, hits[k]);
        k = k + 1;
    }
    assert(all.take(all.len() as int) =~= all);
    if out.len() > q.limit {
        out.truncate(q.limit);
    }
    out
}

} // verus!
