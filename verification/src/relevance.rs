//! Shared lexical ranking: the normalised form of a query and its tokens.
use vstd::prelude::*;
use vstd::utf8::encode_utf8;
use crate::text::{
    alnum, char_is_alphanumeric, char_is_whitespace, char_to_lowercase, is_whitespace, lower_char,
    str_eq, string_push,
};

verus! {

/// Parsed query reused while scoring all candidate memories.
#[derive(Clone, Debug)]
pub struct RelevanceQuery {
    /// The normalised query text.
    pub normalized: String,
    /// Distinct tokens longer than two bytes, in order of first appearance.
    pub tokens: Vec<String>,
}

/// The lower-case form of `s`, character by character.
pub open spec fn lowered(s: Seq<char>) -> Seq<char>
    decreases s.len(),
{
    if s.len() == 0 {
        Seq::empty()
    } else {
        lowered(s.drop_last()) + lower_char(s.last())
    }
}

/// State after normalising `s`: the output so far and whether it ends in a
/// separator (true at the start, so leading separators are dropped).
pub open spec fn collapse(s: Seq<char>) -> (Seq<char>, bool)
    decreases s.len(),
{
    if s.len() == 0 {
        (Seq::empty(), true)
    } else {
        let (out, sep) = collapse(s.drop_last());
        let c = s.last();
        if alnum(c) {
            (out.push(c), false)
        } else if !sep {
            (out.push(' '), true)
        } else {
            (out, sep)
        }
    }
}

/// Normalised text: lower case, alphanumeric characters kept, every run of
/// other characters turned into one space, no leading or trailing space.
pub open spec fn normalize_spec(s: Seq<char>) -> Seq<char> {
    let out = collapse(lowered(s)).0;
    if out.len() > 0 && out.last() == ' ' {
        out.drop_last()
    } else {
        out
    }
}

/// State after splitting `s` at whitespace: the finished words and the word in progress.
pub open spec fn split_state(s: Seq<char>) -> (Seq<Seq<char>>, Seq<char>)
    decreases s.len(),
{
    if s.len() == 0 {
        (Seq::empty(), Seq::empty())
    } else {
        let (done, cur) = split_state(s.drop_last());
        let c = s.last();
        if is_whitespace(c) {
            if cur.len() > 0 {
                (done.push(cur), Seq::empty())
            } else {
                (done, cur)
            }
        } else {
            (done, cur.push(c))
        }
    }
}

/// The whitespace-separated words of `s`.
pub open spec fn words(s: Seq<char>) -> Seq<Seq<char>> {
    let (done, cur) = split_state(s);
    if cur.len() > 0 {
        done.push(cur)
    } else {
        done
    }
}

/// Words longer than two bytes, each kept at its first appearance.
pub open spec fn distinct_long(ws: Seq<Seq<char>>) -> Seq<Seq<char>>
    decreases ws.len(),
{
    if ws.len() == 0 {
        Seq::empty()
    } else {
        let acc = distinct_long(ws.drop_last());
        let w = ws.last();
        if encode_utf8(w).len() > 2 && !acc.contains(w) {
            acc.push(w)
        } else {
            acc
        }
    }
}

/// Text of a sequence of strings.
pub open spec fn strings_view(v: Seq<String>) -> Seq<Seq<char>> {
    v.map_values(|s: String| s@)
}

/// Lower-case `text`, keep alphanumerics, collapse everything else to single spaces.
pub fn normalize(text: &str) -> (r: String)
    ensures
        r@ == normalize_spec(text@),
{
    let n: usize = text.unicode_len();
    let mut out = String::new();
    let mut sep: bool = true;
    let mut i: usize = 0;
    assert(text@.take(0) =~= Seq::<char>::empty());
    while i < n
        invariant
            i <= n,
            n == text@.len(),
            collapse(lowered(text@.take(i as int))) == (out@, sep),
        decreases n - i,
    {
        let c = text.get_char(i);
        let low = char_to_lowercase(c);
        let ghost pre = lowered(text@.take(i as int));
        assert(text@.take(i + 1).drop_last() =~= text@.take(i as int));
        assert(lowered(text@.take(i + 1)) == pre + lower_char(c));
        let m: usize = low.len();
        let mut k: usize = 0;
        assert(pre + low@.take(0) =~= pre);
        while k < m
            invariant
                k <= m,
                m == low@.len(),
                collapse(pre + low@.take(k as int)) == (out@, sep),
            decreases m - k,
        {
            let ch = low[k];
            let ghost s = pre + low@.take(k + 1);
            assert(s.drop_last() =~= pre + low@.take(k as int));
            assert(s.last() == ch);
            if char_is_alphanumeric(ch) {
                string_push(&mut out, ch);
                sep = false;
            } else if !sep {
                string_push(&mut out, ' ');
                sep = true;
            }
            k = k + 1;
        }
        assert(low@.take(m as int) =~= low@);
        i = i + 1;
    }
    assert(text@.take(n as int) =~= text@);
    let len: usize = out.unicode_len();
    if len > 0 && out.as_str().get_char(len - 1) == ' ' {
        let trimmed = out.as_str().substring_char(0, len - 1).to_owned();
        assert(trimmed@ =~= out@.drop_last());
        return trimmed;
    }
    out
}

/// Byte length of a string.
pub fn byte_len(s: &String) -> (r: usize)
    ensures
        r == encode_utf8(s@).len(),
{
    s.as_str().as_bytes().len()
}

/// The whitespace-separated words of `s`, as `str::split_whitespace` yields them.
pub fn split_words(s: &str) -> (r: Vec<String>)
    ensures
        strings_view(r@) == words(s@),
{
    let n: usize = s.unicode_len();
    let mut out: Vec<String> = Vec::new();
    let mut cur = String::new();
    let mut i: usize = 0;
    assert(s@.take(0) =~= Seq::<char>::empty());
    while i < n
        invariant
            i <= n,
            n == s@.len(),
            split_state(s@.take(i as int)) == (strings_view(out@), cur@),
        decreases n - i,
    {
        let c = s.get_char(i);
        assert(s@.take(i + 1).drop_last() =~= s@.take(i as int));
        if char_is_whitespace(c) {
            if cur.as_str().unicode_len() > 0 {
                let ghost prev = out@;
                let ghost w = cur@;
                out.push(cur);
                assert(strings_view(out@) =~= strings_view(prev).push(w));
                cur = String::new();
                assert(cur@ =~= Seq::<char>::empty());
            }
        } else {
            string_push(&mut cur, c);
        }
        i = i + 1;
    }
    assert(s@.take(n as int) =~= s@);
    if cur.as_str().unicode_len() > 0 {
        let ghost prev = out@;
        let ghost w = cur@;
        out.push(cur);
        assert(strings_view(out@) =~= strings_view(prev).push(w));
    }
    out
}

fn contains_string(v: &Vec<String>, w: &String) -> (r: bool)
    ensures
        r == strings_view(v@).contains(w@),
{
    let n: usize = v.len();
    let mut i: usize = 0;
    while i < n
        invariant
            i <= n,
            n == v@.len(),
            forall|j: int| 0 <= j < i ==> strings_view(v@)[j] != w@,
        decreases n - i,
    {
        if str_eq(v[i].as_str(), w.as_str()) {
            assert(strings_view(v@)[i as int] == w@);
            return true;
        }
        i = i + 1;
    }
    false
}


impl RelevanceQuery {
    pub fn new(query: &str) -> (q: Self)
        ensures
            q.normalized@ == normalize_spec(query@),
            strings_view(q.tokens@) == distinct_long(words(normalize_spec(query@))),
    {
        let normalized = normalize(query);
        let norm: &str = normalized.as_str();
        let ghost ns = norm@;
        let n: usize = norm.unicode_len();
        let mut tokens: Vec<String> = Vec::new();
        let mut done_words: Ghost<Seq<Seq<char>>> = Ghost(Seq::empty());
        let mut cur = String::new();
        let mut i: usize = 0;
        assert(ns.take(0) =~= Seq::<char>::empty());
        while i < n
            invariant
                i <= n,
                n == ns.len(),
                ns == norm@,
                split_state(ns.take(i as int)) == (done_words@, cur@),
                strings_view(tokens@) == distinct_long(done_words@),
            decreases n - i,
        {
            let c = norm.get_char(i);
            assert(ns.take(i + 1).drop_last() =~= ns.take(i as int));
            if char_is_whitespace(c) {
                if cur.as_str().unicode_len() > 0 {
                    let ghost w = cur@;
                    let ghost old_done = done_words@;
                    assert(old_done.push(w).drop_last() =~= old_done);
                    if byte_len(&cur) > 2 && !contains_string(&tokens, &cur) {
                        let ghost prev = tokens@;
                        tokens.push(cur);
                        assert(strings_view(tokens@) =~= strings_view(prev).push(w));
                    }
                    proof {
                        done_words@ = old_done.push(w);
                    }
                    cur = String::new();
                    assert(cur@ =~= Seq::<char>::empty());
                }
            } else {
                string_push(&mut cur, c);
            }
            i = i + 1;
        }
        assert(ns.take(n as int) =~= ns);
        if cur.as_str().unicode_len() > 0 {
            let ghost w = cur@;
            let ghost old_done = done_words@;
            assert(old_done.push(w).drop_last() =~= old_done);
            if byte_len(&cur) > 2 && !contains_string(&tokens, &cur) {
                let ghost prev = tokens@;
                tokens.push(cur);
                assert(strings_view(tokens@) =~= strings_view(prev).push(w));
            }
            proof {
                done_words@ = old_done.push(w);
            }
        }
        RelevanceQuery { normalized, tokens }
    }

    /// No token survived normalisation.
    pub fn is_empty(&self) -> (r: bool)
        ensures
            r == (self.tokens@.len() == 0),
    {
        self.tokens.len() == 0
    }
}


/// Law: the tokens of a query are distinct, each longer than two bytes, and
/// each one of the query's words.
pub proof fn lemma_tokens_distinct(ws: Seq<Seq<char>>)
    ensures
        forall|i: int, j: int|
            0 <= i < j < distinct_long(ws).len() ==> #[trigger] distinct_long(ws)[i] != #[trigger] distinct_long(ws)[j],
        forall|i: int| 0 <= i < distinct_long(ws).len() ==> encode_utf8(#[trigger] distinct_long(ws)[i]).len() > 2,
        forall|i: int| 0 <= i < distinct_long(ws).len() ==> ws.contains(#[trigger] distinct_long(ws)[i]),
    decreases ws.len(),
{
    if ws.len() > 0 {
        let init = ws.drop_last();
        lemma_tokens_distinct(init);
        let acc = distinct_long(init);
        let w = ws.last();
        assert forall|i: int| 0 <= i < acc.len() implies ws.contains(#[trigger] acc[i]) by {
            let k = choose|k: int| 0 <= k < init.len() && init[k] == acc[i];
            assert(ws[k] == init[k]);
        }
        if encode_utf8(w).len() > 2 && !acc.contains(w) {
            let r = acc.push(w);
            assert(ws[ws.len() - 1] == w);
            assert forall|i: int, j: int| 0 <= i < j < r.len() implies #[trigger] r[i] != #[trigger] r[j] by {
                if j == r.len() - 1 {
                    assert(r[i] == acc[i]);
                    if r[i] == w {
                        assert(acc.contains(w));
                    }
                } else {
                    assert(r[i] == acc[i] && r[j] == acc[j]);
                }
            }
        }
    }
}

} // verus!
