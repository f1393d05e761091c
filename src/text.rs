//! Tokenizer and normalizer: whitespace splitting, alphanumeric filtering and
//! lower-casing of words.
use vstd::prelude::*;

verus! {

/// What `char::is_alphanumeric` reports for a character.
pub uninterp spec fn alphanumeric(c: char) -> bool;

/// The characters with the Unicode White_Space property.
pub open spec fn whitespace(c: char) -> bool {
    let v = c as u32;
    ||| 0x9 <= v <= 0xd
    ||| v == 0x20
    ||| v == 0x85
    ||| v == 0xa0
    ||| v == 0x1680
    ||| 0x2000 <= v <= 0x200a
    ||| v == 0x2028
    ||| v == 0x2029
    ||| v == 0x202f
    ||| v == 0x205f
    ||| v == 0x3000
}

/// The simple lower-case mapping of a character: the first character that
/// `char::to_lowercase` yields.
pub uninterp spec fn lower_char(c: char) -> char;

/// Relies on `char::is_alphanumeric`: whether the character is Unicode
/// Alphabetic or Numeric, a property of the character alone.
pub assume_specification[ char::is_alphanumeric ](c: char) -> (r: bool)
    ensures
        r == alphanumeric(c),
;

/// Relies on `char::is_whitespace`: whether the character has the Unicode
/// White_Space property (listed in `whitespace`).
pub assume_specification[ char::is_whitespace ](c: char) -> (r: bool)
    ensures
        r == whitespace(c),
;

/// Relies on `char::to_lowercase`: the iterator yields the lower-case mapping
/// of `c`, one or more characters depending on `c` alone; its first character
/// is the simple lower-case mapping. The `unwrap_or` arm is never taken.
#[verifier::external_body]
fn simple_lowercase(c: char) -> (r: char)
    ensures
        r == lower_char(c),
{
    c.to_lowercase().next().unwrap_or(c)
}

/// Relies on `String::push`: appends one character at the end.
pub assume_specification[ String::push ](s: &mut String, ch: char)
    ensures
        final(s)@ == old(s)@.push(ch),
;

/// The character views of a sequence of strings.
pub open spec fn texts(v: Seq<String>) -> Seq<Seq<char>> {
    v.map_values(|s: String| s@)
}

/// The separators of a split: sentence terminators, or else whitespace.
pub open spec fn is_separator(c: char, sentences: bool) -> bool {
    if sentences {
        c == '.' || c == '!' || c == '?'
    } else {
        whitespace(c)
    }
}

/// Scanning `s` from the left: the pieces closed by a separator so far, and
/// the piece still open.
pub open spec fn split_state(s: Seq<char>, sentences: bool) -> (Seq<Seq<char>>, Seq<char>)
    decreases s.len(),
{
    if s.len() == 0 {
        (Seq::empty(), Seq::empty())
    } else {
        let prev = split_state(s.drop_last(), sentences);
        if is_separator(s.last(), sentences) {
            (prev.0.push(prev.1), Seq::empty())
        } else {
            (prev.0, prev.1.push(s.last()))
        }
    }
}

/// All pieces of `s` between separators, empty pieces included (one more
/// piece than there are separators).
pub open spec fn split_on(s: Seq<char>, sentences: bool) -> Seq<Seq<char>> {
    split_state(s, sentences).0.push(split_state(s, sentences).1)
}

/// The non-empty strings of `ws`, in order.
pub open spec fn nonempty_only(ws: Seq<Seq<char>>) -> Seq<Seq<char>> {
    ws.filter(|w: Seq<char>| w.len() > 0)
}

/// The whitespace-separated fragments of `s`.
pub open spec fn words_of(s: Seq<char>) -> Seq<Seq<char>> {
    nonempty_only(split_on(s, false))
}

/// The alphanumeric characters of `s`, in order.
pub open spec fn alnum_only(s: Seq<char>) -> Seq<char> {
    s.filter(|c: char| alphanumeric(c))
}

/// Each character of `s` mapped to its simple lower-case form.
pub open spec fn lowered(s: Seq<char>) -> Seq<char> {
    s.map_values(|c: char| lower_char(c))
}

/// A fragment reduced to a token: its alphanumeric characters, each
/// lower-cased.
pub open spec fn normalized(s: Seq<char>) -> Seq<char> {
    lowered(alnum_only(s))
}

/// Each fragment normalized.
pub open spec fn normalized_all(ws: Seq<Seq<char>>) -> Seq<Seq<char>> {
    ws.map_values(|w: Seq<char>| normalized(w))
}

/// The tokens of a text: its fragments normalized, empty results dropped.
pub open spec fn tokens_of(s: Seq<char>) -> Seq<Seq<char>> {
    nonempty_only(normalized_all(words_of(s)))
}

proof fn lemma_nonempty_only_push(ws: Seq<Seq<char>>, w: Seq<char>)
    ensures
        nonempty_only(ws.push(w)) == (if w.len() > 0 {
            nonempty_only(ws).push(w)
        } else {
            nonempty_only(ws)
        }),
{
    reveal(Seq::filter);
    assert(ws.push(w).drop_last() =~= ws);
}

/// An entry of `nonempty_only(ws)` is non-empty and is an entry of `ws`.
proof fn lemma_nonempty_only_member(ws: Seq<Seq<char>>, i: int)
    requires
        0 <= i < nonempty_only(ws).len(),
    ensures
        nonempty_only(ws)[i].len() > 0,
        ws.contains(nonempty_only(ws)[i]),
{
    let p = |w: Seq<char>| w.len() > 0;
    let e = nonempty_only(ws)[i];
    ws.lemma_filter_pred(p, i);
    assert(ws.filter(p).contains(e));
    ws.lemma_filter_contains_rev(p, e);
}

proof fn lemma_alnum_only_push(s: Seq<char>, c: char)
    ensures
        alnum_only(s.push(c)) == (if alphanumeric(c) {
            alnum_only(s).push(c)
        } else {
            alnum_only(s)
        }),
{
    reveal(Seq::filter);
    assert(s.push(c).drop_last() =~= s);
}

proof fn lemma_take_push(s: Seq<char>, k: int)
    requires
        0 <= k < s.len(),
    ensures
        s.take(k + 1) == s.take(k).push(s[k]),
        s.take(k + 1).drop_last() == s.take(k),
        s.take(k + 1).last() == s[k],
{
    assert(s.take(k + 1) =~= s.take(k).push(s[k]));
    assert(s.take(k + 1).drop_last() =~= s.take(k));
}

proof fn lemma_take_push_words(s: Seq<Seq<char>>, k: int)
    requires
        0 <= k < s.len(),
    ensures
        s.take(k + 1) == s.take(k).push(s[k]),
{
    assert(s.take(k + 1) =~= s.take(k).push(s[k]));
}

/// Every token is non-empty, and is a non-empty sequence of alphanumeric
/// characters, each lower-cased.
pub proof fn lemma_tokens_are_folded_alphanumeric(s: Seq<char>)
    ensures
        forall|i: int|
            0 <= i < tokens_of(s).len() ==> {
                &&& (#[trigger] tokens_of(s)[i]).len() > 0
                &&& exists|x: Seq<char>|
                    {
                        &&& x.len() > 0
                        &&& forall|k: int| 0 <= k < x.len() ==> alphanumeric(#[trigger] x[k])
                        &&& tokens_of(s)[i] == lowered(x)
                    }
            },
{
    let ws = normalized_all(words_of(s));
    let ts = tokens_of(s);
    assert forall|i: int| 0 <= i < ts.len() implies {
        &&& (#[trigger] ts[i]).len() > 0
        &&& exists|x: Seq<char>|
            {
                &&& x.len() > 0
                &&& forall|k: int| 0 <= k < x.len() ==> alphanumeric(#[trigger] x[k])
                &&& ts[i] == lowered(x)
            }
    } by {
        lemma_nonempty_only_member(ws, i);
        let j = choose|j: int| 0 <= j < ws.len() && ws[j] == ts[i];
        let x = alnum_only(words_of(s)[j]);
        assert forall|k: int| 0 <= k < x.len() implies alphanumeric(#[trigger] x[k]) by {
            words_of(s)[j].lemma_filter_pred(|c: char| alphanumeric(c), k);
        }
        assert(ts[i] == lowered(x));
    }
}

/// The characters of `s`, in order.
pub fn chars_of(s: &str) -> (r: Vec<char>)
    ensures
        r@ == s@,
{
    let mut out: Vec<char> = Vec::new();
    for c in it: s.chars()
        invariant
            it.seq() == s@,
            out@ == s@.take(it.index()),
    {
        proof {
            lemma_take_push(s@, it.index());
        }
        out.push(c);
    }
    proof {
        assert(s@.take(s@.len() as int) =~= s@);
    }
    out
}

/// Splits `text` at every separator (sentence terminators `.`, `!`, `?` when
/// `sentences` holds, whitespace otherwise), keeping empty pieces.
pub fn split_pieces(text: &str, sentences: bool) -> (r: Vec<String>)
    ensures
        texts(r@) == split_on(text@, sentences),
{
    let mut done: Vec<String> = Vec::new();
    let mut cur = String::new();
    for c in it: text.chars()
        invariant
            it.seq() == text@,
            texts(done@) == split_state(text@.take(it.index()), sentences).0,
            cur@ == split_state(text@.take(it.index()), sentences).1,
    {
        proof {
            lemma_take_push(text@, it.index());
        }
        let sep = if sentences {
            c == '.' || c == '!' || c == '?'
        } else {
            c.is_whitespace()
        };
        if sep {
            proof {
                assert(texts(done@.push(cur)) =~= texts(done@).push(cur@));
            }
            done.push(cur);
            cur = String::new();
        } else {
            cur.push(c);
        }
    }
    proof {
        assert(text@.take(text@.len() as int) =~= text@);
        assert(texts(done@.push(cur)) =~= texts(done@).push(cur@));
    }
    done.push(cur);
    done
}

/// The non-empty strings of `v`, in order.
fn keep_nonempty(v: &Vec<String>) -> (r: Vec<String>)
    ensures
        texts(r@) == nonempty_only(texts(v@)),
{
    let mut out: Vec<String> = Vec::new();
    for i in 0..v.len()
        invariant
            texts(out@) == nonempty_only(texts(v@).take(i as int)),
    {
        proof {
            lemma_take_push_words(texts(v@), i as int);
            lemma_nonempty_only_push(texts(v@).take(i as int), v@[i as int]@);
        }
        if !v[i].as_str().is_empty() {
            proof {
                assert(texts(out@.push(v@[i as int])) =~= texts(out@).push(v@[i as int]@));
            }
            out.push(v[i].clone());
        }
    }
    proof {
        assert(texts(v@).take(v@.len() as int) =~= texts(v@));
    }
    out
}

/// Splits a query at whitespace into its non-empty fragments, in order.
pub fn split_query_into_words(query: &str) -> (r: Vec<String>)
    ensures
        texts(r@) == words_of(query@),
{
    let pieces = split_pieces(query, false);
    keep_nonempty(&pieces)
}

/// Keeps the alphanumeric characters of `token`, each lower-cased.
pub fn normalize_token(token: &str) -> (r: String)
    ensures
        r@ == normalized(token@),
{
    let mut kept = String::new();
    for c in it: token.chars()
        invariant
            it.seq() == token@,
            kept@ == normalized(token@.take(it.index())),
    {
        proof {
            lemma_take_push(token@, it.index());
            lemma_alnum_only_push(token@.take(it.index()), c);
            let a = alnum_only(token@.take(it.index()));
            assert(lowered(a.push(c)) =~= lowered(a).push(lower_char(c)));
        }
        if c.is_alphanumeric() {
            kept.push(simple_lowercase(c));
        }
    }
    proof {
        assert(token@.take(token@.len() as int) =~= token@);
    }
    kept
}

/// The tokens of `text`: each whitespace-separated fragment normalized, the
/// empty results dropped.
pub fn tokenize(text: &str) -> (r: Vec<String>)
    ensures
        texts(r@) == tokens_of(text@),
{
    let words = split_query_into_words(text);
    let mut out: Vec<String> = Vec::new();
    for i in 0..words.len()
        invariant
            texts(words@) == words_of(text@),
            texts(out@) == nonempty_only(normalized_all(words_of(text@).take(i as int))),
    {
        let t = normalize_token(words[i].as_str());
        proof {
            let ws = words_of(text@);
            lemma_take_push_words(ws, i as int);
            assert(normalized_all(ws.take(i as int + 1)) =~= normalized_all(ws.take(i as int)).push(
                normalized(ws[i as int]),
            ));
            lemma_nonempty_only_push(normalized_all(ws.take(i as int)), t@);
        }
        if !t.as_str().is_empty() {
            proof {
                assert(texts(out@.push(t)) =~= texts(out@).push(t@));
            }
            out.push(t);
        }
    }
    proof {
        assert(words_of(text@).take(words@.len() as int) =~= words_of(text@));
    }
    out
}

/// `s` without its leading whitespace.
pub open spec fn trim_start(s: Seq<char>) -> Seq<char>
    decreases s.len(),
{
    if s.len() > 0 && whitespace(s[0]) {
        trim_start(s.drop_first())
    } else {
        s
    }
}

/// `s` without its trailing whitespace.
pub open spec fn trim_end(s: Seq<char>) -> Seq<char>
    decreases s.len(),
{
    if s.len() > 0 && whitespace(s.last()) {
        trim_end(s.drop_last())
    } else {
        s
    }
}

/// `s` without leading or trailing whitespace.
pub open spec fn trimmed(s: Seq<char>) -> Seq<char> {
    trim_end(trim_start(s))
}

/// The characters `cs[lo..hi]` as a string.
fn string_from(cs: &Vec<char>, lo: usize, hi: usize) -> (r: String)
    requires
        lo <= hi <= cs@.len(),
    ensures
        r@ == cs@.subrange(lo as int, hi as int),
{
    let mut out = String::new();
    let mut k: usize = lo;
    while k < hi
        invariant
            lo <= k <= hi <= cs@.len(),
            out@ == cs@.subrange(lo as int, k as int),
        decreases hi - k,
    {
        proof {
            assert(cs@.subrange(lo as int, k + 1) =~= cs@.subrange(lo as int, k as int).push(
                cs@[k as int],
            ));
        }
        out.push(cs[k]);
        k = k + 1;
    }
    out
}

/// `s` without leading or trailing whitespace.
pub fn trim(s: &str) -> (r: String)
    ensures
        r@ == trimmed(s@),
{
    let cs = chars_of(s);
    let len = cs.len();
    let mut lo: usize = 0;
    proof {
        assert(cs@.subrange(0, len as int) =~= cs@);
    }
    while lo < len && cs[lo].is_whitespace()
        invariant
            lo <= len == cs@.len(),
            cs@ == s@,
            trim_start(s@) == trim_start(cs@.subrange(lo as int, len as int)),
        decreases len - lo,
    {
        proof {
            assert(cs@.subrange(lo as int, len as int).drop_first() =~= cs@.subrange(
                lo + 1,
                len as int,
            ));
        }
        lo = lo + 1;
    }
    proof {
        assert(trim_start(cs@.subrange(lo as int, len as int)) == cs@.subrange(
            lo as int,
            len as int,
        ));
    }
    let mut hi: usize = len;
    while hi > lo && cs[hi - 1].is_whitespace()
        invariant
            lo <= hi <= len == cs@.len(),
            cs@ == s@,
            trim_start(s@) == cs@.subrange(lo as int, len as int),
            trimmed(s@) == trim_end(cs@.subrange(lo as int, hi as int)),
        decreases hi - lo,
    {
        proof {
            assert(cs@.subrange(lo as int, hi as int).drop_last() =~= cs@.subrange(
                lo as int,
                hi - 1,
            ));
        }
        hi = hi - 1;
    }
    string_from(&cs, lo, hi)
}

/// Whether `s` holds nothing but whitespace.
pub fn is_blank(s: &str) -> (r: bool)
    ensures
        r == (trimmed(s@).len() == 0),
{
    let t = trim(s);
    t.as_str().is_empty()
}

/// Each string trimmed.
pub open spec fn trimmed_all(ws: Seq<Seq<char>>) -> Seq<Seq<char>> {
    ws.map_values(|w: Seq<char>| trimmed(w))
}

/// The query words of a list: each trimmed, the blank ones dropped.
pub fn clean_words(words: &[String]) -> (r: Vec<String>)
    ensures
        texts(r@) == nonempty_only(trimmed_all(texts(words@))),
{
    let ghost ts = trimmed_all(texts(words@));
    let mut out: Vec<String> = Vec::new();
    for i in 0..words.len()
        invariant
            ts == trimmed_all(texts(words@)),
            texts(out@) == nonempty_only(ts.take(i as int)),
    {
        let t = trim(words[i].as_str());
        proof {
            lemma_take_push_words(ts, i as int);
            assert(ts[i as int] == t@);
            lemma_nonempty_only_push(ts.take(i as int), t@);
        }
        if !t.as_str().is_empty() {
            proof {
                assert(texts(out@.push(t)) =~= texts(out@).push(t@));
            }
            out.push(t);
        }
    }
    proof {
        assert(ts.take(words@.len() as int) =~= ts);
    }
    out
}

} // verus!
