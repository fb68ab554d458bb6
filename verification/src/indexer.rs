use crate::assoc::{
    assoc_has_key, assoc_sorted, assoc_to_map, bump_map, counts_positive, counts_view,
    lemma_adjacent_sorted,
    lemma_assoc_canonical, lemma_assoc_dom, lemma_assoc_get, lemma_assoc_insert_mid,
    lemma_assoc_sorted_distinct, lemma_assoc_update,
};
use crate::chars::{ascii_punct, char_whitespace, is_ascii_punct, whitespace};
use crate::lexer::{tokens_of, Lexer};
use crate::model::{df_count, df_map_of, Model, TermFreq};
use crate::order::{lemma_lex_irreflexive, lemma_lex_transitive, lemma_lex_trichotomy, lex_lt,
    str_cmp, Cmp};
use vstd::prelude::*;
use vstd::string::{StrSliceExecFns, StringExecFns};

verus! {

// ---------------------------------------------------------------------------
// From raw tokens to terms: each token is trimmed of surrounding whitespace,
// and a token that is empty after trimming, or made of ASCII punctuation
// alone, is discarded. Indexing and querying share this pipeline exactly.
// ---------------------------------------------------------------------------
/// The sequence without its leading whitespace run.
pub open spec fn trim_start_spec(s: Seq<char>) -> Seq<char>
    decreases s.len(),
{
    if s.len() > 0 && char_whitespace(s.first()) {
        trim_start_spec(s.drop_first())
    } else {
        s
    }
}

/// The sequence without its trailing whitespace run.
pub open spec fn trim_end_spec(s: Seq<char>) -> Seq<char>
    decreases s.len(),
{
    if s.len() > 0 && char_whitespace(s.last()) {
        trim_end_spec(s.drop_last())
    } else {
        s
    }
}

/// The sequence without surrounding whitespace.
pub open spec fn trim_spec(s: Seq<char>) -> Seq<char> {
    trim_start_spec(trim_end_spec(s))
}

/// A term worth indexing: nonempty, and not ASCII punctuation throughout.
pub open spec fn spec_is_word(s: Seq<char>) -> bool {
    s.len() > 0 && exists|i: int| 0 <= i < s.len() && !is_ascii_punct(s[i])
}

/// Whether a (trimmed) token is kept as a term.
pub fn is_word(term: &str) -> (r: bool)
    ensures
        r == spec_is_word(term@),
{
    let n = term.unicode_len();
    let mut i: usize = 0;
    while i < n
        invariant
            n == term@.len(),
            i <= n,
            forall|j: int| 0 <= j < i ==> is_ascii_punct(term@[j]),
        decreases n - i,
    {
        if !ascii_punct(term.get_char(i)) {
            return true;
        }
        i = i + 1;
    }
    false
}

/// Trim surrounding whitespace from a token.
pub fn trim_token(t: &str) -> (r: String)
    ensures
        r@ == trim_spec(t@),
{
    let n = t.unicode_len();
    let mut b: usize = n;
    proof {
        assert(t@.take(n as int) =~= t@);
    }
    while b > 0 && whitespace(t.get_char(b - 1))
        invariant
            n == t@.len(),
            b <= n,
            trim_end_spec(t@) == trim_end_spec(t@.take(b as int)),
        decreases b,
    {
        proof {
            let p = t@.take(b as int);
            assert(p.last() == t@[b as int - 1]);
            assert(p.drop_last() =~= t@.take(b as int - 1));
        }
        b = b - 1;
    }
    proof {
        let p = t@.take(b as int);
        if b > 0 {
            assert(p.last() == t@[b as int - 1]);
            assert(trim_end_spec(p) == p);
        } else {
            assert(p =~= Seq::<char>::empty());
            assert(trim_end_spec(p) == p);
        }
    }
    let ghost e = t@.take(b as int);
    let mut a: usize = 0;
    proof {
        assert(e.skip(0) =~= e);
    }
    while a < b && whitespace(t.get_char(a))
        invariant
            n == t@.len(),
            a <= b <= n,
            e == t@.take(b as int),
            trim_start_spec(e) == trim_start_spec(e.skip(a as int)),
        decreases b - a,
    {
        proof {
            let p = e.skip(a as int);
            assert(p.first() == t@[a as int]);
            assert(p.drop_first() =~= e.skip(a as int + 1));
        }
        a = a + 1;
    }
    proof {
        let p = e.skip(a as int);
        if a < b {
            assert(p.first() == t@[a as int]);
            assert(trim_start_spec(p) == p);
        } else {
            assert(p =~= Seq::<char>::empty());
            assert(trim_start_spec(p) == p);
        }
        assert(e.skip(a as int) =~= t@.subrange(a as int, b as int));
    }
    let piece = t.substring_char(a, b);
    String::from_str(piece)
}

/// The terms of a token stream: each token trimmed, the non-words dropped.
pub open spec fn term_filter(toks: Seq<Seq<char>>) -> Seq<Seq<char>>
    decreases toks.len(),
{
    if toks.len() == 0 {
        Seq::empty()
    } else {
        let rest = term_filter(toks.drop_last());
        let c = trim_spec(toks.last());
        if spec_is_word(c) {
            rest.push(c)
        } else {
            rest
        }
    }
}

/// The terms of a text: its tokens, trimmed and filtered.
pub open spec fn terms_of(s: Seq<char>) -> Seq<Seq<char>> {
    term_filter(tokens_of(s))
}

/// The occurrence counts of a term sequence.
pub open spec fn counts_of(ts: Seq<Seq<char>>) -> Map<Seq<char>, int>
    decreases ts.len(),
{
    if ts.len() == 0 {
        Map::empty()
    } else {
        bump_map(counts_of(ts.drop_last()), ts.last())
    }
}

pub proof fn lemma_term_filter_len(toks: Seq<Seq<char>>)
    ensures
        term_filter(toks).len() <= toks.len(),
    decreases toks.len(),
{
    if toks.len() > 0 {
        lemma_term_filter_len(toks.drop_last());
    }
}

/// Turn a string into its characters.
pub fn str_chars(s: &str) -> (v: Vec<char>)
    ensures
        v@ == s@,
{
    let n = s.unicode_len();
    let mut v: Vec<char> = Vec::new();
    let mut i: usize = 0;
    while i < n
        invariant
            n == s@.len(),
            i <= n,
            v@ == s@.take(i as int),
        decreases n - i,
    {
        v.push(s.get_char(i));
        proof {
            assert(s@.take(i as int + 1) =~= s@.take(i as int).push(s@[i as int]));
        }
        i = i + 1;
    }
    proof {
        assert(s@.take(n as int) =~= s@);
    }
    v
}

/// The terms one document contributes: its text is trimmed of surrounding
/// whitespace before tokenization.
pub open spec fn doc_terms(s: Seq<char>) -> Seq<Seq<char>> {
    terms_of(trim_spec(s))
}

/// Trim one document's text, tokenize it and accumulate its term counts.
pub fn index_document(content: &str) -> (tf: TermFreq)
    ensures
        tf.wf(),
        tf.to_map() == counts_of(doc_terms(content@)),
        tf.total_spec() == doc_terms(content@).len(),
{
    let trimmed = trim_token(content);
    let chars = str_chars(trimmed.as_str());
    let ghost text = trim_spec(content@);
    let ghost all_toks = tokens_of(text);
    let mut lexer = Lexer::new(chars.as_slice());
    let mut tf = TermFreq::new();
    let ghost mut k: int = 0;
    proof {
        assert(all_toks.take(0) =~= Seq::<Seq<char>>::empty());
        assert(tf.to_map() =~= counts_of(term_filter(all_toks.take(0))));
    }
    let text_len = chars.len();
    proof {
        assert(text.len() == text_len as int);
    }
    loop
        invariant
            tf.wf(),
            lexer.wf(),
            lexer.text() == text,
            text == trim_spec(content@),
            text.len() <= usize::MAX as int,
            0 <= k <= all_toks.len(),
            all_toks == tokens_of(text),
            all_toks.len() == crate::lexer::tokenize_from(text, 0).len(),
            lexer.raw_tokens() =~= crate::lexer::tokenize_from(text, 0).skip(k),
            k <= lexer.position() <= text.len(),
            tf.to_map() == counts_of(term_filter(all_toks.take(k))),
            tf.total_spec() == term_filter(all_toks.take(k)).len(),
        decreases text.len() - lexer.position(),
    {
        let ghost pos0 = lexer.position();
        let next = lexer.next();
        match next {
            None => {
                proof {
                    assert(crate::lexer::tokenize_from(text, 0).skip(k).len() == 0);
                    assert(k == all_toks.len());
                    assert(all_toks.take(k) =~= all_toks);
                    assert(text == trim_spec(content@));
                    assert(doc_terms(content@) == term_filter(all_toks));
                }
                return tf;
            },
            Some(token) => {
                proof {
                    let raw = crate::lexer::tokenize_from(text, 0);
                    assert(raw.skip(k).len() > 0);
                    assert(k < raw.len());
                    assert(raw.skip(k)[0] == raw[k]);
                    assert(token@ == crate::chars::upper_seq(raw[k]));
                    assert(all_toks[k] == crate::chars::upper_seq(raw[k]));
                    assert(raw.skip(k).drop_first() =~= raw.skip(k + 1));
                }
                let cleaned = trim_token(token.as_str());
                let keep = is_word(cleaned.as_str());
                proof {
                    lemma_term_filter_len(all_toks.take(k));
                    assert(term_filter(all_toks.take(k)).len() <= k);
                    assert(k < lexer.position());
                    assert(tf.total_spec() < usize::MAX as int);
                }
                if keep {
                    tf.bump(cleaned);
                }
                proof {
                    let tk = all_toks.take(k + 1);
                    let rest = term_filter(all_toks.take(k));
                    let c = trim_spec(all_toks[k]);
                    assert(tk.drop_last() =~= all_toks.take(k));
                    assert(tk.last() == all_toks[k]);
                    if spec_is_word(c) {
                        assert(term_filter(tk) == rest.push(c));
                        assert(rest.push(c).drop_last() =~= rest);
                        assert(rest.push(c).last() == c);
                        assert(counts_of(rest.push(c)) == bump_map(counts_of(rest), c));
                    } else {
                        assert(term_filter(tk) == rest);
                    }
                    k = k + 1;
                }
            },
        }
    }
}

// ---------------------------------------------------------------------------
// Deriving the corpus-wide document-frequency map.
// ---------------------------------------------------------------------------
/// The view of stored per-document statistics: identifier and term map.
pub open spec fn doc_view(v: Seq<(String, TermFreq)>) -> Seq<(Seq<char>, Map<Seq<char>, int>)> {
    v.map(|i: int, p: (String, TermFreq)| (p.0@, p.1.to_map()))
}

/// The map after counting each term of `ts` once.
pub open spec fn bump_terms(m: Map<Seq<char>, int>, ts: Seq<Seq<char>>) -> Map<Seq<char>, int>
    decreases ts.len(),
{
    if ts.len() == 0 {
        m
    } else {
        bump_map(bump_terms(m, ts.drop_last()), ts.last())
    }
}

pub proof fn lemma_df_count_bounds(docs: Seq<(Seq<char>, Map<Seq<char>, int>)>, t: Seq<char>)
    ensures
        0 <= df_count(docs, t) <= docs.len(),
    decreases docs.len(),
{
    if docs.len() > 0 {
        lemma_df_count_bounds(docs.drop_last(), t);
    }
}

/// Counting each of a duplicate-free batch of terms once acts pointwise:
/// exactly the listed terms gain one.
pub proof fn lemma_bump_terms_pointwise(m: Map<Seq<char>, int>, ts: Seq<Seq<char>>)
    requires
        forall|x: int, y: int|
            0 <= x < ts.len() && 0 <= y < ts.len() && x != y ==> ts[x] != ts[y],
    ensures
        forall|t: Seq<char>| #[trigger]
            bump_terms(m, ts).dom().contains(t) <==> (m.dom().contains(t) || ts.contains(t)),
        forall|t: Seq<char>|
            bump_terms(m, ts).dom().contains(t) ==> #[trigger] bump_terms(m, ts)[t] == (
            if m.dom().contains(t) {
                m[t]
            } else {
                0
            }) + (
            if ts.contains(t) {
                1int
            } else {
                0int
            }),
    decreases ts.len(),
{
    if ts.len() > 0 {
        let prefix = ts.drop_last();
        let last = ts.last();
        assert(forall|x: int, y: int|
            0 <= x < prefix.len() && 0 <= y < prefix.len() && x != y ==> prefix[x] != prefix[y])
            by {
            assert(forall|x: int| 0 <= x < prefix.len() ==> prefix[x] == ts[x]);
        }
        lemma_bump_terms_pointwise(m, prefix);
        assert(!prefix.contains(last)) by {
            if prefix.contains(last) {
                let j = choose|j: int| 0 <= j < prefix.len() && prefix[j] == last;
                assert(ts[j] == ts[ts.len() - 1]);
            }
        }
        assert forall|t: Seq<char>| #[trigger]
            bump_terms(m, ts).dom().contains(t) <==> (m.dom().contains(t) || ts.contains(t)) by {
            assert(bump_terms(m, ts) == bump_map(bump_terms(m, prefix), last));
            assert(bump_terms(m, prefix).dom().contains(t) <==> (m.dom().contains(t)
                || prefix.contains(t)));
            if t == last {
                assert(ts[ts.len() - 1] == last);
                assert(ts.contains(t));
            } else {
                assert(ts.contains(t) <==> prefix.contains(t)) by {
                    if ts.contains(t) {
                        let j = choose|j: int| 0 <= j < ts.len() && ts[j] == t;
                        assert(j < ts.len() - 1);
                        assert(prefix[j] == t);
                    }
                    if prefix.contains(t) {
                        let j = choose|j: int| 0 <= j < prefix.len() && prefix[j] == t;
                        assert(ts[j] == t);
                    }
                }
            }
        }
        assert forall|t: Seq<char>|
            bump_terms(m, ts).dom().contains(t) implies #[trigger] bump_terms(m, ts)[t] == (
        if m.dom().contains(t) {
            m[t]
        } else {
            0
        }) + (
        if ts.contains(t) {
            1int
        } else {
            0int
        }) by {
            assert(bump_terms(m, ts) == bump_map(bump_terms(m, prefix), last));
            assert(bump_terms(m, prefix).dom().contains(t) <==> (m.dom().contains(t)
                || prefix.contains(t)));
            if bump_terms(m, prefix).dom().contains(t) {
                assert(bump_terms(m, prefix)[t] == (
                if m.dom().contains(t) {
                    m[t]
                } else {
                    0
                }) + (
                if prefix.contains(t) {
                    1int
                } else {
                    0int
                }));
            }
            if t == last {
                assert(ts[ts.len() - 1] == last);
                assert(ts.contains(t));
            } else {
                assert(ts.contains(t) <==> prefix.contains(t)) by {
                    if ts.contains(t) {
                        let j = choose|j: int| 0 <= j < ts.len() && ts[j] == t;
                        assert(j < ts.len() - 1);
                        assert(prefix[j] == t);
                    }
                    if prefix.contains(t) {
                        let j = choose|j: int| 0 <= j < prefix.len() && prefix[j] == t;
                        assert(ts[j] == t);
                    }
                }
            }
        }
    }
}

/// Folding one more document into the frequency map is bumping each of its
/// distinct terms once.
pub proof fn lemma_df_step(
    prefix: Seq<(Seq<char>, Map<Seq<char>, int>)>,
    doc: (Seq<char>, Map<Seq<char>, int>),
    keys: Seq<Seq<char>>,
)
    requires
        forall|x: int, y: int|
            0 <= x < keys.len() && 0 <= y < keys.len() && x != y ==> keys[x] != keys[y],
        forall|t: Seq<char>| #[trigger] keys.contains(t) <==> doc.1.dom().contains(t),
    ensures
        bump_terms(df_map_of(prefix), keys) == df_map_of(prefix.push(doc)),
{
    lemma_bump_terms_pointwise(df_map_of(prefix), keys);
    let whole = prefix.push(doc);
    assert(whole.drop_last() =~= prefix);
    assert(whole.last() == doc);
    assert forall|t: Seq<char>| true implies #[trigger] df_count(whole, t) == df_count(prefix, t)
        + (
    if doc.1.dom().contains(t) {
        1int
    } else {
        0int
    }) by {}
    assert forall|t: Seq<char>| true implies 0 <= #[trigger] df_count(prefix, t) by {
        lemma_df_count_bounds(prefix, t);
    }
    assert(bump_terms(df_map_of(prefix), keys) =~= df_map_of(whole));
}

/// Count one more containing document for `term`.
fn df_bump(df: &mut Vec<(String, usize)>, term: &String)
    requires
        assoc_sorted(counts_view(old(df)@)),
        counts_positive(counts_view(old(df)@)),
        assoc_to_map(counts_view(old(df)@)).dom().contains(term@) ==> assoc_to_map(
            counts_view(old(df)@),
        )[term@] < usize::MAX as int,
    ensures
        assoc_sorted(counts_view(final(df)@)),
        counts_positive(counts_view(final(df)@)),
        assoc_to_map(counts_view(final(df)@)) == bump_map(
            assoc_to_map(counts_view(old(df)@)),
            term@,
        ),
{
    let ghost s0 = counts_view(df@);
    proof {
        lemma_assoc_sorted_distinct(s0);
        lemma_assoc_dom(s0);
    }
    let n = df.len();
    let mut i: usize = 0;
    while i < n
        invariant
            df == old(df),
            assoc_sorted(s0),
            counts_positive(s0),
            assoc_to_map(s0).dom().contains(term@) ==> assoc_to_map(s0)[term@] < usize::MAX
                as int,
            s0 == counts_view(df@),
            n == s0.len(),
            i <= n,
            forall|j: int| 0 <= j < i ==> lex_lt(s0[j].0, term@),
        decreases n - i,
    {
        let c = str_cmp(df[i].0.as_str(), term.as_str());
        match c {
            Cmp::Lt => {
                i = i + 1;
            },
            Cmp::Eq => {
                let cnt = df[i].1;
                proof {
                    lemma_assoc_sorted_distinct(s0);
                    lemma_assoc_get(s0, i as int);
                    lemma_assoc_dom(s0);
                }
                df[i].1 = cnt + 1;
                proof {
                    let s1 = counts_view(df@);
                    assert(s1 =~= s0.update(i as int, (term@, cnt as int + 1)));
                    assert(s0[i as int].0 == term@);
                    lemma_assoc_update(s0, i as int, cnt as int + 1);
                    assert(assoc_sorted(s1)) by {
                        assert(forall|x: int| 0 <= x < s1.len() ==> s1[x].0 == s0[x].0);
                    }
                    assert(counts_positive(s1)) by {
                        assert(forall|x: int|
                            0 <= x < s1.len() && x != i as int ==> s1[x] == s0[x]);
                    }
                    assert(assoc_to_map(s1) =~= bump_map(assoc_to_map(s0), term@));
                }
                return ;
            },
            Cmp::Gt => {
                proof {
                    lemma_assoc_sorted_distinct(s0);
                    lemma_assoc_dom(s0);
                    assert(lex_lt(term@, s0[i as int].0));
                    assert forall|j: int|
                        i as int <= j < s0.len() implies lex_lt(term@, #[trigger] s0[j].0) by {
                        if j > i as int {
                            assert(lex_lt(s0[i as int].0, s0[j].0));
                            lemma_lex_transitive(term@, s0[i as int].0, s0[j].0);
                        }
                    }
                    assert(!assoc_has_key(s0, term@)) by {
                        if assoc_has_key(s0, term@) {
                            let j = choose|j: int| 0 <= j < s0.len() && s0[j].0 == term@;
                            lemma_lex_trichotomy(term@, s0[j].0);
                        }
                    }
                }
                df.insert(i, (term.clone(), 1));
                proof {
                    let s1 = counts_view(df@);
                    let ghost t = s1[i as int].0;
                    assert(s1 =~= s0.insert(i as int, (t, 1)));
                    lemma_assoc_insert_mid(s0, i as int, t, 1);
                    assert(assoc_sorted(s1)) by {
                        assert(forall|x: int| 0 <= x < i as int ==> s1[x] == s0[x]);
                        assert(forall|x: int| (i as int) < x < s1.len() ==> s1[x] == s0[x - 1]);
                        assert(s1[i as int] == (t, 1int));
                    }
                    assert(counts_positive(s1)) by {
                        assert(forall|x: int| 0 <= x < i as int ==> s1[x] == s0[x]);
                        assert(forall|x: int| (i as int) < x < s1.len() ==> s1[x] == s0[x - 1]);
                        assert(s1[i as int] == (t, 1int));
                    }
                    assert(assoc_to_map(s1) =~= bump_map(assoc_to_map(s0), t));
                }
                return ;
            },
        }
    }
    proof {
        lemma_assoc_dom(s0);
        assert(!assoc_has_key(s0, term@)) by {
            if assoc_has_key(s0, term@) {
                let j = choose|j: int| 0 <= j < s0.len() && s0[j].0 == term@;
                assert(lex_lt(s0[j].0, term@));
                lemma_lex_irreflexive(term@);
            }
        }
    }
    df.push((term.clone(), 1));
    proof {
        let s1 = counts_view(df@);
        let ghost t = s1[n as int].0;
        assert(s1 =~= s0.insert(n as int, (t, 1)));
        lemma_assoc_insert_mid(s0, n as int, t, 1);
        assert(assoc_sorted(s1)) by {
            assert(forall|x: int| 0 <= x < n as int ==> s1[x] == s0[x]);
            assert(s1[n as int] == (t, 1int));
        }
        assert(counts_positive(s1)) by {
            assert(forall|x: int| 0 <= x < n as int ==> s1[x] == s0[x]);
            assert(s1[n as int] == (t, 1int));
        }
        assert(assoc_to_map(s1) =~= bump_map(assoc_to_map(s0), t));
    }
}

/// Derive the document-frequency map of a document sequence: each term of
/// each document counted once per containing document.
pub fn compute_df(docs: &Vec<(String, TermFreq)>) -> (df: Vec<(String, usize)>)
    requires
        forall|i: int| 0 <= i < docs@.len() ==> (#[trigger] docs@[i].1).wf(),
    ensures
        assoc_sorted(counts_view(df@)),
        counts_positive(counts_view(df@)),
        assoc_to_map(counts_view(df@)) == df_map_of(doc_view(docs@)),
{
    let ghost dv = doc_view(docs@);
    let n = docs.len();
    let mut df: Vec<(String, usize)> = Vec::new();
    let mut i: usize = 0;
    proof {
        assert(counts_view(df@) =~= Seq::<(Seq<char>, int)>::empty());
        assert(dv.take(0) =~= Seq::<(Seq<char>, Map<Seq<char>, int>)>::empty());
        assert(assoc_to_map(counts_view(df@)) =~= df_map_of(dv.take(0))) by {
            assert forall|t: Seq<char>| true implies df_count(dv.take(0), t) == 0 by {}
        }
    }
    while i < n
        invariant
            forall|x: int| 0 <= x < docs@.len() ==> (#[trigger] docs@[x].1).wf(),
            dv == doc_view(docs@),
            n == docs@.len(),
            i <= n,
            assoc_sorted(counts_view(df@)),
            counts_positive(counts_view(df@)),
            assoc_to_map(counts_view(df@)) == df_map_of(dv.take(i as int)),
        decreases n - i,
    {
        let tf = &docs[i].1;
        let m = tf.len();
        let ghost p_map = df_map_of(dv.take(i as int));
        let ghost tkeys = Seq::new(tf.entry_seq().len(), |j: int| tf.entry_seq()[j].0);
        proof {
            lemma_assoc_sorted_distinct(tf.entry_seq());
            lemma_assoc_dom(tf.entry_seq());
            assert(bump_terms(p_map, tkeys.take(0)) == p_map) by {
                assert(tkeys.take(0) =~= Seq::<Seq<char>>::empty());
            }
        }
        let mut j: usize = 0;
        while j < m
            invariant
                forall|x: int| 0 <= x < docs@.len() ==> (#[trigger] docs@[x].1).wf(),
                dv == doc_view(docs@),
                n == docs@.len(),
                i < n,
                tf == &docs@[i as int].1,
                tf.wf(),
                m == tf.entry_seq().len(),
                j <= m,
                p_map == df_map_of(dv.take(i as int)),
                tkeys == Seq::new(tf.entry_seq().len(), |x: int| tf.entry_seq()[x].0),
                assoc_sorted(counts_view(df@)),
                counts_positive(counts_view(df@)),
                assoc_to_map(counts_view(df@)) == bump_terms(p_map, tkeys.take(j as int)),
            decreases m - j,
        {
            let term = tf.term_at(j);
            proof {
                lemma_assoc_sorted_distinct(tf.entry_seq());
                assert(forall|x: int, y: int|
                    0 <= x < tkeys.len() && 0 <= y < tkeys.len() && x != y ==> tkeys[x]
                        != tkeys[y]);
                assert(forall|x: int, y: int|
                    0 <= x < tkeys.take(j as int).len() && 0 <= y < tkeys.take(j as int).len()
                        && x != y ==> tkeys.take(j as int)[x] != tkeys.take(j as int)[y]);
                lemma_bump_terms_pointwise(p_map, tkeys.take(j as int));
                lemma_df_count_bounds(dv.take(i as int), term@);
                assert(!tkeys.take(j as int).contains(term@)) by {
                    if tkeys.take(j as int).contains(term@) {
                        let x = choose|x: int|
                            0 <= x < j as int && tkeys.take(j as int)[x] == term@;
                        assert(tkeys[x] == tkeys[j as int]);
                    }
                }
                let cur = assoc_to_map(counts_view(df@));
                if cur.dom().contains(term@) {
                    assert(cur[term@] <= df_count(dv.take(i as int), term@));
                    assert(cur[term@] < usize::MAX as int);
                }
            }
            df_bump(&mut df, term);
            proof {
                let tj = tkeys.take(j as int + 1);
                assert(tj.drop_last() =~= tkeys.take(j as int));
                assert(tj.last() == tkeys[j as int]);
                assert(bump_terms(p_map, tj) == bump_map(
                    bump_terms(p_map, tkeys.take(j as int)),
                    tkeys[j as int],
                ));
            }
            j = j + 1;
        }
        proof {
            assert(tkeys.take(m as int) =~= tkeys);
            lemma_assoc_sorted_distinct(tf.entry_seq());
            lemma_assoc_dom(tf.entry_seq());
            assert forall|t: Seq<char>| #[trigger]
                tkeys.contains(t) <==> docs@[i as int].1.to_map().dom().contains(t) by {
                if tkeys.contains(t) {
                    let x = choose|x: int| 0 <= x < tkeys.len() && tkeys[x] == t;
                    assert(tf.entry_seq()[x].0 == t);
                    assert(assoc_has_key(tf.entry_seq(), t));
                }
                if docs@[i as int].1.to_map().dom().contains(t) {
                    assert(assoc_has_key(tf.entry_seq(), t));
                    let x = choose|x: int|
                        0 <= x < tf.entry_seq().len() && tf.entry_seq()[x].0 == t;
                    assert(tkeys[x] == t);
                }
            }
            assert(dv[i as int] == (docs@[i as int].0@, docs@[i as int].1.to_map()));
            lemma_df_step(dv.take(i as int), dv[i as int], tkeys);
            assert(dv.take(i as int).push(dv[i as int]) =~= dv.take(i as int + 1));
        }
        i = i + 1;
    }
    proof {
        assert(dv.take(n as int) =~= dv);
    }
    df
}

// ---------------------------------------------------------------------------
// Building the whole index from a corpus of (identifier, text) pairs.
// ---------------------------------------------------------------------------
/// The view of a corpus: identifier and text of each document, in order.
pub open spec fn pairs_view(ds: Seq<(String, String)>) -> Seq<(Seq<char>, Seq<char>)> {
    ds.map(|i: int, p: (String, String)| (p.0@, p.1@))
}

/// The per-document map a corpus builds: each document indexed under its
/// identifier, a later document with the same identifier replacing an
/// earlier one.
pub open spec fn corpus_map(ds: Seq<(Seq<char>, Seq<char>)>) -> Map<
    Seq<char>,
    Map<Seq<char>, int>,
>
    decreases ds.len(),
{
    if ds.len() == 0 {
        Map::empty()
    } else {
        corpus_map(ds.drop_last()).insert(ds.last().0, counts_of(doc_terms(ds.last().1)))
    }
}

/// Store one document's statistics under its identifier, keeping the
/// identifiers sorted; an already-present identifier has its value replaced.
fn insert_doc(docs: &mut Vec<(String, TermFreq)>, id: String, tf: TermFreq)
    requires
        assoc_sorted(doc_view(old(docs)@)),
        forall|x: int| 0 <= x < old(docs)@.len() ==> (#[trigger] old(docs)@[x].1).wf(),
        tf.wf(),
    ensures
        assoc_sorted(doc_view(final(docs)@)),
        forall|x: int| 0 <= x < final(docs)@.len() ==> (#[trigger] final(docs)@[x].1).wf(),
        assoc_to_map(doc_view(final(docs)@)) == assoc_to_map(doc_view(old(docs)@)).insert(
            id@,
            tf.to_map(),
        ),
{
    let ghost s0 = doc_view(docs@);
    proof {
        lemma_assoc_sorted_distinct(s0);
    }
    let n = docs.len();
    let mut i: usize = 0;
    while i < n
        invariant
            docs == old(docs),
            tf.wf(),
            assoc_sorted(s0),
            forall|x: int| 0 <= x < docs@.len() ==> (#[trigger] docs@[x].1).wf(),
            s0 == doc_view(docs@),
            n == s0.len(),
            i <= n,
            forall|j: int| 0 <= j < i ==> lex_lt(s0[j].0, id@),
        decreases n - i,
    {
        let c = str_cmp(docs[i].0.as_str(), id.as_str());
        match c {
            Cmp::Lt => {
                i = i + 1;
            },
            Cmp::Eq => {
                proof {
                    lemma_assoc_sorted_distinct(s0);
                }
                docs[i].1 = tf;
                proof {
                    let s1 = doc_view(docs@);
                    assert(s1 =~= s0.update(i as int, (id@, tf.to_map())));
                    assert(s0[i as int].0 == id@);
                    lemma_assoc_update(s0, i as int, tf.to_map());
                    assert(assoc_sorted(s1)) by {
                        assert(forall|x: int| 0 <= x < s1.len() ==> s1[x].0 == s0[x].0);
                    }
                }
                return ;
            },
            Cmp::Gt => {
                proof {
                    lemma_assoc_sorted_distinct(s0);
                    assert(lex_lt(id@, s0[i as int].0));
                    assert forall|j: int|
                        i as int <= j < s0.len() implies lex_lt(id@, #[trigger] s0[j].0) by {
                        if j > i as int {
                            assert(lex_lt(s0[i as int].0, s0[j].0));
                            lemma_lex_transitive(id@, s0[i as int].0, s0[j].0);
                        }
                    }
                    assert(!assoc_has_key(s0, id@)) by {
                        if assoc_has_key(s0, id@) {
                            let j = choose|j: int| 0 <= j < s0.len() && s0[j].0 == id@;
                            lemma_lex_trichotomy(id@, s0[j].0);
                        }
                    }
                }
                docs.insert(i, (id, tf));
                proof {
                    let s1 = doc_view(docs@);
                    let ghost t = s1[i as int].0;
                    let ghost v = s1[i as int].1;
                    assert(s1 =~= s0.insert(i as int, (t, v)));
                    lemma_assoc_insert_mid(s0, i as int, t, v);
                    assert(assoc_sorted(s1)) by {
                        assert(forall|x: int| 0 <= x < i as int ==> s1[x] == s0[x]);
                        assert(forall|x: int| (i as int) < x < s1.len() ==> s1[x] == s0[x - 1]);
                        assert(s1[i as int] == (t, v));
                    }
                }
                return ;
            },
        }
    }
    proof {
        assert(!assoc_has_key(s0, id@)) by {
            if assoc_has_key(s0, id@) {
                let j = choose|j: int| 0 <= j < s0.len() && s0[j].0 == id@;
                assert(lex_lt(s0[j].0, id@));
                lemma_lex_irreflexive(id@);
            }
        }
    }
    docs.push((id, tf));
    proof {
        let s1 = doc_view(docs@);
        let ghost t = s1[n as int].0;
        let ghost v = s1[n as int].1;
        assert(s1 =~= s0.insert(n as int, (t, v)));
        lemma_assoc_insert_mid(s0, n as int, t, v);
        assert(assoc_sorted(s1)) by {
            assert(forall|x: int| 0 <= x < n as int ==> s1[x] == s0[x]);
            assert(s1[n as int] == (t, v));
        }
    }
}

/// Index a whole corpus: tokenize every document, accumulate its term
/// counts under its identifier, and derive the corpus-wide
/// document-frequency map.
pub fn build(documents: Vec<(String, String)>) -> (m: Model)
    ensures
        m.wf(),
        m.doc_map() == corpus_map(pairs_view(documents@)),
{
    let ghost pv = pairs_view(documents@);
    let n = documents.len();
    let mut docs: Vec<(String, TermFreq)> = Vec::new();
    let mut i: usize = 0;
    proof {
        assert(doc_view(docs@) =~= Seq::<(Seq<char>, Map<Seq<char>, int>)>::empty());
        assert(pv.take(0) =~= Seq::<(Seq<char>, Seq<char>)>::empty());
        assert(assoc_to_map(doc_view(docs@)) =~= corpus_map(pv.take(0)));
    }
    while i < n
        invariant
            pv == pairs_view(documents@),
            n == documents@.len(),
            i <= n,
            assoc_sorted(doc_view(docs@)),
            forall|x: int| 0 <= x < docs@.len() ==> (#[trigger] docs@[x].1).wf(),
            assoc_to_map(doc_view(docs@)) == corpus_map(pv.take(i as int)),
        decreases n - i,
    {
        let id = documents[i].0.clone();
        let tf = index_document(documents[i].1.as_str());
        proof {
            assert(pv[i as int] == (documents@[i as int].0@, documents@[i as int].1@));
        }
        insert_doc(&mut docs, id, tf);
        proof {
            let tk = pv.take(i as int + 1);
            assert(tk.drop_last() =~= pv.take(i as int));
            assert(tk.last() == pv[i as int]);
        }
        i = i + 1;
    }
    proof {
        assert(pv.take(n as int) =~= pv);
    }
    let df = compute_df(&docs);
    let ghost gdocs = docs@;
    let ghost gdf = df@;
    let m = Model::from_parts(docs, df);
    proof {
        assert(m.doc_seq() =~= doc_view(gdocs)) by {
            assert forall|x: int|
                0 <= x < gdocs.len() implies m.doc_seq()[x] == doc_view(gdocs)[x] by {
                assert(m.doc_id_at(x) =~= gdocs[x].0@);
                assert(m.doc_tf_at(x) == gdocs[x].1);
                assert(m.doc_seq()[x] == (m.doc_id_at(x), m.doc_tf_at(x).to_map()));
                assert(doc_view(gdocs)[x] == (gdocs[x].0@, gdocs[x].1.to_map()));
            }
        }
        assert(m.docs_wf()) by {
            assert forall|x: int|
                0 <= x < m.num_docs() implies (#[trigger] m.doc_tf_at(x)).wf() by {
                assert(m.doc_id_at(x) == gdocs[x].0@ && m.doc_tf_at(x) == gdocs[x].1);
            }
        }
    }
    m
}


/// Where each identifier's statistics in a corpus map come from: with unique
/// identifiers, the one document carrying the identifier.
pub proof fn lemma_corpus_map_pointwise(ds: Seq<(Seq<char>, Seq<char>)>, id: Seq<char>)
    requires
        forall|x: int, y: int|
            0 <= x < ds.len() && 0 <= y < ds.len() && x != y ==> ds[x].0 != ds[y].0,
    ensures
        corpus_map(ds).dom().contains(id) <==> (exists|i: int|
            0 <= i < ds.len() && ds[i].0 == id),
        forall|i: int|
            0 <= i < ds.len() && ds[i].0 == id ==> corpus_map(ds)[id] == counts_of(
                doc_terms(ds[i].1),
            ),
    decreases ds.len(),
{
    if ds.len() > 0 {
        let rest = ds.drop_last();
        assert(forall|x: int, y: int|
            0 <= x < rest.len() && 0 <= y < rest.len() && x != y ==> rest[x].0 != rest[y].0) by {
            assert(forall|x: int| 0 <= x < rest.len() ==> rest[x] == ds[x]);
        }
        lemma_corpus_map_pointwise(rest, id);
        assert(ds[ds.len() - 1] == ds.last());
        if corpus_map(ds).dom().contains(id) {
            if id != ds.last().0 {
                assert(corpus_map(rest).dom().contains(id));
                let i = choose|i: int| 0 <= i < rest.len() && rest[i].0 == id;
                assert(ds[i].0 == id);
            }
        }
        if exists|i: int| 0 <= i < ds.len() && ds[i].0 == id {
            let i = choose|i: int| 0 <= i < ds.len() && ds[i].0 == id;
            if i < ds.len() - 1 {
                assert(rest[i].0 == id);
                assert(corpus_map(rest).dom().contains(id));
            }
        }
        assert forall|i: int|
            0 <= i < ds.len() && ds[i].0 == id implies corpus_map(ds)[id] == counts_of(
            doc_terms(ds[i].1),
        ) by {
            if i == ds.len() - 1 {
            } else {
                assert(rest[i].0 == id);
                assert(ds.last().0 != ds[i].0);
                assert(corpus_map(rest)[id] == counts_of(doc_terms(rest[i].1)));
            }
        }
    }
}

/// Indexing does not depend on enumeration order: two corpora holding the
/// same documents (the same identifier-text pairs, identifiers unique) build
/// the same per-document map, whatever order they were listed in.
pub proof fn lemma_corpus_map_order_insensitive(
    d1: Seq<(Seq<char>, Seq<char>)>,
    d2: Seq<(Seq<char>, Seq<char>)>,
)
    requires
        forall|x: int, y: int|
            0 <= x < d1.len() && 0 <= y < d1.len() && x != y ==> d1[x].0 != d1[y].0,
        forall|x: int, y: int|
            0 <= x < d2.len() && 0 <= y < d2.len() && x != y ==> d2[x].0 != d2[y].0,
        d1.to_multiset() == d2.to_multiset(),
    ensures
        corpus_map(d1) == corpus_map(d2),
{
    broadcast use vstd::seq_lib::group_seq_properties;

    assert forall|id: Seq<char>|
        #![trigger corpus_map(d1).dom().contains(id), corpus_map(d2).dom().contains(id)]
        true implies {
        &&& (corpus_map(d1).dom().contains(id) <==> corpus_map(d2).dom().contains(id))
        &&& (corpus_map(d1).dom().contains(id) ==> corpus_map(d1)[id] == corpus_map(d2)[id])
    } by {
        lemma_corpus_map_pointwise(d1, id);
        lemma_corpus_map_pointwise(d2, id);
        if corpus_map(d1).dom().contains(id) {
            let i = choose|i: int| 0 <= i < d1.len() && d1[i].0 == id;
            assert(d1.contains(d1[i]));
            assert(d1.to_multiset().contains(d1[i]));
            assert(d2.to_multiset().contains(d1[i]));
            assert(d2.contains(d1[i]));
            let j = choose|j: int| 0 <= j < d2.len() && d2[j] == d1[i];
            assert(d2[j].0 == id);
            assert(corpus_map(d2).dom().contains(id));
            assert(corpus_map(d1)[id] == counts_of(doc_terms(d1[i].1)));
            assert(corpus_map(d2)[id] == counts_of(doc_terms(d2[j].1)));
        }
        if corpus_map(d2).dom().contains(id) {
            let j = choose|j: int| 0 <= j < d2.len() && d2[j].0 == id;
            assert(d2.contains(d2[j]));
            assert(d2.to_multiset().contains(d2[j]));
            assert(d1.to_multiset().contains(d2[j]));
            assert(d1.contains(d2[j]));
            let i = choose|i: int| 0 <= i < d1.len() && d1[i] == d2[j];
            assert(d1[i].0 == id);
            assert(corpus_map(d1).dom().contains(id));
        }
    }
    assert(corpus_map(d1) =~= corpus_map(d2));
}

/// Indexing the same corpus twice yields equal indexes: two well-formed
/// models built from the same documents, in whatever enumeration orders,
/// agree entry for entry, derived document-frequency map included.
pub proof fn lemma_build_idempotent(
    m1: Model,
    m2: Model,
    d1: Seq<(Seq<char>, Seq<char>)>,
    d2: Seq<(Seq<char>, Seq<char>)>,
)
    requires
        m1.wf(),
        m2.wf(),
        m1.doc_map() == corpus_map(d1),
        m2.doc_map() == corpus_map(d2),
        forall|x: int, y: int|
            0 <= x < d1.len() && 0 <= y < d1.len() && x != y ==> d1[x].0 != d1[y].0,
        forall|x: int, y: int|
            0 <= x < d2.len() && 0 <= y < d2.len() && x != y ==> d2[x].0 != d2[y].0,
        d1.to_multiset() == d2.to_multiset(),
    ensures
        m1.doc_seq() == m2.doc_seq(),
        m1.df_seq() == m2.df_seq(),
        m1.df_map() == m2.df_map(),
{
    lemma_corpus_map_order_insensitive(d1, d2);
    lemma_assoc_canonical(m1.doc_seq(), m2.doc_seq());
    assert(m1.df_map() == m2.df_map());
    lemma_assoc_canonical(m1.df_seq(), m2.df_seq());
}


/// Recompute the document-frequency map of a model from its per-document
/// statistics alone.
pub fn recompute_df(m: &Model) -> (df: Vec<(String, usize)>)
    requires
        m.wf(),
    ensures
        assoc_sorted(counts_view(df@)),
        counts_positive(counts_view(df@)),
        assoc_to_map(counts_view(df@)) == df_map_of(m.doc_seq()),
{
    proof {
        crate::model::lemma_model_parts(*m);
        assert forall|x: int|
            0 <= x < m.tfpd@.len() implies (#[trigger] m.tfpd@[x].1).wf() by {
            assert(m.doc_id_at(x) == m.tfpd@[x].0@);
            assert(m.doc_tf_at(x) == m.tfpd@[x].1);
            assert(m.doc_tf_at(x).wf());
        }
    }
    let df = compute_df(&m.tfpd);
    proof {
        assert(doc_view(m.tfpd@) =~= m.doc_seq()) by {
            assert forall|x: int|
                0 <= x < m.tfpd@.len() implies doc_view(m.tfpd@)[x] == m.doc_seq()[x] by {
                assert(m.doc_id_at(x) == m.tfpd@[x].0@);
                assert(m.doc_tf_at(x) == m.tfpd@[x].1);
            }
        }
    }
    df
}

// ---------------------------------------------------------------------------
// Accepting a persisted index back into the model.
// ---------------------------------------------------------------------------
/// The views of raw per-document entries: identifier and entry list.
pub open spec fn raw_docs_view(docs: Seq<(String, Vec<(String, usize)>)>) -> Seq<
    (Seq<char>, Seq<(Seq<char>, int)>),
> {
    docs.map(|i: int, p: (String, Vec<(String, usize)>)| (p.0@, counts_view(p.1@)))
}

/// The per-document maps raw entries denote.
pub open spec fn raw_docs_maps(docs: Seq<(String, Vec<(String, usize)>)>) -> Seq<
    (Seq<char>, Map<Seq<char>, int>),
> {
    docs.map(|i: int, p: (String, Vec<(String, usize)>)| (p.0@, assoc_to_map(counts_view(p.1@))))
}

/// A persisted index is accepted exactly when it could have come from a
/// build: every document's entries valid, identifiers strictly ascending,
/// and the stored document-frequency map exactly the derived one.
pub open spec fn valid_stored_index(
    docs: Seq<(String, Vec<(String, usize)>)>,
    df: Seq<(String, usize)>,
) -> bool {
    &&& forall|i: int|
        0 <= i < docs.len() ==> crate::model::valid_counts(#[trigger] raw_docs_view(docs)[i].1)
    &&& assoc_sorted(raw_docs_view(docs))
    &&& assoc_sorted(counts_view(df))
    &&& counts_positive(counts_view(df))
    &&& assoc_to_map(counts_view(df)) == df_map_of(raw_docs_maps(docs))
}

/// Copy raw entries; loading must not consume the caller's buffers.
fn clone_counts(v: &Vec<(String, usize)>) -> (r: Vec<(String, usize)>)
    ensures
        r@ == v@,
{
    let mut r: Vec<(String, usize)> = Vec::new();
    let mut i: usize = 0;
    while i < v.len()
        invariant
            i <= v@.len(),
            r@ == v@.take(i as int),
        decreases v@.len() - i,
    {
        r.push((v[i].0.clone(), v[i].1));
        proof {
            assert(v@.take(i as int + 1) =~= v@.take(i as int).push(v@[i as int]));
        }
        i = i + 1;
    }
    proof {
        assert(v@.take(v@.len() as int) =~= v@);
    }
    r
}

/// Accept a persisted index, exactly when it is a well-formed one: documents
/// under strictly ascending identifiers, valid statistics for each, and a
/// document-frequency map that is exactly the one the documents induce. A
/// corrupt or inconsistent index is rejected, never silently repaired.
pub fn load_index(docs: &Vec<(String, Vec<(String, usize)>)>, df: Vec<(String, usize)>) -> (r:
    Option<Model>)
    ensures
        match r {
            Some(m) => {
                &&& m.wf()
                &&& m.doc_seq() == raw_docs_maps(docs@)
                &&& m.df_seq() == counts_view(df@)
                &&& valid_stored_index(docs@, df@)
            },
            None => !valid_stored_index(docs@, df@),
        },
{
    let ghost rv = raw_docs_view(docs@);
    let ghost rm = raw_docs_maps(docs@);
    let n = docs.len();
    let mut built: Vec<(String, TermFreq)> = Vec::new();
    let mut i: usize = 0;
    while i < n
        invariant
            rv == raw_docs_view(docs@),
            rm == raw_docs_maps(docs@),
            n == docs@.len(),
            i <= n,
            built@.len() == i,
            forall|j: int|
                0 <= j < i ==> (#[trigger] built@[j].1).wf() && built@[j].0@ == docs@[j].0@
                    && built@[j].1.entry_seq() == counts_view(docs@[j].1@),
            forall|j: int| 0 <= j < i ==> crate::model::valid_counts(#[trigger] rv[j].1),
            forall|j: int| 0 <= j < i - 1 ==> lex_lt(#[trigger] rv[j].0, rv[j + 1].0),
        decreases n - i,
    {
        if i > 0 {
            let c = str_cmp(docs[i - 1].0.as_str(), docs[i].0.as_str());
            let ordered = match c {
                Cmp::Lt => true,
                _ => false,
            };
            if !ordered {
                proof {
                    if assoc_sorted(rv) {
                        assert(lex_lt(rv[i as int - 1].0, rv[i as int].0));
                    }
                }
                return None;
            }
        }
        let entries = clone_counts(&docs[i].1);
        let tf_opt = TermFreq::from_entries(entries);
        match tf_opt {
            None => {
                proof {
                    assert(rv[i as int].1 == counts_view(docs@[i as int].1@));
                }
                return None;
            },
            Some(tf) => {
                built.push((docs[i].0.clone(), tf));
            },
        }
        i = i + 1;
    }
    proof {
        lemma_adjacent_sorted(rv);
        assert(assoc_sorted(rm)) by {
            assert forall|x: int, y: int|
                0 <= x < y < rm.len() implies lex_lt(rm[x].0, rm[y].0) by {
                assert(rm[x].0 == rv[x].0);
                assert(rm[y].0 == rv[y].0);
                assert(lex_lt(rv[x].0, rv[y].0));
            }
        }
    }
    let computed = compute_df(&built);
    let ghost dvb = doc_view(built@);
    proof {
        assert(dvb =~= rm) by {
            assert forall|j: int| 0 <= j < rm.len() implies dvb[j] == rm[j] by {
                assert(built@[j].1.entry_seq() == counts_view(docs@[j].1@));
            }
        }
    }
    // the stored document-frequency map must be exactly the derived one
    let cn = computed.len();
    if cn != df.len() {
        proof {
            if valid_stored_index(docs@, df@) {
                lemma_assoc_canonical(counts_view(df@), counts_view(computed@));
            }
        }
        return None;
    }
    let mut j: usize = 0;
    while j < cn
        invariant
            cn == computed@.len(),
            cn == df@.len(),
            j <= cn,
            forall|x: int| 0 <= x < j ==> counts_view(df@)[x] == counts_view(computed@)[x],
            assoc_sorted(counts_view(computed@)),
            counts_positive(counts_view(computed@)),
            assoc_to_map(counts_view(computed@)) == df_map_of(dvb),
            dvb == doc_view(built@),
            rm == raw_docs_maps(docs@),
            dvb == rm,
        decreases cn - j,
    {
        let same_term = df[j].0 == computed[j].0;
        if !same_term || df[j].1 != computed[j].1 {
            proof {
                assert(counts_view(df@)[j as int] != counts_view(computed@)[j as int]);
                if valid_stored_index(docs@, df@) {
                    lemma_assoc_canonical(counts_view(df@), counts_view(computed@));
                }
            }
            return None;
        }
        proof {
            assert(counts_view(df@)[j as int] == counts_view(computed@)[j as int]);
        }
        j = j + 1;
    }
    proof {
        assert(counts_view(df@) =~= counts_view(computed@));
    }
    let ghost gdocs = built@;
    let ghost gdf = df@;
    let m = Model::from_parts(built, df);
    proof {
        assert(m.doc_seq() =~= doc_view(gdocs)) by {
            assert forall|x: int|
                0 <= x < gdocs.len() implies m.doc_seq()[x] == doc_view(gdocs)[x] by {
                assert(m.doc_id_at(x) =~= gdocs[x].0@);
                assert(m.doc_tf_at(x) == gdocs[x].1);
                assert(m.doc_seq()[x] == (m.doc_id_at(x), m.doc_tf_at(x).to_map()));
                assert(doc_view(gdocs)[x] == (gdocs[x].0@, gdocs[x].1.to_map()));
            }
        }
        assert(m.docs_wf()) by {
            assert forall|x: int|
                0 <= x < m.num_docs() implies (#[trigger] m.doc_tf_at(x)).wf() by {
                assert(m.doc_id_at(x) == gdocs[x].0@ && m.doc_tf_at(x) == gdocs[x].1);
            }
        }
        assert(valid_stored_index(docs@, df@));
    }
    Some(m)
}

} // verus!
