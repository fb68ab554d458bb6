use crate::idf::{idf_fixed, IDF_MAX};
use crate::indexer::{is_word, terms_of, trim_token};
use crate::lexer::Lexer;
use crate::model::{calc_idf, df_or_one, Model};
use crate::order::{lemma_lex_irreflexive, lemma_lex_transitive, lemma_lex_trichotomy, lex_lt,
    str_cmp, Cmp};
use vstd::arithmetic::div_mod::{lemma_div_is_ordered, lemma_div_pos_is_pos};
use vstd::arithmetic::mul::lemma_mul_upper_bound;
use vstd::prelude::*;

verus! {

// ---------------------------------------------------------------------------
// Scoring. A document's score against a query is the sum, over the query's
// terms, of TF * IDF, held in fixed point: IDF carries IDF_SCALE already and
// the term-frequency fraction count / total is applied after widening by
// SCORE_SCALE, so one unit of score is 1 / (IDF_SCALE * SCORE_SCALE).
// ---------------------------------------------------------------------------
/// Number of fixed-point fractional units the TF fraction is widened by.
pub const SCORE_SCALE: u64 = 1_000_000;

/// The largest contribution one query term can make to a score.
pub const CONTRIBUTION_MAX: u128 = 20_000_000_000_000;

/// The count a term-frequency map holds for a term, zero when absent.
pub open spec fn count_in(tfm: Map<Seq<char>, int>, t: Seq<char>) -> int {
    if tfm.dom().contains(t) {
        tfm[t]
    } else {
        0
    }
}

/// What one occurrence of query term `t` adds to a document's score.
pub open spec fn contribution(count: int, total: int, idf: int) -> int {
    if total <= 0 {
        0
    } else {
        count * idf * (SCORE_SCALE as int) / total
    }
}

/// A document's score: the sum of the contributions of all query terms,
/// taken in order (a repeated query term counts once per occurrence).
pub open spec fn doc_score(
    terms: Seq<Seq<char>>,
    tfm: Map<Seq<char>, int>,
    total: int,
    ndocs: int,
    dfm: Map<Seq<char>, int>,
) -> int
    decreases terms.len(),
{
    if terms.len() == 0 {
        0
    } else {
        doc_score(terms.drop_last(), tfm, total, ndocs, dfm) + contribution(
            count_in(tfm, terms.last()),
            total,
            idf_fixed(ndocs, df_or_one(dfm, terms.last())),
        )
    }
}

/// The views of a term vector.
pub open spec fn strings_view(v: Seq<String>) -> Seq<Seq<char>> {
    v.map(|i: int, s: String| s@)
}

/// The score of document `i` of the model against a term sequence.
pub open spec fn score_at(m: Model, terms: Seq<Seq<char>>, i: int) -> int {
    doc_score(
        terms,
        m.doc_tf_at(i).to_map(),
        m.doc_tf_at(i).total_spec(),
        m.num_docs() as int,
        m.df_map(),
    )
}

/// Every document of the model with its score, in stored (identifier) order.
pub open spec fn scored_pairs(m: Model, terms: Seq<Seq<char>>) -> Seq<(Seq<char>, int)> {
    Seq::new(m.num_docs(), |i: int| (m.doc_id_at(i), score_at(m, terms, i)))
}

/// Extract the query's terms with the indexing pipeline: tokenize,
/// uppercase, trim, drop the non-words.
pub fn query_terms(text: &str) -> (r: Vec<String>)
    ensures
        strings_view(r@) == terms_of(text@),
{
    let chars = crate::indexer::str_chars(text);
    let ghost t = text@;
    let ghost all_toks = crate::lexer::tokens_of(t);
    let mut lexer = Lexer::new(chars.as_slice());
    let mut out: Vec<String> = Vec::new();
    let ghost mut k: int = 0;
    let text_len = chars.len();
    proof {
        assert(all_toks.take(0) =~= Seq::<Seq<char>>::empty());
        assert(strings_view(out@) =~= crate::indexer::term_filter(all_toks.take(0)));
    }
    loop
        invariant
            lexer.wf(),
            lexer.text() == t,
            t == text@,
            t.len() <= usize::MAX as int,
            0 <= k <= all_toks.len(),
            all_toks == crate::lexer::tokens_of(t),
            all_toks.len() == crate::lexer::tokenize_from(t, 0).len(),
            lexer.raw_tokens() =~= crate::lexer::tokenize_from(t, 0).skip(k),
            k <= lexer.position() <= t.len(),
            strings_view(out@) == crate::indexer::term_filter(all_toks.take(k)),
        decreases t.len() - lexer.position(),
    {
        let next = lexer.next();
        match next {
            None => {
                proof {
                    assert(crate::lexer::tokenize_from(t, 0).skip(k).len() == 0);
                    assert(k == all_toks.len());
                    assert(all_toks.take(k) =~= all_toks);
                    assert(terms_of(text@) == crate::indexer::term_filter(all_toks));
                }
                return out;
            },
            Some(token) => {
                proof {
                    let raw = crate::lexer::tokenize_from(t, 0);
                    assert(raw.skip(k).len() > 0);
                    assert(k < raw.len());
                    assert(raw.skip(k)[0] == raw[k]);
                    assert(all_toks[k] == crate::chars::upper_seq(raw[k]));
                    assert(raw.skip(k).drop_first() =~= raw.skip(k + 1));
                }
                let cleaned = trim_token(token.as_str());
                let keep = is_word(cleaned.as_str());
                if keep {
                    out.push(cleaned);
                }
                proof {
                    let tk = all_toks.take(k + 1);
                    let rest = crate::indexer::term_filter(all_toks.take(k));
                    let c = crate::indexer::trim_spec(all_toks[k]);
                    assert(tk.drop_last() =~= all_toks.take(k));
                    assert(tk.last() == all_toks[k]);
                    if crate::indexer::spec_is_word(c) {
                        assert(crate::indexer::term_filter(tk) == rest.push(c));
                        assert(strings_view(out@) =~= rest.push(c));
                    } else {
                        assert(crate::indexer::term_filter(tk) == rest);
                    }
                    k = k + 1;
                }
            },
        }
    }
}

/// Score one document of the model against already-extracted query terms.
pub fn score_document(model: &Model, i: usize, terms: &Vec<String>) -> (s: u128)
    requires
        model.wf(),
        i < model.num_docs(),
    ensures
        s as int == score_at(*model, strings_view(terms@), i as int),
        s as int <= terms@.len() * (CONTRIBUTION_MAX as int),
{
    let ghost tv = strings_view(terms@);
    let tf = model.doc_tf(i);
    let total = tf.total();
    let ndocs = model.doc_count();
    let mut sum: u128 = 0;
    let mut j: usize = 0;
    let n = terms.len();
    proof {
        assert(tv.take(0) =~= Seq::<Seq<char>>::empty());
    }
    while j < n
        invariant
            model.wf(),
            i < model.num_docs(),
            tf == &model.doc_tf_at(i as int),
            tf.wf(),
            total as int == tf.total_spec(),
            ndocs == model.num_docs(),
            n == terms@.len(),
            tv == strings_view(terms@),
            j <= n,
            sum as int == doc_score(
                tv.take(j as int),
                tf.to_map(),
                tf.total_spec(),
                ndocs as int,
                model.df_map(),
            ),
            sum as int <= (j as int) * (CONTRIBUTION_MAX as int),
        decreases n - j,
    {
        let term = &terms[j];
        let count = tf.get(term.as_str());
        let idf = calc_idf(term.as_str(), model);
        proof {
            assert(tv[j as int] == terms@[j as int]@);
            crate::model::lemma_count_within_total(*tf, term@);
        }
        let gain: u128 = if total > 0 {
            proof {
                assert((count as int) * (idf as int) <= (total as int) * (IDF_MAX as int)) by {
                    lemma_mul_upper_bound(count as int, total as int, idf as int, IDF_MAX as int);
                }
                assert((count as int) * (idf as int) * (SCORE_SCALE as int) <= (total as int) * (
                IDF_MAX as int) * (SCORE_SCALE as int)) by {
                    lemma_mul_upper_bound(
                        (count as int) * (idf as int),
                        (total as int) * (IDF_MAX as int),
                        SCORE_SCALE as int,
                        SCORE_SCALE as int,
                    );
                }
                assert((total as int) * (IDF_MAX as int) * (SCORE_SCALE as int) < 0x100000000000000000000000000000000) by (nonlinear_arith)
                    requires
                        0 < total as int <= 0xffffffffffffffff,
                ;
                assert((total as int) * (IDF_MAX as int) * (SCORE_SCALE as int) == (total as int)
                    * ((IDF_MAX as int) * (SCORE_SCALE as int))) by (nonlinear_arith);
                lemma_div_is_ordered(
                    (count as int) * (idf as int) * (SCORE_SCALE as int),
                    (total as int) * ((IDF_MAX as int) * (SCORE_SCALE as int)),
                    total as int,
                );
                vstd::arithmetic::div_mod::lemma_div_multiples_vanish(
                    (IDF_MAX as int) * (SCORE_SCALE as int),
                    total as int,
                );
                lemma_div_pos_is_pos((count as int) * (idf as int) * (SCORE_SCALE as int), total as int);
                assert((IDF_MAX as int) * (SCORE_SCALE as int) == CONTRIBUTION_MAX as int);
            }
            (count as u128) * (idf as u128) * (SCORE_SCALE as u128) / (total as u128)
        } else {
            0
        };
        proof {
            assert(gain as int == contribution(
                count_in(tf.to_map(), tv[j as int]),
                tf.total_spec(),
                idf_fixed(ndocs as int, df_or_one(model.df_map(), tv[j as int])),
            ));
            assert(gain as int <= CONTRIBUTION_MAX as int);
            let tj = tv.take(j as int + 1);
            assert(tj.drop_last() =~= tv.take(j as int));
            assert(tj.last() == tv[j as int]);
            assert((j as int + 1) * (CONTRIBUTION_MAX as int) == (j as int) * (CONTRIBUTION_MAX
                as int) + (CONTRIBUTION_MAX as int)) by (nonlinear_arith);
            assert((j as int) * (CONTRIBUTION_MAX as int) <= (0xffffffffffffffffu64 as int) * (
            CONTRIBUTION_MAX as int)) by (nonlinear_arith)
                requires
                    0 <= j as int <= 0xffffffffffffffffu64 as int,
            ;
        }
        sum = sum + gain;
        j = j + 1;
    }
    proof {
        assert(tv.take(n as int) =~= tv);
    }
    sum
}

// ---------------------------------------------------------------------------
// Ranking: sort by score descending, ties broken by ascending identifier.
// ---------------------------------------------------------------------------
/// `a` ranks strictly before `b`.
pub open spec fn pair_before(a: (Seq<char>, int), b: (Seq<char>, int)) -> bool {
    a.1 > b.1 || (a.1 == b.1 && lex_lt(a.0, b.0))
}

/// Sorted for ranking: no later entry ranks before an earlier one.
pub open spec fn ranked(s: Seq<(Seq<char>, int)>) -> bool {
    forall|i: int, j: int| 0 <= i < j < s.len() ==> !pair_before(s[j], s[i])
}

/// Insert an entry in front of the first entry it ranks before.
pub open spec fn insert_ranked(x: (Seq<char>, int), s: Seq<(Seq<char>, int)>) -> Seq<
    (Seq<char>, int),
>
    decreases s.len(),
{
    if s.len() == 0 {
        seq![x]
    } else if pair_before(x, s.first()) {
        seq![x] + s
    } else {
        seq![s.first()] + insert_ranked(x, s.drop_first())
    }
}

/// Sort by rank: entries inserted left to right, so of entries that compare
/// equal the earlier (smaller identifier) stays first.
pub open spec fn rank_sort(s: Seq<(Seq<char>, int)>) -> Seq<(Seq<char>, int)>
    decreases s.len(),
{
    if s.len() == 0 {
        Seq::empty()
    } else {
        insert_ranked(s.last(), rank_sort(s.drop_last()))
    }
}

/// Where the scan stops is where the insertion lands.
pub proof fn lemma_insert_ranked_at(x: (Seq<char>, int), s: Seq<(Seq<char>, int)>, pos: int)
    requires
        0 <= pos <= s.len(),
        forall|j: int| 0 <= j < pos ==> !pair_before(x, s[j]),
        pos < s.len() ==> pair_before(x, s[pos]),
    ensures
        insert_ranked(x, s) == s.take(pos) + seq![x] + s.skip(pos),
    decreases s.len(),
{
    if s.len() == 0 {
        assert(insert_ranked(x, s) =~= s.take(pos) + seq![x] + s.skip(pos));
    } else if pair_before(x, s.first()) {
        assert(pos == 0) by {
            if pos > 0 {
                assert(!pair_before(x, s[0]));
            }
        }
        assert(s.take(0) =~= Seq::<(Seq<char>, int)>::empty());
        assert(s.skip(0) =~= s);
        assert(insert_ranked(x, s) =~= s.take(pos) + seq![x] + s.skip(pos));
    } else {
        assert(pos >= 1) by {
            if pos == 0 {
                assert(pair_before(x, s[0]));
            }
        }
        let rest = s.drop_first();
        assert(forall|j: int| 0 <= j < pos - 1 ==> !pair_before(x, #[trigger] rest[j])) by {
            assert(forall|j: int| 0 <= j < pos - 1 ==> rest[j] == s[j + 1]);
        }
        assert(pos - 1 < rest.len() ==> pair_before(x, rest[pos - 1]));
        lemma_insert_ranked_at(x, rest, pos - 1);
        assert(seq![s.first()] + (rest.take(pos - 1) + seq![x] + rest.skip(pos - 1)) =~= s.take(
            pos,
        ) + seq![x] + s.skip(pos));
    }
}

/// Ranking strictly-before is transitive.
pub proof fn lemma_pair_before_transitive(
    a: (Seq<char>, int),
    b: (Seq<char>, int),
    c: (Seq<char>, int),
)
    requires
        pair_before(a, b),
        pair_before(b, c),
    ensures
        pair_before(a, c),
{
    if a.1 == b.1 && b.1 == c.1 {
        lemma_lex_transitive(a.0, b.0, c.0);
    }
}

/// Whether the candidate (identifier, score) ranks strictly before a stored
/// entry: higher score, or equal score and smaller identifier.
fn ranks_before(id: &String, score: u128, e: &(String, u128)) -> (r: bool)
    ensures
        r == pair_before((id@, score as int), (e.0@, e.1 as int)),
{
    if score > e.1 {
        true
    } else if score == e.1 {
        let c = str_cmp(id.as_str(), e.0.as_str());
        match c {
            Cmp::Lt => true,
            _ => false,
        }
    } else {
        false
    }
}

/// The query entry point: every document of the model scored against the
/// text, ranked by descending score with ties broken by ascending document
/// identifier, truncated to the best `k`.
pub fn query(model: &Model, text: &str, k: usize) -> (r: Vec<(String, u128)>)
    requires
        model.wf(),
    ensures
        scores_view(r@) == rank_sort(scored_pairs(*model, terms_of(text@))).take(
            vstd::math::min(k as int, model.num_docs() as int),
        ),
        r@.len() == vstd::math::min(k as int, model.num_docs() as int),
        ranked(scores_view(r@)),
{
    let terms = query_terms(text);
    let ghost tv = terms_of(text@);
    let ghost pairs = scored_pairs(*model, tv);
    let n = model.doc_count();
    let mut out: Vec<(String, u128)> = Vec::new();
    let mut i: usize = 0;
    proof {
        assert(pairs.take(0) =~= Seq::<(Seq<char>, int)>::empty());
        assert(scores_view(out@) =~= rank_sort(pairs.take(0)));
    }
    while i < n
        invariant
            model.wf(),
            strings_view(terms@) == tv,
            n == model.num_docs(),
            pairs == scored_pairs(*model, tv),
            i <= n,
            out@.len() == i,
            scores_view(out@) == rank_sort(pairs.take(i as int)),
        decreases n - i,
    {
        let id = model.doc_id(i).clone();
        let score = score_document(model, i, &terms);
        let ghost x = (id@, score as int);
        proof {
            assert(pairs[i as int] == x);
        }
        // scan for the insertion point
        let m = out.len();
        let mut pos: usize = 0;
        while pos < m && !ranks_before(&id, score, &out[pos])
            invariant
                m == out@.len(),
                pos <= m,
                forall|j: int| 0 <= j < pos ==> !pair_before(x, scores_view(out@)[j]),
                x == (id@, score as int),
                pos < m ==> scores_view(out@)[pos as int] == (
                    out@[pos as int].0@,
                    out@[pos as int].1 as int,
                ),
            decreases m - pos,
        {
            pos = pos + 1;
        }
        proof {
            assert(pos < m ==> pair_before(x, scores_view(out@)[pos as int]));
            lemma_insert_ranked_at(x, scores_view(out@), pos as int);
        }
        out.insert(pos, (id, score));
        proof {
            let sv = scores_view(out@);
            let prev = rank_sort(pairs.take(i as int));
            assert(sv =~= prev.take(pos as int) + seq![x] + prev.skip(pos as int));
            let tk = pairs.take(i as int + 1);
            assert(tk.drop_last() =~= pairs.take(i as int));
            assert(tk.last() == pairs[i as int]);
            assert(rank_sort(tk) == insert_ranked(x, prev));
        }
        i = i + 1;
    }
    proof {
        assert(pairs.take(n as int) =~= pairs);
    }
    // keep the best k
    let keep = if k < out.len() {
        k
    } else {
        out.len()
    };
    let mut r: Vec<(String, u128)> = Vec::new();
    let mut j: usize = 0;
    proof {
        assert(scores_view(r@) =~= rank_sort(pairs).take(0));
    }
    while j < keep
        invariant
            keep <= out@.len(),
            scores_view(out@) == rank_sort(pairs),
            j <= keep,
            scores_view(r@) == rank_sort(pairs).take(j as int),
        decreases keep - j,
    {
        let id = out[j].0.clone();
        let sc = out[j].1;
        r.push((id, sc));
        proof {
            let a = rank_sort(pairs).take(j as int + 1);
            assert(a =~= rank_sort(pairs).take(j as int).push(rank_sort(pairs)[j as int]));
            assert(scores_view(r@) =~= a);
        }
        j = j + 1;
    }
    proof {
        assert(rank_sort(pairs).len() == pairs.len()) by {
            lemma_rank_sort_len(pairs);
        }
        lemma_rank_sort_ranked(pairs);
        assert(ranked(scores_view(r@))) by {
            let full = rank_sort(pairs);
            let cut = scores_view(r@);
            assert forall|x: int, y: int|
                0 <= x < y < cut.len() implies !pair_before(cut[y], cut[x]) by {
                assert(cut[x] == full[x]);
                assert(cut[y] == full[y]);
            }
        }
    }
    r
}

/// The views of a scored result vector.
pub open spec fn scores_view(v: Seq<(String, u128)>) -> Seq<(Seq<char>, int)> {
    v.map(|i: int, p: (String, u128)| (p.0@, p.1 as int))
}

pub proof fn lemma_insert_ranked_len(x: (Seq<char>, int), s: Seq<(Seq<char>, int)>)
    ensures
        insert_ranked(x, s).len() == s.len() + 1,
    decreases s.len(),
{
    if s.len() > 0 && !pair_before(x, s.first()) {
        lemma_insert_ranked_len(x, s.drop_first());
    }
}

pub proof fn lemma_rank_sort_len(s: Seq<(Seq<char>, int)>)
    ensures
        rank_sort(s).len() == s.len(),
    decreases s.len(),
{
    if s.len() > 0 {
        lemma_rank_sort_len(s.drop_last());
        lemma_insert_ranked_len(s.last(), rank_sort(s.drop_last()));
    }
}

/// Nothing ranks before itself.
pub proof fn lemma_pair_before_irreflexive(a: (Seq<char>, int))
    ensures
        !pair_before(a, a),
{
    lemma_lex_irreflexive(a.0);
}

/// Every entry of an insertion is the inserted one or one of the old ones.
pub proof fn lemma_insert_ranked_elems(x: (Seq<char>, int), s: Seq<(Seq<char>, int)>)
    ensures
        forall|i: int|
            0 <= i < insert_ranked(x, s).len() ==> insert_ranked(x, s)[i] == x || s.contains(
                #[trigger] insert_ranked(x, s)[i],
            ),
    decreases s.len(),
{
    let t = insert_ranked(x, s);
    if s.len() == 0 {
    } else if pair_before(x, s.first()) {
        assert forall|i: int|
            0 <= i < t.len() implies t[i] == x || s.contains(#[trigger] t[i]) by {
            if i > 0 {
                assert(t[i] == s[i - 1]);
            }
        }
    } else {
        let rest = s.drop_first();
        lemma_insert_ranked_elems(x, rest);
        assert forall|i: int|
            0 <= i < t.len() implies t[i] == x || s.contains(#[trigger] t[i]) by {
            if i == 0 {
                assert(t[0] == s[0]);
            } else {
                assert(t[i] == insert_ranked(x, rest)[i - 1]);
                if insert_ranked(x, rest)[i - 1] != x {
                    assert(rest.contains(insert_ranked(x, rest)[i - 1]));
                    let j = choose|j: int|
                        0 <= j < rest.len() && rest[j] == insert_ranked(x, rest)[i - 1];
                    assert(s[j + 1] == insert_ranked(x, rest)[i - 1]);
                }
            }
        }
    }
}

/// Inserting into a ranked sequence keeps it ranked.
pub proof fn lemma_insert_ranked_ranked(x: (Seq<char>, int), s: Seq<(Seq<char>, int)>)
    requires
        ranked(s),
    ensures
        ranked(insert_ranked(x, s)),
    decreases s.len(),
{
    let t = insert_ranked(x, s);
    if s.len() == 0 {
        assert forall|i: int, j: int| 0 <= i < j < t.len() implies !pair_before(t[j], t[i]) by {}
    } else if pair_before(x, s.first()) {
        assert forall|i: int, j: int| 0 <= i < j < t.len() implies !pair_before(t[j], t[i]) by {
            assert(t[0] == x);
            assert(forall|y: int| 0 < y < t.len() ==> t[y] == s[y - 1]);
            if i == 0 {
                if pair_before(s[j - 1], x) {
                    lemma_pair_before_transitive(s[j - 1], x, s[0]);
                    if j - 1 == 0 {
                        lemma_pair_before_irreflexive(s[0]);
                    } else {
                        assert(!pair_before(s[j - 1], s[0]));
                    }
                }
            }
        }
    } else {
        let rest = s.drop_first();
        assert(ranked(rest)) by {
            assert(forall|y: int| 0 <= y < rest.len() ==> rest[y] == s[y + 1]);
        }
        lemma_insert_ranked_ranked(x, rest);
        lemma_insert_ranked_elems(x, rest);
        let sub = insert_ranked(x, rest);
        assert forall|i: int, j: int| 0 <= i < j < t.len() implies !pair_before(t[j], t[i]) by {
            assert(t[0] == s[0]);
            assert(forall|y: int| 0 < y < t.len() ==> t[y] == sub[y - 1]);
            if i == 0 {
                if pair_before(sub[j - 1], s[0]) {
                    if sub[j - 1] == x {
                        assert(!pair_before(x, s.first()));
                    } else {
                        assert(rest.contains(sub[j - 1]));
                        let y = choose|y: int| 0 <= y < rest.len() && rest[y] == sub[j - 1];
                        assert(s[y + 1] == sub[j - 1]);
                        assert(!pair_before(s[y + 1], s[0]));
                    }
                }
            }
        }
    }
}

/// What every ranking satisfies: sorted by descending score, ties broken by
/// ascending identifier, one entry per scored document.
pub proof fn lemma_rank_sort_ranked(s: Seq<(Seq<char>, int)>)
    ensures
        ranked(rank_sort(s)),
        rank_sort(s).len() == s.len(),
    decreases s.len(),
{
    lemma_rank_sort_len(s);
    if s.len() > 0 {
        lemma_rank_sort_ranked(s.drop_last());
        lemma_insert_ranked_ranked(s.last(), rank_sort(s.drop_last()));
    }
}

/// Inserting adds exactly the inserted entry to the contents.
pub proof fn lemma_insert_ranked_multiset(x: (Seq<char>, int), s: Seq<(Seq<char>, int)>)
    ensures
        insert_ranked(x, s).to_multiset() == s.to_multiset().insert(x),
    decreases s.len(),
{
    broadcast use vstd::seq_lib::group_to_multiset_ensures;

    if s.len() == 0 {
        assert(seq![x] =~= Seq::<(Seq<char>, int)>::empty().push(x));
    } else if pair_before(x, s.first()) {
        vstd::seq_lib::lemma_multiset_commutative(seq![x], s);
        assert(seq![x] =~= Seq::<(Seq<char>, int)>::empty().push(x));
        assert((seq![x] + s).to_multiset() =~= s.to_multiset().insert(x));
    } else {
        let rest = s.drop_first();
        lemma_insert_ranked_multiset(x, rest);
        vstd::seq_lib::lemma_multiset_commutative(seq![s.first()], insert_ranked(x, rest));
        vstd::seq_lib::lemma_multiset_commutative(seq![s.first()], rest);
        assert(seq![s.first()] + rest =~= s);
        assert(seq![s.first()] =~= Seq::<(Seq<char>, int)>::empty().push(s.first()));
        assert((seq![s.first()] + insert_ranked(x, rest)).to_multiset() =~= s.to_multiset().insert(
            x,
        ));
    }
}

/// Ranking rearranges the scored documents and loses or invents none.
pub proof fn lemma_rank_sort_permutes(s: Seq<(Seq<char>, int)>)
    ensures
        rank_sort(s).to_multiset() == s.to_multiset(),
    decreases s.len(),
{
    broadcast use vstd::seq_lib::group_to_multiset_ensures;

    if s.len() > 0 {
        lemma_rank_sort_permutes(s.drop_last());
        lemma_insert_ranked_multiset(s.last(), rank_sort(s.drop_last()));
        assert(s.drop_last().push(s.last()) =~= s);
        assert(s.drop_last().push(s.last()).to_multiset() =~= s.drop_last().to_multiset().insert(
            s.last(),
        ));
    }
}

/// A sequence of equal scores with strictly ascending identifiers is already
/// ranked, and ranking it moves nothing.
pub proof fn lemma_rank_sort_keeps_id_order(s: Seq<(Seq<char>, int)>)
    requires
        forall|i: int, j: int|
            0 <= i < s.len() && 0 <= j < s.len() ==> s[i].1 == s[j].1,
        forall|i: int, j: int| 0 <= i < j < s.len() ==> lex_lt(s[i].0, s[j].0),
    ensures
        rank_sort(s) == s,
    decreases s.len(),
{
    if s.len() > 0 {
        let rest = s.drop_last();
        let x = s.last();
        assert(forall|i: int, j: int|
            0 <= i < rest.len() && 0 <= j < rest.len() ==> rest[i].1 == rest[j].1) by {
            assert(forall|y: int| 0 <= y < rest.len() ==> rest[y] == s[y]);
        }
        assert(forall|i: int, j: int| 0 <= i < j < rest.len() ==> lex_lt(rest[i].0, rest[j].0))
            by {
            assert(forall|y: int| 0 <= y < rest.len() ==> rest[y] == s[y]);
        }
        lemma_rank_sort_keeps_id_order(rest);
        assert forall|j: int| 0 <= j < rest.len() implies !pair_before(x, rest[j]) by {
            assert(rest[j] == s[j]);
            assert(s[s.len() - 1] == x);
            assert(lex_lt(s[j].0, x.0));
            lemma_lex_trichotomy(x.0, s[j].0);
        }
        lemma_insert_ranked_at(x, rest, rest.len() as int);
        assert(rest.take(rest.len() as int) =~= rest);
        assert(rest.skip(rest.len() as int) =~= Seq::<(Seq<char>, int)>::empty());
        assert(rest + seq![x] + Seq::<(Seq<char>, int)>::empty() =~= s);
    }
}

/// An empty query scores every document zero, and the ranking degenerates to
/// the deterministic tie-break order: ascending document identifier.
pub proof fn lemma_empty_query_order(m: Model, q: Seq<char>)
    requires
        m.wf(),
        terms_of(q).len() == 0,
    ensures
        forall|i: int|
            0 <= i < m.num_docs() ==> scored_pairs(m, terms_of(q))[i] == (m.doc_id_at(i), 0int),
        rank_sort(scored_pairs(m, terms_of(q))) == scored_pairs(m, terms_of(q)),
{
    let terms = terms_of(q);
    let pairs = scored_pairs(m, terms);
    assert forall|i: int|
        0 <= i < m.num_docs() implies pairs[i] == (m.doc_id_at(i), 0int) by {
        assert(score_at(m, terms, i) == 0);
    }
    assert(forall|i: int, j: int|
        0 <= i < pairs.len() && 0 <= j < pairs.len() ==> pairs[i].1 == pairs[j].1);
    assert forall|i: int, j: int| 0 <= i < j < pairs.len() implies lex_lt(
        pairs[i].0,
        pairs[j].0,
    ) by {
        assert(m.doc_seq()[i].0 == m.doc_id_at(i));
        assert(m.doc_seq()[j].0 == m.doc_id_at(j));
        assert(lex_lt(m.doc_seq()[i].0, m.doc_seq()[j].0));
    }
    lemma_rank_sort_keeps_id_order(pairs);
}

} // verus!
