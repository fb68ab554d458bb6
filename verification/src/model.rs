use crate::assoc::{
    assoc_has_key, assoc_sorted, assoc_to_map, bump_map, counts_positive, counts_view,
    lemma_assoc_canonical, lemma_assoc_dom, lemma_assoc_get, lemma_assoc_insert_mid,
    lemma_assoc_sorted_distinct, lemma_assoc_update, lemma_count_le_total, lemma_total_insert,
    lemma_total_nonneg, lemma_total_prefix, lemma_total_update, total_of,
};
use crate::idf::{idf_fixed, idf_value, IDF_MAX};
use crate::order::{lemma_lex_transitive, lemma_lex_trichotomy, lex_lt, str_cmp, Cmp};
use vstd::prelude::*;

verus! {

// ---------------------------------------------------------------------------
// The term-frequency statistics of one document.
// ---------------------------------------------------------------------------
/// Raw (term, count) entries that could have come from indexing one
/// document: terms strictly ascending, counts positive, total within
/// machine range.
pub open spec fn valid_counts(s: Seq<(Seq<char>, int)>) -> bool {
    assoc_sorted(s) && counts_positive(s) && total_of(s) <= usize::MAX as int
}

/// Occurrence counts of each term of one document, with the terms in strictly
/// ascending lexicographic order and every count at least one.
pub struct TermFreq {
    entries: Vec<(String, usize)>,
}

impl TermFreq {
    /// The stored (term, count) pairs, in storage order.
    pub closed spec fn entry_seq(&self) -> Seq<(Seq<char>, int)> {
        counts_view(self.entries@)
    }

    /// The term-to-count map the entries denote.
    pub open spec fn to_map(&self) -> Map<Seq<char>, int> {
        assoc_to_map(self.entry_seq())
    }

    /// The document's total token count: the sum of all stored counts.
    pub open spec fn total_spec(&self) -> int {
        total_of(self.entry_seq())
    }

    /// The count of one term, zero when the term is absent.
    pub open spec fn count_spec(&self, t: Seq<char>) -> int {
        if self.to_map().dom().contains(t) {
            self.to_map()[t]
        } else {
            0
        }
    }

    pub open spec fn wf(&self) -> bool {
        &&& assoc_sorted(self.entry_seq())
        &&& counts_positive(self.entry_seq())
        &&& self.total_spec() <= usize::MAX as int
    }

    /// The fresh, empty statistics: the identity element of indexing.
    pub fn new() -> (t: TermFreq)
        ensures
            t.wf(),
            t.entry_seq() =~= Seq::<(Seq<char>, int)>::empty(),
            t.to_map() =~= Map::<Seq<char>, int>::empty(),
            t.total_spec() == 0,
    {
        let t = TermFreq { entries: Vec::new() };
        proof {
            assert(t.entry_seq() =~= Seq::<(Seq<char>, int)>::empty());
        }
        t
    }

    pub fn len(&self) -> (n: usize)
        ensures
            n == self.entry_seq().len(),
    {
        self.entries.len()
    }

    pub fn term_at(&self, i: usize) -> (t: &String)
        requires
            i < self.entry_seq().len(),
        ensures
            t@ == self.entry_seq()[i as int].0,
    {
        &self.entries[i].0
    }

    /// The stored (term, count) entries, in ascending term order.
    pub fn entries(&self) -> (r: &Vec<(String, usize)>)
        ensures
            counts_view(r@) == self.entry_seq(),
    {
        &self.entries
    }

    /// How often `term` occurs in the document; zero when it does not.
    pub fn get(&self, term: &str) -> (c: usize)
        requires
            self.wf(),
        ensures
            c as int == self.count_spec(term@),
    {
        proof {
            lemma_assoc_sorted_distinct(self.entry_seq());
            lemma_assoc_dom(self.entry_seq());
        }
        let n = self.entries.len();
        let mut i: usize = 0;
        while i < n
            invariant
                self.wf(),
                n == self.entry_seq().len(),
                i <= n,
                forall|j: int| 0 <= j < i ==> self.entry_seq()[j].0 != term@,
            decreases n - i,
        {
            let c = str_cmp(self.entries[i].0.as_str(), term);
            if let Cmp::Eq = c {
                proof {
                    lemma_assoc_sorted_distinct(self.entry_seq());
                    lemma_assoc_get(self.entry_seq(), i as int);
                }
                return self.entries[i].1;
            }
            proof {
                crate::order::lemma_lex_irreflexive(term@);
            }
            i = i + 1;
        }
        proof {
            assert(!assoc_has_key(self.entry_seq(), term@));
        }
        0
    }

    /// The document's total token count.
    pub fn total(&self) -> (t: usize)
        requires
            self.wf(),
        ensures
            t as int == self.total_spec(),
    {
        let ghost s = self.entry_seq();
        let n = self.entries.len();
        let mut sum: usize = 0;
        let mut i: usize = 0;
        proof {
            assert(s.take(0) =~= Seq::<(Seq<char>, int)>::empty());
        }
        while i < n
            invariant
                self.wf(),
                n == s.len(),
                s == self.entry_seq(),
                i <= n,
                sum as int == total_of(s.take(i as int)),
            decreases n - i,
        {
            proof {
                assert(s.take(i as int + 1).drop_last() =~= s.take(i as int));
                assert(s.take(i as int + 1).last() == s[i as int]);
                lemma_total_prefix(s, i as int + 1);
            }
            sum = sum + self.entries[i].1;
            i = i + 1;
        }
        proof {
            assert(s.take(n as int) =~= s);
        }
        sum
    }

    /// Accept raw (term, count) entries as one document's statistics,
    /// exactly when they could have come from indexing: terms strictly
    /// ascending, every count at least one, total within machine range.
    pub fn from_entries(entries: Vec<(String, usize)>) -> (r: Option<TermFreq>)
        ensures
            match r {
                Some(t) => {
                    &&& t.wf()
                    &&& t.entry_seq() == counts_view(entries@)
                    &&& valid_counts(counts_view(entries@))
                },
                None => !valid_counts(counts_view(entries@)),
            },
    {
        let ghost s = counts_view(entries@);
        proof {
            assert(forall|j: int| 0 <= j < s.len() ==> #[trigger] s[j].1 >= 0);
        }
        let n = entries.len();
        let mut i: usize = 0;
        let mut sum: usize = 0;
        proof {
            assert(s.take(0) =~= Seq::<(Seq<char>, int)>::empty());
        }
        while i < n
            invariant
                s == counts_view(entries@),
                n == s.len(),
                i <= n,
                forall|j: int| 0 <= j < i ==> #[trigger] s[j].1 >= 1,
                forall|j: int| 0 <= j < i - 1 ==> lex_lt(#[trigger] s[j].0, s[j + 1].0),
                sum as int == total_of(s.take(i as int)),
            decreases n - i,
        {
            if entries[i].1 < 1 {
                proof {
                    assert(s[i as int].1 < 1);
                }
                return None;
            }
            if i > 0 {
                let c = str_cmp(entries[i - 1].0.as_str(), entries[i].0.as_str());
                let ordered = match c {
                    Cmp::Lt => true,
                    _ => false,
                };
                if !ordered {
                    proof {
                        if assoc_sorted(s) {
                            assert(lex_lt(s[i as int - 1].0, s[i as int].0));
                        }
                    }
                    return None;
                }
            }
            if entries[i].1 > usize::MAX - sum {
                proof {
                    assert(s.take(i as int + 1).drop_last() =~= s.take(i as int));
                    assert(s.take(i as int + 1).last() == s[i as int]);
                    crate::assoc::lemma_total_prefix_grows(s, i as int + 1);
                    assert(total_of(s) > usize::MAX as int);
                }
                return None;
            }
            proof {
                assert(s.take(i as int + 1).drop_last() =~= s.take(i as int));
                assert(s.take(i as int + 1).last() == s[i as int]);
            }
            sum = sum + entries[i].1;
            i = i + 1;
        }
        proof {
            assert(s.take(n as int) =~= s);
            crate::assoc::lemma_adjacent_sorted(s);
        }
        Some(TermFreq { entries })
    }

    /// Count one more occurrence of `term`.
    pub(crate) fn bump(&mut self, term: String)
        requires
            old(self).wf(),
            old(self).total_spec() < usize::MAX as int,
        ensures
            final(self).wf(),
            final(self).to_map() == bump_map(old(self).to_map(), term@),
            final(self).total_spec() == old(self).total_spec() + 1,
    {
        let ghost s0 = self.entry_seq();
        proof {
            lemma_assoc_sorted_distinct(s0);
            lemma_assoc_dom(s0);
        }
        let n = self.entries.len();
        let mut i: usize = 0;
        while i < n
            invariant
                self == old(self),
                self.wf(),
                old(self).total_spec() < usize::MAX as int,
                s0 == self.entry_seq(),
                n == s0.len(),
                i <= n,
                forall|j: int| 0 <= j < i ==> lex_lt(s0[j].0, term@),
            decreases n - i,
        {
            let c = str_cmp(self.entries[i].0.as_str(), term.as_str());
            match c {
                Cmp::Lt => {
                    i = i + 1;
                },
                Cmp::Eq => {
                    let cnt = self.entries[i].1;
                    proof {
                        lemma_assoc_sorted_distinct(s0);
                        lemma_assoc_get(s0, i as int);
                        lemma_count_le_total(s0, i as int);
                        lemma_assoc_dom(s0);
                    }
                    self.entries[i].1 = cnt + 1;
                    proof {
                        let s1 = self.entry_seq();
                        assert(s1 =~= s0.update(i as int, (term@, cnt as int + 1)));
                        assert(s0[i as int].0 == term@);
                        lemma_assoc_update(s0, i as int, cnt as int + 1);
                        lemma_total_update(s0, i as int, cnt as int + 1);
                        assert(assoc_sorted(s1)) by {
                            assert(forall|x: int| 0 <= x < s1.len() ==> s1[x].0 == s0[x].0);
                        }
                        assert(counts_positive(s1)) by {
                            assert(forall|x: int|
                                0 <= x < s1.len() && x != i as int ==> s1[x] == s0[x]);
                        }
                        assert(self.to_map() =~= bump_map(old(self).to_map(), term@));
                    }
                    return ;
                },
                Cmp::Gt => {
                    proof {
                        lemma_assoc_sorted_distinct(s0);
                        lemma_assoc_dom(s0);
                        assert(lex_lt(term@, s0[i as int].0));
                        assert(forall|j: int| i as int <= j < s0.len() ==> lex_lt(
                            term@,
                            #[trigger] s0[j].0,
                        )) by {
                            assert forall|j: int|
                                i as int <= j < s0.len() implies lex_lt(term@, #[trigger] s0[j].0) by {
                                if j > i as int {
                                    assert(lex_lt(s0[i as int].0, s0[j].0));
                                    lemma_lex_transitive(term@, s0[i as int].0, s0[j].0);
                                }
                            }
                        }
                        assert(!assoc_has_key(s0, term@)) by {
                            if assoc_has_key(s0, term@) {
                                let j = choose|j: int| 0 <= j < s0.len() && s0[j].0 == term@;
                                lemma_lex_trichotomy(term@, s0[j].0);
                            }
                        }
                    }
                    self.entries.insert(i, (term, 1));
                    proof {
                        let s1 = self.entry_seq();
                        let ghost t = s1[i as int].0;
                        assert(s1 =~= s0.insert(i as int, (t, 1)));
                        lemma_assoc_insert_mid(s0, i as int, t, 1);
                        lemma_total_insert(s0, i as int, t, 1);
                        assert(assoc_sorted(s1)) by {
                            assert(forall|x: int| 0 <= x < i as int ==> s1[x] == s0[x]);
                            assert(forall|x: int|
                                (i as int) < x < s1.len() ==> s1[x] == s0[x - 1]);
                            assert(s1[i as int] == (t, 1int));
                        }
                        assert(counts_positive(s1)) by {
                            assert(forall|x: int| 0 <= x < i as int ==> s1[x] == s0[x]);
                            assert(forall|x: int|
                                (i as int) < x < s1.len() ==> s1[x] == s0[x - 1]);
                            assert(s1[i as int] == (t, 1int));
                        }
                        assert(self.to_map() =~= bump_map(old(self).to_map(), t));
                    }
                    return ;
                },
            }
        }
        proof {
            lemma_assoc_dom(s0);
            assert(!assoc_has_key(s0, term@)) by {
                if assoc_has_key(s0, term@) {
                    let j = choose|j: int| 0 <= j < s0.len() && s0[j].0 == term@;
                    assert(lex_lt(s0[j].0, term@));
                    crate::order::lemma_lex_irreflexive(term@);
                }
            }
        }
        self.entries.push((term, 1));
        proof {
            let s1 = self.entry_seq();
            let ghost t = s1[n as int].0;
            assert(s1 =~= s0.insert(n as int, (t, 1)));
            lemma_assoc_insert_mid(s0, n as int, t, 1);
            lemma_total_insert(s0, n as int, t, 1);
            assert(assoc_sorted(s1)) by {
                assert(forall|x: int| 0 <= x < n as int ==> s1[x] == s0[x]);
                assert(s1[n as int] == (t, 1int));
            }
            assert(counts_positive(s1)) by {
                assert(forall|x: int| 0 <= x < n as int ==> s1[x] == s0[x]);
                assert(s1[n as int] == (t, 1int));
            }
            assert(self.to_map() =~= bump_map(old(self).to_map(), t));
        }
    }
}

// ---------------------------------------------------------------------------
// The whole index: per-document statistics plus the derived corpus-wide
// document-frequency map.
// ---------------------------------------------------------------------------
/// In how many documents of the sequence each term occurs at least once.
pub open spec fn df_count(docs: Seq<(Seq<char>, Map<Seq<char>, int>)>, t: Seq<char>) -> int
    decreases docs.len(),
{
    if docs.len() == 0 {
        0
    } else {
        df_count(docs.drop_last(), t) + if docs.last().1.dom().contains(t) {
            1int
        } else {
            0int
        }
    }
}

/// The document-frequency map a document sequence induces: each term that
/// occurs anywhere, mapped to the number of documents containing it.
pub open spec fn df_map_of(docs: Seq<(Seq<char>, Map<Seq<char>, int>)>) -> Map<Seq<char>, int> {
    Map::new(|t: Seq<char>| df_count(docs, t) > 0, |t: Seq<char>| df_count(docs, t))
}

/// The document frequency a term scores against: the stored count, or the
/// unseen-term floor of one.
pub open spec fn df_or_one(dfm: Map<Seq<char>, int>, t: Seq<char>) -> int {
    if dfm.dom().contains(t) {
        dfm[t]
    } else {
        1
    }
}

/// The index: per-document term counts (`tfpd`) plus the derived corpus-wide
/// document-frequency map (`df`), both laid out in ascending key order.
pub struct Model {
    pub(crate) tfpd: Vec<(String, TermFreq)>,
    pub(crate) df: Vec<(String, usize)>,
}

impl Model {
    pub closed spec fn num_docs(&self) -> nat {
        self.tfpd@.len()
    }

    pub closed spec fn doc_id_at(&self, i: int) -> Seq<char> {
        self.tfpd@[i].0@
    }

    pub closed spec fn doc_tf_at(&self, i: int) -> TermFreq {
        self.tfpd@[i].1
    }

    /// The per-document map as an association sequence in storage order.
    pub open spec fn doc_seq(&self) -> Seq<(Seq<char>, Map<Seq<char>, int>)> {
        Seq::new(self.num_docs(), |i: int| (self.doc_id_at(i), self.doc_tf_at(i).to_map()))
    }

    pub open spec fn doc_map(&self) -> Map<Seq<char>, Map<Seq<char>, int>> {
        assoc_to_map(self.doc_seq())
    }

    pub closed spec fn df_seq(&self) -> Seq<(Seq<char>, int)> {
        counts_view(self.df@)
    }

    pub open spec fn df_map(&self) -> Map<Seq<char>, int> {
        assoc_to_map(self.df_seq())
    }

    pub open spec fn docs_wf(&self) -> bool {
        forall|i: int| 0 <= i < self.num_docs() ==> (#[trigger] self.doc_tf_at(i)).wf()
    }

    /// Well-formed: documents sorted by identifier, every document's
    /// statistics well-formed, and the document-frequency map exactly the one
    /// the per-document maps induce.
    pub open spec fn wf(&self) -> bool {
        &&& self.docs_wf()
        &&& assoc_sorted(self.doc_seq())
        &&& assoc_sorted(self.df_seq())
        &&& counts_positive(self.df_seq())
        &&& self.df_map() == df_map_of(self.doc_seq())
    }

    /// The fresh, empty index.
    pub fn new() -> (m: Model)
        ensures
            m.wf(),
            m.num_docs() == 0,
            m.doc_seq() =~= Seq::<(Seq<char>, Map<Seq<char>, int>)>::empty(),
            m.df_seq() =~= Seq::<(Seq<char>, int)>::empty(),
    {
        let m = Model { tfpd: Vec::new(), df: Vec::new() };
        proof {
            assert(m.doc_seq() =~= Seq::<(Seq<char>, Map<Seq<char>, int>)>::empty());
            assert(m.df_seq() =~= Seq::<(Seq<char>, int)>::empty());
            assert(m.df_map() =~= df_map_of(m.doc_seq()));
        }
        m
    }

    pub fn doc_count(&self) -> (n: usize)
        ensures
            n == self.num_docs(),
    {
        self.tfpd.len()
    }

    pub fn doc_id(&self, i: usize) -> (id: &String)
        requires
            i < self.num_docs(),
        ensures
            id@ == self.doc_id_at(i as int),
    {
        &self.tfpd[i].0
    }

    pub fn doc_tf(&self, i: usize) -> (tf: &TermFreq)
        requires
            i < self.num_docs(),
        ensures
            *tf == self.doc_tf_at(i as int),
    {
        &self.tfpd[i].1
    }

    /// The stored document frequency of `term`, or the floor of one when the
    /// term occurs nowhere.
    pub fn df_lookup(&self, term: &str) -> (m: usize)
        requires
            self.wf(),
        ensures
            m as int == df_or_one(self.df_map(), term@),
    {
        proof {
            lemma_assoc_sorted_distinct(self.df_seq());
            lemma_assoc_dom(self.df_seq());
        }
        let n = self.df.len();
        let mut i: usize = 0;
        while i < n
            invariant
                self.wf(),
                n == self.df_seq().len(),
                i <= n,
                forall|j: int| 0 <= j < i ==> self.df_seq()[j].0 != term@,
            decreases n - i,
        {
            let c = str_cmp(self.df[i].0.as_str(), term);
            if let Cmp::Eq = c {
                proof {
                    lemma_assoc_sorted_distinct(self.df_seq());
                    lemma_assoc_get(self.df_seq(), i as int);
                }
                return self.df[i].1;
            }
            i = i + 1;
        }
        proof {
            assert(!assoc_has_key(self.df_seq(), term@));
        }
        1
    }

    /// The stored document-frequency entries, in ascending term order.
    pub fn df_entries(&self) -> (r: &Vec<(String, usize)>)
        ensures
            counts_view(r@) == self.df_seq(),
    {
        &self.df
    }

    /// Assemble an index from already-built parts; the caller owes the
    /// well-formedness argument.
    pub(crate) fn from_parts(tfpd: Vec<(String, TermFreq)>, df: Vec<(String, usize)>) -> (m: Model)
        ensures
            m.num_docs() == tfpd@.len(),
            forall|i: int|
                0 <= i < tfpd@.len() ==> #[trigger] m.doc_id_at(i) == tfpd@[i].0@
                    && m.doc_tf_at(i) == tfpd@[i].1,
            m.df_seq() == counts_view(df@),
    {
        Model { tfpd, df }
    }
}

/// Whether two documents' statistics hold exactly the same entries.
pub fn tf_eq(a: &TermFreq, b: &TermFreq) -> (r: bool)
    ensures
        r == (a.entry_seq() == b.entry_seq()),
{
    let n = a.entries.len();
    if n != b.entries.len() {
        return false;
    }
    let mut i: usize = 0;
    while i < n
        invariant
            n == a.entry_seq().len(),
            n == b.entry_seq().len(),
            i <= n,
            forall|j: int| 0 <= j < i ==> a.entry_seq()[j] == b.entry_seq()[j],
        decreases n - i,
    {
        let same_term = a.entries[i].0 == b.entries[i].0;
        if !same_term || a.entries[i].1 != b.entries[i].1 {
            proof {
                assert(a.entry_seq()[i as int] != b.entry_seq()[i as int]);
            }
            return false;
        }
        proof {
            assert(a.entry_seq()[i as int] == b.entry_seq()[i as int]);
        }
        i = i + 1;
    }
    proof {
        assert(a.entry_seq() =~= b.entry_seq());
    }
    true
}

impl Model {
    /// Whether two indexes hold exactly the same documents, statistics and
    /// derived document-frequency maps.
    pub fn model_eq(&self, other: &Model) -> (r: bool)
        requires
            self.wf(),
            other.wf(),
        ensures
            r == (self.doc_seq() == other.doc_seq() && self.df_seq() == other.df_seq()),
    {
        let dn = self.df.len();
        if dn != other.df.len() {
            proof {
                assert(self.df_seq().len() != other.df_seq().len());
            }
            return false;
        }
        let mut i: usize = 0;
        while i < dn
            invariant
                dn == self.df_seq().len(),
                dn == other.df_seq().len(),
                i <= dn,
                forall|j: int| 0 <= j < i ==> self.df_seq()[j] == other.df_seq()[j],
            decreases dn - i,
        {
            let same_term = self.df[i].0 == other.df[i].0;
            if !same_term || self.df[i].1 != other.df[i].1 {
                proof {
                    assert(self.df_seq()[i as int] != other.df_seq()[i as int]);
                }
                return false;
            }
            proof {
                assert(self.df_seq()[i as int] == other.df_seq()[i as int]);
            }
            i = i + 1;
        }
        proof {
            assert(self.df_seq() =~= other.df_seq());
        }
        let n = self.tfpd.len();
        if n != other.tfpd.len() {
            proof {
                assert(self.doc_seq().len() != other.doc_seq().len());
            }
            return false;
        }
        let mut k: usize = 0;
        while k < n
            invariant
                self.wf(),
                other.wf(),
                n == self.num_docs(),
                n == other.num_docs(),
                k <= n,
                self.df_seq() == other.df_seq(),
                forall|j: int| 0 <= j < k ==> self.doc_seq()[j] == other.doc_seq()[j],
            decreases n - k,
        {
            let same_id = self.tfpd[k].0 == other.tfpd[k].0;
            if !same_id {
                proof {
                    assert(self.doc_seq()[k as int].0 != other.doc_seq()[k as int].0);
                }
                return false;
            }
            if !tf_eq(&self.tfpd[k].1, &other.tfpd[k].1) {
                proof {
                    assert(self.doc_tf_at(k as int).wf());
                    assert(other.doc_tf_at(k as int).wf());
                    if self.doc_tf_at(k as int).to_map() == other.doc_tf_at(k as int).to_map() {
                        lemma_assoc_canonical(
                            self.doc_tf_at(k as int).entry_seq(),
                            other.doc_tf_at(k as int).entry_seq(),
                        );
                    }
                    assert(self.doc_seq()[k as int].1 != other.doc_seq()[k as int].1);
                }
                return false;
            }
            proof {
                assert(self.doc_seq()[k as int] == other.doc_seq()[k as int]);
            }
            k = k + 1;
        }
        proof {
            assert(self.doc_seq() =~= other.doc_seq());
        }
        true
    }
}

// ---------------------------------------------------------------------------
// The two scoring factors, exact over the model.
// ---------------------------------------------------------------------------
/// The term frequency of `term` in one document, as the exact fraction
/// (occurrences of the term, total token count of the document).
pub fn calc_tf(term: &str, doc: &TermFreq) -> (r: (usize, usize))
    requires
        doc.wf(),
    ensures
        r.0 as int == doc.count_spec(term@),
        r.1 as int == doc.total_spec(),
{
    (doc.get(term), doc.total())
}

/// The fixed-point inverse document frequency of `term` across the model,
/// with the unseen-term floor of one.
pub fn calc_idf(term: &str, model: &Model) -> (r: u64)
    requires
        model.wf(),
    ensures
        r as int == idf_fixed(model.num_docs() as int, df_or_one(model.df_map(), term@)),
        r < IDF_MAX,
{
    let n = model.doc_count();
    let m = model.df_lookup(term);
    idf_value(n, m)
}

// ---------------------------------------------------------------------------
// Laws of the model.
// ---------------------------------------------------------------------------
/// Term frequencies are consistent fractions: over all terms of a document,
/// the TF numerators (the per-term counts, as `calc_tf` returns them) sum to
/// the shared TF denominator, the document's total token count.
pub proof fn lemma_tf_fractions(doc: TermFreq)
    requires
        doc.wf(),
    ensures
        total_of(
            Seq::new(
                doc.entry_seq().len(),
                |i: int| (doc.entry_seq()[i].0, doc.count_spec(doc.entry_seq()[i].0)),
            ),
        ) == doc.total_spec(),
{
    let s = doc.entry_seq();
    let numerators = Seq::new(
        s.len(),
        |i: int| (s[i].0, doc.count_spec(s[i].0)),
    );
    lemma_assoc_sorted_distinct(s);
    assert forall|i: int| 0 <= i < s.len() implies numerators[i] == s[i] by {
        lemma_assoc_get(s, i);
    }
    assert(numerators =~= s);
}

/// How the views of a model relate to its stored parts.
pub(crate) proof fn lemma_model_parts(m: Model)
    ensures
        m.num_docs() == m.tfpd@.len(),
        forall|i: int|
            0 <= i < m.tfpd@.len() ==> #[trigger] m.doc_id_at(i) == m.tfpd@[i].0@
                && m.doc_tf_at(i) == m.tfpd@[i].1,
        m.df_seq() == counts_view(m.df@),
{
}

/// No term occurs more often than the document's total token count.
pub proof fn lemma_count_within_total(doc: TermFreq, t: Seq<char>)
    requires
        doc.wf(),
    ensures
        0 <= doc.count_spec(t) <= doc.total_spec(),
{
    lemma_total_nonneg(doc.entry_seq());
    if doc.to_map().dom().contains(t) {
        lemma_assoc_dom(doc.entry_seq());
        let i = choose|i: int| 0 <= i < doc.entry_seq().len() && doc.entry_seq()[i].0 == t;
        lemma_assoc_sorted_distinct(doc.entry_seq());
        lemma_assoc_get(doc.entry_seq(), i);
        lemma_count_le_total(doc.entry_seq(), i);
    }
}

/// The stored document-frequency map is derived data: recomputing it from
/// the per-document maps reproduces it exactly.
pub proof fn lemma_df_reconstructible(m: Model)
    requires
        m.wf(),
    ensures
        m.df_map() == df_map_of(m.doc_seq()),
{
}

} // verus!
