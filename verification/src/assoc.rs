use crate::order::{lemma_lex_irreflexive, lemma_lex_transitive, lemma_lex_trichotomy, lex_lt};
use vstd::prelude::*;

verus! {

// ---------------------------------------------------------------------------
// Association sequences: key-value pairs with string keys held in strictly
// ascending key order. Every term map of the index is laid out this way, so
// iteration order, persisted output and ranking tie-breaks are deterministic.
// The mathematical content of such a sequence is the finite map it denotes.
// ---------------------------------------------------------------------------
/// Keys strictly ascend, so each key occurs at most once.
pub open spec fn assoc_sorted<V>(s: Seq<(Seq<char>, V)>) -> bool {
    forall|i: int, j: int| 0 <= i < j < s.len() ==> lex_lt(s[i].0, s[j].0)
}

pub open spec fn assoc_has_key<V>(s: Seq<(Seq<char>, V)>, k: Seq<char>) -> bool {
    exists|i: int| 0 <= i < s.len() && s[i].0 == k
}

/// The finite map an association sequence denotes; later entries would win,
/// but sorted sequences hold each key once.
pub open spec fn assoc_to_map<V>(s: Seq<(Seq<char>, V)>) -> Map<Seq<char>, V>
    decreases s.len(),
{
    if s.len() == 0 {
        Map::empty()
    } else {
        assoc_to_map(s.drop_last()).insert(s.last().0, s.last().1)
    }
}

pub proof fn lemma_assoc_sorted_distinct<V>(s: Seq<(Seq<char>, V)>)
    requires
        assoc_sorted(s),
    ensures
        forall|i: int, j: int|
            0 <= i < s.len() && 0 <= j < s.len() && i != j ==> s[i].0 != s[j].0,
{
    assert forall|i: int, j: int|
        0 <= i < s.len() && 0 <= j < s.len() && i != j implies s[i].0 != s[j].0 by {
        lemma_lex_irreflexive(s[i].0);
    }
}

/// A key is in the denoted map exactly when some entry carries it.
pub proof fn lemma_assoc_dom<V>(s: Seq<(Seq<char>, V)>)
    ensures
        forall|k: Seq<char>| #[trigger]
            assoc_to_map(s).dom().contains(k) <==> assoc_has_key(s, k),
    decreases s.len(),
{
    if s.len() > 0 {
        lemma_assoc_dom(s.drop_last());
        assert forall|k: Seq<char>| #[trigger]
            assoc_to_map(s).dom().contains(k) <==> assoc_has_key(s, k) by {
            if assoc_to_map(s).dom().contains(k) {
                if k == s.last().0 {
                    assert(s[s.len() - 1].0 == k);
                } else {
                    assert(assoc_to_map(s.drop_last()).dom().contains(k));
                    let i = choose|i: int| 0 <= i < s.drop_last().len() && s.drop_last()[i].0 == k;
                    assert(s[i].0 == k);
                }
                assert(assoc_has_key(s, k));
            }
            if assoc_has_key(s, k) {
                let i = choose|i: int| 0 <= i < s.len() && s[i].0 == k;
                if i < s.len() - 1 {
                    assert(s.drop_last()[i].0 == k);
                    assert(assoc_has_key(s.drop_last(), k));
                    assert(assoc_to_map(s.drop_last()).dom().contains(k));
                } else {
                    assert(k == s.last().0);
                }
                assert(assoc_to_map(s).dom().contains(k));
            }
        }
    }
}

/// Each entry of a duplicate-free association sequence is what the denoted
/// map yields for its key.
pub proof fn lemma_assoc_get<V>(s: Seq<(Seq<char>, V)>, i: int)
    requires
        forall|x: int, y: int|
            0 <= x < s.len() && 0 <= y < s.len() && x != y ==> s[x].0 != s[y].0,
        0 <= i < s.len(),
    ensures
        assoc_to_map(s).dom().contains(s[i].0),
        assoc_to_map(s)[s[i].0] == s[i].1,
    decreases s.len(),
{
    if i == s.len() - 1 {
    } else {
        assert(s.drop_last()[i] == s[i]);
        lemma_assoc_get(s.drop_last(), i);
        assert(s.last().0 != s[i].0);
    }
}

/// Inserting a fresh key anywhere inserts it into the denoted map.
pub proof fn lemma_assoc_insert_mid<V>(s: Seq<(Seq<char>, V)>, pos: int, k: Seq<char>, v: V)
    requires
        0 <= pos <= s.len(),
        !assoc_has_key(s, k),
    ensures
        assoc_to_map(s.insert(pos, (k, v))) == assoc_to_map(s).insert(k, v),
    decreases s.len(),
{
    let n = s.insert(pos, (k, v));
    if pos == s.len() {
        assert(n.drop_last() =~= s);
        assert(n.last() == (k, v));
    } else {
        assert(n.last() == s.last());
        assert(n.drop_last() =~= s.drop_last().insert(pos, (k, v)));
        assert(!assoc_has_key(s.drop_last(), k)) by {
            if assoc_has_key(s.drop_last(), k) {
                let i = choose|i: int| 0 <= i < s.drop_last().len() && s.drop_last()[i].0 == k;
                assert(s[i].0 == k);
            }
        }
        lemma_assoc_insert_mid(s.drop_last(), pos, k, v);
        assert(s.last().0 != k) by {
            assert(s[s.len() - 1].0 == s.last().0);
        }
        assert(assoc_to_map(s.drop_last()).insert(k, v).insert(s.last().0, s.last().1)
            =~= assoc_to_map(s.drop_last()).insert(s.last().0, s.last().1).insert(k, v));
    }
}

/// Replacing the value at one position updates the denoted map at its key.
pub proof fn lemma_assoc_update<V>(s: Seq<(Seq<char>, V)>, pos: int, v: V)
    requires
        forall|x: int, y: int|
            0 <= x < s.len() && 0 <= y < s.len() && x != y ==> s[x].0 != s[y].0,
        0 <= pos < s.len(),
    ensures
        assoc_to_map(s.update(pos, (s[pos].0, v))) == assoc_to_map(s).insert(s[pos].0, v),
    decreases s.len(),
{
    let n = s.update(pos, (s[pos].0, v));
    if pos == s.len() - 1 {
        assert(n.drop_last() =~= s.drop_last());
        assert(n.last() == (s[pos].0, v));
        assert(assoc_to_map(s.drop_last()).insert(s[pos].0, v) =~= assoc_to_map(
            s.drop_last(),
        ).insert(s.last().0, s.last().1).insert(s[pos].0, v));
    } else {
        assert(n.last() == s.last());
        assert(n.drop_last() =~= s.drop_last().update(pos, (s[pos].0, v)));
        assert(s.drop_last()[pos] == s[pos]);
        lemma_assoc_update(s.drop_last(), pos, v);
        assert(s.last().0 != s[pos].0) by {
            assert(s[s.len() - 1].0 == s.last().0);
        }
        assert(assoc_to_map(s.drop_last()).insert(s[pos].0, v).insert(s.last().0, s.last().1)
            =~= assoc_to_map(s.drop_last()).insert(s.last().0, s.last().1).insert(s[pos].0, v));
    }
}

pub proof fn lemma_lex_chain<V>(s: Seq<(Seq<char>, V)>, i: int, j: int)
    requires
        forall|x: int| 0 <= x < s.len() - 1 ==> lex_lt(#[trigger] s[x].0, s[x + 1].0),
        0 <= i < j < s.len(),
    ensures
        lex_lt(s[i].0, s[j].0),
    decreases j - i,
{
    if j == i + 1 {
    } else {
        lemma_lex_chain(s, i, j - 1);
        lemma_lex_transitive(s[i].0, s[j - 1].0, s[j].0);
    }
}

/// Strict order between every pair of adjacent keys orders the whole
/// sequence.
pub proof fn lemma_adjacent_sorted<V>(s: Seq<(Seq<char>, V)>)
    requires
        forall|x: int| 0 <= x < s.len() - 1 ==> lex_lt(#[trigger] s[x].0, s[x + 1].0),
    ensures
        assoc_sorted(s),
{
    assert forall|i: int, j: int| 0 <= i < j < s.len() implies lex_lt(s[i].0, s[j].0) by {
        lemma_lex_chain(s, i, j);
    }
}

/// Two sorted association sequences denoting the same map are identical:
/// the sorted layout is canonical.
pub proof fn lemma_assoc_canonical<V>(s1: Seq<(Seq<char>, V)>, s2: Seq<(Seq<char>, V)>)
    requires
        assoc_sorted(s1),
        assoc_sorted(s2),
        assoc_to_map(s1) == assoc_to_map(s2),
    ensures
        s1 == s2,
    decreases s1.len(),
{
    lemma_assoc_dom(s1);
    lemma_assoc_dom(s2);
    lemma_assoc_sorted_distinct(s1);
    lemma_assoc_sorted_distinct(s2);
    if s1.len() == 0 && s2.len() == 0 {
        assert(s1 =~= s2);
    } else if s1.len() == 0 {
        assert(s2[s2.len() - 1].0 == s2.last().0);
        assert(assoc_has_key(s2, s2.last().0));
        assert(assoc_to_map(s2).dom().contains(s2.last().0));
        assert(!assoc_to_map(s1).dom().contains(s2.last().0));
        assert(false);
    } else if s2.len() == 0 {
        assert(s1[s1.len() - 1].0 == s1.last().0);
        assert(assoc_has_key(s1, s1.last().0));
        assert(assoc_to_map(s1).dom().contains(s1.last().0));
        assert(!assoc_to_map(s2).dom().contains(s1.last().0));
        assert(false);
    } else {
        let k1 = s1.last().0;
        let k2 = s2.last().0;
        assert(s1[s1.len() - 1].0 == k1);
        assert(s2[s2.len() - 1].0 == k2);
        assert(assoc_has_key(s1, k1));
        assert(assoc_has_key(s2, k2));
        // The last key of each side is the maximum of the shared domain, so
        // the two last keys coincide.
        assert(k1 == k2) by {
            if k1 != k2 {
                assert(assoc_to_map(s1).dom().contains(k1));
                assert(assoc_to_map(s2).dom().contains(k2));
                assert(assoc_to_map(s2).dom().contains(k1));
                assert(assoc_to_map(s1).dom().contains(k2));
                assert(assoc_has_key(s2, k1));
                assert(assoc_has_key(s1, k2));
                let i2 = choose|i: int| 0 <= i < s2.len() && s2[i].0 == k1;
                assert(i2 < s2.len() - 1);
                assert(lex_lt(s2[i2].0, s2[s2.len() - 1].0));
                assert(lex_lt(k1, k2));
                let i1 = choose|i: int| 0 <= i < s1.len() && s1[i].0 == k2;
                assert(i1 < s1.len() - 1);
                assert(lex_lt(s1[i1].0, s1[s1.len() - 1].0));
                assert(lex_lt(k2, k1));
                lemma_lex_transitive(k1, k2, k1);
                lemma_lex_irreflexive(k1);
            }
        }
        lemma_assoc_get(s1, s1.len() - 1);
        lemma_assoc_get(s2, s2.len() - 1);
        assert(s1.last() == s2.last());
        // The denoted map of the prefix is the whole map without the last key.
        assert(!assoc_has_key(s1.drop_last(), k1)) by {
            if assoc_has_key(s1.drop_last(), k1) {
                let i = choose|i: int| 0 <= i < s1.drop_last().len() && s1.drop_last()[i].0 == k1;
                assert(s1[i].0 == k1);
                lemma_lex_irreflexive(k1);
            }
        }
        assert(!assoc_has_key(s2.drop_last(), k2)) by {
            if assoc_has_key(s2.drop_last(), k2) {
                let i = choose|i: int| 0 <= i < s2.drop_last().len() && s2.drop_last()[i].0 == k2;
                assert(s2[i].0 == k2);
                lemma_lex_irreflexive(k2);
            }
        }
        lemma_assoc_dom(s1.drop_last());
        lemma_assoc_dom(s2.drop_last());
        assert(assoc_to_map(s1.drop_last()) =~= assoc_to_map(s1).remove(k1));
        assert(assoc_to_map(s2.drop_last()) =~= assoc_to_map(s2).remove(k2));
        lemma_assoc_canonical(s1.drop_last(), s2.drop_last());
        assert(s1 =~= s1.drop_last().push(s1.last()));
        assert(s2 =~= s2.drop_last().push(s2.last()));
    }
}

// ---------------------------------------------------------------------------
// Occurrence counts: association sequences with positive integer values.
// ---------------------------------------------------------------------------
/// The view of one stored entry.
pub open spec fn entry_view(p: (String, usize)) -> (Seq<char>, int) {
    (p.0@, p.1 as int)
}

/// The view of a stored count vector.
pub open spec fn counts_view(v: Seq<(String, usize)>) -> Seq<(Seq<char>, int)> {
    v.map(|i: int, p: (String, usize)| entry_view(p))
}

/// Sum of all counts.
pub open spec fn total_of(s: Seq<(Seq<char>, int)>) -> int
    decreases s.len(),
{
    if s.len() == 0 {
        0
    } else {
        total_of(s.drop_last()) + s.last().1
    }
}

pub open spec fn counts_positive(s: Seq<(Seq<char>, int)>) -> bool {
    forall|i: int| 0 <= i < s.len() ==> #[trigger] s[i].1 >= 1
}

/// The map after counting one more occurrence of `k`.
pub open spec fn bump_map(m: Map<Seq<char>, int>, k: Seq<char>) -> Map<Seq<char>, int> {
    m.insert(
        k,
        if m.dom().contains(k) {
            m[k] + 1
        } else {
            1
        },
    )
}

pub proof fn lemma_total_insert(s: Seq<(Seq<char>, int)>, pos: int, k: Seq<char>, v: int)
    requires
        0 <= pos <= s.len(),
    ensures
        total_of(s.insert(pos, (k, v))) == total_of(s) + v,
    decreases s.len(),
{
    let n = s.insert(pos, (k, v));
    if pos == s.len() {
        assert(n.drop_last() =~= s);
    } else {
        assert(n.last() == s.last());
        assert(n.drop_last() =~= s.drop_last().insert(pos, (k, v)));
        lemma_total_insert(s.drop_last(), pos, k, v);
    }
}

pub proof fn lemma_total_update(s: Seq<(Seq<char>, int)>, pos: int, v: int)
    requires
        0 <= pos < s.len(),
    ensures
        total_of(s.update(pos, (s[pos].0, v))) == total_of(s) - s[pos].1 + v,
    decreases s.len(),
{
    let n = s.update(pos, (s[pos].0, v));
    if pos == s.len() - 1 {
        assert(n.drop_last() =~= s.drop_last());
        assert(n.last() == (s[pos].0, v));
    } else {
        assert(n.last() == s.last());
        assert(n.drop_last() =~= s.drop_last().update(pos, (s[pos].0, v)));
        assert(s.drop_last()[pos] == s[pos]);
        lemma_total_update(s.drop_last(), pos, v);
    }
}

/// Every count is at most the sum of all counts, when all are nonnegative.
pub proof fn lemma_count_le_total(s: Seq<(Seq<char>, int)>, i: int)
    requires
        counts_positive(s),
        0 <= i < s.len(),
    ensures
        s[i].1 <= total_of(s),
        total_of(s) >= 0,
    decreases s.len(),
{
    assert(counts_positive(s.drop_last())) by {
        assert(forall|j: int| 0 <= j < s.drop_last().len() ==> s.drop_last()[j] == s[j]);
    }
    lemma_total_nonneg(s.drop_last());
    if i == s.len() - 1 {
    } else {
        assert(s.drop_last()[i] == s[i]);
        lemma_count_le_total(s.drop_last(), i);
        assert(s.last().1 >= 1) by {
            assert(s[s.len() - 1].1 >= 1);
        }
    }
}

/// With nonnegative counts, a longer prefix never sums to less.
pub proof fn lemma_total_prefix_grows(s: Seq<(Seq<char>, int)>, i: int)
    requires
        forall|j: int| 0 <= j < s.len() ==> #[trigger] s[j].1 >= 0,
        0 <= i <= s.len(),
    ensures
        total_of(s.take(i)) <= total_of(s),
    decreases s.len() - i,
{
    if i == s.len() {
        assert(s.take(i) =~= s);
    } else {
        assert(s.take(i + 1).drop_last() =~= s.take(i));
        assert(s.take(i + 1).last() == s[i]);
        lemma_total_prefix_grows(s, i + 1);
    }
}

/// A prefix of the counts never sums to more than the whole.
pub proof fn lemma_total_prefix(s: Seq<(Seq<char>, int)>, i: int)
    requires
        counts_positive(s),
        0 <= i <= s.len(),
    ensures
        0 <= total_of(s.take(i)) <= total_of(s),
    decreases s.len() - i,
{
    if i == s.len() {
        assert(s.take(i) =~= s);
        lemma_total_nonneg(s);
        assert(counts_positive(s.take(i))) by {
            assert(forall|j: int| 0 <= j < s.take(i).len() ==> s.take(i)[j] == s[j]);
        }
        lemma_total_nonneg(s.take(i));
    } else {
        assert(s.take(i + 1).drop_last() =~= s.take(i));
        assert(s.take(i + 1).last() == s[i]);
        lemma_total_prefix(s, i + 1);
        assert(s[i].1 >= 1);
        assert(counts_positive(s.take(i))) by {
            assert(forall|j: int| 0 <= j < s.take(i).len() ==> s.take(i)[j] == s[j]);
        }
        lemma_total_nonneg(s.take(i));
    }
}

pub proof fn lemma_total_nonneg(s: Seq<(Seq<char>, int)>)
    requires
        counts_positive(s),
    ensures
        total_of(s) >= 0,
    decreases s.len(),
{
    if s.len() > 0 {
        assert(counts_positive(s.drop_last())) by {
            assert(forall|j: int|
                0 <= j < s.drop_last().len() ==> s.drop_last()[j] == s[j]);
        }
        lemma_total_nonneg(s.drop_last());
        assert(s.last().1 >= 1) by {
            assert(s[s.len() - 1].1 >= 1);
        }
    }
}

} // verus!
