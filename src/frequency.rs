//! Counting how often each distinct token occurs.

use vstd::prelude::*;
use vstd::multiset::Multiset;

verus! {

/// The texts of a token sequence.
pub open spec fn texts(tokens: Seq<String>) -> Seq<Seq<char>> {
    tokens.map_values(|t: String| t@)
}

/// How many elements of `s` equal `w`.
pub open spec fn occurrences(s: Seq<Seq<char>>, w: Seq<char>) -> nat
    decreases s.len(),
{
    if s.len() == 0 {
        0
    } else {
        occurrences(s.drop_last(), w) + if s.last() == w { 1nat } else { 0nat }
    }
}

/// The sum of the counts of a table.
pub open spec fn total(entries: Seq<(String, u64)>) -> nat
    decreases entries.len(),
{
    if entries.len() == 0 {
        0
    } else {
        total(entries.drop_last()) + entries.last().1 as nat
    }
}

/// No text stands in two entries.
pub open spec fn keys_distinct(entries: Seq<(String, u64)>) -> bool {
    forall|i: int, j: int|
        0 <= i < entries.len() && 0 <= j < entries.len() && i != j
            ==> entries[i].0@ != entries[j].0@
}

/// Some entry of `entries` has the text `w`.
pub open spec fn has_key(entries: Seq<(String, u64)>, w: Seq<char>) -> bool {
    exists|i: int| 0 <= i < entries.len() && #[trigger] entries[i].0@ == w
}

/// Some element of `names` has the text `w`.
pub open spec fn has_name(names: Seq<String>, w: Seq<char>) -> bool {
    exists|i: int| 0 <= i < names.len() && #[trigger] names[i]@ == w
}

/// `entries` is the frequency table of `tokens`: one entry per distinct text, which
/// counts its occurrences, and one entry for every text that occurs.
pub open spec fn is_frequency_table(entries: Seq<(String, u64)>, tokens: Seq<Seq<char>>) -> bool {
    &&& keys_distinct(entries)
    &&& forall|i: int| 0 <= i < entries.len()
        ==> entries[i].1 == occurrences(tokens, #[trigger] entries[i].0@) && entries[i].1 > 0
    &&& forall|k: int| 0 <= k < tokens.len() ==> has_key(entries, #[trigger] tokens[k])
}

proof fn lemma_occurrences_absent(s: Seq<Seq<char>>, w: Seq<char>)
    requires
        forall|k: int| 0 <= k < s.len() ==> s[k] != w,
    ensures
        occurrences(s, w) == 0,
    decreases s.len(),
{
    if s.len() > 0 {
        lemma_occurrences_absent(s.drop_last(), w);
    }
}

proof fn lemma_occurrences_bound(s: Seq<Seq<char>>, w: Seq<char>)
    ensures
        occurrences(s, w) <= s.len(),
    decreases s.len(),
{
    if s.len() > 0 {
        lemma_occurrences_bound(s.drop_last(), w);
    }
}

/// The occurrences of `w` are its multiplicity in `s`.
pub proof fn lemma_occurrences_count(s: Seq<Seq<char>>, w: Seq<char>)
    ensures
        occurrences(s, w) == s.to_multiset().count(w),
    decreases s.len(),
{
    broadcast use vstd::seq_lib::group_to_multiset_ensures, vstd::multiset::group_multiset_axioms;

    if s.len() == 0 {
        assert(s.to_multiset().len() == 0);
        assert(s.to_multiset() =~= Multiset::<Seq<char>>::empty());
    } else {
        lemma_occurrences_count(s.drop_last(), w);
        assert(s =~= s.drop_last().push(s.last()));
    }
}

proof fn lemma_total_counts(counts: Seq<u64>, names: Seq<String>, i: int, c: u64)
    requires
        counts.len() == names.len(),
        0 <= i < counts.len(),
        c == counts[i] + 1,
    ensures
        total(Seq::new(names.len(), |j: int| (names[j], counts.update(i, c)[j])))
            == total(Seq::new(names.len(), |j: int| (names[j], counts[j]))) + 1,
    decreases names.len(),
{
    let a = Seq::new(names.len(), |j: int| (names[j], counts.update(i, c)[j]));
    let b = Seq::new(names.len(), |j: int| (names[j], counts[j]));
    let n = names.len() - 1;
    if i < n {
        lemma_total_counts(counts.drop_last(), names.drop_last(), i, c);
        assert(a.drop_last() =~= Seq::new(names.drop_last().len(), |j: int| (names.drop_last()[j], counts.drop_last().update(i, c)[j])));
        assert(b.drop_last() =~= Seq::new(names.drop_last().len(), |j: int| (names.drop_last()[j], counts.drop_last()[j])));
    } else {
        assert(a.drop_last() =~= b.drop_last());
    }
}

/// Rearranging a table keeps its total.
pub proof fn lemma_total_permutation(a: Seq<(String, u64)>, b: Seq<(String, u64)>)
    requires
        a.to_multiset() == b.to_multiset(),
    ensures
        total(a) == total(b),
    decreases a.len(),
{
    broadcast use vstd::seq_lib::group_to_multiset_ensures;

    assert(a.to_multiset().len() == a.len());
    assert(b.to_multiset().len() == b.len());
    if a.len() == 0 {
        assert(b.len() == 0);
    } else {
        let x = a.last();
        assert(a =~= a.drop_last().push(x));
        assert(b.to_multiset().count(x) > 0);
        assert(b.contains(x));
        let j = choose|j: int| 0 <= j < b.len() && b[j] == x;
        assert(a.drop_last().to_multiset() =~= b.remove(j).to_multiset());
        lemma_total_permutation(a.drop_last(), b.remove(j));
        lemma_total_remove(b, j);
    }
}

proof fn lemma_total_remove(b: Seq<(String, u64)>, j: int)
    requires
        0 <= j < b.len(),
    ensures
        total(b) == total(b.remove(j)) + b[j].1,
    decreases b.len(),
{
    if j < b.len() - 1 {
        lemma_total_remove(b.drop_last(), j);
        assert(b.remove(j).drop_last() =~= b.drop_last().remove(j));
        assert(b.remove(j).last() == b.last());
    } else {
        assert(b.remove(j) =~= b.drop_last());
    }
}

/// Finds the entry whose text is `t`.
fn find_name(names: &Vec<String>, t: &String) -> (r: Option<usize>)
    ensures
        r is Some ==> r->0 < names@.len() && names@[r->0 as int]@ == t@,
        r is None ==> forall|i: int| 0 <= i < names@.len() ==> names@[i]@ != t@,
{
    for i in 0..names.len()
        invariant
            forall|j: int| 0 <= j < i ==> names@[j]@ != t@,
    {
        if names[i] == *t {
            return Some(i);
        }
    }
    None
}

/// The frequency table of `tokens`: each distinct text with its number of occurrences.
/// The counts add up to the number of tokens.
pub fn count_tokens(tokens: &Vec<String>) -> (r: Vec<(String, u64)>)
    ensures
        is_frequency_table(r@, texts(tokens@)),
        total(r@) == tokens@.len(),
{
    let mut names: Vec<String> = Vec::new();
    let mut counts: Vec<u64> = Vec::new();
    let ghost all = texts(tokens@);
    for k in 0..tokens.len()
        invariant
            all == texts(tokens@),
            names@.len() == counts@.len(),
            forall|i: int, j: int|
                0 <= i < names@.len() && 0 <= j < names@.len() && i != j
                    ==> names@[i]@ != names@[j]@,
            forall|i: int| 0 <= i < names@.len()
                ==> counts@[i] == occurrences(all.take(k as int), #[trigger] names@[i]@),
            forall|i: int| 0 <= i < counts@.len() ==> #[trigger] counts@[i] > 0,
            forall|m: int| 0 <= m < k ==> has_name(names@, #[trigger] all[m]),
            total(Seq::new(names@.len(), |j: int| (names@[j], counts@[j]))) == k,
    {
        let t = &tokens[k];
        let ghost prefix = all.take(k as int);
        assert(all.take(k + 1).drop_last() =~= prefix);
        assert(all.take(k + 1).last() == t@);
        match find_name(&names, t) {
            Some(i) => {
                proof {
                    lemma_occurrences_bound(prefix, names@[i as int]@);
                }
                let c = counts[i] + 1;
                let ghost before_counts = counts@;
                proof {
                    lemma_total_counts(counts@, names@, i as int, c);
                }
                counts.set(i, c);
                assert(counts@ == before_counts.update(i as int, c));
                proof {
                    assert forall|m: int| 0 <= m < k + 1 implies has_name(names@, #[trigger] all[m]) by {
                        if m == k {
                            assert(names@[i as int]@ == all[m]);
                        }
                    }
                }
            },
            None => {
                let ghost before = names@;
                let ghost before_counts = counts@;
                proof {
                    assert forall|m: int| 0 <= m < prefix.len() implies prefix[m] != t@ by {
                        assert(has_name(names@, all[m]));
                    }
                    lemma_occurrences_absent(prefix, t@);
                }
                names.push(t.clone());
                counts.push(1);
                proof {
                    let old_len = names@.len() - 1;
                    let e = Seq::new(names@.len(), |j: int| (names@[j], counts@[j]));
                    assert(e.drop_last() =~= Seq::new(before.len(), |j: int| (before[j], before_counts[j])));
                    assert(e.last().1 == 1);
                    assert forall|m: int| 0 <= m < k + 1 implies has_name(names@, #[trigger] all[m]) by {
                        if m == k {
                            assert(names@[old_len as int]@ == all[m]);
                        } else {
                            assert(has_name(before, all[m]));
                            let j = choose|j: int| 0 <= j < before.len() && #[trigger] before[j]@ == all[m];
                            assert(names@[j] == before[j]);
                        }
                    }
                }
            },
        }
    }
    assert(all.take(tokens@.len() as int) =~= all);
    let mut entries: Vec<(String, u64)> = Vec::new();
    for i in 0..names.len()
        invariant
            names@.len() == counts@.len(),
            entries@ == Seq::new(i as nat, |j: int| (names@[j], counts@[j])),
    {
        entries.push((names[i].clone(), counts[i]));
        assert(entries@ =~= Seq::new((i + 1) as nat, |j: int| (names@[j], counts@[j])));
    }
    assert(entries@ =~= Seq::new(names@.len(), |j: int| (names@[j], counts@[j])));
    assert forall|m: int| 0 <= m < all.len() implies has_key(entries@, #[trigger] all[m]) by {
        assert(has_name(names@, all[m]));
        let j = choose|j: int| 0 <= j < names@.len() && #[trigger] names@[j]@ == all[m];
        assert(entries@[j].0@ == all[m]);
    }
    entries
}

} // verus!
