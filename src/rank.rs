//! Ordering a frequency table: highest count first, ties in lexicographic order.

use vstd::prelude::*;
use vstd::multiset::Multiset;
use vstd::seq_lib::{to_multiset_build, to_multiset_contains, to_multiset_remove};
use crate::frequency::{count_tokens, has_key, lemma_occurrences_count, is_frequency_table, keys_distinct, lemma_total_permutation, occurrences, texts, total};
use crate::text::{
    chars_of, lemma_lex_asymmetric, lemma_lex_irreflexive, lemma_lex_total, lemma_lex_transitive,
    lex_less, lex_lt,
};

verus! {

/// `a` ranks before `b`: a higher count, or the same count and an earlier text.
pub open spec fn ranks_before(a: (String, u64), b: (String, u64)) -> bool {
    a.1 > b.1 || (a.1 == b.1 && lex_lt(a.0@, b.0@))
}

/// Every entry ranks before all that follow it.
pub open spec fn is_ranked(r: Seq<(String, u64)>) -> bool {
    forall|i: int, j: int| 0 <= i < j < r.len() ==> ranks_before(#[trigger] r[i], #[trigger] r[j])
}

/// The first `min(k, ranked.len())` entries.
pub open spec fn top(ranked: Seq<(String, u64)>, k: int) -> Seq<(String, u64)> {
    ranked.take(if k <= ranked.len() { k } else { ranked.len() as int })
}

proof fn lemma_before_transitive(a: (String, u64), b: (String, u64), c: (String, u64))
    requires
        ranks_before(a, b),
        ranks_before(b, c),
    ensures
        ranks_before(a, c),
{
    if a.1 == b.1 && b.1 == c.1 {
        lemma_lex_transitive(a.0@, b.0@, c.0@);
    }
}

proof fn lemma_before_total(a: (String, u64), b: (String, u64))
    requires
        a.0@ != b.0@,
    ensures
        ranks_before(a, b) || ranks_before(b, a),
{
    lemma_lex_total(a.0@, b.0@);
}

proof fn lemma_before_asymmetric(a: (String, u64), b: (String, u64))
    requires
        ranks_before(a, b),
    ensures
        !ranks_before(b, a),
{
    if a.1 == b.1 {
        lemma_lex_asymmetric(a.0@, b.0@);
    }
}

fn ranks_before_exec(a: &(String, u64), ak: &Vec<char>, b: &(String, u64), bk: &Vec<char>) -> (r: bool)
    requires
        ak@ == a.0@,
        bk@ == b.0@,
    ensures
        r == ranks_before(*a, *b),
{
    a.1 > b.1 || (a.1 == b.1 && lex_less(ak, bk))
}

/// The entries of `table` in rank order: count descending, then text ascending.
pub fn rank(table: &Vec<(String, u64)>) -> (r: Vec<(String, u64)>)
    requires
        keys_distinct(table@),
    ensures
        r@.to_multiset() == table@.to_multiset(),
        is_ranked(r@),
        forall|i: int, j: int| 0 <= i < j < r@.len() ==> r@[i].1 >= r@[j].1,
{
    broadcast use vstd::seq_lib::group_to_multiset_ensures, vstd::multiset::group_multiset_axioms;

    let mut rem: Vec<(String, u64)> = Vec::new();
    let mut keys: Vec<Vec<char>> = Vec::new();
    for i in 0..table.len()
        invariant
            rem@ == table@.take(i as int),
            keys@.len() == i,
            forall|j: int| 0 <= j < i ==> (#[trigger] keys@[j])@ == rem@[j].0@,
    {
        let e = (table[i].0.clone(), table[i].1);
        assert(e == table@[i as int]);
        keys.push(chars_of(table[i].0.as_str()));
        rem.push(e);
        assert(rem@ =~= table@.take(i + 1));
    }
    assert(rem@ =~= table@);
    let mut out: Vec<(String, u64)> = Vec::new();
    while rem.len() > 0
        invariant
            out@.to_multiset().add(rem@.to_multiset()) == table@.to_multiset(),
            keys@.len() == rem@.len(),
            forall|j: int| 0 <= j < rem@.len() ==> (#[trigger] keys@[j])@ == rem@[j].0@,
            keys_distinct(rem@),
            is_ranked(out@),
            forall|i: int, j: int| 0 <= i < out@.len() && 0 <= j < rem@.len()
                ==> ranks_before(#[trigger] out@[i], #[trigger] rem@[j]),
        decreases rem@.len(),
    {
        let mut best: usize = 0;
        for j in 1..rem.len()
            invariant
                best < j <= rem@.len(),
                keys@.len() == rem@.len(),
                forall|j: int| 0 <= j < rem@.len() ==> (#[trigger] keys@[j])@ == rem@[j].0@,
                keys_distinct(rem@),
                forall|i: int| 0 <= i < j && i != best ==> ranks_before(rem@[best as int], #[trigger] rem@[i]),
        {
            if ranks_before_exec(&rem[j], &keys[j], &rem[best], &keys[best]) {
                proof {
                    assert forall|i: int| 0 <= i < j + 1 && i != j implies ranks_before(rem@[j as int], #[trigger] rem@[i]) by {
                        if i != best {
                            lemma_before_transitive(rem@[j as int], rem@[best as int], rem@[i]);
                        }
                    }
                }
                best = j;
            } else {
                proof {
                    lemma_before_total(rem@[j as int], rem@[best as int]);
                }
            }
        }
        let ghost old_rem = rem@;
        let ghost old_out = out@;
        let e = rem.remove(best);
        keys.remove(best);
        out.push(e);
        proof {
            to_multiset_build(old_out, e);
            to_multiset_remove(old_rem, best as int);
            assert(out@ == old_out.push(e));
            assert(rem@ == old_rem.remove(best as int));
            assert(old_rem[best as int] == e);
            to_multiset_contains(old_rem, e);
            assert(old_rem.to_multiset().count(e) > 0);
            assert(out@.to_multiset().add(rem@.to_multiset()) =~= table@.to_multiset());
            assert forall|i: int, j: int| 0 <= i < j < out@.len() implies ranks_before(#[trigger] out@[i], #[trigger] out@[j]) by {
                if j == out@.len() - 1 {
                    assert(out@[j] == old_rem[best as int]);
                }
            }
            assert forall|i: int, j: int| 0 <= i < out@.len() && 0 <= j < rem@.len()
                implies ranks_before(#[trigger] out@[i], #[trigger] rem@[j]) by {
                let k = if j < best { j } else { j + 1 };
                assert(rem@[j] == old_rem[k]);
                if i == out@.len() - 1 {
                    assert(k != best);
                }
            }
        }
    }
    assert(rem@.to_multiset() =~= Multiset::<(String, u64)>::empty());
    assert(out@.to_multiset() =~= table@.to_multiset());
    out
}

/// The first `k` entries of a ranking, or all of them when there are fewer.
pub fn top_k(ranked: &Vec<(String, u64)>, k: usize) -> (r: Vec<(String, u64)>)
    ensures
        r@ == top(ranked@, k as int),
{
    let n = if k <= ranked.len() { k } else { ranked.len() };
    let mut out: Vec<(String, u64)> = Vec::new();
    for i in 0..n
        invariant
            n <= ranked@.len(),
            out@ == ranked@.take(i as int),
    {
        out.push((ranked[i].0.clone(), ranked[i].1));
        assert(out@ =~= ranked@.take(i + 1));
    }
    out
}

/// A ranking's top `k` entries are its highest-count ones: none left out has a
/// higher count than one kept.
pub proof fn lemma_top_k_highest(ranked: Seq<(String, u64)>, k: int)
    requires
        is_ranked(ranked),
        k >= 0,
    ensures
        top(ranked, k).len() == if k <= ranked.len() { k } else { ranked.len() as int },
        forall|i: int, j: int| 0 <= i < top(ranked, k).len() <= j < ranked.len()
            ==> (#[trigger] top(ranked, k)[i]).1 >= (#[trigger] ranked[j]).1,
{
    assert forall|i: int, j: int| 0 <= i < top(ranked, k).len() <= j < ranked.len()
        implies (#[trigger] top(ranked, k)[i]).1 >= (#[trigger] ranked[j]).1 by {
        assert(ranks_before(ranked[i], ranked[j]));
    }
}

/// The ranking of a token sequence: its frequency table in rank order.
pub fn rank_tokens(tokens: &Vec<String>) -> (r: Vec<(String, u64)>)
    ensures
        is_frequency_table(r@, texts(tokens@)),
        is_ranked(r@),
        total(r@) == tokens@.len(),
{
    broadcast use vstd::seq_lib::group_to_multiset_ensures;

    let table = count_tokens(tokens);
    let r = rank(&table);
    proof {
        let toks = texts(tokens@);
        assert forall|i: int| 0 <= i < r@.len() implies r@[i].1 == occurrences(toks, #[trigger] r@[i].0@)
            && r@[i].1 > 0 by {
            assert(r@.to_multiset().count(r@[i]) > 0);
            assert(table@.contains(r@[i]));
            let a = choose|a: int| 0 <= a < table@.len() && table@[a] == r@[i];
            assert(table@[a].0@ == r@[i].0@);
        }
        assert forall|i: int, j: int| 0 <= i < r@.len() && 0 <= j < r@.len() && i != j
            implies r@[i].0@ != r@[j].0@ by {
            if r@[i].0@ == r@[j].0@ {
                lemma_lex_irreflexive(r@[i].0@);
                if i < j {
                    assert(ranks_before(r@[i], r@[j]));
                } else {
                    assert(ranks_before(r@[j], r@[i]));
                }
            }
        }
        assert forall|k: int| 0 <= k < toks.len() implies has_key(r@, #[trigger] toks[k]) by {
            let a = choose|a: int| 0 <= a < table@.len() && #[trigger] table@[a].0@ == toks[k];
            assert(table@.to_multiset().count(table@[a]) > 0);
            assert(r@.contains(table@[a]));
            let i = choose|i: int| 0 <= i < r@.len() && r@[i] == table@[a];
            assert(r@[i].0@ == toks[k]);
        }
        lemma_total_permutation(table@, r@);
    }
    r
}

/// `a` and `b` agree on text and count.
pub open spec fn same_entry(a: (String, u64), b: (String, u64)) -> bool {
    a.0@ == b.0@ && a.1 == b.1
}

proof fn lemma_rankings_agree(a: Seq<(String, u64)>, b: Seq<(String, u64)>)
    requires
        keys_distinct(a),
        keys_distinct(b),
        is_ranked(a),
        is_ranked(b),
        forall|i: int| 0 <= i < a.len() ==> has_key(b, (#[trigger] a[i]).0@),
        forall|j: int| 0 <= j < b.len() ==> has_key(a, (#[trigger] b[j]).0@),
        forall|i: int, j: int| 0 <= i < a.len() && 0 <= j < b.len() && (#[trigger] a[i]).0@ == (#[trigger] b[j]).0@
            ==> a[i].1 == b[j].1,
    ensures
        a.len() == b.len(),
        forall|i: int| 0 <= i < a.len() ==> same_entry(#[trigger] a[i], b[i]),
    decreases a.len(),
{
    if a.len() == 0 {
        if b.len() > 0 {
            assert(has_key(a, b[0].0@));
        }
    } else if b.len() == 0 {
        assert(has_key(b, a[0].0@));
    } else {
        assert(has_key(b, a[0].0@));
        assert(has_key(a, b[0].0@));
        let j = choose|j: int| 0 <= j < b.len() && #[trigger] b[j].0@ == a[0].0@;
        let i = choose|i: int| 0 <= i < a.len() && #[trigger] a[i].0@ == b[0].0@;
        if j != 0 {
            if i != 0 {
                assert(ranks_before(b[0], b[j]));
                assert(ranks_before(a[0], a[i]));
                lemma_before_asymmetric(a[0], b[0]);
            }
        }
        let ra = a.drop_first();
        let rb = b.drop_first();
        assert forall|x: int| 0 <= x < ra.len() implies has_key(rb, (#[trigger] ra[x]).0@) by {
            assert(a[x + 1] == ra[x]);
            assert(has_key(b, a[x + 1].0@));
            let m = choose|m: int| 0 <= m < b.len() && #[trigger] b[m].0@ == a[x + 1].0@;
            assert(m != 0);
            assert(rb[m - 1] == b[m]);
        }
        assert forall|y: int| 0 <= y < rb.len() implies has_key(ra, (#[trigger] rb[y]).0@) by {
            assert(b[y + 1] == rb[y]);
            assert(has_key(a, b[y + 1].0@));
            let m = choose|m: int| 0 <= m < a.len() && #[trigger] a[m].0@ == b[y + 1].0@;
            assert(m != 0);
            assert(ra[m - 1] == a[m]);
        }
        assert forall|x: int, y: int| 0 <= x < ra.len() && 0 <= y < rb.len() && (#[trigger] ra[x]).0@ == (#[trigger] rb[y]).0@
            implies ra[x].1 == rb[y].1 by {
            assert(ra[x] == a[x + 1] && rb[y] == b[y + 1]);
        }
        lemma_rankings_agree(ra, rb);
        assert forall|x: int| 0 <= x < a.len() implies same_entry(#[trigger] a[x], b[x]) by {
            if x > 0 {
                assert(same_entry(ra[x - 1], rb[x - 1]));
            }
        }
    }
}

/// A run is reproducible: token sequences that hold the same tokens with the same
/// multiplicities, in whatever order the workers delivered them, have rankings that
/// agree entry by entry on text and count.
pub proof fn lemma_ranking_deterministic(
    t1: Seq<Seq<char>>,
    t2: Seq<Seq<char>>,
    a: Seq<(String, u64)>,
    b: Seq<(String, u64)>,
)
    requires
        t1.to_multiset() == t2.to_multiset(),
        is_frequency_table(a, t1),
        is_ranked(a),
        is_frequency_table(b, t2),
        is_ranked(b),
    ensures
        a.len() == b.len(),
        forall|i: int| 0 <= i < a.len() ==> same_entry(#[trigger] a[i], b[i]),
{
    broadcast use vstd::seq_lib::group_to_multiset_ensures;

    assert forall|i: int| 0 <= i < a.len() implies has_key(b, (#[trigger] a[i]).0@) by {
        let w = a[i].0@;
        lemma_occurrences_count(t1, w);
        assert(t1.contains(w));
        let k = choose|k: int| 0 <= k < t2.len() && t2[k] == w;
        assert(t2[k] == w);
    }
    assert forall|j: int| 0 <= j < b.len() implies has_key(a, (#[trigger] b[j]).0@) by {
        let w = b[j].0@;
        lemma_occurrences_count(t2, w);
        assert(t2.contains(w));
        let k = choose|k: int| 0 <= k < t1.len() && t1[k] == w;
        assert(t1[k] == w);
    }
    assert forall|i: int, j: int| 0 <= i < a.len() && 0 <= j < b.len() && (#[trigger] a[i]).0@ == (#[trigger] b[j]).0@
        implies a[i].1 == b[j].1 by {
        lemma_occurrences_count(t1, a[i].0@);
        lemma_occurrences_count(t2, a[i].0@);
    }
    lemma_rankings_agree(a, b);
}

} // verus!
