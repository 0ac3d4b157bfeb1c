//! Properties that relate the index, its queries and repeated calls.
use vstd::prelude::*;
use vstd::seq_lib::seq_to_set_is_finite;
use vstd::set_lib::{lemma_int_range, lemma_subset_equality, set_int_range};

use crate::bm25::{
    is_rank_order, lemma_contribution_fits, lemma_contribution_signs, ranks_before, weight_den, weight_num, Candidate,
};
use crate::index::{distinct_count, fresh_at, Coverage, Document, Index};

verus! {

/// Document `d` holds some term of `q`.
pub open spec fn holds_query_term(idx: &Index, q: Seq<Seq<char>>, d: int) -> bool {
    exists|k: int| 0 <= k < q.len() && idx.freq(q[k], d) > 0
}

/// A document matches a query exactly where it holds one of its terms.
pub proof fn lemma_matched_positive(idx: &Index, q: Seq<Seq<char>>, d: int)
    ensures
        idx.matched(q, d) > 0 <==> exists|k: int| 0 <= k < q.len() && idx.freq(q[k], d) > 0,
    decreases q.len(),
{
    if q.len() > 0 {
        let p = q.drop_last();
        let last = q.len() - 1;
        lemma_matched_positive(idx, p, d);
        if idx.matched(q, d) > 0 {
            if idx.matched(p, d) > 0 {
                let k = choose|k: int| 0 <= k < p.len() && idx.freq(p[k], d) > 0;
                assert(q[k] == p[k]);
            } else {
                assert(idx.freq(q[last], d) > 0);
            }
        }
        if exists|k: int| 0 <= k < q.len() && idx.freq(q[k], d) > 0 {
            let k = choose|k: int| 0 <= k < q.len() && idx.freq(q[k], d) > 0;
            if k < last {
                assert(p[k] == q[k]);
            } else if !fresh_at(q, last) {
                let j = choose|j: int| 0 <= j < last && q[j] == q[last];
                assert(p[j] == q[j]);
            }
        }
    }
}

/// The entries of a coverage prefix: the documents below `n` that match,
/// each once, in increasing order, with their match counts.
pub proof fn lemma_coverage_upto(idx: &Index, q: Seq<Seq<char>>, n: nat)
    ensures
        forall|i: int|
            0 <= i < idx.coverage_upto(q, n).len() ==> {
                let e = #[trigger] idx.coverage_upto(q, n)[i];
                &&& 0 <= e.0 < n
                &&& e.1 == idx.matched(q, e.0)
                &&& e.1 > 0
            },
        forall|i: int, j: int|
            0 <= i < j < idx.coverage_upto(q, n).len() ==> idx.coverage_upto(q, n)[i].0
                < idx.coverage_upto(q, n)[j].0,
        forall|d: int|
            0 <= d < n && idx.matched(q, d) > 0 ==> exists|i: int|
                0 <= i < idx.coverage_upto(q, n).len() && idx.coverage_upto(q, n)[i].0 == d,
    decreases n,
{
    if n > 0 {
        let m = (n - 1) as nat;
        lemma_coverage_upto(idx, q, m);
        let prev = idx.coverage_upto(q, m);
        let cur = idx.coverage_upto(q, n);
        assert forall|d: int| 0 <= d < n && idx.matched(q, d) > 0 implies exists|i: int|
            0 <= i < cur.len() && cur[i].0 == d by {
            if d < m {
                let i = choose|i: int| 0 <= i < prev.len() && prev[i].0 == d;
                assert(cur[i] == prev[i]);
            } else {
                assert(cur[cur.len() - 1].0 == d);
            }
        }
    }
}

/// Coverage mode: every reported count lies between one and the number of
/// distinct query terms, each document is reported once, and a document is
/// reported exactly where it holds a query term.
pub proof fn lemma_coverage_counts(idx: &Index, q: Seq<Seq<char>>, r: Seq<Coverage>)
    requires
        idx.wf(),
        idx.is_coverage_report(q, r),
    ensures
        forall|i: int|
            0 <= i < r.len() ==> 1 <= (#[trigger] r[i]).matched <= r[i].total && r[i].total
                == distinct_count(q),
        forall|i: int, j: int| 0 <= i < j < r.len() ==> r[i].doc < r[j].doc,
        forall|d: int|
            0 <= d < idx.num_docs() ==> ((exists|i: int| 0 <= i < r.len() && r[i].doc == d)
                <==> #[trigger] holds_query_term(idx, q, d)),
{
    let c = idx.coverage_of(q);
    lemma_coverage_upto(idx, q, idx.num_docs());
    assert forall|i: int| 0 <= i < r.len() implies 1 <= (#[trigger] r[i]).matched
        <= r[i].total by {
        idx.lemma_matched_bound(q, c[i].0);
    }
    assert forall|i: int, j: int| 0 <= i < j < r.len() implies r[i].doc < r[j].doc by {
        assert(c[i].0 < c[j].0);
    }
    assert forall|d: int| 0 <= d < idx.num_docs() implies ((exists|i: int|
        0 <= i < r.len() && r[i].doc == d) <==> #[trigger] holds_query_term(idx, q, d)) by {
        lemma_matched_positive(idx, q, d);
        if exists|i: int| 0 <= i < r.len() && r[i].doc == d {
            let i = choose|i: int| 0 <= i < r.len() && r[i].doc == d;
            assert(c[i].0 == d);
        }
        if idx.matched(q, d) > 0 {
            let i = choose|i: int| 0 <= i < c.len() && c[i].0 == d;
            assert(r[i].doc == d);
        }
    }
}

/// Some term adds a positive weight to the candidate's score.
pub open spec fn has_positive_weight(c: Candidate) -> bool {
    exists|k: int| 0 <= k < c.contributions@.len() && c.contributions@[k].weight_num > 0
}

/// Ranked mode: every term's idf is the logarithm of a ratio of at least
/// one, so it is not negative; every weight has a positive denominator and
/// no negative numerator; and every candidate holds some query term, so it
/// has a positive weight.
pub proof fn lemma_candidate_scores(idx: &Index, q: Seq<Seq<char>>, r: Seq<Candidate>)
    requires
        idx.wf(),
        idx.is_candidate_list(q, r),
    ensures
        forall|i: int, k: int|
            0 <= i < r.len() && 0 <= k < q.len() ==> {
                let c = #[trigger] r[i].contributions@[k];
                &&& c.idf_num >= c.idf_den > 0
                &&& c.weight_den > 0
            },
        forall|i: int| 0 <= i < r.len() ==> has_positive_weight(#[trigger] r[i]),
{
    let cov = idx.coverage_of(q);
    lemma_coverage_upto(idx, q, idx.num_docs());
    assert forall|i: int, k: int| 0 <= i < r.len() && 0 <= k < q.len() implies {
        let c = #[trigger] r[i].contributions@[k];
        &&& c.idf_num >= c.idf_den > 0
        &&& c.weight_den > 0
    } by {
        let d = r[i].doc as int;
        idx.lemma_df_bounds(q[k]);
        idx.lemma_total_is_sum();
        idx.lemma_count_ranges(q[k], d);
        lemma_contribution_signs(
            idx.freq(q[k], d),
            idx.df(q[k]),
            idx.lengths()[d] as nat,
            idx.num_docs(),
            idx.tokens_total(),
        );
        lemma_contribution_fits(
            idx.freq(q[k], d),
            idx.df(q[k]),
            idx.lengths()[d] as nat,
            idx.num_docs(),
            idx.tokens_total(),
        );
    }
    assert forall|i: int| 0 <= i < r.len() implies has_positive_weight(#[trigger] r[i]) by {
        let d = r[i].doc as int;
        assert(cov[i].0 == d);
        lemma_matched_positive(idx, q, d);
        let k = choose|k: int| 0 <= k < q.len() && idx.freq(q[k], d) > 0;
        idx.lemma_df_bounds(q[k]);
        idx.lemma_total_is_sum();
        idx.lemma_count_ranges(q[k], d);
        lemma_contribution_signs(
            idx.freq(q[k], d),
            idx.df(q[k]),
            idx.lengths()[d] as nat,
            idx.num_docs(),
            idx.tokens_total(),
        );
        lemma_contribution_fits(
            idx.freq(q[k], d),
            idx.df(q[k]),
            idx.lengths()[d] as nat,
            idx.num_docs(),
            idx.tokens_total(),
        );
        assert(r[i].contributions@[k].weight_num > 0);
    }
}

/// Two indexes of one corpus agree on every statistic: identifiers,
/// lengths, total length, term counts and document frequencies.
pub proof fn lemma_build_deterministic(docs: Seq<Document>, a: &Index, b: &Index)
    requires
        a.indexes(docs),
        b.indexes(docs),
    ensures
        a.num_docs() == b.num_docs(),
        a.lengths() == b.lengths(),
        a.tokens_total() == b.tokens_total(),
        forall|d: int| 0 <= d < a.num_docs() ==> #[trigger] a.id_at(d) == b.id_at(d),
        forall|t: Seq<char>, d: int| #[trigger] a.freq(t, d) == b.freq(t, d),
        forall|t: Seq<char>| #[trigger] a.df(t) == b.df(t),
        forall|t: Seq<char>| #[trigger] a.has_term(t) == b.has_term(t),
{
    assert(a.lengths() =~= b.lengths()) by {
        assert forall|d: int| 0 <= d < a.lengths().len() implies a.lengths()[d]
            == b.lengths()[d] by {
            assert(a.lengths()[d] == docs[d].terms().len());
        }
    }
    assert forall|t: Seq<char>, d: int| #[trigger] a.freq(t, d) == b.freq(t, d) by {
        if 0 <= d < docs.len() {
        } else {
            if a.freq(t, d) > 0 {
                a.lemma_freq_in_corpus(t, d);
            }
            if b.freq(t, d) > 0 {
                b.lemma_freq_in_corpus(t, d);
            }
        }
    }
    assert forall|t: Seq<char>| #[trigger] a.df(t) == b.df(t) by {
        a.lemma_df_counts_holders(t);
        b.lemma_df_counts_holders(t);
        assert(a.holders(t) =~= b.holders(t));
    }
    assert forall|t: Seq<char>| #[trigger] a.has_term(t) == b.has_term(t) by {
        a.lemma_df_bounds(t);
        b.lemma_df_bounds(t);
    }
}

/// A coverage query is a function of the index and the query: two reports
/// of one query agree entry by entry.
pub proof fn lemma_coverage_deterministic(
    idx: &Index,
    q: Seq<Seq<char>>,
    r1: Seq<Coverage>,
    r2: Seq<Coverage>,
)
    requires
        idx.is_coverage_report(q, r1),
        idx.is_coverage_report(q, r2),
    ensures
        r1.len() == r2.len(),
        forall|i: int|
            0 <= i < r1.len() ==> {
                &&& (#[trigger] r1[i]).doc == r2[i].doc
                &&& r1[i].id@ == r2[i].id@
                &&& r1[i].matched == r2[i].matched
                &&& r1[i].total == r2[i].total
            },
{
}

/// The candidates of a ranked query are a function of the index and the
/// query: two lists of one query agree entry by entry.
pub proof fn lemma_candidates_deterministic(
    idx: &Index,
    q: Seq<Seq<char>>,
    r1: Seq<Candidate>,
    r2: Seq<Candidate>,
)
    requires
        idx.is_candidate_list(q, r1),
        idx.is_candidate_list(q, r2),
    ensures
        r1.len() == r2.len(),
        forall|i: int|
            0 <= i < r1.len() ==> {
                &&& (#[trigger] r1[i]).doc == r2[i].doc
                &&& r1[i].id@ == r2[i].id@
                &&& r1[i].contributions@ == r2[i].contributions@
            },
{
    assert forall|i: int| 0 <= i < r1.len() implies (#[trigger] r1[i]).contributions@
        == r2[i].contributions@ by {
        assert(r1[i].contributions@ =~= r2[i].contributions@);
    }
}

proof fn lemma_sorted_unique(keys: Seq<u64>, s1: Seq<usize>, s2: Seq<usize>)
    requires
        forall|a: int, b: int|
            0 <= a < b < s1.len() ==> ranks_before(keys, s1[a] as int, s1[b] as int),
        forall|a: int, b: int|
            0 <= a < b < s2.len() ==> ranks_before(keys, s2[a] as int, s2[b] as int),
        s1.to_set() == s2.to_set(),
        s1.len() == s2.len(),
    ensures
        s1 == s2,
    decreases s1.len(),
{
    if s1.len() > 0 {
        assert(s1.to_set().contains(s1[0]));
        assert(s2.to_set().contains(s2[0]));
        let j = choose|j: int| 0 <= j < s2.len() && s2[j] == s1[0];
        let i = choose|i: int| 0 <= i < s1.len() && s1[i] == s2[0];
        if j > 0 {
            assert(ranks_before(keys, s2[0] as int, s2[j] as int));
            if i > 0 {
                assert(ranks_before(keys, s1[0] as int, s1[i] as int));
            }
        }
        let t1 = s1.drop_first();
        let t2 = s2.drop_first();
        assert forall|x: usize| t1.to_set().contains(x) == t2.to_set().contains(x) by {
            if t1.to_set().contains(x) {
                let a = choose|a: int| 0 <= a < t1.len() && t1[a] == x;
                assert(ranks_before(keys, s1[0] as int, s1[a + 1] as int));
                assert(s1.to_set().contains(x));
                let b = choose|b: int| 0 <= b < s2.len() && s2[b] == x;
                assert(b != 0);
                assert(t2[b - 1] == x);
            }
            if t2.to_set().contains(x) {
                let a = choose|a: int| 0 <= a < t2.len() && t2[a] == x;
                assert(ranks_before(keys, s2[0] as int, s2[a + 1] as int));
                assert(s2.to_set().contains(x));
                let b = choose|b: int| 0 <= b < s1.len() && s1[b] == x;
                assert(b != 0);
                assert(t1[b - 1] == x);
            }
        }
        assert(t1.to_set() =~= t2.to_set());
        lemma_sorted_unique(keys, t1, t2);
        assert(s1 =~= s2) by {
            assert forall|a: int| 0 <= a < s1.len() implies s1[a] == s2[a] by {
                if a > 0 {
                    assert(s1[a] == t1[a - 1]);
                    assert(s2[a] == t2[a - 1]);
                }
            }
        }
    }
}

proof fn lemma_rank_order_covers(keys: Seq<u64>, o: Seq<usize>)
    requires
        is_rank_order(keys, o),
    ensures
        o.to_set().map(|x: usize| x as int) == set_int_range(0, keys.len() as int),
{
    let m = o.map_values(|x: usize| x as int);
    assert forall|a: int, b: int| 0 <= a < m.len() && 0 <= b < m.len() && a != b implies m[a]
        != m[b] by {
        if a < b {
            assert(ranks_before(keys, o[a] as int, o[b] as int));
        } else {
            assert(ranks_before(keys, o[b] as int, o[a] as int));
        }
    }
    m.unique_seq_to_set();
    lemma_int_range(0, keys.len() as int);
    assert(m.to_set().subset_of(set_int_range(0, keys.len() as int)));
    lemma_subset_equality(m.to_set(), set_int_range(0, keys.len() as int));
    assert(o.to_set().map(|x: usize| x as int) =~= m.to_set()) by {
        assert forall|y: int| #[trigger] m.to_set().contains(y) implies o.to_set().map(
            |x: usize| x as int,
        ).contains(y) by {
            let a = choose|a: int| 0 <= a < m.len() && m[a] == y;
            assert(o.to_set().contains(o[a]));
        }
    }
}

/// The order of a ranked result is a function of the keys: two orders of
/// one key sequence are equal.
pub proof fn lemma_rank_order_unique(keys: Seq<u64>, o1: Seq<usize>, o2: Seq<usize>)
    requires
        is_rank_order(keys, o1),
        is_rank_order(keys, o2),
    ensures
        o1 == o2,
{
    lemma_rank_order_covers(keys, o1);
    lemma_rank_order_covers(keys, o2);
    assert(o1.to_set() =~= o2.to_set()) by {
        assert forall|x: usize| o1.to_set().contains(x) implies o2.to_set().contains(x) by {
            assert(o1.to_set().map(|x: usize| x as int).contains(x as int));
            assert(o2.to_set().map(|x: usize| x as int).contains(x as int));
            let y = choose|y: usize| o2.to_set().contains(y) && y as int == x as int;
        }
        assert forall|x: usize| o2.to_set().contains(x) implies o1.to_set().contains(x) by {
            assert(o2.to_set().map(|x: usize| x as int).contains(x as int));
            assert(o1.to_set().map(|x: usize| x as int).contains(x as int));
            let y = choose|y: usize| o1.to_set().contains(y) && y as int == x as int;
        }
    }
    lemma_sorted_unique(keys, o1, o2);
}

} // verus!
