//! Okapi BM25 with `k1 = 3/2` and `b = 3/4`, in exact arithmetic.
//!
//! A term `t` adds to the score of a document `d`
//!
//! ```text
//! idf(t) * f * (k1 + 1) / (f + k1 * (1 - b + b * len / avg))
//! idf(t) = ln((N - df + 1/2) / (df + 1/2) + 1) = ln((2N + 2) / (2 df + 1))
//! ```
//!
//! where `f` is the count of `t` in `d`, `len` the length of `d`, `avg = S / N`
//! the mean length over the `N` documents of total length `S`, and `df` the
//! number of documents that hold `t`. Multiplying the weight's numerator and
//! denominator by `8 S` gives the integer ratio
//! `20 f S / (8 f S + 3 S + 9 len N)`. Where `S` is zero no document has a
//! term, `len / avg` counts as zero and the ratio is `20 f / (8 f + 3)`.
//!
//! Only the logarithm and the final sum are left to floating point; the
//! library hands out both ratios exactly.
use vstd::prelude::*;

use crate::index::Index;
use crate::terms::views;

verus! {

/// The exact inputs of one term's share in a document's score: the
/// argument of the logarithm, `idf_num / idf_den`, and the weight,
/// `weight_num / weight_den`.
#[derive(Clone, Copy, Debug, PartialEq, Eq)]
pub struct Contribution {
    pub idf_num: u128,
    pub idf_den: u128,
    pub weight_num: u128,
    pub weight_den: u128,
}

pub open spec fn weight_num(f: nat, len: nat, n: nat, s: nat) -> nat {
    if s == 0 {
        20 * f
    } else {
        20 * (f * s)
    }
}

pub open spec fn weight_den(f: nat, len: nat, n: nat, s: nat) -> nat {
    if s == 0 {
        8 * f + 3
    } else {
        8 * (f * s) + 3 * s + 9 * (len * n)
    }
}

/// The contribution of a term with count `f` and document frequency `df` to a
/// document of length `len`, among `n` documents of total length `s`.
pub open spec fn contribution_spec(f: nat, df: nat, len: nat, n: nat, s: nat) -> Contribution {
    Contribution {
        idf_num: (2 * n + 2) as u128,
        idf_den: (2 * df + 1) as u128,
        weight_num: weight_num(f, len, n, s) as u128,
        weight_den: weight_den(f, len, n, s) as u128,
    }
}

/// Computes the contribution of a term; see [`contribution_spec`].
pub fn contribution(f: u32, df: usize, len: u32, n: usize, s: u32) -> (r: Contribution)
    ensures
        r == contribution_spec(f as nat, df as nat, len as nat, n as nat, s as nat),
        r.idf_num as nat == 2 * n + 2,
        r.idf_den as nat == 2 * df + 1,
        r.weight_num as nat == weight_num(f as nat, len as nat, n as nat, s as nat),
        r.weight_den as nat == weight_den(f as nat, len as nat, n as nat, s as nat),
{
    let f = f as u128;
    let len = len as u128;
    let n = n as u128;
    let s = s as u128;
    let df = df as u128;
    assert(f * s <= u32::MAX as u128 * u32::MAX as u128) by (nonlinear_arith)
        requires
            f <= u32::MAX,
            s <= u32::MAX,
    ;
    assert(len * n <= u32::MAX as u128 * u64::MAX as u128) by (nonlinear_arith)
        requires
            len <= u32::MAX,
            n <= u64::MAX,
    ;
    if s == 0 {
        Contribution {
            idf_num: 2 * n + 2,
            idf_den: 2 * df + 1,
            weight_num: 20 * f,
            weight_den: 8 * f + 3,
        }
    } else {
        Contribution {
            idf_num: 2 * n + 2,
            idf_den: 2 * df + 1,
            weight_num: 20 * (f * s),
            weight_den: 8 * (f * s) + 3 * s + 9 * (len * n),
        }
    }
}

/// Where a term is held by at most every document, the argument of its
/// logarithm is at least one, so its idf is not negative; the weight's
/// denominator is positive and its numerator is zero exactly where the term
/// is absent.
pub proof fn lemma_contribution_signs(f: nat, df: nat, len: nat, n: nat, s: nat)
    requires
        df <= n,
    ensures
        2 * n + 2 >= 2 * df + 1,
        2 * df + 1 > 0,
        weight_den(f, len, n, s) > 0,
        (weight_num(f, len, n, s) == 0) == (f == 0),
{
    if s > 0 {
        assert(3 * s > 0);
        if f > 0 {
            assert(f * s > 0) by (nonlinear_arith)
                requires
                    f > 0,
                    s > 0,
            ;
        } else {
            assert(f * s == 0);
        }
        assert(f * s >= 0) by (nonlinear_arith);
        assert(len * n >= 0) by (nonlinear_arith);
    }
}

/// Within the ranges of the index's counts, the fields of a contribution are
/// its ratios exactly.
pub proof fn lemma_contribution_fits(f: nat, df: nat, len: nat, n: nat, s: nat)
    requires
        f <= u32::MAX,
        len <= u32::MAX,
        s <= u32::MAX,
        df <= u64::MAX,
        n <= u64::MAX,
    ensures
        contribution_spec(f, df, len, n, s).idf_num == 2 * n + 2,
        contribution_spec(f, df, len, n, s).idf_den == 2 * df + 1,
        contribution_spec(f, df, len, n, s).weight_num == weight_num(f, len, n, s),
        contribution_spec(f, df, len, n, s).weight_den == weight_den(f, len, n, s),
{
    assert(f * s <= u32::MAX as nat * u32::MAX as nat) by (nonlinear_arith)
        requires
            f <= u32::MAX,
            s <= u32::MAX,
    ;
    assert(len * n <= u32::MAX as nat * u64::MAX as nat) by (nonlinear_arith)
        requires
            len <= u32::MAX,
            n <= u64::MAX,
    ;
}

/// The sign bit of an `f64` bit pattern.
pub const SIGN_BIT: u64 = 0x8000_0000_0000_0000;

/// The key of a float's bit pattern: keys compare as unsigned integers in the
/// order in which `f64::total_cmp` puts the floats. A negative float has all
/// its bits flipped; any other has its sign bit set.
pub open spec fn order_key_spec(bits: u64) -> u64 {
    if bits >= SIGN_BIT {
        (u64::MAX - bits) as u64
    } else {
        (bits + SIGN_BIT) as u64
    }
}

/// Computes [`order_key_spec`].
pub fn order_key(bits: u64) -> (r: u64)
    ensures
        r == order_key_spec(bits),
{
    if bits >= SIGN_BIT {
        u64::MAX - bits
    } else {
        bits + SIGN_BIT
    }
}

/// Position `x` goes before position `y`: a larger key first, and between
/// equal keys the earlier position first.
pub open spec fn ranks_before(keys: Seq<u64>, x: int, y: int) -> bool {
    keys[x] > keys[y] || (keys[x] == keys[y] && x < y)
}

/// `order` lists every position of `keys` once, by descending key, equal
/// keys in their input order.
pub open spec fn is_rank_order(keys: Seq<u64>, order: Seq<usize>) -> bool {
    &&& order.len() == keys.len()
    &&& forall|a: int| 0 <= a < order.len() ==> order[a] < keys.len()
    &&& forall|a: int, b: int|
        0 <= a < b < order.len() ==> ranks_before(keys, order[a] as int, order[b] as int)
}

/// Orders the positions of `keys` by descending key, stably.
pub fn rank_order(keys: &Vec<u64>) -> (r: Vec<usize>)
    ensures
        is_rank_order(keys@, r@),
{
    let n = keys.len();
    let mut out: Vec<usize> = Vec::new();
    let mut i: usize = 0;
    while i < n
        invariant
            n == keys@.len(),
            i <= n,
            out@.len() == i,
            forall|a: int| 0 <= a < out@.len() ==> out@[a] < i,
            forall|a: int, b: int|
                0 <= a < b < out@.len() ==> ranks_before(keys@, out@[a] as int, out@[b] as int),
        decreases n - i,
    {
        let key = keys[i];
        let mut p: usize = 0;
        while p < out.len() && keys[out[p]] >= key
            invariant
                n == keys@.len(),
                i < n,
                out@.len() == i,
                p <= out@.len(),
                forall|a: int| 0 <= a < out@.len() ==> out@[a] < i,
                forall|a: int| 0 <= a < p ==> keys@[out@[a] as int] >= key,
            decreases out.len() - p,
        {
            p = p + 1;
        }
        let ghost before = out@;
        out.insert(p, i);
        assert forall|a: int, b: int| 0 <= a < b < out@.len() implies ranks_before(
            keys@,
            out@[a] as int,
            out@[b] as int,
        ) by {
            if b < p {
                assert(out@[a] == before[a] && out@[b] == before[b]);
            } else if b == p {
                assert(out@[a] == before[a]);
            } else if a == p {
                assert(out@[b] == before[b - 1]);
                assert(keys@[before[p as int] as int] < key);
                if b - 1 > p {
                    assert(ranks_before(keys@, before[p as int] as int, before[b - 1] as int));
                }
            } else if a < p {
                assert(out@[a] == before[a] && out@[b] == before[b - 1]);
            } else {
                assert(out@[a] == before[a - 1] && out@[b] == before[b - 1]);
            }
        }
        i = i + 1;
    }
    out
}

/// The keys of a sequence of float bit patterns.
pub open spec fn order_keys(bits: Seq<u64>) -> Seq<u64> {
    bits.map_values(|b: u64| order_key_spec(b))
}

/// Orders positions by descending score, given the scores' bit patterns
/// (`f64::to_bits`); equal scores keep their input order.
pub fn order_by_score(score_bits: &Vec<u64>) -> (r: Vec<usize>)
    ensures
        is_rank_order(order_keys(score_bits@), r@),
{
    let mut keys: Vec<u64> = Vec::new();
    let mut i: usize = 0;
    while i < score_bits.len()
        invariant
            i <= score_bits@.len(),
            keys@ == order_keys(score_bits@.subrange(0, i as int)),
        decreases score_bits.len() - i,
    {
        keys.push(order_key(score_bits[i]));
        i = i + 1;
        assert(keys@ =~= order_keys(score_bits@.subrange(0, i as int)));
    }
    assert(score_bits@.subrange(0, i as int) =~= score_bits@);
    rank_order(&keys)
}

/// A document that a ranked query matches, with the contribution of each
/// query term to its score, in query order.
#[derive(Clone, Debug)]
pub struct Candidate {
    /// The document's position in the corpus.
    pub doc: usize,
    pub id: String,
    pub contributions: Vec<Contribution>,
}

impl Index {
    /// The argument of the logarithm in the idf of `t`, as
    /// `(2N + 2, 2 df + 1)`; a term absent from the index has `df` zero.
    pub fn idf_ratio(&self, t: &String) -> (r: (u128, u128))
        requires
            self.wf(),
        ensures
            r.0 == 2 * self.num_docs() + 2,
            r.1 == 2 * self.df(t@) + 1,
            r.0 >= r.1,
    {
        proof {
            self.lemma_count_ranges(t@, 0);
            self.lemma_df_bounds(t@);
        }
        let n = self.doc_count() as u128;
        let df = self.document_frequency(t) as u128;
        (2 * n + 2, 2 * df + 1)
    }

    /// The contribution of term `t` to the score of document `d`.
    pub open spec fn contribution_of(&self, t: Seq<char>, d: int) -> Contribution {
        contribution_spec(
            self.freq(t, d),
            self.df(t),
            self.lengths()[d] as nat,
            self.num_docs(),
            self.tokens_total(),
        )
    }

    /// `r` lists the documents that `q` matches, in increasing order, each
    /// with the contribution of every query term.
    pub open spec fn is_candidate_list(&self, q: Seq<Seq<char>>, r: Seq<Candidate>) -> bool {
        &&& r.len() == self.coverage_of(q).len()
        &&& forall|i: int|
            0 <= i < r.len() ==> {
                &&& (#[trigger] r[i]).doc as int == self.coverage_of(q)[i].0
                &&& r[i].doc < self.num_docs()
                &&& r[i].id@ == self.id_at(r[i].doc as int)
                &&& r[i].contributions@.len() == q.len()
            }
        &&& forall|i: int, k: int|
            0 <= i < r.len() && 0 <= k < q.len() ==> #[trigger] r[i].contributions@[k]
                == self.contribution_of(q[k], r[i].doc as int)
    }

    /// The documents that `q` matches, with what each query term adds to
    /// their BM25 scores. A term absent from a document adds a zero weight;
    /// a term absent from the index has `df` zero and a zero weight.
    pub fn candidates(&self, q: &Vec<String>) -> (r: Vec<Candidate>)
        requires
            self.wf(),
        ensures
            self.is_candidate_list(views(q@), r@),
    {
        let ghost qv = views(q@);
        let cov = self.coverage(q);
        let n = self.doc_count();
        let s = self.total_length();
        let mut dfs: Vec<usize> = Vec::new();
        let mut k: usize = 0;
        while k < q.len()
            invariant
                self.wf(),
                k <= q@.len(),
                dfs@.len() == k,
                forall|j: int| 0 <= j < k ==> #[trigger] dfs@[j] == self.df(q@[j]@),
            decreases q.len() - k,
        {
            dfs.push(self.document_frequency(&q[k]));
            k = k + 1;
        }
        let mut out: Vec<Candidate> = Vec::new();
        let mut i: usize = 0;
        while i < cov.len()
            invariant
                self.wf(),
                qv == views(q@),
                n == self.num_docs(),
                s == self.tokens_total(),
                self.is_coverage_report(qv, cov@),
                dfs@.len() == q@.len(),
                forall|j: int| 0 <= j < q@.len() ==> #[trigger] dfs@[j] == self.df(q@[j]@),
                i <= cov@.len(),
                out@.len() == i,
                forall|x: int|
                    0 <= x < i ==> {
                        &&& (#[trigger] out@[x]).doc as int == self.coverage_of(qv)[x].0
                        &&& out@[x].doc < self.num_docs()
                        &&& out@[x].id@ == self.id_at(out@[x].doc as int)
                        &&& out@[x].contributions@.len() == q@.len()
                    },
                forall|x: int, j: int|
                    0 <= x < i && 0 <= j < q@.len() ==> #[trigger] out@[x].contributions@[j]
                        == self.contribution_of(qv[j], out@[x].doc as int),
            decreases cov.len() - i,
        {
            let d = cov[i].doc;
            let len = self.doc_length(d);
            let mut cs: Vec<Contribution> = Vec::new();
            let mut k: usize = 0;
            while k < q.len()
                invariant
                    self.wf(),
                    qv == views(q@),
                    n == self.num_docs(),
                    s == self.tokens_total(),
                    d < n,
                    len == self.lengths()[d as int],
                    dfs@.len() == q@.len(),
                    forall|j: int| 0 <= j < q@.len() ==> #[trigger] dfs@[j] == self.df(q@[j]@),
                    k <= q@.len(),
                    cs@.len() == k,
                    forall|j: int|
                        0 <= j < k ==> #[trigger] cs@[j] == self.contribution_of(qv[j], d as int),
                decreases q.len() - k,
            {
                let f = self.frequency(&q[k], d);
                cs.push(contribution(f, dfs[k], len, n, s));
                k = k + 1;
            }
            out.push(Candidate { doc: d, id: cov[i].id.clone(), contributions: cs });
            i = i + 1;
        }
        out
    }
}

} // verus!
