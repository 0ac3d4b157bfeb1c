//! The index of a corpus and its statistics.
use vstd::prelude::*;
use vstd::set_lib::{lemma_int_range, lemma_len_subset, set_int_range};

use crate::postings::{
    add_occurrence, find_term, entries_freq, entries_has, entries_postings, entries_wf, lemma_posting_at,
    entry_slot, lemma_posting_missing, lemma_slot, postings_wf, Posting, TermEntry,
};
use crate::terms::{document_terms, path_terms, views};

verus! {

/// A document: its identifier and its path-like strings.
#[derive(Clone, Debug)]
pub struct Document {
    pub id: String,
    pub paths: Vec<String>,
}

impl Document {
    /// The document's term stream.
    pub open spec fn terms(&self) -> Seq<Seq<char>> {
        path_terms(views(self.paths@))
    }
}

/// How often `t` occurs in `ts`.
pub open spec fn occurrences(ts: Seq<Seq<char>>, t: Seq<char>) -> nat
    decreases ts.len(),
{
    if ts.len() == 0 {
        0
    } else {
        occurrences(ts.drop_last(), t) + if ts.last() == t {
            1nat
        } else {
            0nat
        }
    }
}

/// The number of terms in all documents together.
pub open spec fn corpus_tokens(docs: Seq<Document>) -> nat
    decreases docs.len(),
{
    if docs.len() == 0 {
        0
    } else {
        corpus_tokens(docs.drop_last()) + docs.last().terms().len()
    }
}

pub open spec fn has_duplicate_ids(docs: Seq<Document>) -> bool {
    exists|i: int, j: int| 0 <= i < j < docs.len() && docs[i].id@ == docs[j].id@
}

/// The sum of a sequence of counts.
pub open spec fn seq_sum(s: Seq<u32>) -> nat
    decreases s.len(),
{
    if s.len() == 0 {
        0
    } else {
        seq_sum(s.drop_last()) + s.last() as nat
    }
}

pub proof fn lemma_occurrences_bound(ts: Seq<Seq<char>>, t: Seq<char>)
    ensures
        occurrences(ts, t) <= ts.len(),
    decreases ts.len(),
{
    if ts.len() > 0 {
        lemma_occurrences_bound(ts.drop_last(), t);
    }
}

proof fn lemma_corpus_tokens_prefix(docs: Seq<Document>, a: int, b: int)
    requires
        0 <= a <= b <= docs.len(),
    ensures
        corpus_tokens(docs.subrange(0, a)) <= corpus_tokens(docs.subrange(0, b)),
    decreases b - a,
{
    if a < b {
        lemma_corpus_tokens_prefix(docs, a, b - 1);
        assert(docs.subrange(0, b).drop_last() =~= docs.subrange(0, b - 1));
    }
}

/// Why a corpus could not be indexed.
#[derive(Clone, Copy, Debug, PartialEq, Eq)]
pub enum BuildError {
    /// The documents at these two positions share an identifier.
    DuplicateId { first: usize, second: usize },
    /// The corpus holds more terms than a `u32` count can hold.
    TooManyTokens,
}

/// The inverted index of a corpus, with its document lengths.
///
/// Documents are named by their position in the corpus.
#[derive(Clone, Debug)]
pub struct Index {
    ids: Vec<String>,
    lengths: Vec<u32>,
    entries: Vec<TermEntry>,
    total: u32,
}

impl Index {
    pub closed spec fn wf(&self) -> bool {
        &&& self.ids@.len() == self.lengths@.len()
        &&& self.ids@.len() <= usize::MAX
        &&& entries_wf(self.entries@, self.ids@.len())
        &&& self.total == seq_sum(self.lengths@)
    }

    pub closed spec fn num_docs(&self) -> nat {
        self.ids@.len()
    }

    pub closed spec fn id_at(&self, d: int) -> Seq<char> {
        self.ids@[d]@
    }

    pub closed spec fn lengths(&self) -> Seq<u32> {
        self.lengths@
    }

    pub closed spec fn tokens_total(&self) -> nat {
        self.total as nat
    }

    /// The number of distinct terms.
    pub closed spec fn num_terms(&self) -> nat {
        self.entries@.len()
    }

    pub closed spec fn has_term(&self, t: Seq<char>) -> bool {
        entries_has(self.entries@, t)
    }

    /// The count of term `t` in document `d`, zero where it does not occur.
    pub closed spec fn freq(&self, t: Seq<char>, d: int) -> nat {
        entries_freq(self.entries@, t, d)
    }

    /// The number of documents that hold `t`.
    pub closed spec fn df(&self, t: Seq<char>) -> nat {
        entries_postings(self.entries@, t).len()
    }

    /// `self` is the index of `docs`.
    pub open spec fn indexes(&self, docs: Seq<Document>) -> bool {
        &&& self.wf()
        &&& self.num_docs() == docs.len()
        &&& self.lengths().len() == docs.len()
        &&& self.tokens_total() == corpus_tokens(docs)
        &&& forall|d: int| 0 <= d < docs.len() ==> #[trigger] self.id_at(d) == docs[d].id@
        &&& forall|d: int|
            0 <= d < docs.len() ==> #[trigger] self.lengths()[d] == docs[d].terms().len()
        &&& forall|t: Seq<char>, d: int|
            0 <= d < docs.len() ==> #[trigger] self.freq(t, d) == occurrences(docs[d].terms(), t)
    }
}

/// Finds two documents that share an identifier.
pub fn find_duplicate(corpus: &Vec<Document>) -> (r: Option<(usize, usize)>)
    ensures
        r is None <==> !has_duplicate_ids(corpus@),
        match r {
            Some((i, j)) => i < j < corpus@.len() && corpus@[i as int].id@ == corpus@[j as int].id@,
            None => true,
        },
{
    let n = corpus.len();
    let mut j: usize = 0;
    while j < n
        invariant
            n == corpus@.len(),
            j <= n,
            forall|a: int, b: int| 0 <= a < b < j ==> corpus@[a].id@ != corpus@[b].id@,
        decreases n - j,
    {
        let mut i: usize = 0;
        while i < j
            invariant
                n == corpus@.len(),
                i <= j < n,
                forall|a: int, b: int| 0 <= a < b < j ==> corpus@[a].id@ != corpus@[b].id@,
                forall|a: int| 0 <= a < i ==> corpus@[a].id@ != corpus@[j as int].id@,
            decreases j - i,
        {
            if corpus[i].id == corpus[j].id {
                return Some((i, j));
            }
            i = i + 1;
        }
        j = j + 1;
    }
    None
}

/// Builds the index of `corpus`.
///
/// Identifiers must be unique; a corpus whose term count does not fit in a
/// `u32` is refused.
pub fn build(corpus: &Vec<Document>) -> (r: Result<Index, BuildError>)
    ensures
        match r {
            Ok(idx) => !has_duplicate_ids(corpus@) && corpus_tokens(corpus@) <= u32::MAX
                && idx.indexes(corpus@),
            Err(BuildError::DuplicateId { first, second }) => first < second < corpus@.len()
                && corpus@[first as int].id@ == corpus@[second as int].id@,
            Err(BuildError::TooManyTokens) => !has_duplicate_ids(corpus@) && corpus_tokens(
                corpus@,
            ) > u32::MAX,
        },
{
    if let Some((first, second)) = find_duplicate(corpus) {
        return Err(BuildError::DuplicateId { first, second });
    }
    let n = corpus.len();
    let mut ids: Vec<String> = Vec::new();
    let mut lengths: Vec<u32> = Vec::new();
    let mut entries: Vec<TermEntry> = Vec::new();
    let mut total: u32 = 0;
    let mut i: usize = 0;
    assert(corpus@.subrange(0, 0) =~= Seq::<Document>::empty());
    while i < n
        invariant
            n == corpus@.len(),
            !has_duplicate_ids(corpus@),
            i <= n,
            ids@.len() == i,
            lengths@.len() == i,
            forall|d: int| 0 <= d < i ==> #[trigger] ids@[d]@ == corpus@[d].id@,
            forall|d: int| 0 <= d < i ==> #[trigger] lengths@[d] == corpus@[d].terms().len(),
            total == seq_sum(lengths@),
            total == corpus_tokens(corpus@.subrange(0, i as int)),
            entries_wf(entries@, i as nat),
            forall|t: Seq<char>, d: int|
                0 <= d < i ==> #[trigger] entries_freq(entries@, t, d) == occurrences(
                    corpus@[d].terms(),
                    t,
                ),
            forall|t: Seq<char>, d: int| d >= i ==> #[trigger] entries_freq(entries@, t, d) == 0,
        decreases n - i,
    {
        let terms = document_terms(&corpus[i].paths);
        let len = terms.len();
        assert(corpus@.subrange(0, i as int + 1).drop_last() =~= corpus@.subrange(0, i as int));
        if len > (u32::MAX - total) as usize {
            proof {
                lemma_corpus_tokens_prefix(corpus@, i as int + 1, n as int);
                assert(corpus@.subrange(0, n as int) =~= corpus@);
            }
            return Err(BuildError::TooManyTokens);
        }
        assert forall|k: int| 0 <= k < entries@.len() implies postings_wf(
            #[trigger] entries@[k].postings@,
            i as nat + 1,
        ) by {
            assert(postings_wf(entries@[k].postings@, i as nat));
        }
        let mut j: usize = 0;
        assert(views(terms@).subrange(0, 0) =~= Seq::<Seq<char>>::empty());
        while j < len
            invariant
                i < n,
                len == terms@.len(),
                len <= u32::MAX,
                views(terms@) == corpus@[i as int].terms(),
                j <= len,
                entries_wf(entries@, i as nat + 1),
                forall|t: Seq<char>, d: int|
                    0 <= d < i ==> #[trigger] entries_freq(entries@, t, d) == occurrences(
                        corpus@[d].terms(),
                        t,
                    ),
                forall|t: Seq<char>|
                    #[trigger] entries_freq(entries@, t, i as int) == occurrences(
                        views(terms@).subrange(0, j as int),
                        t,
                    ),
                forall|t: Seq<char>, d: int| d > i ==> #[trigger] entries_freq(entries@, t, d) == 0,
            decreases len - j,
        {
            proof {
                lemma_occurrences_bound(views(terms@).subrange(0, j as int), terms@[j as int]@);
            }
            add_occurrence(&mut entries, &terms[j], i);
            assert(views(terms@).subrange(0, j as int + 1).drop_last() =~= views(
                terms@,
            ).subrange(0, j as int));
            j = j + 1;
        }
        assert(views(terms@).subrange(0, len as int) =~= views(terms@));
        ids.push(corpus[i].id.clone());
        let ghost old_lengths = lengths@;
        lengths.push(len as u32);
        assert(lengths@.drop_last() =~= old_lengths);
        total = total + len as u32;
        i = i + 1;
    }
    assert(corpus@.subrange(0, n as int) =~= corpus@);
    Ok(Index { ids, lengths, entries, total })
}

/// `q[i]` does not occur before position `i`.
pub open spec fn fresh_at(q: Seq<Seq<char>>, i: int) -> bool {
    forall|j: int| 0 <= j < i ==> q[j] != q[i]
}

/// The number of distinct terms of `q`.
pub open spec fn distinct_count(q: Seq<Seq<char>>) -> nat
    decreases q.len(),
{
    if q.len() == 0 {
        0
    } else {
        distinct_count(q.drop_last()) + if fresh_at(q, q.len() - 1) {
            1nat
        } else {
            0nat
        }
    }
}

/// One document of a coverage report.
#[derive(Clone, Debug)]
pub struct Coverage {
    /// The document's position in the corpus.
    pub doc: usize,
    pub id: String,
    /// How many distinct query terms occur in the document.
    pub matched: usize,
    /// How many distinct terms the query has.
    pub total: usize,
}

impl Index {
    /// The number of distinct terms of `q` that occur in document `d`.
    pub open spec fn matched(&self, q: Seq<Seq<char>>, d: int) -> nat
        decreases q.len(),
    {
        if q.len() == 0 {
            0
        } else {
            self.matched(q.drop_last(), d) + if fresh_at(q, q.len() - 1) && self.freq(
                q.last(),
                d,
            ) > 0 {
                1nat
            } else {
                0nat
            }
        }
    }

    /// The documents below `n` that `q` matches, in increasing order, each
    /// with its match count.
    pub open spec fn coverage_upto(&self, q: Seq<Seq<char>>, n: nat) -> Seq<(int, nat)>
        decreases n,
    {
        if n == 0 {
            Seq::empty()
        } else {
            let prev = self.coverage_upto(q, (n - 1) as nat);
            if self.matched(q, n - 1) > 0 {
                prev.push((n - 1, self.matched(q, n - 1)))
            } else {
                prev
            }
        }
    }

    /// The documents that `q` matches, in increasing order, each with its
    /// match count.
    pub open spec fn coverage_of(&self, q: Seq<Seq<char>>) -> Seq<(int, nat)> {
        self.coverage_upto(q, self.num_docs())
    }

    pub fn doc_count(&self) -> (r: usize)
        requires
            self.wf(),
        ensures
            r == self.num_docs(),
    {
        self.ids.len()
    }

    pub fn doc_id(&self, d: usize) -> (r: &String)
        requires
            self.wf(),
            d < self.num_docs(),
        ensures
            r@ == self.id_at(d as int),
    {
        &self.ids[d]
    }

    pub fn doc_length(&self, d: usize) -> (r: u32)
        requires
            self.wf(),
            d < self.num_docs(),
        ensures
            r == self.lengths()[d as int],
    {
        self.lengths[d]
    }

    /// The sum of all document lengths.
    pub fn total_length(&self) -> (r: u32)
        requires
            self.wf(),
        ensures
            r == self.tokens_total(),
    {
        self.total
    }

    /// The number of distinct terms in the index.
    pub fn term_count(&self) -> (r: usize)
        ensures
            r == self.num_terms(),
    {
        self.entries.len()
    }

    /// The number of documents that hold `t`.
    pub fn document_frequency(&self, t: &String) -> (r: usize)
        requires
            self.wf(),
        ensures
            r == self.df(t@),
    {
        match find_term(&self.entries, t) {
            Some(k) => {
                proof {
                    lemma_slot(self.entries@, self.ids@.len() as nat, k as int);
                }
                self.entries[k].postings.len()
            },
            None => 0,
        }
    }

    /// The count of `t` in document `d`, zero where it does not occur.
    pub fn frequency(&self, t: &String, d: usize) -> (r: u32)
        requires
            self.wf(),
        ensures
            r == self.freq(t@, d as int),
    {
        match find_term(&self.entries, t) {
            Some(k) => {
                let ghost bound = self.ids@.len() as nat;
                proof {
                    lemma_slot(self.entries@, bound, k as int);
                }
                let ps = &self.entries[k].postings;
                let mut j: usize = 0;
                while j < ps.len()
                    invariant
                        postings_wf(ps@, bound),
                        ps@ == entries_postings(self.entries@, t@),
                        j <= ps@.len(),
                        forall|i: int| 0 <= i < j ==> ps@[i].doc != d,
                    decreases ps.len() - j,
                {
                    if ps[j].doc == d {
                        proof {
                            lemma_posting_at(ps@, bound, j as int);
                        }
                        return ps[j].freq;
                    }
                    j = j + 1;
                }
                proof {
                    lemma_posting_missing(ps@, d as int);
                }
                0
            },
            None => 0,
        }
    }
}

/// Whether `q[i]` occurs before position `i`.
fn seen_before(q: &Vec<String>, i: usize) -> (r: bool)
    requires
        i < q@.len(),
    ensures
        r == !fresh_at(views(q@), i as int),
{
    let mut j: usize = 0;
    while j < i
        invariant
            i < q@.len(),
            j <= i,
            forall|k: int| 0 <= k < j ==> q@[k]@ != q@[i as int]@,
        decreases i - j,
    {
        if q[j] == q[i] {
            assert(views(q@)[j as int] == views(q@)[i as int]);
            return true;
        }
        j = j + 1;
    }
    false
}

pub proof fn lemma_distinct_count_bound(q: Seq<Seq<char>>)
    ensures
        distinct_count(q) <= q.len(),
    decreases q.len(),
{
    if q.len() > 0 {
        lemma_distinct_count_bound(q.drop_last());
    }
}

impl Index {
    /// A document's match count never exceeds the query's distinct terms.
    pub proof fn lemma_matched_bound(&self, q: Seq<Seq<char>>, d: int)
        ensures
            self.matched(q, d) <= distinct_count(q),
        decreases q.len(),
    {
        if q.len() > 0 {
            self.lemma_matched_bound(q.drop_last(), d);
        }
    }

    /// `r` reports, for each document that `q` matches, in increasing order,
    /// how many of the distinct terms of `q` it holds.
    pub open spec fn is_coverage_report(&self, q: Seq<Seq<char>>, r: Seq<Coverage>) -> bool {
        &&& r.len() == self.coverage_of(q).len()
        &&& forall|k: int|
            0 <= k < r.len() ==> {
                &&& (#[trigger] r[k]).doc as int == self.coverage_of(q)[k].0
                &&& r[k].matched as nat == self.coverage_of(q)[k].1
                &&& r[k].doc < self.num_docs()
                &&& r[k].id@ == self.id_at(r[k].doc as int)
                &&& r[k].total as nat == distinct_count(q)
            }
    }

    /// For each document that the query `q` matches, the number of distinct
    /// terms of `q` that occur in it; documents in increasing order.
    pub fn coverage(&self, q: &Vec<String>) -> (r: Vec<Coverage>)
        requires
            self.wf(),
        ensures
            self.is_coverage_report(views(q@), r@),
    {
        let n = self.ids.len();
        let ghost bound = n as nat;
        let ghost qv = views(q@);
        let mut counts: Vec<usize> = vec![0usize; n];
        let mut total: usize = 0;
        let mut k: usize = 0;
        assert(qv.subrange(0, 0) =~= Seq::<Seq<char>>::empty());
        while k < q.len()
            invariant
                self.wf(),
                n == self.ids@.len(),
                bound == n,
                qv == views(q@),
                k <= q@.len(),
                counts@.len() == n,
                total == distinct_count(qv.subrange(0, k as int)),
                forall|d: int|
                    0 <= d < n ==> #[trigger] counts@[d] == self.matched(qv.subrange(0, k as int), d),
            decreases q.len() - k,
        {
            let ghost pre = qv.subrange(0, k as int);
            let ghost post = qv.subrange(0, k as int + 1);
            assert(post.drop_last() =~= pre);
            assert(fresh_at(post, k as int) == fresh_at(qv, k as int)) by {
                assert forall|j: int| 0 <= j <= k implies post[j] == qv[j] by {}
            }
            proof {
                lemma_distinct_count_bound(post);
                assert forall|d: int| 0 <= d < n implies counts@[d] <= distinct_count(pre) by {
                    self.lemma_matched_bound(pre, d);
                }
            }
            if !seen_before(q, k) {
                total = total + 1;
                match find_term(&self.entries, &q[k]) {
                    Some(e) => {
                        proof {
                            lemma_slot(self.entries@, bound, e as int);
                        }
                        let ps = &self.entries[e].postings;
                        let ghost base = counts@;
                        let mut j: usize = 0;
                        while j < ps.len()
                            invariant
                                postings_wf(ps@, bound),
                                bound == n,
                                j <= ps@.len(),
                                counts@.len() == n,
                                base.len() == n,
                                forall|d: int| 0 <= d < n ==> base[d] <= distinct_count(pre),
                                distinct_count(post) <= usize::MAX,
                                distinct_count(post) == distinct_count(pre) + 1,
                                forall|d: int|
                                    0 <= d < n ==> #[trigger] counts@[d] == base[d] + if exists|
                                        i: int,
                                    | 0 <= i < j && ps@[i].doc == d {
                                        1nat
                                    } else {
                                        0nat
                                    },
                            decreases ps.len() - j,
                        {
                            let d = ps[j].doc;
                            assert(ps@[j as int].doc < bound);
                            assert(!exists|i: int| 0 <= i < j && ps@[i].doc == d) by {
                                if exists|i: int| 0 <= i < j && ps@[i].doc == d {
                                    let i = choose|i: int| 0 <= i < j && ps@[i].doc == d;
                                    assert(ps@[i].doc < ps@[j as int].doc);
                                }
                            }
                            counts.set(d, counts[d] + 1);
                            assert forall|x: int| 0 <= x < n implies #[trigger] counts@[x]
                                == base[x] + if exists|i: int|
                                0 <= i < j + 1 && ps@[i].doc == x {
                                1nat
                            } else {
                                0nat
                            } by {
                                if x == d {
                                    assert(0 <= j < j + 1 && ps@[j as int].doc == x);
                                } else if exists|i: int| 0 <= i < j + 1 && ps@[i].doc == x {
                                    let i = choose|i: int| 0 <= i < j + 1 && ps@[i].doc == x;
                                    assert(i < j);
                                }
                            }
                            j = j + 1;
                        }
                        assert forall|d: int| 0 <= d < n implies #[trigger] counts@[d]
                            == self.matched(post, d) by {
                            assert(post.last() == q@[k as int]@);
                            if exists|i: int| 0 <= i < ps@.len() && ps@[i].doc == d {
                                let i = choose|i: int| 0 <= i < ps@.len() && ps@[i].doc == d;
                                lemma_posting_at(ps@, bound, i);
                            } else {
                                lemma_posting_missing(ps@, d);
                            }
                        }
                    },
                    None => {
                        assert forall|d: int| 0 <= d < n implies #[trigger] counts@[d]
                            == self.matched(post, d) by {
                            assert(post.last() == q@[k as int]@);
                        }
                    },
                }
            } else {
                assert forall|d: int| 0 <= d < n implies #[trigger] counts@[d] == self.matched(
                    post,
                    d,
                ) by {}
            }
            k = k + 1;
        }
        assert(qv.subrange(0, q@.len() as int) =~= qv);
        let mut out: Vec<Coverage> = Vec::new();
        let mut d: usize = 0;
        while d < n
            invariant
                self.wf(),
                n == self.ids@.len(),
                n == self.num_docs(),
                d <= n,
                counts@.len() == n,
                total == distinct_count(qv),
                qv == views(q@),
                forall|x: int| 0 <= x < n ==> #[trigger] counts@[x] == self.matched(qv, x),
                out@.len() == self.coverage_upto(qv, d as nat).len(),
                forall|k: int|
                    0 <= k < out@.len() ==> {
                        &&& (#[trigger] out@[k]).doc as int == self.coverage_upto(qv, d as nat)[k].0
                        &&& out@[k].matched as nat == self.coverage_upto(qv, d as nat)[k].1
                        &&& out@[k].doc < n
                        &&& out@[k].id@ == self.id_at(out@[k].doc as int)
                        &&& out@[k].total as nat == distinct_count(qv)
                    },
            decreases n - d,
        {
            if counts[d] > 0 {
                out.push(Coverage { doc: d, id: self.ids[d].clone(), matched: counts[d], total });
            }
            d = d + 1;
        }
        out
    }
}

impl Index {
    /// The documents that hold `t`.
    pub open spec fn holders(&self, t: Seq<char>) -> Set<int> {
        Set::new(|d: int| 0 <= d < self.num_docs() && self.freq(t, d) > 0)
    }

    /// Only documents of the corpus have a positive count.
    pub proof fn lemma_freq_in_corpus(&self, t: Seq<char>, d: int)
        requires
            self.wf(),
            self.freq(t, d) > 0,
        ensures
            0 <= d < self.num_docs(),
    {
        let ps = entries_postings(self.entries@, t);
        if entries_has(self.entries@, t) {
            lemma_slot(self.entries@, self.ids@.len() as nat, entry_slot(self.entries@, t));
        }
        if !(exists|j: int| 0 <= j < ps.len() && ps[j].doc == d) {
            lemma_posting_missing(ps, d);
        }
    }

    /// A term has an entry exactly where some document holds it.
    pub proof fn lemma_has_term(&self, t: Seq<char>)
        requires
            self.wf(),
        ensures
            self.has_term(t) <==> exists|d: int| 0 <= d < self.num_docs() && self.freq(t, d) > 0,
    {
        let bound = self.ids@.len() as nat;
        if entries_has(self.entries@, t) {
            let k = entry_slot(self.entries@, t);
            lemma_slot(self.entries@, bound, k);
            let ps = self.entries@[k].postings@;
            lemma_posting_at(ps, bound, 0);
            assert(0 <= ps[0].doc < self.num_docs() && self.freq(t, ps[0].doc as int) > 0);
        }
    }

    /// The document frequency of a term is the number of documents that hold it.
    pub proof fn lemma_df_counts_holders(&self, t: Seq<char>)
        requires
            self.wf(),
        ensures
            self.df(t) == self.holders(t).len(),
            self.holders(t).finite(),
    {
        let bound = self.ids@.len() as nat;
        let ps = entries_postings(self.entries@, t);
        if entries_has(self.entries@, t) {
            lemma_slot(self.entries@, bound, entry_slot(self.entries@, t));
        }
        let m = ps.map_values(|p: Posting| p.doc as int);
        assert forall|i: int, j: int| 0 <= i < m.len() && 0 <= j < m.len() && i != j implies m[i]
            != m[j] by {
            if i < j {
                assert(ps[i].doc < ps[j].doc);
            } else {
                assert(ps[j].doc < ps[i].doc);
            }
        }
        assert(m.no_duplicates());
        m.unique_seq_to_set();
        assert forall|d: int| #[trigger] m.to_set().contains(d) == self.holders(t).contains(d) by {
            if m.to_set().contains(d) {
                let j = choose|j: int| 0 <= j < m.len() && m[j] == d;
                lemma_posting_at(ps, bound, j);
            }
            if self.holders(t).contains(d) {
                if exists|j: int| 0 <= j < ps.len() && ps[j].doc == d {
                    let j = choose|j: int| 0 <= j < ps.len() && ps[j].doc == d;
                    assert(m[j] == d);
                } else {
                    lemma_posting_missing(ps, d);
                }
            }
        }
        assert(m.to_set() =~= self.holders(t));
    }

    /// The postings of `t`: each document that holds it, in increasing
    /// order, with its count.
    pub fn postings(&self, t: &String) -> (r: Vec<Posting>)
        requires
            self.wf(),
        ensures
            r@.len() == self.df(t@),
            forall|j: int|
                0 <= j < r@.len() ==> {
                    &&& (#[trigger] r@[j]).doc < self.num_docs()
                    &&& r@[j].freq >= 1
                    &&& r@[j].freq == self.freq(t@, r@[j].doc as int)
                },
            forall|i: int, j: int| 0 <= i < j < r@.len() ==> r@[i].doc < r@[j].doc,
            forall|d: int|
                0 <= d < self.num_docs() && self.freq(t@, d) > 0 ==> exists|j: int|
                    0 <= j < r@.len() && r@[j].doc == d,
    {
        let ghost bound = self.ids@.len() as nat;
        match find_term(&self.entries, t) {
            Some(k) => {
                proof {
                    lemma_slot(self.entries@, bound, k as int);
                }
                let r = self.entries[k].postings.clone();
                proof {
                    assert forall|j: int| 0 <= j < r@.len() implies r@[j].freq == self.freq(
                        t@,
                        (#[trigger] r@[j]).doc as int,
                    ) by {
                        lemma_posting_at(r@, bound, j);
                    }
                    assert forall|d: int|
                        0 <= d < self.num_docs() && self.freq(t@, d) > 0 implies exists|j: int|
                        0 <= j < r@.len() && r@[j].doc == d by {
                        if !exists|j: int| 0 <= j < r@.len() && r@[j].doc == d {
                            lemma_posting_missing(r@, d);
                        }
                    }
                }
                r
            },
            None => Vec::new(),
        }
    }
}

impl Index {
    /// The total length is the sum of the document lengths, one per document.
    pub proof fn lemma_total_is_sum(&self)
        requires
            self.wf(),
        ensures
            self.lengths().len() == self.num_docs(),
            self.tokens_total() == seq_sum(self.lengths()),
    {
    }

    /// A term's document frequency is at most the number of documents, and
    /// positive exactly where the index holds the term.
    pub proof fn lemma_df_bounds(&self, t: Seq<char>)
        requires
            self.wf(),
        ensures
            self.df(t) <= self.num_docs(),
            self.has_term(t) <==> self.df(t) > 0,
    {
        self.lemma_df_counts_holders(t);
        lemma_int_range(0, self.num_docs() as int);
        assert(self.holders(t).subset_of(set_int_range(0, self.num_docs() as int)));
        lemma_len_subset(self.holders(t), set_int_range(0, self.num_docs() as int));
        if entries_has(self.entries@, t) {
            lemma_slot(self.entries@, self.ids@.len() as nat, entry_slot(self.entries@, t));
        }
    }
}

impl Index {
    /// The ranges of the index's counts.
    pub proof fn lemma_count_ranges(&self, t: Seq<char>, d: int)
        requires
            self.wf(),
        ensures
            self.freq(t, d) <= u32::MAX,
            self.tokens_total() <= u32::MAX,
            self.num_docs() <= usize::MAX,
            self.df(t) <= usize::MAX,
    {
        let ps = entries_postings(self.entries@, t);
        if entries_has(self.entries@, t) {
            lemma_slot(self.entries@, self.ids@.len() as nat, entry_slot(self.entries@, t));
        }
        if exists|j: int| 0 <= j < ps.len() && ps[j].doc == d {
            let j = choose|j: int| 0 <= j < ps.len() && ps[j].doc == d;
            lemma_posting_at(ps, self.ids@.len() as nat, j);
        }
        self.lemma_df_bounds(t);
    }
}

} // verus!
