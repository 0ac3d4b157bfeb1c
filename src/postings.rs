//! The inverted lists: for each term, the documents that hold it and how
//! often, documents named by their position in the corpus.
use vstd::prelude::*;

verus! {

/// One document of a term's list: its position and the term's count in it.
#[derive(Clone, Copy, Debug, PartialEq, Eq)]
pub struct Posting {
    pub doc: usize,
    pub freq: u32,
}

/// A term and its postings, in increasing document order.
#[derive(Clone, Debug)]
pub struct TermEntry {
    pub term: String,
    pub postings: Vec<Posting>,
}

/// Postings that name documents below `bound`, each once, in increasing
/// order, each with a positive count.
pub open spec fn postings_wf(ps: Seq<Posting>, bound: nat) -> bool {
    &&& ps.len() > 0
    &&& forall|j: int| 0 <= j < ps.len() ==> ps[j].doc < bound && ps[j].freq >= 1
    &&& forall|i: int, j: int| 0 <= i < j < ps.len() ==> ps[i].doc < ps[j].doc
}

/// Entries with distinct terms, each with well-formed postings.
pub open spec fn entries_wf(es: Seq<TermEntry>, bound: nat) -> bool {
    &&& forall|i: int, j: int|
        0 <= i < j < es.len() ==> es[i].term@ != es[j].term@
    &&& forall|k: int| 0 <= k < es.len() ==> postings_wf(#[trigger] es[k].postings@, bound)
}

pub open spec fn entries_has(es: Seq<TermEntry>, t: Seq<char>) -> bool {
    exists|k: int| 0 <= k < es.len() && es[k].term@ == t
}

pub open spec fn entry_slot(es: Seq<TermEntry>, t: Seq<char>) -> int {
    choose|k: int| 0 <= k < es.len() && es[k].term@ == t
}

/// The count that `ps` gives document `d`, zero where it names it not.
pub open spec fn posting_freq(ps: Seq<Posting>, d: int) -> nat {
    if exists|j: int| 0 <= j < ps.len() && ps[j].doc == d {
        ps[choose|j: int| 0 <= j < ps.len() && ps[j].doc == d].freq as nat
    } else {
        0
    }
}

/// The postings of term `t`, empty where `t` has no entry.
pub open spec fn entries_postings(es: Seq<TermEntry>, t: Seq<char>) -> Seq<Posting> {
    if entries_has(es, t) {
        es[entry_slot(es, t)].postings@
    } else {
        Seq::empty()
    }
}

/// The count of term `t` in document `d`, zero where it does not occur.
pub open spec fn entries_freq(es: Seq<TermEntry>, t: Seq<char>, d: int) -> nat {
    posting_freq(entries_postings(es, t), d)
}

pub proof fn lemma_slot(es: Seq<TermEntry>, bound: nat, k: int)
    requires
        entries_wf(es, bound),
        0 <= k < es.len(),
    ensures
        entries_has(es, es[k].term@),
        entry_slot(es, es[k].term@) == k,
        entries_postings(es, es[k].term@) == es[k].postings@,
{
    let t = es[k].term@;
    assert(0 <= k < es.len() && es[k].term@ == t);
    let s = entry_slot(es, t);
    if s < k {
        assert(es[s].term@ != es[k].term@);
    } else if s > k {
        assert(es[k].term@ != es[s].term@);
    }
}

pub proof fn lemma_posting_at(ps: Seq<Posting>, bound: nat, j: int)
    requires
        postings_wf(ps, bound),
        0 <= j < ps.len(),
    ensures
        posting_freq(ps, ps[j].doc as int) == ps[j].freq,
{
    let d = ps[j].doc as int;
    assert(0 <= j < ps.len() && ps[j].doc == d);
    let c = choose|i: int| 0 <= i < ps.len() && ps[i].doc == d;
    if c < j {
        assert(ps[c].doc < ps[j].doc);
    } else if c > j {
        assert(ps[j].doc < ps[c].doc);
    }
}

/// Where `t` has no entry its count is zero everywhere.
pub proof fn lemma_absent(es: Seq<TermEntry>, t: Seq<char>, d: int)
    requires
        !entries_has(es, t),
    ensures
        entries_freq(es, t, d) == 0,
        entries_postings(es, t).len() == 0,
{
}

/// Looks up the entry of `t`.
pub fn find_term(es: &Vec<TermEntry>, t: &String) -> (r: Option<usize>)
    ensures
        match r {
            Some(k) => k < es@.len() && es@[k as int].term@ == t@,
            None => !entries_has(es@, t@),
        },
{
    let mut k: usize = 0;
    while k < es.len()
        invariant
            k <= es@.len(),
            forall|i: int| 0 <= i < k ==> es@[i].term@ != t@,
        decreases es.len() - k,
    {
        if es[k].term == *t {
            return Some(k);
        }
        k = k + 1;
    }
    None
}

/// The count that a posting list gives a document not named in it is zero.
pub proof fn lemma_posting_missing(ps: Seq<Posting>, d: int)
    requires
        forall|j: int| 0 <= j < ps.len() ==> ps[j].doc != d,
    ensures
        posting_freq(ps, d) == 0,
{
}

/// Records one more occurrence of `t` in document `d`, the newest document
/// that the entries have seen.
pub fn add_occurrence(es: &mut Vec<TermEntry>, t: &String, d: usize)
    requires
        entries_wf(old(es)@, d as nat + 1),
        entries_freq(old(es)@, t@, d as int) < u32::MAX,
    ensures
        entries_wf(final(es)@, d as nat + 1),
        forall|u: Seq<char>|
            #[trigger] entries_has(final(es)@, u) == (entries_has(old(es)@, u) || u == t@),
        forall|u: Seq<char>, e: int|
            #[trigger] entries_freq(final(es)@, u, e) == entries_freq(old(es)@, u, e) + if u
                == t@ && e == d {
                1nat
            } else {
                0nat
            },
{
    let ghost old_es = es@;
    let bound = Ghost(d as nat + 1);
    match find_term(es, t) {
        Some(k) => {
            let ghost old_ps = es@[k as int].postings@;
            proof {
                lemma_slot(old_es, bound@, k as int);
            }
            let ps = &mut es[k].postings;
            let last = ps.len() - 1;
            if ps[last].doc == d {
                let p = ps[last];
                proof {
                    lemma_posting_at(old_ps, bound@, last as int);
                }
                ps.set(last, Posting { doc: d, freq: p.freq + 1 });
            } else {
                ps.push(Posting { doc: d, freq: 1 });
            }
            let ghost new_ps = es@[k as int].postings@;
            assert(postings_wf(new_ps, bound@));
            assert forall|i: int| 0 <= i < es@.len() implies postings_wf(
                #[trigger] es@[i].postings@,
                bound@,
            ) by {
                if i != k {
                    assert(es@[i] == old_es[i]);
                }
            }
            assert forall|i: int, j: int| 0 <= i < j < es@.len() implies es@[i].term@
                != es@[j].term@ by {
                assert(old_es[i].term@ != old_es[j].term@);
            }
            assert forall|u: Seq<char>| #[trigger]
                entries_has(es@, u) == (entries_has(old_es, u) || u == t@) by {
                if entries_has(es@, u) {
                    let w = choose|w: int| 0 <= w < es@.len() && es@[w].term@ == u;
                    assert(old_es[w].term@ == u);
                }
                if entries_has(old_es, u) {
                    let w = choose|w: int| 0 <= w < old_es.len() && old_es[w].term@ == u;
                    assert(es@[w].term@ == u);
                }
            }
            assert forall|u: Seq<char>, e: int| #[trigger]
                entries_freq(es@, u, e) == entries_freq(old_es, u, e) + if u == t@ && e == d {
                    1nat
                } else {
                    0nat
                } by {
                if u == t@ {
                    lemma_slot(es@, bound@, k as int);
                    if e == d {
                        lemma_posting_at(new_ps, bound@, new_ps.len() - 1);
                        if old_ps[last as int].doc != d {
                            lemma_posting_missing(old_ps, e);
                        }
                    } else {
                        if exists|j: int| 0 <= j < new_ps.len() && new_ps[j].doc == e {
                            let j = choose|j: int| 0 <= j < new_ps.len() && new_ps[j].doc == e;
                            lemma_posting_at(new_ps, bound@, j);
                            lemma_posting_at(old_ps, bound@, j);
                        } else {
                            assert forall|j: int| 0 <= j < old_ps.len() implies old_ps[j].doc
                                != e by {
                                assert(new_ps[j].doc == old_ps[j].doc);
                            }
                            lemma_posting_missing(old_ps, e);
                        }
                    }
                } else if entries_has(old_es, u) {
                    let w = entry_slot(old_es, u);
                    lemma_slot(old_es, bound@, w);
                    assert(es@[w] == old_es[w]);
                    lemma_slot(es@, bound@, w);
                }
            }
        },
        None => {
            let mut ps: Vec<Posting> = Vec::new();
            ps.push(Posting { doc: d, freq: 1 });
            es.push(TermEntry { term: t.clone(), postings: ps });
            let n = es.len() - 1;
            assert(es@[n as int].term@ == t@);
            assert forall|i: int, j: int| 0 <= i < j < es@.len() implies es@[i].term@
                != es@[j].term@ by {
                if j < n {
                    assert(old_es[i].term@ != old_es[j].term@);
                } else {
                    assert(old_es[i].term@ != t@);
                }
            }
            assert forall|i: int| 0 <= i < es@.len() implies postings_wf(
                #[trigger] es@[i].postings@,
                bound@,
            ) by {
                if i < n {
                    assert(es@[i] == old_es[i]);
                }
            }
            assert forall|u: Seq<char>| #[trigger]
                entries_has(es@, u) == (entries_has(old_es, u) || u == t@) by {
                if entries_has(es@, u) {
                    let w = choose|w: int| 0 <= w < es@.len() && es@[w].term@ == u;
                    if w < n {
                        assert(old_es[w].term@ == u);
                    }
                }
                if entries_has(old_es, u) {
                    let w = choose|w: int| 0 <= w < old_es.len() && old_es[w].term@ == u;
                    assert(es@[w].term@ == u);
                }
            }
            assert forall|u: Seq<char>, e: int| #[trigger]
                entries_freq(es@, u, e) == entries_freq(old_es, u, e) + if u == t@ && e == d {
                    1nat
                } else {
                    0nat
                } by {
                if u == t@ {
                    lemma_slot(es@, bound@, n as int);
                    lemma_absent(old_es, u, e);
                    if e == d {
                        lemma_posting_at(es@[n as int].postings@, bound@, 0);
                    } else {
                        lemma_posting_missing(es@[n as int].postings@, e);
                    }
                } else if entries_has(old_es, u) {
                    let w = entry_slot(old_es, u);
                    lemma_slot(old_es, bound@, w);
                    assert(es@[w] == old_es[w]);
                    lemma_slot(es@, bound@, w);
                } else {
                    assert(!entries_has(es@, u)) by {
                        if entries_has(es@, u) {
                            let w = choose|w: int| 0 <= w < es@.len() && es@[w].term@ == u;
                            if w < n {
                                assert(old_es[w].term@ == u);
                            }
                        }
                    }
                }
            }
        },
    }
}

} // verus!
