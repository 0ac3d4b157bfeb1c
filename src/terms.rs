//! Splitting path-like strings into terms.
//!
//! A path is split on every `'/'`. Segments are kept verbatim: no case
//! folding, and empty segments (from a leading, trailing or doubled
//! separator) are terms like any other. A path therefore always yields at
//! least one term.
use vstd::prelude::*;

verus! {

/// The separator between the segments of a path.
pub const SEPARATOR: char = '/';

/// The segments of `s`, read left to right: a separator closes the current
/// segment and opens an empty one, any other character extends it.
pub open spec fn segments(s: Seq<char>) -> Seq<Seq<char>>
    decreases s.len(),
{
    if s.len() == 0 {
        seq![Seq::<char>::empty()]
    } else {
        let prev = segments(s.drop_last());
        if s.last() == SEPARATOR {
            prev.push(Seq::<char>::empty())
        } else {
            prev.update(prev.len() - 1, prev.last().push(s.last()))
        }
    }
}

/// The terms of a sequence of paths: the segments of each, in order.
pub open spec fn path_terms(paths: Seq<Seq<char>>) -> Seq<Seq<char>>
    decreases paths.len(),
{
    if paths.len() == 0 {
        Seq::empty()
    } else {
        path_terms(paths.drop_last()) + segments(paths.last())
    }
}

/// The views of a sequence of strings.
pub open spec fn views(v: Seq<String>) -> Seq<Seq<char>> {
    v.map_values(|s: String| s@)
}

/// Splits `path` on every separator.
pub fn split_path(path: &str) -> (r: Vec<String>)
    ensures
        views(r@) == segments(path@),
{
    let n = path.unicode_len();
    let mut done: Vec<String> = Vec::new();
    let mut start: usize = 0;
    let mut i: usize = 0;
    assert(path@.subrange(0, 0) =~= Seq::<char>::empty());
    assert(views(done@) =~= Seq::<Seq<char>>::empty());
    while i < n
        invariant
            n == path@.len(),
            start <= i <= n,
            segments(path@.subrange(0, i as int)) == views(done@).push(
                path@.subrange(start as int, i as int),
            ),
        decreases n - i,
    {
        let c = path.get_char(i);
        proof {
            let s = path@.subrange(0, i as int + 1);
            assert(s.drop_last() =~= path@.subrange(0, i as int));
            assert(s.last() == c);
        }
        if c == SEPARATOR {
            let piece = path.substring_char(start, i).to_owned();
            let ghost before = views(done@);
            done.push(piece);
            assert(views(done@) =~= before.push(path@.subrange(start as int, i as int)));
            start = i + 1;
            assert(path@.subrange(start as int, i as int + 1) =~= Seq::<char>::empty());
        } else {
            assert(path@.subrange(start as int, i as int).push(c) =~= path@.subrange(
                start as int,
                i as int + 1,
            ));
        }
        i = i + 1;
    }
    let last = path.substring_char(start, n).to_owned();
    let ghost before = views(done@);
    done.push(last);
    assert(views(done@) =~= before.push(path@.subrange(start as int, n as int)));
    assert(path@.subrange(0, n as int) =~= path@);
    done
}

/// The terms of a document's paths, in order.
pub fn document_terms(paths: &Vec<String>) -> (r: Vec<String>)
    ensures
        views(r@) == path_terms(views(paths@)),
{
    let mut out: Vec<String> = Vec::new();
    let mut i: usize = 0;
    assert(views(out@) =~= path_terms(views(paths@.subrange(0, 0))));
    while i < paths.len()
        invariant
            i <= paths.len(),
            views(out@) == path_terms(views(paths@.subrange(0, i as int))),
        decreases paths.len() - i,
    {
        let mut pieces = split_path(paths[i].as_str());
        let ghost before = views(out@);
        let ghost added = views(pieces@);
        out.append(&mut pieces);
        assert(views(paths@.subrange(0, i as int + 1)).drop_last() =~= views(
            paths@.subrange(0, i as int),
        ));
        assert(views(out@) =~= before + added);
        i = i + 1;
    }
    assert(paths@.subrange(0, i as int) =~= paths@);
    out
}

} // verus!
