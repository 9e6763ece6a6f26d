//! Removal of repeated frames, keeping each first occurrence in place.
use crate::subdivide::ints;
use std::collections::HashSet;
use vstd::prelude::*;

verus! {

/// `s` with every element that already occurred earlier removed.
pub open spec fn first_occurrences<A>(s: Seq<A>) -> Seq<A>
    decreases s.len(),
{
    if s.len() == 0 {
        seq![]
    } else if s.drop_last().contains(s.last()) {
        first_occurrences(s.drop_last())
    } else {
        first_occurrences(s.drop_last()).push(s.last())
    }
}

/// The positions in `s` of the elements that `first_occurrences` keeps.
pub open spec fn first_positions<A>(s: Seq<A>) -> Seq<int>
    decreases s.len(),
{
    if s.len() == 0 {
        seq![]
    } else if s.drop_last().contains(s.last()) {
        first_positions(s.drop_last())
    } else {
        first_positions(s.drop_last()).push(s.len() - 1)
    }
}

/// The list of frames `elements` with repeats removed.
pub fn remove_duplicates(elements: Vec<isize>) -> (r: Vec<isize>)
    ensures
        ints(r@) == first_occurrences(ints(elements@)),
{
    broadcast use vstd::std_specs::hash::group_hash_axioms;

    let ghost e = ints(elements@);
    let mut set: HashSet<isize> = HashSet::new();
    let mut r: Vec<isize> = Vec::new();
    let mut i: usize = 0;
    while i < elements.len()
        invariant
            e == ints(elements@),
            i <= elements@.len(),
            forall|x: isize| set@.contains(x) <==> e.subrange(0, i as int).contains(x as int),
            ints(r@) == first_occurrences(e.subrange(0, i as int)),
        decreases elements@.len() - i,
    {
        let x = elements[i];
        let ghost pre = e.subrange(0, i as int);
        assert(e.subrange(0, i + 1).drop_last() =~= pre);
        assert(e.subrange(0, i + 1).last() == x as int);
        if !set.contains(&x) {
            set.insert(x);
            r.push(x);
            assert(ints(r@) =~= first_occurrences(pre).push(x as int));
        }
        assert forall|y: isize| set@.contains(y) <==> e.subrange(0, i + 1).contains(y as int) by {
            assert(e.subrange(0, i + 1) =~= pre.push(x as int));
            if pre.contains(y as int) {
                let k = choose|k: int| 0 <= k < pre.len() && pre[k] == y as int;
                assert(e.subrange(0, i + 1)[k] == y as int);
            }
            let cur = e.subrange(0, i + 1);
            if cur.contains(y as int) {
                let k = choose|k: int| 0 <= k < cur.len() && cur[k] == y as int;
                if k < i {
                    assert(pre[k] == y as int);
                }
            }
        }
        i += 1;
    }
    assert(e.subrange(0, i as int) =~= e);
    r
}

/// Removing repeats leaves no repeats, keeps every value, and moves nothing:
/// the survivors are the first occurrences of their values, in the order in
/// which they stood.
pub proof fn lemma_first_occurrences<A>(s: Seq<A>)
    ensures
        first_occurrences(s).no_duplicates(),
        forall|x: A| first_occurrences(s).contains(x) <==> s.contains(x),
        first_positions(s).len() == first_occurrences(s).len(),
        forall|i: int, j: int|
            0 <= i < j < first_positions(s).len() ==> first_positions(s)[i]
                < first_positions(s)[j],
        forall|i: int|
            0 <= i < first_positions(s).len() ==> {
                let p = #[trigger] first_positions(s)[i];
                &&& 0 <= p < s.len()
                &&& first_occurrences(s)[i] == s[p]
                &&& !s.subrange(0, p).contains(s[p])
            },
    decreases s.len(),
{
    if s.len() > 0 {
        let t = s.drop_last();
        lemma_first_occurrences(t);
        assert(s =~= t.push(s.last()));
        assert forall|x: A| first_occurrences(s).contains(x) <==> s.contains(x) by {
            let ft = first_occurrences(t);
            assert(s.contains(x) <==> (t.contains(x) || x == s.last())) by {
                if t.contains(x) {
                    let k = choose|k: int| 0 <= k < t.len() && t[k] == x;
                    assert(s[k] == x);
                }
                if s.contains(x) && x != s.last() {
                    let k = choose|k: int| 0 <= k < s.len() && s[k] == x;
                    assert(k < t.len());
                    assert(t[k] == x);
                }
                if x == s.last() {
                    assert(s[s.len() - 1] == x);
                }
            }
            if !t.contains(s.last()) {
                assert(first_occurrences(s) == ft.push(s.last()));
                assert(ft.push(s.last()).contains(x) <==> (ft.contains(x) || x == s.last())) by {
                    if ft.contains(x) {
                        let k = choose|k: int| 0 <= k < ft.len() && ft[k] == x;
                        assert(ft.push(s.last())[k] == x);
                    }
                    if x == s.last() {
                        assert(ft.push(s.last())[ft.len() as int] == x);
                    }
                }
            }
        }
        let fp = first_positions(s);
        assert forall|i: int| 0 <= i < fp.len() implies {
            let p = #[trigger] fp[i];
            &&& 0 <= p < s.len()
            &&& first_occurrences(s)[i] == s[p]
            &&& !s.subrange(0, p).contains(s[p])
        } by {
            if i < first_positions(t).len() {
                let p = fp[i];
                assert(s.subrange(0, p) =~= t.subrange(0, p));
            } else {
                assert(s.subrange(0, s.len() - 1) =~= t);
            }
        }
    }
}

/// A list without repeats is left as it is.
pub proof fn lemma_first_occurrences_distinct<A>(s: Seq<A>)
    requires
        s.no_duplicates(),
    ensures
        first_occurrences(s) == s,
    decreases s.len(),
{
    if s.len() > 0 {
        let t = s.drop_last();
        assert(t.no_duplicates());
        lemma_first_occurrences_distinct(t);
        if t.contains(s.last()) {
            let k = choose|k: int| 0 <= k < t.len() && t[k] == s.last();
            assert(s[k] == s[s.len() - 1]);
        }
        assert(t.push(s.last()) =~= s);
    }
}

} // verus!
