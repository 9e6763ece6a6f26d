//! Coarse-to-fine ordering of an inclusive range ("binary subdivision").
//!
//! Starting from the two endpoints, every pass bisects each gap between
//! neighbouring frames that is wide enough, and emits the new midpoints in
//! ascending order. Passes continue until the range is covered.
use itertools::Itertools;
use vstd::prelude::*;
use vstd::multiset::Multiset;
use vstd::seq_lib::group_to_multiset_ensures;
use vstd::seq_lib::lemma_multiset_commutative;

verus! {

/// The values of a list of frames as mathematical integers.
pub open spec fn ints(s: Seq<isize>) -> Seq<int> {
    s.map_values(|v: isize| v as int)
}

/// Strictly ascending.
pub open spec fn increasing(s: Seq<int>) -> bool {
    forall|i: int, j: int| 0 <= i < j < s.len() ==> s[i] < s[j]
}

/// The midpoint of two frames, rounded down.
pub open spec fn mid(l: int, r: int) -> int {
    (l + r) / 2
}

/// What the window `(s[i], s[i + 1])` contributes to the next pass: its left
/// end, and its midpoint when that differs from the left end.
pub open spec fn window_part(s: Seq<int>, i: int) -> Seq<int> {
    if s[i] < mid(s[i], s[i + 1]) {
        seq![s[i], mid(s[i], s[i + 1])]
    } else {
        seq![s[i]]
    }
}

/// The midpoint that the window `(s[i], s[i + 1])` emits, if any.
pub open spec fn window_mid(s: Seq<int>, i: int) -> Seq<int> {
    if s[i] < mid(s[i], s[i + 1]) {
        seq![mid(s[i], s[i + 1])]
    } else {
        seq![]
    }
}

/// The next pass built from the first `k` windows of `s`.
pub open spec fn refine_upto(s: Seq<int>, k: int) -> Seq<int>
    decreases k,
{
    if k <= 0 {
        seq![]
    } else {
        refine_upto(s, k - 1) + window_part(s, k - 1)
    }
}

/// The midpoints emitted by the first `k` windows of `s`.
pub open spec fn mids_upto(s: Seq<int>, k: int) -> Seq<int>
    decreases k,
{
    if k <= 0 {
        seq![]
    } else {
        mids_upto(s, k - 1) + window_mid(s, k - 1)
    }
}

/// The frames of the pass after `s` (which is non-empty).
pub open spec fn refine(s: Seq<int>) -> Seq<int> {
    refine_upto(s, s.len() - 1).push(s.last())
}

/// The midpoints emitted while building the pass after `s`.
pub open spec fn mids(s: Seq<int>) -> Seq<int> {
    mids_upto(s, s.len() - 1)
}

/// Everything emitted from the pass `s` on, until the pass holds at least
/// `n` frames or a pass adds nothing.
pub open spec fn subdivide(s: Seq<int>, n: int) -> Seq<int>
    decreases (if s.len() < n { n - s.len() } else { 0 }),
{
    if 2 <= s.len() < n && s.len() < refine(s).len() {
        mids(s) + subdivide(refine(s), n)
    } else {
        seq![]
    }
}

/// The pass at which `subdivide` stops: the first, from `s` on, that holds at
/// least `n` frames or after which a pass adds nothing.
pub open spec fn last_pass(s: Seq<int>, n: int) -> Seq<int>
    decreases (if s.len() < n { n - s.len() } else { 0 }),
{
    if 2 <= s.len() < n && s.len() < refine(s).len() {
        last_pass(refine(s), n)
    } else {
        s
    }
}

/// The coarse-to-fine order of `a..=b` for `a < b`.
pub open spec fn ascending_order(a: int, b: int) -> Seq<int> {
    seq![a, b] + subdivide(seq![a, b], b - a + 1)
}

/// The frames of the range `left-right@b`: the coarse-to-fine order of the
/// range, taken from the low end up and reversed for a descending range.
pub open spec fn binary_frames(left: int, right: int) -> Seq<int> {
    if left < right {
        ascending_order(left, right)
    } else if left > right {
        ascending_order(right, left).reverse()
    } else {
        seq![left]
    }
}

/// Relies on itertools' `tuple_windows`: for a list of `n >= 1` items it
/// yields the `n - 1` pairs of neighbours, in order; nothing for an empty list.
#[verifier::external_body]
fn neighbour_pairs(s: &Vec<isize>) -> (r: Vec<(isize, isize)>)
    ensures
        r@.len() == if s@.len() == 0 { 0 } else { s@.len() - 1 },
        forall|i: int| 0 <= i < r@.len() ==> #[trigger] r@[i] == (s@[i], s@[i + 1]),
{
    s.iter().copied().tuple_windows::<(isize, isize)>().collect()
}

/// `floor((l + r) / 2)`, computed without overflow.
fn midpoint(l: isize, r: isize) -> (m: isize)
    requires
        l <= r,
    ensures
        m as int == mid(l as int, r as int),
        l <= m <= r,
{
    let d: i128 = r as i128 - l as i128;
    let m: i128 = l as i128 + d / 2;
    m as isize
}

/// Runs one pass over `seq`: appends the new midpoints to `result` and
/// returns the next pass.
fn bisect_level(seq: &Vec<isize>, result: &mut Vec<isize>) -> (next: Vec<isize>)
    requires
        seq@.len() >= 1,
        increasing(ints(seq@)),
    ensures
        ints(next@) == refine(ints(seq@)),
        ints(final(result)@) == ints(old(result)@) + mids(ints(seq@)),
{
    let ghost s = ints(seq@);
    let pairs = neighbour_pairs(seq);
    let mut next: Vec<isize> = Vec::new();
    let mut i: usize = 0;
    while i < pairs.len()
        invariant
            pairs@.len() == seq@.len() - 1,
            forall|k: int| 0 <= k < pairs@.len() ==> #[trigger] pairs@[k] == (seq@[k], seq@[k + 1]),
            s == ints(seq@),
            increasing(s),
            0 <= i <= pairs@.len(),
            ints(next@) == refine_upto(s, i as int),
            ints(result@) == ints(old(result)@) + mids_upto(s, i as int),
        decreases pairs@.len() - i,
    {
        let (left, right) = pairs[i];
        assert(s[i as int] == left as int && s[i + 1] == right as int);
        assert(s[i as int] < s[i + 1]);
        let m = midpoint(left, right);
        let ghost before = result@;
        if left < m {
            result.push(m);
            assert(ints(result@) =~= ints(before) + seq![m as int]);
            next.push(left);
            next.push(m);
        } else {
            next.push(left);
            assert(window_mid(s, i as int) =~= seq![]);
        }
        assert(mids_upto(s, i + 1) == mids_upto(s, i as int) + window_mid(s, i as int));
        i += 1;
        assert(ints(next@) =~= refine_upto(s, i as int));
        assert(ints(result@) =~= ints(old(result)@) + mids_upto(s, i as int));
    }
    next.push(seq[seq.len() - 1]);
    assert(ints(next@) =~= refine(s));
    next
}

/// Repeats passes over `seq`, appending what each emits to `result`, until
/// `seq` holds `elements` frames or a pass adds nothing.
fn chop(seq: &mut Vec<isize>, result: &mut Vec<isize>, elements: i128)
    requires
        old(seq)@.len() < elements ==> old(seq)@.len() >= 2 && increasing(ints(old(seq)@)),
    ensures
        ints(final(result)@) == ints(old(result)@) + subdivide(ints(old(seq)@), elements as int),
        ints(final(seq)@) == last_pass(ints(old(seq)@), elements as int),
{
    let ghost total = ints(old(result)@) + subdivide(ints(old(seq)@), elements as int);
    let ghost last = last_pass(ints(old(seq)@), elements as int);
    assert(ints(result@) + subdivide(ints(seq@), elements as int) =~= total);
    while (seq.len() as i128) < elements
        invariant
            seq@.len() < elements ==> seq@.len() >= 2 && increasing(ints(seq@)),
            ints(result@) + subdivide(ints(seq@), elements as int) == total,
            last_pass(ints(seq@), elements as int) == last,
        ensures
            ints(result@) == total,
            ints(seq@) == last,
        decreases (if seq@.len() < elements { elements - seq@.len() } else { 0 }),
    {
        let ghost s = ints(seq@);
        let ghost before = ints(result@);
        proof {
            lemma_refine(s);
        }
        let next = bisect_level(seq, result);
        if next.len() <= seq.len() {
            assert(mids(s) =~= seq![]);
            assert(ints(result@) =~= before);
            assert(ints(result@) =~= total);
            assert(ints(seq@) == last);
            break;
        }
        assert(ints(result@) + subdivide(ints(next@), elements as int) =~= before + subdivide(s, elements as int));
        *seq = next;
    }
    assert(subdivide(ints(seq@), elements as int) =~= seq![]);
}

/// `v` backwards.
fn reversed(v: &Vec<isize>) -> (r: Vec<isize>)
    ensures
        ints(r@) == ints(v@).reverse(),
{
    let mut r: Vec<isize> = Vec::new();
    let mut i: usize = v.len();
    while i > 0
        invariant
            i <= v@.len(),
            r@.len() == v@.len() - i,
            forall|k: int| 0 <= k < r@.len() ==> #[trigger] r@[k] == v@[v@.len() - 1 - k],
        decreases i,
    {
        i -= 1;
        r.push(v[i]);
    }
    assert(ints(r@) =~= ints(v@).reverse());
    r
}

/// The frames of the range `range.0-range.1@b`, in coarse-to-fine order.
pub(crate) fn binary_sequence(range: (isize, isize)) -> (r: Vec<isize>)
    ensures
        ints(r@) == binary_frames(range.0 as int, range.1 as int),
{
    let (left, right) = range;
    if left == right {
        let mut r: Vec<isize> = Vec::new();
        r.push(left);
        assert(ints(r@) =~= seq![left as int]);
        return r;
    }
    let (low, high) = if left < right { (left, right) } else { (right, left) };
    let mut seq: Vec<isize> = Vec::new();
    seq.push(low);
    seq.push(high);
    let mut result: Vec<isize> = Vec::new();
    result.push(low);
    result.push(high);
    assert(ints(seq@) =~= seq![low as int, high as int]);
    assert(ints(result@) =~= seq![low as int, high as int]);
    chop(&mut seq, &mut result, high as i128 - low as i128 + 1);
    if left < right {
        result
    } else {
        reversed(&result)
    }
}

/// The integers `lo, lo + 1, ..., hi`.
pub open spec fn span(lo: int, hi: int) -> Seq<int> {
    Seq::new((hi - lo + 1) as nat, |i: int| lo + i)
}

proof fn lemma_mid_between(a: int, b: int)
    requires
        a < b,
    ensures
        a <= mid(a, b) < b,
        b >= a + 2 ==> a < mid(a, b),
{
}

proof fn lemma_refine_upto(s: Seq<int>, k: int)
    requires
        increasing(s),
        0 <= k < s.len(),
    ensures
        refine_upto(s, k).len() == k + mids_upto(s, k).len(),
        increasing(refine_upto(s, k).push(s[k])),
        k > 0 ==> refine_upto(s, k)[0] == s[0],
        refine_upto(s, k).to_multiset() == s.subrange(0, k).to_multiset().add(
            mids_upto(s, k).to_multiset(),
        ),
        mids_upto(s, k).len() == 0 ==> forall|i: int| 0 <= i < k ==> #[trigger] s[i + 1] == s[i] + 1,
    decreases k,
{
    broadcast use group_to_multiset_ensures;

    if k == 0 {
        assert(s.subrange(0, 0) =~= seq![]);
        assert(refine_upto(s, 0).to_multiset() =~= Multiset::empty());
    } else {
        lemma_refine_upto(s, k - 1);
        let r = refine_upto(s, k - 1);
        let w = window_part(s, k - 1);
        let a = s[k - 1];
        let b = s[k];
        lemma_mid_between(a, b);
        let full = (r + w).push(b);
        assert(refine_upto(s, k) == r + w);
        assert forall|i: int| 0 <= i < r.len() implies r[i] < a by {
            assert(r.push(a)[i] < r.push(a)[r.len() as int]);
        }
        assert forall|i: int, j: int| 0 <= i < j < full.len() implies full[i] < full[j] by {
            if j < r.len() {
                assert(r.push(a)[i] < r.push(a)[j]);
            }
        }
        lemma_multiset_commutative(r, w);
        lemma_multiset_commutative(mids_upto(s, k - 1), window_mid(s, k - 1));
        assert(s.subrange(0, k) =~= s.subrange(0, k - 1).push(a));
        if a < mid(a, b) {
            assert(w =~= seq![a].push(mid(a, b)));
            assert(window_mid(s, k - 1) =~= seq![].push(mid(a, b)));
        } else {
            assert(w =~= seq![].push(a));
            assert(window_mid(s, k - 1) =~= seq![]);
        }
        assert(refine_upto(s, k).to_multiset() =~= s.subrange(0, k).to_multiset().add(
            mids_upto(s, k).to_multiset(),
        ));
    }
}

proof fn lemma_refine(s: Seq<int>)
    requires
        increasing(s),
        s.len() >= 1,
    ensures
        refine(s).len() == s.len() + mids(s).len(),
        increasing(refine(s)),
        refine(s)[0] == s[0],
        refine(s).last() == s.last(),
        refine(s).to_multiset() == s.to_multiset().add(mids(s).to_multiset()),
        mids(s).len() == 0 ==> forall|i: int| 0 <= i < s.len() - 1 ==> #[trigger] s[i + 1] == s[i] + 1,
{
    broadcast use group_to_multiset_ensures;

    let k = s.len() - 1;
    lemma_refine_upto(s, k);
    assert(s.subrange(0, k).push(s.last()) =~= s);
    if k == 0 {
        assert(refine(s) =~= seq![s[0]]);
    }
    assert(refine(s).to_multiset() =~= s.to_multiset().add(mids(s).to_multiset()));
}

proof fn lemma_lower(s: Seq<int>, i: int)
    requires
        increasing(s),
        0 <= i < s.len(),
    ensures
        s[i] >= s[0] + i,
    decreases i,
{
    if i > 0 {
        lemma_lower(s, i - 1);
    }
}

proof fn lemma_upper(s: Seq<int>, i: int)
    requires
        increasing(s),
        0 <= i < s.len(),
    ensures
        s[i] <= s.last() - (s.len() - 1 - i),
    decreases s.len() - i,
{
    if i < s.len() - 1 {
        lemma_upper(s, i + 1);
    }
}

proof fn lemma_unit_steps(s: Seq<int>, i: int)
    requires
        s.len() >= 1,
        forall|j: int| 0 <= j < s.len() - 1 ==> #[trigger] s[j + 1] == s[j] + 1,
        0 <= i < s.len(),
    ensures
        s[i] == s[0] + i,
    decreases i,
{
    if i > 0 {
        lemma_unit_steps(s, i - 1);
        assert(s[(i - 1) + 1] == s[i - 1] + 1);
    }
}

/// The pass after which no more passes are made: each pass over an ascending
/// list from one end of a range to the other adds at least one frame until
/// the range is covered, and when it holds at least `n` frames (`n` at most
/// the width of the range) it is increasing, has the same ends, and holds the
/// frames it started from together with everything emitted on the way. When
/// `n` is the width, it is every integer between the ends.
pub proof fn lemma_last_pass(s: Seq<int>, n: int)
    requires
        increasing(s),
        s.len() >= 2,
        n <= s.last() - s[0] + 1,
    ensures
        increasing(last_pass(s, n)),
        last_pass(s, n)[0] == s[0],
        last_pass(s, n).last() == s.last(),
        last_pass(s, n).len() >= n,
        n == s.last() - s[0] + 1 ==> last_pass(s, n) == span(s[0], s.last()),
        last_pass(s, n).to_multiset() == s.to_multiset().add(subdivide(s, n).to_multiset()),
    decreases (if s.len() < n { n - s.len() } else { 0 }),
{
    broadcast use group_to_multiset_ensures;

    lemma_refine(s);
    if 2 <= s.len() < n && s.len() < refine(s).len() {
        let t = refine(s);
        lemma_last_pass(t, n);
        lemma_multiset_commutative(mids(s), subdivide(t, n));
        assert(s.to_multiset().add(subdivide(s, n).to_multiset()) =~= t.to_multiset().add(
            subdivide(t, n).to_multiset(),
        ));
    } else {
        assert(subdivide(s, n) =~= seq![]);
        assert(s.to_multiset().add(subdivide(s, n).to_multiset()) =~= s.to_multiset());
        if s.len() < n {
            assert forall|i: int| 0 <= i < s.len() implies #[trigger] s[i] == s[0] + i by {
                lemma_unit_steps(s, i);
            }
            lemma_unit_steps(s, s.len() - 1);
            assert(s =~= span(s[0], s.last()));
        } else if n == s.last() - s[0] + 1 {
            lemma_lower(s, s.len() - 1);
            assert forall|i: int| 0 <= i < s.len() implies #[trigger] s[i] == s[0] + i by {
                lemma_lower(s, i);
                lemma_upper(s, i);
            }
            assert(s =~= span(s[0], s.last()));
        }
    }
}

/// A range walked in coarse-to-fine order visits every integer between its
/// bounds exactly once: for `left != right` the frames of `left-right@b` are
/// a permutation of the integers from `min(left, right)` to
/// `max(left, right)`.
pub proof fn lemma_binary_frames_permutation(left: int, right: int)
    requires
        left != right,
    ensures
        binary_frames(left, right).to_multiset() == (if left < right {
            span(left, right)
        } else {
            span(right, left)
        }).to_multiset(),
{
    broadcast use group_to_multiset_ensures;

    let (a, b) = if left < right { (left, right) } else { (right, left) };
    let s = seq![a, b];
    assert(increasing(s));
    lemma_last_pass(s, b - a + 1);
    lemma_multiset_commutative(s, subdivide(s, b - a + 1));
    if left > right {
        ascending_order(a, b).lemma_reverse_to_multiset();
    }
}

/// A coarse-to-fine range starts from its bounds: the frames of
/// `left-right@b` open with `left, right` when `left < right`; a descending
/// range is the ascending order reversed, so it closes with `left, right`.
pub proof fn lemma_binary_frames_ends(left: int, right: int)
    requires
        left != right,
    ensures
        binary_frames(left, right).len() >= 2,
        left < right ==> binary_frames(left, right)[0] == left && binary_frames(left, right)[1]
            == right,
        left > right ==> {
            let f = binary_frames(left, right);
            f[f.len() - 2] == left && f[f.len() - 1] == right
        },
{
}

} // verus!
