//! Detection post-processing: class decoding, greedy non-maximum
//! suppression over a precomputed overlap relation, and target choice.

use vstd::prelude::*;

verus! {

/// Detection classes emitted by the detector, in the order of their ids.
#[derive(Debug, Clone, Copy, PartialEq, Eq, Structural)]
pub enum DetectionClass {
    THead,
    CtHead,
    TBody,
    CtBody,
}

/// The class with the given detector id, if any.
pub open spec fn class_of_id(id: u32) -> Option<DetectionClass> {
    if id == 0 {
        Some(DetectionClass::THead)
    } else if id == 1 {
        Some(DetectionClass::CtHead)
    } else if id == 2 {
        Some(DetectionClass::TBody)
    } else if id == 3 {
        Some(DetectionClass::CtBody)
    } else {
        None
    }
}

impl DetectionClass {
    /// Whether this class marks a head.
    pub open spec fn spec_is_head(self) -> bool {
        self is THead || self is CtHead
    }

    /// Decodes a detector class id.
    pub fn from_id(id: u32) -> (res: Option<DetectionClass>)
        ensures
            res == class_of_id(id),
    {
        match id {
            0 => Some(DetectionClass::THead),
            1 => Some(DetectionClass::CtHead),
            2 => Some(DetectionClass::TBody),
            3 => Some(DetectionClass::CtBody),
            _ => None,
        }
    }

    /// Whether this class marks a head (as opposed to a body).
    pub fn is_head(&self) -> (res: bool)
        ensures
            res == self.spec_is_head(),
    {
        match self {
            DetectionClass::THead | DetectionClass::CtHead => true,
            _ => false,
        }
    }
}

} // verus!

verus! {

/// The suppression decisions of greedy non-maximum suppression over the first
/// `k` detections, which are ordered by descending confidence.
///
/// `overlap[i][j]` (for `i < j`) tells whether detection `i` overlaps detection
/// `j` beyond the IoU threshold. A detection is kept exactly when no earlier
/// kept detection overlaps it.
pub open spec fn keep_prefix(overlap: Seq<Seq<bool>>, k: nat) -> Seq<bool>
    decreases k,
{
    if k == 0 {
        Seq::empty()
    } else {
        let prev = keep_prefix(overlap, (k - 1) as nat);
        let j = k - 1;
        prev.push(forall|i: int| 0 <= i < j ==> !(#[trigger] prev[i] && overlap[i][j]))
    }
}

/// Every row of `overlap` has `n` entries and there are `n` rows.
pub open spec fn is_square(overlap: Seq<Seq<bool>>, n: nat) -> bool {
    &&& overlap.len() == n
    &&& forall|i: int| 0 <= i < n ==> (#[trigger] overlap[i]).len() == n
}

/// The prefix of length `k` has length `k`, and each decision is the greedy one.
pub proof fn lemma_keep_prefix(overlap: Seq<Seq<bool>>, k: nat)
    ensures
        keep_prefix(overlap, k).len() == k,
        forall|j: int|
            0 <= j < k ==> (#[trigger] keep_prefix(overlap, k)[j] <==> (forall|i: int|
                0 <= i < j ==> !(keep_prefix(overlap, k)[i] && overlap[i][j]))),
    decreases k,
{
    if k > 0 {
        lemma_keep_prefix(overlap, (k - 1) as nat);
        let prev = keep_prefix(overlap, (k - 1) as nat);
        let cur = keep_prefix(overlap, k);
        assert forall|j: int| 0 <= j < k implies (#[trigger] cur[j] <==> (forall|i: int|
            0 <= i < j ==> !(cur[i] && overlap[i][j]))) by {
            assert forall|i: int| 0 <= i < j implies cur[i] == prev[i] by {}
            if j < k - 1 {
                assert(cur[j] == prev[j]);
            }
        }
    }
}

/// Greedy non-maximum suppression: given the overlap relation between
/// detections sorted by descending confidence, marks which ones to keep.
/// Detection `i` suppresses every later detection it overlaps, unless `i`
/// was itself suppressed.
pub fn suppression_mask(overlap: &Vec<Vec<bool>>) -> (keep: Vec<bool>)
    requires
        is_square(overlap.deep_view(), overlap.len() as nat),
    ensures
        keep@ == keep_prefix(overlap.deep_view(), overlap.len() as nat),
{
    let n = overlap.len();
    let ghost ov = overlap.deep_view();
    let ghost m = keep_prefix(ov, n as nat);
    proof {
        lemma_keep_prefix(ov, n as nat);
    }
    let mut keep: Vec<bool> = Vec::new();
    let mut k: usize = 0;
    while k < n
        invariant
            k <= n,
            keep@.len() == k,
            forall|j: int| 0 <= j < k ==> keep@[j],
        decreases n - k,
    {
        keep.push(true);
        k = k + 1;
    }
    let mut i: usize = 0;
    while i < n
        invariant
            n == overlap.len(),
            ov == overlap.deep_view(),
            is_square(ov, n as nat),
            m == keep_prefix(ov, n as nat),
            m.len() == n,
            forall|j: int|
                0 <= j < n ==> (#[trigger] m[j] <==> (forall|i2: int|
                    0 <= i2 < j ==> !(m[i2] && ov[i2][j]))),
            i <= n,
            keep@.len() == n,
            forall|j: int| 0 <= j < i ==> #[trigger] keep@[j] == m[j],
            forall|j: int|
                i <= j < n ==> (#[trigger] keep@[j] <==> (forall|i2: int|
                    0 <= i2 < i ==> !(m[i2] && ov[i2][j]))),
        decreases n - i,
    {
        assert(keep@[i as int] == m[i as int]);
        if keep[i] {
            let mut j: usize = i + 1;
            while j < n
                invariant
                    n == overlap.len(),
                    ov == overlap.deep_view(),
                    is_square(ov, n as nat),
                    m.len() == n,
                    i < j <= n,
                    m[i as int],
                    keep@.len() == n,
                    forall|j2: int| 0 <= j2 <= i ==> #[trigger] keep@[j2] == m[j2],
                    forall|j2: int|
                        i < j2 < j ==> (#[trigger] keep@[j2] <==> (forall|i2: int|
                            0 <= i2 <= i ==> !(m[i2] && ov[i2][j2]))),
                    forall|j2: int|
                        j <= j2 < n ==> (#[trigger] keep@[j2] <==> (forall|i2: int|
                            0 <= i2 < i ==> !(m[i2] && ov[i2][j2]))),
                decreases n - j,
            {
                assert(overlap@[i as int]@ == ov[i as int]);
                if keep[j] && overlap[i][j] {
                    keep.set(j, false);
                }
                proof {
                    assert forall|j2: int| i < j2 < j + 1 implies (#[trigger] keep@[j2] <==> (
                    forall|i2: int| 0 <= i2 <= i ==> !(m[i2] && ov[i2][j2]))) by {
                        if j2 < j {
                        } else {
                            if !(forall|i2: int| 0 <= i2 <= i ==> !(m[i2] && ov[i2][j2])) {
                                let w = choose|i2: int| 0 <= i2 <= i && m[i2] && ov[i2][j2];
                            }
                        }
                    }
                }
                j = j + 1;
            }
        } else {
            proof {
                assert forall|j2: int| i < j2 < n implies (#[trigger] keep@[j2] <==> (forall|
                    i2: int,
                | 0 <= i2 < i + 1 ==> !(m[i2] && ov[i2][j2]))) by {
                    if !(forall|i2: int| 0 <= i2 < i + 1 ==> !(m[i2] && ov[i2][j2])) {
                        let w = choose|i2: int| 0 <= i2 < i + 1 && m[i2] && ov[i2][j2];
                        assert(w != i);
                    }
                }
            }
        }
        i = i + 1;
    }
    assert(keep@ =~= m);
    keep
}

} // verus!

verus! {

/// Laws of greedy suppression over `n` detections sorted by confidence:
/// no two kept detections overlap; every suppressed detection is overlapped
/// by an earlier, kept one; and the most confident detection is always kept.
pub proof fn lemma_suppression_laws(overlap: Seq<Seq<bool>>, n: nat)
    ensures
        forall|i: int, j: int|
            0 <= i < j < n && #[trigger] keep_prefix(overlap, n)[i] && #[trigger] keep_prefix(
                overlap,
                n,
            )[j] ==> !overlap[i][j],
        forall|j: int|
            0 <= j < n && !#[trigger] keep_prefix(overlap, n)[j] ==> exists|i: int|
                0 <= i < j && keep_prefix(overlap, n)[i] && overlap[i][j],
        n > 0 ==> keep_prefix(overlap, n)[0],
{
    lemma_keep_prefix(overlap, n);
}

/// The elements of `s` whose flag in `marks` is set, in their original order.
pub open spec fn retained<T>(s: Seq<T>, marks: Seq<bool>) -> Seq<T>
    decreases s.len(),
{
    if s.len() == 0 {
        Seq::empty()
    } else {
        let rest = retained(s.drop_last(), marks.take(s.len() - 1));
        if marks[s.len() - 1] {
            rest.push(s.last())
        } else {
            rest
        }
    }
}

/// Keeps exactly the items whose flag in `keep` is set, preserving order.
pub fn retain_marked<T>(items: &mut Vec<T>, keep: &Vec<bool>)
    requires
        old(items).len() == keep.len(),
    ensures
        final(items)@ == retained(old(items)@, keep@),
{
    let n = keep.len();
    let ghost orig = items@;
    let mut k: usize = 0;
    let mut pos: usize = 0;
    assert(orig.take(0) =~= Seq::<T>::empty());
    assert(items@ =~= retained(orig.take(0), keep@.take(0)) + orig.skip(0));
    while k < n
        invariant
            n == keep.len(),
            orig.len() == n,
            k <= n,
            pos <= k,
            pos == retained(orig.take(k as int), keep@.take(k as int)).len(),
            items@ == retained(orig.take(k as int), keep@.take(k as int)) + orig.skip(k as int),
        decreases n - k,
    {
        let ghost before = retained(orig.take(k as int), keep@.take(k as int));
        assert(orig.take(k + 1).drop_last() =~= orig.take(k as int));
        assert(keep@.take(k + 1).take(k as int) =~= keep@.take(k as int));
        assert(orig.take(k + 1).last() == orig[k as int]);
        assert(items@[pos as int] == orig[k as int]);
        if keep[k] {
            assert(retained(orig.take(k + 1), keep@.take(k + 1)) == before.push(orig[k as int]));
            assert(items@ =~= before.push(orig[k as int]) + orig.skip(k + 1));
            pos = pos + 1;
        } else {
            assert(retained(orig.take(k + 1), keep@.take(k + 1)) == before);
            items.remove(pos);
            assert(items@ =~= before + orig.skip(k + 1));
        }
        k = k + 1;
    }
    assert(orig.take(n as int) =~= orig);
    assert(keep@.take(n as int) =~= keep@);
    assert(orig.skip(n as int) =~= Seq::<T>::empty());
    assert(items@ =~= retained(orig, keep@));
}

} // verus!

verus! {

/// The positions at which `marks` is set, in increasing order.
pub open spec fn marked_indices(marks: Seq<bool>) -> Seq<int>
    decreases marks.len(),
{
    if marks.len() == 0 {
        Seq::empty()
    } else {
        let rest = marked_indices(marks.drop_last());
        if marks.last() {
            rest.push(marks.len() - 1)
        } else {
            rest
        }
    }
}

/// The candidate a left-to-right scan keeps as nearest: the first one,
/// replaced by a later one only when the kept one is strictly farther
/// (`farther[a][b]` tells whether `a` is strictly farther than `b`).
pub open spec fn nearest(farther: Seq<Seq<bool>>, cands: Seq<int>) -> Option<int>
    decreases cands.len(),
{
    if cands.len() == 0 {
        None
    } else {
        let y = cands.last();
        match nearest(farther, cands.drop_last()) {
            None => Some(y),
            Some(c) => if farther[c][y] {
                Some(y)
            } else {
                Some(c)
            },
        }
    }
}

/// Flags of the candidates that are heads inside the field of view.
pub open spec fn head_marks(in_fov: Seq<bool>, is_head: Seq<bool>) -> Seq<bool> {
    Seq::new(in_fov.len(), |k: int| in_fov[k] && is_head[k])
}

/// The chosen target: the nearest head in the field of view if there is one,
/// else the nearest detection in the field of view, else none.
pub open spec fn chosen_target(
    in_fov: Seq<bool>,
    is_head: Seq<bool>,
    farther: Seq<Seq<bool>>,
) -> Option<int> {
    match nearest(farther, marked_indices(head_marks(in_fov, is_head))) {
        Some(h) => Some(h),
        None => nearest(farther, marked_indices(in_fov)),
    }
}

/// One step of the nearest-candidate scan.
fn scan_step(best: Option<usize>, k: usize, farther: &Vec<Vec<bool>>) -> (res: Option<usize>)
    requires
        k < farther.len(),
        best matches Some(c) ==> c < farther.len() && farther.deep_view()[c as int].len() == farther.len(),
    ensures
        res == match best {
            None => Some(k),
            Some(c) => if farther.deep_view()[c as int][k as int] {
                Some(k)
            } else {
                Some(c)
            },
        },
{
    match best {
        None => Some(k),
        Some(c) => {
            assert(farther@[c as int]@ == farther.deep_view()[c as int]);
            if farther[c][k] {
                Some(k)
            } else {
                Some(c)
            }
        },
    }
}

/// Picks the target among detections: heads are preferred over bodies, and
/// among the preferred class the nearest to the crosshair wins (the first
/// one in order among equally near ones). Only detections with `in_fov` set
/// are candidates. `farther[a][b]` tells whether detection `a` is strictly
/// farther from the crosshair than detection `b`.
pub fn select_target_index(in_fov: &Vec<bool>, is_head: &Vec<bool>, farther: &Vec<Vec<bool>>) -> (res:
    Option<usize>)
    requires
        is_head.len() == in_fov.len(),
        is_square(farther.deep_view(), in_fov.len() as nat),
    ensures
        res matches Some(r) ==> chosen_target(in_fov@, is_head@, farther.deep_view()) == Some(
            r as int,
        ),
        res is None ==> chosen_target(in_fov@, is_head@, farther.deep_view()) is None,
{
    let n = in_fov.len();
    let ghost fv = farther.deep_view();
    let ghost heads = head_marks(in_fov@, is_head@);
    let mut best_any: Option<usize> = None;
    let mut best_head: Option<usize> = None;
    let mut k: usize = 0;
    while k < n
        invariant
            n == in_fov.len(),
            n == is_head.len(),
            fv == farther.deep_view(),
            is_square(fv, n as nat),
            heads == head_marks(in_fov@, is_head@),
            k <= n,
            best_any matches Some(c) ==> c < k,
            best_head matches Some(c) ==> c < k,
            best_any matches Some(c) ==> nearest(fv, marked_indices(in_fov@.take(k as int)))
                == Some(c as int),
            best_any is None ==> nearest(fv, marked_indices(in_fov@.take(k as int))) is None,
            best_head matches Some(c) ==> nearest(fv, marked_indices(heads.take(k as int)))
                == Some(c as int),
            best_head is None ==> nearest(fv, marked_indices(heads.take(k as int))) is None,
        decreases n - k,
    {
        assert(in_fov@.take(k + 1).drop_last() =~= in_fov@.take(k as int));
        assert(heads.take(k + 1).drop_last() =~= heads.take(k as int));
        if in_fov[k] {
            let ghost ms = marked_indices(in_fov@.take(k + 1));
            assert(ms == marked_indices(in_fov@.take(k as int)).push(k as int));
            assert(ms.drop_last() =~= marked_indices(in_fov@.take(k as int)));
            best_any = scan_step(best_any, k, farther);
            if is_head[k] {
                let ghost hs = marked_indices(heads.take(k + 1));
                assert(heads.take(k + 1).last());
                assert(hs == marked_indices(heads.take(k as int)).push(k as int));
                assert(hs.drop_last() =~= marked_indices(heads.take(k as int)));
                best_head = scan_step(best_head, k, farther);
            } else {
                assert(!heads.take(k + 1).last());
            }
        } else {
            assert(!heads.take(k + 1).last());
        }
        k = k + 1;
    }
    assert(in_fov@.take(n as int) =~= in_fov@);
    assert(heads.take(n as int) =~= heads);
    if best_head.is_some() {
        best_head
    } else {
        best_any
    }
}

} // verus!

verus! {

/// `marked_indices` lists exactly the set positions, each in range.
pub proof fn lemma_marked_indices(marks: Seq<bool>)
    ensures
        forall|j: int|
            0 <= j < marked_indices(marks).len() ==> 0 <= #[trigger] marked_indices(marks)[j]
                < marks.len() && marks[marked_indices(marks)[j]],
        forall|i: int|
            0 <= i < marks.len() && #[trigger] marks[i] ==> marked_indices(marks).contains(i),
        marked_indices(marks).len() == 0 <==> forall|i: int| 0 <= i < marks.len() ==> !marks[i],
    decreases marks.len(),
{
    if marks.len() > 0 {
        let rest = marks.drop_last();
        lemma_marked_indices(rest);
        let ms = marked_indices(marks);
        assert forall|i: int| 0 <= i < marks.len() && #[trigger] marks[i] implies ms.contains(i) by {
            if i < marks.len() - 1 {
                assert(rest[i]);
                let j = choose|j: int| 0 <= j < marked_indices(rest).len() && marked_indices(rest)[j] == i;
                assert(ms[j] == i);
            } else {
                assert(ms[ms.len() - 1] == i);
            }
        }
        if ms.len() == 0 {
            assert forall|i: int| 0 <= i < marks.len() implies !marks[i] by {
                if marks[i] {
                    assert(ms.contains(i));
                }
            }
        }
    }
}

/// `farther` is irreflexive and transitive on the first `n` positions, as the
/// strict "greater than" on distances is.
pub open spec fn is_strict_order(farther: Seq<Seq<bool>>, n: nat) -> bool {
    &&& forall|a: int| 0 <= a < n ==> !(#[trigger] farther[a][a])
    &&& forall|a: int, b: int, c: int|
        0 <= a < n && 0 <= b < n && 0 <= c < n && #[trigger] farther[a][b] && #[trigger] farther[b][c]
            ==> farther[a][c]
}

/// The scan keeps some candidate exactly when there is one, and, for a strict
/// order, no candidate is strictly nearer than the one kept.
pub proof fn lemma_nearest(farther: Seq<Seq<bool>>, n: nat, cands: Seq<int>)
    requires
        forall|j: int| 0 <= j < cands.len() ==> 0 <= #[trigger] cands[j] < n,
    ensures
        nearest(farther, cands) is Some <==> cands.len() > 0,
        nearest(farther, cands) matches Some(r) ==> cands.contains(r),
        is_strict_order(farther, n) ==> (nearest(farther, cands) matches Some(r) ==> forall|j: int|
            0 <= j < cands.len() ==> !farther[r][#[trigger] cands[j]]),
    decreases cands.len(),
{
    if cands.len() > 0 {
        let rest = cands.drop_last();
        lemma_nearest(farther, n, rest);
        let y = cands.last();
        assert(cands[cands.len() - 1] == y);
        match nearest(farther, rest) {
            None => {},
            Some(c) => {
                let j0 = choose|j: int| 0 <= j < rest.len() && rest[j] == c;
                assert(cands[j0] == c);
                if is_strict_order(farther, n) {
                    let r = nearest(farther, cands)->0;
                    assert forall|j: int| 0 <= j < cands.len() implies !farther[r][#[trigger] cands[j]] by {
                        if j < cands.len() - 1 {
                            assert(cands[j] == rest[j]);
                            assert(!farther[c][rest[j]]);
                            if farther[c][y] && farther[y][cands[j]] {
                                assert(farther[c][cands[j]]);
                            }
                        }
                    }
                }
            },
        }
    }
}

/// Target choice laws: the chosen detection is in the field of view; there is
/// a choice exactly when some detection is in the field of view; it is a head
/// whenever some head is in the field of view; and, when `farther` is a strict
/// order, no candidate of the chosen one's kind (head or body) in the field of
/// view is strictly nearer.
pub proof fn lemma_target_laws(in_fov: Seq<bool>, is_head: Seq<bool>, farther: Seq<Seq<bool>>)
    requires
        is_head.len() == in_fov.len(),
    ensures
        chosen_target(in_fov, is_head, farther) matches Some(r) ==> 0 <= r < in_fov.len()
            && in_fov[r],
        chosen_target(in_fov, is_head, farther) is Some <==> exists|k: int|
            0 <= k < in_fov.len() && #[trigger] in_fov[k],
        (exists|k: int| 0 <= k < in_fov.len() && in_fov[k] && #[trigger] is_head[k])
            ==> (chosen_target(in_fov, is_head, farther) matches Some(r) && is_head[r]),
        is_strict_order(farther, in_fov.len() as nat) ==> (chosen_target(
            in_fov,
            is_head,
            farther,
        ) matches Some(r) ==> forall|k: int|
            0 <= k < in_fov.len() && #[trigger] in_fov[k] && is_head[k] == is_head[r]
                ==> !farther[r][k]),
{
    let n = in_fov.len();
    let heads = head_marks(in_fov, is_head);
    lemma_marked_indices(in_fov);
    lemma_marked_indices(heads);
    let mh = marked_indices(heads);
    let ma = marked_indices(in_fov);
    lemma_nearest(farther, n as nat, mh);
    lemma_nearest(farther, n as nat, ma);
    if exists|k: int| 0 <= k < n && in_fov[k] {
        let k = choose|k: int| 0 <= k < n && in_fov[k];
        assert(ma.contains(k));
    }
    if exists|k: int| 0 <= k < n && in_fov[k] && is_head[k] {
        let k = choose|k: int| 0 <= k < n && in_fov[k] && is_head[k];
        assert(heads[k]);
        assert(mh.contains(k));
    }
    match nearest(farther, mh) {
        Some(h) => {
            let jh = choose|j: int| 0 <= j < mh.len() && mh[j] == h;
            assert(heads[mh[jh]]);
            if is_strict_order(farther, n as nat) {
                assert forall|k: int|
                    0 <= k < n && #[trigger] in_fov[k] && is_head[k] == is_head[h] implies !farther[h][k] by {
                    assert(heads[k]);
                    assert(mh.contains(k));
                    let j = choose|j: int| 0 <= j < mh.len() && mh[j] == k;
                }
            }
        },
        None => {
            match nearest(farther, ma) {
                Some(r) => {
                    let jr = choose|j: int| 0 <= j < ma.len() && ma[j] == r;
                    if is_strict_order(farther, n as nat) {
                        assert forall|k: int|
                            0 <= k < n && #[trigger] in_fov[k] && is_head[k] == is_head[r] implies !farther[r][k] by {
                            assert(ma.contains(k));
                            let j = choose|j: int| 0 <= j < ma.len() && ma[j] == k;
                        }
                    }
                },
                None => {},
            }
        },
    }
}

} // verus!

verus! {

/// The overlap relation among the detections at positions `idx`, in that order.
pub open spec fn restrict(overlap: Seq<Seq<bool>>, idx: Seq<int>) -> Seq<Seq<bool>> {
    Seq::new(idx.len(), |a: int| Seq::new(idx.len(), |b: int| overlap[idx[a]][idx[b]]))
}

/// Greedy suppression over `n` detections of which no earlier one overlaps a
/// later one keeps every detection.
pub proof fn lemma_suppression_keeps_all(overlap: Seq<Seq<bool>>, n: nat)
    requires
        forall|i: int, j: int| 0 <= i < j < n ==> !#[trigger] overlap[i][j],
    ensures
        keep_prefix(overlap, n) == Seq::new(n, |k: int| true),
{
    lemma_keep_prefix(overlap, n);
    assert(keep_prefix(overlap, n) =~= Seq::new(n, |k: int| true));
}

/// The set positions of `marks` come in strictly increasing order.
proof fn lemma_marked_indices_increasing(marks: Seq<bool>)
    ensures
        forall|a: int, b: int|
            0 <= a < b < marked_indices(marks).len() ==> #[trigger] marked_indices(marks)[a]
                < #[trigger] marked_indices(marks)[b],
    decreases marks.len(),
{
    if marks.len() > 0 {
        let rest = marks.drop_last();
        lemma_marked_indices_increasing(rest);
        lemma_marked_indices(rest);
        let ms = marked_indices(marks);
        let mr = marked_indices(rest);
        assert forall|a: int, b: int| 0 <= a < b < ms.len() implies #[trigger] ms[a] < #[trigger] ms[b] by {
            if b < mr.len() {
                assert(ms[a] == mr[a] && ms[b] == mr[b]);
            } else {
                assert(ms[a] == mr[a]);
                assert(mr[a] < rest.len());
            }
        }
    }
}

/// The retained items are the items at the set positions, in order.
proof fn lemma_retained_at<T>(s: Seq<T>, marks: Seq<bool>)
    requires
        s.len() == marks.len(),
    ensures
        retained(s, marks).len() == marked_indices(marks).len(),
        forall|a: int|
            0 <= a < retained(s, marks).len() ==> #[trigger] retained(s, marks)[a]
                == s[marked_indices(marks)[a]],
    decreases s.len(),
{
    if s.len() > 0 {
        let rest = s.drop_last();
        let mrest = marks.take(s.len() - 1);
        assert(mrest =~= marks.drop_last());
        lemma_retained_at(rest, mrest);
        lemma_marked_indices(mrest);
        let r = retained(s, marks);
        let rr = retained(rest, mrest);
        assert forall|a: int| 0 <= a < r.len() implies #[trigger] r[a] == s[marked_indices(marks)[a]] by {
            if a < rr.len() {
                assert(r[a] == rr[a]);
                assert(marked_indices(marks)[a] == marked_indices(mrest)[a]);
                assert(rest[marked_indices(mrest)[a]] == s[marked_indices(mrest)[a]]);
            }
        }
    }
}

/// Retaining with every flag set keeps everything.
proof fn lemma_retained_all<T>(s: Seq<T>)
    ensures
        retained(s, Seq::new(s.len(), |k: int| true)) == s,
    decreases s.len(),
{
    if s.len() > 0 {
        let all = Seq::new(s.len(), |k: int| true);
        assert(all.take(s.len() - 1) =~= Seq::new((s.len() - 1) as nat, |k: int| true));
        lemma_retained_all(s.drop_last());
        assert(s.drop_last().push(s.last()) =~= s);
    }
}

/// Suppressing a second time changes nothing: the detections that greedy
/// suppression retains from `s` are those at the kept positions, in order;
/// no earlier one of them overlaps a later one, so suppression over the
/// overlap relation among them keeps them all and retains the same list.
pub proof fn lemma_suppression_idempotent<T>(overlap: Seq<Seq<bool>>, s: Seq<T>)
    ensures
        ({
            let keep = keep_prefix(overlap, s.len());
            let idx = marked_indices(keep);
            let kept = retained(s, keep);
            &&& kept.len() == idx.len()
            &&& forall|a: int| 0 <= a < kept.len() ==> #[trigger] kept[a] == s[idx[a]]
            &&& keep_prefix(restrict(overlap, idx), kept.len()) == Seq::new(kept.len(), |a: int| true)
            &&& retained(kept, keep_prefix(restrict(overlap, idx), kept.len())) == kept
        }),
{
    let n = s.len();
    let keep = keep_prefix(overlap, n);
    let idx = marked_indices(keep);
    let kept = retained(s, keep);
    lemma_keep_prefix(overlap, n);
    lemma_suppression_laws(overlap, n);
    lemma_retained_at(s, keep);
    lemma_marked_indices(keep);
    lemma_marked_indices_increasing(keep);
    let sub = restrict(overlap, idx);
    assert forall|a: int, b: int| 0 <= a < b < kept.len() implies !#[trigger] sub[a][b] by {
        assert(idx[a] < idx[b]);
        assert(keep[idx[a]] && keep[idx[b]]);
        assert(sub[a][b] == overlap[idx[a]][idx[b]]);
    }
    lemma_suppression_keeps_all(sub, kept.len());
    lemma_retained_all(kept);
}

} // verus!
