//! Merging of overlapping detections by intersection over union.

use crate::scanner::Detection;
use vstd::prelude::*;

verus! {

/// A group of merged detections: the sums of their centers, sizes and scores,
/// and how many there are. Its center and size are the sums divided by
/// `count`; its score is the sum itself.
#[derive(Clone, Copy, Debug, PartialEq, Eq, Structural)]
pub struct Cluster {
    pub row_sum: i128,
    pub col_sum: i128,
    pub scale_sum: u128,
    pub score: i128,
    pub count: u64,
}

/// Overlap along one axis of two squares centered at `a1`, `a2` (pixels) with
/// sides `s1`, `s2` (thousandths), in units of 1/2000 pixel.
pub open spec fn overlap(a1: int, s1: int, a2: int, s2: int) -> int {
    let hi1 = 2000 * a1 + s1;
    let hi2 = 2000 * a2 + s2;
    let lo1 = 2000 * a1 - s1;
    let lo2 = 2000 * a2 - s2;
    let hi = if hi1 < hi2 { hi1 } else { hi2 };
    let lo = if lo1 > lo2 { lo1 } else { lo2 };
    if hi - lo > 0 {
        hi - lo
    } else {
        0
    }
}

/// The numerator of the IoU of `a` and `b`: their overlap area.
pub open spec fn iou_num(a: Detection, b: Detection) -> int {
    overlap(a.row as int, a.scale as int, b.row as int, b.scale as int) * overlap(
        a.col as int,
        a.scale as int,
        b.col as int,
        b.scale as int,
    )
}

/// The denominator of the IoU: the two squares' areas less the overlap, in the
/// same units as `iou_num`.
pub open spec fn iou_den(a: Detection, b: Detection) -> int {
    4 * (a.scale * a.scale) + 4 * (b.scale * b.scale) - iou_num(a, b)
}

/// The IoU of `a` and `b` is above `thr` thousandths.
pub open spec fn exceeds(a: Detection, b: Detection, thr: int) -> bool {
    iou_num(a, b) * 1000 > thr * iou_den(a, b)
}

/// IoU is symmetric.
pub proof fn lemma_iou_symmetric(a: Detection, b: Detection)
    ensures
        iou_num(a, b) == iou_num(b, a),
        iou_den(a, b) == iou_den(b, a),
{
    assert(overlap(a.row as int, a.scale as int, b.row as int, b.scale as int) == overlap(
        b.row as int,
        b.scale as int,
        a.row as int,
        a.scale as int,
    ));
    assert(overlap(a.col as int, a.scale as int, b.col as int, b.scale as int) == overlap(
        b.col as int,
        b.scale as int,
        a.col as int,
        a.scale as int,
    ));
}

/// Two detections with the same center and size have an IoU of one.
pub proof fn lemma_iou_identical(a: Detection, b: Detection)
    requires
        a.row == b.row,
        a.col == b.col,
        a.scale == b.scale,
        a.scale > 0,
    ensures
        iou_num(a, b) == iou_den(a, b),
        iou_den(a, b) > 0,
{
    let s = a.scale as int;
    assert(overlap(a.row as int, s, b.row as int, s) == 2 * s);
    assert(overlap(a.col as int, s, b.col as int, s) == 2 * s);
    assert((2 * s) * (2 * s) == 4 * (s * s)) by (nonlinear_arith);
    assert(s * s > 0) by (nonlinear_arith)
        requires
            s > 0,
    ;
}

/// Two detections whose squares do not overlap along some axis have an IoU
/// of zero.
pub proof fn lemma_iou_disjoint(a: Detection, b: Detection)
    requires
        a.scale > 0 || b.scale > 0,
        overlap(a.row as int, a.scale as int, b.row as int, b.scale as int) == 0 || overlap(
            a.col as int,
            a.scale as int,
            b.col as int,
            b.scale as int,
        ) == 0,
    ensures
        iou_num(a, b) == 0,
        iou_den(a, b) > 0,
{
    assert(a.scale * a.scale + b.scale * b.scale > 0) by (nonlinear_arith)
        requires
            a.scale > 0 || b.scale > 0,
    ;
}

fn axis_overlap(a1: i32, s1: u32, a2: i32, s2: u32) -> (r: i128)
    ensures
        r == overlap(a1 as int, s1 as int, a2 as int, s2 as int),
        0 <= r <= 0x200_0000_0000,
{
    let hi1 = 2000 * a1 as i128 + s1 as i128;
    let hi2 = 2000 * a2 as i128 + s2 as i128;
    let lo1 = 2000 * a1 as i128 - s1 as i128;
    let lo2 = 2000 * a2 as i128 - s2 as i128;
    let hi = if hi1 < hi2 { hi1 } else { hi2 };
    let lo = if lo1 > lo2 { lo1 } else { lo2 };
    if hi - lo > 0 {
        hi - lo
    } else {
        0
    }
}

/// The IoU of two detections as a fraction `(numerator, denominator)`.
pub fn calculate_iou(det1: &Detection, det2: &Detection) -> (r: (i128, i128))
    ensures
        r.0 == iou_num(*det1, *det2),
        r.1 == iou_den(*det1, *det2),
        0 <= r.0 <= 0x4_0000_0000_0000_0000_0000,
        -0x4_0000_0000_0000_0000_0000 <= r.1 <= 0x10_0000_0000_0000_0000_0000,
{
    let orow = axis_overlap(det1.row, det1.scale, det2.row, det2.scale);
    let ocol = axis_overlap(det1.col, det1.scale, det2.col, det2.scale);
    proof {
        assert(orow * ocol <= 0x4_0000_0000_0000_0000_0000) by (nonlinear_arith)
            requires
                0 <= orow <= 0x200_0000_0000,
                0 <= ocol <= 0x200_0000_0000,
        ;
        assert(det1.scale * det1.scale <= 0x1_0000_0000_0000_0000) by (nonlinear_arith)
            requires
                det1.scale <= 0xffff_ffff,
        ;
        assert(det2.scale * det2.scale <= 0x1_0000_0000_0000_0000) by (nonlinear_arith)
            requires
                det2.scale <= 0xffff_ffff,
        ;
    }
    let num = orow * ocol;
    let s1 = det1.scale as i128;
    let s2 = det2.scale as i128;
    (num, 4 * (s1 * s1) + 4 * (s2 * s2) - num)
}

fn iou_exceeds(a: &Detection, b: &Detection, thr: u32) -> (r: bool)
    ensures
        r == exceeds(*a, *b, thr as int),
{
    let (num, den) = calculate_iou(a, b);
    proof {
        assert(-0x4_0000_0000_0000_0000_0000 * 0x1_0000_0000 <= thr * den <= 0x10_0000_0000_0000_0000_0000 * 0x1_0000_0000) by (nonlinear_arith)
            requires
                -0x4_0000_0000_0000_0000_0000 <= den <= 0x10_0000_0000_0000_0000_0000,
                0 <= thr <= 0xffff_ffff,
        ;
    }
    num * 1000 > thr as i128 * den
}

/// Detection `i` comes before detection `j` when sorted by score, ties kept in
/// their original order.
pub open spec fn before(d: Seq<Detection>, i: int, j: int) -> bool {
    d[i].score < d[j].score || (d[i].score == d[j].score && i < j)
}

/// `perm` lists the indices of `d` in ascending order of score, equal scores
/// in their original order: the order of a stable sort.
pub open spec fn is_stable_order(d: Seq<Detection>, perm: Seq<usize>) -> bool {
    &&& perm.len() == d.len()
    &&& forall|k: int| 0 <= k < perm.len() ==> #[trigger] perm[k] < d.len()
    &&& forall|k1: int, k2: int|
        0 <= k1 < k2 < perm.len() ==> before(d, #[trigger] perm[k1] as int, #[trigger] perm[k2] as int)
}

pub open spec fn permuted(d: Seq<Detection>, perm: Seq<usize>) -> Seq<Detection> {
    perm.map_values(|i: usize| d[i as int])
}

/// The indices of `dets` in the order of a stable sort by score.
pub fn stable_order(dets: &Vec<Detection>) -> (perm: Vec<usize>)
    ensures
        is_stable_order(dets@, perm@),
{
    let ghost d = dets@;
    let mut perm: Vec<usize> = Vec::new();
    let mut k: usize = 0;
    while k < dets.len()
        invariant
            d == dets@,
            k <= dets@.len(),
            perm@.len() == k,
            forall|x: int| 0 <= x < perm@.len() ==> #[trigger] perm@[x] < k,
            forall|k1: int, k2: int|
                0 <= k1 < k2 < perm@.len() ==> before(d, #[trigger] perm@[k1] as int, #[trigger] perm@[k2] as int),
        decreases dets@.len() - k,
    {
        let key = dets[k].score;
        let mut pos: usize = 0;
        while pos < perm.len() && dets[perm[pos]].score <= key
            invariant
                d == dets@,
                k < dets@.len(),
                perm@.len() == k,
                pos <= perm@.len(),
                key == d[k as int].score,
                forall|x: int| 0 <= x < perm@.len() ==> #[trigger] perm@[x] < k,
                forall|x: int| 0 <= x < pos ==> d[#[trigger] perm@[x] as int].score <= key,
            decreases perm@.len() - pos,
        {
            pos = pos + 1;
        }
        let ghost old_perm = perm@;
        assert forall|y: int| pos <= y < old_perm.len() implies d[#[trigger] old_perm[y] as int].score > key by {
            if y > pos {
                assert(before(d, old_perm[pos as int] as int, old_perm[y] as int));
            }
        }
        perm.insert(pos, k);
        assert forall|k1: int, k2: int|
            0 <= k1 < k2 < perm@.len() implies before(d, #[trigger] perm@[k1] as int, #[trigger] perm@[k2] as int) by {
            if k2 < pos {
                assert(perm@[k1] == old_perm[k1] && perm@[k2] == old_perm[k2]);
                assert(before(d, old_perm[k1] as int, old_perm[k2] as int));
            } else if k2 == pos {
                assert(perm@[k1] == old_perm[k1]);
            } else if k1 < pos {
                assert(perm@[k1] == old_perm[k1] && perm@[k2] == old_perm[k2 - 1]);
            } else if k1 == pos {
                assert(perm@[k2] == old_perm[k2 - 1]);
            } else {
                assert(perm@[k1] == old_perm[k1 - 1] && perm@[k2] == old_perm[k2 - 1]);
                assert(before(d, old_perm[k1 - 1] as int, old_perm[k2 - 1] as int));
            }
        }
        k = k + 1;
    }
    perm
}

/// Detection `j` joins the cluster seeded by `i`: it is not yet taken, and it
/// is the seed itself or overlaps the seed by more than `thr` thousandths.
pub open spec fn joins(s: Seq<Detection>, taken: Seq<bool>, i: int, j: int, thr: int) -> bool {
    !taken[j] && (j == i || exceeds(s[i], s[j], thr))
}

/// Sums of row, column, size and score, and the number, of the detections in
/// `[i, j)` that join the cluster seeded by `i`.
pub open spec fn gather(s: Seq<Detection>, taken: Seq<bool>, i: int, j: int, thr: int) -> (int, int, int, int, int)
    decreases j - i,
{
    if j <= i {
        (0, 0, 0, 0, 0)
    } else {
        let prev = gather(s, taken, i, j - 1, thr);
        if joins(s, taken, i, j - 1, thr) {
            let x = s[j - 1];
            (prev.0 + x.row, prev.1 + x.col, prev.2 + x.scale, prev.3 + x.score, prev.4 + 1)
        } else {
            prev
        }
    }
}

/// The taken marks after the cluster seeded by `i` took its members.
pub open spec fn take_members(s: Seq<Detection>, taken: Seq<bool>, i: int, thr: int) -> Seq<bool> {
    Seq::new(taken.len(), |j: int| taken[j] || (i <= j && joins(s, taken, i, j, thr)))
}

pub open spec fn make_cluster(g: (int, int, int, int, int)) -> Cluster {
    Cluster { row_sum: g.0 as i128, col_sum: g.1 as i128, scale_sum: g.2 as u128, score: g.3 as i128, count: g.4 as u64 }
}

/// The clusters seeded from position `i` on: each detection not yet taken
/// seeds a cluster of itself and every later detection, not yet taken, that
/// overlaps it by more than `thr` thousandths.
pub open spec fn clusters_from(s: Seq<Detection>, taken: Seq<bool>, i: int, thr: int) -> Seq<Cluster>
    decreases s.len() - i,
{
    if i >= s.len() || i < 0 {
        Seq::empty()
    } else if taken[i] {
        clusters_from(s, taken, i + 1, thr)
    } else {
        seq![make_cluster(gather(s, taken, i, s.len() as int, thr))] + clusters_from(
            s,
            take_members(s, taken, i, thr),
            i + 1,
            thr,
        )
    }
}

/// The clusters of a sequence already in score order.
pub open spec fn clusters_of(s: Seq<Detection>, thr: int) -> Seq<Cluster> {
    clusters_from(s, Seq::new(s.len(), |j: int| false), 0, thr)
}

pub open spec fn total_count(cs: Seq<Cluster>) -> int
    decreases cs.len(),
{
    if cs.len() == 0 {
        0
    } else {
        cs[0].count + total_count(cs.drop_first())
    }
}

/// How many of the marks in `[lo, hi)` are not set.
pub open spec fn free_count(taken: Seq<bool>, lo: int, hi: int) -> int
    decreases hi - lo,
{
    if hi <= lo {
        0
    } else {
        free_count(taken, lo, hi - 1) + if taken[hi - 1] { 0int } else { 1int }
    }
}

proof fn lemma_free_count_low(taken: Seq<bool>, lo: int, hi: int)
    requires
        0 <= lo < hi <= taken.len(),
    ensures
        free_count(taken, lo, hi) == (if taken[lo] { 0int } else { 1int }) + free_count(taken, lo + 1, hi),
    decreases hi - lo,
{
    if hi - 1 > lo {
        lemma_free_count_low(taken, lo, hi - 1);
        assert(free_count(taken, lo + 1, hi) == free_count(taken, lo + 1, hi - 1) + if taken[hi - 1] { 0int } else { 1int });
    } else {
        assert(free_count(taken, lo, lo) == 0);
        assert(free_count(taken, lo + 1, hi) == 0);
    }
}

proof fn lemma_gather_accounts(s: Seq<Detection>, taken: Seq<bool>, i: int, hi: int, thr: int)
    requires
        0 <= i < hi <= s.len(),
        taken.len() == s.len(),
        !taken[i],
    ensures
        free_count(take_members(s, taken, i, thr), i + 1, hi) + gather(s, taken, i, hi, thr).4
            == free_count(taken, i + 1, hi) + 1,
    decreases hi - i,
{
    let next = take_members(s, taken, i, thr);
    if hi > i + 1 {
        lemma_gather_accounts(s, taken, i, hi - 1, thr);
        assert(next[hi - 1] == (taken[hi - 1] || joins(s, taken, i, hi - 1, thr)));
        assert(free_count(next, i + 1, hi) == free_count(next, i + 1, hi - 1) + if next[hi - 1] { 0int } else { 1int });
        assert(free_count(taken, i + 1, hi) == free_count(taken, i + 1, hi - 1) + if taken[hi - 1] { 0int } else { 1int });
    } else {
        assert(gather(s, taken, i, i, thr).4 == 0);
        assert(free_count(next, i + 1, hi) == 0);
        assert(free_count(taken, i + 1, hi) == 0);
    }
}

proof fn lemma_gather_count(s: Seq<Detection>, taken: Seq<bool>, i: int, j: int, thr: int)
    requires
        i <= j,
    ensures
        0 <= gather(s, taken, i, j, thr).4 <= j - i,
    decreases j - i,
{
    if j > i {
        lemma_gather_count(s, taken, i, j - 1, thr);
    }
}

proof fn lemma_clusters_account(s: Seq<Detection>, taken: Seq<bool>, i: int, thr: int)
    requires
        0 <= i <= s.len(),
        s.len() <= u64::MAX,
        taken.len() == s.len(),
    ensures
        total_count(clusters_from(s, taken, i, thr)) == free_count(taken, i, s.len() as int),
    decreases s.len() - i,
{
    if i < s.len() {
        lemma_free_count_low(taken, i, s.len() as int);
        if taken[i] {
            lemma_clusters_account(s, taken, i + 1, thr);
        } else {
            let next = take_members(s, taken, i, thr);
            lemma_clusters_account(s, next, i + 1, thr);
            lemma_gather_accounts(s, taken, i, s.len() as int, thr);
            lemma_gather_count(s, taken, i, s.len() as int, thr);
            let cs = clusters_from(s, taken, i, thr);
            assert(cs.drop_first() =~= clusters_from(s, next, i + 1, thr));
        }
    } else {
        assert(free_count(taken, i, i) == 0);
    }
}

proof fn lemma_free_count_none_taken(n: int, hi: int)
    requires
        0 <= hi <= n,
    ensures
        free_count(Seq::new(n as nat, |j: int| false), 0, hi) == hi,
    decreases hi,
{
    if hi > 0 {
        lemma_free_count_none_taken(n, hi - 1);
    }
}

/// Every detection ends up in exactly one cluster: the clusters' counts add up
/// to the number of detections.
pub proof fn lemma_clusters_cover_all(s: Seq<Detection>, thr: int)
    requires
        s.len() <= u64::MAX,
    ensures
        total_count(clusters_of(s, thr)) == s.len(),
{
    lemma_clusters_account(s, Seq::new(s.len(), |j: int| false), 0, thr);
    lemma_free_count_none_taken(s.len() as int, s.len() as int);
}

/// In detections already in score order `a, b, e`: when `a` and `b` overlap
/// by more than the threshold they merge into one cluster (sums of their
/// centers, sizes and scores, count two), and `e`, which overlaps neither,
/// stays a cluster of its own after the pair.
pub proof fn lemma_pair_merges_third_apart(a: Detection, b: Detection, e: Detection, thr: int)
    requires
        thr >= 0,
        exceeds(a, b, thr),
        iou_num(a, e) == 0,
        iou_num(b, e) == 0,
    ensures
        clusters_of(seq![a, b, e], thr) == seq![
            make_cluster((a.row + b.row, a.col + b.col, a.scale + b.scale, a.score + b.score, 2)),
            make_cluster((e.row as int, e.col as int, e.scale as int, e.score as int, 1)),
        ],
{
    let s = seq![a, b, e];
    let t0 = Seq::new(3, |j: int| false);
    assert(s.len() == 3);
    assert(!exceeds(a, e, thr)) by {
        assert(iou_den(a, e) >= 0) by (nonlinear_arith)
            requires
                iou_den(a, e) == 4 * (a.scale * a.scale) + 4 * (e.scale * e.scale),
        ;
        assert(thr * iou_den(a, e) >= 0) by (nonlinear_arith)
            requires
                thr >= 0,
                iou_den(a, e) >= 0,
        ;
    }
    assert(joins(s, t0, 0, 0, thr));
    assert(joins(s, t0, 0, 1, thr));
    assert(!joins(s, t0, 0, 2, thr));
    assert(gather(s, t0, 0, 0, thr) == (0int, 0int, 0int, 0int, 0int));
    assert(gather(s, t0, 0, 1, thr) == (a.row as int, a.col as int, a.scale as int, a.score as int, 1int));
    assert(gather(s, t0, 0, 2, thr) == (a.row + b.row, a.col + b.col, a.scale + b.scale, a.score + b.score, 2int));
    let g0 = gather(s, t0, 0, 3, thr);
    assert(g0 == gather(s, t0, 0, 2, thr));
    let t1 = take_members(s, t0, 0, thr);
    assert(t1[0] && t1[1] && !t1[2]);
    assert(joins(s, t1, 2, 2, thr));
    assert(gather(s, t1, 2, 2, thr) == (0int, 0int, 0int, 0int, 0int));
    assert(gather(s, t1, 2, 3, thr) == (e.row as int, e.col as int, e.scale as int, e.score as int, 1int));
    let t2 = take_members(s, t1, 2, thr);
    assert(clusters_from(s, t2, 3, thr) == Seq::<Cluster>::empty());
    let c2 = make_cluster(gather(s, t1, 2, 3, thr));
    assert(clusters_from(s, t1, 2, thr) == seq![c2] + Seq::<Cluster>::empty());
    assert(clusters_from(s, t1, 1, thr) == clusters_from(s, t1, 2, thr));
    assert(clusters_from(s, t0, 0, thr) == seq![make_cluster(g0)] + clusters_from(s, t1, 1, thr));
    assert(clusters_of(s, thr) =~= seq![make_cluster(g0), c2]);
}

/// Clusters detections that are already in score order (see `clusters_of`).
pub fn cluster_sorted(s: &Vec<Detection>, iou_threshold: u32) -> (r: Vec<Cluster>)
    ensures
        r@ == clusters_of(s@, iou_threshold as int),
{
    let n = s.len();
    let ghost thr = iou_threshold as int;
    let mut taken: Vec<bool> = Vec::new();
    let mut k: usize = 0;
    while k < n
        invariant
            n == s@.len(),
            k <= n,
            taken@ =~= Seq::new(k as nat, |j: int| false),
        decreases n - k,
    {
        taken.push(false);
        k = k + 1;
    }
    let ghost whole = clusters_of(s@, thr);
    let mut out: Vec<Cluster> = Vec::new();
    let mut i: usize = 0;
    assert(out@ + whole =~= whole);
    while i < n
        invariant
            n == s@.len(),
            i <= n,
            thr == iou_threshold,
            taken@.len() == n,
            whole == clusters_of(s@, thr),
            whole == out@ + clusters_from(s@, taken@, i as int, thr),
        decreases n - i,
    {
        if !taken[i] {
            let ghost t0 = taken@;
            let mut row_sum: i128 = 0;
            let mut col_sum: i128 = 0;
            let mut scale_sum: u128 = 0;
            let mut score: i128 = 0;
            let mut count: u64 = 0;
            let mut j: usize = i;
            while j < n
                invariant
                    n == s@.len(),
                    i <= j <= n,
                    thr == iou_threshold,
                    !t0[i as int],
                    t0.len() == n,
                    taken@ =~= Seq::new(n as nat, |k: int| if i <= k < j { t0[k] || joins(s@, t0, i as int, k, thr) } else { t0[k] }),
                    row_sum == gather(s@, t0, i as int, j as int, thr).0,
                    col_sum == gather(s@, t0, i as int, j as int, thr).1,
                    scale_sum == gather(s@, t0, i as int, j as int, thr).2,
                    score == gather(s@, t0, i as int, j as int, thr).3,
                    count == gather(s@, t0, i as int, j as int, thr).4,
                    -(j - i) * 0x8000_0000 <= row_sum <= (j - i) * 0x8000_0000,
                    -(j - i) * 0x8000_0000 <= col_sum <= (j - i) * 0x8000_0000,
                    scale_sum <= (j - i) * 0x1_0000_0000,
                    -(j - i) * 0x8000_0000_0000_0000 <= score <= (j - i) * 0x8000_0000_0000_0000,
                    count <= j - i,
                decreases n - j,
            {
                if !taken[j] && (j == i || iou_exceeds(&s[i], &s[j], iou_threshold)) {
                    let d = s[j];
                    taken.set(j, true);
                    row_sum = row_sum + d.row as i128;
                    col_sum = col_sum + d.col as i128;
                    scale_sum = scale_sum + d.scale as u128;
                    score = score + d.score as i128;
                    count = count + 1;
                }
                j = j + 1;
            }
            assert(taken@ =~= take_members(s@, t0, i as int, thr));
            let c = Cluster { row_sum, col_sum, scale_sum, score, count };
            assert(c == make_cluster(gather(s@, t0, i as int, n as int, thr)));
            let ghost before = out@;
            out.push(c);
            assert(before + clusters_from(s@, t0, i as int, thr) =~= out@ + clusters_from(s@, taken@, i + 1, thr));
        }
        i = i + 1;
    }
    assert(out@ + clusters_from(s@, taken@, n as int, thr) =~= out@);
    out
}

/// Sorts the detections stably by ascending score and clusters them: each
/// detection not yet taken seeds a cluster of itself and every later
/// detection, not yet taken, whose IoU with the seed is above
/// `iou_threshold` thousandths.
pub fn cluster(dets: &Vec<Detection>, iou_threshold: u32) -> (r: Vec<Cluster>)
    ensures
        exists|perm: Seq<usize>|
            is_stable_order(dets@, perm) && r@ == clusters_of(#[trigger] permuted(dets@, perm), iou_threshold as int),
{
    let perm = stable_order(dets);
    let mut sorted: Vec<Detection> = Vec::new();
    let mut k: usize = 0;
    while k < perm.len()
        invariant
            is_stable_order(dets@, perm@),
            k <= perm@.len(),
            sorted@ =~= permuted(dets@, perm@).take(k as int),
        decreases perm@.len() - k,
    {
        sorted.push(dets[perm[k]]);
        k = k + 1;
    }
    assert(sorted@ =~= permuted(dets@, perm@));
    cluster_sorted(&sorted, iou_threshold)
}

} // verus!
