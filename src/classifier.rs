//! Evaluation of the cascade on one window of an image.

use crate::fixed::{lemma_two_pow_at_least, two_pow};
use crate::image::Image;
use crate::model::Cascade;
use vstd::arithmetic::div_mod::lemma_hoist_over_denominator;
use vstd::prelude::*;

verus! {

/// The score of a rejected window: minus one in fixed point.
pub const REJECT: i64 = -65536;

/// Division that rounds toward zero, for a positive divisor.
pub open spec fn trunc_div(x: int, d: int) -> int {
    if x >= 0 {
        x / d
    } else {
        -((-x) / d)
    }
}

/// One coordinate of a probe: the window center scaled by 256, plus the
/// signed offset times the window size (given in thousandths), truncated
/// toward zero and then shifted right by 8 (rounding down).
pub open spec fn probe_coord(center: int, offset: int, scale: int) -> int {
    trunc_div(center * 256000 + offset * scale, 1000) / 256
}

pub open spec fn probe_addr(ldim: int, r: int, c: int, dr: int, dc: int, scale: int) -> int {
    probe_coord(r, dr, scale) * ldim + probe_coord(c, dc, scale)
}

/// Index of node `idx` of tree `t` in the codes table.
pub open spec fn node_base(m: Cascade, t: int, idx: int) -> int {
    t * (4 * m.leaves) + 4 * idx
}

/// The child reached from node `idx` of tree `t`: the right one when the first
/// probe is no brighter than the second. `None` when a probe falls outside
/// the pixel buffer.
pub open spec fn step(m: Cascade, img: Image, r: int, c: int, scale: int, t: int, idx: int) -> Option<int> {
    let base = node_base(m, t, idx);
    let a0 = probe_addr(img.ldim as int, r, c, m.codes@[base] as int, m.codes@[base + 1] as int, scale);
    let a1 = probe_addr(img.ldim as int, r, c, m.codes@[base + 2] as int, m.codes@[base + 3] as int, scale);
    if 0 <= a0 < img.pixels@.len() && 0 <= a1 < img.pixels@.len() {
        Some(2 * idx + if img.pixels@[a0] <= img.pixels@[a1] { 1int } else { 0int })
    } else {
        None
    }
}

/// The heap index reached from `idx` after `k` more comparisons in tree `t`.
pub open spec fn descend(m: Cascade, img: Image, r: int, c: int, scale: int, t: int, idx: int, k: nat) -> Option<int>
    decreases k,
{
    if k == 0 {
        Some(idx)
    } else {
        match step(m, img, r, c, scale, t, idx) {
            None => None,
            Some(next) => descend(m, img, r, c, scale, t, next, (k - 1) as nat),
        }
    }
}

/// The leaf value of tree `t` for the window, if its probes stay in the image.
pub open spec fn tree_value(m: Cascade, img: Image, r: int, c: int, scale: int, t: int) -> Option<int> {
    match descend(m, img, r, c, scale, t, 1, m.depth as nat) {
        None => None,
        Some(idx) => Some(m.preds@[t * m.leaves + idx - m.leaves] as int),
    }
}

/// The cascade from tree `t` on, with `total` summed over the trees before it:
/// a running total at or below a tree's threshold rejects at once.
pub open spec fn cascade_from(m: Cascade, img: Image, r: int, c: int, scale: int, t: int, total: int) -> Option<int>
    decreases m.ntrees - t,
{
    if t >= m.ntrees || t < 0 {
        Some(total - m.thresh@[m.ntrees - 1])
    } else {
        match tree_value(m, img, r, c, scale, t) {
            None => None,
            Some(v) => if total + v <= m.thresh@[t] {
                Some(REJECT as int)
            } else {
                cascade_from(m, img, r, c, scale, t + 1, total + v)
            },
        }
    }
}

/// The score of the window of size `scale` (thousandths) centered at `(r, c)`:
/// positive accepts. `None` when a probe falls outside the pixel buffer. A
/// model without trees, or with trees of depth zero, rejects every window.
pub open spec fn classify(m: Cascade, img: Image, r: int, c: int, scale: int) -> Option<int> {
    if m.ntrees == 0 || m.depth == 0 {
        Some(REJECT as int)
    } else {
        cascade_from(m, img, r, c, scale, 0, 0)
    }
}

/// A tree whose leaf brings the running total to or below its threshold ends
/// the cascade with the reject score, whatever the later trees hold.
pub proof fn lemma_pruning_rejects(m: Cascade, img: Image, r: int, c: int, scale: int, t: int, total: int)
    requires
        m.wf(),
        0 <= t < m.ntrees,
        tree_value(m, img, r, c, scale, t) matches Some(v) && total + v <= m.thresh@[t],
    ensures
        cascade_from(m, img, r, c, scale, t, total) == Some(REJECT as int),
{
}

/// The running total after trees `0..k`, or `None` when one of their probes
/// falls outside the pixel buffer.
pub open spec fn running_total(m: Cascade, img: Image, r: int, c: int, scale: int, k: int) -> Option<int>
    decreases k,
{
    if k <= 0 {
        Some(0)
    } else {
        match running_total(m, img, r, c, scale, k - 1) {
            None => None,
            Some(a) => match tree_value(m, img, r, c, scale, k - 1) {
                None => None,
                Some(v) => Some(a + v),
            },
        }
    }
}

/// Tree `j` does not prune: the running total after it is above its threshold.
pub open spec fn passes(m: Cascade, img: Image, r: int, c: int, scale: int, j: int) -> bool {
    running_total(m, img, r, c, scale, j + 1) matches Some(s) && s > m.thresh@[j]
}

proof fn lemma_cascade_reaches(m: Cascade, img: Image, r: int, c: int, scale: int, j: int)
    requires
        m.wf(),
        0 <= j < m.ntrees,
        forall|i: int| 0 <= i < j ==> #[trigger] passes(m, img, r, c, scale, i),
        running_total(m, img, r, c, scale, j) is Some,
    ensures
        cascade_from(m, img, r, c, scale, 0, 0) == cascade_from(
            m,
            img,
            r,
            c,
            scale,
            j,
            running_total(m, img, r, c, scale, j)->Some_0,
        ),
    decreases j,
{
    if j > 0 {
        assert(passes(m, img, r, c, scale, j - 1));
        lemma_cascade_reaches(m, img, r, c, scale, j - 1);
    }
}

/// Pruning short-circuits the whole cascade: when no tree before `k` pruned
/// and the running total after tree `k` is at or below its threshold, the
/// window's score is exactly the reject score, whatever the trees after `k`
/// hold.
pub proof fn lemma_classify_prunes(m: Cascade, img: Image, r: int, c: int, scale: int, k: int)
    requires
        m.wf(),
        m.depth > 0,
        0 <= k < m.ntrees,
        forall|j: int| 0 <= j < k ==> #[trigger] passes(m, img, r, c, scale, j),
        running_total(m, img, r, c, scale, k + 1) matches Some(s) && s <= m.thresh@[k],
    ensures
        classify(m, img, r, c, scale) == Some(REJECT as int),
{
    lemma_cascade_reaches(m, img, r, c, scale, k);
}

fn probe(center: i32, offset: i8, scale: u32) -> (r: i64)
    ensures
        r == probe_coord(center as int, offset as int, scale as int),
        -0x2_0000_0000 <= r <= 0x2_0000_0000,
{
    proof {
        assert(-0x80_0000_0000 <= offset * scale <= 0x80_0000_0000) by (nonlinear_arith)
            requires
                -128 <= offset <= 127,
                0 <= scale <= 0xffff_ffff,
        ;
    }
    let v: i64 = center as i64 * 256000 + offset as i64 * scale as i64;
    let q: i64 = if v >= 0 {
        v / 1000
    } else {
        -((-v) / 1000)
    };
    assert(-0x200_0000_0000 <= q <= 0x200_0000_0000);
    assert(q == trunc_div(center * 256000 + offset * scale, 1000));
    // The shift rounds down: lift `q` by a multiple of 256 so that the
    // division runs on a non-negative value, then take the lift back off.
    let lift: i64 = 0x1_0000_0000_0000;
    let u: i64 = q + lift;
    proof {
        lemma_hoist_over_denominator(q as int, 0x100_0000_0000, 256);
        assert(0 <= u / 256 <= 0x2_0000_0000_0000);
    }
    let w: i64 = u / 256;
    assert(w == q / 256 + 0x100_0000_0000);
    w - 0x100_0000_0000
}

fn address(ldim: i32, row: i64, col: i64) -> (r: i128)
    requires
        -0x2_0000_0000 <= row <= 0x2_0000_0000,
        -0x2_0000_0000 <= col <= 0x2_0000_0000,
    ensures
        r == row * ldim + col,
{
    proof {
        assert(-0x1_0000_0000_0000_0000 <= row * ldim <= 0x1_0000_0000_0000_0000) by (nonlinear_arith)
            requires
                -0x2_0000_0000 <= row <= 0x2_0000_0000,
                -0x8000_0000 <= ldim <= 0x7fff_ffff,
        ;
    }
    row as i128 * ldim as i128 + col as i128
}

/// Heap index of the node reached from `idx` in tree `t`, or `None`.
fn step_exec(m: &Cascade, img: &Image, r: i32, c: i32, scale: u32, t: usize, idx: usize) -> (res: Option<usize>)
    requires
        m.wf(),
        t < m.ntrees,
        1 <= idx < m.leaves,
    ensures
        match res {
            Some(n) => step(*m, *img, r as int, c as int, scale as int, t as int, idx as int) == Some(n as int),
            None => step(*m, *img, r as int, c as int, scale as int, t as int, idx as int) is None,
        },
{
    // The table lengths fit in usize, which bounds every index computed below.
    let codes_len = m.codes.len();
    assert(codes_len == m.codes@.len());
    proof {
        assert(t * (4 * m.leaves) + 4 * idx + 3 < m.ntrees * (4 * m.leaves)) by (nonlinear_arith)
            requires
                t < m.ntrees,
                idx < m.leaves,
        ;
        assert(0 <= t * (4 * m.leaves)) by (nonlinear_arith)
            requires
                t >= 0,
                m.leaves >= 0,
        ;
    }
    proof {
        assert(4 * m.leaves <= m.ntrees * (4 * m.leaves)) by (nonlinear_arith)
            requires
                t < m.ntrees,
                m.leaves >= 0,
        ;
    }
    let width: usize = 4 * m.leaves;
    let base: usize = t * width + 4 * idx;
    let a0 = address(img.ldim, probe(r, m.codes[base], scale), probe(c, m.codes[base + 1], scale));
    let a1 = address(img.ldim, probe(r, m.codes[base + 2], scale), probe(c, m.codes[base + 3], scale));
    let len = img.pixels.len();
    if 0 <= a0 && a0 < len as i128 && 0 <= a1 && a1 < len as i128 {
        if img.pixels[a0 as usize] <= img.pixels[a1 as usize] {
            Some(2 * idx + 1)
        } else {
            Some(2 * idx)
        }
    } else {
        None
    }
}

/// Runs the cascade on the window of size `scale` (thousandths) centered at
/// `(r, c)`.
pub fn classify_region(m: &Cascade, r: i32, c: i32, scale: u32, img: &Image) -> (res: Option<i64>)
    requires
        m.wf(),
    ensures
        match res {
            Some(s) => classify(*m, *img, r as int, c as int, scale as int) == Some(s as int),
            None => classify(*m, *img, r as int, c as int, scale as int) is None,
        },
{
    if m.ntrees == 0 || m.depth == 0 {
        return Some(REJECT);
    }
    let ghost whole = classify(*m, *img, r as int, c as int, scale as int);
    let mut total: i64 = 0;
    let mut t: usize = 0;
    while t < m.ntrees
        invariant
            m.wf(),
            m.ntrees > 0,
            m.depth > 0,
            t <= m.ntrees,
            -t * 0x8000_0000 <= total <= t * 0x8000_0000,
            whole == cascade_from(*m, *img, r as int, c as int, scale as int, t as int, total as int),
            whole == classify(*m, *img, r as int, c as int, scale as int),
        decreases m.ntrees - t,
    {
        let ghost leaf_spec = descend(*m, *img, r as int, c as int, scale as int, t as int, 1, m.depth as nat);
        let mut idx: usize = 1;
        let mut d: u32 = 0;
        assert(two_pow(0) == 1);
        while d < m.depth
            invariant
                m.wf(),
                t < m.ntrees,
                d <= m.depth,
                two_pow(d as nat) <= idx < 2 * two_pow(d as nat),
                leaf_spec == descend(*m, *img, r as int, c as int, scale as int, t as int, idx as int, (m.depth - d) as nat),
                leaf_spec == descend(*m, *img, r as int, c as int, scale as int, t as int, 1, m.depth as nat),
                whole == cascade_from(*m, *img, r as int, c as int, scale as int, t as int, total as int),
                whole == classify(*m, *img, r as int, c as int, scale as int),
                m.ntrees > 0,
                -t * 0x8000_0000 <= total <= t * 0x8000_0000,
            decreases m.depth - d,
        {
            proof {
                lemma_two_pow_at_least(m.depth as nat, (d + 1) as nat);
            }
            match step_exec(m, img, r, c, scale, t, idx) {
                None => {
                    assert(leaf_spec is None);
                    assert(tree_value(*m, *img, r as int, c as int, scale as int, t as int) is None);
                    return None;
                },
                Some(next) => {
                    idx = next;
                },
            }
            d = d + 1;
        }
        let preds_len = m.preds.len();
        assert(preds_len == m.preds@.len());
        proof {
            assert(t * m.leaves + m.leaves <= m.ntrees * m.leaves) by (nonlinear_arith)
                requires
                    t < m.ntrees,
            ;
            assert(0 <= t * m.leaves) by (nonlinear_arith)
                requires
                    t >= 0,
                    m.leaves >= 0,
            ;
        }
        let v = m.preds[t * m.leaves + (idx - m.leaves)];
        total = total + v as i64;
        if total <= m.thresh[t] as i64 {
            return Some(REJECT);
        }
        t = t + 1;
    }
    Some(total - m.thresh[m.ntrees - 1] as i64)
}

} // verus!
