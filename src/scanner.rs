//! The multiscale sliding-window scan.

use crate::classifier::{classify, classify_region};
use crate::image::{Image, RunParams};
use crate::model::Cascade;
use vstd::arithmetic::div_mod::lemma_mod_add_multiples_vanish;
use vstd::prelude::*;

verus! {

/// A window that the cascade accepted: center, size in thousandths of a
/// pixel, and its positive fixed-point score.
#[derive(Clone, Copy, Debug, PartialEq, Eq, Structural)]
pub struct Detection {
    pub row: i32,
    pub col: i32,
    pub scale: u32,
    pub score: i64,
}

/// Why a scan could not run.
#[derive(Clone, Copy, Debug, PartialEq, Eq, Structural)]
pub enum ScanError {
    /// The smallest window is zero or the growth factor is not above one.
    InvalidParams,
    /// Negative row stride, dimensions beyond `i32`, or fewer pixels than
    /// `ldim * nrows`.
    InvalidImage,
    /// A probe of some window fell outside the pixel buffer.
    ProbeOutsideImage,
}

pub open spec fn image_ok(img: Image) -> bool {
    &&& img.ldim >= 0
    &&& img.ncols <= i32::MAX
    &&& img.nrows <= i32::MAX
    &&& img.pixels@.len() >= img.ldim * img.nrows
}

/// Distance between neighbouring windows of size `s` (thousandths), in pixels:
/// the shift factor times the size, rounded down, and at least one.
pub open spec fn step_of(p: RunParams, s: int) -> int {
    let v = p.shift_factor * s / 1_000_000;
    if v < 1 {
        1
    } else {
        v
    }
}

/// The first and smallest window center for windows of size `s`: half the
/// size, rounded down, plus one.
pub open spec fn margin_of(s: int) -> int {
    s / 2000 + 1
}

/// The size after `s`: grown by the scale factor and rounded up.
pub open spec fn next_scale(p: RunParams, s: int) -> int {
    (s * p.scale_factor + 999) / 1000
}

pub open spec fn chain(x: Option<Seq<Detection>>, y: Option<Seq<Detection>>) -> Option<Seq<Detection>> {
    match x {
        None => None,
        Some(a) => match y {
            None => None,
            Some(b) => Some(a + b),
        },
    }
}

pub open spec fn hit(r: int, c: int, s: int, q: int) -> Seq<Detection> {
    if q > 0 {
        seq![Detection { row: r as i32, col: c as i32, scale: s as u32, score: q as i64 }]
    } else {
        Seq::empty()
    }
}

/// Detections of row `r` from column `c` on, up to column `hi`.
pub open spec fn cols_from(m: Cascade, img: Image, r: int, c: int, s: int, step: int, hi: int) -> Option<Seq<Detection>>
    decreases hi - c + step,
{
    if c > hi || step < 1 {
        Some(Seq::empty())
    } else {
        match classify(m, img, r, c, s) {
            None => None,
            Some(q) => chain(Some(hit(r, c, s, q)), cols_from(m, img, r, c + step, s, step, hi)),
        }
    }
}

/// Detections of windows of size `s` in rows from `r` on.
pub open spec fn rows_from(m: Cascade, img: Image, r: int, s: int, step: int) -> Option<Seq<Detection>>
    decreases img.nrows - margin_of(s) - r + step,
{
    if r > img.nrows - margin_of(s) || step < 1 {
        Some(Seq::empty())
    } else {
        chain(
            cols_from(m, img, r, margin_of(s), s, step, img.ncols - margin_of(s)),
            rows_from(m, img, r + step, s, step),
        )
    }
}

/// Detections of all scales from size `s` on.
pub open spec fn scales_from(m: Cascade, img: Image, p: RunParams, s: int) -> Option<Seq<Detection>>
    decreases if s > p.max_size { 0 } else { p.max_size - s + 1 },
{
    if s > p.max_size || s < 1 || p.scale_factor <= 1000 {
        Some(Seq::empty())
    } else {
        proof {
            lemma_next_scale_grows(p, s);
        }
        chain(
            rows_from(m, img, margin_of(s), s, step_of(p, s)),
            scales_from(m, img, p, next_scale(p, s)),
        )
    }
}

/// What a scan returns: scales in increasing order, rows within a scale and
/// columns within a row, each from its margin up to the dimension less the
/// margin, keeping the windows with a positive score.
pub open spec fn scan_result(m: Cascade, img: Image, p: RunParams) -> Result<Seq<Detection>, ScanError> {
    if !p.valid() {
        Err(ScanError::InvalidParams)
    } else if !image_ok(img) {
        Err(ScanError::InvalidImage)
    } else {
        match scales_from(m, img, p, p.min_size as int) {
            None => Err(ScanError::ProbeOutsideImage),
            Some(d) => Ok(d),
        }
    }
}

/// `x` is one of `start`, `start + step`, `start + 2 * step`, ...
pub open spec fn on_grid(x: int, start: int, step: int) -> bool {
    x >= start && (x - start) % step == 0
}

proof fn lemma_cols_on_grid(m: Cascade, img: Image, r: int, c: int, s: int, step: int, hi: int, d: Seq<Detection>)
    requires
        1 <= step,
        1 <= c,
        hi <= i32::MAX,
        1 <= r <= i32::MAX,
        0 <= s <= u32::MAX,
        cols_from(m, img, r, c, s, step, hi) == Some(d),
    ensures
        forall|i: int|
            0 <= i < d.len() ==> {
                &&& (#[trigger] d[i]).row == r
                &&& d[i].scale == s
                &&& d[i].col <= hi
                &&& on_grid(d[i].col as int, c, step)
            },
    decreases hi - c + step,
{
    if c <= hi {
        let q = classify(m, img, r, c, s)->Some_0;
        let h = hit(r, c, s, q);
        let rest = cols_from(m, img, r, c + step, s, step, hi);
        let d2 = rest->Some_0;
        lemma_cols_on_grid(m, img, r, c + step, s, step, hi, d2);
        assert(d == h + d2);
        assert forall|i: int| 0 <= i < d.len() implies {
            &&& (#[trigger] d[i]).row == r
            &&& d[i].scale == s
            &&& d[i].col <= hi
            &&& on_grid(d[i].col as int, c, step)
        } by {
            if i >= h.len() {
                let x = d2[i - h.len()];
                assert(x == d[i]);
                lemma_mod_add_multiples_vanish(x.col - c - step, step);
            } else {
                assert(d[i] == h[i]);
                assert(0int % step == 0);
            }
        }
    }
}

proof fn lemma_rows_on_grid(m: Cascade, img: Image, r: int, s: int, step: int, d: Seq<Detection>)
    requires
        1 <= step,
        1 <= s <= u32::MAX,
        r >= margin_of(s),
        image_ok(img),
        rows_from(m, img, r, s, step) == Some(d),
    ensures
        forall|i: int|
            0 <= i < d.len() ==> {
                &&& (#[trigger] d[i]).scale == s
                &&& d[i].row <= img.nrows - margin_of(s)
                &&& on_grid(d[i].row as int, r, step)
                &&& d[i].col <= img.ncols - margin_of(s)
                &&& on_grid(d[i].col as int, margin_of(s), step)
            },
    decreases img.nrows - margin_of(s) - r + step,
{
    if r <= img.nrows - margin_of(s) {
        let hi = img.ncols - margin_of(s);
        let d1 = cols_from(m, img, r, margin_of(s), s, step, hi)->Some_0;
        let d2 = rows_from(m, img, r + step, s, step)->Some_0;
        lemma_cols_on_grid(m, img, r, margin_of(s), s, step, hi, d1);
        lemma_rows_on_grid(m, img, r + step, s, step, d2);
        assert(d == d1 + d2);
        assert forall|i: int| 0 <= i < d.len() implies {
            &&& (#[trigger] d[i]).scale == s
            &&& d[i].row <= img.nrows - margin_of(s)
            &&& on_grid(d[i].row as int, r, step)
            &&& d[i].col <= img.ncols - margin_of(s)
            &&& on_grid(d[i].col as int, margin_of(s), step)
        } by {
            if i >= d1.len() {
                let x = d2[i - d1.len()];
                assert(x == d[i]);
                lemma_mod_add_multiples_vanish(x.row - r - step, step);
            } else {
                assert(d[i] == d1[i]);
                assert(0int % step == 0);
            }
        }
    }
}

/// A scan whose smallest and largest window sizes are equal visits that one
/// size only, on the grid of rows and columns that starts at the margin and
/// advances by the step, never past the dimension less the margin.
pub proof fn lemma_single_scale_grid(m: Cascade, img: Image, p: RunParams, d: Seq<Detection>)
    requires
        p.min_size == p.max_size,
        scan_result(m, img, p) == Ok::<Seq<Detection>, ScanError>(d),
    ensures
        forall|i: int|
            0 <= i < d.len() ==> {
                let s = p.min_size as int;
                &&& (#[trigger] d[i]).scale == p.min_size
                &&& margin_of(s) <= d[i].row <= img.nrows - margin_of(s)
                &&& (d[i].row - margin_of(s)) % step_of(p, s) == 0
                &&& margin_of(s) <= d[i].col <= img.ncols - margin_of(s)
                &&& (d[i].col - margin_of(s)) % step_of(p, s) == 0
            },
{
    let s = p.min_size as int;
    lemma_next_scale_grows(p, s);
    let rows = rows_from(m, img, margin_of(s), s, step_of(p, s));
    assert(scales_from(m, img, p, next_scale(p, s)) == Some(Seq::<Detection>::empty()));
    let d1 = rows->Some_0;
    assert(d1 + Seq::<Detection>::empty() =~= d1);
    lemma_rows_on_grid(m, img, margin_of(s), s, step_of(p, s), d1);
}

pub proof fn lemma_next_scale_grows(p: RunParams, s: int)
    requires
        s >= 1,
        p.scale_factor > 1000,
    ensures
        next_scale(p, s) > s,
{
    assert(s * p.scale_factor >= s * 1001) by (nonlinear_arith)
        requires
            s >= 1,
            p.scale_factor > 1000,
    ;
    assert((s * p.scale_factor + 999) / 1000 >= (s * 1001 + 999) / 1000) by (nonlinear_arith)
        requires
            s * p.scale_factor >= s * 1001,
    ;
}

proof fn lemma_chain_assoc(x: Option<Seq<Detection>>, y: Option<Seq<Detection>>, z: Option<Seq<Detection>>)
    ensures
        chain(chain(x, y), z) == chain(x, chain(y, z)),
{
    if let Some(a) = x {
        if let Some(b) = y {
            if let Some(c) = z {
                assert(a + b + c =~= a + (b + c));
            }
        }
    }
}

proof fn lemma_chain_empty(x: Option<Seq<Detection>>)
    ensures
        chain(Some(Seq::empty()), x) == x,
{
    if let Some(a) = x {
        assert(Seq::<Detection>::empty() + a =~= a);
    }
}

/// Appends the detections of row `r` to `dets`; false when a probe falls
/// outside the pixels.
fn scan_row(m: &Cascade, img: &Image, r: i64, s: u64, step: i64, margin: i64, dets: &mut Vec<Detection>) -> (ok: bool)
    requires
        m.wf(),
        image_ok(*img),
        1 <= s <= 0xffff_ffff,
        margin == margin_of(s as int),
        1 <= step <= 0x1_0000_0000_0000,
        margin <= r <= img.nrows - margin,
    ensures
        ok ==> Some(final(dets)@) == chain(Some(old(dets)@), cols_from(*m, *img, r as int, margin as int, s as int, step as int, img.ncols - margin)),
        !ok ==> cols_from(*m, *img, r as int, margin as int, s as int, step as int, img.ncols - margin) is None,
{
    let ncols = img.ncols as i64;
    let ghost hi = img.ncols - margin;
    let ghost whole = cols_from(*m, *img, r as int, margin as int, s as int, step as int, hi);
    let ghost start = dets@;
    let mut c: i64 = margin;
    proof {
        lemma_chain_empty(whole);
    }
    while c <= ncols - margin
        invariant
            m.wf(),
            image_ok(*img),
            ncols == img.ncols,
            hi == ncols - margin,
            1 <= s <= 0xffff_ffff,
            margin == margin_of(s as int),
            1 <= step <= 0x1_0000_0000_0000,
            margin <= r <= img.nrows - margin,
            margin <= c <= 0x1_0001_0000_0000,
            whole == cols_from(*m, *img, r as int, margin as int, s as int, step as int, hi),
            chain(Some(start), whole) == chain(Some(dets@), cols_from(*m, *img, r as int, c as int, s as int, step as int, hi)),
        decreases ncols - margin + step - c,
    {
        let res = classify_region(m, r as i32, c as i32, s as u32, img);
        match res {
            None => {
                assert(cols_from(*m, *img, r as int, c as int, s as int, step as int, hi) is None);
                return false;
            },
            Some(q) => {
                let ghost h = hit(r as int, c as int, s as int, q as int);
                let ghost rest = cols_from(*m, *img, r as int, c + step, s as int, step as int, hi);
                proof {
                    lemma_chain_assoc(Some(dets@), Some(h), rest);
                }
                let ghost before = dets@;
                if q > 0 {
                    dets.push(Detection { row: r as i32, col: c as i32, scale: s as u32, score: q });
                    assert(dets@ =~= before + h);
                } else {
                    assert(before + h =~= dets@);
                }
            },
        }
        c = c + step;
    }
    proof {
        assert(chain(Some(dets@), Some(Seq::empty())) == Some(dets@)) by {
            assert(dets@ + Seq::<Detection>::empty() =~= dets@);
        }
    }
    true
}

/// Appends the detections of all windows of size `s` to `dets`; false when a
/// probe falls outside the pixels.
fn scan_scale(m: &Cascade, img: &Image, s: u64, step: i64, dets: &mut Vec<Detection>) -> (ok: bool)
    requires
        m.wf(),
        image_ok(*img),
        1 <= s <= 0xffff_ffff,
        1 <= step <= 0x1_0000_0000_0000,
    ensures
        ok ==> Some(final(dets)@) == chain(Some(old(dets)@), rows_from(*m, *img, margin_of(s as int), s as int, step as int)),
        !ok ==> rows_from(*m, *img, margin_of(s as int), s as int, step as int) is None,
{
    let nrows = img.nrows as i64;
    let margin: i64 = (s / 2000 + 1) as i64;
    let ghost whole = rows_from(*m, *img, margin as int, s as int, step as int);
    let ghost start = dets@;
    let mut r: i64 = margin;
    proof {
        lemma_chain_empty(whole);
    }
    while r <= nrows - margin
        invariant
            m.wf(),
            image_ok(*img),
            nrows == img.nrows,
            1 <= s <= 0xffff_ffff,
            margin == margin_of(s as int),
            1 <= step <= 0x1_0000_0000_0000,
            margin <= r <= 0x1_0001_0000_0000,
            whole == rows_from(*m, *img, margin as int, s as int, step as int),
            chain(Some(start), whole) == chain(Some(dets@), rows_from(*m, *img, r as int, s as int, step as int)),
        decreases nrows - margin + step - r,
    {
        let ghost row = cols_from(*m, *img, r as int, margin as int, s as int, step as int, img.ncols - margin);
        let ghost rest = rows_from(*m, *img, r + step, s as int, step as int);
        let ghost before = dets@;
        proof {
            lemma_chain_assoc(Some(before), row, rest);
        }
        if !scan_row(m, img, r, s, step, margin, dets) {
            return false;
        }
        r = r + step;
    }
    proof {
        assert(chain(Some(dets@), Some(Seq::empty())) == Some(dets@)) by {
            assert(dets@ + Seq::<Detection>::empty() =~= dets@);
        }
    }
    true
}

/// Scans every scale and window position in order and collects the windows
/// that the cascade accepts.
pub fn scan(m: &Cascade, img: &Image, p: &RunParams) -> (res: Result<Vec<Detection>, ScanError>)
    requires
        m.wf(),
    ensures
        match res {
            Ok(d) => scan_result(*m, *img, *p) == Ok::<Seq<Detection>, ScanError>(d@),
            Err(e) => scan_result(*m, *img, *p) == Err::<Seq<Detection>, ScanError>(e),
        },
{
    if p.min_size < 1 || p.scale_factor <= 1000 {
        return Err(ScanError::InvalidParams);
    }
    if img.ldim < 0 || img.ncols > i32::MAX as usize || img.nrows > i32::MAX as usize {
        return Err(ScanError::InvalidImage);
    }
    assert(img.ldim * img.nrows <= 0x4000_0000_0000_0000) by (nonlinear_arith)
        requires
            0 <= img.ldim <= 0x7fff_ffff,
            0 <= img.nrows <= 0x7fff_ffff,
    ;
    if (img.pixels.len() as u128) < img.ldim as u128 * img.nrows as u128 {
        return Err(ScanError::InvalidImage);
    }
    let ghost whole = scales_from(*m, *img, *p, p.min_size as int);
    let mut dets: Vec<Detection> = Vec::new();
    let mut s: u64 = p.min_size as u64;
    proof {
        lemma_chain_empty(whole);
    }
    while s <= p.max_size as u64
        invariant
            m.wf(),
            p.valid(),
            image_ok(*img),
            1 <= s <= 0x1_0000_0000,
            whole == scales_from(*m, *img, *p, p.min_size as int),
            whole == chain(Some(dets@), scales_from(*m, *img, *p, s as int)),
        decreases 0x1_0000_0000 - s,
    {
        assert(p.shift_factor * s <= 0x1_0000_0000_0000_0000) by (nonlinear_arith)
            requires
                p.shift_factor <= 0xffff_ffff,
                s <= 0x1_0000_0000,
        ;
        let st128: u128 = p.shift_factor as u128 * s as u128 / 1_000_000;
        assert(st128 <= 0x1_0000_0000_0000) by (nonlinear_arith)
            requires
                st128 == p.shift_factor * s / 1_000_000,
                p.shift_factor <= 0xffff_ffff,
                s <= 0x1_0000_0000,
        ;
        let step: i64 = if st128 < 1 { 1 } else { st128 as i64 };
        let ghost next = next_scale(*p, s as int);
        let ghost rows = rows_from(*m, *img, margin_of(s as int), s as int, step as int);
        proof {
            lemma_next_scale_grows(*p, s as int);
            lemma_chain_assoc(Some(dets@), rows, scales_from(*m, *img, *p, next));
        }
        if !scan_scale(m, img, s, step, &mut dets) {
            return Err(ScanError::ProbeOutsideImage);
        }
        assert(s * p.scale_factor <= 0x1_0000_0000_0000_0000) by (nonlinear_arith)
            requires
                p.scale_factor <= 0xffff_ffff,
                s <= 0x1_0000_0000,
        ;
        let grown: u128 = (s as u128 * p.scale_factor as u128 + 999) / 1000;
        s = if grown > 0x1_0000_0000 { 0x1_0000_0000 } else { grown as u64 };
        assert(scales_from(*m, *img, *p, s as int) == scales_from(*m, *img, *p, next));
    }
    proof {
        assert(chain(Some(dets@), Some(Seq::empty())) == Some(dets@)) by {
            assert(dets@ + Seq::<Detection>::empty() =~= dets@);
        }
    }
    Ok(dets)
}

} // verus!
