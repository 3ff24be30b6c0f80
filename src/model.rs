//! The cascade model: a forest of pixel-comparison trees read from bytes.

use crate::fixed::{lemma_two_pow_at_least, fixed_from_f32_bits, fixed_of_f32_bits, i32_at, le_i32, le_u32, two_pow, u32_at};
use vstd::arithmetic::div_mod::lemma_fundamental_div_mod_converse;
use vstd::prelude::*;

verus! {

/// Why a byte buffer is not a model; the truncations name the part that ran
/// out of bytes.
#[derive(Clone, Copy, Debug, PartialEq, Eq, Structural)]
pub enum FormatError {
    TruncatedHeader,
    NegativeDepth,
    TruncatedCodes,
    TruncatedPredictions,
    TruncatedThreshold,
}

/// A parsed forest. Tree `t` owns `codes[t * 4 * leaves ..][.. 4 * leaves]`
/// (four signed offsets per heap node, node 0 unused), `preds[t * leaves ..][..
/// leaves]` and `thresh[t]`. `leaves` is `2^depth` in a model with trees.
///
/// Leaf values and thresholds are fixed point (see `FIXED_ONE`): the model's
/// f32 values cut to multiples of 1/65536, truncated toward zero, and summed
/// exactly. A running total within 1/65536 per tree of a threshold may
/// therefore prune where an f32 sum would not, or the reverse.
pub struct Cascade {
    pub depth: u32,
    pub ntrees: usize,
    pub leaves: usize,
    pub codes: Vec<i8>,
    pub preds: Vec<i32>,
    pub thresh: Vec<i32>,
}

impl Cascade {
    pub open spec fn wf(&self) -> bool {
        &&& self.ntrees > 0 ==> self.leaves == two_pow(self.depth as nat)
        &&& self.ntrees <= i32::MAX
        &&& self.codes@.len() == self.ntrees * (4 * self.leaves)
        &&& self.preds@.len() == self.ntrees * self.leaves
        &&& self.thresh@.len() == self.ntrees
    }

    /// The model with no trees, which rejects every window.
    pub fn empty() -> (r: Cascade)
        ensures
            r.wf(),
            r.ntrees == 0,
            r.depth == 0,
            r.leaves == 1,
    {
        Cascade {
            depth: 0,
            ntrees: 0,
            leaves: 1,
            codes: Vec::new(),
            preds: Vec::new(),
            thresh: Vec::new(),
        }
    }
}

pub open spec fn signed_byte(x: u8) -> int {
    if x >= 128 {
        x - 256
    } else {
        x as int
    }
}

/// Bytes taken by one tree: four reserved, the node codes, the leaf values and
/// the threshold.
pub open spec fn tree_size(leaves: int) -> int {
    8 * leaves + 4
}

pub open spec fn tree_offset(leaves: int, t: int) -> int {
    16 + t * tree_size(leaves)
}

/// Entry `i` of the codes table: node 0 of each tree is zero, the rest are the
/// tree's code bytes read as signed.
pub open spec fn code_at(b: Seq<u8>, leaves: int, i: int) -> int {
    let t = i / (4 * leaves);
    let k = i % (4 * leaves);
    if k < 4 {
        0
    } else {
        signed_byte(b[tree_offset(leaves, t) + k])
    }
}

pub open spec fn pred_at(b: Seq<u8>, leaves: int, i: int) -> int {
    let t = i / leaves;
    let j = i % leaves;
    fixed_of_f32_bits(le_u32(b, tree_offset(leaves, t) + 4 * leaves + 4 * j) as u32)
}

pub open spec fn thresh_at(b: Seq<u8>, leaves: int, t: int) -> int {
    fixed_of_f32_bits(le_u32(b, tree_offset(leaves, t) + 8 * leaves) as u32)
}

pub open spec fn header_depth(b: Seq<u8>) -> int {
    le_i32(b, 8)
}

pub open spec fn header_count(b: Seq<u8>) -> int {
    if le_i32(b, 12) < 0 {
        0
    } else {
        le_i32(b, 12)
    }
}

/// The error that reading `b` as a model meets, if any.
pub open spec fn format_error(b: Seq<u8>) -> Option<FormatError> {
    if b.len() < 12 {
        Some(FormatError::TruncatedHeader)
    } else if header_depth(b) < 0 {
        Some(FormatError::NegativeDepth)
    } else if b.len() < 16 {
        Some(FormatError::TruncatedHeader)
    } else {
        let leaves = two_pow(header_depth(b) as nat) as int;
        let avail = b.len() - 16;
        if header_count(b) * tree_size(leaves) <= avail {
            None
        } else {
            let rem = avail % tree_size(leaves);
            if rem < 4 * leaves {
                Some(FormatError::TruncatedCodes)
            } else if rem < 8 * leaves {
                Some(FormatError::TruncatedPredictions)
            } else {
                Some(FormatError::TruncatedThreshold)
            }
        }
    }
}

/// `c` holds exactly the forest that the bytes `b` describe.
pub open spec fn read_from(c: Cascade, b: Seq<u8>) -> bool {
    let leaves = c.leaves as int;
    &&& c.depth == header_depth(b)
    &&& c.ntrees == header_count(b)
    &&& forall|i: int| 0 <= i < c.codes@.len() ==> #[trigger] c.codes@[i] == code_at(b, leaves, i)
    &&& forall|i: int| 0 <= i < c.preds@.len() ==> #[trigger] c.preds@[i] == pred_at(b, leaves, i)
    &&& forall|t: int|
        0 <= t < c.thresh@.len() ==> #[trigger] c.thresh@[t] == thresh_at(b, leaves, t)
}

fn to_signed(x: u8) -> (r: i8)
    ensures
        r == signed_byte(x),
{
    if x >= 128 {
        (x as i16 - 256) as i8
    } else {
        x as i8
    }
}

proof fn lemma_split_index(i: int, w: int, t: int, k: int)
    requires
        w > 0,
        0 <= k < w,
        i == t * w + k,
    ensures
        i / w == t,
        i % w == k,
{
    lemma_fundamental_div_mod_converse(i, w, t, k);
}

proof fn lemma_truncated_at(avail: int, size: int, t: int, n: int)
    requires
        size > 0,
        0 <= t < n,
        t * size <= avail < (t + 1) * size,
    ensures
        avail % size == avail - t * size,
        n * size > avail,
{
    assert((t + 1) * size == t * size + size) by (nonlinear_arith);
    lemma_fundamental_div_mod_converse(avail, size, t, avail - t * size);
    assert(n * size >= (t + 1) * size) by (nonlinear_arith)
        requires
            n >= t + 1,
            size > 0,
    ;
}

/// Reads a model: `[8 bytes header][depth i32][tree count i32]`, then per tree
/// `[4 reserved][4 * 2^depth - 4 code bytes][2^depth f32 leaf values][f32
/// threshold]`, little-endian. A negative tree count means no trees.
pub fn parse_cascade(bytes: &Vec<u8>) -> (r: Result<Cascade, FormatError>)
    ensures
        match r {
            Ok(c) => format_error(bytes@) is None && c.wf() && read_from(c, bytes@),
            Err(e) => format_error(bytes@) == Some(e),
        },
{
    let len: usize = bytes.len();
    if len < 12 {
        return Err(FormatError::TruncatedHeader);
    }
    let depth_raw = i32_at(bytes, 8);
    if depth_raw < 0 {
        return Err(FormatError::NegativeDepth);
    }
    if len < 16 {
        return Err(FormatError::TruncatedHeader);
    }
    let depth: u32 = depth_raw as u32;
    let count_raw = i32_at(bytes, 12);
    if count_raw <= 0 {
        assert(header_count(bytes@) == 0);
        return Ok(Cascade { depth, ntrees: 0, leaves: 0, codes: Vec::new(), preds: Vec::new(), thresh: Vec::new() });
    }
    let ntrees: usize = count_raw as usize;
    let total: u128 = len as u128;
    assert(total <= 0xffff_ffff_ffff_ffff);
    if depth > 62 {
        // Even the first tree's codes would need more than 2^64 bytes.
        proof {
            lemma_two_pow_large(depth as nat);
            lemma_truncated_at(total - 16, tree_size(two_pow(depth as nat) as int), 0, ntrees as int);
        }
        return Err(FormatError::TruncatedCodes);
    }
    let mut leaves: u128 = 1;
    let mut d: u32 = 0;
    assert(two_pow(0) == 1);
    proof {
        lemma_two_pow_large(62);
    }
    while d < depth
        invariant
            depth <= 62,
            d <= depth,
            leaves == two_pow(d as nat),
            leaves <= 0x4000_0000_0000_0000,
            two_pow(62) == 0x4000_0000_0000_0000,
        decreases depth - d,
    {
        proof {
            lemma_two_pow_at_least(62, (d + 1) as nat);
        }
        leaves = leaves * 2;
        d = d + 1;
    }
    proof {
        lemma_two_pow_at_least(depth as nat, 0);
    }
    let ghost b = bytes@;
    let ghost lv = leaves as int;
    let size: u128 = 8 * leaves + 4;
    let mut codes: Vec<i8> = Vec::new();
    let mut preds: Vec<i32> = Vec::new();
    let mut thresh: Vec<i32> = Vec::new();
    let mut t: usize = 0;
    let mut p: u128 = 16;
    while t < ntrees
        invariant
            b == bytes@,
            total == b.len(),
            total <= usize::MAX,
            lv == leaves,
            1 <= leaves <= 0x4000_0000_0000_0000,
            leaves == two_pow(depth as nat),
            depth == header_depth(b),
            depth <= 62,
            ntrees == header_count(b),
            ntrees <= i32::MAX,
            size == tree_size(lv),
            t <= ntrees,
            p == tree_offset(lv, t as int),
            p <= total,
            codes@.len() == t * (4 * lv),
            preds@.len() == t * lv,
            thresh@.len() == t,
            forall|i: int| 0 <= i < codes@.len() ==> #[trigger] codes@[i] == code_at(b, lv, i),
            forall|i: int| 0 <= i < preds@.len() ==> #[trigger] preds@[i] == pred_at(b, lv, i),
            forall|u: int| 0 <= u < thresh@.len() ==> #[trigger] thresh@[u] == thresh_at(b, lv, u),
        decreases ntrees - t,
    {
        assert(p == 16 + t * size);
        assert((t + 1) * size == t * size + size) by (nonlinear_arith);
        if total - p < 4 * leaves {
            proof {
                lemma_truncated_at(total - 16, size as int, t as int, ntrees as int);
            }
            return Err(FormatError::TruncatedCodes);
        }
        let mut k: u128 = 0;
        while k < 4 * leaves
            invariant
                b == bytes@,
                total == b.len(),
                total <= usize::MAX,
                lv == leaves,
                1 <= leaves <= 0x4000_0000_0000_0000,
                p == tree_offset(lv, t as int),
                p + 4 * leaves <= total,
                k <= 4 * leaves,
                codes@.len() == t * (4 * lv) + k,
                forall|i: int| 0 <= i < codes@.len() ==> #[trigger] codes@[i] == code_at(b, lv, i),
            decreases 4 * leaves - k,
        {
            let ghost i = codes@.len() as int;
            proof {
                lemma_split_index(i, 4 * lv, t as int, k as int);
            }
            if k < 4 {
                codes.push(0);
            } else {
                let x = bytes[(p + k) as usize];
                codes.push(to_signed(x));
                assert(codes@[i] == signed_byte(b[p + k]));
            }
            assert(codes@[i] == code_at(b, lv, i));
            k = k + 1;
        }
        if total - p - 4 * leaves < 4 * leaves {
            proof {
                lemma_truncated_at(total - 16, size as int, t as int, ntrees as int);
            }
            return Err(FormatError::TruncatedPredictions);
        }
        let mut j: u128 = 0;
        while j < leaves
            invariant
                b == bytes@,
                total == b.len(),
                total <= usize::MAX,
                lv == leaves,
                1 <= leaves <= 0x4000_0000_0000_0000,
                p == tree_offset(lv, t as int),
                p + 8 * leaves <= total,
                j <= leaves,
                preds@.len() == t * lv + j,
                forall|i: int| 0 <= i < preds@.len() ==> #[trigger] preds@[i] == pred_at(b, lv, i),
            decreases leaves - j,
        {
            let ghost i = preds@.len() as int;
            proof {
                lemma_split_index(i, lv, t as int, j as int);
            }
            let bits = u32_at(bytes, (p + 4 * leaves + 4 * j) as usize);
            preds.push(fixed_from_f32_bits(bits));
            assert(preds@[i] == pred_at(b, lv, i));
            j = j + 1;
        }
        if total - p - 8 * leaves < 4 {
            proof {
                lemma_truncated_at(total - 16, size as int, t as int, ntrees as int);
            }
            return Err(FormatError::TruncatedThreshold);
        }
        let bits = u32_at(bytes, (p + 8 * leaves) as usize);
        thresh.push(fixed_from_f32_bits(bits));
        proof {
            assert((t + 1) * (4 * lv) == t * (4 * lv) + 4 * lv) by (nonlinear_arith);
            assert((t + 1) * lv == t * lv + lv) by (nonlinear_arith);
            assert((t + 1) * size == t * size + size) by (nonlinear_arith);
        }
        p = p + size;
        t = t + 1;
    }
    proof {
        assert(ntrees * size <= total - 16);
        assert(size <= ntrees * size) by (nonlinear_arith)
            requires
                ntrees >= 1,
                size >= 0,
        ;
    }
    Ok(Cascade { depth, ntrees, leaves: leaves as usize, codes, preds, thresh })
}

proof fn lemma_two_pow_large(k: nat)
    requires
        k == 62 || k >= 63,
    ensures
        k == 62 ==> two_pow(k) == 0x4000_0000_0000_0000,
        k >= 63 ==> two_pow(k) >= 0x8000_0000_0000_0000,
{
    reveal_with_fuel(two_pow, 64);
    if k >= 63 {
        lemma_two_pow_at_least(k, 63);
    }
}

} // verus!
