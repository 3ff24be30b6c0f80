//! The detector: a model, the last scan's detections and a ring of the last
//! few scans' detections that clustering draws on.

use crate::cluster::{cluster, clusters_of, is_stable_order, permuted, Cluster};
use crate::image::{Image, RunParams};
use crate::model::{format_error, parse_cascade, read_from, Cascade, FormatError};
use crate::scanner::{scan, scan_result, Detection, ScanError};
use vstd::prelude::*;

verus! {

/// How many scans the memory keeps.
pub const MEMORY_SLOTS: usize = 5;

pub struct Pico {
    pub model: Cascade,
    pub detections: Vec<Detection>,
    pub detections_mem: Vec<Vec<Detection>>,
    pub mem_idx: usize,
}

/// The detections of slots `0..k` of the memory, slot after slot.
pub open spec fn concat(mem: Seq<Vec<Detection>>, k: int) -> Seq<Detection>
    decreases k,
{
    if k <= 0 {
        Seq::empty()
    } else {
        concat(mem, k - 1) + mem[k - 1]@
    }
}

/// Every detection in the memory, slot after slot.
pub open spec fn remembered(mem: Seq<Vec<Detection>>) -> Seq<Detection> {
    concat(mem, mem.len() as int)
}

fn copy_detections(v: &Vec<Detection>) -> (r: Vec<Detection>)
    ensures
        r@ == v@,
{
    let mut r: Vec<Detection> = Vec::new();
    let mut i: usize = 0;
    while i < v.len()
        invariant
            i <= v@.len(),
            r@ =~= v@.take(i as int),
        decreases v@.len() - i,
    {
        r.push(v[i]);
        i = i + 1;
    }
    assert(r@ =~= v@);
    r
}

impl Pico {
    pub open spec fn wf(&self) -> bool {
        &&& self.model.wf()
        &&& self.detections_mem@.len() == MEMORY_SLOTS
        &&& self.mem_idx < MEMORY_SLOTS
    }

    /// A detector with no trees and an empty memory.
    pub fn new() -> (r: Pico)
        ensures
            r.wf(),
            r.model.ntrees == 0,
            r.model.depth == 0,
            r.model.leaves == 1,
            r.model.codes@.len() == 0,
            r.model.preds@.len() == 0,
            r.model.thresh@.len() == 0,
            r.detections@.len() == 0,
            r.mem_idx == 0,
            forall|k: int| 0 <= k < MEMORY_SLOTS ==> (#[trigger] r.detections_mem@[k])@.len() == 0,
    {
        let mut mem: Vec<Vec<Detection>> = Vec::new();
        let mut k: usize = 0;
        while k < MEMORY_SLOTS
            invariant
                k <= MEMORY_SLOTS,
                mem@.len() == k,
                forall|j: int| 0 <= j < k ==> (#[trigger] mem@[j])@.len() == 0,
            decreases MEMORY_SLOTS - k,
        {
            mem.push(Vec::new());
            k = k + 1;
        }
        Pico { model: Cascade::empty(), detections: Vec::new(), detections_mem: mem, mem_idx: 0 }
    }

    /// Replaces the model with the one that `bytes` describe; on an error the
    /// detector is left as it was.
    pub fn unpack_cascade(&mut self, bytes: Vec<u8>) -> (r: Result<(), FormatError>)
        requires
            old(self).wf(),
        ensures
            final(self).wf(),
            final(self).detections@ == old(self).detections@,
            final(self).detections_mem@ == old(self).detections_mem@,
            final(self).mem_idx == old(self).mem_idx,
            match r {
                Ok(()) => format_error(bytes@) is None && read_from(final(self).model, bytes@),
                Err(e) => format_error(bytes@) == Some(e) && final(self).model == old(self).model,
            },
    {
        match parse_cascade(&bytes) {
            Ok(m) => {
                self.model = m;
                Ok(())
            },
            Err(e) => Err(e),
        }
    }

    /// Stores the current scan's detections in the memory slot at `mem_idx`
    /// and moves the index on, round the ring.
    fn update_memory(&mut self)
        requires
            old(self).wf(),
        ensures
            final(self).wf(),
            final(self).model == old(self).model,
            final(self).detections@ == old(self).detections@,
            final(self).detections_mem@.len() == MEMORY_SLOTS,
            final(self).detections_mem@[old(self).mem_idx as int]@ == old(self).detections@,
            forall|k: int|
                0 <= k < MEMORY_SLOTS && k != old(self).mem_idx ==> #[trigger] final(self).detections_mem@[k] == old(self).detections_mem@[k],
            final(self).mem_idx == (old(self).mem_idx + 1) % (MEMORY_SLOTS as int),
    {
        let copy = copy_detections(&self.detections);
        let idx = self.mem_idx;
        self.detections_mem.set(idx, copy);
        self.mem_idx = (idx + 1) % MEMORY_SLOTS;
    }

    /// Scans `image` with the model and, when the scan completes, makes its
    /// detections the current ones and records them in the memory; on an
    /// error the detector is left as it was.
    pub fn run_cascade(&mut self, image: &Image, params: &RunParams) -> (r: Result<(), ScanError>)
        requires
            old(self).wf(),
        ensures
            final(self).wf(),
            final(self).model == old(self).model,
            match r {
                Ok(()) => {
                    &&& scan_result(old(self).model, *image, *params) == Ok::<Seq<Detection>, ScanError>(final(self).detections@)
                    &&& final(self).detections_mem@[old(self).mem_idx as int]@ == final(self).detections@
                    &&& forall|k: int|
                        0 <= k < MEMORY_SLOTS && k != old(self).mem_idx ==> #[trigger] final(self).detections_mem@[k] == old(self).detections_mem@[k]
                    &&& final(self).mem_idx == (old(self).mem_idx + 1) % (MEMORY_SLOTS as int)
                },
                Err(e) => {
                    &&& scan_result(old(self).model, *image, *params) == Err::<Seq<Detection>, ScanError>(e)
                    &&& final(self).detections@ == old(self).detections@
                    &&& final(self).detections_mem@ == old(self).detections_mem@
                    &&& final(self).mem_idx == old(self).mem_idx
                },
            },
    {
        match scan(&self.model, image, params) {
            Ok(d) => {
                self.detections = d;
                self.update_memory();
                Ok(())
            },
            Err(e) => Err(e),
        }
    }

    /// Every remembered detection, slot after slot.
    pub fn remembered_detections(&self) -> (r: Vec<Detection>)
        requires
            self.wf(),
        ensures
            r@ == remembered(self.detections_mem@),
    {
        let mut out: Vec<Detection> = Vec::new();
        let mut k: usize = 0;
        while k < self.detections_mem.len()
            invariant
                self.wf(),
                k <= MEMORY_SLOTS,
                out@ == concat(self.detections_mem@, k as int),
            decreases MEMORY_SLOTS - k,
        {
            let slot = &self.detections_mem[k];
            let ghost before = out@;
            let mut i: usize = 0;
            while i < slot.len()
                invariant
                    i <= slot@.len(),
                    out@ =~= before + slot@.take(i as int),
                decreases slot@.len() - i,
            {
                out.push(slot[i]);
                i = i + 1;
            }
            assert(slot@.take(slot@.len() as int) =~= slot@);
            k = k + 1;
        }
        out
    }

    /// Clusters every remembered detection (see `cluster`), with the IoU
    /// threshold in thousandths.
    pub fn cluster_detections(&self, iou_threshold: u32) -> (r: Vec<Cluster>)
        requires
            self.wf(),
        ensures
            exists|perm: Seq<usize>|
                is_stable_order(remembered(self.detections_mem@), perm) && r@ == clusters_of(
                    #[trigger] permuted(remembered(self.detections_mem@), perm),
                    iou_threshold as int,
                ),
    {
        let all = self.remembered_detections();
        cluster(&all, iou_threshold)
    }
}

} // verus!
