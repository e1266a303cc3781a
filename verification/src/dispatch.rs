//! The batching core of a detector worker.
//!
//! A worker accumulates frames into a batch and flushes it when the batch is
//! full or the wait deadline has passed; the deadline clock resets on every
//! receive, so batches grow while input flows and flush on true idle. On
//! channel closure the residue is flushed, so no frame is dropped at
//! shutdown.
//!
//! The binary runs the receive loop — the clock and the channel are outside
//! work — and drives this state machine: [`Batcher::take_batch`] before each
//! receive, [`Batcher::on_item`] on a value, [`Batcher::take_batch`] with the
//! full deadline on a timeout, [`Batcher::on_disconnect`] when the channel
//! closes.

use vstd::prelude::*;
use crate::detect::{config_wf, DetectConfig};
use crate::export::ExportFrame;
use crate::media::{ArrayItem, Frame};

verus! {

/// The batching state of one detector worker.
pub struct Batcher {
    pub frames: Vec<Frame>,
    pub batch_size: usize,
    pub timeout_ms: usize,
    pub iframe: bool,
}

impl Batcher {
    /// A worker never holds more than one batch.
    pub open spec fn wf(&self) -> bool {
        &&& self.batch_size >= 1
        &&& self.frames@.len() <= self.batch_size
    }

    /// A fresh batcher for one worker, configured like its detector.
    pub fn new(config: &DetectConfig) -> (r: Batcher)
        requires
            config_wf(*config),
        ensures
            r.wf(),
            r.frames@.len() == 0,
            r.batch_size == config.batch_size,
            r.timeout_ms == config.timeout,
            r.iframe == config.iframe,
    {
        Batcher {
            frames: Vec::new(),
            batch_size: config.batch_size,
            timeout_ms: config.timeout,
            iframe: config.iframe,
        }
    }

    /// The batch must flush: it is full, or the deadline has passed while it
    /// holds something.
    pub open spec fn spec_must_flush(&self, elapsed_ms: int) -> bool {
        self.frames@.len() >= self.batch_size || elapsed_ms >= self.timeout_ms
    }

    /// Hand out the accumulated batch when it is full or the deadline has
    /// passed; afterwards the worker holds strictly less than a full batch,
    /// so one more receive always fits.
    pub fn take_batch(&mut self, elapsed_ms: usize) -> (r: Option<Vec<Frame>>)
        requires
            old(self).wf(),
        ensures
            final(self).wf(),
            final(self).batch_size == old(self).batch_size,
            final(self).timeout_ms == old(self).timeout_ms,
            final(self).iframe == old(self).iframe,
            final(self).frames@.len() < final(self).batch_size,
            if old(self).spec_must_flush(elapsed_ms as int) && old(self).frames@.len() > 0 {
                r matches Some(b) && b@ == old(self).frames@ && final(self).frames@.len() == 0
            } else if old(self).spec_must_flush(elapsed_ms as int) {
                r is None && final(self).frames@.len() == 0
            } else {
                r is None && final(self).frames@ == old(self).frames@
            },
    {
        if self.frames.len() >= self.batch_size || elapsed_ms >= self.timeout_ms {
            if self.frames.len() > 0 {
                let mut batch: Vec<Frame> = Vec::new();
                std::mem::swap(&mut batch, &mut self.frames);
                return Some(batch);
            }
        }
        None
    }

    /// Absorb one received value: a frame joins the batch; an error marker
    /// becomes a record at once, with no boxes and no label, carrying the
    /// file and the message.
    pub fn on_item(&mut self, item: ArrayItem) -> (r: Option<ExportFrame>)
        requires
            old(self).wf(),
            old(self).frames@.len() < old(self).batch_size,
        ensures
            final(self).wf(),
            final(self).batch_size == old(self).batch_size,
            final(self).timeout_ms == old(self).timeout_ms,
            final(self).iframe == old(self).iframe,
            match item {
                ArrayItem::Frame(f) => final(self).frames@ == old(self).frames@.push(f) && r is None,
                ArrayItem::ErrFile(ef) => final(self).frames@ == old(self).frames@ && (r matches Some(rec)
                    && {
                    &&& rec.file == ef.file
                    &&& rec.shoot_time is None
                    &&& rec.frame_index == 0
                    &&& rec.total_frames == 1
                    &&& rec.is_iframe == old(self).iframe
                    &&& rec.bboxes is None
                    &&& rec.label is None
                    &&& rec.error matches Some(m) && m@ == ef.error@
                }),
            },
    {
        match item {
            ArrayItem::Frame(f) => {
                self.frames.push(f);
                None
            },
            ArrayItem::ErrFile(ef) => Some(
                ExportFrame {
                    file: ef.file,
                    shoot_time: None,
                    frame_index: 0,
                    total_frames: 1,
                    is_iframe: self.iframe,
                    bboxes: None,
                    label: None,
                    error: Some(ef.error),
                },
            ),
        }
    }

    /// The channel closed: hand out whatever is left, so nothing is dropped
    /// at shutdown.
    pub fn on_disconnect(&mut self) -> (r: Option<Vec<Frame>>)
        requires
            old(self).wf(),
        ensures
            final(self).wf(),
            final(self).frames@.len() == 0,
            if old(self).frames@.len() > 0 {
                r matches Some(b) && b@ == old(self).frames@
            } else {
                r is None
            },
    {
        if self.frames.len() > 0 {
            let mut batch: Vec<Frame> = Vec::new();
            std::mem::swap(&mut batch, &mut self.frames);
            Some(batch)
        } else {
            None
        }
    }

    /// How long the next receive may wait: the deadline less the time
    /// already waited, and nothing once the deadline has passed.
    pub fn remaining_wait(&self, elapsed_ms: usize) -> (r: usize)
        ensures
            r as int == if elapsed_ms as int >= self.timeout_ms as int {
                0
            } else {
                self.timeout_ms - elapsed_ms
            },
    {
        if elapsed_ms >= self.timeout_ms {
            0
        } else {
            self.timeout_ms - elapsed_ms
        }
    }
}

/// The total of a sequence of counts.
pub open spec fn spec_sum(s: Seq<int>) -> int
    decreases s.len(),
{
    if s.len() == 0 {
        0
    } else {
        spec_sum(s.drop_last()) + s.last()
    }
}

/// Back-pressure: with the frame channel bounded to `c` frames and each of
/// the workers holding at most `b` frames — which [`Batcher::wf`] pins — no
/// more than `c + w * b` undispatched frames exist at once, where `w` is the
/// worker count.
pub proof fn lemma_back_pressure(held: Seq<int>, c: int, b: int)
    requires
        c >= 0,
        b >= 0,
        forall|i: int| 0 <= i < held.len() ==> 0 <= #[trigger] held[i] <= b,
    ensures
        c + spec_sum(held) <= c + held.len() * b,
    decreases held.len(),
{
    if held.len() == 0 {
    } else {
        lemma_back_pressure(held.drop_last(), c, b);
        assert((held.len() - 1) * b + b == held.len() * b) by (nonlinear_arith);
    }
}

} // verus!
