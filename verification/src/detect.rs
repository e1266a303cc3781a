//! The detection stage: post-processing of raw detector output.
//!
//! The detector itself is a black box living outside the library; the binary
//! hands its per-frame rows in as fixed-point integers. Verified here:
//! the confidence filter, the rescale from model coordinates to source
//! coordinates, the clip to the source frame, non-maximum suppression, the
//! per-frame label, and the shape of the records that flow to the exporters.

use vstd::prelude::*;
use crate::export::ExportFrame;
use crate::media::{clone_opt_string, frame_wf, Frame};
use crate::utils::{
    bbox_wf, boxes_wf, nms, nms_separated, sorted_desc, suppressed_by, Bbox, COORD_MAX,
    SCORE_SCALE,
};

verus! {

/// Immutable per-run configuration shared by all detector workers.
///
/// `conf_thres` and `iou_thres` are in millionths; `timeout` is the batch
/// wait deadline in milliseconds.
#[derive(Clone, Debug)]
pub struct DetectConfig {
    pub device: String,
    pub model_path: String,
    pub target_size: usize,
    pub conf_thres: u32,
    pub iou_thres: u32,
    pub batch_size: usize,
    pub timeout: usize,
    pub iframe: bool,
}

/// A model input side the rescale arithmetic can carry, and a batch of at
/// least one.
pub open spec fn config_wf(c: DetectConfig) -> bool {
    &&& 1 <= c.target_size <= 100000
    &&& c.batch_size >= 1
}

/// One candidate row of the detector's output for one frame: corners in
/// model coordinates (thousandths of a model pixel), score in millionths.
#[derive(Clone, Copy, Debug, PartialEq, Eq, Structural)]
pub struct RawDetection {
    pub x1: i64,
    pub y1: i64,
    pub x2: i64,
    pub y2: i64,
    pub score: u32,
    pub class: usize,
}

/// Ordered corners within the coordinate bound, score at most one.
pub open spec fn raw_wf(r: RawDetection) -> bool {
    &&& -COORD_MAX as int <= r.x1 <= r.x2 <= COORD_MAX as int
    &&& -COORD_MAX as int <= r.y1 <= r.y2 <= COORD_MAX as int
    &&& r.score <= SCORE_SCALE
}

pub open spec fn raws_wf(s: Seq<RawDetection>) -> bool {
    forall|i: int| 0 <= i < s.len() ==> raw_wf(#[trigger] s[i])
}

/// A model coordinate mapped back to the source image: scaled by
/// `longest / s` (the letterbox ratio), shifted by the pad, clipped to
/// `[0, limit]`. All values in thousandths of a pixel.
pub open spec fn spec_rescale_coord(
    v: int,
    longest: int,
    s: int,
    pad_milli: int,
    limit_milli: int,
) -> int {
    if v < 0 {
        0
    } else {
        let scaled = (v * longest) / s - pad_milli;
        if scaled < 0 {
            0
        } else if scaled > limit_milli {
            limit_milli
        } else {
            scaled
        }
    }
}

/// Rescale one model coordinate to source coordinates and clip it.
/// `longest` is the longer source side in pixels, `s` the model input side
/// in pixels, `pad` the letterbox pad in pixels, `limit` the clip bound in
/// pixels; `v` and the result are in thousandths of a pixel.
pub fn rescale_coord(v: i64, longest: usize, s: usize, pad: usize, limit: usize) -> (r: i64)
    requires
        -COORD_MAX as int <= v <= COORD_MAX as int,
        1 <= longest <= 1000000,
        1 <= s <= 100000,
        pad <= 1000000,
        limit <= 1000000,
    ensures
        r as int == spec_rescale_coord(
            v as int,
            longest as int,
            s as int,
            pad as int * 1000,
            limit as int * 1000,
        ),
        0 <= r <= limit as int * 1000,
{
    if v < 0 {
        return 0;
    }
    proof {
        assert(v * (longest as int) <= COORD_MAX as int * 1000000) by (nonlinear_arith)
            requires
                0 <= v <= COORD_MAX as int,
                0 < longest as int <= 1000000,
        ;
        assert(v * (longest as int) >= 0) by (nonlinear_arith)
            requires
                0 <= v,
                0 <= longest as int,
        ;
        vstd::arithmetic::div_mod::lemma_div_pos_is_pos(v as int * longest as int, s as int);
    }
    let scaled: i64 = (v * longest as i64) / (s as i64) - (pad as i64) * 1000;
    if scaled < 0 {
        0
    } else if scaled > (limit as i64) * 1000 {
        (limit as i64) * 1000
    } else {
        scaled
    }
}

/// Rescaling is monotone: ordered model coordinates stay ordered in source
/// coordinates.
proof fn lemma_rescale_monotone(v1: int, v2: int, longest: int, s: int, pad: int, limit: int)
    requires
        v1 <= v2,
        1 <= longest,
        1 <= s,
        0 <= pad,
        0 <= limit,
    ensures
        spec_rescale_coord(v1, longest, s, pad, limit) <= spec_rescale_coord(
            v2,
            longest,
            s,
            pad,
            limit,
        ),
{
    if v1 >= 0 {
        assert(v1 * longest <= v2 * longest) by (nonlinear_arith)
            requires
                v1 <= v2,
                0 < longest,
        ;
        vstd::arithmetic::div_mod::lemma_div_is_ordered(v1 * longest, v2 * longest, s);
    } else if v2 >= 0 {
        assert(v2 * longest >= 0) by (nonlinear_arith)
            requires
                0 <= v2,
                0 < longest,
        ;
        vstd::arithmetic::div_mod::lemma_div_pos_is_pos(v2 * longest, s);
    }
}

/// The smallest class id among the boxes.
pub open spec fn spec_min_class(bs: Seq<Bbox>) -> int
    decreases bs.len(),
{
    if bs.len() <= 1 {
        if bs.len() == 0 {
            0
        } else {
            bs[0].class as int
        }
    } else {
        let rest = spec_min_class(bs.drop_last());
        if (bs.last().class as int) < rest {
            bs.last().class as int
        } else {
            rest
        }
    }
}

/// The label a frame gets from its surviving boxes: the smallest class id
/// decides — animal before person before vehicle — and no boxes means blank.
pub open spec fn spec_label_of(bs: Seq<Bbox>) -> Seq<char> {
    if bs.len() == 0 {
        "Blank"@
    } else {
        let c = spec_min_class(bs);
        if c == 0 {
            "Animal"@
        } else if c == 1 {
            "Person"@
        } else if c == 2 {
            "Vehicle"@
        } else {
            "Blank"@
        }
    }
}

/// The smallest class id is attained and is a lower bound.
proof fn lemma_min_class_attained(bs: Seq<Bbox>)
    requires
        bs.len() > 0,
    ensures
        exists|i: int| 0 <= i < bs.len() && (#[trigger] bs[i].class) as int == spec_min_class(bs),
        forall|i: int| 0 <= i < bs.len() ==> spec_min_class(bs) <= (#[trigger] bs[i].class) as int,
    decreases bs.len(),
{
    if bs.len() == 1 {
        assert(bs[0].class as int == spec_min_class(bs));
    } else {
        lemma_min_class_attained(bs.drop_last());
        let rest = spec_min_class(bs.drop_last());
        if (bs.last().class as int) < rest {
            assert(bs[bs.len() - 1].class as int == spec_min_class(bs));
        } else {
            let w = choose|i: int|
                0 <= i < bs.drop_last().len() && (#[trigger] bs.drop_last()[i].class) as int
                    == rest;
            assert(bs[w].class as int == spec_min_class(bs));
        }
        assert forall|i: int| 0 <= i < bs.len() implies spec_min_class(bs) <= (
        #[trigger] bs[i].class) as int by {
            if i < bs.len() - 1 {
                assert(bs.drop_last()[i] == bs[i]);
            }
        }
    }
}

/// Label priority: the label is `Animal` exactly when a class-0 box
/// survives; failing that, `Person` exactly when a class-1 box survives;
/// failing that, `Vehicle` exactly when a class-2 box survives; and `Blank`
/// otherwise.
pub proof fn lemma_label_priority(bs: Seq<Bbox>)
    ensures
        (spec_label_of(bs) == "Animal"@) <==> (exists|i: int|
            0 <= i < bs.len() && (#[trigger] bs[i]).class == 0),
        !(exists|i: int| 0 <= i < bs.len() && (#[trigger] bs[i]).class == 0) ==> ((spec_label_of(bs)
            == "Person"@) <==> (exists|i: int|
            0 <= i < bs.len() && (#[trigger] bs[i]).class == 1)),
        (!(exists|i: int| 0 <= i < bs.len() && (#[trigger] bs[i]).class == 0) && !(exists|i: int|
            0 <= i < bs.len() && (#[trigger] bs[i]).class == 1)) ==> ((spec_label_of(bs)
            == "Vehicle"@) <==> (exists|i: int|
            0 <= i < bs.len() && (#[trigger] bs[i]).class == 2)),
        (!(exists|i: int| 0 <= i < bs.len() && (#[trigger] bs[i]).class == 0) && !(exists|i: int|
            0 <= i < bs.len() && (#[trigger] bs[i]).class == 1) && !(exists|i: int|
            0 <= i < bs.len() && (#[trigger] bs[i]).class == 2)) ==> spec_label_of(bs) == "Blank"@,
{
    reveal_strlit("Animal");
    reveal_strlit("Person");
    reveal_strlit("Vehicle");
    reveal_strlit("Blank");
    assert("Animal"@.len() == 6);
    assert("Person"@.len() == 6);
    assert("Vehicle"@.len() == 7);
    assert("Blank"@.len() == 5);
    assert("Animal"@[0] == 'A');
    assert("Person"@[0] == 'P');
    if bs.len() == 0 {
    } else {
        lemma_min_class_attained(bs);
        let m = spec_min_class(bs);
        if m == 0 {
            assert(spec_label_of(bs) == "Animal"@);
        } else if m == 1 {
            assert(spec_label_of(bs) == "Person"@);
        } else if m == 2 {
            assert(spec_label_of(bs) == "Vehicle"@);
        } else {
            assert(spec_label_of(bs) == "Blank"@);
        }
    }
}

/// The label of a set of boxes: the smallest surviving class id decides.
pub fn get_label(bboxes: &Vec<Bbox>) -> (r: String)
    ensures
        r@ == spec_label_of(bboxes@),
{
    if bboxes.len() == 0 {
        return String::from_str("Blank");
    }
    let mut class_id: usize = bboxes[0].class;
    let mut i: usize = 1;
    proof {
        assert(bboxes@.subrange(0, 1).len() == 1);
        assert(bboxes@.subrange(0, 1)[0] == bboxes@[0]);
    }
    while i < bboxes.len()
        invariant
            1 <= i <= bboxes@.len(),
            bboxes@.len() >= 1,
            class_id as int == spec_min_class(bboxes@.subrange(0, i as int)),
        decreases bboxes@.len() - i,
    {
        proof {
            assert(bboxes@.subrange(0, i + 1).drop_last() =~= bboxes@.subrange(0, i as int));
            assert(bboxes@.subrange(0, i + 1).last() == bboxes@[i as int]);
        }
        let c = bboxes[i].class;
        if c < class_id {
            class_id = c;
        }
        i = i + 1;
    }
    proof {
        assert(bboxes@.subrange(0, bboxes@.len() as int) =~= bboxes@);
    }
    if class_id == 0 {
        String::from_str("Animal")
    } else if class_id == 1 {
        String::from_str("Person")
    } else if class_id == 2 {
        String::from_str("Vehicle")
    } else {
        String::from_str("Blank")
    }
}

/// What post-processing owes of every surviving box of a frame `w` by `h`
/// pixels: well-formed, inside the source frame (coordinate soundness), and
/// at or above the confidence threshold.
pub open spec fn boxes_sound(bs: Seq<Bbox>, w: int, h: int, conf: int) -> bool {
    forall|i: int|
        0 <= i < bs.len() ==> {
            let b = #[trigger] bs[i];
            &&& bbox_wf(b)
            &&& 0 <= b.x1 <= b.x2 <= w * 1000
            &&& 0 <= b.y1 <= b.y2 <= h * 1000
            &&& conf <= b.score as int
        }
}

/// The longer source side of a frame, in pixels.
pub open spec fn spec_longest(fr: Frame) -> int {
    if fr.width > fr.height {
        fr.width as int
    } else {
        fr.height as int
    }
}

/// The box a candidate row yields for a frame: each corner rescaled from
/// model to source coordinates and clipped to the frame; score and class
/// carried over.
pub open spec fn spec_candidate(row: RawDetection, fr: Frame, cfg: DetectConfig) -> Bbox {
    Bbox {
        x1: spec_rescale_coord(
            row.x1 as int,
            spec_longest(fr),
            cfg.target_size as int,
            fr.padding.0 as int * 1000,
            fr.width as int * 1000,
        ) as i64,
        y1: spec_rescale_coord(
            row.y1 as int,
            spec_longest(fr),
            cfg.target_size as int,
            fr.padding.1 as int * 1000,
            fr.height as int * 1000,
        ) as i64,
        x2: spec_rescale_coord(
            row.x2 as int,
            spec_longest(fr),
            cfg.target_size as int,
            fr.padding.0 as int * 1000,
            fr.width as int * 1000,
        ) as i64,
        y2: spec_rescale_coord(
            row.y2 as int,
            spec_longest(fr),
            cfg.target_size as int,
            fr.padding.1 as int * 1000,
            fr.height as int * 1000,
        ) as i64,
        score: row.score,
        class: row.class,
    }
}

/// `b` is the candidate of some row at or above the confidence threshold.
pub open spec fn spec_from_rows(
    b: Bbox,
    rows: Seq<RawDetection>,
    fr: Frame,
    cfg: DetectConfig,
) -> bool {
    exists|j: int|
        0 <= j < rows.len() && (#[trigger] rows[j]).score >= cfg.conf_thres && b == spec_candidate(
            rows[j],
            fr,
            cfg,
        )
}

/// What post-processing owes for one frame's rows: sound, separated,
/// score-ordered boxes, at most 100; every kept box is the candidate of some
/// row at or above the confidence threshold; and — unless the cap was hit —
/// every such candidate is kept or overlaps a kept box of equal or higher
/// score at or above the threshold.
pub open spec fn spec_postprocessed(
    bs: Seq<Bbox>,
    rows: Seq<RawDetection>,
    fr: Frame,
    cfg: DetectConfig,
) -> bool {
    &&& boxes_sound(bs, fr.width as int, fr.height as int, cfg.conf_thres as int)
    &&& nms_separated(bs, true, cfg.iou_thres as int)
    &&& sorted_desc(bs)
    &&& bs.len() <= 100
    &&& forall|i: int| 0 <= i < bs.len() ==> spec_from_rows(#[trigger] bs[i], rows, fr, cfg)
    &&& (bs.len() == 100 || forall|j: int|
        0 <= j < rows.len() && (#[trigger] rows[j]).score >= cfg.conf_thres ==> bs.contains(
            spec_candidate(rows[j], fr, cfg),
        ) || suppressed_by(bs, spec_candidate(rows[j], fr, cfg), cfg.iou_thres as int))
}

/// Post-process the detector's candidate rows for one frame: drop rows under
/// the confidence threshold, rescale to source coordinates, clip to the
/// frame, and run agnostic non-maximum suppression capped at 100 boxes.
pub fn postprocess_frame(rows: &Vec<RawDetection>, frame: &Frame, config: &DetectConfig) -> (boxes:
    Vec<Bbox>)
    requires
        raws_wf(rows@),
        frame_wf(*frame),
        config_wf(*config),
    ensures
        spec_postprocessed(boxes@, rows@, *frame, *config),
{
    let longest = if frame.width > frame.height {
        frame.width
    } else {
        frame.height
    };
    let mut candidates: Vec<Bbox> = Vec::new();
    let mut i: usize = 0;
    while i < rows.len()
        invariant
            i <= rows@.len(),
            raws_wf(rows@),
            frame_wf(*frame),
            config_wf(*config),
            longest == if frame.width > frame.height {
                frame.width
            } else {
                frame.height
            },
            boxes_sound(
                candidates@,
                frame.width as int,
                frame.height as int,
                config.conf_thres as int,
            ),
            forall|c: int|
                0 <= c < candidates@.len() ==> spec_from_rows(
                    #[trigger] candidates@[c],
                    rows@,
                    *frame,
                    *config,
                ),
            forall|j: int|
                0 <= j < i && (#[trigger] rows@[j]).score >= config.conf_thres
                    ==> candidates@.contains(spec_candidate(rows@[j], *frame, *config)),
        decreases rows@.len() - i,
    {
        let row = rows[i];
        if row.score >= config.conf_thres {
            let x1 = rescale_coord(
                row.x1,
                longest,
                config.target_size,
                frame.padding.0,
                frame.width,
            );
            let y1 = rescale_coord(
                row.y1,
                longest,
                config.target_size,
                frame.padding.1,
                frame.height,
            );
            let x2 = rescale_coord(
                row.x2,
                longest,
                config.target_size,
                frame.padding.0,
                frame.width,
            );
            let y2 = rescale_coord(
                row.y2,
                longest,
                config.target_size,
                frame.padding.1,
                frame.height,
            );
            proof {
                lemma_rescale_monotone(
                    row.x1 as int,
                    row.x2 as int,
                    longest as int,
                    config.target_size as int,
                    frame.padding.0 as int * 1000,
                    frame.width as int * 1000,
                );
                lemma_rescale_monotone(
                    row.y1 as int,
                    row.y2 as int,
                    longest as int,
                    config.target_size as int,
                    frame.padding.1 as int * 1000,
                    frame.height as int * 1000,
                );
            }
            let b = Bbox { x1, y1, x2, y2, score: row.score, class: row.class };
            proof {
                assert(b == spec_candidate(rows@[i as int], *frame, *config));
            }
            let ghost cand_old = candidates@;
            candidates.push(b);
            proof {
                assert(spec_from_rows(b, rows@, *frame, *config)) by {
                    assert(rows@[i as int].score >= config.conf_thres);
                    assert(b == spec_candidate(rows@[i as int], *frame, *config));
                }
                assert forall|c: int| 0 <= c < candidates@.len() implies spec_from_rows(
                    #[trigger] candidates@[c],
                    rows@,
                    *frame,
                    *config,
                ) by {
                    if c < candidates@.len() - 1 {
                        assert(candidates@[c] == cand_old[c]);
                    } else {
                        assert(candidates@[c] == b);
                    }
                }
                assert forall|j: int|
                    0 <= j < i + 1 && (#[trigger] rows@[j]).score >= config.conf_thres implies
                    candidates@.contains(spec_candidate(rows@[j], *frame, *config)) by {
                    if j < i as int {
                        let w = choose|w: int|
                            0 <= w < cand_old.len() && cand_old[w] == spec_candidate(
                                rows@[j],
                                *frame,
                                *config,
                            );
                        assert(candidates@[w] == spec_candidate(rows@[j], *frame, *config));
                    } else {
                        assert(candidates@[candidates@.len() - 1] == spec_candidate(
                            rows@[j],
                            *frame,
                            *config,
                        ));
                    }
                }
                assert forall|j: int| 0 <= j < candidates@.len() implies {
                    let bb = #[trigger] candidates@[j];
                    &&& bbox_wf(bb)
                    &&& 0 <= bb.x1 <= bb.x2 <= frame.width as int * 1000
                    &&& 0 <= bb.y1 <= bb.y2 <= frame.height as int * 1000
                    &&& config.conf_thres as int <= bb.score as int
                } by {
                    if j < candidates@.len() - 1 {
                        assert(candidates@[j] == cand_old[j]);
                    } else {
                        assert(candidates@[j] == b);
                    }
                }
            }
        }
        i = i + 1;
    }
    let ghost cand = candidates@;
    let boxes = nms(candidates, true, 100, config.iou_thres);
    proof {
        assert forall|j: int| 0 <= j < boxes@.len() implies {
            let bb = #[trigger] boxes@[j];
            &&& bbox_wf(bb)
            &&& 0 <= bb.x1 <= bb.x2 <= frame.width as int * 1000
            &&& 0 <= bb.y1 <= bb.y2 <= frame.height as int * 1000
            &&& config.conf_thres as int <= bb.score as int
        } by {
            assert(cand.contains(boxes@[j]));
            let w = choose|w: int| 0 <= w < cand.len() && cand[w] == boxes@[j];
        }
        assert forall|j: int| 0 <= j < boxes@.len() implies spec_from_rows(
            #[trigger] boxes@[j],
            rows@,
            *frame,
            *config,
        ) by {
            assert(cand.contains(boxes@[j]));
            let c = choose|c: int| 0 <= c < cand.len() && cand[c] == boxes@[j];
            assert(spec_from_rows(cand[c], rows@, *frame, *config));
        }
        if boxes@.len() != 100 {
            assert forall|j: int|
                0 <= j < rows@.len() && (#[trigger] rows@[j]).score >= config.conf_thres implies
                boxes@.contains(spec_candidate(rows@[j], *frame, *config)) || suppressed_by(
                boxes@,
                spec_candidate(rows@[j], *frame, *config),
                config.iou_thres as int,
            ) by {
                let candidate = spec_candidate(rows@[j], *frame, *config);
                assert(cand.contains(candidate));
                let w = choose|w: int| 0 <= w < cand.len() && cand[w] == candidate;
                assert(boxes@.contains(cand[w]) || suppressed_by(
                    boxes@,
                    cand[w],
                    config.iou_thres as int,
                ));
            }
        }
    }
    boxes
}

/// Post-process one inference batch: one record per frame, in frame order,
/// each carrying the frame's identity, its surviving boxes and its label,
/// and never an error.
pub fn process_batch(frames: &Vec<Frame>, outputs: &Vec<Vec<RawDetection>>, config: &DetectConfig)
    -> (records: Vec<ExportFrame>)
    requires
        outputs@.len() == frames@.len(),
        forall|i: int| 0 <= i < frames@.len() ==> frame_wf(#[trigger] frames@[i]),
        forall|i: int| 0 <= i < outputs@.len() ==> raws_wf(#[trigger] outputs@[i]@),
        config_wf(*config),
    ensures
        records@.len() == frames@.len(),
        forall|i: int|
            0 <= i < records@.len() ==> {
                let rec = #[trigger] records@[i];
                let fr = frames@[i];
                &&& rec.file@ == fr.file@
                &&& rec.shoot_time == fr.shoot_time
                &&& rec.frame_index == fr.iframe_index
                &&& rec.total_frames == fr.total_frames
                &&& rec.is_iframe == config.iframe
                &&& rec.error is None
                &&& (rec.bboxes matches Some(bs) && {
                    &&& spec_postprocessed(bs@, outputs@[i]@, fr, *config)
                    &&& rec.label matches Some(l) && l@ == spec_label_of(bs@)
                })
            },
{
    let mut records: Vec<ExportFrame> = Vec::new();
    let mut i: usize = 0;
    while i < frames.len()
        invariant
            i <= frames@.len(),
            outputs@.len() == frames@.len(),
            forall|j: int| 0 <= j < frames@.len() ==> frame_wf(#[trigger] frames@[j]),
            forall|j: int| 0 <= j < outputs@.len() ==> raws_wf(#[trigger] outputs@[j]@),
            config_wf(*config),
            records@.len() == i,
            forall|j: int|
                0 <= j < i ==> {
                    let rec = #[trigger] records@[j];
                    let fr = frames@[j];
                    &&& rec.file@ == fr.file@
                    &&& rec.shoot_time == fr.shoot_time
                    &&& rec.frame_index == fr.iframe_index
                    &&& rec.total_frames == fr.total_frames
                    &&& rec.is_iframe == config.iframe
                    &&& rec.error is None
                    &&& (rec.bboxes matches Some(bs) && {
                        &&& spec_postprocessed(bs@, outputs@[j]@, fr, *config)
                        &&& rec.label matches Some(l) && l@ == spec_label_of(bs@)
                    })
                },
        decreases frames@.len() - i,
    {
        let frame = &frames[i];
        let nms_boxes = postprocess_frame(&outputs[i], frame, config);
        let label = get_label(&nms_boxes);
        let record = ExportFrame {
            file: frame.file.duplicate(),
            shoot_time: clone_opt_string(&frame.shoot_time),
            frame_index: frame.iframe_index,
            total_frames: frame.total_frames,
            is_iframe: config.iframe,
            bboxes: Some(nms_boxes),
            label: Some(label),
            error: None,
        };
        records.push(record);
        i = i + 1;
    }
    records
}

/// How many of the frames belong to the file at `path`.
pub open spec fn spec_frames_of(fs: Seq<Frame>, path: Seq<char>) -> int
    decreases fs.len(),
{
    if fs.len() == 0 {
        0
    } else {
        spec_frames_of(fs.drop_last(), path) + if fs.last().file.file_path@ == path {
            1int
        } else {
            0int
        }
    }
}

/// How many of the records belong to the file at `path`.
pub open spec fn spec_records_of(rs: Seq<ExportFrame>, path: Seq<char>) -> int
    decreases rs.len(),
{
    if rs.len() == 0 {
        0
    } else {
        spec_records_of(rs.drop_last(), path) + if rs.last().file.file_path@ == path {
            1int
        } else {
            0int
        }
    }
}

/// One batch's records carry one record per frame of each file: what
/// [`process_batch`] ensures, read as per-file counts.
proof fn lemma_batch_counts(frames: Seq<Frame>, records: Seq<ExportFrame>, path: Seq<char>)
    requires
        records.len() == frames.len(),
        forall|j: int|
            0 <= j < records.len() ==> (#[trigger] records[j]).file@ == frames[j].file@,
    ensures
        spec_records_of(records, path) == spec_frames_of(frames, path),
    decreases frames.len(),
{
    if frames.len() > 0 {
        lemma_batch_counts(frames.drop_last(), records.drop_last(), path);
        assert(records[records.len() - 1].file@ == frames[frames.len() - 1].file@);
    }
}

/// The total per-file frame count over a run of batches.
pub open spec fn spec_total_frames_of(batches: Seq<Seq<Frame>>, path: Seq<char>) -> int
    decreases batches.len(),
{
    if batches.len() == 0 {
        0
    } else {
        spec_total_frames_of(batches.drop_last(), path) + spec_frames_of(batches.last(), path)
    }
}

/// The total per-file record count over a run of batch outputs.
pub open spec fn spec_total_records_of(outs: Seq<Seq<ExportFrame>>, path: Seq<char>) -> int
    decreases outs.len(),
{
    if outs.len() == 0 {
        0
    } else {
        spec_total_records_of(outs.drop_last(), path) + spec_records_of(outs.last(), path)
    }
}

/// Record completeness across batching: the premises are exactly what
/// [`process_batch`] ensures of every batch — one record per frame, each
/// carrying its frame's identity — so however the dispatcher groups the
/// frames, and however batches interleave files, every file receives
/// exactly one record per frame of it.
pub proof fn lemma_record_completeness(
    batches: Seq<Seq<Frame>>,
    outs: Seq<Seq<ExportFrame>>,
    path: Seq<char>,
)
    requires
        outs.len() == batches.len(),
        forall|i: int| 0 <= i < outs.len() ==> (#[trigger] outs[i]).len() == batches[i].len(),
        forall|i: int, j: int|
            0 <= i < outs.len() && 0 <= j < outs[i].len() ==> (#[trigger] outs[i][j]).file@
                == batches[i][j].file@,
    ensures
        spec_total_records_of(outs, path) == spec_total_frames_of(batches, path),
    decreases batches.len(),
{
    if batches.len() > 0 {
        lemma_record_completeness(batches.drop_last(), outs.drop_last(), path);
        let last = batches.len() - 1;
        assert(outs[last].len() == batches[last].len());
        assert forall|j: int| 0 <= j < outs[last].len() implies (#[trigger] outs[last][j]).file@
            == batches[last][j].file@ by {
            assert(outs[last][j].file@ == batches[last][j].file@);
        }
        lemma_batch_counts(batches[last], outs[last], path);
    }
}

} // verus!
