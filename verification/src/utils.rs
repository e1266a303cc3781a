//! Detection boxes and the helpers shared across the pipeline stages.
//!
//! Coordinates are fixed-point integers in thousandths of a source pixel
//! ([`COORD_SCALE`]); scores and intersection-over-union values are
//! fixed-point integers in millionths ([`SCORE_SCALE`]). The binary around
//! the library converts the detector's floating-point output into these
//! units before handing it in.
//!
//! Also here: even sampling of a list down to a requested size — a video of
//! `n` decoded frames is thinned to at most `k` frames, keeping the ones at
//! index `(i * n) / k` for `i` in `0 .. k` — and the file-indexing rules.

use vstd::prelude::*;
use vstd::arithmetic::div_mod::{lemma_div_is_ordered, lemma_div_plus_one, lemma_multiply_divide_lt};
use vstd::arithmetic::mul::lemma_mul_inequality;
use vstd::math::{max as spec_max, min as spec_min};
use vstd::pervasive::cloned;
use vstd::slice::slice_index_get;

verus! {

/// Fixed-point unit of a box coordinate: thousandths of a pixel.
pub const COORD_SCALE: i64 = 1000;

/// Fixed-point unit of a score or an intersection-over-union value:
/// millionths.
pub const SCORE_SCALE: u32 = 1000000;

/// Upper bound on a coordinate (about a billion pixels), so that the
/// intersection-over-union arithmetic fits comfortably in 128 bits.
pub const COORD_MAX: i64 = 0x10000000000;

/// An axis-aligned detection box in source-image coordinates.
///
/// `x1`, `y1`, `x2`, `y2` are in thousandths of a pixel; `score` is in
/// millionths.
#[derive(Clone, Copy, Debug, PartialEq, Eq, Structural)]
pub struct Bbox {
    pub x1: i64,
    pub y1: i64,
    pub x2: i64,
    pub y2: i64,
    pub score: u32,
    pub class: usize,
}

/// A well-formed box: ordered corners, coordinates within bounds, score at
/// most one.
pub open spec fn bbox_wf(b: Bbox) -> bool {
    &&& 0 <= b.x1 <= b.x2 <= COORD_MAX as int
    &&& 0 <= b.y1 <= b.y2 <= COORD_MAX as int
    &&& b.score <= SCORE_SCALE
}

pub open spec fn boxes_wf(s: Seq<Bbox>) -> bool {
    forall|i: int| 0 <= i < s.len() ==> bbox_wf(#[trigger] s[i])
}

/// Area of a box, in squared coordinate units.
pub open spec fn spec_area(b: Bbox) -> int {
    (b.x2 - b.x1) * (b.y2 - b.y1)
}

/// Area of the intersection of two boxes, in squared coordinate units.
pub open spec fn spec_inter(a: Bbox, b: Bbox) -> int {
    let iw = spec_min(a.x2 as int, b.x2 as int) - spec_max(a.x1 as int, b.x1 as int);
    let ih = spec_min(a.y2 as int, b.y2 as int) - spec_max(a.y1 as int, b.y1 as int);
    if iw > 0 && ih > 0 {
        iw * ih
    } else {
        0
    }
}

/// Area of the union of two boxes, in squared coordinate units.
pub open spec fn spec_union(a: Bbox, b: Bbox) -> int {
    spec_area(a) + spec_area(b) - spec_inter(a, b)
}

/// Intersection-over-union of two boxes, in millionths, rounded down.
/// An empty union gives zero.
pub open spec fn spec_iou_micro(a: Bbox, b: Bbox) -> int {
    if spec_union(a, b) <= 0 {
        0
    } else {
        spec_inter(a, b) * (SCORE_SCALE as int) / spec_union(a, b)
    }
}

/// The intersection of two boxes is no larger than either box.
proof fn lemma_inter_le_areas(a: Bbox, b: Bbox)
    requires
        bbox_wf(a),
        bbox_wf(b),
    ensures
        0 <= spec_inter(a, b),
        spec_inter(a, b) <= spec_area(a),
        spec_inter(a, b) <= spec_area(b),
{
    let iw = spec_min(a.x2 as int, b.x2 as int) - spec_max(a.x1 as int, b.x1 as int);
    let ih = spec_min(a.y2 as int, b.y2 as int) - spec_max(a.y1 as int, b.y1 as int);
    if iw > 0 && ih > 0 {
        assert(iw * ih <= (a.x2 - a.x1) * (a.y2 - a.y1)) by (nonlinear_arith)
            requires
                0 < iw <= a.x2 - a.x1,
                0 < ih <= a.y2 - a.y1,
        ;
        assert(iw * ih <= (b.x2 - b.x1) * (b.y2 - b.y1)) by (nonlinear_arith)
            requires
                0 < iw <= b.x2 - b.x1,
                0 < ih <= b.y2 - b.y1,
        ;
        assert(iw * ih >= 0) by (nonlinear_arith)
            requires
                0 < iw && 0 < ih,
        ;
    } else {
        assert(spec_area(a) >= 0) by (nonlinear_arith)
            requires
                a.x2 - a.x1 >= 0 && a.y2 - a.y1 >= 0,
        ;
        assert(spec_area(b) >= 0) by (nonlinear_arith)
            requires
                b.x2 - b.x1 >= 0 && b.y2 - b.y1 >= 0,
        ;
    }
}

/// Intersection-over-union does not depend on the order of its arguments.
pub proof fn lemma_iou_symmetric(a: Bbox, b: Bbox)
    ensures
        spec_iou_micro(a, b) == spec_iou_micro(b, a),
{
    assert(spec_inter(a, b) == spec_inter(b, a));
    assert(spec_union(a, b) == spec_union(b, a));
}

/// Intersection-over-union of two well-formed boxes, in millionths, rounded
/// down.
pub fn iou_micro(a: &Bbox, b: &Bbox) -> (r: u32)
    requires
        bbox_wf(*a),
        bbox_wf(*b),
    ensures
        r as int == spec_iou_micro(*a, *b),
        r <= SCORE_SCALE,
{
    proof {
        lemma_inter_le_areas(*a, *b);
    }
    let ix1 = if a.x1 > b.x1 { a.x1 } else { b.x1 };
    let iy1 = if a.y1 > b.y1 { a.y1 } else { b.y1 };
    let ix2 = if a.x2 < b.x2 { a.x2 } else { b.x2 };
    let iy2 = if a.y2 < b.y2 { a.y2 } else { b.y2 };
    let iw: i128 = ix2 as i128 - ix1 as i128;
    let ih: i128 = iy2 as i128 - iy1 as i128;
    let inter: i128 = if iw > 0 && ih > 0 {
        proof {
            assert(iw * ih <= (COORD_MAX as int) * (COORD_MAX as int)) by (nonlinear_arith)
                requires
                    0 < iw <= COORD_MAX as int,
                    0 < ih <= COORD_MAX as int,
            ;
        }
        iw * ih
    } else {
        0
    };
    proof {
        assert((a.x2 - a.x1) * (a.y2 - a.y1) <= (COORD_MAX as int) * (COORD_MAX as int))
            by (nonlinear_arith)
            requires
                0 <= a.x2 - a.x1 <= COORD_MAX as int,
                0 <= a.y2 - a.y1 <= COORD_MAX as int,
        ;
        assert((b.x2 - b.x1) * (b.y2 - b.y1) <= (COORD_MAX as int) * (COORD_MAX as int))
            by (nonlinear_arith)
            requires
                0 <= b.x2 - b.x1 <= COORD_MAX as int,
                0 <= b.y2 - b.y1 <= COORD_MAX as int,
        ;
    }
    let area_a: i128 = (a.x2 as i128 - a.x1 as i128) * (a.y2 as i128 - a.y1 as i128);
    let area_b: i128 = (b.x2 as i128 - b.x1 as i128) * (b.y2 as i128 - b.y1 as i128);
    let union_a: i128 = area_a + area_b - inter;
    if union_a <= 0 {
        0
    } else {
        let num: u128 = (inter as u128) * (SCORE_SCALE as u128);
        let quot: u128 = num / (union_a as u128);
        proof {
            assert(inter <= union_a);
            vstd::arithmetic::div_mod::lemma_div_is_ordered(
                inter * (SCORE_SCALE as int),
                union_a * (SCORE_SCALE as int),
                union_a as int,
            );
            assert(inter * (SCORE_SCALE as int) <= union_a * (SCORE_SCALE as int))
                by (nonlinear_arith)
                requires
                    0 <= inter <= union_a,
            ;
            vstd::arithmetic::div_mod::lemma_div_multiples_vanish(
                SCORE_SCALE as int,
                union_a as int,
            );
            assert(union_a * (SCORE_SCALE as int) == (SCORE_SCALE as int) * union_a);
        }
        quot as u32
    }
}

/// Scores are in descending order.
pub open spec fn sorted_desc(s: Seq<Bbox>) -> bool {
    forall|i: int, j: int| 0 <= i < j < s.len() ==> s[i].score >= s[j].score
}

/// `b` overlaps some member of `s` of equal or higher score at or above the
/// threshold — the greedy pass keeps the better-scored of two overlapping
/// boxes.
pub open spec fn suppressed_by(s: Seq<Bbox>, b: Bbox, thres: int) -> bool {
    exists|i: int|
        0 <= i < s.len() && (#[trigger] s[i]).score >= b.score && spec_iou_micro(s[i], b) >= thres
}

/// `b` overlaps some member of `s` of its own class and of equal or higher
/// score at or above the threshold.
pub open spec fn suppressed_within_class(s: Seq<Bbox>, b: Bbox, thres: int) -> bool {
    exists|i: int|
        0 <= i < s.len() && (#[trigger] s[i]).class == b.class && s[i].score >= b.score
            && spec_iou_micro(s[i], b) >= thres
}

/// How many boxes of class `c` the sequence holds.
pub open spec fn spec_class_count(s: Seq<Bbox>, c: int) -> int
    decreases s.len(),
{
    if s.len() == 0 {
        0
    } else {
        spec_class_count(s.drop_last(), c) + if s.last().class as int == c {
            1int
        } else {
            0int
        }
    }
}

/// Appending a box raises its own class's count by one and no other.
proof fn lemma_class_count_push(s: Seq<Bbox>, b: Bbox, c: int)
    ensures
        spec_class_count(s.push(b), c) == spec_class_count(s, c) + if b.class as int == c {
            1int
        } else {
            0int
        },
{
    assert(s.push(b).drop_last() =~= s);
    assert(s.push(b).last() == b);
}

/// Count the boxes of class `c`.
fn class_count(s: &Vec<Bbox>, c: usize) -> (n: usize)
    ensures
        n as int == spec_class_count(s@, c as int),
{
    let mut n: usize = 0;
    let mut i: usize = 0;
    proof {
        assert(s@.subrange(0, 0) =~= Seq::<Bbox>::empty());
    }
    while i < s.len()
        invariant
            i <= s@.len(),
            n <= i,
            n as int == spec_class_count(s@.subrange(0, i as int), c as int),
        decreases s@.len() - i,
    {
        proof {
            assert(s@.subrange(0, i + 1).drop_last() =~= s@.subrange(0, i as int));
            assert(s@.subrange(0, i + 1).last() == s@[i as int]);
        }
        if s[i].class == c {
            n = n + 1;
        }
        i = i + 1;
    }
    proof {
        assert(s@.subrange(0, s@.len() as int) =~= s@);
    }
    n
}

/// Boxes that share a class — or any two boxes, in agnostic mode — overlap
/// strictly below the threshold, in both argument orders.
pub open spec fn nms_separated(s: Seq<Bbox>, agnostic: bool, thres: int) -> bool {
    forall|i: int, j: int|
        0 <= i < j < s.len() && (agnostic || s[i].class == s[j].class) ==> spec_iou_micro(
            #[trigger] s[i],
            #[trigger] s[j],
        ) < thres && spec_iou_micro(s[j], s[i]) < thres
}

/// Stable insertion sort by score, highest first.
fn sort_boxes_desc(boxes: Vec<Bbox>) -> (r: Vec<Bbox>)
    ensures
        r@.to_multiset() == boxes@.to_multiset(),
        sorted_desc(r@),
{
    broadcast use vstd::seq_lib::group_to_multiset_ensures;

    let mut r: Vec<Bbox> = Vec::new();
    let mut i: usize = 0;
    while i < boxes.len()
        invariant
            i <= boxes@.len(),
            r@.to_multiset() == boxes@.subrange(0, i as int).to_multiset(),
            sorted_desc(r@),
        decreases boxes@.len() - i,
    {
        let x = boxes[i];
        let mut j: usize = 0;
        while j < r.len() && r[j].score >= x.score
            invariant
                j <= r@.len(),
                forall|k: int| 0 <= k < j ==> r@[k].score >= x.score,
            decreases r@.len() - j,
        {
            j = j + 1;
        }
        let ghost old_r = r@;
        r.insert(j, x);
        proof {
            assert(r@ == old_r.insert(j as int, x));
            assert(boxes@.subrange(0, i + 1) =~= boxes@.subrange(0, i as int).push(x));
            vstd::seq_lib::to_multiset_insert(old_r, j as int, x);
            vstd::seq_lib::to_multiset_build(boxes@.subrange(0, i as int), x);
            assert(sorted_desc(r@)) by {
                assert forall|a: int, b: int| 0 <= a < b < r@.len() implies r@[a].score
                    >= r@[b].score by {
                    if a < j as int {
                        assert(r@[a] == old_r[a]);
                    } else if a == j as int {
                        assert(r@[a] == x);
                    } else {
                        assert(r@[a] == old_r[a - 1]);
                    }
                    if b < j as int {
                        assert(r@[b] == old_r[b]);
                    } else if b == j as int {
                        assert(r@[b] == x);
                    } else {
                        assert(r@[b] == old_r[b - 1]);
                    }
                }
            }
        }
        i = i + 1;
    }
    proof {
        assert(boxes@.subrange(0, boxes@.len() as int) =~= boxes@);
    }
    r
}

/// The agnostic greedy pass over a score-sorted worklist: repeatedly keep the
/// highest-scored box and drop every remaining box that overlaps it at or
/// above the threshold, stopping at `topk` boxes.
fn nms_core(work_init: Vec<Bbox>, topk: usize, iou_threshold: u32) -> (r: Vec<Bbox>)
    requires
        boxes_wf(work_init@),
        sorted_desc(work_init@),
        topk >= 1,
    ensures
        boxes_wf(r@),
        sorted_desc(r@),
        r@.len() <= topk,
        forall|i: int| 0 <= i < r@.len() ==> work_init@.contains(#[trigger] r@[i]),
        nms_separated(r@, true, iou_threshold as int),
        r@.len() == topk || (forall|k: int|
            0 <= k < work_init@.len() ==> r@.contains(#[trigger] work_init@[k]) || suppressed_by(
                r@,
                work_init@[k],
                iou_threshold as int,
            )),
{
    let mut work = work_init;
    let ghost work0 = work@;
    let mut r: Vec<Bbox> = Vec::new();
    while work.len() != 0
        invariant
            boxes_wf(work@),
            boxes_wf(r@),
            sorted_desc(work@),
            sorted_desc(r@),
            r@.len() < topk,
            work0 == work_init@,
            forall|i: int, j: int|
                0 <= i < r@.len() && 0 <= j < work@.len() ==> (#[trigger] r@[i]).score
                    >= (#[trigger] work@[j]).score,
            forall|i: int, j: int|
                0 <= i < r@.len() && 0 <= j < work@.len() ==> spec_iou_micro(
                    #[trigger] r@[i],
                    #[trigger] work@[j],
                ) < iou_threshold as int,
            nms_separated(r@, true, iou_threshold as int),
            forall|i: int| 0 <= i < r@.len() ==> work0.contains(#[trigger] r@[i]),
            forall|i: int| 0 <= i < work@.len() ==> work0.contains(#[trigger] work@[i]),
            forall|k: int|
                0 <= k < work0.len() ==> r@.contains(#[trigger] work0[k]) || work@.contains(
                    work0[k],
                ) || suppressed_by(r@, work0[k], iou_threshold as int),
        decreases work@.len(),
    {
        let best = work[0];
        let ghost r_before = r@;
        r.push(best);
        proof {
            assert(r@ == r_before.push(best));
            assert forall|i: int| 0 <= i < r_before.len() implies spec_iou_micro(
                best,
                r_before[i],
            ) < iou_threshold as int by {
                lemma_iou_symmetric(best, r_before[i]);
                assert(spec_iou_micro(r_before[i], work@[0]) < iou_threshold as int);
            }
            assert(work0.contains(work@[0]));
            assert forall|i: int| 0 <= i < r@.len() implies work0.contains(#[trigger] r@[i]) by {
                if i < r_before.len() {
                    assert(r@[i] == r_before[i]);
                } else {
                    assert(r@[i] == best);
                }
            }
            assert(nms_separated(r@, true, iou_threshold as int)) by {
                assert forall|i: int, j: int| 0 <= i < j < r@.len() implies spec_iou_micro(
                    #[trigger] r@[i],
                    #[trigger] r@[j],
                ) < iou_threshold as int && spec_iou_micro(r@[j], r@[i]) < iou_threshold as int by {
                    if j < r@.len() - 1 {
                        assert(r@[i] == r_before[i] && r@[j] == r_before[j]);
                    } else {
                        assert(r@[i] == r_before[i] && r@[j] == best);
                        assert(spec_iou_micro(r_before[i], work@[0]) < iou_threshold as int);
                    }
                }
            }
        }
        if r.len() >= topk {
            proof {
                assert(r@.len() == topk);
            }
            return r;
        }
        let mut kept: Vec<Bbox> = Vec::new();
        let mut k: usize = 1;
        while k < work.len()
            invariant
                1 <= k <= work@.len(),
                work@.len() >= 1,
                boxes_wf(work@),
                sorted_desc(work@),
                best == work@[0],
                bbox_wf(best),
                boxes_wf(kept@),
                sorted_desc(kept@),
                kept@.len() < k,
                (kept@.len() > 0 && k < work@.len()) ==> kept@[kept@.len() - 1].score
                    >= work@[k as int].score,
                forall|i: int|
                    0 <= i < kept@.len() ==> spec_iou_micro(best, #[trigger] kept@[i])
                        < iou_threshold as int,
                forall|i: int| 0 <= i < kept@.len() ==> work@.contains(#[trigger] kept@[i]),
                forall|j: int|
                    1 <= j < k ==> kept@.contains(#[trigger] work@[j]) || spec_iou_micro(
                        best,
                        work@[j],
                    ) >= iou_threshold as int,
            decreases work@.len() - k,
        {
            let wk = work[k];
            let ghost kept_before = kept@;
            let keep = iou_micro(&best, &wk) < iou_threshold;
            if keep {
                kept.push(wk);
                proof {
                    assert(kept@ == kept_before.push(wk));
                    assert(work@.contains(work@[k as int]));
                    assert(sorted_desc(kept@)) by {
                        assert forall|a: int, b: int| 0 <= a < b < kept@.len() implies kept@[a].score
                            >= kept@[b].score by {
                            if b < kept@.len() - 1 {
                                assert(kept@[a] == kept_before[a] && kept@[b] == kept_before[b]);
                            } else {
                                assert(kept@[b] == wk);
                                if a < kept@.len() - 1 {
                                    assert(kept@[a] == kept_before[a]);
                                }
                            }
                        }
                    }
                }
            }
            k = k + 1;
            proof {
                if kept@.len() > 0 && k < work@.len() {
                    assert(work@[k - 1].score >= work@[k as int].score);
                }
                assert forall|j: int| 1 <= j < k implies kept@.contains(#[trigger] work@[j])
                    || spec_iou_micro(best, work@[j]) >= iou_threshold as int by {
                    if j == k - 1 {
                        if keep {
                            assert(kept@[kept@.len() - 1] == work@[j]);
                        }
                    } else {
                        if kept_before.contains(work@[j]) {
                            let w = choose|w: int|
                                0 <= w < kept_before.len() && kept_before[w] == work@[j];
                            assert(kept@[w] == work@[j]);
                        }
                    }
                }
            }
        }
        proof {
            // every kept box keeps the outer invariants that quantify over the
            // worklist, because each one is a member of the old worklist
            assert forall|i: int, j: int|
                0 <= i < r@.len() && 0 <= j < kept@.len() implies (#[trigger] r@[i]).score
                >= (#[trigger] kept@[j]).score && spec_iou_micro(r@[i], kept@[j])
                < iou_threshold as int by {
                let b = kept@[j];
                assert(work@.contains(b));
                let w = choose|w: int| 0 <= w < work@.len() && work@[w] == b;
                if i < r_before.len() {
                    assert(r@[i] == r_before[i]);
                    assert(spec_iou_micro(r_before[i], work@[w]) < iou_threshold as int);
                    assert(r_before[i].score >= work@[w].score);
                } else {
                    assert(r@[i] == best);
                    assert(best.score >= work@[w].score);
                }
            }
            assert forall|i: int| 0 <= i < kept@.len() implies work0.contains(
                #[trigger] kept@[i],
            ) by {
                let b = kept@[i];
                let w = choose|w: int| 0 <= w < work@.len() && work@[w] == b;
                assert(work0.contains(work@[w]));
            }
            assert forall|k2: int| 0 <= k2 < work0.len() implies r@.contains(#[trigger] work0[k2])
                || kept@.contains(work0[k2]) || suppressed_by(
                r@,
                work0[k2],
                iou_threshold as int,
            ) by {
                if r_before.contains(work0[k2]) {
                    let w = choose|w: int| 0 <= w < r_before.len() && r_before[w] == work0[k2];
                    assert(r@[w] == work0[k2]);
                } else if suppressed_by(r_before, work0[k2], iou_threshold as int) {
                    let w = choose|w: int|
                        0 <= w < r_before.len() && (#[trigger] r_before[w]).score
                            >= work0[k2].score && spec_iou_micro(r_before[w], work0[k2])
                            >= iou_threshold as int;
                    assert(r@[w] == r_before[w]);
                    assert(spec_iou_micro(r@[w], work0[k2]) >= iou_threshold as int);
                } else if work@.contains(work0[k2]) {
                    let w = choose|w: int| 0 <= w < work@.len() && work@[w] == work0[k2];
                    if w == 0 {
                        assert(r@[r@.len() - 1] == work0[k2]);
                    } else if kept@.contains(work@[w]) {
                    } else {
                        assert(spec_iou_micro(best, work@[w]) >= iou_threshold as int);
                        assert(best.score >= work@[w].score);
                        assert(r@[r@.len() - 1] == best);
                        assert(spec_iou_micro(r@[r@.len() - 1], work0[k2])
                            >= iou_threshold as int);
                    }
                }
            }
        }
        work = kept;
    }
    proof {
        assert forall|k2: int| 0 <= k2 < work_init@.len() implies r@.contains(
            #[trigger] work_init@[k2],
        ) || suppressed_by(r@, work_init@[k2], iou_threshold as int) by {
            assert(r@.contains(work0[k2]) || work@.contains(work0[k2]) || suppressed_by(
                r@,
                work0[k2],
                iou_threshold as int,
            ));
        }
    }
    r
}

/// Two sequences with the same multiset hold the same values.
proof fn lemma_multiset_contains_equiv(a: Seq<Bbox>, b: Seq<Bbox>)
    requires
        a.to_multiset() == b.to_multiset(),
    ensures
        forall|x: Bbox| a.contains(x) <==> b.contains(x),
{
    broadcast use vstd::seq_lib::group_to_multiset_ensures;

    assert forall|x: Bbox| a.contains(x) <==> b.contains(x) by {
        assert(a.contains(x) <==> a.to_multiset().count(x) > 0);
        assert(b.contains(x) <==> b.to_multiset().count(x) > 0);
    }
}

/// Greedy non-maximum suppression.
///
/// Boxes are sorted by score, highest first, and taken in that order: a box
/// is kept unless an already-kept box — of its own class, unless agnostic —
/// overlaps it at or above `iou_threshold` (in millionths), or the cap is
/// reached (`topk` boxes in all when agnostic, `topk` per class otherwise).
///
/// The survivors are a subset of the input in descending score order; every
/// surviving pair that competes overlaps strictly below the threshold; and
/// every input box either survives, overlaps a survivor of equal or higher
/// score at or above the threshold, or fell to the cap.
pub fn nms(boxes: Vec<Bbox>, agnostic: bool, topk: usize, iou_threshold: u32) -> (r: Vec<Bbox>)
    requires
        boxes_wf(boxes@),
    ensures
        boxes_wf(r@),
        forall|i: int| 0 <= i < r@.len() ==> boxes@.contains(#[trigger] r@[i]),
        sorted_desc(r@),
        nms_separated(r@, agnostic, iou_threshold as int),
        agnostic ==> r@.len() <= topk,
        !agnostic ==> forall|c: int| #[trigger] spec_class_count(r@, c) <= topk as int,
        agnostic && topk >= 1 ==> (r@.len() == topk || forall|k: int|
            0 <= k < boxes@.len() ==> r@.contains(#[trigger] boxes@[k]) || suppressed_by(
                r@,
                boxes@[k],
                iou_threshold as int,
            )),
        !agnostic ==> forall|k: int|
            0 <= k < boxes@.len() ==> r@.contains(#[trigger] boxes@[k]) || suppressed_within_class(
                r@,
                boxes@[k],
                iou_threshold as int,
            ) || spec_class_count(r@, boxes@[k].class as int) == topk as int,
{
    broadcast use vstd::seq_lib::group_to_multiset_ensures;

    if topk == 0 {
        let r: Vec<Bbox> = Vec::new();
        proof {
            if !agnostic {
                assert forall|c: int| #[trigger] spec_class_count(r@, c) <= topk as int by {}
            }
        }
        return r;
    }
    let sorted = sort_boxes_desc(boxes);
    proof {
        lemma_multiset_contains_equiv(sorted@, boxes@);
        assert forall|i: int| 0 <= i < sorted@.len() implies bbox_wf(#[trigger] sorted@[i]) by {
            assert(sorted@.contains(sorted@[i]));
            let w = choose|w: int| 0 <= w < boxes@.len() && boxes@[w] == sorted@[i];
        }
    }
    if agnostic {
        let r = nms_core(sorted, topk, iou_threshold);
        proof {
            assert forall|i: int| 0 <= i < r@.len() implies boxes@.contains(#[trigger] r@[i]) by {
                assert(sorted@.contains(r@[i]));
            }
            if r@.len() != topk {
                assert forall|k: int| 0 <= k < boxes@.len() implies r@.contains(
                    #[trigger] boxes@[k],
                ) || suppressed_by(r@, boxes@[k], iou_threshold as int) by {
                    assert(boxes@.contains(boxes@[k]));
                    assert(sorted@.contains(boxes@[k]));
                    let w = choose|w: int| 0 <= w < sorted@.len() && sorted@[w] == boxes@[k];
                    assert(r@.contains(sorted@[w]) || suppressed_by(
                        r@,
                        sorted@[w],
                        iou_threshold as int,
                    ));
                }
            }
        }
        r
    } else {
        // class-specific: one pass over the sorted list; a box is kept
        // unless a kept box of its class overlaps it at or above the
        // threshold, or its class already holds `topk` boxes
        let mut result: Vec<Bbox> = Vec::new();
        let mut i: usize = 0;
        while i < sorted.len()
            invariant
                i <= sorted@.len(),
                topk >= 1,
                boxes_wf(sorted@),
                sorted_desc(sorted@),
                boxes_wf(result@),
                sorted_desc(result@),
                (result@.len() > 0 && i < sorted@.len()) ==> result@[result@.len() - 1].score
                    >= sorted@[i as int].score,
                forall|j: int| 0 <= j < result@.len() ==> sorted@.contains(#[trigger] result@[j]),
                nms_separated(result@, false, iou_threshold as int),
                forall|c: int| #[trigger] spec_class_count(result@, c) <= topk as int,
                forall|j: int|
                    0 <= j < i ==> result@.contains(#[trigger] sorted@[j])
                        || suppressed_within_class(result@, sorted@[j], iou_threshold as int)
                        || spec_class_count(result@, sorted@[j].class as int) == topk as int,
            decreases sorted@.len() - i,
        {
            let b = sorted[i];
            let ghost result_old = result@;
            let cnt = class_count(&result, b.class);
            if cnt < topk {
                let mut hit = false;
                let mut j: usize = 0;
                while j < result.len() && !hit
                    invariant
                        j <= result@.len(),
                        boxes_wf(result@),
                        bbox_wf(b),
                        !hit ==> forall|w: int|
                            0 <= w < j ==> !((#[trigger] result@[w]).class == b.class
                                && spec_iou_micro(result@[w], b) >= iou_threshold as int),
                        hit ==> exists|w: int|
                            0 <= w < result@.len() && (#[trigger] result@[w]).class == b.class
                                && spec_iou_micro(result@[w], b) >= iou_threshold as int,
                    decreases result@.len() - j,
                {
                    if result[j].class == b.class && iou_micro(&result[j], &b) >= iou_threshold {
                        hit = true;
                    }
                    j = j + 1;
                }
                if !hit {
                    result.push(b);
                    proof {
                        assert(result@ == result_old.push(b));
                        assert(sorted@.contains(sorted@[i as int]));
                        assert(sorted_desc(result@)) by {
                            assert forall|a: int, w: int| 0 <= a < w < result@.len() implies
                                result@[a].score >= result@[w].score by {
                                if w < result@.len() - 1 {
                                    assert(result@[a] == result_old[a]);
                                    assert(result@[w] == result_old[w]);
                                } else {
                                    assert(result@[w] == b);
                                    if a < result@.len() - 1 {
                                        assert(result@[a] == result_old[a]);
                                    }
                                }
                            }
                        }
                        assert(nms_separated(result@, false, iou_threshold as int)) by {
                            assert forall|a: int, w: int|
                                0 <= a < w < result@.len() && result@[a].class == result@[w].class
                                implies spec_iou_micro(#[trigger] result@[a], #[trigger] result@[w])
                                    < iou_threshold as int && spec_iou_micro(
                                    result@[w],
                                    result@[a],
                                ) < iou_threshold as int by {
                                if w < result@.len() - 1 {
                                    assert(result@[a] == result_old[a]);
                                    assert(result@[w] == result_old[w]);
                                } else {
                                    assert(result@[a] == result_old[a]);
                                    assert(result@[w] == b);
                                    assert(!(result_old[a].class == b.class && spec_iou_micro(
                                        result_old[a],
                                        b,
                                    ) >= iou_threshold as int));
                                    lemma_iou_symmetric(b, result_old[a]);
                                }
                            }
                        }
                        assert forall|c: int| #[trigger] spec_class_count(result@, c)
                            <= topk as int by {
                            lemma_class_count_push(result_old, b, c);
                        }
                        assert forall|j2: int| 0 <= j2 < i + 1 implies result@.contains(
                            #[trigger] sorted@[j2],
                        ) || suppressed_within_class(result@, sorted@[j2], iou_threshold as int)
                            || spec_class_count(result@, sorted@[j2].class as int)
                            == topk as int by {
                            if j2 == i as int {
                                assert(result@[result@.len() - 1] == sorted@[j2]);
                            } else {
                                lemma_class_count_push(
                                    result_old,
                                    b,
                                    sorted@[j2].class as int,
                                );
                                if result_old.contains(sorted@[j2]) {
                                    let w = choose|w: int|
                                        0 <= w < result_old.len() && result_old[w] == sorted@[j2];
                                    assert(result@[w] == sorted@[j2]);
                                } else if suppressed_within_class(
                                    result_old,
                                    sorted@[j2],
                                    iou_threshold as int,
                                ) {
                                    let w = choose|w: int|
                                        0 <= w < result_old.len() && (#[trigger] result_old[w]).class
                                            == sorted@[j2].class && result_old[w].score
                                            >= sorted@[j2].score && spec_iou_micro(
                                            result_old[w],
                                            sorted@[j2],
                                        ) >= iou_threshold as int;
                                    assert(result@[w] == result_old[w]);
                                } else {
                                    // the class was capped before; counts only grow
                                    assert(spec_class_count(result_old, sorted@[j2].class as int)
                                        == topk as int);
                                    assert(spec_class_count(result@, sorted@[j2].class as int)
                                        >= topk as int);
                                }
                            }
                        }
                    }
                } else {
                    proof {
                        // the overlapping kept box outscores b: everything
                        // kept so far does, by the sorted order
                        let w = choose|w: int|
                            0 <= w < result@.len() && (#[trigger] result@[w]).class == b.class
                                && spec_iou_micro(result@[w], b) >= iou_threshold as int;
                        assert(result@[w].score >= b.score) by {
                            if result@.len() > 0 {
                                assert(result@[w].score >= result@[result@.len() - 1].score);
                            }
                        }
                        assert(suppressed_within_class(result@, b, iou_threshold as int));
                    }
                }
            } else {
                proof {
                    assert(spec_class_count(result@, b.class as int) == topk as int);
                }
            }
            i = i + 1;
            proof {
                if result@.len() > 0 && i < sorted@.len() {
                    assert(sorted@[i - 1].score >= sorted@[i as int].score);
                }
            }
        }
        proof {
            assert forall|j: int| 0 <= j < result@.len() implies boxes@.contains(
                #[trigger] result@[j],
            ) by {
                assert(sorted@.contains(result@[j]));
            }
            assert forall|k: int| 0 <= k < boxes@.len() implies result@.contains(
                #[trigger] boxes@[k],
            ) || suppressed_within_class(result@, boxes@[k], iou_threshold as int)
                || spec_class_count(result@, boxes@[k].class as int) == topk as int by {
                assert(boxes@.contains(boxes@[k]));
                assert(sorted@.contains(boxes@[k]));
                let w = choose|w: int| 0 <= w < sorted@.len() && sorted@[w] == boxes@[k];
                assert(result@.contains(sorted@[w]) || suppressed_within_class(
                    result@,
                    sorted@[w],
                    iou_threshold as int,
                ) || spec_class_count(result@, sorted@[w].class as int) == topk as int);
            }
        }
        result
    }
}

/// The sequence of sampled indices for a list of `len` items thinned to
/// `sample_size` picks: empty when either is zero, else `(i * len) / sample_size`
/// for `i` in `0 .. sample_size`.
pub open spec fn spec_sample_indices(len: int, sample_size: int) -> Seq<int> {
    if len <= 0 || sample_size <= 0 {
        Seq::empty()
    } else {
        Seq::new(sample_size as nat, |i: int| (i * len) / sample_size)
    }
}

/// Every sampled index is a valid index of the list.
pub proof fn lemma_sample_indices_in_range(len: int, sample_size: int)
    ensures
        forall|i: int|
            0 <= i < spec_sample_indices(len, sample_size).len() ==> 0 <= #[trigger] spec_sample_indices(
                len,
                sample_size,
            )[i] < len,
{
    if len > 0 && sample_size > 0 {
        assert forall|i: int| 0 <= i < spec_sample_indices(len, sample_size).len() implies 0
            <= #[trigger] spec_sample_indices(len, sample_size)[i] < len by {
            lemma_div_pos(i * len, sample_size);
            assert(i * len < sample_size * len) by (nonlinear_arith)
                requires
                    0 <= i < sample_size,
                    0 < len,
            ;
            lemma_multiply_divide_lt(i * len, sample_size, len);
        }
    }
}

proof fn lemma_div_pos(x: int, d: int)
    requires
        x >= 0,
        d > 0,
    ensures
        x / d >= 0,
{
    vstd::arithmetic::div_mod::lemma_div_pos_is_pos(x, d);
}

/// Sampling evenness: when the requested size is at most the list length the
/// sampled indices are strictly ascending, hence pairwise distinct.
pub proof fn lemma_sample_indices_ascending(len: int, sample_size: int)
    requires
        0 < sample_size <= len,
    ensures
        forall|i: int, j: int|
            0 <= i < j < sample_size ==> #[trigger] spec_sample_indices(len, sample_size)[i]
                < #[trigger] spec_sample_indices(len, sample_size)[j],
{
    assert forall|i: int, j: int|
        0 <= i < j < sample_size implies #[trigger] spec_sample_indices(len, sample_size)[i]
        < #[trigger] spec_sample_indices(len, sample_size)[j] by {
        lemma_mul_inequality(i + 1, j, len);
        lemma_div_is_ordered((i + 1) * len, j * len, sample_size);
        assert((i + 1) * len == i * len + len) by (nonlinear_arith);
        lemma_div_is_ordered(i * len + sample_size, i * len + len, sample_size);
        lemma_div_plus_one(i * len, sample_size);
    }
}

/// The sampled indices for `len` items thinned to `sample_size` picks,
/// as executable values.
pub fn sample_even_indices(len: usize, sample_size: usize) -> (r: Vec<usize>)
    ensures
        r@.map_values(|x: usize| x as int) == spec_sample_indices(len as int, sample_size as int),
        forall|i: int| 0 <= i < r@.len() ==> #[trigger] r@[i] < len,
{
    let mut r: Vec<usize> = Vec::new();
    if len == 0 || sample_size == 0 {
        assert(r@.map_values(|x: usize| x as int) =~= spec_sample_indices(
            len as int,
            sample_size as int,
        ));
        return r;
    }
    proof {
        lemma_sample_indices_in_range(len as int, sample_size as int);
    }
    let mut i: usize = 0;
    while i < sample_size
        invariant
            0 <= i <= sample_size,
            0 < sample_size,
            0 < len,
            r@.len() == i,
            forall|j: int|
                0 <= j < i ==> r@[j] as int == #[trigger] spec_sample_indices(
                    len as int,
                    sample_size as int,
                )[j],
            forall|j: int| 0 <= j < i ==> #[trigger] r@[j] < len,
        decreases sample_size - i,
    {
        proof {
            assert((i as int) * (len as int) < 0x100000000000000000000000000000000int)
                by (nonlinear_arith)
                requires
                    0 <= (i as int) && (i as int) < 0x10000000000000000int,
                    0 <= (len as int) && (len as int) < 0x10000000000000000int,
            ;
        }
        let idx_wide: u128 = (i as u128) * (len as u128) / (sample_size as u128);
        proof {
            lemma_sample_indices_in_range(len as int, sample_size as int);
            assert(spec_sample_indices(len as int, sample_size as int)[i as int] == (i as int * len as int)
                / (sample_size as int));
        }
        let idx: usize = idx_wide as usize;
        r.push(idx);
        i = i + 1;
    }
    assert(r@.map_values(|x: usize| x as int) =~= spec_sample_indices(
        len as int,
        sample_size as int,
    ));
    r
}

/// Thin `list` evenly down to `sample_size` items; returns the picked items and
/// their indices. When `sample_size` exceeds the length, indices repeat so that
/// exactly `sample_size` items come back (the behaviour the video path avoids by
/// capping the requested size at the frame count).
pub fn sample_evenly<T: Clone>(list: &[T], sample_size: usize) -> (r: (Vec<T>, Vec<usize>))
    ensures
        r.1@.map_values(|x: usize| x as int) == spec_sample_indices(
            list@.len() as int,
            sample_size as int,
        ),
        r.0@.len() == r.1@.len(),
        forall|i: int|
            0 <= i < r.1@.len() ==> #[trigger] r.1@[i] < list@.len() && cloned::<T>(
                list@[r.1@[i] as int],
                r.0@[i],
            ),
{
    let indices = sample_even_indices(list.len(), sample_size);
    let mut items: Vec<T> = Vec::new();
    let mut i: usize = 0;
    while i < indices.len()
        invariant
            0 <= i <= indices@.len(),
            items@.len() == i,
            forall|j: int| 0 <= j < indices@.len() ==> #[trigger] indices@[j] < list@.len(),
            forall|j: int|
                0 <= j < i ==> cloned::<T>(list@[#[trigger] indices@[j] as int], items@[j]),
        decreases indices@.len() - i,
    {
        let idx = indices[i];
        items.push(slice_index_get(list, idx).clone());
        i = i + 1;
    }
    (items, indices)
}

/// Identity of a media file on disk. `folder_id` counts directories in
/// pre-order walk order; `file_id` counts accepted files across the run.
/// Equality is over `file_path` alone: the ids are labels, not identity.
#[derive(Clone, Debug)]
pub struct FileItem {
    pub folder_id: usize,
    pub file_id: usize,
    pub file_path: String,
}

impl PartialEq for FileItem {
    fn eq(&self, other: &Self) -> bool {
        self.file_path == other.file_path
    }
}

impl vstd::std_specs::cmp::PartialEqSpecImpl for FileItem {
    open spec fn obeys_eq_spec() -> bool {
        true
    }

    open spec fn eq_spec(&self, other: &Self) -> bool {
        self.file_path@ == other.file_path@
    }
}

/// Two string slices hold the same characters.
pub fn eq_str(a: &str, b: &str) -> (r: bool)
    ensures
        r == (a@ == b@),
{
    let alen = a.unicode_len();
    let blen = b.unicode_len();
    if alen != blen {
        assert(a@ != b@) by {
            assert(a@.len() != b@.len());
        }
        return false;
    }
    let mut i: usize = 0;
    while i < alen
        invariant
            i <= alen,
            alen == a@.len(),
            alen == b@.len(),
            forall|k: int| 0 <= k < i ==> a@[k] == b@[k],
        decreases alen - i,
    {
        if a.get_char(i) != b.get_char(i) {
            return false;
        }
        i = i + 1;
    }
    proof {
        assert(a@ =~= b@);
    }
    true
}

/// The uppercase letters folded onto the lowercase ones, as scalar values.
pub open spec fn spec_lower_scalar(c: u32) -> u32 {
    if 65 <= c <= 90 {
        (c + 32) as u32
    } else {
        c
    }
}

/// The two texts are equal once ASCII case is folded away.
pub open spec fn spec_eq_ignore_case(a: Seq<char>, b: Seq<char>) -> bool {
    a.len() == b.len() && forall|i: int|
        0 <= i < a.len() ==> spec_lower_scalar(#[trigger] a[i] as u32) == spec_lower_scalar(
            b[i] as u32,
        )
}

/// Compare two string slices, folding ASCII case away.
pub fn eq_ignore_case(a: &str, b: &str) -> (r: bool)
    ensures
        r == spec_eq_ignore_case(a@, b@),
{
    let alen = a.unicode_len();
    let blen = b.unicode_len();
    if alen != blen {
        return false;
    }
    let mut i: usize = 0;
    while i < alen
        invariant
            i <= alen,
            alen == a@.len(),
            alen == b@.len(),
            forall|k: int|
                0 <= k < i ==> spec_lower_scalar(#[trigger] a@[k] as u32) == spec_lower_scalar(
                    b@[k] as u32,
                ),
        decreases alen - i,
    {
        let ca = a.get_char(i) as u32;
        let cb = b.get_char(i) as u32;
        let la = if 65 <= ca && ca <= 90 {
            ca + 32
        } else {
            ca
        };
        let lb = if 65 <= cb && cb <= 90 {
            cb + 32
        } else {
            cb
        };
        if la != lb {
            return false;
        }
        i = i + 1;
    }
    true
}

/// The names of the output folders a prior organise pass may have left
/// behind; the walk never descends into them.
pub open spec fn spec_is_label_name(s: Seq<char>) -> bool {
    ||| s == "Animal"@
    ||| s == "Person"@
    ||| s == "Vehicle"@
    ||| s == "Blank"@
}

/// True when the entry name is one of the four output-folder labels.
pub fn is_label(name: &str) -> (r: bool)
    ensures
        r == spec_is_label_name(name@),
{
    eq_str(name, "Animal") || eq_str(name, "Person") || eq_str(name, "Vehicle") || eq_str(
        name,
        "Blank",
    )
}

/// Index of the last occurrence of `c`, if any.
pub open spec fn spec_last_index_of(p: Seq<char>, c: char) -> Option<int>
    decreases p.len(),
{
    if p.len() == 0 {
        None
    } else if p.last() == c {
        Some(p.len() - 1)
    } else {
        spec_last_index_of(p.drop_last(), c)
    }
}

/// If no occurrence of `c` lies at or after `i`, the last occurrence in the
/// whole text is the last occurrence in the prefix before `i`.
proof fn lemma_last_index_suffix(p: Seq<char>, c: char, i: int)
    requires
        0 <= i <= p.len(),
        forall|k: int| i <= k < p.len() ==> p[k] != c,
    ensures
        spec_last_index_of(p, c) == spec_last_index_of(p.subrange(0, i), c),
    decreases p.len(),
{
    if i == p.len() {
        assert(p.subrange(0, i) =~= p);
    } else {
        assert(p.last() != c);
        assert(p.drop_last() =~= p.subrange(0, p.len() - 1));
        lemma_last_index_suffix(p.subrange(0, p.len() - 1), c, i);
        assert(p.subrange(0, p.len() - 1).subrange(0, i) =~= p.subrange(0, i));
    }
}

/// Index of the last occurrence of `c` in `s`, if any.
pub fn last_index_of(s: &str, c: char) -> (r: Option<usize>)
    ensures
        match r {
            Some(i) => i < s@.len() && spec_last_index_of(s@, c) == Some(i as int),
            None => spec_last_index_of(s@, c) is None,
        },
{
    let len = s.unicode_len();
    let mut i: usize = len;
    while i > 0
        invariant
            i <= len,
            len == s@.len(),
            forall|k: int| i <= k < len ==> s@[k] != c,
        decreases i,
    {
        let ch = s.get_char(i - 1);
        if ch == c {
            proof {
                lemma_last_index_suffix(s@, c, i as int);
                assert(s@.subrange(0, i as int).last() == s@[i - 1]);
            }
            return Some(i - 1);
        }
        i = i - 1;
    }
    proof {
        lemma_last_index_suffix(s@, c, 0);
        assert(s@.subrange(0, 0).len() == 0);
    }
    None
}

/// Where the file name begins: after the last path separator.
pub open spec fn spec_name_start(p: Seq<char>) -> int {
    match spec_last_index_of(p, '/') {
        Some(i) => i + 1,
        None => 0,
    }
}

/// The extension of the file named by the path: the text after the last dot
/// of the file name, unless the dot begins the name.
pub open spec fn spec_extension(p: Seq<char>) -> Option<Seq<char>> {
    match spec_last_index_of(p, '.') {
        Some(d) => {
            if d > spec_name_start(p) {
                Some(p.subrange(d + 1, p.len() as int))
            } else {
                None
            }
        },
        None => None,
    }
}

/// The media extensions the indexer accepts, checked with ASCII case folded
/// away.
pub open spec fn spec_is_media_ext(e: Seq<char>) -> bool {
    ||| spec_eq_ignore_case(e, "mp4"@)
    ||| spec_eq_ignore_case(e, "avi"@)
    ||| spec_eq_ignore_case(e, "mkv"@)
    ||| spec_eq_ignore_case(e, "mov"@)
    ||| spec_eq_ignore_case(e, "jpg"@)
    ||| spec_eq_ignore_case(e, "jpeg"@)
    ||| spec_eq_ignore_case(e, "png"@)
}

/// The extension names a video container, checked with ASCII case folded
/// away.
pub open spec fn spec_is_video_ext(e: Seq<char>) -> bool {
    ||| spec_eq_ignore_case(e, "mp4"@)
    ||| spec_eq_ignore_case(e, "avi"@)
    ||| spec_eq_ignore_case(e, "mkv"@)
    ||| spec_eq_ignore_case(e, "mov"@)
}

/// The extension names a still-image format, checked with ASCII case folded
/// away.
pub open spec fn spec_is_image_ext(e: Seq<char>) -> bool {
    ||| spec_eq_ignore_case(e, "jpg"@)
    ||| spec_eq_ignore_case(e, "jpeg"@)
    ||| spec_eq_ignore_case(e, "png"@)
}

/// The path names a recognised still image or video.
pub open spec fn spec_is_video_photo(p: Seq<char>) -> bool {
    match spec_extension(p) {
        Some(e) => spec_is_media_ext(e),
        None => false,
    }
}

/// True when the path's extension names a recognised image or video format.
pub fn is_video_photo(path: &str) -> (r: bool)
    ensures
        r == spec_is_video_photo(path@),
{
    match extension_of(path) {
        Some(e) => {
            let ext = e.as_str();
            eq_ignore_case(ext, "mp4") || eq_ignore_case(ext, "avi") || eq_ignore_case(ext, "mkv")
                || eq_ignore_case(ext, "mov") || eq_ignore_case(ext, "jpg") || eq_ignore_case(
                ext,
                "jpeg",
            ) || eq_ignore_case(ext, "png")
        },
        None => false,
    }
}

/// The extension of the file named by the path, if it has one.
pub fn extension_of(path: &str) -> (r: Option<String>)
    ensures
        match r {
            Some(e) => spec_extension(path@) == Some(e@),
            None => spec_extension(path@) is None,
        },
{
    let len = path.unicode_len();
    let name_start: usize = match last_index_of(path, '/') {
        Some(i) => i + 1,
        None => 0,
    };
    match last_index_of(path, '.') {
        Some(d) => {
            if d > name_start {
                let e = path.substring_char(d + 1, len);
                Some(e.to_owned())
            } else {
                None
            }
        },
        None => None,
    }
}

/// One entry of a pre-order, name-sorted walk of the root folder, as the
/// binary hands it in: its depth below the root, whether it is a directory,
/// its base name and its full path.
#[derive(Clone, Debug)]
pub struct WalkEntry {
    pub depth: usize,
    pub is_dir: bool,
    pub name: String,
    pub path: String,
}

/// The mathematical image of a [`FileItem`].
pub struct FileItemV {
    pub folder_id: int,
    pub file_id: int,
    pub file_path: Seq<char>,
}

impl View for FileItem {
    type V = FileItemV;

    open spec fn view(&self) -> FileItemV {
        FileItemV { folder_id: self.folder_id as int, file_id: self.file_id as int, file_path: self.file_path@ }
    }
}

/// The state the indexer carries along the walk: the two counters, the depth
/// of the label folder being pruned (if any), and the items accepted so far.
pub struct IndexStateV {
    pub folder_id: int,
    pub file_id: int,
    pub prune: Option<int>,
    pub items: Seq<FileItemV>,
}

/// How one walk entry advances the indexer: entries below a pruned label
/// folder are skipped; a label-named entry starts a prune; a directory bumps
/// `folder_id`; a recognised media file is accepted under the current ids.
pub open spec fn spec_index_step(st: IndexStateV, e: WalkEntry) -> IndexStateV {
    let pruned = match st.prune {
        Some(d) => e.depth > d,
        None => false,
    };
    if pruned {
        st
    } else if spec_is_label_name(e.name@) {
        IndexStateV { prune: Some(e.depth as int), ..st }
    } else if e.is_dir {
        IndexStateV { folder_id: st.folder_id + 1, prune: None, ..st }
    } else if spec_is_video_photo(e.path@) {
        IndexStateV {
            file_id: st.file_id + 1,
            prune: None,
            items: st.items.push(
                FileItemV { folder_id: st.folder_id, file_id: st.file_id, file_path: e.path@ },
            ),
            ..st
        }
    } else {
        IndexStateV { prune: None, ..st }
    }
}

/// The indexer's state after the whole walk, starting from zeroed counters.
pub open spec fn spec_index_fold(entries: Seq<WalkEntry>) -> IndexStateV
    decreases entries.len(),
{
    if entries.len() == 0 {
        IndexStateV { folder_id: 0, file_id: 0, prune: None, items: Seq::empty() }
    } else {
        spec_index_step(spec_index_fold(entries.drop_last()), entries.last())
    }
}

/// Walk a pre-order, name-sorted listing of the root folder and assign stable
/// `(folder_id, file_id)` pairs to each recognised media file, skipping the
/// subtrees of the four output label folders.
pub fn index_files_and_folders(entries: &Vec<WalkEntry>) -> (r: Vec<FileItem>)
    ensures
        r@.map_values(|f: FileItem| f@) == spec_index_fold(entries@).items,
{
    let mut folder_id: usize = 0;
    let mut file_id: usize = 0;
    let mut prune: Option<usize> = None;
    let mut r: Vec<FileItem> = Vec::new();
    let mut i: usize = 0;
    proof {
        assert(entries@.subrange(0, 0) =~= Seq::<WalkEntry>::empty());
        assert(r@.map_values(|f: FileItem| f@) =~= Seq::<FileItemV>::empty());
    }
    while i < entries.len()
        invariant
            i <= entries@.len(),
            folder_id as int == spec_index_fold(entries@.subrange(0, i as int)).folder_id,
            file_id as int == spec_index_fold(entries@.subrange(0, i as int)).file_id,
            match prune {
                Some(d) => spec_index_fold(entries@.subrange(0, i as int)).prune == Some(d as int),
                None => spec_index_fold(entries@.subrange(0, i as int)).prune is None,
            },
            r@.map_values(|f: FileItem| f@) == spec_index_fold(entries@.subrange(0, i as int)).items,
            folder_id as int <= i,
            file_id as int <= i,
        decreases entries@.len() - i,
    {
        let ghost pre = spec_index_fold(entries@.subrange(0, i as int));
        proof {
            assert(entries@.subrange(0, i + 1).drop_last() =~= entries@.subrange(0, i as int));
            assert(entries@.subrange(0, i + 1).last() == entries@[i as int]);
        }
        let e = &entries[i];
        let skipped = match prune {
            Some(d) => e.depth > d,
            None => false,
        };
        if !skipped {
            if is_label(e.name.as_str()) {
                prune = Some(e.depth);
            } else if e.is_dir {
                folder_id = folder_id + 1;
                prune = None;
            } else if is_video_photo(e.path.as_str()) {
                let ghost r_old = r@;
                r.push(FileItem { folder_id, file_id, file_path: e.path.clone() });
                file_id = file_id + 1;
                prune = None;
                proof {
                    assert(r@.map_values(|f: FileItem| f@) =~= r_old.map_values(|f: FileItem| f@)
                        .push(r@[r@.len() - 1]@));
                }
            } else {
                prune = None;
            }
        }
        i = i + 1;
    }
    proof {
        assert(entries@.subrange(0, entries@.len() as int) =~= entries@);
    }
    r
}

} // verus!
