use vstd::prelude::*;

use vstd::arithmetic::div_mod::{lemma_div_is_ordered, lemma_div_multiples_vanish};
use vstd::seq_lib::{to_multiset_build, to_multiset_insert};

use crate::error::DecodeError;

verus! {

/// Fixed-point unit: raw values, scores and thresholds are counted in millionths.
pub const UNIT: u64 = 1_000_000;

/// How a row of the raw output carries its class.
#[derive(Clone, Copy, Debug, PartialEq, Eq, Structural)]
pub enum ScoreLayout {
    /// `x1, y1, x2, y2, score, class, ...`: one score and a class column whose
    /// integer part is the class index. Class ids are non-negative, so a row
    /// with a negative class value names no class and is dropped; an id past
    /// the name table is kept and labelled `unknown`.
    ClassIndex,
    /// `x1, y1, x2, y2, s0, s1, ...`: one score per class; the best one wins.
    PerClass,
}

/// The raw output of one forward pass: `values.len() / width` rows of `width`
/// values each, every value in millionths (box corners in millionths of a
/// pixel, scores in millionths, a class column in millionths of a class index).
#[derive(Clone, Debug)]
pub struct RawOutput {
    pub values: Vec<i64>,
    pub width: usize,
}

/// What the decoder needs besides the raw output.
#[derive(Clone, Copy, Debug, PartialEq, Eq, Structural)]
pub struct DecodeConfig {
    pub layout: ScoreLayout,
    /// Width of the working image in pixels; x coordinates are clamped to it.
    pub frame_width: u32,
    /// Height of the working image in pixels; y coordinates are clamped to it.
    pub frame_height: u32,
    /// Rows whose score is below this (in millionths) are dropped.
    pub score_threshold: u64,
    /// Boxes of one class overlapping more than this (in millionths) are suppressed.
    pub iou_threshold: u64,
}

/// One candidate box after clamping: coordinates in millionths of a pixel.
#[derive(Clone, Copy, Debug, PartialEq, Eq, Structural)]
pub struct ScoredBox {
    pub x1: u64,
    pub y1: u64,
    pub x2: u64,
    pub y2: u64,
    pub score: u64,
    pub class_id: u64,
}

/// One detection handed to the caller: box corners in millionths of a pixel of
/// the working image, score in millionths.
#[derive(Clone, Debug)]
pub struct Detection {
    pub x1: u64,
    pub y1: u64,
    pub x2: u64,
    pub y2: u64,
    pub score: u64,
    pub class_id: u64,
    pub class_name: String,
}

impl Detection {
    pub open spec fn scored_box(&self) -> ScoredBox {
        ScoredBox {
            x1: self.x1,
            y1: self.y1,
            x2: self.x2,
            y2: self.y2,
            score: self.score,
            class_id: self.class_id,
        }
    }
}

/// `v` held within `[0, hi]`.
pub open spec fn clamp(v: int, hi: int) -> int {
    if v < 0 {
        0
    } else if v > hi {
        hi
    } else {
        v
    }
}

/// The row width suits the layout and divides the number of values.
pub open spec fn well_shaped(values: Seq<i64>, width: nat, layout: ScoreLayout) -> bool {
    &&& width >= match layout {
        ScoreLayout::ClassIndex => 6nat,
        ScoreLayout::PerClass => 5nat,
    }
    &&& values.len() % width == 0
}

pub open spec fn row_count(values: Seq<i64>, width: nat) -> nat {
    values.len() / width
}

/// Index of the best class score among columns `4 .. 4 + n` of the row starting
/// at `base`: the first of the largest.
pub open spec fn best_column(values: Seq<i64>, base: int, n: nat) -> nat
    decreases n,
{
    if n <= 1 {
        0
    } else {
        let prev = best_column(values, base, (n - 1) as nat);
        if values[base + 4 + n - 1] > values[base + 4 + prev] {
            (n - 1) as nat
        } else {
            prev
        }
    }
}

/// Class index and unclamped score of the row starting at `base`;
/// `None` where the class column is negative.
pub open spec fn row_class(values: Seq<i64>, base: int, width: nat, layout: ScoreLayout) -> Option<(int, int)> {
    match layout {
        ScoreLayout::ClassIndex => {
            if values[base + 5] < 0 {
                None
            } else {
                Some(((values[base + 5] as int) / (UNIT as int), values[base + 4] as int))
            }
        },
        ScoreLayout::PerClass => {
            let c = best_column(values, base, (width - 4) as nat);
            Some((c as int, values[base + 4 + c] as int))
        },
    }
}

/// The candidate that row `i` stands for, if its box is not empty after clamping.
pub open spec fn row_candidate(raw_values: Seq<i64>, width: nat, cfg: DecodeConfig, i: int) -> Option<ScoredBox> {
    let base = i * width;
    let xmax = cfg.frame_width * UNIT;
    let ymax = cfg.frame_height * UNIT;
    let x1 = clamp(raw_values[base] as int, xmax);
    let y1 = clamp(raw_values[base + 1] as int, ymax);
    let x2 = clamp(raw_values[base + 2] as int, xmax);
    let y2 = clamp(raw_values[base + 3] as int, ymax);
    match row_class(raw_values, base, width, cfg.layout) {
        None => None,
        Some((c, s)) => {
            if x1 < x2 && y1 < y2 {
                Some(
                    ScoredBox {
                        x1: x1 as u64,
                        y1: y1 as u64,
                        x2: x2 as u64,
                        y2: y2 as u64,
                        score: clamp(s, UNIT as int) as u64,
                        class_id: c as u64,
                    },
                )
            } else {
                None
            }
        },
    }
}

/// The candidates of the first `n` rows, in row order.
pub open spec fn candidates(raw_values: Seq<i64>, width: nat, cfg: DecodeConfig, n: nat) -> Seq<ScoredBox>
    decreases n,
{
    if n == 0 {
        Seq::empty()
    } else {
        let prev = candidates(raw_values, width, cfg, (n - 1) as nat);
        match row_candidate(raw_values, width, cfg, n - 1) {
            Some(b) => prev.push(b),
            None => prev,
        }
    }
}

/// Index of the first box in `s`, from `i` on, whose score is below `v`
/// (`s.len()` if there is none).
pub open spec fn first_below(s: Seq<ScoredBox>, v: u64, i: nat) -> nat
    decreases s.len() - i,
{
    if i >= s.len() {
        s.len()
    } else if s[i as int].score < v {
        i
    } else {
        first_below(s, v, i + 1)
    }
}

/// Stable sort by descending score: each box goes after every earlier box whose
/// score is at least its own.
pub open spec fn by_score(s: Seq<ScoredBox>) -> Seq<ScoredBox>
    decreases s.len(),
{
    if s.len() == 0 {
        Seq::empty()
    } else {
        let t = by_score(s.drop_last());
        t.insert(first_below(t, s.last().score, 0) as int, s.last())
    }
}

pub open spec fn descending(s: Seq<ScoredBox>) -> bool {
    forall|i: int, j: int| 0 <= i < j < s.len() ==> s[i].score >= s[j].score
}

pub open spec fn overlap_len(lo1: int, hi1: int, lo2: int, hi2: int) -> int {
    let lo = if lo1 >= lo2 { lo1 } else { lo2 };
    let hi = if hi1 <= hi2 { hi1 } else { hi2 };
    if hi > lo {
        hi - lo
    } else {
        0
    }
}

pub open spec fn area(b: ScoredBox) -> int {
    (b.x2 - b.x1) * (b.y2 - b.y1)
}

pub open spec fn intersection(a: ScoredBox, b: ScoredBox) -> int {
    overlap_len(a.x1 as int, a.x2 as int, b.x1 as int, b.x2 as int) * overlap_len(
        a.y1 as int,
        a.y2 as int,
        b.y1 as int,
        b.y2 as int,
    )
}

pub open spec fn union_area(a: ScoredBox, b: ScoredBox) -> int {
    area(a) + area(b) - intersection(a, b)
}

/// Intersection over joint of `a` and `b` is above `t` millionths.
pub open spec fn iou_exceeds(a: ScoredBox, b: ScoredBox, t: u64) -> bool {
    intersection(a, b) * (UNIT as int) > (t as int) * union_area(a, b)
}

/// Some box of `kept` with the class of `b` overlaps `b` beyond `t`.
pub open spec fn suppressed(kept: Seq<ScoredBox>, b: ScoredBox, t: u64) -> bool {
    exists|j: int|
        0 <= j < kept.len() && #[trigger] kept[j].class_id == b.class_id && iou_exceeds(kept[j], b, t)
}

/// Greedy non-maximum suppression over `s` taken in order.
pub open spec fn nms(s: Seq<ScoredBox>, t: u64) -> Seq<ScoredBox>
    decreases s.len(),
{
    if s.len() == 0 {
        Seq::empty()
    } else {
        let kept = nms(s.drop_last(), t);
        if suppressed(kept, s.last(), t) {
            kept
        } else {
            kept.push(s.last())
        }
    }
}

/// Largest coordinate a clamped box can have, in millionths of a pixel.
pub open spec fn max_coord() -> int {
    0xffff_ffffint * 1_000_000int
}

pub open spec fn valid_box(b: ScoredBox) -> bool {
    &&& b.x1 < b.x2 <= max_coord()
    &&& b.y1 < b.y2 <= max_coord()
    &&& b.score <= UNIT
}

fn clamp_exec(v: i64, hi: u64) -> (r: u64)
    requires
        hi <= i64::MAX,
    ensures
        r == clamp(v as int, hi as int),
{
    if v < 0 {
        0
    } else if v as u64 > hi {
        hi
    } else {
        v as u64
    }
}

fn best_column_exec(values: &Vec<i64>, base: usize, n: usize) -> (r: usize)
    requires
        n >= 1,
        base + 4 + n <= values@.len(),
    ensures
        r == best_column(values@, base as int, n as nat),
        r < n,
{
    let len = values.len();
    let mut best: usize = 0;
    let mut k: usize = 1;
    while k < n
        invariant
            1 <= k <= n,
            len == values@.len(),
            base + 4 + n <= values@.len(),
            best == best_column(values@, base as int, k as nat),
            best < k,
        decreases n - k,
    {
        if values[base + 4 + k] > values[base + 4 + best] {
            best = k;
        }
        k = k + 1;
    }
    best
}

fn candidate_at(raw: &RawOutput, cfg: &DecodeConfig, i: usize) -> (r: Option<ScoredBox>)
    requires
        well_shaped(raw.values@, raw.width as nat, cfg.layout),
        i < row_count(raw.values@, raw.width as nat),
    ensures
        r == row_candidate(raw.values@, raw.width as nat, *cfg, i as int),
        r matches Some(b) ==> valid_box(b),
{
    let w = raw.width;
    let len = raw.values.len();
    proof {
        let n = row_count(raw.values@, w as nat);
        assert(i * w + w <= n * w) by (nonlinear_arith)
            requires i < n;
        assert(n * w <= raw.values@.len()) by (nonlinear_arith)
            requires n == raw.values@.len() / (w as nat), w > 0;
    }
    let base = i * w;
    proof {
        let fw = cfg.frame_width as int;
        let fh = cfg.frame_height as int;
        assert(fw * 1_000_000 <= 0xffff_ffff * 1_000_000) by (nonlinear_arith)
            requires 0 <= fw <= 0xffff_ffff;
        assert(fh * 1_000_000 <= 0xffff_ffff * 1_000_000) by (nonlinear_arith)
            requires 0 <= fh <= 0xffff_ffff;
    }
    let xmax = cfg.frame_width as u64 * UNIT;
    let ymax = cfg.frame_height as u64 * UNIT;
    let x1 = clamp_exec(raw.values[base], xmax);
    let y1 = clamp_exec(raw.values[base + 1], ymax);
    let x2 = clamp_exec(raw.values[base + 2], xmax);
    let y2 = clamp_exec(raw.values[base + 3], ymax);
    let (class_id, score): (u64, i64) = match cfg.layout {
        ScoreLayout::ClassIndex => {
            let c = raw.values[base + 5];
            if c < 0 {
                return None;
            }
            ((c as u64) / UNIT, raw.values[base + 4])
        },
        ScoreLayout::PerClass => {
            let c = best_column_exec(&raw.values, base, w - 4);
            (c as u64, raw.values[base + 4 + c])
        },
    };
    assert(xmax <= max_coord() && ymax <= max_coord());
    if x1 < x2 && y1 < y2 {
        Some(ScoredBox { x1, y1, x2, y2, score: clamp_exec(score, UNIT), class_id })
    } else {
        None
    }
}

fn collect_candidates(raw: &RawOutput, cfg: &DecodeConfig) -> (r: Vec<ScoredBox>)
    requires
        well_shaped(raw.values@, raw.width as nat, cfg.layout),
    ensures
        r@ == candidates(raw.values@, raw.width as nat, *cfg, row_count(raw.values@, raw.width as nat)),
        forall|k: int| 0 <= k < r@.len() ==> valid_box(#[trigger] r@[k]),
{
    let rows = raw.values.len() / raw.width;
    let mut out: Vec<ScoredBox> = Vec::new();
    let mut i: usize = 0;
    while i < rows
        invariant
            rows == row_count(raw.values@, raw.width as nat),
            well_shaped(raw.values@, raw.width as nat, cfg.layout),
            i <= rows,
            out@ == candidates(raw.values@, raw.width as nat, *cfg, i as nat),
            forall|k: int| 0 <= k < out@.len() ==> valid_box(#[trigger] out@[k]),
        decreases rows - i,
    {
        match candidate_at(raw, cfg, i) {
            Some(b) => out.push(b),
            None => {},
        }
        i = i + 1;
    }
    out
}

fn first_below_exec(s: &Vec<ScoredBox>, v: u64) -> (r: usize)
    ensures
        r == first_below(s@, v, 0),
{
    let mut i: usize = 0;
    while i < s.len() && s[i].score >= v
        invariant
            i <= s@.len(),
            first_below(s@, v, 0) == first_below(s@, v, i as nat),
        decreases s@.len() - i,
    {
        i = i + 1;
    }
    i
}

proof fn lemma_first_below_bounds(s: Seq<ScoredBox>, v: u64, i: nat)
    requires
        i <= s.len(),
    ensures
        i <= first_below(s, v, i) <= s.len(),
        forall|k: int| i <= k < first_below(s, v, i) ==> s[k].score >= v,
        first_below(s, v, i) < s.len() ==> s[first_below(s, v, i) as int].score < v,
    decreases s.len() - i,
{
    if i < s.len() && s[i as int].score >= v {
        lemma_first_below_bounds(s, v, i + 1);
    }
}

fn sort_by_score(c: &Vec<ScoredBox>) -> (r: Vec<ScoredBox>)
    requires
        forall|k: int| 0 <= k < c@.len() ==> valid_box(#[trigger] c@[k]),
    ensures
        r@ == by_score(c@),
        forall|k: int| 0 <= k < r@.len() ==> valid_box(#[trigger] r@[k]),
{
    let mut out: Vec<ScoredBox> = Vec::new();
    let mut i: usize = 0;
    while i < c.len()
        invariant
            i <= c@.len(),
            out@ == by_score(c@.take(i as int)),
            out@.len() == i,
            forall|k: int| 0 <= k < c@.len() ==> valid_box(#[trigger] c@[k]),
            forall|k: int| 0 <= k < out@.len() ==> valid_box(#[trigger] out@[k]),
        decreases c@.len() - i,
    {
        let b = c[i];
        let p = first_below_exec(&out, b.score);
        proof {
            lemma_first_below_bounds(out@, b.score, 0);
            assert(c@.take(i + 1).drop_last() =~= c@.take(i as int));
            assert(c@.take(i + 1).last() == b);
        }
        out.insert(p, b);
        i = i + 1;
    }
    assert(c@.take(c@.len() as int) =~= c@);
    out
}

proof fn lemma_overlap_bound(lo1: int, hi1: int, lo2: int, hi2: int)
    requires
        lo1 < hi1,
        lo2 < hi2,
    ensures
        0 <= overlap_len(lo1, hi1, lo2, hi2) <= hi1 - lo1,
        overlap_len(lo1, hi1, lo2, hi2) <= hi2 - lo2,
        overlap_len(lo1, hi1, lo2, hi2) == overlap_len(lo2, hi2, lo1, hi1),
{
}

/// The intersection of two valid boxes is no larger than either area.
proof fn lemma_intersection_bounds(a: ScoredBox, b: ScoredBox)
    requires
        valid_box(a),
        valid_box(b),
    ensures
        0 <= intersection(a, b) <= area(a),
        intersection(a, b) <= area(b),
        intersection(a, b) == intersection(b, a),
        0 < area(a) <= max_coord() * max_coord(),
        0 < area(b) <= max_coord() * max_coord(),
{
    let ow = overlap_len(a.x1 as int, a.x2 as int, b.x1 as int, b.x2 as int);
    let oh = overlap_len(a.y1 as int, a.y2 as int, b.y1 as int, b.y2 as int);
    lemma_overlap_bound(a.x1 as int, a.x2 as int, b.x1 as int, b.x2 as int);
    lemma_overlap_bound(a.y1 as int, a.y2 as int, b.y1 as int, b.y2 as int);
    let aw = a.x2 - a.x1;
    let ah = a.y2 - a.y1;
    let bw = b.x2 - b.x1;
    let bh = b.y2 - b.y1;
    let m = max_coord();
    assert(0 <= ow * oh <= aw * ah) by (nonlinear_arith)
        requires 0 <= ow <= aw, 0 <= oh <= ah;
    assert(ow * oh <= bw * bh) by (nonlinear_arith)
        requires 0 <= ow <= bw, 0 <= oh <= bh;
    assert(0 < aw * ah <= m * m) by (nonlinear_arith)
        requires 0 < aw <= m, 0 < ah <= m;
    assert(0 < bw * bh <= m * m) by (nonlinear_arith)
        requires 0 < bw <= m, 0 < bh <= m;
}

fn overlap_exec(lo1: u64, hi1: u64, lo2: u64, hi2: u64) -> (r: u64)
    ensures
        r == overlap_len(lo1 as int, hi1 as int, lo2 as int, hi2 as int),
{
    let lo = if lo1 >= lo2 { lo1 } else { lo2 };
    let hi = if hi1 <= hi2 { hi1 } else { hi2 };
    if hi > lo {
        hi - lo
    } else {
        0
    }
}

/// Whether the intersection over joint of `a` and `b` is above `t` millionths.
pub fn overlaps_beyond(a: &ScoredBox, b: &ScoredBox, t: u64) -> (r: bool)
    requires
        valid_box(*a),
        valid_box(*b),
    ensures
        r == iou_exceeds(*a, *b, t),
{
    proof {
        lemma_intersection_bounds(*a, *b);
        lemma_overlap_bound(a.x1 as int, a.x2 as int, b.x1 as int, b.x2 as int);
        lemma_overlap_bound(a.y1 as int, a.y2 as int, b.y1 as int, b.y2 as int);
    }
    let ow = overlap_exec(a.x1, a.x2, b.x1, b.x2) as u128;
    let oh = overlap_exec(a.y1, a.y2, b.y1, b.y2) as u128;
    let inter = ow * oh;
    let area_a = (a.x2 - a.x1) as u128 * (a.y2 - a.y1) as u128;
    let area_b = (b.x2 - b.x1) as u128 * (b.y2 - b.y1) as u128;
    let joint = area_a + area_b - inter;
    if t >= UNIT {
        proof {
            let u = joint as int;
            let i = inter as int;
            assert(i * 1_000_000 <= (t as int) * u) by (nonlinear_arith)
                requires 0 <= i <= u, t >= 1_000_000;
        }
        false
    } else {
        proof {
            let m = max_coord();
            let u = joint as int;
            let i = inter as int;
            assert(i * 1_000_000 <= m * m * 1_000_000) by (nonlinear_arith)
                requires 0 <= i <= m * m;
            assert((t as int) * u <= 1_000_000 * (2 * m * m)) by (nonlinear_arith)
                requires 0 <= t < 1_000_000, 0 <= u <= 2 * m * m;
        }
        inter * (UNIT as u128) > (t as u128) * joint
    }
}

fn is_suppressed(kept: &Vec<ScoredBox>, b: &ScoredBox, t: u64) -> (r: bool)
    requires
        valid_box(*b),
        forall|k: int| 0 <= k < kept@.len() ==> valid_box(#[trigger] kept@[k]),
    ensures
        r == suppressed(kept@, *b, t),
{
    let mut j: usize = 0;
    while j < kept.len()
        invariant
            j <= kept@.len(),
            valid_box(*b),
            forall|k: int| 0 <= k < kept@.len() ==> valid_box(#[trigger] kept@[k]),
            forall|k: int|
                0 <= k < j ==> !(#[trigger] kept@[k].class_id == b.class_id && iou_exceeds(kept@[k], *b, t)),
        decreases kept@.len() - j,
    {
        if kept[j].class_id == b.class_id && overlaps_beyond(&kept[j], b, t) {
            return true;
        }
        j = j + 1;
    }
    false
}

fn suppress(s: &Vec<ScoredBox>, n: usize, t: u64) -> (r: Vec<ScoredBox>)
    requires
        n <= s@.len(),
        forall|k: int| 0 <= k < s@.len() ==> valid_box(#[trigger] s@[k]),
    ensures
        r@ == nms(s@.take(n as int), t),
        forall|k: int| 0 <= k < r@.len() ==> valid_box(#[trigger] r@[k]),
{
    let mut kept: Vec<ScoredBox> = Vec::new();
    let mut i: usize = 0;
    while i < n
        invariant
            n <= s@.len(),
            i <= n,
            kept@ == nms(s@.take(i as int), t),
            forall|k: int| 0 <= k < s@.len() ==> valid_box(#[trigger] s@[k]),
            forall|k: int| 0 <= k < kept@.len() ==> valid_box(#[trigger] kept@[k]),
        decreases n - i,
    {
        proof {
            assert(s@.take(i + 1).drop_last() =~= s@.take(i as int));
            assert(s@.take(i + 1).last() == s@[i as int]);
        }
        if !is_suppressed(&kept, &s[i], t) {
            kept.push(s[i]);
        }
        i = i + 1;
    }
    kept
}

/// The name of class `id`: its entry in `names`, or `unknown` past the end.
pub open spec fn label(names: Seq<String>, id: u64) -> Seq<char> {
    if id < names.len() {
        names[id as int]@
    } else {
        "unknown"@
    }
}

/// The boxes that survive thresholding and suppression, by descending score.
pub open spec fn survivors(values: Seq<i64>, width: nat, cfg: DecodeConfig) -> Seq<ScoredBox> {
    let sorted = by_score(candidates(values, width, cfg, row_count(values, width)));
    nms(sorted.take(first_below(sorted, cfg.score_threshold, 0) as int), cfg.iou_threshold)
}

/// `d` is `boxes` with each box named from `names`.
pub open spec fn named(d: Seq<Detection>, boxes: Seq<ScoredBox>, names: Seq<String>) -> bool {
    &&& d.len() == boxes.len()
    &&& forall|i: int|
        0 <= i < d.len() ==> (#[trigger] d[i]).scored_box() == boxes[i] && d[i].class_name@ == label(
            names,
            boxes[i].class_id,
        )
}

fn label_exec(names: &Vec<String>, id: u64) -> (r: String)
    ensures
        r@ == label(names@, id),
{
    if id < names.len() as u64 {
        names[id as usize].clone()
    } else {
        "unknown".to_owned()
    }
}

/// Turns the raw output of one forward pass into detections: rows are read as
/// `cfg.layout` says, boxes clamped to the frame, rows below the score
/// threshold dropped, overlapping boxes of one class suppressed greedily, and
/// class ids named from `names`.
pub fn decode(raw: &RawOutput, cfg: &DecodeConfig, names: &Vec<String>) -> (r: Result<Vec<Detection>, DecodeError>)
    ensures
        r is Err <==> !well_shaped(raw.values@, raw.width as nat, cfg.layout),
        r matches Err(e) ==> e == DecodeError::MalformedTensor,
        r matches Ok(d) ==> named(d@, survivors(raw.values@, raw.width as nat, *cfg), names@),
{
    let min_width: usize = match cfg.layout {
        ScoreLayout::ClassIndex => 6,
        ScoreLayout::PerClass => 5,
    };
    if raw.width < min_width || raw.values.len() % raw.width != 0 {
        return Err(DecodeError::MalformedTensor);
    }
    let cands = collect_candidates(raw, cfg);
    let sorted = sort_by_score(&cands);
    let n = first_below_exec(&sorted, cfg.score_threshold);
    proof {
        lemma_first_below_bounds(sorted@, cfg.score_threshold, 0);
    }
    let kept = suppress(&sorted, n, cfg.iou_threshold);
    let mut out: Vec<Detection> = Vec::new();
    let mut i: usize = 0;
    while i < kept.len()
        invariant
            i <= kept@.len(),
            out@.len() == i,
            forall|k: int|
                0 <= k < i ==> (#[trigger] out@[k]).scored_box() == kept@[k] && out@[k].class_name@
                    == label(names@, kept@[k].class_id),
        decreases kept@.len() - i,
    {
        let b = kept[i];
        let d = Detection {
            x1: b.x1,
            y1: b.y1,
            x2: b.x2,
            y2: b.y2,
            score: b.score,
            class_id: b.class_id,
            class_name: label_exec(names, b.class_id),
        };
        out.push(d);
        i = i + 1;
    }
    Ok(out)
}

proof fn lemma_candidates_ignore_thresholds(values: Seq<i64>, width: nat, c1: DecodeConfig, c2: DecodeConfig, n: nat)
    requires
        c1.layout == c2.layout,
        c1.frame_width == c2.frame_width,
        c1.frame_height == c2.frame_height,
    ensures
        candidates(values, width, c1, n) == candidates(values, width, c2, n),
    decreases n,
{
    if n > 0 {
        lemma_candidates_ignore_thresholds(values, width, c1, c2, (n - 1) as nat);
        assert(row_candidate(values, width, c1, n - 1) == row_candidate(values, width, c2, n - 1));
    }
}

proof fn lemma_nms_prefix_len(s: Seq<ScoredBox>, t: u64, m: int, n: int)
    requires
        0 <= m <= n <= s.len(),
    ensures
        nms(s.take(m), t).len() <= nms(s.take(n), t).len(),
    decreases n - m,
{
    if m < n {
        lemma_nms_prefix_len(s, t, m, n - 1);
        assert(s.take(n).drop_last() =~= s.take(n - 1));
    }
}

/// Raising the score threshold, all else equal, never yields more detections.
pub proof fn lemma_threshold_monotone(values: Seq<i64>, width: nat, lower: DecodeConfig, higher: DecodeConfig)
    requires
        higher == (DecodeConfig { score_threshold: higher.score_threshold, ..lower }),
        lower.score_threshold <= higher.score_threshold,
    ensures
        survivors(values, width, higher).len() <= survivors(values, width, lower).len(),
{
    let n = row_count(values, width);
    lemma_candidates_ignore_thresholds(values, width, lower, higher, n);
    let sorted = by_score(candidates(values, width, lower, n));
    lemma_first_below_bounds(sorted, lower.score_threshold, 0);
    lemma_first_below_bounds(sorted, higher.score_threshold, 0);
    let n_lo = first_below(sorted, lower.score_threshold, 0);
    let n_hi = first_below(sorted, higher.score_threshold, 0);
    if n_lo < n_hi {
        assert(sorted[n_lo as int].score >= higher.score_threshold);
    }
    lemma_nms_prefix_len(sorted, lower.iou_threshold, n_hi as int, n_lo as int);
}

proof fn lemma_iou_symmetric(a: ScoredBox, b: ScoredBox, t: u64)
    ensures
        iou_exceeds(a, b, t) == iou_exceeds(b, a, t),
{
    assert(intersection(a, b) == intersection(b, a));
}

proof fn lemma_nms_separated(s: Seq<ScoredBox>, t: u64)
    ensures
        forall|i: int, j: int|
            0 <= i < nms(s, t).len() && 0 <= j < nms(s, t).len() && i != j && nms(s, t)[i].class_id
                == nms(s, t)[j].class_id ==> !iou_exceeds(nms(s, t)[i], nms(s, t)[j], t),
    decreases s.len(),
{
    if s.len() > 0 {
        let kept = nms(s.drop_last(), t);
        lemma_nms_separated(s.drop_last(), t);
        if !suppressed(kept, s.last(), t) {
            let r = kept.push(s.last());
            assert forall|i: int, j: int|
                0 <= i < r.len() && 0 <= j < r.len() && i != j && r[i].class_id == r[j].class_id implies !iou_exceeds(
                r[i],
                r[j],
                t,
            ) by {
                lemma_iou_symmetric(r[i], r[j], t);
                if j == kept.len() {
                    assert(kept[i].class_id == s.last().class_id);
                } else if i == kept.len() {
                    assert(kept[j].class_id == s.last().class_id);
                }
            }
        }
    }
}

/// No two detections of one class overlap beyond the IoU threshold.
pub proof fn lemma_survivors_separated(values: Seq<i64>, width: nat, cfg: DecodeConfig)
    ensures
        forall|i: int, j: int|
            0 <= i < survivors(values, width, cfg).len() && 0 <= j < survivors(values, width, cfg).len()
                && i != j && survivors(values, width, cfg)[i].class_id == survivors(values, width, cfg)[j].class_id
                ==> !iou_exceeds(survivors(values, width, cfg)[i], survivors(values, width, cfg)[j], cfg.iou_threshold),
{
    let sorted = by_score(candidates(values, width, cfg, row_count(values, width)));
    lemma_nms_separated(sorted.take(first_below(sorted, cfg.score_threshold, 0) as int), cfg.iou_threshold);
}

/// A raw output with no rows yields no detections.
pub proof fn lemma_no_rows_no_detections(values: Seq<i64>, width: nat, cfg: DecodeConfig)
    requires
        values.len() == 0,
        width > 0,
    ensures
        survivors(values, width, cfg) == Seq::<ScoredBox>::empty(),
{
    assert(row_count(values, width) == 0) by (nonlinear_arith)
        requires values.len() == 0, width > 0, row_count(values, width) == values.len() / width;
    let sorted = by_score(candidates(values, width, cfg, 0));
    assert(sorted.take(first_below(sorted, cfg.score_threshold, 0) as int) =~= Seq::<ScoredBox>::empty());
}

proof fn lemma_by_score_descending(s: Seq<ScoredBox>)
    ensures
        descending(by_score(s)),
        by_score(s).len() == s.len(),
    decreases s.len(),
{
    if s.len() > 0 {
        let t = by_score(s.drop_last());
        lemma_by_score_descending(s.drop_last());
        let v = s.last().score;
        let p = first_below(t, v, 0);
        lemma_first_below_bounds(t, v, 0);
        let r = t.insert(p as int, s.last());
        assert forall|k: int| p <= k < t.len() implies t[k].score < v by {
            if p < k {
                assert(t[p as int].score >= t[k].score);
            }
        }
        assert forall|i: int, j: int| 0 <= i < j < r.len() implies r[i].score >= r[j].score by {
            if j < p {
                assert(r[i] == t[i] && r[j] == t[j]);
            } else if j == p {
                assert(r[i] == t[i]);
            } else if i < p {
                assert(r[i] == t[i] && r[j] == t[j - 1]);
            } else if i == p {
                assert(r[j] == t[j - 1]);
            } else {
                assert(r[i] == t[i - 1] && r[j] == t[j - 1]);
            }
        }
    }
}

/// Sorting by score only reorders: each box occurs in the result as often as in
/// the input.
pub proof fn lemma_by_score_permutes(s: Seq<ScoredBox>)
    ensures
        by_score(s).to_multiset() == s.to_multiset(),
    decreases s.len(),
{
    if s.len() > 0 {
        let t = by_score(s.drop_last());
        lemma_by_score_permutes(s.drop_last());
        lemma_by_score_descending(s.drop_last());
        lemma_first_below_bounds(t, s.last().score, 0);
        to_multiset_insert(t, first_below(t, s.last().score, 0) as int, s.last());
        to_multiset_build(s.drop_last(), s.last());
        assert(s.drop_last().push(s.last()) =~= s);
    } else {
        assert(by_score(s) =~= s);
    }
}

proof fn lemma_nms_descending(s: Seq<ScoredBox>, t: u64)
    requires
        descending(s),
    ensures
        descending(nms(s, t)),
        s.len() > 0 ==> forall|i: int| 0 <= i < nms(s, t).len() ==> nms(s, t)[i].score >= s.last().score,
    decreases s.len(),
{
    if s.len() > 0 {
        let s0 = s.drop_last();
        lemma_nms_descending(s0, t);
        if s0.len() > 0 {
            assert(s0.last().score >= s.last().score);
        }
    }
}

/// Detections come out by descending score.
pub proof fn lemma_survivors_descending(values: Seq<i64>, width: nat, cfg: DecodeConfig)
    ensures
        descending(survivors(values, width, cfg)),
{
    let sorted = by_score(candidates(values, width, cfg, row_count(values, width)));
    lemma_by_score_descending(candidates(values, width, cfg, row_count(values, width)));
    lemma_first_below_bounds(sorted, cfg.score_threshold, 0);
    let pre = sorted.take(first_below(sorted, cfg.score_threshold, 0) as int);
    lemma_nms_descending(pre, cfg.iou_threshold);
}

pub open spec fn all_hold(s: Seq<ScoredBox>, p: spec_fn(ScoredBox) -> bool) -> bool {
    forall|i: int| 0 <= i < s.len() ==> p(#[trigger] s[i])
}

/// `b` lies inside the working image, is not empty, and scores within `[0, 1]`.
pub open spec fn in_frame(b: ScoredBox, cfg: DecodeConfig) -> bool {
    &&& b.x1 < b.x2 <= cfg.frame_width * UNIT
    &&& b.y1 < b.y2 <= cfg.frame_height * UNIT
    &&& b.score <= UNIT
}

proof fn lemma_candidates_in_frame(values: Seq<i64>, width: nat, cfg: DecodeConfig, n: nat)
    ensures
        all_hold(candidates(values, width, cfg, n), |b: ScoredBox| in_frame(b, cfg)),
    decreases n,
{
    if n > 0 {
        lemma_candidates_in_frame(values, width, cfg, (n - 1) as nat);
    }
}

proof fn lemma_by_score_keeps(s: Seq<ScoredBox>, p: spec_fn(ScoredBox) -> bool)
    requires
        all_hold(s, p),
    ensures
        all_hold(by_score(s), p),
    decreases s.len(),
{
    if s.len() > 0 {
        let t = by_score(s.drop_last());
        lemma_by_score_keeps(s.drop_last(), p);
        lemma_first_below_bounds(t, s.last().score, 0);
        let r = t.insert(first_below(t, s.last().score, 0) as int, s.last());
        assert forall|i: int| 0 <= i < r.len() implies p(#[trigger] r[i]) by {
            let q = first_below(t, s.last().score, 0) as int;
            if i < q {
                assert(r[i] == t[i]);
            } else if i > q {
                assert(r[i] == t[i - 1]);
            }
        }
    }
}

proof fn lemma_nms_keeps(s: Seq<ScoredBox>, t: u64, p: spec_fn(ScoredBox) -> bool)
    requires
        all_hold(s, p),
    ensures
        all_hold(nms(s, t), p),
    decreases s.len(),
{
    if s.len() > 0 {
        lemma_nms_keeps(s.drop_last(), t, p);
    }
}

/// Every detection lies inside the working image with `x1 < x2` and `y1 < y2`,
/// scores within `[0, 1]`, and meets the score threshold.
pub proof fn lemma_survivors_well_formed(values: Seq<i64>, width: nat, cfg: DecodeConfig)
    ensures
        all_hold(survivors(values, width, cfg), |b: ScoredBox| in_frame(b, cfg)),
        all_hold(survivors(values, width, cfg), |b: ScoredBox| b.score >= cfg.score_threshold),
{
    let c = candidates(values, width, cfg, row_count(values, width));
    let sorted = by_score(c);
    let pf = |b: ScoredBox| in_frame(b, cfg);
    let pt = |b: ScoredBox| b.score >= cfg.score_threshold;
    lemma_candidates_in_frame(values, width, cfg, row_count(values, width));
    lemma_by_score_keeps(c, pf);
    lemma_by_score_descending(c);
    lemma_first_below_bounds(sorted, cfg.score_threshold, 0);
    let pre = sorted.take(first_below(sorted, cfg.score_threshold, 0) as int);
    assert(all_hold(pre, pf));
    assert(all_hold(pre, pt));
    lemma_nms_keeps(pre, cfg.iou_threshold, pf);
    lemma_nms_keeps(pre, cfg.iou_threshold, pt);
}

/// Decoding is a function of its inputs: two results for the same raw output,
/// configuration and names agree field by field.
pub proof fn lemma_decode_deterministic(
    d1: Seq<Detection>,
    d2: Seq<Detection>,
    values: Seq<i64>,
    width: nat,
    cfg: DecodeConfig,
    names: Seq<String>,
)
    requires
        named(d1, survivors(values, width, cfg), names),
        named(d2, survivors(values, width, cfg), names),
    ensures
        d1.len() == d2.len(),
        forall|i: int|
            0 <= i < d1.len() ==> (#[trigger] d1[i]).scored_box() == d2[i].scored_box() && d1[i].class_name@
                == d2[i].class_name@,
{
    assert forall|i: int| 0 <= i < d1.len() implies (#[trigger] d1[i]).scored_box() == d2[i].scored_box()
        && d1[i].class_name@ == d2[i].class_name@ by {
        assert(d2[i].scored_box() == survivors(values, width, cfg)[i]);
    }
}

/// A coordinate `v` of a frame `from` pixels across, in a frame `to` pixels
/// across, rounded down.
pub open spec fn rescale(v: u64, from: u32, to: u32) -> int {
    (v as int) * (to as int) / (from as int)
}

fn rescale_exec(v: u64, from: u32, to: u32) -> (r: u64)
    requires
        from > 0,
        v <= from * UNIT,
    ensures
        r == rescale(v, from, to),
        r <= to * UNIT,
{
    proof {
        let (vi, f, t) = (v as int, from as int, to as int);
        assert(vi * t <= (f * 1_000_000) * t) by (nonlinear_arith)
            requires 0 <= vi <= f * 1_000_000, 0 <= t;
        assert(f * (1_000_000 * t) == (f * 1_000_000) * t) by (nonlinear_arith);
        lemma_div_is_ordered(vi * t, f * (1_000_000 * t), f);
        lemma_div_multiples_vanish(1_000_000 * t, f);
        assert(0 <= 1_000_000 * t <= 1_000_000 * 0xffff_ffff) by (nonlinear_arith)
            requires 0 <= t <= 0xffff_ffff;
        assert(vi * t <= 0xffff_ffffint * 1_000_000 * 0xffff_ffff) by (nonlinear_arith)
            requires 0 <= vi <= f * 1_000_000, 0 <= t <= 0xffff_ffff, 0 < f <= 0xffff_ffff;
        assert(0 <= vi * t) by (nonlinear_arith)
            requires 0 <= vi, 0 <= t;
    }
    ((v as u128) * (to as u128) / (from as u128)) as u64
}

impl Detection {
    /// This detection moved from a working frame of `frame_width` by
    /// `frame_height` pixels to an image of `width` by `height` pixels, each
    /// coordinate scaled and rounded down.
    pub fn rescaled(&self, frame_width: u32, frame_height: u32, width: u32, height: u32) -> (r: Detection)
        requires
            frame_width > 0,
            frame_height > 0,
            self.x1 <= self.x2 <= frame_width * UNIT,
            self.y1 <= self.y2 <= frame_height * UNIT,
        ensures
            r.x1 == rescale(self.x1, frame_width, width),
            r.y1 == rescale(self.y1, frame_height, height),
            r.x2 == rescale(self.x2, frame_width, width),
            r.y2 == rescale(self.y2, frame_height, height),
            r.score == self.score,
            r.class_id == self.class_id,
            r.class_name@ == self.class_name@,
    {
        Detection {
            x1: rescale_exec(self.x1, frame_width, width),
            y1: rescale_exec(self.y1, frame_height, height),
            x2: rescale_exec(self.x2, frame_width, width),
            y2: rescale_exec(self.y2, frame_height, height),
            score: self.score,
            class_id: self.class_id,
            class_name: self.class_name.clone(),
        }
    }
}

} // verus!
