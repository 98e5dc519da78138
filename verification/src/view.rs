//! The score aggregator: matches stored annotations to stored readings by
//! content key, weighs the satisfied ones into a confidence score per
//! reading, and builds a per-sensor presentation sorted by recency.
//!
//! Scores are carried in millionths of a confidence unit, so the weights
//! below are exact where the displayed numbers are rounded. Weights are
//! additive flags: duplicate kinds can push a score past one unit, and that
//! is kept, not clamped.

use vstd::prelude::*;
use vstd::string::StrSliceExecFns;
use vstd::string::StringExecFns;
use vstd::arithmetic::div_mod::lemma_fundamental_div_mod;
use crate::data::{
    Annotation, AnnotationV, AnnotationWrap, AnnotationWrapV, ReadingWrap, ReadingWrapV,
    ann_wraps_view, anns_view, readings_view,
};
use crate::json::{dec_nat, digit_char};

verus! {

/// Weight of a satisfied threshold annotation, in millionths.
pub const WEIGHT_THRESHOLD: u64 = 333333;

/// Weight of a satisfied source annotation, in millionths.
pub const WEIGHT_SOURCE: u64 = 133333;

/// Weight of a satisfied tls annotation, in millionths.
pub const WEIGHT_TLS: u64 = 200000;

/// Weight of a satisfied pki annotation, in millionths.
pub const WEIGHT_PKI: u64 = 333333;

/// How many readings a sensor's presentation shows at most.
pub const SHOWN_READINGS_CAP: usize = 75;

// ---------------------------------------------------------------------------
// Presentation types
// ---------------------------------------------------------------------------

/// One reading as presented: a shortened key, its provenance, the matched
/// annotations, and the confidence score in millionths.
pub struct ReadingDashboardContext {
    pub id: String,
    pub address: String,
    pub timestamp: i64,
    pub value: u8,
    pub annotations: Vec<Annotation>,
    pub score: u64,
}

pub struct ReadingDashboardContextV {
    pub id: Seq<char>,
    pub address: Seq<char>,
    pub timestamp: i64,
    pub value: u8,
    pub annotations: Seq<AnnotationV>,
    pub score: u64,
}

impl View for ReadingDashboardContext {
    type V = ReadingDashboardContextV;

    open spec fn view(&self) -> ReadingDashboardContextV {
        ReadingDashboardContextV {
            id: self.id@,
            address: self.address@,
            timestamp: self.timestamp,
            value: self.value,
            annotations: anns_view(self.annotations@),
            score: self.score,
        }
    }
}

/// One sensor as presented: its readings newest first (capped), their count,
/// and the displayed mean confidence.
pub struct SensorDashboardContext {
    pub id: String,
    pub total: usize,
    pub avgcf: String,
    pub readings: Vec<ReadingDashboardContext>,
}

pub struct SensorDashboardContextV {
    pub id: Seq<char>,
    pub total: usize,
    pub avgcf: Seq<char>,
    pub readings: Seq<ReadingDashboardContextV>,
}

impl View for SensorDashboardContext {
    type V = SensorDashboardContextV;

    open spec fn view(&self) -> SensorDashboardContextV {
        SensorDashboardContextV {
            id: self.id@,
            total: self.total,
            avgcf: self.avgcf@,
            readings: self.readings@.map_values(|r: ReadingDashboardContext| r@),
        }
    }
}

/// The whole presentation: sensors in ascending id order.
pub struct DashboardContext {
    pub sensors: Vec<SensorDashboardContext>,
}

pub struct DashboardContextV {
    pub sensors: Seq<SensorDashboardContextV>,
}

impl View for DashboardContext {
    type V = DashboardContextV;

    open spec fn view(&self) -> DashboardContextV {
        DashboardContextV {
            sensors: self.sensors@.map_values(|s: SensorDashboardContext| s@),
        }
    }
}

// ---------------------------------------------------------------------------
// Scores
// ---------------------------------------------------------------------------

/// The weight a satisfied annotation of this kind contributes.
pub open spec fn weight_of_kind(kind: Seq<char>) -> u64 {
    if kind == "threshold"@ {
        WEIGHT_THRESHOLD
    } else if kind == "source"@ {
        WEIGHT_SOURCE
    } else if kind == "tls"@ {
        WEIGHT_TLS
    } else if kind == "pki"@ {
        WEIGHT_PKI
    } else {
        0
    }
}

pub open spec fn ann_weight(a: AnnotationV) -> u64 {
    if a.is_satisfied {
        weight_of_kind(a.kind)
    } else {
        0
    }
}

/// The annotations stored for one reading key, in arrival order.
pub open spec fn matched(annotations: Seq<AnnotationWrapV>, key: Seq<char>) -> Seq<AnnotationV>
    decreases annotations.len(),
{
    if annotations.len() == 0 {
        Seq::empty()
    } else {
        (if annotations[0].reading_id == key {
            seq![annotations[0].annotation]
        } else {
            Seq::empty()
        }) + matched(annotations.drop_first(), key)
    }
}

pub proof fn lemma_matched_push(annotations: Seq<AnnotationWrapV>, w: AnnotationWrapV, key: Seq<char>)
    ensures
        matched(annotations.push(w), key) == matched(annotations, key) + (if w.reading_id == key {
            seq![w.annotation]
        } else {
            Seq::<AnnotationV>::empty()
        }),
    decreases annotations.len(),
{
    if annotations.len() == 0 {
        assert(annotations.push(w)[0] == w);
        assert(annotations.push(w).drop_first() =~= annotations);
        assert(matched(annotations, key) =~= Seq::<AnnotationV>::empty());
        assert(matched(annotations.push(w), key) =~= matched(annotations, key) + (
        if w.reading_id == key {
            seq![w.annotation]
        } else {
            Seq::<AnnotationV>::empty()
        }));
    } else {
        assert(annotations.push(w)[0] == annotations[0]);
        assert(annotations.push(w).drop_first() =~= annotations.drop_first().push(w));
        lemma_matched_push(annotations.drop_first(), w, key);
        assert(matched(annotations.push(w), key) =~= matched(annotations, key) + (
        if w.reading_id == key {
            seq![w.annotation]
        } else {
            Seq::<AnnotationV>::empty()
        }));
    }
}

/// The confidence score of a list of annotations: the sum of the weights of
/// its satisfied items.
pub open spec fn score_of(anns: Seq<AnnotationV>) -> int
    decreases anns.len(),
{
    if anns.len() == 0 {
        0
    } else {
        ann_weight(anns[0]) + score_of(anns.drop_first())
    }
}

pub proof fn lemma_score_push(anns: Seq<AnnotationV>, a: AnnotationV)
    ensures
        score_of(anns.push(a)) == score_of(anns) + ann_weight(a),
    decreases anns.len(),
{
    if anns.len() == 0 {
        assert(anns.push(a)[0] == a);
        assert(anns.push(a).drop_first() =~= anns);
    } else {
        assert(anns.push(a)[0] == anns[0]);
        assert(anns.push(a).drop_first() =~= anns.drop_first().push(a));
        lemma_score_push(anns.drop_first(), a);
    }
}

pub proof fn lemma_score_bounds(anns: Seq<AnnotationV>)
    ensures
        0 <= score_of(anns) <= anns.len() * (WEIGHT_THRESHOLD as int),
    decreases anns.len(),
{
    if anns.len() == 0 {
    } else {
        lemma_score_bounds(anns.drop_first());
        assert(ann_weight(anns[0]) <= WEIGHT_THRESHOLD);
        assert((anns.len() - 1) * (WEIGHT_THRESHOLD as int) + WEIGHT_THRESHOLD == anns.len() * (
        WEIGHT_THRESHOLD as int)) by (nonlinear_arith);
    }
}

/// No stored annotation carries the key: the reading's score is zero.
pub proof fn lemma_score_unmatched(annotations: Seq<AnnotationWrapV>, key: Seq<char>)
    requires
        forall|k: int| 0 <= k < annotations.len() ==> (#[trigger] annotations[k]).reading_id
            != key,
    ensures
        matched(annotations, key) == Seq::<AnnotationV>::empty(),
        score_of(matched(annotations, key)) == 0,
    decreases annotations.len(),
{
    if annotations.len() == 0 {
        assert(matched(annotations, key) =~= Seq::<AnnotationV>::empty());
    } else {
        assert(annotations[0].reading_id != key);
        assert forall|k: int| 0 <= k < annotations.drop_first().len() implies (
        #[trigger] annotations.drop_first()[k]).reading_id != key by {
            assert(annotations.drop_first()[k] == annotations[k + 1]);
        }
        lemma_score_unmatched(annotations.drop_first(), key);
        assert(matched(annotations, key) =~= Seq::<AnnotationV>::empty());
    }
}

/// One stored satisfied threshold annotation for the key: the score is
/// exactly the threshold weight.
pub proof fn lemma_score_single_threshold(w: AnnotationWrapV, key: Seq<char>)
    requires
        w.reading_id == key,
        w.annotation.kind == "threshold"@,
        w.annotation.is_satisfied,
    ensures
        score_of(matched(seq![w], key)) == WEIGHT_THRESHOLD as int,
{
    let anns = seq![w];
    assert(anns.drop_first() =~= Seq::<AnnotationWrapV>::empty());
    assert(matched(Seq::<AnnotationWrapV>::empty(), key) =~= Seq::<AnnotationV>::empty());
    assert(anns[0] == w);
    assert(matched(anns, key) =~= seq![w.annotation]);
    assert(seq![w.annotation].drop_first() =~= Seq::<AnnotationV>::empty());
    assert(score_of(Seq::<AnnotationV>::empty()) == 0);
    assert(seq![w.annotation][0] == w.annotation);
    assert(score_of(seq![w.annotation]) == ann_weight(w.annotation));
}

// ---------------------------------------------------------------------------
// Selection and ordering
// ---------------------------------------------------------------------------

/// The stored readings of one sensor, in arrival order.
pub open spec fn of_sensor(rs: Seq<ReadingWrapV>, sensor: Seq<char>) -> Seq<ReadingWrapV>
    decreases rs.len(),
{
    if rs.len() == 0 {
        Seq::empty()
    } else {
        (if rs[0].reading.id == sensor {
            seq![rs[0]]
        } else {
            Seq::empty()
        }) + of_sensor(rs.drop_first(), sensor)
    }
}

pub proof fn lemma_of_sensor_push(rs: Seq<ReadingWrapV>, r: ReadingWrapV, sensor: Seq<char>)
    ensures
        of_sensor(rs.push(r), sensor) == of_sensor(rs, sensor) + (if r.reading.id == sensor {
            seq![r]
        } else {
            Seq::<ReadingWrapV>::empty()
        }),
    decreases rs.len(),
{
    if rs.len() == 0 {
        assert(rs.push(r)[0] == r);
        assert(rs.push(r).drop_first() =~= rs);
        assert(of_sensor(rs, sensor) =~= Seq::<ReadingWrapV>::empty());
        assert(of_sensor(rs.push(r), sensor) =~= of_sensor(rs, sensor) + (
        if r.reading.id == sensor {
            seq![r]
        } else {
            Seq::<ReadingWrapV>::empty()
        }));
    } else {
        assert(rs.push(r)[0] == rs[0]);
        assert(rs.push(r).drop_first() =~= rs.drop_first().push(r));
        lemma_of_sensor_push(rs.drop_first(), r, sensor);
        assert(of_sensor(rs.push(r), sensor) =~= of_sensor(rs, sensor) + (
        if r.reading.id == sensor {
            seq![r]
        } else {
            Seq::<ReadingWrapV>::empty()
        }));
    }
}

/// The distinct sensor ids among the readings, in first-occurrence order.
pub open spec fn collect_ids(rs: Seq<ReadingWrapV>, acc: Seq<Seq<char>>) -> Seq<Seq<char>>
    decreases rs.len(),
{
    if rs.len() == 0 {
        acc
    } else {
        collect_ids(
            rs.drop_first(),
            if acc.contains(rs[0].reading.id) {
                acc
            } else {
                acc.push(rs[0].reading.id)
            },
        )
    }
}

pub open spec fn distinct_ids(rs: Seq<ReadingWrapV>) -> Seq<Seq<char>> {
    collect_ids(rs, Seq::empty())
}

/// Lexicographic order on texts, by scalar value.
pub open spec fn lex_le(a: Seq<char>, b: Seq<char>) -> bool
    decreases a.len(),
{
    if a.len() == 0 {
        true
    } else if b.len() == 0 {
        false
    } else if (a[0] as u32) < (b[0] as u32) {
        true
    } else if (a[0] as u32) > (b[0] as u32) {
        false
    } else {
        lex_le(a.drop_first(), b.drop_first())
    }
}

pub open spec fn lex_lt(a: Seq<char>, b: Seq<char>) -> bool {
    lex_le(a, b) && a != b
}

/// Insert an id into an ascending list: before the first strictly greater
/// element.
pub open spec fn insert_id(x: Seq<char>, s: Seq<Seq<char>>) -> Seq<Seq<char>>
    decreases s.len(),
{
    if s.len() == 0 {
        seq![x]
    } else if lex_lt(x, s[0]) {
        seq![x] + s
    } else {
        seq![s[0]] + insert_id(x, s.drop_first())
    }
}

/// Ascending insertion sort over ids.
pub open spec fn sort_ids(s: Seq<Seq<char>>) -> Seq<Seq<char>>
    decreases s.len(),
{
    if s.len() == 0 {
        Seq::empty()
    } else {
        insert_id(s.last(), sort_ids(s.drop_last()))
    }
}

/// Insert a presented reading into a newest-first list: before the first
/// strictly older element, after readings of the same age.
pub open spec fn insert_rv(x: ReadingDashboardContextV, s: Seq<ReadingDashboardContextV>) -> Seq<
    ReadingDashboardContextV,
>
    decreases s.len(),
{
    if s.len() == 0 {
        seq![x]
    } else if x.timestamp > s[0].timestamp {
        seq![x] + s
    } else {
        seq![s[0]] + insert_rv(x, s.drop_first())
    }
}

/// Newest-first stable insertion sort over presented readings.
pub open spec fn sort_rvs(s: Seq<ReadingDashboardContextV>) -> Seq<ReadingDashboardContextV>
    decreases s.len(),
{
    if s.len() == 0 {
        Seq::empty()
    } else {
        insert_rv(s.last(), sort_rvs(s.drop_last()))
    }
}

// ---------------------------------------------------------------------------
// Averages and display
// ---------------------------------------------------------------------------

/// The mean score of a sensor's readings, in thousandths of a unit, rounded
/// half-up; a sensor with no readings reports zero.
pub open spec fn avg_thousandths(sum: int, n: int) -> int {
    if n <= 0 {
        0
    } else {
        (2 * sum + n * 1000) / (2 * n * 1000)
    }
}

/// The displayed mean confidence: the thousandths value scaled by one
/// hundred, printed with its single decimal digit when that is not zero.
pub open spec fn display_of(a: int) -> Seq<char> {
    if a < 0 {
        Seq::empty()
    } else if a % 10 == 0 {
        dec_nat((a / 10) as nat)
    } else {
        dec_nat((a / 10) as nat) + seq!['.'] + seq![digit_char((a % 10) as nat)]
    }
}

// ---------------------------------------------------------------------------
// The presented shapes, assembled
// ---------------------------------------------------------------------------

/// The first ten characters of a content key, as presented.
pub open spec fn short_of(id: Seq<char>) -> Seq<char> {
    if id.len() <= 10 {
        id
    } else {
        id.subrange(0, 10)
    }
}

/// How one stored reading is presented against the stored annotations.
pub open spec fn spec_reading_view(rw: ReadingWrapV, annotations: Seq<AnnotationWrapV>)
    -> ReadingDashboardContextV {
    ReadingDashboardContextV {
        id: short_of(rw.id),
        address: rw.address,
        timestamp: rw.reading.timestamp,
        value: rw.reading.value,
        annotations: matched(annotations, rw.id),
        score: score_of(matched(annotations, rw.id)) as u64,
    }
}

pub open spec fn rdc_views(s: Seq<ReadingDashboardContext>) -> Seq<ReadingDashboardContextV> {
    s.map_values(|r: ReadingDashboardContext| r@)
}

pub open spec fn ids_views(s: Seq<String>) -> Seq<Seq<char>> {
    s.map_values(|x: String| x@)
}

pub open spec fn views_of_sel(sel: Seq<ReadingWrapV>, annotations: Seq<AnnotationWrapV>) -> Seq<
    ReadingDashboardContextV,
> {
    sel.map_values(|rw: ReadingWrapV| spec_reading_view(rw, annotations))
}

pub open spec fn sum_scores(views: Seq<ReadingDashboardContextV>) -> int
    decreases views.len(),
{
    if views.len() == 0 {
        0
    } else {
        views[0].score + sum_scores(views.drop_first())
    }
}

pub proof fn lemma_sum_scores_push(views: Seq<ReadingDashboardContextV>, v: ReadingDashboardContextV)
    ensures
        sum_scores(views.push(v)) == sum_scores(views) + v.score,
    decreases views.len(),
{
    if views.len() == 0 {
        assert(views.push(v)[0] == v);
        assert(views.push(v).drop_first() =~= views);
    } else {
        assert(views.push(v)[0] == views[0]);
        assert(views.push(v).drop_first() =~= views.drop_first().push(v));
        lemma_sum_scores_push(views.drop_first(), v);
    }
}

/// The shown part of a sorted reading list: at most the cap.
pub open spec fn capped(s: Seq<ReadingDashboardContextV>) -> Seq<ReadingDashboardContextV> {
    if s.len() <= SHOWN_READINGS_CAP {
        s
    } else {
        s.take(SHOWN_READINGS_CAP as int)
    }
}

/// How one sensor is presented: its readings selected, scored, sorted
/// newest first and capped; the mean over all of them (computed before the
/// cap) displayed.
pub open spec fn spec_sensor_view(
    rs: Seq<ReadingWrapV>,
    annotations: Seq<AnnotationWrapV>,
    sensor: Seq<char>,
) -> SensorDashboardContextV {
    let sel = of_sensor(rs, sensor);
    let views = views_of_sel(sel, annotations);
    SensorDashboardContextV {
        id: sensor,
        total: sel.len() as usize,
        avgcf: display_of(avg_thousandths(sum_scores(views), sel.len() as int)),
        readings: capped(sort_rvs(views)),
    }
}

/// The whole presentation: one view per distinct sensor, ascending by id.
pub open spec fn spec_dashboard(rs: Seq<ReadingWrapV>, annotations: Seq<AnnotationWrapV>)
    -> DashboardContextV {
    DashboardContextV {
        sensors: sort_ids(distinct_ids(rs)).map_values(
            |sensor: Seq<char>| spec_sensor_view(rs, annotations, sensor),
        ),
    }
}

// ---------------------------------------------------------------------------
// Exec: scores
// ---------------------------------------------------------------------------

/// The largest score a reading can accumulate under the collection bound.
pub open spec fn score_ceil() -> int {
    0x1_0000_0000 * (WEIGHT_THRESHOLD as int)
}

fn weight_of(a: &Annotation) -> (w: u64)
    ensures
        w == ann_weight(a@),
{
    if !a.is_satisfied {
        return 0;
    }
    if a.kind == String::from_str("threshold") {
        WEIGHT_THRESHOLD
    } else if a.kind == String::from_str("source") {
        WEIGHT_SOURCE
    } else if a.kind == String::from_str("tls") {
        WEIGHT_TLS
    } else if a.kind == String::from_str("pki") {
        WEIGHT_PKI
    } else {
        0
    }
}

/// Select the stored annotations for one reading key and sum their weights.
fn matched_annotations(annotations: &Vec<AnnotationWrap>, key: &String) -> (r: (Vec<Annotation>, u64))
    requires
        annotations@.len() <= 0xffff_ffff,
    ensures
        anns_view(r.0@) == matched(ann_wraps_view(annotations@), key@),
        r.1 as int == score_of(matched(ann_wraps_view(annotations@), key@)),
        0 <= r.1 as int <= score_ceil(),
{
    let mut out: Vec<Annotation> = Vec::new();
    let mut score: u64 = 0;
    let n = annotations.len();
    let mut k: usize = 0;
    proof {
        assert(ann_wraps_view(annotations@).take(0) =~= Seq::<AnnotationWrapV>::empty());
        assert(matched(Seq::<AnnotationWrapV>::empty(), key@) =~= Seq::<AnnotationV>::empty());
        assert(anns_view(out@) =~= Seq::<AnnotationV>::empty());
    }
    while k < n
        invariant
            k <= n,
            n == annotations@.len(),
            n <= 0xffff_ffff,
            anns_view(out@) == matched(ann_wraps_view(annotations@).take(k as int), key@),
            score as int == score_of(anns_view(out@)),
            out@.len() <= k,
        decreases n - k,
    {
        let ghost pre = ann_wraps_view(annotations@).take(k as int);
        let ghost wv = annotations@[k as int]@;
        proof {
            assert(ann_wraps_view(annotations@)[k as int] == wv);
            assert(ann_wraps_view(annotations@).take(k + 1) =~= pre.push(wv));
            lemma_matched_push(pre, wv, key@);
        }
        let w = &annotations[k];
        if w.reading_id == *key {
            let ghost old_out = anns_view(out@);
            let wt = weight_of(&w.annotation);
            proof {
                lemma_score_bounds(old_out);
                assert(old_out.len() == out@.len());
                assert((out@.len() as int) * (WEIGHT_THRESHOLD as int) <= 0xffff_ffff * (
                WEIGHT_THRESHOLD as int)) by (nonlinear_arith)
                    requires
                        out@.len() <= 0xffff_ffff,
                ;
            }
            out.push(w.annotation.duplicate());
            score = score + wt;
            proof {
                assert(anns_view(out@) =~= old_out.push(wv.annotation));
                lemma_score_push(old_out, wv.annotation);
                assert(matched(pre.push(wv), key@) =~= old_out.push(wv.annotation));
            }
        } else {
            proof {
                assert(matched(pre.push(wv), key@) =~= matched(pre, key@));
            }
        }
        k += 1;
    }
    proof {
        assert(ann_wraps_view(annotations@).take(n as int) =~= ann_wraps_view(annotations@));
        lemma_score_bounds(anns_view(out@));
        assert(anns_view(out@).len() == out@.len());
        assert((out@.len() as int) * (WEIGHT_THRESHOLD as int) <= 0x1_0000_0000 * (
        WEIGHT_THRESHOLD as int)) by (nonlinear_arith)
            requires
                out@.len() <= 0x1_0000_0000,
        ;
    }
    (out, score)
}

/// Present one stored reading against the stored annotations.
fn build_reading_view(rw: &ReadingWrap, annotations: &Vec<AnnotationWrap>) -> (r:
    ReadingDashboardContext)
    requires
        annotations@.len() <= 0xffff_ffff,
    ensures
        r@ == spec_reading_view(rw@, ann_wraps_view(annotations@)),
{
    let (matched_list, score) = matched_annotations(annotations, &rw.id);
    let l = rw.id.as_str().unicode_len();
    let short = if l <= 10 {
        rw.id.clone()
    } else {
        rw.id.as_str().substring_char(0, 10).to_owned()
    };
    let r = ReadingDashboardContext {
        id: short,
        address: rw.address.clone(),
        timestamp: rw.reading.timestamp,
        value: rw.reading.value,
        annotations: matched_list,
        score,
    };
    proof {
        assert(r@.id == short_of(rw@.id));
        assert(r@ == spec_reading_view(rw@, ann_wraps_view(annotations@)));
    }
    r
}

// ---------------------------------------------------------------------------
// Exec: ordering
// ---------------------------------------------------------------------------

proof fn lemma_lex_skip(a: Seq<char>, b: Seq<char>, i: int)
    requires
        0 <= i <= a.len(),
        i <= b.len(),
        forall|m: int| 0 <= m < i ==> #[trigger] a[m] == b[m],
    ensures
        lex_le(a, b) == lex_le(a.skip(i), b.skip(i)),
    decreases i,
{
    if i == 0 {
        assert(a.skip(0) =~= a);
        assert(b.skip(0) =~= b);
    } else {
        assert(a[0] == b[0]);
        assert(a.drop_first() =~= a.skip(1));
        assert(b.drop_first() =~= b.skip(1));
        assert forall|m: int| 0 <= m < i - 1 implies #[trigger] a.drop_first()[m]
            == b.drop_first()[m] by {
            assert(a[m + 1] == b[m + 1]);
        }
        lemma_lex_skip(a.drop_first(), b.drop_first(), i - 1);
        assert(a.drop_first().skip(i - 1) =~= a.skip(i));
        assert(b.drop_first().skip(i - 1) =~= b.skip(i));
    }
}

/// Strict lexicographic comparison of two texts.
fn lex_lt_exec(a: &str, b: &str) -> (r: bool)
    ensures
        r == lex_lt(a@, b@),
{
    let an = a.unicode_len();
    let bn = b.unicode_len();
    let mut i: usize = 0;
    while i < an && i < bn
        invariant
            i <= an,
            i <= bn,
            an == a@.len(),
            bn == b@.len(),
            forall|m: int| 0 <= m < i ==> #[trigger] a@[m] == b@[m],
        decreases an - i,
    {
        let ca = a.get_char(i);
        let cb = b.get_char(i);
        if ca != cb {
            let r = (ca as u32) < (cb as u32);
            proof {
                lemma_lex_skip(a@, b@, i as int);
                let sa = a@.skip(i as int);
                let sb = b@.skip(i as int);
                assert(sa[0] == a@[i as int]);
                assert(sb[0] == b@[i as int]);
                vstd::utf8::char_u32_cast(ca, ca as u32);
                vstd::utf8::char_u32_cast(cb, cb as u32);
                assert((ca as u32) != (cb as u32));
                if a@ == b@ {
                    assert(a@[i as int] == b@[i as int]);
                }
            }
            return r;
        }
        i += 1;
    }
    if an < bn {
        proof {
            lemma_lex_skip(a@, b@, an as int);
            assert(a@.skip(an as int).len() == 0);
            assert(a@.len() != b@.len());
        }
        true
    } else if bn < an {
        proof {
            lemma_lex_skip(a@, b@, bn as int);
            assert(b@.skip(bn as int).len() == 0);
            assert(a@.skip(bn as int).len() > 0);
        }
        false
    } else {
        proof {
            assert(a@ =~= b@);
        }
        false
    }
}

proof fn lemma_insert_id_at(x: Seq<char>, s: Seq<Seq<char>>, idx: int)
    requires
        0 <= idx <= s.len(),
        forall|m: int| 0 <= m < idx ==> !lex_lt(x, #[trigger] s[m]),
        idx < s.len() ==> lex_lt(x, s[idx]),
    ensures
        insert_id(x, s) == s.take(idx) + seq![x] + s.skip(idx),
    decreases idx,
{
    if idx == 0 {
        if s.len() == 0 {
            assert(insert_id(x, s) =~= s.take(0) + seq![x] + s.skip(0));
        } else {
            assert(lex_lt(x, s[0]));
            assert(insert_id(x, s) =~= s.take(0) + seq![x] + s.skip(0));
        }
    } else {
        assert(!lex_lt(x, s[0]));
        assert forall|m: int| 0 <= m < idx - 1 implies !lex_lt(x, #[trigger] s.drop_first()[m]) by {
            assert(s.drop_first()[m] == s[m + 1]);
        }
        assert(idx - 1 < s.drop_first().len() ==> lex_lt(x, s.drop_first()[idx - 1]));
        lemma_insert_id_at(x, s.drop_first(), idx - 1);
        assert(s.drop_first().take(idx - 1) =~= s.take(idx).drop_first());
        assert(s.drop_first().skip(idx - 1) =~= s.skip(idx));
        assert(insert_id(x, s) =~= s.take(idx) + seq![x] + s.skip(idx));
    }
}

fn find_insert_pos_id(v: &Vec<String>, x: &String) -> (idx: usize)
    ensures
        idx <= v@.len(),
        forall|m: int| 0 <= m < idx ==> !lex_lt(x@, #[trigger] ids_views(v@)[m]),
        idx < v@.len() ==> lex_lt(x@, ids_views(v@)[idx as int]),
{
    let n = v.len();
    let mut idx: usize = 0;
    while idx < n
        invariant
            idx <= n,
            n == v@.len(),
            forall|m: int| 0 <= m < idx ==> !lex_lt(x@, #[trigger] ids_views(v@)[m]),
        decreases n - idx,
    {
        if lex_lt_exec(x.as_str(), v[idx].as_str()) {
            proof {
                assert(ids_views(v@)[idx as int] == v@[idx as int]@);
            }
            return idx;
        }
        proof {
            assert(ids_views(v@)[idx as int] == v@[idx as int]@);
        }
        idx += 1;
    }
    idx
}

/// Insert an id into an ascending list of ids.
fn insert_id_sorted(v: &mut Vec<String>, x: String)
    ensures
        ids_views(final(v)@) == insert_id(x@, ids_views(old(v)@)),
{
    let idx = find_insert_pos_id(v, &x);
    proof {
        lemma_insert_id_at(x@, ids_views(v@), idx as int);
    }
    let ghost before = ids_views(v@);
    v.insert(idx, x);
    proof {
        assert(ids_views(v@) =~= before.take(idx as int) + seq![x@] + before.skip(idx as int));
    }
}

proof fn lemma_insert_rv_at(x: ReadingDashboardContextV, s: Seq<ReadingDashboardContextV>, idx: int)
    requires
        0 <= idx <= s.len(),
        forall|m: int| 0 <= m < idx ==> !(x.timestamp > (#[trigger] s[m]).timestamp),
        idx < s.len() ==> x.timestamp > s[idx].timestamp,
    ensures
        insert_rv(x, s) == s.take(idx) + seq![x] + s.skip(idx),
    decreases idx,
{
    if idx == 0 {
        if s.len() == 0 {
            assert(insert_rv(x, s) =~= s.take(0) + seq![x] + s.skip(0));
        } else {
            assert(insert_rv(x, s) =~= s.take(0) + seq![x] + s.skip(0));
        }
    } else {
        assert(!(x.timestamp > s[0].timestamp));
        assert forall|m: int| 0 <= m < idx - 1 implies !(x.timestamp > (
        #[trigger] s.drop_first()[m]).timestamp) by {
            assert(s.drop_first()[m] == s[m + 1]);
        }
        assert(idx - 1 < s.drop_first().len() ==> x.timestamp > s.drop_first()[idx - 1].timestamp);
        lemma_insert_rv_at(x, s.drop_first(), idx - 1);
        assert(s.drop_first().take(idx - 1) =~= s.take(idx).drop_first());
        assert(s.drop_first().skip(idx - 1) =~= s.skip(idx));
        assert(insert_rv(x, s) =~= s.take(idx) + seq![x] + s.skip(idx));
    }
}

fn find_insert_pos_rv(v: &Vec<ReadingDashboardContext>, ts: i64) -> (idx: usize)
    ensures
        idx <= v@.len(),
        forall|m: int| 0 <= m < idx ==> !(ts > (#[trigger] rdc_views(v@)[m]).timestamp),
        idx < v@.len() ==> ts > rdc_views(v@)[idx as int].timestamp,
{
    let n = v.len();
    let mut idx: usize = 0;
    while idx < n
        invariant
            idx <= n,
            n == v@.len(),
            forall|m: int| 0 <= m < idx ==> !(ts > (#[trigger] rdc_views(v@)[m]).timestamp),
        decreases n - idx,
    {
        if ts > v[idx].timestamp {
            proof {
                assert(rdc_views(v@)[idx as int] == v@[idx as int]@);
            }
            return idx;
        }
        proof {
            assert(rdc_views(v@)[idx as int] == v@[idx as int]@);
        }
        idx += 1;
    }
    idx
}

/// Insert a presented reading into a newest-first list.
fn insert_reading_sorted(v: &mut Vec<ReadingDashboardContext>, x: ReadingDashboardContext)
    ensures
        rdc_views(final(v)@) == insert_rv(x@, rdc_views(old(v)@)),
{
    let idx = find_insert_pos_rv(v, x.timestamp);
    proof {
        lemma_insert_rv_at(x@, rdc_views(v@), idx as int);
    }
    let ghost before = rdc_views(v@);
    let ghost xv = x@;
    v.insert(idx, x);
    proof {
        assert(rdc_views(v@) =~= before.take(idx as int) + seq![xv] + before.skip(idx as int));
    }
}

// ---------------------------------------------------------------------------
// Exec: sensor ids
// ---------------------------------------------------------------------------

fn vec_contains_id(v: &Vec<String>, x: &String) -> (r: bool)
    ensures
        r == ids_views(v@).contains(x@),
{
    let n = v.len();
    let mut k: usize = 0;
    while k < n
        invariant
            k <= n,
            n == v@.len(),
            forall|m: int| 0 <= m < k ==> #[trigger] ids_views(v@)[m] != x@,
        decreases n - k,
    {
        if v[k] == *x {
            proof {
                assert(ids_views(v@)[k as int] == x@);
            }
            return true;
        }
        proof {
            assert(ids_views(v@)[k as int] == v@[k as int]@);
        }
        k += 1;
    }
    proof {
        if ids_views(v@).contains(x@) {
            let m = choose|m: int| 0 <= m < ids_views(v@).len() && ids_views(v@)[m] == x@;
            assert(ids_views(v@)[m] != x@);
        }
    }
    false
}

/// The distinct sensor ids among the stored readings, first occurrence
/// first.
fn distinct_sensor_ids(messages: &Vec<ReadingWrap>) -> (r: Vec<String>)
    ensures
        ids_views(r@) == distinct_ids(readings_view(messages@)),
{
    let mut out: Vec<String> = Vec::new();
    let n = messages.len();
    let mut k: usize = 0;
    proof {
        assert(readings_view(messages@).skip(0) =~= readings_view(messages@));
        assert(ids_views(out@) =~= Seq::<Seq<char>>::empty());
    }
    while k < n
        invariant
            k <= n,
            n == messages@.len(),
            distinct_ids(readings_view(messages@)) == collect_ids(
                readings_view(messages@).skip(k as int),
                ids_views(out@),
            ),
        decreases n - k,
    {
        let ghost rest = readings_view(messages@).skip(k as int);
        let ghost acc = ids_views(out@);
        proof {
            assert(rest.len() > 0);
            assert(rest[0] == readings_view(messages@)[k as int]);
            assert(rest[0] == messages@[k as int]@);
            assert(rest.drop_first() =~= readings_view(messages@).skip(k + 1));
        }
        let present = vec_contains_id(&out, &messages[k].reading.id);
        if !present {
            let ghost old_acc = ids_views(out@);
            out.push(messages[k].reading.id.clone());
            proof {
                assert(ids_views(out@) =~= old_acc.push(messages@[k as int]@.reading.id));
                assert(collect_ids(rest, acc) == collect_ids(rest.drop_first(), ids_views(out@)));
            }
        } else {
            proof {
                assert(collect_ids(rest, acc) == collect_ids(rest.drop_first(), acc));
            }
        }
        k += 1;
    }
    proof {
        assert(readings_view(messages@).skip(n as int) =~= Seq::<ReadingWrapV>::empty());
    }
    out
}

pub proof fn lemma_matched_len(annotations: Seq<AnnotationWrapV>, key: Seq<char>)
    ensures
        matched(annotations, key).len() <= annotations.len(),
    decreases annotations.len(),
{
    if annotations.len() == 0 {
    } else {
        lemma_matched_len(annotations.drop_first(), key);
    }
}

/// The rounded mean stays within the score ceiling, so it fits the machine.
proof fn lemma_avg_bound(sum: int, n: int)
    requires
        1 <= n,
        0 <= sum,
        sum <= n * score_ceil(),
    ensures
        0 <= avg_thousandths(sum, n) <= score_ceil(),
{
    let s = score_ceil();
    let d = 2 * n * 1000;
    let x = 2 * sum + n * 1000;
    let q = x / d;
    lemma_fundamental_div_mod(x, d);
    vstd::arithmetic::div_mod::lemma_mod_bound(x, d);
    assert(d * q <= x);
    assert(q >= 0) by {
        if q < 0 {
            assert(d * q <= d * -1) by (nonlinear_arith)
                requires
                    d > 0,
                    q <= -1,
            ;
        }
    }
    assert(x <= n * (2 * s + 1000)) by {
        assert(2 * (n * s) + n * 1000 == n * (2 * s + 1000)) by (nonlinear_arith);
    }
    assert(2000 * q <= 2 * s + 1000) by (nonlinear_arith)
        requires
            n >= 1,
            q >= 0,
            (2 * n * 1000) * q <= n * (2 * s + 1000),
    ;
    assert(q <= s);
}

/// Render the displayed mean confidence.
fn render_display(a: u64) -> (r: String)
    ensures
        r@ == display_of(a as int),
{
    let mut out = String::new();
    crate::json::enc_u64(&mut out, a / 10);
    let rem = a % 10;
    if rem != 0 {
        out.append(".");
        out.append(crate::json::digit_str(rem));
    }
    proof {
        reveal_strlit(".");
        assert(out@ =~= display_of(a as int));
    }
    out
}

/// Sort ids ascending by insertion.
fn sort_ids_exec(ids: Vec<String>) -> (r: Vec<String>)
    ensures
        ids_views(r@) == sort_ids(ids_views(ids@)),
{
    let mut out: Vec<String> = Vec::new();
    let n = ids.len();
    let mut k: usize = 0;
    let mut ids = ids;
    proof {
        assert(ids_views(ids@).take(0) =~= Seq::<Seq<char>>::empty());
        assert(sort_ids(Seq::<Seq<char>>::empty()) =~= Seq::<Seq<char>>::empty());
        assert(ids_views(out@) =~= Seq::<Seq<char>>::empty());
    }
    while k < n
        invariant
            k <= n,
            n == ids@.len(),
            ids_views(out@) == sort_ids(ids_views(ids@).take(k as int)),
        decreases n - k,
    {
        let ghost pre = ids_views(ids@).take(k as int);
        let ghost xv = ids@[k as int]@;
        let x = ids[k].clone();
        insert_id_sorted(&mut out, x);
        proof {
            let cur = ids_views(ids@).take(k + 1);
            assert(cur.drop_last() =~= pre);
            assert(cur.last() == xv);
            assert(sort_ids(cur) == insert_id(xv, sort_ids(pre)));
        }
        k += 1;
    }
    proof {
        assert(ids_views(ids@).take(n as int) =~= ids_views(ids@));
    }
    out
}

// ---------------------------------------------------------------------------
// Exec: per-sensor and whole-board assembly
// ---------------------------------------------------------------------------

/// Sort presented readings newest first, stably, by insertion.
fn sort_views(v: Vec<ReadingDashboardContext>) -> (r: Vec<ReadingDashboardContext>)
    ensures
        rdc_views(r@) == sort_rvs(rdc_views(v@)),
    decreases v@.len(),
{
    let mut v = v;
    let ghost v0 = rdc_views(v@);
    if v.len() == 0 {
        proof {
            assert(sort_rvs(v0) =~= Seq::<ReadingDashboardContextV>::empty());
            assert(rdc_views(v@) =~= Seq::<ReadingDashboardContextV>::empty());
        }
        return v;
    }
    let x = match v.pop() {
        Some(x) => x,
        None => {
            proof {
                assert(false);
            }
            return v;
        },
    };
    proof {
        assert(x@ == v0.last());
        assert(rdc_views(v@) =~= v0.drop_last());
    }
    let mut sorted = sort_views(v);
    insert_reading_sorted(&mut sorted, x);
    proof {
        assert(sort_rvs(v0) == insert_rv(v0.last(), sort_rvs(v0.drop_last())));
    }
    sorted
}

/// Present one sensor: select its readings, score each against the stored
/// annotations, sort newest first, cap the list, and attach count and
/// displayed mean (computed over all its readings, before the cap).
fn build_sensor_view(
    messages: &Vec<ReadingWrap>,
    annotations: &Vec<AnnotationWrap>,
    sensor: &String,
) -> (r: SensorDashboardContext)
    requires
        messages@.len() <= 0xffff_ffff,
        annotations@.len() <= 0xffff_ffff,
    ensures
        r@ == spec_sensor_view(readings_view(messages@), ann_wraps_view(annotations@), sensor@),
{
    let ghost rsv = readings_view(messages@);
    let ghost annsv = ann_wraps_view(annotations@);
    let mut views: Vec<ReadingDashboardContext> = Vec::new();
    let mut total: usize = 0;
    let mut sum: u128 = 0;
    let n = messages.len();
    let mut k: usize = 0;
    proof {
        assert(rsv.take(0) =~= Seq::<ReadingWrapV>::empty());
        assert(of_sensor(Seq::<ReadingWrapV>::empty(), sensor@) =~= Seq::<ReadingWrapV>::empty());
        assert(views_of_sel(Seq::<ReadingWrapV>::empty(), annsv) =~= Seq::<
            ReadingDashboardContextV,
        >::empty());
        assert(rdc_views(views@) =~= Seq::<ReadingDashboardContextV>::empty());
    }
    while k < n
        invariant
            k <= n,
            n == messages@.len(),
            n <= 0xffff_ffff,
            annotations@.len() <= 0xffff_ffff,
            rsv == readings_view(messages@),
            annsv == ann_wraps_view(annotations@),
            rdc_views(views@) == views_of_sel(of_sensor(rsv.take(k as int), sensor@), annsv),
            total == of_sensor(rsv.take(k as int), sensor@).len(),
            total <= k,
            sum as int == sum_scores(rdc_views(views@)),
            sum as int <= (total as int) * score_ceil(),
        decreases n - k,
    {
        let ghost pre = of_sensor(rsv.take(k as int), sensor@);
        proof {
            assert(rsv.take(k + 1) =~= rsv.take(k as int).push(rsv[k as int]));
            lemma_of_sensor_push(rsv.take(k as int), rsv[k as int], sensor@);
            assert(rsv[k as int] == messages@[k as int]@);
        }
        if messages[k].reading.id == *sensor {
            let rv = build_reading_view(&messages[k], annotations);
            let ghost old_views = rdc_views(views@);
            let ghost old_total = total as int;
            let ghost rvv = rv@;
            let sc = rv.score;
            proof {
                lemma_matched_len(annsv, rsv[k as int].id);
                lemma_score_bounds(matched(annsv, rsv[k as int].id));
                assert((matched(annsv, rsv[k as int].id).len() as int) * (WEIGHT_THRESHOLD as int)
                    <= 0x1_0000_0000 * (WEIGHT_THRESHOLD as int)) by (nonlinear_arith)
                    requires
                        matched(annsv, rsv[k as int].id).len() <= 0x1_0000_0000,
                ;
                assert(sc as int <= score_ceil());
                assert(old_total * score_ceil() + score_ceil() == (old_total + 1) * score_ceil())
                    by (nonlinear_arith);
                assert((old_total + 1) * score_ceil() <= 0x1_0000_0000 * score_ceil())
                    by (nonlinear_arith)
                    requires
                        0 <= old_total + 1 <= 0x1_0000_0000,
                ;
            }
            views.push(rv);
            total = total + 1;
            sum = sum + sc as u128;
            proof {
                assert(rdc_views(views@) =~= old_views.push(rvv));
                lemma_sum_scores_push(old_views, rvv);
                assert(views_of_sel(pre.push(rsv[k as int]), annsv) =~= views_of_sel(
                    pre,
                    annsv,
                ).push(spec_reading_view(rsv[k as int], annsv)));
                assert(of_sensor(rsv.take(k + 1), sensor@) =~= pre.push(rsv[k as int]));
            }
        } else {
            proof {
                assert(of_sensor(rsv.take(k + 1), sensor@) =~= pre);
            }
        }
        k += 1;
    }
    proof {
        assert(rsv.take(n as int) =~= rsv);
    }
    let ghost sel = of_sensor(rsv, sensor@);
    let ghost allviews = views_of_sel(sel, annsv);
    let ghost total_sum = sum as int;
    let mut sorted = sort_views(views);
    let ghost sortedall = sort_rvs(allviews);
    while sorted.len() > SHOWN_READINGS_CAP
        invariant
            sorted@.len() <= sortedall.len(),
            sorted@.len() == sortedall.len() || sorted@.len() >= SHOWN_READINGS_CAP,
            rdc_views(sorted@) == sortedall.take(sorted@.len() as int),
        decreases sorted@.len(),
    {
        let ghost before = rdc_views(sorted@);
        sorted.pop();
        proof {
            assert(rdc_views(sorted@) =~= before.drop_last());
            assert(before.drop_last() =~= sortedall.take(sorted@.len() as int));
        }
    }
    proof {
        if sorted@.len() == sortedall.len() {
            assert(sortedall.take(sorted@.len() as int) =~= sortedall);
            if sortedall.len() > SHOWN_READINGS_CAP {
                assert(false);
            }
            assert(rdc_views(sorted@) == capped(sortedall));
        } else {
            assert(sorted@.len() == SHOWN_READINGS_CAP);
            assert(sortedall.len() > SHOWN_READINGS_CAP);
            assert(rdc_views(sorted@) == capped(sortedall));
        }
    }
    let avg3: u64 = if total == 0 {
        0
    } else {
        proof {
            assert(0x1_0000_0000 * score_ceil() < 0x4000_0000_0000_0000_0000_0000)
                by (nonlinear_arith);
            assert((total as int) * score_ceil() <= 0x1_0000_0000 * score_ceil())
                by (nonlinear_arith)
                requires
                    0 <= total as int <= 0x1_0000_0000,
            ;
            lemma_avg_bound(total_sum, total as int);
        }
        let d: u128 = 2 * (total as u128) * 1000;
        let x: u128 = 2 * sum + (total as u128) * 1000;
        let q: u128 = x / d;
        proof {
            assert(q as int == avg_thousandths(total_sum, total as int));
            assert(q <= score_ceil() as u128);
        }
        q as u64
    };
    let avgcf = render_display(avg3);
    let r = SensorDashboardContext { id: sensor.clone(), total, avgcf, readings: sorted };
    proof {
        assert(total as int == sel.len());
        assert(avg3 as int == avg_thousandths(sum_scores(allviews), sel.len() as int));
        assert(r@ == spec_sensor_view(rsv, annsv, sensor@));
    }
    r
}

impl DashboardContext {
    /// Build the whole presentation from the stored readings and
    /// annotations: one entry per distinct sensor id, ascending.
    pub fn new(messages: Vec<ReadingWrap>, annotations: Vec<AnnotationWrap>) -> (r:
        DashboardContext)
        requires
            messages@.len() <= 0xffff_ffff,
            annotations@.len() <= 0xffff_ffff,
        ensures
            r@ == spec_dashboard(readings_view(messages@), ann_wraps_view(annotations@)),
    {
        let ghost rsv = readings_view(messages@);
        let ghost annsv = ann_wraps_view(annotations@);
        let ids = distinct_sensor_ids(&messages);
        let ids = sort_ids_exec(ids);
        let mut sensors: Vec<SensorDashboardContext> = Vec::new();
        let n = ids.len();
        let mut k: usize = 0;
        while k < n
            invariant
                k <= n,
                n == ids@.len(),
                messages@.len() <= 0xffff_ffff,
                annotations@.len() <= 0xffff_ffff,
                rsv == readings_view(messages@),
                annsv == ann_wraps_view(annotations@),
                ids_views(ids@) == sort_ids(distinct_ids(rsv)),
                sensors@.len() == k,
                forall|m: int| 0 <= m < k ==> (#[trigger] sensors@[m])@ == spec_sensor_view(
                    rsv,
                    annsv,
                    ids_views(ids@)[m],
                ),
            decreases n - k,
        {
            let sv = build_sensor_view(&messages, &annotations, &ids[k]);
            proof {
                assert(ids_views(ids@)[k as int] == ids@[k as int]@);
            }
            sensors.push(sv);
            k += 1;
        }
        let r = DashboardContext { sensors };
        proof {
            assert(r@.sensors =~= sort_ids(distinct_ids(rsv)).map_values(
                |sensor: Seq<char>| spec_sensor_view(rsv, annsv, sensor),
            ));
        }
        r
    }
}

// ---------------------------------------------------------------------------
// Laws of the aggregator
// ---------------------------------------------------------------------------

/// A sensor with no stored readings reports a zero count and a zero mean,
/// not a failure.
pub proof fn lemma_sensor_without_readings(
    rs: Seq<ReadingWrapV>,
    annotations: Seq<AnnotationWrapV>,
    sensor: Seq<char>,
)
    requires
        of_sensor(rs, sensor).len() == 0,
    ensures
        spec_sensor_view(rs, annotations, sensor).total == 0,
        spec_sensor_view(rs, annotations, sensor).avgcf == seq!['0'],
        spec_sensor_view(rs, annotations, sensor).readings.len() == 0,
{
    let sel = of_sensor(rs, sensor);
    assert(views_of_sel(sel, annotations) =~= Seq::<ReadingDashboardContextV>::empty());
    assert(sort_rvs(Seq::<ReadingDashboardContextV>::empty()) =~= Seq::<
        ReadingDashboardContextV,
    >::empty());
    assert(display_of(0) =~= seq!['0']);
}

} // verus!
