//! Wire and snapshot codecs for the data model.
//!
//! Every type is written in one canonical JSON shape (`*_json`) and read
//! back by a spec parser (`sp_*`). The exec functions implement both and are
//! proved to match; the `lemma_*_at` lemmas prove that parsing an encoding
//! yields the encoded value, which is what classification and persistence
//! round trips rest on.

use vstd::prelude::*;
use vstd::string::StrSliceExecFns;
use vstd::string::StringExecFns;
use crate::data::{
    Annotation, AnnotationList, AnnotationListV, AnnotationV, AnnotationWrap, AnnotationWrapV,
    MessageWrapper, MessageWrapperV, ReadingWrap, ReadingWrapV, SensorReading, SensorReadingV,
    Signable, SignableV, anns_view, ann_wraps_view, readings_view,
};
use crate::json::{
    bool_json, dec_i64, dec_nat, enc_bool, enc_i64, enc_json_string, enc_u64, json_string,
    lemma_sp_bool_at, lemma_sp_i64_at, lemma_sp_lit_pos, lemma_sp_number_at, lemma_sp_string_at,
    lemma_subrange_part, match_lit, parse_bool_at, parse_i64_at, parse_number_max,
    parse_string_at, sp_bool, sp_i64, sp_lit, sp_number_max, sp_string,
};

verus! {

// ---------------------------------------------------------------------------
// SensorReading
// ---------------------------------------------------------------------------

pub open spec fn reading_json(v: SensorReadingV) -> Seq<char> {
    "{\"id\":"@ + json_string(v.id) + ",\"value\":"@ + dec_nat(v.value as nat) + ",\"timestamp\":"@
        + dec_i64(v.timestamp as int) + "}"@
}

pub open spec fn sp_reading(s: Seq<char>, i: int) -> Option<(SensorReadingV, int)> {
    match sp_lit(s, i, "{\"id\":"@) {
        Some(i1) => match sp_string(s, i1) {
            Some(r1) => match sp_lit(s, r1.1, ",\"value\":"@) {
                Some(i2) => match sp_number_max(s, i2, 255) {
                    Some(r2) => match sp_lit(s, r2.1, ",\"timestamp\":"@) {
                        Some(i3) => match sp_i64(s, i3) {
                            Some(r3) => match sp_lit(s, r3.1, "}"@) {
                                Some(i4) => Some(
                                    (
                                        SensorReadingV {
                                            id: r1.0,
                                            value: r2.0 as u8,
                                            timestamp: r3.0 as i64,
                                        },
                                        i4,
                                    ),
                                ),
                                None => None,
                            },
                            None => None,
                        },
                        None => None,
                    },
                    None => None,
                },
                None => None,
            },
            None => None,
        },
        None => None,
    }
}

/// A whole text decodes as a reading only if the parse consumes all of it.
pub open spec fn parse_reading_spec(s: Seq<char>) -> Option<SensorReadingV> {
    match sp_reading(s, 0) {
        Some(r) => if r.1 == s.len() {
            Some(r.0)
        } else {
            None
        },
        None => None,
    }
}

pub fn parse_reading_at(s: &str, i: usize) -> (r: Option<(SensorReading, usize)>)
    requires
        i <= s@.len(),
    ensures
        match r {
            Some(t) => sp_reading(s@, i as int) == Some((t.0@, t.1 as int)) && i < t.1 <= s@.len(),
            None => sp_reading(s@, i as int) is None,
        },
{
    let i1 = match match_lit(s, i, "{\"id\":") {
        Some(j) => j,
        None => {
            return None;
        },
    };
    let (id, i2) = match parse_string_at(s, i1) {
        Some(t) => t,
        None => {
            return None;
        },
    };
    let i3 = match match_lit(s, i2, ",\"value\":") {
        Some(j) => j,
        None => {
            return None;
        },
    };
    let (value, i4) = match parse_number_max(s, i3, 255) {
        Some(t) => t,
        None => {
            return None;
        },
    };
    let i5 = match match_lit(s, i4, ",\"timestamp\":") {
        Some(j) => j,
        None => {
            return None;
        },
    };
    let (ts, i6) = match parse_i64_at(s, i5) {
        Some(t) => t,
        None => {
            return None;
        },
    };
    let i7 = match match_lit(s, i6, "}") {
        Some(j) => j,
        None => {
            return None;
        },
    };
    Some((SensorReading { id, value: value as u8, timestamp: ts }, i7))
}

pub fn decode_reading(s: &str) -> (r: Option<SensorReading>)
    ensures
        match r {
            Some(v) => parse_reading_spec(s@) == Some(v@),
            None => parse_reading_spec(s@) is None,
        },
{
    let n = s.unicode_len();
    match parse_reading_at(s, 0) {
        Some((v, j)) => if j == n {
            Some(v)
        } else {
            None
        },
        None => None,
    }
}

pub fn enc_reading(out: &mut String, v: &SensorReading)
    ensures
        final(out)@ == old(out)@ + reading_json(v@),
{
    out.append("{\"id\":");
    enc_json_string(out, v.id.as_str());
    out.append(",\"value\":");
    enc_u64(out, v.value as u64);
    out.append(",\"timestamp\":");
    enc_i64(out, v.timestamp);
    out.append("}");
    proof {
        assert(out@ =~= old(out)@ + reading_json(v@));
    }
}

pub fn encode_reading(v: &SensorReading) -> (out: String)
    ensures
        out@ == reading_json(v@),
{
    let mut out = String::new();
    enc_reading(&mut out, v);
    proof {
        assert(out@ =~= reading_json(v@));
    }
    out
}

/// Parsing an encoded reading at its position yields the reading.
pub proof fn lemma_sp_reading_at(s: Seq<char>, i: int, v: SensorReadingV)
    requires
        0 <= i,
        i + reading_json(v).len() <= s.len(),
        s.subrange(i, i + reading_json(v).len() as int) == reading_json(v),
    ensures
        sp_reading(s, i) == Some((v, i + reading_json(v).len() as int)),
{
    reveal_strlit("{\"id\":");
    reveal_strlit(",\"value\":");
    reveal_strlit(",\"timestamp\":");
    reveal_strlit("}");
    let w = reading_json(v);
    let p1 = "{\"id\":"@;
    let p2 = json_string(v.id);
    let p3 = ",\"value\":"@;
    let p4 = dec_nat(v.value as nat);
    let p5 = ",\"timestamp\":"@;
    let p6 = dec_i64(v.timestamp as int);
    let p7 = "}"@;
    let o1 = p1.len() as int;
    let o2 = o1 + p2.len();
    let o3 = o2 + p3.len();
    let o4 = o3 + p4.len();
    let o5 = o4 + p5.len();
    let o6 = o5 + p6.len();
    assert forall|k: int| 0 <= k < w.len() implies s[i + k] == w[k] by {
        assert(s.subrange(i, i + w.len() as int)[k] == w[k]);
    }
    assert(w.subrange(0, o1) =~= p1);
    lemma_subrange_part(s, i, w, 0, p1);
    lemma_sp_lit_pos(s, i, p1);
    assert(w.subrange(o1, o2) =~= p2);
    lemma_subrange_part(s, i, w, o1, p2);
    lemma_sp_string_at(s, i + o1, v.id);
    assert(w.subrange(o2, o3) =~= p3);
    lemma_subrange_part(s, i, w, o2, p3);
    lemma_sp_lit_pos(s, i + o2, p3);
    assert(w.subrange(o3, o4) =~= p4);
    lemma_subrange_part(s, i, w, o3, p4);
    assert(w[o4] == ',');
    lemma_sp_number_at(s, i + o3, v.value as nat);
    assert(w.subrange(o4, o5) =~= p5);
    lemma_subrange_part(s, i, w, o4, p5);
    lemma_sp_lit_pos(s, i + o4, p5);
    assert(w.subrange(o5, o6) =~= p6);
    lemma_subrange_part(s, i, w, o5, p6);
    assert(w[o6] == '}');
    lemma_sp_i64_at(s, i + o5, v.timestamp as int);
    assert(w.subrange(o6, o6 + 1) =~= p7);
    lemma_subrange_part(s, i, w, o6, p7);
    lemma_sp_lit_pos(s, i + o6, p7);
    assert(v == SensorReadingV {
        id: v.id,
        value: (v.value as nat) as u8,
        timestamp: (v.timestamp as int) as i64,
    });
}

/// Encode-then-decode returns the original reading.
pub proof fn lemma_reading_round_trip(v: SensorReadingV)
    ensures
        parse_reading_spec(reading_json(v)) == Some(v),
{
    let w = reading_json(v);
    assert(w.subrange(0, w.len() as int) =~= w);
    lemma_sp_reading_at(w, 0, v);
}

// ---------------------------------------------------------------------------
// Signable
// ---------------------------------------------------------------------------

pub open spec fn signable_json(v: SignableV) -> Seq<char> {
    "{\"seed\":"@ + json_string(v.seed) + ",\"signature\":"@ + json_string(v.signature) + "}"@
}

pub open spec fn sp_signable(s: Seq<char>, i: int) -> Option<(SignableV, int)> {
    match sp_lit(s, i, "{\"seed\":"@) {
        Some(i1) => match sp_string(s, i1) {
            Some(r1) => match sp_lit(s, r1.1, ",\"signature\":"@) {
                Some(i2) => match sp_string(s, i2) {
                    Some(r2) => match sp_lit(s, r2.1, "}"@) {
                        Some(i3) => Some((SignableV { seed: r1.0, signature: r2.0 }, i3)),
                        None => None,
                    },
                    None => None,
                },
                None => None,
            },
            None => None,
        },
        None => None,
    }
}

pub open spec fn parse_signable_spec(s: Seq<char>) -> Option<SignableV> {
    match sp_signable(s, 0) {
        Some(r) => if r.1 == s.len() {
            Some(r.0)
        } else {
            None
        },
        None => None,
    }
}

pub fn parse_signable_at(s: &str, i: usize) -> (r: Option<(Signable, usize)>)
    requires
        i <= s@.len(),
    ensures
        match r {
            Some(t) => sp_signable(s@, i as int) == Some((t.0@, t.1 as int)) && i < t.1
                <= s@.len(),
            None => sp_signable(s@, i as int) is None,
        },
{
    let i1 = match match_lit(s, i, "{\"seed\":") {
        Some(j) => j,
        None => {
            return None;
        },
    };
    let (seed, i2) = match parse_string_at(s, i1) {
        Some(t) => t,
        None => {
            return None;
        },
    };
    let i3 = match match_lit(s, i2, ",\"signature\":") {
        Some(j) => j,
        None => {
            return None;
        },
    };
    let (signature, i4) = match parse_string_at(s, i3) {
        Some(t) => t,
        None => {
            return None;
        },
    };
    let i5 = match match_lit(s, i4, "}") {
        Some(j) => j,
        None => {
            return None;
        },
    };
    Some((Signable { seed, signature }, i5))
}

pub fn decode_signable(s: &str) -> (r: Option<Signable>)
    ensures
        match r {
            Some(v) => parse_signable_spec(s@) == Some(v@),
            None => parse_signable_spec(s@) is None,
        },
{
    let n = s.unicode_len();
    match parse_signable_at(s, 0) {
        Some((v, j)) => if j == n {
            Some(v)
        } else {
            None
        },
        None => None,
    }
}

pub fn enc_signable(out: &mut String, v: &Signable)
    ensures
        final(out)@ == old(out)@ + signable_json(v@),
{
    out.append("{\"seed\":");
    enc_json_string(out, v.seed.as_str());
    out.append(",\"signature\":");
    enc_json_string(out, v.signature.as_str());
    out.append("}");
    proof {
        assert(out@ =~= old(out)@ + signable_json(v@));
    }
}

pub fn encode_signable(v: &Signable) -> (out: String)
    ensures
        out@ == signable_json(v@),
{
    let mut out = String::new();
    enc_signable(&mut out, v);
    proof {
        assert(out@ =~= signable_json(v@));
    }
    out
}

pub proof fn lemma_sp_signable_at(s: Seq<char>, i: int, v: SignableV)
    requires
        0 <= i,
        i + signable_json(v).len() <= s.len(),
        s.subrange(i, i + signable_json(v).len() as int) == signable_json(v),
    ensures
        sp_signable(s, i) == Some((v, i + signable_json(v).len() as int)),
{
    let w = signable_json(v);
    let p1 = "{\"seed\":"@;
    let p2 = json_string(v.seed);
    let p3 = ",\"signature\":"@;
    let p4 = json_string(v.signature);
    let p5 = "}"@;
    let o1 = p1.len() as int;
    let o2 = o1 + p2.len();
    let o3 = o2 + p3.len();
    let o4 = o3 + p4.len();
    assert(w.subrange(0, o1) =~= p1);
    lemma_subrange_part(s, i, w, 0, p1);
    lemma_sp_lit_pos(s, i, p1);
    assert(w.subrange(o1, o2) =~= p2);
    lemma_subrange_part(s, i, w, o1, p2);
    lemma_sp_string_at(s, i + o1, v.seed);
    assert(w.subrange(o2, o3) =~= p3);
    lemma_subrange_part(s, i, w, o2, p3);
    lemma_sp_lit_pos(s, i + o2, p3);
    assert(w.subrange(o3, o4) =~= p4);
    lemma_subrange_part(s, i, w, o3, p4);
    lemma_sp_string_at(s, i + o3, v.signature);
    assert(w.subrange(o4, o4 + p5.len() as int) =~= p5);
    lemma_subrange_part(s, i, w, o4, p5);
    lemma_sp_lit_pos(s, i + o4, p5);
    assert(v == SignableV { seed: v.seed, signature: v.signature });
}

pub proof fn lemma_signable_round_trip(v: SignableV)
    ensures
        parse_signable_spec(signable_json(v)) == Some(v),
{
    let w = signable_json(v);
    assert(w.subrange(0, w.len() as int) =~= w);
    lemma_sp_signable_at(w, 0, v);
}

// ---------------------------------------------------------------------------
// MessageWrapper
// ---------------------------------------------------------------------------

pub open spec fn wrapper_json(v: MessageWrapperV) -> Seq<char> {
    "{\"content\":"@ + json_string(v.content) + "}"@
}

pub open spec fn sp_wrapper(s: Seq<char>, i: int) -> Option<(MessageWrapperV, int)> {
    match sp_lit(s, i, "{\"content\":"@) {
        Some(i1) => match sp_string(s, i1) {
            Some(r1) => match sp_lit(s, r1.1, "}"@) {
                Some(i2) => Some((MessageWrapperV { content: r1.0 }, i2)),
                None => None,
            },
            None => None,
        },
        None => None,
    }
}

pub open spec fn parse_wrapper_spec(s: Seq<char>) -> Option<MessageWrapperV> {
    match sp_wrapper(s, 0) {
        Some(r) => if r.1 == s.len() {
            Some(r.0)
        } else {
            None
        },
        None => None,
    }
}

pub fn parse_wrapper_at(s: &str, i: usize) -> (r: Option<(MessageWrapper, usize)>)
    requires
        i <= s@.len(),
    ensures
        match r {
            Some(t) => sp_wrapper(s@, i as int) == Some((t.0@, t.1 as int)) && i < t.1
                <= s@.len(),
            None => sp_wrapper(s@, i as int) is None,
        },
{
    let i1 = match match_lit(s, i, "{\"content\":") {
        Some(j) => j,
        None => {
            return None;
        },
    };
    let (content, i2) = match parse_string_at(s, i1) {
        Some(t) => t,
        None => {
            return None;
        },
    };
    let i3 = match match_lit(s, i2, "}") {
        Some(j) => j,
        None => {
            return None;
        },
    };
    Some((MessageWrapper { content }, i3))
}

pub fn decode_wrapper(s: &str) -> (r: Option<MessageWrapper>)
    ensures
        match r {
            Some(v) => parse_wrapper_spec(s@) == Some(v@),
            None => parse_wrapper_spec(s@) is None,
        },
{
    let n = s.unicode_len();
    match parse_wrapper_at(s, 0) {
        Some((v, j)) => if j == n {
            Some(v)
        } else {
            None
        },
        None => None,
    }
}

pub fn enc_wrapper(out: &mut String, v: &MessageWrapper)
    ensures
        final(out)@ == old(out)@ + wrapper_json(v@),
{
    out.append("{\"content\":");
    enc_json_string(out, v.content.as_str());
    out.append("}");
    proof {
        assert(out@ =~= old(out)@ + wrapper_json(v@));
    }
}

pub fn encode_wrapper(v: &MessageWrapper) -> (out: String)
    ensures
        out@ == wrapper_json(v@),
{
    let mut out = String::new();
    enc_wrapper(&mut out, v);
    proof {
        assert(out@ =~= wrapper_json(v@));
    }
    out
}

pub proof fn lemma_sp_wrapper_at(s: Seq<char>, i: int, v: MessageWrapperV)
    requires
        0 <= i,
        i + wrapper_json(v).len() <= s.len(),
        s.subrange(i, i + wrapper_json(v).len() as int) == wrapper_json(v),
    ensures
        sp_wrapper(s, i) == Some((v, i + wrapper_json(v).len() as int)),
{
    let w = wrapper_json(v);
    let p1 = "{\"content\":"@;
    let p2 = json_string(v.content);
    let p3 = "}"@;
    let o1 = p1.len() as int;
    let o2 = o1 + p2.len();
    assert(w.subrange(0, o1) =~= p1);
    lemma_subrange_part(s, i, w, 0, p1);
    lemma_sp_lit_pos(s, i, p1);
    assert(w.subrange(o1, o2) =~= p2);
    lemma_subrange_part(s, i, w, o1, p2);
    lemma_sp_string_at(s, i + o1, v.content);
    assert(w.subrange(o2, o2 + p3.len() as int) =~= p3);
    lemma_subrange_part(s, i, w, o2, p3);
    lemma_sp_lit_pos(s, i + o2, p3);
    assert(v == MessageWrapperV { content: v.content });
}

pub proof fn lemma_wrapper_round_trip(v: MessageWrapperV)
    ensures
        parse_wrapper_spec(wrapper_json(v)) == Some(v),
{
    let w = wrapper_json(v);
    assert(w.subrange(0, w.len() as int) =~= w);
    lemma_sp_wrapper_at(w, 0, v);
}

// ---------------------------------------------------------------------------
// Annotation
// ---------------------------------------------------------------------------

pub open spec fn annotation_json(v: AnnotationV) -> Seq<char> {
    "{\"key\":"@ + json_string(v.key) + ",\"hash_algorithm\":"@ + json_string(v.hash_algorithm)
        + ",\"host\":"@ + json_string(v.host) + ",\"kind\":"@ + json_string(v.kind)
        + ",\"is_satisfied\":"@ + bool_json(v.is_satisfied) + ",\"signature\":"@ + json_string(
        v.signature,
    ) + "}"@
}

pub open spec fn sp_annotation(s: Seq<char>, i: int) -> Option<(AnnotationV, int)> {
    match sp_lit(s, i, "{\"key\":"@) {
        Some(i1) => match sp_string(s, i1) {
            Some(r1) => match sp_lit(s, r1.1, ",\"hash_algorithm\":"@) {
                Some(i2) => match sp_string(s, i2) {
                    Some(r2) => match sp_lit(s, r2.1, ",\"host\":"@) {
                        Some(i3) => match sp_string(s, i3) {
                            Some(r3) => match sp_lit(s, r3.1, ",\"kind\":"@) {
                                Some(i4) => match sp_string(s, i4) {
                                    Some(r4) => match sp_lit(s, r4.1, ",\"is_satisfied\":"@) {
                                        Some(i5) => match sp_bool(s, i5) {
                                            Some(r5) => match sp_lit(
                                                s,
                                                r5.1,
                                                ",\"signature\":"@,
                                            ) {
                                                Some(i6) => match sp_string(s, i6) {
                                                    Some(r6) => match sp_lit(s, r6.1, "}"@) {
                                                        Some(i7) => Some(
                                                            (
                                                                AnnotationV {
                                                                    key: r1.0,
                                                                    hash_algorithm: r2.0,
                                                                    host: r3.0,
                                                                    kind: r4.0,
                                                                    is_satisfied: r5.0,
                                                                    signature: r6.0,
                                                                },
                                                                i7,
                                                            ),
                                                        ),
                                                        None => None,
                                                    },
                                                    None => None,
                                                },
                                                None => None,
                                            },
                                            None => None,
                                        },
                                        None => None,
                                    },
                                    None => None,
                                },
                                None => None,
                            },
                            None => None,
                        },
                        None => None,
                    },
                    None => None,
                },
                None => None,
            },
            None => None,
        },
        None => None,
    }
}

pub open spec fn parse_annotation_spec(s: Seq<char>) -> Option<AnnotationV> {
    match sp_annotation(s, 0) {
        Some(r) => if r.1 == s.len() {
            Some(r.0)
        } else {
            None
        },
        None => None,
    }
}

pub fn parse_annotation_at(s: &str, i: usize) -> (r: Option<(Annotation, usize)>)
    requires
        i <= s@.len(),
    ensures
        match r {
            Some(t) => sp_annotation(s@, i as int) == Some((t.0@, t.1 as int)) && i < t.1
                <= s@.len(),
            None => sp_annotation(s@, i as int) is None,
        },
{
    let i1 = match match_lit(s, i, "{\"key\":") {
        Some(j) => j,
        None => {
            return None;
        },
    };
    let (key, i2) = match parse_string_at(s, i1) {
        Some(t) => t,
        None => {
            return None;
        },
    };
    let i3 = match match_lit(s, i2, ",\"hash_algorithm\":") {
        Some(j) => j,
        None => {
            return None;
        },
    };
    let (hash_algorithm, i4) = match parse_string_at(s, i3) {
        Some(t) => t,
        None => {
            return None;
        },
    };
    let i5 = match match_lit(s, i4, ",\"host\":") {
        Some(j) => j,
        None => {
            return None;
        },
    };
    let (host, i6) = match parse_string_at(s, i5) {
        Some(t) => t,
        None => {
            return None;
        },
    };
    let i7 = match match_lit(s, i6, ",\"kind\":") {
        Some(j) => j,
        None => {
            return None;
        },
    };
    let (kind, i8) = match parse_string_at(s, i7) {
        Some(t) => t,
        None => {
            return None;
        },
    };
    let i9 = match match_lit(s, i8, ",\"is_satisfied\":") {
        Some(j) => j,
        None => {
            return None;
        },
    };
    let (is_satisfied, i10) = match parse_bool_at(s, i9) {
        Some(t) => t,
        None => {
            return None;
        },
    };
    let i11 = match match_lit(s, i10, ",\"signature\":") {
        Some(j) => j,
        None => {
            return None;
        },
    };
    let (signature, i12) = match parse_string_at(s, i11) {
        Some(t) => t,
        None => {
            return None;
        },
    };
    let i13 = match match_lit(s, i12, "}") {
        Some(j) => j,
        None => {
            return None;
        },
    };
    Some((Annotation { key, hash_algorithm, host, kind, is_satisfied, signature }, i13))
}

pub fn decode_annotation(s: &str) -> (r: Option<Annotation>)
    ensures
        match r {
            Some(v) => parse_annotation_spec(s@) == Some(v@),
            None => parse_annotation_spec(s@) is None,
        },
{
    let n = s.unicode_len();
    match parse_annotation_at(s, 0) {
        Some((v, j)) => if j == n {
            Some(v)
        } else {
            None
        },
        None => None,
    }
}

pub fn enc_annotation(out: &mut String, v: &Annotation)
    ensures
        final(out)@ == old(out)@ + annotation_json(v@),
{
    out.append("{\"key\":");
    enc_json_string(out, v.key.as_str());
    out.append(",\"hash_algorithm\":");
    enc_json_string(out, v.hash_algorithm.as_str());
    out.append(",\"host\":");
    enc_json_string(out, v.host.as_str());
    out.append(",\"kind\":");
    enc_json_string(out, v.kind.as_str());
    out.append(",\"is_satisfied\":");
    enc_bool(out, v.is_satisfied);
    out.append(",\"signature\":");
    enc_json_string(out, v.signature.as_str());
    out.append("}");
    proof {
        assert(out@ =~= old(out)@ + annotation_json(v@));
    }
}

pub fn encode_annotation(v: &Annotation) -> (out: String)
    ensures
        out@ == annotation_json(v@),
{
    let mut out = String::new();
    enc_annotation(&mut out, v);
    proof {
        assert(out@ =~= annotation_json(v@));
    }
    out
}

#[verifier::rlimit(80)]
#[verifier::spinoff_prover]
pub proof fn lemma_sp_annotation_at(s: Seq<char>, i: int, v: AnnotationV)
    requires
        0 <= i,
        i + annotation_json(v).len() <= s.len(),
        s.subrange(i, i + annotation_json(v).len() as int) == annotation_json(v),
    ensures
        sp_annotation(s, i) == Some((v, i + annotation_json(v).len() as int)),
{
    let w = annotation_json(v);
    let p1 = "{\"key\":"@;
    let p2 = json_string(v.key);
    let p3 = ",\"hash_algorithm\":"@;
    let p4 = json_string(v.hash_algorithm);
    let p5 = ",\"host\":"@;
    let p6 = json_string(v.host);
    let p7 = ",\"kind\":"@;
    let p8 = json_string(v.kind);
    let p9 = ",\"is_satisfied\":"@;
    let p10 = bool_json(v.is_satisfied);
    let p11 = ",\"signature\":"@;
    let p12 = json_string(v.signature);
    let p13 = "}"@;
    let o1 = p1.len() as int;
    let o2 = o1 + p2.len();
    let o3 = o2 + p3.len();
    let o4 = o3 + p4.len();
    let o5 = o4 + p5.len();
    let o6 = o5 + p6.len();
    let o7 = o6 + p7.len();
    let o8 = o7 + p8.len();
    let o9 = o8 + p9.len();
    let o10 = o9 + p10.len();
    let o11 = o10 + p11.len();
    let o12 = o11 + p12.len();
    assert(w.subrange(0, o1) =~= p1);
    lemma_subrange_part(s, i, w, 0, p1);
    lemma_sp_lit_pos(s, i, p1);
    assert(w.subrange(o1, o2) =~= p2);
    lemma_subrange_part(s, i, w, o1, p2);
    lemma_sp_string_at(s, i + o1, v.key);
    assert(w.subrange(o2, o3) =~= p3);
    lemma_subrange_part(s, i, w, o2, p3);
    lemma_sp_lit_pos(s, i + o2, p3);
    assert(w.subrange(o3, o4) =~= p4);
    lemma_subrange_part(s, i, w, o3, p4);
    lemma_sp_string_at(s, i + o3, v.hash_algorithm);
    assert(w.subrange(o4, o5) =~= p5);
    lemma_subrange_part(s, i, w, o4, p5);
    lemma_sp_lit_pos(s, i + o4, p5);
    assert(w.subrange(o5, o6) =~= p6);
    lemma_subrange_part(s, i, w, o5, p6);
    lemma_sp_string_at(s, i + o5, v.host);
    assert(w.subrange(o6, o7) =~= p7);
    lemma_subrange_part(s, i, w, o6, p7);
    lemma_sp_lit_pos(s, i + o6, p7);
    assert(w.subrange(o7, o8) =~= p8);
    lemma_subrange_part(s, i, w, o7, p8);
    lemma_sp_string_at(s, i + o7, v.kind);
    assert(w.subrange(o8, o9) =~= p9);
    lemma_subrange_part(s, i, w, o8, p9);
    lemma_sp_lit_pos(s, i + o8, p9);
    assert(w.subrange(o9, o10) =~= p10);
    lemma_subrange_part(s, i, w, o9, p10);
    lemma_sp_bool_at(s, i + o9, v.is_satisfied);
    assert(w.subrange(o10, o11) =~= p11);
    lemma_subrange_part(s, i, w, o10, p11);
    lemma_sp_lit_pos(s, i + o10, p11);
    assert(w.subrange(o11, o12) =~= p12);
    lemma_subrange_part(s, i, w, o11, p12);
    lemma_sp_string_at(s, i + o11, v.signature);
    assert(w.subrange(o12, o12 + p13.len() as int) =~= p13);
    lemma_subrange_part(s, i, w, o12, p13);
    lemma_sp_lit_pos(s, i + o12, p13);
    assert(v == AnnotationV {
        key: v.key,
        hash_algorithm: v.hash_algorithm,
        host: v.host,
        kind: v.kind,
        is_satisfied: v.is_satisfied,
        signature: v.signature,
    });
}

pub proof fn lemma_annotation_round_trip(v: AnnotationV)
    ensures
        parse_annotation_spec(annotation_json(v)) == Some(v),
{
    let w = annotation_json(v);
    assert(w.subrange(0, w.len() as int) =~= w);
    lemma_sp_annotation_at(w, 0, v);
}

// ---------------------------------------------------------------------------
// AnnotationList: a JSON array of annotations inside an `items` object
// ---------------------------------------------------------------------------

/// The tail of an array body: either the closing bracket, or a comma, an
/// element, and the rest.
pub open spec fn ann_items_rest_json(items: Seq<AnnotationV>) -> Seq<char>
    decreases items.len(),
{
    if items.len() == 0 {
        seq![']']
    } else {
        seq![','] + annotation_json(items[0]) + ann_items_rest_json(items.drop_first())
    }
}

/// The whole array body after the opening bracket, closing bracket included.
pub open spec fn ann_items_block_json(items: Seq<AnnotationV>) -> Seq<char> {
    if items.len() == 0 {
        seq![']']
    } else {
        annotation_json(items[0]) + ann_items_rest_json(items.drop_first())
    }
}

pub open spec fn ann_list_json(v: AnnotationListV) -> Seq<char> {
    "{\"items\":["@ + ann_items_block_json(v.items) + "}"@
}

pub open spec fn sp_ann_items_rest(s: Seq<char>, i: int) -> Option<(Seq<AnnotationV>, int)>
    decreases s.len() - i,
{
    if i < 0 || i >= s.len() {
        None
    } else if s[i] == ']' {
        Some((Seq::empty(), i + 1))
    } else if s[i] == ',' {
        match sp_annotation(s, i + 1) {
            Some(r) => if i + 1 < r.1 && r.1 <= s.len() {
                match sp_ann_items_rest(s, r.1) {
                    Some(r2) => Some((seq![r.0] + r2.0, r2.1)),
                    None => None,
                }
            } else {
                None
            },
            None => None,
        }
    } else {
        None
    }
}

pub open spec fn sp_ann_items_block(s: Seq<char>, i: int) -> Option<(Seq<AnnotationV>, int)> {
    if 0 <= i && i < s.len() && s[i] == ']' {
        Some((Seq::empty(), i + 1))
    } else {
        match sp_annotation(s, i) {
            Some(r) => if i < r.1 && r.1 <= s.len() {
                match sp_ann_items_rest(s, r.1) {
                    Some(r2) => Some((seq![r.0] + r2.0, r2.1)),
                    None => None,
                }
            } else {
                None
            },
            None => None,
        }
    }
}

pub open spec fn sp_ann_list(s: Seq<char>, i: int) -> Option<(AnnotationListV, int)> {
    match sp_lit(s, i, "{\"items\":["@) {
        Some(i1) => match sp_ann_items_block(s, i1) {
            Some(r) => match sp_lit(s, r.1, "}"@) {
                Some(i2) => Some((AnnotationListV { items: r.0 }, i2)),
                None => None,
            },
            None => None,
        },
        None => None,
    }
}

pub open spec fn parse_ann_list_spec(s: Seq<char>) -> Option<AnnotationListV> {
    match sp_ann_list(s, 0) {
        Some(r) => if r.1 == s.len() {
            Some(r.0)
        } else {
            None
        },
        None => None,
    }
}

fn parse_ann_items_rest(s: &str, i: usize) -> (r: Option<(Vec<Annotation>, usize)>)
    requires
        i <= s@.len(),
    ensures
        match r {
            Some(t) => sp_ann_items_rest(s@, i as int) == Some((anns_view(t.0@), t.1 as int)) && i
                < t.1 <= s@.len(),
            None => sp_ann_items_rest(s@, i as int) is None,
        },
    decreases s@.len() - i,
{
    let sn = s.unicode_len();
    if i >= sn {
        return None;
    }
    let c = s.get_char(i);
    if c == ']' {
        let v: Vec<Annotation> = Vec::new();
        proof {
            assert(anns_view(v@) =~= Seq::<AnnotationV>::empty());
        }
        Some((v, i + 1))
    } else if c == ',' {
        match parse_annotation_at(s, i + 1) {
            Some((a, j)) => match parse_ann_items_rest(s, j) {
                Some((rest, k)) => {
                    let mut rest = rest;
                    let ghost old_rest = rest@;
                    rest.insert(0, a);
                    proof {
                        assert(anns_view(rest@) =~= seq![a@] + anns_view(old_rest));
                    }
                    Some((rest, k))
                },
                None => None,
            },
            None => None,
        }
    } else {
        None
    }
}

fn parse_ann_items_block(s: &str, i: usize) -> (r: Option<(Vec<Annotation>, usize)>)
    requires
        i <= s@.len(),
    ensures
        match r {
            Some(t) => sp_ann_items_block(s@, i as int) == Some((anns_view(t.0@), t.1 as int))
                && i < t.1 <= s@.len(),
            None => sp_ann_items_block(s@, i as int) is None,
        },
{
    if i < s.unicode_len() && s.get_char(i) == ']' {
        let v: Vec<Annotation> = Vec::new();
        proof {
            assert(anns_view(v@) =~= Seq::<AnnotationV>::empty());
        }
        return Some((v, i + 1));
    }
    match parse_annotation_at(s, i) {
        Some((a, j)) => match parse_ann_items_rest(s, j) {
            Some((rest, k)) => {
                let mut rest = rest;
                let ghost old_rest = rest@;
                rest.insert(0, a);
                proof {
                    assert(anns_view(rest@) =~= seq![a@] + anns_view(old_rest));
                }
                Some((rest, k))
            },
            None => None,
        },
        None => None,
    }
}

pub fn parse_ann_list_at(s: &str, i: usize) -> (r: Option<(AnnotationList, usize)>)
    requires
        i <= s@.len(),
    ensures
        match r {
            Some(t) => sp_ann_list(s@, i as int) == Some((t.0@, t.1 as int)) && i < t.1
                <= s@.len(),
            None => sp_ann_list(s@, i as int) is None,
        },
{
    let i1 = match match_lit(s, i, "{\"items\":[") {
        Some(j) => j,
        None => {
            return None;
        },
    };
    let (items, i2) = match parse_ann_items_block(s, i1) {
        Some(t) => t,
        None => {
            return None;
        },
    };
    let i3 = match match_lit(s, i2, "}") {
        Some(j) => j,
        None => {
            return None;
        },
    };
    Some((AnnotationList { items }, i3))
}

pub fn decode_ann_list(s: &str) -> (r: Option<AnnotationList>)
    ensures
        match r {
            Some(v) => parse_ann_list_spec(s@) == Some(v@),
            None => parse_ann_list_spec(s@) is None,
        },
{
    let n = s.unicode_len();
    match parse_ann_list_at(s, 0) {
        Some((v, j)) => if j == n {
            Some(v)
        } else {
            None
        },
        None => None,
    }
}

fn enc_ann_items_rest(out: &mut String, v: &Vec<Annotation>, from: usize)
    requires
        from <= v@.len(),
    ensures
        final(out)@ == old(out)@ + ann_items_rest_json(anns_view(v@).skip(from as int)),
    decreases v@.len() - from,
{
    if from == v.len() {
        out.append("]");
        proof {
            reveal_strlit("]");
            assert(anns_view(v@).skip(from as int) =~= Seq::<AnnotationV>::empty());
            assert(out@ =~= old(out)@ + ann_items_rest_json(anns_view(v@).skip(from as int)));
        }
    } else {
        out.append(",");
        enc_annotation(out, &v[from]);
        enc_ann_items_rest(out, v, from + 1);
        proof {
            reveal_strlit(",");
            let items = anns_view(v@).skip(from as int);
            assert(items.len() > 0);
            assert(items[0] == v@[from as int]@);
            assert(items.drop_first() =~= anns_view(v@).skip(from as int + 1));
            assert(out@ =~= old(out)@ + ann_items_rest_json(items));
        }
    }
}

fn enc_ann_items_block(out: &mut String, v: &Vec<Annotation>)
    ensures
        final(out)@ == old(out)@ + ann_items_block_json(anns_view(v@)),
{
    if v.len() == 0 {
        out.append("]");
        proof {
            reveal_strlit("]");
            assert(anns_view(v@).len() == 0);
            assert(out@ =~= old(out)@ + ann_items_block_json(anns_view(v@)));
        }
    } else {
        enc_annotation(out, &v[0]);
        enc_ann_items_rest(out, v, 1);
        proof {
            let items = anns_view(v@);
            assert(items[0] == v@[0]@);
            assert(items.drop_first() =~= items.skip(1));
            assert(out@ =~= old(out)@ + ann_items_block_json(items));
        }
    }
}

pub fn enc_ann_list(out: &mut String, v: &AnnotationList)
    ensures
        final(out)@ == old(out)@ + ann_list_json(v@),
{
    out.append("{\"items\":[");
    enc_ann_items_block(out, &v.items);
    out.append("}");
    proof {
        assert(out@ =~= old(out)@ + ann_list_json(v@));
    }
}

pub fn encode_ann_list(v: &AnnotationList) -> (out: String)
    ensures
        out@ == ann_list_json(v@),
{
    let mut out = String::new();
    enc_ann_list(&mut out, v);
    proof {
        assert(out@ =~= ann_list_json(v@));
    }
    out
}

#[verifier::rlimit(80)]
#[verifier::spinoff_prover]
pub proof fn lemma_sp_ann_items_rest_at(s: Seq<char>, i: int, items: Seq<AnnotationV>)
    requires
        0 <= i,
        i + ann_items_rest_json(items).len() <= s.len(),
        s.subrange(i, i + ann_items_rest_json(items).len() as int) == ann_items_rest_json(items),
    ensures
        sp_ann_items_rest(s, i) == Some((items, i + ann_items_rest_json(items).len() as int)),
    decreases items.len(),
{
    let w = ann_items_rest_json(items);
    assert forall|k: int| 0 <= k < w.len() implies s[i + k] == w[k] by {
        assert(s.subrange(i, i + w.len() as int)[k] == w[k]);
    }
    if items.len() == 0 {
        assert(w[0] == ']');
        assert(s[i + 0] == w[0]);
    } else {
        let a = annotation_json(items[0]);
        let rest = ann_items_rest_json(items.drop_first());
        assert(w[0] == ',');
        assert(s[i + 0] == w[0]);
        assert(json_string(items[0].key).len() >= 2);
        assert(a.len() >= 2);
        assert(w.subrange(1, 1 + a.len() as int) =~= a);
        lemma_subrange_part(s, i, w, 1, a);
        lemma_sp_annotation_at(s, i + 1, items[0]);
        let j = i + 1 + a.len() as int;
        assert(w.subrange(1 + a.len() as int, w.len() as int) =~= rest);
        lemma_subrange_part(s, i, w, 1 + a.len() as int, rest);
        lemma_sp_ann_items_rest_at(s, j, items.drop_first());
        assert(seq![items[0]] + items.drop_first() =~= items);
    }
}

#[verifier::rlimit(80)]
#[verifier::spinoff_prover]
pub proof fn lemma_sp_ann_items_block_at(s: Seq<char>, i: int, items: Seq<AnnotationV>)
    requires
        0 <= i,
        i + ann_items_block_json(items).len() <= s.len(),
        s.subrange(i, i + ann_items_block_json(items).len() as int) == ann_items_block_json(items),
    ensures
        sp_ann_items_block(s, i) == Some((items, i + ann_items_block_json(items).len() as int)),
{
    let w = ann_items_block_json(items);
    assert forall|k: int| 0 <= k < w.len() implies s[i + k] == w[k] by {
        assert(s.subrange(i, i + w.len() as int)[k] == w[k]);
    }
    if items.len() == 0 {
        assert(w[0] == ']');
        assert(s[i + 0] == w[0]);
    } else {
        reveal_strlit("{\"key\":");
        let a = annotation_json(items[0]);
        let rest = ann_items_rest_json(items.drop_first());
        assert(a[0] == '{');
        assert(w[0] == '{');
        assert(s[i + 0] == w[0]);
        assert(s[i] != ']');
        assert(json_string(items[0].key).len() >= 2);
        assert(a.len() >= 2);
        assert(w.subrange(0, a.len() as int) =~= a);
        lemma_subrange_part(s, i, w, 0, a);
        lemma_sp_annotation_at(s, i, items[0]);
        let j = i + a.len() as int;
        assert(w.subrange(a.len() as int, w.len() as int) =~= rest);
        lemma_subrange_part(s, i, w, a.len() as int, rest);
        lemma_sp_ann_items_rest_at(s, j, items.drop_first());
        assert(seq![items[0]] + items.drop_first() =~= items);
    }
}

pub proof fn lemma_sp_ann_list_at(s: Seq<char>, i: int, v: AnnotationListV)
    requires
        0 <= i,
        i + ann_list_json(v).len() <= s.len(),
        s.subrange(i, i + ann_list_json(v).len() as int) == ann_list_json(v),
    ensures
        sp_ann_list(s, i) == Some((v, i + ann_list_json(v).len() as int)),
{
    let w = ann_list_json(v);
    let p1 = "{\"items\":["@;
    let p2 = ann_items_block_json(v.items);
    let p3 = "}"@;
    let o1 = p1.len() as int;
    let o2 = o1 + p2.len();
    assert(w.subrange(0, o1) =~= p1);
    lemma_subrange_part(s, i, w, 0, p1);
    lemma_sp_lit_pos(s, i, p1);
    assert(w.subrange(o1, o2) =~= p2);
    lemma_subrange_part(s, i, w, o1, p2);
    lemma_sp_ann_items_block_at(s, i + o1, v.items);
    assert(w.subrange(o2, o2 + p3.len() as int) =~= p3);
    lemma_subrange_part(s, i, w, o2, p3);
    lemma_sp_lit_pos(s, i + o2, p3);
    assert(v == AnnotationListV { items: v.items });
}

pub proof fn lemma_ann_list_round_trip(v: AnnotationListV)
    ensures
        parse_ann_list_spec(ann_list_json(v)) == Some(v),
{
    let w = ann_list_json(v);
    assert(w.subrange(0, w.len() as int) =~= w);
    lemma_sp_ann_list_at(w, 0, v);
}

// ---------------------------------------------------------------------------
// ReadingWrap
// ---------------------------------------------------------------------------

pub open spec fn reading_wrap_json(v: ReadingWrapV) -> Seq<char> {
    "{\"id\":"@ + json_string(v.id) + ",\"address\":"@ + json_string(v.address) + ",\"reading\":"@
        + reading_json(v.reading) + "}"@
}

pub open spec fn sp_reading_wrap(s: Seq<char>, i: int) -> Option<(ReadingWrapV, int)> {
    match sp_lit(s, i, "{\"id\":"@) {
        Some(i1) => match sp_string(s, i1) {
            Some(r1) => match sp_lit(s, r1.1, ",\"address\":"@) {
                Some(i2) => match sp_string(s, i2) {
                    Some(r2) => match sp_lit(s, r2.1, ",\"reading\":"@) {
                        Some(i3) => match sp_reading(s, i3) {
                            Some(r3) => match sp_lit(s, r3.1, "}"@) {
                                Some(i4) => Some(
                                    (
                                        ReadingWrapV { id: r1.0, address: r2.0, reading: r3.0 },
                                        i4,
                                    ),
                                ),
                                None => None,
                            },
                            None => None,
                        },
                        None => None,
                    },
                    None => None,
                },
                None => None,
            },
            None => None,
        },
        None => None,
    }
}

pub fn parse_reading_wrap_at(s: &str, i: usize) -> (r: Option<(ReadingWrap, usize)>)
    requires
        i <= s@.len(),
    ensures
        match r {
            Some(t) => sp_reading_wrap(s@, i as int) == Some((t.0@, t.1 as int)) && i < t.1
                <= s@.len(),
            None => sp_reading_wrap(s@, i as int) is None,
        },
{
    let i1 = match match_lit(s, i, "{\"id\":") {
        Some(j) => j,
        None => {
            return None;
        },
    };
    let (id, i2) = match parse_string_at(s, i1) {
        Some(t) => t,
        None => {
            return None;
        },
    };
    let i3 = match match_lit(s, i2, ",\"address\":") {
        Some(j) => j,
        None => {
            return None;
        },
    };
    let (address, i4) = match parse_string_at(s, i3) {
        Some(t) => t,
        None => {
            return None;
        },
    };
    let i5 = match match_lit(s, i4, ",\"reading\":") {
        Some(j) => j,
        None => {
            return None;
        },
    };
    let (reading, i6) = match parse_reading_at(s, i5) {
        Some(t) => t,
        None => {
            return None;
        },
    };
    let i7 = match match_lit(s, i6, "}") {
        Some(j) => j,
        None => {
            return None;
        },
    };
    Some((ReadingWrap { id, address, reading }, i7))
}

pub fn enc_reading_wrap(out: &mut String, v: &ReadingWrap)
    ensures
        final(out)@ == old(out)@ + reading_wrap_json(v@),
{
    out.append("{\"id\":");
    enc_json_string(out, v.id.as_str());
    out.append(",\"address\":");
    enc_json_string(out, v.address.as_str());
    out.append(",\"reading\":");
    enc_reading(out, &v.reading);
    out.append("}");
    proof {
        assert(out@ =~= old(out)@ + reading_wrap_json(v@));
    }
}

#[verifier::rlimit(80)]
#[verifier::spinoff_prover]
pub proof fn lemma_sp_reading_wrap_at(s: Seq<char>, i: int, v: ReadingWrapV)
    requires
        0 <= i,
        i + reading_wrap_json(v).len() <= s.len(),
        s.subrange(i, i + reading_wrap_json(v).len() as int) == reading_wrap_json(v),
    ensures
        sp_reading_wrap(s, i) == Some((v, i + reading_wrap_json(v).len() as int)),
{
    let w = reading_wrap_json(v);
    let p1 = "{\"id\":"@;
    let p2 = json_string(v.id);
    let p3 = ",\"address\":"@;
    let p4 = json_string(v.address);
    let p5 = ",\"reading\":"@;
    let p6 = reading_json(v.reading);
    let p7 = "}"@;
    let o1 = p1.len() as int;
    let o2 = o1 + p2.len();
    let o3 = o2 + p3.len();
    let o4 = o3 + p4.len();
    let o5 = o4 + p5.len();
    let o6 = o5 + p6.len();
    assert(w.subrange(0, o1) =~= p1);
    lemma_subrange_part(s, i, w, 0, p1);
    lemma_sp_lit_pos(s, i, p1);
    assert(w.subrange(o1, o2) =~= p2);
    lemma_subrange_part(s, i, w, o1, p2);
    lemma_sp_string_at(s, i + o1, v.id);
    assert(w.subrange(o2, o3) =~= p3);
    lemma_subrange_part(s, i, w, o2, p3);
    lemma_sp_lit_pos(s, i + o2, p3);
    assert(w.subrange(o3, o4) =~= p4);
    lemma_subrange_part(s, i, w, o3, p4);
    lemma_sp_string_at(s, i + o3, v.address);
    assert(w.subrange(o4, o5) =~= p5);
    lemma_subrange_part(s, i, w, o4, p5);
    lemma_sp_lit_pos(s, i + o4, p5);
    assert(w.subrange(o5, o6) =~= p6);
    lemma_subrange_part(s, i, w, o5, p6);
    lemma_sp_reading_at(s, i + o5, v.reading);
    assert(w.subrange(o6, o6 + p7.len() as int) =~= p7);
    lemma_subrange_part(s, i, w, o6, p7);
    lemma_sp_lit_pos(s, i + o6, p7);
    assert(v == ReadingWrapV { id: v.id, address: v.address, reading: v.reading });
}

// ---------------------------------------------------------------------------
// AnnotationWrap
// ---------------------------------------------------------------------------

pub open spec fn ann_wrap_json(v: AnnotationWrapV) -> Seq<char> {
    "{\"reading_id\":"@ + json_string(v.reading_id) + ",\"annotation\":"@ + annotation_json(
        v.annotation,
    ) + "}"@
}

pub open spec fn sp_ann_wrap(s: Seq<char>, i: int) -> Option<(AnnotationWrapV, int)> {
    match sp_lit(s, i, "{\"reading_id\":"@) {
        Some(i1) => match sp_string(s, i1) {
            Some(r1) => match sp_lit(s, r1.1, ",\"annotation\":"@) {
                Some(i2) => match sp_annotation(s, i2) {
                    Some(r2) => match sp_lit(s, r2.1, "}"@) {
                        Some(i3) => Some(
                            (AnnotationWrapV { reading_id: r1.0, annotation: r2.0 }, i3),
                        ),
                        None => None,
                    },
                    None => None,
                },
                None => None,
            },
            None => None,
        },
        None => None,
    }
}

pub fn parse_ann_wrap_at(s: &str, i: usize) -> (r: Option<(AnnotationWrap, usize)>)
    requires
        i <= s@.len(),
    ensures
        match r {
            Some(t) => sp_ann_wrap(s@, i as int) == Some((t.0@, t.1 as int)) && i < t.1
                <= s@.len(),
            None => sp_ann_wrap(s@, i as int) is None,
        },
{
    let i1 = match match_lit(s, i, "{\"reading_id\":") {
        Some(j) => j,
        None => {
            return None;
        },
    };
    let (reading_id, i2) = match parse_string_at(s, i1) {
        Some(t) => t,
        None => {
            return None;
        },
    };
    let i3 = match match_lit(s, i2, ",\"annotation\":") {
        Some(j) => j,
        None => {
            return None;
        },
    };
    let (annotation, i4) = match parse_annotation_at(s, i3) {
        Some(t) => t,
        None => {
            return None;
        },
    };
    let i5 = match match_lit(s, i4, "}") {
        Some(j) => j,
        None => {
            return None;
        },
    };
    Some((AnnotationWrap { reading_id, annotation }, i5))
}

pub fn enc_ann_wrap(out: &mut String, v: &AnnotationWrap)
    ensures
        final(out)@ == old(out)@ + ann_wrap_json(v@),
{
    out.append("{\"reading_id\":");
    enc_json_string(out, v.reading_id.as_str());
    out.append(",\"annotation\":");
    enc_annotation(out, &v.annotation);
    out.append("}");
    proof {
        assert(out@ =~= old(out)@ + ann_wrap_json(v@));
    }
}

pub proof fn lemma_sp_ann_wrap_at(s: Seq<char>, i: int, v: AnnotationWrapV)
    requires
        0 <= i,
        i + ann_wrap_json(v).len() <= s.len(),
        s.subrange(i, i + ann_wrap_json(v).len() as int) == ann_wrap_json(v),
    ensures
        sp_ann_wrap(s, i) == Some((v, i + ann_wrap_json(v).len() as int)),
{
    let w = ann_wrap_json(v);
    let p1 = "{\"reading_id\":"@;
    let p2 = json_string(v.reading_id);
    let p3 = ",\"annotation\":"@;
    let p4 = annotation_json(v.annotation);
    let p5 = "}"@;
    let o1 = p1.len() as int;
    let o2 = o1 + p2.len();
    let o3 = o2 + p3.len();
    let o4 = o3 + p4.len();
    assert(w.subrange(0, o1) =~= p1);
    lemma_subrange_part(s, i, w, 0, p1);
    lemma_sp_lit_pos(s, i, p1);
    assert(w.subrange(o1, o2) =~= p2);
    lemma_subrange_part(s, i, w, o1, p2);
    lemma_sp_string_at(s, i + o1, v.reading_id);
    assert(w.subrange(o2, o3) =~= p3);
    lemma_subrange_part(s, i, w, o2, p3);
    lemma_sp_lit_pos(s, i + o2, p3);
    assert(w.subrange(o3, o4) =~= p4);
    lemma_subrange_part(s, i, w, o3, p4);
    lemma_sp_annotation_at(s, i + o3, v.annotation);
    assert(w.subrange(o4, o4 + p5.len() as int) =~= p5);
    lemma_subrange_part(s, i, w, o4, p5);
    lemma_sp_lit_pos(s, i + o4, p5);
    assert(v == AnnotationWrapV { reading_id: v.reading_id, annotation: v.annotation });
}

// ---------------------------------------------------------------------------
// Snapshots: top-level JSON arrays of records, used for persistence
// ---------------------------------------------------------------------------

pub open spec fn rw_items_rest_json(items: Seq<ReadingWrapV>) -> Seq<char>
    decreases items.len(),
{
    if items.len() == 0 {
        seq![']']
    } else {
        seq![','] + reading_wrap_json(items[0]) + rw_items_rest_json(items.drop_first())
    }
}

pub open spec fn rw_items_block_json(items: Seq<ReadingWrapV>) -> Seq<char> {
    if items.len() == 0 {
        seq![']']
    } else {
        reading_wrap_json(items[0]) + rw_items_rest_json(items.drop_first())
    }
}

/// The readings snapshot: one JSON array holding every stored reading.
pub open spec fn readings_snapshot_json(items: Seq<ReadingWrapV>) -> Seq<char> {
    "["@ + rw_items_block_json(items)
}

pub open spec fn sp_rw_items_rest(s: Seq<char>, i: int) -> Option<(Seq<ReadingWrapV>, int)>
    decreases s.len() - i,
{
    if i < 0 || i >= s.len() {
        None
    } else if s[i] == ']' {
        Some((Seq::empty(), i + 1))
    } else if s[i] == ',' {
        match sp_reading_wrap(s, i + 1) {
            Some(r) => if i + 1 < r.1 && r.1 <= s.len() {
                match sp_rw_items_rest(s, r.1) {
                    Some(r2) => Some((seq![r.0] + r2.0, r2.1)),
                    None => None,
                }
            } else {
                None
            },
            None => None,
        }
    } else {
        None
    }
}

pub open spec fn sp_rw_items_block(s: Seq<char>, i: int) -> Option<(Seq<ReadingWrapV>, int)> {
    if 0 <= i && i < s.len() && s[i] == ']' {
        Some((Seq::empty(), i + 1))
    } else {
        match sp_reading_wrap(s, i) {
            Some(r) => if i < r.1 && r.1 <= s.len() {
                match sp_rw_items_rest(s, r.1) {
                    Some(r2) => Some((seq![r.0] + r2.0, r2.1)),
                    None => None,
                }
            } else {
                None
            },
            None => None,
        }
    }
}

pub open spec fn parse_readings_snapshot_spec(s: Seq<char>) -> Option<Seq<ReadingWrapV>> {
    match sp_lit(s, 0, "["@) {
        Some(i1) => match sp_rw_items_block(s, i1) {
            Some(r) => if r.1 == s.len() {
                Some(r.0)
            } else {
                None
            },
            None => None,
        },
        None => None,
    }
}

fn parse_rw_items_rest(s: &str, i: usize) -> (r: Option<(Vec<ReadingWrap>, usize)>)
    requires
        i <= s@.len(),
    ensures
        match r {
            Some(t) => sp_rw_items_rest(s@, i as int) == Some((readings_view(t.0@), t.1 as int))
                && i < t.1 <= s@.len(),
            None => sp_rw_items_rest(s@, i as int) is None,
        },
    decreases s@.len() - i,
{
    let sn = s.unicode_len();
    if i >= sn {
        return None;
    }
    let c = s.get_char(i);
    if c == ']' {
        let v: Vec<ReadingWrap> = Vec::new();
        proof {
            assert(readings_view(v@) =~= Seq::<ReadingWrapV>::empty());
        }
        Some((v, i + 1))
    } else if c == ',' {
        match parse_reading_wrap_at(s, i + 1) {
            Some((a, j)) => match parse_rw_items_rest(s, j) {
                Some((rest, k)) => {
                    let mut rest = rest;
                    let ghost old_rest = rest@;
                    rest.insert(0, a);
                    proof {
                        assert(readings_view(rest@) =~= seq![a@] + readings_view(old_rest));
                    }
                    Some((rest, k))
                },
                None => None,
            },
            None => None,
        }
    } else {
        None
    }
}

fn parse_rw_items_block(s: &str, i: usize) -> (r: Option<(Vec<ReadingWrap>, usize)>)
    requires
        i <= s@.len(),
    ensures
        match r {
            Some(t) => sp_rw_items_block(s@, i as int) == Some((readings_view(t.0@), t.1 as int))
                && i < t.1 <= s@.len(),
            None => sp_rw_items_block(s@, i as int) is None,
        },
{
    if i < s.unicode_len() && s.get_char(i) == ']' {
        let v: Vec<ReadingWrap> = Vec::new();
        proof {
            assert(readings_view(v@) =~= Seq::<ReadingWrapV>::empty());
        }
        return Some((v, i + 1));
    }
    match parse_reading_wrap_at(s, i) {
        Some((a, j)) => match parse_rw_items_rest(s, j) {
            Some((rest, k)) => {
                let mut rest = rest;
                let ghost old_rest = rest@;
                rest.insert(0, a);
                proof {
                    assert(readings_view(rest@) =~= seq![a@] + readings_view(old_rest));
                }
                Some((rest, k))
            },
            None => None,
        },
        None => None,
    }
}

/// Restore the stored readings from a snapshot blob.
pub fn decode_readings_snapshot(s: &str) -> (r: Option<Vec<ReadingWrap>>)
    ensures
        match r {
            Some(v) => parse_readings_snapshot_spec(s@) == Some(readings_view(v@)),
            None => parse_readings_snapshot_spec(s@) is None,
        },
{
    let i1 = match match_lit(s, 0, "[") {
        Some(j) => j,
        None => {
            return None;
        },
    };
    let n = s.unicode_len();
    match parse_rw_items_block(s, i1) {
        Some((v, j)) => if j == n {
            Some(v)
        } else {
            None
        },
        None => None,
    }
}

fn enc_rw_items_rest(out: &mut String, v: &Vec<ReadingWrap>, from: usize)
    requires
        from <= v@.len(),
    ensures
        final(out)@ == old(out)@ + rw_items_rest_json(readings_view(v@).skip(from as int)),
    decreases v@.len() - from,
{
    if from == v.len() {
        out.append("]");
        proof {
            reveal_strlit("]");
            assert(readings_view(v@).skip(from as int) =~= Seq::<ReadingWrapV>::empty());
            assert(out@ =~= old(out)@ + rw_items_rest_json(readings_view(v@).skip(from as int)));
        }
    } else {
        out.append(",");
        enc_reading_wrap(out, &v[from]);
        enc_rw_items_rest(out, v, from + 1);
        proof {
            reveal_strlit(",");
            let items = readings_view(v@).skip(from as int);
            assert(items.len() > 0);
            assert(items[0] == v@[from as int]@);
            assert(items.drop_first() =~= readings_view(v@).skip(from as int + 1));
            assert(out@ =~= old(out)@ + rw_items_rest_json(items));
        }
    }
}

/// Write the stored readings as one snapshot blob.
pub fn encode_readings_snapshot(v: &Vec<ReadingWrap>) -> (out: String)
    ensures
        out@ == readings_snapshot_json(readings_view(v@)),
{
    let mut out = String::new();
    out.append("[");
    if v.len() == 0 {
        out.append("]");
        proof {
            reveal_strlit("]");
            assert(readings_view(v@).len() == 0);
            assert(out@ =~= readings_snapshot_json(readings_view(v@)));
        }
    } else {
        enc_reading_wrap(&mut out, &v[0]);
        enc_rw_items_rest(&mut out, v, 1);
        proof {
            let items = readings_view(v@);
            assert(items[0] == v@[0]@);
            assert(items.drop_first() =~= items.skip(1));
            assert(out@ =~= readings_snapshot_json(items));
        }
    }
    out
}

#[verifier::rlimit(80)]
#[verifier::spinoff_prover]
pub proof fn lemma_sp_rw_items_rest_at(s: Seq<char>, i: int, items: Seq<ReadingWrapV>)
    requires
        0 <= i,
        i + rw_items_rest_json(items).len() <= s.len(),
        s.subrange(i, i + rw_items_rest_json(items).len() as int) == rw_items_rest_json(items),
    ensures
        sp_rw_items_rest(s, i) == Some((items, i + rw_items_rest_json(items).len() as int)),
    decreases items.len(),
{
    let w = rw_items_rest_json(items);
    assert forall|k: int| 0 <= k < w.len() implies s[i + k] == w[k] by {
        assert(s.subrange(i, i + w.len() as int)[k] == w[k]);
    }
    if items.len() == 0 {
        assert(w[0] == ']');
        assert(s[i + 0] == w[0]);
    } else {
        let a = reading_wrap_json(items[0]);
        let rest = rw_items_rest_json(items.drop_first());
        assert(w[0] == ',');
        assert(s[i + 0] == w[0]);
        assert(json_string(items[0].id).len() >= 2);
        assert(a.len() >= 2);
        assert(w.subrange(1, 1 + a.len() as int) =~= a);
        lemma_subrange_part(s, i, w, 1, a);
        lemma_sp_reading_wrap_at(s, i + 1, items[0]);
        let j = i + 1 + a.len() as int;
        assert(w.subrange(1 + a.len() as int, w.len() as int) =~= rest);
        lemma_subrange_part(s, i, w, 1 + a.len() as int, rest);
        lemma_sp_rw_items_rest_at(s, j, items.drop_first());
        assert(seq![items[0]] + items.drop_first() =~= items);
    }
}

#[verifier::rlimit(80)]
#[verifier::spinoff_prover]
pub proof fn lemma_sp_rw_items_block_at(s: Seq<char>, i: int, items: Seq<ReadingWrapV>)
    requires
        0 <= i,
        i + rw_items_block_json(items).len() <= s.len(),
        s.subrange(i, i + rw_items_block_json(items).len() as int) == rw_items_block_json(items),
    ensures
        sp_rw_items_block(s, i) == Some((items, i + rw_items_block_json(items).len() as int)),
{
    let w = rw_items_block_json(items);
    assert forall|k: int| 0 <= k < w.len() implies s[i + k] == w[k] by {
        assert(s.subrange(i, i + w.len() as int)[k] == w[k]);
    }
    if items.len() == 0 {
        assert(w[0] == ']');
        assert(s[i + 0] == w[0]);
    } else {
        reveal_strlit("{\"id\":");
        let a = reading_wrap_json(items[0]);
        let rest = rw_items_rest_json(items.drop_first());
        assert(a[0] == '{');
        assert(w[0] == '{');
        assert(s[i + 0] == w[0]);
        assert(s[i] != ']');
        assert(json_string(items[0].id).len() >= 2);
        assert(a.len() >= 2);
        assert(w.subrange(0, a.len() as int) =~= a);
        lemma_subrange_part(s, i, w, 0, a);
        lemma_sp_reading_wrap_at(s, i, items[0]);
        let j = i + a.len() as int;
        assert(w.subrange(a.len() as int, w.len() as int) =~= rest);
        lemma_subrange_part(s, i, w, a.len() as int, rest);
        lemma_sp_rw_items_rest_at(s, j, items.drop_first());
        assert(seq![items[0]] + items.drop_first() =~= items);
    }
}

/// Persistence round trip for the readings snapshot.
pub proof fn lemma_readings_snapshot_round_trip(items: Seq<ReadingWrapV>)
    ensures
        parse_readings_snapshot_spec(readings_snapshot_json(items)) == Some(items),
{
    let w = readings_snapshot_json(items);
    let p1 = "["@;
    let p2 = rw_items_block_json(items);
    let o1 = p1.len() as int;
    assert(w.subrange(0, w.len() as int) =~= w);
    assert(w.subrange(0, o1) =~= p1);
    lemma_subrange_part(w, 0, w, 0, p1);
    lemma_sp_lit_pos(w, 0, p1);
    assert(w.subrange(o1, o1 + p2.len() as int) =~= p2);
    lemma_subrange_part(w, 0, w, o1, p2);
    lemma_sp_rw_items_block_at(w, o1, items);
}

pub open spec fn aw_items_rest_json(items: Seq<AnnotationWrapV>) -> Seq<char>
    decreases items.len(),
{
    if items.len() == 0 {
        seq![']']
    } else {
        seq![','] + ann_wrap_json(items[0]) + aw_items_rest_json(items.drop_first())
    }
}

pub open spec fn aw_items_block_json(items: Seq<AnnotationWrapV>) -> Seq<char> {
    if items.len() == 0 {
        seq![']']
    } else {
        ann_wrap_json(items[0]) + aw_items_rest_json(items.drop_first())
    }
}

/// The annotations snapshot: one JSON array holding every stored annotation.
pub open spec fn annotations_snapshot_json(items: Seq<AnnotationWrapV>) -> Seq<char> {
    "["@ + aw_items_block_json(items)
}

pub open spec fn sp_aw_items_rest(s: Seq<char>, i: int) -> Option<(Seq<AnnotationWrapV>, int)>
    decreases s.len() - i,
{
    if i < 0 || i >= s.len() {
        None
    } else if s[i] == ']' {
        Some((Seq::empty(), i + 1))
    } else if s[i] == ',' {
        match sp_ann_wrap(s, i + 1) {
            Some(r) => if i + 1 < r.1 && r.1 <= s.len() {
                match sp_aw_items_rest(s, r.1) {
                    Some(r2) => Some((seq![r.0] + r2.0, r2.1)),
                    None => None,
                }
            } else {
                None
            },
            None => None,
        }
    } else {
        None
    }
}

pub open spec fn sp_aw_items_block(s: Seq<char>, i: int) -> Option<(Seq<AnnotationWrapV>, int)> {
    if 0 <= i && i < s.len() && s[i] == ']' {
        Some((Seq::empty(), i + 1))
    } else {
        match sp_ann_wrap(s, i) {
            Some(r) => if i < r.1 && r.1 <= s.len() {
                match sp_aw_items_rest(s, r.1) {
                    Some(r2) => Some((seq![r.0] + r2.0, r2.1)),
                    None => None,
                }
            } else {
                None
            },
            None => None,
        }
    }
}

pub open spec fn parse_annotations_snapshot_spec(s: Seq<char>) -> Option<Seq<AnnotationWrapV>> {
    match sp_lit(s, 0, "["@) {
        Some(i1) => match sp_aw_items_block(s, i1) {
            Some(r) => if r.1 == s.len() {
                Some(r.0)
            } else {
                None
            },
            None => None,
        },
        None => None,
    }
}

fn parse_aw_items_rest(s: &str, i: usize) -> (r: Option<(Vec<AnnotationWrap>, usize)>)
    requires
        i <= s@.len(),
    ensures
        match r {
            Some(t) => sp_aw_items_rest(s@, i as int) == Some((ann_wraps_view(t.0@), t.1 as int))
                && i < t.1 <= s@.len(),
            None => sp_aw_items_rest(s@, i as int) is None,
        },
    decreases s@.len() - i,
{
    let sn = s.unicode_len();
    if i >= sn {
        return None;
    }
    let c = s.get_char(i);
    if c == ']' {
        let v: Vec<AnnotationWrap> = Vec::new();
        proof {
            assert(ann_wraps_view(v@) =~= Seq::<AnnotationWrapV>::empty());
        }
        Some((v, i + 1))
    } else if c == ',' {
        match parse_ann_wrap_at(s, i + 1) {
            Some((a, j)) => match parse_aw_items_rest(s, j) {
                Some((rest, k)) => {
                    let mut rest = rest;
                    let ghost old_rest = rest@;
                    rest.insert(0, a);
                    proof {
                        assert(ann_wraps_view(rest@) =~= seq![a@] + ann_wraps_view(old_rest));
                    }
                    Some((rest, k))
                },
                None => None,
            },
            None => None,
        }
    } else {
        None
    }
}

fn parse_aw_items_block(s: &str, i: usize) -> (r: Option<(Vec<AnnotationWrap>, usize)>)
    requires
        i <= s@.len(),
    ensures
        match r {
            Some(t) => sp_aw_items_block(s@, i as int) == Some((ann_wraps_view(t.0@), t.1 as int))
                && i < t.1 <= s@.len(),
            None => sp_aw_items_block(s@, i as int) is None,
        },
{
    if i < s.unicode_len() && s.get_char(i) == ']' {
        let v: Vec<AnnotationWrap> = Vec::new();
        proof {
            assert(ann_wraps_view(v@) =~= Seq::<AnnotationWrapV>::empty());
        }
        return Some((v, i + 1));
    }
    match parse_ann_wrap_at(s, i) {
        Some((a, j)) => match parse_aw_items_rest(s, j) {
            Some((rest, k)) => {
                let mut rest = rest;
                let ghost old_rest = rest@;
                rest.insert(0, a);
                proof {
                    assert(ann_wraps_view(rest@) =~= seq![a@] + ann_wraps_view(old_rest));
                }
                Some((rest, k))
            },
            None => None,
        },
        None => None,
    }
}

/// Restore the stored annotations from a snapshot blob.
pub fn decode_annotations_snapshot(s: &str) -> (r: Option<Vec<AnnotationWrap>>)
    ensures
        match r {
            Some(v) => parse_annotations_snapshot_spec(s@) == Some(ann_wraps_view(v@)),
            None => parse_annotations_snapshot_spec(s@) is None,
        },
{
    let i1 = match match_lit(s, 0, "[") {
        Some(j) => j,
        None => {
            return None;
        },
    };
    let n = s.unicode_len();
    match parse_aw_items_block(s, i1) {
        Some((v, j)) => if j == n {
            Some(v)
        } else {
            None
        },
        None => None,
    }
}

fn enc_aw_items_rest(out: &mut String, v: &Vec<AnnotationWrap>, from: usize)
    requires
        from <= v@.len(),
    ensures
        final(out)@ == old(out)@ + aw_items_rest_json(ann_wraps_view(v@).skip(from as int)),
    decreases v@.len() - from,
{
    if from == v.len() {
        out.append("]");
        proof {
            reveal_strlit("]");
            assert(ann_wraps_view(v@).skip(from as int) =~= Seq::<AnnotationWrapV>::empty());
            assert(out@ =~= old(out)@ + aw_items_rest_json(ann_wraps_view(v@).skip(from as int)));
        }
    } else {
        out.append(",");
        enc_ann_wrap(out, &v[from]);
        enc_aw_items_rest(out, v, from + 1);
        proof {
            reveal_strlit(",");
            let items = ann_wraps_view(v@).skip(from as int);
            assert(items.len() > 0);
            assert(items[0] == v@[from as int]@);
            assert(items.drop_first() =~= ann_wraps_view(v@).skip(from as int + 1));
            assert(out@ =~= old(out)@ + aw_items_rest_json(items));
        }
    }
}

/// Write the stored annotations as one snapshot blob.
pub fn encode_annotations_snapshot(v: &Vec<AnnotationWrap>) -> (out: String)
    ensures
        out@ == annotations_snapshot_json(ann_wraps_view(v@)),
{
    let mut out = String::new();
    out.append("[");
    if v.len() == 0 {
        out.append("]");
        proof {
            reveal_strlit("]");
            assert(ann_wraps_view(v@).len() == 0);
            assert(out@ =~= annotations_snapshot_json(ann_wraps_view(v@)));
        }
    } else {
        enc_ann_wrap(&mut out, &v[0]);
        enc_aw_items_rest(&mut out, v, 1);
        proof {
            let items = ann_wraps_view(v@);
            assert(items[0] == v@[0]@);
            assert(items.drop_first() =~= items.skip(1));
            assert(out@ =~= annotations_snapshot_json(items));
        }
    }
    out
}

#[verifier::rlimit(80)]
#[verifier::spinoff_prover]
pub proof fn lemma_sp_aw_items_rest_at(s: Seq<char>, i: int, items: Seq<AnnotationWrapV>)
    requires
        0 <= i,
        i + aw_items_rest_json(items).len() <= s.len(),
        s.subrange(i, i + aw_items_rest_json(items).len() as int) == aw_items_rest_json(items),
    ensures
        sp_aw_items_rest(s, i) == Some((items, i + aw_items_rest_json(items).len() as int)),
    decreases items.len(),
{
    let w = aw_items_rest_json(items);
    assert forall|k: int| 0 <= k < w.len() implies s[i + k] == w[k] by {
        assert(s.subrange(i, i + w.len() as int)[k] == w[k]);
    }
    if items.len() == 0 {
        assert(w[0] == ']');
        assert(s[i + 0] == w[0]);
    } else {
        let a = ann_wrap_json(items[0]);
        let rest = aw_items_rest_json(items.drop_first());
        assert(w[0] == ',');
        assert(s[i + 0] == w[0]);
        assert(json_string(items[0].reading_id).len() >= 2);
        assert(a.len() >= 2);
        assert(w.subrange(1, 1 + a.len() as int) =~= a);
        lemma_subrange_part(s, i, w, 1, a);
        lemma_sp_ann_wrap_at(s, i + 1, items[0]);
        let j = i + 1 + a.len() as int;
        assert(w.subrange(1 + a.len() as int, w.len() as int) =~= rest);
        lemma_subrange_part(s, i, w, 1 + a.len() as int, rest);
        lemma_sp_aw_items_rest_at(s, j, items.drop_first());
        assert(seq![items[0]] + items.drop_first() =~= items);
    }
}

#[verifier::rlimit(80)]
#[verifier::spinoff_prover]
pub proof fn lemma_sp_aw_items_block_at(s: Seq<char>, i: int, items: Seq<AnnotationWrapV>)
    requires
        0 <= i,
        i + aw_items_block_json(items).len() <= s.len(),
        s.subrange(i, i + aw_items_block_json(items).len() as int) == aw_items_block_json(items),
    ensures
        sp_aw_items_block(s, i) == Some((items, i + aw_items_block_json(items).len() as int)),
{
    let w = aw_items_block_json(items);
    assert forall|k: int| 0 <= k < w.len() implies s[i + k] == w[k] by {
        assert(s.subrange(i, i + w.len() as int)[k] == w[k]);
    }
    if items.len() == 0 {
        assert(w[0] == ']');
        assert(s[i + 0] == w[0]);
    } else {
        reveal_strlit("{\"reading_id\":");
        let a = ann_wrap_json(items[0]);
        let rest = aw_items_rest_json(items.drop_first());
        assert(a[0] == '{');
        assert(w[0] == '{');
        assert(s[i + 0] == w[0]);
        assert(s[i] != ']');
        assert(json_string(items[0].reading_id).len() >= 2);
        assert(a.len() >= 2);
        assert(w.subrange(0, a.len() as int) =~= a);
        lemma_subrange_part(s, i, w, 0, a);
        lemma_sp_ann_wrap_at(s, i, items[0]);
        let j = i + a.len() as int;
        assert(w.subrange(a.len() as int, w.len() as int) =~= rest);
        lemma_subrange_part(s, i, w, a.len() as int, rest);
        lemma_sp_aw_items_rest_at(s, j, items.drop_first());
        assert(seq![items[0]] + items.drop_first() =~= items);
    }
}

/// Persistence round trip for the annotations snapshot.
pub proof fn lemma_annotations_snapshot_round_trip(items: Seq<AnnotationWrapV>)
    ensures
        parse_annotations_snapshot_spec(annotations_snapshot_json(items)) == Some(items),
{
    let w = annotations_snapshot_json(items);
    let p1 = "["@;
    let p2 = aw_items_block_json(items);
    let o1 = p1.len() as int;
    assert(w.subrange(0, w.len() as int) =~= w);
    assert(w.subrange(0, o1) =~= p1);
    lemma_subrange_part(w, 0, w, 0, p1);
    lemma_sp_lit_pos(w, 0, p1);
    assert(w.subrange(o1, o1 + p2.len() as int) =~= p2);
    lemma_subrange_part(w, 0, w, o1, p2);
    lemma_sp_aw_items_block_at(w, o1, items);
}

} // verus!
