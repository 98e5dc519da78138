//! The annotation reconciler: two append-only collections, one of classified
//! readings and one of annotations, matched lazily at read time by content
//! key. Ingestion classifies a message and appends; snapshots write and
//! reload both collections wholesale.

use vstd::prelude::*;
use crate::classifier::{
    Classified, classify, classify_post, spec_classify_reading, spec_unpack,
};
use crate::codec::{
    annotations_snapshot_json, decode_annotations_snapshot, decode_readings_snapshot,
    encode_annotations_snapshot, encode_readings_snapshot,
    lemma_annotations_snapshot_round_trip, lemma_readings_snapshot_round_trip,
    parse_annotations_snapshot_spec, parse_readings_snapshot_spec, readings_snapshot_json,
};
use crate::data::{
    AnnotationWrap, AnnotationWrapV, ReadingWrap, ReadingWrapV, ann_wraps_view, readings_view,
};
use crate::providers::b64_of;

verus! {

/// Consumer-side state: everything seen so far, keyed for later matching.
pub struct Reconciler {
    pub readings: Vec<ReadingWrap>,
    pub annotations: Vec<AnnotationWrap>,
}

/// The records an annotation bundle contributes: its items' records for a
/// coherent bundle, nothing otherwise.
pub open spec fn contributed(x: Seq<u8>) -> Seq<AnnotationWrapV> {
    match spec_unpack(x) {
        Some(ws) => ws,
        None => Seq::empty(),
    }
}

impl Reconciler {
    pub fn new() -> (r: Reconciler)
        ensures
            r.readings@.len() == 0,
            r.annotations@.len() == 0,
    {
        Reconciler { readings: Vec::new(), annotations: Vec::new() }
    }

    /// Append one classified reading; nothing else changes.
    pub fn record_reading(&mut self, r: ReadingWrap)
        ensures
            final(self).readings@ == old(self).readings@.push(r),
            final(self).annotations@ == old(self).annotations@,
    {
        self.readings.push(r);
    }

    /// Append a bundle's records in order; nothing else changes.
    pub fn record_annotations(&mut self, anns: Vec<AnnotationWrap>)
        ensures
            final(self).annotations@ == old(self).annotations@ + anns@,
            final(self).readings@ == old(self).readings@,
    {
        let mut anns = anns;
        self.annotations.append(&mut anns);
    }

    /// Classify one inbound message and record the outcome: a reading is
    /// appended to the readings, a coherent bundle's records to the
    /// annotations, and anything else is dropped without a change.
    pub fn ingest(&mut self, address: &str, payload: &str)
        ensures
            match spec_classify_reading(address@, payload@) {
                Some(rw) => readings_view(final(self).readings@) == readings_view(
                    old(self).readings@,
                ).push(rw) && final(self).annotations@ == old(self).annotations@,
                None => final(self).readings@ == old(self).readings@,
            },
            crate::codec::parse_reading_spec(payload@) is None
                && crate::codec::parse_wrapper_spec(payload@) is None ==> final(self).annotations@
                == old(self).annotations@,
            forall|x: Seq<u8>|
                crate::codec::parse_reading_spec(payload@) is None
                    && crate::classifier::payload_wrapper_content(payload@) == Some(
                    #[trigger] b64_of(x),
                ) ==> ann_wraps_view(final(self).annotations@) == ann_wraps_view(
                    old(self).annotations@,
                ) + contributed(x),
    {
        let c = classify(address, payload);
        let ghost cv = c@;
        match c {
            Classified::Reading(rw) => {
                let ghost rwv = rw@;
                self.record_reading(rw);
                proof {
                    assert(readings_view(self.readings@) =~= readings_view(
                        old(self).readings@,
                    ).push(rwv));
                }
            },
            Classified::Annotations(ws) => {
                let ghost wsv = ann_wraps_view(ws@);
                self.record_annotations(ws);
                proof {
                    assert(ann_wraps_view(self.annotations@) =~= ann_wraps_view(
                        old(self).annotations@,
                    ) + wsv);
                    assert forall|x: Seq<u8>|
                        crate::codec::parse_reading_spec(payload@) is None
                            && crate::classifier::payload_wrapper_content(payload@) == Some(
                            #[trigger] b64_of(x),
                        ) implies ann_wraps_view(self.annotations@) == ann_wraps_view(
                        old(self).annotations@,
                    ) + contributed(x) by {
                        assert(cv == crate::classifier::wrap_unpack(spec_unpack(x)));
                    }
                }
            },
            Classified::Unrecognized => {
                proof {
                    assert forall|x: Seq<u8>|
                        crate::codec::parse_reading_spec(payload@) is None
                            && crate::classifier::payload_wrapper_content(payload@) == Some(
                            #[trigger] b64_of(x),
                        ) implies ann_wraps_view(self.annotations@) == ann_wraps_view(
                        old(self).annotations@,
                    ) + contributed(x) by {
                        assert(cv == crate::classifier::wrap_unpack(spec_unpack(x)));
                        assert(ann_wraps_view(self.annotations@) =~= ann_wraps_view(
                            self.annotations@,
                        ) + Seq::<AnnotationWrapV>::empty());
                    }
                }
            },
        }
    }

    /// Write the readings collection as one snapshot blob.
    pub fn snapshot_readings(&self) -> (s: String)
        ensures
            s@ == readings_snapshot_json(readings_view(self.readings@)),
    {
        encode_readings_snapshot(&self.readings)
    }

    /// Write the annotations collection as one snapshot blob.
    pub fn snapshot_annotations(&self) -> (s: String)
        ensures
            s@ == annotations_snapshot_json(ann_wraps_view(self.annotations@)),
    {
        encode_annotations_snapshot(&self.annotations)
    }

    /// Reload state from the two snapshot blobs, as written by the snapshot
    /// functions; fails when either blob does not parse.
    pub fn restore(readings_blob: &str, annotations_blob: &str) -> (r: Option<Reconciler>)
        ensures
            match r {
                Some(rec) => parse_readings_snapshot_spec(readings_blob@) == Some(
                    readings_view(rec.readings@),
                ) && parse_annotations_snapshot_spec(annotations_blob@) == Some(
                    ann_wraps_view(rec.annotations@),
                ),
                None => parse_readings_snapshot_spec(readings_blob@) is None
                    || parse_annotations_snapshot_spec(annotations_blob@) is None,
            },
    {
        let readings = match decode_readings_snapshot(readings_blob) {
            Some(v) => v,
            None => {
                return None;
            },
        };
        let annotations = match decode_annotations_snapshot(annotations_blob) {
            Some(v) => v,
            None => {
                return None;
            },
        };
        Some(Reconciler { readings, annotations })
    }
}

/// Persistence is idempotent: writing the two collections and reading the
/// blobs back reproduces them exactly, order included.
pub proof fn lemma_persistence_round_trip(rs: Seq<ReadingWrapV>, annotations: Seq<AnnotationWrapV>)
    ensures
        parse_readings_snapshot_spec(readings_snapshot_json(rs)) == Some(rs),
        parse_annotations_snapshot_spec(annotations_snapshot_json(annotations)) == Some(
            annotations,
        ),
{
    lemma_readings_snapshot_round_trip(rs);
    lemma_annotations_snapshot_round_trip(annotations);
}

} // verus!
