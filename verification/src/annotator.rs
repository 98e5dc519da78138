//! The threshold annotator: turns one reading payload into a signed
//! annotation that records whether the value lay inside the configured
//! inclusive range.

use vstd::prelude::*;
use crate::codec::{
    annotation_json, decode_reading, decode_signable, encode_annotation, lemma_reading_round_trip,
    lemma_signable_round_trip, parse_reading_spec, parse_signable_spec, reading_json,
    signable_json,
};
use crate::data::{Annotation, AnnotationV, Error, SensorReadingV, SignableV};
use crate::json::lemma_sp_lit_mismatch;
use crate::providers::{derive_key, hostname, key_of, sign_hex, signature_hex_of};

verus! {

/// Produces threshold annotations for reading payloads.
pub struct ThresholdAnnotator {
    /// Name of the digest algorithm behind the content key.
    pub hash_algorithm: String,
    /// The annotation kind this annotator emits.
    pub kind: String,
    /// 32-byte Ed25519 secret key used for signing.
    pub sign_key: Vec<u8>,
    /// Inclusive lower bound of the accepted range.
    pub low: u8,
    /// Inclusive upper bound of the accepted range.
    pub high: u8,
}

/// The canonical text for key derivation: the seed of an authenticity
/// envelope if the payload is one, else the payload itself.
pub open spec fn canonical_of(payload: Seq<char>) -> Seq<char> {
    match parse_signable_spec(payload) {
        Some(sg) => sg.seed,
        None => payload,
    }
}

/// The content key an annotation for this payload carries.
pub open spec fn spec_key_of_payload(payload: Seq<char>) -> Seq<char> {
    key_of(canonical_of(payload))
}

/// Whether the payload's reading value lies inside `[low, high]`: the
/// payload is read as a bare reading first, then as a wrapped one; a payload
/// that is neither fails the check.
pub open spec fn spec_within_threshold(payload: Seq<char>, low: u8, high: u8) -> bool {
    match parse_reading_spec(payload) {
        Some(r) => low <= r.value && r.value <= high,
        None => match parse_signable_spec(payload) {
            Some(sg) => match parse_reading_spec(sg.seed) {
                Some(r) => low <= r.value && r.value <= high,
                None => false,
            },
            None => false,
        },
    }
}

impl ThresholdAnnotator {
    pub open spec fn wf(&self) -> bool {
        self.sign_key@.len() == 32
    }

    /// The annotation before the signature is attached.
    pub open spec fn spec_annotation_base(&self, payload: Seq<char>, host: Seq<char>)
        -> AnnotationV {
        AnnotationV {
            key: spec_key_of_payload(payload),
            hash_algorithm: self.hash_algorithm@,
            host: host,
            kind: self.kind@,
            is_satisfied: spec_within_threshold(payload, self.low, self.high),
            signature: Seq::empty(),
        }
    }

    /// The finished annotation: the base, signed over its canonical text.
    pub open spec fn spec_annotate(&self, payload: Seq<char>, host: Seq<char>) -> AnnotationV {
        let base = self.spec_annotation_base(payload, host);
        AnnotationV {
            key: base.key,
            hash_algorithm: base.hash_algorithm,
            host: base.host,
            kind: base.kind,
            is_satisfied: base.is_satisfied,
            signature: signature_hex_of(self.sign_key@, annotation_json(base)),
        }
    }

    /// Build an annotator from the deployment's configuration values. The
    /// signing key must be exactly 32 bytes; anything else is rejected.
    pub fn new(hash_algorithm: String, kind: String, sign_key: Vec<u8>, low: u8, high: u8) -> (r:
        Result<ThresholdAnnotator, Error>)
        ensures
            match r {
                Ok(a) => a.wf() && a.hash_algorithm@ == hash_algorithm@ && a.kind@ == kind@
                    && a.sign_key@ == sign_key@ && a.low == low && a.high == high,
                Err(e) => e is InvalidSignKey && sign_key@.len() != 32,
            },
    {
        if sign_key.len() != 32 {
            return Err(Error::InvalidSignKey);
        }
        Ok(ThresholdAnnotator { hash_algorithm, kind, sign_key, low, high })
    }

    /// Annotate a payload on behalf of a known host. Deterministic: the
    /// result is a function of the annotator, the payload, and the host.
    pub fn annotate_with_host(&self, payload: &str, host: String) -> (r: Annotation)
        requires
            self.wf(),
        ensures
            r@ == self.spec_annotate(payload@, host@),
    {
        let signable = decode_signable(payload);
        let key = match &signable {
            Some(sg) => derive_key(sg.seed.as_str()),
            None => derive_key(payload),
        };
        let within = match decode_reading(payload) {
            Some(r) => self.low <= r.value && r.value <= self.high,
            None => match &signable {
                Some(sg) => match decode_reading(sg.seed.as_str()) {
                    Some(r) => self.low <= r.value && r.value <= self.high,
                    None => false,
                },
                None => false,
            },
        };
        let mut ann = Annotation {
            key,
            hash_algorithm: self.hash_algorithm.clone(),
            host,
            kind: self.kind.clone(),
            is_satisfied: within,
            signature: String::new(),
        };
        let base_json = encode_annotation(&ann);
        let sig = sign_hex(&self.sign_key, base_json.as_str());
        ann.signature = sig;
        ann
    }

    /// Annotate a payload, resolving the local host first. Fails with
    /// `NoHostName` exactly when the host cannot be resolved; the annotation
    /// is then the deterministic one for whatever host was found.
    pub fn annotate(&self, payload: &str) -> (r: Result<Annotation, Error>)
        requires
            self.wf(),
        ensures
            match r {
                Ok(a) => exists|h: Seq<char>| a@ == self.spec_annotate(payload@, h),
                Err(e) => e is NoHostName,
            },
    {
        match hostname() {
            Some(host) => {
                let a = self.annotate_with_host(payload, host);
                proof {
                    let ghost h = a@.host;
                    assert(a@ == self.spec_annotate(payload@, h));
                }
                Ok(a)
            },
            None => Err(Error::NoHostName),
        }
    }
}

// ---------------------------------------------------------------------------
// Shape disjointness: the wire forms cannot be mistaken for one another
// ---------------------------------------------------------------------------

/// An encoded authenticity envelope never parses as a reading.
pub proof fn lemma_signable_not_reading(sg: SignableV)
    ensures
        parse_reading_spec(signable_json(sg)) is None,
{
    reveal_strlit("{\"id\":");
    reveal_strlit("{\"seed\":");
    let s = signable_json(sg);
    assert(("{\"seed\":"@)[2] == 's');
    assert(s[2] == 's');
    assert(("{\"id\":"@)[2] == 'i');
    lemma_sp_lit_mismatch(s, 0, "{\"id\":"@, 2);
}

/// An encoded reading never parses as an authenticity envelope.
pub proof fn lemma_reading_not_signable(r: SensorReadingV)
    ensures
        parse_signable_spec(reading_json(r)) is None,
{
    reveal_strlit("{\"id\":");
    reveal_strlit("{\"seed\":");
    let s = reading_json(r);
    assert(("{\"id\":"@)[2] == 'i');
    assert(s[2] == 'i');
    assert(("{\"seed\":"@)[2] == 's');
    lemma_sp_lit_mismatch(s, 0, "{\"seed\":"@, 2);
}

// ---------------------------------------------------------------------------
// Laws of the annotator
// ---------------------------------------------------------------------------

/// For a bare reading payload, the annotation is satisfied exactly when the
/// value lies in the inclusive range; both bounds themselves are inside.
pub proof fn lemma_threshold_inclusive(
    a: ThresholdAnnotator,
    r: SensorReadingV,
    host: Seq<char>,
)
    ensures
        a.spec_annotate(reading_json(r), host).is_satisfied == (a.low <= r.value && r.value
            <= a.high),
{
    lemma_reading_round_trip(r);
}

/// For a wrapped reading payload, the threshold decision is the same as for
/// the bare reading in its seed.
pub proof fn lemma_threshold_wrapped(
    a: ThresholdAnnotator,
    r: SensorReadingV,
    sig: Seq<char>,
    host: Seq<char>,
)
    ensures
        a.spec_annotate(
            signable_json(SignableV { seed: reading_json(r), signature: sig }),
            host,
        ).is_satisfied == (a.low <= r.value && r.value <= a.high),
{
    let sg = SignableV { seed: reading_json(r), signature: sig };
    lemma_signable_not_reading(sg);
    lemma_signable_round_trip(sg);
    lemma_reading_round_trip(r);
}

/// Key derivation is stable: the key of a payload is a function of the
/// payload, and wrapping a reading in an authenticity envelope does not
/// change its key, because the key is taken over the envelope's seed.
pub proof fn lemma_key_stable(r: SensorReadingV, sig: Seq<char>)
    ensures
        spec_key_of_payload(signable_json(SignableV { seed: reading_json(r), signature: sig }))
            == spec_key_of_payload(reading_json(r)),
{
    let sg = SignableV { seed: reading_json(r), signature: sig };
    lemma_signable_round_trip(sg);
    lemma_reading_not_signable(r);
}

} // verus!
