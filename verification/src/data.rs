//! Data model: readings, annotations, and their stored record forms.
//!
//! Each executable type has a spec-level view struct whose string fields are
//! `Seq<char>`, so that contracts can speak about contents directly.

use vstd::prelude::*;

verus! {

/// One sensor observation: which sensor, the measured byte value, and the
/// moment of observation in milliseconds since the Unix epoch.
pub struct SensorReading {
    pub id: String,
    pub value: u8,
    pub timestamp: i64,
}

pub struct SensorReadingV {
    pub id: Seq<char>,
    pub value: u8,
    pub timestamp: i64,
}

impl View for SensorReading {
    type V = SensorReadingV;

    open spec fn view(&self) -> SensorReadingV {
        SensorReadingV { id: self.id@, value: self.value, timestamp: self.timestamp }
    }
}

impl SensorReading {
    pub fn duplicate(&self) -> (r: Self)
        ensures
            r@ == self@,
    {
        SensorReading { id: self.id.clone(), value: self.value, timestamp: self.timestamp }
    }
}

/// An authenticity envelope: the serialized content it covers and a
/// hex-encoded signature over that content.
pub struct Signable {
    pub seed: String,
    pub signature: String,
}

pub struct SignableV {
    pub seed: Seq<char>,
    pub signature: Seq<char>,
}

impl View for Signable {
    type V = SignableV;

    open spec fn view(&self) -> SignableV {
        SignableV { seed: self.seed@, signature: self.signature@ }
    }
}

/// A signed assertion about one data-quality property of one reading.
pub struct Annotation {
    /// Content key of the subject reading.
    pub key: String,
    /// Which digest algorithm produced the key.
    pub hash_algorithm: String,
    /// Host that produced the annotation.
    pub host: String,
    /// The property asserted (threshold, source, tls, pki, ...).
    pub kind: String,
    /// Whether the property held.
    pub is_satisfied: bool,
    /// Hex-encoded signature over the annotation without this field.
    pub signature: String,
}

pub struct AnnotationV {
    pub key: Seq<char>,
    pub hash_algorithm: Seq<char>,
    pub host: Seq<char>,
    pub kind: Seq<char>,
    pub is_satisfied: bool,
    pub signature: Seq<char>,
}

impl View for Annotation {
    type V = AnnotationV;

    open spec fn view(&self) -> AnnotationV {
        AnnotationV {
            key: self.key@,
            hash_algorithm: self.hash_algorithm@,
            host: self.host@,
            kind: self.kind@,
            is_satisfied: self.is_satisfied,
            signature: self.signature@,
        }
    }
}

impl Annotation {
    pub fn duplicate(&self) -> (r: Self)
        ensures
            r@ == self@,
    {
        Annotation {
            key: self.key.clone(),
            hash_algorithm: self.hash_algorithm.clone(),
            host: self.host.clone(),
            kind: self.kind.clone(),
            is_satisfied: self.is_satisfied,
            signature: self.signature.clone(),
        }
    }
}

/// A bundle of annotations transported as one message; all items are meant
/// to share one subject key.
pub struct AnnotationList {
    pub items: Vec<Annotation>,
}

pub struct AnnotationListV {
    pub items: Seq<AnnotationV>,
}

/// The views of a sequence of annotations.
pub open spec fn anns_view(s: Seq<Annotation>) -> Seq<AnnotationV> {
    s.map_values(|a: Annotation| a@)
}

impl View for AnnotationList {
    type V = AnnotationListV;

    open spec fn view(&self) -> AnnotationListV {
        AnnotationListV { items: anns_view(self.items@) }
    }
}

/// The transport envelope for an annotation bundle: a base64 text of the
/// serialized bundle.
pub struct MessageWrapper {
    pub content: String,
}

pub struct MessageWrapperV {
    pub content: Seq<char>,
}

impl View for MessageWrapper {
    type V = MessageWrapperV;

    open spec fn view(&self) -> MessageWrapperV {
        MessageWrapperV { content: self.content@ }
    }
}

/// A classified reading as the consumer stores it: content key, transport
/// address it arrived under, and the reading itself.
pub struct ReadingWrap {
    pub id: String,
    pub address: String,
    pub reading: SensorReading,
}

pub struct ReadingWrapV {
    pub id: Seq<char>,
    pub address: Seq<char>,
    pub reading: SensorReadingV,
}

impl View for ReadingWrap {
    type V = ReadingWrapV;

    open spec fn view(&self) -> ReadingWrapV {
        ReadingWrapV { id: self.id@, address: self.address@, reading: self.reading@ }
    }
}

impl ReadingWrap {
    pub fn duplicate(&self) -> (r: Self)
        ensures
            r@ == self@,
    {
        ReadingWrap {
            id: self.id.clone(),
            address: self.address.clone(),
            reading: self.reading.duplicate(),
        }
    }
}

pub open spec fn readings_view(s: Seq<ReadingWrap>) -> Seq<ReadingWrapV> {
    s.map_values(|r: ReadingWrap| r@)
}

/// An annotation as the consumer stores it, labelled with the key of the
/// reading it refers to.
pub struct AnnotationWrap {
    pub reading_id: String,
    pub annotation: Annotation,
}

pub struct AnnotationWrapV {
    pub reading_id: Seq<char>,
    pub annotation: AnnotationV,
}

impl View for AnnotationWrap {
    type V = AnnotationWrapV;

    open spec fn view(&self) -> AnnotationWrapV {
        AnnotationWrapV { reading_id: self.reading_id@, annotation: self.annotation@ }
    }
}

impl AnnotationWrap {
    pub fn duplicate(&self) -> (r: Self)
        ensures
            r@ == self@,
    {
        AnnotationWrap {
            reading_id: self.reading_id.clone(),
            annotation: self.annotation.duplicate(),
        }
    }
}

pub open spec fn ann_wraps_view(s: Seq<AnnotationWrap>) -> Seq<AnnotationWrapV> {
    s.map_values(|a: AnnotationWrap| a@)
}

/// Errors the producer-side components surface to their caller.
#[derive(Debug)]
pub enum Error {
    /// The local host name could not be resolved; annotation is impossible.
    NoHostName,
    /// The configured signing key does not have the expected length.
    InvalidSignKey,
}

} // verus!
