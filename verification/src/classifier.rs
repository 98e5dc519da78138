//! The message classifier: decides whether an opaque inbound message body is
//! a reading or an annotation bundle, by decode success rather than by any
//! envelope tag, and drops what decodes as neither.

use vstd::prelude::*;
use vstd::string::StringExecFns;
use vstd::utf8::{decode_utf8, encode_utf8, valid_utf8};
use crate::codec::{
    ann_list_json, decode_ann_list, decode_reading, decode_wrapper, encode_ann_list,
    encode_wrapper, lemma_ann_list_round_trip, lemma_reading_round_trip,
    lemma_wrapper_round_trip, parse_ann_list_spec, parse_reading_spec, parse_wrapper_spec,
    reading_json, wrapper_json,
};
use crate::data::{
    Annotation, AnnotationList, AnnotationListV, AnnotationV, AnnotationWrap, AnnotationWrapV,
    MessageWrapper, MessageWrapperV, ReadingWrap, ReadingWrapV, SensorReadingV, ann_wraps_view,
    anns_view,
};
use crate::json::lemma_sp_lit_mismatch;
use crate::providers::{b64_decode, b64_of, b64_of_chars, b64_encode_str, bytes_to_string,
    derive_key, key_of};

verus! {

/// The outcome of classifying one message body.
pub enum Classified {
    /// The body decoded as a reading; here is its stored record.
    Reading(ReadingWrap),
    /// The body decoded as an annotation bundle; here are its stored records.
    Annotations(Vec<AnnotationWrap>),
    /// The body decoded as neither and is dropped.
    Unrecognized,
}

pub enum ClassifiedV {
    Reading(ReadingWrapV),
    Annotations(Seq<AnnotationWrapV>),
    Unrecognized,
}

impl View for Classified {
    type V = ClassifiedV;

    open spec fn view(&self) -> ClassifiedV {
        match self {
            Classified::Reading(r) => ClassifiedV::Reading(r@),
            Classified::Annotations(v) => ClassifiedV::Annotations(ann_wraps_view(v@)),
            Classified::Unrecognized => ClassifiedV::Unrecognized,
        }
    }
}

/// A bundle is coherent when every item carries the bundle's subject key.
pub open spec fn bundle_keys_consistent(items: Seq<AnnotationV>) -> bool {
    forall|k: int| 0 <= k < items.len() ==> (#[trigger] items[k]).key == items[0].key
}

/// The stored records of a bundle: each item labelled with its subject key.
pub open spec fn wraps_of_items(items: Seq<AnnotationV>) -> Seq<AnnotationWrapV> {
    items.map_values(|a: AnnotationV| AnnotationWrapV { reading_id: a.key, annotation: a })
}

/// What a decoded bundle content yields: the records of its items, or
/// nothing if the bytes are not a coherent non-empty bundle.
pub open spec fn spec_unpack(content: Seq<u8>) -> Option<Seq<AnnotationWrapV>> {
    if valid_utf8(content) {
        match parse_ann_list_spec(decode_utf8(content)) {
            Some(l) => if l.items.len() > 0 && bundle_keys_consistent(l.items) {
                Some(wraps_of_items(l.items))
            } else {
                None
            },
            None => None,
        }
    } else {
        None
    }
}

/// The record a reading message classifies to.
pub open spec fn spec_classify_reading(address: Seq<char>, payload: Seq<char>) -> Option<
    ReadingWrapV,
> {
    match parse_reading_spec(payload) {
        Some(r) => Some(ReadingWrapV { id: key_of(payload), address, reading: r }),
        None => None,
    }
}

/// The content field of a payload that parses as an annotation envelope.
pub open spec fn payload_wrapper_content(payload: Seq<char>) -> Option<Seq<char>> {
    match parse_wrapper_spec(payload) {
        Some(w) => Some(w.content),
        None => None,
    }
}

pub open spec fn wrap_unpack(o: Option<Seq<AnnotationWrapV>>) -> ClassifiedV {
    match o {
        Some(v) => ClassifiedV::Annotations(v),
        None => ClassifiedV::Unrecognized,
    }
}

/// Everything classification promises about its outcome `cv` for a message
/// with this address and payload.
pub open spec fn classify_post(address: Seq<char>, payload: Seq<char>, cv: ClassifiedV) -> bool {
    &&& (match spec_classify_reading(address, payload) {
        Some(rw) => cv == ClassifiedV::Reading(rw),
        None => !(cv is Reading),
    })
    &&& (parse_reading_spec(payload) is None && parse_wrapper_spec(payload) is None ==> cv
        == ClassifiedV::Unrecognized)
    &&& (forall|x: Seq<u8>|
        parse_reading_spec(payload) is None && payload_wrapper_content(payload) == Some(
            #[trigger] b64_of(x),
        ) ==> cv == wrap_unpack(spec_unpack(x)))
    &&& (cv is Annotations ==> parse_reading_spec(payload) is None && parse_wrapper_spec(payload)
        is Some)
}

/// Read an annotation bundle out of its decoded content bytes. Either every
/// item of a coherent non-empty bundle is returned as a record, or the whole
/// bundle is rejected; nothing is ingested partially.
pub fn unpack_annotations(content: Vec<u8>) -> (r: Option<Vec<AnnotationWrap>>)
    ensures
        match r {
            Some(v) => spec_unpack(content@) == Some(ann_wraps_view(v@)),
            None => spec_unpack(content@) is None,
        },
{
    let ghost cv = content@;
    let text = match bytes_to_string(content) {
        Some(t) => t,
        None => {
            return None;
        },
    };
    let list = match decode_ann_list(text.as_str()) {
        Some(l) => l,
        None => {
            return None;
        },
    };
    if list.items.len() == 0 {
        return None;
    }
    let n = list.items.len();
    let mut k: usize = 1;
    let mut consistent = true;
    while k < n
        invariant
            1 <= k <= n,
            n == list.items@.len(),
            consistent == (forall|m: int| 0 <= m < k ==> #[trigger] list.items@[m]@.key
                == list.items@[0]@.key),
        decreases n - k,
    {
        let same = list.items[k].key == list.items[0].key;
        if !same {
            consistent = false;
        }
        proof {
            if same {
                assert(list.items@[k as int]@.key == list.items@[0]@.key);
            } else {
                assert(list.items@[k as int]@.key != list.items@[0]@.key);
            }
        }
        k += 1;
    }
    if !consistent {
        proof {
            let items = anns_view(list.items@);
            let m = choose|m: int|
                0 <= m < n && #[trigger] list.items@[m]@.key != list.items@[0]@.key;
            assert(items[m] == list.items@[m]@);
            assert(items[0] == list.items@[0]@);
            assert(items[m].key != items[0].key);
            assert(!bundle_keys_consistent(items));
            assert(spec_unpack(cv) is None);
        }
        return None;
    }
    proof {
        let items = anns_view(list.items@);
        assert forall|m: int| 0 <= m < items.len() implies (#[trigger] items[m]).key
            == items[0].key by {
            assert(items[m] == list.items@[m]@);
            assert(items[0] == list.items@[0]@);
        }
        assert(bundle_keys_consistent(items));
    }
    let mut out: Vec<AnnotationWrap> = Vec::new();
    let mut j: usize = 0;
    while j < n
        invariant
            j <= n,
            n == list.items@.len(),
            out@.len() == j,
            forall|m: int| 0 <= m < j ==> #[trigger] out@[m]@ == (AnnotationWrapV {
                reading_id: list.items@[m]@.key,
                annotation: list.items@[m]@,
            }),
        decreases n - j,
    {
        let item = &list.items[j];
        out.push(AnnotationWrap { reading_id: item.key.clone(), annotation: item.duplicate() });
        j += 1;
    }
    proof {
        let items = anns_view(list.items@);
        assert(ann_wraps_view(out@) =~= wraps_of_items(items));
    }
    Some(out)
}

/// Classify one inbound message body, with the transport address it arrived
/// under. A reading is tried first; failing that, an annotation envelope; a
/// body that is neither is dropped.
pub fn classify(address: &str, payload: &str) -> (r: Classified)
    ensures
        classify_post(address@, payload@, r@),
{
    match decode_reading(payload) {
        Some(reading) => {
            let key = derive_key(payload);
            Classified::Reading(
                ReadingWrap { id: key, address: String::from_str(address), reading },
            )
        },
        None => {
            let w = match decode_wrapper(payload) {
                Some(w) => w,
                None => {
                    return Classified::Unrecognized;
                },
            };
            match b64_decode(w.content.as_str()) {
                Some(bytes) => {
                    let ghost bv = bytes@;
                    match unpack_annotations(bytes) {
                        Some(wraps) => {
                            proof {
                                assert forall|x: Seq<u8>|
                                    payload_wrapper_content(payload@) == Some(#[trigger] b64_of(x))
                                        implies ClassifiedV::Annotations(ann_wraps_view(wraps@))
                                        == wrap_unpack(spec_unpack(x)) by {
                                    assert(bv == x);
                                }
                            }
                            Classified::Annotations(wraps)
                        },
                        None => {
                            proof {
                                assert forall|x: Seq<u8>|
                                    payload_wrapper_content(payload@) == Some(#[trigger] b64_of(x))
                                        implies ClassifiedV::Unrecognized == wrap_unpack(
                                        spec_unpack(x),
                                    ) by {
                                    assert(bv == x);
                                }
                            }
                            Classified::Unrecognized
                        },
                    }
                },
                None => {
                    proof {
                        assert forall|x: Seq<u8>| !(payload_wrapper_content(payload@) == Some(
                            #[trigger] b64_of(x),
                        )) by {
                            assert(w@.content != b64_of(x));
                        }
                    }
                    Classified::Unrecognized
                },
            }
        },
    }
}

/// Build the transport message body for an annotation bundle: the bundle's
/// canonical text, base64-encoded, inside an annotation envelope.
pub fn make_bundle_message(list: &AnnotationList) -> (r: String)
    ensures
        r@ == wrapper_json(MessageWrapperV { content: b64_of_chars(ann_list_json(list@)) }),
{
    let json = encode_ann_list(list);
    let content = b64_encode_str(json.as_str());
    let w = MessageWrapper { content };
    encode_wrapper(&w)
}

// ---------------------------------------------------------------------------
// Laws of classification
// ---------------------------------------------------------------------------

/// An encoded annotation envelope never parses as a reading.
pub proof fn lemma_wrapper_not_reading(w: MessageWrapperV)
    ensures
        parse_reading_spec(wrapper_json(w)) is None,
{
    reveal_strlit("{\"id\":");
    reveal_strlit("{\"content\":");
    let s = wrapper_json(w);
    assert(("{\"content\":"@)[2] == 'c');
    assert(s[2] == 'c');
    assert(("{\"id\":"@)[2] == 'i');
    lemma_sp_lit_mismatch(s, 0, "{\"id\":"@, 2);
}

/// Round trip of a reading message: encoding a reading and classifying the
/// result yields a record carrying that very reading and the payload's key.
pub proof fn lemma_classify_reading_round_trip(address: Seq<char>, r: SensorReadingV)
    ensures
        spec_classify_reading(address, reading_json(r)) == Some(
            ReadingWrapV { id: key_of(reading_json(r)), address, reading: r },
        ),
{
    lemma_reading_round_trip(r);
}

/// Round trip of a bundle message: the body built for a coherent non-empty
/// bundle never reads as a reading, and its content decodes back to one
/// record per item, each labelled with the item's subject key.
/// Any outcome classification allows for an encoded reading is the record
/// carrying that reading and the payload's content key.
pub proof fn lemma_classified_reading(address: Seq<char>, r: SensorReadingV, cv: ClassifiedV)
    requires
        classify_post(address, reading_json(r), cv),
    ensures
        cv == ClassifiedV::Reading(
            ReadingWrapV { id: key_of(reading_json(r)), address, reading: r },
        ),
{
    lemma_reading_round_trip(r);
}

/// Any outcome classification allows for the message built from a coherent
/// non-empty bundle is one record per item, under the bundle's subject key.
pub proof fn lemma_classified_bundle(address: Seq<char>, items: Seq<AnnotationV>, cv: ClassifiedV)
    requires
        items.len() > 0,
        bundle_keys_consistent(items),
        classify_post(
            address,
            wrapper_json(
                MessageWrapperV { content: b64_of_chars(ann_list_json(AnnotationListV { items })) },
            ),
            cv,
        ),
    ensures
        cv == ClassifiedV::Annotations(wraps_of_items(items)),
{
    let body = ann_list_json(AnnotationListV { items });
    lemma_classify_bundle_round_trip(items);
    assert(cv == wrap_unpack(spec_unpack(encode_utf8(body))));
}

pub proof fn lemma_classify_bundle_round_trip(items: Seq<AnnotationV>)
    requires
        items.len() > 0,
        bundle_keys_consistent(items),
    ensures
        ({
            let body = ann_list_json(AnnotationListV { items });
            let payload = wrapper_json(MessageWrapperV { content: b64_of_chars(body) });
            &&& parse_reading_spec(payload) is None
            &&& payload_wrapper_content(payload) == Some(b64_of(encode_utf8(body)))
            &&& spec_unpack(encode_utf8(body)) == Some(wraps_of_items(items))
        }),
{
    let body = ann_list_json(AnnotationListV { items });
    let wv = MessageWrapperV { content: b64_of_chars(body) };
    let payload = wrapper_json(wv);
    lemma_wrapper_not_reading(wv);
    lemma_wrapper_round_trip(wv);
    vstd::utf8::encode_utf8_valid_utf8(body);
    vstd::utf8::encode_utf8_decode_utf8(body);
    lemma_ann_list_round_trip(AnnotationListV { items });
}

} // verus!
