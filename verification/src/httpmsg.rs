//! Messages of the announcement exchange: the body that hands out the
//! session's public address, and the subscription request a joining party
//! sends back.

use vstd::prelude::*;
use vstd::string::StrSliceExecFns;
use vstd::string::StringExecFns;
use crate::json::{
    dec_nat, enc_json_string, enc_u64, json_string, lemma_sp_lit_pos, lemma_sp_number_at,
    lemma_sp_string_at, lemma_subrange_part, match_lit, parse_number_max, parse_string_at,
    sp_lit, sp_number_max, sp_string,
};

verus! {

/// The reply of the announcement endpoint: the session's public address.
pub struct AnnouncementResponse {
    pub announcement_id: String,
}

pub struct AnnouncementResponseV {
    pub announcement_id: Seq<char>,
}

impl View for AnnouncementResponse {
    type V = AnnouncementResponseV;

    open spec fn view(&self) -> AnnouncementResponseV {
        AnnouncementResponseV { announcement_id: self.announcement_id@ }
    }
}

pub open spec fn announcement_json(v: AnnouncementResponseV) -> Seq<char> {
    "{\"announcement_id\":"@ + json_string(v.announcement_id) + "}"@
}

pub open spec fn sp_announcement(s: Seq<char>, i: int) -> Option<(AnnouncementResponseV, int)> {
    match sp_lit(s, i, "{\"announcement_id\":"@) {
        Some(i1) => match sp_string(s, i1) {
            Some(r1) => match sp_lit(s, r1.1, "}"@) {
                Some(i2) => Some((AnnouncementResponseV { announcement_id: r1.0 }, i2)),
                None => None,
            },
            None => None,
        },
        None => None,
    }
}

pub open spec fn parse_announcement_spec(s: Seq<char>) -> Option<AnnouncementResponseV> {
    match sp_announcement(s, 0) {
        Some(r) => if r.1 == s.len() {
            Some(r.0)
        } else {
            None
        },
        None => None,
    }
}

pub fn decode_announcement(s: &str) -> (r: Option<AnnouncementResponse>)
    ensures
        match r {
            Some(v) => parse_announcement_spec(s@) == Some(v@),
            None => parse_announcement_spec(s@) is None,
        },
{
    let i1 = match match_lit(s, 0, "{\"announcement_id\":") {
        Some(j) => j,
        None => {
            return None;
        },
    };
    let (announcement_id, i2) = match parse_string_at(s, i1) {
        Some(t) => t,
        None => {
            return None;
        },
    };
    let i3 = match match_lit(s, i2, "}") {
        Some(j) => j,
        None => {
            return None;
        },
    };
    if i3 == s.unicode_len() {
        Some(AnnouncementResponse { announcement_id })
    } else {
        None
    }
}

pub fn encode_announcement(v: &AnnouncementResponse) -> (out: String)
    ensures
        out@ == announcement_json(v@),
{
    let mut out = String::new();
    out.append("{\"announcement_id\":");
    enc_json_string(&mut out, v.announcement_id.as_str());
    out.append("}");
    proof {
        assert(out@ =~= announcement_json(v@));
    }
    out
}

pub proof fn lemma_announcement_round_trip(v: AnnouncementResponseV)
    ensures
        parse_announcement_spec(announcement_json(v)) == Some(v),
{
    let w = announcement_json(v);
    let p1 = "{\"announcement_id\":"@;
    let p2 = json_string(v.announcement_id);
    let p3 = "}"@;
    let o1 = p1.len() as int;
    let o2 = o1 + p2.len();
    assert(w.subrange(0, w.len() as int) =~= w);
    assert(w.subrange(0, o1) =~= p1);
    lemma_subrange_part(w, 0, w, 0, p1);
    lemma_sp_lit_pos(w, 0, p1);
    assert(w.subrange(o1, o2) =~= p2);
    lemma_subrange_part(w, 0, w, o1, p2);
    lemma_sp_string_at(w, o1, v.announcement_id);
    assert(w.subrange(o2, o2 + p3.len() as int) =~= p3);
    lemma_subrange_part(w, 0, w, o2, p3);
    lemma_sp_lit_pos(w, o2, p3);
    assert(v == AnnouncementResponseV { announcement_id: v.announcement_id });
}

/// A request to join the stream: the subscription message's address, the
/// requester's identifier with its type, and the topic to branch for.
pub struct SubscriptionRequest {
    pub address: String,
    pub identifier: String,
    pub id_type: u8,
    pub topic: String,
}

pub struct SubscriptionRequestV {
    pub address: Seq<char>,
    pub identifier: Seq<char>,
    pub id_type: u8,
    pub topic: Seq<char>,
}

impl View for SubscriptionRequest {
    type V = SubscriptionRequestV;

    open spec fn view(&self) -> SubscriptionRequestV {
        SubscriptionRequestV {
            address: self.address@,
            identifier: self.identifier@,
            id_type: self.id_type,
            topic: self.topic@,
        }
    }
}

pub open spec fn subscription_json(v: SubscriptionRequestV) -> Seq<char> {
    "{\"address\":"@ + json_string(v.address) + ",\"identifier\":"@ + json_string(v.identifier)
        + ",\"idType\":"@ + dec_nat(v.id_type as nat) + ",\"topic\":"@ + json_string(v.topic)
        + "}"@
}

pub open spec fn sp_subscription(s: Seq<char>, i: int) -> Option<(SubscriptionRequestV, int)> {
    match sp_lit(s, i, "{\"address\":"@) {
        Some(i1) => match sp_string(s, i1) {
            Some(r1) => match sp_lit(s, r1.1, ",\"identifier\":"@) {
                Some(i2) => match sp_string(s, i2) {
                    Some(r2) => match sp_lit(s, r2.1, ",\"idType\":"@) {
                        Some(i3) => match sp_number_max(s, i3, 255) {
                            Some(r3) => match sp_lit(s, r3.1, ",\"topic\":"@) {
                                Some(i4) => match sp_string(s, i4) {
                                    Some(r4) => match sp_lit(s, r4.1, "}"@) {
                                        Some(i5) => Some(
                                            (
                                                SubscriptionRequestV {
                                                    address: r1.0,
                                                    identifier: r2.0,
                                                    id_type: r3.0 as u8,
                                                    topic: r4.0,
                                                },
                                                i5,
                                            ),
                                        ),
                                        None => None,
                                    },
                                    None => None,
                                },
                                None => None,
                            },
                            None => None,
                        },
                        None => None,
                    },
                    None => None,
                },
                None => None,
            },
            None => None,
        },
        None => None,
    }
}

pub open spec fn parse_subscription_spec(s: Seq<char>) -> Option<SubscriptionRequestV> {
    match sp_subscription(s, 0) {
        Some(r) => if r.1 == s.len() {
            Some(r.0)
        } else {
            None
        },
        None => None,
    }
}

/// Read a subscription request body; a malformed body yields nothing, which
/// the boundary turns into its bad-request reply.
pub fn decode_subscription(s: &str) -> (r: Option<SubscriptionRequest>)
    ensures
        match r {
            Some(v) => parse_subscription_spec(s@) == Some(v@),
            None => parse_subscription_spec(s@) is None,
        },
{
    let i1 = match match_lit(s, 0, "{\"address\":") {
        Some(j) => j,
        None => {
            return None;
        },
    };
    let (address, i2) = match parse_string_at(s, i1) {
        Some(t) => t,
        None => {
            return None;
        },
    };
    let i3 = match match_lit(s, i2, ",\"identifier\":") {
        Some(j) => j,
        None => {
            return None;
        },
    };
    let (identifier, i4) = match parse_string_at(s, i3) {
        Some(t) => t,
        None => {
            return None;
        },
    };
    let i5 = match match_lit(s, i4, ",\"idType\":") {
        Some(j) => j,
        None => {
            return None;
        },
    };
    let (id_type, i6) = match parse_number_max(s, i5, 255) {
        Some(t) => t,
        None => {
            return None;
        },
    };
    let i7 = match match_lit(s, i6, ",\"topic\":") {
        Some(j) => j,
        None => {
            return None;
        },
    };
    let (topic, i8) = match parse_string_at(s, i7) {
        Some(t) => t,
        None => {
            return None;
        },
    };
    let i9 = match match_lit(s, i8, "}") {
        Some(j) => j,
        None => {
            return None;
        },
    };
    if i9 == s.unicode_len() {
        Some(SubscriptionRequest { address, identifier, id_type: id_type as u8, topic })
    } else {
        None
    }
}

pub fn encode_subscription(v: &SubscriptionRequest) -> (out: String)
    ensures
        out@ == subscription_json(v@),
{
    let mut out = String::new();
    out.append("{\"address\":");
    enc_json_string(&mut out, v.address.as_str());
    out.append(",\"identifier\":");
    enc_json_string(&mut out, v.identifier.as_str());
    out.append(",\"idType\":");
    enc_u64(&mut out, v.id_type as u64);
    out.append(",\"topic\":");
    enc_json_string(&mut out, v.topic.as_str());
    out.append("}");
    proof {
        assert(out@ =~= subscription_json(v@));
    }
    out
}

#[verifier::rlimit(80)]
#[verifier::spinoff_prover]
pub proof fn lemma_subscription_round_trip(v: SubscriptionRequestV)
    ensures
        parse_subscription_spec(subscription_json(v)) == Some(v),
{
    reveal_strlit(",\"topic\":");
    reveal_strlit("}");
    let w = subscription_json(v);
    let p1 = "{\"address\":"@;
    let p2 = json_string(v.address);
    let p3 = ",\"identifier\":"@;
    let p4 = json_string(v.identifier);
    let p5 = ",\"idType\":"@;
    let p6 = dec_nat(v.id_type as nat);
    let p7 = ",\"topic\":"@;
    let p8 = json_string(v.topic);
    let p9 = "}"@;
    let o1 = p1.len() as int;
    let o2 = o1 + p2.len();
    let o3 = o2 + p3.len();
    let o4 = o3 + p4.len();
    let o5 = o4 + p5.len();
    let o6 = o5 + p6.len();
    let o7 = o6 + p7.len();
    let o8 = o7 + p8.len();
    assert(w.subrange(0, w.len() as int) =~= w);
    assert forall|k: int| 0 <= k < w.len() implies w.subrange(0, w.len() as int)[k] == w[k] by {}
    assert(w.subrange(0, o1) =~= p1);
    lemma_subrange_part(w, 0, w, 0, p1);
    lemma_sp_lit_pos(w, 0, p1);
    assert(w.subrange(o1, o2) =~= p2);
    lemma_subrange_part(w, 0, w, o1, p2);
    lemma_sp_string_at(w, o1, v.address);
    assert(w.subrange(o2, o3) =~= p3);
    lemma_subrange_part(w, 0, w, o2, p3);
    lemma_sp_lit_pos(w, o2, p3);
    assert(w.subrange(o3, o4) =~= p4);
    lemma_subrange_part(w, 0, w, o3, p4);
    lemma_sp_string_at(w, o3, v.identifier);
    assert(w.subrange(o4, o5) =~= p5);
    lemma_subrange_part(w, 0, w, o4, p5);
    lemma_sp_lit_pos(w, o4, p5);
    assert(w.subrange(o5, o6) =~= p6);
    lemma_subrange_part(w, 0, w, o5, p6);
    assert(w[o6] == ',');
    lemma_sp_number_at(w, o5, v.id_type as nat);
    assert(w.subrange(o6, o7) =~= p7);
    lemma_subrange_part(w, 0, w, o6, p7);
    lemma_sp_lit_pos(w, o6, p7);
    assert(w.subrange(o7, o8) =~= p8);
    lemma_subrange_part(w, 0, w, o7, p8);
    lemma_sp_string_at(w, o7, v.topic);
    assert(w.subrange(o8, o8 + p9.len() as int) =~= p9);
    lemma_subrange_part(w, 0, w, o8, p9);
    lemma_sp_lit_pos(w, o8, p9);
    assert(v == SubscriptionRequestV {
        address: v.address,
        identifier: v.identifier,
        id_type: (v.id_type as nat) as u8,
        topic: v.topic,
    });
}

} // verus!
