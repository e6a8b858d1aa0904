//! Envelope codec: the closed set of message variants carried inside frames,
//! with a self-describing encoding.
//!
//! An envelope is one tag byte naming the variant, then the variant's
//! fields. A string field is its UTF-8 bytes behind an 8-byte big-endian
//! length; a count field is 4 bytes big-endian; a sequence of summaries is
//! an 8-byte big-endian element count followed by the elements. Decoding is
//! strict: it succeeds exactly on the byte strings that `encode` produces,
//! and rejects truncated input, malformed fields, trailing bytes and
//! unrecognized tags.

use crate::bytes::{
    be_bytes, lemma_be_bytes_injective, lemma_be_bytes_len, pow256, push_be4, push_be8, read_be4,
    read_be8,
};
use vstd::prelude::*;
use vstd::utf8::{
    encode_utf8, encode_utf8_decode_utf8, encode_utf8_valid_utf8, valid_utf8,
};

verus! {

broadcast use vstd::std_specs::vec::group_vec_axioms;

/// Ask the server for the list of conversations.
#[derive(Debug, PartialEq)]
pub struct ListRequest {}

/// One conversation in a listing: its id and how many members and messages
/// it holds at the moment of the snapshot.
#[derive(Debug, PartialEq)]
pub struct ConversationSummary {
    pub id: String,
    pub user_count: u32,
    pub message_count: u32,
}

/// The server's answer to a `ListRequest`.
#[derive(Debug, PartialEq)]
pub struct ListResponse {
    pub conversations: Vec<ConversationSummary>,
}

/// Ask the server to join a conversation, creating it if needed.
#[derive(Debug, PartialEq)]
pub struct JoinRequest {
    pub conversation_id: String,
}

/// A line of text a client posts to its current conversation.
#[derive(Debug, PartialEq)]
pub struct ClientText {
    pub text: String,
}

/// A line of text the server pushes to a client.
#[derive(Debug, PartialEq)]
pub struct ChatMessage {
    pub text: String,
}

/// An error notice the server pushes to a client.
#[derive(Debug, PartialEq)]
pub struct Error {
    pub message: String,
}

/// The closed set of envelopes. Clients send `ListRequest`, `JoinRequest`
/// and `ClientText`; the server sends `ListResponse`, `ChatMessage` and
/// `Error`.
#[derive(Debug, PartialEq)]
pub enum Message {
    ListRequest(ListRequest),
    ListResponse(ListResponse),
    JoinRequest(JoinRequest),
    ClientText(ClientText),
    ChatMessage(ChatMessage),
    Error(Error),
}

/// Mathematical model of a `ConversationSummary`.
#[verifier::ext_equal]
pub ghost struct SummaryV {
    pub id: Seq<char>,
    pub user_count: u32,
    pub message_count: u32,
}

/// Mathematical model of a `Message`.
#[verifier::ext_equal]
pub ghost enum EnvelopeV {
    ListRequest,
    ListResponse { conversations: Seq<SummaryV> },
    JoinRequest { conversation_id: Seq<char> },
    ClientText { text: Seq<char> },
    ChatMessage { text: Seq<char> },
    Error { message: Seq<char> },
}

impl View for ConversationSummary {
    type V = SummaryV;

    open spec fn view(&self) -> SummaryV {
        SummaryV { id: self.id@, user_count: self.user_count, message_count: self.message_count }
    }
}

/// The models of a sequence of summaries.
pub open spec fn views_of(v: Seq<ConversationSummary>) -> Seq<SummaryV> {
    v.map_values(|c: ConversationSummary| c@)
}

impl View for Message {
    type V = EnvelopeV;

    open spec fn view(&self) -> EnvelopeV {
        match self {
            Message::ListRequest(_) => EnvelopeV::ListRequest,
            Message::ListResponse(m) => EnvelopeV::ListResponse {
                conversations: views_of(m.conversations@),
            },
            Message::JoinRequest(m) => EnvelopeV::JoinRequest {
                conversation_id: m.conversation_id@,
            },
            Message::ClientText(m) => EnvelopeV::ClientText { text: m.text@ },
            Message::ChatMessage(m) => EnvelopeV::ChatMessage { text: m.text@ },
            Message::Error(m) => EnvelopeV::Error { message: m.message@ },
        }
    }
}

/// The tag byte that opens each variant's encoding.
pub open spec fn tag_of(m: EnvelopeV) -> u8 {
    match m {
        EnvelopeV::ListRequest => 1,
        EnvelopeV::ListResponse { .. } => 2,
        EnvelopeV::JoinRequest { .. } => 3,
        EnvelopeV::ClientText { .. } => 4,
        EnvelopeV::ChatMessage { .. } => 5,
        EnvelopeV::Error { .. } => 6,
    }
}

/// A string field on the wire: 8-byte big-endian byte length, then the
/// UTF-8 bytes.
pub open spec fn str_enc(s: Seq<char>) -> Seq<u8> {
    be_bytes(encode_utf8(s).len(), 8) + encode_utf8(s)
}

/// A string fits on the wire: its UTF-8 form fits the 8-byte length field.
/// Every string held in memory satisfies this.
pub open spec fn wf_str(s: Seq<char>) -> bool {
    encode_utf8(s).len() < pow256(8)
}

/// One summary on the wire: id, member count, message count.
pub open spec fn sum_enc(s: SummaryV) -> Seq<u8> {
    str_enc(s.id) + be_bytes(s.user_count as nat, 4) + be_bytes(s.message_count as nat, 4)
}

/// A sequence of summaries on the wire, one after the other.
pub open spec fn sums_enc(cs: Seq<SummaryV>) -> Seq<u8>
    decreases cs.len(),
{
    if cs.len() == 0 {
        Seq::empty()
    } else {
        sum_enc(cs[0]) + sums_enc(cs.drop_first())
    }
}

/// All summary ids in the sequence fit on the wire.
pub open spec fn wf_sums(cs: Seq<SummaryV>) -> bool {
    forall|i: int| 0 <= i < cs.len() ==> wf_str(#[trigger] cs[i].id)
}

/// An envelope fits on the wire: all strings and counts fit their length
/// fields. Every envelope held in memory satisfies this.
pub open spec fn wf_envelope(m: EnvelopeV) -> bool {
    match m {
        EnvelopeV::ListRequest => true,
        EnvelopeV::ListResponse { conversations } => conversations.len() < pow256(8) && wf_sums(
            conversations,
        ),
        EnvelopeV::JoinRequest { conversation_id } => wf_str(conversation_id),
        EnvelopeV::ClientText { text } => wf_str(text),
        EnvelopeV::ChatMessage { text } => wf_str(text),
        EnvelopeV::Error { message } => wf_str(message),
    }
}

/// The exact bytes of an envelope: the tag, then the fields.
pub open spec fn envelope_enc(m: EnvelopeV) -> Seq<u8> {
    match m {
        EnvelopeV::ListRequest => seq![1u8],
        EnvelopeV::ListResponse { conversations } => seq![2u8] + be_bytes(conversations.len(), 8)
            + sums_enc(conversations),
        EnvelopeV::JoinRequest { conversation_id } => seq![3u8] + str_enc(conversation_id),
        EnvelopeV::ClientText { text } => seq![4u8] + str_enc(text),
        EnvelopeV::ChatMessage { text } => seq![5u8] + str_enc(text),
        EnvelopeV::Error { message } => seq![6u8] + str_enc(message),
    }
}

/// Splitting a summary sequence's encoding after the first element.
proof fn lemma_sums_enc_concat(a: Seq<SummaryV>, b: Seq<SummaryV>)
    ensures
        sums_enc(a + b) == sums_enc(a) + sums_enc(b),
    decreases a.len(),
{
    if a.len() == 0 {
        assert(a + b =~= b);
        assert(sums_enc(a) + sums_enc(b) =~= sums_enc(b));
    } else {
        assert((a + b).drop_first() =~= a.drop_first() + b);
        lemma_sums_enc_concat(a.drop_first(), b);
        assert(sum_enc(a[0]) + (sums_enc(a.drop_first()) + sums_enc(b)) =~= (sum_enc(a[0])
            + sums_enc(a.drop_first())) + sums_enc(b));
    }
}

/// Appending one summary appends its encoding.
proof fn lemma_sums_enc_push(cs: Seq<SummaryV>, i: int)
    requires
        0 <= i < cs.len(),
    ensures
        sums_enc(cs.subrange(0, i + 1)) == sums_enc(cs.subrange(0, i)) + sum_enc(cs[i]),
{
    reveal_with_fuel(sums_enc, 3);
    let one = seq![cs[i]];
    assert(cs.subrange(0, i + 1) =~= cs.subrange(0, i) + one);
    lemma_sums_enc_concat(cs.subrange(0, i), one);
    assert(one.drop_first() =~= Seq::<SummaryV>::empty());
    assert(sums_enc(one) =~= sum_enc(cs[i]));
}

/// The suffix of `b` from position `off` on.
pub open spec fn tail_from(b: Seq<u8>, off: int) -> Seq<u8> {
    b.subrange(off, b.len() as int)
}

/// `p` is a prefix of `b`.
pub open spec fn starts_with(b: Seq<u8>, p: Seq<u8>) -> bool {
    p.len() <= b.len() && b.subrange(0, p.len() as int) == p
}

/// The two length fields' ranges, written out.
proof fn lemma_pow256_vals()
    ensures
        pow256(4) == 0x100000000,
        pow256(8) == 0x10000000000000000,
{
    reveal_with_fuel(pow256, 9);
}

/// Append a string field to `out`.
fn push_string(out: &mut Vec<u8>, s: &String)
    ensures
        final(out)@ == old(out)@ + str_enc(s@),
        wf_str(s@),
{
    let sb: &[u8] = s.as_str().as_bytes();
    let n: usize = sb.len();
    proof {
        broadcast use vstd::slice::group_slice_axioms;

        assert(sb@ == encode_utf8(s@));
        assert(pow256(8) == 0x10000000000000000) by {
            reveal_with_fuel(pow256, 9);
        }
        assert(usize::MAX <= u64::MAX);
    }
    push_be8(out, n as u64);
    out.extend_from_slice(sb);
    proof {
        assert(out@ =~= old(out)@ + str_enc(s@));
    }
}

/// Append one summary to `out`.
fn push_summary(out: &mut Vec<u8>, s: &ConversationSummary)
    ensures
        final(out)@ == old(out)@ + sum_enc(s@),
        wf_str(s@.id),
{
    push_string(out, &s.id);
    push_be4(out, s.user_count);
    push_be4(out, s.message_count);
    proof {
        assert(out@ =~= old(out)@ + sum_enc(s@));
    }
}

impl Message {
    /// Encode this envelope. Total: every envelope held in memory encodes.
    pub fn encode(&self) -> (r: Vec<u8>)
        ensures
            r@ == envelope_enc(self@),
            wf_envelope(self@),
    {
        let mut out: Vec<u8> = Vec::new();
        match self {
            Message::ListRequest(_) => {
                out.push(1u8);
                proof {
                    assert(out@ =~= envelope_enc(self@));
                }
            },
            Message::ListResponse(m) => {
                out.push(2u8);
                let ghost cs = views_of(m.conversations@);
                let cnt: usize = m.conversations.len();
                proof {
                    assert(pow256(8) == 0x10000000000000000) by {
                        reveal_with_fuel(pow256, 9);
                    }
                    assert(usize::MAX <= u64::MAX);
                }
                push_be8(&mut out, cnt as u64);
                let mut i: usize = 0;
                proof {
                    assert(cs.subrange(0, 0) =~= Seq::<SummaryV>::empty());
                    assert(out@ =~= seq![2u8] + be_bytes(cs.len(), 8) + sums_enc(
                        cs.subrange(0, 0),
                    ));
                }
                while i < cnt
                    invariant
                        i <= cnt,
                        cnt == m.conversations.len(),
                        cs == views_of(m.conversations@),
                        out@ == seq![2u8] + be_bytes(cs.len(), 8) + sums_enc(
                            cs.subrange(0, i as int),
                        ),
                        forall|j: int| 0 <= j < i ==> wf_str(#[trigger] cs[j].id),
                    decreases cnt - i,
                {
                    push_summary(&mut out, &m.conversations[i]);
                    proof {
                        lemma_sums_enc_push(cs, i as int);
                    }
                    i = i + 1;
                }
                proof {
                    assert(cs.subrange(0, cnt as int) =~= cs);
                    assert(out@ =~= envelope_enc(self@));
                }
            },
            Message::JoinRequest(m) => {
                out.push(3u8);
                push_string(&mut out, &m.conversation_id);
                proof {
                    assert(out@ =~= envelope_enc(self@));
                }
            },
            Message::ClientText(m) => {
                out.push(4u8);
                push_string(&mut out, &m.text);
                proof {
                    assert(out@ =~= envelope_enc(self@));
                }
            },
            Message::ChatMessage(m) => {
                out.push(5u8);
                push_string(&mut out, &m.text);
                proof {
                    assert(out@ =~= envelope_enc(self@));
                }
            },
            Message::Error(m) => {
                out.push(6u8);
                push_string(&mut out, &m.message);
                proof {
                    assert(out@ =~= envelope_enc(self@));
                }
            },
        }
        out
    }
}

/// A payload that is not the encoding of any envelope, with a diagnostic.
/// Distinct from a frame-level end of stream: a bad payload is answered and
/// the connection lives on.
#[derive(Debug)]
pub struct DecodeError {
    pub detail: String,
}

fn derr(detail: &str) -> DecodeError {
    DecodeError { detail: detail.to_owned() }
}

/// Relies on `String::from_utf8`: on input that is valid UTF-8 it returns
/// the string whose UTF-8 encoding is exactly the input, and it fails
/// exactly on input that is not valid UTF-8.
#[verifier::external_body]
fn string_from_utf8(bytes: Vec<u8>) -> (r: Option<String>)
    ensures
        r matches Some(s) ==> encode_utf8(s@) == bytes@,
        valid_utf8(bytes@) ==> r is Some,
{
    String::from_utf8(bytes).ok()
}

/// Parse the string field at `off`: its value and the position after it.
/// On failure, no string field at all starts at `off`.
fn read_string_at(b: &Vec<u8>, off: usize) -> (r: Result<(String, usize), DecodeError>)
    requires
        off <= b.len(),
    ensures
        match r {
            Ok(p) => {
                &&& off < p.1 <= b@.len()
                &&& str_enc(p.0@) == b@.subrange(off as int, p.1 as int)
                &&& wf_str(p.0@)
                &&& forall|t: Seq<char>|
                    wf_str(t) && #[trigger] starts_with(tail_from(b@, off as int), str_enc(t))
                        ==> t == p.0@ && str_enc(t).len() == p.1 - off
            },
            Err(_) => forall|t: Seq<char>|
                wf_str(t) ==> !#[trigger] starts_with(tail_from(b@, off as int), str_enc(t)),
        },
{
    let ghost tail = tail_from(b@, off as int);
    proof {
        lemma_pow256_vals();
    }
    if b.len() - off < 8 {
        proof {
            assert forall|t: Seq<char>| wf_str(t) implies !starts_with(tail, str_enc(t)) by {
                lemma_be_bytes_len(encode_utf8(t).len(), 8);
            }
        }
        return Err(derr("string field: truncated length"));
    }
    let n64 = read_be8(b, off);
    proof {
        // Any string field starting here announces its byte length in the
        // same 8 bytes that `n64` came from.
        assert forall|t: Seq<char>|
            wf_str(t) && #[trigger] starts_with(tail, str_enc(t)) implies encode_utf8(t).len()
            == n64 as nat by {
            lemma_be_bytes_len(encode_utf8(t).len(), 8);
            assert(str_enc(t).subrange(0, 8) =~= be_bytes(encode_utf8(t).len(), 8));
            assert(tail.subrange(0, str_enc(t).len() as int).subrange(0, 8) =~= b@.subrange(
                off as int,
                off as int + 8,
            ));
            lemma_be_bytes_injective(encode_utf8(t).len(), n64 as nat, 8);
        }
    }
    let rem = b.len() - off - 8;
    if n64 > rem as u64 {
        proof {
            assert forall|t: Seq<char>| wf_str(t) implies !starts_with(tail, str_enc(t)) by {
                if starts_with(tail, str_enc(t)) {
                    lemma_be_bytes_len(encode_utf8(t).len(), 8);
                }
            }
        }
        return Err(derr("string field: truncated bytes"));
    }
    let n = n64 as usize;
    let mut sb: Vec<u8> = Vec::new();
    let mut i: usize = 0;
    while i < n
        invariant
            i <= n,
            off + 8 + n <= b.len(),
            sb@ == b@.subrange(off as int + 8, off as int + 8 + i as int),
        decreases n - i,
    {
        sb.push(b[off + 8 + i]);
        i = i + 1;
        proof {
            assert(sb@ =~= b@.subrange(off as int + 8, off as int + 8 + i as int));
        }
    }
    let ghost slice = b@.subrange(off as int + 8, off as int + 8 + n as int);
    proof {
        // Any string field starting here carries exactly the bytes of
        // `slice` as its UTF-8 form.
        assert forall|t: Seq<char>|
            wf_str(t) && #[trigger] starts_with(tail, str_enc(t)) implies encode_utf8(t)
            == slice by {
            lemma_be_bytes_len(encode_utf8(t).len(), 8);
            assert(encode_utf8(t) =~= tail.subrange(0, str_enc(t).len() as int).subrange(
                8,
                str_enc(t).len() as int,
            ));
            assert(tail.subrange(0, str_enc(t).len() as int).subrange(8, str_enc(t).len() as int)
                =~= slice);
        }
    }
    match string_from_utf8(sb) {
        None => {
            proof {
                assert forall|t: Seq<char>| wf_str(t) implies !starts_with(tail, str_enc(t)) by {
                    if starts_with(tail, str_enc(t)) {
                        encode_utf8_valid_utf8(t);
                    }
                }
            }
            Err(derr("string field: not valid UTF-8"))
        },
        Some(s) => {
            proof {
                lemma_be_bytes_len(n64 as nat, 8);
                assert(str_enc(s@) =~= b@.subrange(off as int, off as int + 8 + n as int));
                assert forall|t: Seq<char>|
                    wf_str(t) && #[trigger] starts_with(tail, str_enc(t)) implies t == s@
                    && str_enc(t).len() == 8 + n by {
                    encode_utf8_decode_utf8(t);
                    encode_utf8_decode_utf8(s@);
                    lemma_be_bytes_len(encode_utf8(t).len(), 8);
                }
            }
            Ok((s, off + 8 + n))
        },
    }
}

/// Parse the summary at `off`: its value and the position after it.
/// On failure, no summary at all starts at `off`.
fn read_summary_at(b: &Vec<u8>, off: usize) -> (r: Result<(ConversationSummary, usize), DecodeError>)
    requires
        off <= b.len(),
    ensures
        match r {
            Ok(p) => {
                &&& off < p.1 <= b@.len()
                &&& sum_enc(p.0@) == b@.subrange(off as int, p.1 as int)
                &&& wf_str(p.0@.id)
                &&& forall|s: SummaryV|
                    wf_str(s.id) && #[trigger] starts_with(tail_from(b@, off as int), sum_enc(s))
                        ==> s == p.0@ && sum_enc(s).len() == p.1 - off
            },
            Err(_) => forall|s: SummaryV|
                wf_str(s.id) ==> !#[trigger] starts_with(tail_from(b@, off as int), sum_enc(s)),
        },
{
    let ghost tail = tail_from(b@, off as int);
    proof {
        lemma_pow256_vals();
        // A summary starting here starts with its id's string field.
        assert forall|s: SummaryV|
            wf_str(s.id) && #[trigger] starts_with(tail, sum_enc(s)) implies starts_with(
            tail,
            str_enc(s.id),
        ) by {
            lemma_be_bytes_len(s.user_count as nat, 4);
            lemma_be_bytes_len(s.message_count as nat, 4);
            assert(sum_enc(s).subrange(0, str_enc(s.id).len() as int) =~= str_enc(s.id));
            assert(tail.subrange(0, str_enc(s.id).len() as int) =~= tail.subrange(
                0,
                sum_enc(s).len() as int,
            ).subrange(0, str_enc(s.id).len() as int));
        }
    }
    let id_next = match read_string_at(b, off) {
        Ok(p) => p,
        Err(e) => {
            return Err(e);
        },
    };
    let id = id_next.0;
    let next1 = id_next.1;
    if b.len() - next1 < 8 {
        proof {
            assert forall|s: SummaryV| wf_str(s.id) implies !starts_with(tail, sum_enc(s)) by {
                if starts_with(tail, sum_enc(s)) {
                    lemma_be_bytes_len(s.user_count as nat, 4);
                    lemma_be_bytes_len(s.message_count as nat, 4);
                }
            }
        }
        return Err(derr("summary: truncated counts"));
    }
    let uc = read_be4(b, next1);
    let mc = read_be4(b, next1 + 4);
    let next = next1 + 8;
    let summary = ConversationSummary { id, user_count: uc, message_count: mc };
    proof {
        lemma_be_bytes_len(uc as nat, 4);
        lemma_be_bytes_len(mc as nat, 4);
        assert(sum_enc(summary@) =~= b@.subrange(off as int, next as int));
        assert forall|s: SummaryV|
            wf_str(s.id) && #[trigger] starts_with(tail, sum_enc(s)) implies s == summary@
            && sum_enc(s).len() == next - off by {
            lemma_be_bytes_len(encode_utf8(s.id).len(), 8);
            lemma_be_bytes_len(s.user_count as nat, 4);
            lemma_be_bytes_len(s.message_count as nat, 4);
            let se = sum_enc(s);
            let l = str_enc(s.id).len() as int;
            assert(be_bytes(s.user_count as nat, 4) =~= tail.subrange(0, se.len() as int).subrange(
                l,
                l + 4,
            ));
            assert(tail.subrange(0, se.len() as int).subrange(l, l + 4) =~= b@.subrange(
                next1 as int,
                next1 as int + 4,
            ));
            lemma_be_bytes_injective(s.user_count as nat, uc as nat, 4);
            assert(be_bytes(s.message_count as nat, 4) =~= tail.subrange(
                0,
                se.len() as int,
            ).subrange(l + 4, l + 8));
            assert(tail.subrange(0, se.len() as int).subrange(l + 4, l + 8) =~= b@.subrange(
                next1 as int + 4,
                next1 as int + 8,
            ));
            lemma_be_bytes_injective(s.message_count as nat, mc as nat, 4);
            assert(s =~= summary@);
        }
    }
    Ok((summary, next))
}

/// How an envelope's encoding opens, for each variant.
proof fn lemma_enc_shape(x: EnvelopeV)
    ensures
        envelope_enc(x).len() >= 1,
        envelope_enc(x)[0] == tag_of(x),
        x is ListRequest ==> envelope_enc(x).len() == 1,
        x matches EnvelopeV::ListResponse { conversations } ==> envelope_enc(x).len() >= 9
            && envelope_enc(x).subrange(1, 9) == be_bytes(conversations.len(), 8) && tail_from(
            envelope_enc(x),
            9,
        ) == sums_enc(conversations),
        x matches EnvelopeV::JoinRequest { conversation_id } ==> tail_from(envelope_enc(x), 1)
            == str_enc(conversation_id),
        x matches EnvelopeV::ClientText { text } ==> tail_from(envelope_enc(x), 1) == str_enc(text),
        x matches EnvelopeV::ChatMessage { text } ==> tail_from(envelope_enc(x), 1) == str_enc(
            text,
        ),
        x matches EnvelopeV::Error { message } ==> tail_from(envelope_enc(x), 1) == str_enc(
            message,
        ),
{
    match x {
        EnvelopeV::ListRequest => {},
        EnvelopeV::ListResponse { conversations } => {
            lemma_be_bytes_len(conversations.len(), 8);
            assert(envelope_enc(x).subrange(1, 9) =~= be_bytes(conversations.len(), 8));
            assert(tail_from(envelope_enc(x), 9) =~= sums_enc(conversations));
        },
        EnvelopeV::JoinRequest { conversation_id } => {
            assert(tail_from(envelope_enc(x), 1) =~= str_enc(conversation_id));
        },
        EnvelopeV::ClientText { text } => {
            assert(tail_from(envelope_enc(x), 1) =~= str_enc(text));
        },
        EnvelopeV::ChatMessage { text } => {
            assert(tail_from(envelope_enc(x), 1) =~= str_enc(text));
        },
        EnvelopeV::Error { message } => {
            assert(tail_from(envelope_enc(x), 1) =~= str_enc(message));
        },
    }
}

impl Message {
    /// Decode a frame payload. Succeeds exactly on the byte strings that
    /// `encode` produces, and then yields exactly the envelope that was
    /// encoded. Anything else — truncated input, an unrecognized tag, bytes
    /// that are not UTF-8 where a string belongs, trailing bytes — is
    /// rejected with a diagnostic.
    ///
    /// Law: round-trip. For any envelope `e`, `encode` gives the bytes
    /// `envelope_enc(e@)`; the second clause below, taken at `e@`, says that
    /// `decode` of those bytes returns `Ok` of an envelope modelling `e@`.
    #[verifier::loop_isolation(false)]
    #[verifier::rlimit(60)]
    pub fn decode(b: &Vec<u8>) -> (r: Result<Message, DecodeError>)
        ensures
            r matches Ok(m) ==> envelope_enc(m@) == b@ && wf_envelope(m@),
            forall|x: EnvelopeV|
                wf_envelope(x) && #[trigger] envelope_enc(x) == b@ ==> r is Ok && r->Ok_0@ == x,
    {
        proof {
            lemma_pow256_vals();
        }
        if b.len() == 0 {
            proof {
                assert forall|x: EnvelopeV|
                    !(wf_envelope(x) && #[trigger] envelope_enc(x) == b@) by {
                    lemma_enc_shape(x);
                }
            }
            return Err(derr("empty payload"));
        }
        let tag = b[0];
        if tag == 1 {
            if b.len() != 1 {
                proof {
                    assert forall|x: EnvelopeV|
                        !(wf_envelope(x) && #[trigger] envelope_enc(x) == b@) by {
                        lemma_enc_shape(x);
                    }
                }
                return Err(derr("list request: trailing bytes"));
            }
            let m = Message::ListRequest(ListRequest {});
            proof {
                assert(envelope_enc(m@) =~= b@);
                assert forall|x: EnvelopeV|
                    wf_envelope(x) && #[trigger] envelope_enc(x) == b@ implies m@ == x by {
                    lemma_enc_shape(x);
                }
            }
            Ok(m)
        } else if tag == 2 {
            decode_listing(b)
        } else if tag == 3 || tag == 4 || tag == 5 || tag == 6 {
            let parsed = match read_string_at(b, 1) {
                Ok(p) => p,
                Err(e) => {
                    proof {
                        assert forall|x: EnvelopeV|
                            !(wf_envelope(x) && #[trigger] envelope_enc(x) == b@) by {
                            if wf_envelope(x) && envelope_enc(x) == b@ {
                                lemma_enc_shape(x);
                                match x {
                                    EnvelopeV::ListRequest => {},
                                    EnvelopeV::ListResponse { .. } => {},
                                    EnvelopeV::JoinRequest { conversation_id: t } => {
                                        lemma_starts_with_whole(b@, str_enc(t));
                                    },
                                    EnvelopeV::ClientText { text: t } => {
                                        lemma_starts_with_whole(b@, str_enc(t));
                                    },
                                    EnvelopeV::ChatMessage { text: t } => {
                                        lemma_starts_with_whole(b@, str_enc(t));
                                    },
                                    EnvelopeV::Error { message: t } => {
                                        lemma_starts_with_whole(b@, str_enc(t));
                                    },
                                }
                            }
                        }
                    }
                    return Err(e);
                },
            };
            let s = parsed.0;
            let next = parsed.1;
            if next != b.len() {
                proof {
                    assert forall|x: EnvelopeV|
                        !(wf_envelope(x) && #[trigger] envelope_enc(x) == b@) by {
                        if wf_envelope(x) && envelope_enc(x) == b@ {
                            lemma_enc_shape(x);
                            match x {
                                EnvelopeV::ListRequest => {},
                                EnvelopeV::ListResponse { .. } => {},
                                EnvelopeV::JoinRequest { conversation_id: t } => {
                                    lemma_starts_with_whole(b@, str_enc(t));
                                },
                                EnvelopeV::ClientText { text: t } => {
                                    lemma_starts_with_whole(b@, str_enc(t));
                                },
                                EnvelopeV::ChatMessage { text: t } => {
                                    lemma_starts_with_whole(b@, str_enc(t));
                                },
                                EnvelopeV::Error { message: t } => {
                                    lemma_starts_with_whole(b@, str_enc(t));
                                },
                            }
                        }
                    }
                }
                return Err(derr("envelope: trailing bytes"));
            }
            let m = if tag == 3 {
                Message::JoinRequest(JoinRequest { conversation_id: s })
            } else if tag == 4 {
                Message::ClientText(ClientText { text: s })
            } else if tag == 5 {
                Message::ChatMessage(ChatMessage { text: s })
            } else {
                Message::Error(Error { message: s })
            };
            proof {
                assert(envelope_enc(m@) =~= b@);
                assert forall|x: EnvelopeV|
                    wf_envelope(x) && #[trigger] envelope_enc(x) == b@ implies m@ == x by {
                    lemma_enc_shape(x);
                    match x {
                        EnvelopeV::ListRequest => {},
                        EnvelopeV::ListResponse { .. } => {},
                        EnvelopeV::JoinRequest { conversation_id: t } => {
                            lemma_starts_with_whole(b@, str_enc(t));
                            assert(m@ =~= x);
                        },
                        EnvelopeV::ClientText { text: t } => {
                            lemma_starts_with_whole(b@, str_enc(t));
                            assert(m@ =~= x);
                        },
                        EnvelopeV::ChatMessage { text: t } => {
                            lemma_starts_with_whole(b@, str_enc(t));
                            assert(m@ =~= x);
                        },
                        EnvelopeV::Error { message: t } => {
                            lemma_starts_with_whole(b@, str_enc(t));
                            assert(m@ =~= x);
                        },
                    }
                }
            }
            Ok(m)
        } else {
            proof {
                assert forall|x: EnvelopeV| !(wf_envelope(x) && #[trigger] envelope_enc(x) == b@)
                    by {
                    lemma_enc_shape(x);
                }
            }
            Err(derr("unrecognized envelope tag"))
        }
    }
}

/// When the rest of `b` after the tag is exactly `p`, then `p` is a prefix
/// of that rest.
proof fn lemma_starts_with_whole(b: Seq<u8>, p: Seq<u8>)
    requires
        b.len() >= 1,
        tail_from(b, 1) == p,
    ensures
        starts_with(tail_from(b, 1), p),
{
    assert(tail_from(b, 1).subrange(0, p.len() as int) =~= p);
}


/// Decode a listing payload (tag 2): the `ListResponse` arm of `decode`,
/// with the same contract, restricted to payloads that open with tag 2.
#[verifier::loop_isolation(false)]
#[verifier::rlimit(100)]
#[verifier::spinoff_prover]
fn decode_listing(b: &Vec<u8>) -> (r: Result<Message, DecodeError>)
    requires
        b@.len() >= 1,
        b@[0] == 2,
    ensures
        r matches Ok(m) ==> envelope_enc(m@) == b@ && wf_envelope(m@),
        forall|x: EnvelopeV|
            wf_envelope(x) && #[trigger] envelope_enc(x) == b@ ==> r is Ok && r->Ok_0@ == x,
{
    proof {
        lemma_pow256_vals();
    }
        if b.len() < 9 {
            proof {
                assert forall|x: EnvelopeV|
                    !(wf_envelope(x) && #[trigger] envelope_enc(x) == b@) by {
                    lemma_enc_shape(x);
                }
            }
            return Err(derr("listing: truncated count"));
        }
        let cnt = read_be8(b, 1);
        let mut out: Vec<ConversationSummary> = Vec::new();
        let mut off: usize = 9;
        let mut i: u64 = 0;
        proof {
            assert(views_of(out@) =~= Seq::<SummaryV>::empty());
            assert(sums_enc(views_of(out@)) =~= b@.subrange(9, 9));
            assert forall|cs: Seq<SummaryV>|
                wf_sums(cs) && cs.len() == cnt as nat && #[trigger] sums_enc(cs) == tail_from(
                    b@,
                    9,
                ) implies cs.subrange(0, 0) == views_of(out@) && sums_enc(
                cs.subrange(0, cs.len() as int),
            ) == tail_from(b@, 9) by {
                assert(cs.subrange(0, 0) =~= views_of(out@));
                assert(cs.subrange(0, cs.len() as int) =~= cs);
            }
        }
        while i < cnt
            invariant
                9 <= off <= b.len(),
                i <= cnt,
                out@.len() == i as nat,
                wf_sums(views_of(out@)),
                sums_enc(views_of(out@)) == b@.subrange(9, off as int),
                forall|cs: Seq<SummaryV>|
                    wf_sums(cs) && cs.len() == cnt as nat && #[trigger] sums_enc(cs)
                        == tail_from(b@, 9) ==> cs.subrange(0, i as int) == views_of(out@)
                        && sums_enc(cs.subrange(i as int, cs.len() as int)) == tail_from(
                        b@,
                        off as int,
                    ),
            decreases cnt - i,
        {
            proof {
                // any candidate's next summary starts at `off`
                assert forall|cs: Seq<SummaryV>|
                    wf_sums(cs) && cs.len() == cnt as nat && #[trigger] sums_enc(cs)
                        == tail_from(b@, 9) implies starts_with(
                    tail_from(b@, off as int),
                    sum_enc(cs[i as int]),
                ) by {
                    let rest = cs.subrange(i as int, cs.len() as int);
                    assert(rest.drop_first() =~= cs.subrange(i as int + 1, cs.len() as int));
                    assert(tail_from(b@, off as int).subrange(
                        0,
                        sum_enc(cs[i as int]).len() as int,
                    ) =~= sum_enc(cs[i as int]));
                }
            }
            match read_summary_at(b, off) {
                Err(e) => {
                    proof {
                        assert forall|x: EnvelopeV|
                            !(wf_envelope(x) && #[trigger] envelope_enc(x) == b@) by {
                            if wf_envelope(x) && envelope_enc(x) == b@ {
                                lemma_enc_shape(x);
                                match x {
                                    EnvelopeV::ListResponse { conversations } => {
                                        lemma_be_bytes_injective(
                                            conversations.len(),
                                            cnt as nat,
                                            8,
                                        );
                                        assert(wf_str(conversations[i as int].id));
                                        assert(starts_with(
                                            tail_from(b@, off as int),
                                            sum_enc(conversations[i as int]),
                                        ));
                                    },
                                    _ => {},
                                }
                            }
                        }
                    }
                    return Err(e);
                },
                Ok(p) => {
                    let ghost old_views = views_of(out@);
                    let ghost old_off = off as int;
                    let ghost cv = p.0@;
                    out.push(p.0);
                    off = p.1;
                    i = i + 1;
                    proof {
                        assert(views_of(out@) =~= old_views.push(cv));
                        lemma_sums_enc_concat(old_views, seq![cv]);
                        assert(sums_enc(seq![cv]) =~= sum_enc(cv)) by {
                            reveal_with_fuel(sums_enc, 3);
                            assert(seq![cv].drop_first() =~= Seq::<SummaryV>::empty());
                        }
                        assert(old_views + seq![cv] =~= views_of(out@));
                        assert(sums_enc(views_of(out@)) =~= b@.subrange(9, off as int));
                        assert forall|cs: Seq<SummaryV>|
                            wf_sums(cs) && cs.len() == cnt as nat && #[trigger] sums_enc(cs)
                                == tail_from(b@, 9) implies cs.subrange(0, i as int)
                            == views_of(out@) && sums_enc(
                            cs.subrange(i as int, cs.len() as int),
                        ) == tail_from(b@, off as int) by {
                            let rest = cs.subrange(i as int - 1, cs.len() as int);
                            assert(rest.drop_first() =~= cs.subrange(
                                i as int,
                                cs.len() as int,
                            ));
                            assert(starts_with(
                                tail_from(b@, old_off),
                                sum_enc(cs[i as int - 1]),
                            ));
                            // the parsed summary is the candidate's
                            assert(cs[i as int - 1] == cv);
                            assert(cs.subrange(0, i as int) =~= old_views.push(cv));
                            // and what follows it is the remaining bytes
                            let y = sums_enc(cs.subrange(i as int, cs.len() as int));
                            assert(sum_enc(cs[i as int - 1]).len() == off - old_off);
                            assert(sum_enc(cs[i as int - 1]) + y == tail_from(b@, old_off));
                            assert((sum_enc(cs[i as int - 1]) + y).len() == sum_enc(
                                cs[i as int - 1],
                            ).len() + y.len());
                            assert forall|k: int| 0 <= k < y.len() implies y[k] == tail_from(
                                b@,
                                off as int,
                            )[k] by {
                                assert(y[k] == (sum_enc(cs[i as int - 1]) + y)[off - old_off + k]);
                            }
                            assert(y =~= tail_from(b@, off as int));
                        }
                    }
                },
            }
        }
        if off != b.len() {
            proof {
                assert forall|x: EnvelopeV|
                    !(wf_envelope(x) && #[trigger] envelope_enc(x) == b@) by {
                    if wf_envelope(x) && envelope_enc(x) == b@ {
                        lemma_enc_shape(x);
                        match x {
                            EnvelopeV::ListResponse { conversations } => {
                                lemma_be_bytes_injective(conversations.len(), cnt as nat, 8);
                                assert(conversations.subrange(
                                    i as int,
                                    conversations.len() as int,
                                ) =~= Seq::<SummaryV>::empty());
                                assert(tail_from(b@, off as int).len() == 0);
                            },
                            _ => {},
                        }
                    }
                }
            }
            return Err(derr("listing: trailing bytes"));
        }
        let m = Message::ListResponse(ListResponse { conversations: out });
        proof {
            assert(envelope_enc(m@) =~= b@);
            assert forall|x: EnvelopeV|
                wf_envelope(x) && #[trigger] envelope_enc(x) == b@ implies m@ == x by {
                lemma_enc_shape(x);
                match x {
                    EnvelopeV::ListResponse { conversations } => {
                        lemma_be_bytes_injective(conversations.len(), cnt as nat, 8);
                        assert(conversations.subrange(0, i as int) =~= conversations);
                        assert(m@ =~= x);
                    },
                    _ => {},
                }
            }
        }
        Ok(m)
}

} // verus!
