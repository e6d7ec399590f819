//! The frames that a session and the server exchange.
//!
//! A frame is one byte that says what it is, the length of its payload in
//! four bytes, most significant first, and the payload. A client opens with
//! a hello frame, which carries its token and names the document; after
//! that it sends updates and presence, and receives those of the other
//! sessions. The updates and the presence are carried as they are.

use vstd::prelude::*;
use crate::codec::{append_bytes, copy_bytes};
use crate::keys::DocId;
use crate::mux::{Frame, FrameView};

verus! {

/// The kind of the frame that opens a session.
pub const HELLO: u8 = 0;

/// The kind of a frame that carries an update.
pub const UPDATE: u8 = 1;

/// The kind of a frame that carries presence.
pub const AWARENESS: u8 = 2;

/// The kind of the frame that tells a client it was refused.
pub const REFUSED: u8 = 255;

/// The length of a frame header.
pub const HEADER_LEN: usize = 5;

/// What a client sends.
#[derive(Debug)]
pub enum Inbound {
    /// The opening frame: the token, if the client has one, and the
    /// document it asks for.
    Hello { token: Option<Vec<u8>>, doc: DocId },
    /// An update to the document.
    Update(Vec<u8>),
    /// The presence of the client.
    Awareness(Vec<u8>),
}

/// What a client sends, with its bytes as sequences.
pub enum InboundView {
    Hello { token: Option<Seq<u8>>, doc: Seq<u8> },
    Update(Seq<u8>),
    Awareness(Seq<u8>),
}

impl View for Inbound {
    type V = InboundView;

    open spec fn view(&self) -> InboundView {
        match self {
            Inbound::Hello { token, doc } => InboundView::Hello {
                token: match token {
                    Some(text) => Some(text@),
                    None => None,
                },
                doc: doc@,
            },
            Inbound::Update(bytes) => InboundView::Update(bytes@),
            Inbound::Awareness(bytes) => InboundView::Awareness(bytes@),
        }
    }
}

/// `n` in two bytes, most significant first.
pub open spec fn be16(n: u16) -> Seq<u8> {
    seq![(n / 256) as u8, (n % 256) as u8]
}

/// `n` in four bytes, most significant first.
pub open spec fn be32(n: u32) -> Seq<u8> {
    seq![
        (n / 16777216) as u8,
        (n / 65536 % 256) as u8,
        (n / 256 % 256) as u8,
        (n % 256) as u8,
    ]
}

/// `n` in eight bytes, most significant first.
pub open spec fn be64(n: u64) -> Seq<u8> {
    be32((n / 4294967296) as u32) + be32((n % 4294967296) as u32)
}

/// The number that four bytes denote, most significant first.
pub open spec fn value32(b: Seq<u8>) -> u32 {
    (b[0] * 16777216 + b[1] * 65536 + b[2] * 256 + b[3]) as u32
}

/// The header of a frame of the given kind with a payload of `len` bytes.
pub open spec fn header(kind: u8, len: u32) -> Seq<u8> {
    seq![kind] + be32(len)
}

/// The kind and the payload length in a frame header.
pub open spec fn parse_header(bytes: Seq<u8>) -> Option<(u8, u32)> {
    if bytes.len() == 5 {
        Some((bytes[0], value32(bytes.subrange(1, 5))))
    } else {
        None
    }
}

/// The payload of a hello frame: the length of the token in two bytes, the
/// token, and the name of the document. No token is a token of length zero.
pub open spec fn hello_payload(token: Option<Seq<u8>>, doc: Seq<u8>) -> Seq<u8> {
    match token {
        Some(text) => be16(text.len() as u16) + text + doc,
        None => be16(0) + doc,
    }
}

/// What a frame from a client says, if it is well formed.
pub open spec fn parse_inbound(kind: u8, payload: Seq<u8>) -> Option<InboundView> {
    if kind == UPDATE {
        Some(InboundView::Update(payload))
    } else if kind == AWARENESS {
        Some(InboundView::Awareness(payload))
    } else if kind == HELLO && payload.len() >= 2 {
        let n = payload[0] * 256 + payload[1];
        if payload.len() < 2 + n {
            None
        } else {
            Some(
                InboundView::Hello {
                    token: if n == 0 {
                        None
                    } else {
                        Some(payload.subrange(2, 2 + n))
                    },
                    doc: payload.subrange(2 + n, payload.len() as int),
                },
            )
        }
    } else {
        None
    }
}

/// The kind and the payload of the frame that carries `frame` to a client.
/// Presence is preceded by the number of the session that published it, in
/// eight bytes.
pub open spec fn outbound(frame: FrameView) -> (u8, Seq<u8>) {
    match frame {
        FrameView::Update(bytes) => (UPDATE, bytes),
        FrameView::Awareness(from, bytes) => (AWARENESS, be64(from) + bytes),
    }
}

/// A header reads back as the kind and the length it was made from.
pub proof fn lemma_header_round_trip(kind: u8, len: u32)
    ensures
        parse_header(header(kind, len)) == Some((kind, len)),
{
    let h = header(kind, len);
    assert(h.subrange(1, 5) =~= be32(len));
}

/// A hello frame reads back as the token and the document it was made
/// from. An empty token reads back as no token.
pub proof fn lemma_hello_round_trip(token: Option<Seq<u8>>, doc: Seq<u8>)
    requires
        token matches Some(text) ==> 0 < text.len() <= u16::MAX,
    ensures
        parse_inbound(HELLO, hello_payload(token, doc)) == Some(InboundView::Hello { token, doc }),
{
    let payload = hello_payload(token, doc);
    match token {
        Some(text) => {
            let n = text.len() as int;
            assert(payload[0] * 256 + payload[1] == n);
            assert(payload.subrange(2, 2 + n) =~= text);
            assert(payload.subrange(2 + n, payload.len() as int) =~= doc);
        },
        None => {
            assert(payload.subrange(2, payload.len() as int) =~= doc);
        },
    }
}

fn push_be32(out: &mut Vec<u8>, n: u32)
    ensures
        final(out)@ == old(out)@ + be32(n),
{
    out.push((n / 16777216) as u8);
    out.push((n / 65536 % 256) as u8);
    out.push((n / 256 % 256) as u8);
    out.push((n % 256) as u8);
    assert(out@ =~= old(out)@ + be32(n));
}

/// The header of a frame of the given kind with a payload of `len` bytes.
pub fn encode_header(kind: u8, len: u32) -> (bytes: Vec<u8>)
    ensures
        bytes@ == header(kind, len),
{
    let mut bytes: Vec<u8> = Vec::new();
    bytes.push(kind);
    push_be32(&mut bytes, len);
    bytes
}

/// The kind and the payload length in a frame header of five bytes.
pub fn decode_header(bytes: &[u8]) -> (r: Option<(u8, u32)>)
    ensures
        r == parse_header(bytes@),
{
    if bytes.len() != 5 {
        return None;
    }
    let len: u32 = (bytes[1] as u32) * 16777216 + (bytes[2] as u32) * 65536 + (bytes[3] as u32)
        * 256 + (bytes[4] as u32);
    proof {
        let field = bytes@.subrange(1, 5);
        assert(field[0] == bytes@[1] && field[1] == bytes@[2] && field[2] == bytes@[3]
            && field[3] == bytes@[4]);
    }
    Some((bytes[0], len))
}

/// The payload of a hello frame, as a client builds it. A token that does
/// not fit the length field cannot be sent.
pub fn encode_hello(token: Option<&Vec<u8>>, doc: &DocId) -> (r: Option<Vec<u8>>)
    ensures
        match r {
            Some(payload) => payload@ == hello_payload(
                match token {
                    Some(text) => Some(text@),
                    None => None,
                },
                doc@,
            ),
            None => token matches Some(text) && text@.len() > u16::MAX,
        },
{
    let mut payload: Vec<u8> = Vec::new();
    match token {
        Some(text) => {
            if text.len() > 65535 {
                return None;
            }
            let n: u16 = text.len() as u16;
            payload.push((n / 256) as u8);
            payload.push((n % 256) as u8);
            append_bytes(&mut payload, text);
        },
        None => {
            payload.push(0);
            payload.push(0);
        },
    }
    append_bytes(&mut payload, doc.as_bytes());
    proof {
        assert(payload@ =~= hello_payload(
            match token {
                Some(text) => Some(text@),
                None => None,
            },
            doc@,
        ));
    }
    Some(payload)
}

/// What a frame from a client says, if it is well formed.
pub fn decode_inbound(kind: u8, payload: &Vec<u8>) -> (r: Option<Inbound>)
    ensures
        match r {
            Some(inbound) => parse_inbound(kind, payload@) == Some(inbound@),
            None => parse_inbound(kind, payload@) is None,
        },
{
    if kind == UPDATE {
        Some(Inbound::Update(copy_bytes(payload)))
    } else if kind == AWARENESS {
        Some(Inbound::Awareness(copy_bytes(payload)))
    } else if kind == HELLO && payload.len() >= 2 {
        let n: usize = (payload[0] as usize) * 256 + (payload[1] as usize);
        if payload.len() - 2 < n {
            return None;
        }
        let token = if n == 0 {
            None
        } else {
            Some(
                vstd::slice::slice_to_vec(
                    vstd::slice::slice_subrange(payload.as_slice(), 2, 2 + n),
                ),
            )
        };
        let doc = DocId::from_bytes(
            vstd::slice::slice_to_vec(
                vstd::slice::slice_subrange(payload.as_slice(), 2 + n, payload.len()),
            ),
        );
        Some(Inbound::Hello { token, doc })
    } else {
        None
    }
}

/// The kind and the payload of the frame that carries `frame` to a client.
pub fn encode_outbound(frame: &Frame) -> (r: (u8, Vec<u8>))
    ensures
        (r.0, r.1@) == outbound(frame@),
{
    match frame {
        Frame::Update(bytes) => (UPDATE, copy_bytes(bytes)),
        Frame::Awareness(from, bytes) => {
            let mut payload: Vec<u8> = Vec::new();
            push_be32(&mut payload, (*from / 4294967296) as u32);
            push_be32(&mut payload, (*from % 4294967296) as u32);
            append_bytes(&mut payload, bytes);
            assert(payload@ =~= be64(*from) + bytes@);
            (AWARENESS, payload)
        },
    }
}

} // verus!
