//! The wire framing of messages, and a decoder that resumes where the bytes
//! ran out.
//!
//! A frame is laid out as
//! `[u8 kind][u16 namespace length][namespace][u32 data length][data]`,
//! where the data length and the data are present for events only and
//! the lengths count bytes in network order.
use vstd::prelude::*;
use vstd::utf8::*;
use bytes::BytesMut;
use crate::buffer::{
    buffer_bytes, buffer_len, buffer_split_to, decode_lossy, read_be_u16, read_be_u32,
    buffer_contents, buffer_extend, be16_at, be16_bytes, be32_at, be32_bytes, be_u16_bytes,
    be_u32_bytes, lossy_text,
};
use crate::message::{EVENT_DISCRIMINANT, Message, MessageView, message_of};
use crate::pattern::Pattern;

verus! {

/// The largest namespace, in bytes, that a frame can carry.
pub const MAX_NAMESPACE_LEN: usize = 65535;

/// The largest event data, in bytes, that a frame can carry.
pub const MAX_DATA_LEN: u64 = 4294967295;

/// Why a message could not be framed.
#[derive(Debug, PartialEq, Eq, Clone, Copy)]
pub enum CodecError {
    /// The namespace is longer than a `u16` can count.
    OversizedNamespace,
    /// The event data is longer than a `u32` can count.
    OversizedData,
    /// A frame starts with this kind byte, which names no message.
    UnknownKind(u8),
}

/// The bytes of a frame up to and including the namespace.
pub open spec fn frame_header(m: MessageView) -> Seq<u8> {
    seq![m.kind()] + be16_bytes(encode_utf8(m.ns()).len()) + encode_utf8(m.ns())
}

/// The whole frame of a message.
pub open spec fn frame(m: MessageView) -> Seq<u8> {
    if m is Event {
        frame_header(m) + be32_bytes(encode_utf8(m.data()).len()) + encode_utf8(m.data())
    } else {
        frame_header(m)
    }
}

/// The namespace's length fits its field.
pub open spec fn namespace_fits(m: MessageView) -> bool {
    encode_utf8(m.ns()).len() <= MAX_NAMESPACE_LEN
}

/// The data's length, where there is data, fits its field.
pub open spec fn data_fits(m: MessageView) -> bool {
    m is Event ==> encode_utf8(m.data()).len() <= MAX_DATA_LEN
}

/// The fields of the current frame that the decoder has read so far.
pub struct CodecView {
    pub discriminant: Option<u8>,
    pub ns_length: Option<nat>,
    pub namespace: Option<Seq<char>>,
    pub data_length: Option<nat>,
}

/// The fields of a frame are read in order, and only an event has fields
/// after its namespace.
pub open spec fn fields_in_order(st: CodecView) -> bool {
    &&& st.ns_length is Some ==> st.discriminant is Some
    &&& st.namespace is Some ==> st.ns_length is Some && st.discriminant == Some(EVENT_DISCRIMINANT)
    &&& st.data_length is Some ==> st.namespace is Some
}

/// A decoder that has read nothing of the current frame.
pub open spec fn fresh_codec() -> CodecView {
    CodecView { discriminant: None, ns_length: None, namespace: None, data_length: None }
}

/// The fields are read in order, and only an event has fields after its
/// namespace.
pub open spec fn codec_state_wf(st: CodecView) -> bool {
    &&& fields_in_order(st)
    &&& st.discriminant matches Some(d) ==> d <= EVENT_DISCRIMINANT
    &&& st.ns_length matches Some(l) ==> l <= MAX_NAMESPACE_LEN
    &&& st.data_length matches Some(l) ==> l <= MAX_DATA_LEN
}

/// The bytes hold no unknown message kind where the decoder expects one.
pub open spec fn kind_byte_ok(st: CodecView, buf: Seq<u8>) -> bool {
    st.discriminant is None && buf.len() >= 1 ==> buf[0] <= EVENT_DISCRIMINANT
}

/// The buffer holds all of the frame that its first byte starts, as far as
/// a frame of a kind other than an event goes: the kind byte, the
/// namespace's length and the namespace.
pub open spec fn header_complete(buf: Seq<u8>) -> bool {
    buf.len() >= 3 && buf.len() - 3 >= be16_at(buf, 1)
}

/// Where the decoder expects a new frame, the buffer holds the whole frame
/// of a kind that names no message, which the decoder refuses.
pub open spec fn refuses_frame(st: CodecView, buf: Seq<u8>) -> bool {
    !kind_byte_ok(st, buf) && header_complete(buf)
}

/// What one call of the decoder leaves: the fields read so far, how many
/// bytes it took from the buffer, and the message it completed, if any.
pub struct DecodeStep {
    pub state: CodecView,
    pub consumed: nat,
    pub message: Option<MessageView>,
}

/// A step whose message and state are `s`'s, taking `k` more bytes.
pub open spec fn advance(s: DecodeStep, k: nat) -> DecodeStep {
    DecodeStep { state: s.state, consumed: s.consumed + k, message: s.message }
}

/// A step that stops in state `st` having taken nothing.
pub open spec fn stop(st: CodecView) -> DecodeStep {
    DecodeStep { state: st, consumed: 0, message: None }
}

/// One decoding step from state `st` on the buffered bytes `buf`: each
/// field not yet read is read once all of its bytes are there; the step
/// stops, keeping what it read, at the first field that is incomplete,
/// and completes a message when its last field is read.
#[verifier::opaque]
pub open spec fn decode_view(st: CodecView, buf: Seq<u8>) -> DecodeStep {
    if st.discriminant is Some {
        decode_ns_length(st, buf)
    } else if buf.len() < 1 {
        stop(st)
    } else {
        advance(decode_ns_length(CodecView { discriminant: Some(buf[0]), ..st }, buf.skip(1)), 1)
    }
}

/// The step from the namespace's length on.
#[verifier::opaque]
pub open spec fn decode_ns_length(st: CodecView, buf: Seq<u8>) -> DecodeStep {
    if st.ns_length is Some {
        decode_namespace(st, buf)
    } else if buf.len() < 2 {
        stop(st)
    } else {
        advance(decode_namespace(CodecView { ns_length: Some(be16_at(buf, 0)), ..st }, buf.skip(2)), 2)
    }
}

/// The step from the namespace on.
#[verifier::opaque]
pub open spec fn decode_namespace(st: CodecView, buf: Seq<u8>) -> DecodeStep {
    if st.namespace is Some {
        after_namespace(st, st.namespace->0, buf)
    } else {
        let l = st.ns_length->0;
        if buf.len() < l {
            stop(st)
        } else {
            advance(after_namespace(st, lossy_text(buf.take(l as int)), buf.skip(l as int)), l)
        }
    }
}

/// The step once the namespace `ns` is known: a message of another kind
/// than an event is complete.
#[verifier::opaque]
pub open spec fn after_namespace(st: CodecView, ns: Seq<char>, buf: Seq<u8>) -> DecodeStep {
    let d = st.discriminant->0;
    if d != EVENT_DISCRIMINANT {
        DecodeStep { state: fresh_codec(), consumed: 0, message: Some(message_of(d, ns, Seq::empty())) }
    } else {
        decode_data_length(CodecView { namespace: Some(ns), ..st }, buf)
    }
}

/// The step from an event's data length on.
#[verifier::opaque]
pub open spec fn decode_data_length(st: CodecView, buf: Seq<u8>) -> DecodeStep {
    if st.data_length is Some {
        decode_data(st, buf)
    } else if buf.len() < 4 {
        stop(st)
    } else {
        advance(decode_data(CodecView { data_length: Some(be32_at(buf, 0)), ..st }, buf.skip(4)), 4)
    }
}

/// The step that reads an event's data.
#[verifier::opaque]
pub open spec fn decode_data(st: CodecView, buf: Seq<u8>) -> DecodeStep {
    let l = st.data_length->0;
    if buf.len() < l {
        stop(st)
    } else {
        DecodeStep {
            state: fresh_codec(),
            consumed: l,
            message: Some(MessageView::Event(st.namespace->0, lossy_text(buf.take(l as int)))),
        }
    }
}

/// The view of a decoded message, if any.
pub open spec fn opt_message_view(m: Option<Message>) -> Option<MessageView> {
    match m {
        Some(m) => Some(m@),
        None => None,
    }
}

/// Frames messages into bytes and decodes them back, one frame at a time.
pub struct MessageCodec {
    discriminant: Option<u8>,
    ns_length: Option<usize>,
    namespace: Option<String>,
    data_length: Option<usize>,
}

impl View for MessageCodec {
    type V = CodecView;

    closed spec fn view(&self) -> CodecView {
        CodecView {
            discriminant: self.discriminant,
            ns_length: match self.ns_length {
                Some(l) => Some(l as nat),
                None => None,
            },
            namespace: match self.namespace {
                Some(s) => Some(s@),
                None => None,
            },
            data_length: match self.data_length {
                Some(l) => Some(l as nat),
                None => None,
            },
        }
    }
}

impl MessageCodec {
    /// A decoder at the start of a frame.
    pub fn new() -> (c: MessageCodec)
        ensures
            c@ == fresh_codec(),
            c.wf(),
    {
        MessageCodec { discriminant: None, ns_length: None, namespace: None, data_length: None }
    }

    /// Whether the next byte the decoder takes is the kind of a new frame.
    pub fn awaits_kind(&self) -> (b: bool)
        ensures
            b == (self@.discriminant is None),
    {
        self.discriminant.is_none()
    }

    /// Whether the decoder's fields were read in order.
    pub closed spec fn wf(&self) -> bool {
        codec_state_wf(self@)
    }

    /// Takes from `src` what it can of the current frame and returns the
    /// message when the frame is complete. The fields read so far are kept
    /// for the next call, and the bytes of an incomplete field stay in `src`.
    pub fn decode(&mut self, src: &mut BytesMut) -> (res: Option<Message>)
        requires
            old(self).wf(),
            kind_byte_ok(old(self)@, buffer_contents(*old(src))),
        ensures
            final(self).wf(),
            final(self)@ == decode_view(old(self)@, buffer_contents(*old(src))).state,
            buffer_contents(*final(src)) == buffer_contents(*old(src)).skip(
                decode_view(old(self)@, buffer_contents(*old(src))).consumed as int,
            ),
            opt_message_view(res) == decode_view(old(self)@, buffer_contents(*old(src))).message,
    {
        reveal(decode_view);
        let ghost buf = buffer_contents(*src);
        if self.discriminant.is_none() {
            if buffer_len(src) < 1 {
                assert(buffer_contents(*src) =~= buf.skip(0));
                return None;
            }
            let head = buffer_split_to(src, 1);
            self.discriminant = Some(buffer_bytes(&head)[0]);
        } else {
            assert(buf.skip(0) =~= buf);
        }
        let res = self.decode_ns_length(src);
        proof {
            if old(self)@.discriminant is None {
                lemma_consumed_ns_length(CodecView { discriminant: Some(buf[0]), ..old(self)@ }, buf.skip(1));
                assert(buf.skip(1).skip(decode_view(old(self)@, buf).consumed - 1) =~= buf.skip(
                    decode_view(old(self)@, buf).consumed as int,
                ));
            }
        }
        res
    }

    fn decode_ns_length(&mut self, src: &mut BytesMut) -> (res: Option<Message>)
        requires
            codec_state_wf(old(self)@),
            old(self)@.discriminant is Some,
        ensures
            final(self).wf(),
            final(self)@ == decode_ns_length(old(self)@, buffer_contents(*old(src))).state,
            buffer_contents(*final(src)) == buffer_contents(*old(src)).skip(
                decode_ns_length(old(self)@, buffer_contents(*old(src))).consumed as int,
            ),
            opt_message_view(res) == decode_ns_length(old(self)@, buffer_contents(*old(src))).message,
    {
        reveal(decode_ns_length);
        let ghost buf = buffer_contents(*src);
        if self.ns_length.is_none() {
            if buffer_len(src) < 2 {
                assert(buffer_contents(*src) =~= buf.skip(0));
                return None;
            }
            let head = buffer_split_to(src, 2);
            let l = read_be_u16(buffer_bytes(&head));
            assert(l == be16_at(buf, 0));
            self.ns_length = Some(l as usize);
        }
        let res = self.decode_namespace(src);
        proof {
            if old(self)@.ns_length is None {
                lemma_consumed_namespace(CodecView { ns_length: Some(be16_at(buf, 0)), ..old(self)@ }, buf.skip(2));
                assert(buf.skip(2).skip(decode_ns_length(old(self)@, buf).consumed - 2) =~= buf.skip(
                    decode_ns_length(old(self)@, buf).consumed as int,
                ));
            }
        }
        res
    }

    fn decode_namespace(&mut self, src: &mut BytesMut) -> (res: Option<Message>)
        requires
            codec_state_wf(old(self)@),
            old(self)@.discriminant is Some,
            old(self)@.ns_length is Some,
        ensures
            final(self).wf(),
            final(self)@ == decode_namespace(old(self)@, buffer_contents(*old(src))).state,
            buffer_contents(*final(src)) == buffer_contents(*old(src)).skip(
                decode_namespace(old(self)@, buffer_contents(*old(src))).consumed as int,
            ),
            opt_message_view(res) == decode_namespace(old(self)@, buffer_contents(*old(src))).message,
    {
        reveal(decode_namespace);
        reveal(after_namespace);
        let ghost buf = buffer_contents(*src);
        let ghost st = self@;
        if self.namespace.is_some() {
            assert(CodecView { namespace: Some(st.namespace->0), ..st } == st);
            return self.decode_data_length(src);
        }
        let l = match self.ns_length {
            Some(l) => l,
            None => 0,
        };
        if buffer_len(src) < l {
            assert(buffer_contents(*src) =~= buf.skip(0));
            return None;
        }
        let head = buffer_split_to(src, l);
        let namespace = decode_lossy(buffer_bytes(&head));
        let res = self.after_namespace(namespace, src);
        proof {
            {
                let l = st.ns_length->0;
                lemma_consumed_data_length(CodecView { namespace: Some(namespace@), ..st }, buf.skip(l as int));
                assert(buf.skip(l as int).skip(decode_namespace(st, buf).consumed - l) =~= buf.skip(
                    decode_namespace(st, buf).consumed as int,
                ));
            }
        }
        res
    }

    fn after_namespace(&mut self, namespace: String, src: &mut BytesMut) -> (res: Option<Message>)
        requires
            codec_state_wf(old(self)@),
            old(self)@.discriminant is Some,
            old(self)@.ns_length is Some,
            old(self)@.namespace is None,
        ensures
            final(self).wf(),
            final(self)@ == after_namespace(old(self)@, namespace@, buffer_contents(*old(src))).state,
            buffer_contents(*final(src)) == buffer_contents(*old(src)).skip(
                after_namespace(old(self)@, namespace@, buffer_contents(*old(src))).consumed as int,
            ),
            opt_message_view(res) == after_namespace(old(self)@, namespace@, buffer_contents(*old(src))).message,
    {
        reveal(after_namespace);
        let ghost buf = buffer_contents(*src);
        let d = match self.discriminant {
            Some(d) => d,
            None => 0,
        };
        if d != EVENT_DISCRIMINANT {
            self.discriminant = None;
            self.ns_length = None;
            self.data_length = None;
            assert(buf.skip(0) =~= buf);
            return Some(Message::from_poor_mans_discriminant(d, Pattern::from_string(namespace), None));
        }
        self.namespace = Some(namespace);
        self.decode_data_length(src)
    }

    fn decode_data_length(&mut self, src: &mut BytesMut) -> (res: Option<Message>)
        requires
            codec_state_wf(old(self)@),
            old(self)@.namespace is Some,
        ensures
            final(self).wf(),
            final(self)@ == decode_data_length(old(self)@, buffer_contents(*old(src))).state,
            buffer_contents(*final(src)) == buffer_contents(*old(src)).skip(
                decode_data_length(old(self)@, buffer_contents(*old(src))).consumed as int,
            ),
            opt_message_view(res) == decode_data_length(old(self)@, buffer_contents(*old(src))).message,
    {
        reveal(decode_data_length);
        let ghost buf = buffer_contents(*src);
        if self.data_length.is_none() {
            if buffer_len(src) < 4 {
                assert(buffer_contents(*src) =~= buf.skip(0));
                return None;
            }
            let head = buffer_split_to(src, 4);
            let l = read_be_u32(buffer_bytes(&head));
            assert(l == be32_at(buf, 0));
            self.data_length = Some(l as usize);
        }
        let res = self.decode_data(src);
        proof {
            if old(self)@.data_length is None {
                lemma_consumed_data(CodecView { data_length: Some(be32_at(buf, 0)), ..old(self)@ }, buf.skip(4));
                assert(buf.skip(4).skip(decode_data_length(old(self)@, buf).consumed - 4) =~= buf.skip(
                    decode_data_length(old(self)@, buf).consumed as int,
                ));
            }
        }
        res
    }

    fn decode_data(&mut self, src: &mut BytesMut) -> (res: Option<Message>)
        requires
            codec_state_wf(old(self)@),
            old(self)@.namespace is Some,
            old(self)@.data_length is Some,
        ensures
            final(self).wf(),
            final(self)@ == decode_data(old(self)@, buffer_contents(*old(src))).state,
            buffer_contents(*final(src)) == buffer_contents(*old(src)).skip(
                decode_data(old(self)@, buffer_contents(*old(src))).consumed as int,
            ),
            opt_message_view(res) == decode_data(old(self)@, buffer_contents(*old(src))).message,
    {
        reveal(decode_data);
        let ghost buf = buffer_contents(*src);
        let l = match self.data_length {
            Some(l) => l,
            None => 0,
        };
        if buffer_len(src) < l {
            assert(buffer_contents(*src) =~= buf.skip(0));
            return None;
        }
        let head = buffer_split_to(src, l);
        let data = decode_lossy(buffer_bytes(&head));
        let namespace = match self.namespace.take() {
            Some(n) => n,
            None => String::new(),
        };
        self.discriminant = None;
        self.ns_length = None;
        self.data_length = None;
        Some(Message::Event(Pattern::from_string(namespace), data))
    }

    /// Decodes as `decode` does, but first checks the kind byte: where the
    /// decoder expects a new frame and the buffer starts with a byte that
    /// names no message, it waits, changing nothing, until the frame's
    /// namespace is there, and then refuses the frame with that byte,
    /// changing nothing.
    pub fn try_decode(&mut self, src: &mut BytesMut) -> (res: Result<Option<Message>, CodecError>)
        requires
            old(self).wf(),
        ensures
            final(self).wf(),
            res is Err <==> refuses_frame(old(self)@, buffer_contents(*old(src))),
            res is Err ==> res == Err::<Option<Message>, CodecError>(
                CodecError::UnknownKind(buffer_contents(*old(src))[0]),
            ),
            !kind_byte_ok(old(self)@, buffer_contents(*old(src))) ==> {
                &&& final(self)@ == old(self)@
                &&& buffer_contents(*final(src)) == buffer_contents(*old(src))
            },
            !kind_byte_ok(old(self)@, buffer_contents(*old(src))) && !refuses_frame(
                old(self)@,
                buffer_contents(*old(src)),
            ) ==> res == Ok::<Option<Message>, CodecError>(None),
            kind_byte_ok(old(self)@, buffer_contents(*old(src))) ==> (res matches Ok(m) && {
                &&& final(self)@ == decode_view(old(self)@, buffer_contents(*old(src))).state
                &&& buffer_contents(*final(src)) == buffer_contents(*old(src)).skip(
                    decode_view(old(self)@, buffer_contents(*old(src))).consumed as int,
                )
                &&& opt_message_view(m) == decode_view(old(self)@, buffer_contents(*old(src))).message
            }),
    {
        if self.discriminant.is_none() {
            let bytes = buffer_bytes(src);
            if bytes.len() >= 1 && bytes[0] > EVENT_DISCRIMINANT {
                let kind = bytes[0];
                if bytes.len() >= 3 {
                    let ns_len = (bytes[1] as usize) * 256 + (bytes[2] as usize);
                    assert(ns_len == be16_at(bytes@, 1));
                    if bytes.len() - 3 >= ns_len {
                        return Err(CodecError::UnknownKind(kind));
                    }
                }
                return Ok(None);
            }
        }
        Ok(self.decode(src))
    }

    /// Appends the frame of `message` to `dst`.
    ///
    /// A namespace too long for its field is refused before anything is
    /// written. Event data too long for its field is refused after the
    /// frame's header and namespace have been written.
    pub fn encode(&mut self, message: Message, dst: &mut BytesMut) -> (res: Result<(), CodecError>)
        ensures
            final(self)@ == old(self)@,
            res is Ok <==> namespace_fits(message@) && data_fits(message@),
            res is Ok ==> buffer_contents(*final(dst)) == buffer_contents(*old(dst)) + frame(message@),
            res == Err::<(), CodecError>(CodecError::OversizedNamespace) <==> !namespace_fits(message@),
            res == Err::<(), CodecError>(CodecError::OversizedData) <==> namespace_fits(message@) && !data_fits(
                message@,
            ),
            res == Err::<(), CodecError>(CodecError::OversizedNamespace) ==> buffer_contents(*final(dst))
                == buffer_contents(*old(dst)),
            res == Err::<(), CodecError>(CodecError::OversizedData) ==> buffer_contents(*final(dst))
                == buffer_contents(*old(dst)) + frame_header(message@),
    {
        let ns_bytes = message.namespace().as_str().as_bytes();
        let ns_len = ns_bytes.len();
        if ns_len > MAX_NAMESPACE_LEN {
            return Err(CodecError::OversizedNamespace);
        }
        let kind = vec![message.poor_mans_discriminant()];
        buffer_extend(dst, kind.as_slice());
        let len_bytes = be_u16_bytes(ns_len as u16);
        buffer_extend(dst, len_bytes.as_slice());
        buffer_extend(dst, ns_bytes);
        assert(buffer_contents(*dst) =~= buffer_contents(*old(dst)) + frame_header(message@));
        match &message {
            Message::Event(_, data) => {
                let data_bytes = data.as_str().as_bytes();
                let data_len = data_bytes.len();
                if data_len as u64 > MAX_DATA_LEN {
                    return Err(CodecError::OversizedData);
                }
                let dl_bytes = be_u32_bytes(data_len as u32);
                buffer_extend(dst, dl_bytes.as_slice());
                buffer_extend(dst, data_bytes);
                assert(buffer_contents(*dst) =~= buffer_contents(*old(dst)) + frame(message@));
            },
            _ => {},
        }
        Ok(())
    }
}

} // verus!

verus! {

proof fn lemma_be16_round_trip(n: nat)
    requires
        n <= 65535,
    ensures
        be16_at(be16_bytes(n), 0) == n,
{
    assert(be16_bytes(n)[0] as nat == n / 256);
    assert(be16_bytes(n)[1] as nat == n % 256);
}

proof fn lemma_be32_round_trip(n: nat)
    requires
        n <= MAX_DATA_LEN,
    ensures
        be32_at(be32_bytes(n), 0) == n,
{
    let b = be32_bytes(n);
    assert(b[0] as nat == n / 16777216);
    assert(b[1] as nat == (n / 65536) % 256);
    assert(b[2] as nat == (n / 256) % 256);
    assert(b[3] as nat == n % 256);
    assert((((n / 16777216) * 256 + (n / 65536) % 256) * 256 + (n / 256) % 256) * 256 + n % 256 == n)
        by (nonlinear_arith)
        requires
            n <= 4294967295,
    ;
}

/// Round trip: from the start of a frame, decoding the frame of any message
/// whose fields fit gives that message back, takes exactly the frame's
/// bytes and leaves the decoder at the start of the next frame, whatever
/// bytes follow.
proof fn lemma_round_trip_event_tail(st: CodecView, ns: Seq<char>, data: Seq<char>, rest: Seq<u8>)
    requires
        st.discriminant == Some(EVENT_DISCRIMINANT),
        st.data_length is None,
        encode_utf8(data).len() <= MAX_DATA_LEN,
    ensures
        after_namespace(st, ns, be32_bytes(encode_utf8(data).len()) + encode_utf8(data) + rest) == (DecodeStep {
            state: fresh_codec(),
            consumed: 4 + encode_utf8(data).len(),
            message: Some(MessageView::Event(ns, data)),
        }),
{
    reveal(after_namespace);
    reveal(decode_data_length);
    reveal(decode_data);
    let bytes = encode_utf8(data);
    let b3 = be32_bytes(bytes.len()) + bytes + rest;
    lemma_be32_round_trip(bytes.len());
    assert(be32_at(b3, 0) == bytes.len());
    let b4 = b3.skip(4);
    assert(b4.take(bytes.len() as int) =~= bytes);
    encode_utf8_valid_utf8(data);
    encode_utf8_decode_utf8(data);
    assert(lossy_text(bytes) == data);
}

proof fn lemma_round_trip_namespace(m: MessageView, rest: Seq<u8>)
    requires
        namespace_fits(m),
        data_fits(m),
    ensures
        decode_ns_length(
            CodecView { discriminant: Some(m.kind()), ..fresh_codec() },
            frame(m).skip(1) + rest,
        ) == (DecodeStep {
            state: fresh_codec(),
            consumed: (frame(m).len() - 1) as nat,
            message: Some(m),
        }),
{
    reveal(decode_ns_length);
    reveal(decode_namespace);
    let ns = encode_utf8(m.ns());
    let st1 = CodecView { discriminant: Some(m.kind()), ..fresh_codec() };
    let b1 = frame(m).skip(1) + rest;
    let tail = if m is Event {
        be32_bytes(encode_utf8(m.data()).len()) + encode_utf8(m.data())
    } else {
        Seq::<u8>::empty()
    };
    assert(b1 =~= be16_bytes(ns.len()) + ns + tail + rest);
    lemma_be16_round_trip(ns.len());
    assert(be16_at(b1, 0) == ns.len());
    let st2 = CodecView { ns_length: Some(ns.len()), ..st1 };
    let b2 = b1.skip(2);
    assert(b2.take(ns.len() as int) =~= ns);
    encode_utf8_valid_utf8(m.ns());
    encode_utf8_decode_utf8(m.ns());
    assert(lossy_text(ns) == m.ns());
    let b3 = b2.skip(ns.len() as int);
    assert(b3 =~= tail + rest);
    if m is Event {
        lemma_round_trip_event_tail(st2, m.ns(), m.data(), rest);
        assert(b3 =~= be32_bytes(encode_utf8(m.data()).len()) + encode_utf8(m.data()) + rest);
        assert(MessageView::Event(m.ns(), m.data()) == m);
    } else {
        reveal(after_namespace);
        assert(message_of(m.kind(), m.ns(), Seq::empty()) == m);
    }
}

/// Round trip: from the start of a frame, decoding the frame of any message
/// whose fields fit gives that message back, takes exactly the frame's
/// bytes and leaves the decoder at the start of the next frame, whatever
/// bytes follow; and the decoder accepts the frame's kind byte.
pub proof fn frame_round_trip(m: MessageView, rest: Seq<u8>)
    requires
        namespace_fits(m),
        data_fits(m),
    ensures
        kind_byte_ok(fresh_codec(), frame(m) + rest),
        decode_view(fresh_codec(), frame(m) + rest) == (DecodeStep {
            state: fresh_codec(),
            consumed: frame(m).len(),
            message: Some(m),
        }),
{
    reveal(decode_view);
    let buf = frame(m) + rest;
    assert(buf[0] == m.kind());
    assert(buf.skip(1) =~= frame(m).skip(1) + rest);
    lemma_round_trip_namespace(m, rest);
}

proof fn lemma_consumed_data(st: CodecView, buf: Seq<u8>)
    ensures
        decode_data(st, buf).consumed <= buf.len(),
{
    reveal(decode_data);
}

proof fn lemma_consumed_data_length(st: CodecView, buf: Seq<u8>)
    ensures
        decode_data_length(st, buf).consumed <= buf.len(),
{
    reveal(decode_data_length);
    lemma_consumed_data(st, buf);
    if buf.len() >= 4 {
        lemma_consumed_data(CodecView { data_length: Some(be32_at(buf, 0)), ..st }, buf.skip(4));
    }
}

proof fn lemma_consumed_namespace(st: CodecView, buf: Seq<u8>)
    ensures
        decode_namespace(st, buf).consumed <= buf.len(),
{
    reveal(decode_namespace);
    reveal(after_namespace);
    if st.namespace is Some {
        lemma_consumed_data_length(CodecView { namespace: Some(st.namespace->0), ..st }, buf);
    } else {
        let l = st.ns_length->0;
        if buf.len() >= l {
            let ns = lossy_text(buf.take(l as int));
            lemma_consumed_data_length(CodecView { namespace: Some(ns), ..st }, buf.skip(l as int));
        }
    }
}

proof fn lemma_consumed_ns_length(st: CodecView, buf: Seq<u8>)
    ensures
        decode_ns_length(st, buf).consumed <= buf.len(),
{
    reveal(decode_ns_length);
    lemma_consumed_namespace(st, buf);
    if buf.len() >= 2 {
        lemma_consumed_namespace(CodecView { ns_length: Some(be16_at(buf, 0)), ..st }, buf.skip(2));
    }
}

/// A decoding step never takes more bytes than the buffer holds.
pub proof fn decode_takes_at_most_buffered(st: CodecView, buf: Seq<u8>)
    ensures
        decode_view(st, buf).consumed <= buf.len(),
{
    reveal(decode_view);
    lemma_consumed_ns_length(st, buf);
    if buf.len() >= 1 {
        lemma_consumed_ns_length(CodecView { discriminant: Some(buf[0]), ..st }, buf.skip(1));
    }
}

proof fn lemma_reduce(st: CodecView, buf: Seq<u8>)
    requires
        fields_in_order(st),
    ensures
        st.discriminant is Some ==> decode_view(st, buf) == decode_ns_length(st, buf),
        st.ns_length is Some ==> decode_ns_length(st, buf) == decode_namespace(st, buf),
        st.namespace is Some ==> decode_namespace(st, buf) == decode_data_length(st, buf),
        st.data_length is Some ==> decode_data_length(st, buf) == decode_data(st, buf),
{
    reveal(decode_view);
    reveal(decode_ns_length);
    reveal(decode_namespace);
    reveal(after_namespace);
    reveal(decode_data_length);
    if st.namespace is Some {
        assert(CodecView { namespace: Some(st.namespace->0), ..st } == st);
    }
}

proof fn lemma_resume_data(st: CodecView, a: Seq<u8>, b: Seq<u8>)
    requires
        fields_in_order(st),
        st.namespace is Some,
        st.data_length is Some,
        decode_data(st, a).message is None,
    ensures
        advance(
            decode_view(decode_data(st, a).state, a.skip(decode_data(st, a).consumed as int) + b),
            decode_data(st, a).consumed,
        ) == decode_data(st, a + b),
{
    reveal(decode_data);
    assert(a.skip(0) =~= a);
    lemma_reduce(st, a + b);
}

proof fn lemma_resume_data_length(st: CodecView, a: Seq<u8>, b: Seq<u8>)
    requires
        fields_in_order(st),
        st.namespace is Some,
        decode_data_length(st, a).message is None,
    ensures
        advance(
            decode_view(
                decode_data_length(st, a).state,
                a.skip(decode_data_length(st, a).consumed as int) + b,
            ),
            decode_data_length(st, a).consumed,
        ) == decode_data_length(st, a + b),
{
    reveal(decode_data_length);
    if st.data_length is Some {
        lemma_resume_data(st, a, b);
    } else if a.len() < 4 {
        assert(a.skip(0) =~= a);
        lemma_reduce(st, a + b);
    } else {
        let st1 = CodecView { data_length: Some(be32_at(a, 0)), ..st };
        assert(be32_at(a + b, 0) == be32_at(a, 0));
        assert((a + b).skip(4) =~= a.skip(4) + b);
        lemma_resume_data(st1, a.skip(4), b);
        let k = decode_data(st1, a.skip(4)).consumed;
        lemma_consumed_data(st1, a.skip(4));
        assert(a.skip(4).skip(k as int) =~= a.skip((4 + k) as int));
    }
}

proof fn lemma_resume_namespace(st: CodecView, a: Seq<u8>, b: Seq<u8>)
    requires
        fields_in_order(st),
        st.discriminant is Some,
        st.ns_length is Some,
        decode_namespace(st, a).message is None,
    ensures
        advance(
            decode_view(
                decode_namespace(st, a).state,
                a.skip(decode_namespace(st, a).consumed as int) + b,
            ),
            decode_namespace(st, a).consumed,
        ) == decode_namespace(st, a + b),
{
    lemma_reduce(st, a);
    lemma_reduce(st, a + b);
    if st.namespace is Some {
        lemma_resume_data_length(st, a, b);
    } else {
        reveal(decode_namespace);
        reveal(after_namespace);
        let l = st.ns_length->0;
        if a.len() < l {
            assert(a.skip(0) =~= a);
            lemma_reduce(st, a + b);
        } else {
            let ns = lossy_text(a.take(l as int));
            assert((a + b).take(l as int) =~= a.take(l as int));
            assert((a + b).skip(l as int) =~= a.skip(l as int) + b);
            let d = st.discriminant->0;
            if d == EVENT_DISCRIMINANT {
                let st1 = CodecView { namespace: Some(ns), ..st };
                lemma_resume_data_length(st1, a.skip(l as int), b);
                let k = decode_data_length(st1, a.skip(l as int)).consumed;
                lemma_consumed_data_length(st1, a.skip(l as int));
                assert(a.skip(l as int).skip(k as int) =~= a.skip((l + k) as int));
            }
        }
    }
}

proof fn lemma_resume_ns_length(st: CodecView, a: Seq<u8>, b: Seq<u8>)
    requires
        fields_in_order(st),
        st.discriminant is Some,
        decode_ns_length(st, a).message is None,
    ensures
        advance(
            decode_view(
                decode_ns_length(st, a).state,
                a.skip(decode_ns_length(st, a).consumed as int) + b,
            ),
            decode_ns_length(st, a).consumed,
        ) == decode_ns_length(st, a + b),
{
    reveal(decode_ns_length);
    if st.ns_length is Some {
        lemma_resume_namespace(st, a, b);
    } else if a.len() < 2 {
        assert(a.skip(0) =~= a);
        lemma_reduce(st, a + b);
    } else {
        let st1 = CodecView { ns_length: Some(be16_at(a, 0)), ..st };
        assert(be16_at(a + b, 0) == be16_at(a, 0));
        assert((a + b).skip(2) =~= a.skip(2) + b);
        lemma_resume_namespace(st1, a.skip(2), b);
        let k = decode_namespace(st1, a.skip(2)).consumed;
        lemma_consumed_namespace(st1, a.skip(2));
        assert(a.skip(2).skip(k as int) =~= a.skip((2 + k) as int));
    }
}

/// Resumption: when a step stops for want of bytes, the next step on the
/// bytes it left plus whatever arrives next ends exactly as one step on all
/// the bytes at once would have: same message, same state, and together
/// the same number of bytes taken.
pub proof fn decode_resumes(st: CodecView, a: Seq<u8>, b: Seq<u8>)
    requires
        fields_in_order(st),
        decode_view(st, a).message is None,
    ensures
        advance(
            decode_view(decode_view(st, a).state, a.skip(decode_view(st, a).consumed as int) + b),
            decode_view(st, a).consumed,
        ) == decode_view(st, a + b),
{
    reveal(decode_view);
    if st.discriminant is Some {
        lemma_resume_ns_length(st, a, b);
    } else if a.len() < 1 {
        assert(a.skip(0) =~= a);
    } else {
        let st1 = CodecView { discriminant: Some(a[0]), ..st };
        assert((a + b)[0] == a[0]);
        assert((a + b).skip(1) =~= a.skip(1) + b);
        lemma_resume_ns_length(st1, a.skip(1), b);
        let k = decode_ns_length(st1, a.skip(1)).consumed;
        lemma_consumed_ns_length(st1, a.skip(1));
        assert(a.skip(1).skip(k as int) =~= a.skip((1 + k) as int));
    }
}

/// The shape of one decoding step: a step that completes a message leaves
/// the decoder at the start of the next frame, and from the start of a frame
/// takes at least the kind byte to do so; a step that completes nothing
/// keeps the kind it has read or reads the buffer's first byte as the kind;
/// and the fields stay in order.
proof fn lemma_step_shape(st: CodecView, buf: Seq<u8>)
    ensures
        decode_view(st, buf).message is Some ==> decode_view(st, buf).state == fresh_codec(),
        decode_view(st, buf).message is Some && st.discriminant is None ==> decode_view(st, buf).consumed >= 1,
        decode_view(st, buf).message is None && st.discriminant is Some ==> decode_view(st, buf).state.discriminant
            == st.discriminant,
        decode_view(st, buf).message is None && st.discriminant is None && buf.len() >= 1 ==> decode_view(
            st,
            buf,
        ).state.discriminant == Some(buf[0]),
        st.discriminant is None && buf.len() < 1 ==> decode_view(st, buf) == stop(st),
        fields_in_order(st) ==> fields_in_order(decode_view(st, buf).state),
{
    reveal(decode_view);
    reveal(decode_ns_length);
    reveal(decode_namespace);
    reveal(after_namespace);
    reveal(decode_data_length);
    reveal(decode_data);
}

proof fn lemma_extends_data(st: CodecView, a: Seq<u8>, b: Seq<u8>)
    requires
        decode_data(st, a).message is Some,
    ensures
        decode_data(st, a + b) == decode_data(st, a),
{
    reveal(decode_data);
    let l = st.data_length->0;
    assert((a + b).take(l as int) =~= a.take(l as int));
}

proof fn lemma_extends_data_length(st: CodecView, a: Seq<u8>, b: Seq<u8>)
    requires
        decode_data_length(st, a).message is Some,
    ensures
        decode_data_length(st, a + b) == decode_data_length(st, a),
{
    reveal(decode_data_length);
    if st.data_length is Some {
        lemma_extends_data(st, a, b);
    } else {
        let st1 = CodecView { data_length: Some(be32_at(a, 0)), ..st };
        assert(be32_at(a + b, 0) == be32_at(a, 0));
        assert((a + b).skip(4) =~= a.skip(4) + b);
        lemma_extends_data(st1, a.skip(4), b);
    }
}

proof fn lemma_extends_after_namespace(st: CodecView, ns: Seq<char>, a: Seq<u8>, b: Seq<u8>)
    requires
        after_namespace(st, ns, a).message is Some,
    ensures
        after_namespace(st, ns, a + b) == after_namespace(st, ns, a),
{
    reveal(after_namespace);
    if st.discriminant->0 == EVENT_DISCRIMINANT {
        lemma_extends_data_length(CodecView { namespace: Some(ns), ..st }, a, b);
    }
}

proof fn lemma_extends_namespace(st: CodecView, a: Seq<u8>, b: Seq<u8>)
    requires
        decode_namespace(st, a).message is Some,
    ensures
        decode_namespace(st, a + b) == decode_namespace(st, a),
{
    reveal(decode_namespace);
    if st.namespace is Some {
        lemma_extends_after_namespace(st, st.namespace->0, a, b);
    } else {
        let l = st.ns_length->0;
        assert((a + b).take(l as int) =~= a.take(l as int));
        assert((a + b).skip(l as int) =~= a.skip(l as int) + b);
        lemma_extends_after_namespace(st, lossy_text(a.take(l as int)), a.skip(l as int), b);
    }
}

proof fn lemma_extends_ns_length(st: CodecView, a: Seq<u8>, b: Seq<u8>)
    requires
        decode_ns_length(st, a).message is Some,
    ensures
        decode_ns_length(st, a + b) == decode_ns_length(st, a),
{
    reveal(decode_ns_length);
    if st.ns_length is Some {
        lemma_extends_namespace(st, a, b);
    } else {
        let st1 = CodecView { ns_length: Some(be16_at(a, 0)), ..st };
        assert(be16_at(a + b, 0) == be16_at(a, 0));
        assert((a + b).skip(2) =~= a.skip(2) + b);
        lemma_extends_namespace(st1, a.skip(2), b);
    }
}

/// A step that completes a message ends the same whatever bytes follow.
proof fn lemma_extends(st: CodecView, a: Seq<u8>, b: Seq<u8>)
    requires
        decode_view(st, a).message is Some,
    ensures
        decode_view(st, a + b) == decode_view(st, a),
{
    reveal(decode_view);
    if st.discriminant is Some {
        lemma_extends_ns_length(st, a, b);
    } else {
        let st1 = CodecView { discriminant: Some(a[0]), ..st };
        assert((a + b)[0] == a[0]);
        assert((a + b).skip(1) =~= a.skip(1) + b);
        lemma_extends_ns_length(st1, a.skip(1), b);
    }
}

/// What is left once the decoder has been called on a buffer again and
/// again until a call completes no message: the fields of the frame it is
/// in, the bytes it left in the buffer, the messages it completed, in order,
/// and whether it stopped at the whole frame of an unknown kind, which it
/// refuses.
pub struct Drained {
    pub state: CodecView,
    pub rest: Seq<u8>,
    pub messages: Seq<MessageView>,
    pub refused: bool,
}

/// Decreases with every step that completes a message.
pub open spec fn drain_measure(st: CodecView, buf: Seq<u8>) -> nat {
    2 * buf.len() + if st.discriminant is Some { 1nat } else { 0nat }
}

/// A step that completes a message makes progress: it takes bytes, or it
/// ends a frame whose kind was read before.
pub proof fn lemma_drain_decreases(st: CodecView, buf: Seq<u8>)
    requires
        decode_view(st, buf).message is Some,
    ensures
        drain_measure(decode_view(st, buf).state, buf.skip(decode_view(st, buf).consumed as int)) < drain_measure(
            st,
            buf,
        ),
{
    lemma_step_shape(st, buf);
    decode_takes_at_most_buffered(st, buf);
}

/// Calls the decoder on `buf` from state `st` until a call completes no
/// message, or until the decoder meets an unknown kind byte, where it
/// waits, taking nothing, until that frame's namespace is there and then
/// refuses the frame.
pub open spec fn drain(st: CodecView, buf: Seq<u8>) -> Drained
    decreases drain_measure(st, buf),
{
    if !kind_byte_ok(st, buf) {
        Drained { state: st, rest: buf, messages: Seq::empty(), refused: header_complete(buf) }
    } else {
        let s = decode_view(st, buf);
        match s.message {
            None => Drained {
                state: s.state,
                rest: buf.skip(s.consumed as int),
                messages: Seq::empty(),
                refused: false,
            },
            Some(m) => {
                proof {
                    lemma_drain_decreases(st, buf);
                }
                let d = drain(s.state, buf.skip(s.consumed as int));
                Drained { messages: seq![m] + d.messages, ..d }
            },
        }
    }
}

/// The bytes of `a` and then of `b`, decoded by draining `a` first and then
/// what it left followed by `b`.
pub open spec fn drain_in_two(st: CodecView, a: Seq<u8>, b: Seq<u8>) -> Drained {
    let d1 = drain(st, a);
    if d1.refused {
        Drained { rest: d1.rest + b, ..d1 }
    } else {
        let d2 = drain(d1.state, d1.rest + b);
        Drained { messages: d1.messages + d2.messages, ..d2 }
    }
}

/// Splitting the bytes anywhere changes nothing: draining the decoder on
/// the first part, and then on what it left followed by the second part,
/// completes the same messages in the same order, refuses exactly where
/// and when draining all the bytes at once does, and ends in the same state
/// with the same bytes left.
pub proof fn drain_split(st: CodecView, a: Seq<u8>, b: Seq<u8>)
    requires
        fields_in_order(st),
    ensures
        drain_in_two(st, a, b) == drain(st, a + b),
    decreases drain_measure(st, a),
{
    let d1 = drain(st, a);
    if !kind_byte_ok(st, a) {
        assert((a + b)[0] == a[0]);
        if header_complete(a) {
            assert(be16_at(a + b, 1) == be16_at(a, 1));
        } else {
            assert(Seq::<MessageView>::empty() + drain(st, a + b).messages =~= drain(st, a + b).messages);
        }
        return;
    }
    let s = decode_view(st, a);
    lemma_step_shape(st, a);
    decode_takes_at_most_buffered(st, a);
    let c = s.consumed;
    assert((a + b).skip(c as int) =~= a.skip(c as int) + b);
    if st.discriminant is None && a.len() >= 1 {
        assert((a + b)[0] == a[0]);
    }
    match s.message {
        None => {
            decode_resumes(st, a, b);
            let r = a.skip(c as int) + b;
            let s2 = decode_view(s.state, r);
            let big = decode_view(st, a + b);
            lemma_step_shape(s.state, r);
            decode_takes_at_most_buffered(s.state, r);
            assert((a + b).skip(big.consumed as int) =~= r.skip(s2.consumed as int));
            assert(kind_byte_ok(st, a + b) == kind_byte_ok(s.state, r));
            let d2 = drain(s.state, r);
            assert(d1.messages + d2.messages =~= d2.messages);
        },
        Some(m) => {
            lemma_extends(st, a, b);
            lemma_drain_decreases(st, a);
            drain_split(s.state, a.skip(c as int), b);
            let d1r = drain(s.state, a.skip(c as int));
            if !d1r.refused {
                let d2 = drain(d1r.state, d1r.rest + b);
                assert(seq![m] + (d1r.messages + d2.messages) =~= (seq![m] + d1r.messages) + d2.messages);
            }
        },
    }
}

proof fn lemma_drain_keeps_order(st: CodecView, buf: Seq<u8>)
    requires
        fields_in_order(st),
    ensures
        fields_in_order(drain(st, buf).state),
    decreases drain_measure(st, buf),
{
    if kind_byte_ok(st, buf) {
        let s = decode_view(st, buf);
        lemma_step_shape(st, buf);
        if s.message is Some {
            lemma_drain_decreases(st, buf);
            lemma_drain_keeps_order(s.state, buf.skip(s.consumed as int));
        }
    }
}

/// Once drained, the decoder has nothing more to do with the bytes it
/// left: draining again completes nothing and changes nothing.
proof fn lemma_drained_settles(st: CodecView, a: Seq<u8>)
    requires
        fields_in_order(st),
        !drain(st, a).refused,
    ensures
        fields_in_order(drain(st, a).state),
        drain(drain(st, a).state, drain(st, a).rest) == (Drained {
            state: drain(st, a).state,
            rest: drain(st, a).rest,
            messages: Seq::empty(),
            refused: false,
        }),
{
    let d1 = drain(st, a);
    lemma_drain_keeps_order(st, a);
    drain_split(st, a, Seq::empty());
    assert(a + Seq::<u8>::empty() =~= a);
    assert(d1.rest + Seq::<u8>::empty() =~= d1.rest);
    let d2 = drain(d1.state, d1.rest);
    assert((d1.messages + d2.messages).len() == d1.messages.len());
    assert(d2.messages =~= Seq::<MessageView>::empty());
}

/// The decoder fed one chunk after another: each chunk is appended to the
/// bytes left in the buffer, and the decoder is called until a call
/// completes no message. Once it refuses a frame it is fed no more, and
/// the chunks it was not fed count as left.
pub open spec fn feed(st: CodecView, pending: Seq<u8>, chunks: Seq<Seq<u8>>) -> Drained
    decreases chunks.len(),
{
    if chunks.len() == 0 {
        Drained { state: st, rest: pending, messages: Seq::empty(), refused: false }
    } else {
        let d = drain(st, pending + chunks[0]);
        if d.refused {
            Drained { rest: d.rest + chunks.drop_first().flatten(), ..d }
        } else {
            let r = feed(d.state, d.rest, chunks.drop_first());
            Drained { messages: d.messages + r.messages, ..r }
        }
    }
}

/// However the bytes arrive, in chunks of any sizes, the decoder completes
/// the same messages in the same order, refuses the same frame, and
/// ends in the same state with the same bytes left as if all of them had
/// come at once; this holds from any state in which the decoder has
/// finished with the bytes it holds.
pub proof fn decode_any_chunking(st: CodecView, pending: Seq<u8>, chunks: Seq<Seq<u8>>)
    requires
        fields_in_order(st),
        drain(st, pending) == (Drained { state: st, rest: pending, messages: Seq::empty(), refused: false }),
    ensures
        feed(st, pending, chunks) == drain(st, pending + chunks.flatten()),
    decreases chunks.len(),
{
    if chunks.len() == 0 {
        assert(pending + chunks.flatten() =~= pending);
    } else {
        let c0 = chunks[0];
        let tail = chunks.drop_first();
        assert(chunks.first() == c0);
        assert(pending + chunks.flatten() =~= (pending + c0) + tail.flatten());
        drain_split(st, pending + c0, tail.flatten());
        let d = drain(st, pending + c0);
        if !d.refused {
            lemma_drained_settles(st, pending + c0);
            decode_any_chunking(d.state, d.rest, tail);
        }
    }
}

/// The frames of `ms`, one after another.
pub open spec fn frames(ms: Seq<MessageView>) -> Seq<u8>
    decreases ms.len(),
{
    if ms.len() == 0 {
        Seq::empty()
    } else {
        frame(ms[0]) + frames(ms.drop_first())
    }
}

/// Every message's fields fit their frame.
pub open spec fn all_fit(ms: Seq<MessageView>) -> bool {
    forall|i: int| 0 <= i < ms.len() ==> namespace_fits(#[trigger] ms[i]) && data_fits(ms[i])
}

proof fn lemma_drain_frames(ms: Seq<MessageView>)
    requires
        all_fit(ms),
    ensures
        drain(fresh_codec(), frames(ms)) == (Drained {
            state: fresh_codec(),
            rest: Seq::empty(),
            messages: ms,
            refused: false,
        }),
    decreases ms.len(),
{
    if ms.len() == 0 {
        reveal(decode_view);
        assert(Seq::<u8>::empty().skip(0) =~= Seq::<u8>::empty());
        assert(ms =~= Seq::<MessageView>::empty());
    } else {
        let m = ms[0];
        let tail = ms.drop_first();
        assert(all_fit(tail)) by {
            assert forall|i: int| 0 <= i < tail.len() implies namespace_fits(#[trigger] tail[i]) && data_fits(
                tail[i],
            ) by {
                assert(tail[i] == ms[i + 1]);
            }
        }
        frame_round_trip(m, frames(tail));
        assert((frame(m) + frames(tail)).skip(frame(m).len() as int) =~= frames(tail));
        lemma_drain_frames(tail);
        assert(seq![m] + tail =~= ms);
    }
}

/// However the frames of a sequence of messages are cut into chunks, a
/// fresh decoder fed the chunks one after another completes exactly those
/// messages, in order and each once, never refuses a byte, takes every byte
/// and ends at the start of a frame.
pub proof fn decode_frames_any_chunking(ms: Seq<MessageView>, chunks: Seq<Seq<u8>>)
    requires
        all_fit(ms),
        chunks.flatten() == frames(ms),
    ensures
        feed(fresh_codec(), Seq::empty(), chunks) == (Drained {
            state: fresh_codec(),
            rest: Seq::empty(),
            messages: ms,
            refused: false,
        }),
{
    lemma_drain_frames(Seq::empty());
    assert(frames(Seq::<MessageView>::empty()) =~= Seq::<u8>::empty());
    decode_any_chunking(fresh_codec(), Seq::empty(), chunks);
    assert(Seq::<u8>::empty() + chunks.flatten() =~= frames(ms));
    lemma_drain_frames(ms);
}

} // verus!
