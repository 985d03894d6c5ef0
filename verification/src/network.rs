//! Packets, their byte encoding, and the framing of packets on a stream.

use vstd::prelude::*;
use vstd::slice::*;
use vstd::string::*;
use vstd::utf8::*;
use crate::wire::{
    be16, be32, lemma_text_read_back, lemma_text_round_trip, lemma_u16_read_back, lemma_u16_round_trip, lemma_u32_round_trip, read_string, read_u16, read_u32, text_at, text_field,
    u16_at, u32_at, write_string, write_u16, write_u32, DecodeError, EncodeError,
};

verus! {

/// The protocol version this build speaks.
pub const MAJOR_VERSION: u16 = 0;

pub const MINOR_VERSION: u16 = 2;

/// How many milliseconds an end waits for the version of its peer.
pub const HANDSHAKE_TIMEOUT_MS: u64 = 10_000;

/// One protocol message.
#[derive(Debug, PartialEq, Eq)]
pub enum Packet {
    /// Announces the sender's protocol version.
    ClientInfo { major: u16, minor: u16 },
    /// The sender completed this word; the receiver must now type it too.
    AddWord { word: String },
    /// The sender concedes the match.
    ILost {  },
    /// The sender wants a rematch.
    WaitingToRestart,
}

/// A packet as a mathematical value: text is a sequence of characters.
pub enum PacketView {
    ClientInfo { major: u16, minor: u16 },
    AddWord { word: Seq<char> },
    ILost,
    WaitingToRestart,
}

impl View for Packet {
    type V = PacketView;

    open spec fn view(&self) -> PacketView {
        match self {
            Packet::ClientInfo { major, minor } => PacketView::ClientInfo {
                major: *major,
                minor: *minor,
            },
            Packet::AddWord { word } => PacketView::AddWord { word: word@ },
            Packet::ILost {  } => PacketView::ILost,
            Packet::WaitingToRestart => PacketView::WaitingToRestart,
        }
    }
}

impl PacketView {
    /// The tag that names the variant on the wire.
    pub open spec fn tag(self) -> u16 {
        match self {
            PacketView::ClientInfo { .. } => 0,
            PacketView::AddWord { .. } => 1,
            PacketView::ILost => 2,
            PacketView::WaitingToRestart => 3,
        }
    }

    /// The fields that follow the tag.
    pub open spec fn fields(self) -> Seq<u8> {
        match self {
            PacketView::ClientInfo { major, minor } => be16(major) + be16(minor),
            PacketView::AddWord { word } => text_field(word),
            PacketView::ILost => Seq::empty(),
            PacketView::WaitingToRestart => Seq::empty(),
        }
    }

    /// The payload: tag, then fields, big-endian throughout.
    pub open spec fn encoding(self) -> Seq<u8> {
        be16(self.tag()) + self.fields()
    }

    /// Whether the packet has an encoding: its text must fit the 32-bit
    /// length prefix.
    pub open spec fn encodable(self) -> bool {
        match self {
            PacketView::AddWord { word } => encode_utf8(word).len() <= u32::MAX,
            _ => true,
        }
    }
}

/// What a payload decodes to. Bytes after the packet's last field are not
/// looked at.
#[verifier::opaque]
pub open spec fn decoding(b: Seq<u8>) -> Result<PacketView, DecodeError> {
    if b.len() < 2 {
        Err(DecodeError::UnexpectedEof)
    } else {
        let tag = u16_at(b, 0);
        if tag == 0 {
            if b.len() < 6 {
                Err(DecodeError::UnexpectedEof)
            } else {
                Ok(PacketView::ClientInfo { major: u16_at(b, 2), minor: u16_at(b, 4) })
            }
        } else if tag == 1 {
            match text_at(b, 2) {
                Ok((word, _)) => Ok(PacketView::AddWord { word }),
                Err(e) => Err(e),
            }
        } else if tag == 2 {
            Ok(PacketView::ILost)
        } else if tag == 3 {
            Ok(PacketView::WaitingToRestart)
        } else {
            Err(DecodeError::UnrecognizedVariant(tag))
        }
    }
}

impl Packet {
    /// Decodes one packet from the front of `data`.
    pub fn parse(data: &[u8]) -> (r: Result<Packet, DecodeError>)
        ensures
            match r {
                Ok(p) => decoding(data@) == Ok::<PacketView, DecodeError>(p@),
                Err(e) => decoding(data@) == Err::<PacketView, DecodeError>(e),
            },
    {
        reveal(decoding);
        let mut pos: usize = 0;
        let packet_type: u16 = match read_u16(data, &mut pos) {
            Ok(t) => t,
            Err(e) => {
                return Err(e);
            },
        };
        if packet_type == 0 {
            let major: u16 = match read_u16(data, &mut pos) {
                Ok(x) => x,
                Err(e) => {
                    return Err(e);
                },
            };
            let minor: u16 = match read_u16(data, &mut pos) {
                Ok(x) => x,
                Err(e) => {
                    return Err(e);
                },
            };
            Ok(Packet::ClientInfo { major, minor })
        } else if packet_type == 1 {
            match read_string(data, &mut pos) {
                Ok(word) => Ok(Packet::AddWord { word }),
                Err(e) => Err(e),
            }
        } else if packet_type == 2 {
            Ok(Packet::ILost {  })
        } else if packet_type == 3 {
            Ok(Packet::WaitingToRestart)
        } else {
            Err(DecodeError::UnrecognizedVariant(packet_type))
        }
    }

    /// The tag that names this packet's variant on the wire.
    pub fn packet_id(&self) -> (id: u16)
        ensures
            id == self@.tag(),
    {
        match self {
            Packet::ClientInfo { .. } => 0,
            Packet::AddWord { .. } => 1,
            Packet::ILost { .. } => 2,
            Packet::WaitingToRestart => 3,
        }
    }

    /// Appends the packet's encoding to `out`. A packet without an encoding
    /// is refused and `out` is left as it was.
    pub fn write(&self, out: &mut Vec<u8>) -> (r: Result<(), EncodeError>)
        ensures
            r is Ok <==> self@.encodable(),
            r is Ok ==> final(out)@ == old(out)@ + self@.encoding(),
            r matches Err(e) ==> e == EncodeError::TooLong && final(out)@ == old(out)@,
    {
        match self {
            Packet::ClientInfo { major, minor } => {
                write_u16(out, self.packet_id());
                write_u16(out, *major);
                write_u16(out, *minor);
                assert(out@ =~= old(out)@ + self@.encoding());
                Ok(())
            },
            Packet::AddWord { word } => {
                let mut field: Vec<u8> = Vec::new();
                match write_string(&mut field, word.as_str()) {
                    Ok(()) => {
                        write_u16(out, self.packet_id());
                        out.append(&mut field);
                        assert(out@ =~= old(out)@ + self@.encoding());
                        Ok(())
                    },
                    Err(e) => Err(e),
                }
            },
            Packet::ILost {  } => {
                write_u16(out, self.packet_id());
                assert(out@ =~= old(out)@ + self@.encoding());
                Ok(())
            },
            Packet::WaitingToRestart => {
                write_u16(out, self.packet_id());
                assert(out@ =~= old(out)@ + self@.encoding());
                Ok(())
            },
        }
    }

    /// The announcement of this build's own version.
    pub fn client_info() -> (p: Packet)
        ensures
            p@ == (PacketView::ClientInfo { major: MAJOR_VERSION, minor: MINOR_VERSION }),
    {
        Packet::ClientInfo { major: MAJOR_VERSION, minor: MINOR_VERSION }
    }

    /// The packet that hands `word` to the opponent.
    pub fn add_word(word: &str) -> (p: Packet)
        ensures
            p@ == (PacketView::AddWord { word: word@ }),
    {
        Packet::AddWord { word: word.to_owned() }
    }
}

/// Decoding inverts encoding: the payload of an encodable packet, followed by
/// any bytes at all, decodes to that packet.
pub proof fn lemma_decode_encode(p: PacketView, rest: Seq<u8>)
    requires
        p.encodable(),
    ensures
        decoding(p.encoding() + rest) == Ok::<PacketView, DecodeError>(p),
{
    reveal(decoding);
    let b = p.encoding() + rest;
    assert(b =~= be16(p.tag()) + (p.fields() + rest));
    lemma_u16_round_trip(p.tag(), p.fields() + rest);
    match p {
        PacketView::ClientInfo { major, minor } => {
            let tail = be16(minor) + rest;
            assert(p.fields() + rest =~= be16(major) + tail);
            lemma_u16_round_trip(major, tail);
            lemma_u16_round_trip(minor, rest);
            assert(b[2] == (be16(major) + tail)[0]);
            assert(b[3] == (be16(major) + tail)[1]);
            assert(b[4] == (be16(minor) + rest)[0]);
            assert(b[5] == (be16(minor) + rest)[1]);
        },
        PacketView::AddWord { word } => {
            lemma_text_round_trip(word, rest);
            lemma_text_shift(be16(p.tag()), text_field(word) + rest);
        },
        PacketView::ILost => {},
        PacketView::WaitingToRestart => {},
    }
}

/// A text field reads the same after a prefix as at the start of the bytes
/// behind that prefix.
proof fn lemma_text_shift(pre: Seq<u8>, b: Seq<u8>)
    ensures
        match text_at(b, 0) {
            Ok((s, end)) => text_at(pre + b, pre.len() as int) == Ok::<
                (Seq<char>, int),
                DecodeError,
            >((s, end + pre.len())),
            Err(e) => text_at(pre + b, pre.len() as int) == Err::<(Seq<char>, int), DecodeError>(e),
        },
{
    let k = pre.len() as int;
    let c = pre + b;
    if 4 <= b.len() {
        assert(c[k] == b[0] && c[k + 1] == b[1] && c[k + 2] == b[2] && c[k + 3] == b[3]);
        let end = 4 + u32_at(b, 0);
        if end <= b.len() {
            assert(c.subrange(k + 4, k + end) =~= b.subrange(4, end));
        }
    }
}

/// The length prefix of a frame takes four bytes.
pub const HEADER_LEN: usize = 4;

/// The whole length of the frame whose length prefix `b` starts with.
pub open spec fn frame_len(b: Seq<u8>) -> int {
    4 + u32_at(b, 0)
}

/// `b` holds no byte beyond the frame it starts.
pub open spec fn within_frame(b: Seq<u8>) -> bool {
    b.len() >= 4 ==> b.len() <= frame_len(b)
}

/// `b` is exactly one frame: a length prefix and that many payload bytes.
pub open spec fn is_frame(b: Seq<u8>) -> bool {
    b.len() >= 4 && b.len() == frame_len(b)
}

/// How many bytes are missing from `b`: first to finish the length prefix,
/// then to finish the frame.
pub open spec fn wanted(b: Seq<u8>) -> int {
    if b.len() < 4 {
        4 - b.len()
    } else {
        frame_len(b) - b.len()
    }
}

/// The part of `b` that belongs to the frame it starts.
pub open spec fn frame_prefix(b: Seq<u8>) -> Seq<u8> {
    if b.len() < 4 || b.len() <= frame_len(b) {
        b
    } else {
        b.subrange(0, frame_len(b))
    }
}

/// The frame that carries `p`: the payload's length, then the payload.
pub open spec fn frame_of(p: PacketView) -> Seq<u8> {
    be32(p.encoding().len() as u32) + p.encoding()
}

/// Whether `p` fits a frame: it has an encoding, of at most `u32::MAX` bytes.
pub open spec fn framable(p: PacketView) -> bool {
    p.encodable() && p.encoding().len() <= u32::MAX
}

/// A receive buffer and a cursor: the bytes before the cursor are those of
/// the next frame that have arrived. What lies behind the cursor is left
/// over from frames handed out and means nothing.
#[derive(Debug)]
struct FrameBuffer {
    buf: Vec<u8>,
    buf_pos: usize,
}

impl View for FrameBuffer {
    type V = Seq<u8>;

    closed spec fn view(&self) -> Seq<u8> {
        self.buf@.subrange(0, self.buf_pos as int)
    }
}

impl FrameBuffer {
    /// The cursor stays inside the buffer, and the bytes before it never
    /// reach beyond the frame they start.
    #[verifier::type_invariant]
    spec fn inv(self) -> bool {
        self.buf_pos <= self.buf@.len() && within_frame(self.buf@.subrange(0, self.buf_pos as int))
    }

    /// An empty buffer.
    fn new() -> (b: FrameBuffer)
        ensures
            b@ == Seq::<u8>::empty(),
    {
        FrameBuffer { buf: Vec::new(), buf_pos: 0 }
    }

    /// How many bytes of the next frame have arrived.
    fn len(&self) -> (n: usize)
        ensures
            n == self@.len(),
            within_frame(self@),
    {
        proof {
            use_type_invariant(self);
        }
        self.buf_pos
    }

    /// How many bytes the buffer still takes: what is missing from the
    /// length prefix, or from the frame once its length is known.
    fn wanted(&self) -> (n: u64)
        ensures
            n == wanted(self@),
            within_frame(self@),
    {
        proof {
            use_type_invariant(self);
        }
        let have: usize = self.buf_pos;
        if have < HEADER_LEN {
            (HEADER_LEN - have) as u64
        } else {
            let mut at: usize = 0;
            match read_u32(self.buf.as_slice(), &mut at) {
                Ok(n) => {
                    assert(self@[0] == self.buf@[0] && self@[1] == self.buf@[1] && self@[2]
                        == self.buf@[2] && self@[3] == self.buf@[3]);
                    4 + n as u64 - have as u64
                },
                Err(_) => 0,
            }
        }
    }

    /// Takes from the front of `incoming` as many bytes as are wanted and
    /// there; returns how many.
    fn fill(&mut self, incoming: &[u8]) -> (n: usize)
        ensures
            n == if incoming@.len() <= wanted(old(self)@) {
                incoming@.len() as int
            } else {
                wanted(old(self)@)
            },
            final(self)@ == old(self)@ + incoming@.subrange(0, n as int),
            within_frame(final(self)@),
    {
        let want: u64 = self.wanted();
        let n: usize = if incoming.len() as u64 <= want {
            incoming.len()
        } else {
            want as usize
        };
        let part = slice_subrange(incoming, 0, n);
        proof {
            use_type_invariant(&*self);
        }
        let ghost before = self@;
        let pos: usize = self.buf_pos;
        self.buf_pos = 0;
        let mut grown: Vec<u8> = Vec::new();
        core::mem::swap(&mut grown, &mut self.buf);
        grown.truncate(pos);
        grown.extend_from_slice(part);
        proof {
            assert(grown@ =~= before + incoming@.subrange(0, n as int));
            if before.len() >= 4 {
                assert(grown@[0] == before[0] && grown@[1] == before[1] && grown@[2] == before[2]
                    && grown@[3] == before[3]);
            }
            assert(grown@.subrange(0, grown@.len() as int) =~= grown@);
        }
        self.buf = grown;
        self.buf_pos = self.buf.len();
        n
    }

    /// Decodes the payload of the frame held. There must be a whole frame.
    fn decode(&self) -> (r: Result<Packet, DecodeError>)
        requires
            is_frame(self@),
        ensures
            match r {
                Ok(p) => decoding(self@.subrange(4, self@.len() as int)) == Ok::<
                    PacketView,
                    DecodeError,
                >(p@),
                Err(e) => decoding(self@.subrange(4, self@.len() as int)) == Err::<
                    PacketView,
                    DecodeError,
                >(e),
            },
    {
        proof {
            use_type_invariant(self);
        }
        let payload = slice_subrange(self.buf.as_slice(), HEADER_LEN, self.buf_pos);
        assert(payload@ =~= self@.subrange(4, self@.len() as int));
        Packet::parse(payload)
    }

    /// Moves the cursor back to the start: nothing has arrived of the next
    /// frame.
    fn reset(&mut self)
        ensures
            final(self)@ == Seq::<u8>::empty(),
    {
        self.buf_pos = 0;
    }
}

/// Why no packet came out of a connection.
#[derive(Debug, Clone, Copy, PartialEq, Eq, Structural)]
pub enum ConnectionError {
    /// A whole frame arrived and its payload is no packet. The stream has
    /// lost its frame boundaries; the connection is of no more use.
    Decode(DecodeError),
    /// The deadline passed before a whole frame arrived.
    TimedOut,
}

/// How many of the bytes `incoming` a poll takes when `held` is buffered:
/// those that belong to the frame under way.
pub open spec fn poll_used(held: Seq<u8>, incoming: Seq<u8>) -> int {
    frame_prefix(held + incoming).len() - held.len()
}

/// What a poll hands back: nothing while the frame is incomplete, else what
/// its payload decodes to.
pub open spec fn poll_result(held: Seq<u8>, incoming: Seq<u8>) -> Result<
    Option<PacketView>,
    DecodeError,
> {
    let f = frame_prefix(held + incoming);
    if !is_frame(f) {
        Ok(None)
    } else {
        match decoding(f.subrange(4, f.len() as int)) {
            Ok(p) => Ok(Some(p)),
            Err(e) => Err(e),
        }
    }
}

/// What is buffered after a poll: nothing once a packet was handed out, else
/// all that has arrived of the frame. A frame that failed to decode stays.
pub open spec fn poll_held(held: Seq<u8>, incoming: Seq<u8>) -> Seq<u8> {
    if poll_result(held, incoming) matches Ok(Some(_)) {
        Seq::empty()
    } else {
        frame_prefix(held + incoming)
    }
}

/// The mathematical value of what a poll returned.
pub open spec fn polled_view(r: Result<Option<Packet>, DecodeError>) -> Result<
    Option<PacketView>,
    DecodeError,
> {
    match r {
        Ok(None) => Ok(None),
        Ok(Some(p)) => Ok(Some(p@)),
        Err(e) => Err(e),
    }
}

/// One end of a framed packet stream: the transport, and the part of the next
/// frame that has arrived. The transport is only carried; reading from it and
/// writing to it is the owner's business.
#[derive(Debug)]
pub struct Connection<S> {
    pub stream: S,
    inbox: FrameBuffer,
}

impl<S> Connection<S> {
    /// The bytes of the next frame that have arrived.
    pub closed spec fn received(&self) -> Seq<u8> {
        self.inbox@
    }

    /// The transport that the connection carries.
    pub closed spec fn transport(&self) -> S {
        self.stream
    }

    /// How many bytes of the next frame have arrived.
    pub fn buf_pos(&self) -> (n: usize)
        ensures
            n == self.received().len(),
    {
        self.inbox.len()
    }

    /// A connection on `stream` with nothing received.
    pub fn new(stream: S) -> (c: Connection<S>)
        ensures
            c.transport() == stream,
            c.received() == Seq::<u8>::empty(),
    {
        Connection { stream, inbox: FrameBuffer::new() }
    }

    /// How many bytes to read from the transport next: what is missing from
    /// the length prefix, or from the frame once its length is known. Zero
    /// when a whole frame is held.
    pub fn wanted(&self) -> (n: u64)
        ensures
            n == wanted(self.received()),
            within_frame(self.received()),
    {
        self.inbox.wanted()
    }

    /// Buffers what the transport delivered: the front of `incoming`, as far
    /// as the frame under way reaches. Returns how many bytes were taken.
    pub fn try_read(&mut self, incoming: &[u8]) -> (n: usize)
        ensures
            n == if incoming@.len() <= wanted(old(self).received()) {
                incoming@.len() as int
            } else {
                wanted(old(self).received())
            },
            final(self).received() == old(self).received() + incoming@.subrange(0, n as int),
            within_frame(final(self).received()),
            final(self).transport() == old(self).transport(),
    {
        self.inbox.fill(incoming)
    }

    /// Takes from `incoming` the bytes of the frame under way and, once the
    /// frame is whole, decodes it and empties the buffer. Returns how many
    /// bytes were taken, and the packet if there is one. Safe to call with
    /// any bytes, none included, at any time.
    pub fn poll_next_packet(&mut self, incoming: &[u8]) -> (r: (
        usize,
        Result<Option<Packet>, DecodeError>,
    ))
        ensures
            r.0 == poll_used(old(self).received(), incoming@),
            polled_view(r.1) == poll_result(old(self).received(), incoming@),
            final(self).received() == poll_held(old(self).received(), incoming@),
            within_frame(old(self).received()),
            final(self).transport() == old(self).transport(),
    {
        let ghost held = self.received();
        let ghost total = held + incoming@;
        let n1: usize = self.try_read(incoming);
        if self.inbox.len() < HEADER_LEN {
            assert(self.received() =~= total);
            return (n1, Ok(None));
        }
        let ghost s1 = self.received();
        let rest = slice_subrange(incoming, n1, incoming.len());
        let n2: usize = self.try_read(rest);
        proof {
            let s2 = self.received();
            assert(s2 =~= held + incoming@.subrange(0, n1 + n2));
            assert(total[0] == s1[0] && total[1] == s1[1] && total[2] == s1[2] && total[3]
                == s1[3]);
            assert(s2[0] == s1[0] && s2[1] == s1[1] && s2[2] == s1[2] && s2[3] == s1[3]);
            assert(s2 =~= frame_prefix(total));
        }
        if self.wanted() > 0 {
            return (n1 + n2, Ok(None));
        }
        match self.inbox.decode() {
            Ok(p) => {
                self.inbox.reset();
                (n1 + n2, Ok(Some(p)))
            },
            Err(e) => (n1 + n2, Err(e)),
        }
    }

    /// A poll with a deadline. Once `elapsed` has reached `timeout` nothing
    /// is taken and the wait is over; before that it is `poll_next_packet`.
    pub fn next_packet(&mut self, incoming: &[u8], elapsed: u64, timeout: u64) -> (r: (
        usize,
        Result<Option<Packet>, ConnectionError>,
    ))
        ensures
            final(self).transport() == old(self).transport(),
            elapsed >= timeout ==> r.0 == 0 && r.1 == Err::<Option<Packet>, ConnectionError>(
                ConnectionError::TimedOut,
            ) && final(self).received() == old(self).received(),
            elapsed < timeout ==> {
                &&& r.0 == poll_used(old(self).received(), incoming@)
                &&& final(self).received() == poll_held(old(self).received(), incoming@)
                &&& match r.1 {
                    Ok(x) => polled_view(Ok(x)) == poll_result(old(self).received(), incoming@),
                    Err(ConnectionError::Decode(e)) => poll_result(
                        old(self).received(),
                        incoming@,
                    ) == Err::<Option<PacketView>, DecodeError>(e),
                    Err(ConnectionError::TimedOut) => false,
                }
            },
    {
        if elapsed >= timeout {
            return (0, Err(ConnectionError::TimedOut));
        }
        let (used, polled) = self.poll_next_packet(incoming);
        match polled {
            Ok(x) => (used, Ok(x)),
            Err(e) => (used, Err(ConnectionError::Decode(e))),
        }
    }

    /// The frame that carries `packet`, ready to be written to the transport
    /// in one piece. A packet that fits no frame is refused.
    pub fn send_packet(&self, packet: Packet) -> (r: Result<Vec<u8>, EncodeError>)
        ensures
            r is Ok <==> framable(packet@),
            r matches Ok(bytes) ==> bytes@ == frame_of(packet@),
            r matches Err(e) ==> e == EncodeError::TooLong,
    {
        let mut data: Vec<u8> = Vec::new();
        match packet.write(&mut data) {
            Ok(()) => {},
            Err(e) => {
                return Err(e);
            },
        }
        if data.len() as u64 > 0xffff_ffff {
            return Err(EncodeError::TooLong);
        }
        let mut frame: Vec<u8> = Vec::new();
        write_u32(&mut frame, data.len() as u32);
        frame.append(&mut data);
        assert(frame@ =~= frame_of(packet@));
        Ok(frame)
    }
}

/// Framing does not depend on how the bytes arrive. With the first `i` bytes
/// of a packet's frame buffered, a poll that is given the bytes from `i` to
/// `j` takes them all; it hands out nothing while bytes of the frame are
/// still missing, and the packet itself when the last one is among them.
pub proof fn lemma_frame_in_pieces(p: PacketView, i: int, j: int)
    requires
        framable(p),
        0 <= i <= j <= frame_of(p).len(),
    ensures
        ({
            let f = frame_of(p);
            let held = f.subrange(0, i);
            let piece = f.subrange(i, j);
            &&& within_frame(held)
            &&& poll_used(held, piece) == j - i
            &&& j < f.len() ==> poll_result(held, piece) == Ok::<Option<PacketView>, DecodeError>(
                None,
            ) && poll_held(held, piece) == f.subrange(0, j)
            &&& j == f.len() ==> poll_result(held, piece) == Ok::<
                Option<PacketView>,
                DecodeError,
            >(Some(p)) && poll_held(held, piece) == Seq::<u8>::empty()
        }),
{
    let f = frame_of(p);
    lemma_frame_then_more(p, i, Seq::empty());
    let held = f.subrange(0, i);
    let piece = f.subrange(i, j);
    let n = p.encoding().len() as u32;
    lemma_u32_round_trip(n, p.encoding());
    assert(held + piece =~= f.subrange(0, j));
    if j >= 4 {
        let g = f.subrange(0, j);
        assert(g[0] == f[0] && g[1] == f[1] && g[2] == f[2] && g[3] == f[3]);
    }
    if i >= 4 {
        assert(held[0] == f[0] && held[1] == f[1] && held[2] == f[2] && held[3] == f[3]);
    }
    if j == f.len() {
        assert(f.subrange(0, j) =~= f);
        assert(f.subrange(i, f.len() as int) + Seq::<u8>::empty() =~= piece);
    }
}

/// A poll stops at the end of the frame: with the first `i` bytes of a
/// packet's frame buffered and the rest of it arriving with `more` bytes
/// behind, the rest is taken, `more` is left, and the packet comes out.
pub proof fn lemma_frame_then_more(p: PacketView, i: int, more: Seq<u8>)
    requires
        framable(p),
        0 <= i <= frame_of(p).len(),
    ensures
        ({
            let f = frame_of(p);
            let held = f.subrange(0, i);
            let incoming = f.subrange(i, f.len() as int) + more;
            &&& is_frame(f)
            &&& within_frame(held)
            &&& poll_used(held, incoming) == f.len() - i
            &&& poll_result(held, incoming) == Ok::<Option<PacketView>, DecodeError>(Some(p))
            &&& poll_held(held, incoming) == Seq::<u8>::empty()
        }),
{
    let f = frame_of(p);
    let held = f.subrange(0, i);
    let incoming = f.subrange(i, f.len() as int) + more;
    let n = p.encoding().len() as u32;
    lemma_u32_round_trip(n, p.encoding());
    let total = held + incoming;
    assert(total =~= f + more);
    assert(total[0] == f[0] && total[1] == f[1] && total[2] == f[2] && total[3] == f[3]);
    if i >= 4 {
        assert(held[0] == f[0] && held[1] == f[1] && held[2] == f[2] && held[3] == f[3]);
    }
    assert(frame_prefix(total) =~= f);
    assert(f.subrange(4, f.len() as int) =~= p.encoding());
    lemma_decode_encode(p, Seq::empty());
    assert(p.encoding() + Seq::<u8>::empty() =~= p.encoding());
}

/// Why a handshake failed.
#[derive(Debug, Clone, Copy, PartialEq, Eq, Structural)]
pub enum HandshakeError {
    /// The peer's first packet did not arrive in time.
    TimedOut,
    /// The peer's first frame was no packet.
    Decode(DecodeError),
    /// The peer's first packet was not its version; its tag is carried along.
    UnexpectedPacket(u16),
    /// The two ends speak versions that do not go together.
    VersionMismatch { local_major: u16, local_minor: u16, peer_major: u16, peer_minor: u16 },
}

/// Two versions do not go together when they differ in the major and in the
/// minor number. Ends that agree on one of the two are let through.
pub open spec fn incompatible(
    local_major: u16,
    local_minor: u16,
    peer_major: u16,
    peer_minor: u16,
) -> bool {
    peer_major != local_major && peer_minor != local_minor
}

/// What the first packet of a peer comes to, for an end that speaks
/// `local_major.local_minor`.
pub open spec fn handshake_result(
    local_major: u16,
    local_minor: u16,
    first: Result<PacketView, ConnectionError>,
) -> Result<(), HandshakeError> {
    match first {
        Err(ConnectionError::TimedOut) => Err(HandshakeError::TimedOut),
        Err(ConnectionError::Decode(e)) => Err(HandshakeError::Decode(e)),
        Ok(PacketView::ClientInfo { major, minor }) => if incompatible(
            local_major,
            local_minor,
            major,
            minor,
        ) {
            Err(
                HandshakeError::VersionMismatch {
                    local_major,
                    local_minor,
                    peer_major: major,
                    peer_minor: minor,
                },
            )
        } else {
            Ok(())
        },
        Ok(other) => Err(HandshakeError::UnexpectedPacket(other.tag())),
    }
}

/// The mathematical value of what the wait for the first packet gave.
pub open spec fn first_view(first: Result<Packet, ConnectionError>) -> Result<
    PacketView,
    ConnectionError,
> {
    match first {
        Ok(p) => Ok(p@),
        Err(e) => Err(e),
    }
}

/// Judges the first packet of a peer against the version `local_major.local_minor`.
pub fn check_handshake(
    local_major: u16,
    local_minor: u16,
    first: &Result<Packet, ConnectionError>,
) -> (r: Result<(), HandshakeError>)
    ensures
        r == handshake_result(local_major, local_minor, first_view(*first)),
{
    match first {
        Err(ConnectionError::TimedOut) => Err(HandshakeError::TimedOut),
        Err(ConnectionError::Decode(e)) => Err(HandshakeError::Decode(*e)),
        Ok(Packet::ClientInfo { major, minor }) => {
            if *major != local_major && *minor != local_minor {
                Err(
                    HandshakeError::VersionMismatch {
                        local_major,
                        local_minor,
                        peer_major: *major,
                        peer_minor: *minor,
                    },
                )
            } else {
                Ok(())
            }
        },
        Ok(other) => Err(HandshakeError::UnexpectedPacket(other.packet_id())),
    }
}

/// Ends the handshake on a connection over which this end has sent its
/// `ClientInfo`: `first` is what the bounded wait for the peer's first packet
/// gave. The connection is handed on only where the peer announced a version
/// that goes with this build's.
pub fn connect<S>(conn: Connection<S>, first: Result<Packet, ConnectionError>) -> (r: Result<
    Connection<S>,
    HandshakeError,
>)
    ensures
        match r {
            Ok(c) => c == conn && handshake_result(MAJOR_VERSION, MINOR_VERSION, first_view(first))
                is Ok,
            Err(e) => handshake_result(MAJOR_VERSION, MINOR_VERSION, first_view(first)) == Err::<
                (),
                HandshakeError,
            >(e),
        },
{
    match check_handshake(MAJOR_VERSION, MINOR_VERSION, &first) {
        Ok(()) => Ok(conn),
        Err(e) => Err(e),
    }
}

/// What the practice opponent answers to a packet: it joins in a rematch
/// and is silent otherwise.
pub open spec fn dummy_answer(p: PacketView) -> Option<PacketView> {
    if p is WaitingToRestart {
        Some(PacketView::WaitingToRestart)
    } else {
        None
    }
}

/// The practice opponent's answer to `packet`.
pub fn dummy_reply(packet: &Packet) -> (r: Option<Packet>)
    ensures
        match r {
            Some(p) => dummy_answer(packet@) == Some(p@),
            None => dummy_answer(packet@) is None,
        },
{
    match packet {
        Packet::WaitingToRestart => Some(Packet::WaitingToRestart),
        _ => None,
    }
}

/// Encoding inverts decoding: a payload that decodes to a packet starts with
/// that packet's encoding, so no two packets share a payload.
pub proof fn lemma_encode_decode(b: Seq<u8>)
    requires
        decoding(b) is Ok,
    ensures
        ({
            let p = decoding(b)->Ok_0;
            &&& p.encodable()
            &&& p.encoding().len() <= b.len()
            &&& b.subrange(0, p.encoding().len() as int) == p.encoding()
        }),
{
    reveal(decoding);
    let p = decoding(b)->Ok_0;
    lemma_u16_read_back(b, 0);
    match p {
        PacketView::ClientInfo { major, minor } => {
            lemma_u16_read_back(b, 2);
            lemma_u16_read_back(b, 4);
            assert(p.encoding() =~= b.subrange(0, 2) + b.subrange(2, 4) + b.subrange(4, 6));
            assert(p.encoding() =~= b.subrange(0, 6));
        },
        PacketView::AddWord { word } => {
            lemma_text_read_back(b, 2);
            let end = text_at(b, 2)->Ok_0.1;
            assert(p.encoding() =~= b.subrange(0, 2) + b.subrange(2, end));
            assert(p.encoding() =~= b.subrange(0, end));
        },
        PacketView::ILost => {
            assert(p.encoding() =~= b.subrange(0, 2));
        },
        PacketView::WaitingToRestart => {
            assert(p.encoding() =~= b.subrange(0, 2));
        },
    }
}

/// A tag that names no variant is refused, and the error carries the tag.
pub proof fn lemma_unknown_tag(b: Seq<u8>)
    requires
        b.len() >= 2,
        u16_at(b, 0) > 3,
    ensures
        decoding(b) == Err::<PacketView, DecodeError>(
            DecodeError::UnrecognizedVariant(u16_at(b, 0)),
        ),
{
    reveal(decoding);
}

/// A peer whose version differs in both numbers is refused, whatever else
/// holds, and the error names both versions.
pub proof fn lemma_version_mismatch(
    local_major: u16,
    local_minor: u16,
    peer_major: u16,
    peer_minor: u16,
)
    requires
        peer_major != local_major,
        peer_minor != local_minor,
    ensures
        handshake_result(
            local_major,
            local_minor,
            Ok(PacketView::ClientInfo { major: peer_major, minor: peer_minor }),
        ) == Err::<(), HandshakeError>(
            HandshakeError::VersionMismatch { local_major, local_minor, peer_major, peer_minor },
        ),
{
}

/// The pieces `chunks`, put together in their order.
pub open spec fn joined(chunks: Seq<Seq<u8>>) -> Seq<u8>
    decreases chunks.len(),
{
    if chunks.len() == 0 {
        Seq::empty()
    } else {
        joined(chunks.drop_last()) + chunks.last()
    }
}

/// What is buffered after the first `k` of the pieces `chunks` were handed,
/// one to a poll, to a connection that had `held` buffered.
pub open spec fn held_after(held: Seq<u8>, chunks: Seq<Seq<u8>>, k: int) -> Seq<u8>
    decreases k,
{
    if k <= 0 {
        held
    } else {
        poll_held(held_after(held, chunks, k - 1), chunks[k - 1])
    }
}

/// A frame may arrive in any pieces. When the frame of a packet is cut into
/// `chunks` and each piece is handed to one poll of a connection that starts
/// empty, the poll that gets piece `k` takes all of it, hands out nothing
/// while bytes of the frame are still missing, and hands out the packet when
/// piece `k` brings the last byte.
pub proof fn lemma_fragmentation(p: PacketView, chunks: Seq<Seq<u8>>, k: int)
    requires
        framable(p),
        joined(chunks) == frame_of(p),
        0 <= k < chunks.len(),
        joined(chunks.subrange(0, k)).len() < frame_of(p).len(),
    ensures
        ({
            let held = held_after(Seq::empty(), chunks, k);
            let arrived = joined(chunks.subrange(0, k + 1)).len();
            &&& held == joined(chunks.subrange(0, k))
            &&& poll_used(held, chunks[k]) == chunks[k].len()
            &&& poll_result(held, chunks[k]) == if arrived < frame_of(p).len() {
                Ok::<Option<PacketView>, DecodeError>(None)
            } else {
                Ok::<Option<PacketView>, DecodeError>(Some(p))
            }
        }),
    decreases k,
{
    let f = frame_of(p);
    let before = joined(chunks.subrange(0, k));
    let upto = joined(chunks.subrange(0, k + 1));
    lemma_joined_prefix(chunks, k);
    lemma_joined_prefix(chunks, k + 1);
    assert(chunks.subrange(0, k + 1).drop_last() =~= chunks.subrange(0, k));
    assert(upto == before + chunks[k]);
    let i = before.len() as int;
    let j = upto.len() as int;
    assert(f.subrange(i, j) =~= chunks[k]) by {
        assert(upto == f.subrange(0, j));
        assert(j == i + chunks[k].len());
        assert forall|m: int| 0 <= m < chunks[k].len() implies f.subrange(i, j)[m]
            == chunks[k][m] by {
            assert(f.subrange(0, j)[i + m] == (before + chunks[k])[i + m]);
        }
    }
    lemma_frame_in_pieces(p, i, j);
    if k > 0 {
        let earlier = joined(chunks.subrange(0, k - 1));
        assert(chunks.subrange(0, k).drop_last() =~= chunks.subrange(0, k - 1));
        assert(before == earlier + chunks[k - 1]);
        lemma_fragmentation(p, chunks, k - 1);
        lemma_joined_prefix(chunks, k - 1);
        let h = earlier.len() as int;
        assert(f.subrange(h, i) =~= chunks[k - 1]) by {
            assert(before == f.subrange(0, i));
            assert(i == h + chunks[k - 1].len());
            assert forall|m: int| 0 <= m < chunks[k - 1].len() implies f.subrange(h, i)[m]
                == chunks[k - 1][m] by {
                assert(f.subrange(0, i)[h + m] == (earlier + chunks[k - 1])[h + m]);
            }
        }
        lemma_frame_in_pieces(p, h, i);
    } else {
        assert(before =~= Seq::<u8>::empty());
    }
}

/// The first `k` pieces, put together, are the front of all of them put
/// together.
proof fn lemma_joined_prefix(chunks: Seq<Seq<u8>>, k: int)
    requires
        0 <= k <= chunks.len(),
    ensures
        joined(chunks.subrange(0, k)).len() <= joined(chunks).len(),
        joined(chunks.subrange(0, k)) == joined(chunks).subrange(
            0,
            joined(chunks.subrange(0, k)).len() as int,
        ),
    decreases chunks.len() - k,
{
    if k == chunks.len() {
        assert(chunks.subrange(0, k) =~= chunks);
        assert(joined(chunks).subrange(0, joined(chunks).len() as int) =~= joined(chunks));
    } else {
        lemma_joined_prefix(chunks, k + 1);
        let longer = joined(chunks.subrange(0, k + 1));
        assert(chunks.subrange(0, k + 1).drop_last() =~= chunks.subrange(0, k));
        let shorter = joined(chunks.subrange(0, k));
        assert(longer == shorter + chunks[k]);
        assert(shorter =~= joined(chunks).subrange(0, shorter.len() as int));
    }
}

} // verus!
