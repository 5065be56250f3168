//! The substreams that peers open: which protocol is spoken on one, and what is
//! answered.
use crate::block::{
    announce_bytes, announce_of, announce_round_trip, is_header, BlockAnnounce, BlockAnnounceView,
};
use crate::octets::{append_bytes, ascii, ascii_bytes, copy_bytes, same_bytes, text_of};
use crate::scale::CodecError;
use vstd::prelude::*;
use vstd::slice::slice_subrange;
use vstd::utf8::{encode_utf8, valid_utf8};

verus! {

/// How many bytes a substream reads at most at a time.
pub const BUFFER_SIZE: usize = 1000000;

/// Where the length of the name of a protocol stands in the opening message, behind
/// the greeting.
pub const NAME_LENGTH_AT: usize = 20;

/// The name of a protocol in an opening message: so many bytes as its length says, but
/// for the newline at its end. There is none where the length is zero, where the
/// message is too short, and where the bytes are not a text.
pub open spec fn protocol_name(buf: Seq<u8>) -> Option<Seq<u8>> {
    if buf.len() > NAME_LENGTH_AT && buf[NAME_LENGTH_AT as int] > 0 && NAME_LENGTH_AT
        + buf[NAME_LENGTH_AT as int] <= buf.len() && valid_utf8(
        buf.subrange(
            NAME_LENGTH_AT + 1,
            NAME_LENGTH_AT + buf[NAME_LENGTH_AT as int],
        ),
    ) {
        Some(
            buf.subrange(NAME_LENGTH_AT + 1, NAME_LENGTH_AT + buf[NAME_LENGTH_AT as int]),
        )
    } else {
        None
    }
}

/// The name of a protocol in an opening message, if it holds one.
pub fn read_protocol_name(buf: &[u8]) -> (name: Option<&str>)
    ensures
        match name {
            Some(text) => protocol_name(buf@) == Some(encode_utf8(text@)),
            None => protocol_name(buf@) is None,
        },
{
    if buf.len() <= NAME_LENGTH_AT {
        return None;
    }
    let len = buf[NAME_LENGTH_AT] as usize;
    if len == 0 || NAME_LENGTH_AT + len > buf.len() {
        return None;
    }
    text_of(slice_subrange(buf, NAME_LENGTH_AT + 1, NAME_LENGTH_AT + len))
}

/// A protocol as it is listed: the length of its name, with a newline, and the name.
pub open spec fn listed(name: Seq<u8>) -> Seq<u8> {
    seq![name.len() as u8] + name
}

/// The protocols that the node lists.
pub open spec fn protocol_list() -> Seq<u8> {
    listed(ascii("/ipfs/ping/1.0.0\n"@)) + listed(ascii("/dot/block-announces/1\n"@)) + listed(
        ascii("/dot/transactions/1\n"@),
    ) + listed(ascii("/paritytech/grandpa/1\n"@))
}

/// The answer to a peer that asks which protocols the node speaks: how long it is, how
/// many there are, each of them, and a newline.
pub open spec fn ls_reply() -> Seq<u8> {
    seq![(protocol_list().len() + 2) as u8, 4u8] + protocol_list() + seq![10u8]
}

/// The answer to a peer that asks for a protocol that the node does not speak.
pub open spec fn not_available() -> Seq<u8> {
    ascii("\x03na\n"@)
}

/// Appends a protocol as it is listed.
fn append_listed(list: &mut Vec<u8>, name: &str)
    requires
        vstd::string::is_ascii(name),
        name@.len() <= u8::MAX,
    ensures
        final(list)@ == old(list)@ + listed(ascii(name@)),
{
    let bytes = ascii_bytes(name);
    let ghost before = list@;
    list.push(bytes.len() as u8);
    append_bytes(list, bytes.as_slice());
    assert(list@ =~= before + listed(ascii(name@)));
}

/// The answer to a peer that asks which protocols the node speaks.
pub fn build_ls_reply() -> (reply: Vec<u8>)
    ensures
        reply@ == ls_reply(),
{
    proof {
        reveal_strlit("/ipfs/ping/1.0.0\n");
        reveal_strlit("/dot/block-announces/1\n");
        reveal_strlit("/dot/transactions/1\n");
        reveal_strlit("/paritytech/grandpa/1\n");
    }
    let mut combined: Vec<u8> = Vec::new();
    append_listed(&mut combined, "/ipfs/ping/1.0.0\n");
    append_listed(&mut combined, "/dot/block-announces/1\n");
    append_listed(&mut combined, "/dot/transactions/1\n");
    append_listed(&mut combined, "/paritytech/grandpa/1\n");
    assert(combined@ =~= protocol_list());
    let mut reply: Vec<u8> = Vec::new();
    reply.push(combined.len() as u8 + 2);
    reply.push(4);
    append_bytes(&mut reply, combined.as_slice());
    reply.push(10);
    assert(reply@ =~= ls_reply());
    reply
}

/// The length of the announcement at the front of a buffer, read on from an index with
/// what was read before it: each byte above 128 is followed by another. The result is
/// where the announcement starts, and how long it is.
pub open spec fn announce_frame(buf: Seq<u8>, idx: int, len: int) -> Option<(int, int)>
    decreases buf.len() - idx,
{
    if idx < 0 || idx >= buf.len() {
        None
    } else if buf[idx] > 128 {
        announce_frame(buf, idx + 1, len * 128 + buf[idx])
    } else {
        Some((idx + 1, len * 128 + buf[idx]))
    }
}

/// The announcement at the front of a buffer, if it ends within it.
pub open spec fn framed_announce(buf: Seq<u8>) -> Option<Seq<u8>> {
    match announce_frame(buf, 0, 0) {
        Some((start, len)) => if start + len <= buf.len() {
            Some(buf.subrange(start, start + len))
        } else {
            None
        },
        None => None,
    }
}

/// Where reading a length goes on, it does not get shorter.
proof fn lemma_frame_grows(buf: Seq<u8>, idx: int, len: int)
    requires
        0 <= len,
    ensures
        announce_frame(buf, idx, len) matches Some((start, length)) ==> length >= len && start
            > idx,
    decreases buf.len() - idx,
{
    if 0 <= idx < buf.len() && buf[idx] > 128 {
        lemma_frame_grows(buf, idx + 1, len * 128 + buf[idx]);
    }
}

/// Whether the length at the front of a buffer ends with the byte at an index: every byte
/// before it is above 128, and it is not.
pub open spec fn ends_length(buf: Seq<u8>, k: int) -> bool {
    &&& 0 <= k < buf.len()
    &&& forall|i: int| 0 <= i < k ==> #[trigger] buf[i] > 128
    &&& buf[k] <= 128
}

/// The number that the bytes of a length stand for: each counts 128 times as much as the one
/// behind it.
pub open spec fn length_value(digits: Seq<u8>) -> int
    decreases digits.len(),
{
    if digits.len() == 0 {
        0
    } else {
        128 * length_value(digits.drop_last()) + digits.last()
    }
}

/// Reading a length from an index on, with the value of what stands before it.
proof fn lemma_frame_from(buf: Seq<u8>, idx: int, k: int)
    requires
        ends_length(buf, k),
        0 <= idx <= k,
    ensures
        announce_frame(buf, idx, length_value(buf.take(idx))) == Some(
            (k + 1, length_value(buf.take(k + 1))),
        ),
    decreases k - idx,
{
    assert(buf.take(idx + 1).drop_last() =~= buf.take(idx));
    assert(buf.take(idx + 1).last() == buf[idx]);
    if idx < k {
        lemma_frame_from(buf, idx + 1, k);
    }
}

/// Where the length ends, the announcement starts.
proof fn lemma_frame(buf: Seq<u8>, k: int)
    requires
        ends_length(buf, k),
    ensures
        announce_frame(buf, 0, 0) == Some((k + 1, length_value(buf.take(k + 1)))),
{
    assert(buf.take(0) =~= Seq::<u8>::empty());
    lemma_frame_from(buf, 0, k);
}

/// The announcement at the front of a buffer, if it ends within it.
pub fn read_announce_frame(buf: &[u8]) -> (announce: Option<&[u8]>)
    requires
        buf@.len() <= BUFFER_SIZE,
    ensures
        match announce {
            Some(bytes) => framed_announce(buf@) == Some(bytes@),
            None => framed_announce(buf@) is None,
        },
        announce matches Some(bytes) ==> forall|k: int| #[trigger]
            ends_length(buf@, k) ==> bytes@.len() == length_value(buf@.take(k + 1)) && bytes@
                == buf@.subrange(k + 1, k + 1 + bytes@.len()),
{
    let mut idx: usize = 0;
    let mut len: usize = 0;
    proof {
        assert forall|k: int| #[trigger] ends_length(buf@, k) implies announce_frame(buf@, 0, 0)
            == Some((k + 1, length_value(buf@.take(k + 1)))) by {
            lemma_frame(buf@, k);
        }
    }
    while idx < buf.len() && buf[idx] > 128
        invariant
            buf@.len() <= BUFFER_SIZE,
            idx <= buf@.len(),
            len <= buf@.len(),
            announce_frame(buf@, 0, 0) == announce_frame(buf@, idx as int, len as int),
        decreases buf@.len() - idx,
    {
        len = len * 128 + buf[idx] as usize;
        idx = idx + 1;
        proof {
            lemma_frame_grows(buf@, idx as int, len as int);
        }
        if len > buf.len() {
            return None;
        }
    }
    if idx >= buf.len() {
        return None;
    }
    len = len * 128 + buf[idx] as usize;
    idx = idx + 1;
    if idx + len > buf.len() {
        return None;
    }
    Some(slice_subrange(buf, idx, idx + len))
}

/// What is spoken on a substream, and how far that has got.
#[derive(Debug, Clone, Copy, PartialEq, Eq, Structural)]
pub enum Phase {
    /// The peer is to name a protocol.
    Negotiation,
    /// Every ping is sent back.
    Ping,
    /// The peer is to send the handshake of the announcements.
    AnnounceHandshake,
    /// The peer is to send the rest of the handshake.
    AnnounceHandshakeRest { expected: usize, idx: usize },
    /// The peer announces blocks.
    Announces,
    /// The peer may ask again which protocols there are.
    Ls,
    /// The peer is to send a handshake, which is sent back.
    Handshake,
    /// What the peer sends is ignored.
    Drain,
    /// The peer has closed the substream.
    Closed,
}

/// What is to be done for a substream.
#[derive(Debug)]
pub enum Output {
    /// Write bytes to the peer.
    Write(Vec<u8>),
    /// Hand bytes to the bridge.
    Forward(Vec<u8>),
    /// Start to request the blocks that the peer announces from it.
    SpawnBlockRequester,
    /// Read the announcement from the buffer, and request its block.
    DecodeAnnounce,
}

/// What such an output stands for.
pub enum OutputView {
    Write(Seq<u8>),
    Forward(Seq<u8>),
    SpawnBlockRequester,
    DecodeAnnounce,
}

impl View for Output {
    type V = OutputView;

    open spec fn view(&self) -> OutputView {
        match *self {
            Output::Write(bytes) => OutputView::Write(bytes@),
            Output::Forward(bytes) => OutputView::Forward(bytes@),
            Output::SpawnBlockRequester => OutputView::SpawnBlockRequester,
            Output::DecodeAnnounce => OutputView::DecodeAnnounce,
        }
    }
}

/// The outputs that a list of them stands for.
pub open spec fn output_views(list: Seq<Output>) -> Seq<OutputView> {
    Seq::new(list.len(), |i: int| list[i]@)
}

/// The state of a substream: what was read into its buffer, over what was read before,
/// and the phase that it is in.
#[verifier::ext_equal]
pub struct SessionView {
    pub buf: Seq<u8>,
    pub phase: Phase,
}

/// Where in the buffer the next bytes are read to.
pub open spec fn read_offset(phase: Phase) -> int {
    match phase {
        Phase::AnnounceHandshakeRest { expected, idx } => idx as int,
        _ => 0,
    }
}

/// A buffer after bytes were read into it.
pub open spec fn overlaid(buf: Seq<u8>, offset: int, data: Seq<u8>) -> Seq<u8> {
    buf.take(offset) + data + buf.skip(offset + data.len())
}

/// The phase that comes of the name of a protocol, and what is answered to the peer
/// that named it: a known name is sent back, an unknown one is refused.
pub open spec fn negotiated(name: Seq<u8>, buf: Seq<u8>, data: Seq<u8>) -> (
    Phase,
    Seq<OutputView>,
) {
    if name == ascii("/ipfs/ping/1.0.0"@) {
        (Phase::Ping, seq![OutputView::Write(data)])
    } else if name == ascii("/dot/block-announces/1"@) {
        (Phase::AnnounceHandshake, seq![OutputView::Write(data)])
    } else if name == ascii("ls"@) {
        (Phase::Ls, seq![OutputView::Write(ls_reply())])
    } else if name == ascii("/dot/transactions/1"@) || name == ascii("/paritytech/grandpa/1"@) {
        (Phase::Handshake, seq![OutputView::Write(data)])
    } else {
        (
            Phase::Drain,
            seq![
                OutputView::Write(buf.take(buf[0] + 1)),
                OutputView::Write(not_available()),
            ],
        )
    }
}

/// The phase that comes of a part of the handshake of the announcements, and what is
/// done: once it is there, it is sent back, and the requests for blocks start.
pub open spec fn shaken(buf: Seq<u8>, expected: int, idx: int) -> (Phase, Seq<OutputView>) {
    if idx < expected + 1 {
        (
            Phase::AnnounceHandshakeRest { expected: expected as usize, idx: idx as usize },
            Seq::empty(),
        )
    } else {
        (
            Phase::Announces,
            seq![OutputView::Write(buf.take(expected + 1)), OutputView::SpawnBlockRequester],
        )
    }
}

/// The phase that follows when bytes were read, and what is done. A read without bytes
/// closes the substream, but for the handshakes, which go on.
pub open spec fn session_phase(phase: Phase, buf: Seq<u8>, data: Seq<u8>) -> (
    Phase,
    Seq<OutputView>,
) {
    match phase {
        Phase::Negotiation => match protocol_name(buf) {
            Some(name) => negotiated(name, buf, data),
            None => (phase, Seq::empty()),
        },
        Phase::AnnounceHandshake => shaken(buf, buf[0] as int, data.len() as int),
        Phase::AnnounceHandshakeRest { expected, idx } => shaken(
            buf,
            expected as int,
            idx + data.len(),
        ),
        Phase::Handshake => (Phase::Drain, seq![OutputView::Write(data)]),
        Phase::Closed => (Phase::Closed, Seq::empty()),
        _ => if data.len() == 0 {
            (Phase::Closed, Seq::empty())
        } else {
            (
                phase,
                match phase {
                    Phase::Ping => seq![OutputView::Write(data)],
                    Phase::Ls => seq![OutputView::Write(ls_reply())],
                    Phase::Announces => seq![
                        OutputView::Forward(data),
                        OutputView::Write(seq![0u8]),
                        OutputView::DecodeAnnounce,
                    ],
                    _ => Seq::empty(),
                },
            )
        },
    }
}

impl SessionView {
    /// The buffer has its size, and a handshake that is being read fits into it.
    pub open spec fn wf(self) -> bool {
        &&& self.buf.len() == BUFFER_SIZE
        &&& self.phase matches Phase::AnnounceHandshakeRest { expected, idx } ==> idx <= expected
            && expected <= u8::MAX
    }

    /// Whether so many bytes can be read into the buffer, and the node can make sense of
    /// them: where a protocol is to be named, one is, and an unknown name can be sent
    /// back.
    pub open spec fn accepts(self, data: Seq<u8>) -> bool {
        let buf = overlaid(self.buf, read_offset(self.phase), data);
        &&& read_offset(self.phase) + data.len() <= BUFFER_SIZE
        &&& self.phase is Negotiation ==> protocol_name(buf) is Some && (negotiated(
            protocol_name(buf)->0,
            buf,
            data,
        ).0 is Drain ==> buf[0] < u8::MAX)
    }

    /// The state of the substream after bytes were read.
    pub open spec fn after(self, data: Seq<u8>) -> SessionView {
        let buf = overlaid(self.buf, read_offset(self.phase), data);
        SessionView { buf, phase: session_phase(self.phase, buf, data).0 }
    }

    /// What is done when bytes were read.
    pub open spec fn outputs(self, data: Seq<u8>) -> Seq<OutputView> {
        let buf = overlaid(self.buf, read_offset(self.phase), data);
        session_phase(self.phase, buf, data).1
    }
}

/// The protocols that a peer may name.
enum Known {
    Ping,
    Announces,
    Ls,
    Notifications,
    Unknown,
}

/// Which protocol a name is that of.
fn classify(name: &[u8]) -> (known: Known)
    ensures
        match known {
            Known::Ping => name@ == ascii("/ipfs/ping/1.0.0"@),
            Known::Announces => name@ == ascii("/dot/block-announces/1"@),
            Known::Ls => name@ == ascii("ls"@),
            Known::Notifications => name@ == ascii("/dot/transactions/1"@) || name@ == ascii(
                "/paritytech/grandpa/1"@,
            ),
            Known::Unknown => name@ != ascii("/ipfs/ping/1.0.0"@) && name@ != ascii(
                "/dot/block-announces/1"@,
            ) && name@ != ascii("ls"@) && name@ != ascii("/dot/transactions/1"@) && name@ != ascii(
                "/paritytech/grandpa/1"@,
            ),
        },
{
    proof {
        reveal_strlit("/ipfs/ping/1.0.0");
        reveal_strlit("/dot/block-announces/1");
        reveal_strlit("ls");
        reveal_strlit("/dot/transactions/1");
        reveal_strlit("/paritytech/grandpa/1");
    }
    if same_bytes(name, ascii_bytes("/ipfs/ping/1.0.0").as_slice()) {
        Known::Ping
    } else if same_bytes(name, ascii_bytes("/dot/block-announces/1").as_slice()) {
        Known::Announces
    } else if same_bytes(name, ascii_bytes("ls").as_slice()) {
        Known::Ls
    } else if same_bytes(name, ascii_bytes("/dot/transactions/1").as_slice()) || same_bytes(
        name,
        ascii_bytes("/paritytech/grandpa/1").as_slice(),
    ) {
        Known::Notifications
    } else {
        Known::Unknown
    }
}

/// The names of the protocols differ, so that no name is that of two of them.
proof fn lemma_names_differ()
    ensures
        ascii("/ipfs/ping/1.0.0"@) != ascii("/dot/block-announces/1"@),
        ascii("/ipfs/ping/1.0.0"@) != ascii("ls"@),
        ascii("/ipfs/ping/1.0.0"@) != ascii("/dot/transactions/1"@),
        ascii("/ipfs/ping/1.0.0"@) != ascii("/paritytech/grandpa/1"@),
        ascii("/dot/block-announces/1"@) != ascii("ls"@),
        ascii("/dot/block-announces/1"@) != ascii("/dot/transactions/1"@),
        ascii("/dot/block-announces/1"@) != ascii("/paritytech/grandpa/1"@),
        ascii("ls"@) != ascii("/dot/transactions/1"@),
        ascii("ls"@) != ascii("/paritytech/grandpa/1"@),
{
    reveal_strlit("/ipfs/ping/1.0.0");
    reveal_strlit("/dot/block-announces/1");
    reveal_strlit("ls");
    reveal_strlit("/dot/transactions/1");
    reveal_strlit("/paritytech/grandpa/1");
    assert(ascii("/ipfs/ping/1.0.0"@).len() == 16);
    assert(ascii("/dot/block-announces/1"@).len() == 22);
    assert(ascii("ls"@).len() == 2);
    assert(ascii("/dot/transactions/1"@).len() == 19);
    assert(ascii("/paritytech/grandpa/1"@).len() == 21);
}

/// A substream that a peer opened.
pub struct Session {
    buf: Vec<u8>,
    phase: Phase,
}

impl View for Session {
    type V = SessionView;

    closed spec fn view(&self) -> SessionView {
        SessionView { buf: self.buf@, phase: self.phase }
    }
}

impl Session {
    /// A substream on which nothing was read yet.
    pub fn new() -> (session: Session)
        ensures
            session@.wf(),
            session@ == (SessionView {
                buf: Seq::new(BUFFER_SIZE as nat, |i: int| 0u8),
                phase: Phase::Negotiation,
            }),
    {
        let session = Session { buf: vec![0; BUFFER_SIZE], phase: Phase::Negotiation };
        assert(session@.buf =~= Seq::new(BUFFER_SIZE as nat, |i: int| 0u8));
        session
    }

    /// How many bytes can be read next; nothing where the substream is closed.
    pub fn room(&self) -> (room: Option<usize>)
        requires
            self@.wf(),
        ensures
            room == (if self@.phase is Closed {
                None
            } else {
                Some((BUFFER_SIZE - read_offset(self@.phase)) as usize)
            }),
    {
        match self.phase {
            Phase::Closed => None,
            Phase::AnnounceHandshakeRest { expected, idx } => Some(BUFFER_SIZE - idx),
            _ => Some(BUFFER_SIZE),
        }
    }

    /// Puts bytes into the buffer, where the next ones are read to.
    fn fill(&mut self, offset: usize, data: &[u8])
        requires
            offset + data@.len() <= old(self)@.buf.len(),
        ensures
            final(self)@ == (SessionView {
                buf: overlaid(old(self)@.buf, offset as int, data@),
                phase: old(self)@.phase,
            }),
    {
        let ghost before = self.buf@;
        let size = self.buf.len();
        let mut i: usize = 0;
        assert(overlaid(before, offset as int, data@.take(0)) =~= before);
        while i < data.len()
            invariant
                i <= data@.len(),
                offset + data@.len() <= size,
                size == before.len(),
                self.phase == old(self)@.phase,
                self.buf@ == overlaid(before, offset as int, data@.take(i as int)),
            decreases data@.len() - i,
        {
            self.buf.set(offset + i, data[i]);
            assert(self.buf@ =~= overlaid(before, offset as int, data@.take(i + 1)));
            i = i + 1;
        }
        assert(data@.take(i as int) =~= data@);
    }

    /// Where in the buffer the next bytes are read to.
    fn offset(&self) -> (offset: usize)
        ensures
            offset == read_offset(self@.phase),
    {
        match self.phase {
            Phase::AnnounceHandshakeRest { expected, idx } => idx,
            _ => 0,
        }
    }

    /// Whether the node can make sense of bytes that were read. They are put into the
    /// buffer first where a protocol is to be named, as its name may reach beyond them.
    pub fn accepts(&self, data: &[u8]) -> (r: bool)
        requires
            self@.wf(),
        ensures
            r == self@.accepts(data@),
    {
        if data.len() > BUFFER_SIZE - self.offset() {
            return false;
        }
        match self.phase {
            Phase::Negotiation => {
                let mut trial = Session {
                    buf: copy_bytes(self.buf.as_slice()),
                    phase: Phase::Negotiation,
                };
                trial.fill(0, data);
                match read_protocol_name(trial.buf.as_slice()) {
                    Some(name) => {
                        proof {
                            lemma_names_differ();
                        }
                        match classify(name.as_bytes()) {
                            Known::Unknown => trial.buf[0] < u8::MAX,
                            _ => true,
                        }
                    },
                    None => false,
                }
            },
            _ => true,
        }
    }

    /// Takes up the handshake of the announcements, of which so many bytes are there.
    fn shake(&mut self, expected: usize, idx: usize) -> (outputs: Vec<Output>)
        requires
            old(self)@.buf.len() == BUFFER_SIZE,
            expected <= u8::MAX,
        ensures
            (final(self)@.phase, output_views(outputs@)) == shaken(
                old(self)@.buf,
                expected as int,
                idx as int,
            ),
            final(self)@.buf == old(self)@.buf,
    {
        let mut outputs: Vec<Output> = Vec::new();
        if idx < expected + 1 {
            self.phase = Phase::AnnounceHandshakeRest { expected, idx };
        } else {
            self.phase = Phase::Announces;
            outputs.push(
                Output::Write(
                    copy_bytes(slice_subrange(self.buf.as_slice(), 0, expected + 1)),
                ),
            );
            outputs.push(Output::SpawnBlockRequester);
        }
        assert(output_views(outputs@) =~= shaken(self@.buf, expected as int, idx as int).1);
        outputs
    }

    /// Takes up the name of a protocol.
    fn negotiate(&mut self, data: &[u8]) -> (outputs: Vec<Output>)
        requires
            old(self)@.buf.len() == BUFFER_SIZE,
            protocol_name(old(self)@.buf) is Some,
            negotiated(protocol_name(old(self)@.buf)->0, old(self)@.buf, data@).0 is Drain ==> old(
                self,
            )@.buf[0] < u8::MAX,
        ensures
            (final(self)@.phase, output_views(outputs@)) == negotiated(
                protocol_name(old(self)@.buf)->0,
                old(self)@.buf,
                data@,
            ),
            final(self)@.buf == old(self)@.buf,
    {
        let known = match read_protocol_name(self.buf.as_slice()) {
            Some(name) => classify(name.as_bytes()),
            None => Known::Unknown,
        };
        let ghost buf = self@.buf;
        let ghost expected = negotiated(protocol_name(buf)->0, buf, data@);
        proof {
            lemma_names_differ();
        }
        let mut outputs: Vec<Output> = Vec::new();
        match known {
            Known::Ping => {
                self.phase = Phase::Ping;
                outputs.push(Output::Write(copy_bytes(data)));
            },
            Known::Announces => {
                self.phase = Phase::AnnounceHandshake;
                outputs.push(Output::Write(copy_bytes(data)));
            },
            Known::Ls => {
                self.phase = Phase::Ls;
                outputs.push(Output::Write(build_ls_reply()));
            },
            Known::Notifications => {
                self.phase = Phase::Handshake;
                outputs.push(Output::Write(copy_bytes(data)));
            },
            Known::Unknown => {
                self.phase = Phase::Drain;
                let named: usize = self.buf[0] as usize + 1;
                proof {
                    reveal_strlit("\x03na\n");
                }
                outputs.push(
                    Output::Write(copy_bytes(slice_subrange(self.buf.as_slice(), 0, named))),
                );
                outputs.push(Output::Write(ascii_bytes("\x03na\n")));
                assert(buf.subrange(0, named as int) =~= buf.take(buf[0] + 1));
            },
        }
        assert(output_views(outputs@) =~= expected.1);
        outputs
    }

    /// Takes up bytes that were read, and says what is to be done.
    pub fn on_read(&mut self, data: &[u8]) -> (outputs: Vec<Output>)
        requires
            old(self)@.wf(),
            old(self)@.accepts(data@),
        ensures
            final(self)@ == old(self)@.after(data@),
            output_views(outputs@) == old(self)@.outputs(data@),
            final(self)@.wf(),
    {
        let offset = self.offset();
        self.fill(offset, data);
        let ghost filled = self@;
        let mut outputs: Vec<Output> = Vec::new();
        match self.phase {
            Phase::Negotiation => {
                outputs = self.negotiate(data);
            },
            Phase::AnnounceHandshake => {
                outputs = self.shake(self.buf[0] as usize, data.len());
            },
            Phase::AnnounceHandshakeRest { expected, idx } => {
                outputs = self.shake(expected, idx + data.len());
            },
            Phase::Handshake => {
                self.phase = Phase::Drain;
                outputs.push(Output::Write(copy_bytes(data)));
            },
            Phase::Closed => {},
            _ => {
                if data.len() == 0 {
                    self.phase = Phase::Closed;
                } else {
                    match self.phase {
                        Phase::Ping => {
                            outputs.push(Output::Write(copy_bytes(data)));
                        },
                        Phase::Ls => {
                            outputs.push(Output::Write(build_ls_reply()));
                        },
                        Phase::Announces => {
                            outputs.push(Output::Forward(copy_bytes(data)));
                            let received: Vec<u8> = vec![0];
                            assert(received@ =~= seq![0u8]);
                            outputs.push(Output::Write(received));
                            outputs.push(Output::DecodeAnnounce);
                        },
                        _ => {},
                    }
                }
            },
        }
        assert(output_views(outputs@) =~= session_phase(filled.phase, filled.buf, data@).1);
        outputs
    }

    /// Whether the announcement that was read ends within the buffer.
    pub fn holds_announce(&self) -> (r: bool)
        requires
            self@.wf(),
        ensures
            r == framed_announce(self@.buf) is Some,
    {
        read_announce_frame(self.buf.as_slice()).is_some()
    }

    /// Reads the announcement in the buffer.
    pub fn decode_announce(&self) -> (r: Result<BlockAnnounce, CodecError>)
        requires
            self@.wf(),
            framed_announce(self@.buf) is Some,
        ensures
            match r {
                Ok(announce) => announce_of(framed_announce(self@.buf)->0) == Some(announce@),
                Err(e) => announce_of(framed_announce(self@.buf)->0) is None && e
                    == CodecError::Malformed,
            },
    {
        match read_announce_frame(self.buf.as_slice()) {
            Some(bytes) => match BlockAnnounce::decode(bytes) {
                Ok((announce, _)) => Ok(announce),
                Err(e) => Err(e),
            },
            None => Err(CodecError::Malformed),
        }
    }
}

/// A peer that asks for a protocol that the node does not speak is told so, and what it
/// sends after that is ignored until it closes the substream.
pub proof fn unknown_protocols_are_refused(session: SessionView, data: Seq<u8>, more: Seq<u8>)
    requires
        session.wf(),
        session.phase is Negotiation,
        session.accepts(data),
        session.after(data).phase is Drain,
    ensures
        session.outputs(data).last() == OutputView::Write(not_available()),
        session.after(data).outputs(more) == Seq::<OutputView>::empty(),
        more.len() > 0 ==> session.after(data).after(more).phase is Drain,
        more.len() == 0 ==> session.after(data).after(more).phase is Closed,
{
    lemma_names_differ();
}

/// Every protocol that the node lists, it speaks: a peer that names it is not refused.
pub proof fn listed_protocols_are_spoken(name: Seq<u8>, buf: Seq<u8>, data: Seq<u8>)
    requires
        name == ascii("/ipfs/ping/1.0.0"@) || name == ascii("/dot/block-announces/1"@) || name
            == ascii("/dot/transactions/1"@) || name == ascii("/paritytech/grandpa/1"@),
    ensures
        !(negotiated(name, buf, data).0 is Drain),
        negotiated(name, buf, data).1 == seq![OutputView::Write(data)],
{
    lemma_names_differ();
}

/// Nothing is done for a substream that was closed, and it stays closed.
pub proof fn closed_stays_closed(session: SessionView, data: Seq<u8>)
    requires
        session.phase is Closed,
    ensures
        session.after(data).phase is Closed,
        session.outputs(data) == Seq::<OutputView>::empty(),
{
}

/// The bytes of several reads, one after the other.
pub open spec fn joined(parts: Seq<Seq<u8>>) -> Seq<u8>
    decreases parts.len(),
{
    if parts.len() == 0 {
        Seq::empty()
    } else {
        joined(parts.drop_last()) + parts.last()
    }
}

/// The state of the substream after several reads.
pub open spec fn after_reads(session: SessionView, parts: Seq<Seq<u8>>) -> SessionView
    decreases parts.len(),
{
    if parts.len() == 0 {
        session
    } else {
        after_reads(session, parts.drop_last()).after(parts.last())
    }
}

/// What is done on several reads.
pub open spec fn outputs_of_reads(session: SessionView, parts: Seq<Seq<u8>>) -> Seq<OutputView>
    decreases parts.len(),
{
    if parts.len() == 0 {
        Seq::empty()
    } else {
        outputs_of_reads(session, parts.drop_last()) + after_reads(
            session,
            parts.drop_last(),
        ).outputs(parts.last())
    }
}

/// A handshake of the announcements that comes in any number of reads is treated as if it
/// had come in one. Nothing is done before it is whole; then it is sent back, and the
/// requests for blocks start.
pub proof fn handshakes_may_be_split(session: SessionView, parts: Seq<Seq<u8>>)
    requires
        session.wf(),
        session.phase is AnnounceHandshake,
        parts.len() > 0,
        parts[0].len() > 0,
        joined(parts).len() <= BUFFER_SIZE,
        forall|k: int|
            0 < k < parts.len() ==> (#[trigger] joined(parts.take(k))).len() <= parts[0][0],
    ensures
        after_reads(session, parts) == session.after(joined(parts)),
        outputs_of_reads(session, parts) == session.outputs(joined(parts)),
        joined(parts).len() <= parts[0][0] ==> outputs_of_reads(session, parts) == Seq::<
            OutputView,
        >::empty(),
        joined(parts).len() > parts[0][0] ==> outputs_of_reads(session, parts) == seq![
            OutputView::Write(joined(parts).take(parts[0][0] + 1)),
            OutputView::SpawnBlockRequester,
        ] && after_reads(session, parts).phase is Announces,
    decreases parts.len(),
{
    let whole = joined(parts);
    let front = parts.drop_last();
    let last = parts.last();
    let buf = overlaid(session.buf, 0, whole);
    if parts.len() == 1 {
        assert(joined(front) =~= Seq::<u8>::empty());
        assert(whole =~= last);
        assert(outputs_of_reads(session, front) =~= Seq::<OutputView>::empty());
        assert(outputs_of_reads(session, parts) =~= session.outputs(whole));
    } else {
        assert(parts.take(parts.len() - 1) =~= front);
        assert(front[0] == parts[0]);
        assert forall|k: int| 0 < k < front.len() implies (#[trigger] joined(
            front.take(k),
        )).len() <= front[0][0] by {
            assert(front.take(k) =~= parts.take(k));
            assert(joined(parts.take(k)).len() <= parts[0][0]);
        }
        handshakes_may_be_split(session, front);
        lemma_joined_starts(front);
        let part = overlaid(session.buf, 0, joined(front));
        assert(part[0] == parts[0][0]);
        assert(overlaid(part, joined(front).len() as int, last) =~= buf);
        assert(outputs_of_reads(session, parts) =~= after_reads(session, front).outputs(last));
    }
    lemma_joined_starts(parts);
    assert(buf[0] == parts[0][0]);
    assert(buf.take(parts[0][0] + 1) =~= whole.take(parts[0][0] + 1) || whole.len()
        <= parts[0][0]);
}

/// The bytes of several reads begin with those of the first.
proof fn lemma_joined_starts(parts: Seq<Seq<u8>>)
    requires
        parts.len() > 0,
    ensures
        parts[0].is_prefix_of(joined(parts)),
    decreases parts.len(),
{
    if parts.len() == 1 {
        assert(joined(parts.drop_last()) =~= Seq::<u8>::empty());
        assert(joined(parts) =~= parts[0]);
    } else {
        lemma_joined_starts(parts.drop_last());
        assert(parts.drop_last()[0] == parts[0]);
    }
}

/// An announcement behind its length, of at most 128 bytes, is read back.
pub proof fn short_announcements_are_read(session: SessionView, a: BlockAnnounceView)
    requires
        session.wf(),
        session.phase is Announces,
        is_header(a.header),
        !(a.state is None && a.data is Some),
        announce_bytes(a).len() <= 128,
    ensures
        ({
            let bytes = announce_bytes(a);
            let after = session.after(seq![bytes.len() as u8] + bytes);
            &&& framed_announce(after.buf) == Some(bytes)
            &&& announce_of(bytes) == Some(a)
        }),
{
    let bytes = announce_bytes(a);
    let data = seq![bytes.len() as u8] + bytes;
    let buf = overlaid(session.buf, 0, data);
    assert(buf[0] == bytes.len());
    assert(announce_frame(buf, 0, 0) == Some((1int, bytes.len() as int)));
    assert(buf.subrange(1, 1 + bytes.len() as int) =~= bytes);
    announce_round_trip(a);
}

/// A length may have any number of bytes: every one but the last is above 128, and the
/// announcement starts right behind the last. There is none where the length does not end,
/// or where it says more than the buffer holds.
pub proof fn announcements_start_behind_their_length(buf: Seq<u8>, k: int)
    ensures
        ends_length(buf, k) ==> ({
            let n = length_value(buf.take(k + 1));
            &&& k + 1 + n <= buf.len() ==> framed_announce(buf) == Some(
                buf.subrange(k + 1, k + 1 + n),
            )
            &&& k + 1 + n > buf.len() ==> framed_announce(buf) is None
            &&& k == 0 ==> n == buf[0]
            &&& k == 1 ==> n == 128 * buf[0] + buf[1]
            &&& k == 2 ==> n == 16384 * buf[0] + 128 * buf[1] + buf[2]
        }),
        (forall|i: int| 0 <= i < buf.len() ==> buf[i] > 128) ==> framed_announce(buf) is None,
{
    if ends_length(buf, k) {
        lemma_frame(buf, k);
        reveal_with_fuel(length_value, 4);
        let digits = buf.take(k + 1);
        if k == 0 {
            assert(digits.drop_last().len() == 0);
        }
        if k == 1 {
            assert(digits.drop_last().drop_last().len() == 0);
            assert(digits.drop_last().last() == buf[0]);
        }
        if k == 2 {
            assert(digits.drop_last().drop_last().drop_last().len() == 0);
            assert(digits.drop_last().drop_last().last() == buf[0]);
            assert(digits.drop_last().last() == buf[1]);
        }
    }
    if forall|i: int| 0 <= i < buf.len() ==> buf[i] > 128 {
        lemma_endless_length(buf, 0, 0);
    }
}

proof fn lemma_endless_length(buf: Seq<u8>, idx: int, len: int)
    requires
        forall|i: int| 0 <= i < buf.len() ==> buf[i] > 128,
        0 <= idx <= buf.len(),
    ensures
        announce_frame(buf, idx, len) is None,
    decreases buf.len() - idx,
{
    if idx < buf.len() {
        lemma_endless_length(buf, idx + 1, len * 128 + buf[idx]);
    }
}

/// An announcement behind a length of any number of bytes is read back, whole and from its
/// first byte on.
pub proof fn announcements_are_read(session: SessionView, digits: Seq<u8>, a: BlockAnnounceView)
    requires
        session.wf(),
        session.phase is Announces,
        is_header(a.header),
        !(a.state is None && a.data is Some),
        digits.len() > 0,
        ends_length(digits, digits.len() - 1),
        length_value(digits) == announce_bytes(a).len(),
        digits.len() + announce_bytes(a).len() <= 1_000_000,
    ensures
        ({
            let after = session.after(digits + announce_bytes(a));
            &&& framed_announce(after.buf) == Some(announce_bytes(a))
            &&& announce_of(announce_bytes(a)) == Some(a)
        }),
{
    let bytes = announce_bytes(a);
    let buf = overlaid(session.buf, 0, digits + bytes);
    let k = digits.len() - 1;
    assert(buf.take(k + 1) =~= digits);
    assert forall|i: int| 0 <= i < k implies #[trigger] buf[i] > 128 by {
        assert(buf[i] == digits[i]);
    }
    assert(buf[k] == digits[k]);
    assert(ends_length(buf, k));
    lemma_frame(buf, k);
    assert(buf.subrange(k + 1, k + 1 + bytes.len()) =~= bytes);
    announce_round_trip(a);
}

/// The name of a protocol is what stands behind its length, which is the byte behind the 20
/// bytes of the greeting and counts the newline too. So a peer that names a protocol is
/// understood, whatever follows.
pub proof fn names_stand_behind_the_greeting(
    buf: Seq<u8>,
    greeting: Seq<u8>,
    name: Seq<u8>,
    rest: Seq<u8>,
)
    requires
        greeting.len() == 20,
        name.len() < 255,
    ensures
        protocol_name(buf) matches Some(text) ==> buf.len() > 20 && buf[20] == text.len() + 1
            && buf.skip(21).take(text.len() as int) == text && valid_utf8(text),
        buf.len() <= 20 || buf[20] == 0 || buf.len() < 20 + buf[20] ==> protocol_name(buf) is None,
        protocol_name(greeting + seq![(name.len() + 1) as u8] + name + rest) == if valid_utf8(
            name,
        ) {
            Some(name)
        } else {
            None
        },
{
    if let Some(text) = protocol_name(buf) {
        assert(buf.skip(21).take(text.len() as int) =~= text);
    }
    let whole = greeting + seq![(name.len() + 1) as u8] + name + rest;
    assert(whole[20] == name.len() + 1);
    assert(whole.subrange(21, 20 + whole[20]) =~= name);
}

/// What is read into the buffer stands there from the index on that it is read to, and
/// everything else in the buffer stays.
pub proof fn reads_overwrite_the_buffer(buf: Seq<u8>, offset: int, data: Seq<u8>, i: int)
    requires
        0 <= offset,
        offset + data.len() <= buf.len(),
        0 <= i < buf.len(),
    ensures
        overlaid(buf, offset, data).len() == buf.len(),
        offset <= i < offset + data.len() ==> overlaid(buf, offset, data)[i] == data[i - offset],
        i < offset || i >= offset + data.len() ==> overlaid(buf, offset, data)[i] == buf[i],
{
}

/// A protocol that was named decides what is spoken: pings are sent back, announcements are
/// asked to be introduced by a handshake, the list is sent, the two kinds of notifications
/// are greeted, and any other name is sent back as it came, with the word that it is not
/// available.
pub proof fn names_decide_what_is_spoken(name: Seq<u8>, buf: Seq<u8>, data: Seq<u8>)
    ensures
        name == ascii("/ipfs/ping/1.0.0"@) <==> negotiated(name, buf, data).0 is Ping,
        name == ascii("/dot/block-announces/1"@) <==> negotiated(name, buf, data).0
            is AnnounceHandshake,
        name == ascii("ls"@) <==> negotiated(name, buf, data).0 is Ls,
        name == ascii("/dot/transactions/1"@) || name == ascii("/paritytech/grandpa/1"@)
            <==> negotiated(name, buf, data).0 is Handshake,
        name == ascii("ls"@) ==> negotiated(name, buf, data).1 == seq![
            OutputView::Write(ls_reply()),
        ],
        negotiated(name, buf, data).0 is Drain ==> negotiated(name, buf, data).1 == seq![
            OutputView::Write(buf.subrange(0, buf[0] + 1)),
            OutputView::Write(seq![3u8, 110u8, 97u8, 10u8]),
        ],
        !(negotiated(name, buf, data).0 is Drain) && name != ascii("ls"@) ==> negotiated(
            name,
            buf,
            data,
        ).1 == seq![OutputView::Write(data)],
{
    lemma_names_differ();
    reveal_strlit("\x03na\n");
    assert(not_available() =~= seq![3u8, 110u8, 97u8, 10u8]);
    assert(buf.take(buf[0] + 1) =~= buf.subrange(0, buf[0] + 1));
}

/// On a substream whose protocol is settled every ping is sent back, every request for the
/// list is answered, every announcement is forwarded, confirmed with a zero and decoded, and
/// a handshake of notifications is sent back once; a read without bytes ends all but a
/// handshake.
pub proof fn substreams_answer_what_they_read(session: SessionView, data: Seq<u8>)
    ensures
        session.phase is Ping && data.len() > 0 ==> session.outputs(data) == seq![
            OutputView::Write(data),
        ] && session.after(data).phase is Ping,
        session.phase is Ls && data.len() > 0 ==> session.outputs(data) == seq![
            OutputView::Write(ls_reply()),
        ] && session.after(data).phase is Ls,
        session.phase is Announces && data.len() > 0 ==> session.outputs(data) == seq![
            OutputView::Forward(data),
            OutputView::Write(seq![0u8]),
            OutputView::DecodeAnnounce,
        ] && session.after(data).phase is Announces,
        session.phase is Handshake ==> session.outputs(data) == seq![OutputView::Write(data)]
            && session.after(data).phase is Drain,
        session.phase is Drain ==> session.outputs(data).len() == 0,
        session.phase is Drain && data.len() > 0 ==> session.after(data).phase is Drain,
        data.len() == 0 && (session.phase is Ping || session.phase is Ls || session.phase
            is Announces || session.phase is Drain) ==> session.outputs(data).len() == 0
            && session.after(data).phase is Closed,
        session.phase is Announces && data.len() <= session.buf.len() ==> session.after(
            data,
        ).buf.take(data.len() as int) == data,
        session.phase is Negotiation && session.accepts(data) ==> ({
            let buf = session.after(data).buf;
            &&& protocol_name(buf) is Some
            &&& session.after(data).phase == negotiated(protocol_name(buf)->0, buf, data).0
            &&& session.outputs(data) == negotiated(protocol_name(buf)->0, buf, data).1
        }),
{
    if session.phase is Announces && data.len() <= session.buf.len() {
        assert(session.after(data).buf.take(data.len() as int) =~= data);
    }
}

/// The list says how many bytes follow its first one, how many protocols there are, and of
/// each how many bytes it has and its name on a line of its own.
pub proof fn the_list_names_four_protocols()
    ensures
        ls_reply().len() == ls_reply()[0] + 1,
        ls_reply()[1] == 4,
        ls_reply().last() == 10,
        ls_reply()[2] == 17 && ls_reply().subrange(3, 20) == ascii("/ipfs/ping/1.0.0\n"@),
        ls_reply()[20] == 23 && ls_reply().subrange(21, 44) == ascii("/dot/block-announces/1\n"@),
        ls_reply()[44] == 20 && ls_reply().subrange(45, 65) == ascii("/dot/transactions/1\n"@),
        ls_reply()[65] == 22 && ls_reply().subrange(66, 88) == ascii("/paritytech/grandpa/1\n"@),
{
    reveal_strlit("/ipfs/ping/1.0.0\n");
    reveal_strlit("/dot/block-announces/1\n");
    reveal_strlit("/dot/transactions/1\n");
    reveal_strlit("/paritytech/grandpa/1\n");
    assert(ls_reply().subrange(3, 20) =~= ascii("/ipfs/ping/1.0.0\n"@));
    assert(ls_reply().subrange(21, 44) =~= ascii("/dot/block-announces/1\n"@));
    assert(ls_reply().subrange(45, 65) =~= ascii("/dot/transactions/1\n"@));
    assert(ls_reply().subrange(66, 88) =~= ascii("/paritytech/grandpa/1\n"@));
}

/// What was read makes sense where it fits the buffer of a million bytes; where a protocol is to
/// be named, only if one is, and if what stands there can be sent back should the name be an
/// unknown one.
pub proof fn reads_make_sense(session: SessionView, data: Seq<u8>)
    requires
        session.wf(),
    ensures
        session.buf.len() == 1000000,
        !(session.phase is Negotiation) && !(session.phase is AnnounceHandshakeRest) ==> (
        session.accepts(data) <==> data.len() <= 1000000),
        session.phase matches Phase::AnnounceHandshakeRest { expected, idx } ==> idx <= expected
            <= 255 && (session.accepts(data) <==> idx + data.len() <= 1000000),
        session.phase is Negotiation && data.len() > 1000000 ==> !session.accepts(data),
        session.phase is Negotiation && data.len() <= 1000000 ==> ({
            let buf = data + session.buf.skip(data.len() as int);
            match protocol_name(buf) {
                None => !session.accepts(data),
                Some(name) => session.accepts(data) <==> buf[0] < 255 || name == ascii(
                    "/ipfs/ping/1.0.0"@,
                ) || name == ascii("/dot/block-announces/1"@) || name == ascii("ls"@) || name
                    == ascii("/dot/transactions/1"@) || name == ascii("/paritytech/grandpa/1"@),
            }
        }),
{
    if session.phase is Negotiation && data.len() <= 1000000 {
        let buf = data + session.buf.skip(data.len() as int);
        assert(overlaid(session.buf, 0, data) =~= buf);
    }
}

} // verus!
