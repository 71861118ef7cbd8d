use vstd::prelude::*;
use crate::peer::PeerId;

verus! {

// Wire identifiers of the eight message types.
pub const HPV_MSG_ID_JOIN: u8 = 0;
pub const HPV_MSG_ID_FORWARD_JOIN: u8 = 1;
pub const HPV_MSG_ID_JOIN_ACK: u8 = 2;
pub const HPV_MSG_ID_DISCONNECT: u8 = 3;
pub const HPV_MSG_ID_NEIGHBOR_REQUEST: u8 = 4;
pub const HPV_MSG_ID_NEIGHBOR_RESPONSE: u8 = 5;
pub const HPV_MSG_ID_SHUFFLE: u8 = 6;
pub const HPV_MSG_ID_SHUFFLE_REPLY: u8 = 7;

/// Priority of a NEIGHBOR_REQUEST: `High` when the requester's active view is
/// empty and it insists on a slot, `Low` otherwise.
#[derive(Clone, Copy, PartialEq, Eq, Structural, Debug)]
pub enum Priority {
    High,
    Low,
}

/// Outcome carried by a NEIGHBOR_RESPONSE.
#[derive(Clone, Copy, PartialEq, Eq, Structural, Debug)]
pub enum Result {
    Accept,
    Reject,
}

/// Decoding failure: the buffer holds no complete frame, or the type byte is
/// outside the known range. The dispatcher drops the stream on the latter.
#[derive(Clone, Copy, PartialEq, Eq, Structural, Debug)]
pub enum DecodeError {
    ShortRead,
    UnknownMessageType,
}

#[derive(Clone, Copy, PartialEq, Eq, Structural, Debug)]
pub struct Join;

#[derive(Clone, Copy, PartialEq, Eq, Structural, Debug)]
pub struct ForwardJoin {
    pub originator: PeerId,
    pub arwl: u8,
    pub prwl: u8,
    pub ttl: u8,
}

#[derive(Clone, Copy, PartialEq, Eq, Structural, Debug)]
pub struct JoinAck;

#[derive(Clone, Copy, PartialEq, Eq, Structural, Debug)]
pub struct Disconnect;

#[derive(Clone, Copy, PartialEq, Eq, Structural, Debug)]
pub struct NeighborRequest {
    pub priority: Priority,
}

#[derive(Clone, Copy, PartialEq, Eq, Structural, Debug)]
pub struct NeighborResponse {
    pub result: Result,
}

#[derive(PartialEq, Debug)]
pub struct Shuffle {
    pub originator: PeerId,
    pub nodes: Vec<PeerId>,
    pub ttl: u8,
}

#[derive(PartialEq, Debug)]
pub struct ShuffleReply {
    /// The list the shuffle originator first sent out, echoed back so the
    /// originator needs no local bookkeeping of pending shuffles.
    pub sent_nodes: Vec<PeerId>,
    pub nodes: Vec<PeerId>,
}

/// Mathematical image of a `Shuffle`: the node list as a sequence.
pub struct ShuffleView {
    pub originator: PeerId,
    pub nodes: Seq<PeerId>,
    pub ttl: u8,
}

/// Mathematical image of a `ShuffleReply`.
pub struct ShuffleReplyView {
    pub sent_nodes: Seq<PeerId>,
    pub nodes: Seq<PeerId>,
}

impl View for Shuffle {
    type V = ShuffleView;

    open spec fn view(&self) -> ShuffleView {
        ShuffleView { originator: self.originator, nodes: self.nodes@, ttl: self.ttl }
    }
}

impl View for ShuffleReply {
    type V = ShuffleReplyView;

    open spec fn view(&self) -> ShuffleReplyView {
        ShuffleReplyView { sent_nodes: self.sent_nodes@, nodes: self.nodes@ }
    }
}

/// An event handed to the membership engine: a decoded message together with
/// the sender taken from the frame header, or one of the local control events.
#[derive(PartialEq, Debug)]
pub enum HyParViewMessage {
    JoinMessage(Join, PeerId),
    ForwardJoinMessage(ForwardJoin, PeerId),
    JoinAckMessage(JoinAck, PeerId),
    DisconnectMessage(Disconnect, PeerId),
    NeighborRequestMessage(NeighborRequest, PeerId),
    NeighborResponseMessage(NeighborResponse, PeerId),
    ShuffleMessage(Shuffle, PeerId),
    ShuffleReplyMessage(ShuffleReply, PeerId),
    JoinBegin,
    NextShuffleRound,
    PeerDisconnect(PeerId),
}

/// Mathematical image of a `HyParViewMessage`.
pub enum MessageView {
    JoinMessage(Join, PeerId),
    ForwardJoinMessage(ForwardJoin, PeerId),
    JoinAckMessage(JoinAck, PeerId),
    DisconnectMessage(Disconnect, PeerId),
    NeighborRequestMessage(NeighborRequest, PeerId),
    NeighborResponseMessage(NeighborResponse, PeerId),
    ShuffleMessage(ShuffleView, PeerId),
    ShuffleReplyMessage(ShuffleReplyView, PeerId),
    JoinBegin,
    NextShuffleRound,
    PeerDisconnect(PeerId),
}

impl View for HyParViewMessage {
    type V = MessageView;

    open spec fn view(&self) -> MessageView {
        match self {
            HyParViewMessage::JoinMessage(m, s) => MessageView::JoinMessage(*m, *s),
            HyParViewMessage::ForwardJoinMessage(m, s) => MessageView::ForwardJoinMessage(*m, *s),
            HyParViewMessage::JoinAckMessage(m, s) => MessageView::JoinAckMessage(*m, *s),
            HyParViewMessage::DisconnectMessage(m, s) => MessageView::DisconnectMessage(*m, *s),
            HyParViewMessage::NeighborRequestMessage(m, s) => MessageView::NeighborRequestMessage(*m, *s),
            HyParViewMessage::NeighborResponseMessage(m, s) => MessageView::NeighborResponseMessage(*m, *s),
            HyParViewMessage::ShuffleMessage(m, s) => MessageView::ShuffleMessage(m@, *s),
            HyParViewMessage::ShuffleReplyMessage(m, s) => MessageView::ShuffleReplyMessage(m@, *s),
            HyParViewMessage::JoinBegin => MessageView::JoinBegin,
            HyParViewMessage::NextShuffleRound => MessageView::NextShuffleRound,
            HyParViewMessage::PeerDisconnect(p) => MessageView::PeerDisconnect(*p),
        }
    }
}

// ---------------------------------------------------------------------------
// Specification of the wire format.
// ---------------------------------------------------------------------------

pub open spec fn port_hi(port: u16) -> u8 {
    (port / 256) as u8
}

pub open spec fn port_lo(port: u16) -> u8 {
    (port % 256) as u8
}

pub open spec fn spec_port(hi: u8, lo: u8) -> u16 {
    (hi as int * 256 + lo as int) as u16
}

/// Six bytes: the four address octets, then the port big-endian.
pub open spec fn spec_encode_peer(p: PeerId) -> Seq<u8> {
    seq![p.ip0, p.ip1, p.ip2, p.ip3, port_hi(p.port), port_lo(p.port)]
}

pub open spec fn spec_decode_peer(b: Seq<u8>, pos: int) -> PeerId {
    PeerId {
        ip0: b[pos],
        ip1: b[pos + 1],
        ip2: b[pos + 2],
        ip3: b[pos + 3],
        port: spec_port(b[pos + 4], b[pos + 5]),
    }
}

pub open spec fn spec_encode_peers(ns: Seq<PeerId>) -> Seq<u8>
    decreases ns.len(),
{
    if ns.len() == 0 {
        Seq::empty()
    } else {
        spec_encode_peer(ns[0]) + spec_encode_peers(ns.skip(1))
    }
}

/// A node list: one length byte, then that many encoded peers.
pub open spec fn spec_encode_nodes(ns: Seq<PeerId>) -> Seq<u8> {
    seq![ns.len() as u8] + spec_encode_peers(ns)
}

/// Seven bytes in front of every frame: the sender, then the type byte.
pub open spec fn spec_encode_header(sender: PeerId, msg_id: u8) -> Seq<u8> {
    spec_encode_peer(sender).push(msg_id)
}

pub open spec fn spec_priority_byte(p: Priority) -> u8 {
    match p {
        Priority::Low => 0,
        Priority::High => 1,
    }
}

pub open spec fn spec_result_byte(r: Result) -> u8 {
    match r {
        Result::Accept => 0,
        Result::Reject => 1,
    }
}

/// A frame only makes sense when its node lists fit behind a one-byte length,
/// and control events never travel on the wire.
pub open spec fn wire_wf(v: MessageView) -> bool {
    match v {
        MessageView::ShuffleMessage(s, _) => s.nodes.len() <= 255,
        MessageView::ShuffleReplyMessage(s, _) => s.sent_nodes.len() <= 255 && s.nodes.len() <= 255,
        MessageView::JoinBegin => false,
        MessageView::NextShuffleRound => false,
        MessageView::PeerDisconnect(_) => false,
        _ => true,
    }
}

/// The bytes of one whole frame.
pub open spec fn spec_frame(v: MessageView) -> Seq<u8> {
    match v {
        MessageView::JoinMessage(_, s) => spec_encode_header(s, HPV_MSG_ID_JOIN),
        MessageView::ForwardJoinMessage(m, s) => spec_encode_header(s, HPV_MSG_ID_FORWARD_JOIN)
            + spec_encode_peer(m.originator) + seq![m.arwl, m.prwl, m.ttl],
        MessageView::JoinAckMessage(_, s) => spec_encode_header(s, HPV_MSG_ID_JOIN_ACK),
        MessageView::DisconnectMessage(_, s) => spec_encode_header(s, HPV_MSG_ID_DISCONNECT),
        MessageView::NeighborRequestMessage(m, s) => spec_encode_header(s, HPV_MSG_ID_NEIGHBOR_REQUEST)
            + seq![spec_priority_byte(m.priority)],
        MessageView::NeighborResponseMessage(m, s) => spec_encode_header(s, HPV_MSG_ID_NEIGHBOR_RESPONSE)
            + seq![spec_result_byte(m.result)],
        MessageView::ShuffleMessage(m, s) => spec_encode_header(s, HPV_MSG_ID_SHUFFLE)
            + spec_encode_peer(m.originator) + spec_encode_nodes(m.nodes) + seq![m.ttl],
        MessageView::ShuffleReplyMessage(m, s) => spec_encode_header(s, HPV_MSG_ID_SHUFFLE_REPLY)
            + spec_encode_nodes(m.sent_nodes) + spec_encode_nodes(m.nodes),
        MessageView::JoinBegin => Seq::empty(),
        MessageView::NextShuffleRound => Seq::empty(),
        MessageView::PeerDisconnect(_) => Seq::empty(),
    }
}

// ---------------------------------------------------------------------------
// Executable encoding.
// ---------------------------------------------------------------------------

/// Appends the six-byte encoding of a peer.
fn serialize_peer(p: &PeerId, writer: &mut Vec<u8>) -> (cnt: usize)
    ensures
        final(writer)@ == old(writer)@ + spec_encode_peer(*p),
        cnt == 6,
{
    writer.push(p.ip0);
    writer.push(p.ip1);
    writer.push(p.ip2);
    writer.push(p.ip3);
    writer.push((p.port / 256) as u8);
    writer.push((p.port % 256) as u8);
    proof {
        assert(writer@ =~= old(writer)@ + spec_encode_peer(*p));
    }
    6
}

proof fn lemma_encode_peers_push(ns: Seq<PeerId>, p: PeerId)
    ensures
        spec_encode_peers(ns.push(p)) == spec_encode_peers(ns) + spec_encode_peer(p),
    decreases ns.len(),
{
    if ns.len() == 0 {
        assert(ns.push(p)[0] == p);
        assert(ns.push(p).skip(1) =~= Seq::<PeerId>::empty());
        assert(spec_encode_peers(Seq::<PeerId>::empty()) == Seq::<u8>::empty());
        assert(spec_encode_peers(ns.push(p)) == spec_encode_peer(p) + Seq::<u8>::empty());
        assert(spec_encode_peer(p) + Seq::<u8>::empty() =~= spec_encode_peers(ns) + spec_encode_peer(p));
    } else {
        assert(ns.push(p)[0] == ns[0]);
        assert(ns.push(p).skip(1) =~= ns.skip(1).push(p));
        lemma_encode_peers_push(ns.skip(1), p);
        assert(spec_encode_peers(ns.push(p)) == spec_encode_peer(ns[0])
            + spec_encode_peers(ns.skip(1).push(p)));
        assert(spec_encode_peers(ns.push(p)) =~= spec_encode_peers(ns) + spec_encode_peer(p));
    }
}

pub proof fn lemma_encode_peers_len(ns: Seq<PeerId>)
    ensures
        spec_encode_peers(ns).len() == 6 * ns.len(),
    decreases ns.len(),
{
    if ns.len() > 0 {
        lemma_encode_peers_len(ns.skip(1));
    }
}

/// Appends a length byte and the encodings of the peers in `nodes`.
fn serialize_peers(nodes: &Vec<PeerId>, writer: &mut Vec<u8>) -> (cnt: usize)
    requires
        nodes@.len() <= 255,
    ensures
        final(writer)@ == old(writer)@ + spec_encode_nodes(nodes@),
        cnt == spec_encode_nodes(nodes@).len(),
        cnt == 1 + 6 * nodes@.len(),
{
    writer.push(nodes.len() as u8);
    let mut i: usize = 0;
    while i < nodes.len()
        invariant
            i <= nodes@.len(),
            nodes@.len() <= 255,
            writer@ == old(writer)@ + seq![nodes@.len() as u8] + spec_encode_peers(nodes@.take(i as int)),
        decreases nodes@.len() - i,
    {
        let ghost pre = writer@;
        serialize_peer(&nodes[i], writer);
        proof {
            assert(nodes@.take(i + 1) =~= nodes@.take(i as int).push(nodes@[i as int]));
            lemma_encode_peers_push(nodes@.take(i as int), nodes@[i as int]);
            assert(writer@ =~= old(writer)@ + seq![nodes@.len() as u8]
                + spec_encode_peers(nodes@.take(i + 1)));
        }
        i = i + 1;
    }
    proof {
        assert(nodes@.take(nodes@.len() as int) =~= nodes@);
        assert(writer@ =~= old(writer)@ + spec_encode_nodes(nodes@));
        lemma_encode_peers_len(nodes@);
    }
    1 + 6 * nodes.len()
}

/// Appends the frame header: the sender's identity, then the type byte.
fn serialize_header(sender: &PeerId, msg_id: u8, writer: &mut Vec<u8>) -> (cnt: usize)
    ensures
        final(writer)@ == old(writer)@ + spec_encode_header(*sender, msg_id),
        cnt == 7,
{
    let cnt = serialize_peer(sender, writer);
    writer.push(msg_id);
    proof {
        assert(writer@ =~= old(writer)@ + spec_encode_header(*sender, msg_id));
    }
    cnt + 1
}

impl Join {
    pub fn new() -> (r: Join)
        ensures
            r == Join,
    {
        Join
    }

    pub fn serialize(&self, writer: &mut Vec<u8>, sender: &PeerId) -> (cnt: usize)
        ensures
            final(writer)@ == old(writer)@ + spec_frame(MessageView::JoinMessage(*self, *sender)),
            cnt == spec_frame(MessageView::JoinMessage(*self, *sender)).len(),
    {
        serialize_header(sender, HPV_MSG_ID_JOIN, writer)
    }
}

impl ForwardJoin {
    pub fn new(addr: &PeerId, arwl: u8, prwl: u8, ttl: u8) -> (r: ForwardJoin)
        ensures
            r == (ForwardJoin { originator: *addr, arwl, prwl, ttl }),
    {
        ForwardJoin { originator: *addr, arwl, prwl, ttl }
    }

    pub fn serialize(&self, writer: &mut Vec<u8>, sender: &PeerId) -> (cnt: usize)
        ensures
            final(writer)@ == old(writer)@ + spec_frame(MessageView::ForwardJoinMessage(*self, *sender)),
            cnt == spec_frame(MessageView::ForwardJoinMessage(*self, *sender)).len(),
    {
        let mut cnt = serialize_header(sender, HPV_MSG_ID_FORWARD_JOIN, writer);
        cnt = cnt + serialize_peer(&self.originator, writer);
        writer.push(self.arwl);
        writer.push(self.prwl);
        writer.push(self.ttl);
        proof {
            assert(writer@ =~= old(writer)@
                + spec_frame(MessageView::ForwardJoinMessage(*self, *sender)));
        }
        cnt + 3
    }
}

impl JoinAck {
    pub fn new() -> (r: JoinAck)
        ensures
            r == JoinAck,
    {
        JoinAck
    }

    pub fn serialize(&self, writer: &mut Vec<u8>, sender: &PeerId) -> (cnt: usize)
        ensures
            final(writer)@ == old(writer)@ + spec_frame(MessageView::JoinAckMessage(*self, *sender)),
            cnt == spec_frame(MessageView::JoinAckMessage(*self, *sender)).len(),
    {
        serialize_header(sender, HPV_MSG_ID_JOIN_ACK, writer)
    }
}

impl Disconnect {
    pub fn new() -> (r: Disconnect)
        ensures
            r == Disconnect,
    {
        Disconnect
    }

    pub fn serialize(&self, writer: &mut Vec<u8>, sender: &PeerId) -> (cnt: usize)
        ensures
            final(writer)@ == old(writer)@ + spec_frame(MessageView::DisconnectMessage(*self, *sender)),
            cnt == spec_frame(MessageView::DisconnectMessage(*self, *sender)).len(),
    {
        serialize_header(sender, HPV_MSG_ID_DISCONNECT, writer)
    }
}

impl NeighborRequest {
    pub fn new(priority: Priority) -> (r: NeighborRequest)
        ensures
            r == (NeighborRequest { priority }),
    {
        NeighborRequest { priority }
    }

    pub fn serialize(&self, writer: &mut Vec<u8>, sender: &PeerId) -> (cnt: usize)
        ensures
            final(writer)@ == old(writer)@ + spec_frame(MessageView::NeighborRequestMessage(*self, *sender)),
            cnt == spec_frame(MessageView::NeighborRequestMessage(*self, *sender)).len(),
    {
        let cnt = serialize_header(sender, HPV_MSG_ID_NEIGHBOR_REQUEST, writer);
        let p: u8 = match self.priority {
            Priority::Low => 0,
            Priority::High => 1,
        };
        writer.push(p);
        proof {
            assert(writer@ =~= old(writer)@
                + spec_frame(MessageView::NeighborRequestMessage(*self, *sender)));
        }
        cnt + 1
    }
}

impl NeighborResponse {
    pub fn new(result: Result) -> (r: NeighborResponse)
        ensures
            r == (NeighborResponse { result }),
    {
        NeighborResponse { result }
    }

    pub fn serialize(&self, writer: &mut Vec<u8>, sender: &PeerId) -> (cnt: usize)
        ensures
            final(writer)@ == old(writer)@ + spec_frame(MessageView::NeighborResponseMessage(*self, *sender)),
            cnt == spec_frame(MessageView::NeighborResponseMessage(*self, *sender)).len(),
    {
        let cnt = serialize_header(sender, HPV_MSG_ID_NEIGHBOR_RESPONSE, writer);
        let p: u8 = match self.result {
            Result::Accept => 0,
            Result::Reject => 1,
        };
        writer.push(p);
        proof {
            assert(writer@ =~= old(writer)@
                + spec_frame(MessageView::NeighborResponseMessage(*self, *sender)));
        }
        cnt + 1
    }
}

impl Shuffle {
    pub fn new(originator: PeerId, nodes: Vec<PeerId>, ttl: u8) -> (r: Shuffle)
        ensures
            r.originator == originator,
            r.nodes == nodes,
            r.ttl == ttl,
    {
        Shuffle { originator, nodes, ttl }
    }

    pub fn serialize(&self, writer: &mut Vec<u8>, sender: &PeerId) -> (cnt: usize)
        requires
            self.nodes@.len() <= 255,
        ensures
            final(writer)@ == old(writer)@ + spec_frame(MessageView::ShuffleMessage(self@, *sender)),
            cnt == spec_frame(MessageView::ShuffleMessage(self@, *sender)).len(),
    {
        let mut cnt = serialize_header(sender, HPV_MSG_ID_SHUFFLE, writer);
        cnt = cnt + serialize_peer(&self.originator, writer);
        cnt = cnt + serialize_peers(&self.nodes, writer);
        writer.push(self.ttl);
        proof {
            assert(writer@ =~= old(writer)@
                + spec_frame(MessageView::ShuffleMessage(self@, *sender)));
        }
        cnt + 1
    }
}

impl ShuffleReply {
    pub fn new(sent_nodes: Vec<PeerId>, nodes: Vec<PeerId>) -> (r: ShuffleReply)
        ensures
            r.sent_nodes == sent_nodes,
            r.nodes == nodes,
    {
        ShuffleReply { sent_nodes, nodes }
    }

    pub fn serialize(&self, writer: &mut Vec<u8>, sender: &PeerId) -> (cnt: usize)
        requires
            self.sent_nodes@.len() <= 255,
            self.nodes@.len() <= 255,
        ensures
            final(writer)@ == old(writer)@ + spec_frame(MessageView::ShuffleReplyMessage(self@, *sender)),
            cnt == spec_frame(MessageView::ShuffleReplyMessage(self@, *sender)).len(),
    {
        let mut cnt = serialize_header(sender, HPV_MSG_ID_SHUFFLE_REPLY, writer);
        cnt = cnt + serialize_peers(&self.sent_nodes, writer);
        cnt = cnt + serialize_peers(&self.nodes, writer);
        proof {
            assert(writer@ =~= old(writer)@
                + spec_frame(MessageView::ShuffleReplyMessage(self@, *sender)));
        }
        cnt
    }
}


// ---------------------------------------------------------------------------
// Specification of decoding. `spec_decode` is the authority for what the
// executable decoder returns: it yields the decoded view and the position of
// the first byte after the frame, or nothing when the buffer holds no frame.
// ---------------------------------------------------------------------------

pub open spec fn spec_decode_peers(b: Seq<u8>, pos: int, n: nat) -> Option<(Seq<PeerId>, int)>
    decreases n,
{
    if n == 0 {
        Some((Seq::empty(), pos))
    } else if pos + 6 <= b.len() {
        match spec_decode_peers(b, pos + 6, (n - 1) as nat) {
            Some((rest, end)) => Some((seq![spec_decode_peer(b, pos)] + rest, end)),
            None => None,
        }
    } else {
        None
    }
}

pub open spec fn spec_decode_nodes(b: Seq<u8>, pos: int) -> Option<(Seq<PeerId>, int)> {
    if pos + 1 <= b.len() {
        spec_decode_peers(b, pos + 1, b[pos] as nat)
    } else {
        None
    }
}

/// An unknown priority byte falls back to `Low`; only a short read fails.
pub open spec fn spec_decode_priority(x: u8) -> Priority {
    if x == 1 {
        Priority::High
    } else {
        Priority::Low
    }
}

/// An unknown result byte falls back to `Reject`; only a short read fails.
pub open spec fn spec_decode_result(x: u8) -> Result {
    if x == 0 {
        Result::Accept
    } else {
        Result::Reject
    }
}

pub open spec fn spec_decode_forward_join(b: Seq<u8>, pos: int) -> Option<(ForwardJoin, int)> {
    if pos + 9 <= b.len() {
        Some((
            ForwardJoin {
                originator: spec_decode_peer(b, pos),
                arwl: b[pos + 6],
                prwl: b[pos + 7],
                ttl: b[pos + 8],
            },
            pos + 9,
        ))
    } else {
        None
    }
}

pub open spec fn spec_decode_neighbor_request(b: Seq<u8>, pos: int) -> Option<(NeighborRequest, int)> {
    if pos + 1 <= b.len() {
        Some((NeighborRequest { priority: spec_decode_priority(b[pos]) }, pos + 1))
    } else {
        None
    }
}

pub open spec fn spec_decode_neighbor_response(b: Seq<u8>, pos: int) -> Option<(NeighborResponse, int)> {
    if pos + 1 <= b.len() {
        Some((NeighborResponse { result: spec_decode_result(b[pos]) }, pos + 1))
    } else {
        None
    }
}

pub open spec fn spec_decode_shuffle(b: Seq<u8>, pos: int) -> Option<(ShuffleView, int)> {
    if pos + 6 <= b.len() {
        match spec_decode_nodes(b, pos + 6) {
            Some((ns, p2)) => if p2 + 1 <= b.len() {
                Some((ShuffleView { originator: spec_decode_peer(b, pos), nodes: ns, ttl: b[p2] }, p2 + 1))
            } else {
                None
            },
            None => None,
        }
    } else {
        None
    }
}

pub open spec fn spec_decode_shuffle_reply(b: Seq<u8>, pos: int) -> Option<(ShuffleReplyView, int)> {
    match spec_decode_nodes(b, pos) {
        Some((sent, p1)) => match spec_decode_nodes(b, p1) {
            Some((ns, p2)) => Some((ShuffleReplyView { sent_nodes: sent, nodes: ns }, p2)),
            None => None,
        },
        None => None,
    }
}

pub open spec fn spec_decode(b: Seq<u8>, pos: int) -> Option<(MessageView, int)> {
    if pos + 7 <= b.len() {
        let sender = spec_decode_peer(b, pos);
        let id = b[pos + 6];
        let body = pos + 7;
        if id == HPV_MSG_ID_JOIN {
            Some((MessageView::JoinMessage(Join, sender), body))
        } else if id == HPV_MSG_ID_FORWARD_JOIN {
            match spec_decode_forward_join(b, body) {
                Some((m, end)) => Some((MessageView::ForwardJoinMessage(m, sender), end)),
                None => None,
            }
        } else if id == HPV_MSG_ID_JOIN_ACK {
            Some((MessageView::JoinAckMessage(JoinAck, sender), body))
        } else if id == HPV_MSG_ID_DISCONNECT {
            Some((MessageView::DisconnectMessage(Disconnect, sender), body))
        } else if id == HPV_MSG_ID_NEIGHBOR_REQUEST {
            match spec_decode_neighbor_request(b, body) {
                Some((m, end)) => Some((MessageView::NeighborRequestMessage(m, sender), end)),
                None => None,
            }
        } else if id == HPV_MSG_ID_NEIGHBOR_RESPONSE {
            match spec_decode_neighbor_response(b, body) {
                Some((m, end)) => Some((MessageView::NeighborResponseMessage(m, sender), end)),
                None => None,
            }
        } else if id == HPV_MSG_ID_SHUFFLE {
            match spec_decode_shuffle(b, body) {
                Some((m, end)) => Some((MessageView::ShuffleMessage(m, sender), end)),
                None => None,
            }
        } else if id == HPV_MSG_ID_SHUFFLE_REPLY {
            match spec_decode_shuffle_reply(b, body) {
                Some((m, end)) => Some((MessageView::ShuffleReplyMessage(m, sender), end)),
                None => None,
            }
        } else {
            None
        }
    } else {
        None
    }
}

// ---------------------------------------------------------------------------
// Executable decoding.
// ---------------------------------------------------------------------------

/// Reads the six-byte encoding of a peer starting at `pos`.
fn deserialize_peer(bytes: &Vec<u8>, pos: usize) -> (r: core::result::Result<(PeerId, usize), DecodeError>)
    ensures
        match r {
            core::result::Result::Ok((p, end)) => pos + 6 <= bytes@.len()
                && p == spec_decode_peer(bytes@, pos as int) && end == pos + 6,
            core::result::Result::Err(e) => pos + 6 > bytes@.len() && e == DecodeError::ShortRead,
        },
{
    if bytes.len() < 6 || pos > bytes.len() - 6 {
        return core::result::Result::Err(DecodeError::ShortRead);
    }
    let port: u16 = (bytes[pos + 4] as u16) * 256 + (bytes[pos + 5] as u16);
    let p = PeerId {
        ip0: bytes[pos],
        ip1: bytes[pos + 1],
        ip2: bytes[pos + 2],
        ip3: bytes[pos + 3],
        port,
    };
    core::result::Result::Ok((p, pos + 6))
}

/// Reads a node list (length byte, then that many peers) starting at `pos`.
fn deserialize_peers(bytes: &Vec<u8>, pos: usize) -> (r: core::result::Result<(Vec<PeerId>, usize), DecodeError>)
    ensures
        match r {
            core::result::Result::Ok((ns, end)) => spec_decode_nodes(bytes@, pos as int)
                == Some((ns@, end as int)) && end <= bytes@.len() && ns@.len() <= 255,
            core::result::Result::Err(e) => spec_decode_nodes(bytes@, pos as int) is None
                && e == DecodeError::ShortRead,
        },
{
    if pos >= bytes.len() {
        return core::result::Result::Err(DecodeError::ShortRead);
    }
    let n = bytes[pos];
    let mut cur: usize = pos + 1;
    let mut acc: Vec<PeerId> = Vec::new();
    let mut i: usize = 0;
    while i < n as usize
        invariant
            i <= n as usize,
            pos < bytes@.len(),
            n == bytes@[pos as int],
            cur == pos + 1 + 6 * i,
            cur <= bytes@.len(),
            acc@.len() == i,
            spec_decode_peers(bytes@, pos + 1, n as nat) == (match spec_decode_peers(
                bytes@,
                cur as int,
                (n - i) as nat,
            ) {
                Some((rest, end)) => Some((acc@ + rest, end)),
                None => None,
            }),
        decreases n as int - i,
    {
        match deserialize_peer(bytes, cur) {
            core::result::Result::Ok((p, next)) => {
                proof {
                    let tail = spec_decode_peers(bytes@, cur + 6, (n - i - 1) as nat);
                    if let Some((rest, end)) = tail {
                        assert(acc@ + (seq![p] + rest) =~= (acc@ + seq![p]) + rest);
                    }
                    assert(acc@.push(p) =~= acc@ + seq![p]);
                }
                acc.push(p);
                cur = next;
                i = i + 1;
            },
            core::result::Result::Err(_) => {
                return core::result::Result::Err(DecodeError::ShortRead);
            },
        }
    }
    proof {
        assert(spec_decode_peers(bytes@, cur as int, 0) == Some((Seq::<PeerId>::empty(), cur as int)));
        assert(acc@ + Seq::<PeerId>::empty() =~= acc@);
    }
    core::result::Result::Ok((acc, cur))
}


impl ForwardJoin {
    pub fn deserialize(bytes: &Vec<u8>, pos: usize) -> (r: core::result::Result<(ForwardJoin, usize), DecodeError>)
        ensures
            match r {
                core::result::Result::Ok((m, end)) => spec_decode_forward_join(bytes@, pos as int)
                    == Some((m, end as int)),
                core::result::Result::Err(e) => spec_decode_forward_join(bytes@, pos as int) is None
                    && e == DecodeError::ShortRead,
            },
    {
        match deserialize_peer(bytes, pos) {
            core::result::Result::Ok((originator, p2)) => {
                if bytes.len() - p2 < 3 {
                    return core::result::Result::Err(DecodeError::ShortRead);
                }
                let arwl = bytes[p2];
                let prwl = bytes[p2 + 1];
                let ttl = bytes[p2 + 2];
                core::result::Result::Ok((ForwardJoin { originator, arwl, prwl, ttl }, p2 + 3))
            },
            core::result::Result::Err(_) => core::result::Result::Err(DecodeError::ShortRead),
        }
    }
}

impl NeighborRequest {
    pub fn deserialize(bytes: &Vec<u8>, pos: usize) -> (r: core::result::Result<(NeighborRequest, usize), DecodeError>)
        ensures
            match r {
                core::result::Result::Ok((m, end)) => spec_decode_neighbor_request(bytes@, pos as int)
                    == Some((m, end as int)),
                core::result::Result::Err(e) => spec_decode_neighbor_request(bytes@, pos as int) is None
                    && e == DecodeError::ShortRead,
            },
    {
        if pos >= bytes.len() {
            return core::result::Result::Err(DecodeError::ShortRead);
        }
        let p = if bytes[pos] == 1 {
            Priority::High
        } else {
            Priority::Low
        };
        core::result::Result::Ok((NeighborRequest { priority: p }, pos + 1))
    }
}

impl NeighborResponse {
    pub fn deserialize(bytes: &Vec<u8>, pos: usize) -> (r: core::result::Result<(NeighborResponse, usize), DecodeError>)
        ensures
            match r {
                core::result::Result::Ok((m, end)) => spec_decode_neighbor_response(bytes@, pos as int)
                    == Some((m, end as int)),
                core::result::Result::Err(e) => spec_decode_neighbor_response(bytes@, pos as int) is None
                    && e == DecodeError::ShortRead,
            },
    {
        if pos >= bytes.len() {
            return core::result::Result::Err(DecodeError::ShortRead);
        }
        let p = if bytes[pos] == 0 {
            Result::Accept
        } else {
            Result::Reject
        };
        core::result::Result::Ok((NeighborResponse { result: p }, pos + 1))
    }
}

impl Shuffle {
    pub fn deserialize(bytes: &Vec<u8>, pos: usize) -> (r: core::result::Result<(Shuffle, usize), DecodeError>)
        ensures
            match r {
                core::result::Result::Ok((m, end)) => spec_decode_shuffle(bytes@, pos as int)
                    == Some((m@, end as int)) && m.nodes@.len() <= 255,
                core::result::Result::Err(e) => spec_decode_shuffle(bytes@, pos as int) is None
                    && e == DecodeError::ShortRead,
            },
    {
        match deserialize_peer(bytes, pos) {
            core::result::Result::Ok((originator, p2)) => {
                match deserialize_peers(bytes, p2) {
                    core::result::Result::Ok((nodes, p3)) => {
                        if p3 >= bytes.len() {
                            return core::result::Result::Err(DecodeError::ShortRead);
                        }
                        let ttl = bytes[p3];
                        core::result::Result::Ok((Shuffle { originator, nodes, ttl }, p3 + 1))
                    },
                    core::result::Result::Err(_) => core::result::Result::Err(DecodeError::ShortRead),
                }
            },
            core::result::Result::Err(_) => core::result::Result::Err(DecodeError::ShortRead),
        }
    }
}

impl ShuffleReply {
    pub fn deserialize(bytes: &Vec<u8>, pos: usize) -> (r: core::result::Result<(ShuffleReply, usize), DecodeError>)
        ensures
            match r {
                core::result::Result::Ok((m, end)) => spec_decode_shuffle_reply(bytes@, pos as int)
                    == Some((m@, end as int)) && m.sent_nodes@.len() <= 255 && m.nodes@.len() <= 255,
                core::result::Result::Err(e) => spec_decode_shuffle_reply(bytes@, pos as int) is None
                    && e == DecodeError::ShortRead,
            },
    {
        match deserialize_peers(bytes, pos) {
            core::result::Result::Ok((sent_nodes, p2)) => {
                match deserialize_peers(bytes, p2) {
                    core::result::Result::Ok((nodes, p3)) => {
                        core::result::Result::Ok((ShuffleReply { sent_nodes, nodes }, p3))
                    },
                    core::result::Result::Err(_) => core::result::Result::Err(DecodeError::ShortRead),
                }
            },
            core::result::Result::Err(_) => core::result::Result::Err(DecodeError::ShortRead),
        }
    }
}

/// Decodes one whole frame starting at `pos`: the header names the sender and
/// selects the body. Returns the event and the position just after the frame.
/// Succeeds exactly when `spec_decode` does; `UnknownMessageType` is returned
/// exactly when the header is complete but its type byte is out of range.
pub fn deserialize(bytes: &Vec<u8>, pos: usize) -> (r: core::result::Result<(HyParViewMessage, usize), DecodeError>)
    ensures
        match r {
            core::result::Result::Ok((m, end)) => spec_decode(bytes@, pos as int)
                == Some((m@, end as int)),
            core::result::Result::Err(e) => spec_decode(bytes@, pos as int) is None && (e
                == DecodeError::UnknownMessageType <==> pos + 7 <= bytes@.len()
                && bytes@[pos + 6] > 7),
        },
{
    match deserialize_peer(bytes, pos) {
        core::result::Result::Ok((sender, p2)) => {
            if p2 >= bytes.len() {
                return core::result::Result::Err(DecodeError::ShortRead);
            }
            let msg_id = bytes[p2];
            let body = p2 + 1;
            if msg_id == HPV_MSG_ID_JOIN {
                core::result::Result::Ok((HyParViewMessage::JoinMessage(Join, sender), body))
            } else if msg_id == HPV_MSG_ID_FORWARD_JOIN {
                match ForwardJoin::deserialize(bytes, body) {
                    core::result::Result::Ok((m, end)) => core::result::Result::Ok(
                        (HyParViewMessage::ForwardJoinMessage(m, sender), end),
                    ),
                    core::result::Result::Err(e) => core::result::Result::Err(e),
                }
            } else if msg_id == HPV_MSG_ID_JOIN_ACK {
                core::result::Result::Ok((HyParViewMessage::JoinAckMessage(JoinAck, sender), body))
            } else if msg_id == HPV_MSG_ID_DISCONNECT {
                core::result::Result::Ok((HyParViewMessage::DisconnectMessage(Disconnect, sender), body))
            } else if msg_id == HPV_MSG_ID_NEIGHBOR_REQUEST {
                match NeighborRequest::deserialize(bytes, body) {
                    core::result::Result::Ok((m, end)) => core::result::Result::Ok(
                        (HyParViewMessage::NeighborRequestMessage(m, sender), end),
                    ),
                    core::result::Result::Err(e) => core::result::Result::Err(e),
                }
            } else if msg_id == HPV_MSG_ID_NEIGHBOR_RESPONSE {
                match NeighborResponse::deserialize(bytes, body) {
                    core::result::Result::Ok((m, end)) => core::result::Result::Ok(
                        (HyParViewMessage::NeighborResponseMessage(m, sender), end),
                    ),
                    core::result::Result::Err(e) => core::result::Result::Err(e),
                }
            } else if msg_id == HPV_MSG_ID_SHUFFLE {
                match Shuffle::deserialize(bytes, body) {
                    core::result::Result::Ok((m, end)) => core::result::Result::Ok(
                        (HyParViewMessage::ShuffleMessage(m, sender), end),
                    ),
                    core::result::Result::Err(e) => core::result::Result::Err(e),
                }
            } else if msg_id == HPV_MSG_ID_SHUFFLE_REPLY {
                match ShuffleReply::deserialize(bytes, body) {
                    core::result::Result::Ok((m, end)) => core::result::Result::Ok(
                        (HyParViewMessage::ShuffleReplyMessage(m, sender), end),
                    ),
                    core::result::Result::Err(e) => core::result::Result::Err(e),
                }
            } else {
                core::result::Result::Err(DecodeError::UnknownMessageType)
            }
        },
        core::result::Result::Err(_) => core::result::Result::Err(DecodeError::ShortRead),
    }
}


// ---------------------------------------------------------------------------
// Round trip: decoding inverts encoding, for every message kind.
// ---------------------------------------------------------------------------

proof fn lemma_decode_encode_peer(b: Seq<u8>, pos: int, p: PeerId)
    requires
        0 <= pos,
        pos + 6 <= b.len(),
        b.subrange(pos, pos + 6) == spec_encode_peer(p),
    ensures
        spec_decode_peer(b, pos) == p,
{
    assert(b[pos] == spec_encode_peer(p)[0]);
    assert(b[pos + 1] == spec_encode_peer(p)[1]);
    assert(b[pos + 2] == spec_encode_peer(p)[2]);
    assert(b[pos + 3] == spec_encode_peer(p)[3]);
    assert(b[pos + 4] == spec_encode_peer(p)[4]);
    assert(b[pos + 5] == spec_encode_peer(p)[5]);
    vstd::arithmetic::div_mod::lemma_fundamental_div_mod(p.port as int, 256);
    assert(p.port / 256 < 256) by {
        vstd::arithmetic::div_mod::lemma_div_is_ordered(p.port as int, 65535, 256);
    }
    assert(spec_port(port_hi(p.port), port_lo(p.port)) == p.port);
}

proof fn lemma_decode_encode_peers(b: Seq<u8>, pos: int, ns: Seq<PeerId>)
    requires
        0 <= pos,
        pos + 6 * ns.len() <= b.len(),
        b.subrange(pos, pos + 6 * ns.len()) == spec_encode_peers(ns),
    ensures
        spec_decode_peers(b, pos, ns.len()) == Some((ns, pos + 6 * ns.len())),
    decreases ns.len(),
{
    if ns.len() == 0 {
        assert(spec_decode_peers(b, pos, 0) == Some((Seq::<PeerId>::empty(), pos)));
        assert(ns =~= Seq::<PeerId>::empty());
    } else {
        lemma_encode_peers_len(ns.skip(1));
        let head = spec_encode_peer(ns[0]);
        let tail = spec_encode_peers(ns.skip(1));
        assert(b.subrange(pos, pos + 6) =~= head) by {
            assert forall|i: int| 0 <= i < 6 implies b.subrange(pos, pos + 6)[i] == head[i] by {
                assert(b.subrange(pos, pos + 6 * ns.len())[i] == (head + tail)[i]);
            }
        }
        lemma_decode_encode_peer(b, pos, ns[0]);
        assert(b.subrange(pos + 6, pos + 6 * ns.len()) =~= tail) by {
            assert forall|i: int| 0 <= i < 6 * ns.len() - 6 implies b.subrange(
                pos + 6,
                pos + 6 * ns.len(),
            )[i] == tail[i] by {
                assert(b.subrange(pos, pos + 6 * ns.len())[i + 6] == (head + tail)[i + 6]);
            }
        }
        lemma_decode_encode_peers(b, pos + 6, ns.skip(1));
        assert(spec_decode_peers(b, pos + 6, (ns.len() - 1) as nat) == Some(
            (ns.skip(1), pos + 6 * ns.len()),
        ));
        assert(seq![spec_decode_peer(b, pos)] + ns.skip(1) =~= ns);
    }
}

proof fn lemma_decode_encode_nodes(b: Seq<u8>, pos: int, ns: Seq<PeerId>)
    requires
        0 <= pos,
        ns.len() <= 255,
        pos + 1 + 6 * ns.len() <= b.len(),
        b.subrange(pos, pos + 1 + 6 * ns.len()) == spec_encode_nodes(ns),
    ensures
        spec_decode_nodes(b, pos) == Some((ns, pos + 1 + 6 * ns.len())),
{
    lemma_encode_peers_len(ns);
    assert(b[pos] == spec_encode_nodes(ns)[0]);
    assert(b[pos] as nat == ns.len());
    assert(b.subrange(pos + 1, pos + 1 + 6 * ns.len()) =~= spec_encode_peers(ns)) by {
        assert forall|i: int| 0 <= i < 6 * ns.len() implies b.subrange(
            pos + 1,
            pos + 1 + 6 * ns.len(),
        )[i] == spec_encode_peers(ns)[i] by {
            assert(b.subrange(pos, pos + 1 + 6 * ns.len())[i + 1] == spec_encode_nodes(ns)[i + 1]);
        }
    }
    lemma_decode_encode_peers(b, pos + 1, ns);
}

/// Decoding inverts encoding: for every message kind that travels on the wire,
/// and every sender and body within the wire bounds, decoding the frame built
/// for the message yields that message and consumes the whole frame.
#[verifier::rlimit(100)]
pub proof fn lemma_decode_encode(v: MessageView)
    requires
        wire_wf(v),
    ensures
        spec_decode(spec_frame(v), 0) == Some((v, spec_frame(v).len() as int)),
{
    let b = spec_frame(v);
    match v {
        MessageView::JoinMessage(m, s) => {
            lemma_header_facts(b, s, HPV_MSG_ID_JOIN, Seq::empty());
        },
        MessageView::JoinAckMessage(m, s) => {
            lemma_header_facts(b, s, HPV_MSG_ID_JOIN_ACK, Seq::empty());
        },
        MessageView::DisconnectMessage(m, s) => {
            lemma_header_facts(b, s, HPV_MSG_ID_DISCONNECT, Seq::empty());
        },
        MessageView::ForwardJoinMessage(m, s) => {
            let rest = spec_encode_peer(m.originator) + seq![m.arwl, m.prwl, m.ttl];
            assert(b =~= spec_encode_header(s, HPV_MSG_ID_FORWARD_JOIN) + rest);
            lemma_header_facts(b, s, HPV_MSG_ID_FORWARD_JOIN, rest);
            assert(b.subrange(7, 13) =~= spec_encode_peer(m.originator)) by {
                assert forall|i: int| 0 <= i < 6 implies b.subrange(7, 13)[i] == rest[i] by {
                    assert(b[7 + i] == rest[i]);
                }
            }
            lemma_decode_encode_peer(b, 7, m.originator);
            assert(b[13] == rest[6] && b[14] == rest[7] && b[15] == rest[8]);
            assert(spec_decode_forward_join(b, 7) == Some((m, 16int)));
        },
        MessageView::NeighborRequestMessage(m, s) => {
            let rest = seq![spec_priority_byte(m.priority)];
            lemma_header_facts(b, s, HPV_MSG_ID_NEIGHBOR_REQUEST, rest);
            assert(b[7] == rest[0]);
            assert(spec_decode_priority(spec_priority_byte(m.priority)) == m.priority);
        },
        MessageView::NeighborResponseMessage(m, s) => {
            let rest = seq![spec_result_byte(m.result)];
            lemma_header_facts(b, s, HPV_MSG_ID_NEIGHBOR_RESPONSE, rest);
            assert(b[7] == rest[0]);
            assert(spec_decode_result(spec_result_byte(m.result)) == m.result);
        },
        MessageView::ShuffleMessage(m, s) => {
            let rest = spec_encode_peer(m.originator) + spec_encode_nodes(m.nodes) + seq![m.ttl];
            assert(b =~= spec_encode_header(s, HPV_MSG_ID_SHUFFLE) + rest);
            lemma_header_facts(b, s, HPV_MSG_ID_SHUFFLE, rest);
            lemma_encode_peers_len(m.nodes);
            let nl = 6 * m.nodes.len() as int;
            assert(b.subrange(7, 13) =~= spec_encode_peer(m.originator)) by {
                assert forall|i: int| 0 <= i < 6 implies b.subrange(7, 13)[i] == rest[i] by {
                    assert(b[7 + i] == rest[i]);
                }
            }
            lemma_decode_encode_peer(b, 7, m.originator);
            assert(b.subrange(13, 13 + 1 + nl) =~= spec_encode_nodes(m.nodes)) by {
                assert forall|i: int| 0 <= i < 1 + nl implies b.subrange(13, 13 + 1 + nl)[i]
                    == spec_encode_nodes(m.nodes)[i] by {
                    assert(b[13 + i] == rest[6 + i]);
                    assert(rest[6 + i] == spec_encode_nodes(m.nodes)[i]);
                }
            }
            lemma_decode_encode_nodes(b, 13, m.nodes);
            assert(b[14 + nl] == rest[7 + nl]);
            assert(rest[7 + nl] == m.ttl);
            assert(spec_decode_shuffle(b, 7) == Some((m, b.len() as int)));
        },
        MessageView::ShuffleReplyMessage(m, s) => {
            let e1 = spec_encode_nodes(m.sent_nodes);
            let e2 = spec_encode_nodes(m.nodes);
            let rest = e1 + e2;
            assert(b =~= spec_encode_header(s, HPV_MSG_ID_SHUFFLE_REPLY) + rest);
            lemma_header_facts(b, s, HPV_MSG_ID_SHUFFLE_REPLY, rest);
            lemma_encode_peers_len(m.sent_nodes);
            lemma_encode_peers_len(m.nodes);
            let l1 = 1 + 6 * m.sent_nodes.len() as int;
            let l2 = 1 + 6 * m.nodes.len() as int;
            assert(b.subrange(7, 7 + l1) =~= e1) by {
                assert forall|i: int| 0 <= i < l1 implies b.subrange(7, 7 + l1)[i] == e1[i] by {
                    assert(b[7 + i] == rest[i]);
                    assert(rest[i] == e1[i]);
                }
            }
            lemma_decode_encode_nodes(b, 7, m.sent_nodes);
            assert(b.subrange(7 + l1, 7 + l1 + l2) =~= e2) by {
                assert forall|i: int| 0 <= i < l2 implies b.subrange(7 + l1, 7 + l1 + l2)[i]
                    == e2[i] by {
                    assert(b[7 + l1 + i] == rest[l1 + i]);
                    assert(rest[l1 + i] == e2[i]);
                }
            }
            lemma_decode_encode_nodes(b, 7 + l1, m.nodes);
            assert(spec_decode_shuffle_reply(b, 7) == Some((m, b.len() as int)));
        },
        MessageView::JoinBegin => {},
        MessageView::NextShuffleRound => {},
        MessageView::PeerDisconnect(_) => {},
    }
}

/// The first seven bytes of `header + rest` decode back to the sender and the
/// type byte that built the header.
proof fn lemma_header_facts(b: Seq<u8>, s: PeerId, id: u8, rest: Seq<u8>)
    requires
        b == spec_encode_header(s, id) + rest,
    ensures
        b.len() == 7 + rest.len(),
        spec_decode_peer(b, 0) == s,
        b[6] == id,
        forall|i: int| 0 <= i < rest.len() ==> b[7 + i] == rest[i],
{
    assert(b.subrange(0, 6) =~= spec_encode_peer(s)) by {
        assert forall|i: int| 0 <= i < 6 implies b.subrange(0, 6)[i] == spec_encode_peer(s)[i] by {
            assert(b[i] == spec_encode_header(s, id)[i]);
        }
    }
    lemma_decode_encode_peer(b, 0, s);
    assert(b[6] == spec_encode_header(s, id)[6]);
    assert forall|i: int| 0 <= i < rest.len() implies b[7 + i] == rest[i] by {
        assert(b[7 + i] == (spec_encode_header(s, id) + rest)[7 + i]);
    }
}

} // verus!
