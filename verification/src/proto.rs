//! The data that travels through the relay: who sent a datagram, the channel
//! it names, the message it carries, and the envelope around them.
use vstd::prelude::*;
use vstd::std_specs::cmp::PartialEqSpecImpl;

verus! {

/// The largest key of a subscriber: 48 bits, address above port.
pub const MAX_KEY: u64 = 0xffff_ffff_ffff;

/// A peer, known only by the IPv4 address and port its datagrams come from.
#[derive(Debug, Copy, Clone, PartialEq, Eq, PartialOrd, Ord, Structural)]
pub struct SubscriberId {
    pub addr: u32,
    pub port: u16,
}

impl SubscriberId {
    /// The integer that stands for this peer wherever peers are ordered and
    /// looked up: the address in the high bits, the port in the low sixteen.
    pub open spec fn key(self) -> u64 {
        (self.addr * 0x1_0000 + self.port) as u64
    }

    /// Whether this peer comes before `other`: by address first, then port.
    pub open spec fn before(self, other: SubscriberId) -> bool {
        self.addr < other.addr || (self.addr == other.addr && self.port < other.port)
    }

    /// The peer that a key stands for.
    pub open spec fn of_key(k: u64) -> SubscriberId {
        SubscriberId { addr: (k / 0x1_0000) as u32, port: (k % 0x1_0000) as u16 }
    }

    /// The key of this peer.
    pub fn to_key(self) -> (k: u64)
        ensures
            k == self.key(),
            k <= MAX_KEY,
    {
        (self.addr as u64) * 0x1_0000 + (self.port as u64)
    }

    /// The peer with the key `k`.
    pub fn from_key(k: u64) -> (s: SubscriberId)
        requires
            k <= MAX_KEY,
        ensures
            s == Self::of_key(k),
            s.key() == k,
    {
        SubscriberId { addr: (k / 0x1_0000) as u32, port: (k % 0x1_0000) as u16 }
    }

    /// Keys are ordered as the peers are, and no two peers share a key.
    pub proof fn lemma_key_order(self, other: SubscriberId)
        ensures
            self.key() <= MAX_KEY,
            Self::of_key(self.key()) == self,
            self.key() < other.key() <==> self.before(other),
            self.key() == other.key() <==> self == other,
    {
    }
}

/// The name of a channel.
#[derive(Debug, Eq, PartialOrd, Ord)]
pub struct ChannelId {
    id: String,
}

impl View for ChannelId {
    type V = Seq<char>;

    closed spec fn view(&self) -> Seq<char> {
        self.id@
    }
}

impl Clone for ChannelId {
    fn clone(&self) -> (r: Self)
        ensures
            r@ == self@,
    {
        ChannelId { id: self.id.clone() }
    }
}

impl PartialEq for ChannelId {
    fn eq(&self, other: &Self) -> (r: bool) {
        self.id == other.id
    }
}

impl PartialEqSpecImpl for ChannelId {
    open spec fn obeys_eq_spec() -> bool {
        true
    }

    open spec fn eq_spec(&self, other: &Self) -> bool {
        self@ == other@
    }
}

impl ChannelId {
    /// The channel named `id`.
    pub fn new(id: &str) -> (c: Self)
        ensures
            c@ == id@,
    {
        ChannelId { id: id.to_owned() }
    }

    /// The name of the channel.
    pub fn as_str(&self) -> (s: &str)
        ensures
            s@ == self@,
    {
        self.id.as_str()
    }
}

/// A message as the contracts see it.
pub ghost struct MessageView {
    pub source: Seq<char>,
    pub timestamp: u64,
    pub contents: Seq<u8>,
}

/// A message on a channel: who it is from, when it was sent, and its bytes.
///
/// The time of sending is a number of seconds as a 64-bit float; it is
/// carried here by its bit pattern, untouched.
#[derive(Debug)]
pub struct Message {
    pub source: String,
    pub timestamp: u64,
    pub contents: Vec<u8>,
}

impl View for Message {
    type V = MessageView;

    open spec fn view(&self) -> MessageView {
        MessageView { source: self.source@, timestamp: self.timestamp, contents: self.contents@ }
    }
}

impl Clone for Message {
    fn clone(&self) -> (r: Self)
        ensures
            r@ == self@,
    {
        Message {
            source: self.source.clone(),
            timestamp: self.timestamp,
            contents: self.contents.clone(),
        }
    }
}

/// What a peer asks of the relay, or tells it.
#[derive(Debug)]
pub enum Control {
    /// Replace the sender's subscriptions with exactly these channels.
    Subscriptions { channels: Vec<ChannelId> },
    /// Put a message on a channel.
    Transmit { channel: ChannelId, message: Message },
    /// A complaint from the peer.
    Error { msg: String },
}

/// The names of a list of channels.
pub open spec fn names_of(channels: Seq<ChannelId>) -> Seq<Seq<char>> {
    channels.map_values(|c: ChannelId| c@)
}

} // verus!
