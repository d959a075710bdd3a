//! The relay's broker: who is subscribed to what, what each channel has
//! seen, and which datagrams go out for a request.
//!
//! The switchboard neither reads nor sends anything. Whoever owns the socket
//! hands it what arrived and sends what it hands back.
use crate::board::{
    backlog_bounded, channel_lists, consistent, counter_after, fans_out, fresh_channel,
    fresh_subscriber,
    lemma_resubscribed_none, lemma_resubscribed_step, linked, peer_lists, push_bounded,
    resubscribed, subscribed, transmitted, unlinked, unsubscribed, with_channel, with_subscriber,
    BoardState, ChannelState, DeliveryView, SubscriberState, BACKLOG_MAX,
};
use crate::frame::{
    frame, frame_len, lemma_frame_parts, lemma_plain_len, open_frame, valid_len,
};
use crate::hexdump::hex_dump;
use crate::ordered::{
    ascending, map_get, map_has, map_put, map_take, set_insert, set_members, set_remove,
};
use crate::proto::{names_of, ChannelId, Control, Message, MessageView, SubscriberId, MAX_KEY};
use crate::transform::{BlockTransform, Transformer};
use std::collections::{BTreeMap, BTreeSet, VecDeque};
use vstd::prelude::*;

verus! {

/// The key that every relay and every peer seals and opens with.
pub open spec fn relay_key() -> Seq<u32> {
    seq![0x12931133u32, 0x94813456u32, 0x19293456u32, 0x9911aaccu32]
}

fn shared_key() -> (k: [u32; 4])
    ensures
        k@ == relay_key(),
{
    let k: [u32; 4] = [0x12931133, 0x94813456, 0x19293456, 0x9911aacc];
    assert(k@ =~= relay_key());
    k
}

/// A peer's record: when it was first seen, which is when the record was
/// made, and the channels it is subscribed to, each by its position among the
/// switchboard's channels.
pub struct Subscriber {
    t_last: u64,
    channels: BTreeSet<u64>,
}

impl Subscriber {
    /// When the peer was first seen.
    pub closed spec fn t_last(&self) -> u64 {
        self.t_last
    }

    /// The positions of the channels the peer is subscribed to.
    pub closed spec fn slots(&self) -> Set<u64> {
        self.channels@
    }

    /// The record of a peer first seen at `now`, with no subscriptions.
    pub fn new(now: u64) -> (s: Self)
        ensures
            s.t_last() == now,
            s.slots() == Set::<u64>::empty(),
    {
        Self { t_last: now, channels: BTreeSet::new() }
    }
}

/// A channel: the last messages put on it, oldest first, and its subscribers.
pub struct Channel {
    backlog: VecDeque<Message>,
    subscribers: BTreeSet<u64>,
}

impl Channel {
    /// The messages that the channel keeps, oldest first.
    pub closed spec fn backlog(&self) -> Seq<MessageView> {
        self.backlog@.map_values(|m: Message| m@)
    }

    /// The keys of the peers subscribed to the channel.
    pub closed spec fn keys(&self) -> Set<u64> {
        self.subscribers@
    }

    /// The peers subscribed to the channel.
    pub closed spec fn subscribers(&self) -> Set<SubscriberId> {
        Set::new(|s: SubscriberId| self.subscribers@.contains(s.key()))
    }

    /// The channel as the contracts see it.
    pub open spec fn state(&self) -> ChannelState {
        ChannelState { backlog: self.backlog(), subscribers: self.subscribers() }
    }

    /// Whether the channel is within its bounds: no more messages than
    /// [`BACKLOG_MAX`], and only keys of peers among its subscribers.
    pub closed spec fn wf(&self) -> bool {
        &&& self.backlog@.len() <= BACKLOG_MAX
        &&& forall|k: u64| self.subscribers@.contains(k) ==> k <= MAX_KEY
    }

    /// A channel with no messages and no subscribers.
    pub fn new() -> (c: Self)
        ensures
            c.wf(),
            c.state() == fresh_channel(),
            c.keys() == Set::<u64>::empty(),
    {
        let c = Self { backlog: VecDeque::new(), subscribers: BTreeSet::new() };
        assert(c.backlog() =~= Seq::<MessageView>::empty());
        assert(c.subscribers() =~= Set::<SubscriberId>::empty());
        c
    }

    /// Appends `message` to the backlog, dropping the oldest message first
    /// where the backlog is full.
    pub fn add(&mut self, message: Message)
        ensures
            final(self).backlog() == push_bounded(old(self).backlog(), message@),
            final(self).subscribers() == old(self).subscribers(),
            final(self).keys() == old(self).keys(),
            old(self).wf() ==> final(self).wf(),
    {
        let m = self.backlog.len();
        if m >= BACKLOG_MAX {
            let _ = self.backlog.pop_front();
        }
        self.backlog.push_back(message);
        assert(self.backlog() =~= push_bounded(old(self).backlog(), message@));
    }
}

/// A datagram to send: the frame, and the peer it is for.
#[derive(Debug)]
pub struct Delivery {
    pub to: SubscriberId,
    pub datagram: Vec<u8>,
}

impl View for Delivery {
    type V = DeliveryView;

    open spec fn view(&self) -> DeliveryView {
        DeliveryView { to: self.to, datagram: self.datagram@ }
    }
}

/// The deliveries of a list as the contracts see them.
pub open spec fn views_of(out: Seq<Delivery>) -> Seq<DeliveryView> {
    out.map_values(|d: Delivery| d@)
}

/// Whether `i` is a position in `names` that holds `c`.
spec fn slot_named(names: Seq<Seq<char>>, c: Seq<char>, i: int) -> bool {
    0 <= i < names.len() && names[i] == c
}

/// Whether `names` holds `c`.
spec fn known(names: Seq<Seq<char>>, c: Seq<char>) -> bool {
    exists|i: int| slot_named(names, c, i)
}

/// A position in `names` that holds `c`, where there is one.
spec fn slot_of(names: Seq<Seq<char>>, c: Seq<char>) -> int {
    choose|i: int| slot_named(names, c, i)
}

/// Whether no name occurs twice in `names`.
spec fn distinct(names: Seq<Seq<char>>) -> bool {
    forall|i: int, j: int| 0 <= i < j < names.len() ==> names[i] != names[j]
}

/// Among distinct names, the position that holds a name is the only one.
proof fn lemma_slot(names: Seq<Seq<char>>, i: int)
    requires
        distinct(names),
        0 <= i < names.len(),
    ensures
        known(names, names[i]),
        slot_of(names, names[i]) == i,
{
    assert(slot_named(names, names[i], i));
    let j = slot_of(names, names[i]);
    assert(slot_named(names, names[i], j));
    if j < i {
        assert(names[j] != names[i]);
    }
    if i < j {
        assert(names[i] != names[j]);
    }
}

/// A known name has a position, and that position holds it.
proof fn lemma_known(names: Seq<Seq<char>>, c: Seq<char>)
    requires
        known(names, c),
    ensures
        0 <= slot_of(names, c) < names.len(),
        names[slot_of(names, c)] == c,
{
    let j = slot_of(names, c);
    assert(slot_named(names, c, j));
}

/// The relay's broker.
///
/// Peers are kept in an ordered map under their keys, and each channel's
/// subscribers in an ordered set of keys, so that a message fans out in the
/// order of the peers. Channels are kept in the order they were made, their
/// names beside them, and are found by name in a linear search: the ordered
/// map promises nothing for keys that are strings, so the rule that no name
/// occurs twice is kept here, as part of [`Switchboard::wf`].
pub struct Switchboard {
    xfo: BlockTransform,
    subscribers: BTreeMap<u64, Subscriber>,
    ids: Vec<ChannelId>,
    channels: Vec<Channel>,
}

/// Whether the channel at position `i` lists the peer with key `k`.
spec fn lists(channels: Seq<Channel>, i: u64, k: u64) -> bool {
    channels[i as int].subscribers@.contains(k)
}

/// Whether the peer with key `k` has a record that lists position `i`.
spec fn joined(subscribers: Map<u64, Subscriber>, k: u64, i: u64) -> bool {
    subscribers.contains_key(k) && subscribers[k].channels@.contains(i)
}

/// Whether the channels are in order: one name for each, no name twice, each
/// channel within its bounds.
spec fn registry_wf(ids: Seq<ChannelId>, channels: Seq<Channel>) -> bool {
    &&& ids.len() == channels.len() <= u64::MAX
    &&& distinct(names_of(ids))
    &&& forall|i: int| 0 <= i < channels.len() ==> (#[trigger] channels[i]).wf()
}

/// Whether the peers' records are in order: each under the key of a peer,
/// each listing positions of channels only.
spec fn records_wf(subscribers: Map<u64, Subscriber>, n: nat) -> bool {
    forall|k: u64, i: u64| #[trigger] joined(subscribers, k, i) ==> k <= MAX_KEY && i < n
}

/// Whether peers and channels agree on who is subscribed to what.
spec fn agree(subscribers: Map<u64, Subscriber>, channels: Seq<Channel>) -> bool {
    forall|k: u64, i: u64|
        #![trigger lists(channels, i, k)]
        #![trigger joined(subscribers, k, i)]
        i < channels.len() ==> (lists(channels, i, k) <==> joined(subscribers, k, i))
}

/// The names of the channels that the record `r` lists.
spec fn names_listed(names: Seq<Seq<char>>, r: Subscriber) -> Set<Seq<char>> {
    Set::new(|c: Seq<char>| known(names, c) && r.channels@.contains(slot_of(names, c) as u64))
}

/// The record `r` as the contracts see it.
spec fn record_state(names: Seq<Seq<char>>, r: Subscriber) -> SubscriberState {
    SubscriberState { t_last: r.t_last, channels: names_listed(names, r) }
}

impl Switchboard {
    /// The names of the channels, by position.
    pub closed spec fn names(&self) -> Seq<Seq<char>> {
        names_of(self.ids@)
    }

    /// Whether the switchboard is in order. Every switchboard that
    /// [`Switchboard::new`] made and that only this module's functions have
    /// changed is.
    pub closed spec fn wf(&self) -> bool {
        &&& self.xfo.key() == relay_key()
        &&& registry_wf(self.ids@, self.channels@)
        &&& records_wf(self.subscribers@, self.channels@.len())
        &&& agree(self.subscribers@, self.channels@)
    }
}

/// The board that peers' records and channels stand for.
spec fn board_of(
    subscribers: Map<u64, Subscriber>,
    names: Seq<Seq<char>>,
    channels: Seq<Channel>,
    counter: u64,
) -> BoardState {
    BoardState {
        subscribers: Map::new(
            |s: SubscriberId| subscribers.contains_key(s.key()),
            |s: SubscriberId| record_state(names, subscribers[s.key()]),
        ),
        channels: Map::new(
            |c: Seq<char>| known(names, c),
            |c: Seq<char>| channels[slot_of(names, c)].state(),
        ),
        counter,
    }
}

impl View for Switchboard {
    type V = BoardState;

    closed spec fn view(&self) -> BoardState {
        board_of(self.subscribers@, self.names(), self.channels@, self.xfo.counter())
    }
}

/// Names that extend distinct names keep the positions of those.
proof fn lemma_extended(names: Seq<Seq<char>>, c: Seq<char>)
    requires
        distinct(names),
        !known(names, c),
    ensures
        distinct(names.push(c)),
        known(names.push(c), c),
        slot_of(names.push(c), c) == names.len(),
        forall|d: Seq<char>| #[trigger]
            known(names.push(c), d) <==> (d == c || known(names, d)),
        forall|d: Seq<char>| #[trigger]
            known(names, d) ==> slot_of(names.push(c), d) == slot_of(names, d),
{
    let more = names.push(c);
    assert forall|i: int, j: int| 0 <= i < j < more.len() implies more[i] != more[j] by {
        if j == names.len() {
            assert(!slot_named(names, c, i));
        }
    }
    lemma_slot(more, names.len() as int);
    assert forall|d: Seq<char>| #[trigger]
        known(more, d) <==> (d == c || known(names, d)) by {
        if known(more, d) {
            lemma_known(more, d);
            let i = slot_of(more, d);
            if i < names.len() {
                assert(slot_named(names, d, i));
            }
        }
        if known(names, d) {
            lemma_known(names, d);
            assert(slot_named(more, d, slot_of(names, d)));
        }
    }
    assert forall|d: Seq<char>| #[trigger]
        known(names, d) implies slot_of(more, d) == slot_of(names, d) by {
        lemma_known(names, d);
        lemma_slot(more, slot_of(names, d));
    }
}

/// A new channel under a new name is added to the board, and nothing else
/// changes.
proof fn lemma_board_extended(
    subscribers: Map<u64, Subscriber>,
    names: Seq<Seq<char>>,
    channels: Seq<Channel>,
    counter: u64,
    c: Seq<char>,
    ch: Channel,
)
    requires
        distinct(names),
        !known(names, c),
        names.len() == channels.len() < u64::MAX,
        records_wf(subscribers, names.len()),
        ch.state() == fresh_channel(),
    ensures
        board_of(subscribers, names.push(c), channels.push(ch), counter) == with_channel(
            board_of(subscribers, names, channels, counter),
            c,
        ),
{
    let before = board_of(subscribers, names, channels, counter);
    let after = board_of(subscribers, names.push(c), channels.push(ch), counter);
    lemma_extended(names, c);
    assert forall|d: Seq<char>| known(names, d) implies #[trigger] after.channels[d]
        == before.channels[d] by {
        lemma_known(names, d);
    }
    assert(after.channels =~= before.channels.insert(c, fresh_channel()));
    assert forall|s: SubscriberId| subscribers.contains_key(s.key()) implies record_state(
        names.push(c),
        subscribers[s.key()],
    ) == record_state(names, subscribers[s.key()]) by {
        let r = subscribers[s.key()];
        assert forall|d: Seq<char>|
            names_listed(names.push(c), r).contains(d) <==> names_listed(names, r).contains(
                d,
            ) by {
            if d == c && r.channels@.contains(names.len() as u64) {
                assert(joined(subscribers, s.key(), names.len() as u64));
            }
        }
        assert(names_listed(names.push(c), r) =~= names_listed(names, r));
    }
    assert(after.subscribers =~= before.subscribers);
}

/// A record put under the key of a peer changes that peer's entry on the
/// board, and nothing else.
proof fn lemma_board_record(
    subscribers: Map<u64, Subscriber>,
    names: Seq<Seq<char>>,
    channels: Seq<Channel>,
    counter: u64,
    s: SubscriberId,
    r: Subscriber,
)
    ensures
        board_of(subscribers.insert(s.key(), r), names, channels, counter) == (BoardState {
            subscribers: board_of(subscribers, names, channels, counter).subscribers.insert(
                s,
                record_state(names, r),
            ),
            ..board_of(subscribers, names, channels, counter)
        }),
{
    let before = board_of(subscribers, names, channels, counter);
    let after = board_of(subscribers.insert(s.key(), r), names, channels, counter);
    assert forall|t: SubscriberId| t.key() == s.key() implies t == s by {
        t.lemma_key_order(s);
    }
    assert(after.subscribers =~= before.subscribers.insert(s, record_state(names, r)));
}

/// A channel replaced at its position changes that channel's entry on the
/// board, and nothing else.
proof fn lemma_board_channel(
    subscribers: Map<u64, Subscriber>,
    names: Seq<Seq<char>>,
    channels: Seq<Channel>,
    counter: u64,
    i: int,
    ch: Channel,
)
    requires
        distinct(names),
        names.len() == channels.len(),
        0 <= i < names.len(),
    ensures
        board_of(subscribers, names, channels.update(i, ch), counter) == (BoardState {
            channels: board_of(subscribers, names, channels, counter).channels.insert(
                names[i],
                ch.state(),
            ),
            ..board_of(subscribers, names, channels, counter)
        }),
{
    let before = board_of(subscribers, names, channels, counter);
    let after = board_of(subscribers, names, channels.update(i, ch), counter);
    lemma_slot(names, i);
    assert forall|d: Seq<char>| known(names, d) && d != names[i] implies (
    #[trigger] after.channels[d]) == before.channels[d] by {
        lemma_known(names, d);
    }
    assert(after.channels =~= before.channels.insert(names[i], ch.state()));
}

impl Switchboard {
    /// A switchboard with no peers and no channels, whose transform seals
    /// under the relay's key from the counter `iv` on.
    pub fn new(iv: u64) -> (board: Self)
        ensures
            board.wf(),
            board@.subscribers == Map::<SubscriberId, SubscriberState>::empty(),
            board@.channels == Map::<Seq<char>, ChannelState>::empty(),
            board@.counter == iv,
    {
        let board = Self {
            xfo: BlockTransform::new(shared_key(), iv),
            subscribers: BTreeMap::new(),
            ids: Vec::new(),
            channels: Vec::new(),
        };
        proof {
            assert(board@.subscribers =~= Map::<SubscriberId, SubscriberState>::empty());
            assert forall|c: Seq<char>| !known(board.names(), c) by {
                if known(board.names(), c) {
                    lemma_known(board.names(), c);
                }
            }
            assert(board@.channels =~= Map::<Seq<char>, ChannelState>::empty());
        }
        board
    }

    /// In a switchboard that is in order, peers and channels agree, and no
    /// backlog is over its bound.
    pub proof fn lemma_consistent(&self)
        requires
            self.wf(),
        ensures
            consistent(self@),
    {
        let names = self.names();
        assert forall|s: SubscriberId, c: Seq<char>|
            peer_lists(self@, s, c) <==> channel_lists(self@, c, s) by {
            if known(names, c) {
                lemma_known(names, c);
                let i = slot_of(names, c) as u64;
                assert(lists(self.channels@, i, s.key()) <==> joined(
                    self.subscribers@,
                    s.key(),
                    i,
                ));
            }
        }
        assert forall|c: Seq<char>| backlog_bounded(self@, c) by {
            if known(names, c) {
                lemma_known(names, c);
            }
        }
    }
}

/// A record that lists one more position lists one more name.
proof fn lemma_listed_insert(names: Seq<Seq<char>>, r: Subscriber, q: Subscriber, i: u64)
    requires
        distinct(names),
        i < names.len() <= u64::MAX,
        q.channels@ == r.channels@.insert(i),
    ensures
        names_listed(names, q) == names_listed(names, r).insert(names[i as int]),
{
    lemma_slot(names, i as int);
    assert forall|d: Seq<char>|
        names_listed(names, q).contains(d) <==> (d == names[i as int] || names_listed(
            names,
            r,
        ).contains(d)) by {
        if known(names, d) {
            lemma_known(names, d);
            lemma_slot(names, slot_of(names, d));
        }
    }
    assert(names_listed(names, q) =~= names_listed(names, r).insert(names[i as int]));
}

/// A record that lists one position less lists one name less.
proof fn lemma_listed_remove(names: Seq<Seq<char>>, r: Subscriber, q: Subscriber, i: u64)
    requires
        distinct(names),
        i < names.len() <= u64::MAX,
        q.channels@ == r.channels@.remove(i),
    ensures
        names_listed(names, q) == names_listed(names, r).remove(names[i as int]),
{
    lemma_slot(names, i as int);
    assert forall|d: Seq<char>|
        names_listed(names, q).contains(d) <==> (d != names[i as int] && names_listed(
            names,
            r,
        ).contains(d)) by {
        if known(names, d) {
            lemma_known(names, d);
            lemma_slot(names, slot_of(names, d));
        }
    }
    assert(names_listed(names, q) =~= names_listed(names, r).remove(names[i as int]));
}

/// A channel whose keys gain the key of a peer gains that peer.
proof fn lemma_peers_insert(ch: Channel, dh: Channel, s: SubscriberId)
    requires
        dh.subscribers@ == ch.subscribers@.insert(s.key()),
    ensures
        dh.subscribers() == ch.subscribers().insert(s),
{
    assert forall|t: SubscriberId| t.key() == s.key() implies t == s by {
        t.lemma_key_order(s);
    }
    assert(dh.subscribers() =~= ch.subscribers().insert(s));
}

/// A channel whose keys lose the key of a peer loses that peer.
proof fn lemma_peers_remove(ch: Channel, dh: Channel, s: SubscriberId)
    requires
        dh.subscribers@ == ch.subscribers@.remove(s.key()),
    ensures
        dh.subscribers() == ch.subscribers().remove(s),
{
    assert forall|t: SubscriberId| t.key() == s.key() implies t == s by {
        t.lemma_key_order(s);
    }
    assert(dh.subscribers() =~= ch.subscribers().remove(s));
}

impl Switchboard {
    /// The position of `channel` among the channels, if it is there.
    fn find(&self, channel: &ChannelId) -> (r: Option<usize>)
        requires
            self.ids@.len() == self.channels@.len(),
        ensures
            match r {
                Some(i) => slot_named(self.names(), channel@, i as int),
                None => !known(self.names(), channel@),
            },
    {
        let n = self.ids.len();
        for i in 0..n
            invariant
                n == self.ids@.len(),
                forall|j: int| 0 <= j < i ==> !slot_named(self.names(), channel@, j),
        {
            if self.ids[i] == *channel {
                return Some(i);
            }
        }
        None
    }

    /// Makes sure that there is a channel named as `channel` is, and returns
    /// its position. A channel that was missing is made with no messages and
    /// no subscribers.
    pub fn channel_mut(&mut self, channel: &ChannelId) -> (i: usize)
        requires
            old(self).wf(),
        ensures
            final(self).wf(),
            final(self)@ == with_channel(old(self)@, channel@),
            final(self)@.channels.contains_key(channel@),
            i < final(self).names().len(),
            final(self).names()[i as int] == channel@,
    {
        let ghost names = self.names();
        match self.find(channel) {
            Some(i) => {
                proof {
                    lemma_slot(names, i as int);
                }
                i
            },
            None => {
                let i = self.ids.len();
                let ch = Channel::new();
                let ghost fresh = ch;
                let id = channel.clone();
                self.ids.push(id);
                self.channels.push(ch);
                let n = self.ids.len();
                proof {
                    let slot = i as u64;
                    lemma_extended(names, channel@);
                    lemma_board_extended(
                        self.subscribers@,
                        names,
                        old(self).channels@,
                        self.xfo.counter(),
                        channel@,
                        fresh,
                    );
                    assert(self.names() =~= names.push(channel@));
                    assert(forall|k: u64, j: u64|
                        j < old(self).channels@.len() ==> (#[trigger] lists(self.channels@, j, k)
                            <==> lists(old(self).channels@, j, k)));
                    assert(forall|k: u64| !#[trigger] lists(self.channels@, slot, k));
                    assert(forall|k: u64| !#[trigger] joined(self.subscribers@, k, slot));
                }
                i
            },
        }
    }
}

impl Switchboard {
    /// Makes sure that there is a record for `subscriber`. A record that was
    /// missing is made as of `now`, with no subscriptions.
    pub fn subscriber_mut(&mut self, subscriber: &SubscriberId, now: u64)
        requires
            old(self).wf(),
        ensures
            final(self).wf(),
            final(self)@ == with_subscriber(old(self)@, *subscriber, now),
            final(self)@.subscribers.contains_key(*subscriber),
            final(self).names() == old(self).names(),
    {
        let k = subscriber.to_key();
        if !map_has(&self.subscribers, k) {
            let r = Subscriber::new(now);
            proof {
                lemma_board_record(
                    self.subscribers@,
                    self.names(),
                    self.channels@,
                    self.xfo.counter(),
                    *subscriber,
                    r,
                );
                assert(names_listed(self.names(), r) =~= Set::<Seq<char>>::empty());
            }
            map_put(&mut self.subscribers, k, r);
            proof {
                assert(forall|q: u64, j: u64| #[trigger]
                    joined(self.subscribers@, q, j) <==> joined(old(self).subscribers@, q, j));
            }
        }
    }

    /// Lets the peer `s` and the channel at position `i` list each other.
    fn link(&mut self, i: usize, s: SubscriberId)
        requires
            old(self).wf(),
            i < old(self).channels@.len(),
            old(self).subscribers@.contains_key(s.key()),
        ensures
            final(self).wf(),
            final(self).names() == old(self).names(),
            final(self)@ == linked(old(self)@, old(self).names()[i as int], s),
    {
        let k = s.to_key();
        let ghost names = self.names();
        let ghost c = names[i as int];
        let ghost ch0 = self.channels@[i as int];
        let ghost r0 = self.subscribers@[k];
        set_insert(&mut self.channels[i].subscribers, k);
        let ghost ch1 = self.channels@[i as int];
        let ghost mid = self.channels@;
        let mut r = map_take(&mut self.subscribers, k).unwrap();
        set_insert(&mut r.channels, i as u64);
        let ghost r1 = r;
        map_put(&mut self.subscribers, k, r);
        proof {
            let slot = i as u64;
            lemma_slot(names, i as int);
            lemma_peers_insert(ch0, ch1, s);
            lemma_listed_insert(names, r0, r1, slot);
            assert(mid =~= old(self).channels@.update(i as int, ch1));
            lemma_board_channel(
                old(self).subscribers@,
                names,
                old(self).channels@,
                self.xfo.counter(),
                i as int,
                ch1,
            );
            assert(self.subscribers@ =~= old(self).subscribers@.insert(k, r1));
            lemma_board_record(old(self).subscribers@, names, mid, self.xfo.counter(), s, r1);
            assert(forall|q: u64, j: u64| #[trigger]
                joined(self.subscribers@, q, j) <==> ((q == k && j == slot) || joined(
                    old(self).subscribers@,
                    q,
                    j,
                )));
            assert(forall|q: u64, j: u64|
                j < mid.len() ==> (#[trigger] lists(self.channels@, j, q) <==> ((q == k && j
                    == slot) || lists(old(self).channels@, j, q))));
            assert(self@.subscribers =~= linked(old(self)@, c, s).subscribers);
            assert(self@.channels =~= linked(old(self)@, c, s).channels);
        }
    }

    /// Lets the peer `s` and the channel at position `i` not list each
    /// other.
    fn unlink(&mut self, i: usize, s: SubscriberId)
        requires
            old(self).wf(),
            i < old(self).channels@.len(),
            old(self).subscribers@.contains_key(s.key()),
        ensures
            final(self).wf(),
            final(self).names() == old(self).names(),
            final(self)@ == unlinked(old(self)@, old(self).names()[i as int], s),
            final(self).subscribers@.contains_key(s.key()),
            final(self).subscribers@[s.key()].slots() == old(self).subscribers@[s.key()].slots().remove(
                i as u64,
            ),
    {
        let k = s.to_key();
        let ghost names = self.names();
        let ghost c = names[i as int];
        let ghost ch0 = self.channels@[i as int];
        let ghost r0 = self.subscribers@[k];
        set_remove(&mut self.channels[i].subscribers, k);
        let ghost ch1 = self.channels@[i as int];
        let ghost mid = self.channels@;
        let mut r = map_take(&mut self.subscribers, k).unwrap();
        set_remove(&mut r.channels, i as u64);
        let ghost r1 = r;
        map_put(&mut self.subscribers, k, r);
        proof {
            let slot = i as u64;
            lemma_slot(names, i as int);
            lemma_peers_remove(ch0, ch1, s);
            lemma_listed_remove(names, r0, r1, slot);
            assert(mid =~= old(self).channels@.update(i as int, ch1));
            lemma_board_channel(
                old(self).subscribers@,
                names,
                old(self).channels@,
                self.xfo.counter(),
                i as int,
                ch1,
            );
            assert(self.subscribers@ =~= old(self).subscribers@.insert(k, r1));
            lemma_board_record(old(self).subscribers@, names, mid, self.xfo.counter(), s, r1);
            assert(forall|q: u64, j: u64| #[trigger]
                joined(self.subscribers@, q, j) <==> (!(q == k && j == slot) && joined(
                    old(self).subscribers@,
                    q,
                    j,
                )));
            assert(forall|q: u64, j: u64|
                j < mid.len() ==> (#[trigger] lists(self.channels@, j, q) <==> (!(q == k && j
                    == slot) && lists(old(self).channels@, j, q))));
            assert(self@.subscribers =~= unlinked(old(self)@, c, s).subscribers);
            assert(self@.channels =~= unlinked(old(self)@, c, s).channels);
        }
    }

    /// Subscribes the peer `subscriber` to `channel`. The channel and the
    /// peer's record are made where they were missing, the record as of
    /// `now`.
    pub fn subscribe(&mut self, channel: &ChannelId, subscriber: &SubscriberId, now: u64)
        requires
            old(self).wf(),
        ensures
            final(self).wf(),
            final(self)@ == subscribed(old(self)@, channel@, *subscriber, now),
    {
        let i = self.channel_mut(channel);
        self.subscriber_mut(subscriber, now);
        self.link(i, *subscriber);
    }

    /// Unsubscribes the peer `subscriber` from `channel`. The channel and
    /// the peer's record are kept, and made where they were missing, the
    /// record as of `now`.
    pub fn unsubscribe(&mut self, channel: &ChannelId, subscriber: &SubscriberId, now: u64)
        requires
            old(self).wf(),
        ensures
            final(self).wf(),
            final(self)@ == unsubscribed(old(self)@, channel@, *subscriber, now),
    {
        let i = self.channel_mut(channel);
        self.subscriber_mut(subscriber, now);
        self.unlink(i, *subscriber);
    }
}

/// Whether `i` is among the positions `slots[j..]`.
spec fn pending(slots: Seq<u64>, j: int, i: u64) -> bool {
    exists|t: int| j <= t < slots.len() && slots[t] == i
}

/// Among ascending positions, the first one pending is not pending again.
proof fn lemma_pending_step(slots: Seq<u64>, j: int, i: u64)
    requires
        ascending(slots),
        0 <= j < slots.len(),
    ensures
        pending(slots, j, i) <==> (i == slots[j] || pending(slots, j + 1, i)),
        !pending(slots, j + 1, slots[j]),
{
    if pending(slots, j, i) {
        let t = choose|t: int| j <= t < slots.len() && slots[t] == i;
        if t != j {
            assert(j + 1 <= t < slots.len() && slots[t] == i);
        }
    }
    if pending(slots, j + 1, i) {
        let t = choose|t: int| j + 1 <= t < slots.len() && slots[t] == i;
        assert(j <= t < slots.len() && slots[t] == i);
    }
    if pending(slots, j + 1, slots[j]) {
        let t = choose|t: int| j + 1 <= t < slots.len() && slots[t] == slots[j];
        assert(slots[j] < slots[t]);
    }
    assert(j <= j < slots.len() && slots[j] == slots[j]);
}

impl Switchboard {
    /// Replaces the subscriptions of the peer `s` by `channels`: takes it
    /// off every channel it is on, then puts it on each of `channels`.
    fn resubscribe(&mut self, s: SubscriberId, channels: &Vec<ChannelId>, now: u64)
        requires
            old(self).wf(),
        ensures
            final(self).wf(),
            final(self)@ == resubscribed(old(self)@, s, names_of(channels@), now),
    {
        let ghost v0 = self@;
        let ghost wanted = names_of(channels@);
        self.subscriber_mut(&s, now);
        let ghost v1 = self@;
        let ghost names = self.names();
        let k = s.to_key();
        let slots = match map_get(&self.subscribers, k) {
            Some(r) => set_members(&r.channels),
            None => Vec::new(),
        };
        let mut j: usize = 0;
        while j < slots.len()
            invariant
                j <= slots.len(),
                k == s.key(),
                ascending(slots@),
                self.wf(),
                self.names() == names,
                self@.counter == v1.counter,
                self@.subscribers.dom() == v1.subscribers.dom(),
                forall|t: SubscriberId|
                    t != s && v1.subscribers.contains_key(t) ==> #[trigger] self@.subscribers[t]
                        == v1.subscribers[t],
                self@.subscribers[s].t_last == v1.subscribers[s].t_last,
                self@.channels.dom() == v1.channels.dom(),
                forall|c: Seq<char>|
                    v1.channels.contains_key(c) ==> (#[trigger] self@.channels[c]).backlog
                        == v1.channels[c].backlog,
                forall|c: Seq<char>|
                    v1.channels.contains_key(c) ==> (
                    #[trigger] self@.channels[c]).subscribers.remove(s)
                        == v1.channels[c].subscribers.remove(s),
                self.subscribers@.contains_key(k),
                forall|i: u64|
                    self.subscribers@[k].channels@.contains(i) <==> #[trigger] pending(
                        slots@,
                        j as int,
                        i,
                    ),
            decreases slots.len() - j,
        {
            let slot = slots[j];
            let n = self.channels.len();
            proof {
                lemma_pending_step(slots@, j as int, slot);
                assert(pending(slots@, j as int, slot));
                assert(joined(self.subscribers@, k, slot));
                assert(slot < n);
                lemma_slot(names, slot as int);
            }
            let ghost before = self@;
            let ghost c = names[slot as int];
            self.unlink(slot as usize, s);
            proof {
                assert(self@.subscribers.dom() =~= v1.subscribers.dom());
                assert(self@.channels.dom() =~= v1.channels.dom());
                let now_on = self@.channels[c].subscribers;
                assert(now_on.remove(s) =~= before.channels[c].subscribers.remove(s));
                assert forall|i: u64|
                    self.subscribers@[k].channels@.contains(i) <==> #[trigger] pending(
                        slots@,
                        j + 1,
                        i,
                    ) by {
                    lemma_pending_step(slots@, j as int, i);
                }
            }
            j += 1;
        }
        proof {
            self.lemma_consistent();
            assert forall|i: u64| !self.subscribers@[k].channels@.contains(i) by {
                assert(!pending(slots@, j as int, i));
            }
            assert(names_listed(names, self.subscribers@[k]) =~= Set::<Seq<char>>::empty());
            assert forall|c: Seq<char>| v0.channels.contains_key(c) implies (
            #[trigger] self@.channels[c]).subscribers == v0.channels[c].subscribers.remove(s) by {
                assert(!peer_lists(self@, s, c));
                assert(!channel_lists(self@, c, s));
                assert(self@.channels[c].subscribers =~= self@.channels[c].subscribers.remove(s));
            }
            assert(self@.subscribers.dom() =~= v0.subscribers.dom().insert(s));
            lemma_resubscribed_none(v0, self@, s, now);
            assert(wanted.take(0) =~= Seq::<Seq<char>>::empty());
        }
        let mut j: usize = 0;
        while j < channels.len()
            invariant
                j <= channels.len(),
                wanted == names_of(channels@),
                self.wf(),
                self@ == resubscribed(v0, s, wanted.take(j as int), now),
            decreases channels.len() - j,
        {
            let i = self.channel_mut(&channels[j]);
            assert(self@.subscribers.contains_key(s));
            self.link(i, s);
            proof {
                lemma_resubscribed_step(v0, s, wanted.take(j as int), wanted[j as int], now);
                assert(wanted.take(j + 1) =~= wanted.take(j as int).push(wanted[j as int]));
            }
            j += 1;
        }
        proof {
            assert(wanted.take(channels.len() as int) =~= wanted);
        }
    }
}

/// The board with another counter is the same board but for the counter.
proof fn lemma_board_counter(
    subscribers: Map<u64, Subscriber>,
    names: Seq<Seq<char>>,
    channels: Seq<Channel>,
    before: u64,
    after: u64,
)
    ensures
        board_of(subscribers, names, channels, after) == (BoardState {
            counter: after,
            ..board_of(subscribers, names, channels, before)
        }),
{
}

/// Whether, from the board `before`, carrying out the request `ctrl` of the
/// peer `from` at the time `now` leaves the board `after` and sends `out`.
///
/// - `Subscriptions` replaces the peer's subscriptions by exactly the
///   channels listed. Nothing is sent.
/// - `Transmit` appends the message to the channel's backlog and sends its
///   contents, sealed once for each subscriber of the channel.
/// - `Error` changes nothing and sends nothing.
///
/// With its first `Subscriptions` or `Transmit` a peer gets its record, as of
/// `now`. A complaint makes none.
pub open spec fn carried_out(
    before: BoardState,
    after: BoardState,
    from: SubscriberId,
    ctrl: Control,
    now: u64,
    out: Seq<DeliveryView>,
) -> bool {
    match ctrl {
        Control::Subscriptions { channels } => {
            &&& after == resubscribed(before, from, names_of(channels@), now)
            &&& out.len() == 0
        },
        Control::Transmit { channel, message } => {
            &&& after == transmitted(
                with_subscriber(before, from, now),
                channel@,
                message@,
                out.len(),
            )
            &&& fans_out(
                out,
                with_channel(before, channel@).channels[channel@].subscribers,
                relay_key(),
                before.counter,
                message.contents@,
            )
        },
        Control::Error { msg } => after == before && out.len() == 0,
    }
}

/// A peer whose request has been carried out has a record, unless the
/// request was a complaint. Where the request was to transmit and the peer had
/// no record before, on a board whose two sides agree, the record is the one
/// made at `now`, with no subscriptions, and no channel lists the peer.
pub proof fn lemma_sender_recorded(
    before: BoardState,
    after: BoardState,
    from: SubscriberId,
    ctrl: Control,
    now: u64,
    out: Seq<DeliveryView>,
)
    requires
        carried_out(before, after, from, ctrl, now, out),
        !(ctrl is Error),
    ensures
        after.subscribers.contains_key(from),
        ctrl is Transmit && consistent(before) && !before.subscribers.contains_key(from) ==> {
            &&& after.subscribers[from] == fresh_subscriber(now)
            &&& forall|c: Seq<char>| !#[trigger] channel_lists(after, c, from)
        },
{
    if ctrl is Transmit && consistent(before) && !before.subscribers.contains_key(from) {
        assert forall|c: Seq<char>| !#[trigger] channel_lists(after, c, from) by {
            assert(!peer_lists(before, from, c));
            assert(!channel_lists(before, c, from));
        }
    }
}

/// Whether the contents of the message that `ctrl` transmits, if it
/// transmits one, leave room in memory for the frame around them.
pub open spec fn sendable(ctrl: Control) -> bool {
    ctrl matches Control::Transmit { message, .. } ==> message.contents@.len() + 24 <= usize::MAX
}

/// What the owner of the socket tells the switchboard.
#[derive(Debug)]
pub enum Event {
    /// A datagram arrived from the peer `from`.
    Datagram { from: SubscriberId, bytes: Vec<u8> },
    /// The plaintext of a datagram from the peer `from` was read as the
    /// request `ctrl`, at the time `now`.
    Request { from: SubscriberId, ctrl: Control, now: u64 },
}

/// What the switchboard asks of the owner of the socket.
#[derive(Debug)]
pub enum Action {
    /// Read this plaintext as a request and hand the request back.
    Parse { from: SubscriberId, plaintext: Vec<u8> },
    /// The datagram was rejected. Log that, and print this dump of it.
    Reject { dump: String },
    /// Send these datagrams.
    Send { out: Vec<Delivery> },
    /// The peer `from` complains of `msg`. Log that.
    Complaint { from: SubscriberId, msg: String },
}

/// Whether `action` is the answer to the request `ctrl` of the peer `from`
/// at the time `now`, and `after` the board it leaves of the board `before`.
///
/// A complaint leaves the board as it is and comes back to be logged. Any
/// other request is carried out, and what it sends comes back to be sent.
pub open spec fn answered(
    before: BoardState,
    after: BoardState,
    from: SubscriberId,
    ctrl: Control,
    now: u64,
    action: Action,
) -> bool {
    match ctrl {
        Control::Error { msg } => {
            &&& after == before
            &&& action matches Action::Complaint { from: f, msg: m } && f == from && m@ == msg@
        },
        _ => action matches Action::Send { out } && carried_out(
            before,
            after,
            from,
            ctrl,
            now,
            views_of(out@),
        ),
    }
}

/// Whether `action` is the answer to the datagram `bytes` from the peer
/// `from`: its plaintext to be read where it is accepted under the relay's
/// key, its hex dump to be printed where it is rejected.
pub open spec fn opened(from: SubscriberId, bytes: Seq<u8>, action: Action) -> bool {
    match open_frame(relay_key(), bytes) {
        Some(p) => action matches Action::Parse { from: f, plaintext } && f == from && plaintext@
            == p,
        None => action matches Action::Reject { dump } && dump@ == crate::hexdump::dump(bytes),
    }
}

/// The key of the peer that a key within bounds stands for is that key.
proof fn lemma_of_key(k: u64)
    requires
        k <= MAX_KEY,
    ensures
        SubscriberId::of_key(k).key() == k,
{
}

impl Switchboard {
    /// Puts `message` on `channel` and returns its contents sealed once for
    /// each subscriber of the channel, subscribers in increasing order.
    fn transmit(&mut self, channel: &ChannelId, message: Message) -> (out: Vec<Delivery>)
        requires
            old(self).wf(),
            message.contents@.len() + 24 <= usize::MAX,
        ensures
            final(self).wf(),
            final(self)@ == transmitted(old(self)@, channel@, message@, out@.len() as nat),
            fans_out(
                views_of(out@),
                with_channel(old(self)@, channel@).channels[channel@].subscribers,
                relay_key(),
                old(self)@.counter,
                message.contents@,
            ),
    {
        let ghost v0 = self@;
        let i = self.channel_mut(channel);
        let ghost v1 = self@;
        let ghost names = self.names();
        let ghost subs1 = self.subscribers@;
        let ghost ids1 = self.ids@;
        let ghost chans1 = self.channels@;
        let ghost ch0 = self.channels@[i as int];
        let ghost ctr0 = self.xfo.counter();
        let ghost contents = message.contents@;
        proof {
            lemma_slot(names, i as int);
            assert(v1.channels[channel@] == ch0.state());
        }
        let keys = set_members(&self.channels[i].subscribers);
        proof {
            assert forall|t: int| 0 <= t < keys@.len() implies #[trigger] ch0.subscribers@.contains(
                keys@[t],
            ) by {
                assert(keys@.contains(keys@[t]));
            }
        }
        let m = message.contents.len();
        let n = if m % 8 == 0 {
            16 + m
        } else {
            24 + m - m % 8
        };
        let mut out: Vec<Delivery> = Vec::new();
        let mut j: usize = 0;
        while j < keys.len()
            invariant
                j <= keys.len(),
                out@.len() == j,
                m == contents.len(),
                contents == message.contents@,
                n == frame_len(m as nat),
                self.xfo.key() == relay_key(),
                self.xfo.counter() == counter_after(ctr0, m as nat, j as nat),
                self.subscribers@ == subs1,
                self.ids@ == ids1,
                self.channels@ == chans1,
                ch0.wf(),
                forall|t: int|
                    0 <= t < keys@.len() ==> #[trigger] ch0.subscribers@.contains(keys@[t]),
                forall|t: int|
                    0 <= t < j ==> (#[trigger] out@[t]).to == SubscriberId::of_key(keys@[t])
                        && out@[t].datagram@ == frame(
                        relay_key(),
                        counter_after(ctr0, m as nat, t as nat),
                        contents,
                    ),
            decreases keys.len() - j,
        {
            let mut datagram = vec![0u8; n];
            proof {
                lemma_frame_parts(relay_key(), self.xfo.counter(), contents);
            }
            let ghost blank = datagram@;
            let _ = self.xfo.encode(message.contents.as_slice(), datagram.as_mut_slice());
            proof {
                assert(blank.skip(n as int) =~= Seq::<u8>::empty());
                assert(datagram@ =~= frame(
                    relay_key(),
                    counter_after(ctr0, m as nat, j as nat),
                    contents,
                ));
            }
            assert(ch0.subscribers@.contains(keys@[j as int]));
            out.push(Delivery { to: SubscriberId::from_key(keys[j]), datagram });
            j += 1;
        }
        let ghost ctr1 = self.xfo.counter();
        self.channels[i].add(message);
        proof {
            let ch1 = self.channels@[i as int];
            let outv = views_of(out@);
            let to = with_channel(v0, channel@).channels[channel@].subscribers;
            assert(self.channels@ =~= chans1.update(i as int, ch1));
            lemma_board_counter(subs1, names, chans1, ctr0, ctr1);
            lemma_board_channel(subs1, names, chans1, ctr1, i as int, ch1);
            assert(forall|q: u64, t: u64|
                t < chans1.len() ==> (#[trigger] lists(self.channels@, t, q) <==> lists(
                    chans1,
                    t,
                    q,
                )));
            assert(to == ch0.subscribers());
            assert forall|a: int, b: int| 0 <= a < b < outv.len() implies outv[a].to.before(
                outv[b].to,
            ) by {
                assert(ch0.subscribers@.contains(keys@[a]));
                assert(ch0.subscribers@.contains(keys@[b]));
                lemma_of_key(keys@[a]);
                lemma_of_key(keys@[b]);
                outv[a].to.lemma_key_order(outv[b].to);
            }
            assert forall|t: int| 0 <= t < outv.len() implies to.contains(
                #[trigger] outv[t].to,
            ) by {
                assert(ch0.subscribers@.contains(keys@[t]));
                lemma_of_key(keys@[t]);
            }
            assert forall|s: SubscriberId| to.contains(s) implies exists|t: int|
                0 <= t < outv.len() && #[trigger] outv[t].to == s by {
                assert(keys@.contains(s.key()));
                let t = choose|t: int| 0 <= t < keys@.len() && keys@[t] == s.key();
                s.lemma_key_order(outv[t].to);
                assert(outv[t].to == s);
            }
        }
        out
    }

    /// Whether a request can be handed to [`Switchboard::process`]: the
    /// contents of a message to transmit leave room for the frame around
    /// them.
    pub fn can_send(ctrl: &Control) -> (r: bool)
        ensures
            r == sendable(*ctrl),
    {
        match ctrl {
            Control::Transmit { channel, message } => message.contents.len() <= usize::MAX - 24,
            _ => true,
        }
    }

    /// Carries out the request `ctrl` of the peer `subscriber`, at the time
    /// `now`, and says what to do next.
    ///
    /// - `Subscriptions` replaces the peer's subscriptions by exactly the
    ///   channels listed. There is nothing to send.
    /// - `Transmit` appends the message to the channel's backlog. Its
    ///   contents are to be sent to each subscriber of the channel, sealed
    ///   once for each, subscribers in increasing order.
    /// - `Error` changes nothing. The complaint is to be logged.
    ///
    /// A peer that had no record gets one with its first `Subscriptions` or
    /// `Transmit`, as of `now`.
    pub fn process(&mut self, subscriber: SubscriberId, ctrl: Control, now: u64) -> (action: Action)
        requires
            old(self).wf(),
            sendable(ctrl),
        ensures
            final(self).wf(),
            answered(old(self)@, final(self)@, subscriber, ctrl, now, action),
    {
        match ctrl {
            Control::Subscriptions { channels } => {
                self.resubscribe(subscriber, &channels, now);
                Action::Send { out: Vec::new() }
            },
            Control::Transmit { channel, message } => {
                self.subscriber_mut(&subscriber, now);
                Action::Send { out: self.transmit(&channel, message) }
            },
            Control::Error { msg } => Action::Complaint { from: subscriber, msg },
        }
    }

    /// Opens the datagram `bytes` under the relay's key.
    fn open(&mut self, from: SubscriberId, bytes: Vec<u8>) -> (action: Action)
        requires
            old(self).wf(),
        ensures
            final(self).wf(),
            final(self)@ == old(self)@,
            opened(from, bytes@, action),
    {
        let mut plaintext = vec![0u8; bytes.len()];
        proof {
            if valid_len(bytes@.len()) {
                lemma_plain_len(bytes@);
            }
        }
        let n = self.xfo.decode(bytes.as_slice(), plaintext.as_mut_slice());
        proof {
            lemma_board_counter(
                self.subscribers@,
                self.names(),
                self.channels@,
                old(self).xfo.counter(),
                self.xfo.counter(),
            );
        }
        match n {
            Some(n) => {
                plaintext.truncate(n);
                Action::Parse { from, plaintext }
            },
            None => Action::Reject { dump: hex_dump(bytes.as_slice()) },
        }
    }

    /// One step of the relay: takes what happened at the socket and says what
    /// to do next.
    ///
    /// A datagram is opened under the relay's key. Where it is accepted, its
    /// plaintext comes back to be read as a request; where it is rejected,
    /// its hex dump comes back to be printed. Neither changes the
    /// switchboard.
    ///
    /// A request is carried out as [`Switchboard::process`] does.
    pub fn run(&mut self, event: Event) -> (action: Action)
        requires
            old(self).wf(),
            event matches Event::Request { ctrl, .. } ==> sendable(ctrl),
        ensures
            final(self).wf(),
            match event {
                Event::Datagram { from, bytes } => final(self)@ == old(self)@ && opened(
                    from,
                    bytes@,
                    action,
                ),
                Event::Request { from, ctrl, now } => answered(
                    old(self)@,
                    final(self)@,
                    from,
                    ctrl,
                    now,
                    action,
                ),
            },
    {
        match event {
            Event::Datagram { from, bytes } => self.open(from, bytes),
            Event::Request { from, ctrl, now } => self.process(from, ctrl, now),
        }
    }
}

/// The messages of a list as the contracts see them.
pub open spec fn messages_of(ms: Seq<Message>) -> Seq<MessageView> {
    ms.map_values(|m: Message| m@)
}

impl Channel {
    /// The messages that the channel keeps, oldest first.
    pub fn messages(&self) -> (ms: Vec<Message>)
        ensures
            messages_of(ms@) == self.backlog(),
    {
        let n = self.backlog.len();
        let mut ms: Vec<Message> = Vec::new();
        for i in 0..n
            invariant
                n == self.backlog@.len(),
                ms@.len() == i,
                forall|j: int| 0 <= j < i ==> (#[trigger] ms@[j])@ == self.backlog@[j]@,
        {
            ms.push(self.backlog[i].clone());
        }
        assert(messages_of(ms@) =~= self.backlog());
        ms
    }

    /// The peers subscribed to the channel, in increasing order.
    pub fn members(&self) -> (peers: Vec<SubscriberId>)
        requires
            self.wf(),
        ensures
            forall|i: int, j: int| 0 <= i < j < peers@.len() ==> peers@[i].before(peers@[j]),
            forall|s: SubscriberId| peers@.contains(s) <==> self.subscribers().contains(s),
    {
        let keys = set_members(&self.subscribers);
        let n = keys.len();
        let mut peers: Vec<SubscriberId> = Vec::new();
        for i in 0..n
            invariant
                n == keys@.len(),
                self.wf(),
                peers@.len() == i,
                forall|k: u64| keys@.contains(k) <==> self.subscribers@.contains(k),
                forall|j: int| 0 <= j < i ==> (#[trigger] peers@[j]).key() == keys@[j],
        {
            assert(keys@.contains(keys@[i as int]));
            peers.push(SubscriberId::from_key(keys[i]));
        }
        proof {
            assert forall|i: int, j: int| 0 <= i < j < peers@.len() implies peers@[i].before(
                peers@[j],
            ) by {
                peers@[i].lemma_key_order(peers@[j]);
            }
            assert forall|s: SubscriberId| peers@.contains(s) <==> self.subscribers().contains(
                s,
            ) by {
                if peers@.contains(s) {
                    let i = choose|i: int| 0 <= i < peers@.len() && peers@[i] == s;
                    assert(keys@.contains(keys@[i]));
                }
                if self.subscribers().contains(s) {
                    assert(keys@.contains(s.key()));
                    let i = choose|i: int| 0 <= i < keys@.len() && keys@[i] == s.key();
                    s.lemma_key_order(peers@[i]);
                    assert(peers@[i] == s);
                }
            }
        }
        peers
    }
}

impl Switchboard {
    /// The messages that `channel` keeps, oldest first, if there is such a
    /// channel.
    pub fn backlog(&self, channel: &ChannelId) -> (r: Option<Vec<Message>>)
        requires
            self.wf(),
        ensures
            match r {
                Some(ms) => self@.channels.contains_key(channel@) && messages_of(ms@)
                    == self@.channels[channel@].backlog,
                None => !self@.channels.contains_key(channel@),
            },
    {
        match self.find(channel) {
            Some(i) => {
                proof {
                    lemma_slot(self.names(), i as int);
                }
                Some(self.channels[i].messages())
            },
            None => None,
        }
    }

    /// The peers subscribed to `channel`, in increasing order, if there is
    /// such a channel.
    pub fn subscribers(&self, channel: &ChannelId) -> (r: Option<Vec<SubscriberId>>)
        requires
            self.wf(),
        ensures
            match r {
                Some(peers) => {
                    &&& self@.channels.contains_key(channel@)
                    &&& forall|i: int, j: int|
                        0 <= i < j < peers@.len() ==> peers@[i].before(peers@[j])
                    &&& forall|s: SubscriberId|
                        peers@.contains(s) <==> self@.channels[channel@].subscribers.contains(s)
                },
                None => !self@.channels.contains_key(channel@),
            },
    {
        match self.find(channel) {
            Some(i) => {
                proof {
                    lemma_slot(self.names(), i as int);
                }
                Some(self.channels[i].members())
            },
            None => None,
        }
    }

    /// The channels that the peer `subscriber` is subscribed to, if the peer
    /// has a record.
    pub fn subscriptions(&self, subscriber: &SubscriberId) -> (r: Option<Vec<ChannelId>>)
        requires
            self.wf(),
        ensures
            match r {
                Some(channels) => {
                    &&& self@.subscribers.contains_key(*subscriber)
                    &&& names_of(channels@).no_duplicates()
                    &&& names_of(channels@).to_set() == self@.subscribers[*subscriber].channels
                },
                None => !self@.subscribers.contains_key(*subscriber),
            },
    {
        let k = subscriber.to_key();
        match map_get(&self.subscribers, k) {
            Some(r) => {
                let slots = set_members(&r.channels);
                let n = slots.len();
                let ghost names = self.names();
                let mut channels: Vec<ChannelId> = Vec::new();
                let mut i: usize = 0;
                while i < n
                    invariant
                        i <= n == slots@.len(),
                        self.wf(),
                        names == self.names(),
                        self.subscribers@.contains_key(k),
                        *r == self.subscribers@[k],
                        forall|q: u64| slots@.contains(q) <==> r.channels@.contains(q),
                        channels@.len() == i,
                        forall|j: int| 0 <= j < i ==> #[trigger] slots@[j] < names.len(),
                        forall|j: int|
                            0 <= j < i ==> (#[trigger] channels@[j])@ == names[slots@[j] as int],
                    decreases n - i,
                {
                    let slot = slots[i];
                    let total = self.ids.len();
                    proof {
                        assert(slots@.contains(slots@[i as int]));
                        assert(joined(self.subscribers@, k, slot));
                        assert(slot < total);
                    }
                    channels.push(self.ids[slot as usize].clone());
                    i += 1;
                }
                proof {
                    let got = names_of(channels@);
                    assert forall|i: int, j: int| 0 <= i < j < got.len() implies got[i]
                        != got[j] by {
                        assert(slots@[i] < slots@[j]);
                    }
                    assert forall|c: Seq<char>| got.to_set().contains(c) <==> names_listed(
                        names,
                        *r,
                    ).contains(c) by {
                        if got.contains(c) {
                            let i = choose|i: int| 0 <= i < got.len() && got[i] == c;
                            assert(slots@.contains(slots@[i]));
                            lemma_slot(names, slots@[i] as int);
                        }
                        if names_listed(names, *r).contains(c) {
                            lemma_known(names, c);
                            let q = slot_of(names, c) as u64;
                            assert(slots@.contains(q));
                            let i = choose|i: int| 0 <= i < slots@.len() && slots@[i] == q;
                            assert(got[i] == c);
                        }
                    }
                    assert(got.to_set() =~= self@.subscribers[*subscriber].channels);
                }
                Some(channels)
            },
            None => None,
        }
    }

    /// When the peer `subscriber` was first seen, if it has a record.
    pub fn first_seen(&self, subscriber: &SubscriberId) -> (r: Option<u64>)
        requires
            self.wf(),
        ensures
            match r {
                Some(t) => self@.subscribers.contains_key(*subscriber)
                    && self@.subscribers[*subscriber].t_last == t,
                None => !self@.subscribers.contains_key(*subscriber),
            },
    {
        match map_get(&self.subscribers, subscriber.to_key()) {
            Some(r) => Some(r.t_last),
            None => None,
        }
    }
}

} // verus!
