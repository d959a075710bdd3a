//! The state of the switchboard as mathematics, and what each request does
//! to it.
//!
//! A board is a map from peers to their subscriptions, a map from channel
//! names to channels, and the counter of the transform that seals outgoing
//! datagrams. The functions here say what the board is after each operation;
//! the executable switchboard is proved against them.
use crate::frame::{frame, next_counter};
use crate::proto::{MessageView, SubscriberId};
use vstd::prelude::*;

verus! {

/// The most messages that a channel keeps.
pub const BACKLOG_MAX: usize = 128;

/// A channel: the messages it keeps, oldest first, and the peers subscribed
/// to it.
pub ghost struct ChannelState {
    pub backlog: Seq<MessageView>,
    pub subscribers: Set<SubscriberId>,
}

/// A peer's record: when it was first seen, which is when the record was
/// made, and the names of the channels it is subscribed to. A peer is seen
/// with its first request to subscribe or to transmit.
pub ghost struct SubscriberState {
    pub t_last: u64,
    pub channels: Set<Seq<char>>,
}

/// The whole board.
pub ghost struct BoardState {
    pub subscribers: Map<SubscriberId, SubscriberState>,
    pub channels: Map<Seq<char>, ChannelState>,
    pub counter: u64,
}

/// A datagram on its way out, as the contracts see it.
pub ghost struct DeliveryView {
    pub to: SubscriberId,
    pub datagram: Seq<u8>,
}

/// A channel that nobody has used yet.
pub open spec fn fresh_channel() -> ChannelState {
    ChannelState { backlog: Seq::empty(), subscribers: Set::empty() }
}

/// The record of a peer first seen at `now`.
pub open spec fn fresh_subscriber(now: u64) -> SubscriberState {
    SubscriberState { t_last: now, channels: Set::empty() }
}

/// A backlog with one more message: appended, after the oldest has been
/// dropped where the backlog was full.
pub open spec fn push_bounded(log: Seq<MessageView>, m: MessageView) -> Seq<MessageView> {
    if log.len() >= BACKLOG_MAX {
        log.skip(1).push(m)
    } else {
        log.push(m)
    }
}

/// A backlog after the messages `ms` have been added to it in order.
pub open spec fn push_all(log: Seq<MessageView>, ms: Seq<MessageView>) -> Seq<MessageView>
    decreases ms.len(),
{
    if ms.len() == 0 {
        log
    } else {
        push_bounded(push_all(log, ms.drop_last()), ms.last())
    }
}

/// The last [`BACKLOG_MAX`] messages of `s`, or all of them where there are
/// fewer.
pub open spec fn latest(s: Seq<MessageView>) -> Seq<MessageView> {
    if s.len() > BACKLOG_MAX {
        s.skip(s.len() - BACKLOG_MAX)
    } else {
        s
    }
}

/// Whatever is added to a backlog within its bound, it then holds the most
/// recent messages, as many as the bound allows, oldest first.
pub proof fn lemma_backlog_keeps_latest(log: Seq<MessageView>, ms: Seq<MessageView>)
    requires
        log.len() <= BACKLOG_MAX,
    ensures
        push_all(log, ms) == latest(log + ms),
        push_all(log, ms).len() <= BACKLOG_MAX,
    decreases ms.len(),
{
    if ms.len() == 0 {
        assert(log + ms =~= log);
    } else {
        lemma_backlog_keeps_latest(log, ms.drop_last());
        assert((log + ms.drop_last()).push(ms.last()) =~= log + ms);
        assert(push_all(log, ms) =~= latest(log + ms));
    }
}

/// The board with the channel `c` in it, made afresh where it was missing.
pub open spec fn with_channel(v: BoardState, c: Seq<char>) -> BoardState {
    if v.channels.contains_key(c) {
        v
    } else {
        BoardState { channels: v.channels.insert(c, fresh_channel()), ..v }
    }
}

/// The board with a record for the peer `s` in it, made afresh at `now`
/// where it was missing.
pub open spec fn with_subscriber(v: BoardState, s: SubscriberId, now: u64) -> BoardState {
    if v.subscribers.contains_key(s) {
        v
    } else {
        BoardState { subscribers: v.subscribers.insert(s, fresh_subscriber(now)), ..v }
    }
}

/// The board on which the peer `s` and the channel `c`, both on it already,
/// list each other.
pub open spec fn linked(v: BoardState, c: Seq<char>, s: SubscriberId) -> BoardState {
    BoardState {
        subscribers: v.subscribers.insert(
            s,
            SubscriberState { channels: v.subscribers[s].channels.insert(c), ..v.subscribers[s] },
        ),
        channels: v.channels.insert(
            c,
            ChannelState { subscribers: v.channels[c].subscribers.insert(s), ..v.channels[c] },
        ),
        ..v
    }
}

/// The board on which the peer `s` and the channel `c`, both on it already,
/// do not list each other.
pub open spec fn unlinked(v: BoardState, c: Seq<char>, s: SubscriberId) -> BoardState {
    BoardState {
        subscribers: v.subscribers.insert(
            s,
            SubscriberState { channels: v.subscribers[s].channels.remove(c), ..v.subscribers[s] },
        ),
        channels: v.channels.insert(
            c,
            ChannelState { subscribers: v.channels[c].subscribers.remove(s), ..v.channels[c] },
        ),
        ..v
    }
}

/// The board after the peer `s` has been subscribed to the channel `c`.
/// Both records are made where they were missing.
pub open spec fn subscribed(v: BoardState, c: Seq<char>, s: SubscriberId, now: u64) -> BoardState {
    linked(with_subscriber(with_channel(v, c), s, now), c, s)
}

/// The board after the peer `s` has been unsubscribed from the channel `c`.
/// Both records are kept, and made where they were missing.
pub open spec fn unsubscribed(
    v: BoardState,
    c: Seq<char>,
    s: SubscriberId,
    now: u64,
) -> BoardState {
    unlinked(with_subscriber(with_channel(v, c), s, now), c, s)
}

/// The channel `c` after the peer `s` has replaced its subscriptions by the
/// channels named in `names`.
pub open spec fn resubscribed_channel(
    v: BoardState,
    s: SubscriberId,
    names: Seq<Seq<char>>,
    c: Seq<char>,
) -> ChannelState {
    let old_one = if v.channels.contains_key(c) {
        v.channels[c]
    } else {
        fresh_channel()
    };
    ChannelState {
        backlog: old_one.backlog,
        subscribers: if names.contains(c) {
            old_one.subscribers.insert(s)
        } else {
            old_one.subscribers.remove(s)
        },
    }
}

/// The board after the peer `s` has replaced its subscriptions by the
/// channels named in `names`: it is a subscriber of exactly those, which are
/// made where they were missing; every other channel is kept, without `s`.
pub open spec fn resubscribed(
    v: BoardState,
    s: SubscriberId,
    names: Seq<Seq<char>>,
    now: u64,
) -> BoardState {
    BoardState {
        subscribers: v.subscribers.insert(
            s,
            SubscriberState {
                t_last: with_subscriber(v, s, now).subscribers[s].t_last,
                channels: names.to_set(),
            },
        ),
        channels: Map::new(
            |c: Seq<char>| v.channels.contains_key(c) || names.contains(c),
            |c: Seq<char>| resubscribed_channel(v, s, names, c),
        ),
        counter: v.counter,
    }
}

/// The stored counter after `n` plaintexts of `m` bytes have been sealed
/// from the counter `ctr` on.
pub open spec fn counter_after(ctr: u64, m: nat, n: nat) -> u64
    decreases n,
{
    if n == 0 {
        ctr
    } else {
        next_counter(counter_after(ctr, m, (n - 1) as nat), m)
    }
}

/// The board after the message `m` has been put on the channel `c` and
/// forwarded to `n` subscribers. The channel is made where it was missing.
pub open spec fn transmitted(v: BoardState, c: Seq<char>, m: MessageView, n: nat) -> BoardState {
    let w = with_channel(v, c);
    BoardState {
        channels: w.channels.insert(
            c,
            ChannelState { backlog: push_bounded(w.channels[c].backlog, m), ..w.channels[c] },
        ),
        counter: counter_after(v.counter, m.contents.len(), n),
        ..w
    }
}

/// Whether the sequence `out` is the fan-out of `contents` to the peers in
/// `to`: one datagram for each of them, peers in increasing order, each
/// datagram the next frame of `contents` under `key` from the counter `ctr`
/// on.
pub open spec fn fans_out(
    out: Seq<DeliveryView>,
    to: Set<SubscriberId>,
    key: Seq<u32>,
    ctr: u64,
    contents: Seq<u8>,
) -> bool {
    &&& forall|i: int, j: int| 0 <= i < j < out.len() ==> out[i].to.before(out[j].to)
    &&& forall|i: int| 0 <= i < out.len() ==> to.contains(#[trigger] out[i].to)
    &&& forall|s: SubscriberId|
        to.contains(s) ==> exists|i: int| 0 <= i < out.len() && #[trigger] out[i].to == s
    &&& forall|i: int|
        0 <= i < out.len() ==> #[trigger] out[i].datagram == frame(
            key,
            counter_after(ctr, contents.len(), i as nat),
            contents,
        )
}

/// Whether the peer `s` lists the channel `c` on the board.
pub open spec fn peer_lists(v: BoardState, s: SubscriberId, c: Seq<char>) -> bool {
    v.subscribers.contains_key(s) && v.subscribers[s].channels.contains(c)
}

/// Whether the channel `c` lists the peer `s` on the board.
pub open spec fn channel_lists(v: BoardState, c: Seq<char>, s: SubscriberId) -> bool {
    v.channels.contains_key(c) && v.channels[c].subscribers.contains(s)
}

/// Whether the backlog of the channel `c`, where the board has it, is within
/// its bound.
pub open spec fn backlog_bounded(v: BoardState, c: Seq<char>) -> bool {
    v.channels.contains_key(c) ==> v.channels[c].backlog.len() <= BACKLOG_MAX
}

/// Whether the two sides of a board agree: a peer lists a channel exactly
/// when the channel lists the peer, and no backlog is over its bound.
pub open spec fn consistent(v: BoardState) -> bool {
    &&& forall|s: SubscriberId, c: Seq<char>|
        #![trigger peer_lists(v, s, c)]
        #![trigger channel_lists(v, c, s)]
        peer_lists(v, s, c) <==> channel_lists(v, c, s)
    &&& forall|c: Seq<char>| #[trigger] backlog_bounded(v, c)
}

/// A board on which the peer `s` has a record but lists no channel and is
/// listed by none is the board after `s` has replaced its subscriptions by
/// none: `v` is the board before, `w` the board now.
pub proof fn lemma_resubscribed_none(v: BoardState, w: BoardState, s: SubscriberId, now: u64)
    requires
        w.counter == v.counter,
        w.subscribers.dom() == v.subscribers.dom().insert(s),
        forall|t: SubscriberId|
            t != s && v.subscribers.contains_key(t) ==> #[trigger] w.subscribers[t]
                == v.subscribers[t],
        w.subscribers[s].t_last == with_subscriber(v, s, now).subscribers[s].t_last,
        w.subscribers[s].channels == Set::<Seq<char>>::empty(),
        w.channels.dom() == v.channels.dom(),
        forall|c: Seq<char>|
            v.channels.contains_key(c) ==> (#[trigger] w.channels[c]).backlog
                == v.channels[c].backlog,
        forall|c: Seq<char>|
            v.channels.contains_key(c) ==> (#[trigger] w.channels[c]).subscribers
                == v.channels[c].subscribers.remove(s),
    ensures
        w == resubscribed(v, s, Seq::<Seq<char>>::empty(), now),
{
    let none = Seq::<Seq<char>>::empty();
    let r = resubscribed(v, s, none, now);
    assert(none.to_set() =~= Set::<Seq<char>>::empty());
    assert(w.subscribers =~= r.subscribers);
    assert(w.channels =~= r.channels);
}

/// Replacing a peer's subscriptions by a list of channels and then
/// subscribing it to one more is replacing them by the longer list.
pub proof fn lemma_resubscribed_step(
    v: BoardState,
    s: SubscriberId,
    names: Seq<Seq<char>>,
    c: Seq<char>,
    now: u64,
)
    ensures
        linked(with_channel(resubscribed(v, s, names, now), c), c, s) == resubscribed(
            v,
            s,
            names.push(c),
            now,
        ),
{
    let before = resubscribed(v, s, names, now);
    let mid = with_channel(before, c);
    let after = linked(mid, c, s);
    let goal = resubscribed(v, s, names.push(c), now);
    assert(names.push(c).to_set() =~= names.to_set().insert(c)) by {
        assert forall|d: Seq<char>| names.push(c).to_set().contains(d) <==> names.to_set().insert(
            c,
        ).contains(d) by {
            if names.push(c).contains(d) {
                let i = choose|i: int| 0 <= i < names.push(c).len() && names.push(c)[i] == d;
                if i < names.len() {
                    assert(names[i] == d);
                }
            }
            if names.contains(d) {
                let i = choose|i: int| 0 <= i < names.len() && names[i] == d;
                assert(names.push(c)[i] == d);
            }
            if d == c {
                assert(names.push(c)[names.len() as int] == c);
            }
        }
    }
    assert(after.subscribers =~= goal.subscribers);
    assert forall|d: Seq<char>| names.push(c).contains(d) <==> (d == c || names.contains(d)) by {
        assert(names.push(c).to_set().contains(d) <==> names.to_set().insert(c).contains(d));
    }
    assert forall|d: Seq<char>| #[trigger]
        goal.channels.contains_key(d) implies after.channels.contains_key(d)
        && after.channels[d] == goal.channels[d] by {
        if d == c {
            assert(after.channels[d].subscribers =~= goal.channels[d].subscribers);
        }
    }
    assert(after.channels =~= goal.channels);
}

/// After a peer has replaced its subscriptions, it lists exactly the
/// channels it asked for, each of those channels lists it, and no other
/// channel does. What is then put on a channel is forwarded to it exactly
/// where it asked for that channel.
pub proof fn lemma_resubscribed_lists(
    v: BoardState,
    s: SubscriberId,
    names: Seq<Seq<char>>,
    now: u64,
    c: Seq<char>,
)
    ensures
        peer_lists(resubscribed(v, s, names, now), s, c) <==> names.contains(c),
        channel_lists(resubscribed(v, s, names, now), c, s) <==> names.contains(c),
        with_channel(resubscribed(v, s, names, now), c).channels[c].subscribers.contains(s)
            <==> names.contains(c),
{
}

/// A fan-out holds exactly as many datagrams as there are peers to reach,
/// and none for any other peer.
pub proof fn lemma_fan_out_count(
    out: Seq<DeliveryView>,
    to: Set<SubscriberId>,
    key: Seq<u32>,
    ctr: u64,
    contents: Seq<u8>,
)
    requires
        fans_out(out, to, key, ctr, contents),
    ensures
        to.finite(),
        to.len() == out.len(),
        forall|s: SubscriberId|
            !to.contains(s) ==> forall|i: int| 0 <= i < out.len() ==> (#[trigger] out[i]).to != s,
{
    let peers = out.map_values(|d: DeliveryView| d.to);
    assert forall|i: int, j: int| 0 <= i < peers.len() && 0 <= j < peers.len() && i
        != j implies peers[i] != peers[j] by {
        if i < j {
            assert(out[i].to.before(out[j].to));
        } else {
            assert(out[j].to.before(out[i].to));
        }
    }
    assert forall|s: SubscriberId| peers.to_set().contains(s) <==> to.contains(s) by {
        if peers.contains(s) {
            let i = choose|i: int| 0 <= i < peers.len() && peers[i] == s;
            assert(to.contains(out[i].to));
        }
        if to.contains(s) {
            let i = choose|i: int| 0 <= i < out.len() && #[trigger] out[i].to == s;
            assert(peers[i] == s);
        }
    }
    assert(peers.to_set() =~= to);
    peers.unique_seq_to_set();
}

} // verus!
