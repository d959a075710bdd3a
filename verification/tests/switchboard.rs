use discipline_net::hexdump::hex_dump;
use discipline_net::proto::{ChannelId, Control, Message, SubscriberId};
use discipline_net::switchboard::{Action, Channel, Delivery, Event, Subscriber, Switchboard};
use discipline_net::transform::{BlockTransform, Transformer};

const RELAY_KEY: [u32; 4] = [0x12931133, 0x94813456, 0x19293456, 0x9911aacc];

const A: SubscriberId = SubscriberId { addr: 0x0a00_0001, port: 5000 };
const B: SubscriberId = SubscriberId { addr: 0x0a00_0002, port: 4000 };
const C: SubscriberId = SubscriberId { addr: 0x0a00_0003, port: 3000 };

fn chan(name: &str) -> ChannelId {
    ChannelId::new(name)
}

fn message(n: usize) -> Message {
    Message {
        source: format!("source-{}", n),
        timestamp: (n as f64).to_bits(),
        contents: format!("message number {}", n).into_bytes(),
    }
}

fn subscriptions(names: &[&str]) -> Control {
    Control::Subscriptions { channels: names.iter().map(|n| chan(n)).collect() }
}

fn transmit(name: &str, n: usize) -> Control {
    Control::Transmit { channel: chan(name), message: message(n) }
}

fn ask(board: &mut Switchboard, from: SubscriberId, ctrl: Control, now: u64) -> Vec<Delivery> {
    match board.process(from, ctrl, now) {
        Action::Send { out } => out,
        other => panic!("unexpected {:?}", other),
    }
}

fn unseal(datagram: &[u8]) -> Option<Vec<u8>> {
    let mut xfo = BlockTransform::new(RELAY_KEY, 0);
    let mut buf = vec![0_u8; datagram.len()];
    let n = xfo.decode(datagram, &mut buf)?;
    buf.truncate(n);
    Some(buf)
}

fn counter_of(datagram: &[u8]) -> u64 {
    let mut a = [0_u8; 8];
    a.copy_from_slice(&datagram[0..8]);
    u64::from_le_bytes(a) >> 3
}

fn receivers(out: &[Delivery]) -> Vec<SubscriberId> {
    out.iter().map(|d| d.to).collect()
}

fn names(channels: Option<Vec<ChannelId>>) -> Option<Vec<String>> {
    channels.map(|cs| {
        let mut v: Vec<String> = cs.iter().map(|c| c.as_str().to_string()).collect();
        v.sort();
        v
    })
}

#[test]
fn a_new_switchboard_is_empty() {
    let board = Switchboard::new(1);
    assert!(board.backlog(&chan("x")).is_none());
    assert!(board.subscribers(&chan("x")).is_none());
    assert!(board.subscriptions(&A).is_none());
    assert!(board.first_seen(&A).is_none());
}

#[test]
fn subscription_replace() {
    let mut board = Switchboard::new(1);
    assert!(ask(&mut board, A, subscriptions(&["x"]), 10).is_empty());
    assert_eq!(names(board.subscriptions(&A)), Some(vec!["x".to_string()]));
    assert!(ask(&mut board, A, subscriptions(&["y"]), 20).is_empty());
    assert_eq!(names(board.subscriptions(&A)), Some(vec!["y".to_string()]));
    assert_eq!(board.subscribers(&chan("x")), Some(vec![]));
    assert_eq!(board.subscribers(&chan("y")), Some(vec![A]));

    let on_x = ask(&mut board, B, transmit("x", 1), 30);
    assert!(receivers(&on_x).is_empty());
    let on_y = ask(&mut board, B, transmit("y", 2), 40);
    assert_eq!(receivers(&on_y), vec![A]);
    assert_eq!(unseal(&on_y[0].datagram), Some(message(2).contents));
}

#[test]
fn subscriptions_replace_the_whole_set() {
    let mut board = Switchboard::new(1);
    ask(&mut board, A, subscriptions(&["x", "y", "z"]), 1);
    ask(&mut board, B, subscriptions(&["y"]), 2);
    ask(&mut board, A, subscriptions(&["z", "w"]), 3);
    assert_eq!(names(board.subscriptions(&A)), Some(vec!["w".to_string(), "z".to_string()]));
    assert_eq!(board.subscribers(&chan("x")), Some(vec![]));
    assert_eq!(board.subscribers(&chan("y")), Some(vec![B]));
    assert_eq!(board.subscribers(&chan("z")), Some(vec![A]));
    assert_eq!(board.subscribers(&chan("w")), Some(vec![A]));
    assert_eq!(names(board.subscriptions(&B)), Some(vec!["y".to_string()]));
}

#[test]
fn a_channel_listed_twice_counts_once() {
    let mut board = Switchboard::new(1);
    ask(&mut board, A, subscriptions(&["x", "x", "y", "x"]), 1);
    assert_eq!(names(board.subscriptions(&A)), Some(vec!["x".to_string(), "y".to_string()]));
    assert_eq!(board.subscribers(&chan("x")), Some(vec![A]));
    let out = ask(&mut board, B, transmit("x", 1), 2);
    assert_eq!(receivers(&out), vec![A]);
}

#[test]
fn subscribing_to_nothing_keeps_the_record_and_the_channels() {
    let mut board = Switchboard::new(1);
    ask(&mut board, A, subscriptions(&["x"]), 5);
    ask(&mut board, B, transmit("x", 1), 6);
    ask(&mut board, A, subscriptions(&[]), 7);
    assert_eq!(names(board.subscriptions(&A)), Some(vec![]));
    assert_eq!(board.first_seen(&A), Some(5));
    assert_eq!(board.subscribers(&chan("x")), Some(vec![]));
    assert_eq!(board.backlog(&chan("x")).map(|b| b.len()), Some(1));
}

#[test]
fn a_record_keeps_the_time_it_was_made() {
    let mut board = Switchboard::new(1);
    ask(&mut board, A, subscriptions(&["x"]), 100);
    ask(&mut board, A, subscriptions(&["y"]), 200);
    assert_eq!(board.first_seen(&A), Some(100));
    board.subscriber_mut(&B, 300);
    board.subscriber_mut(&B, 400);
    assert_eq!(board.first_seen(&B), Some(300));
    assert_eq!(names(board.subscriptions(&B)), Some(vec![]));
}

#[test]
fn transmit_makes_a_record_for_a_new_sender() {
    let mut board = Switchboard::new(1);
    ask(&mut board, A, subscriptions(&["x"]), 1);
    assert!(board.subscriptions(&C).is_none());
    let out = ask(&mut board, C, transmit("x", 1), 9);
    assert_eq!(receivers(&out), vec![A]);
    assert_eq!(names(board.subscriptions(&C)), Some(vec![]));
    assert_eq!(board.first_seen(&C), Some(9));
    assert_eq!(board.subscribers(&chan("x")), Some(vec![A]));
    assert_eq!(board.backlog(&chan("x")).map(|b| b.len()), Some(1));
}

#[test]
fn transmit_on_a_new_channel_makes_channel_and_record() {
    let mut board = Switchboard::new(1);
    let out = ask(&mut board, C, transmit("x", 1), 4);
    assert!(out.is_empty());
    assert_eq!(names(board.subscriptions(&C)), Some(vec![]));
    assert_eq!(board.first_seen(&C), Some(4));
    assert_eq!(board.subscribers(&chan("x")), Some(vec![]));
    assert_eq!(board.backlog(&chan("x")).map(|b| b.len()), Some(1));
}

#[test]
fn transmit_keeps_the_record_of_a_known_sender() {
    let mut board = Switchboard::new(1);
    ask(&mut board, A, subscriptions(&["x", "y"]), 5);
    ask(&mut board, A, transmit("z", 1), 50);
    assert_eq!(board.first_seen(&A), Some(5));
    assert_eq!(names(board.subscriptions(&A)), Some(vec!["x".to_string(), "y".to_string()]));
    ask(&mut board, B, transmit("z", 2), 60);
    ask(&mut board, B, subscriptions(&["z"]), 70);
    assert_eq!(board.first_seen(&B), Some(60));
    assert_eq!(names(board.subscriptions(&B)), Some(vec!["z".to_string()]));
}

#[test]
fn a_complaint_makes_no_record() {
    let mut board = Switchboard::new(1);
    match board.process(C, Control::Error { msg: "bad".to_string() }, 3) {
        Action::Complaint { from, msg } => {
            assert_eq!(from, C);
            assert_eq!(msg, "bad");
        }
        other => panic!("unexpected {:?}", other),
    }
    assert!(board.subscriptions(&C).is_none());
    assert!(board.first_seen(&C).is_none());
}

#[test]
fn backlog_bound() {
    let mut board = Switchboard::new(1);
    for n in 0..130 {
        assert!(ask(&mut board, A, transmit("x", n), n as u64).is_empty());
    }
    let kept = board.backlog(&chan("x")).expect("the channel exists");
    assert_eq!(kept.len(), 128);
    for (i, m) in kept.iter().enumerate() {
        let want = message(i + 2);
        assert_eq!(m.source, want.source);
        assert_eq!(m.timestamp, want.timestamp);
        assert_eq!(m.contents, want.contents);
    }
}

#[test]
fn backlog_below_the_bound_keeps_everything() {
    let mut board = Switchboard::new(1);
    for n in 0..128 {
        ask(&mut board, A, transmit("x", n), 0);
    }
    let kept = board.backlog(&chan("x")).expect("the channel exists");
    assert_eq!(kept.len(), 128);
    assert_eq!(kept[0].contents, message(0).contents);
    assert_eq!(kept[127].contents, message(127).contents);
    ask(&mut board, A, transmit("x", 128), 0);
    let kept = board.backlog(&chan("x")).expect("the channel exists");
    assert_eq!(kept.len(), 128);
    assert_eq!(kept[0].contents, message(1).contents);
    assert_eq!(kept[127].contents, message(128).contents);
}

#[test]
fn channel_add_drops_the_oldest_first() {
    let mut c = Channel::new();
    assert!(c.messages().is_empty());
    assert!(c.members().is_empty());
    for n in 0..200 {
        c.add(message(n));
        let kept = c.messages();
        assert_eq!(kept.len(), std::cmp::min(n + 1, 128));
        assert_eq!(kept[kept.len() - 1].contents, message(n).contents);
        assert_eq!(kept[0].contents, message((n + 1).saturating_sub(128)).contents);
    }
}

#[test]
fn backlogs_are_per_channel() {
    let mut board = Switchboard::new(1);
    ask(&mut board, A, transmit("x", 1), 0);
    ask(&mut board, A, transmit("y", 2), 0);
    ask(&mut board, A, transmit("x", 3), 0);
    let x = board.backlog(&chan("x")).expect("the channel exists");
    let y = board.backlog(&chan("y")).expect("the channel exists");
    assert_eq!(x.len(), 2);
    assert_eq!(y.len(), 1);
    assert_eq!(x[1].contents, message(3).contents);
    assert_eq!(y[0].contents, message(2).contents);
}

#[test]
fn fan_out() {
    let mut board = Switchboard::new(0x1234);
    ask(&mut board, B, subscriptions(&["x"]), 1);
    ask(&mut board, A, subscriptions(&["x"]), 2);
    ask(&mut board, C, subscriptions(&["z"]), 3);
    let out = ask(&mut board, C, transmit("x", 7), 4);
    assert_eq!(out.len(), 2);
    assert_eq!(receivers(&out), vec![A, B]);
    for d in out.iter() {
        assert_ne!(d.to, C);
        assert_ne!(d.datagram, message(7).contents);
        assert_eq!(d.datagram.len(), 32);
        assert_eq!(unseal(&d.datagram), Some(message(7).contents));
    }
    assert_eq!(counter_of(&out[0].datagram), 0x1234);
    assert_eq!(counter_of(&out[1].datagram), 0x1236);
    assert_ne!(out[0].datagram, out[1].datagram);
}

#[test]
fn fan_out_reaches_a_sender_that_is_subscribed() {
    let mut board = Switchboard::new(9);
    ask(&mut board, A, subscriptions(&["x"]), 1);
    let out = ask(&mut board, A, transmit("x", 1), 2);
    assert_eq!(receivers(&out), vec![A]);
}

#[test]
fn fan_out_goes_in_order_of_address_then_port() {
    let mut board = Switchboard::new(9);
    let peers = [
        SubscriberId { addr: 2, port: 1 },
        SubscriberId { addr: 1, port: 65535 },
        SubscriberId { addr: 1, port: 2 },
        SubscriberId { addr: u32::MAX, port: 0 },
        SubscriberId { addr: 0, port: 0 },
    ];
    for p in peers.iter() {
        ask(&mut board, *p, subscriptions(&["x"]), 1);
    }
    let out = ask(&mut board, A, transmit("x", 1), 2);
    let mut want = peers.to_vec();
    want.sort();
    assert_eq!(receivers(&out), want);
    assert_eq!(board.subscribers(&chan("x")), Some(want));
}

#[test]
fn successive_transmits_never_share_a_counter() {
    let mut board = Switchboard::new(500);
    ask(&mut board, A, subscriptions(&["x"]), 1);
    ask(&mut board, B, subscriptions(&["x"]), 1);
    let first = ask(&mut board, C, transmit("x", 1), 2);
    let second = ask(&mut board, C, transmit("x", 2), 3);
    let seen: Vec<u64> =
        first.iter().chain(second.iter()).map(|d| counter_of(&d.datagram)).collect();
    assert_eq!(seen, vec![500, 502, 504, 506]);
}

#[test]
fn empty_contents_go_out_as_sixteen_bytes() {
    let mut board = Switchboard::new(3);
    ask(&mut board, A, subscriptions(&["x"]), 1);
    let m = Message { source: String::new(), timestamp: 0, contents: vec![] };
    let out = ask(&mut board, B, Control::Transmit { channel: chan("x"), message: m }, 2);
    assert_eq!(out.len(), 1);
    assert_eq!(out[0].datagram.len(), 16);
}

#[test]
fn an_error_changes_nothing_and_comes_back_to_be_logged() {
    let mut board = Switchboard::new(3);
    ask(&mut board, A, subscriptions(&["x"]), 1);
    ask(&mut board, B, transmit("x", 1), 2);
    for from in [A, C] {
        match board.process(from, Control::Error { msg: "bad".to_string() }, 3) {
            Action::Complaint { from: f, msg } => {
                assert_eq!(f, from);
                assert_eq!(msg, "bad");
            }
            other => panic!("unexpected {:?}", other),
        }
    }
    assert!(board.subscriptions(&C).is_none());
    assert_eq!(names(board.subscriptions(&A)), Some(vec!["x".to_string()]));
    assert_eq!(board.backlog(&chan("x")).map(|b| b.len()), Some(1));
    let next = ask(&mut board, B, transmit("x", 2), 4);
    assert_eq!(counter_of(&next[0].datagram), 3 + 2);
}

#[test]
fn subscribe_and_unsubscribe_one_channel_at_a_time() {
    let mut board = Switchboard::new(3);
    board.subscribe(&chan("x"), &A, 1);
    board.subscribe(&chan("y"), &A, 2);
    board.subscribe(&chan("x"), &B, 3);
    board.subscribe(&chan("x"), &A, 4);
    assert_eq!(names(board.subscriptions(&A)), Some(vec!["x".to_string(), "y".to_string()]));
    assert_eq!(board.subscribers(&chan("x")), Some(vec![A, B]));
    board.unsubscribe(&chan("x"), &A, 5);
    assert_eq!(names(board.subscriptions(&A)), Some(vec!["y".to_string()]));
    assert_eq!(board.subscribers(&chan("x")), Some(vec![B]));
    board.unsubscribe(&chan("x"), &A, 6);
    assert_eq!(board.subscribers(&chan("x")), Some(vec![B]));
}

#[test]
fn unsubscribe_makes_the_records_it_does_not_find() {
    let mut board = Switchboard::new(3);
    board.unsubscribe(&chan("x"), &A, 7);
    assert_eq!(board.subscribers(&chan("x")), Some(vec![]));
    assert_eq!(names(board.subscriptions(&A)), Some(vec![]));
    assert_eq!(board.first_seen(&A), Some(7));
}

#[test]
fn channel_mut_makes_a_channel_once() {
    let mut board = Switchboard::new(3);
    let x = board.channel_mut(&chan("x"));
    let y = board.channel_mut(&chan("y"));
    assert_ne!(x, y);
    assert_eq!(board.channel_mut(&chan("x")), x);
    assert_eq!(board.channel_mut(&chan("y")), y);
    assert_eq!(board.backlog(&chan("x")).map(|b| b.len()), Some(0));
}

#[test]
fn a_fresh_subscriber_and_a_fresh_channel() {
    let _record = Subscriber::new(42);
    let c = Channel::new();
    assert!(c.messages().is_empty());
    assert!(c.members().is_empty());
}

#[test]
fn can_send_accepts_what_fits() {
    assert!(Switchboard::can_send(&subscriptions(&["x"])));
    assert!(Switchboard::can_send(&transmit("x", 1)));
    assert!(Switchboard::can_send(&Control::Error { msg: String::new() }));
}

#[test]
fn run_hands_back_the_plaintext_of_an_accepted_datagram() {
    let mut board = Switchboard::new(3);
    let mut peer = BlockTransform::new(RELAY_KEY, 0x77);
    let mut frame = vec![0_u8; 64];
    let n = peer.encode(b"Hello, World!", &mut frame).expect("encode always succeeds");
    frame.truncate(n);
    match board.run(Event::Datagram { from: A, bytes: frame }) {
        Action::Parse { from, plaintext } => {
            assert_eq!(from, A);
            assert_eq!(plaintext, b"Hello, World!".to_vec());
        }
        other => panic!("unexpected {:?}", other),
    }
}

#[test]
fn run_dumps_a_rejected_datagram() {
    let mut board = Switchboard::new(3);
    let mut peer = BlockTransform::new(RELAY_KEY, 0x77);
    let mut frame = vec![0_u8; 64];
    let n = peer.encode(b"Hello, World!", &mut frame).expect("encode always succeeds");
    frame.truncate(n);
    frame[20] ^= 1;
    let cases = vec![frame, vec![], vec![1, 2, 3], vec![0; 23], vec![0; 24], vec![0xff; 40]];
    for bytes in cases {
        match board.run(Event::Datagram { from: A, bytes: bytes.clone() }) {
            Action::Reject { dump } => assert_eq!(dump, hex_dump(&bytes)),
            other => panic!("unexpected {:?}", other),
        }
    }
    assert!(board.subscriptions(&A).is_none());
}

#[test]
fn run_carries_out_a_request() {
    let mut board = Switchboard::new(3);
    match board.run(Event::Request { from: A, ctrl: subscriptions(&["x"]), now: 1 }) {
        Action::Send { out } => assert!(out.is_empty()),
        other => panic!("unexpected {:?}", other),
    }
    match board.run(Event::Request { from: B, ctrl: transmit("x", 5), now: 2 }) {
        Action::Send { out } => {
            assert_eq!(receivers(&out), vec![A]);
            assert_eq!(unseal(&out[0].datagram), Some(message(5).contents));
        }
        other => panic!("unexpected {:?}", other),
    }
}

#[test]
fn run_hands_back_a_complaint() {
    let mut board = Switchboard::new(3);
    let complaint = Control::Error { msg: "oops".to_string() };
    match board.run(Event::Request { from: C, ctrl: complaint, now: 1 }) {
        Action::Complaint { from, msg } => {
            assert_eq!(from, C);
            assert_eq!(msg, "oops");
        }
        other => panic!("unexpected {:?}", other),
    }
    assert!(board.subscriptions(&C).is_none());
}

#[test]
fn run_makes_a_record_for_the_sender_of_a_first_transmit() {
    let mut board = Switchboard::new(3);
    ask(&mut board, A, subscriptions(&["x"]), 1);
    match board.run(Event::Request { from: C, ctrl: transmit("x", 5), now: 8 }) {
        Action::Send { out } => assert_eq!(receivers(&out), vec![A]),
        other => panic!("unexpected {:?}", other),
    }
    assert_eq!(names(board.subscriptions(&C)), Some(vec![]));
    assert_eq!(board.first_seen(&C), Some(8));
    assert_eq!(board.subscribers(&chan("x")), Some(vec![A]));
}
