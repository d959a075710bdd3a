use discipline_net::envelope::{Entity, Envelope};
use discipline_net::proto::{ChannelId, Control, Message, SubscriberId};

#[test]
fn subscriber_keys_put_the_address_above_the_port() {
    let s = SubscriberId { addr: 0x7f00_0001, port: 9001 };
    assert_eq!(s.to_key(), 0x7f00_0001_2329);
    assert_eq!(SubscriberId::from_key(0x7f00_0001_2329), s);
    let top = SubscriberId { addr: u32::MAX, port: u16::MAX };
    assert_eq!(top.to_key(), 0xffff_ffff_ffff);
    assert_eq!(SubscriberId::from_key(0xffff_ffff_ffff), top);
    assert_eq!(SubscriberId { addr: 0, port: 0 }.to_key(), 0);
}

#[test]
fn subscriber_keys_order_as_the_subscribers_do() {
    let all = [
        SubscriberId { addr: 1, port: 0 },
        SubscriberId { addr: 1, port: 65535 },
        SubscriberId { addr: 2, port: 0 },
        SubscriberId { addr: 2, port: 1 },
        SubscriberId { addr: u32::MAX, port: 7 },
    ];
    for a in all.iter() {
        for b in all.iter() {
            assert_eq!(a < b, a.to_key() < b.to_key());
            assert_eq!(a == b, a.to_key() == b.to_key());
            assert_eq!(SubscriberId::from_key(a.to_key()), *a);
        }
    }
}

#[test]
fn channel_ids_compare_by_name() {
    let x = ChannelId::new("x");
    let y = ChannelId::new("y");
    assert_eq!(x, ChannelId::new("x"));
    assert_ne!(x, y);
    assert_eq!(x.as_str(), "x");
    assert_eq!(x.clone(), x);
    assert!(x < y);
}

#[test]
fn messages_clone_field_by_field() {
    let m = Message {
        source: "kitchen".to_string(),
        timestamp: 1.5_f64.to_bits(),
        contents: vec![1, 2, 3],
    };
    let n = m.clone();
    assert_eq!(n.source, "kitchen");
    assert_eq!(f64::from_bits(n.timestamp), 1.5);
    assert_eq!(n.contents, vec![1, 2, 3]);
}

#[test]
fn control_has_three_kinds() {
    let all = vec![
        Control::Subscriptions { channels: vec![ChannelId::new("x")] },
        Control::Transmit {
            channel: ChannelId::new("x"),
            message: Message { source: String::new(), timestamp: 0, contents: vec![] },
        },
        Control::Error { msg: "no".to_string() },
    ];
    assert!(matches!(all[0], Control::Subscriptions { .. }));
    assert!(matches!(all[1], Control::Transmit { .. }));
    assert!(matches!(all[2], Control::Error { .. }));
}

#[test]
fn envelopes_carry_sender_payload_and_signature() {
    let e = Envelope {
        sender: Entity::Administrator("ann".to_string()),
        payload: 7_u32,
        signature: "sig".to_string(),
    };
    let f = e.clone();
    assert!(matches!(f.sender, Entity::Administrator(ref n) if n == "ann"));
    assert_eq!(f.payload, 7);
    assert_eq!(f.signature, "sig");
    assert!(matches!(Entity::Controller, Entity::Controller));
    assert!(matches!(Entity::Subject("kid".to_string()), Entity::Subject(_)));
}
