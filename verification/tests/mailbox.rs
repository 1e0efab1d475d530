use actionkv::mailbox::{fetch_ids, CubeSat, GroundStation, Mailbox, Message};

#[test]
fn fetch_ids_are_one_two_three() {
    assert_eq!(fetch_ids(), vec![1, 2, 3]);
}

#[test]
fn deliver_takes_the_oldest_message_for_the_recipient() {
    let base = GroundStation;
    let mut mailbox = Mailbox::new();
    for id in fetch_ids() {
        base.send(&mut mailbox, Message { to: id, content: String::from("hi!") });
    }
    base.send(&mut mailbox, Message { to: 1, content: String::from("extra") });
    assert_eq!(mailbox.messages.len(), 4);

    let two = base.connect(2);
    assert_eq!(two.id, 2);
    let msg = two.recv(&mut mailbox).unwrap();
    assert_eq!((msg.to, msg.content.as_str()), (2, "hi!"));
    assert!(two.recv(&mut mailbox).is_none());
    let left: Vec<u64> = mailbox.messages.iter().map(|m| m.to).collect();
    assert_eq!(left, vec![1, 3, 1]);

    let one = CubeSat { id: 1 };
    assert_eq!(mailbox.deliver(&one).unwrap().content, "hi!");
    assert_eq!(mailbox.deliver(&one).unwrap().content, "extra");
    assert!(mailbox.deliver(&one).is_none());
    assert_eq!(mailbox.messages.len(), 1);
    assert_eq!(mailbox.messages[0].to, 3);
}

#[test]
fn deliver_from_an_empty_mailbox_is_none() {
    let mut mailbox = Mailbox::new();
    assert!(mailbox.deliver(&CubeSat { id: 7 }).is_none());
    mailbox.post(Message { to: 8, content: String::new() });
    assert!(mailbox.deliver(&CubeSat { id: 7 }).is_none());
    assert_eq!(mailbox.messages.len(), 1);
}
