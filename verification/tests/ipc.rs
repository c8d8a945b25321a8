use metaros::ipc::IPC;

#[test]
fn test_ipc() {
    let mut ipc = IPC::new();

    ipc.send_message(1, 2, "Hello".to_string());
    ipc.send_message(3, 2, "World".to_string());

    let msg1 = ipc.receive_message(2).unwrap();
    assert_eq!(msg1.sender, 1);
    assert_eq!(msg1.content, "Hello");

    let msg2 = ipc.receive_message(2).unwrap();
    assert_eq!(msg2.sender, 3);
    assert_eq!(msg2.content, "World");

    assert!(ipc.receive_message(2).is_none());
}

#[test]
fn test_mailbox_fifo_three_messages() {
    let mut ipc = IPC::new();
    ipc.send_message(9, 7, "A".to_string());
    ipc.send_message(9, 7, "B".to_string());
    ipc.send_message(9, 7, "C".to_string());
    assert_eq!(ipc.receive_message(7).unwrap().content, "A");
    assert_eq!(ipc.receive_message(7).unwrap().content, "B");
    assert_eq!(ipc.receive_message(7).unwrap().content, "C");
    assert!(ipc.receive_message(7).is_none());
}

#[test]
fn test_receive_unknown_mailbox() {
    let mut ipc = IPC::new();
    assert!(ipc.receive_message(42).is_none());
}

#[test]
fn test_mailboxes_are_independent() {
    let mut ipc = IPC::new();
    ipc.send_message(1, 10, "ten".to_string());
    ipc.send_message(1, 20, "twenty".to_string());
    assert_eq!(ipc.receive_message(20).unwrap().content, "twenty");
    assert_eq!(ipc.receive_message(10).unwrap().content, "ten");
    assert!(ipc.receive_message(10).is_none());
    assert!(ipc.receive_message(20).is_none());
}
