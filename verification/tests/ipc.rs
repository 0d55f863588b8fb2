use najm_kernel::ipc::{
    close, close_all_for, connect, create, recv, report, send, stats, IpcError, Ports, MAX_MESSAGE,
    MAX_PORTS, QUEUE_DEPTH,
};

#[test]
fn messages_arrive_in_the_order_they_were_sent() {
    let mut ports = Ports::new();
    let handle = create(&mut ports, 1, b"najm.echo").unwrap();
    assert_eq!(connect(&ports, b"najm.echo"), Ok(handle));
    assert_eq!(send(&mut ports, 2, handle, b"one".to_vec()), Ok(3));
    assert_eq!(send(&mut ports, 3, handle, b"three".to_vec()), Ok(5));
    let first = recv(&mut ports, 1, handle).unwrap();
    assert_eq!((first.from, first.bytes), (2, b"one".to_vec()));
    let second = recv(&mut ports, 1, handle).unwrap();
    assert_eq!((second.from, second.bytes), (3, b"three".to_vec()));
    assert_eq!(recv(&mut ports, 1, handle).unwrap_err(), IpcError::WouldBlock);
}

#[test]
fn only_the_owner_receives_or_closes() {
    let mut ports = Ports::new();
    let handle = create(&mut ports, 1, b"svc").unwrap();
    send(&mut ports, 2, handle, b"x".to_vec()).unwrap();
    assert_eq!(recv(&mut ports, 2, handle).unwrap_err(), IpcError::BadHandle);
    assert_eq!(close(&mut ports, 2, handle), Err(IpcError::BadHandle));
    assert_eq!(close(&mut ports, 1, handle), Ok(()));
    assert_eq!(recv(&mut ports, 1, handle).unwrap_err(), IpcError::BadHandle);
    assert_eq!(send(&mut ports, 2, handle, Vec::new()), Err(IpcError::BadHandle));
}

#[test]
fn names_are_checked_and_unique() {
    let mut ports = Ports::new();
    create(&mut ports, 1, b"svc").unwrap();
    assert_eq!(create(&mut ports, 2, b"svc"), Err(IpcError::NameTaken));
    assert_eq!(create(&mut ports, 2, b""), Err(IpcError::BadName));
    assert_eq!(create(&mut ports, 2, &[b'a'; 65]), Err(IpcError::BadName));
    assert_eq!(connect(&ports, b"other"), Err(IpcError::NotFound));
}

#[test]
fn a_full_queue_refuses_and_counts() {
    let mut ports = Ports::new();
    let handle = create(&mut ports, 1, b"svc").unwrap();
    for _ in 0..QUEUE_DEPTH {
        send(&mut ports, 2, handle, b"m".to_vec()).unwrap();
    }
    assert_eq!(send(&mut ports, 2, handle, b"m".to_vec()), Err(IpcError::WouldBlock));
    assert_eq!(stats(&ports), (1, QUEUE_DEPTH, 1));
    assert_eq!(
        send(&mut ports, 2, handle, vec![0; MAX_MESSAGE + 1]),
        Err(IpcError::TooLarge)
    );
    assert_eq!(report(&ports).len(), 1);
}

#[test]
fn exit_closes_every_port_of_a_process_and_frees_the_names() {
    let mut ports = Ports::new();
    create(&mut ports, 1, b"a").unwrap();
    let kept = create(&mut ports, 2, b"b").unwrap();
    create(&mut ports, 1, b"c").unwrap();
    close_all_for(&mut ports, 1);
    assert_eq!(connect(&ports, b"a"), Err(IpcError::NotFound));
    assert_eq!(connect(&ports, b"b"), Ok(kept));
    assert!(create(&mut ports, 3, b"a").is_ok());
}

#[test]
fn ports_run_out() {
    let mut ports = Ports::new();
    for i in 0..MAX_PORTS {
        create(&mut ports, 1, format!("p{}", i).as_bytes()).unwrap();
    }
    assert_eq!(create(&mut ports, 1, b"one.more"), Err(IpcError::Exhausted));
}

#[test]
fn the_totals_follow_every_message() {
    let mut ports = Ports::new();
    let a = create(&mut ports, 1, b"a").unwrap();
    let b = create(&mut ports, 2, b"b").unwrap();
    assert_eq!(stats(&ports), (2, 0, 0));
    send(&mut ports, 3, a, b"1".to_vec()).unwrap();
    for i in 0..QUEUE_DEPTH {
        send(&mut ports, 3, b, b"2".to_vec()).unwrap();
        assert_eq!(stats(&ports), (2, 2 + i, 0));
    }
    assert_eq!(send(&mut ports, 3, b, b"3".to_vec()), Err(IpcError::WouldBlock));
    assert_eq!(stats(&ports), (2, 1 + QUEUE_DEPTH, 1));
    assert_eq!(send(&mut ports, 3, 99, b"4".to_vec()), Err(IpcError::BadHandle));
    assert_eq!(stats(&ports), (2, 1 + QUEUE_DEPTH, 1));
    recv(&mut ports, 2, b).unwrap();
    assert_eq!(stats(&ports), (2, QUEUE_DEPTH, 1));
    assert_eq!(recv(&mut ports, 1, b).unwrap_err(), IpcError::BadHandle);
    assert_eq!(stats(&ports), (2, QUEUE_DEPTH, 1));
    close(&mut ports, 2, b).unwrap();
    assert_eq!(stats(&ports), (1, 1, 0));
}
