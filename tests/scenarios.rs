use kvcache::server::Session;
use kvcache::store::Store;

fn run(session: &mut Session, store: &mut Store, input: &[u8], now: u64) -> Vec<Vec<u8>> {
    session.feed(store, input.to_vec(), now)
}

#[test]
fn ping_frame_answers_pong() {
    let mut store = Store::new();
    let mut s = Session::new();
    let out = run(&mut s, &mut store, b"*1\r\n$4\r\nPING\r\n", 0);
    assert_eq!(out, vec![b"+PONG\r\n".to_vec()]);
    assert_eq!(s.pending_len(), 0);
}

#[test]
fn echo_frame_answers_its_argument() {
    let mut store = Store::new();
    let mut s = Session::new();
    let out = run(&mut s, &mut store, b"*2\r\n$4\r\nECHO\r\n$5\r\nhello\r\n", 0);
    assert_eq!(out, vec![b"+hello\r\n".to_vec()]);
}

#[test]
fn set_then_get_answers_value() {
    let mut store = Store::new();
    let mut s = Session::new();
    let out = run(&mut s, &mut store, b"*3\r\n$3\r\nSET\r\n$3\r\nfoo\r\n$3\r\nbar\r\n", 5);
    assert_eq!(out, vec![b"+OK\r\n".to_vec()]);
    let out = run(&mut s, &mut store, b"*2\r\n$3\r\nGET\r\n$3\r\nfoo\r\n", 6);
    assert_eq!(out, vec![b"+bar\r\n".to_vec()]);
}

#[test]
fn set_with_px_expires_after_wait() {
    let mut store = Store::new();
    let mut s = Session::new();
    let out = run(
        &mut s,
        &mut store,
        b"*5\r\n$3\r\nSET\r\n$3\r\nfoo\r\n$3\r\nbar\r\n$2\r\nPX\r\n$2\r\n10\r\n",
        100,
    );
    assert_eq!(out, vec![b"+OK\r\n".to_vec()]);
    let out = run(&mut s, &mut store, b"*2\r\n$3\r\nGET\r\n$3\r\nfoo\r\n", 120);
    assert_eq!(out, vec![b"$-1\r\n".to_vec()]);
}

#[test]
fn pipelined_ping_and_echo_answer_in_order() {
    let mut store = Store::new();
    let mut s = Session::new();
    let out = run(
        &mut s,
        &mut store,
        b"*1\r\n$4\r\nPING\r\n*2\r\n$4\r\nECHO\r\n$5\r\nworld\r\n",
        0,
    );
    assert_eq!(out, vec![b"+PONG\r\n".to_vec(), b"+world\r\n".to_vec()]);
    assert_eq!(out.concat(), b"+PONG\r\n+world\r\n".to_vec());
}

#[test]
fn set_without_expiry_reads_back_many_times() {
    let mut store = Store::new();
    let mut s = Session::new();
    run(&mut s, &mut store, b"*3\r\n$3\r\nSET\r\n$1\r\nk\r\n$1\r\nv\r\n", 0);
    for t in [0u64, 1, 1_000, u64::MAX] {
        let out = run(&mut s, &mut store, b"*2\r\n$3\r\nGET\r\n$1\r\nk\r\n", t);
        assert_eq!(out, vec![b"+v\r\n".to_vec()]);
    }
    run(&mut s, &mut store, b"*3\r\n$3\r\nSET\r\n$1\r\nk\r\n$1\r\nw\r\n", 2);
    let out = run(&mut s, &mut store, b"*2\r\n$3\r\nGET\r\n$1\r\nk\r\n", 3);
    assert_eq!(out, vec![b"+w\r\n".to_vec()]);
}

#[test]
fn ttl_entry_live_then_expired_then_removed() {
    let mut store = Store::new();
    let mut s = Session::new();
    run(&mut s, &mut store, b"*5\r\n$3\r\nSET\r\n$1\r\nk\r\n$1\r\nv\r\n$2\r\npx\r\n$3\r\n100\r\n", 1000);
    let get = b"*2\r\n$3\r\nGET\r\n$1\r\nk\r\n";
    assert_eq!(run(&mut s, &mut store, get, 1000), vec![b"+v\r\n".to_vec()]);
    assert_eq!(run(&mut s, &mut store, get, 1099), vec![b"+v\r\n".to_vec()]);
    assert!(store.get(&b"k".to_vec()).is_some());
    // the entry is gone once now >= insert time + ttl
    assert_eq!(run(&mut s, &mut store, get, 1100), vec![b"$-1\r\n".to_vec()]);
    assert!(store.get(&b"k".to_vec()).is_none());
    assert_eq!(run(&mut s, &mut store, get, 1101), vec![b"$-1\r\n".to_vec()]);
}

#[test]
fn ping_ignores_arguments() {
    let mut store = Store::new();
    let mut s = Session::new();
    let out = run(&mut s, &mut store, b"*3\r\n$4\r\nping\r\n$1\r\na\r\n$1\r\nb\r\n", 0);
    assert_eq!(out, vec![b"+PONG\r\n".to_vec()]);
}

#[test]
fn echo_keeps_embedded_spaces() {
    let mut store = Store::new();
    let mut s = Session::new();
    let out = run(&mut s, &mut store, b"*2\r\n$4\r\nEcHo\r\n$11\r\nhello world\r\n", 0);
    assert_eq!(out, vec![b"+hello world\r\n".to_vec()]);
}

#[test]
fn get_of_unset_key_answers_not_found() {
    let mut store = Store::new();
    let mut s = Session::new();
    let out = run(&mut s, &mut store, b"*2\r\n$3\r\nGET\r\n$7\r\nmissing\r\n", 0);
    assert_eq!(out, vec![b"$-1\r\n".to_vec()]);
}

#[test]
fn frame_split_across_reads_is_carried_over() {
    let mut store = Store::new();
    let mut s = Session::new();
    let out = run(&mut s, &mut store, b"*2\r\n$4\r\nECHO\r\n$5\r\nhel", 0);
    assert!(out.is_empty());
    assert_eq!(s.pending_len(), 21);
    let out = run(&mut s, &mut store, b"lo\r\n*1\r\nPI", 0);
    assert_eq!(out, vec![b"+hello\r\n".to_vec()]);
    assert_eq!(s.pending_len(), 6);
    let out = run(&mut s, &mut store, b"NG\r\n", 0);
    assert_eq!(out, vec![b"+PONG\r\n".to_vec()]);
    assert_eq!(s.pending_len(), 0);
}

#[test]
fn unknown_and_incomplete_commands_get_no_reply() {
    let mut store = Store::new();
    let mut s = Session::new();
    let out = run(
        &mut s,
        &mut store,
        b"*2\r\n$4\r\nINCR\r\n$1\r\nx\r\n*2\r\n$3\r\nSET\r\n$1\r\nx\r\n*1\r\n$4\r\nECHO\r\n*1\r\nGET\r\n*1\r\nPING\r\n",
        0,
    );
    assert_eq!(out, vec![b"+PONG\r\n".to_vec()]);
    assert!(store.get(&b"x".to_vec()).is_none());
}
