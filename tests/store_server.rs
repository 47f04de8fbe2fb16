use kvcache::codec::{Command, ReservedKeys};
use kvcache::command::{execute, make_simple_reply, CommandError};
use kvcache::server::{Action, ReadEvent, Server};
use kvcache::store::{bytes_eq, Store, ValueWithExpiry};

fn cmd(keyword: ReservedKeys, args: &[&[u8]]) -> Command {
    Command { keyword, args: args.iter().map(|w| w.to_vec()).collect() }
}

fn entry(value: &[u8], expiry: Option<u64>, insert_time: u64) -> ValueWithExpiry {
    ValueWithExpiry { value: value.to_vec(), expiry, insert_time }
}

#[test]
fn store_set_get_remove() {
    let mut store = Store::new();
    let k = b"a".to_vec();
    assert!(store.get(&k).is_none());
    store.set(k.clone(), entry(b"1", None, 0));
    store.set(b"b".to_vec(), entry(b"2", Some(5), 3));
    assert_eq!(store.get(&k).unwrap().value, b"1".to_vec());
    store.set(k.clone(), entry(b"3", None, 4));
    assert_eq!(store.get(&k).unwrap().value, b"3".to_vec());
    assert_eq!(store.get(&b"b".to_vec()).unwrap().expiry, Some(5));
    store.remove(&k);
    assert!(store.get(&k).is_none());
    assert!(store.get(&b"b".to_vec()).is_some());
    store.remove(&k);
    assert!(store.get(&b"b".to_vec()).is_some());
}

#[test]
fn expiry_boundary() {
    let e = entry(b"v", Some(10), 100);
    assert!(!e.has_expired(109));
    assert!(e.has_expired(110));
    assert!(e.has_expired(u64::MAX));
    assert!(!e.has_expired(50));
    let z = entry(b"v", Some(0), 100);
    assert!(z.has_expired(100));
    let never = entry(b"v", None, 0);
    assert!(!never.has_expired(u64::MAX));
    let far = entry(b"v", Some(u64::MAX), u64::MAX);
    assert!(!far.has_expired(u64::MAX));
}

#[test]
fn bytes_eq_compares_contents() {
    assert!(bytes_eq(&b"ab".to_vec(), &b"ab".to_vec()));
    assert!(!bytes_eq(&b"ab".to_vec(), &b"ac".to_vec()));
    assert!(!bytes_eq(&b"ab".to_vec(), &b"a".to_vec()));
    assert!(bytes_eq(&Vec::new(), &Vec::new()));
}

#[test]
fn simple_reply_frames_text() {
    assert_eq!(make_simple_reply(&b"hi there".to_vec()), b"+hi there\r\n".to_vec());
    assert_eq!(make_simple_reply(&Vec::new()), b"+\r\n".to_vec());
}

#[test]
fn missing_arguments_are_errors() {
    let mut store = Store::new();
    assert_eq!(execute(&mut store, &cmd(ReservedKeys::ECHO, &[]), 0), Err(CommandError::MissingArgument));
    assert_eq!(execute(&mut store, &cmd(ReservedKeys::GET, &[]), 0), Err(CommandError::MissingArgument));
    assert_eq!(
        execute(&mut store, &cmd(ReservedKeys::SET, &[b"k"]), 0),
        Err(CommandError::MissingArgument)
    );
    assert!(store.get(&b"k".to_vec()).is_none());
    assert_eq!(execute(&mut store, &cmd(ReservedKeys::UNKNOWN, &[b"k"]), 0), Ok(None));
}

#[test]
fn set_expiry_option_parsing() {
    let mut store = Store::new();
    let r = execute(&mut store, &cmd(ReservedKeys::SET, &[b"k", b"v", b"Px", b"250"]), 7);
    assert_eq!(r, Ok(Some(b"+OK\r\n".to_vec())));
    let e = store.get(&b"k".to_vec()).unwrap();
    assert_eq!(e.expiry, Some(250));
    assert_eq!(e.insert_time, 7);
    // an option that does not match leaves the entry without expiry
    execute(&mut store, &cmd(ReservedKeys::SET, &[b"k", b"v", b"PX", b"soon"]), 8);
    assert_eq!(store.get(&b"k".to_vec()).unwrap().expiry, None);
    execute(&mut store, &cmd(ReservedKeys::SET, &[b"k", b"v", b"EX", b"5"]), 8);
    assert_eq!(store.get(&b"k".to_vec()).unwrap().expiry, None);
    execute(&mut store, &cmd(ReservedKeys::SET, &[b"k", b"v", b"PX"]), 8);
    assert_eq!(store.get(&b"k".to_vec()).unwrap().expiry, None);
}

#[test]
fn get_answers_value_then_not_found_after_expiry() {
    let mut store = Store::new();
    execute(&mut store, &cmd(ReservedKeys::SET, &[b"k", b"val", b"PX", b"0"]), 5);
    assert_eq!(
        execute(&mut store, &cmd(ReservedKeys::GET, &[b"k"]), 5),
        Ok(Some(b"$-1\r\n".to_vec()))
    );
    execute(&mut store, &cmd(ReservedKeys::SET, &[b"k", b"val", b"PX", b"1"]), 5);
    assert_eq!(
        execute(&mut store, &cmd(ReservedKeys::GET, &[b"k"]), 5),
        Ok(Some(b"+val\r\n".to_vec()))
    );
}

#[test]
fn server_routes_reads_and_disconnects() {
    let mut server = Server::new();
    let a = server.connect();
    let b = server.connect();
    assert_eq!((a, b), (0, 1));
    let set = b"*3\r\n$3\r\nSET\r\n$1\r\nk\r\n$1\r\nv\r\n*2\r\n$4\r\nECHO\r\n".to_vec();
    match server.on_read(a, ReadEvent::Data(set), 0) {
        Action::Reply(out) => assert_eq!(out, vec![b"+OK\r\n".to_vec()]),
        _ => panic!("expected replies"),
    }
    assert!(matches!(server.on_read(b, ReadEvent::NoData, 0), Action::Idle));
    assert!(matches!(server.on_read(a, ReadEvent::Closed, 0), Action::Disconnect));
    server.disconnect(a);
    assert_eq!(server.connections(), 1);
    assert!(server.store().get(&b"k".to_vec()).is_some());
    match server.on_read(0, ReadEvent::Data(b"*2\r\n$3\r\nGET\r\n$1\r\nk\r\n".to_vec()), 1) {
        Action::Reply(out) => assert_eq!(out, vec![b"+v\r\n".to_vec()]),
        _ => panic!("expected replies"),
    }
}
