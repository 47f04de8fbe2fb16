use kvcache::codec::{keyword_for, matches_ignore_case, parse_message, parse_number, ReservedKeys};

fn words(v: &[&[u8]]) -> Vec<Vec<u8>> {
    v.iter().map(|w| w.to_vec()).collect()
}

#[test]
fn parse_number_reads_decimal_digits() {
    let s = b"*12345\r\n".to_vec();
    assert_eq!(parse_number(&s, 1, 6), Some(12345));
    assert_eq!(parse_number(&s, 1, 2), Some(1));
    assert_eq!(parse_number(&s, 1, 1), None);
    assert_eq!(parse_number(&s, 0, 6), None);
    let max = b"18446744073709551615".to_vec();
    assert_eq!(parse_number(&max, 0, max.len()), Some(u64::MAX));
    let over = b"18446744073709551616".to_vec();
    assert_eq!(parse_number(&over, 0, over.len()), None);
}

#[test]
fn keyword_is_case_insensitive() {
    assert_eq!(keyword_for(&b"pInG".to_vec()), ReservedKeys::PING);
    assert_eq!(keyword_for(&b"echo".to_vec()), ReservedKeys::ECHO);
    assert_eq!(keyword_for(&b"Set".to_vec()), ReservedKeys::SET);
    assert_eq!(keyword_for(&b"GET".to_vec()), ReservedKeys::GET);
    assert_eq!(keyword_for(&b"GETS".to_vec()), ReservedKeys::UNKNOWN);
    assert_eq!(keyword_for(&b"".to_vec()), ReservedKeys::UNKNOWN);
    assert!(matches_ignore_case(&b"px".to_vec(), &b"PX".to_vec()));
    assert!(!matches_ignore_case(&b"p{".to_vec(), &b"P[".to_vec()));
}

#[test]
fn decodes_bulk_and_bare_words() {
    let buf = b"*3\r\n$3\r\nset\r\nkey\r\n$5\r\nva lu\r\n".to_vec();
    let (cmds, used) = parse_message(&buf);
    assert_eq!(used, buf.len());
    assert_eq!(cmds.len(), 1);
    assert_eq!(cmds[0].keyword, ReservedKeys::SET);
    assert_eq!(cmds[0].args, words(&[b"key", b"va lu"]));
}

#[test]
fn length_prefix_is_advisory() {
    let buf = b"*2\r\n$1\r\nECHO\r\n$99\r\nabc\r\n".to_vec();
    let (cmds, used) = parse_message(&buf);
    assert_eq!(used, buf.len());
    assert_eq!(cmds[0].keyword, ReservedKeys::ECHO);
    assert_eq!(cmds[0].args, words(&[b"abc"]));
}

#[test]
fn multi_digit_count() {
    let mut buf = b"*12\r\nECHO\r\n".to_vec();
    for i in 0..11 {
        buf.extend_from_slice(format!("w{}\r\n", i).as_bytes());
    }
    let (cmds, used) = parse_message(&buf);
    assert_eq!(used, buf.len());
    assert_eq!(cmds.len(), 1);
    assert_eq!(cmds[0].args.len(), 11);
    assert_eq!(cmds[0].args[10], b"w10".to_vec());
}

#[test]
fn incomplete_frame_is_left_unconsumed() {
    let buf = b"*1\r\n$4\r\nPING\r\n*2\r\n$3\r\nGET\r\n".to_vec();
    let (cmds, used) = parse_message(&buf);
    assert_eq!(cmds.len(), 1);
    assert_eq!(cmds[0].keyword, ReservedKeys::PING);
    assert_eq!(used, 14);
    let (cmds, used) = parse_message(&b"*1\r\n$4\r\nPING".to_vec());
    assert!(cmds.is_empty());
    assert_eq!(used, 0);
}

#[test]
fn huge_count_waits_for_more_bytes() {
    let buf = b"*1000\r\nPING\r\n".to_vec();
    let (cmds, used) = parse_message(&buf);
    assert!(cmds.is_empty());
    assert_eq!(used, 0);
}

#[test]
fn lines_that_open_no_frame_are_skipped() {
    let buf = b"hello\r\n*x\r\n*\r\n*99999999999999999999\r\n*1\r\nPING\r\n".to_vec();
    let (cmds, used) = parse_message(&buf);
    assert_eq!(used, buf.len());
    assert_eq!(cmds.len(), 1);
    assert_eq!(cmds[0].keyword, ReservedKeys::PING);
    assert!(cmds[0].args.is_empty());
}

#[test]
fn empty_frame_is_unknown() {
    let (cmds, used) = parse_message(&b"*0\r\n".to_vec());
    assert_eq!(used, 4);
    assert_eq!(cmds.len(), 1);
    assert_eq!(cmds[0].keyword, ReservedKeys::UNKNOWN);
    let (cmds, used) = parse_message(&Vec::new());
    assert!(cmds.is_empty());
    assert_eq!(used, 0);
}
