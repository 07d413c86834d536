use rowstore::command::{classify, execute, metacmd, parse, LineKind, MetaCommand, Outcome, Stmt};
use rowstore::error::Error;
use rowstore::record::{decode, encode, Record, ROW_SIZE};
use rowstore::table::Table;

fn rec(id: u64, username: &str, email: &str) -> Record {
    Record { id, username: username.as_bytes().to_vec(), email: email.as_bytes().to_vec() }
}

fn line(r: &Record) -> String {
    format!(
        "{} {} {}",
        r.id,
        String::from_utf8_lossy(&r.username),
        String::from_utf8_lossy(&r.email)
    )
}

fn selected(t: &mut Table) -> Vec<Record> {
    match execute("select", t) {
        Ok(Outcome::Selected(rows)) => rows,
        _ => panic!("select failed"),
    }
}

#[test]
fn encode_layout_is_exact() {
    let bytes = encode(&rec(0x0102030405060708, "ab", "c"));
    assert_eq!(bytes.len(), ROW_SIZE);
    assert_eq!(&bytes[0..8], &[8, 7, 6, 5, 4, 3, 2, 1]);
    assert_eq!(&bytes[8..11], &[b'a', b'b', 0]);
    assert!(bytes[10..40].iter().all(|b| *b == 0));
    assert_eq!(bytes[40], b'c');
    assert!(bytes[41..72].iter().all(|b| *b == 0));
}

#[test]
fn decode_reads_layout() {
    let mut bytes = vec![0u8; ROW_SIZE];
    bytes[0] = 42;
    bytes[7] = 1;
    bytes[8] = b'x';
    bytes[40] = b'y';
    bytes[41] = b'z';
    let r = decode(&bytes);
    assert_eq!(r.id, 42 + (1u64 << 56));
    assert_eq!(r.username, b"x".to_vec());
    assert_eq!(r.email, b"yz".to_vec());
}

#[test]
fn round_trip_plain_record() {
    let r = rec(u64::MAX, "alice", "alice@example.com");
    assert_eq!(decode(&encode(&r)), r);
    let e = rec(0, "", "");
    assert_eq!(decode(&encode(&e)), e);
}

#[test]
fn round_trip_arbitrary_bytes() {
    let r = Record { id: 7, username: vec![0xff, 0x80, 1], email: vec![200; 32] };
    assert_eq!(decode(&encode(&r)), r);
}

#[test]
fn username_of_32_bytes_round_trips() {
    let name = "a".repeat(32);
    let r = rec(3, &name, "e");
    assert_eq!(decode(&encode(&r)), r);
}

#[test]
fn username_of_31_bytes_is_padded() {
    let name = "b".repeat(31);
    let r = rec(3, &name, "e");
    let bytes = encode(&r);
    assert_eq!(bytes[8 + 31], 0);
    assert_eq!(decode(&bytes).username, name.as_bytes().to_vec());
}

#[test]
fn overlong_field_is_cut_by_codec() {
    let r = rec(1, &"c".repeat(40), "e");
    assert_eq!(decode(&encode(&r)).username, "c".repeat(32).as_bytes().to_vec());
}

#[test]
fn embedded_zero_reads_as_padding() {
    let r = Record { id: 1, username: vec![b'a', 0, b'b'], email: vec![] };
    assert_eq!(decode(&encode(&r)).username, b"a".to_vec());
}

#[test]
fn insert_then_select_keeps_order() {
    let mut t = Table::new(8);
    let rs = vec![rec(5, "e", "e@x"), rec(1, "a", "a@x"), rec(3, "c", "c@x")];
    for r in &rs {
        assert_eq!(t.insert(r), Ok(()));
    }
    assert_eq!(t.select(), Ok(rs));
}

#[test]
fn count_follows_appends() {
    let mut t = Table::new(8);
    assert_eq!(t.len(), 0);
    assert_eq!(t.select().unwrap().len(), 0);
    for k in 0..5u64 {
        assert_eq!(t.insert(&rec(k, "u", "m")), Ok(()));
    }
    assert_eq!(t.len(), 5);
    assert_eq!(t.select().unwrap().len(), 5);
    assert_eq!(t.capacity(), 8);
}

#[test]
fn full_store_refuses_append() {
    let mut t = Table::new(2);
    assert_eq!(t.insert(&rec(1, "a", "b")), Ok(()));
    assert_eq!(t.insert(&rec(2, "c", "d")), Ok(()));
    assert_eq!(t.insert(&rec(3, "e", "f")), Err(Error::StoreFull));
    assert_eq!(t.len(), 2);
    assert_eq!(t.select(), Ok(vec![rec(1, "a", "b"), rec(2, "c", "d")]));
}

#[test]
fn zero_capacity_store_is_full() {
    let mut t = Table::new(0);
    assert_eq!(t.insert(&rec(1, "a", "b")), Err(Error::StoreFull));
    assert_eq!(t.len(), 0);
}

#[test]
fn full_store_through_execute() {
    let mut t = Table::new(1);
    assert!(matches!(execute("insert 1 a b", &mut t), Ok(Outcome::Inserted)));
    assert!(matches!(execute("insert 2 c d", &mut t), Err(Error::StoreFull)));
    assert_eq!(t.len(), 1);
}

#[test]
fn two_inserts_then_select() {
    let mut t = Table::new(16);
    assert!(matches!(execute("insert 1 foo foo@bar.com", &mut t), Ok(Outcome::Inserted)));
    assert!(matches!(execute("insert 2 baz baz@bar.com", &mut t), Ok(Outcome::Inserted)));
    let rows = selected(&mut t);
    let lines: Vec<String> = rows.iter().map(line).collect();
    assert_eq!(lines, vec!["1 foo foo@bar.com".to_string(), "2 baz baz@bar.com".to_string()]);
    assert_eq!(t.len(), 2);
}

#[test]
fn select_with_argument_is_syntax_error() {
    let mut t = Table::new(4);
    execute("insert 1 a b", &mut t).unwrap();
    assert!(matches!(execute("select extra", &mut t), Err(Error::SyntaxError)));
    assert_eq!(t.len(), 1);
}

#[test]
fn non_numeric_id_is_syntax_error() {
    let mut t = Table::new(4);
    assert!(matches!(execute("insert abc foo foo@bar.com", &mut t), Err(Error::SyntaxError)));
    assert_eq!(t.len(), 0);
    assert_eq!(selected(&mut t).len(), 0);
}

#[test]
fn parse_insert_fields() {
    match parse("  insert\t42 bob bob@x.org \n") {
        Ok(Stmt::Insert(r)) => assert_eq!(r, rec(42, "bob", "bob@x.org")),
        _ => panic!("expected insert"),
    }
    assert!(matches!(parse("select"), Ok(Stmt::Select)));
    assert!(matches!(parse("  select  "), Ok(Stmt::Select)));
}

#[test]
fn parse_errors() {
    assert!(matches!(parse(""), Err(Error::SyntaxError)));
    assert!(matches!(parse("   "), Err(Error::SyntaxError)));
    assert!(matches!(parse("delete 1"), Err(Error::UnknownCommand)));
    assert!(matches!(parse("INSERT 1 a b"), Err(Error::UnknownCommand)));
    assert!(matches!(parse("insert 1 a"), Err(Error::SyntaxError)));
    assert!(matches!(parse("insert 1 a b c"), Err(Error::SyntaxError)));
    assert!(matches!(parse("insert -1 a b"), Err(Error::SyntaxError)));
    assert!(matches!(parse("insert + a b"), Err(Error::SyntaxError)));
    assert!(matches!(parse("insert 1x a b"), Err(Error::SyntaxError)));
}

#[test]
fn parse_id_range() {
    match parse("insert 18446744073709551615 a b") {
        Ok(Stmt::Insert(r)) => assert_eq!(r.id, u64::MAX),
        _ => panic!("expected insert"),
    }
    assert!(matches!(parse("insert 18446744073709551616 a b"), Err(Error::SyntaxError)));
    assert!(matches!(parse("insert 99999999999999999999 a b"), Err(Error::SyntaxError)));
    match parse("insert +7 a b") {
        Ok(Stmt::Insert(r)) => assert_eq!(r.id, 7),
        _ => panic!("expected insert"),
    }
    match parse("insert 007 a b") {
        Ok(Stmt::Insert(r)) => assert_eq!(r.id, 7),
        _ => panic!("expected insert"),
    }
}

#[test]
fn overlong_field_is_syntax_error() {
    let ok = format!("insert 1 {} e", "u".repeat(32));
    assert!(matches!(parse(&ok), Ok(Stmt::Insert(_))));
    let long_name = format!("insert 1 {} e", "u".repeat(33));
    assert!(matches!(parse(&long_name), Err(Error::SyntaxError)));
    let long_email = format!("insert 1 u {}", "e".repeat(33));
    assert!(matches!(parse(&long_email), Err(Error::SyntaxError)));
}

#[test]
fn meta_commands() {
    assert_eq!(metacmd("quit"), MetaCommand::Quit);
    assert_eq!(metacmd("help"), MetaCommand::Help);
    assert_eq!(metacmd(" help "), MetaCommand::Unknown);
    assert_eq!(metacmd("quit "), MetaCommand::Unknown);
    assert_eq!(metacmd("Quit"), MetaCommand::Unknown);
    assert_eq!(metacmd("help me"), MetaCommand::Unknown);
    assert_eq!(metacmd("exit"), MetaCommand::Unknown);
    assert_eq!(metacmd(""), MetaCommand::Unknown);
}

#[test]
fn error_messages() {
    assert_eq!(Error::SyntaxError.message(), "Syntax error");
    assert_eq!(Error::UnknownCommand.message(), "Unknown command");
    assert_eq!(Error::StoreFull.message(), "Store full");
    assert_eq!(Error::InternalError.message(), "Internal error");
}

#[test]
fn classify_lines() {
    assert_eq!(classify(""), LineKind::End);
    assert_eq!(classify(".quit"), LineKind::Meta);
    assert_eq!(classify("."), LineKind::Meta);
    assert_eq!(classify("select"), LineKind::Command);
    assert_eq!(classify("x.y"), LineKind::Command);
}

#[test]
fn unicode_whitespace_separates_words() {
    match parse("insert\u{a0}1 a b") {
        Ok(Stmt::Insert(r)) => assert_eq!(r, rec(1, "a", "b")),
        _ => panic!("expected insert"),
    }
    match parse("insert\u{3000}2\u{3000}bob\u{2028}bob@x.org\u{85}") {
        Ok(Stmt::Insert(r)) => assert_eq!(r, rec(2, "bob", "bob@x.org")),
        _ => panic!("expected insert"),
    }
    match parse("\u{2000}insert 3 c\u{200a}d\u{202f}") {
        Ok(Stmt::Insert(r)) => assert_eq!(r, rec(3, "c", "d")),
        _ => panic!("expected insert"),
    }
    assert!(matches!(parse("select\u{a0}"), Ok(Stmt::Select)));
    assert!(matches!(parse("\u{3000}select\u{1680}"), Ok(Stmt::Select)));
    assert!(matches!(parse("select\u{205f}extra"), Err(Error::SyntaxError)));
}

#[test]
fn unicode_whitespace_alone_is_syntax_error() {
    assert!(matches!(parse("\u{a0}"), Err(Error::SyntaxError)));
    assert!(matches!(parse("\u{3000}"), Err(Error::SyntaxError)));
    assert!(matches!(parse("\u{a0}\u{3000}\t"), Err(Error::SyntaxError)));
}

#[test]
fn unicode_whitespace_with_overlong_field() {
    let cmd = format!("insert\u{a0}1 a {}", "e".repeat(33));
    assert!(matches!(parse(&cmd), Err(Error::SyntaxError)));
}

#[test]
fn non_space_unicode_stays_in_word() {
    match parse("insert 4 j\u{e9}r\u{f4}me \u{200b}x") {
        Ok(Stmt::Insert(r)) => {
            assert_eq!(r.username, "j\u{e9}r\u{f4}me".as_bytes().to_vec());
            assert_eq!(r.email, "\u{200b}x".as_bytes().to_vec());
        }
        _ => panic!("expected insert"),
    }
}

#[test]
fn unicode_whitespace_through_execute() {
    let mut t = Table::new(4);
    assert!(matches!(execute("insert\u{a0}1\u{3000}foo foo@bar.com", &mut t), Ok(Outcome::Inserted)));
    let rows = selected(&mut t);
    assert_eq!(rows, vec![rec(1, "foo", "foo@bar.com")]);
}
