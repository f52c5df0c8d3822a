use tockloader_proto::{Command, Parser};

fn feed(p: &mut Parser, bytes: &[u8]) {
    for &b in bytes {
        assert!(p.receive(b).is_none());
    }
}

fn expect_erase(p: &mut Parser) -> u32 {
    assert!(p.receive(0xFC).is_none());
    match p.receive(0x06) {
        Some(Command::ErasePage(addr)) => addr,
        other => panic!("Did not expect: {:?}", other),
    }
}

fn expect_bad(p: &mut Parser, code: u8) {
    assert!(p.receive(0xFC).is_none());
    match p.receive(code) {
        Some(Command::BadCommand) => {}
        other => panic!("Did not expect: {:?}", other),
    }
}

#[test]
fn ping_from_fresh_parser() {
    let mut p = Parser::new();
    assert!(p.receive(0xFC).is_none());
    assert!(matches!(p.receive(0x01), Some(Command::Ping)));
}

#[test]
fn info_from_fresh_parser() {
    let mut p = Parser::new();
    assert!(p.receive(0xFC).is_none());
    assert!(matches!(p.receive(0x03), Some(Command::Info)));
}

#[test]
fn reset_command() {
    let mut p = Parser::new();
    feed(&mut p, &[1, 2, 3]);
    assert!(p.receive(0xFC).is_none());
    assert!(matches!(p.receive(0x05), Some(Command::Reset)));
}

#[test]
fn erase_page_little_endian() {
    let mut p = Parser::new();
    feed(&mut p, &[0xEF, 0xBE, 0xAD, 0xDE]);
    assert_eq!(expect_erase(&mut p), 0xDEADBEEF);
}

#[test]
fn erase_page_reads_last_four_bytes() {
    let mut p = Parser::new();
    feed(&mut p, &[0x11, 0x22, 0x01, 0x02, 0x03, 0x04]);
    assert_eq!(expect_erase(&mut p), 0x04030201);
}

#[test]
fn erase_page_with_escaped_address_byte() {
    let mut p = Parser::new();
    feed(&mut p, &[0x00, 0xFC, 0xFC, 0x10, 0x00]);
    assert_eq!(expect_erase(&mut p), 0x0010FC00);
}

#[test]
fn erase_page_too_short_is_bad_command() {
    let mut p = Parser::new();
    feed(&mut p, &[0xAA, 0xBB, 0xCC]);
    expect_bad(&mut p, 0x06);
    // The next frame starts from an empty buffer.
    feed(&mut p, &[0x01]);
    expect_bad(&mut p, 0x06);
    feed(&mut p, &[0x78, 0x56, 0x34, 0x12]);
    assert_eq!(expect_erase(&mut p), 0x12345678);
}

#[test]
fn erase_page_with_no_data_is_bad_command() {
    let mut p = Parser::new();
    expect_bad(&mut p, 0x06);
}

#[test]
fn write_page_too_short_is_bad_command() {
    let mut p = Parser::new();
    for i in 0..515u32 {
        let b = (i % 200) as u8;
        assert!(p.receive(b).is_none());
    }
    expect_bad(&mut p, 0x07);
}

#[test]
fn emission_resets_buffer() {
    let mut p = Parser::new();
    feed(&mut p, &[9, 9, 9, 9, 9]);
    assert!(p.receive(0xFC).is_none());
    assert!(matches!(p.receive(0x01), Some(Command::Ping)));
    // Only the bytes after the ping are buffered now.
    feed(&mut p, &[1, 2]);
    expect_bad(&mut p, 0x06);
}

#[test]
fn unknown_code_keeps_buffer() {
    let mut p = Parser::new();
    feed(&mut p, &[0x01, 0x02]);
    assert!(p.receive(0xFC).is_none());
    assert!(p.receive(0x02).is_none());
    feed(&mut p, &[0x03, 0x04]);
    assert_eq!(expect_erase(&mut p), 0x04030201);
}

#[test]
fn doubled_escape_is_a_literal_byte() {
    let mut p = Parser::new();
    assert!(p.receive(0xFC).is_none());
    assert!(p.receive(0xFC).is_none());
    feed(&mut p, &[0xFC, 0xFC, 0xFC, 0xFC, 0xFC, 0xFC]);
    assert_eq!(expect_erase(&mut p), 0xFCFCFCFC);
}

#[test]
fn plain_bytes_never_emit() {
    let mut p = Parser::new();
    for i in 0..2000u32 {
        let b = (i % 0xFC) as u8;
        assert!(p.receive(b).is_none());
    }
}

#[test]
fn overflow_drops_late_bytes() {
    let mut p = Parser::new();
    // 526 bytes arrive; the buffer keeps the first 520 of them.
    for i in 0..526u32 {
        let b = (i % 0xF0) as u8;
        assert!(p.receive(b).is_none());
    }
    assert!(p.receive(0xFC).is_none());
    match p.receive(0x07) {
        Some(Command::WritePage(addr, page)) => {
            assert_eq!(addr, u32::from_le_bytes([4, 5, 6, 7]));
            assert_eq!(page.len(), 512);
            for (k, &b) in page.iter().enumerate() {
                assert_eq!(b, ((k + 8) % 0xF0) as u8);
            }
        }
        other => panic!("Did not expect: {:?}", other),
    }
}

#[test]
fn write_page_after_stale_prefix() {
    let mut p = Parser::new();
    feed(&mut p, &[0x55, 0x66]);
    feed(&mut p, &[0x00, 0x02, 0x00, 0x00]);
    for i in 0..512u32 {
        let b = (i % 7) as u8;
        assert!(p.receive(b).is_none());
    }
    assert!(p.receive(0xFC).is_none());
    match p.receive(0x07) {
        Some(Command::WritePage(addr, page)) => {
            assert_eq!(addr, 0x200);
            assert_eq!(page.len(), 512);
            assert_eq!(page[0], 0);
            assert_eq!(page[511], (511 % 7) as u8);
        }
        other => panic!("Did not expect: {:?}", other),
    }
}
