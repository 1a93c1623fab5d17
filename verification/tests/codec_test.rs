//! Tests of the binary cache codec: exact byte layout, the tag and
//! version guards, round trips, and rejection of malformed payloads.

use asn_db::{Db, DbError, Row};

fn b(s: &str) -> Vec<u8> {
    s.as_bytes().to_vec()
}

fn row(start: &str, end: &str, asn: &str, country: &str, owner: &str) -> Result<Row, Vec<u8>> {
    Ok(Row {
        range_start: b(start),
        range_end: b(end),
        as_number: b(asn),
        country: b(country),
        owner: b(owner),
    })
}

fn one_record_db() -> Db {
    Db::form_tsv(vec![row("1.1.1.0", "1.1.1.255", "13335", "US", "CF")]).unwrap()
}

#[test]
fn exact_byte_layout() {
    let data = one_record_db().store();
    let mut expect: Vec<u8> = Vec::new();
    expect.extend_from_slice(b"ASDB");
    expect.extend_from_slice(b"bin1");
    expect.extend_from_slice(&1u64.to_le_bytes());
    expect.extend_from_slice(&0x0101_0100u32.to_le_bytes());
    expect.push(24);
    expect.extend_from_slice(&13335u32.to_le_bytes());
    expect.extend_from_slice(&2u64.to_le_bytes());
    expect.extend_from_slice(b"US");
    expect.extend_from_slice(&2u64.to_le_bytes());
    expect.extend_from_slice(b"CF");
    assert_eq!(data, expect);
}

#[test]
fn roundtrip_preserves_records() {
    let rows = vec![
        row("1.1.1.0", "1.1.1.255", "13335", "US", "CLOUDFLARENET - Cloudflare, Inc."),
        row("8.8.4.0", "8.8.8.255", "15169", "US", "GOOGLE - Google LLC"),
        row("10.0.0.3", "10.0.0.77", "64512", "", ""),
    ];
    let db = Db::form_tsv(rows).unwrap();
    let data = db.store();
    let db2 = Db::load(&data).unwrap();
    let a = db.records();
    let c = db2.records();
    assert_eq!(a.len(), c.len());
    for (x, y) in a.iter().zip(c.iter()) {
        assert_eq!(x.ip, y.ip);
        assert_eq!(x.prefix_len, y.prefix_len);
        assert_eq!(x.as_number, y.as_number);
        assert_eq!(x.country, y.country);
        assert_eq!(x.owner, y.owner);
    }
    // Storing the reloaded database gives the same image again.
    assert_eq!(db2.store(), data);
}

#[test]
fn bad_tag_fails_before_records() {
    let mut data = one_record_db().store();
    data[0] = b'X';
    match Db::load(&data) {
        Err(DbError::DbDataError(msg)) => assert_eq!(msg, "bad database data tag"),
        _ => panic!("expected a tag error"),
    }
}

#[test]
fn wrong_version_fails_before_records() {
    let mut data = one_record_db().store();
    data[7] = b'2';
    match Db::load(&data) {
        Err(DbError::DbDataError(msg)) => assert_eq!(msg, "unsupported database version"),
        _ => panic!("expected a version error"),
    }
}

#[test]
fn tag_checked_before_version() {
    let mut data = one_record_db().store();
    data[0] = b'X';
    data[7] = b'2';
    match Db::load(&data) {
        Err(DbError::DbDataError(msg)) => assert_eq!(msg, "bad database data tag"),
        _ => panic!("expected a tag error"),
    }
}

#[test]
fn truncated_images_fail() {
    let data = one_record_db().store();
    for cut in [0, 3, 4, 7, 8, 15, 16, 20, data.len() - 1] {
        let prefix = data[..cut].to_vec();
        assert!(Db::load(&prefix).is_err(), "truncation at {} accepted", cut);
    }
}

#[test]
fn trailing_bytes_fail() {
    let mut data = one_record_db().store();
    data.push(0);
    match Db::load(&data) {
        Err(DbError::DecodeError(msg)) => assert_eq!(msg, "trailing bytes after records"),
        _ => panic!("expected a trailing-bytes error"),
    }
}

#[test]
fn oversized_prefix_length_fails() {
    let mut data = one_record_db().store();
    // The prefix length byte sits right after the 16-byte header and the
    // 4-byte base address.
    data[20] = 33;
    match Db::load(&data) {
        Err(DbError::DecodeError(msg)) => assert_eq!(msg, "decoding record"),
        _ => panic!("expected a decode error"),
    }
}

#[test]
fn unsorted_records_fail() {
    let rows = vec![
        row("1.1.1.0", "1.1.1.255", "1", "AA", "X"),
        row("9.9.9.0", "9.9.9.255", "2", "BB", "Y"),
    ];
    let db = Db::form_tsv(rows).unwrap();
    let data = db.store();
    // Swap the two records' base addresses to break the order.
    let mut broken = data.clone();
    broken[16..20].copy_from_slice(&0x0909_0900u32.to_le_bytes());
    let second = 16 + 25 + 2 + 1;
    broken[second..second + 4].copy_from_slice(&0x0101_0100u32.to_le_bytes());
    match Db::load(&broken) {
        Err(DbError::DecodeError(msg)) => assert_eq!(msg, "records out of order"),
        _ => panic!("expected an out-of-order error"),
    }
}

#[test]
fn overlong_string_length_fails() {
    let mut data = one_record_db().store();
    // Blow up the country length field far past the image size.
    data[25] = 0xff;
    assert!(Db::load(&data).is_err());
}

#[test]
fn empty_image_roundtrip() {
    let db = Db::form_tsv(vec![]).unwrap();
    let data = db.store();
    assert_eq!(data.len(), 16);
    assert_eq!(&data[..4], b"ASDB");
    assert_eq!(&data[4..8], b"bin1");
    assert_eq!(&data[8..16], &0u64.to_le_bytes());
    assert!(Db::load(&data).is_ok());
}
