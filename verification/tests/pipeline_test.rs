//! Tests of the pipeline pieces: the range decomposer, the field
//! parsers, the row filter, and the flat row stream.

use asn_db::{parse_ipv4, parse_u32, read_asn_tsv, subnets, Db, Row, TsvParseError};

fn b(s: &str) -> Vec<u8> {
    s.as_bytes().to_vec()
}

fn row(start: &str, end: &str, asn: &str, country: &str, owner: &str) -> Result<Row, Vec<u8>> {
    Ok(Row {
        range_start: b(start),
        range_end: b(end),
        as_number: b(asn),
        country: b(country),
        owner: b(owner),
    })
}

fn ip(s: &str) -> u32 {
    parse_ipv4(&b(s)).unwrap()
}

#[test]
fn decompose_aligned_range() {
    let nets = subnets(ip("1.1.1.0"), ip("1.1.1.255"));
    assert_eq!(nets.len(), 1);
    assert_eq!(nets[0].base, 0x0101_0100);
    assert_eq!(nets[0].prefix_len, 24);
}

#[test]
fn decompose_full_space_respects_floor() {
    // The whole address space is capped into /8 blocks, never anything
    // wider.
    let nets = subnets(0, u32::MAX);
    assert_eq!(nets.len(), 256);
    for (i, net) in nets.iter().enumerate() {
        assert_eq!(net.prefix_len, 8);
        assert_eq!(net.base, (i as u32) << 24);
    }
}

#[test]
fn decompose_unaligned_range() {
    let nets = subnets(ip("1.1.1.3"), ip("1.1.1.9"));
    let got: Vec<(u32, u8)> = nets.iter().map(|n| (n.base, n.prefix_len)).collect();
    assert_eq!(
        got,
        vec![(0x0101_0103, 32), (0x0101_0104, 30), (0x0101_0108, 31)]
    );
}

#[test]
fn decompose_covers_exactly() {
    let lo = ip("10.0.0.250");
    let hi = ip("10.0.1.77");
    let nets = subnets(lo, hi);
    // Consecutive, gap-free, and exactly bounded.
    let mut cur = lo as u64;
    for net in nets.iter() {
        assert_eq!(net.base as u64, cur);
        assert!(net.prefix_len >= 8 && net.prefix_len <= 32);
        let size = 1u64 << (32 - net.prefix_len as u32);
        assert_eq!(net.base as u64 % size, 0);
        cur += size;
    }
    assert_eq!(cur, hi as u64 + 1);
}

#[test]
fn decompose_single_address() {
    let nets = subnets(ip("9.9.9.9"), ip("9.9.9.9"));
    assert_eq!(nets.len(), 1);
    assert_eq!(nets[0].prefix_len, 32);
    assert_eq!(nets[0].base, 0x0909_0909);
}

#[test]
fn parse_ipv4_accepts_dotted_quads() {
    assert_eq!(parse_ipv4(&b("1.2.3.4")), Some(0x0102_0304));
    assert_eq!(parse_ipv4(&b("0.0.0.0")), Some(0));
    assert_eq!(parse_ipv4(&b("255.255.255.255")), Some(u32::MAX));
    assert_eq!(parse_ipv4(&b("10.0.200.7")), Some(0x0a00_c807));
}

#[test]
fn parse_ipv4_rejects_malformed_text() {
    assert_eq!(parse_ipv4(&b("")), None);
    assert_eq!(parse_ipv4(&b("1.2.3")), None);
    assert_eq!(parse_ipv4(&b("1.2.3.4.5")), None);
    assert_eq!(parse_ipv4(&b("256.1.1.1")), None);
    assert_eq!(parse_ipv4(&b("01.2.3.4")), None);
    assert_eq!(parse_ipv4(&b("1.2.3.04")), None);
    assert_eq!(parse_ipv4(&b("1..3.4")), None);
    assert_eq!(parse_ipv4(&b("1.2.3.4 ")), None);
    assert_eq!(parse_ipv4(&b("a.b.c.d")), None);
    assert_eq!(parse_ipv4(&b("1.2.3.-4")), None);
}

#[test]
fn parse_u32_accepts_decimal() {
    assert_eq!(parse_u32(&b("0")), Some(0));
    assert_eq!(parse_u32(&b("13335")), Some(13335));
    assert_eq!(parse_u32(&b("+42")), Some(42));
    assert_eq!(parse_u32(&b("007")), Some(7));
    assert_eq!(parse_u32(&b("4294967295")), Some(u32::MAX));
    assert_eq!(parse_u32(&b("0000000000000000001")), Some(1));
}

#[test]
fn parse_u32_rejects_malformed_text() {
    assert_eq!(parse_u32(&b("")), None);
    assert_eq!(parse_u32(&b("+")), None);
    assert_eq!(parse_u32(&b("-1")), None);
    assert_eq!(parse_u32(&b("1a")), None);
    assert_eq!(parse_u32(&b(" 1")), None);
    assert_eq!(parse_u32(&b("4294967296")), None);
    assert_eq!(parse_u32(&b("99999999999999999999")), None);
}

#[test]
fn filtered_rows_contribute_nothing() {
    let rows = vec![
        row("1.1.1.0", "1.1.1.255", "13335", "US", "CF"),
        row("2.0.0.0", "2.0.0.255", "0", "None", "Not routed"),
        row("3.0.0.0", "3.0.0.255", "0", "None", "None"),
    ];
    let db = Db::form_tsv(rows).unwrap();
    assert_eq!(db.records().len(), 1);
    assert!(db.lookup(ip("2.0.0.1")).is_none());
    assert!(db.lookup(ip("3.0.0.1")).is_none());
}

#[test]
fn filter_is_exact_match_only() {
    // Only the exact owners `Not routed` and `None` are filtered.
    let rows = vec![row("2.0.0.0", "2.0.0.255", "7", "ZZ", "Not routed yet")];
    let db = Db::form_tsv(rows).unwrap();
    assert_eq!(db.records().len(), 1);
    assert_eq!(db.lookup(ip("2.0.0.1")).unwrap().as_number, 7);
}

#[test]
fn filtered_row_skips_parsing() {
    // A filtered row is dropped before parsing, so broken fields in it do
    // not fail the build.
    let rows = vec![row("not-an-ip", "also-not", "nope", "", "Not routed")];
    let db = Db::form_tsv(rows).unwrap();
    assert_eq!(db.records().len(), 0);
}

#[test]
fn stream_interleaves_records_and_errors() {
    let rows = vec![
        row("1.1.1.0", "1.1.1.255", "13335", "US", "CF"),
        row("bad", "1.2.3.4", "1", "AA", "X"),
        Err(b("torn row")),
        row("8.8.8.0", "8.8.8.255", "15169", "US", "GOOGLE"),
    ];
    let out = read_asn_tsv(rows);
    assert_eq!(out.len(), 4);
    assert!(matches!(out[0], Ok(ref r) if r.as_number == 13335));
    assert!(matches!(
        out[1],
        Err(TsvParseError::AddrFieldParseError("parsing range_start IP"))
    ));
    assert!(matches!(out[2], Err(TsvParseError::TsvError(ref m)) if m == &b("torn row")));
    assert!(matches!(out[3], Ok(ref r) if r.as_number == 15169));
}

#[test]
fn stream_expands_one_row_to_many_records() {
    let rows = vec![row("1.1.1.3", "1.1.1.9", "99", "ZZ", "SPLIT")];
    let out = read_asn_tsv(rows);
    assert_eq!(out.len(), 3);
    for item in out {
        let rec = item.unwrap();
        assert_eq!(rec.as_number, 99);
        assert_eq!(rec.country, b("ZZ"));
        assert_eq!(rec.owner, b("SPLIT"));
    }
}
