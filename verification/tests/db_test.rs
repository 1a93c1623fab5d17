//! End-to-end tests of the database: building from rows, lookup, and the
//! binary cache round trip.

use asn_db::{Db, DbError, Row};

fn b(s: &str) -> Vec<u8> {
    s.as_bytes().to_vec()
}

fn row(start: &str, end: &str, asn: &str, country: &str, owner: &str) -> Result<Row, Vec<u8>> {
    Ok(Row {
        range_start: b(start),
        range_end: b(end),
        as_number: b(asn),
        country: b(country),
        owner: b(owner),
    })
}

fn ip(s: &str) -> u32 {
    asn_db::parse_ipv4(&b(s)).unwrap()
}

fn sample_rows() -> Vec<Result<Row, Vec<u8>>> {
    vec![
        row("1.1.1.0", "1.1.1.0", "13335", "US", "CLOUDFLARENET - Cloudflare, Inc."),
        row(
            "1.1.1.1",
            "1.1.1.1",
            "4134",
            "CN",
            "CSTNET-AS-AP Computer Network Information Center",
        ),
        row("1.1.1.2", "1.1.1.255", "13335", "US", "CLOUDFLARENET - Cloudflare, Inc."),
        row("8.8.4.0", "8.8.8.255", "15169", "US", "GOOGLE - Google LLC"),
    ]
}

fn owner_of(db: &Db, addr: &str) -> String {
    let rec = db.lookup(ip(addr)).unwrap();
    String::from_utf8(rec.owner.clone()).unwrap()
}

#[test]
fn test_db() {
    let db = Db::form_tsv(sample_rows()).unwrap();

    assert!(owner_of(&db, "1.1.1.0").contains("CLOUDFLARENET"));
    assert!(owner_of(&db, "1.1.1.1").contains("CSTNET-AS-AP Computer Network Information Center"));
    assert!(owner_of(&db, "1.1.1.2").contains("CLOUDFLARENET"));
    assert!(owner_of(&db, "8.8.8.8").contains("GOOGLE"));
    assert!(owner_of(&db, "8.8.4.4").contains("GOOGLE"));

    let data = db.store();
    let db = Db::load(&data).unwrap();

    assert!(owner_of(&db, "1.1.1.0").contains("CLOUDFLARENET"));
    assert!(owner_of(&db, "1.1.1.1").contains("CSTNET-AS-AP Computer Network Information Center"));
    assert!(owner_of(&db, "1.1.1.2").contains("CLOUDFLARENET"));
    assert!(owner_of(&db, "8.8.8.8").contains("GOOGLE"));
    assert!(owner_of(&db, "8.8.4.4").contains("GOOGLE"));
}

#[test]
fn lookup_fields() {
    let db = Db::form_tsv(sample_rows()).unwrap();
    let rec = db.lookup(ip("1.1.1.1")).unwrap();
    assert_eq!(rec.ip, 0x0101_0101);
    assert_eq!(rec.prefix_len, 32);
    assert_eq!(rec.as_number, 4134);
    assert_eq!(rec.country, b("CN"));
}

#[test]
fn lookup_miss_outside_ranges() {
    let db = Db::form_tsv(vec![row("1.1.1.0", "1.1.1.255", "13335", "US", "CLOUDFLARENET")])
        .unwrap();
    assert!(db.lookup(ip("1.1.1.1")).is_some());
    assert!(db.lookup(ip("1.1.0.255")).is_none());
    assert!(db.lookup(ip("1.1.2.0")).is_none());
}

#[test]
fn lookup_boundaries() {
    // Exact base address hits; one below the lowest base address misses.
    let db = Db::form_tsv(vec![row("10.0.0.0", "10.0.0.255", "64512", "ZZ", "TEST-NET")])
        .unwrap();
    let rec = db.lookup(ip("10.0.0.0")).unwrap();
    assert_eq!(rec.ip, 0x0a00_0000);
    assert!(db.lookup(ip("10.0.0.0") - 1).is_none());
    // Top of the range still hits; one past it misses.
    assert!(db.lookup(ip("10.0.0.255")).is_some());
    assert!(db.lookup(ip("10.0.1.0")).is_none());
}

#[test]
fn lookup_idempotent() {
    let db = Db::form_tsv(sample_rows()).unwrap();
    let a = db.lookup(ip("8.8.8.8")).unwrap();
    let c = db.lookup(ip("8.8.8.8")).unwrap();
    assert_eq!(a.ip, c.ip);
    assert_eq!(a.prefix_len, c.prefix_len);
    assert_eq!(a.as_number, c.as_number);
    assert_eq!(a.country, c.country);
    assert_eq!(a.owner, c.owner);
    assert!(db.lookup(ip("0.0.0.0")).is_none());
    assert!(db.lookup(ip("0.0.0.0")).is_none());
}

#[test]
fn empty_db() {
    let db = Db::form_tsv(vec![]).unwrap();
    assert_eq!(db.records().len(), 0);
    assert!(db.lookup(0).is_none());
    assert!(db.lookup(u32::MAX).is_none());
    let data = db.store();
    let db2 = Db::load(&data).unwrap();
    assert_eq!(db2.records().len(), 0);
}

#[test]
fn sorted_after_build_and_load() {
    // Rows out of address order; the built store is sorted by base address.
    let rows = vec![
        row("200.0.0.0", "200.0.0.255", "1", "AA", "HIGH"),
        row("10.0.0.0", "10.0.3.255", "2", "BB", "LOW"),
        row("100.64.0.0", "100.64.0.127", "3", "CC", "MID"),
    ];
    let db = Db::form_tsv(rows).unwrap();
    let recs = db.records();
    assert!(recs.len() >= 3);
    for w in recs.windows(2) {
        assert!(w[0].ip <= w[1].ip);
    }
    let data = db.store();
    let db2 = Db::load(&data).unwrap();
    let recs2 = db2.records();
    for w in recs2.windows(2) {
        assert!(w[0].ip <= w[1].ip);
    }
}

#[test]
fn last_row_wins_on_equal_base() {
    // Two rows producing records with the same base address: lookup
    // returns the record from the later row.
    let rows = vec![
        row("10.0.0.0", "10.0.0.255", "1", "AA", "FIRST"),
        row("10.0.0.0", "10.0.0.255", "2", "BB", "SECOND"),
    ];
    let db = Db::form_tsv(rows).unwrap();
    let rec = db.lookup(ip("10.0.0.7")).unwrap();
    assert_eq!(rec.owner, b("SECOND"));
    assert_eq!(rec.as_number, 2);
}

#[test]
fn network_of_record() {
    let db = Db::form_tsv(vec![row("1.1.1.0", "1.1.1.255", "13335", "US", "CF")]).unwrap();
    let rec = db.lookup(ip("1.1.1.77")).unwrap();
    let net = rec.network();
    assert_eq!(net.base, 0x0101_0100);
    assert_eq!(net.prefix_len, 24);
}

#[test]
fn first_error_aborts_build() {
    let rows = vec![
        row("1.1.1.0", "1.1.1.255", "13335", "US", "CF"),
        row("bad", "1.2.3.4", "1", "AA", "X"),
        row("also-bad", "1.2.3.4", "1", "AA", "X"),
    ];
    match Db::form_tsv(rows) {
        Err(DbError::TsvError(asn_db::TsvParseError::AddrFieldParseError(ctx))) => {
            assert_eq!(ctx, "parsing range_start IP");
        },
        other => panic!("unexpected result: {:?}", other.is_ok()),
    }
}

#[test]
fn structural_row_error_is_reported() {
    let rows: Vec<Result<Row, Vec<u8>>> = vec![Err(b("row 7: wrong field count"))];
    match Db::form_tsv(rows) {
        Err(DbError::TsvError(asn_db::TsvParseError::TsvError(msg))) => {
            assert_eq!(msg, b("row 7: wrong field count"));
        },
        _ => panic!("expected a structural row error"),
    }
}

#[test]
fn field_error_contexts() {
    let bad_end = vec![row("1.1.1.0", "nope", "1", "AA", "X")];
    match Db::form_tsv(bad_end) {
        Err(DbError::TsvError(asn_db::TsvParseError::AddrFieldParseError(ctx))) => {
            assert_eq!(ctx, "parsing range_end IP");
        },
        _ => panic!("expected range_end error"),
    }
    let bad_asn = vec![row("1.1.1.0", "1.1.1.255", "12x", "AA", "X")];
    match Db::form_tsv(bad_asn) {
        Err(DbError::TsvError(asn_db::TsvParseError::IntFieldParseError(ctx))) => {
            assert_eq!(ctx, "parsing as_number");
        },
        _ => panic!("expected as_number error"),
    }
}

#[test]
fn reversed_range_contributes_nothing() {
    let db = Db::form_tsv(vec![row("1.1.2.0", "1.1.1.0", "1", "AA", "X")]).unwrap();
    assert_eq!(db.records().len(), 0);
}

#[test]
fn record_equality_goes_by_base_address() {
    let db = Db::form_tsv(vec![
        row("10.0.0.0", "10.0.0.255", "1", "AA", "FIRST"),
        row("10.0.0.0", "10.0.0.255", "2", "BB", "SECOND"),
    ])
    .unwrap();
    let recs = db.records();
    assert_eq!(recs.len(), 2);
    // Same base address: equal records, though every other field differs.
    assert!(recs[0] == recs[1]);
    let other = Db::form_tsv(vec![row("10.0.1.0", "10.0.1.255", "1", "AA", "FIRST")]).unwrap();
    assert!(recs[0] != other.records()[0]);
}
