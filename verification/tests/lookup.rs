//! End-to-end lookups over country range tables, on every lookup path.
use ip_location_db_lookup::chunks;
use ip_location_db_lookup::guess;
use ip_location_db_lookup::ipv4_num;
use ip_location_db_lookup::lookup_ipv4;
use ip_location_db_lookup::parallel;

const IPV4_COUNTRY_NUM: &str = r#"16777216,16777471,AU
16777472,16778239,CN
16778240,16779263,AU
16779264,16781311,CN
16781312,16785407,JP
971448064,971448319,DE
971448320,971448575,GB
971448576,971448831,PL
971448832,971449087,DE
971449088,971449343,GB
971449600,971449855,GB
971449856,971450111,PL
971450112,971451391,GB
971451392,971451647,DE
971451648,971451903,PL
971451904,971452415,GB
971452416,971452671,PL
3653435392,3653439487,DE
3653439488,3653443583,FR
3653443584,3653447679,DE
3653447680,3653451775,LV
3653451776,3653464063,RU
3758092288,3758093311,HK
3758093312,3758094335,IN
3758094336,3758095359,HK
3758095360,3758095871,CN
3758095872,3758096127,SG
3758096128,3758096383,AU
"#;

const TRIMMED: &str = r#"16777216,16777471,AU
16777472,16778239,CN
971448064,971448319,DE
971448320,971448575,GB
3758096128,3758096383,AU
"#;

#[test]
fn country_ipv4() {
    let b = IPV4_COUNTRY_NUM.as_bytes();

    assert_eq!(lookup_ipv4(b, ipv4_num(1, 0, 0, 0)), Some(b"AU".as_slice()));
    assert_eq!(lookup_ipv4(b, ipv4_num(1, 0, 0, 255)), Some(b"AU".as_slice()));

    assert_eq!(lookup_ipv4(b, ipv4_num(57, 231, 41, 241)), Some(b"GB".as_slice()));
    assert_eq!(lookup_ipv4(b, ipv4_num(217, 195, 14, 20)), Some(b"DE".as_slice()));
    assert_eq!(lookup_ipv4(b, ipv4_num(217, 195, 30, 255)), Some(b"FR".as_slice()));

    assert_eq!(lookup_ipv4(b, ipv4_num(223, 255, 255, 0)), Some(b"AU".as_slice()));
    assert_eq!(lookup_ipv4(b, ipv4_num(223, 255, 255, 255)), Some(b"AU".as_slice()));
}

#[test]
fn trimmed_scenario() {
    let b = TRIMMED.as_bytes();

    assert_eq!(lookup_ipv4(b, ipv4_num(1, 0, 0, 0)), Some(b"AU".as_slice()));
    assert_eq!(lookup_ipv4(b, ipv4_num(1, 0, 0, 255)), Some(b"AU".as_slice()));
    // 217.195.14.20 falls outside every range of this trimmed fixture.
    assert_eq!(lookup_ipv4(b, ipv4_num(217, 195, 14, 20)), None);
    assert_eq!(lookup_ipv4(b, ipv4_num(223, 255, 255, 255)), Some(b"AU".as_slice()));
}

#[test]
fn idempotent_lookups() {
    let b = IPV4_COUNTRY_NUM.as_bytes();
    for ip in [
        ipv4_num(1, 0, 0, 0),
        ipv4_num(57, 231, 41, 241),
        ipv4_num(217, 195, 14, 20),
        ipv4_num(10, 0, 0, 1),
        ipv4_num(223, 255, 255, 255),
    ] {
        assert_eq!(lookup_ipv4(b, ip), lookup_ipv4(b, ip));
        assert_eq!(guess(b, ip), guess(b, ip));
        assert_eq!(parallel(b, ip, 2), parallel(b, ip, 2));
    }
}

#[test]
fn equivalent_paths() {
    let b = IPV4_COUNTRY_NUM.as_bytes();
    for ip in [
        ipv4_num(1, 0, 0, 0),
        ipv4_num(1, 0, 0, 255),
        ipv4_num(57, 231, 41, 241),
        ipv4_num(217, 195, 14, 20),
        ipv4_num(217, 195, 30, 255),
        ipv4_num(10, 0, 0, 1),
        ipv4_num(223, 255, 255, 0),
        ipv4_num(223, 255, 255, 255),
    ] {
        let direct = lookup_ipv4(b, ip);
        assert_eq!(guess(b, ip), direct);
        for workers in [1, 2, 3, 8, 64] {
            assert_eq!(parallel(b, ip, workers), direct);
        }
    }
}

#[test]
fn uncovered_is_not_found() {
    let b = IPV4_COUNTRY_NUM.as_bytes();
    for ip in [
        0,
        ipv4_num(0, 255, 255, 255),
        ipv4_num(10, 0, 0, 1),
        971449400,
        ipv4_num(217, 163, 135, 112),
        ipv4_num(255, 255, 255, 255),
    ] {
        assert_eq!(lookup_ipv4(b, ip), None);
        assert_eq!(guess(b, ip), None);
        assert_eq!(parallel(b, ip, 1), None);
        assert_eq!(parallel(b, ip, 4), None);
    }
}

#[test]
fn boundary_inclusive() {
    let b = IPV4_COUNTRY_NUM.as_bytes();
    // the CN record 16777472..=16778239, with AU just below it
    assert_eq!(lookup_ipv4(b, 16777472), Some(b"CN".as_slice()));
    assert_eq!(lookup_ipv4(b, 16778239), Some(b"CN".as_slice()));
    assert_eq!(lookup_ipv4(b, 16777471), Some(b"AU".as_slice()));
    assert_eq!(lookup_ipv4(b, 16778240), Some(b"AU".as_slice()));
    // the GB record 971449600..=971449855, with gaps on both sides
    assert_eq!(lookup_ipv4(b, 971449600), Some(b"GB".as_slice()));
    assert_eq!(lookup_ipv4(b, 971449855), Some(b"GB".as_slice()));
    assert_eq!(lookup_ipv4(b, 971449599), None);
    assert_eq!(lookup_ipv4(b, 971449344), None);
}

#[test]
fn partitions_are_correct() {
    let b = IPV4_COUNTRY_NUM.as_bytes();
    for workers in [1, 2, 3, 5, 16, 200] {
        let rs = chunks(b, workers);
        assert_eq!(rs.len(), workers);
        assert_eq!(rs[0].0, 0);
        assert_eq!(rs[workers - 1].1, b.len());
        for i in 0..workers {
            let (lo, hi) = rs[i];
            assert!(lo <= hi && hi <= b.len());
            // every boundary is an edge of the buffer or just after a newline
            assert!(lo == 0 || lo == b.len() || b[lo - 1] == b'\n');
            assert!(hi == b.len() || b[hi - 1] == b'\n');
            if i > 0 {
                // strictly contiguous: no gap and no overlap
                assert!(lo == rs[i - 1].1);
            }
        }
    }
}

#[test]
fn single_record_table() {
    let b = b"16777216,16777471,AU\n";
    assert_eq!(lookup_ipv4(b, 16777216), Some(b"AU".as_slice()));
    assert_eq!(lookup_ipv4(b, 16777471), Some(b"AU".as_slice()));
    assert_eq!(lookup_ipv4(b, 16777215), None);
    assert_eq!(lookup_ipv4(b, 16777472), None);
    assert_eq!(guess(b, 16777216), Some(b"AU".as_slice()));
    assert_eq!(parallel(b, 16777216, 7), Some(b"AU".as_slice()));
}

#[test]
fn label_keeps_extra_fields() {
    // a label may itself contain commas; everything after the second
    // delimiter up to the terminator is the payload
    let b = b"16777216,16777471,AU,QLD\n16777472,16778239,CN,BJ\n";
    assert_eq!(lookup_ipv4(b, 16777300), Some(b"AU,QLD".as_slice()));
    assert_eq!(lookup_ipv4(b, 16778000), Some(b"CN,BJ".as_slice()));
}

#[test]
fn digit_count_straddle() {
    // a range crossing a digit-count boundary: the lookup's decimal text
    // shares no leading byte with the covering record's line, so only the
    // exhaustive pass behind the prefix heuristic can find it
    let b = b"2000000,2000001,AA,Z\n19999999,20000001,BB,Y\n";
    assert_eq!(lookup_ipv4(b, 20000000), Some(b"BB,Y".as_slice()));
    assert_eq!(lookup_ipv4(b, 20000001), Some(b"BB,Y".as_slice()));
    assert_eq!(lookup_ipv4(b, 2000000), Some(b"AA,Z".as_slice()));
    assert_eq!(lookup_ipv4(b, 2000001), Some(b"AA,Z".as_slice()));
    assert_eq!(lookup_ipv4(b, 2000002), None);
    assert_eq!(guess(b, 20000001), Some(b"BB,Y".as_slice()));
    assert_eq!(parallel(b, 20000001, 2), Some(b"BB,Y".as_slice()));
    assert_eq!(parallel(b, 20000001, 1), lookup_ipv4(b, 20000001));
}

#[test]
fn line_length_extremes() {
    // 16 bytes and 24 bytes before the terminator: the shortest and the
    // widest record the scanners' fixed probe windows are built for
    let b = b"123456,123457,AB\n1234567890,4234567890,CD\n";
    assert_eq!(lookup_ipv4(b, 123456), Some(b"AB".as_slice()));
    assert_eq!(lookup_ipv4(b, 123457), Some(b"AB".as_slice()));
    assert_eq!(lookup_ipv4(b, 1234567890), Some(b"CD".as_slice()));
    assert_eq!(lookup_ipv4(b, 4234567890), Some(b"CD".as_slice()));
    assert_eq!(lookup_ipv4(b, 999999999), None);
    assert_eq!(guess(b, 1234567890), Some(b"CD".as_slice()));
    assert_eq!(parallel(b, 123456, 2), Some(b"AB".as_slice()));
}

#[test]
fn empty_buffer() {
    let b: &[u8] = b"";
    assert_eq!(lookup_ipv4(b, 16777216), None);
    assert_eq!(guess(b, 16777216), None);
    assert_eq!(parallel(b, 16777216, 3), None);
}
