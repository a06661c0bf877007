//! Tests of the line scanner and the fast decimal codec.
use ip_location_db_lookup::into_num;
use ip_location_db_lookup::ipv4_num;
use ip_location_db_lookup::mask::mask_128;
use ip_location_db_lookup::mask::mask_256;

#[test]
fn test_find_nl() {
    assert_eq!(ip_location_db_lookup::find_nl(b"16777472,16778239,CN\n"), 20);
    assert_eq!(ip_location_db_lookup::find_nl(b"223.255.252.0,223.255.253.255,CN\n"), 32);
    assert_eq!(ip_location_db_lookup::find_nl(b"2.17.192.0,2.17.192.255,US\n"), 26);
    assert_eq!(ip_location_db_lookup::find_nl(b"17301760,17302015,38345,Internet Domain Name System Beijing Engineering Resrarch Center Ltd.\n"), 92);
    assert_eq!(ip_location_db_lookup::find_nl(b"17367040,17432575,4788,TM TECHNOLOGY SERVICES SDN BHD\n17435136,17435391,148000,National Knowledge Network\n"), 53);
}

#[test]
fn test_str_to_num() {
    assert_eq!(into_num(b"16777216"), 16777216);
    assert_eq!(into_num(b"971448832"), 971448832);
    assert_eq!(into_num(b"3758096128"), 3758096128);
}

#[test]
fn find_nl() {
    assert_eq!(ip_location_db_lookup::find_nl(b"16777472,16778239,CN\n"), 20);
    assert_eq!(ip_location_db_lookup::find_nl(b"223.255.252.0,223.255.253.255,CN\n"), 32);
    assert_eq!(ip_location_db_lookup::find_nl(b"2.17.192.0,2.17.192.255,US\n"), 26);
    assert_eq!(ip_location_db_lookup::find_nl(b"17301760,17302015,38345,Internet Domain Name System Beijing Engineering Resrarch Center Ltd.\n"), 92);
    assert_eq!(ip_location_db_lookup::find_nl(b"17367040,17432575,4788,TM TECHNOLOGY SERVICES SDN BHD\n17435136,17435391,148000,National Knowledge Network\n"), 53);
}

#[test]
fn str_to_num() {
    assert_eq!(into_num(b"16777216"), 16777216);
    assert_eq!(into_num(b"971448832"), 971448832);
    assert_eq!(into_num(b"3758096128"), 3758096128);
}

#[test]
fn str_to_num_digit_counts() {
    assert_eq!(into_num(b"1"), 1);
    assert_eq!(into_num(b"0"), 0);
    assert_eq!(into_num(b"42"), 42);
    assert_eq!(into_num(b"999999"), 999999);
    assert_eq!(into_num(b"1000000"), 1000000);
    assert_eq!(into_num(b"4294967295"), 4294967295);
}

#[test]
fn mask_matches_bytewise_comparison() {
    let a: &[u8] = b"16777472,16778239,CN\n16777472,16778239";
    let b: &[u8] = b"16777473,16778239,CN\n16777472,16778239";
    let mut expect16: u32 = 0;
    for i in 0..16 {
        if a[i] == b[i] {
            expect16 |= 1 << i;
        }
    }
    assert_eq!(mask_128(a, b), expect16);

    let mut expect32: u32 = 0;
    for i in 0..32 {
        if a[i] == b[i] {
            expect32 |= 1 << i;
        }
    }
    assert_eq!(mask_256(a, b), expect32);

    let commas: &[u8] = &[b','; 16];
    assert_eq!(mask_128(b"16777216,16777471", commas), 1 << 8);
}

#[test]
fn ipv4_to_num() {
    assert_eq!(ipv4_num(1, 0, 0, 0), 16777216);
    assert_eq!(ipv4_num(2, 16, 90, 0), 34626048);
    assert_eq!(ipv4_num(217, 163, 135, 112), 3651372912);
    assert_eq!(ipv4_num(223, 255, 255, 255), 3758096383);
}
