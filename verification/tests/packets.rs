use cch23::packets::{cube_i32, d1, parse_packet_id, sled_id, PacketError};

#[test]
fn xor_then_cube() {
    assert_eq!(sled_id("4/8"), Ok(1728));
    assert_eq!(sled_id("10"), Ok(1000));
    assert_eq!(sled_id("4/5/8/10"), Ok(27));
    assert_eq!(sled_id("4/8").unwrap().to_string(), "1728");
}

#[test]
fn d1_on_valid_paths() {
    assert_eq!(d1("4/8"), 1728);
    assert_eq!(d1("4/5/8/10"), 27);
    assert_eq!(d1("//-3/"), -27);
}

#[test]
fn empty_fields_are_skipped() {
    assert_eq!(sled_id(""), Ok(0));
    assert_eq!(sled_id("/"), Ok(0));
    assert_eq!(sled_id("//4///8//"), Ok(1728));
}

#[test]
fn signs_and_negative_ids() {
    assert_eq!(sled_id("+3"), Ok(27));
    assert_eq!(sled_id("-3"), Ok(-27));
    assert_eq!(sled_id("-1/0"), Ok(-1));
}

#[test]
fn invalid_ids() {
    assert_eq!(sled_id("abc"), Err(PacketError::InvalidPacketId));
    assert_eq!(sled_id("4/x/8"), Err(PacketError::InvalidPacketId));
    assert_eq!(sled_id("-"), Err(PacketError::InvalidPacketId));
    assert_eq!(sled_id("+"), Err(PacketError::InvalidPacketId));
    assert_eq!(sled_id("2147483648"), Err(PacketError::InvalidPacketId));
    assert_eq!(sled_id("4 "), Err(PacketError::InvalidPacketId));
}

#[test]
fn cube_overflow() {
    assert_eq!(sled_id("1291"), Err(PacketError::Overflow));
    assert_eq!(sled_id("1290"), Ok(2146689000));
    assert_eq!(sled_id("-1291"), Err(PacketError::Overflow));
    assert_eq!(sled_id("2147483647"), Err(PacketError::Overflow));
}

#[test]
fn parse_matches_from_str() {
    let cases = [
        "0", "-0", "+0", "007", "-2147483648", "2147483647", "-2147483649", "99999999999999",
        "", "+", "-", "+-1", "1a", "٣", " 1",
    ];
    for c in cases {
        let b = c.as_bytes();
        assert_eq!(parse_packet_id(b, 0, b.len()), c.parse::<i32>().ok(), "case {:?}", c);
    }
}

#[test]
fn cube_matches_checked_pow() {
    for x in [0, 1, -1, 1290, 1291, -1290, -1291, 46340, 46341, i32::MAX, i32::MIN] {
        assert_eq!(cube_i32(x), x.checked_pow(3));
    }
}

#[test]
fn field_order_does_not_matter() {
    assert_eq!(sled_id("4/5/8/10"), sled_id("10/8//5/4"));
    assert_eq!(sled_id("-3/7/7"), sled_id("7/-3/7"));
    assert_eq!(sled_id("x/4"), sled_id("4/x"));
}

#[test]
fn repeated_id_cancels() {
    assert_eq!(sled_id("4/8/123/123"), sled_id("4/8"));
    assert_eq!(sled_id("4/8/-2147483648/-2147483648"), sled_id("4/8"));
    assert_eq!(sled_id("/0/0"), sled_id(""));
}
