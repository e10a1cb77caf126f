use hoptrace::models::hex_byte_string;
use hoptrace::models::parse_prefix_list;
use hoptrace::models::prefix_of_id;
use hoptrace::models::Repeater;

fn make(id: &str) -> Repeater {
    Repeater {
        id: id.to_string(),
        name: "Test".to_string(),
        lat_udeg: 0,
        lon_udeg: 0,
    }
}

#[test]
fn prefix_reads_first_two_hex_digits() {
    assert_eq!(make("A00000").prefix(), 0xA0);
    assert_eq!(make("ff1234").prefix(), 0xFF);
    assert_eq!(make("0x1B00").prefix(), 0x1B);
    assert_eq!(make("09zz").prefix(), 0x09);
}

#[test]
fn prefix_of_malformed_id_is_zero() {
    assert_eq!(prefix_of_id(""), 0);
    assert_eq!(prefix_of_id("G"), 0);
    assert_eq!(prefix_of_id("0x"), 0);
    assert_eq!(prefix_of_id("0xg1"), 0);
    assert_eq!(prefix_of_id("zz00"), 0);
}

#[test]
fn prefix_list_splits_on_both_separators() {
    assert_eq!(parse_prefix_list("a0:b1:c2"), vec![0xA0, 0xB1, 0xC2]);
    assert_eq!(parse_prefix_list("a0,b1,c2"), vec![0xA0, 0xB1, 0xC2]);
    assert_eq!(parse_prefix_list("0xA0:0xB1"), vec![0xA0, 0xB1]);
}

#[test]
fn prefix_list_skips_empty_and_zeroes_unparsable_tokens() {
    assert_eq!(parse_prefix_list(""), Vec::<u8>::new());
    assert_eq!(parse_prefix_list("::"), Vec::<u8>::new());
    assert_eq!(parse_prefix_list("a0::c2"), vec![0xA0, 0xC2]);
    assert_eq!(parse_prefix_list("zz:b1"), vec![0x00, 0xB1]);
    assert_eq!(parse_prefix_list("abc:b1"), vec![0x00, 0xB1]);
}

#[test]
fn hex_byte_string_is_two_lowercase_digits() {
    assert_eq!(hex_byte_string(0x00), "00");
    assert_eq!(hex_byte_string(0x0A), "0a");
    assert_eq!(hex_byte_string(0xBB), "bb");
    assert_eq!(hex_byte_string(0xFF), "ff");
    assert_eq!(hex_byte_string(0x10), "10");
}
