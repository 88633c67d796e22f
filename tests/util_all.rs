use chrono::{Local, Timelike};
use rocketmq_route::util_all::{
    bytes_to_string, char_to_byte, dirs_to_ensure, is_it_time_to_do, is_it_time_to_do_at,
    offset_to_file_name, split_chars, string_to_bytes, time_millis_to_human_string,
    time_millis_to_human_string2, time_millis_to_human_string3, used_share_hundredths, write_int,
    write_short,
};

#[test]
fn bytes_to_string_converts_correctly() {
    let bytes = [0x41, 0x42, 0x43];
    assert_eq!(bytes_to_string(&bytes), "414243");
}

#[test]
fn offset_to_file_name_formats_correctly() {
    assert_eq!(offset_to_file_name(123), "00000000000000000123");
}

#[test]
fn bytes_to_string_uses_upper_case_and_keeps_leading_zero() {
    assert_eq!(bytes_to_string(&[0x0a, 0xff, 0x00]), "0AFF00");
    assert_eq!(bytes_to_string(&[]), "");
}

#[test]
fn offset_to_file_name_extremes() {
    assert_eq!(offset_to_file_name(0), "00000000000000000000");
    assert_eq!(offset_to_file_name(u64::MAX), "18446744073709551615");
}

#[test]
fn write_int_writes_hex_digits_at_position() {
    let mut buf = ['.'; 12];
    write_int(&mut buf, 2, 0x1A2B);
    assert_eq!(buf.iter().collect::<String>(), "..1A2B......");
}

#[test]
fn write_int_negative_is_twos_complement() {
    let mut buf = ['.'; 8];
    write_int(&mut buf, 0, -1);
    assert_eq!(buf.iter().collect::<String>(), "FFFFFFFF");
}

#[test]
fn write_short_writes_hex_digits() {
    let mut buf = ['.'; 6];
    write_short(&mut buf, 1, -2);
    assert_eq!(buf.iter().collect::<String>(), ".FFFE.");
    let mut buf2 = ['.'; 3];
    write_short(&mut buf2, 2, 0);
    assert_eq!(buf2.iter().collect::<String>(), "..0");
}

#[test]
fn char_to_byte_reads_hex_digits() {
    assert_eq!(char_to_byte('7'), 7);
    assert_eq!(char_to_byte('C'), 12);
    assert_eq!(char_to_byte('z'), 0);
}

#[test]
fn string_to_bytes_round_trips_hex() {
    assert_eq!(string_to_bytes("414243".to_string()), Some(vec![0x41, 0x42, 0x43]));
    assert_eq!(string_to_bytes("0aff".to_string()), Some(vec![0x0a, 0xff]));
    assert_eq!(string_to_bytes("abc".to_string()), Some(vec![0xab]));
    assert_eq!(string_to_bytes(String::new()), None);
}

#[test]
fn string_to_bytes_refuses_multibyte_text_short_of_digits() {
    // four bytes of UTF-8 but only two characters
    assert_eq!(string_to_bytes("\u{e9}\u{e9}".to_string()), None);
}

#[test]
fn split_chars_keeps_empty_pieces() {
    let s: Vec<char> = "1;;2;".chars().collect();
    let parts = split_chars(&s, ';');
    let texts: Vec<String> = parts.iter().map(|p| p.iter().collect()).collect();
    assert_eq!(texts, vec!["1", "", "2", ""]);
}

#[test]
fn is_it_time_to_do_at_matches_listed_hour() {
    assert!(is_it_time_to_do_at("3;14;22", 14));
    assert!(!is_it_time_to_do_at("3;14;22", 15));
    assert!(is_it_time_to_do_at("x;5", 0));
    assert!(!is_it_time_to_do_at("24", 0));
}

#[test]
fn is_it_time_to_do_accepts_every_hour() {
    let all: Vec<String> = (0..24).map(|h| h.to_string()).collect();
    assert!(is_it_time_to_do(&all.join(";")));
}

#[test]
fn dirs_to_ensure_splits_trimmed_list() {
    assert_eq!(dirs_to_ensure(" /a,/b ", ','), vec!["/a".to_string(), "/b".to_string()]);
    assert_eq!(dirs_to_ensure("/single", ','), vec!["/single".to_string()]);
    assert!(dirs_to_ensure("", ',').is_empty());
}

#[test]
fn time_millis_to_human_string_formats_correctly() {
    let timestamp = 1625140800000; // 2021-07-01T12:00:00Z
    assert_eq!(time_millis_to_human_string(timestamp).unwrap(), "20210701120000000");
}

#[test]
fn time_millis_to_human_string2_formats_with_separators() {
    assert_eq!(time_millis_to_human_string2(1625140800123).unwrap(), "2021-07-01 12:00:00,123");
    assert_eq!(time_millis_to_human_string2(-62003983910955).unwrap(), "0005-03-04 07:08:09,045");
}

#[test]
fn time_millis_to_human_string3_formats_compactly() {
    assert_eq!(time_millis_to_human_string3(1625140800999).unwrap(), "20210701120000");
    assert_eq!(time_millis_to_human_string3(0).unwrap(), "19700101000000");
}

#[test]
fn year_outside_four_digits() {
    assert_eq!(time_millis_to_human_string(253402300800000).unwrap(), "+100000101000000000");
    assert_eq!(time_millis_to_human_string3(253402300800000).unwrap(), "100000101000000");
    assert_eq!(time_millis_to_human_string(-62198755200000).unwrap(), "-00010101000000000");
    assert_eq!(time_millis_to_human_string3(-62198755200000).unwrap(), "-0010101000000");
}

#[test]
fn time_out_of_calendar_range_is_none() {
    assert_eq!(time_millis_to_human_string(i64::MAX), None);
    assert_eq!(time_millis_to_human_string2(i64::MIN), None);
    assert_eq!(time_millis_to_human_string3(i64::MAX), None);
}

#[test]
fn used_share_rounds_up() {
    assert_eq!(used_share_hundredths(100, 40, 60), Some(50));
    assert_eq!(used_share_hundredths(100, 99, 2), Some(34));
    assert_eq!(used_share_hundredths(10, 20, 5), Some(0));
    assert_eq!(used_share_hundredths(u64::MAX, 0, u64::MAX), Some(50));
    assert_eq!(used_share_hundredths(7, 0, 0), Some(100));
    assert_eq!(used_share_hundredths(0, 0, 0), None);
}

#[test]
fn is_it_time_to_do_returns_true_when_current_hour_is_in_input() {
    let current_hour = Local::now().hour();
    assert_eq!(is_it_time_to_do(&current_hour.to_string()), true);
}

#[test]
fn is_it_time_to_do_returns_false_when_current_hour_is_not_in_input() {
    let current_hour = (Local::now().hour() + 1) % 24;
    assert_eq!(is_it_time_to_do(&current_hour.to_string()), false);
}
