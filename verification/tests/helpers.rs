use chrono::DateTime;

use cvvc::helpers::{
    add_to_map_of_vecs, datetime_to_bytes, shorten_and_prefix_message, timestamped_name,
    u16_from_be_bytes_unchecked, u32_from_be_bytes_unchecked, MapOfVecs,
};
use cvvc::moments::Timestamp;

fn moment(text: &str) -> Timestamp {
    let d = DateTime::parse_from_rfc3339(text).unwrap();
    Timestamp::new(
        d.timestamp(),
        d.timestamp_subsec_nanos(),
        d.offset().local_minus_utc(),
    )
    .unwrap()
}

#[test]
fn u32_from_be_bytes_unchecked_succeeds_if_at_start() {
    let test_data = [56, 72, 129, 24, 216, 87, 25, 1];
    let expected_result = 944275736;

    let test_output = u32_from_be_bytes_unchecked(&test_data, 0);

    assert_eq!(expected_result, test_output);
}

#[test]
fn u32_from_be_bytes_unchecked_succeeds_if_at_middle() {
    let test_data = [56, 72, 129, 24, 216, 87, 25, 1];
    let expected_result = 2165889111;

    let test_output = u32_from_be_bytes_unchecked(&test_data, 2);

    assert_eq!(expected_result, test_output);
}

#[test]
fn u32_from_be_bytes_unchecked_succeeds_if_at_end() {
    let test_data = [56, 72, 129, 24, 216, 87, 25, 1];
    let expected_result = 3629586689;

    let test_output = u32_from_be_bytes_unchecked(&test_data, 4);

    assert_eq!(expected_result, test_output);
}

#[test]
fn u16_from_be_bytes_unchecked_succeeds_if_at_start() {
    let test_data = [56, 72, 129, 24, 216, 25, 1];
    let expected_result = 14408;

    let test_output = u16_from_be_bytes_unchecked(&test_data, 0);

    assert_eq!(expected_result, test_output);
}

#[test]
fn u16_from_be_bytes_unchecked_succeeds_if_at_middle() {
    let test_data = [56, 72, 129, 24, 216, 25, 1];
    let expected_result = 55321;

    let test_output = u16_from_be_bytes_unchecked(&test_data, 4);

    assert_eq!(expected_result, test_output);
}

#[test]
fn u16_from_be_bytes_unchecked_succeeds_if_at_end() {
    let test_data = [56, 72, 129, 24, 216, 25, 1];
    let expected_result = 6401;

    let test_output = u16_from_be_bytes_unchecked(&test_data, 5);

    assert_eq!(expected_result, test_output);
}

#[test]
fn datetime_to_bytes_succeeds() {
    let test_data = moment("2026-05-18T21:13:02.598+01:00");
    let expected_result = [106, 11, 114, 206, 35, 164, 193, 128];

    let test_output = datetime_to_bytes(&test_data);

    assert_eq!(test_output, expected_result);
}

#[test]
fn add_to_map_of_vecs_succeeds_when_key_present() {
    let mut test_map = MapOfVecs::<String>::new();
    test_map.insert_missing("test_key", vec!["existing value".to_string()]);
    let new_data = "new data".to_string();

    add_to_map_of_vecs(&mut test_map, "test_key", new_data);

    let test_output = test_map.get("test_key").unwrap();
    assert_eq!(*test_output, vec!["existing value", "new data"]);
}

#[test]
fn add_to_map_of_vecs_succeeds_when_key_not_present() {
    let mut test_map = MapOfVecs::<String>::new();
    let test_data = "test data".to_string();

    add_to_map_of_vecs(&mut test_map, "data key", test_data);

    let test_output = test_map.get("data key").unwrap();
    assert_eq!(*test_output, vec!["test data"]);
}

#[test]
fn timestamped_name_succeeds() {
    let test_name = "Caitlin <cait@example.com>";
    let test_timestamp = moment("2026-05-18T21:13:02.598+01:00");

    let test_output = timestamped_name(test_name, &test_timestamp);

    assert_eq!("Caitlin <cait@example.com> 1779135182 +0100", test_output);
}

#[test]
fn shorten_and_prefix_message_succeeds() {
    let test_message = "This is a message\nwith multiple\nlines in it\n\n";
    let test_prefix = "(flag)";

    let test_output = shorten_and_prefix_message(test_prefix, test_message);

    assert_eq!("(flag): This is a message", test_output);
}
