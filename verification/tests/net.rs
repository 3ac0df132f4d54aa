use cvvc::net::client::PackFetchCommand;
use cvvc::net::{PktLine, PktLineIterator};

fn all_lines(mut lines: PktLineIterator) -> Vec<PktLine> {
    let mut out = vec![];
    while let Some(line) = lines.next() {
        out.push(line.unwrap());
    }
    out
}

#[test]
fn iterator_succeeds_on_valid_data() {
    let test_data = b"000dBiscuits\x0a000aCakes\x0a";

    let test_object = PktLineIterator::from(&test_data[..]);
    let test_output = all_lines(test_object);

    assert_eq!(
        test_output,
        vec![
            PktLine::Line(b"Biscuits\x0a".to_vec()),
            PktLine::Line(b"Cakes\x0a".to_vec())
        ]
    );
}

#[test]
fn iterator_succeeds_on_valid_data_with_flush() {
    let test_data = b"000dBiscuits\x0a0000000aCakes\x0a";

    let test_object = PktLineIterator::from(&test_data[..]);
    let test_output = all_lines(test_object);

    assert_eq!(
        test_output,
        vec![
            PktLine::Line(b"Biscuits\x0a".to_vec()),
            PktLine::Flush,
            PktLine::Line(b"Cakes\x0a".to_vec())
        ]
    );
}

#[test]
fn pkt_line_from_pack_fetch_command_succeeds_for_have() {
    let test_input =
        PackFetchCommand::Have("1234123412341234123412341234123412341234".to_string());

    let test_output = test_input.to_line();

    assert_eq!(
        PktLine::Line(vec![
            104, 97, 118, 101, 32, 49, 50, 51, 52, 49, 50, 51, 52, 49, 50, 51, 52, 49, 50, 51,
            52, 49, 50, 51, 52, 49, 50, 51, 52, 49, 50, 51, 52, 49, 50, 51, 52, 49, 50, 51, 52,
            49, 50, 51, 52, 10
        ]),
        test_output
    );
}

#[test]
fn pkt_line_from_pack_fetch_command_succeeds_for_want() {
    let test_input =
        PackFetchCommand::Want("1234123412341234123412341234123412341234".to_string());

    let test_output = test_input.to_line();

    assert_eq!(
        PktLine::Line(vec![
            119, 97, 110, 116, 32, 49, 50, 51, 52, 49, 50, 51, 52, 49, 50, 51, 52, 49, 50, 51,
            52, 49, 50, 51, 52, 49, 50, 51, 52, 49, 50, 51, 52, 49, 50, 51, 52, 49, 50, 51, 52,
            49, 50, 51, 52, 10
        ]),
        test_output
    );
}

#[test]
fn pkt_line_byte_iterator_works_for_flush_packet() {
    let test_input = PktLine::Flush;

    let test_output: Vec<u8> = test_input.bytes();

    assert_eq!(*b"0000", *test_output);
}

#[test]
fn pkt_line_byte_iterator_works_for_delim_packet() {
    let test_input = PktLine::Delimiter;

    let test_output: Vec<u8> = test_input.bytes();

    assert_eq!(*b"0001", *test_output);
}

#[test]
fn pkt_line_byte_iterator_works_for_line_packet() {
    let test_input = PktLine::Line(b"command=ls-refs\x0a".to_vec());

    let test_output: Vec<u8> = test_input.bytes();

    assert_eq!(*b"0014command=ls-refs\x0a", *test_output);
}
