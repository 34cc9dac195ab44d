use pwn_keepass::convert::{convert_line, convert_pwndb, convert_text_line, parse_count};
use pwn_keepass::error::{to_io_error, IoError, ParseError};
use pwn_keepass::progress::Progress;

const PASSWORD_LINE: &[u8] = b"5BAA61E4C9B93F3F0682250B6CF8331B7EE68FD8:12345";

const PASSWORD_RECORD: [u8; 24] = [
    0x5b, 0xaa, 0x61, 0xe4, 0xc9, 0xb9, 0x3f, 0x3f, 0x06, 0x82, 0x25, 0x0b, 0x6c, 0xf8, 0x33, 0x1b,
    0x7e, 0xe6, 0x8f, 0xd8, 0x00, 0x00, 0x30, 0x39,
];

fn line(digit: u8, count: &str) -> Vec<u8> {
    let mut bytes: Vec<u8> = vec![digit; 40];
    bytes.push(b':');
    bytes.extend_from_slice(count.as_bytes());
    bytes
}

fn convert(input: &[u8]) -> (Result<(), IoError>, Vec<u8>, Vec<u8>) {
    let mut output: Vec<u8> = Vec::new();
    let mut progress: Vec<u8> = Vec::new();
    let result = convert_pwndb(input, &mut output, &mut progress);
    (result, output, progress)
}

#[test]
fn a_line_becomes_digest_and_big_endian_count() {
    assert_eq!(convert_line(PASSWORD_LINE), Ok(PASSWORD_RECORD));
    assert_eq!(convert_text_line(PASSWORD_LINE), Ok(PASSWORD_RECORD));
}

#[test]
fn hexadecimal_digits_of_either_case() {
    let lower = b"5baa61e4c9b93f3f0682250b6cf8331b7ee68fd8:12345";
    let mixed = b"5bAA61e4C9b93F3f0682250b6cF8331B7ee68Fd8:12345";
    assert_eq!(convert_line(lower), Ok(PASSWORD_RECORD));
    assert_eq!(convert_line(mixed), Ok(PASSWORD_RECORD));
}

#[test]
fn the_separator_may_be_any_byte() {
    let mut expected: [u8; 24] = [0x11u8; 24];
    expected[20..].copy_from_slice(&[0, 0, 0, 9]);
    for separator in [b':', b' ', b';', b'9', b'\t'] {
        let mut bytes: Vec<u8> = vec![b'1'; 40];
        bytes.push(separator);
        bytes.push(b'9');
        assert_eq!(convert_line(&bytes), Ok(expected));
    }
}

#[test]
fn short_lines_are_rejected() {
    assert_eq!(convert_line(b""), Err(ParseError::ShortLine));
    assert_eq!(convert_line(&[b'a'; 40]), Err(ParseError::ShortLine));
    assert_eq!(convert_line(b"abc:1"), Err(ParseError::ShortLine));
    // A digest and a separator with nothing behind them leave no count.
    assert_eq!(convert_line(&line(b'a', "")), Err(ParseError::BadCount));
}

#[test]
fn digests_that_are_not_hexadecimal_are_rejected() {
    assert_eq!(convert_line(&line(b'g', "1")), Err(ParseError::BadDigest));
    assert_eq!(convert_line(&line(b' ', "1")), Err(ParseError::BadDigest));
    let mut late: Vec<u8> = line(b'a', "1");
    late[39] = b'x';
    assert_eq!(convert_line(&late), Err(ParseError::BadDigest));
    // Forty-one digits: the last of them is taken for the separator.
    let mut long: Vec<u8> = vec![b'a'; 41];
    long.push(b'7');
    let mut expected: [u8; 24] = [0xaau8; 24];
    expected[20..].copy_from_slice(&[0, 0, 0, 7]);
    assert_eq!(convert_line(&long), Ok(expected));
}

#[test]
fn counts_that_are_not_numbers_of_32_bits_are_rejected() {
    for count in ["x", "-1", " 1", "1 ", "1.5", "0x10", "4294967296", "99999999999999999999", "+", "1_000"] {
        assert_eq!(convert_line(&line(b'0', count)), Err(ParseError::BadCount));
    }
}

#[test]
fn counts_are_read_in_decimal() {
    assert_eq!(parse_count(b"0"), Some(0));
    assert_eq!(parse_count(b"7"), Some(7));
    assert_eq!(parse_count(b"007"), Some(7));
    assert_eq!(parse_count(b"+5"), Some(5));
    assert_eq!(parse_count(b"12345"), Some(12345));
    assert_eq!(parse_count(b"4294967295"), Some(u32::MAX));
    assert_eq!(parse_count(b"0000000000004294967295"), Some(u32::MAX));
    assert_eq!(parse_count(b"4294967296"), None);
    assert_eq!(parse_count(b"42949672950"), None);
    assert_eq!(parse_count(b""), None);
    assert_eq!(parse_count(b"+"), None);
    assert_eq!(parse_count(b"++1"), None);
    assert_eq!(parse_count(b"-0"), None);
    assert_eq!(parse_count(b"12a"), None);
    assert_eq!(parse_count(b"a12"), None);
    assert_eq!(parse_count(b"1\r"), None);
}

#[test]
fn lines_convert_in_their_order() {
    let mut input: Vec<u8> = Vec::new();
    input.extend_from_slice(&line(b'b', "2"));
    input.push(b'\n');
    input.extend_from_slice(&line(b'a', "1"));
    input.push(b'\n');
    let (result, output, _) = convert(&input);
    assert_eq!(result, Ok(()));
    let mut expected: Vec<u8> = vec![0xbb; 20];
    expected.extend_from_slice(&[0, 0, 0, 2]);
    expected.extend_from_slice(&[0xaa; 20]);
    expected.extend_from_slice(&[0, 0, 0, 1]);
    assert_eq!(output, expected);
}

#[test]
fn the_last_line_needs_no_terminator() {
    let mut input: Vec<u8> = line(b'a', "1");
    input.push(b'\n');
    input.extend_from_slice(&line(b'b', "2"));
    let (result, output, _) = convert(&input);
    assert_eq!(result, Ok(()));
    assert_eq!(output.len(), 48);
    assert_eq!(&output[44..], &[0, 0, 0, 2]);
}

#[test]
fn carriage_returns_before_line_feeds_are_dropped() {
    let mut input: Vec<u8> = line(b'a', "1");
    input.extend_from_slice(b"\r\n");
    input.extend_from_slice(&line(b'b', "2"));
    input.extend_from_slice(b"\r\n");
    let (result, output, _) = convert(&input);
    assert_eq!(result, Ok(()));
    assert_eq!(output.len(), 48);

    // Without a line feed behind it a carriage return belongs to the count.
    let mut input: Vec<u8> = line(b'a', "1");
    input.push(b'\r');
    let (result, output, _) = convert(&input);
    assert_eq!(result, Err(IoError::Other(ParseError::BadCount)));
    assert_eq!(output.len(), 0);
}

#[test]
fn empty_input_converts_to_an_empty_store() {
    let (result, output, progress) = convert(b"");
    assert_eq!(result, Ok(()));
    assert_eq!(output, Vec::<u8>::new());
    assert_eq!(progress, Vec::<u8>::new());
}

#[test]
fn conversion_appends_to_what_is_there() {
    let mut output: Vec<u8> = vec![1, 2, 3];
    let mut progress: Vec<u8> = vec![9];
    assert_eq!(convert_pwndb(PASSWORD_LINE, &mut output, &mut progress), Ok(()));
    assert_eq!(&output[..3], &[1, 2, 3]);
    assert_eq!(&output[3..], &PASSWORD_RECORD);
    assert_eq!(progress, vec![9, 100]);
}

#[test]
fn conversion_stops_at_the_first_malformed_line() {
    let mut input: Vec<u8> = line(b'a', "1");
    input.push(b'\n');
    input.extend_from_slice(&line(b'b', "2"));
    input.push(b'\n');
    input.extend_from_slice(&line(b'z', "3"));
    input.push(b'\n');
    input.extend_from_slice(&line(b'c', "x"));
    input.push(b'\n');
    let (result, output, progress) = convert(&input);
    assert_eq!(result, Err(IoError::Other(ParseError::BadDigest)));
    assert_eq!(output.len(), 48);
    assert_eq!(&output[..20], &[0xaa; 20]);
    assert_eq!(&output[24..44], &[0xbb; 20]);
    // 172 bytes in all, 42 and 84 of them consumed.
    assert_eq!(progress, vec![24, 48]);
}

#[test]
fn an_empty_line_is_a_short_line() {
    let mut input: Vec<u8> = line(b'a', "1");
    input.extend_from_slice(b"\n\n");
    input.extend_from_slice(&line(b'b', "2"));
    input.push(b'\n');
    let (result, output, _) = convert(&input);
    assert_eq!(result, Err(IoError::Other(ParseError::ShortLine)));
    assert_eq!(output.len(), 24);
}

#[test]
fn a_line_that_is_not_text_is_invalid_data() {
    let mut bytes: Vec<u8> = vec![b'a'; 40];
    bytes.push(0xff);
    bytes.push(b'1');
    // Taken by itself the line has a digest, a separator and a count.
    assert!(convert_line(&bytes).is_ok());
    assert_eq!(convert_text_line(&bytes), Err(IoError::InvalidData));
    let (result, output, _) = convert(&bytes);
    assert_eq!(result, Err(IoError::InvalidData));
    assert_eq!(output.len(), 0);
    // Text that is not ASCII is text all the same.
    let accented = "ééééééééééééééééééééé:1".as_bytes();
    assert_eq!(convert_text_line(accented), Err(IoError::Other(ParseError::BadDigest)));
}

#[test]
fn percentages_are_reported_once_each_and_ascend() {
    let mut input: Vec<u8> = Vec::new();
    let mut i: u32 = 0;
    while i < 4 {
        input.extend_from_slice(&line(b'a', "1"));
        input.push(b'\n');
        i += 1;
    }
    assert_eq!(input.len(), 172);
    let (result, _, progress) = convert(&input);
    assert_eq!(result, Ok(()));
    assert_eq!(progress, vec![24, 48, 73, 97]);

    let mut input: Vec<u8> = Vec::new();
    let mut i: u32 = 0;
    while i < 1000 {
        input.extend_from_slice(&line(b'a', "1"));
        input.push(b'\n');
        i += 1;
    }
    let (result, output, progress) = convert(&input);
    assert_eq!(result, Ok(()));
    assert_eq!(output.len(), 24000);
    assert_eq!(progress.len(), 97);
    assert_eq!(progress[0], 1);
    assert_eq!(progress[96], 97);
    let mut k: usize = 1;
    while k < progress.len() {
        assert!(progress[k - 1] < progress[k]);
        assert!(progress[k] <= 100);
        k += 1;
    }
}

#[test]
fn a_single_line_without_terminator_reaches_all_at_once() {
    let (result, _, progress) = convert(&line(b'a', "1"));
    assert_eq!(result, Ok(()));
    assert_eq!(progress, vec![100]);
}

#[test]
fn progress_counts_in_whole_percent() {
    let mut progress = Progress::new(200);
    assert_eq!(progress.percentage(), 0);
    assert_eq!(progress.advance(1), None);
    assert_eq!(progress.advance(1), Some(1));
    assert_eq!(progress.advance(0), None);
    assert_eq!(progress.advance(1), None);
    assert_eq!(progress.advance(96), Some(49));
    assert_eq!(progress.percentage(), 49);
    assert_eq!(progress.advance(100), Some(99));
    assert_eq!(progress.advance(1), Some(100));
    assert_eq!(progress.advance(500), None);
    assert_eq!(progress.percentage(), 100);
}

#[test]
fn progress_of_an_input_without_length() {
    let mut progress = Progress::new(0);
    assert_eq!(progress.percentage(), 0);
    assert_eq!(progress.advance(0), None);
    assert_eq!(progress.advance(5), Some(100));
    assert_eq!(progress.advance(5), None);
}

#[test]
fn progress_on_the_largest_inputs() {
    let mut progress = Progress::new(u64::MAX);
    assert_eq!(progress.advance(u64::MAX / 2), Some(49));
    assert_eq!(progress.advance(u64::MAX / 2), Some(99));
    assert_eq!(progress.advance(1), Some(100));
    assert_eq!(progress.advance(u64::MAX), None);
    assert_eq!(progress.percentage(), 100);
}

#[test]
fn malformed_lines_are_errors_of_the_class_other() {
    assert_eq!(to_io_error(ParseError::ShortLine), IoError::Other(ParseError::ShortLine));
    assert_eq!(to_io_error(ParseError::BadDigest), IoError::Other(ParseError::BadDigest));
    assert_eq!(to_io_error(ParseError::BadCount), IoError::Other(ParseError::BadCount));
    assert_ne!(to_io_error(ParseError::BadCount), IoError::InvalidData);
}

#[test]
fn errors_say_what_went_wrong() {
    assert_eq!(ParseError::ShortLine.message(), "line is shorter than 41 bytes");
    assert_eq!(ParseError::BadDigest.message(), "digest is not 40 hexadecimal digits");
    assert_eq!(ParseError::BadCount.message(), "count is not a decimal number of 32 bits");
    assert_eq!(IoError::InvalidData.message(), "stream did not contain valid UTF-8");
    assert_eq!(
        to_io_error(ParseError::BadCount).message(),
        "count is not a decimal number of 32 bits"
    );
}
