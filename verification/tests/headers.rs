use shamir::error::Error;
use shamir::header::{
    make_header, parse_i32_bytes, parse_shard_header, read_headers, validate_piece_sizes, VERSION,
};

fn header_with(version: i32, index: i32, prime: i32, filename: &str, body: &[u8]) -> Vec<u8> {
    let mut chunk = format!("{}\n{}\n{}\n{}\n", version, index, prime, filename).into_bytes();
    chunk.extend_from_slice(body);
    chunk
}

#[test]
fn test_make_header() {
    let filename: Vec<u8> = "testInput".as_bytes().to_vec();
    let header = make_header(2, 5717, &filename);
    assert_eq!(header, "1\n2\n5717\ntestInput\n".as_bytes().to_vec());
}

#[test]
fn test_parse_shard_header() {
    let chunk = header_with(VERSION, 3, 5717, "secret.bin", &[7, 8, 9, 10]);
    let parsed = parse_shard_header(&chunk).unwrap();
    assert_eq!(parsed.version, VERSION);
    assert_eq!(parsed.index, 3);
    assert_eq!(parsed.prime, 5717);
    assert_eq!(parsed.filename, "secret.bin".as_bytes().to_vec());
    assert_eq!(parsed.body, vec![7, 8, 9, 10]);
}

#[test]
fn test_parse_shard_header_truncated() {
    let chunk: Vec<u8> = "1\n2\n5717\n".as_bytes().to_vec();
    assert_eq!(parse_shard_header(&chunk).unwrap_err(), Error::MalformedHeader);
}

#[test]
fn test_parse_shard_header_bad_number() {
    let chunk = header_with(VERSION, 2, 5717, "name", b"xy");
    let mut bad = chunk.clone();
    bad[0] = b'v';
    assert_eq!(parse_shard_header(&bad).unwrap_err(), Error::MalformedHeader);
}

#[test]
fn test_parse_i32_bytes() {
    assert_eq!(parse_i32_bytes(&"5717".as_bytes().to_vec()), Ok(5717));
    assert_eq!(parse_i32_bytes(&"+12".as_bytes().to_vec()), Ok(12));
    assert_eq!(parse_i32_bytes(&"-1803".as_bytes().to_vec()), Ok(-1803));
    assert_eq!(parse_i32_bytes(&"2147483647".as_bytes().to_vec()), Ok(2147483647));
    assert_eq!(parse_i32_bytes(&"-2147483648".as_bytes().to_vec()), Ok(-2147483648));
    assert_eq!(
        parse_i32_bytes(&"2147483648".as_bytes().to_vec()),
        Err(Error::MalformedHeader)
    );
    assert_eq!(parse_i32_bytes(&"".as_bytes().to_vec()), Err(Error::MalformedHeader));
    assert_eq!(parse_i32_bytes(&"-".as_bytes().to_vec()), Err(Error::MalformedHeader));
    assert_eq!(parse_i32_bytes(&"12 ".as_bytes().to_vec()), Err(Error::MalformedHeader));
    assert_eq!(parse_i32_bytes(&"1 2".as_bytes().to_vec()), Err(Error::MalformedHeader));
}

#[test]
fn test_read_headers_ok() {
    let chunks = vec![
        header_with(VERSION, 1, 5717, "testInput", &[1, 2, 3, 4]),
        header_with(VERSION, 2, 5717, "testInput", &[5, 6, 7, 8]),
        header_with(VERSION, 3, 5717, "testInput", &[9, 10, 11, 12]),
    ];
    let (prime, filename, indices, bodies, body_len) = read_headers(&chunks).unwrap();
    assert_eq!(prime, 5717);
    assert_eq!(filename, "testInput".as_bytes().to_vec());
    assert_eq!(indices, vec![1, 2, 3]);
    assert_eq!(bodies.len(), 3);
    assert_eq!(bodies[1], vec![5, 6, 7, 8]);
    assert_eq!(body_len, 4);
}

#[test]
fn test_read_headers_differing_version() {
    let chunks = vec![
        header_with(VERSION, 1, 5717, "testInput", &[1, 2]),
        header_with(2, 2, 5717, "testInput", &[3, 4]),
    ];
    assert_eq!(read_headers(&chunks).unwrap_err(), Error::UnsupportedVersion);
}

#[test]
fn test_read_headers_duplicate_index() {
    let chunks = vec![
        header_with(VERSION, 1, 5717, "testInput", &[1, 2]),
        header_with(VERSION, 2, 5717, "testInput", &[3, 4]),
        header_with(VERSION, 2, 5717, "testInput", &[5, 6]),
    ];
    assert_eq!(read_headers(&chunks).unwrap_err(), Error::DuplicateIndex);
}

#[test]
fn test_read_headers_differing_primes() {
    let chunks = vec![
        header_with(VERSION, 1, 5717, "testInput", &[1, 2]),
        header_with(VERSION, 2, 1613, "testInput", &[3, 4]),
    ];
    assert_eq!(read_headers(&chunks).unwrap_err(), Error::DifferingPrimes);
}

#[test]
fn test_read_headers_differing_filenames() {
    let chunks = vec![
        header_with(VERSION, 1, 5717, "testInput", &[1, 2]),
        header_with(VERSION, 2, 5717, "otherName", &[3, 4]),
    ];
    assert_eq!(read_headers(&chunks).unwrap_err(), Error::DifferingFilename);
}

#[test]
fn test_read_headers_long_filename() {
    let long_name: String = "a".repeat(8143);
    let chunks = vec![
        header_with(VERSION, 1, 5717, &long_name, &[1, 2]),
        header_with(VERSION, 2, 5717, &long_name, &[3, 4]),
    ];
    assert_eq!(read_headers(&chunks).unwrap_err(), Error::FilenameTooLong);
}

#[test]
fn test_read_headers_odd_body() {
    let chunks = vec![
        header_with(VERSION, 1, 5717, "testInput", &[1, 2, 3]),
        header_with(VERSION, 2, 5717, "testInput", &[4, 5, 6]),
    ];
    assert_eq!(read_headers(&chunks).unwrap_err(), Error::OddBuffer);
}

#[test]
fn test_read_headers_mismatched_body_sizes() {
    let chunks = vec![
        header_with(VERSION, 1, 5717, "testInput", &[1, 2, 3, 4]),
        header_with(VERSION, 2, 5717, "testInput", &[5, 6]),
    ];
    assert_eq!(read_headers(&chunks).unwrap_err(), Error::MismatchedBufferSizes);
}

#[test]
fn test_validate_piece_sizes() {
    assert_eq!(validate_piece_sizes(&vec![100, 100, 100]), Ok(()));
    assert_eq!(
        validate_piece_sizes(&vec![100, 100, 99]),
        Err(Error::MismatchedFileLengths)
    );
}

#[test]
fn test_header_roundtrip_via_parse() {
    let filename: Vec<u8> = "archive.tar".as_bytes().to_vec();
    let mut chunk = make_header(7, 1613, &filename);
    chunk.extend_from_slice(&[0, 1, 2, 3, 4, 5]);
    let parsed = parse_shard_header(&chunk).unwrap();
    assert_eq!(parsed.version, VERSION);
    assert_eq!(parsed.index, 7);
    assert_eq!(parsed.prime, 1613);
    assert_eq!(parsed.filename, filename);
    assert_eq!(parsed.body, vec![0, 1, 2, 3, 4, 5]);
}
