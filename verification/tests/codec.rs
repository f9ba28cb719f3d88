use shamir::buffer::{generate_buffer, interpolate_buffer, validate_buffers};
use shamir::codec::{binary_buffer_to_points, encode_payload, generate_string, interpolate_string};
use shamir::error::Error;
use shamir::progress::{NoProgress, ProgressLog};

fn choose_n_from<T>(source: &Vec<T>, n: usize) -> Vec<T>
where
    T: Clone,
{
    let mut source_copy = source.clone();
    (0..n)
        .map(|_| source_copy.remove(rand::random_range(0..source_copy.len())).clone())
        .collect()
}

fn assert_progress_monotone(entries: &[(usize, usize)]) {
    for i in 0..entries.len() {
        assert!(entries[i].0 <= entries[i].1);
        if i > 0 {
            assert!(entries[i - 1].0 <= entries[i].0);
        }
    }
}

//    it "generates expected point buffer given known inputs" do
#[test]
fn test_generate_buffer() {
    let secret: Vec<u8> = "1234".as_bytes().to_vec();
    let total_pieces: i32 = 6;
    let required_pieces: i32 = 3;
    let prime: i32 = 1613;

    let mut progress = NoProgress::new();
    let pieces = generate_buffer(&secret, total_pieces, required_pieces, prime, &mut progress);

    assert_eq!(pieces.len(), total_pieces as usize);
}

//    it "validates buffers" do
#[test]
fn test_validate_buffers() {
    let secret: Vec<u8> = (1..32).map(|_| rand::random()).collect();
    let prime: i32 = 5717;

    let mut progress = NoProgress::new();
    let mut buffers = generate_buffer(&secret, 5, 3, prime, &mut progress);
    buffers[0].1.remove(1);

    let mut progress = NoProgress::new();
    assert!(interpolate_buffer(&buffers, prime, &mut progress).is_err());
}

#[test]
fn test_differing_buffer_lengths_error() {
    let secret: Vec<u8> = vec![7, 8, 9];
    let prime: i32 = 5717;

    let mut progress = NoProgress::new();
    let mut buffers = generate_buffer(&secret, 4, 2, prime, &mut progress);
    buffers[2].1.pop();

    assert_eq!(validate_buffers(&buffers), Err(Error::DifferingBufferLengths));
    let mut progress = NoProgress::new();
    assert_eq!(
        interpolate_buffer(&buffers, prime, &mut progress),
        Err(Error::DifferingBufferLengths)
    );
}

fn roundtrip_buffer(secret: &Vec<u8>) -> (Result<Vec<u8>, Error>, usize) {
    let total_pieces: i32 = 8;
    let required_pieces: i32 = 5;
    let prime: i32 = 5717;

    let mut generate_log = ProgressLog::new();
    let pieces = generate_buffer(secret, total_pieces, required_pieces, prime, &mut generate_log);
    assert_progress_monotone(&generate_log.entries);

    let mut interpolate_log = ProgressLog::new();
    let result = interpolate_buffer(
        &choose_n_from(&pieces, required_pieces as usize),
        prime,
        &mut interpolate_log,
    );
    assert_progress_monotone(&interpolate_log.entries);

    (result, generate_log.entries.len() + interpolate_log.entries.len())
}

//    it "reports progress for buffers" do
#[test]
fn test_report_progress_buffers() {
    let secret: Vec<u8> = (0..32).map(|_| rand::random::<u8>()).collect();
    let (result, progress_callbacks) = roundtrip_buffer(&secret);
    result.unwrap();
    assert_eq!(progress_callbacks, 2 * secret.len());
}

//    it "successfully roundtrips a random buffer" do
#[test]
fn test_roundtrip_buffer() {
    let secret: Vec<u8> = (0..32).map(|_| rand::random::<u8>()).collect();
    let (result, _) = roundtrip_buffer(&secret);
    assert_eq!(secret, result.unwrap());
}

fn roundtrip_string(secret: &str) -> (Result<Vec<u8>, Error>, usize) {
    let total_pieces: i32 = 8;
    let required_pieces: i32 = 5;
    let prime: i32 = 5717;
    let secret_bytes: Vec<u8> = secret.as_bytes().to_vec();

    let mut generate_log = ProgressLog::new();
    let pieces = generate_string(
        &secret_bytes,
        total_pieces,
        required_pieces,
        prime,
        &mut generate_log,
    );
    assert_progress_monotone(&generate_log.entries);

    let mut interpolate_log = ProgressLog::new();
    let result = interpolate_string(
        &choose_n_from(&pieces, required_pieces as usize),
        prime,
        &mut interpolate_log,
    );
    assert_progress_monotone(&interpolate_log.entries);

    (result, generate_log.entries.len() + interpolate_log.entries.len())
}

//    it "successfully roundtrips a string" do
#[test]
fn test_roundtrip_string() {
    let secret: String = String::from("1234567890123456789012");
    let (result, _) = roundtrip_string(secret.as_str());
    assert_eq!(secret.as_bytes().to_vec(), result.unwrap());
}

//    it "reports progress for strings" do
#[test]
fn test_report_progress_string() {
    let secret: String = String::from("1234567890123456789012");
    let (result, progress_callbacks) = roundtrip_string(secret.as_str());
    result.unwrap();
    assert_eq!(progress_callbacks, secret.len() * 2);
}

#[test]
fn test_encode_payload_little_endian() {
    let ys: Vec<i16> = vec![0x12, 0x1FF, 0];
    assert_eq!(encode_payload(&ys), vec![0x12, 0x00, 0xFF, 0x01, 0x00, 0x00]);
}

#[test]
fn test_binary_buffer_to_points() {
    let payload: Vec<u8> = vec![0x12, 0x00, 0xFF, 0xFF, 0x00, 0x7D];
    assert_eq!(
        binary_buffer_to_points(&payload),
        Ok(vec![0x12, -1, 32000])
    );
}

#[test]
fn test_binary_buffer_odd_length() {
    let payload: Vec<u8> = vec![0x12, 0x00, 0xFF];
    assert_eq!(binary_buffer_to_points(&payload), Err(Error::MalformedShard));
}

#[test]
fn test_interpolate_string_malformed_shard() {
    let secret_bytes: Vec<u8> = vec![1, 2, 3];
    let mut progress = NoProgress::new();
    let mut pieces = generate_string(&secret_bytes, 4, 2, 1613, &mut progress);
    pieces[1].1.pop();
    let mut progress = NoProgress::new();
    assert_eq!(
        interpolate_string(&pieces, 1613, &mut progress),
        Err(Error::MalformedShard)
    );
}

#[test]
fn test_generate_buffer_empty_secret() {
    let secret: Vec<u8> = vec![];
    let mut log = ProgressLog::new();
    let pieces = generate_buffer(&secret, 3, 2, 5717, &mut log);
    assert_eq!(pieces.len(), 3);
    for piece in &pieces {
        assert_eq!(piece.1.len(), 0);
    }
    assert_eq!(log.entries.len(), 0);
}

#[test]
fn test_generate_string_shard_shape() {
    let secret_bytes: Vec<u8> = vec![10, 20, 30, 40];
    let mut progress = NoProgress::new();
    let pieces = generate_string(&secret_bytes, 5, 3, 5717, &mut progress);
    assert_eq!(pieces.len(), 5);
    for (k, piece) in pieces.iter().enumerate() {
        assert_eq!(piece.0, k as i32 + 1);
        assert_eq!(piece.1.len(), 2 * secret_bytes.len());
    }
}
