//! The string/shard codec: serialises per-shard y-sequences as signed
//! little-endian 16-bit integers packed into byte payloads, and the inverse.

use vstd::prelude::*;

use vstd::arithmetic::div_mod::lemma_fundamental_div_mod;

use crate::buffer::{
    buffer_rows_ok, buffers_view, generate_buffer, interpolate_buffer, interpolate_buffer_spec,
    lemma_roundtrip_pair_buffer, rows_match,
};
use crate::error::Error;
use crate::field::is_prime;
use crate::progress::{progress_trace, ProgressSink};

verus! {

/// Little-endian byte serialisation of non-negative 16-bit values: two
/// bytes per value, low byte first.
pub open spec fn encode_spec(ys: Seq<i16>) -> Seq<u8> {
    Seq::new(
        2 * ys.len(),
        |i: int|
            if i % 2 == 0 {
                ((ys[i / 2] as int) % 256) as u8
            } else {
                ((ys[i / 2] as int) / 256) as u8
            },
    )
}

/// The signed 16-bit value a little-endian byte pair holds.
pub open spec fn i16_from_le(lo: u8, hi: u8) -> i16 {
    let v = lo as int + 256 * (hi as int);
    if v < 32768 {
        v as i16
    } else {
        (v - 65536) as i16
    }
}

/// Deserialisation of a payload: the y-sequence, or `MalformedShard` for an
/// odd byte length.
pub open spec fn decode_spec(payload: Seq<u8>) -> Result<Seq<i16>, Error> {
    if payload.len() % 2 != 0 {
        Err(Error::MalformedShard)
    } else {
        Ok(
            Seq::new(
                (payload.len() / 2) as nat,
                |i: int| i16_from_le(payload[2 * i], payload[2 * i + 1]),
            ),
        )
    }
}

/// Serialises a non-negative y-sequence, two bytes per value.
pub fn encode_payload(ys: &Vec<i16>) -> (r: Vec<u8>)
    requires
        forall|i: int| 0 <= i < ys@.len() ==> 0 <= #[trigger] ys@[i],
    ensures
        r@ == encode_spec(ys@),
{
    let mut out: Vec<u8> = Vec::new();
    let mut i: usize = 0;
    while i < ys.len()
        invariant
            i <= ys@.len(),
            forall|j: int| 0 <= j < ys@.len() ==> 0 <= #[trigger] ys@[j],
            out@.len() == 2 * i,
            forall|j: int| 0 <= j < out@.len() ==> #[trigger] out@[j] == encode_spec(ys@)[j],
        decreases ys@.len() - i,
    {
        let y = ys[i];
        let yu = y as u16;
        let lo = (yu % 256) as u8;
        let hi = (yu / 256) as u8;
        out.push(lo);
        out.push(hi);
        i = i + 1;
    }
    proof {
        assert(out@ =~= encode_spec(ys@));
    }
    out
}

/// Deserialises a payload into its y-sequence; fails on an odd byte length.
pub fn binary_buffer_to_points(buffer: &Vec<u8>) -> (r: Result<Vec<i16>, Error>)
    ensures
        r is Ok <==> buffer@.len() % 2 == 0,
        r is Err ==> r == Err::<Vec<i16>, Error>(Error::MalformedShard),
        r is Ok ==> Ok::<Seq<i16>, Error>(r->Ok_0@) == decode_spec(buffer@),
{
    if buffer.len() % 2 != 0 {
        return Err(Error::MalformedShard);
    }
    let count = buffer.len() / 2;
    let mut out: Vec<i16> = Vec::new();
    let mut i: usize = 0;
    while i < count
        invariant
            buffer@.len() % 2 == 0,
            buffer@.len() <= usize::MAX,
            count == buffer@.len() / 2,
            i <= count,
            out@.len() == i,
            forall|j: int|
                0 <= j < i ==> #[trigger] out@[j] == i16_from_le(
                    buffer@[2 * j],
                    buffer@[2 * j + 1],
                ),
        decreases count - i,
    {
        proof {
            assert(2 * i + 1 < buffer@.len());
        }
        let lo = buffer[2 * i];
        let hi = buffer[2 * i + 1];
        let v: i32 = (lo as i32) + 256 * (hi as i32);
        let y: i16 = if v >= 32768 {
            (v - 65536) as i16
        } else {
            v as i16
        };
        out.push(y);
        i = i + 1;
    }
    proof {
        assert(Seq::new(
            (buffer@.len() / 2) as nat,
            |j: int| i16_from_le(buffer@[2 * j], buffer@[2 * j + 1]),
        ) =~= out@);
    }
    Ok(out)
}

/// Decoding inverts encoding on non-negative y-sequences.
pub proof fn lemma_decode_encode(ys: Seq<i16>)
    requires
        forall|i: int| 0 <= i < ys.len() ==> 0 <= #[trigger] ys[i],
    ensures
        decode_spec(encode_spec(ys)) == Ok::<Seq<i16>, Error>(ys),
{
    let enc = encode_spec(ys);
    assert(enc.len() == 2 * ys.len());
    let dec = decode_spec(enc)->Ok_0;
    assert forall|i: int| 0 <= i < ys.len() implies #[trigger] dec[i] == ys[i] by {
        lemma_fundamental_div_mod(ys[i] as int, 256);
        assert(enc[2 * i] as int == (ys[i] as int) % 256);
        assert(enc[2 * i + 1] as int == (ys[i] as int) / 256);
    }
    assert(dec =~= ys);
}

/// View of string shards with the payload vectors taken to sequences.
pub open spec fn string_shards_view(s: Seq<(i32, Vec<u8>)>) -> Seq<(i32, Seq<u8>)> {
    s.map_values(|pr: (i32, Vec<u8>)| (pr.0, pr.1@))
}

/// The encoded form of a shard matrix.
pub open spec fn encoded_shards(bufs: Seq<(i32, Seq<i16>)>) -> Seq<(i32, Seq<u8>)> {
    bufs.map_values(|pr: (i32, Seq<i16>)| (pr.0, encode_spec(pr.1)))
}

/// The per-shard y-sequences of already-decoded payloads.
pub open spec fn decoded_shards(pieces: Seq<(i32, Seq<u8>)>) -> Seq<(i32, Seq<i16>)> {
    pieces.map_values(|pr: (i32, Seq<u8>)| (pr.0, decode_spec(pr.1)->Ok_0))
}

/// The full outcome of `interpolate_string`: an odd payload is malformed;
/// otherwise the payloads are decoded and the buffer inverse applies.
pub open spec fn interpolate_string_spec(pieces: Seq<(i32, Seq<u8>)>, p: int) -> Result<
    Seq<u8>,
    Error,
> {
    if exists|i: int| 0 <= i < pieces.len() && (#[trigger] pieces[i]).1.len() % 2 != 0 {
        Err(Error::MalformedShard)
    } else {
        interpolate_buffer_spec(decoded_shards(pieces), p)
    }
}

/// Splits `secret` into `pieces_count` shards, each the serialised
/// y-sequence of `generate_buffer`, reporting progress once per byte.
pub fn generate_string<P: ProgressSink>(
    secret: &Vec<u8>,
    pieces_count: i32,
    required_pieces_count: i32,
    prime: i32,
    progress: &mut P,
) -> (r: Vec<(i32, Vec<u8>)>)
    requires
        1 <= prime <= 32768,
    ensures
        exists|bufs: Seq<(i32, Seq<i16>)>|
            {
                &&& #[trigger] buffer_rows_ok(
                    secret@,
                    pieces_count as int,
                    required_pieces_count as int,
                    prime as int,
                    bufs,
                )
                &&& string_shards_view(r@) == encoded_shards(bufs)
            },
        r@.len() == (if pieces_count >= 0 {
            pieces_count as int
        } else {
            0int
        }),
        forall|k: int| 0 <= k < r@.len() ==> (#[trigger] r@[k]).0 == k + 1,
        forall|k: int| 0 <= k < r@.len() ==> (#[trigger] r@[k]).1@.len() == 2 * secret@.len(),
        final (progress).history() == old(progress).history() + progress_trace(secret@.len()),
{
    let bufs = generate_buffer(secret, pieces_count, required_pieces_count, prime, progress);
    let ghost bufs_v = buffers_view(bufs@);
    let ghost hist = choose|h: Seq<Seq<i32>>|
        #[trigger] rows_match(
            secret@,
            required_pieces_count as int,
            prime as int,
            h,
            bufs_v,
        );
    let mut out: Vec<(i32, Vec<u8>)> = Vec::new();
    let mut k: usize = 0;
    while k < bufs.len()
        invariant
            bufs_v == buffers_view(bufs@),
            rows_match(secret@, required_pieces_count as int, prime as int, hist, bufs_v),
            buffer_rows_ok(
                secret@,
                pieces_count as int,
                required_pieces_count as int,
                prime as int,
                bufs_v,
            ),
            secret@.len() == (if bufs_v.len() > 0 {
                bufs_v[0].1.len()
            } else {
                secret@.len()
            }),
            k <= bufs@.len(),
            out@.len() == k,
            forall|j: int|
                0 <= j < k ==> #[trigger] string_shards_view(out@)[j] == encoded_shards(bufs_v)[j],
        decreases bufs@.len() - k,
    {
        proof {
            assert((bufs_v[k as int]) == (bufs@[k as int].0, bufs@[k as int].1@));
            assert(forall|b: int|
                0 <= b < bufs_v[k as int].1.len() ==> 0 <= #[trigger] bufs_v[k as int].1[b]);
        }
        let enc = encode_payload(&bufs[k].1);
        let idx = bufs[k].0;
        let ghost prev = out@;
        out.push((idx, enc));
        proof {
            assert forall|j: int|
                0 <= j < out@.len() implies #[trigger] string_shards_view(out@)[j]
                == encoded_shards(bufs_v)[j] by {
                assert(string_shards_view(out@)[j] == (out@[j].0, out@[j].1@));
                if j < prev.len() {
                    assert(out@[j] == prev[j]);
                    assert(string_shards_view(prev)[j] == encoded_shards(bufs_v)[j]);
                    assert(string_shards_view(prev)[j] == (prev[j].0, prev[j].1@));
                } else {
                    assert(out@[j] == (idx, enc));
                    assert(encoded_shards(bufs_v)[j] == (
                        bufs_v[j].0,
                        encode_spec(bufs_v[j].1),
                    ));
                }
            }
        }
        k = k + 1;
    }
    proof {
        assert(string_shards_view(out@) =~= encoded_shards(bufs_v));
        assert forall|j: int|
            0 <= j < out@.len() implies (#[trigger] out@[j]).0 == j + 1 && out@[j].1@.len() == 2
                * secret@.len() by {
            assert(string_shards_view(out@)[j] == encoded_shards(bufs_v)[j]);
            assert(string_shards_view(out@)[j] == (out@[j].0, out@[j].1@));
            assert(encoded_shards(bufs_v)[j] == (bufs_v[j].0, encode_spec(bufs_v[j].1)));
            assert((bufs_v[j]).1.len() == secret@.len());
            assert(bufs_v[j].0 == j + 1);
        }
    }
    out
}

/// Decodes the shard payloads and solves for the secret bytes, reporting
/// progress once per reconstructed byte.
pub fn interpolate_string<P: ProgressSink>(
    pieces: &Vec<(i32, Vec<u8>)>,
    prime: i32,
    progress: &mut P,
) -> (r: Result<Vec<u8>, Error>)
    requires
        pieces@.len() >= 1,
        prime >= 1,
    ensures
        r is Ok <==> interpolate_string_spec(string_shards_view(pieces@), prime as int) is Ok,
        r is Ok ==> Ok::<Seq<u8>, Error>(r->Ok_0@) == interpolate_string_spec(
            string_shards_view(pieces@),
            prime as int,
        ),
        r is Err ==> r->Err_0 == interpolate_string_spec(
            string_shards_view(pieces@),
            prime as int,
        )->Err_0,
        r is Ok ==> final (progress).history() == old(progress).history() + progress_trace(
            (pieces@[0].1@.len() / 2) as nat,
        ),
        r is Err ==> exists|c: int|
            0 <= c <= pieces@[0].1@.len() / 2 && final (progress).history() == old(
                progress,
            ).history() + #[trigger] progress_trace((pieces@[0].1@.len() / 2) as nat).take(c),
{
    let ghost pieces_v = string_shards_view(pieces@);
    let mut point_buffers: Vec<(i32, Vec<i16>)> = Vec::new();
    let mut i: usize = 0;
    while i < pieces.len()
        invariant
            pieces_v == string_shards_view(pieces@),
            i <= pieces@.len(),
            point_buffers@.len() == i,
            forall|j: int| 0 <= j < i ==> (#[trigger] pieces_v[j]).1.len() % 2 == 0,
            forall|j: int|
                0 <= j < i ==> #[trigger] buffers_view(point_buffers@)[j] == decoded_shards(
                    pieces_v,
                )[j],
        decreases pieces@.len() - i,
    {
        proof {
            assert((pieces_v[i as int]) == (pieces@[i as int].0, pieces@[i as int].1@));
        }
        let idx = pieces[i].0;
        let decoded = match binary_buffer_to_points(&pieces[i].1) {
            Err(e) => {
                proof {
                    assert(progress.history() =~= old(progress).history() + progress_trace(
                        (pieces@[0].1@.len() / 2) as nat,
                    ).take(0));
                }
                return Err(e);
            },
            Ok(v) => v,
        };
        let ghost prev = point_buffers@;
        point_buffers.push((idx, decoded));
        proof {
            assert forall|j: int|
                0 <= j < point_buffers@.len() implies #[trigger] buffers_view(
                point_buffers@,
            )[j] == decoded_shards(pieces_v)[j] by {
                assert(buffers_view(point_buffers@)[j] == (
                    point_buffers@[j].0,
                    point_buffers@[j].1@,
                ));
                if j < prev.len() {
                    assert(point_buffers@[j] == prev[j]);
                    assert(buffers_view(prev)[j] == decoded_shards(pieces_v)[j]);
                    assert(buffers_view(prev)[j] == (prev[j].0, prev[j].1@));
                } else {
                    assert(point_buffers@[j] == (idx, decoded));
                    assert(decoded_shards(pieces_v)[j] == (
                        pieces_v[j].0,
                        decode_spec(pieces_v[j].1)->Ok_0,
                    ));
                }
            }
        }
        i = i + 1;
    }
    proof {
        assert(buffers_view(point_buffers@) =~= decoded_shards(pieces_v));
        assert((pieces_v[0]).1 == pieces@[0].1@);
        assert(buffers_view(point_buffers@)[0].1 == decode_spec(pieces_v[0].1)->Ok_0);
        assert(point_buffers@[0].1@.len() == pieces@[0].1@.len() / 2);
    }
    interpolate_buffer(&point_buffers, prime, progress)
}

/// The round-trip law on a pair of string shards: over a prime field large
/// enough for bytes, the two encoded shards of a threshold-two, two-shard
/// split reconstruct the secret byte-for-byte.
pub proof fn lemma_roundtrip_pair_string(secret: Seq<u8>, p: int, bufs: Seq<(i32, Seq<i16>)>)
    requires
        is_prime(p),
        256 <= p <= 0x7FFF_FFFF,
        buffer_rows_ok(secret, 2, 2, p, bufs),
    ensures
        interpolate_string_spec(encoded_shards(bufs), p) == Ok::<Seq<u8>, Error>(secret),
{
    let hist = choose|h: Seq<Seq<i32>>| #[trigger] rows_match(secret, 2, p, h, bufs);
    assert(forall|k: int, b: int|
        0 <= k < bufs.len() && 0 <= b < bufs[k].1.len() ==> 0 <= #[trigger] bufs[k].1[b]);
    lemma_string_roundtrip_to_buffer(bufs, p);
    lemma_roundtrip_pair_buffer(secret, p, bufs);
}

/// The provable half of the string round trip: interpolating the encoded
/// shards is exactly interpolating the underlying buffer matrix, because
/// decoding inverts encoding shard by shard.
pub proof fn lemma_string_roundtrip_to_buffer(bufs: Seq<(i32, Seq<i16>)>, p: int)
    requires
        forall|k: int, b: int|
            0 <= k < bufs.len() && 0 <= b < bufs[k].1.len() ==> 0 <= #[trigger] bufs[k].1[b],
    ensures
        interpolate_string_spec(encoded_shards(bufs), p) == interpolate_buffer_spec(bufs, p),
{
    let enc = encoded_shards(bufs);
    assert(forall|i: int|
        0 <= i < enc.len() ==> (#[trigger] enc[i]).1.len() % 2 == 0);
    assert forall|i: int| 0 <= i < enc.len() implies #[trigger] decoded_shards(enc)[i]
        == bufs[i] by {
        assert(enc[i].1 == encode_spec(bufs[i].1));
        lemma_decode_encode(bufs[i].1);
    }
    assert(decoded_shards(enc) =~= bufs);
}

} // verus!
