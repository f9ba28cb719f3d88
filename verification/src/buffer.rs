//! The buffer codec: maps a byte sequence to per-shard sequences of
//! polynomial values (one polynomial per byte, freshly re-randomised), and
//! inverts any large-enough subset of shards back into the byte sequence.

use vstd::prelude::*;

use vstd::arithmetic::div_mod::{lemma_fundamental_div_mod_converse_mod, lemma_small_mod};

use crate::error::Error;
use crate::field::is_prime;
use crate::interp::{
    interpolate_secret, interpolate_spec, lemma_roundtrip_two_points,
};
use crate::poly::{generate_coefficients, generate_points, poly_eval};
use crate::progress::{progress_trace, ProgressSink};

verus! {

/// View of a shard list with the payload vectors taken to sequences.
pub open spec fn buffers_view(b: Seq<(i32, Vec<i16>)>) -> Seq<(i32, Seq<i16>)> {
    b.map_values(|pr: (i32, Vec<i16>)| (pr.0, pr.1@))
}

/// Well-formed coefficients for threshold `t`: exactly `t - 1` of them,
/// each in `[0, p)`.
pub open spec fn coeffs_ok(coeffs: Seq<i32>, t: int, p: int) -> bool {
    &&& coeffs.len() == (if t >= 1 {
        t - 1
    } else {
        0int
    })
    &&& forall|i: int| 0 <= i < coeffs.len() ==> 0 <= #[trigger] coeffs[i] < p
}

/// The per-byte coefficient history `hist` explains the shard matrix: each
/// byte's column of y-values is the evaluation of that byte's polynomial at
/// the shard indices, reduced into `[0, p)`.
pub open spec fn rows_match(
    secret: Seq<u8>,
    t: int,
    p: int,
    hist: Seq<Seq<i32>>,
    shards: Seq<(i32, Seq<i16>)>,
) -> bool {
    &&& hist.len() == secret.len()
    &&& forall|b: int| 0 <= b < hist.len() ==> coeffs_ok(#[trigger] hist[b], t, p)
    &&& forall|k: int, b: int|
        0 <= k < shards.len() && 0 <= b < secret.len() ==> (#[trigger] shards[k].1[b]) as int
            == poly_eval(secret[b] as int, hist[b], k + 1) % p
    &&& forall|k: int, b: int|
        0 <= k < shards.len() && 0 <= b < secret.len() ==> 0 <= #[trigger] shards[k].1[b] < p
}

/// What `generate_buffer` promises of its output: `n` shards indexed
/// `1 ..= n`, each payload as long as the secret, and some well-formed
/// freshly drawn coefficient history explaining every y-value.
pub open spec fn buffer_rows_ok(
    secret: Seq<u8>,
    n: int,
    t: int,
    p: int,
    shards: Seq<(i32, Seq<i16>)>,
) -> bool {
    &&& shards.len() == (if n >= 0 {
        n
    } else {
        0int
    })
    &&& forall|k: int| 0 <= k < shards.len() ==> (#[trigger] shards[k]).0 == k + 1
    &&& forall|k: int| 0 <= k < shards.len() ==> (#[trigger] shards[k]).1.len() == secret.len()
    &&& exists|hist: Seq<Seq<i32>>| #[trigger] rows_match(secret, t, p, hist, shards)
}

/// Splits each byte of `secret` into `total_pieces` polynomial values with
/// fresh random coefficients, reporting progress once per byte.
pub fn generate_buffer<P: ProgressSink>(
    secret: &Vec<u8>,
    total_pieces: i32,
    required_pieces: i32,
    prime: i32,
    progress: &mut P,
) -> (r: Vec<(i32, Vec<i16>)>)
    requires
        1 <= prime <= 32768,
    ensures
        buffer_rows_ok(
            secret@,
            total_pieces as int,
            required_pieces as int,
            prime as int,
            buffers_view(r@),
        ),
        final (progress).history() == old(progress).history() + progress_trace(
            secret@.len(),
        ),
{
    let n_count: usize = if total_pieces >= 0 {
        total_pieces as usize
    } else {
        0
    };
    let len = secret.len();
    let mut rows: Vec<Vec<i16>> = Vec::new();
    let ghost mut hist: Seq<Seq<i32>> = Seq::empty();
    let mut b: usize = 0;
    proof {
        assert(progress_trace(len as nat).take(0) =~= Seq::<(usize, usize)>::empty());
        assert(progress.history() =~= old(progress).history() + progress_trace(
            len as nat,
        ).take(0));
    }
    while b < len
        invariant
            1 <= prime <= 32768,
            len == secret@.len(),
            n_count == (if total_pieces >= 0 {
                total_pieces as int
            } else {
                0int
            }),
            b <= len,
            rows@.len() == b,
            hist.len() == b,
            forall|bb: int|
                0 <= bb < b ==> coeffs_ok(
                    #[trigger] hist[bb],
                    required_pieces as int,
                    prime as int,
                ),
            forall|bb: int| 0 <= bb < b ==> (#[trigger] rows@[bb])@.len() == n_count,
            forall|bb: int, k: int|
                0 <= bb < b && 0 <= k < n_count ==> (#[trigger] rows@[bb]@[k]) as int == poly_eval(
                    secret@[bb] as int,
                    hist[bb],
                    k + 1,
                ) % (prime as int),
            forall|bb: int, k: int|
                0 <= bb < b && 0 <= k < n_count ==> 0 <= #[trigger] rows@[bb]@[k] < prime,
            progress.history() == old(progress).history() + progress_trace(len as nat).take(
                b as int,
            ),
        decreases len - b,
    {
        let coeffs = generate_coefficients(required_pieces, prime);
        let pts = generate_points(secret[b] as i32, total_pieces, &coeffs, prime);
        let mut row: Vec<i16> = Vec::new();
        let mut k: usize = 0;
        while k < pts.len()
            invariant
                1 <= prime <= 32768,
                pts@.len() == n_count,
                forall|j: int|
                    0 <= j < pts@.len() ==> (#[trigger] pts@[j]).1 as int == poly_eval(
                        secret@[b as int] as int,
                        coeffs@,
                        j + 1,
                    ) % (prime as int),
                forall|j: int| 0 <= j < pts@.len() ==> 0 <= (#[trigger] pts@[j]).1 < prime,
                b < len,
                len == secret@.len(),
                k <= n_count,
                row@.len() == k,
                forall|j: int|
                    0 <= j < k ==> (#[trigger] row@[j]) as int == poly_eval(
                        secret@[b as int] as int,
                        coeffs@,
                        j + 1,
                    ) % (prime as int),
                forall|j: int| 0 <= j < k ==> 0 <= #[trigger] row@[j] < prime,
            decreases n_count - k,
        {
            let y = pts[k].1;
            row.push(y as i16);
            k = k + 1;
        }
        rows.push(row);
        proof {
            hist = hist.push(coeffs@);
            assert(progress_trace(len as nat).take(b + 1) =~= progress_trace(len as nat).take(
                b as int,
            ).push((b as usize, len as usize)));
        }
        progress.report(b, len);
        b = b + 1;
    }
    let mut result: Vec<(i32, Vec<i16>)> = Vec::new();
    let mut k: usize = 0;
    while k < n_count
        invariant
            1 <= prime <= 32768,
            len == secret@.len(),
            n_count == (if total_pieces >= 0 {
                total_pieces as int
            } else {
                0int
            }),
            n_count <= i32::MAX,
            rows@.len() == len,
            hist.len() == len,
            forall|bb: int|
                0 <= bb < len ==> coeffs_ok(
                    #[trigger] hist[bb],
                    required_pieces as int,
                    prime as int,
                ),
            forall|bb: int| 0 <= bb < len ==> (#[trigger] rows@[bb])@.len() == n_count,
            forall|bb: int, kk: int|
                0 <= bb < len && 0 <= kk < n_count ==> (#[trigger] rows@[bb]@[kk]) as int
                    == poly_eval(secret@[bb] as int, hist[bb], kk + 1) % (prime as int),
            forall|bb: int, kk: int|
                0 <= bb < len && 0 <= kk < n_count ==> 0 <= #[trigger] rows@[bb]@[kk] < prime,
            k <= n_count,
            result@.len() == k,
            forall|kk: int| 0 <= kk < k ==> (#[trigger] result@[kk]).0 == kk + 1,
            forall|kk: int| 0 <= kk < k ==> (#[trigger] result@[kk]).1@.len() == len,
            forall|kk: int, bb: int|
                0 <= kk < k && 0 <= bb < len ==> (#[trigger] result@[kk].1@[bb]) == rows@[bb]@[kk],
        decreases n_count - k,
    {
        let mut col: Vec<i16> = Vec::new();
        let mut bb: usize = 0;
        while bb < len
            invariant
                rows@.len() == len,
                k < n_count,
                forall|j: int| 0 <= j < len ==> (#[trigger] rows@[j])@.len() == n_count,
                bb <= len,
                col@.len() == bb,
                forall|j: int| 0 <= j < bb ==> (#[trigger] col@[j]) == rows@[j]@[k as int],
            decreases len - bb,
        {
            let row_ref = &rows[bb];
            let y = row_ref[k];
            col.push(y);
            bb = bb + 1;
        }
        result.push(((k as i32) + 1, col));
        k = k + 1;
    }
    proof {
        assert(rows_match(
            secret@,
            required_pieces as int,
            prime as int,
            hist,
            buffers_view(result@),
        ));
        assert(progress_trace(len as nat).take(len as int) =~= progress_trace(len as nat));
    }
    result
}

/// Outcome of the buffer validation: every payload as long as the first.
pub open spec fn validate_buffers_spec(bufs: Seq<(i32, Seq<i16>)>) -> Result<(), Error> {
    if exists|i: int| 0 <= i < bufs.len() && (#[trigger] bufs[i]).1.len() != bufs[0].1.len() {
        Err(Error::DifferingBufferLengths)
    } else {
        Ok(())
    }
}

/// Checks that all shard payloads have the same length.
pub fn validate_buffers(buffers: &Vec<(i32, Vec<i16>)>) -> (r: Result<(), Error>)
    requires
        buffers@.len() >= 1,
    ensures
        r == validate_buffers_spec(buffers_view(buffers@)),
{
    let expected = buffers[0].1.len();
    let mut i: usize = 0;
    while i < buffers.len()
        invariant
            buffers@.len() >= 1,
            expected == buffers_view(buffers@)[0].1.len(),
            i <= buffers@.len(),
            forall|j: int|
                0 <= j < i ==> (#[trigger] buffers_view(buffers@)[j]).1.len() == expected,
        decreases buffers@.len() - i,
    {
        if buffers[i].1.len() != expected {
            proof {
                assert(buffers_view(buffers@)[i as int].1.len() != expected);
            }
            return Err(Error::DifferingBufferLengths);
        }
        i = i + 1;
    }
    Ok(())
}

/// The i-th column of the shard matrix, as interpolation points.
pub open spec fn column(bufs: Seq<(i32, Seq<i16>)>, i: int) -> Seq<(i32, i32)> {
    bufs.map_values(|pr: (i32, Seq<i16>)| (pr.0, pr.1[i] as i32))
}

/// Interpolation of the first `k` columns: the reconstructed bytes, or the
/// first error.
pub open spec fn interp_columns(bufs: Seq<(i32, Seq<i16>)>, p: int, k: int) -> Result<
    Seq<u8>,
    Error,
>
    decreases k,
{
    if k <= 0 {
        Ok(Seq::empty())
    } else {
        match interp_columns(bufs, p, k - 1) {
            Err(e) => Err(e),
            Ok(s) => match interpolate_spec(column(bufs, k - 1), p) {
                Err(e) => Err(e),
                Ok(v) => Ok(s.push(((v as int) % 256) as u8)),
            },
        }
    }
}

/// The full outcome of `interpolate_buffer`.
pub open spec fn interpolate_buffer_spec(bufs: Seq<(i32, Seq<i16>)>, p: int) -> Result<
    Seq<u8>,
    Error,
> {
    match validate_buffers_spec(bufs) {
        Err(e) => Err(e),
        Ok(_u) => interp_columns(bufs, p, bufs[0].1.len() as int),
    }
}

/// A shard set in which any payload's length differs from the first's is
/// rejected with `DifferingBufferLengths`.
pub proof fn lemma_reject_differing_lengths(bufs: Seq<(i32, Seq<i16>)>, p: int, i: int)
    requires
        0 <= i < bufs.len(),
        bufs[i].1.len() != bufs[0].1.len(),
    ensures
        interpolate_buffer_spec(bufs, p) == Err::<Seq<u8>, Error>(Error::DifferingBufferLengths),
{
    assert(bufs[i].1.len() != bufs[0].1.len());
}

proof fn lemma_interp_columns_err(bufs: Seq<(i32, Seq<i16>)>, p: int, k1: int, k2: int)
    requires
        k1 <= k2,
        interp_columns(bufs, p, k1) is Err,
    ensures
        interp_columns(bufs, p, k2) == interp_columns(bufs, p, k1),
    decreases k2 - k1,
{
    if k2 > k1 {
        lemma_interp_columns_err(bufs, p, k1, k2 - 1);
    }
}

proof fn lemma_pair_columns(
    secret: Seq<u8>,
    p: int,
    hist: Seq<Seq<i32>>,
    shards: Seq<(i32, Seq<i16>)>,
    k: int,
)
    requires
        is_prime(p),
        256 <= p <= 0x7FFF_FFFF,
        shards.len() == 2,
        shards[0].0 == 1,
        shards[1].0 == 2,
        forall|j: int| 0 <= j < shards.len() ==> (#[trigger] shards[j]).1.len() == secret.len(),
        rows_match(secret, 2, p, hist, shards),
        0 <= k <= secret.len(),
    ensures
        interp_columns(shards, p, k) == Ok::<Seq<u8>, Error>(secret.take(k)),
    decreases k,
{
    if k <= 0 {
        assert(secret.take(0) =~= Seq::<u8>::empty());
    } else {
        lemma_pair_columns(secret, p, hist, shards, k - 1);
        let col = column(shards, k - 1);
        let s = secret[k - 1] as i32;
        let coeffs = hist[k - 1];
        assert(col.len() == 2);
        assert(col[0] == (shards[0].0, shards[0].1[k - 1] as i32));
        assert(col[1] == (shards[1].0, shards[1].1[k - 1] as i32));
        assert(coeffs_ok(coeffs, 2, p));
        assert(shards[0].1[k - 1] as int == poly_eval(secret[k - 1] as int, coeffs, 1) % p);
        assert(shards[1].1[k - 1] as int == poly_eval(secret[k - 1] as int, coeffs, 2) % p);
        assert(((col[0].0 as int) - (col[1].0 as int)) % p == p - 1) by {
            lemma_fundamental_div_mod_converse_mod(-1, p, -1, p - 1);
        }
        lemma_roundtrip_two_points(s, coeffs, col, p);
        assert(interpolate_spec(col, p) == Ok::<i32, Error>(s));
        assert(((s as int) % 256) as u8 == secret[k - 1]) by {
            lemma_small_mod(secret[k - 1] as nat, 256);
        }
        assert(secret.take(k) =~= secret.take(k - 1).push(secret[k - 1]));
    }
}

/// The round-trip law on a pair of shards: over a prime field large enough
/// for bytes, the two shards of a threshold-two, two-shard split
/// reconstruct the secret byte-for-byte.
pub proof fn lemma_roundtrip_pair_buffer(secret: Seq<u8>, p: int, shards: Seq<(i32, Seq<i16>)>)
    requires
        is_prime(p),
        256 <= p <= 0x7FFF_FFFF,
        buffer_rows_ok(secret, 2, 2, p, shards),
    ensures
        interpolate_buffer_spec(shards, p) == Ok::<Seq<u8>, Error>(secret),
{
    let hist = choose|h: Seq<Seq<i32>>| #[trigger] rows_match(secret, 2, p, h, shards);
    assert(validate_buffers_spec(shards) is Ok);
    lemma_pair_columns(secret, p, hist, shards, secret.len() as int);
    assert(secret.take(secret.len() as int) =~= secret);
    assert(shards[0].1.len() == secret.len());
}

/// Solves each column of the shard matrix and returns the reconstructed
/// bytes in source order, reporting progress once per byte.
pub fn interpolate_buffer<P: ProgressSink>(
    points: &Vec<(i32, Vec<i16>)>,
    prime: i32,
    progress: &mut P,
) -> (r: Result<Vec<u8>, Error>)
    requires
        points@.len() >= 1,
        prime >= 1,
    ensures
        r is Ok <==> interpolate_buffer_spec(buffers_view(points@), prime as int) is Ok,
        r is Ok ==> Ok::<Seq<u8>, Error>(r->Ok_0@) == interpolate_buffer_spec(
            buffers_view(points@),
            prime as int,
        ),
        r is Err ==> r->Err_0 == interpolate_buffer_spec(
            buffers_view(points@),
            prime as int,
        )->Err_0,
        r is Ok ==> final (progress).history() == old(progress).history() + progress_trace(
            points@[0].1@.len(),
        ),
        r is Err ==> exists|c: int|
            0 <= c <= points@[0].1@.len() && final (progress).history() == old(
                progress,
            ).history() + #[trigger] progress_trace(points@[0].1@.len()).take(c),
{
    let ghost bufs = buffers_view(points@);
    let ghost p = prime as int;
    match validate_buffers(points) {
        Err(e) => {
            proof {
                assert(progress_trace(points@[0].1@.len()).take(0) =~= Seq::<(
                    usize,
                    usize,
                )>::empty());
                assert(progress.history() =~= old(progress).history() + progress_trace(
                    points@[0].1@.len(),
                ).take(0));
            }
            return Err(e);
        },
        Ok(_) => {},
    }
    let count = points[0].1.len();
    let mut result: Vec<u8> = Vec::new();
    let mut i: usize = 0;
    proof {
        assert(progress_trace(count as nat).take(0) =~= Seq::<(usize, usize)>::empty());
        assert(progress.history() =~= old(progress).history() + progress_trace(
            count as nat,
        ).take(0));
    }
    while i < count
        invariant
            points@.len() >= 1,
            prime >= 1,
            p == prime as int,
            bufs == buffers_view(points@),
            validate_buffers_spec(bufs) is Ok,
            count == points@[0].1@.len(),
            forall|j: int| 0 <= j < points@.len() ==> (#[trigger] bufs[j]).1.len() == count,
            i <= count,
            result@.len() == i,
            interp_columns(bufs, p, i as int) == Ok::<Seq<u8>, Error>(result@),
            progress.history() == old(progress).history() + progress_trace(count as nat).take(
                i as int,
            ),
        decreases count - i,
    {
        let mut col: Vec<(i32, i32)> = Vec::new();
        let mut k: usize = 0;
        while k < points.len()
            invariant
                bufs == buffers_view(points@),
                i < count,
                forall|j: int| 0 <= j < points@.len() ==> (#[trigger] bufs[j]).1.len() == count,
                k <= points@.len(),
                col@.len() == k,
                forall|j: int|
                    0 <= j < k ==> (#[trigger] col@[j]) == (points@[j].0, points@[j].1@[i
                        as int] as i32),
            decreases points@.len() - k,
        {
            proof {
                assert((bufs[k as int]).1 == points@[k as int].1@);
            }
            let pr_x = points[k].0;
            let y = points[k].1[i];
            col.push((pr_x, y as i32));
            k = k + 1;
        }
        proof {
            assert(col@ =~= column(bufs, i as int));
        }
        let v = match interpolate_secret(&col, prime) {
            Err(e) => {
                proof {
                    lemma_interp_columns_err(bufs, p, i + 1, count as int);
                    assert(progress.history() == old(progress).history() + progress_trace(
                        count as nat,
                    ).take(i as int));
                }
                return Err(e);
            },
            Ok(v) => v,
        };
        let byte = ((v as u32) % 256) as u8;
        result.push(byte);
        proof {
            assert(progress_trace(count as nat).take(i + 1) =~= progress_trace(count as nat).take(
                i as int,
            ).push((i as usize, count as usize)));
        }
        progress.report(i, count);
        i = i + 1;
    }
    proof {
        assert(progress_trace(count as nat).take(count as int) =~= progress_trace(count as nat));
    }
    Ok(result)
}

} // verus!
