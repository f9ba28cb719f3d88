//! The shard-file header: four newline-terminated textual fields (version,
//! index, prime, original filename) in front of the raw payload. This module
//! renders and parses the header and cross-validates a reconstruction set.

use vstd::prelude::*;

use vstd::arithmetic::div_mod::lemma_fundamental_div_mod;

use crate::error::Error;

verus! {

/// The shard file format version this library writes and accepts.
pub const VERSION: i32 = 1;

/// Chunk size of the streaming file codec, in bytes.
pub const BUFFER_SIZE: usize = 8192;

/// The longest original filename a shard header may carry.
pub const MAX_SECRET_FILENAME_LENGTH: usize = 8142;

/// Decimal digits of a non-negative integer, most significant first.
pub open spec fn dec_repr(n: int) -> Seq<u8>
    recommends
        n >= 0,
    decreases n,
{
    if n < 10 {
        seq![(48 + n) as u8]
    } else {
        dec_repr(n / 10).push((48 + n % 10) as u8)
    }
}

proof fn lemma_dec_repr_digits(n: int)
    requires
        n >= 0,
    ensures
        dec_repr(n).len() >= 1,
        forall|i: int| 0 <= i < dec_repr(n).len() ==> 48 <= #[trigger] dec_repr(n)[i] <= 57,
    decreases n,
{
    if n >= 10 {
        lemma_dec_repr_digits(n / 10);
    }
}

fn push_decimal(out: &mut Vec<u8>, n: u32)
    ensures
        final (out)@ == old(out)@ + dec_repr(n as int),
    decreases n,
{
    if n < 10 {
        out.push(48 + n as u8);
        proof {
            assert(out@ =~= old(out)@ + dec_repr(n as int));
        }
    } else {
        push_decimal(out, n / 10);
        out.push(48 + (n % 10) as u8);
        proof {
            assert(out@ =~= old(out)@ + dec_repr(n as int));
        }
    }
}

/// Whether every byte is an ASCII digit.
pub open spec fn all_digits(s: Seq<u8>) -> bool {
    forall|i: int| 0 <= i < s.len() ==> 48 <= #[trigger] s[i] <= 57
}

/// Value of a digit string, most significant digit first.
pub open spec fn digits_value(s: Seq<u8>) -> int
    recommends
        all_digits(s),
    decreases s.len(),
{
    if s.len() == 0 {
        0
    } else {
        digits_value(s.drop_last()) * 10 + (s.last() - 48)
    }
}

/// The shape a decimal integer field must have: an optional sign, then at
/// least one digit and nothing else.
pub open spec fn parse_shape_ok(s: Seq<u8>) -> bool {
    if s.len() == 0 {
        false
    } else if s[0] == 43 || s[0] == 45 {
        s.len() >= 2 && all_digits(s.skip(1))
    } else {
        all_digits(s)
    }
}

/// The signed value of a well-shaped decimal field.
pub open spec fn parsed_value(s: Seq<u8>) -> int
    recommends
        parse_shape_ok(s),
{
    if s.len() > 0 && s[0] == 45 {
        -digits_value(s.skip(1))
    } else if s.len() > 0 && s[0] == 43 {
        digits_value(s.skip(1))
    } else {
        digits_value(s)
    }
}

/// Outcome of parsing a decimal `i32` field: the value, or
/// `MalformedHeader` for a malformed or out-of-range field.
pub open spec fn parse_i32_spec(s: Seq<u8>) -> Result<i32, Error> {
    if parse_shape_ok(s) && i32::MIN <= parsed_value(s) <= i32::MAX {
        Ok(parsed_value(s) as i32)
    } else {
        Err(Error::MalformedHeader)
    }
}

proof fn lemma_digits_value_nonneg(s: Seq<u8>)
    requires
        all_digits(s),
    ensures
        digits_value(s) >= 0,
    decreases s.len(),
{
    if s.len() > 0 {
        assert(all_digits(s.drop_last()));
        lemma_digits_value_nonneg(s.drop_last());
    }
}

/// Parses a decimal `i32` field, as the header fields are written: an
/// optional sign, digits, nothing else, and the value within `i32`.
pub fn parse_i32_bytes(s: &Vec<u8>) -> (r: Result<i32, Error>)
    ensures
        r == parse_i32_spec(s@),
{
    if s.len() == 0 {
        return Err(Error::MalformedHeader);
    }
    let first = s[0];
    let negative = first == 45;
    let start: usize = if first == 43 || first == 45 {
        1
    } else {
        0
    };
    if s.len() == start {
        return Err(Error::MalformedHeader);
    }
    let ghost digits = if start == 1 {
        s@.skip(1)
    } else {
        s@
    };
    let mut acc: u64 = 0;
    let mut over: bool = false;
    let mut i: usize = start;
    proof {
        assert(digits.take(0) =~= Seq::<u8>::empty());
    }
    while i < s.len()
        invariant
            start <= 1,
            start < s@.len(),
            (start == 1) <==> (s@[0] == 43 || s@[0] == 45),
            start <= i <= s@.len(),
            digits == (if start == 1 {
                s@.skip(1)
            } else {
                s@
            }),
            digits.len() == s@.len() - start,
            forall|j: int| 0 <= j < i - start ==> 48 <= #[trigger] digits[j] <= 57,
            !over ==> acc <= 0x8000_0000 && acc == digits_value(digits.take(i - start)),
            over ==> digits_value(digits.take(i - start)) > 0x8000_0000,
        decreases s@.len() - i,
    {
        let b = s[i];
        if b < 48 || b > 57 {
            proof {
                assert(digits[i - start] == s@[i as int]);
                assert(!all_digits(digits));
                assert(!parse_shape_ok(s@));
            }
            return Err(Error::MalformedHeader);
        }
        let d = (b - 48) as u64;
        proof {
            let t = digits.take(i - start + 1);
            assert(t.drop_last() =~= digits.take(i - start));
            assert(t.last() == digits[i - start]);
            assert(digits[i - start] == s@[i as int]);
            assert(digits_value(t) == digits_value(digits.take(i - start)) * 10 + (b - 48));
            if over {
                assert(forall|j: int| 0 <= j < i - start + 1 ==> 48 <= #[trigger] t[j] <= 57);
                lemma_digits_value_nonneg(digits.take(i - start));
            }
        }
        if !over {
            acc = acc * 10 + d;
            if acc > 0x8000_0000 {
                over = true;
                acc = 0;
            }
        }
        i = i + 1;
    }
    proof {
        assert(digits.take(s@.len() - start) =~= digits);
        assert(all_digits(digits));
        assert(parse_shape_ok(s@));
        assert(parsed_value(s@) == (if negative {
            -digits_value(digits)
        } else {
            digits_value(digits)
        }));
        lemma_digits_value_nonneg(digits);
    }
    if over {
        return Err(Error::MalformedHeader);
    }
    if negative {
        let v = -(acc as i64);
        proof {
            assert(v >= -0x8000_0000);
        }
        Ok(v as i32)
    } else {
        if acc > 0x7FFF_FFFF {
            return Err(Error::MalformedHeader);
        }
        Ok(acc as i32)
    }
}

/// Index of the first newline at or after `from`, or the length if none.
pub open spec fn nl_index(s: Seq<u8>, from: int) -> int
    decreases s.len() - from,
    when 0 <= from <= s.len()
{
    if from >= s.len() {
        s.len() as int
    } else if s[from] == 10 {
        from
    } else {
        nl_index(s, from + 1)
    }
}

proof fn lemma_nl_index_bounds(s: Seq<u8>, from: int)
    requires
        0 <= from <= s.len(),
    ensures
        from <= nl_index(s, from) <= s.len(),
        nl_index(s, from) < s.len() ==> s[nl_index(s, from)] == 10,
        forall|j: int| from <= j < nl_index(s, from) ==> #[trigger] s[j] != 10,
    decreases s.len() - from,
{
    if from < s.len() && s[from] != 10 {
        lemma_nl_index_bounds(s, from + 1);
    }
}

proof fn lemma_nl_index_exact(s: Seq<u8>, from: int, k: int)
    requires
        0 <= from <= k < s.len(),
        s[k] == 10,
        forall|j: int| from <= j < k ==> #[trigger] s[j] != 10,
    ensures
        nl_index(s, from) == k,
    decreases k - from,
{
    if from < k {
        lemma_nl_index_exact(s, from + 1, k);
    }
}

fn find_newline(chunk: &Vec<u8>, from: usize) -> (r: usize)
    requires
        from <= chunk@.len(),
    ensures
        r as int == nl_index(chunk@, from as int),
        from <= r <= chunk@.len(),
        r < chunk@.len() ==> chunk@[r as int] == 10,
{
    proof {
        lemma_nl_index_bounds(chunk@, from as int);
    }
    let mut i = from;
    while i < chunk.len()
        invariant
            from <= i <= chunk@.len(),
            nl_index(chunk@, from as int) == nl_index(chunk@, i as int),
        decreases chunk@.len() - i,
    {
        if chunk[i] == 10 {
            return i;
        }
        i = i + 1;
    }
    i
}

fn copy_range(chunk: &Vec<u8>, a: usize, b: usize) -> (r: Vec<u8>)
    requires
        a <= b,
        b <= chunk@.len(),
    ensures
        r@ == chunk@.subrange(a as int, b as int),
{
    let mut out: Vec<u8> = Vec::new();
    let mut i = a;
    while i < b
        invariant
            a <= i <= b,
            b <= chunk@.len(),
            out@.len() == i - a,
            forall|j: int| 0 <= j < out@.len() ==> #[trigger] out@[j] == chunk@[a + j],
        decreases b - i,
    {
        let byte = chunk[i];
        out.push(byte);
        i = i + 1;
    }
    proof {
        assert(out@ =~= chunk@.subrange(a as int, b as int));
    }
    out
}

/// The five segments of a shard chunk: the four newline-terminated header
/// fields and whatever body bytes follow, or `MalformedHeader` when fewer
/// than four newlines are present.
pub open spec fn header_split_spec(chunk: Seq<u8>) -> Result<
    (Seq<u8>, Seq<u8>, Seq<u8>, Seq<u8>, Seq<u8>),
    Error,
> {
    let n1 = nl_index(chunk, 0);
    if n1 >= chunk.len() {
        Err(Error::MalformedHeader)
    } else {
        let n2 = nl_index(chunk, n1 + 1);
        if n2 >= chunk.len() {
            Err(Error::MalformedHeader)
        } else {
            let n3 = nl_index(chunk, n2 + 1);
            if n3 >= chunk.len() {
                Err(Error::MalformedHeader)
            } else {
                let n4 = nl_index(chunk, n3 + 1);
                if n4 >= chunk.len() {
                    Err(Error::MalformedHeader)
                } else {
                    Ok(
                        (
                            chunk.subrange(0, n1),
                            chunk.subrange(n1 + 1, n2),
                            chunk.subrange(n2 + 1, n3),
                            chunk.subrange(n3 + 1, n4),
                            chunk.subrange(n4 + 1, chunk.len() as int),
                        ),
                    )
                }
            }
        }
    }
}

/// A parsed shard header: the three numeric fields, the original filename,
/// and the body bytes that followed the header in the chunk.
#[derive(Debug)]
pub struct ShardHeader {
    pub version: i32,
    pub index: i32,
    pub prime: i32,
    pub filename: Vec<u8>,
    pub body: Vec<u8>,
}

/// Outcome of parsing one shard chunk: the header fields and body, or
/// `MalformedHeader`.
pub open spec fn shard_header_spec(chunk: Seq<u8>) -> Result<
    (i32, i32, i32, Seq<u8>, Seq<u8>),
    Error,
> {
    match header_split_spec(chunk) {
        Err(e) => Err(e),
        Ok(segs) => match (parse_i32_spec(segs.0), parse_i32_spec(segs.1), parse_i32_spec(
            segs.2,
        )) {
            (Ok(v), Ok(ix), Ok(pr)) => Ok((v, ix, pr, segs.3, segs.4)),
            _ => Err(Error::MalformedHeader),
        },
    }
}

/// Splits a shard chunk at its first four newlines and parses the three
/// numeric header fields.
pub fn parse_shard_header(chunk: &Vec<u8>) -> (r: Result<ShardHeader, Error>)
    ensures
        r is Ok <==> shard_header_spec(chunk@) is Ok,
        r is Err ==> r->Err_0 == shard_header_spec(chunk@)->Err_0,
        r is Ok ==> ({
            let h = shard_header_spec(chunk@)->Ok_0;
            &&& r->Ok_0.version == h.0
            &&& r->Ok_0.index == h.1
            &&& r->Ok_0.prime == h.2
            &&& r->Ok_0.filename@ == h.3
            &&& r->Ok_0.body@ == h.4
        }),
{
    let n1 = find_newline(chunk, 0);
    if n1 >= chunk.len() {
        return Err(Error::MalformedHeader);
    }
    let n2 = find_newline(chunk, n1 + 1);
    if n2 >= chunk.len() {
        return Err(Error::MalformedHeader);
    }
    let n3 = find_newline(chunk, n2 + 1);
    if n3 >= chunk.len() {
        return Err(Error::MalformedHeader);
    }
    let n4 = find_newline(chunk, n3 + 1);
    if n4 >= chunk.len() {
        return Err(Error::MalformedHeader);
    }
    let seg_version = copy_range(chunk, 0, n1);
    let seg_index = copy_range(chunk, n1 + 1, n2);
    let seg_prime = copy_range(chunk, n2 + 1, n3);
    let filename = copy_range(chunk, n3 + 1, n4);
    let body = copy_range(chunk, n4 + 1, chunk.len());
    let version = match parse_i32_bytes(&seg_version) {
        Err(e) => {
            return Err(e);
        },
        Ok(v) => v,
    };
    let index = match parse_i32_bytes(&seg_index) {
        Err(e) => {
            return Err(e);
        },
        Ok(v) => v,
    };
    let prime = match parse_i32_bytes(&seg_prime) {
        Err(e) => {
            return Err(e);
        },
        Ok(v) => v,
    };
    Ok(ShardHeader { version, index, prime, filename, body })
}

/// The serialised header: each of the four fields followed by a newline.
pub open spec fn header_bytes(version: int, index: int, prime: int, filename: Seq<u8>) -> Seq<
    u8,
> {
    dec_repr(version) + seq![10u8] + dec_repr(index) + seq![10u8] + dec_repr(prime) + seq![10u8]
        + filename + seq![10u8]
}

/// Renders the four-line shard header for the supported version.
pub fn make_header(index: i32, prime: i32, filename: &Vec<u8>) -> (r: Vec<u8>)
    requires
        index >= 0,
        prime >= 0,
    ensures
        r@ == header_bytes(VERSION as int, index as int, prime as int, filename@),
{
    let mut out: Vec<u8> = Vec::new();
    push_decimal(&mut out, VERSION as u32);
    out.push(10);
    push_decimal(&mut out, index as u32);
    out.push(10);
    push_decimal(&mut out, prime as u32);
    out.push(10);
    let ghost prefix = out@;
    let mut i: usize = 0;
    proof {
        assert(out@ =~= prefix + filename@.take(0));
    }
    while i < filename.len()
        invariant
            i <= filename@.len(),
            out@ == prefix + filename@.take(i as int),
        decreases filename@.len() - i,
    {
        let byte = filename[i];
        out.push(byte);
        proof {
            assert(prefix + filename@.take(i as int) + seq![filename@[i as int]] =~= prefix
                + filename@.take(i + 1));
        }
        i = i + 1;
    }
    out.push(10);
    proof {
        assert(filename@.take(filename@.len() as int) =~= filename@);
        assert(out@ =~= header_bytes(VERSION as int, index as int, prime as int, filename@));
    }
    out
}

proof fn lemma_dec_repr_value(n: int)
    requires
        n >= 0,
    ensures
        digits_value(dec_repr(n)) == n,
    decreases n,
{
    if n < 10 {
        assert(dec_repr(n).drop_last() =~= Seq::<u8>::empty());
        assert(digits_value(Seq::<u8>::empty()) == 0);
        assert(dec_repr(n).last() == (48 + n) as u8);
        assert(((48 + n) as u8) as int - 48 == n);
    } else {
        lemma_dec_repr_value(n / 10);
        assert(dec_repr(n).drop_last() =~= dec_repr(n / 10));
        assert(dec_repr(n).last() == (48 + n % 10) as u8);
        assert(((48 + n % 10) as u8) as int - 48 == n % 10);
        lemma_fundamental_div_mod(n, 10);
    }
}

/// Rendering a value in range and parsing it back yields the value.
pub proof fn lemma_parse_dec(n: int)
    requires
        0 <= n <= i32::MAX,
    ensures
        parse_i32_spec(dec_repr(n)) == Ok::<i32, Error>(n as i32),
{
    lemma_dec_repr_digits(n);
    lemma_dec_repr_value(n);
    let s = dec_repr(n);
    assert(48 <= s[0] <= 57);
    assert(parse_shape_ok(s));
    assert(parsed_value(s) == n);
}

/// A rendered header followed by any body splits and parses back into
/// exactly the fields it was built from: the byte-exact compatibility of
/// the generate and reconstruct sides.
pub proof fn lemma_header_roundtrip(index: int, prime: int, filename: Seq<u8>, body: Seq<u8>)
    requires
        0 <= index <= i32::MAX,
        0 <= prime <= i32::MAX,
        forall|i: int| 0 <= i < filename.len() ==> #[trigger] filename[i] != 10,
    ensures
        shard_header_spec(header_bytes(VERSION as int, index, prime, filename) + body) == Ok::<
            (i32, i32, i32, Seq<u8>, Seq<u8>),
            Error,
        >((VERSION, index as i32, prime as i32, filename, body)),
{
    let dv = dec_repr(VERSION as int);
    let di = dec_repr(index);
    let dp = dec_repr(prime);
    lemma_dec_repr_digits(VERSION as int);
    lemma_dec_repr_digits(index);
    lemma_dec_repr_digits(prime);
    let chunk = header_bytes(VERSION as int, index, prime, filename) + body;
    let a = dv.len() as int;
    let b = di.len() as int;
    let c = dp.len() as int;
    let f = filename.len() as int;
    let n1 = a;
    let n2 = a + 1 + b;
    let n3 = a + 1 + b + 1 + c;
    let n4 = a + 1 + b + 1 + c + 1 + f;
    assert(chunk.len() == n4 + 1 + body.len());
    assert forall|j: int| 0 <= j < a implies #[trigger] chunk[j] != 10 by {
        assert(chunk[j] == dv[j]);
    }
    assert(chunk[n1] == 10);
    assert forall|j: int| n1 + 1 <= j < n2 implies #[trigger] chunk[j] != 10 by {
        assert(chunk[j] == di[j - (a + 1)]);
    }
    assert(chunk[n2] == 10);
    assert forall|j: int| n2 + 1 <= j < n3 implies #[trigger] chunk[j] != 10 by {
        assert(chunk[j] == dp[j - (a + 1 + b + 1)]);
    }
    assert(chunk[n3] == 10);
    assert forall|j: int| n3 + 1 <= j < n4 implies #[trigger] chunk[j] != 10 by {
        assert(chunk[j] == filename[j - (a + 1 + b + 1 + c + 1)]);
    }
    assert(chunk[n4] == 10);
    lemma_nl_index_exact(chunk, 0, n1);
    lemma_nl_index_exact(chunk, n1 + 1, n2);
    lemma_nl_index_exact(chunk, n2 + 1, n3);
    lemma_nl_index_exact(chunk, n3 + 1, n4);
    assert(chunk.subrange(0, n1) =~= dv);
    assert(chunk.subrange(n1 + 1, n2) =~= di);
    assert(chunk.subrange(n2 + 1, n3) =~= dp);
    assert(chunk.subrange(n3 + 1, n4) =~= filename);
    assert(chunk.subrange(n4 + 1, chunk.len() as int) =~= body);
    lemma_parse_dec(VERSION as int);
    lemma_parse_dec(index);
    lemma_parse_dec(prime);
}

/// Outcome of comparing the shard file sizes: all equal, or
/// `MismatchedFileLengths`.
pub open spec fn validate_sizes_spec(sizes: Seq<u64>) -> Result<(), Error> {
    if exists|i: int| 0 <= i < sizes.len() && #[trigger] sizes[i] != sizes[0] {
        Err(Error::MismatchedFileLengths)
    } else {
        Ok(())
    }
}

/// Checks that every shard file has the same byte length as the first.
pub fn validate_piece_sizes(sizes: &Vec<u64>) -> (r: Result<(), Error>)
    requires
        sizes@.len() >= 1,
    ensures
        r == validate_sizes_spec(sizes@),
{
    let expected = sizes[0];
    let mut i: usize = 0;
    while i < sizes.len()
        invariant
            sizes@.len() >= 1,
            expected == sizes@[0],
            i <= sizes@.len(),
            forall|j: int| 0 <= j < i ==> #[trigger] sizes@[j] == sizes@[0],
        decreases sizes@.len() - i,
    {
        if sizes[i] != expected {
            return Err(Error::MismatchedFileLengths);
        }
        i = i + 1;
    }
    Ok(())
}

/// Outcome of the header cross-validation, in the order the checks run:
/// versions, duplicate indices, primes, filename length, filenames, body
/// parity.
pub open spec fn validate_header_spec(
    versions: Seq<i32>,
    indices: Seq<i32>,
    primes: Seq<i32>,
    buffers: Seq<Seq<u8>>,
    filenames: Seq<Seq<u8>>,
) -> Result<(), Error>
    recommends
        versions.len() >= 1,
        primes.len() >= 1,
        filenames.len() >= 1,
{
    if exists|i: int| 0 <= i < versions.len() && #[trigger] versions[i] != VERSION {
        Err(Error::UnsupportedVersion)
    } else if exists|i: int, j: int|
        #![trigger indices[i], indices[j]]
        0 <= i < j < indices.len() && indices[i] == indices[j] {
        Err(Error::DuplicateIndex)
    } else if exists|i: int| 0 <= i < primes.len() && #[trigger] primes[i] != primes[0] {
        Err(Error::DifferingPrimes)
    } else if filenames[0].len() > MAX_SECRET_FILENAME_LENGTH {
        Err(Error::FilenameTooLong)
    } else if exists|i: int| 0 <= i < filenames.len() && #[trigger] filenames[i] != filenames[0] {
        Err(Error::DifferingFilename)
    } else if exists|i: int| 0 <= i < buffers.len() && (#[trigger] buffers[i]).len() % 2 != 0 {
        Err(Error::OddBuffer)
    } else {
        Ok(())
    }
}

fn bytes_equal(a: &Vec<u8>, b: &Vec<u8>) -> (r: bool)
    ensures
        r <==> a@ == b@,
{
    if a.len() != b.len() {
        return false;
    }
    let mut i: usize = 0;
    while i < a.len()
        invariant
            a@.len() == b@.len(),
            i <= a@.len(),
            forall|j: int| 0 <= j < i ==> #[trigger] a@[j] == b@[j],
        decreases a@.len() - i,
    {
        if a[i] != b[i] {
            return false;
        }
        i = i + 1;
    }
    proof {
        assert(a@ =~= b@);
    }
    true
}

/// View of a list of byte vectors as a sequence of byte sequences.
pub open spec fn vecs_view(s: Seq<Vec<u8>>) -> Seq<Seq<u8>> {
    s.map_values(|v: Vec<u8>| v@)
}

/// Cross-validates the header fields of a reconstruction set.
#[verifier::loop_isolation(false)]
pub fn validate_header(
    versions: &Vec<i32>,
    indices: &Vec<i32>,
    primes: &Vec<i32>,
    buffers: &Vec<Vec<u8>>,
    filenames: &Vec<Vec<u8>>,
) -> (r: Result<(), Error>)
    requires
        versions@.len() >= 1,
        indices@.len() == versions@.len(),
        primes@.len() == versions@.len(),
        buffers@.len() == versions@.len(),
        filenames@.len() == versions@.len(),
    ensures
        r == validate_header_spec(
            versions@,
            indices@,
            primes@,
            vecs_view(buffers@),
            vecs_view(filenames@),
        ),
{
    let ghost bufs_v = vecs_view(buffers@);
    let ghost names_v = vecs_view(filenames@);
    let len = versions.len();
    let mut i: usize = 0;
    while i < len
        invariant
            len == versions@.len(),
            i <= len,
            forall|j: int| 0 <= j < i ==> #[trigger] versions@[j] == VERSION,
        decreases len - i,
    {
        if versions[i] != VERSION {
            return Err(Error::UnsupportedVersion);
        }
        i = i + 1;
    }
    let mut i: usize = 0;
    while i < len
        invariant
            len == indices@.len(),
            i <= len,
            forall|a: int, b: int|
                #![trigger indices@[a], indices@[b]]
                0 <= a < b < indices@.len() && a < i ==> indices@[a] != indices@[b],
        decreases len - i,
    {
        let mut j: usize = i + 1;
        while j < len
            invariant
                len == indices@.len(),
                i < j || j == i + 1,
                i < len,
                i + 1 <= j <= len,
                forall|b: int|
                    i < b < j ==> #[trigger] indices@[b] != indices@[i as int],
            decreases len - j,
        {
            if indices[j] == indices[i] {
                return Err(Error::DuplicateIndex);
            }
            j = j + 1;
        }
        i = i + 1;
    }
    let first_prime = primes[0];
    let mut i: usize = 0;
    while i < len
        invariant
            len == primes@.len(),
            len >= 1,
            first_prime == primes@[0],
            i <= len,
            forall|j: int| 0 <= j < i ==> #[trigger] primes@[j] == primes@[0],
        decreases len - i,
    {
        if primes[i] != first_prime {
            return Err(Error::DifferingPrimes);
        }
        i = i + 1;
    }
    if filenames[0].len() > MAX_SECRET_FILENAME_LENGTH {
        proof {
            assert(names_v[0] == filenames@[0]@);
        }
        return Err(Error::FilenameTooLong);
    }
    proof {
        assert(names_v[0] == filenames@[0]@);
    }
    let mut i: usize = 0;
    while i < len
        invariant
            len == filenames@.len(),
            len >= 1,
            names_v == vecs_view(filenames@),
            i <= len,
            forall|j: int| 0 <= j < i ==> #[trigger] names_v[j] == names_v[0],
        decreases len - i,
    {
        proof {
            assert(names_v[i as int] == filenames@[i as int]@);
            assert(names_v[0] == filenames@[0]@);
        }
        let same = bytes_equal(&filenames[i], &filenames[0]);
        if !same {
            return Err(Error::DifferingFilename);
        }
        i = i + 1;
    }
    let mut i: usize = 0;
    while i < len
        invariant
            len == buffers@.len(),
            bufs_v == vecs_view(buffers@),
            i <= len,
            forall|j: int| 0 <= j < i ==> (#[trigger] bufs_v[j]).len() % 2 == 0,
        decreases len - i,
    {
        proof {
            assert(bufs_v[i as int] == buffers@[i as int]@);
        }
        if buffers[i].len() % 2 != 0 {
            return Err(Error::OddBuffer);
        }
        i = i + 1;
    }
    Ok(())
}

/// The parsed header of the i-th chunk, where parsing succeeds.
pub open spec fn chunk_header(chunks: Seq<Seq<u8>>, i: int) -> (i32, i32, i32, Seq<u8>, Seq<u8>) {
    shard_header_spec(chunks[i])->Ok_0
}

/// First error among the first `k` chunks, scanned in order: a malformed
/// header, or a body segment whose length differs from the first shard's.
pub open spec fn scan_headers_spec(chunks: Seq<Seq<u8>>, k: int) -> Result<(), Error>
    decreases k,
{
    if k <= 0 {
        Ok(())
    } else {
        match scan_headers_spec(chunks, k - 1) {
            Err(e) => Err(e),
            Ok(_u) => match shard_header_spec(chunks[k - 1]) {
                Err(e) => Err(e),
                Ok(h) => if h.4.len() != chunk_header(chunks, 0).4.len() {
                    Err(Error::MismatchedBufferSizes)
                } else {
                    Ok(())
                },
            },
        }
    }
}

proof fn lemma_scan_headers_err(chunks: Seq<Seq<u8>>, k1: int, k2: int)
    requires
        k1 <= k2,
        scan_headers_spec(chunks, k1) is Err,
    ensures
        scan_headers_spec(chunks, k2) == scan_headers_spec(chunks, k1),
    decreases k2 - k1,
{
    if k2 > k1 {
        lemma_scan_headers_err(chunks, k1, k2 - 1);
    }
}

/// The five field columns of an all-parsed chunk set.
pub open spec fn headers_of(chunks: Seq<Seq<u8>>) -> (
    Seq<i32>,
    Seq<i32>,
    Seq<i32>,
    Seq<Seq<u8>>,
    Seq<Seq<u8>>,
) {
    (
        Seq::new(chunks.len(), |i: int| chunk_header(chunks, i).0),
        Seq::new(chunks.len(), |i: int| chunk_header(chunks, i).1),
        Seq::new(chunks.len(), |i: int| chunk_header(chunks, i).2),
        Seq::new(chunks.len(), |i: int| chunk_header(chunks, i).3),
        Seq::new(chunks.len(), |i: int| chunk_header(chunks, i).4),
    )
}

/// The full outcome of `read_headers`: parse each chunk, check the body
/// segments agree in length, cross-validate the fields, and hand back the
/// common prime and filename, the indices, the body segments, and their
/// common length.
pub open spec fn read_headers_spec(chunks: Seq<Seq<u8>>) -> Result<
    (i32, Seq<u8>, Seq<i32>, Seq<Seq<u8>>, int),
    Error,
>
    recommends
        chunks.len() >= 1,
{
    match scan_headers_spec(chunks, chunks.len() as int) {
        Err(e) => Err(e),
        Ok(_u) => {
            let hs = headers_of(chunks);
            match validate_header_spec(hs.0, hs.1, hs.2, hs.4, hs.3) {
                Err(e) => Err(e),
                Ok(_v) => Ok((hs.2[0], hs.3[0], hs.1, hs.4, hs.4[0].len() as int)),
            }
        },
    }
}

/// Parses the first chunk of every shard of a reconstruction set and
/// cross-validates the headers.
#[verifier::loop_isolation(false)]
pub fn read_headers(chunks: &Vec<Vec<u8>>) -> (r: Result<
    (i32, Vec<u8>, Vec<i32>, Vec<Vec<u8>>, usize),
    Error,
>)
    requires
        chunks@.len() >= 1,
    ensures
        r is Ok <==> read_headers_spec(vecs_view(chunks@)) is Ok,
        r is Err ==> r->Err_0 == read_headers_spec(vecs_view(chunks@))->Err_0,
        r is Ok ==> ({
            let h = read_headers_spec(vecs_view(chunks@))->Ok_0;
            &&& r->Ok_0.0 == h.0
            &&& r->Ok_0.1@ == h.1
            &&& r->Ok_0.2@ == h.2
            &&& vecs_view(r->Ok_0.3@) == h.3
            &&& r->Ok_0.4 as int == h.4
        }),
{
    let ghost cv = vecs_view(chunks@);
    let mut versions: Vec<i32> = Vec::new();
    let mut indices: Vec<i32> = Vec::new();
    let mut primes: Vec<i32> = Vec::new();
    let mut filenames: Vec<Vec<u8>> = Vec::new();
    let mut bodies: Vec<Vec<u8>> = Vec::new();
    let mut body_len: usize = 0;
    let mut i: usize = 0;
    while i < chunks.len()
        invariant
            i <= chunks@.len(),
            versions@.len() == i,
            indices@.len() == i,
            primes@.len() == i,
            filenames@.len() == i,
            bodies@.len() == i,
            scan_headers_spec(cv, i as int) == Ok::<(), Error>(()),
            forall|j: int| 0 <= j < i ==> #[trigger] versions@[j] == chunk_header(cv, j).0,
            forall|j: int| 0 <= j < i ==> #[trigger] indices@[j] == chunk_header(cv, j).1,
            forall|j: int| 0 <= j < i ==> #[trigger] primes@[j] == chunk_header(cv, j).2,
            forall|j: int| 0 <= j < i ==> (#[trigger] filenames@[j])@ == chunk_header(cv, j).3,
            forall|j: int| 0 <= j < i ==> (#[trigger] bodies@[j])@ == chunk_header(cv, j).4,
            i > 0 ==> body_len as int == chunk_header(cv, 0).4.len(),
        decreases chunks@.len() - i,
    {
        proof {
            assert(cv[i as int] == chunks@[i as int]@);
        }
        let h = match parse_shard_header(&chunks[i]) {
            Err(e) => {
                proof {
                    lemma_scan_headers_err(cv, i + 1, cv.len() as int);
                }
                return Err(e);
            },
            Ok(h) => h,
        };
        if i == 0 {
            body_len = h.body.len();
        } else if h.body.len() != body_len {
            proof {
                lemma_scan_headers_err(cv, i + 1, cv.len() as int);
            }
            return Err(Error::MismatchedBufferSizes);
        }
        versions.push(h.version);
        indices.push(h.index);
        primes.push(h.prime);
        filenames.push(h.filename);
        bodies.push(h.body);
        i = i + 1;
    }
    let ghost hs = headers_of(cv);
    proof {
        assert(versions@ =~= hs.0);
        assert(indices@ =~= hs.1);
        assert(primes@ =~= hs.2);
        assert(vecs_view(filenames@) =~= hs.3);
        assert(vecs_view(bodies@) =~= hs.4);
    }
    match validate_header(&versions, &indices, &primes, &bodies, &filenames) {
        Err(e) => {
            return Err(e);
        },
        Ok(_) => {},
    }
    let prime = primes[0];
    let name_len = filenames[0].len();
    let filename = copy_range(&filenames[0], 0, name_len);
    proof {
        assert(vecs_view(filenames@)[0] == filenames@[0]@);
        assert(filename@ =~= filenames@[0]@);
        assert(vecs_view(bodies@)[0] == bodies@[0]@);
    }
    Ok((prime, filename, indices, bodies, body_len))
}

/// A set holding a shard whose version differs from the supported one is
/// rejected.
pub proof fn lemma_reject_version(
    versions: Seq<i32>,
    indices: Seq<i32>,
    primes: Seq<i32>,
    buffers: Seq<Seq<u8>>,
    filenames: Seq<Seq<u8>>,
    i: int,
)
    requires
        0 <= i < versions.len(),
        versions[i] != VERSION,
    ensures
        validate_header_spec(versions, indices, primes, buffers, filenames) is Err,
{
    assert(versions[i] != VERSION);
}

/// A set holding two shards with the same index is rejected.
pub proof fn lemma_reject_duplicate_index(
    versions: Seq<i32>,
    indices: Seq<i32>,
    primes: Seq<i32>,
    buffers: Seq<Seq<u8>>,
    filenames: Seq<Seq<u8>>,
    i: int,
    j: int,
)
    requires
        0 <= i < j < indices.len(),
        indices[i] == indices[j],
    ensures
        validate_header_spec(versions, indices, primes, buffers, filenames) is Err,
{
    assert(indices[i] == indices[j]);
}

/// A set whose shards disagree on the prime is rejected.
pub proof fn lemma_reject_differing_primes(
    versions: Seq<i32>,
    indices: Seq<i32>,
    primes: Seq<i32>,
    buffers: Seq<Seq<u8>>,
    filenames: Seq<Seq<u8>>,
    i: int,
    j: int,
)
    requires
        0 <= i < primes.len(),
        0 <= j < primes.len(),
        primes[i] != primes[j],
    ensures
        validate_header_spec(versions, indices, primes, buffers, filenames) is Err,
{
    if primes[i] == primes[0] && primes[j] == primes[0] {
        assert(false);
    }
}

/// A set whose shards disagree on the original filename is rejected.
pub proof fn lemma_reject_differing_filenames(
    versions: Seq<i32>,
    indices: Seq<i32>,
    primes: Seq<i32>,
    buffers: Seq<Seq<u8>>,
    filenames: Seq<Seq<u8>>,
    i: int,
    j: int,
)
    requires
        0 <= i < filenames.len(),
        0 <= j < filenames.len(),
        filenames[i] != filenames[j],
    ensures
        validate_header_spec(versions, indices, primes, buffers, filenames) is Err,
{
    if filenames[i] == filenames[0] && filenames[j] == filenames[0] {
        assert(false);
    }
}

/// A set holding a shard whose recorded filename is over-long is rejected.
pub proof fn lemma_reject_long_filename(
    versions: Seq<i32>,
    indices: Seq<i32>,
    primes: Seq<i32>,
    buffers: Seq<Seq<u8>>,
    filenames: Seq<Seq<u8>>,
    i: int,
)
    requires
        0 <= i < filenames.len(),
        filenames[i].len() > MAX_SECRET_FILENAME_LENGTH,
    ensures
        validate_header_spec(versions, indices, primes, buffers, filenames) is Err,
{
    if filenames[i] != filenames[0] {
    } else {
        assert(filenames[0].len() > MAX_SECRET_FILENAME_LENGTH);
    }
}

} // verus!
