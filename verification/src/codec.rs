//! The compression stage: per-chunk payload encoding.
//!
//! A chunk payload is either stored untransformed or run-length encoded,
//! whichever is shorter; the chosen method is recorded in the chunk's frame.
//! Decoding an encoded payload always returns the original chunk.

use vstd::prelude::*;
use crate::error::Error;
use crate::options::CompressionLevel;

verus! {

/// Payload method tag: chunk bytes stored untransformed.
pub const METHOD_STORE: u8 = 0;

/// Payload method tag: chunk bytes run-length encoded.
pub const METHOD_RLE: u8 = 1;

/// Length of the longest prefix of `s` whose bytes all equal `s[0]`.
pub open spec fn spec_run_len(s: Seq<u8>) -> nat
    decreases s.len(),
{
    if s.len() == 0 {
        0
    } else if s.len() == 1 {
        1
    } else if s[1] == s[0] {
        (1 + spec_run_len(s.skip(1))) as nat
    } else {
        1
    }
}

/// A run is at least one byte and never longer than the sequence, and every
/// byte inside it equals the first.
pub proof fn lemma_run_len_props(s: Seq<u8>)
    requires
        s.len() > 0,
    ensures
        1 <= spec_run_len(s) <= s.len(),
        forall|k: int| 0 <= k < spec_run_len(s) ==> #[trigger] s[k] == s[0],
    decreases s.len(),
{
    if s.len() == 1 {
    } else if s[1] == s[0] {
        lemma_run_len_props(s.skip(1));
        assert forall|k: int| 0 <= k < spec_run_len(s) implies #[trigger] s[k] == s[0] by {
            if k >= 1 {
                assert(s.skip(1)[k - 1] == s[k]);
                assert(s.skip(1)[0] == s[1]);
            }
        }
    } else {
    }
}

/// If the first `n` bytes all equal the first byte, the run is at least `n`.
pub proof fn lemma_run_len_at_least(s: Seq<u8>, n: nat)
    requires
        n <= s.len(),
        forall|k: int| 0 <= k < n ==> #[trigger] s[k] == s[0],
    ensures
        n <= spec_run_len(s) || s.len() == spec_run_len(s),
    decreases s.len(),
{
    if n <= 1 || s.len() <= 1 {
        if s.len() > 0 {
            lemma_run_len_props(s);
        }
    } else {
        assert(s[1] == s[0]);
        assert forall|k: int| 0 <= k < n - 1 implies #[trigger] s.skip(1)[k] == s.skip(1)[0] by {
            assert(s.skip(1)[k] == s[k + 1]);
            assert(s.skip(1)[0] == s[1]);
        }
        lemma_run_len_at_least(s.skip(1), (n - 1) as nat);
    }
}

/// If the byte at `n` breaks the run, the run is exactly `n`.
pub proof fn lemma_run_len_exact(s: Seq<u8>, n: nat)
    requires
        1 <= n < s.len(),
        forall|k: int| 0 <= k < n ==> #[trigger] s[k] == s[0],
        s[n as int] != s[0],
    ensures
        spec_run_len(s) == n,
    decreases s.len(),
{
    if n == 1 {
        assert(s[1] != s[0]);
    } else {
        assert(s[1] == s[0]);
        assert forall|k: int| 0 <= k < n - 1 implies #[trigger] s.skip(1)[k] == s.skip(1)[0] by {
            assert(s.skip(1)[k] == s[k + 1]);
            assert(s.skip(1)[0] == s[1]);
        }
        assert(s.skip(1)[n - 1] == s[n as int]);
        assert(s.skip(1)[0] == s[1]);
        lemma_run_len_exact(s.skip(1), (n - 1) as nat);
    }
}

/// The run-length encoding of a byte sequence: a list of (count, byte)
/// pairs, each count between 1 and 255.
pub open spec fn spec_rle_encode(s: Seq<u8>) -> Seq<u8>
    decreases s.len(),
    via spec_rle_encode_dec
{
    if s.len() == 0 {
        Seq::empty()
    } else {
        let r = if spec_run_len(s) > 255 {
            255nat
        } else {
            spec_run_len(s)
        };
        seq![r as u8, s[0]] + spec_rle_encode(s.skip(r as int))
    }
}

#[via_fn]
proof fn spec_rle_encode_dec(s: Seq<u8>) {
    if s.len() > 0 {
        lemma_run_len_props(s);
    }
}

/// The decoding of a run-length encoded sequence; `None` when the bytes are
/// not a well-formed encoding (a dangling count byte, or a zero count).
pub open spec fn spec_rle_decode(s: Seq<u8>) -> Option<Seq<u8>>
    decreases s.len(),
{
    if s.len() == 0 {
        Some(Seq::empty())
    } else if s.len() == 1 {
        None
    } else if s[0] == 0 {
        None
    } else {
        match spec_rle_decode(s.skip(2)) {
            None => None,
            Some(rest) => Some(Seq::new(s[0] as nat, |i: int| s[1]) + rest),
        }
    }
}

/// Decoding an encoding returns the original bytes.
pub proof fn lemma_rle_round_trip(s: Seq<u8>)
    ensures
        spec_rle_decode(spec_rle_encode(s)) == Some(s),
    decreases s.len(),
{
    if s.len() == 0 {
        assert(spec_rle_encode(s) =~= Seq::<u8>::empty());
        assert(s =~= Seq::<u8>::empty());
    } else {
        lemma_run_len_props(s);
        let r = if spec_run_len(s) > 255 {
            255nat
        } else {
            spec_run_len(s)
        };
        lemma_rle_round_trip(s.skip(r as int));
        let enc = spec_rle_encode(s);
        let rest_enc = spec_rle_encode(s.skip(r as int));
        assert(enc == seq![r as u8, s[0]] + rest_enc);
        assert(enc.len() >= 2);
        assert(enc[0] == r as u8 && enc[1] == s[0]);
        assert(enc[0] != 0);
        assert(enc.skip(2) =~= rest_enc);
        assert(Seq::new(enc[0] as nat, |i: int| enc[1]) + s.skip(r as int) =~= s);
    }
}

/// What decoding a tagged payload yields: the bytes themselves for
/// `METHOD_STORE`, the run-length decoding for `METHOD_RLE`, nothing for an
/// unknown tag.
pub open spec fn spec_decode_payload(method: u8, payload: Seq<u8>) -> Option<Seq<u8>> {
    if method == METHOD_STORE {
        Some(payload)
    } else if method == METHOD_RLE {
        spec_rle_decode(payload)
    } else {
        None
    }
}

/// The method tag and payload the compression stage emits for a chunk:
/// untransformed bytes at `Store` level, and at every other level the
/// run-length encoding when it is shorter, the untransformed bytes
/// otherwise.
pub open spec fn spec_compress_chunk(level: CompressionLevel, data: Seq<u8>) -> (u8, Seq<u8>) {
    if level == CompressionLevel::Store {
        (METHOD_STORE, data)
    } else {
        let e = spec_rle_encode(data);
        if e.len() < data.len() {
            (METHOD_RLE, e)
        } else {
            (METHOD_STORE, data)
        }
    }
}

/// A compressed payload always decodes back to the chunk, and never exceeds
/// the chunk's own length.
pub proof fn lemma_compress_chunk_ok(level: CompressionLevel, data: Seq<u8>)
    ensures
        spec_decode_payload(
            spec_compress_chunk(level, data).0,
            spec_compress_chunk(level, data).1,
        ) == Some(data),
        spec_compress_chunk(level, data).1.len() <= data.len(),
{
    lemma_rle_round_trip(data);
}

/// Run-length encode a byte slice.
pub fn rle_encode(data: &[u8]) -> (r: Vec<u8>)
    ensures
        r@ == spec_rle_encode(data@),
{
    let mut out: Vec<u8> = Vec::new();
    let mut i: usize = 0;
    proof {
        assert(data@.skip(0) =~= data@);
        assert(out@ + spec_rle_encode(data@) =~= spec_rle_encode(data@));
    }
    while i < data.len()
        invariant
            i <= data@.len(),
            spec_rle_encode(data@) == out@ + spec_rle_encode(data@.skip(i as int)),
        decreases data@.len() - i,
    {
        let b = data[i];
        let mut j: usize = i + 1;
        while j < data.len() && j - i < 255 && data[j] == b
            invariant
                i < j <= data@.len(),
                j - i <= 255,
                forall|k: int| i <= k < j ==> #[trigger] data@[k] == b,
            decreases data@.len() - j,
        {
            j = j + 1;
        }
        let ghost rem = data@.skip(i as int);
        proof {
            assert(rem.len() == data@.len() - i);
            assert(rem[0] == data@[i as int]);
            assert forall|k: int| 0 <= k < j - i implies #[trigger] rem[k] == rem[0] by {
                assert(rem[k] == data@[i + k]);
            }
            lemma_run_len_props(rem);
            if j - i == 255 {
                lemma_run_len_at_least(rem, 255nat);
            } else if j < data.len() {
                assert(rem[(j - i) as int] == data@[j as int]);
                lemma_run_len_exact(rem, (j - i) as nat);
            } else {
                lemma_run_len_at_least(rem, (j - i) as nat);
            }
            let r = if spec_run_len(rem) > 255 {
                255nat
            } else {
                spec_run_len(rem)
            };
            assert(r == (j - i) as nat);
            assert(rem.skip(r as int) =~= data@.skip(j as int));
            assert(spec_rle_encode(rem) == seq![r as u8, rem[0]] + spec_rle_encode(
                data@.skip(j as int),
            ));
        }
        out.push((j - i) as u8);
        out.push(b);
        proof {
            assert(out@ + spec_rle_encode(data@.skip(j as int)) =~= spec_rle_encode(data@));
        }
        i = j;
    }
    proof {
        assert(data@.skip(i as int) =~= Seq::<u8>::empty());
        assert(out@ + spec_rle_encode(data@.skip(i as int)) =~= out@);
    }
    out
}

/// Prepending a prefix to a decoding result, if there is one.
pub open spec fn spec_opt_prepend(prefix: Seq<u8>, o: Option<Seq<u8>>) -> Option<Seq<u8>> {
    match o {
        None => None,
        Some(rest) => Some(prefix + rest),
    }
}

/// Append `count` copies of `b` to `out`.
pub(crate) fn push_repeat(out: &mut Vec<u8>, b: u8, count: usize)
    requires
        old(out)@.len() + count <= usize::MAX,
    ensures
        final(out)@ == old(out)@ + Seq::new(count as nat, |i: int| b),
{
    let mut n: usize = 0;
    while n < count
        invariant
            n <= count,
            out@ == old(out)@ + Seq::new(n as nat, |i: int| b),
        decreases count - n,
    {
        out.push(b);
        n = n + 1;
        proof {
            assert(old(out)@ + Seq::new((n - 1) as nat, |i: int| b) + seq![b] =~= old(out)@
                + Seq::new(n as nat, |i: int| b));
        }
    }
}

/// Decode a run-length encoded payload, refusing results longer than `cap`.
///
/// Returns `CorruptArchive` when the bytes are not a well-formed encoding or
/// the decoded length exceeds `cap`.
pub fn rle_decode(payload: &[u8], cap: usize) -> (r: Result<Vec<u8>, Error>)
    ensures
        match r {
            Ok(v) => spec_rle_decode(payload@) == Some(v@) && v@.len() <= cap,
            Err(e) => e == Error::CorruptArchive && (spec_rle_decode(payload@) is None
                || spec_rle_decode(payload@).unwrap().len() > cap),
        },
{
    let mut out: Vec<u8> = Vec::new();
    let mut i: usize = 0;
    proof {
        assert(payload@.skip(0) =~= payload@);
        if spec_rle_decode(payload@) is Some {
            assert(out@ + spec_rle_decode(payload@).unwrap() =~= spec_rle_decode(
                payload@,
            ).unwrap());
        }
    }
    while i < payload.len()
        invariant
            i <= payload@.len(),
            out@.len() <= cap,
            cap <= usize::MAX,
            spec_rle_decode(payload@) == spec_opt_prepend(
                out@,
                spec_rle_decode(payload@.skip(i as int)),
            ),
        decreases payload@.len() - i,
    {
        let ghost rem = payload@.skip(i as int);
        proof {
            assert(rem.len() == payload@.len() - i);
        }
        if payload.len() - i == 1 {
            proof {
                assert(spec_rle_decode(rem) is None);
            }
            return Err(Error::CorruptArchive);
        }
        let count = payload[i];
        let byte = payload[i + 1];
        proof {
            assert(rem[0] == payload@[i as int]);
            assert(rem[1] == payload@[i as int + 1]);
        }
        if count == 0 {
            proof {
                assert(spec_rle_decode(rem) is None);
            }
            return Err(Error::CorruptArchive);
        }
        let ghost rest_dec = spec_rle_decode(payload@.skip(i as int + 2));
        proof {
            assert(rem.skip(2) =~= payload@.skip(i as int + 2));
            assert(spec_rle_decode(rem) == spec_opt_prepend(
                Seq::new(count as nat, |k: int| byte),
                rest_dec,
            ));
        }
        if count as usize > cap - out.len() {
            proof {
                if rest_dec is Some {
                    let whole = spec_rle_decode(payload@).unwrap();
                    assert(whole == out@ + (Seq::new(count as nat, |k: int| byte)
                        + rest_dec.unwrap()));
                    assert(whole.len() > cap);
                }
            }
            return Err(Error::CorruptArchive);
        }
        push_repeat(&mut out, byte, count as usize);
        proof {
            if rest_dec is Some {
                assert(out@ + rest_dec.unwrap() =~= spec_rle_decode(payload@).unwrap());
            }
        }
        i = i + 2;
    }
    proof {
        assert(payload@.skip(i as int) =~= Seq::<u8>::empty());
        assert(out@ + Seq::<u8>::empty() =~= out@);
    }
    Ok(out)
}

/// What decompressing a tagged payload returns when the decoded chunk may be
/// at most `cap` bytes long.
pub open spec fn spec_decompress_chunk(method: u8, payload: Seq<u8>, cap: nat) -> Result<
    Seq<u8>,
    Error,
> {
    match spec_decode_payload(method, payload) {
        None => Err(Error::CorruptArchive),
        Some(v) => if v.len() <= cap {
            Ok(v)
        } else {
            Err(Error::CorruptArchive)
        },
    }
}

/// Compress one chunk: choose the method for this level and emit the tagged
/// payload.
pub fn compress_chunk(level: CompressionLevel, data: &[u8]) -> (r: (u8, Vec<u8>))
    ensures
        (r.0, r.1@) == spec_compress_chunk(level, data@),
        spec_decode_payload(r.0, r.1@) == Some(data@),
        r.1@.len() <= data@.len(),
{
    proof {
        lemma_compress_chunk_ok(level, data@);
    }
    match level {
        CompressionLevel::Store => {
            let mut copy: Vec<u8> = Vec::new();
            copy.extend_from_slice(data);
            proof {
                assert(copy@ =~= data@);
            }
            (METHOD_STORE, copy)
        },
        _ => {
            let enc = rle_encode(data);
            if enc.len() < data.len() {
                (METHOD_RLE, enc)
            } else {
                let mut copy: Vec<u8> = Vec::new();
                copy.extend_from_slice(data);
                proof {
                    assert(copy@ =~= data@);
                }
                (METHOD_STORE, copy)
            }
        },
    }
}

/// Decompress one tagged payload into a chunk of at most `cap` bytes.
pub fn decompress_chunk(method: u8, payload: &[u8], cap: usize) -> (r: Result<Vec<u8>, Error>)
    ensures
        match r {
            Ok(v) => spec_decompress_chunk(method, payload@, cap as nat) == Ok::<_, Error>(v@),
            Err(e) => spec_decompress_chunk(method, payload@, cap as nat) == Err::<Seq<u8>, _>(e),
        },
{
    if method == METHOD_STORE {
        if payload.len() <= cap {
            let mut copy: Vec<u8> = Vec::new();
            copy.extend_from_slice(payload);
            proof {
                assert(copy@ =~= payload@);
            }
            Ok(copy)
        } else {
            Err(Error::CorruptArchive)
        }
    } else if method == METHOD_RLE {
        rle_decode(payload, cap)
    } else {
        Err(Error::CorruptArchive)
    }
}

} // verus!
