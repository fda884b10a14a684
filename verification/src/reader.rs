//! The extraction and test pipeline: the verified parser of archive
//! streams.
//!
//! The caller hands in the logical stream — the concatenation of the
//! volumes in order — and an optional password.  Parsing follows
//! [`crate::format::spec_parse_archive`] exactly: the password test block
//! is checked before any index or body work, structural damage stops the
//! whole parse with `CorruptArchive`, and a damaged entry is reported as
//! such without masking the entries after it.

use vstd::prelude::*;
use vstd::slice::slice_subrange;
use vstd::slice::slice_to_vec;
use vstd::string::StringSliceAdditionalSpecFns;
use vstd::wrapping::u64_specs;
use crate::checksum::fnv64;
use crate::cipher::CipherKey;
use crate::cipher::chunk_iv;
use crate::cipher::decrypt_chunk;
use crate::cipher::derive_key;
use crate::cipher::check_test_block;
use crate::codec::decompress_chunk;
use crate::error::Error;
use crate::format::EntryMeta;
use crate::format::EntryMetaView;
use crate::format::FRAME_HEADER_LEN;
use crate::format::parse_header;
use crate::format::parse_index;
use crate::format::read_u32_at;
use crate::format::read_u64_at;
use crate::format::spec_chunk_plain;
use crate::format::spec_metas_view;
use crate::format::spec_parse_archive;
use crate::format::spec_parse_entries;
use crate::format::spec_parse_entry_chunks;
use crate::format::spec_parse_frame;

verus! {

/// The model of a maybe-recovered entry data buffer.
pub open spec fn spec_opt_view(o: Option<Vec<u8>>) -> Option<Seq<u8>> {
    match o {
        None => None,
        Some(v) => Some(v@),
    }
}

/// Concatenation of two maybe-recovered buffers: any corrupt part poisons
/// the whole.
pub open spec fn spec_opt_concat(a: Option<Seq<u8>>, b: Option<Seq<u8>>) -> Option<Seq<u8>> {
    match (a, b) {
        (Some(x), Some(y)) => Some(x + y),
        _ => None,
    }
}

/// The models of the per-entry outcomes.
pub open spec fn spec_datas_view(rs: Seq<Option<Vec<u8>>>) -> Seq<Option<Seq<u8>>> {
    rs.map(|i: int, o: Option<Vec<u8>>| spec_opt_view(o))
}

/// Parse one frame at `pos` and recover its chunk.
fn parse_one_frame(body: &[u8], pos: usize, key: &Option<CipherKey>, counter: u64) -> (r: Result<
    (Option<Vec<u8>>, usize),
    Error,
>)
    requires
        pos <= body@.len(),
        body@.len() <= usize::MAX,
    ensures
        match r {
            Ok((chunk, used)) => {
                &&& spec_parse_frame(body@.skip(pos as int)) matches Some((m, pl, stored, u))
                    && u == used && spec_opt_view(chunk) == spec_chunk_plain(
                    m,
                    pl,
                    stored,
                    *key,
                    counter,
                )
                &&& pos + used <= body@.len()
                &&& used >= FRAME_HEADER_LEN
            },
            Err(e) => e == Error::CorruptArchive && spec_parse_frame(
                body@.skip(pos as int),
            ) is None,
        },
{
    let ghost rem = body@.skip(pos as int);
    if body.len() - pos < FRAME_HEADER_LEN {
        proof {
            assert(rem.len() < FRAME_HEADER_LEN);
        }
        return Err(Error::CorruptArchive);
    }
    let method = body[pos];
    let plain_len = read_u32_at(body, pos + 1);
    let stored_len = read_u32_at(body, pos + 5);
    proof {
        assert(rem[0] == body@[pos as int]);
        assert(rem.subrange(1, 5) =~= body@.subrange(pos as int + 1, pos as int + 5));
        assert(rem.subrange(5, 9) =~= body@.subrange(pos as int + 5, pos as int + 9));
    }
    if body.len() - pos - FRAME_HEADER_LEN < stored_len as usize {
        proof {
            assert(rem.len() < FRAME_HEADER_LEN + stored_len);
        }
        return Err(Error::CorruptArchive);
    }
    let used = FRAME_HEADER_LEN + stored_len as usize;
    let stored_slice = slice_subrange(body, pos + FRAME_HEADER_LEN, pos + used);
    proof {
        assert(stored_slice@ =~= rem.subrange(
            FRAME_HEADER_LEN as int,
            FRAME_HEADER_LEN + stored_len as int,
        ));
        assert(spec_parse_frame(rem) == Some(
            (method, plain_len, stored_slice@, FRAME_HEADER_LEN + stored_len as int),
        ));
    }
    let payload: Option<Vec<u8>> = match key {
        None => Some(slice_to_vec(stored_slice)),
        Some(k) => {
            let iv = chunk_iv(k, counter);
            match decrypt_chunk(k, iv, stored_slice) {
                Ok(p) => Some(p),
                Err(e) => None,
            }
        },
    };
    let chunk: Option<Vec<u8>> = match payload {
        None => None,
        Some(p) => match decompress_chunk(method, p.as_slice(), plain_len as usize) {
            Ok(v) => {
                if v.len() == plain_len as usize {
                    Some(v)
                } else {
                    None
                }
            },
            Err(e) => None,
        },
    };
    proof {
        assert(spec_opt_view(chunk) == spec_chunk_plain(
            method,
            plain_len,
            stored_slice@,
            *key,
            counter,
        ));
    }
    Ok((chunk, used))
}

/// Parse `n` chunk frames at `pos0` and reassemble the entry data.
fn parse_entry_chunks(
    body: &[u8],
    pos0: usize,
    n: u64,
    key: &Option<CipherKey>,
    counter0: u64,
) -> (r: Result<(Option<Vec<u8>>, usize), Error>)
    requires
        pos0 <= body@.len(),
        body@.len() <= usize::MAX,
    ensures
        match r {
            Ok((d, newpos)) => spec_parse_entry_chunks(body@.skip(pos0 as int), n, *key, counter0)
                == Ok::<_, Error>((spec_opt_view(d), (newpos - pos0) as int)) && pos0 <= newpos
                <= body@.len(),
            Err(e) => spec_parse_entry_chunks(body@.skip(pos0 as int), n, *key, counter0)
                == Err::<(Option<Seq<u8>>, int), _>(e),
        },
{
    let mut acc: Option<Vec<u8>> = Some(Vec::new());
    let mut pos: usize = pos0;
    let mut counter: u64 = counter0;
    let mut j: u64 = 0;
    proof {
        assert(spec_opt_view(acc) == Some(Seq::<u8>::empty()));
    }
    while j < n
        invariant
            pos0 <= pos <= body@.len(),
            body@.len() <= usize::MAX,
            j <= n,
            match spec_parse_entry_chunks(body@.skip(pos as int), (n - j) as u64, *key, counter) {
                Err(e) => spec_parse_entry_chunks(body@.skip(pos0 as int), n, *key, counter0)
                    == Err::<(Option<Seq<u8>>, int), Error>(e),
                Ok((rest, used)) => spec_parse_entry_chunks(body@.skip(pos0 as int), n, *key, counter0)
                    == Ok::<_, Error>(
                    (spec_opt_concat(spec_opt_view(acc), rest), (pos - pos0) + used),
                ),
            },
        decreases n - j,
    {
        let parsed = match parse_one_frame(body, pos, key, counter) {
            Ok(p) => p,
            Err(e) => {
                return Err(Error::CorruptArchive);
            },
        };
        let (chunk, used) = parsed;
        let ghost (m, pl, stored, u) = spec_parse_frame(body@.skip(pos as int)).unwrap();
        let ghost cv = spec_chunk_plain(m, pl, stored, *key, counter);
        let ghost old_acc_view = spec_opt_view(acc);
        acc = match (acc, chunk) {
            (Some(a), Some(c)) => {
                let mut a2 = a;
                let mut c2 = c;
                a2.append(&mut c2);
                Some(a2)
            },
            _ => None,
        };
        proof {
            assert(spec_opt_view(acc) == spec_opt_concat(old_acc_view, cv));
            assert(body@.skip(pos as int).skip(used as int) =~= body@.skip(pos + used as int));
            let next_counter = u64_specs::wrapping_add(counter, 1);
            let tail = spec_parse_entry_chunks(
                body@.skip(pos + used as int),
                (n - j - 1) as u64,
                *key,
                next_counter,
            );
            assert(spec_parse_entry_chunks(body@.skip(pos as int), (n - j) as u64, *key, counter)
                == (match tail {
                Err(e) => Err::<(Option<Seq<u8>>, int), Error>(e),
                Ok((rest, used2)) => Ok((spec_opt_concat(cv, rest), used + used2)),
            }));
            match tail {
                Err(e) => {},
                Ok((rest, used2)) => {
                    match (old_acc_view, cv, rest) {
                        (Some(a), Some(c), Some(rst)) => {
                            assert(a + (c + rst) =~= (a + c) + rst);
                        },
                        _ => {},
                    }
                    assert(spec_opt_concat(old_acc_view, spec_opt_concat(cv, rest))
                        == spec_opt_concat(spec_opt_view(acc), rest));
                },
            }
        }
        pos = pos + used;
        counter = counter.wrapping_add(1);
        j = j + 1;
    }
    proof {
        assert(spec_parse_entry_chunks(body@.skip(pos as int), 0u64, *key, counter)
            == Ok::<_, Error>((Some(Seq::<u8>::empty()), 0int)));
        if acc is Some {
            assert(acc.unwrap()@ + Seq::<u8>::empty() =~= acc.unwrap()@);
        }
    }
    Ok((acc, pos))
}

/// Parse the body region against the index records.
#[verifier::rlimit(100)]
#[verifier::spinoff_prover]
fn parse_entries(body: &[u8], metas: &Vec<EntryMeta>, key: &Option<CipherKey>) -> (r: Result<
    Vec<Option<Vec<u8>>>,
    Error,
>)
    ensures
        match r {
            Ok(ds) => spec_parse_entries(body@, spec_metas_view(metas@), *key, 0)
                == Ok::<_, Error>(spec_datas_view(ds@)),
            Err(e) => spec_parse_entries(body@, spec_metas_view(metas@), *key, 0)
                == Err::<Seq<Option<Seq<u8>>>, _>(e),
        },
{
    let ghost mv = spec_metas_view(metas@);
    let mut results: Vec<Option<Vec<u8>>> = Vec::new();
    let mut pos: usize = 0;
    let mut counter: u64 = 0;
    let mut i: usize = 0;
    let body_len = body.len();
    proof {
        assert(mv.len() == metas@.len());
        assert(body@.skip(0) =~= body@);
        assert(mv.skip(0) =~= mv);
        assert(spec_datas_view(results@) =~= Seq::<Option<Seq<u8>>>::empty());
    }
    while i < metas.len()
        invariant
            i <= metas@.len(),
            pos <= body@.len(),
            body@.len() <= usize::MAX,
            mv == spec_metas_view(metas@),
            mv.len() == metas@.len(),
            results@.len() == i,
            match spec_parse_entries(body@.skip(pos as int), mv.skip(i as int), *key, counter) {
                Err(e) => spec_parse_entries(body@, mv, *key, 0) == Err::<
                    Seq<Option<Seq<u8>>>,
                    Error,
                >(e),
                Ok(rest) => spec_parse_entries(body@, mv, *key, 0) == Ok::<_, Error>(
                    spec_datas_view(results@) + rest,
                ),
            },
        decreases metas@.len() - i,
    {
        proof {
            assert(mv.skip(i as int)[0] == mv[i as int]);
            assert(mv[i as int] == metas@[i as int]@);
            assert(mv.skip(i as int).skip(1) =~= mv.skip(i as int + 1));
        }
        let meta = &metas[i];
        let parsed = match parse_entry_chunks(body, pos, meta.chunk_count, key, counter) {
            Ok(p) => p,
            Err(e) => {
                return Err(e);
            },
        };
        let (d, newpos) = parsed;
        let outcome: Option<Vec<u8>> = match d {
            None => None,
            Some(v) => {
                let ck = fnv64(v.as_slice());
                if v.len() as u64 == meta.size && ck == meta.checksum {
                    Some(v)
                } else {
                    None
                }
            },
        };
        proof {
            assert(spec_opt_view(outcome) == crate::format::spec_entry_result(
                mv[i as int],
                spec_opt_view(d),
            ));
        }
        let ghost old_results = results@;
        results.push(outcome);
        proof {
            assert(body@.skip(pos as int).skip((newpos - pos) as int) =~= body@.skip(
                newpos as int,
            ));
            let next_counter = u64_specs::wrapping_add(counter, mv[i as int].chunk_count);
            match spec_parse_entries(
                body@.skip(newpos as int),
                mv.skip(i as int + 1),
                *key,
                next_counter,
            ) {
                Err(e) => {},
                Ok(rest) => {
                    assert(spec_parse_entries(
                        body@.skip(pos as int),
                        mv.skip(i as int),
                        *key,
                        counter,
                    ) == Ok::<_, Error>(
                        seq![crate::format::spec_entry_result(mv[i as int], spec_opt_view(d))]
                            + rest,
                    ));
                    assert(spec_datas_view(results@) =~= spec_datas_view(old_results).push(
                        spec_opt_view(outcome),
                    ));
                    assert(spec_datas_view(old_results) + (seq![spec_opt_view(outcome)] + rest)
                        =~= spec_datas_view(results@) + rest);
                },
            }
        }
        pos = newpos;
        counter = counter.wrapping_add(meta.chunk_count);
        i = i + 1;
    }
    proof {
        assert(mv.skip(i as int) =~= Seq::<EntryMetaView>::empty());
    }
    if pos != body_len {
        proof {
            assert(body@.skip(pos as int).len() != 0);
        }
        return Err(Error::CorruptArchive);
    }
    proof {
        assert(body@.skip(pos as int).len() == 0);
        assert(spec_datas_view(results@) + Seq::<Option<Seq<u8>>>::empty() =~= spec_datas_view(
            results@,
        ));
    }
    Ok(results)
}

/// The optional password as the byte sequence the key is derived from.
pub open spec fn spec_password_view(password: Option<&str>) -> Option<Seq<u8>> {
    match password {
        None => None,
        Some(p) => Some(p.spec_bytes()),
    }
}

/// Parse a whole logical archive stream.
///
/// Returns the index records and, per entry, its recovered data — or
/// `None` for an entry whose chunks failed to decode or whose length or
/// checksum does not match its record.  `WrongPassword` comes before any
/// index or body work; `CorruptArchive` reports structural damage.
#[verifier::rlimit(100)]
#[verifier::spinoff_prover]
pub fn parse_archive(stream: &[u8], password: Option<&str>) -> (r: Result<
    (Vec<EntryMeta>, Vec<Option<Vec<u8>>>),
    Error,
>)
    ensures
        match r {
            Ok((ms, ds)) => spec_parse_archive(stream@, spec_password_view(password))
                == Ok::<_, Error>((spec_metas_view(ms@), spec_datas_view(ds@))),
            Err(e) => spec_parse_archive(stream@, spec_password_view(password)) == Err::<
                (Seq<EntryMetaView>, Seq<Option<Seq<u8>>>),
                _,
            >(e),
        },
{
    let (chunk_size, enc, hdr_len) = match parse_header(stream) {
        Ok(h) => h,
        Err(e) => {
            return Err(e);
        },
    };
    let key: Option<CipherKey> = match &enc {
        None => None,
        Some((salt, tb)) => {
            match password {
                None => {
                    return Err(Error::WrongPassword);
                },
                Some(p) => {
                    let k = derive_key(p.as_bytes(), salt.as_slice());
                    if !check_test_block(&k, *tb) {
                        return Err(Error::WrongPassword);
                    }
                    Some(k)
                },
            }
        },
    };
    let rest = slice_subrange(stream, hdr_len, stream.len());
    proof {
        assert(rest@ =~= stream@.skip(hdr_len as int));
    }
    if rest.len() < 8 {
        return Err(Error::CorruptArchive);
    }
    let ilen = read_u64_at(rest, rest.len() - 8);
    proof {
        assert(rest@.subrange(rest@.len() - 8, rest@.len() as int) =~= rest@.subrange(
            rest@.len() - 8,
            rest@.len() - 8 + 8,
        ));
    }
    if ilen > (rest.len() - 8) as u64 {
        return Err(Error::CorruptArchive);
    }
    let body_len = rest.len() - 8 - ilen as usize;
    let body = slice_subrange(rest, 0, body_len);
    let idx = slice_subrange(rest, body_len, rest.len() - 8);
    proof {
        assert(body@ =~= rest@.subrange(0, rest@.len() - 8 - ilen));
        assert(idx@ =~= rest@.subrange(rest@.len() - 8 - ilen, rest@.len() - 8));
    }
    let metas = match parse_index(idx) {
        Ok(ms) => ms,
        Err(e) => {
            return Err(e);
        },
    };
    let datas = match parse_entries(body, &metas, &key) {
        Ok(ds) => ds,
        Err(e) => {
            return Err(e);
        },
    };
    Ok((metas, datas))
}

} // verus!
