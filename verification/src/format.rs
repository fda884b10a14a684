//! The container format of an archive.
//!
//! The logical archive stream — the concatenation of its volumes — is laid
//! out as: a header (magic, version, flags, chunk size, and for encrypted
//! archives the salt and the password test block); one frame per chunk, in
//! entry order, each frame carrying a method tag, the chunk's plain length,
//! the stored payload length and the payload itself; a central index
//! describing every entry (name, sizes, times, attributes, chunk count and
//! content checksum); and an eight-byte trailer holding the index length, so
//! a reader can locate the index from the end of the last volume.
//!
//! Everything here is stated twice: spec functions give the byte-exact
//! encoding and the parse of every region, and lemmas prove that parsing an
//! encoding returns the original data — the round-trip guarantee the engine's
//! `create`/`extract` contracts build on.

use vstd::prelude::*;
use vstd::bytes::spec_u16_to_le_bytes;
use vstd::bytes::spec_u16_from_le_bytes;
use vstd::bytes::spec_u32_to_le_bytes;
use vstd::bytes::spec_u32_from_le_bytes;
use vstd::bytes::spec_u64_to_le_bytes;
use vstd::bytes::spec_u64_from_le_bytes;
use vstd::bytes::lemma_auto_spec_u16_to_from_le_bytes;
use vstd::bytes::lemma_auto_spec_u32_to_from_le_bytes;
use vstd::bytes::lemma_auto_spec_u64_to_from_le_bytes;
use vstd::utf8::encode_utf8;
use vstd::utf8::decode_utf8;
use vstd::utf8::valid_utf8;
use vstd::utf8::encode_utf8_valid_utf8;
use vstd::utf8::encode_utf8_decode_utf8;
use vstd::wrapping::u64_specs;
use crate::checksum::spec_fnv64;
use crate::cipher::CipherKey;
use crate::cipher::spec_chunk_iv;
use crate::cipher::spec_decrypt_chunk;
use crate::cipher::spec_derive_key;
use crate::cipher::spec_encrypt_chunk;
use crate::cipher::spec_test_block;
use crate::cipher::spec_test_block_ok;
use crate::cipher::lemma_encrypt_chunk_round_trip;
use crate::codec::spec_compress_chunk;
use crate::codec::spec_decompress_chunk;
use crate::codec::lemma_compress_chunk_ok;
use crate::error::Error;
use crate::options::CompressionLevel;

verus! {

/// First magic byte of an archive.
pub const MAGIC_0: u8 = 0x53;

/// Second magic byte of an archive.
pub const MAGIC_1: u8 = 0x5a;

/// Third magic byte of an archive.
pub const MAGIC_2: u8 = 0x41;

/// Fourth magic byte of an archive.
pub const MAGIC_3: u8 = 0x31;

/// Version byte of this container layout.
pub const FORMAT_VERSION: u8 = 1;

/// Header flag: the chunk payloads are encrypted.
pub const FLAG_ENCRYPTED: u8 = 1;

/// Header length without encryption material.
pub const HEADER_PLAIN_LEN: usize = 14;

/// Header length with salt and test block.
pub const HEADER_ENC_LEN: usize = 46;

/// Bytes of a frame before its payload: method tag, plain length, payload
/// length.
pub const FRAME_HEADER_LEN: usize = 9;

/// Bytes of the trailer: the index length.
pub const TRAILER_LEN: usize = 8;

/// Longest entry name, in UTF-8 bytes.
pub const MAX_NAME_BYTES: usize = 65535;

/// The mathematical model of one file handed to or returned by the engine.
pub ghost struct FileDataView {
    pub name: Seq<char>,
    pub data: Seq<u8>,
    pub modified_time: u64,
    pub attributes: u32,
    pub is_directory: bool,
}

/// The mathematical model of one index record.
pub ghost struct EntryMetaView {
    pub name: Seq<char>,
    pub size: u64,
    pub packed_size: u64,
    pub modified_time: u64,
    pub attributes: u32,
    pub is_directory: bool,
    pub chunk_count: u64,
    pub checksum: u64,
}

/// A file the engine can archive: its name fits the index record, its
/// length fits the size field, and a directory carries no data.
pub open spec fn spec_wf_file(f: FileDataView) -> bool {
    &&& encode_utf8(f.name).len() <= MAX_NAME_BYTES
    &&& f.data.len() <= u64::MAX
    &&& (f.is_directory ==> f.data.len() == 0)
}

/// How many chunks a `len`-byte entry occupies at granularity `chunk_size`.
pub open spec fn spec_chunk_count(len: nat, chunk_size: u64) -> nat
    decreases len,
{
    if len == 0 || chunk_size == 0 {
        0
    } else {
        let c = if len > chunk_size {
            chunk_size as nat
        } else {
            len
        };
        1 + spec_chunk_count((len - c) as nat, chunk_size)
    }
}

/// Total chunks of a file sequence.
pub open spec fn spec_total_chunks(files: Seq<FileDataView>, chunk_size: u64) -> nat
    decreases files.len(),
{
    if files.len() == 0 {
        0
    } else {
        spec_chunk_count(files[0].data.len(), chunk_size) + spec_total_chunks(
            files.skip(1),
            chunk_size,
        )
    }
}

/// A file set the engine can archive in one run: every file is
/// well-formed, the entry count fits the index, and the chunk counter
/// cannot wrap.
pub open spec fn spec_wf_files(files: Seq<FileDataView>, chunk_size: u64) -> bool {
    &&& forall|i: int| 0 <= i < files.len() ==> spec_wf_file(#[trigger] files[i])
    &&& files.len() <= u64::MAX
    &&& spec_total_chunks(files, chunk_size) <= u64::MAX
}

// ---------------------------------------------------------------------------
// Encoding
// ---------------------------------------------------------------------------

/// The header bytes: magic, version, flags, chunk size, and for an encrypted
/// archive the 16-byte salt and the 16-byte password test block.
pub open spec fn spec_encode_header(chunk_size: u64, enc: Option<(Seq<u8>, (u64, u64))>) -> Seq<
    u8,
> {
    let flags: u8 = if enc is Some {
        FLAG_ENCRYPTED
    } else {
        0
    };
    let base = seq![MAGIC_0, MAGIC_1, MAGIC_2, MAGIC_3, FORMAT_VERSION, flags]
        + spec_u64_to_le_bytes(chunk_size);
    match enc {
        None => base,
        Some((salt, tb)) => base + salt + spec_u64_to_le_bytes(tb.0) + spec_u64_to_le_bytes(tb.1),
    }
}

/// The frame bytes of one chunk: method tag, plain length, payload length,
/// payload.
pub open spec fn spec_encode_frame(method: u8, plain_len: u32, stored: Seq<u8>) -> Seq<u8> {
    seq![method] + spec_u32_to_le_bytes(plain_len) + spec_u32_to_le_bytes(stored.len() as u32)
        + stored
}

/// The payload stored for a chunk: the compressed bytes, encrypted under the
/// chunk's deterministic IV when a key is present.
pub open spec fn spec_stored_payload(
    level: CompressionLevel,
    key: Option<CipherKey>,
    counter: u64,
    chunk: Seq<u8>,
) -> Seq<u8> {
    let payload = spec_compress_chunk(level, chunk).1;
    match key {
        None => payload,
        Some(k) => spec_encrypt_chunk(k, spec_chunk_iv(k, counter), payload),
    }
}

/// The whole frame of the chunk with archive-wide index `counter`.
pub open spec fn spec_chunk_frame(
    level: CompressionLevel,
    key: Option<CipherKey>,
    counter: u64,
    chunk: Seq<u8>,
) -> Seq<u8> {
    spec_encode_frame(
        spec_compress_chunk(level, chunk).0,
        chunk.len() as u32,
        spec_stored_payload(level, key, counter, chunk),
    )
}

/// The frames of one entry: its data cut into chunks of at most
/// `chunk_size` bytes, in file order, the chunk counter advancing by one
/// per frame.
pub open spec fn spec_entry_frames(
    data: Seq<u8>,
    level: CompressionLevel,
    chunk_size: u64,
    key: Option<CipherKey>,
    counter: u64,
) -> Seq<u8>
    decreases data.len(),
{
    if data.len() == 0 || chunk_size == 0 {
        Seq::empty()
    } else {
        let c = if data.len() > chunk_size {
            chunk_size as int
        } else {
            data.len() as int
        };
        spec_chunk_frame(level, key, counter, data.take(c)) + spec_entry_frames(
            data.skip(c),
            level,
            chunk_size,
            key,
            u64_specs::wrapping_add(counter, 1),
        )
    }
}

/// The frames of a file sequence, entries in order.
pub open spec fn spec_files_frames(
    files: Seq<FileDataView>,
    level: CompressionLevel,
    chunk_size: u64,
    key: Option<CipherKey>,
    counter: u64,
) -> Seq<u8>
    decreases files.len(),
{
    if files.len() == 0 {
        Seq::empty()
    } else {
        spec_entry_frames(files[0].data, level, chunk_size, key, counter) + spec_files_frames(
            files.skip(1),
            level,
            chunk_size,
            key,
            u64_specs::wrapping_add(
                counter,
                spec_chunk_count(files[0].data.len(), chunk_size) as u64,
            ),
        )
    }
}

/// The stored length of one chunk's payload.
pub open spec fn spec_stored_len(level: CompressionLevel, encrypted: bool, chunk: Seq<u8>) -> nat {
    let p = spec_compress_chunk(level, chunk).1.len();
    if encrypted {
        (p + 16 - (p % 16)) as nat
    } else {
        p
    }
}

/// The packed size of an entry: the summed stored payload lengths of its
/// chunks.
pub open spec fn spec_entry_packed(
    data: Seq<u8>,
    level: CompressionLevel,
    chunk_size: u64,
    encrypted: bool,
) -> nat
    decreases data.len(),
{
    if data.len() == 0 || chunk_size == 0 {
        0
    } else {
        let c = if data.len() > chunk_size {
            chunk_size as int
        } else {
            data.len() as int
        };
        spec_stored_len(level, encrypted, data.take(c)) + spec_entry_packed(
            data.skip(c),
            level,
            chunk_size,
            encrypted,
        )
    }
}

/// The index record the engine writes for a file.
pub open spec fn spec_meta_of(
    f: FileDataView,
    level: CompressionLevel,
    chunk_size: u64,
    encrypted: bool,
) -> EntryMetaView {
    EntryMetaView {
        name: f.name,
        size: f.data.len() as u64,
        packed_size: spec_entry_packed(f.data, level, chunk_size, encrypted) as u64,
        modified_time: f.modified_time,
        attributes: f.attributes,
        is_directory: f.is_directory,
        chunk_count: spec_chunk_count(f.data.len(), chunk_size) as u64,
        checksum: spec_fnv64(f.data),
    }
}

/// The index records of a file sequence.
pub open spec fn spec_metas_of_files(
    files: Seq<FileDataView>,
    level: CompressionLevel,
    chunk_size: u64,
    encrypted: bool,
) -> Seq<EntryMetaView> {
    files.map(|i: int, f: FileDataView| spec_meta_of(f, level, chunk_size, encrypted))
}

/// The bytes of one index record.
pub open spec fn spec_encode_meta(e: EntryMetaView) -> Seq<u8> {
    let nb = encode_utf8(e.name);
    spec_u16_to_le_bytes(nb.len() as u16) + nb + spec_u64_to_le_bytes(e.size)
        + spec_u64_to_le_bytes(e.packed_size) + spec_u64_to_le_bytes(e.modified_time)
        + spec_u32_to_le_bytes(e.attributes) + seq![
        if e.is_directory {
            1u8
        } else {
            0u8
        },
    ] + spec_u64_to_le_bytes(e.chunk_count) + spec_u64_to_le_bytes(e.checksum)
}

/// The bytes of a run of index records.
pub open spec fn spec_encode_metas(es: Seq<EntryMetaView>) -> Seq<u8>
    decreases es.len(),
{
    if es.len() == 0 {
        Seq::empty()
    } else {
        spec_encode_meta(es[0]) + spec_encode_metas(es.skip(1))
    }
}

/// The bytes of the central index: the entry count, then the records.
pub open spec fn spec_encode_index(es: Seq<EntryMetaView>) -> Seq<u8> {
    spec_u64_to_le_bytes(es.len() as u64) + spec_encode_metas(es)
}

/// The whole logical archive stream of a file set under a configuration:
/// header, frames, index, trailer.
pub open spec fn spec_archive_stream(
    files: Seq<FileDataView>,
    level: CompressionLevel,
    chunk_size: u64,
    enc: Option<(Seq<u8>, CipherKey)>,
) -> Seq<u8> {
    let key = match enc {
        None => None,
        Some((salt, k)) => Some(k),
    };
    let hdr_enc = match enc {
        None => None,
        Some((salt, k)) => Some((salt, spec_test_block(k))),
    };
    let body = spec_files_frames(files, level, chunk_size, key, 0);
    let index = spec_encode_index(spec_metas_of_files(files, level, chunk_size, enc is Some));
    spec_encode_header(chunk_size, hdr_enc) + body + index + spec_u64_to_le_bytes(
        index.len() as u64,
    )
}

// ---------------------------------------------------------------------------
// Parsing
// ---------------------------------------------------------------------------

/// A parsed header.
pub ghost struct HeaderView {
    pub chunk_size: u64,
    pub enc: Option<(Seq<u8>, (u64, u64))>,
    pub len: int,
}

/// Parse the header region; `None` when magic, version or flags are not
/// this container's.
pub open spec fn spec_parse_header(s: Seq<u8>) -> Option<HeaderView> {
    if s.len() < HEADER_PLAIN_LEN {
        None
    } else if s[0] != MAGIC_0 || s[1] != MAGIC_1 || s[2] != MAGIC_2 || s[3] != MAGIC_3 {
        None
    } else if s[4] != FORMAT_VERSION {
        None
    } else if s[5] == 0 {
        Some(
            HeaderView {
                chunk_size: spec_u64_from_le_bytes(s.subrange(6, 14)),
                enc: None,
                len: HEADER_PLAIN_LEN as int,
            },
        )
    } else if s[5] == FLAG_ENCRYPTED {
        if s.len() < HEADER_ENC_LEN {
            None
        } else {
            Some(
                HeaderView {
                    chunk_size: spec_u64_from_le_bytes(s.subrange(6, 14)),
                    enc: Some(
                        (
                            s.subrange(14, 30),
                            (
                                spec_u64_from_le_bytes(s.subrange(30, 38)),
                                spec_u64_from_le_bytes(s.subrange(38, 46)),
                            ),
                        ),
                    ),
                    len: HEADER_ENC_LEN as int,
                },
            )
        }
    } else {
        None
    }
}

/// Parse one frame at the front of `s`: method, plain length, payload, and
/// bytes consumed.  `None` when the bytes end inside the frame.
pub open spec fn spec_parse_frame(s: Seq<u8>) -> Option<(u8, u32, Seq<u8>, int)> {
    if s.len() < FRAME_HEADER_LEN {
        None
    } else {
        let method = s[0];
        let plain_len = spec_u32_from_le_bytes(s.subrange(1, 5));
        let stored_len = spec_u32_from_le_bytes(s.subrange(5, 9));
        if s.len() < FRAME_HEADER_LEN + stored_len {
            None
        } else {
            Some(
                (
                    method,
                    plain_len,
                    s.subrange(FRAME_HEADER_LEN as int, FRAME_HEADER_LEN + stored_len),
                    FRAME_HEADER_LEN + stored_len,
                ),
            )
        }
    }
}

/// Recover one chunk from a parsed frame: decrypt when a key is present,
/// decompress, and check the recovered length against the frame's plain
/// length.  `None` marks the chunk corrupt.
pub open spec fn spec_chunk_plain(
    method: u8,
    plain_len: u32,
    stored: Seq<u8>,
    key: Option<CipherKey>,
    counter: u64,
) -> Option<Seq<u8>> {
    let payload = match key {
        None => Some(stored),
        Some(k) => spec_decrypt_chunk(k, spec_chunk_iv(k, counter), stored),
    };
    match payload {
        None => None,
        Some(p) => match spec_decompress_chunk(method, p, plain_len as nat) {
            Ok(v) => if v.len() == plain_len {
                Some(v)
            } else {
                None
            },
            Err(e) => None,
        },
    }
}

/// Parse `n` frames at the front of `s` and reassemble the entry's data.
/// `Err` when a frame is torn (framing lost); `Ok(None, used)` when every
/// frame was delimited but some chunk was corrupt.
pub open spec fn spec_parse_entry_chunks(
    s: Seq<u8>,
    n: u64,
    key: Option<CipherKey>,
    counter: u64,
) -> Result<(Option<Seq<u8>>, int), Error>
    decreases n,
{
    if n == 0 {
        Ok((Some(Seq::empty()), 0))
    } else {
        match spec_parse_frame(s) {
            None => Err(Error::CorruptArchive),
            Some((m, pl, stored, used)) => {
                let chunk = spec_chunk_plain(m, pl, stored, key, counter);
                match spec_parse_entry_chunks(
                    s.skip(used),
                    (n - 1) as u64,
                    key,
                    u64_specs::wrapping_add(counter, 1),
                ) {
                    Err(e) => Err(e),
                    Ok((rest, used2)) => Ok(
                        (
                            match (chunk, rest) {
                                (Some(c), Some(r)) => Some(c + r),
                                _ => None,
                            },
                            used + used2,
                        ),
                    ),
                }
            },
        }
    }
}

/// The verification outcome of one entry: its reassembled data when every
/// chunk decoded and the length and checksum match the index record.
pub open spec fn spec_entry_result(meta: EntryMetaView, data: Option<Seq<u8>>) -> Option<Seq<u8>> {
    match data {
        None => None,
        Some(d) => if d.len() == meta.size && spec_fnv64(d) == meta.checksum {
            Some(d)
        } else {
            None
        },
    }
}

/// Parse the body region against the index records: each entry's chunks in
/// order, the body consumed exactly.
pub open spec fn spec_parse_entries(
    s: Seq<u8>,
    metas: Seq<EntryMetaView>,
    key: Option<CipherKey>,
    counter: u64,
) -> Result<Seq<Option<Seq<u8>>>, Error>
    decreases metas.len(),
{
    if metas.len() == 0 {
        if s.len() == 0 {
            Ok(Seq::empty())
        } else {
            Err(Error::CorruptArchive)
        }
    } else {
        match spec_parse_entry_chunks(s, metas[0].chunk_count, key, counter) {
            Err(e) => Err(e),
            Ok((d, used)) => match spec_parse_entries(
                s.skip(used),
                metas.skip(1),
                key,
                u64_specs::wrapping_add(counter, metas[0].chunk_count),
            ) {
                Err(e) => Err(e),
                Ok(rest) => Ok(seq![spec_entry_result(metas[0], d)] + rest),
            },
        }
    }
}

/// A successful body parse reports exactly one outcome per index record.
pub proof fn lemma_parse_entries_len(
    s: Seq<u8>,
    metas: Seq<EntryMetaView>,
    key: Option<CipherKey>,
    counter: u64,
)
    requires
        spec_parse_entries(s, metas, key, counter) is Ok,
    ensures
        spec_parse_entries(s, metas, key, counter).unwrap().len() == metas.len(),
    decreases metas.len(),
{
    if metas.len() == 0 {
    } else {
        match spec_parse_entry_chunks(s, metas[0].chunk_count, key, counter) {
            Err(e) => {},
            Ok((d, used)) => {
                lemma_parse_entries_len(
                    s.skip(used),
                    metas.skip(1),
                    key,
                    u64_specs::wrapping_add(counter, metas[0].chunk_count),
                );
            },
        }
    }
}

/// A successful archive parse reports exactly one outcome per index
/// record.
pub proof fn lemma_parse_entries_len_for(s: Seq<u8>, password: Option<Seq<u8>>)
    ensures
        spec_parse_archive(s, password) matches Ok((metas, datas)) ==> datas.len()
            == metas.len(),
{
    if spec_parse_archive(s, password) is Ok {
        let h = spec_parse_header(s).unwrap();
        let key = if h.enc is Some {
            Some(spec_derive_key(password.unwrap(), h.enc.unwrap().0))
        } else {
            None
        };
        let rest = s.skip(h.len);
        let ilen = spec_u64_from_le_bytes(rest.subrange(rest.len() - 8, rest.len() as int));
        let body = rest.subrange(0, rest.len() - 8 - ilen);
        let idx = rest.subrange(rest.len() - 8 - ilen, rest.len() - 8);
        let metas = spec_parse_index(idx).unwrap();
        lemma_parse_entries_len(body, metas, key, 0);
    }
}

/// Parse one index record at the front of `s`; `None` when it is torn, its
/// name bytes are not UTF-8, or its directory flag is not 0 or 1.
pub open spec fn spec_parse_meta(s: Seq<u8>) -> Option<(EntryMetaView, int)> {
    if s.len() < 2 {
        None
    } else {
        let nlen = spec_u16_from_le_bytes(s.subrange(0, 2)) as int;
        if s.len() < nlen + 47 {
            None
        } else {
            let nb = s.subrange(2, 2 + nlen);
            if !valid_utf8(nb) {
                None
            } else {
                let off = 2 + nlen;
                let dirb = s[off + 28];
                if dirb != 0 && dirb != 1 {
                    None
                } else {
                    Some(
                        (
                            EntryMetaView {
                                name: decode_utf8(nb),
                                size: spec_u64_from_le_bytes(s.subrange(off, off + 8)),
                                packed_size: spec_u64_from_le_bytes(s.subrange(off + 8, off + 16)),
                                modified_time: spec_u64_from_le_bytes(
                                    s.subrange(off + 16, off + 24),
                                ),
                                attributes: spec_u32_from_le_bytes(s.subrange(off + 24, off + 28)),
                                is_directory: dirb == 1,
                                chunk_count: spec_u64_from_le_bytes(s.subrange(off + 29, off + 37)),
                                checksum: spec_u64_from_le_bytes(s.subrange(off + 37, off + 45)),
                            },
                            off + 45,
                        ),
                    )
                }
            }
        }
    }
}

/// Parse `n` index records at the front of `s`.
pub open spec fn spec_parse_metas(s: Seq<u8>, n: nat) -> Option<(Seq<EntryMetaView>, int)>
    decreases n,
{
    if n == 0 {
        Some((Seq::empty(), 0))
    } else {
        match spec_parse_meta(s) {
            None => None,
            Some((m, used)) => match spec_parse_metas(s.skip(used), (n - 1) as nat) {
                None => None,
                Some((rest, used2)) => Some((seq![m] + rest, used + used2)),
            },
        }
    }
}

/// Parse the index region exactly: the count, then that many records,
/// nothing left over.
pub open spec fn spec_parse_index(s: Seq<u8>) -> Option<Seq<EntryMetaView>> {
    if s.len() < 8 {
        None
    } else {
        let n = spec_u64_from_le_bytes(s.subrange(0, 8));
        match spec_parse_metas(s.skip(8), n as nat) {
            None => None,
            Some((ms, used)) => if used == s.len() - 8 {
                Some(ms)
            } else {
                None
            },
        }
    }
}

/// Parse a whole logical archive stream with an optional password (as UTF-8
/// bytes).
///
/// The password check runs before any index or body work: an encrypted
/// archive with no or a failing password stops at `WrongPassword`.
/// Structural damage — bad header, bad trailer, torn index or frame, body
/// not consumed exactly — stops at `CorruptArchive`.  Otherwise every entry
/// is reported: its data when it decoded and matched its index record, or
/// `None` when that entry is corrupt.
pub open spec fn spec_parse_archive(s: Seq<u8>, password: Option<Seq<u8>>) -> Result<
    (Seq<EntryMetaView>, Seq<Option<Seq<u8>>>),
    Error,
> {
    match spec_parse_header(s) {
        None => Err(Error::CorruptArchive),
        Some(h) => {
            if h.enc is Some && password is None {
                Err(Error::WrongPassword)
            } else {
                let key = if h.enc is Some {
                    Some(spec_derive_key(password.unwrap(), h.enc.unwrap().0))
                } else {
                    None
                };
                if h.enc is Some && !spec_test_block_ok(key.unwrap(), h.enc.unwrap().1) {
                    Err(Error::WrongPassword)
                } else {
                    let rest = s.skip(h.len);
                    if rest.len() < 8 {
                        Err(Error::CorruptArchive)
                    } else {
                        let ilen = spec_u64_from_le_bytes(
                            rest.subrange(rest.len() - 8, rest.len() as int),
                        );
                        if ilen > rest.len() - 8 {
                            Err(Error::CorruptArchive)
                        } else {
                            let body = rest.subrange(0, rest.len() - 8 - ilen);
                            let idx = rest.subrange(rest.len() - 8 - ilen, rest.len() - 8);
                            match spec_parse_index(idx) {
                                None => Err(Error::CorruptArchive),
                                Some(metas) => match spec_parse_entries(body, metas, key, 0) {
                                    Err(e) => Err(e),
                                    Ok(datas) => Ok((metas, datas)),
                                },
                            }
                        }
                    }
                }
            }
        },
    }
}

} // verus!

verus! {

// ---------------------------------------------------------------------------
// Round-trip lemmas: parsing an encoding returns the original data
// ---------------------------------------------------------------------------

/// The data of every file, as an extraction result.
pub open spec fn spec_datas_of_files(files: Seq<FileDataView>) -> Seq<Option<Seq<u8>>> {
    files.map(|i: int, f: FileDataView| Some(f.data))
}

/// Parsing an encoded header returns its fields.
pub proof fn lemma_parse_header_round_trip(
    chunk_size: u64,
    enc: Option<(Seq<u8>, (u64, u64))>,
    rest: Seq<u8>,
)
    requires
        enc matches Some((salt, tb)) ==> salt.len() == 16,
    ensures
        spec_parse_header(spec_encode_header(chunk_size, enc) + rest) == Some(
            HeaderView {
                chunk_size,
                enc,
                len: if enc is Some {
                    HEADER_ENC_LEN as int
                } else {
                    HEADER_PLAIN_LEN as int
                },
            },
        ),
{
    lemma_auto_spec_u64_to_from_le_bytes();
    let h = spec_encode_header(chunk_size, enc);
    let s = h + rest;
    let flags: u8 = if enc is Some {
        FLAG_ENCRYPTED
    } else {
        0
    };
    let base = seq![MAGIC_0, MAGIC_1, MAGIC_2, MAGIC_3, FORMAT_VERSION, flags]
        + spec_u64_to_le_bytes(chunk_size);
    assert(base.len() == 14);
    assert(s[0] == MAGIC_0 && s[1] == MAGIC_1 && s[2] == MAGIC_2 && s[3] == MAGIC_3);
    assert(s[4] == FORMAT_VERSION);
    assert(s[5] == flags);
    assert(s.subrange(6, 14) =~= spec_u64_to_le_bytes(chunk_size));
    match enc {
        None => {
            assert(s.len() >= 14);
        },
        Some((salt, tb)) => {
            assert(h.len() == 46);
            assert(s.len() >= 46);
            assert(s.subrange(14, 30) =~= salt);
            assert(s.subrange(30, 38) =~= spec_u64_to_le_bytes(tb.0));
            assert(s.subrange(38, 46) =~= spec_u64_to_le_bytes(tb.1));
            assert(spec_parse_header(s).unwrap().enc == Some((salt, tb)));
        },
    }
}

/// Parsing an encoded frame returns its fields and consumes exactly the
/// frame.
pub proof fn lemma_parse_frame_round_trip(method: u8, plain_len: u32, stored: Seq<u8>, rest: Seq<u8>)
    requires
        stored.len() <= u32::MAX,
    ensures
        spec_parse_frame(spec_encode_frame(method, plain_len, stored) + rest) == Some(
            (method, plain_len, stored, FRAME_HEADER_LEN + stored.len()),
        ),
        spec_encode_frame(method, plain_len, stored).len() == FRAME_HEADER_LEN + stored.len(),
{
    lemma_auto_spec_u32_to_from_le_bytes();
    let f = spec_encode_frame(method, plain_len, stored);
    let s = f + rest;
    assert(f.len() == 9 + stored.len());
    assert(s[0] == method);
    assert(s.subrange(1, 5) =~= spec_u32_to_le_bytes(plain_len));
    assert(s.subrange(5, 9) =~= spec_u32_to_le_bytes(stored.len() as u32));
    assert(s.subrange(9, 9 + stored.len() as int) =~= stored);
}

/// A stored payload never outgrows its chunk by more than the cipher
/// padding.
pub proof fn lemma_stored_payload_len(
    level: CompressionLevel,
    key: Option<CipherKey>,
    counter: u64,
    chunk: Seq<u8>,
)
    ensures
        spec_stored_payload(level, key, counter, chunk).len() <= chunk.len() + 16,
        spec_chunk_frame(level, key, counter, chunk).len() <= FRAME_HEADER_LEN + chunk.len() + 16,
        spec_chunk_frame(level, key, counter, chunk).len() == FRAME_HEADER_LEN
            + spec_stored_payload(level, key, counter, chunk).len(),
{
    lemma_auto_spec_u32_to_from_le_bytes();
    lemma_compress_chunk_ok(level, chunk);
    let p = spec_compress_chunk(level, chunk).1;
    match key {
        None => {},
        Some(k) => {
            crate::cipher::lemma_encrypt_chunk_round_trip(k, spec_chunk_iv(k, counter), p);
        },
    }
}

/// Recovering the chunk of a stored payload returns the chunk.
pub proof fn lemma_chunk_plain_round_trip(
    level: CompressionLevel,
    key: Option<CipherKey>,
    counter: u64,
    chunk: Seq<u8>,
)
    requires
        chunk.len() <= u32::MAX,
    ensures
        spec_chunk_plain(
            spec_compress_chunk(level, chunk).0,
            chunk.len() as u32,
            spec_stored_payload(level, key, counter, chunk),
            key,
            counter,
        ) == Some(chunk),
{
    lemma_compress_chunk_ok(level, chunk);
    let (m, p) = spec_compress_chunk(level, chunk);
    match key {
        None => {},
        Some(k) => {
            lemma_encrypt_chunk_round_trip(k, spec_chunk_iv(k, counter), p);
        },
    }
}

/// Parsing the frames of one entry returns its data and consumes exactly
/// those frames.
#[verifier::rlimit(100)]
#[verifier::spinoff_prover]
pub proof fn lemma_entry_frames_round_trip(
    data: Seq<u8>,
    level: CompressionLevel,
    chunk_size: u64,
    key: Option<CipherKey>,
    counter: u64,
    rest: Seq<u8>,
)
    requires
        1 <= chunk_size <= crate::options::MAX_CHUNK_SIZE,
        counter + spec_chunk_count(data.len(), chunk_size) <= u64::MAX,
    ensures
        spec_parse_entry_chunks(
            spec_entry_frames(data, level, chunk_size, key, counter) + rest,
            spec_chunk_count(data.len(), chunk_size) as u64,
            key,
            counter,
        ) == Ok::<_, Error>(
            (
                Some(data),
                spec_entry_frames(data, level, chunk_size, key, counter).len() as int,
            ),
        ),
    decreases data.len(),
{
    if data.len() == 0 {
        assert(spec_entry_frames(data, level, chunk_size, key, counter) + rest =~= rest);
        assert(Some(Seq::<u8>::empty()) == Some(data)) by {
            assert(data =~= Seq::<u8>::empty());
        }
    } else {
        let c = if data.len() > chunk_size {
            chunk_size as int
        } else {
            data.len() as int
        };
        let head = data.take(c);
        let tail = data.skip(c);
        let frame = spec_chunk_frame(level, key, counter, head);
        let frames_rest = spec_entry_frames(tail, level, chunk_size, key, u64_specs::wrapping_add(counter, 1));
        let frames = spec_entry_frames(data, level, chunk_size, key, counter);
        assert(frames == frame + frames_rest);
        assert(u64_specs::wrapping_add(counter, 1) == counter + 1);
        let stored = spec_stored_payload(level, key, counter, head);
        lemma_stored_payload_len(level, key, counter, head);
        assert(head.len() <= chunk_size);
        assert(stored.len() <= u32::MAX);
        lemma_parse_frame_round_trip(
            spec_compress_chunk(level, head).0,
            head.len() as u32,
            stored,
            frames_rest + rest,
        );
        assert(frames + rest =~= frame + (frames_rest + rest));
        let used = FRAME_HEADER_LEN + stored.len();
        assert(frame.len() == used);
        lemma_chunk_plain_round_trip(level, key, counter, head);
        assert((frames + rest).skip(used as int) =~= frames_rest + rest);
        lemma_entry_frames_round_trip(tail, level, chunk_size, key, (counter + 1) as u64, rest);
        let n = spec_chunk_count(data.len(), chunk_size);
        assert(n == 1 + spec_chunk_count(tail.len(), chunk_size));
        assert(head + tail =~= data);
        assert(frames.len() == frame.len() + frames_rest.len());
    }
}

/// Parsing the body against the index records of a file set returns every
/// file's data.
pub proof fn lemma_files_frames_round_trip(
    files: Seq<FileDataView>,
    level: CompressionLevel,
    chunk_size: u64,
    key: Option<CipherKey>,
    counter: u64,
    encrypted: bool,
)
    requires
        1 <= chunk_size <= crate::options::MAX_CHUNK_SIZE,
        counter + spec_total_chunks(files, chunk_size) <= u64::MAX,
        forall|i: int| 0 <= i < files.len() ==> spec_wf_file(#[trigger] files[i]),
    ensures
        spec_parse_entries(
            spec_files_frames(files, level, chunk_size, key, counter),
            spec_metas_of_files(files, level, chunk_size, encrypted),
            key,
            counter,
        ) == Ok::<_, Error>(spec_datas_of_files(files)),
    decreases files.len(),
{
    let metas = spec_metas_of_files(files, level, chunk_size, encrypted);
    if files.len() == 0 {
        assert(spec_files_frames(files, level, chunk_size, key, counter).len() == 0);
        assert(metas.len() == 0);
        assert(spec_datas_of_files(files) =~= Seq::<Option<Seq<u8>>>::empty());
    } else {
        let f0 = files[0];
        let frames0 = spec_entry_frames(f0.data, level, chunk_size, key, counter);
        let body = spec_files_frames(files, level, chunk_size, key, counter);
        let cc0 = spec_chunk_count(f0.data.len(), chunk_size);
        let body_rest = spec_files_frames(
            files.skip(1),
            level,
            chunk_size,
            key,
            u64_specs::wrapping_add(counter, cc0 as u64),
        );
        assert(body == frames0 + body_rest);
        assert(spec_wf_file(f0));
        assert(spec_total_chunks(files, chunk_size) == cc0 + spec_total_chunks(
            files.skip(1),
            chunk_size,
        ));
        assert(u64_specs::wrapping_add(counter, cc0 as u64) == counter + cc0);
        lemma_entry_frames_round_trip(f0.data, level, chunk_size, key, counter, body_rest);
        assert(frames0 + body_rest =~= body);
        let meta0 = metas[0];
        assert(meta0 == spec_meta_of(f0, level, chunk_size, encrypted));
        assert(meta0.chunk_count == cc0 as u64);
        assert(spec_parse_entry_chunks(body, meta0.chunk_count, key, counter) == Ok::<_, Error>(
            (Some(f0.data), frames0.len() as int),
        ));
        assert(body.skip(frames0.len() as int) =~= body_rest);
        assert(metas.skip(1) =~= spec_metas_of_files(files.skip(1), level, chunk_size, encrypted));
        lemma_files_frames_round_trip(
            files.skip(1),
            level,
            chunk_size,
            key,
            (counter + cc0) as u64,
            encrypted,
        );
        assert(spec_entry_result(meta0, Some(f0.data)) == Some(f0.data)) by {
            assert(f0.data.len() as u64 == meta0.size);
            assert(spec_fnv64(f0.data) == meta0.checksum);
        }
        assert(seq![Some(f0.data)] + spec_datas_of_files(files.skip(1)) =~= spec_datas_of_files(
            files,
        ));
    }
}

/// Parsing an encoded index record returns it and consumes exactly the
/// record.
pub proof fn lemma_parse_meta_round_trip(e: EntryMetaView, rest: Seq<u8>)
    requires
        encode_utf8(e.name).len() <= MAX_NAME_BYTES,
    ensures
        spec_parse_meta(spec_encode_meta(e) + rest) == Some(
            (e, spec_encode_meta(e).len() as int),
        ),
        spec_encode_meta(e).len() == 47 + encode_utf8(e.name).len(),
{
    lemma_auto_spec_u16_to_from_le_bytes();
    lemma_auto_spec_u32_to_from_le_bytes();
    lemma_auto_spec_u64_to_from_le_bytes();
    encode_utf8_valid_utf8(e.name);
    encode_utf8_decode_utf8(e.name);
    let nb = encode_utf8(e.name);
    let m = spec_encode_meta(e);
    let s = m + rest;
    let nlen = nb.len() as int;
    assert(m.len() == 47 + nlen);
    assert(s.subrange(0, 2) =~= spec_u16_to_le_bytes(nb.len() as u16));
    assert(spec_u16_from_le_bytes(s.subrange(0, 2)) == nlen);
    assert(s.subrange(2, 2 + nlen) =~= nb);
    let off = 2 + nlen;
    assert(s.subrange(off, off + 8) =~= spec_u64_to_le_bytes(e.size));
    assert(s.subrange(off + 8, off + 16) =~= spec_u64_to_le_bytes(e.packed_size));
    assert(s.subrange(off + 16, off + 24) =~= spec_u64_to_le_bytes(e.modified_time));
    assert(s.subrange(off + 24, off + 28) =~= spec_u32_to_le_bytes(e.attributes));
    assert(s[off + 28] == if e.is_directory { 1u8 } else { 0u8 });
    assert(s.subrange(off + 29, off + 37) =~= spec_u64_to_le_bytes(e.chunk_count));
    assert(s.subrange(off + 37, off + 45) =~= spec_u64_to_le_bytes(e.checksum));
    let parsed = spec_parse_meta(s).unwrap().0;
    assert(parsed.name == e.name);
    assert(parsed == e);
}

/// Parsing a run of encoded index records returns them all.
pub proof fn lemma_parse_metas_round_trip(es: Seq<EntryMetaView>, rest: Seq<u8>)
    requires
        forall|i: int|
            0 <= i < es.len() ==> encode_utf8(#[trigger] es[i].name).len() <= MAX_NAME_BYTES,
    ensures
        spec_parse_metas(spec_encode_metas(es) + rest, es.len() as nat) == Some(
            (es, spec_encode_metas(es).len() as int),
        ),
    decreases es.len(),
{
    if es.len() == 0 {
        assert(spec_encode_metas(es) + rest =~= rest);
        assert(spec_parse_metas(rest, 0) == Some((Seq::<EntryMetaView>::empty(), 0int)));
        assert(es =~= Seq::<EntryMetaView>::empty());
    } else {
        let m0 = spec_encode_meta(es[0]);
        let ms_rest = spec_encode_metas(es.skip(1));
        let ms = spec_encode_metas(es);
        assert(ms == m0 + ms_rest);
        assert(ms + rest =~= m0 + (ms_rest + rest));
        lemma_parse_meta_round_trip(es[0], ms_rest + rest);
        assert((ms + rest).skip(m0.len() as int) =~= ms_rest + rest);
        lemma_parse_metas_round_trip(es.skip(1), rest);
        assert(seq![es[0]] + es.skip(1) =~= es);
        assert(ms.len() == m0.len() + ms_rest.len());
    }
}

/// Parsing an encoded index returns its records.
pub proof fn lemma_parse_index_round_trip(es: Seq<EntryMetaView>)
    requires
        forall|i: int|
            0 <= i < es.len() ==> encode_utf8(#[trigger] es[i].name).len() <= MAX_NAME_BYTES,
        es.len() <= u64::MAX,
    ensures
        spec_parse_index(spec_encode_index(es)) == Some(es),
{
    lemma_auto_spec_u64_to_from_le_bytes();
    let s = spec_encode_index(es);
    assert(s.subrange(0, 8) =~= spec_u64_to_le_bytes(es.len() as u64));
    assert(s.skip(8) =~= spec_encode_metas(es) + Seq::<u8>::empty());
    lemma_parse_metas_round_trip(es, Seq::empty());
    assert(s.len() - 8 == spec_encode_metas(es).len()) by {
        assert(s.len() == 8 + spec_encode_metas(es).len());
    }
}

/// The round-trip guarantee of the container: parsing the encoded stream of
/// any well-formed file set, with the password it was encrypted under (or
/// none when it was not), returns exactly its index records and every
/// file's data.
#[verifier::rlimit(80)]
#[verifier::spinoff_prover]
pub proof fn lemma_archive_round_trip(
    files: Seq<FileDataView>,
    level: CompressionLevel,
    chunk_size: u64,
    enc: Option<(Seq<u8>, CipherKey)>,
    password: Option<Seq<u8>>,
)
    requires
        spec_wf_files(files, chunk_size),
        1 <= chunk_size <= crate::options::MAX_CHUNK_SIZE,
        spec_encode_index(spec_metas_of_files(files, level, chunk_size, enc is Some)).len()
            <= u64::MAX,
        match enc {
            None => password is None,
            Some((salt, k)) => salt.len() == 16 && password is Some && k == spec_derive_key(
                password.unwrap(),
                salt,
            ),
        },
    ensures
        spec_parse_archive(spec_archive_stream(files, level, chunk_size, enc), password)
            == Ok::<_, Error>(
            (
                spec_metas_of_files(files, level, chunk_size, enc is Some),
                spec_datas_of_files(files),
            ),
        ),
{
    lemma_auto_spec_u64_to_from_le_bytes();
    let key = match enc {
        None => None,
        Some((salt, k)) => Some(k),
    };
    let hdr_enc = match enc {
        None => None,
        Some((salt, k)) => Some((salt, spec_test_block(k))),
    };
    let metas = spec_metas_of_files(files, level, chunk_size, enc is Some);
    let body = spec_files_frames(files, level, chunk_size, key, 0);
    let index = spec_encode_index(metas);
    let trailer = spec_u64_to_le_bytes(index.len() as u64);
    let hdr = spec_encode_header(chunk_size, hdr_enc);
    let s = spec_archive_stream(files, level, chunk_size, enc);
    assert(s == hdr + body + index + trailer);
    lemma_parse_header_round_trip(chunk_size, hdr_enc, body + index + trailer);
    assert(hdr + body + index + trailer =~= hdr + (body + index + trailer));
    assert(spec_parse_header(s) == Some(
        HeaderView {
            chunk_size,
            enc: hdr_enc,
            len: if enc is Some {
                HEADER_ENC_LEN as int
            } else {
                HEADER_PLAIN_LEN as int
            },
        },
    ));
    match enc {
        None => {},
        Some((salt, k)) => {
            crate::cipher::lemma_test_block_round_trip(k);
        },
    }
    let h = spec_parse_header(s).unwrap();
    let rest = s.skip(h.len);
    assert(rest =~= body + index + trailer);
    assert(rest.len() == body.len() + index.len() + 8);
    assert(rest.subrange(rest.len() - 8, rest.len() as int) =~= trailer);
    let ilen = spec_u64_from_le_bytes(trailer);
    assert(ilen == index.len());
    assert(rest.subrange(0, rest.len() - 8 - ilen) =~= body);
    assert(rest.subrange(rest.len() - 8 - ilen, rest.len() - 8) =~= index);
    assert(forall|i: int|
        0 <= i < metas.len() ==> encode_utf8(#[trigger] metas[i].name).len()
            <= MAX_NAME_BYTES) by {
        assert(forall|i: int| 0 <= i < files.len() ==> spec_wf_file(#[trigger] files[i]));
        assert(forall|i: int|
            0 <= i < metas.len() ==> #[trigger] metas[i].name == files[i].name);
    }
    lemma_parse_index_round_trip(metas);
    lemma_files_frames_round_trip(files, level, chunk_size, key, 0, enc is Some);
}

} // verus!

use vstd::bytes::u16_from_le_bytes;
use vstd::bytes::u16_to_le_bytes;
use vstd::bytes::u32_from_le_bytes;
use vstd::bytes::u32_to_le_bytes;
use vstd::bytes::u64_from_le_bytes;
use vstd::bytes::u64_to_le_bytes;
use vstd::slice::slice_subrange;
use vstd::string::StrSliceExecFns;
use vstd::string::StringSliceAdditionalSpecFns;

verus! {

// ---------------------------------------------------------------------------
// Executable encoding and parsing of the metadata regions
// ---------------------------------------------------------------------------

/// One index record, as the engine holds it in memory.
pub struct EntryMeta {
    /// Entry name (relative path, UTF-8).
    pub name: String,
    /// Uncompressed byte length.
    pub size: u64,
    /// Summed stored payload lengths of the entry's chunks.
    pub packed_size: u64,
    /// Seconds since the epoch.
    pub modified_time: u64,
    /// Opaque platform attribute bits, passed through.
    pub attributes: u32,
    /// Whether the entry is a directory.
    pub is_directory: bool,
    /// Number of chunk frames the entry occupies.
    pub chunk_count: u64,
    /// Content checksum of the entry's data.
    pub checksum: u64,
}

impl View for EntryMeta {
    type V = EntryMetaView;

    open spec fn view(&self) -> EntryMetaView {
        EntryMetaView {
            name: self.name@,
            size: self.size,
            packed_size: self.packed_size,
            modified_time: self.modified_time,
            attributes: self.attributes,
            is_directory: self.is_directory,
            chunk_count: self.chunk_count,
            checksum: self.checksum,
        }
    }
}

/// The models of a run of in-memory index records.
pub open spec fn spec_metas_view(ms: Seq<EntryMeta>) -> Seq<EntryMetaView> {
    ms.map(|i: int, m: EntryMeta| m@)
}

#[verifier::external_type_specification]
#[verifier::external_body]
pub struct ExUtf8Error(core::str::Utf8Error);

/// Relies on core::str::from_utf8: it returns `Ok` exactly on UTF-8 byte
/// sequences, and the returned string slice's bytes are the input bytes.
pub assume_specification[ core::str::from_utf8 ](v: &[u8]) -> (r: Result<
    &str,
    core::str::Utf8Error,
>)
    ensures
        r is Ok <==> valid_utf8(v@),
        r matches Ok(s) ==> s.spec_bytes() == v@,
;

/// Read a little-endian `u16` at `pos`.
pub fn read_u16_at(s: &[u8], pos: usize) -> (r: u16)
    requires
        pos + 2 <= s@.len(),
        s@.len() <= usize::MAX,
    ensures
        r == spec_u16_from_le_bytes(s@.subrange(pos as int, pos as int + 2)),
{
    u16_from_le_bytes(slice_subrange(s, pos, pos + 2))
}

/// Read a little-endian `u32` at `pos`.
pub fn read_u32_at(s: &[u8], pos: usize) -> (r: u32)
    requires
        pos + 4 <= s@.len(),
        s@.len() <= usize::MAX,
    ensures
        r == spec_u32_from_le_bytes(s@.subrange(pos as int, pos as int + 4)),
{
    u32_from_le_bytes(slice_subrange(s, pos, pos + 4))
}

/// Read a little-endian `u64` at `pos`.
pub fn read_u64_at(s: &[u8], pos: usize) -> (r: u64)
    requires
        pos + 8 <= s@.len(),
        s@.len() <= usize::MAX,
    ensures
        r == spec_u64_from_le_bytes(s@.subrange(pos as int, pos as int + 8)),
{
    u64_from_le_bytes(slice_subrange(s, pos, pos + 8))
}

/// Append one encoded index record to `out`.
pub fn encode_meta(e: &EntryMeta, out: &mut Vec<u8>)
    requires
        encode_utf8(e@.name).len() <= MAX_NAME_BYTES,
    ensures
        final(out)@ == old(out)@ + spec_encode_meta(e@),
{
    let nb = e.name.as_str().as_bytes();
    let mut piece = u16_to_le_bytes(nb.len() as u16);
    out.append(&mut piece);
    out.extend_from_slice(nb);
    let mut piece = u64_to_le_bytes(e.size);
    out.append(&mut piece);
    let mut piece = u64_to_le_bytes(e.packed_size);
    out.append(&mut piece);
    let mut piece = u64_to_le_bytes(e.modified_time);
    out.append(&mut piece);
    let mut piece = u32_to_le_bytes(e.attributes);
    out.append(&mut piece);
    if e.is_directory {
        out.push(1u8);
    } else {
        out.push(0u8);
    }
    let mut piece = u64_to_le_bytes(e.chunk_count);
    out.append(&mut piece);
    let mut piece = u64_to_le_bytes(e.checksum);
    out.append(&mut piece);
    proof {
        assert(final(out)@ =~= old(out)@ + spec_encode_meta(e@));
    }
}

/// Encode the central index of a run: entry count, then the records.
pub fn encode_index(metas: &Vec<EntryMeta>) -> (r: Vec<u8>)
    requires
        forall|i: int|
            0 <= i < metas@.len() ==> encode_utf8(#[trigger] metas@[i]@.name).len()
                <= MAX_NAME_BYTES,
    ensures
        r@ == spec_encode_index(spec_metas_view(metas@)),
{
    let mut out = u64_to_le_bytes(metas.len() as u64);
    let ghost mv = spec_metas_view(metas@);
    proof {
        assert(mv.len() == metas@.len());
        assert(mv.skip(0) =~= mv);
        assert(out@ + spec_encode_metas(mv) =~= spec_u64_to_le_bytes(metas@.len() as u64)
            + spec_encode_metas(mv));
    }
    let mut i: usize = 0;
    while i < metas.len()
        invariant
            i <= metas@.len(),
            mv == spec_metas_view(metas@),
            mv.len() == metas@.len(),
            forall|k: int|
                0 <= k < metas@.len() ==> encode_utf8(#[trigger] metas@[k]@.name).len()
                    <= MAX_NAME_BYTES,
            out@ + spec_encode_metas(mv.skip(i as int)) == spec_encode_index(mv),
        decreases metas@.len() - i,
    {
        proof {
            assert(mv.skip(i as int)[0] == mv[i as int]);
            assert(mv[i as int] == metas@[i as int]@);
            assert(mv.skip(i as int).skip(1) =~= mv.skip(i as int + 1));
        }
        encode_meta(&metas[i], &mut out);
        proof {
            assert(out@ + spec_encode_metas(mv.skip(i as int + 1)) =~= spec_encode_index(mv));
        }
        i = i + 1;
    }
    proof {
        assert(mv.skip(i as int) =~= Seq::<EntryMetaView>::empty());
        assert(out@ + Seq::<u8>::empty() =~= out@);
    }
    out
}

/// Parse one index record at `pos`.
pub fn parse_meta_at(s: &[u8], pos: usize) -> (r: Result<(EntryMeta, usize), Error>)
    requires
        pos <= s@.len(),
    ensures
        match r {
            Ok((m, used)) => spec_parse_meta(s@.skip(pos as int)) == Some((m@, used as int))
                && pos + used <= s@.len() && used >= 47,
            Err(e) => e == Error::CorruptArchive && spec_parse_meta(s@.skip(pos as int)) is None,
        },
{
    let ghost rem = s@.skip(pos as int);
    if s.len() - pos < 2 {
        return Err(Error::CorruptArchive);
    }
    let nlen = read_u16_at(s, pos) as usize;
    proof {
        assert(rem.subrange(0, 2) =~= s@.subrange(pos as int, pos as int + 2));
    }
    if s.len() - pos - 2 < 45 || s.len() - pos - 2 - 45 < nlen {
        proof {
            assert(rem.len() < nlen + 47);
        }
        return Err(Error::CorruptArchive);
    }
    proof {
        assert(rem.len() >= nlen + 47);
    }
    let nb = slice_subrange(s, pos + 2, pos + 2 + nlen);
    proof {
        assert(nb@ =~= rem.subrange(2, 2 + nlen as int));
    }
    let name = match core::str::from_utf8(nb) {
        Ok(st) => st.to_owned(),
        Err(e) => {
            return Err(Error::CorruptArchive);
        },
    };
    proof {
        encode_utf8_decode_utf8(name@);
        assert(decode_utf8(nb@) == name@);
    }
    let off = pos + 2 + nlen;
    let ghost goff = 2 + nlen as int;
    let size = read_u64_at(s, off);
    let packed_size = read_u64_at(s, off + 8);
    let modified_time = read_u64_at(s, off + 16);
    let attributes = read_u32_at(s, off + 24);
    let dirb = s[off + 28];
    let chunk_count = read_u64_at(s, off + 29);
    let checksum = read_u64_at(s, off + 37);
    proof {
        assert(rem.subrange(goff, goff + 8) =~= s@.subrange(off as int, off as int + 8));
        assert(rem.subrange(goff + 8, goff + 16) =~= s@.subrange(off + 8 as int, off + 16 as int));
        assert(rem.subrange(goff + 16, goff + 24) =~= s@.subrange(
            off + 16 as int,
            off + 24 as int,
        ));
        assert(rem.subrange(goff + 24, goff + 28) =~= s@.subrange(
            off + 24 as int,
            off + 28 as int,
        ));
        assert(rem[goff + 28] == s@[off + 28 as int]);
        assert(rem.subrange(goff + 29, goff + 37) =~= s@.subrange(
            off + 29 as int,
            off + 37 as int,
        ));
        assert(rem.subrange(goff + 37, goff + 45) =~= s@.subrange(
            off + 37 as int,
            off + 45 as int,
        ));
    }
    if dirb != 0 && dirb != 1 {
        return Err(Error::CorruptArchive);
    }
    let m = EntryMeta {
        name,
        size,
        packed_size,
        modified_time,
        attributes,
        is_directory: dirb == 1,
        chunk_count,
        checksum,
    };
    Ok((m, 47 + nlen))
}

/// Parse a whole index region exactly.
pub fn parse_index(s: &[u8]) -> (r: Result<Vec<EntryMeta>, Error>)
    ensures
        match r {
            Ok(ms) => spec_parse_index(s@) == Some(spec_metas_view(ms@)),
            Err(e) => e == Error::CorruptArchive && spec_parse_index(s@) is None,
        },
{
    if s.len() < 8 {
        return Err(Error::CorruptArchive);
    }
    let n = read_u64_at(s, 0);
    proof {
        assert(s@.subrange(0, 8) =~= s@.subrange(0int, 8int));
    }
    let mut metas: Vec<EntryMeta> = Vec::new();
    let mut pos: usize = 8;
    let mut j: u64 = 0;
    proof {
        assert(s@.skip(8).skip(0) =~= s@.skip(8));
        assert(spec_metas_view(metas@) =~= Seq::<EntryMetaView>::empty());
    }
    while j < n
        invariant
            8 <= pos <= s@.len(),
            s@.len() <= usize::MAX,
            j <= n,
            n == spec_u64_from_le_bytes(s@.subrange(0, 8)),
            s@.len() >= 8,
            spec_metas_view(metas@).len() == j,
            match spec_parse_metas(s@.skip(pos as int), (n - j) as nat) {
                None => spec_parse_metas(s@.skip(8), n as nat) is None,
                Some((rest, used)) => spec_parse_metas(s@.skip(8), n as nat) == Some(
                    (spec_metas_view(metas@) + rest, pos - 8 + used),
                ),
            },
        decreases n - j,
    {
        let m = match parse_meta_at(s, pos) {
            Ok(mu) => mu,
            Err(e) => {
                proof {
                    assert(spec_parse_metas(s@.skip(pos as int), (n - j) as nat) is None);
                }
                return Err(Error::CorruptArchive);
            },
        };
        proof {
            assert(s@.skip(pos as int).skip(m.1 as int) =~= s@.skip(pos as int + m.1 as int));
        }
        let ghost old_metas = metas@;
        metas.push(m.0);
        proof {
            assert(spec_metas_view(metas@) =~= spec_metas_view(old_metas).push(m.0@));
            let rem_n = (n - j) as nat;
            let parsed = spec_parse_metas(s@.skip(pos as int), rem_n);
            assert(parsed == (match spec_parse_metas(
                s@.skip(pos as int + m.1 as int),
                (rem_n - 1) as nat,
            ) {
                None => None::<(Seq<EntryMetaView>, int)>,
                Some((rest2, used2)) => Some((seq![m.0@] + rest2, m.1 + used2)),
            }));
            if spec_parse_metas(s@.skip(pos as int + m.1 as int), (rem_n - 1) as nat) is Some {
                let (rest2, used2) = spec_parse_metas(
                    s@.skip(pos as int + m.1 as int),
                    (rem_n - 1) as nat,
                ).unwrap();
                assert(spec_metas_view(old_metas) + (seq![m.0@] + rest2) =~= spec_metas_view(
                    metas@,
                ) + rest2);
            }
        }
        pos = pos + m.1;
        j = j + 1;
    }
    proof {
        assert(spec_parse_metas(s@.skip(pos as int), 0nat) == Some(
            (Seq::<EntryMetaView>::empty(), 0int),
        ));
        assert(spec_metas_view(metas@) + Seq::<EntryMetaView>::empty() =~= spec_metas_view(
            metas@,
        ));
    }
    if pos != s.len() {
        return Err(Error::CorruptArchive);
    }
    Ok(metas)
}

/// Append the encoded header to `out`.
pub fn encode_header(chunk_size: u64, enc: &Option<(Vec<u8>, (u64, u64))>, out: &mut Vec<u8>)
    requires
        old(out)@.len() == 0,
        enc matches Some((salt, tb)) ==> salt@.len() == 16,
    ensures
        final(out)@ == spec_encode_header(
            chunk_size,
            match enc {
                None => None,
                Some((salt, tb)) => Some((salt@, *tb)),
            },
        ),
{
    out.push(MAGIC_0);
    out.push(MAGIC_1);
    out.push(MAGIC_2);
    out.push(MAGIC_3);
    out.push(FORMAT_VERSION);
    match enc {
        None => {
            out.push(0u8);
        },
        Some(_) => {
            out.push(FLAG_ENCRYPTED);
        },
    }
    let mut piece = u64_to_le_bytes(chunk_size);
    out.append(&mut piece);
    match enc {
        None => {
            proof {
                assert(final(out)@ =~= spec_encode_header(chunk_size, None));
            }
        },
        Some((salt, tb)) => {
            out.extend_from_slice(salt.as_slice());
            let mut piece = u64_to_le_bytes(tb.0);
            out.append(&mut piece);
            let mut piece = u64_to_le_bytes(tb.1);
            out.append(&mut piece);
            proof {
                assert(final(out)@ =~= spec_encode_header(chunk_size, Some((salt@, *tb))));
            }
        },
    }
}

/// Parse the header region of a stream.
pub fn parse_header(s: &[u8]) -> (r: Result<(u64, Option<(Vec<u8>, (u64, u64))>, usize), Error>)
    ensures
        match r {
            Ok((chunk_size, enc, len)) => spec_parse_header(s@) == Some(
                (HeaderView {
                    chunk_size,
                    enc: match enc {
                        None => None,
                        Some((salt, tb)) => Some((salt@, tb)),
                    },
                    len: len as int,
                }),
            ) && len <= s@.len() && (enc matches Some((salt, tb)) ==> salt@.len() == 16),
            Err(e) => e == Error::CorruptArchive && spec_parse_header(s@) is None,
        },
{
    if s.len() < HEADER_PLAIN_LEN {
        return Err(Error::CorruptArchive);
    }
    if s[0] != MAGIC_0 || s[1] != MAGIC_1 || s[2] != MAGIC_2 || s[3] != MAGIC_3 {
        return Err(Error::CorruptArchive);
    }
    if s[4] != FORMAT_VERSION {
        return Err(Error::CorruptArchive);
    }
    let chunk_size = read_u64_at(s, 6);
    if s[5] == 0 {
        Ok((chunk_size, None, HEADER_PLAIN_LEN))
    } else if s[5] == FLAG_ENCRYPTED {
        if s.len() < HEADER_ENC_LEN {
            return Err(Error::CorruptArchive);
        }
        let salt = vstd::slice::slice_to_vec(slice_subrange(s, 14, 30));
        let t0 = read_u64_at(s, 30);
        let t1 = read_u64_at(s, 38);
        Ok((chunk_size, Some((salt, (t0, t1))), HEADER_ENC_LEN))
    } else {
        return Err(Error::CorruptArchive);
    }
}

} // verus!

verus! {

/// The metadata-only parse `list` performs: header, password check only
/// when a password is offered, then the index — the body is not decoded.
pub open spec fn spec_list_archive(s: Seq<u8>, password: Option<Seq<u8>>) -> Result<
    Seq<EntryMetaView>,
    Error,
> {
    match spec_parse_header(s) {
        None => Err(Error::CorruptArchive),
        Some(h) => {
            if h.enc is Some && password is Some && !spec_test_block_ok(
                spec_derive_key(password.unwrap(), h.enc.unwrap().0),
                h.enc.unwrap().1,
            ) {
                Err(Error::WrongPassword)
            } else {
                let rest = s.skip(h.len);
                if rest.len() < 8 {
                    Err(Error::CorruptArchive)
                } else {
                    let ilen = spec_u64_from_le_bytes(
                        rest.subrange(rest.len() - 8, rest.len() as int),
                    );
                    if ilen > rest.len() - 8 {
                        Err(Error::CorruptArchive)
                    } else {
                        let idx = rest.subrange(rest.len() - 8 - ilen, rest.len() - 8);
                        match spec_parse_index(idx) {
                            None => Err(Error::CorruptArchive),
                            Some(ms) => Ok(ms),
                        }
                    }
                }
            }
        },
    }
}

/// Listing an encoded archive returns exactly its index records, with the
/// creating password, with no password, or on an unencrypted archive.
#[verifier::rlimit(80)]
#[verifier::spinoff_prover]
pub proof fn lemma_list_round_trip(
    files: Seq<FileDataView>,
    level: CompressionLevel,
    chunk_size: u64,
    enc: Option<(Seq<u8>, CipherKey)>,
    password: Option<Seq<u8>>,
)
    requires
        spec_wf_files(files, chunk_size),
        1 <= chunk_size <= crate::options::MAX_CHUNK_SIZE,
        spec_encode_index(spec_metas_of_files(files, level, chunk_size, enc is Some)).len()
            <= u64::MAX,
        match enc {
            None => true,
            Some((salt, k)) => salt.len() == 16 && (password is Some ==> k == spec_derive_key(
                password.unwrap(),
                salt,
            )),
        },
    ensures
        spec_list_archive(spec_archive_stream(files, level, chunk_size, enc), password)
            == Ok::<_, Error>(spec_metas_of_files(files, level, chunk_size, enc is Some)),
{
    lemma_auto_spec_u64_to_from_le_bytes();
    let key = match enc {
        None => None,
        Some((salt, k)) => Some(k),
    };
    let hdr_enc = match enc {
        None => None,
        Some((salt, k)) => Some((salt, spec_test_block(k))),
    };
    let metas = spec_metas_of_files(files, level, chunk_size, enc is Some);
    let body = spec_files_frames(files, level, chunk_size, key, 0);
    let index = spec_encode_index(metas);
    let trailer = spec_u64_to_le_bytes(index.len() as u64);
    let hdr = spec_encode_header(chunk_size, hdr_enc);
    let s = spec_archive_stream(files, level, chunk_size, enc);
    assert(s == hdr + body + index + trailer);
    lemma_parse_header_round_trip(chunk_size, hdr_enc, body + index + trailer);
    assert(hdr + body + index + trailer =~= hdr + (body + index + trailer));
    match enc {
        None => {},
        Some((salt, k)) => {
            crate::cipher::lemma_test_block_round_trip(k);
        },
    }
    let h = spec_parse_header(s).unwrap();
    let rest = s.skip(h.len);
    assert(rest =~= body + index + trailer);
    assert(rest.len() == body.len() + index.len() + 8);
    assert(rest.subrange(rest.len() - 8, rest.len() as int) =~= trailer);
    assert(rest.subrange(rest.len() - 8 - index.len(), rest.len() - 8) =~= index);
    assert(forall|i: int|
        0 <= i < metas.len() ==> encode_utf8(#[trigger] metas[i].name).len()
            <= MAX_NAME_BYTES) by {
        assert(forall|i: int| 0 <= i < files.len() ==> spec_wf_file(#[trigger] files[i]));
        assert(forall|i: int|
            0 <= i < metas.len() ==> #[trigger] metas[i].name == files[i].name);
    }
    lemma_parse_index_round_trip(metas);
}

} // verus!
