//! The streaming creation pipeline: chunk compression, encryption, volume
//! splitting and progress, with bounded state.
//!
//! An [`ArchiveWriter`] is fed one entry at a time, each entry one chunk at
//! a time, and emits one [`VolumeWrite`] per chunk: the frame bytes and the
//! volume they belong to.  The writer itself keeps only per-entry counters,
//! the growing index records and a running checksum — never file data — so
//! resident memory stays bounded by the chunk size regardless of input
//! size.  A unit (header, frame, or index) is always written whole into one
//! volume: when it would push the current volume over the split threshold,
//! the writer rolls to the next volume first, so volume boundaries align
//! with chunk boundaries and no chunk is ever torn.

use vstd::prelude::*;
use vstd::bytes::spec_u32_to_le_bytes;
use vstd::bytes::spec_u64_to_le_bytes;
use vstd::bytes::spec_u64_from_le_bytes;
use vstd::bytes::u32_to_le_bytes;
use vstd::bytes::u64_to_le_bytes;
use vstd::utf8::encode_utf8;
use vstd::string::StrSliceExecFns;
use vstd::string::StringSliceAdditionalSpecFns;
use vstd::wrapping::u64_specs;
use crate::checksum::FNV64_OFFSET;
use crate::checksum::spec_fnv64;
use crate::checksum::spec_fnv64_from;
use crate::checksum::spec_fnv64_step;
use crate::cipher::CipherKey;
use crate::cipher::chunk_iv;
use crate::cipher::derive_key;
use crate::cipher::encrypt_chunk;
use crate::cipher::make_test_block;
use crate::cipher::spec_derive_key;
use crate::cipher::spec_test_block;
use crate::cipher::lemma_encrypt_chunk_round_trip;
use crate::codec::compress_chunk;
use crate::codec::spec_compress_chunk;
use crate::codec::lemma_compress_chunk_ok;
use crate::error::Error;
use crate::format::EntryMeta;
use crate::format::FRAME_HEADER_LEN;
use crate::format::EntryMetaView;
use crate::format::FileDataView;
use crate::format::MAX_NAME_BYTES;
use crate::format::encode_header;
use crate::format::encode_index;
use crate::format::spec_chunk_count;
use crate::format::spec_chunk_frame;
use crate::format::spec_encode_frame;
use crate::format::spec_encode_header;
use crate::format::spec_encode_index;
use crate::format::spec_parse_index;
use crate::format::spec_entry_frames;
use crate::format::spec_entry_packed;
use crate::format::spec_files_frames;
use crate::format::spec_meta_of;
use crate::format::spec_metas_of_files;
use crate::format::spec_metas_view;
use crate::format::spec_archive_stream;
use crate::format::spec_stored_len;
use crate::format::spec_stored_payload;
use crate::format::spec_total_chunks;
use crate::format::spec_wf_file;
use crate::format::lemma_stored_payload_len;
use crate::options::CompressionLevel;
use crate::options::MAX_CHUNK_SIZE;
use crate::options::SPLIT_MARGIN;
use crate::options::effective_chunk_size;
use crate::options::stream_config_ok;
use crate::options::spec_stream_config_ok;
use crate::options::spec_effective_chunk_size;

verus! {

/// One write instruction to the caller: append `bytes` to the volume with
/// this index.
pub struct VolumeWrite {
    /// Which volume file the bytes belong to, counted from zero.
    pub volume_index: u64,
    /// The bytes to append.
    pub bytes: Vec<u8>,
}

/// One progress observation, handed to the caller at chunk granularity.
pub struct ProgressSample {
    /// Bytes of input consumed so far, over the whole run.
    pub bytes_processed: u64,
    /// Bytes of input the run declared in total.
    pub bytes_total: u64,
    /// Bytes consumed of the current entry.
    pub current_file_bytes_processed: u64,
    /// Declared length of the current entry.
    pub current_file_bytes_total: u64,
    /// Name of the current entry, empty between entries.
    pub current_file_name: String,
}

/// The entry currently being fed, with its running counters.
pub struct CurrentEntry {
    /// Entry name.
    pub name: String,
    /// Seconds since the epoch.
    pub modified_time: u64,
    /// Opaque platform attribute bits.
    pub attributes: u32,
    /// Whether the entry is a directory.
    pub is_directory: bool,
    /// Length the caller declared, for progress reporting.
    pub declared_size: u64,
    /// Bytes consumed so far.
    pub size_so_far: u64,
    /// Stored payload bytes emitted so far.
    pub packed_so_far: u64,
    /// Chunk frames emitted so far.
    pub chunks_so_far: u64,
    /// Running content checksum state.
    pub hash: u64,
}

// ---------------------------------------------------------------------------
// Sequence lemmas the writer's invariant preservation rests on
// ---------------------------------------------------------------------------

/// The checksum of concatenated data folds piecewise.
pub proof fn lemma_fnv_append(h: u64, a: Seq<u8>, b: Seq<u8>)
    ensures
        spec_fnv64_from(h, a + b) == spec_fnv64_from(spec_fnv64_from(h, a), b),
    decreases a.len(),
{
    if a.len() == 0 {
        assert(a + b =~= b);
    } else {
        assert((a + b)[0] == a[0]);
        assert((a + b).skip(1) =~= a.skip(1) + b);
        lemma_fnv_append(spec_fnv64_step(h, a[0]), a.skip(1), b);
    }
}

/// Appending one more chunk to whole-chunk data adds exactly one chunk.
pub proof fn lemma_chunk_count_snoc(cur: nat, dlen: nat, chunk_size: u64)
    requires
        chunk_size >= 1,
        cur % (chunk_size as nat) == 0,
        1 <= dlen <= chunk_size,
    ensures
        spec_chunk_count((cur + dlen) as nat, chunk_size) == spec_chunk_count(cur, chunk_size)
            + 1,
    decreases cur,
{
    if cur == 0 {
    } else {
        assert(cur >= chunk_size) by (nonlinear_arith)
            requires
                cur % (chunk_size as nat) == 0,
                cur > 0,
                chunk_size >= 1,
        ;
        assert((cur - chunk_size) as nat % (chunk_size as nat) == 0) by (nonlinear_arith)
            requires
                cur % (chunk_size as nat) == 0,
                cur >= chunk_size,
                chunk_size >= 1,
        ;
        lemma_chunk_count_snoc((cur - chunk_size) as nat, dlen, chunk_size);
    }
}

/// Appending one more chunk to whole-chunk data adds exactly that chunk's
/// stored length to the packed size.
pub proof fn lemma_entry_packed_snoc(
    cur: Seq<u8>,
    d: Seq<u8>,
    level: CompressionLevel,
    chunk_size: u64,
    encrypted: bool,
)
    requires
        chunk_size >= 1,
        cur.len() % (chunk_size as nat) == 0,
        1 <= d.len() <= chunk_size,
    ensures
        spec_entry_packed(cur + d, level, chunk_size, encrypted) == spec_entry_packed(
            cur,
            level,
            chunk_size,
            encrypted,
        ) + spec_stored_len(level, encrypted, d),
    decreases cur.len(),
{
    if cur.len() == 0 {
        reveal_with_fuel(spec_entry_packed, 3);
        assert(cur + d =~= d);
        let s = cur + d;
        let c = if s.len() > chunk_size {
            chunk_size as int
        } else {
            s.len() as int
        };
        assert(c == d.len());
        assert(s.take(c) =~= d);
        assert(s.skip(c) =~= Seq::<u8>::empty());
    } else {
        assert(cur.len() >= chunk_size) by (nonlinear_arith)
            requires
                cur.len() % (chunk_size as nat) == 0,
                cur.len() > 0,
                chunk_size >= 1,
        ;
        let s = cur + d;
        assert(s.take(chunk_size as int) =~= cur.take(chunk_size as int));
        assert(s.skip(chunk_size as int) =~= cur.skip(chunk_size as int) + d);
        assert((cur.skip(chunk_size as int).len() % (chunk_size as nat)) == 0)
            by (nonlinear_arith)
            requires
                cur.len() % (chunk_size as nat) == 0,
                cur.len() >= chunk_size,
                chunk_size >= 1,
                cur.skip(chunk_size as int).len() == cur.len() - chunk_size,
        ;
        lemma_entry_packed_snoc(cur.skip(chunk_size as int), d, level, chunk_size, encrypted);
        assert(s.len() > chunk_size);
        assert(spec_entry_packed(s, level, chunk_size, encrypted) == spec_stored_len(
            level,
            encrypted,
            s.take(chunk_size as int),
        ) + spec_entry_packed(s.skip(chunk_size as int), level, chunk_size, encrypted));
        assert(spec_entry_packed(cur, level, chunk_size, encrypted) == spec_stored_len(
            level,
            encrypted,
            cur.take(chunk_size as int),
        ) + spec_entry_packed(cur.skip(chunk_size as int), level, chunk_size, encrypted));
    }
}

/// Appending one more chunk to whole-chunk data appends exactly that
/// chunk's frame.
pub proof fn lemma_entry_frames_snoc(
    cur: Seq<u8>,
    d: Seq<u8>,
    level: CompressionLevel,
    chunk_size: u64,
    key: Option<CipherKey>,
    counter0: u64,
)
    requires
        chunk_size >= 1,
        cur.len() % (chunk_size as nat) == 0,
        1 <= d.len() <= chunk_size,
        counter0 + spec_chunk_count(cur.len(), chunk_size) + 1 <= u64::MAX,
    ensures
        spec_entry_frames(cur + d, level, chunk_size, key, counter0) == spec_entry_frames(
            cur,
            level,
            chunk_size,
            key,
            counter0,
        ) + spec_chunk_frame(
            level,
            key,
            (counter0 + spec_chunk_count(cur.len(), chunk_size)) as u64,
            d,
        ),
    decreases cur.len(),
{
    let s = cur + d;
    if cur.len() == 0 {
        assert(s =~= d);
        let c = if s.len() > chunk_size {
            chunk_size as int
        } else {
            s.len() as int
        };
        assert(c == d.len());
        assert(s.take(c) =~= d);
        assert(s.skip(c) =~= Seq::<u8>::empty());
        let f = spec_chunk_frame(level, key, counter0, d);
        assert(spec_entry_frames(s.skip(c), level, chunk_size, key, u64_specs::wrapping_add(counter0, 1)).len() == 0);
        assert(spec_entry_frames(s, level, chunk_size, key, counter0) == f + spec_entry_frames(
            s.skip(c),
            level,
            chunk_size,
            key,
            u64_specs::wrapping_add(counter0, 1),
        ));
        assert(f + Seq::<u8>::empty() =~= f);
        assert(spec_entry_frames(cur, level, chunk_size, key, counter0).len() == 0);
        assert(Seq::<u8>::empty() + f =~= f);
        assert((counter0 + spec_chunk_count(cur.len(), chunk_size)) as u64 == counter0);
    } else {
        assert(cur.len() >= chunk_size) by (nonlinear_arith)
            requires
                cur.len() % (chunk_size as nat) == 0,
                cur.len() > 0,
                chunk_size >= 1,
        ;
        assert(s.take(chunk_size as int) =~= cur.take(chunk_size as int));
        assert(s.skip(chunk_size as int) =~= cur.skip(chunk_size as int) + d);
        assert((cur.skip(chunk_size as int).len() % (chunk_size as nat)) == 0)
            by (nonlinear_arith)
            requires
                cur.len() % (chunk_size as nat) == 0,
                cur.len() >= chunk_size,
                chunk_size >= 1,
                cur.skip(chunk_size as int).len() == cur.len() - chunk_size,
        ;
        assert(u64_specs::wrapping_add(counter0, 1) == counter0 + 1);
        assert(spec_chunk_count(cur.len(), chunk_size) == 1 + spec_chunk_count(
            cur.skip(chunk_size as int).len(),
            chunk_size,
        ));
        lemma_entry_frames_snoc(
            cur.skip(chunk_size as int),
            d,
            level,
            chunk_size,
            key,
            (counter0 + 1) as u64,
        );
        let a = spec_chunk_frame(level, key, counter0, cur.take(chunk_size as int));
        let b = spec_entry_frames(
            cur.skip(chunk_size as int),
            level,
            chunk_size,
            key,
            (counter0 + 1) as u64,
        );
        let f = spec_chunk_frame(
            level,
            key,
            (counter0 + spec_chunk_count(cur.len(), chunk_size)) as u64,
            d,
        );
        assert(spec_entry_frames(s, level, chunk_size, key, counter0) == a + (b + f));
        assert(spec_entry_frames(cur, level, chunk_size, key, counter0) == a + b);
        assert(a + (b + f) =~= (a + b) + f);
    }
}

/// Closing an entry adds its chunk count to the running total.
pub proof fn lemma_total_chunks_push(files: Seq<FileDataView>, f: FileDataView, chunk_size: u64)
    ensures
        spec_total_chunks(files.push(f), chunk_size) == spec_total_chunks(files, chunk_size)
            + spec_chunk_count(f.data.len(), chunk_size),
    decreases files.len(),
{
    let p = files.push(f);
    assert(p.len() == files.len() + 1);
    if files.len() == 0 {
        assert(p[0] == f);
        assert(p.skip(1) =~= Seq::<FileDataView>::empty());
        assert(spec_total_chunks(p, chunk_size) == spec_chunk_count(f.data.len(), chunk_size)
            + spec_total_chunks(p.skip(1), chunk_size));
    } else {
        assert(p[0] == files[0]);
        assert(p.skip(1) =~= files.skip(1).push(f));
        lemma_total_chunks_push(files.skip(1), f, chunk_size);
        assert(spec_total_chunks(p, chunk_size) == spec_chunk_count(files[0].data.len(), chunk_size)
            + spec_total_chunks(files.skip(1).push(f), chunk_size));
        assert(spec_total_chunks(files, chunk_size) == spec_chunk_count(
            files[0].data.len(),
            chunk_size,
        ) + spec_total_chunks(files.skip(1), chunk_size));
    }
}

/// Closing an entry appends exactly its frames to the body.
pub proof fn lemma_files_frames_push(
    files: Seq<FileDataView>,
    f: FileDataView,
    level: CompressionLevel,
    chunk_size: u64,
    key: Option<CipherKey>,
    counter0: u64,
)
    requires
        counter0 + spec_total_chunks(files, chunk_size) + spec_chunk_count(
            f.data.len(),
            chunk_size,
        ) <= u64::MAX,
    ensures
        spec_files_frames(files.push(f), level, chunk_size, key, counter0) == spec_files_frames(
            files,
            level,
            chunk_size,
            key,
            counter0,
        ) + spec_entry_frames(
            f.data,
            level,
            chunk_size,
            key,
            (counter0 + spec_total_chunks(files, chunk_size)) as u64,
        ),
    decreases files.len(),
{
    if files.len() == 0 {
        assert(files.push(f)[0] == f);
        assert(files.push(f).skip(1) =~= Seq::<FileDataView>::empty());
        assert(spec_files_frames(files, level, chunk_size, key, counter0) =~= Seq::<u8>::empty());
        assert(files.push(f).len() == 1);
        assert(spec_files_frames(files.push(f), level, chunk_size, key, counter0)
            == spec_entry_frames(f.data, level, chunk_size, key, counter0) + spec_files_frames(
            files.push(f).skip(1),
            level,
            chunk_size,
            key,
            u64_specs::wrapping_add(counter0, spec_chunk_count(f.data.len(), chunk_size) as u64),
        ));
        assert(spec_entry_frames(f.data, level, chunk_size, key, counter0) + Seq::<u8>::empty()
            =~= spec_entry_frames(f.data, level, chunk_size, key, counter0));
    } else {
        let cc0 = spec_chunk_count(files[0].data.len(), chunk_size);
        assert(files.push(f)[0] == files[0]);
        assert(files.push(f).skip(1) =~= files.skip(1).push(f));
        assert(u64_specs::wrapping_add(counter0, cc0 as u64) == counter0 + cc0);
        lemma_files_frames_push(
            files.skip(1),
            f,
            level,
            chunk_size,
            key,
            (counter0 + cc0) as u64,
        );
        assert(spec_files_frames(files.push(f), level, chunk_size, key, counter0)
            =~= spec_files_frames(files, level, chunk_size, key, counter0) + spec_entry_frames(
            f.data,
            level,
            chunk_size,
            key,
            (counter0 + spec_total_chunks(files, chunk_size)) as u64,
        ));
    }
}

/// Closing an entry appends exactly its index record.
pub proof fn lemma_metas_push(
    files: Seq<FileDataView>,
    f: FileDataView,
    level: CompressionLevel,
    chunk_size: u64,
    encrypted: bool,
)
    ensures
        spec_metas_of_files(files.push(f), level, chunk_size, encrypted) == spec_metas_of_files(
            files,
            level,
            chunk_size,
            encrypted,
        ).push(spec_meta_of(f, level, chunk_size, encrypted)),
{
    assert(spec_metas_of_files(files.push(f), level, chunk_size, encrypted) =~= spec_metas_of_files(
        files,
        level,
        chunk_size,
        encrypted,
    ).push(spec_meta_of(f, level, chunk_size, encrypted)));
}

// ---------------------------------------------------------------------------
// Volume placement
// ---------------------------------------------------------------------------

/// The concatenation of a volume sequence: the logical archive stream.
pub open spec fn spec_concat(vs: Seq<Seq<u8>>) -> Seq<u8>
    decreases vs.len(),
{
    if vs.len() == 0 {
        Seq::empty()
    } else {
        vs[0] + spec_concat(vs.skip(1))
    }
}

/// Appending a volume appends its bytes to the stream.
pub proof fn lemma_concat_push(vs: Seq<Seq<u8>>, u: Seq<u8>)
    ensures
        spec_concat(vs.push(u)) == spec_concat(vs) + u,
    decreases vs.len(),
{
    if vs.len() == 0 {
        reveal_with_fuel(spec_concat, 3);
        assert(vs.push(u)[0] == u);
        assert(vs.push(u).skip(1) =~= Seq::<Seq<u8>>::empty());
        assert(spec_concat(vs.push(u)) =~= spec_concat(vs) + u);
    } else {
        assert(vs.push(u)[0] == vs[0]);
        assert(vs.push(u).skip(1) =~= vs.skip(1).push(u));
        lemma_concat_push(vs.skip(1), u);
        assert(spec_concat(vs.push(u)) == vs[0] + spec_concat(vs.skip(1).push(u)));
        assert(spec_concat(vs) == vs[0] + spec_concat(vs.skip(1)));
        assert(vs[0] + (spec_concat(vs.skip(1)) + u) =~= (vs[0] + spec_concat(vs.skip(1))) + u);
    }
}

/// Extending the last volume appends its bytes to the stream.
pub proof fn lemma_concat_extend_last(vs: Seq<Seq<u8>>, u: Seq<u8>)
    requires
        vs.len() > 0,
    ensures
        spec_concat(vs.update(vs.len() - 1, vs.last() + u)) == spec_concat(vs) + u,
    decreases vs.len(),
{
    let vs2 = vs.update(vs.len() - 1, vs.last() + u);
    if vs.len() == 1 {
        reveal_with_fuel(spec_concat, 3);
        assert(vs2[0] == vs[0] + u);
        assert(vs2.skip(1) =~= Seq::<Seq<u8>>::empty());
        assert(vs.skip(1) =~= Seq::<Seq<u8>>::empty());
        assert(spec_concat(vs2) =~= spec_concat(vs) + u);
    } else {
        assert(vs2[0] == vs[0]);
        assert(vs.skip(1).last() == vs.last());
        assert(vs2.skip(1) =~= vs.skip(1).update(vs.skip(1).len() - 1, vs.skip(1).last() + u));
        lemma_concat_extend_last(vs.skip(1), u);
        assert(spec_concat(vs2) == vs[0] + spec_concat(
            vs.skip(1).update(vs.skip(1).len() - 1, vs.skip(1).last() + u),
        ));
        assert(spec_concat(vs) == vs[0] + spec_concat(vs.skip(1)));
        assert(vs[0] + (spec_concat(vs.skip(1)) + u) =~= (vs[0] + spec_concat(vs.skip(1))) + u);
    }
}

/// Where a unit of bytes lands: into the current volume, or into a fresh
/// one when the split threshold would be crossed.
pub open spec fn spec_place_unit(vs: Seq<Seq<u8>>, split_size: u64, unit: Seq<u8>) -> Seq<
    Seq<u8>,
>
    recommends
        vs.len() > 0,
{
    if split_size > 0 && vs.last().len() > 0 && vs.last().len() + unit.len() > split_size {
        vs.push(unit)
    } else {
        vs.update(vs.len() - 1, vs.last() + unit)
    }
}

/// Placing a unit appends its bytes to the stream, whichever volume it
/// lands in.
pub proof fn lemma_place_unit_concat(vs: Seq<Seq<u8>>, split_size: u64, unit: Seq<u8>)
    requires
        vs.len() > 0,
    ensures
        spec_concat(spec_place_unit(vs, split_size, unit)) == spec_concat(vs) + unit,
{
    if split_size > 0 && vs.last().len() > 0 && vs.last().len() + unit.len() > split_size {
        lemma_concat_push(vs, unit);
    } else {
        lemma_concat_extend_last(vs, unit);
    }
}

} // verus!

verus! {

/// Build one frame: method tag, plain length, payload length, payload.
fn build_frame(method: u8, plain_len: u32, stored: Vec<u8>) -> (r: Vec<u8>)
    requires
        stored@.len() <= u32::MAX,
    ensures
        r@ == spec_encode_frame(method, plain_len, stored@),
{
    let ghost stored0 = stored@;
    let mut out: Vec<u8> = Vec::new();
    out.push(method);
    let mut piece = u32_to_le_bytes(plain_len);
    out.append(&mut piece);
    let mut piece = u32_to_le_bytes(stored.len() as u32);
    out.append(&mut piece);
    let mut st = stored;
    out.append(&mut st);
    proof {
        assert(out@ =~= spec_encode_frame(method, plain_len, stored0));
    }
    out
}

/// The streaming archive creation engine.
///
/// Feed it entries with `begin_entry`, each entry's bytes with `push_chunk`
/// in whole chunks (only an entry's final chunk may be short), close each
/// entry with `end_entry`, and call `finish` to emit the central index.
/// Every call returns the bytes to append and the volume to append them to;
/// the writer never retains file data.
pub struct ArchiveWriter {
    /// Compression level of the run.
    pub level: CompressionLevel,
    /// Effective chunk granularity, at least 1.
    pub chunk_size: u64,
    /// Split threshold; 0 means one unbounded volume.
    pub split_size: u64,
    /// Cipher key when a password was configured.
    pub key: Option<CipherKey>,
    /// Salt of the key derivation; empty when not encrypted.
    pub salt: Vec<u8>,
    /// Archive-wide chunk counter.
    pub counter: u64,
    /// Index of the volume currently written.
    pub volume_index: u64,
    /// Bytes in the current volume; tracked only when splitting.
    pub cur_vol_len: u64,
    /// Index records of the entries closed so far.
    pub metas: Vec<EntryMeta>,
    /// The entry currently fed, if any.
    pub cur: Option<CurrentEntry>,
    /// Declared total input bytes, for progress.
    pub bytes_total: u64,
    /// Input bytes consumed so far.
    pub bytes_done: u64,
    /// Model of every volume's bytes so far.
    pub volumes: Ghost<Seq<Seq<u8>>>,
    /// Model of the entries closed so far, with their data.
    pub files: Ghost<Seq<FileDataView>>,
    /// Model of the current entry's bytes so far.
    pub cur_data: Ghost<Seq<u8>>,
    /// Whether this writer's history is tracked from `new`; a resumed
    /// writer reproduces bytes exactly but makes no whole-stream claim.
    pub complete: Ghost<bool>,
}

impl ArchiveWriter {
    /// The salt/test-block pair of the header, when encrypted.
    pub open spec fn spec_hdr_enc(self) -> Option<(Seq<u8>, (u64, u64))> {
        match self.key {
            None => None,
            Some(k) => Some((self.salt@, spec_test_block(k))),
        }
    }

    /// The salt/key pair, when encrypted.
    pub open spec fn spec_enc(self) -> Option<(Seq<u8>, CipherKey)> {
        match self.key {
            None => None,
            Some(k) => Some((self.salt@, k)),
        }
    }

    /// The logical stream the writer has emitted so far.
    pub open spec fn spec_stream_so_far(self) -> Seq<u8> {
        spec_encode_header(self.chunk_size, self.spec_hdr_enc()) + spec_files_frames(
            self.files@,
            self.level,
            self.chunk_size,
            self.key,
            0,
        ) + spec_entry_frames(
            self.cur_data@,
            self.level,
            self.chunk_size,
            self.key,
            spec_total_chunks(self.files@, self.chunk_size) as u64,
        )
    }

    /// The machine-level part of the writer's invariant: every resumed or
    /// fresh writer satisfies it.
    pub open spec fn wf_exec(self) -> bool {
        &&& 1 <= self.chunk_size <= MAX_CHUNK_SIZE
        &&& (self.split_size == 0 || self.split_size >= self.chunk_size + SPLIT_MARGIN)
        &&& (self.key is Some ==> self.salt@.len() == 16)
        &&& self.bytes_done + 2 <= u64::MAX
        &&& self.counter <= self.bytes_done
        &&& self.volume_index <= 1 + self.counter
        &&& (self.split_size > 0 ==> self.cur_vol_len <= self.split_size)
        &&& match self.cur {
            None => true,
            Some(c) => {
                &&& c.packed_so_far <= 17 * c.size_so_far
                &&& c.chunks_so_far <= c.size_so_far
                &&& encode_utf8(c.name@).len() <= MAX_NAME_BYTES
                &&& (c.is_directory ==> c.size_so_far == 0)
            },
        }
        &&& forall|i: int|
            0 <= i < self.metas@.len() ==> encode_utf8(#[trigger] self.metas@[i]@.name).len()
                <= MAX_NAME_BYTES
    }

    /// The history part of the writer's invariant, tied to the ghost
    /// models; it holds for every writer whose history is tracked from
    /// `new`.
    pub open spec fn wf_history(self) -> bool {
        &&& match self.cur {
            None => self.cur_data@.len() == 0,
            Some(c) => {
                &&& c.size_so_far == self.cur_data@.len()
                &&& c.hash == spec_fnv64(self.cur_data@)
                &&& c.chunks_so_far == spec_chunk_count(self.cur_data@.len(), self.chunk_size)
                &&& c.packed_so_far == spec_entry_packed(
                    self.cur_data@,
                    self.level,
                    self.chunk_size,
                    self.key is Some,
                )
            },
        }
        &&& self.counter == spec_total_chunks(self.files@, self.chunk_size) + spec_chunk_count(
            self.cur_data@.len(),
            self.chunk_size,
        )
        &&& spec_metas_view(self.metas@) == spec_metas_of_files(
            self.files@,
            self.level,
            self.chunk_size,
            self.key is Some,
        )
        &&& forall|i: int| 0 <= i < self.files@.len() ==> spec_wf_file(#[trigger] self.files@[i])
        &&& self.volumes@.len() == self.volume_index + 1
        &&& (self.split_size > 0 ==> self.volumes@.last().len() == self.cur_vol_len)
        &&& spec_concat(self.volumes@) == self.spec_stream_so_far()
        &&& (self.split_size > 0 ==> forall|i: int|
            0 <= i < self.volumes@.len() ==> #[trigger] self.volumes@[i].len()
                <= self.split_size)
    }

    /// The writer's invariant.
    pub open spec fn wf(self) -> bool {
        &&& self.wf_exec()
        &&& (self.complete@ ==> self.wf_history())
    }

    /// Start a run: validate the configuration, derive the key and emit the
    /// header.
    ///
    /// `UnsupportedConfig` exactly when the chunk/split pair is not
    /// supported; `InvalidParameter` exactly when a password is given with
    /// a salt that is not 16 bytes.
    pub fn new(
        level: CompressionLevel,
        chunk_size: u64,
        split_size: u64,
        password: Option<&str>,
        salt: Vec<u8>,
        bytes_total: u64,
    ) -> (r: Result<(ArchiveWriter, VolumeWrite), Error>)
        ensures
            match r {
                Ok((w, op)) => {
                    &&& spec_stream_config_ok(chunk_size, split_size)
                    &&& (password is Some ==> salt@.len() == 16)
                    &&& w.wf()
                    &&& w.complete@
                    &&& w.level == level
                    &&& w.chunk_size == spec_effective_chunk_size(chunk_size)
                    &&& w.split_size == split_size
                    &&& w.key == (match password {
                        None => None::<CipherKey>,
                        Some(p) => Some(spec_derive_key(p.spec_bytes(), salt@)),
                    })
                    &&& (password is Some ==> w.salt@ == salt@)
                    &&& w.counter == 0
                    &&& w.bytes_done == 0
                    &&& w.bytes_total == bytes_total
                    &&& w.files@.len() == 0
                    &&& w.cur is None
                    &&& w.metas@.len() == 0
                    &&& w.volumes@ == seq![op.bytes@]
                    &&& op.volume_index == 0
                    &&& op.bytes@ == spec_encode_header(w.chunk_size, w.spec_hdr_enc())
                },
                Err(e) => {
                    ||| (e == Error::UnsupportedConfig && !spec_stream_config_ok(
                        chunk_size,
                        split_size,
                    ))
                    ||| (e == Error::InvalidParameter && spec_stream_config_ok(
                        chunk_size,
                        split_size,
                    ) && password is Some && salt@.len() != 16)
                },
            },
    {
        if !stream_config_ok(chunk_size, split_size) {
            return Err(Error::UnsupportedConfig);
        }
        let chunk = effective_chunk_size(chunk_size);
        let (key, salt_kept): (Option<CipherKey>, Vec<u8>) = match password {
            None => (None, Vec::new()),
            Some(p) => {
                if salt.len() != 16 {
                    return Err(Error::InvalidParameter);
                }
                let k = derive_key(p.as_bytes(), salt.as_slice());
                (Some(k), salt)
            },
        };
        let enc: Option<(Vec<u8>, (u64, u64))> = match &key {
            None => None,
            Some(k) => {
                let tb = make_test_block(k);
                let mut salt_copy: Vec<u8> = Vec::new();
                salt_copy.extend_from_slice(salt_kept.as_slice());
                proof {
                    assert(salt_copy@ =~= salt_kept@);
                }
                Some((salt_copy, tb))
            },
        };
        let mut header: Vec<u8> = Vec::new();
        encode_header(chunk, &enc, &mut header);
        let cur_vol_len: u64 = header.len() as u64;
        let ghost init_vols: Seq<Seq<u8>> = seq![header@];
        let w = ArchiveWriter {
            level,
            chunk_size: chunk,
            split_size,
            key,
            salt: salt_kept,
            counter: 0,
            volume_index: 0,
            cur_vol_len,
            metas: Vec::new(),
            cur: None,
            bytes_total,
            bytes_done: 0,
            volumes: Ghost(init_vols),
            files: Ghost(Seq::empty()),
            cur_data: Ghost(Seq::empty()),
            complete: Ghost(true),
        };
        proof {
            reveal_with_fuel(spec_concat, 3);
            assert(init_vols.skip(1) =~= Seq::<Seq<u8>>::empty());
            assert(spec_concat(init_vols) =~= header@);
            assert(spec_metas_view(w.metas@) =~= Seq::<EntryMetaView>::empty());
            assert(spec_metas_of_files(w.files@, level, chunk, w.key is Some)
                =~= Seq::<EntryMetaView>::empty());
            assert(w.spec_stream_so_far() =~= header@);
            vstd::bytes::lemma_auto_spec_u64_to_from_le_bytes();
            assert(header@.len() <= 46);
        }
        Ok((w, VolumeWrite { volume_index: 0, bytes: header }))
    }

    /// Open the next entry.
    ///
    /// `InvalidParameter` exactly when the name is longer than the index
    /// record can hold, or a directory declares a nonzero size.
    pub fn begin_entry(
        &mut self,
        name: &str,
        declared_size: u64,
        modified_time: u64,
        attributes: u32,
        is_directory: bool,
    ) -> (r: Result<(), Error>)
        requires
            old(self).wf(),
            old(self).cur is None,
        ensures
            final(self).wf(),
            match r {
                Ok(()) => {
                    &&& encode_utf8(name@).len() <= MAX_NAME_BYTES
                    &&& final(self).cur matches Some(c) && c.name@ == name@
                        && c.modified_time == modified_time && c.attributes == attributes
                        && c.is_directory == is_directory && c.declared_size == declared_size
                        && c.size_so_far == 0 && c.packed_so_far == 0 && c.chunks_so_far == 0
                    &&& final(self).cur_data@.len() == 0
                    &&& final(self).files == old(self).files
                    &&& final(self).metas@ == old(self).metas@
                    &&& final(self).volumes == old(self).volumes
                    &&& final(self).counter == old(self).counter
                    &&& final(self).bytes_done == old(self).bytes_done
                    &&& final(self).level == old(self).level
                    &&& final(self).chunk_size == old(self).chunk_size
                    &&& final(self).split_size == old(self).split_size
                    &&& final(self).key == old(self).key
                    &&& final(self).salt@ == old(self).salt@
                    &&& final(self).bytes_total == old(self).bytes_total
                    &&& final(self).complete == old(self).complete
                    &&& final(self).cur_vol_len == old(self).cur_vol_len
                    &&& final(self).volume_index == old(self).volume_index
                },
                Err(e) => e == Error::InvalidParameter && *final(self) == *old(self)
                    && (encode_utf8(name@).len() > MAX_NAME_BYTES || (is_directory
                    && declared_size > 0)),
            },
    {
        if name.as_bytes().len() > MAX_NAME_BYTES {
            return Err(Error::InvalidParameter);
        }
        if is_directory && declared_size > 0 {
            return Err(Error::InvalidParameter);
        }
        self.cur = Some(
            CurrentEntry {
                name: name.to_owned(),
                modified_time,
                attributes,
                is_directory,
                declared_size,
                size_so_far: 0,
                packed_so_far: 0,
                chunks_so_far: 0,
                hash: FNV64_OFFSET,
            },
        );
        self.cur_data = Ghost(Seq::empty());
        Ok(())
    }
}

} // verus!

verus! {

impl ArchiveWriter {
    /// Feed the next chunk of the open entry and obtain its frame.
    ///
    /// Chunks must be fed in file order, each exactly `chunk_size` bytes
    /// except an entry's last.  The returned frame is appended to the
    /// returned volume; the current volume is closed first when the frame
    /// would push it over the split threshold, so no chunk is ever torn
    /// across volumes.  Progress counters advance monotonically.
    #[verifier::rlimit(100)]
    #[verifier::spinoff_prover]
    pub fn push_chunk(&mut self, data: &[u8]) -> (r: VolumeWrite)
        requires
            old(self).wf(),
            old(self).cur is Some,
            !old(self).cur.unwrap().is_directory,
            1 <= data@.len() <= old(self).chunk_size,
            old(self).cur_data@.len() % (old(self).chunk_size as nat) == 0,
            old(self).bytes_done + data@.len() + 2 <= u64::MAX,
            (old(self).cur.unwrap().size_so_far + data@.len()) * 17 <= u64::MAX,
        ensures
            final(self).wf(),
            r.bytes@ == spec_chunk_frame(old(self).level, old(self).key, old(self).counter, data@),
            r.volume_index == final(self).volume_index,
            final(self).volume_index == old(self).volume_index || final(self).volume_index == old(
                self,
            ).volume_index + 1,
            final(self).complete@ ==> final(self).volumes@ == spec_place_unit(
                old(self).volumes@,
                old(self).split_size,
                r.bytes@,
            ),
            final(self).complete@ && final(self).volume_index == old(self).volume_index + 1
                ==> final(self).volumes@ == old(self).volumes@.push(r.bytes@),
            final(self).complete@ && final(self).volume_index == old(self).volume_index
                ==> final(self).volumes@ == old(self).volumes@.update(
                old(self).volumes@.len() - 1,
                old(self).volumes@.last() + r.bytes@,
            ),
            final(self).counter == old(self).counter + 1,
            final(self).bytes_done == old(self).bytes_done + data@.len(),
            final(self).cur_data@ == old(self).cur_data@ + data@,
            final(self).cur is Some,
            final(self).cur.unwrap().size_so_far == old(self).cur.unwrap().size_so_far
                + data@.len(),
            final(self).cur.unwrap().name@ == old(self).cur.unwrap().name@,
            final(self).cur.unwrap().is_directory == old(self).cur.unwrap().is_directory,
            final(self).cur.unwrap().declared_size == old(self).cur.unwrap().declared_size,
            final(self).cur.unwrap().modified_time == old(self).cur.unwrap().modified_time,
            final(self).cur.unwrap().attributes == old(self).cur.unwrap().attributes,
            final(self).files == old(self).files,
            final(self).metas@ == old(self).metas@,
            final(self).level == old(self).level,
            final(self).chunk_size == old(self).chunk_size,
            final(self).split_size == old(self).split_size,
            final(self).key == old(self).key,
            final(self).salt@ == old(self).salt@,
            final(self).bytes_total == old(self).bytes_total,
            final(self).complete == old(self).complete,
    {
        let ghost old_cur_data = self.cur_data@;
        let ghost base_counter = spec_total_chunks(self.files@, self.chunk_size);
        let (method, payload) = compress_chunk(self.level, data);
        let stored: Vec<u8> = match &self.key {
            None => payload,
            Some(k) => {
                let iv = chunk_iv(k, self.counter);
                encrypt_chunk(k, iv, payload.as_slice())
            },
        };
        proof {
            lemma_compress_chunk_ok(self.level, data@);
            lemma_stored_payload_len(self.level, self.key, self.counter, data@);
            assert(stored@ == spec_stored_payload(self.level, self.key, self.counter, data@));
            assert(stored@.len() <= data@.len() + 16);
        }
        let stored_len = stored.len();
        let frame = build_frame(method, data.len() as u32, stored);
        proof {
            assert(frame@ == spec_chunk_frame(self.level, self.key, self.counter, data@));
            assert(frame@.len() <= FRAME_HEADER_LEN + data@.len() + 16);
        }
        let mut c = self.cur.take().unwrap();
        let new_hash = crate::checksum::fnv64_update(c.hash, data);
        proof {
            lemma_fnv_append(FNV64_OFFSET, old_cur_data, data@);
            lemma_chunk_count_snoc(old_cur_data.len(), data@.len(), self.chunk_size);
            lemma_entry_packed_snoc(old_cur_data, data@, self.level, self.chunk_size, self.key is Some);
            if self.complete@ {
                assert(self.counter == base_counter + spec_chunk_count(
                    old_cur_data.len(),
                    self.chunk_size,
                ));
                lemma_entry_frames_snoc(
                    old_cur_data,
                    data@,
                    self.level,
                    self.chunk_size,
                    self.key,
                    base_counter as u64,
                );
            }
        }
        c.size_so_far = c.size_so_far + data.len() as u64;
        c.packed_so_far = c.packed_so_far + stored_len as u64;
        c.chunks_so_far = c.chunks_so_far + 1;
        c.hash = new_hash;
        self.cur = Some(c);
        self.cur_data = Ghost(old_cur_data + data@);
        self.counter = self.counter + 1;
        self.bytes_done = self.bytes_done + data.len() as u64;
        let ghost old_vols = self.volumes@;
        let flen = frame.len() as u64;
        let rolled = self.split_size > 0 && self.cur_vol_len > 0 && flen > self.split_size
            - self.cur_vol_len;
        let vol_idx: u64;
        if rolled {
            self.volume_index = self.volume_index + 1;
            self.cur_vol_len = flen;
            self.volumes = Ghost(old_vols.push(frame@));
            vol_idx = self.volume_index;
        } else {
            if self.split_size > 0 {
                self.cur_vol_len = self.cur_vol_len + flen;
            } else {
                self.cur_vol_len = self.cur_vol_len.saturating_add(flen);
            }
            self.volumes = Ghost(old_vols.update(old_vols.len() - 1, old_vols.last() + frame@));
            vol_idx = self.volume_index;
        }
        proof {
            if self.complete@ {
                lemma_place_unit_concat(old_vols, self.split_size, frame@);
                let h = spec_encode_header(self.chunk_size, self.spec_hdr_enc());
                let ff = spec_files_frames(self.files@, self.level, self.chunk_size, self.key, 0);
                let e_old = spec_entry_frames(
                    old_cur_data,
                    self.level,
                    self.chunk_size,
                    self.key,
                    base_counter as u64,
                );
                let e_new = spec_entry_frames(
                    self.cur_data@,
                    self.level,
                    self.chunk_size,
                    self.key,
                    base_counter as u64,
                );
                assert(e_new == e_old + frame@);
                assert(h + ff + (e_old + frame@) =~= (h + ff + e_old) + frame@);
                assert(spec_concat(self.volumes@) == self.spec_stream_so_far());
            }
        }
        VolumeWrite { volume_index: vol_idx, bytes: frame }
    }

    /// Close the open entry: record its index entry.
    pub fn end_entry(&mut self)
        requires
            old(self).wf(),
            old(self).cur is Some,
        ensures
            final(self).wf(),
            final(self).cur is None,
            final(self).files@ == old(self).files@.push(
                (FileDataView {
                    name: old(self).cur.unwrap().name@,
                    data: old(self).cur_data@,
                    modified_time: old(self).cur.unwrap().modified_time,
                    attributes: old(self).cur.unwrap().attributes,
                    is_directory: old(self).cur.unwrap().is_directory,
                }),
            ),
            final(self).cur_data@.len() == 0,
            final(self).counter == old(self).counter,
            final(self).bytes_done == old(self).bytes_done,
            final(self).volumes == old(self).volumes,
            final(self).volume_index == old(self).volume_index,
            final(self).cur_vol_len == old(self).cur_vol_len,
            final(self).level == old(self).level,
            final(self).chunk_size == old(self).chunk_size,
            final(self).split_size == old(self).split_size,
            final(self).key == old(self).key,
            final(self).salt@ == old(self).salt@,
            final(self).bytes_total == old(self).bytes_total,
            final(self).complete == old(self).complete,
            final(self).metas@.len() == old(self).metas@.len() + 1,
    {
        let ghost old_files = self.files@;
        let ghost old_cur_data = self.cur_data@;
        let c = self.cur.take().unwrap();
        let ghost fv = FileDataView {
            name: c.name@,
            data: old_cur_data,
            modified_time: c.modified_time,
            attributes: c.attributes,
            is_directory: c.is_directory,
        };
        let meta = EntryMeta {
            name: c.name,
            size: c.size_so_far,
            packed_size: c.packed_so_far,
            modified_time: c.modified_time,
            attributes: c.attributes,
            is_directory: c.is_directory,
            chunk_count: c.chunks_so_far,
            checksum: c.hash,
        };
        proof {
            if self.complete@ {
                assert(meta@ == spec_meta_of(fv, self.level, self.chunk_size, self.key is Some));
            }
        }
        let ghost old_metas = self.metas@;
        self.metas.push(meta);
        self.files = Ghost(old_files.push(fv));
        self.cur_data = Ghost(Seq::empty());
        proof {
            lemma_metas_push(old_files, fv, self.level, self.chunk_size, self.key is Some);
            assert(spec_metas_view(self.metas@) =~= spec_metas_view(old_metas).push(meta@));
            lemma_total_chunks_push(old_files, fv, self.chunk_size);
            if self.complete@ {
                assert(spec_wf_file(fv));
                lemma_files_frames_push(
                    old_files,
                    fv,
                    self.level,
                    self.chunk_size,
                    self.key,
                    0u64,
                );
                let h = spec_encode_header(self.chunk_size, self.spec_hdr_enc());
                let ff_old = spec_files_frames(old_files, self.level, self.chunk_size, self.key, 0);
                let e_old = spec_entry_frames(
                    old_cur_data,
                    self.level,
                    self.chunk_size,
                    self.key,
                    spec_total_chunks(old_files, self.chunk_size) as u64,
                );
                let ff_new = spec_files_frames(
                    self.files@,
                    self.level,
                    self.chunk_size,
                    self.key,
                    0,
                );
                assert(ff_new == ff_old + e_old);
                let e_new = spec_entry_frames(
                    self.cur_data@,
                    self.level,
                    self.chunk_size,
                    self.key,
                    spec_total_chunks(self.files@, self.chunk_size) as u64,
                );
                assert(e_new.len() == 0);
                assert(h + (ff_old + e_old) + e_new =~= h + ff_old + e_old);
                assert(spec_concat(self.volumes@) == self.spec_stream_so_far());
            }
        }
    }

    /// Finish the run: emit the central index and its trailer as the final
    /// write, rolling to a new volume first when it does not fit the
    /// current one.
    ///
    /// When the writer's history is tracked, the concatenation of all
    /// volumes is then exactly the encoded archive of the entries fed, and
    /// every volume except possibly the last stays within the split
    /// threshold.
    pub fn finish(self) -> (r: (VolumeWrite, Ghost<Seq<Seq<u8>>>))
        requires
            self.wf(),
            self.cur is None,
        ensures
            r.0.bytes@ == spec_encode_index(spec_metas_view(self.metas@)) + spec_u64_to_le_bytes(
                spec_encode_index(spec_metas_view(self.metas@)).len() as u64,
            ),
            self.complete@ ==> r.1@ == spec_place_unit(self.volumes@, self.split_size, r.0.bytes@),
            self.complete@ ==> spec_concat(r.1@) == spec_archive_stream(
                self.files@,
                self.level,
                self.chunk_size,
                self.spec_enc(),
            ),
            self.complete@ ==> r.1@.len() >= 1 && (r.0.volume_index == r.1@.len() - 1),
            self.complete@ && self.split_size > 0 ==> forall|i: int|
                0 <= i < r.1@.len() - 1 ==> #[trigger] r.1@[i].len() <= self.split_size,
            r.0.volume_index == self.volume_index || r.0.volume_index == self.volume_index + 1,
    {
        let mut unit = encode_index(&self.metas);
        let ghost index_bytes = unit@;
        let mut trailer = u64_to_le_bytes(unit.len() as u64);
        unit.append(&mut trailer);
        let ghost old_vols = self.volumes@;
        let flen_big = unit.len();
        let rolled = self.split_size > 0 && self.cur_vol_len > 0 && flen_big as u64
            > self.split_size - self.cur_vol_len;
        let ghost result_vols = spec_place_unit(old_vols, self.split_size, unit@);
        let vol_idx: u64 = if rolled {
            self.volume_index + 1
        } else {
            self.volume_index
        };
        proof {
            if self.complete@ {
                lemma_place_unit_concat(old_vols, self.split_size, unit@);
                let h = spec_encode_header(self.chunk_size, self.spec_hdr_enc());
                let ff = spec_files_frames(self.files@, self.level, self.chunk_size, self.key, 0);
                let e = spec_entry_frames(
                    self.cur_data@,
                    self.level,
                    self.chunk_size,
                    self.key,
                    spec_total_chunks(self.files@, self.chunk_size) as u64,
                );
                assert(e.len() == 0);
                assert(h + ff + e =~= h + ff);
                let idx = spec_encode_index(
                    spec_metas_of_files(
                        self.files@,
                        self.level,
                        self.chunk_size,
                        self.key is Some,
                    ),
                );
                assert(index_bytes == idx);
                let tb = spec_u64_to_le_bytes(idx.len() as u64);
                assert(unit@ =~= idx + tb);
                assert((h + ff) + (idx + tb) =~= h + ff + idx + tb);
                assert(spec_concat(result_vols) == spec_archive_stream(
                    self.files@,
                    self.level,
                    self.chunk_size,
                    self.spec_enc(),
                ));
                if self.split_size > 0 && old_vols.last().len() > 0 && old_vols.last().len()
                    + unit@.len() > self.split_size {
                    assert(rolled);
                    assert(result_vols == old_vols.push(unit@));
                    assert(vol_idx == result_vols.len() - 1);
                } else {
                    assert(!rolled || old_vols.last().len() == 0);
                    if rolled {
                        assert(old_vols.last().len() == self.cur_vol_len);
                        assert(false);
                    }
                    assert(result_vols == old_vols.update(
                        old_vols.len() - 1,
                        old_vols.last() + unit@,
                    ));
                    assert(vol_idx == result_vols.len() - 1);
                }
                assert(forall|i: int|
                    0 <= i < result_vols.len() - 1 ==> #[trigger] result_vols[i].len()
                        <= self.split_size || self.split_size == 0) by {
                    assert(forall|i: int|
                        self.split_size > 0 && 0 <= i < old_vols.len()
                            ==> #[trigger] old_vols[i].len() <= self.split_size);
                }
            }
        }
        (VolumeWrite { volume_index: vol_idx, bytes: unit }, Ghost(result_vols))
    }

    /// The latest progress observation: totals advance monotonically, one
    /// sample per chunk.
    pub fn progress(&self) -> (r: ProgressSample)
        ensures
            r.bytes_processed == self.bytes_done,
            r.bytes_total == self.bytes_total,
            match self.cur {
                Some(c) => r.current_file_bytes_processed == c.size_so_far
                    && r.current_file_bytes_total == c.declared_size && r.current_file_name@
                    == c.name@,
                None => r.current_file_bytes_processed == 0 && r.current_file_bytes_total == 0
                    && r.current_file_name@.len() == 0,
            },
    {
        match &self.cur {
            Some(c) => ProgressSample {
                bytes_processed: self.bytes_done,
                bytes_total: self.bytes_total,
                current_file_bytes_processed: c.size_so_far,
                current_file_bytes_total: c.declared_size,
                current_file_name: c.name.clone(),
            },
            None => {
                let empty_name = String::new();
                proof {
                    assert(empty_name@.len() == 0);
                }
                ProgressSample {
                    bytes_processed: self.bytes_done,
                    bytes_total: self.bytes_total,
                    current_file_bytes_processed: 0,
                    current_file_bytes_total: 0,
                    current_file_name: empty_name,
                }
            },
        }
    }
}

} // verus!

verus! {

// ---------------------------------------------------------------------------
// Checkpoints: persistable writer state for resumable runs
// ---------------------------------------------------------------------------

/// First magic byte of a checkpoint.
pub const CKPT_MAGIC_0: u8 = 0x53;

/// Second magic byte of a checkpoint.
pub const CKPT_MAGIC_1: u8 = 0x5a;

/// Third magic byte of a checkpoint.
pub const CKPT_MAGIC_2: u8 = 0x4b;

/// Fourth magic byte of a checkpoint.
pub const CKPT_MAGIC_3: u8 = 0x31;

/// The model of an open entry's running counters.
pub ghost struct CurrentEntryView {
    pub name: Seq<char>,
    pub modified_time: u64,
    pub attributes: u32,
    pub is_directory: bool,
    pub declared_size: u64,
    pub size_so_far: u64,
    pub packed_so_far: u64,
    pub chunks_so_far: u64,
    pub hash: u64,
}

impl View for CurrentEntry {
    type V = CurrentEntryView;

    open spec fn view(&self) -> CurrentEntryView {
        CurrentEntryView {
            name: self.name@,
            modified_time: self.modified_time,
            attributes: self.attributes,
            is_directory: self.is_directory,
            declared_size: self.declared_size,
            size_so_far: self.size_so_far,
            packed_so_far: self.packed_so_far,
            chunks_so_far: self.chunks_so_far,
            hash: self.hash,
        }
    }
}

/// The model of everything a checkpoint persists.
pub ghost struct CheckpointView {
    pub level: CompressionLevel,
    pub chunk_size: u64,
    pub split_size: u64,
    pub key: Option<CipherKey>,
    pub salt: Seq<u8>,
    pub counter: u64,
    pub volume_index: u64,
    pub cur_vol_len: u64,
    pub bytes_total: u64,
    pub bytes_done: u64,
    pub metas: Seq<EntryMetaView>,
    pub cur: Option<CurrentEntryView>,
}

/// The bytes of an open entry's record inside a checkpoint.
pub open spec fn spec_encode_cur(c: CurrentEntryView) -> Seq<u8> {
    let nb = encode_utf8(c.name);
    vstd::bytes::spec_u16_to_le_bytes(nb.len() as u16) + nb + spec_u64_to_le_bytes(
        c.modified_time,
    ) + spec_u32_to_le_bytes(c.attributes) + seq![
        if c.is_directory {
            1u8
        } else {
            0u8
        },
    ] + spec_u64_to_le_bytes(c.declared_size) + spec_u64_to_le_bytes(c.size_so_far)
        + spec_u64_to_le_bytes(c.packed_so_far) + spec_u64_to_le_bytes(c.chunks_so_far)
        + spec_u64_to_le_bytes(c.hash)
}

/// The cipher-key words of a checkpoint, zeros when none.
pub open spec fn spec_ckpt_key_bytes(key: Option<CipherKey>) -> Seq<u8> {
    match key {
        None => spec_u64_to_le_bytes(0) + spec_u64_to_le_bytes(0) + spec_u64_to_le_bytes(0)
            + spec_u64_to_le_bytes(0),
        Some(k) => spec_u64_to_le_bytes(k.w0) + spec_u64_to_le_bytes(k.w1) + spec_u64_to_le_bytes(
            k.w2,
        ) + spec_u64_to_le_bytes(k.w3),
    }
}

/// The salt bytes of a checkpoint, zeros when not encrypted.
pub open spec fn spec_ckpt_salt_bytes(key: Option<CipherKey>, salt: Seq<u8>) -> Seq<u8> {
    match key {
        None => Seq::new(16, |i: int| 0u8),
        Some(k) => salt,
    }
}

/// The fixed-layout head of a checkpoint, through the index length.
pub open spec fn spec_ckpt_head(cp: CheckpointView) -> Seq<u8> {
    seq![CKPT_MAGIC_0, CKPT_MAGIC_1, CKPT_MAGIC_2, CKPT_MAGIC_3, crate::options::spec_level_code(cp.level)]
        + spec_u64_to_le_bytes(cp.chunk_size) + spec_u64_to_le_bytes(cp.split_size) + seq![
        if cp.key is Some {
            1u8
        } else {
            0u8
        },
    ] + spec_ckpt_key_bytes(cp.key) + spec_ckpt_salt_bytes(cp.key, cp.salt) + spec_u64_to_le_bytes(
        cp.counter,
    ) + spec_u64_to_le_bytes(cp.volume_index) + spec_u64_to_le_bytes(cp.cur_vol_len)
        + spec_u64_to_le_bytes(cp.bytes_total) + spec_u64_to_le_bytes(cp.bytes_done)
        + spec_u64_to_le_bytes(spec_encode_index(cp.metas).len() as u64)
}

/// The bytes of a whole checkpoint.
pub open spec fn spec_encode_checkpoint(cp: CheckpointView) -> Seq<u8> {
    spec_ckpt_head(cp) + spec_encode_index(cp.metas) + (match cp.cur {
        None => seq![0u8],
        Some(c) => seq![1u8] + spec_encode_cur(c),
    })
}

/// Parse an open entry's record; `None` when torn or not UTF-8.
pub open spec fn spec_parse_cur(s: Seq<u8>) -> Option<(CurrentEntryView, int)> {
    if s.len() < 2 {
        None
    } else {
        let nlen = vstd::bytes::spec_u16_from_le_bytes(s.subrange(0, 2)) as int;
        if s.len() < nlen + 55 {
            None
        } else {
            let nb = s.subrange(2, 2 + nlen);
            if !vstd::utf8::valid_utf8(nb) {
                None
            } else {
                let off = 2 + nlen;
                let dirb = s[off + 12];
                if dirb != 0 && dirb != 1 {
                    None
                } else {
                    Some(
                        (
                            CurrentEntryView {
                                name: vstd::utf8::decode_utf8(nb),
                                modified_time: spec_u64_from_le_bytes(s.subrange(off, off + 8)),
                                attributes: vstd::bytes::spec_u32_from_le_bytes(
                                    s.subrange(off + 8, off + 12),
                                ),
                                is_directory: dirb == 1,
                                declared_size: spec_u64_from_le_bytes(
                                    s.subrange(off + 13, off + 21),
                                ),
                                size_so_far: spec_u64_from_le_bytes(s.subrange(off + 21, off + 29)),
                                packed_so_far: spec_u64_from_le_bytes(
                                    s.subrange(off + 29, off + 37),
                                ),
                                chunks_so_far: spec_u64_from_le_bytes(
                                    s.subrange(off + 37, off + 45),
                                ),
                                hash: spec_u64_from_le_bytes(s.subrange(off + 45, off + 53)),
                            },
                            off + 53,
                        ),
                    )
                }
            }
        }
    }
}

/// Parse a whole checkpoint exactly; `None` when it is torn or malformed.
pub open spec fn spec_parse_checkpoint(s: Seq<u8>) -> Option<CheckpointView> {
    if s.len() < 119 {
        None
    } else if s[0] != CKPT_MAGIC_0 || s[1] != CKPT_MAGIC_1 || s[2] != CKPT_MAGIC_2 || s[3]
        != CKPT_MAGIC_3 {
        None
    } else {
        match crate::options::spec_level_from_code(s[4]) {
            None => None,
            Some(level) => {
                if s[21] != 0 && s[21] != 1 {
                    None
                } else {
                    let key = if s[21] == 1 {
                        Some(
                            CipherKey {
                                w0: spec_u64_from_le_bytes(s.subrange(22, 30)),
                                w1: spec_u64_from_le_bytes(s.subrange(30, 38)),
                                w2: spec_u64_from_le_bytes(s.subrange(38, 46)),
                                w3: spec_u64_from_le_bytes(s.subrange(46, 54)),
                            },
                        )
                    } else {
                        None
                    };
                    let ilen = spec_u64_from_le_bytes(s.subrange(110, 118));
                    if s.len() < 119 + ilen {
                        None
                    } else {
                        match spec_parse_index(s.subrange(118, 118 + ilen)) {
                            None => None,
                            Some(metas) => {
                                let b = 118 + ilen;
                                if s[b] == 0 {
                                    if s.len() == b + 1 {
                                        Some(
                                            CheckpointView {
                                                level,
                                                chunk_size: spec_u64_from_le_bytes(
                                                    s.subrange(5, 13),
                                                ),
                                                split_size: spec_u64_from_le_bytes(
                                                    s.subrange(13, 21),
                                                ),
                                                key,
                                                salt: if s[21] == 1 {
                                                    s.subrange(54, 70)
                                                } else {
                                                    Seq::empty()
                                                },
                                                counter: spec_u64_from_le_bytes(
                                                    s.subrange(70, 78),
                                                ),
                                                volume_index: spec_u64_from_le_bytes(
                                                    s.subrange(78, 86),
                                                ),
                                                cur_vol_len: spec_u64_from_le_bytes(
                                                    s.subrange(86, 94),
                                                ),
                                                bytes_total: spec_u64_from_le_bytes(
                                                    s.subrange(94, 102),
                                                ),
                                                bytes_done: spec_u64_from_le_bytes(
                                                    s.subrange(102, 110),
                                                ),
                                                metas,
                                                cur: None,
                                            },
                                        )
                                    } else {
                                        None
                                    }
                                } else if s[b] == 1 {
                                    match spec_parse_cur(s.skip(b + 1)) {
                                        None => None,
                                        Some((c, used)) => {
                                            if s.len() == b + 1 + used {
                                                Some(
                                                    CheckpointView {
                                                        level,
                                                        chunk_size: spec_u64_from_le_bytes(
                                                            s.subrange(5, 13),
                                                        ),
                                                        split_size: spec_u64_from_le_bytes(
                                                            s.subrange(13, 21),
                                                        ),
                                                        key,
                                                        salt: if s[21] == 1 {
                                                            s.subrange(54, 70)
                                                        } else {
                                                            Seq::empty()
                                                        },
                                                        counter: spec_u64_from_le_bytes(
                                                            s.subrange(70, 78),
                                                        ),
                                                        volume_index: spec_u64_from_le_bytes(
                                                            s.subrange(78, 86),
                                                        ),
                                                        cur_vol_len: spec_u64_from_le_bytes(
                                                            s.subrange(86, 94),
                                                        ),
                                                        bytes_total: spec_u64_from_le_bytes(
                                                            s.subrange(94, 102),
                                                        ),
                                                        bytes_done: spec_u64_from_le_bytes(
                                                            s.subrange(102, 110),
                                                        ),
                                                        metas,
                                                        cur: Some(c),
                                                    },
                                                )
                                            } else {
                                                None
                                            }
                                        },
                                    }
                                } else {
                                    None
                                }
                            },
                        }
                    }
                }
            },
        }
    }
}

} // verus!

verus! {

/// Parsing an encoded open-entry record returns it and consumes exactly
/// the record.
pub proof fn lemma_parse_cur_round_trip(c: CurrentEntryView, rest: Seq<u8>)
    requires
        encode_utf8(c.name).len() <= MAX_NAME_BYTES,
    ensures
        spec_parse_cur(spec_encode_cur(c) + rest) == Some(
            (c, spec_encode_cur(c).len() as int),
        ),
        spec_encode_cur(c).len() == 55 + encode_utf8(c.name).len(),
{
    vstd::bytes::lemma_auto_spec_u16_to_from_le_bytes();
    vstd::bytes::lemma_auto_spec_u32_to_from_le_bytes();
    vstd::bytes::lemma_auto_spec_u64_to_from_le_bytes();
    vstd::utf8::encode_utf8_valid_utf8(c.name);
    vstd::utf8::encode_utf8_decode_utf8(c.name);
    let nb = encode_utf8(c.name);
    let m = spec_encode_cur(c);
    let s = m + rest;
    let nlen = nb.len() as int;
    assert(m.len() == 55 + nlen);
    assert(s.subrange(0, 2) =~= vstd::bytes::spec_u16_to_le_bytes(nb.len() as u16));
    assert(vstd::bytes::spec_u16_from_le_bytes(s.subrange(0, 2)) == nlen);
    assert(s.subrange(2, 2 + nlen) =~= nb);
    let off = 2 + nlen;
    assert(s.subrange(off, off + 8) =~= spec_u64_to_le_bytes(c.modified_time));
    assert(s.subrange(off + 8, off + 12) =~= spec_u32_to_le_bytes(c.attributes));
    assert(s[off + 12] == if c.is_directory { 1u8 } else { 0u8 });
    assert(s.subrange(off + 13, off + 21) =~= spec_u64_to_le_bytes(c.declared_size));
    assert(s.subrange(off + 21, off + 29) =~= spec_u64_to_le_bytes(c.size_so_far));
    assert(s.subrange(off + 29, off + 37) =~= spec_u64_to_le_bytes(c.packed_so_far));
    assert(s.subrange(off + 37, off + 45) =~= spec_u64_to_le_bytes(c.chunks_so_far));
    assert(s.subrange(off + 45, off + 53) =~= spec_u64_to_le_bytes(c.hash));
    let parsed = spec_parse_cur(s).unwrap().0;
    assert(parsed.name == c.name);
    assert(parsed == c);
}

/// Resume correctness, serialization half: parsing an encoded checkpoint
/// returns exactly the persisted state, so a writer resumed from it
/// continues with the same counters, key, index records and open entry —
/// and, its outputs being functions of that state alone, emits the same
/// bytes an uninterrupted run would.
#[verifier::rlimit(100)]
#[verifier::spinoff_prover]
pub proof fn lemma_checkpoint_round_trip(cp: CheckpointView)
    requires
        cp.key is Some ==> cp.salt.len() == 16,
        cp.key is None ==> cp.salt.len() == 0,
        forall|i: int|
            0 <= i < cp.metas.len() ==> encode_utf8(#[trigger] cp.metas[i].name).len()
                <= MAX_NAME_BYTES,
        cp.metas.len() <= u64::MAX,
        spec_encode_index(cp.metas).len() <= u64::MAX,
        cp.cur matches Some(c) ==> encode_utf8(c.name).len() <= MAX_NAME_BYTES,
    ensures
        spec_parse_checkpoint(spec_encode_checkpoint(cp)) == Some(cp),
{
    vstd::bytes::lemma_auto_spec_u64_to_from_le_bytes();
    let s = spec_encode_checkpoint(cp);
    let index = spec_encode_index(cp.metas);
    let ilen = index.len() as int;
    assert(spec_ckpt_key_bytes(cp.key).len() == 32);
    assert(spec_ckpt_salt_bytes(cp.key, cp.salt).len() == 16);
    assert(s.len() == 119 + ilen + (match cp.cur {
        None => 0int,
        Some(c) => spec_encode_cur(c).len() as int,
    })) by {
        match cp.cur {
            None => {},
            Some(c) => {
                lemma_parse_cur_round_trip(c, Seq::empty());
            },
        }
    }
    assert(s[0] == CKPT_MAGIC_0 && s[1] == CKPT_MAGIC_1 && s[2] == CKPT_MAGIC_2 && s[3]
        == CKPT_MAGIC_3);
    assert(s[4] == crate::options::spec_level_code(cp.level));
    crate::options::lemma_level_code_round_trip(cp.level);
    assert(s.subrange(5, 13) =~= spec_u64_to_le_bytes(cp.chunk_size));
    assert(s.subrange(13, 21) =~= spec_u64_to_le_bytes(cp.split_size));
    assert(s[21] == if cp.key is Some { 1u8 } else { 0u8 });
    match cp.key {
        None => {},
        Some(k) => {
            assert(s.subrange(22, 30) =~= spec_u64_to_le_bytes(k.w0));
            assert(s.subrange(30, 38) =~= spec_u64_to_le_bytes(k.w1));
            assert(s.subrange(38, 46) =~= spec_u64_to_le_bytes(k.w2));
            assert(s.subrange(46, 54) =~= spec_u64_to_le_bytes(k.w3));
            assert(s.subrange(54, 70) =~= cp.salt);
        },
    }
    assert(s.subrange(70, 78) =~= spec_u64_to_le_bytes(cp.counter));
    assert(s.subrange(78, 86) =~= spec_u64_to_le_bytes(cp.volume_index));
    assert(s.subrange(86, 94) =~= spec_u64_to_le_bytes(cp.cur_vol_len));
    assert(s.subrange(94, 102) =~= spec_u64_to_le_bytes(cp.bytes_total));
    assert(s.subrange(102, 110) =~= spec_u64_to_le_bytes(cp.bytes_done));
    assert(s.subrange(110, 118) =~= spec_u64_to_le_bytes(index.len() as u64));
    assert(s.subrange(118, 118 + ilen) =~= index);
    crate::format::lemma_parse_index_round_trip(cp.metas);
    let b = 118 + ilen;
    match cp.cur {
        None => {
            assert(s[b] == 0u8);
            assert(s.len() == b + 1);
            assert(cp.salt =~= (if cp.key is Some {
                cp.salt
            } else {
                Seq::<u8>::empty()
            }));
        },
        Some(c) => {
            assert(s[b] == 1u8);
            lemma_parse_cur_round_trip(c, Seq::empty());
            assert(s.skip(b + 1) =~= spec_encode_cur(c) + Seq::<u8>::empty());
            assert(cp.salt =~= (if cp.key is Some {
                cp.salt
            } else {
                Seq::<u8>::empty()
            }));
        },
    }
}

} // verus!

verus! {

/// Whether a parsed checkpoint is one the engine can hold: the same
/// machine-level bounds a live writer maintains.
pub open spec fn spec_checkpoint_sane(cp: CheckpointView) -> bool {
    &&& 1 <= cp.chunk_size <= MAX_CHUNK_SIZE
    &&& (cp.split_size == 0 || cp.split_size >= cp.chunk_size + SPLIT_MARGIN)
    &&& cp.bytes_done + 2 <= u64::MAX
    &&& cp.counter <= cp.bytes_done
    &&& cp.volume_index <= 1 + cp.counter
    &&& (cp.split_size > 0 ==> cp.cur_vol_len <= cp.split_size)
    &&& (match cp.cur {
        None => true,
        Some(c) => {
            &&& c.packed_so_far <= 17 * c.size_so_far
            &&& c.chunks_so_far <= c.size_so_far
            &&& encode_utf8(c.name).len() <= MAX_NAME_BYTES
            &&& (c.is_directory ==> c.size_so_far == 0)
        },
    })
    &&& forall|i: int|
        0 <= i < cp.metas.len() ==> encode_utf8(#[trigger] cp.metas[i].name).len()
            <= MAX_NAME_BYTES
    &&& (cp.key is Some ==> cp.salt.len() == 16)
}

/// Whether a checkpoint fits a resume request: same level, chunk size and
/// split threshold, and a password deriving the recorded key — the
/// configuration fingerprint of the run.
pub open spec fn spec_resume_matches(
    cp: CheckpointView,
    level: CompressionLevel,
    chunk_size: u64,
    split_size: u64,
    password: Option<Seq<u8>>,
) -> bool {
    &&& cp.level == level
    &&& cp.chunk_size == spec_effective_chunk_size(chunk_size)
    &&& cp.split_size == split_size
    &&& match (password, cp.key) {
        (None, None) => true,
        (Some(p), Some(k)) => spec_derive_key(p, cp.salt) == k,
        _ => false,
    }
}

impl ArchiveWriter {
    /// The model of what this writer's checkpoint persists.
    pub open spec fn spec_checkpoint_view(self) -> CheckpointView {
        CheckpointView {
            level: self.level,
            chunk_size: self.chunk_size,
            split_size: self.split_size,
            key: self.key,
            salt: self.salt@,
            counter: self.counter,
            volume_index: self.volume_index,
            cur_vol_len: self.cur_vol_len,
            bytes_total: self.bytes_total,
            bytes_done: self.bytes_done,
            metas: spec_metas_view(self.metas@),
            cur: match self.cur {
                None => None,
                Some(c) => Some(c@),
            },
        }
    }

    /// Persist the writer's state as checkpoint bytes.
    ///
    /// The caller stores them atomically (write to a fresh name, then
    /// rename); after a crash, `resume` with the same configuration
    /// rebuilds this exact state.
    #[verifier::rlimit(100)]
    #[verifier::spinoff_prover]
    pub fn checkpoint(&self) -> (r: Vec<u8>)
        requires
            self.wf(),
        ensures
            r@ == spec_encode_checkpoint(self.spec_checkpoint_view()),
    {
        let mut out: Vec<u8> = Vec::new();
        out.push(CKPT_MAGIC_0);
        out.push(CKPT_MAGIC_1);
        out.push(CKPT_MAGIC_2);
        out.push(CKPT_MAGIC_3);
        out.push(crate::options::level_code(self.level));
        let mut piece = u64_to_le_bytes(self.chunk_size);
        out.append(&mut piece);
        let mut piece = u64_to_le_bytes(self.split_size);
        out.append(&mut piece);
        match &self.key {
            None => {
                out.push(0u8);
                let mut z = u64_to_le_bytes(0);
                out.append(&mut z);
                let mut z = u64_to_le_bytes(0);
                out.append(&mut z);
                let mut z = u64_to_le_bytes(0);
                out.append(&mut z);
                let mut z = u64_to_le_bytes(0);
                out.append(&mut z);
                crate::codec::push_repeat(&mut out, 0u8, 16);
            },
            Some(k) => {
                out.push(1u8);
                let mut piece = u64_to_le_bytes(k.w0);
                out.append(&mut piece);
                let mut piece = u64_to_le_bytes(k.w1);
                out.append(&mut piece);
                let mut piece = u64_to_le_bytes(k.w2);
                out.append(&mut piece);
                let mut piece = u64_to_le_bytes(k.w3);
                out.append(&mut piece);
                out.extend_from_slice(self.salt.as_slice());
            },
        }
        let mut piece = u64_to_le_bytes(self.counter);
        out.append(&mut piece);
        let mut piece = u64_to_le_bytes(self.volume_index);
        out.append(&mut piece);
        let mut piece = u64_to_le_bytes(self.cur_vol_len);
        out.append(&mut piece);
        let mut piece = u64_to_le_bytes(self.bytes_total);
        out.append(&mut piece);
        let mut piece = u64_to_le_bytes(self.bytes_done);
        out.append(&mut piece);
        let mut index = encode_index(&self.metas);
        let ghost index0 = index@;
        let mut piece = u64_to_le_bytes(index.len() as u64);
        out.append(&mut piece);
        proof {
            assert(out@ =~= spec_ckpt_head(self.spec_checkpoint_view()));
        }
        out.append(&mut index);
        proof {
            assert(out@ =~= spec_ckpt_head(self.spec_checkpoint_view()) + index0);
        }
        match &self.cur {
            None => {
                out.push(0u8);
            },
            Some(c) => {
                out.push(1u8);
                let nb = c.name.as_str().as_bytes();
                let mut piece = vstd::bytes::u16_to_le_bytes(nb.len() as u16);
                out.append(&mut piece);
                out.extend_from_slice(nb);
                let mut piece = u64_to_le_bytes(c.modified_time);
                out.append(&mut piece);
                let mut piece = u32_to_le_bytes(c.attributes);
                out.append(&mut piece);
                if c.is_directory {
                    out.push(1u8);
                } else {
                    out.push(0u8);
                }
                let mut piece = u64_to_le_bytes(c.declared_size);
                out.append(&mut piece);
                let mut piece = u64_to_le_bytes(c.size_so_far);
                out.append(&mut piece);
                let mut piece = u64_to_le_bytes(c.packed_so_far);
                out.append(&mut piece);
                let mut piece = u64_to_le_bytes(c.chunks_so_far);
                out.append(&mut piece);
                let mut piece = u64_to_le_bytes(c.hash);
                out.append(&mut piece);
                proof {
                    assert(Seq::new(16nat, |i: int| 0u8) =~= Seq::new(16nat, |i: int| 0u8));
                }
            },
        }
        proof {
            assert(out@ =~= spec_encode_checkpoint(self.spec_checkpoint_view()));
        }
        out
    }
}

} // verus!

verus! {

impl ArchiveWriter {
    /// Resume an interrupted run from checkpoint bytes.
    ///
    /// The configuration must fingerprint-match the recorded one — same
    /// level, chunk size and split threshold, and a password deriving the
    /// recorded key — else `UnsupportedConfig`; torn or insane checkpoint
    /// bytes give `CorruptArchive`.  The resumed writer carries exactly
    /// the persisted counters, key, index records and open entry, so it
    /// continues emitting the same bytes an uninterrupted run would; the
    /// caller re-opens the recorded volume at the recorded offset.
    #[verifier::rlimit(100)]
    #[verifier::spinoff_prover]
    pub fn resume(
        data: &[u8],
        level: CompressionLevel,
        chunk_size: u64,
        split_size: u64,
        password: Option<&str>,
    ) -> (r: Result<ArchiveWriter, Error>)
        ensures
            match r {
                Ok(w) => {
                    &&& spec_parse_checkpoint(data@) matches Some(cp) && spec_checkpoint_sane(cp)
                        && spec_resume_matches(
                        cp,
                        level,
                        chunk_size,
                        split_size,
                        crate::reader::spec_password_view(password),
                    ) && w.spec_checkpoint_view() == cp
                    &&& w.wf()
                    &&& !w.complete@
                },
                Err(e) => {
                    ||| (e == Error::CorruptArchive && (spec_parse_checkpoint(data@) is None
                        || !spec_checkpoint_sane(spec_parse_checkpoint(data@).unwrap())))
                    ||| (e == Error::UnsupportedConfig && (spec_parse_checkpoint(
                        data@,
                    ) matches Some(cp) && spec_checkpoint_sane(cp) && !spec_resume_matches(
                        cp,
                        level,
                        chunk_size,
                        split_size,
                        crate::reader::spec_password_view(password),
                    )))
                },
            },
    {
        if data.len() < 119 {
            return Err(Error::CorruptArchive);
        }
        if data[0] != CKPT_MAGIC_0 || data[1] != CKPT_MAGIC_1 || data[2] != CKPT_MAGIC_2
            || data[3] != CKPT_MAGIC_3 {
            return Err(Error::CorruptArchive);
        }
        let cp_level = match crate::options::level_from_code(data[4]) {
            Some(l) => l,
            None => {
                return Err(Error::CorruptArchive);
            },
        };
        let cp_chunk = crate::format::read_u64_at(data, 5);
        let cp_split = crate::format::read_u64_at(data, 13);
        if data[21] != 0 && data[21] != 1 {
            return Err(Error::CorruptArchive);
        }
        let cp_key: Option<CipherKey> = if data[21] == 1 {
            Some(
                CipherKey {
                    w0: crate::format::read_u64_at(data, 22),
                    w1: crate::format::read_u64_at(data, 30),
                    w2: crate::format::read_u64_at(data, 38),
                    w3: crate::format::read_u64_at(data, 46),
                },
            )
        } else {
            None
        };
        let cp_salt: Vec<u8> = if data[21] == 1 {
            vstd::slice::slice_to_vec(vstd::slice::slice_subrange(data, 54, 70))
        } else {
            Vec::new()
        };
        let cp_counter = crate::format::read_u64_at(data, 70);
        let cp_volume_index = crate::format::read_u64_at(data, 78);
        let cp_cur_vol_len = crate::format::read_u64_at(data, 86);
        let cp_bytes_total = crate::format::read_u64_at(data, 94);
        let cp_bytes_done = crate::format::read_u64_at(data, 102);
        let ilen = crate::format::read_u64_at(data, 110);
        proof {
            assert(data@.subrange(5, 13) =~= data@.subrange(5int, 13int));
            assert(data@.subrange(13, 21) =~= data@.subrange(13int, 21int));
            assert(data@.subrange(22, 30) =~= data@.subrange(22int, 30int));
            assert(data@.subrange(30, 38) =~= data@.subrange(30int, 38int));
            assert(data@.subrange(38, 46) =~= data@.subrange(38int, 46int));
            assert(data@.subrange(46, 54) =~= data@.subrange(46int, 54int));
            assert(data@.subrange(70, 78) =~= data@.subrange(70int, 78int));
            assert(data@.subrange(78, 86) =~= data@.subrange(78int, 86int));
            assert(data@.subrange(86, 94) =~= data@.subrange(86int, 94int));
            assert(data@.subrange(94, 102) =~= data@.subrange(94int, 102int));
            assert(data@.subrange(102, 110) =~= data@.subrange(102int, 110int));
            assert(data@.subrange(110, 118) =~= data@.subrange(110int, 118int));
            assert(cp_salt@ =~= (if data@[21] == 1 {
                data@.subrange(54, 70)
            } else {
                Seq::<u8>::empty()
            }));
        }
        if ilen > (data.len() - 119) as u64 {
            return Err(Error::CorruptArchive);
        }
        let idx_slice = vstd::slice::slice_subrange(data, 118, 118 + ilen as usize);
        proof {
            assert(idx_slice@ =~= data@.subrange(118, 118 + ilen));
        }
        let metas = match crate::format::parse_index(idx_slice) {
            Ok(ms) => ms,
            Err(e) => {
                return Err(Error::CorruptArchive);
            },
        };
        let b = 118 + ilen as usize;
        let cur: Option<CurrentEntry> = if data[b] == 0 {
            if data.len() != b + 1 {
                return Err(Error::CorruptArchive);
            }
            None
        } else if data[b] == 1 {
            let ghost rem = data@.skip(b + 1);
            if data.len() - b - 1 < 2 {
                proof {
                    assert(rem.len() < 2);
                }
                return Err(Error::CorruptArchive);
            }
            let nlen = crate::format::read_u16_at(data, b + 1) as usize;
            proof {
                assert(rem.subrange(0, 2) =~= data@.subrange(b + 1 as int, b + 3 as int));
            }
            if data.len() - b - 1 < 55 || data.len() - b - 1 - 55 < nlen {
                proof {
                    assert(rem.len() < nlen + 55);
                }
                return Err(Error::CorruptArchive);
            }
            let nb = vstd::slice::slice_subrange(data, b + 3, b + 3 + nlen);
            proof {
                assert(nb@ =~= rem.subrange(2, 2 + nlen as int));
            }
            let name = match core::str::from_utf8(nb) {
                Ok(st) => st.to_owned(),
                Err(e) => {
                    return Err(Error::CorruptArchive);
                },
            };
            proof {
                vstd::utf8::encode_utf8_decode_utf8(name@);
            }
            let off = b + 3 + nlen;
            let ghost goff = 2 + nlen as int;
            let modified_time = crate::format::read_u64_at(data, off);
            let attributes = crate::format::read_u32_at(data, off + 8);
            let dirb = data[off + 12];
            let declared_size = crate::format::read_u64_at(data, off + 13);
            let size_so_far = crate::format::read_u64_at(data, off + 21);
            let packed_so_far = crate::format::read_u64_at(data, off + 29);
            let chunks_so_far = crate::format::read_u64_at(data, off + 37);
            let hash = crate::format::read_u64_at(data, off + 45);
            proof {
                assert(rem.subrange(goff, goff + 8) =~= data@.subrange(
                    off as int,
                    off + 8 as int,
                ));
                assert(rem.subrange(goff + 8, goff + 12) =~= data@.subrange(
                    off + 8 as int,
                    off + 12 as int,
                ));
                assert(rem[goff + 12] == data@[off + 12 as int]);
                assert(rem.subrange(goff + 13, goff + 21) =~= data@.subrange(
                    off + 13 as int,
                    off + 21 as int,
                ));
                assert(rem.subrange(goff + 21, goff + 29) =~= data@.subrange(
                    off + 21 as int,
                    off + 29 as int,
                ));
                assert(rem.subrange(goff + 29, goff + 37) =~= data@.subrange(
                    off + 29 as int,
                    off + 37 as int,
                ));
                assert(rem.subrange(goff + 37, goff + 45) =~= data@.subrange(
                    off + 37 as int,
                    off + 45 as int,
                ));
                assert(rem.subrange(goff + 45, goff + 53) =~= data@.subrange(
                    off + 45 as int,
                    off + 53 as int,
                ));
            }
            if dirb != 0 && dirb != 1 {
                return Err(Error::CorruptArchive);
            }
            proof {
                assert(spec_parse_cur(rem) == Some(
                    (
                        (CurrentEntryView {
                            name: name@,
                            modified_time,
                            attributes,
                            is_directory: dirb == 1,
                            declared_size,
                            size_so_far,
                            packed_so_far,
                            chunks_so_far,
                            hash,
                        }),
                        goff + 53,
                    ),
                ));
            }
            if data.len() != off + 53 {
                return Err(Error::CorruptArchive);
            }
            Some(
                CurrentEntry {
                    name,
                    modified_time,
                    attributes,
                    is_directory: dirb == 1,
                    declared_size,
                    size_so_far,
                    packed_so_far,
                    chunks_so_far,
                    hash,
                },
            )
        } else {
            return Err(Error::CorruptArchive);
        };
        proof {
            let expected = CheckpointView {
                level: cp_level,
                chunk_size: cp_chunk,
                split_size: cp_split,
                key: cp_key,
                salt: cp_salt@,
                counter: cp_counter,
                volume_index: cp_volume_index,
                cur_vol_len: cp_cur_vol_len,
                bytes_total: cp_bytes_total,
                bytes_done: cp_bytes_done,
                metas: spec_metas_view(metas@),
                cur: match &cur {
                    None => None,
                    Some(c) => Some(c@),
                },
            };
            assert(spec_parse_checkpoint(data@) == Some(expected));
        }
        let ghost cp = spec_parse_checkpoint(data@).unwrap();
        // Sanity: the machine-level bounds a live writer maintains.
        if !(1 <= cp_chunk && cp_chunk <= MAX_CHUNK_SIZE) {
            return Err(Error::CorruptArchive);
        }
        if !(cp_split == 0 || (cp_chunk <= u64::MAX - SPLIT_MARGIN && cp_split >= cp_chunk
            + SPLIT_MARGIN)) {
            return Err(Error::CorruptArchive);
        }
        if cp_bytes_done > u64::MAX - 2 || cp_counter > cp_bytes_done {
            return Err(Error::CorruptArchive);
        }
        if cp_volume_index > 0 && cp_volume_index - 1 > cp_counter {
            return Err(Error::CorruptArchive);
        }
        if cp_split > 0 && cp_cur_vol_len > cp_split {
            return Err(Error::CorruptArchive);
        }
        match &cur {
            None => {},
            Some(c) => {
                let lim = u64::MAX / 17;
                if c.size_so_far <= lim && c.packed_so_far > 17 * c.size_so_far {
                    return Err(Error::CorruptArchive);
                }
                proof {
                    if c.size_so_far > lim {
                        assert(17 * (c.size_so_far as int) > u64::MAX);
                    }
                }
                if c.chunks_so_far > c.size_so_far {
                    return Err(Error::CorruptArchive);
                }
                if c.is_directory && c.size_so_far > 0 {
                    return Err(Error::CorruptArchive);
                }
            },
        }
        let mut mi: usize = 0;
        while mi < metas.len()
            invariant
                mi <= metas@.len(),
                spec_parse_checkpoint(data@) == Some(cp),
                cp.metas == spec_metas_view(metas@),
                cp.metas.len() == metas@.len(),
                forall|k: int|
                    0 <= k < mi ==> encode_utf8(#[trigger] metas@[k]@.name).len()
                        <= MAX_NAME_BYTES,
            decreases metas@.len() - mi,
        {
            proof {
                assert(cp.metas[mi as int] == metas@[mi as int]@);
            }
            let nlen = metas[mi].name.as_str().as_bytes().len();
            if nlen > MAX_NAME_BYTES {
                proof {
                    assert(encode_utf8(metas@[mi as int]@.name).len() > MAX_NAME_BYTES);
                    assert(cp.metas[mi as int].name == metas@[mi as int]@.name);
                }
                return Err(Error::CorruptArchive);
            }
            proof {
                assert(encode_utf8(metas@[mi as int]@.name).len() <= MAX_NAME_BYTES);
            }
            mi = mi + 1;
        }
        proof {
            assert(spec_checkpoint_sane(cp)) by {
                assert(forall|i: int|
                    0 <= i < cp.metas.len() ==> #[trigger] cp.metas[i] == metas@[i]@);
            }
        }
        // Fingerprint.
        let mut ok = true;
        if crate::options::level_code(cp_level) != crate::options::level_code(level) {
            ok = false;
        }
        if cp_chunk != effective_chunk_size(chunk_size) || cp_split != split_size {
            ok = false;
        }
        match (password, &cp_key) {
            (None, None) => {},
            (Some(p), Some(k)) => {
                let derived = derive_key(p.as_bytes(), cp_salt.as_slice());
                if derived.w0 != k.w0 || derived.w1 != k.w1 || derived.w2 != k.w2 || derived.w3
                    != k.w3 {
                    ok = false;
                }
            },
            _ => {
                ok = false;
            },
        }
        proof {
            assert(cp_level == level <==> crate::options::spec_level_code(cp_level)
                == crate::options::spec_level_code(level));
        }
        if !ok {
            return Err(Error::UnsupportedConfig);
        }
        let w = ArchiveWriter {
            level,
            chunk_size: cp_chunk,
            split_size: cp_split,
            key: cp_key,
            salt: cp_salt,
            counter: cp_counter,
            volume_index: cp_volume_index,
            cur_vol_len: cp_cur_vol_len,
            metas,
            cur,
            bytes_total: cp_bytes_total,
            bytes_done: cp_bytes_done,
            volumes: Ghost(Seq::empty()),
            files: Ghost(Seq::empty()),
            cur_data: Ghost(Seq::empty()),
            complete: Ghost(false),
        };
        proof {
            assert(w.spec_checkpoint_view() == cp);
        }
        Ok(w)
    }
}

} // verus!
