//! High-level archive operations on in-memory volumes.
//!
//! [`SevenZip`] creates, extracts, lists and tests archives whose volumes
//! are byte vectors; reading paths from disk and writing volumes back is
//! the caller's side.  Creation streams through an
//! [`crate::writer::ArchiveWriter`], so only the convenience of holding the
//! inputs in memory is concentrated here — the pipeline itself is bounded.

use vstd::prelude::*;
use vstd::slice::slice_subrange;
use vstd::utf8::encode_utf8;
use vstd::string::StringSliceAdditionalSpecFns;
use crate::cipher::CipherKey;
use crate::cipher::spec_derive_key;
use crate::error::Error;
use crate::format::EntryMeta;
use crate::format::EntryMetaView;
use crate::format::FileDataView;
use crate::format::MAX_NAME_BYTES;
use crate::format::spec_archive_stream;
use crate::format::spec_metas_view;
use crate::format::spec_parse_archive;
use crate::options::CompressOptions;
use crate::options::CompressionLevel;
use crate::options::StreamOptions;
use crate::options::spec_effective_chunk_size;
use crate::options::spec_stream_config_ok;
use crate::reader::parse_archive;
use crate::reader::spec_datas_view;
use crate::writer::ArchiveWriter;
use crate::writer::spec_concat;

verus! {

/// One input or output file of the engine, held in memory: the name, the
/// contents and the pass-through metadata.
pub struct FileData {
    /// Relative path, UTF-8, unique within an archive.
    pub name: String,
    /// File contents; empty for a directory.
    pub data: Vec<u8>,
    /// Seconds since the epoch.
    pub modified_time: u64,
    /// Opaque platform attribute bits, passed through unmodified.
    pub attributes: u32,
    /// Whether this is a directory.
    pub is_directory: bool,
}

impl View for FileData {
    type V = FileDataView;

    open spec fn view(&self) -> FileDataView {
        FileDataView {
            name: self.name@,
            data: self.data@,
            modified_time: self.modified_time,
            attributes: self.attributes,
            is_directory: self.is_directory,
        }
    }
}

/// The model of an archive entry listing.
pub ghost struct ArchiveEntryView {
    pub name: Seq<char>,
    pub size: u64,
    pub packed_size: u64,
    pub modified_time: u64,
    pub attributes: u32,
    pub is_directory: bool,
}

/// Archive entry information, as `list` reports it.
#[derive(Debug, Clone)]
pub struct ArchiveEntry {
    /// File name (UTF-8)
    pub name: String,
    /// Uncompressed size in bytes
    pub size: u64,
    /// Compressed size in bytes
    pub packed_size: u64,
    /// Unix timestamp of last modification
    pub modified_time: u64,
    /// File attributes
    pub attributes: u32,
    /// True if this is a directory
    pub is_directory: bool,
}

impl View for ArchiveEntry {
    type V = ArchiveEntryView;

    open spec fn view(&self) -> ArchiveEntryView {
        ArchiveEntryView {
            name: self.name@,
            size: self.size,
            packed_size: self.packed_size,
            modified_time: self.modified_time,
            attributes: self.attributes,
            is_directory: self.is_directory,
        }
    }
}

/// The listing an index record stands for.
pub open spec fn spec_entry_of_meta(m: EntryMetaView) -> ArchiveEntryView {
    ArchiveEntryView {
        name: m.name,
        size: m.size,
        packed_size: m.packed_size,
        modified_time: m.modified_time,
        attributes: m.attributes,
        is_directory: m.is_directory,
    }
}

/// One entry's verification outcome in test mode.
pub struct EntryTestReport {
    /// The entry's name.
    pub name: String,
    /// Whether every chunk decoded and the length and checksum matched.
    pub ok: bool,
}

/// The models of a file vector.
pub open spec fn spec_files_view(fs: Seq<FileData>) -> Seq<FileDataView> {
    fs.map(|i: int, f: FileData| f@)
}

/// The models of a volume vector.
pub open spec fn spec_vols_view(vs: Seq<Vec<u8>>) -> Seq<Seq<u8>> {
    vs.map(|i: int, v: Vec<u8>| v@)
}

/// Total input length of a file set.
pub open spec fn spec_total_len(fs: Seq<FileDataView>) -> nat
    decreases fs.len(),
{
    if fs.len() == 0 {
        0
    } else {
        fs[0].data.len() + spec_total_len(fs.skip(1))
    }
}

/// The total length splits at any point.
pub proof fn lemma_total_len_split(fs: Seq<FileDataView>, i: int)
    requires
        0 <= i <= fs.len(),
    ensures
        spec_total_len(fs) == spec_total_len(fs.take(i)) + spec_total_len(fs.skip(i)),
    decreases i,
{
    if i == 0 {
        assert(fs.take(0) =~= Seq::<FileDataView>::empty());
        assert(fs.skip(0) =~= fs);
    } else {
        assert(fs.take(i)[0] == fs[0]);
        assert(fs.take(i).skip(1) =~= fs.skip(1).take(i - 1));
        assert(fs.skip(i) =~= fs.skip(1).skip(i - 1));
        lemma_total_len_split(fs.skip(1), i - 1);
    }
}

/// The encryption material of a run: the salt and the derived key.
pub open spec fn spec_enc_of(password: Option<String>, salt: Seq<u8>) -> Option<
    (Seq<u8>, CipherKey),
> {
    match password {
        None => None,
        Some(p) => Some((salt, spec_derive_key(encode_utf8(p@), salt))),
    }
}

/// Every file the engine accepts: name within the index limit, directories
/// empty.
pub open spec fn spec_files_ok(fs: Seq<FileDataView>) -> bool {
    forall|i: int| #![trigger fs[i]]
        0 <= i < fs.len() ==> encode_utf8(fs[i].name).len() <= MAX_NAME_BYTES && (
        fs[i].is_directory ==> fs[i].data.len() == 0)
}

/// Per-file engine size limit: seventeen times the length must fit the
/// packed-size field.
pub const MAX_FILE_LEN: u64 = 0x0f0f0f0f0f0f0f0f;

/// Every size the engine accepts: each file within the per-file limit, the
/// total leaving headroom in the progress counter.
pub open spec fn spec_sizes_ok(fs: Seq<FileDataView>) -> bool {
    &&& forall|i: int| #![trigger fs[i]] 0 <= i < fs.len() ==> fs[i].data.len() <= MAX_FILE_LEN
    &&& spec_total_len(fs) + 2 <= u64::MAX
}

/// Main archive engine interface over in-memory volumes.
pub struct SevenZip {
    _initialized: bool,
}

impl SevenZip {
    /// Create a new engine instance.
    pub fn new() -> (r: Result<Self, Error>)
        ensures
            r is Ok,
    {
        Ok(SevenZip { _initialized: true })
    }
}

/// Concatenate volumes into the logical archive stream.
pub fn concat_volumes(volumes: &Vec<Vec<u8>>) -> (r: Vec<u8>)
    ensures
        r@ == spec_concat(spec_vols_view(volumes@)),
{
    let ghost vv = spec_vols_view(volumes@);
    let mut out: Vec<u8> = Vec::new();
    let mut i: usize = 0;
    proof {
        assert(vv.skip(0) =~= vv);
        assert(out@ + spec_concat(vv) =~= spec_concat(vv));
    }
    while i < volumes.len()
        invariant
            i <= volumes@.len(),
            vv == spec_vols_view(volumes@),
            vv.len() == volumes@.len(),
            spec_concat(vv) == out@ + spec_concat(vv.skip(i as int)),
        decreases volumes@.len() - i,
    {
        proof {
            assert(vv.skip(i as int)[0] == vv[i as int]);
            assert(vv[i as int] == volumes@[i as int]@);
            assert(vv.skip(i as int).skip(1) =~= vv.skip(i as int + 1));
        }
        out.extend_from_slice(volumes[i].as_slice());
        proof {
            assert(out@ + spec_concat(vv.skip(i as int + 1)) =~= spec_concat(vv));
        }
        i = i + 1;
    }
    proof {
        assert(vv.skip(i as int) =~= Seq::<Seq<u8>>::empty());
        assert(out@ + Seq::<u8>::empty() =~= out@);
    }
    out
}

} // verus!

verus! {

impl SevenZip {
    /// Create an archive from in-memory files with streaming options,
    /// returning the volumes in order.
    ///
    /// The `salt` is caller-supplied entropy for the key derivation; it
    /// must be 16 bytes when a password is configured and is ignored
    /// otherwise.  The concatenation of the returned volumes is exactly
    /// the encoded archive of the given files; with a split threshold,
    /// every volume except possibly the last stays within it.
    ///
    /// `UnsupportedConfig` exactly when the chunk/split pair is not
    /// supported; `InvalidParameter` exactly when the salt is missing its
    /// length or a file breaks the name or directory rules;
    /// `ResourceExhausted` exactly when a file or the total input exceeds
    /// the engine's size limits.
    #[verifier::rlimit(100)]
    #[verifier::spinoff_prover]
    pub fn create_archive_streaming(
        &self,
        files: &Vec<FileData>,
        level: CompressionLevel,
        options: &StreamOptions,
        salt: Vec<u8>,
    ) -> (r: Result<Vec<Vec<u8>>, Error>)
        ensures
            match r {
                Ok(vols) => {
                    &&& spec_stream_config_ok(options.chunk_size, options.split_size)
                    &&& (options.password is Some ==> salt@.len() == 16)
                    &&& spec_files_ok(spec_files_view(files@))
                    &&& spec_sizes_ok(spec_files_view(files@))
                    &&& spec_concat(spec_vols_view(vols@)) == spec_archive_stream(
                        spec_files_view(files@),
                        level,
                        spec_effective_chunk_size(options.chunk_size),
                        spec_enc_of(options.password, salt@),
                    )
                    &&& vols@.len() >= 1
                    &&& (options.split_size > 0 ==> forall|i: int|
                        0 <= i < vols@.len() - 1 ==> #[trigger] spec_vols_view(vols@)[i].len()
                            <= options.split_size)
                },
                Err(e) => {
                    ||| (e == Error::UnsupportedConfig && !spec_stream_config_ok(
                        options.chunk_size,
                        options.split_size,
                    ))
                    ||| (e == Error::InvalidParameter && spec_stream_config_ok(
                        options.chunk_size,
                        options.split_size,
                    ) && ((options.password is Some && salt@.len() != 16) || !spec_files_ok(
                        spec_files_view(files@),
                    )))
                    ||| (e == Error::ResourceExhausted && spec_stream_config_ok(
                        options.chunk_size,
                        options.split_size,
                    ) && (options.password is Some ==> salt@.len() == 16) && spec_files_ok(
                        spec_files_view(files@),
                    ) && !spec_sizes_ok(spec_files_view(files@)))
                },
            },
    {
        let ghost fv = spec_files_view(files@);
        proof {
            assert(fv.len() == files@.len());
        }
        if !crate::options::stream_config_ok(options.chunk_size, options.split_size) {
            return Err(Error::UnsupportedConfig);
        }
        match &options.password {
            Some(p) => {
                if salt.len() != 16 {
                    return Err(Error::InvalidParameter);
                }
            },
            None => {},
        }
        let mut i: usize = 0;
        while i < files.len()
            invariant
                i <= files@.len(),
                fv == spec_files_view(files@),
                fv.len() == files@.len(),
                spec_stream_config_ok(options.chunk_size, options.split_size),
                options.password is Some ==> salt@.len() == 16,
                forall|k: int| #![trigger fv[k]]
                    0 <= k < i ==> encode_utf8(fv[k].name).len() <= MAX_NAME_BYTES && (
                    fv[k].is_directory ==> fv[k].data.len() == 0),
            decreases files@.len() - i,
        {
            proof {
                assert(fv[i as int] == files@[i as int]@);
            }
            let f = &files[i];
            let name_len = f.name.as_str().as_bytes().len();
            proof {
                assert(name_len == encode_utf8(fv[i as int].name).len());
            }
            if name_len > MAX_NAME_BYTES || (f.is_directory && f.data.len() > 0) {
                proof {
                    assert(encode_utf8(fv[i as int].name).len() > MAX_NAME_BYTES || (fv[
                        i as int
                    ].is_directory && fv[i as int].data.len() > 0));
                }
                return Err(Error::InvalidParameter);
            }
            proof {
                assert(encode_utf8(fv[i as int].name).len() <= MAX_NAME_BYTES);
                assert(fv[i as int].is_directory ==> fv[i as int].data.len() == 0);
            }
            i = i + 1;
        }
        let mut total: u64 = 0;
        let mut i: usize = 0;
        while i < files.len()
            invariant
                i <= files@.len(),
                fv == spec_files_view(files@),
                fv.len() == files@.len(),
                spec_stream_config_ok(options.chunk_size, options.split_size),
                options.password is Some ==> salt@.len() == 16,
                spec_files_ok(fv),
                total == spec_total_len(fv.take(i as int)),
                total + 2 <= u64::MAX,
                forall|k: int| #![trigger fv[k]] 0 <= k < i ==> fv[k].data.len() <= MAX_FILE_LEN,
            decreases files@.len() - i,
        {
            proof {
                assert(fv[i as int] == files@[i as int]@);
                assert(fv.skip(i as int)[0] == fv[i as int]);
                lemma_total_len_split(fv, i as int);
            }
            let l = files[i].data.len() as u64;
            if l > MAX_FILE_LEN {
                proof {
                    assert(fv[i as int].data.len() > MAX_FILE_LEN);
                }
                return Err(Error::ResourceExhausted);
            }
            if l > u64::MAX - 2 - total {
                proof {
                    assert(spec_total_len(fv) >= spec_total_len(fv.take(i as int))
                        + fv[i as int].data.len());
                    assert(spec_total_len(fv) + 2 > u64::MAX);
                }
                return Err(Error::ResourceExhausted);
            }
            total = total + l;
            proof {
                reveal_with_fuel(spec_total_len, 3);
                reveal_with_fuel(spec_total_len, 3);
                lemma_total_len_split(fv.take(i as int + 1), i as int);
                assert(fv.take(i as int + 1).take(i as int) =~= fv.take(i as int));
                assert(fv.take(i as int + 1).skip(i as int) =~= seq![fv[i as int]]);
                assert(seq![fv[i as int]].skip(1) =~= Seq::<FileDataView>::empty());
                assert(spec_total_len(seq![fv[i as int]]) == fv[i as int].data.len());
            }
            i = i + 1;
        }
        proof {
            assert(fv.take(files@.len() as int) =~= fv);
            assert(spec_files_ok(fv));
            assert(spec_sizes_ok(fv));
        }
        let password_ref: Option<&str> = match &options.password {
            None => None,
            Some(p) => Some(p.as_str()),
        };
        let wres = ArchiveWriter::new(
            level,
            options.chunk_size,
            options.split_size,
            password_ref,
            salt,
            total,
        );
        let (mut w, op0) = match wres {
            Ok(x) => x,
            Err(e) => {
                proof {
                    assert(false);
                }
                return Err(e);
            },
        };
        let ghost key0 = w.key;
        let ghost salt0 = w.salt@;
        let ghost chunk = w.chunk_size;
        proof {
            assert(key0 == (match spec_enc_of(options.password, salt0) {
                None => None::<CipherKey>,
                Some((s, k)) => Some(k),
            }));
        }
        let mut volumes: Vec<Vec<u8>> = Vec::new();
        volumes.push(op0.bytes);
        proof {
            assert(spec_vols_view(volumes@) =~= w.volumes@);
        }
        proof {
            assert(w.files@ =~= fv.take(0));
            assert(w.bytes_done == spec_total_len(fv.take(0))) by {
                assert(fv.take(0) =~= Seq::<FileDataView>::empty());
            }
        }
        let chunk_usize = w.chunk_size as usize;
        let mut i: usize = 0;
        while i < files.len()
            invariant
                i <= files@.len(),
                fv == spec_files_view(files@),
                fv.len() == files@.len(),
                spec_stream_config_ok(options.chunk_size, options.split_size),
                options.password is Some ==> salt@.len() == 16,
                spec_files_ok(fv),
                spec_sizes_ok(fv),
                total == spec_total_len(fv),
                total + 2 <= u64::MAX,
                w.wf(),
                w.complete@,
                w.cur is None,
                w.level == level,
                w.chunk_size == chunk,
                chunk_usize == chunk,
                w.split_size == options.split_size,
                w.key == key0,
                w.salt@ == salt0,
                w.files@ == fv.take(i as int),
                w.bytes_done == spec_total_len(fv.take(i as int)),
                spec_vols_view(volumes@) == w.volumes@,
                volumes@.len() >= 1,
            decreases files@.len() - i,
        {
            proof {
                assert(fv[i as int] == files@[i as int]@);
                assert(encode_utf8(fv[i as int].name).len() <= MAX_NAME_BYTES);
                assert(fv[i as int].is_directory ==> fv[i as int].data.len() == 0);
            }
            let f = &files[i];
            let bres = w.begin_entry(
                f.name.as_str(),
                f.data.len() as u64,
                f.modified_time,
                f.attributes,
                f.is_directory,
            );
            match bres {
                Ok(()) => {},
                Err(e) => {
                    proof {
                        assert(false);
                    }
                    return Err(e);
                },
            }
            let data = &f.data;
            let mut off: usize = 0;
            proof {
                assert(data@.take(0) =~= Seq::<u8>::empty());
                assert(w.cur_data@ =~= data@.take(0));
                lemma_total_len_split(fv, i as int);
                assert(fv.skip(i as int)[0] == fv[i as int]);
                assert(spec_total_len(fv.skip(i as int)) >= fv[i as int].data.len());
            }
            while off < data.len()
                invariant
                    off <= data@.len(),
                    data@ == files@[i as int].data@,
                    i < files@.len(),
                    fv == spec_files_view(files@),
                    fv.len() == files@.len(),
                    fv[i as int] == files@[i as int]@,
                    spec_files_ok(fv),
                    spec_sizes_ok(fv),
                    total == spec_total_len(fv),
                    total + 2 <= u64::MAX,
                    spec_total_len(fv.take(i as int)) + spec_total_len(fv.skip(i as int))
                        == total,
                    spec_total_len(fv.skip(i as int)) >= fv[i as int].data.len(),
                    w.wf(),
                    w.complete@,
                    w.cur is Some,
                    w.cur.unwrap().name@ == files@[i as int].name@,
                    w.cur.unwrap().modified_time == files@[i as int].modified_time,
                    w.cur.unwrap().attributes == files@[i as int].attributes,
                    w.cur.unwrap().is_directory == files@[i as int].is_directory,
                    w.cur.unwrap().size_so_far == off,
                    w.level == level,
                    w.chunk_size == chunk,
                    chunk_usize == chunk,
                    w.split_size == options.split_size,
                    w.key == key0,
                    w.salt@ == salt0,
                    w.files@ == fv.take(i as int),
                    w.cur_data@ == data@.take(off as int),
                    off % chunk_usize == 0 || off == data@.len(),
                    w.bytes_done == spec_total_len(fv.take(i as int)) + off,
                    spec_vols_view(volumes@) == w.volumes@,
                    volumes@.len() >= 1,
                decreases data@.len() - off,
            {
                proof {
                    assert(off % chunk_usize == 0);
                }
                let end = if data.len() - off > chunk_usize {
                    off + chunk_usize
                } else {
                    data.len()
                };
                let chunk_slice = slice_subrange(data.as_slice(), off, end);
                proof {
                    assert(chunk_slice@ =~= data@.subrange(off as int, end as int));
                    assert(files@[i as int].is_directory ==> data@.len() == 0);
                    assert(!w.cur.unwrap().is_directory);
                    assert(w.bytes_done + (end - off) <= total) by {
                        assert(spec_total_len(fv.take(i as int)) + end <= spec_total_len(
                            fv.take(i as int),
                        ) + fv[i as int].data.len());
                    }
                    assert(fv[i as int].data.len() <= MAX_FILE_LEN);
                    assert(17 * MAX_FILE_LEN == u64::MAX);
                    assert((w.cur.unwrap().size_so_far + (end - off)) * 17 <= u64::MAX);
                }
                let ghost old_vols = w.volumes@;
                let ghost old_vol_count = volumes@.len();
                let op = w.push_chunk(chunk_slice);
                if op.volume_index as usize == volumes.len() {
                    volumes.push(op.bytes);
                    proof {
                        assert(w.volume_index + 1 == w.volumes@.len());
                        assert(spec_vols_view(volumes@) =~= w.volumes@);
                    }
                } else {
                    let lastv = volumes.pop();
                    let mut lastv = match lastv {
                        Some(v) => v,
                        None => {
                            proof {
                                assert(false);
                            }
                            return Err(Error::IoError);
                        },
                    };
                    let mut b = op.bytes;
                    lastv.append(&mut b);
                    volumes.push(lastv);
                    proof {
                        assert(spec_vols_view(volumes@) =~= w.volumes@);
                    }
                }
                proof {
                    assert(data@.take(off as int) + chunk_slice@ =~= data@.take(end as int));
                    if end != data@.len() {
                        assert(end == off + chunk_usize);
                        assert(end % chunk_usize == 0) by (nonlinear_arith)
                            requires
                                off % chunk_usize == 0,
                                end == off + chunk_usize,
                                chunk_usize > 0,
                        ;
                    }
                }
                off = end;
            }
            proof {
                assert(data@.take(off as int) =~= data@);
                if data@.len() % (chunk as nat) != 0 {
                }
            }
            w.end_entry();
            proof {
                assert(w.files@ =~= fv.take(i as int + 1)) by {
                    assert(fv.take(i as int).push(fv[i as int]) =~= fv.take(i as int + 1));
                }
                reveal_with_fuel(spec_total_len, 3);
                lemma_total_len_split(fv.take(i as int + 1), i as int);
                assert(fv.take(i as int + 1).take(i as int) =~= fv.take(i as int));
                assert(fv.take(i as int + 1).skip(i as int) =~= seq![fv[i as int]]);
                assert(seq![fv[i as int]].skip(1) =~= Seq::<FileDataView>::empty());
                assert(spec_total_len(seq![fv[i as int]]) == fv[i as int].data.len());
            }
            i = i + 1;
        }
        proof {
            assert(fv.take(files@.len() as int) =~= fv);
        }
        let ghost w_final = w;
        let finished = w.finish();
        let op = finished.0;
        let ghost result_vols = finished.1@;
        if op.volume_index as usize == volumes.len() {
            volumes.push(op.bytes);
            proof {
                assert(spec_vols_view(volumes@) =~= result_vols);
            }
        } else {
            let lastv = volumes.pop();
            let mut lastv = match lastv {
                Some(v) => v,
                None => {
                    proof {
                        assert(false);
                    }
                    return Err(Error::IoError);
                },
            };
            let mut b = op.bytes;
            lastv.append(&mut b);
            volumes.push(lastv);
            proof {
                assert(spec_vols_view(volumes@) =~= result_vols);
            }
        }
        proof {
            assert(w_final.spec_enc() == spec_enc_of(options.password, salt@));
            assert(spec_concat(spec_vols_view(volumes@)) == spec_archive_stream(
                fv,
                level,
                spec_effective_chunk_size(options.chunk_size),
                spec_enc_of(options.password, salt@),
            ));
            if options.split_size > 0 {
                assert(forall|k: int|
                    0 <= k < result_vols.len() - 1 ==> #[trigger] result_vols[k].len()
                        <= options.split_size);
            }
        }
        Ok(volumes)
    }
}

} // verus!

verus! {

/// The files an archive's parsed entries stand for, when every entry
/// verified.
pub open spec fn spec_extracted(metas: Seq<EntryMetaView>, datas: Seq<Option<Seq<u8>>>) -> Seq<
    FileDataView,
> {
    metas.map(
        |i: int, m: EntryMetaView|
            FileDataView {
                name: m.name,
                data: datas[i].unwrap(),
                modified_time: m.modified_time,
                attributes: m.attributes,
                is_directory: m.is_directory,
            },
    )
}

impl SevenZip {
    /// Extract an archive's files from its volumes, with an optional
    /// password.
    ///
    /// Succeeds exactly when the stream parses, the password check passes,
    /// and every entry's chunks decode with matching length and checksum;
    /// the returned files are then byte-for-byte the archived ones.  A
    /// wrong password yields `WrongPassword` before any entry is decoded;
    /// a failing entry yields `CorruptArchive`.
    pub fn extract_with_password(
        &self,
        volumes: &Vec<Vec<u8>>,
        password: Option<&str>,
    ) -> (r: Result<Vec<FileData>, Error>)
        ensures
            match r {
                Ok(fs) => {
                    &&& spec_parse_archive(
                        spec_concat(spec_vols_view(volumes@)),
                        crate::reader::spec_password_view(password),
                    ) matches Ok((metas, datas)) && spec_files_view(fs@) == spec_extracted(
                        metas,
                        datas,
                    ) && (forall|i: int| 0 <= i < datas.len() ==> (#[trigger] datas[i]) is Some)
                        && fs@.len() == metas.len()
                },
                Err(e) => {
                    ||| spec_parse_archive(
                        spec_concat(spec_vols_view(volumes@)),
                        crate::reader::spec_password_view(password),
                    ) == Err::<(Seq<EntryMetaView>, Seq<Option<Seq<u8>>>), _>(e)
                    ||| (e == Error::CorruptArchive && (spec_parse_archive(
                        spec_concat(spec_vols_view(volumes@)),
                        crate::reader::spec_password_view(password),
                    ) matches Ok((metas, datas)) && exists|i: int|
                        0 <= i < datas.len() && (#[trigger] datas[i]) is None))
                },
            },
    {
        let stream = concat_volumes(volumes);
        let parsed = parse_archive(stream.as_slice(), password);
        let (mut metas, mut datas) = match parsed {
            Ok(p) => p,
            Err(e) => {
                return Err(e);
            },
        };
        let ghost metas0 = spec_metas_view(metas@);
        let ghost datas0 = spec_datas_view(datas@);
        let ghost target = spec_extracted(metas0, datas0);
        let mut out: Vec<FileData> = Vec::new();
        proof {
            assert(metas0.len() == metas@.len());
            assert(datas0.len() == datas@.len());
        }
        proof {
            crate::format::lemma_parse_entries_len_for(
                spec_concat(spec_vols_view(volumes@)),
                crate::reader::spec_password_view(password),
            );
            assert(datas0.len() == metas0.len());
        }
        while metas.len() > 0
            invariant
                datas@.len() == metas@.len(),
                out@.len() + metas@.len() == metas0.len(),
                metas0.len() == datas0.len(),
                spec_parse_archive(
                    spec_concat(spec_vols_view(volumes@)),
                    crate::reader::spec_password_view(password),
                ) == Ok::<(Seq<EntryMetaView>, Seq<Option<Seq<u8>>>), Error>((metas0, datas0)),
                target == spec_extracted(metas0, datas0),
                target.len() == metas0.len(),
                spec_metas_view(metas@) == metas0.skip(out@.len() as int),
                spec_datas_view(datas@) == datas0.skip(out@.len() as int),
                forall|i: int|
                    0 <= i < out@.len() ==> (#[trigger] datas0[i]) is Some && out@[i]@
                        == target[i],
            decreases metas@.len(),
        {
            let ghost k = out@.len() as int;
            let ghost prev_m = metas@;
            let ghost prev_d = datas@;
            proof {
                assert(spec_metas_view(metas@)[0] == metas@[0]@);
                assert(metas0.skip(k)[0] == metas0[k]);
                assert(spec_datas_view(datas@)[0] == crate::reader::spec_opt_view(datas@[0]));
                assert(datas0.skip(k)[0] == datas0[k]);
            }
            let m = metas.remove(0);
            let d = datas.remove(0);
            let v = match d {
                Some(v) => v,
                None => {
                    proof {
                        assert(datas0[k] is None);
                        let parsed_spec = spec_parse_archive(
                            spec_concat(spec_vols_view(volumes@)),
                            crate::reader::spec_password_view(password),
                        );
                        assert(parsed_spec == Ok::<_, Error>((metas0, datas0)));
                        assert(0 <= k < parsed_spec.unwrap().1.len() && parsed_spec.unwrap().1[k]
                            is None);
                    }
                    return Err(Error::CorruptArchive);
                },
            };
            let ghost old_out = out@;
            out.push(
                FileData {
                    name: m.name,
                    data: v,
                    modified_time: m.modified_time,
                    attributes: m.attributes,
                    is_directory: m.is_directory,
                },
            );
            proof {
                assert(out@[k]@ == target[k]) by {
                    assert(target[k] == (FileDataView {
                        name: metas0[k].name,
                        data: datas0[k].unwrap(),
                        modified_time: metas0[k].modified_time,
                        attributes: metas0[k].attributes,
                        is_directory: metas0[k].is_directory,
                    }));
                }
                assert(metas@ =~= prev_m.skip(1));
                assert(datas@ =~= prev_d.skip(1));
                assert(spec_metas_view(prev_m.skip(1)) =~= spec_metas_view(prev_m).skip(1));
                assert(spec_datas_view(prev_d.skip(1)) =~= spec_datas_view(prev_d).skip(1));
                assert(metas0.skip(k).skip(1) =~= metas0.skip(k + 1));
                assert(datas0.skip(k).skip(1) =~= datas0.skip(k + 1));
                assert(forall|i: int|
                    0 <= i < out@.len() ==> (#[trigger] datas0[i]) is Some && out@[i]@
                        == target[i]) by {
                    assert(forall|i: int| 0 <= i < old_out.len() ==> #[trigger] out@[i]
                        == old_out[i]);
                }
            }
        }
        proof {
            assert(spec_files_view(out@) =~= target);
        }
        Ok(out)
    }

    /// Extract an archive without a password.
    pub fn extract(&self, volumes: &Vec<Vec<u8>>) -> (r: Result<Vec<FileData>, Error>)
        ensures
            match r {
                Ok(fs) => {
                    &&& spec_parse_archive(spec_concat(spec_vols_view(volumes@)), None) matches Ok(
                        (metas, datas),
                    ) && spec_files_view(fs@) == spec_extracted(metas, datas) && fs@.len()
                        == metas.len()
                },
                Err(e) => {
                    ||| spec_parse_archive(spec_concat(spec_vols_view(volumes@)), None) == Err::<
                        (Seq<EntryMetaView>, Seq<Option<Seq<u8>>>),
                        _,
                    >(e)
                    ||| (e == Error::CorruptArchive && (spec_parse_archive(
                        spec_concat(spec_vols_view(volumes@)),
                        None,
                    ) matches Ok((metas, datas)) && exists|i: int|
                        0 <= i < datas.len() && (#[trigger] datas[i]) is None))
                },
            },
    {
        self.extract_with_password(volumes, None)
    }

    /// Test an archive: decode and verify every entry without producing
    /// files.
    ///
    /// Each entry is reported with its own outcome, so corrupt entries do
    /// not mask reports on the rest: an entry's report is `ok` exactly
    /// when all its chunks decoded and its length and checksum matched
    /// the index record.
    pub fn test_archive(&self, volumes: &Vec<Vec<u8>>, password: Option<&str>) -> (r: Result<
        Vec<EntryTestReport>,
        Error,
    >)
        ensures
            match r {
                Ok(reports) => {
                    &&& spec_parse_archive(
                        spec_concat(spec_vols_view(volumes@)),
                        crate::reader::spec_password_view(password),
                    ) matches Ok((metas, datas)) && reports@.len() == metas.len() && (forall|
                        i: int,
                    |
                        0 <= i < metas.len() ==> (#[trigger] reports@[i]).name@ == metas[i].name
                            && reports@[i].ok == (datas[i] is Some))
                },
                Err(e) => spec_parse_archive(
                    spec_concat(spec_vols_view(volumes@)),
                    crate::reader::spec_password_view(password),
                ) == Err::<(Seq<EntryMetaView>, Seq<Option<Seq<u8>>>), _>(e),
            },
    {
        let stream = concat_volumes(volumes);
        let parsed = parse_archive(stream.as_slice(), password);
        let (mut metas, mut datas) = match parsed {
            Ok(p) => p,
            Err(e) => {
                return Err(e);
            },
        };
        let ghost metas0 = spec_metas_view(metas@);
        let ghost datas0 = spec_datas_view(datas@);
        let mut reports: Vec<EntryTestReport> = Vec::new();
        proof {
            assert(metas0.len() == metas@.len());
            assert(datas0.len() == datas@.len());
        }
        proof {
            crate::format::lemma_parse_entries_len_for(
                spec_concat(spec_vols_view(volumes@)),
                crate::reader::spec_password_view(password),
            );
            assert(datas0.len() == metas0.len());
        }
        while metas.len() > 0
            invariant
                datas@.len() == metas@.len(),
                reports@.len() + metas@.len() == metas0.len(),
                metas0.len() == datas0.len(),
                spec_parse_archive(
                    spec_concat(spec_vols_view(volumes@)),
                    crate::reader::spec_password_view(password),
                ) == Ok::<(Seq<EntryMetaView>, Seq<Option<Seq<u8>>>), Error>((metas0, datas0)),
                spec_metas_view(metas@) == metas0.skip(reports@.len() as int),
                spec_datas_view(datas@) == datas0.skip(reports@.len() as int),
                forall|i: int|
                    0 <= i < reports@.len() ==> (#[trigger] reports@[i]).name@ == metas0[i].name
                        && reports@[i].ok == (datas0[i] is Some),
            decreases metas@.len(),
        {
            let ghost k = reports@.len() as int;
            let ghost prev_m = metas@;
            let ghost prev_d = datas@;
            proof {
                assert(spec_metas_view(metas@)[0] == metas@[0]@);
                assert(metas0.skip(k)[0] == metas0[k]);
                assert(spec_datas_view(datas@)[0] == crate::reader::spec_opt_view(datas@[0]));
                assert(datas0.skip(k)[0] == datas0[k]);
            }
            let m = metas.remove(0);
            let d = datas.remove(0);
            let ghost old_reports = reports@;
            let ok = match &d {
                Some(v) => true,
                None => false,
            };
            reports.push(EntryTestReport { name: m.name, ok });
            proof {
                assert(metas@ =~= prev_m.skip(1));
                assert(datas@ =~= prev_d.skip(1));
                assert(spec_metas_view(prev_m.skip(1)) =~= spec_metas_view(prev_m).skip(1));
                assert(spec_datas_view(prev_d.skip(1)) =~= spec_datas_view(prev_d).skip(1));
                assert(metas0.skip(k).skip(1) =~= metas0.skip(k + 1));
                assert(datas0.skip(k).skip(1) =~= datas0.skip(k + 1));
                assert(forall|i: int| 0 <= i < old_reports.len() ==> #[trigger] reports@[i]
                    == old_reports[i]);
            }
        }
        Ok(reports)
    }
}

} // verus!

verus! {

/// Whether a name is among the requested ones.
pub open spec fn spec_name_in(name: Seq<char>, names: Seq<Seq<char>>) -> bool {
    exists|j: int| 0 <= j < names.len() && names[j] == name
}

/// The models of a name vector.
pub open spec fn spec_names_view(ns: Seq<String>) -> Seq<Seq<char>> {
    ns.map(|i: int, n: String| n@)
}

/// The requested subset of a file sequence, in archive order.
pub open spec fn spec_select_files(fs: Seq<FileDataView>, names: Seq<Seq<char>>) -> Seq<
    FileDataView,
>
    decreases fs.len(),
{
    if fs.len() == 0 {
        Seq::empty()
    } else {
        (if spec_name_in(fs[0].name, names) {
            seq![fs[0]]
        } else {
            Seq::empty()
        }) + spec_select_files(fs.skip(1), names)
    }
}

/// Whether `name` is among `names`.
fn name_selected(name: &String, names: &Vec<String>) -> (r: bool)
    ensures
        r == spec_name_in(name@, spec_names_view(names@)),
{
    let ghost nv = spec_names_view(names@);
    let mut j: usize = 0;
    proof {
        assert(nv.len() == names@.len());
    }
    while j < names.len()
        invariant
            j <= names@.len(),
            nv == spec_names_view(names@),
            nv.len() == names@.len(),
            forall|k: int| 0 <= k < j ==> #[trigger] nv[k] != name@,
        decreases names@.len() - j,
    {
        proof {
            assert(nv[j as int] == names@[j as int]@);
        }
        if names[j] == *name {
            return true;
        }
        j = j + 1;
    }
    false
}

impl SevenZip {
    /// Extract only the named entries from an archive.
    ///
    /// The whole archive is decoded and verified as in
    /// [`Self::extract_with_password`]; of the verified files, exactly
    /// those whose names are requested are returned, in archive order.
    pub fn extract_files(
        &self,
        volumes: &Vec<Vec<u8>>,
        names: &Vec<String>,
        password: Option<&str>,
    ) -> (r: Result<Vec<FileData>, Error>)
        ensures
            match r {
                Ok(fs) => {
                    &&& spec_parse_archive(
                        spec_concat(spec_vols_view(volumes@)),
                        crate::reader::spec_password_view(password),
                    ) matches Ok((metas, datas)) && spec_files_view(fs@) == spec_select_files(
                        spec_extracted(metas, datas),
                        spec_names_view(names@),
                    )
                },
                Err(e) => {
                    ||| spec_parse_archive(
                        spec_concat(spec_vols_view(volumes@)),
                        crate::reader::spec_password_view(password),
                    ) == Err::<(Seq<EntryMetaView>, Seq<Option<Seq<u8>>>), _>(e)
                    ||| (e == Error::CorruptArchive && (spec_parse_archive(
                        spec_concat(spec_vols_view(volumes@)),
                        crate::reader::spec_password_view(password),
                    ) matches Ok((metas, datas)) && exists|i: int|
                        0 <= i < datas.len() && (#[trigger] datas[i]) is None))
                },
            },
    {
        let all = match self.extract_with_password(volumes, password) {
            Ok(fs) => fs,
            Err(e) => {
                return Err(e);
            },
        };
        let ghost all0 = spec_files_view(all@);
        let ghost nv = spec_names_view(names@);
        let mut all = all;
        let mut out: Vec<FileData> = Vec::new();
        proof {
            assert(all0.len() == all@.len());
            assert(all@ =~= all@.skip(0));
            assert(spec_files_view(all@) =~= all0.skip(0));
        }
        let ghost processed: int = 0;
        let mut i: usize = 0;
        let total = all.len();
        while all.len() > 0
            invariant
                i <= total,
                all@.len() + i == all0.len(),
                total == all0.len(),
                nv == spec_names_view(names@),
                spec_files_view(all@) == all0.skip(i as int),
                spec_select_files(all0, nv) == spec_files_view(out@) + spec_select_files(
                    all0.skip(i as int),
                    nv,
                ),
            decreases all@.len(),
        {
            let ghost prev_a = all@;
            proof {
                assert(spec_files_view(all@)[0] == all@[0]@);
                assert(all0.skip(i as int)[0] == all0[i as int]);
            }
            let f = all.remove(0);
            let selected = name_selected(&f.name, names);
            let ghost old_out = out@;
            if selected {
                out.push(f);
            }
            proof {
                assert(all@ =~= prev_a.skip(1));
                assert(spec_files_view(prev_a.skip(1)) =~= spec_files_view(prev_a).skip(1));
                assert(all0.skip(i as int).skip(1) =~= all0.skip(i as int + 1));
                assert(f@ == all0[i as int]);
                if selected {
                    assert(spec_files_view(out@) =~= spec_files_view(old_out).push(f@));
                    assert(spec_files_view(old_out) + (seq![all0[i as int]] + spec_select_files(
                        all0.skip(i as int + 1),
                        nv,
                    )) =~= spec_files_view(out@) + spec_select_files(all0.skip(i as int + 1), nv));
                } else {
                    assert(spec_files_view(out@) == spec_files_view(old_out));
                    assert(Seq::<FileDataView>::empty() + spec_select_files(
                        all0.skip(i as int + 1),
                        nv,
                    ) =~= spec_select_files(all0.skip(i as int + 1), nv));
                }
            }
            i = i + 1;
        }
        proof {
            assert(all0.skip(i as int) =~= Seq::<FileDataView>::empty());
            assert(spec_files_view(out@) + Seq::<FileDataView>::empty() =~= spec_files_view(out@));
        }
        Ok(out)
    }

    /// List an archive's entries from its volumes: metadata only, nothing
    /// decoded.
    ///
    /// A password is needed only to be verified when offered: the index
    /// itself is not encrypted.  A wrong offered password yields
    /// `WrongPassword`.
    pub fn list(&self, volumes: &Vec<Vec<u8>>, password: Option<&str>) -> (r: Result<
        Vec<ArchiveEntry>,
        Error,
    >)
        ensures
            match r {
                Ok(es) => {
                    &&& crate::format::spec_list_archive(
                        spec_concat(spec_vols_view(volumes@)),
                        crate::reader::spec_password_view(password),
                    ) matches Ok(ms) && es@.len() == ms.len() && (forall|i: int|
                        0 <= i < ms.len() ==> (#[trigger] es@[i])@ == spec_entry_of_meta(ms[i]))
                },
                Err(e) => crate::format::spec_list_archive(
                    spec_concat(spec_vols_view(volumes@)),
                    crate::reader::spec_password_view(password),
                ) == Err::<Seq<EntryMetaView>, _>(e),
            },
    {
        let stream = concat_volumes(volumes);
        let s = stream.as_slice();
        let (chunk_size, enc, hdr_len) = match crate::format::parse_header(s) {
            Ok(h) => h,
            Err(e) => {
                return Err(e);
            },
        };
        match (&enc, password) {
            (Some((salt, tb)), Some(p)) => {
                let k = crate::cipher::derive_key(p.as_bytes(), salt.as_slice());
                if !crate::cipher::check_test_block(&k, *tb) {
                    return Err(Error::WrongPassword);
                }
            },
            _ => {},
        }
        let rest = slice_subrange(s, hdr_len, s.len());
        proof {
            assert(rest@ =~= stream@.skip(hdr_len as int));
        }
        if rest.len() < 8 {
            return Err(Error::CorruptArchive);
        }
        let ilen = crate::format::read_u64_at(rest, rest.len() - 8);
        proof {
            assert(rest@.subrange(rest@.len() - 8, rest@.len() as int) =~= rest@.subrange(
                rest@.len() - 8,
                rest@.len() - 8 + 8,
            ));
        }
        if ilen > (rest.len() - 8) as u64 {
            return Err(Error::CorruptArchive);
        }
        let body_len = rest.len() - 8 - ilen as usize;
        let idx = slice_subrange(rest, body_len, rest.len() - 8);
        proof {
            assert(idx@ =~= rest@.subrange(rest@.len() - 8 - ilen, rest@.len() - 8));
        }
        let mut metas = match crate::format::parse_index(idx) {
            Ok(ms) => ms,
            Err(e) => {
                return Err(e);
            },
        };
        let ghost metas0 = spec_metas_view(metas@);
        let mut out: Vec<ArchiveEntry> = Vec::new();
        proof {
            assert(metas0.len() == metas@.len());
        }
        while metas.len() > 0
            invariant
                out@.len() + metas@.len() == metas0.len(),
                spec_metas_view(metas@) == metas0.skip(out@.len() as int),
                forall|i: int|
                    0 <= i < out@.len() ==> (#[trigger] out@[i])@ == spec_entry_of_meta(metas0[i]),
            decreases metas@.len(),
        {
            let ghost k = out@.len() as int;
            let ghost prev_m = metas@;
            proof {
                assert(spec_metas_view(metas@)[0] == metas@[0]@);
                assert(metas0.skip(k)[0] == metas0[k]);
            }
            let m = metas.remove(0);
            let ghost old_out = out@;
            out.push(
                ArchiveEntry {
                    name: m.name,
                    size: m.size,
                    packed_size: m.packed_size,
                    modified_time: m.modified_time,
                    attributes: m.attributes,
                    is_directory: m.is_directory,
                },
            );
            proof {
                assert(metas@ =~= prev_m.skip(1));
                assert(spec_metas_view(prev_m.skip(1)) =~= spec_metas_view(prev_m).skip(1));
                assert(metas0.skip(k).skip(1) =~= metas0.skip(k + 1));
                assert(forall|i: int| 0 <= i < old_out.len() ==> #[trigger] out@[i] == old_out[i]);
            }
        }
        Ok(out)
    }

    /// Create a single-volume archive from in-memory files.
    ///
    /// Equivalent to streaming creation with no splitting and the default
    /// chunk size; the returned bytes are the whole archive.
    pub fn create_archive(
        &self,
        files: &Vec<FileData>,
        level: CompressionLevel,
        options: Option<&CompressOptions>,
        salt: Vec<u8>,
    ) -> (r: Result<Vec<u8>, Error>)
        ensures
            match r {
                Ok(bytes) => {
                    &&& spec_files_ok(spec_files_view(files@))
                    &&& spec_sizes_ok(spec_files_view(files@))
                    &&& bytes@ == spec_archive_stream(
                        spec_files_view(files@),
                        level,
                        crate::options::DEFAULT_CHUNK_SIZE,
                        spec_enc_of(
                            match options {
                                None => None,
                                Some(o) => o.password,
                            },
                            salt@,
                        ),
                    )
                },
                Err(e) => {
                    ||| (e == Error::InvalidParameter && ((options matches Some(o) && o.password
                        is Some && salt@.len() != 16) || !spec_files_ok(spec_files_view(files@))))
                    ||| (e == Error::ResourceExhausted && !spec_sizes_ok(spec_files_view(files@)))
                },
            },
    {
        let password: Option<String> = match options {
            None => None,
            Some(o) => match &o.password {
                None => None,
                Some(p) => Some(p.clone()),
            },
        };
        let stream_options = StreamOptions {
            num_threads: match options {
                None => 0,
                Some(o) => o.num_threads,
            },
            dict_size: match options {
                None => 0,
                Some(o) => o.dict_size,
            },
            solid: match options {
                None => true,
                Some(o) => o.solid,
            },
            password,
            split_size: 0,
            chunk_size: 0,
            temp_dir: None,
            delete_temp_on_error: true,
        };
        let vols = match self.create_archive_streaming(files, level, &stream_options, salt) {
            Ok(v) => v,
            Err(e) => {
                proof {
                    assert(spec_stream_config_ok(0, 0));
                }
                return Err(e);
            },
        };
        Ok(concat_volumes(&vols))
    }
}

} // verus!

verus! {

/// The single-stream container of `compress_file`: method tag, plain
/// length, payload — no entry metadata, no splitting.
pub open spec fn spec_compress_stream(level: CompressionLevel, data: Seq<u8>) -> Seq<u8> {
    seq![crate::codec::spec_compress_chunk(level, data).0] + vstd::bytes::spec_u64_to_le_bytes(
        data.len() as u64,
    ) + crate::codec::spec_compress_chunk(level, data).1
}

/// The decoding of a single-stream container; `None` when it is torn, its
/// payload does not decode, or the decoded length does not match.
pub open spec fn spec_decompress_stream(s: Seq<u8>) -> Option<Seq<u8>> {
    if s.len() < 9 {
        None
    } else {
        let n = vstd::bytes::spec_u64_from_le_bytes(s.subrange(1, 9));
        match crate::codec::spec_decode_payload(s[0], s.skip(9)) {
            None => None,
            Some(v) => if v.len() == n {
                Some(v)
            } else {
                None
            },
        }
    }
}

/// Decompressing a compressed single stream returns the original bytes.
pub proof fn lemma_compress_stream_round_trip(level: CompressionLevel, data: Seq<u8>)
    requires
        data.len() <= u64::MAX,
    ensures
        spec_decompress_stream(spec_compress_stream(level, data)) == Some(data),
{
    vstd::bytes::lemma_auto_spec_u64_to_from_le_bytes();
    crate::codec::lemma_compress_chunk_ok(level, data);
    let s = spec_compress_stream(level, data);
    let payload = crate::codec::spec_compress_chunk(level, data).1;
    assert(s.len() == 9 + payload.len());
    assert(s[0] == crate::codec::spec_compress_chunk(level, data).0);
    assert(s.subrange(1, 9) =~= vstd::bytes::spec_u64_to_le_bytes(data.len() as u64));
    assert(s.skip(9) =~= payload);
}

impl SevenZip {
    /// Compress a single byte stream, with no entry metadata or splitting.
    pub fn compress_file(&self, data: &[u8], level: CompressionLevel) -> (r: Vec<u8>)
        ensures
            r@ == spec_compress_stream(level, data@),
    {
        let (method, payload) = crate::codec::compress_chunk(level, data);
        let mut out: Vec<u8> = Vec::new();
        out.push(method);
        let mut piece = vstd::bytes::u64_to_le_bytes(data.len() as u64);
        out.append(&mut piece);
        let mut p = payload;
        out.append(&mut p);
        proof {
            assert(out@ =~= spec_compress_stream(level, data@));
        }
        out
    }

    /// Decompress a single byte stream written by `compress_file`.
    ///
    /// `CorruptArchive` exactly when the stream does not decode to its
    /// declared length (or that length exceeds what this machine can
    /// hold).
    pub fn decompress_file(&self, data: &[u8]) -> (r: Result<Vec<u8>, Error>)
        ensures
            match r {
                Ok(v) => spec_decompress_stream(data@) == Some(v@),
                Err(e) => e == Error::CorruptArchive && (spec_decompress_stream(data@) is None
                    || spec_decompress_stream(data@).unwrap().len() > usize::MAX),
            },
    {
        if data.len() < 9 {
            return Err(Error::CorruptArchive);
        }
        let method = data[0];
        let n = crate::format::read_u64_at(data, 1);
        proof {
            assert(data@.subrange(1, 9) =~= data@.subrange(1int, 1int + 8));
        }
        if n > usize::MAX as u64 {
            return Err(Error::CorruptArchive);
        }
        let payload = slice_subrange(data, 9, data.len());
        proof {
            assert(payload@ =~= data@.skip(9));
        }
        let v = match crate::codec::decompress_chunk(method, payload, n as usize) {
            Ok(v) => v,
            Err(e) => {
                return Err(Error::CorruptArchive);
            },
        };
        if v.len() as u64 == n {
            Ok(v)
        } else {
            Err(Error::CorruptArchive)
        }
    }
}

} // verus!

verus! {

impl SevenZip {
    /// Create an archive with the chunk-at-a-time pipeline.
    ///
    /// The in-memory entry points share one bounded pipeline, so this is
    /// the same operation as [`Self::create_archive_streaming`]; a caller
    /// that cannot hold its inputs in memory feeds an
    /// [`crate::writer::ArchiveWriter`] one chunk at a time instead.
    pub fn create_archive_true_streaming(
        &self,
        files: &Vec<FileData>,
        level: CompressionLevel,
        options: &StreamOptions,
        salt: Vec<u8>,
    ) -> (r: Result<Vec<Vec<u8>>, Error>)
        ensures
            match r {
                Ok(vols) => {
                    &&& spec_stream_config_ok(options.chunk_size, options.split_size)
                    &&& (options.password is Some ==> salt@.len() == 16)
                    &&& spec_files_ok(spec_files_view(files@))
                    &&& spec_sizes_ok(spec_files_view(files@))
                    &&& spec_concat(spec_vols_view(vols@)) == spec_archive_stream(
                        spec_files_view(files@),
                        level,
                        spec_effective_chunk_size(options.chunk_size),
                        spec_enc_of(options.password, salt@),
                    )
                    &&& vols@.len() >= 1
                    &&& (options.split_size > 0 ==> forall|i: int|
                        0 <= i < vols@.len() - 1 ==> #[trigger] spec_vols_view(vols@)[i].len()
                            <= options.split_size)
                },
                Err(e) => {
                    ||| (e == Error::UnsupportedConfig && !spec_stream_config_ok(
                        options.chunk_size,
                        options.split_size,
                    ))
                    ||| (e == Error::InvalidParameter && spec_stream_config_ok(
                        options.chunk_size,
                        options.split_size,
                    ) && ((options.password is Some && salt@.len() != 16) || !spec_files_ok(
                        spec_files_view(files@),
                    )))
                    ||| (e == Error::ResourceExhausted && spec_stream_config_ok(
                        options.chunk_size,
                        options.split_size,
                    ) && (options.password is Some ==> salt@.len() == 16) && spec_files_ok(
                        spec_files_view(files@),
                    ) && !spec_sizes_ok(spec_files_view(files@)))
                },
            },
    {
        self.create_archive_streaming(files, level, options, salt)
    }

    /// Extract an archive from its volumes, decrypting with an optional
    /// password.
    ///
    /// Volumes are consumed in order, entries spanning a volume boundary
    /// transparently; the same operation as
    /// [`Self::extract_with_password`].
    pub fn extract_streaming(
        &self,
        volumes: &Vec<Vec<u8>>,
        password: Option<&str>,
    ) -> (r: Result<Vec<FileData>, Error>)
        ensures
            match r {
                Ok(fs) => {
                    &&& spec_parse_archive(
                        spec_concat(spec_vols_view(volumes@)),
                        crate::reader::spec_password_view(password),
                    ) matches Ok((metas, datas)) && spec_files_view(fs@) == spec_extracted(
                        metas,
                        datas,
                    ) && fs@.len() == metas.len()
                },
                Err(e) => {
                    ||| spec_parse_archive(
                        spec_concat(spec_vols_view(volumes@)),
                        crate::reader::spec_password_view(password),
                    ) == Err::<(Seq<EntryMetaView>, Seq<Option<Seq<u8>>>), _>(e)
                    ||| (e == Error::CorruptArchive && (spec_parse_archive(
                        spec_concat(spec_vols_view(volumes@)),
                        crate::reader::spec_password_view(password),
                    ) matches Ok((metas, datas)) && exists|i: int|
                        0 <= i < datas.len() && (#[trigger] datas[i]) is None))
                },
            },
    {
        self.extract_with_password(volumes, password)
    }
}

} // verus!
