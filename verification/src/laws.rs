//! The engine's end-to-end guarantees, stated and proved once over the
//! models that the executable functions' contracts speak of.

use vstd::prelude::*;
use vstd::utf8::encode_utf8;
use crate::cipher::CipherKey;
use crate::cipher::spec_derive_key;
use crate::cipher::spec_test_block;
use crate::cipher::spec_test_block_ok;
use crate::error::Error;
use crate::format::FileDataView;
use crate::format::spec_archive_stream;
use crate::format::spec_datas_of_files;
use crate::format::spec_encode_index;
use crate::format::spec_metas_of_files;
use crate::format::spec_parse_archive;
use crate::format::spec_parse_header;
use crate::format::spec_wf_files;
use crate::format::lemma_archive_round_trip;
use crate::format::lemma_parse_header_round_trip;
use crate::archive::spec_extracted;
use crate::options::CompressionLevel;
use crate::options::MAX_CHUNK_SIZE;

verus! {

/// Round trip: extracting a created archive returns the input file set,
/// byte for byte, names, times, attributes and directory structure
/// included — with or without a password, whatever the level and chunk
/// size.
///
/// `create` guarantees that the concatenation of its volumes is
/// `spec_archive_stream` of the inputs, and `extract` that its result is
/// `spec_parse_archive` of that concatenation; this law closes the loop
/// between the two.
pub proof fn lemma_create_extract_round_trip(
    files: Seq<FileDataView>,
    level: CompressionLevel,
    chunk_size: u64,
    enc: Option<(Seq<u8>, CipherKey)>,
    password: Option<Seq<u8>>,
)
    requires
        spec_wf_files(files, chunk_size),
        1 <= chunk_size <= MAX_CHUNK_SIZE,
        spec_encode_index(spec_metas_of_files(files, level, chunk_size, enc is Some)).len()
            <= u64::MAX,
        match enc {
            None => password is None,
            Some((salt, k)) => salt.len() == 16 && password is Some && k == spec_derive_key(
                password.unwrap(),
                salt,
            ),
        },
    ensures
        spec_parse_archive(spec_archive_stream(files, level, chunk_size, enc), password)
            matches Ok((metas, datas)) && spec_extracted(metas, datas) == files && (forall|i: int|
            0 <= i < datas.len() ==> (#[trigger] datas[i]) is Some) && metas.len() == files.len(),
{
    lemma_archive_round_trip(files, level, chunk_size, enc, password);
    let metas = spec_metas_of_files(files, level, chunk_size, enc is Some);
    let datas = spec_datas_of_files(files);
    assert(metas.len() == files.len());
    assert(datas.len() == files.len());
    assert(forall|i: int| 0 <= i < datas.len() ==> (#[trigger] datas[i]) is Some) by {
        assert(forall|i: int|
            0 <= i < files.len() ==> #[trigger] datas[i] == Some(files[i].data));
    }
    assert(spec_extracted(metas, datas) =~= files);
}

/// Password correctness: an archive created with a password refuses
/// extraction and testing under any password whose derived key fails the
/// stored test block — and under no password at all — with
/// `WrongPassword`, before any index or entry data is touched.
///
/// (A candidate password is accepted only when its derived key decrypts
/// the test block to the known pattern; for the creating password that is
/// guaranteed, and the check runs before any bulk decryption either way.)
pub proof fn lemma_wrong_password_rejected(
    files: Seq<FileDataView>,
    level: CompressionLevel,
    chunk_size: u64,
    salt: Seq<u8>,
    key: CipherKey,
    attempt: Option<Seq<u8>>,
)
    requires
        salt.len() == 16,
        match attempt {
            None => true,
            Some(p) => !spec_test_block_ok(spec_derive_key(p, salt), spec_test_block(key)),
        },
    ensures
        spec_parse_archive(
            spec_archive_stream(files, level, chunk_size, Some((salt, key))),
            attempt,
        ) == Err::<(Seq<crate::format::EntryMetaView>, Seq<Option<Seq<u8>>>), Error>(
            Error::WrongPassword,
        ),
{
    let hdr_enc = Some((salt, spec_test_block(key)));
    let s = spec_archive_stream(files, level, chunk_size, Some((salt, key)));
    let body = crate::format::spec_files_frames(files, level, chunk_size, Some(key), 0);
    let index = spec_encode_index(spec_metas_of_files(files, level, chunk_size, true));
    let trailer = vstd::bytes::spec_u64_to_le_bytes(index.len() as u64);
    let hdr = crate::format::spec_encode_header(chunk_size, hdr_enc);
    assert(s == hdr + body + index + trailer);
    assert(hdr + body + index + trailer =~= hdr + (body + index + trailer));
    lemma_parse_header_round_trip(chunk_size, hdr_enc, body + index + trailer);
    let h = spec_parse_header(s).unwrap();
    assert(h.enc == hdr_enc);
}

} // verus!
