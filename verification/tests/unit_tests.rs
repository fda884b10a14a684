use seven_zip::cipher;
use seven_zip::AES_BLOCK_SIZE;
use seven_zip::AES_KEY_SIZE;
use seven_zip::AES_NUM_IVMRK_WORDS;
use seven_zip::CompressOptions;
use seven_zip::CompressionLevel;
use seven_zip::SevenZip;
use seven_zip::SevenZipCompressionLevel;
use seven_zip::SevenZipErrorCode;
use seven_zip::StreamOptions;

#[test]
fn test_compression_level_conversion() {
    assert_eq!(
        SevenZipCompressionLevel::from(CompressionLevel::Normal),
        SevenZipCompressionLevel::SEVENZIP_LEVEL_NORMAL
    );
}

#[test]
fn test_default_options() {
    let opts = CompressOptions::default();
    assert_eq!(opts.num_threads, 0);
    assert!(opts.solid);
    assert!(opts.password.is_none());
}

#[test]
fn test_error_code_values() {
    assert_eq!(SevenZipErrorCode::SEVENZIP_OK.code(), 0);
    assert_eq!(SevenZipErrorCode::SEVENZIP_ERROR_OPEN_FILE.code(), 1);
    assert_eq!(SevenZipErrorCode::SEVENZIP_ERROR_UNKNOWN.code(), 99);
}

#[test]
fn test_compression_level_values() {
    assert_eq!(SevenZipCompressionLevel::SEVENZIP_LEVEL_STORE.value(), 0);
    assert_eq!(SevenZipCompressionLevel::SEVENZIP_LEVEL_NORMAL.value(), 5);
    assert_eq!(SevenZipCompressionLevel::SEVENZIP_LEVEL_ULTRA.value(), 9);
}

#[test]
fn test_aes_constants() {
    assert_eq!(AES_KEY_SIZE, 32);
    assert_eq!(AES_BLOCK_SIZE, 16);
    assert!(AES_NUM_IVMRK_WORDS > 0);
}

#[test]
fn test_stream_default_options() {
    let opts = StreamOptions::default();
    assert_eq!(opts.split_size, 0);
    assert_eq!(opts.chunk_size, 0);
    assert!(opts.delete_temp_on_error);
    assert!(opts.temp_dir.is_none());
}

#[test]
fn test_error_mapping() {
    assert_eq!(
        seven_zip::Error::from_code(SevenZipErrorCode::SEVENZIP_ERROR_INVALID_ARCHIVE),
        seven_zip::Error::CorruptArchive
    );
    assert_eq!(
        seven_zip::Error::from_code(SevenZipErrorCode::SEVENZIP_ERROR_MEMORY),
        seven_zip::Error::ResourceExhausted
    );
}

#[test]
fn test_block_cipher_round_trip() {
    let key = cipher::derive_key(b"letmein", &[7u8; 16]);
    let ct = cipher::block_encrypt((0x1122334455667788, 0x99aabbccddeeff00), &key);
    assert_ne!(ct, (0x1122334455667788, 0x99aabbccddeeff00));
    let pt = cipher::block_decrypt(ct, &key);
    assert_eq!(pt, (0x1122334455667788, 0x99aabbccddeeff00));
}

#[test]
fn test_password_test_block() {
    let key = cipher::derive_key(b"opensesame", &[3u8; 16]);
    let tb = cipher::make_test_block(&key);
    assert!(cipher::check_test_block(&key, tb));
    let other = cipher::derive_key(b"opensesame2", &[3u8; 16]);
    assert!(!cipher::check_test_block(&other, tb));
}

#[test]
fn test_chunk_encryption_round_trip() {
    let key = cipher::derive_key(b"pw", &[1u8; 16]);
    let iv = cipher::chunk_iv(&key, 5);
    let data: Vec<u8> = (0u16..300).map(|x| (x % 251) as u8).collect();
    let ct = cipher::encrypt_chunk(&key, iv, &data);
    assert_eq!(ct.len(), data.len() + 16 - data.len() % 16);
    let pt = cipher::decrypt_chunk(&key, iv, &ct).unwrap();
    assert_eq!(pt, data);
    let wrong_iv = cipher::chunk_iv(&key, 6);
    assert_ne!(cipher::decrypt_chunk(&key, wrong_iv, &ct).ok(), Some(data));
}

#[test]
fn test_checksum_known_value() {
    // FNV-1a of the empty input is the offset basis.
    assert_eq!(seven_zip::checksum::fnv64(&[]), 0xcbf29ce484222325);
    // One byte folds as (basis ^ byte) * prime.
    let expected = (0xcbf29ce484222325u64 ^ 0x61).wrapping_mul(0x100000001b3);
    assert_eq!(seven_zip::checksum::fnv64(b"a"), expected);
}

#[test]
fn test_rle_codec_round_trip() {
    let data = b"aaaaabbbcdddddddddddddddddddddddddddddddddddd".to_vec();
    let enc = seven_zip::codec::rle_encode(&data);
    assert!(enc.len() < data.len());
    let dec = seven_zip::codec::rle_decode(&enc, data.len()).unwrap();
    assert_eq!(dec, data);
}

#[test]
fn test_compress_file_exact_bytes() {
    let sz = SevenZip::new().unwrap();
    // Three equal bytes: run-length wins, one (count, byte) pair.
    let out = sz.compress_file(&[7u8, 7, 7], CompressionLevel::Fastest);
    assert_eq!(out, vec![1u8, 3, 0, 0, 0, 0, 0, 0, 0, 3, 7]);
    let back = sz.decompress_file(&out).unwrap();
    assert_eq!(back, vec![7u8, 7, 7]);
}

#[test]
fn test_compress_file_store_when_incompressible() {
    let sz = SevenZip::new().unwrap();
    let data: Vec<u8> = (0u16..256).map(|x| x as u8).collect();
    let out = sz.compress_file(&data, CompressionLevel::Ultra);
    // Method byte 0: stored, because run-length coding would not shrink it.
    assert_eq!(out[0], 0);
    assert_eq!(sz.decompress_file(&out).unwrap(), data);
}

#[test]
fn test_decompress_file_rejects_garbage() {
    let sz = SevenZip::new().unwrap();
    assert_eq!(sz.decompress_file(&[1, 2, 3]), Err(seven_zip::Error::CorruptArchive));
    // Declared length does not match the payload.
    let out = sz.compress_file(b"hello", CompressionLevel::Store);
    let mut bad = out.clone();
    bad[1] = 99;
    assert_eq!(sz.decompress_file(&bad), Err(seven_zip::Error::CorruptArchive));
}
