use seven_zip::CompressionLevel;
use seven_zip::Error;
use seven_zip::FileData;
use seven_zip::SevenZip;
use seven_zip::StreamOptions;

fn file(name: &str, data: Vec<u8>) -> FileData {
    FileData {
        name: name.to_string(),
        data,
        modified_time: 1_700_000_000,
        attributes: 0o644,
        is_directory: false,
    }
}

fn dir(name: &str) -> FileData {
    FileData {
        name: name.to_string(),
        data: Vec::new(),
        modified_time: 1_700_000_000,
        attributes: 0o755,
        is_directory: true,
    }
}

fn patterned(len: usize, seed: u8) -> Vec<u8> {
    (0..len)
        .map(|i| (i as u8).wrapping_mul(31).wrapping_add(seed))
        .collect()
}

fn assert_same_files(a: &[FileData], b: &[FileData]) {
    assert_eq!(a.len(), b.len());
    for (x, y) in a.iter().zip(b.iter()) {
        assert_eq!(x.name, y.name);
        assert_eq!(x.data, y.data);
        assert_eq!(x.modified_time, y.modified_time);
        assert_eq!(x.attributes, y.attributes);
        assert_eq!(x.is_directory, y.is_directory);
    }
}

#[test]
fn round_trip_plain() {
    let sz = SevenZip::new().unwrap();
    let files = vec![
        dir("docs"),
        file("docs/a.txt", b"hello world".to_vec()),
        file("empty.bin", Vec::new()),
        file("docs/b.bin", patterned(10_000, 3)),
    ];
    let opts = StreamOptions::default();
    let vols = sz
        .create_archive_streaming(&files, CompressionLevel::Store, &opts, Vec::new())
        .unwrap();
    assert_eq!(vols.len(), 1);
    let out = sz.extract(&vols).unwrap();
    assert_same_files(&files, &out);
}

#[test]
fn round_trip_compressed_level() {
    let sz = SevenZip::new().unwrap();
    // Long runs, so run-length coding engages at a non-store level.
    let mut data = vec![0u8; 50_000];
    data.extend_from_slice(&patterned(5_000, 9));
    let files = vec![file("runs.bin", data)];
    let opts = StreamOptions::default();
    let vols = sz
        .create_archive_streaming(&files, CompressionLevel::Normal, &opts, Vec::new())
        .unwrap();
    assert!(vols[0].len() < 40_000);
    let out = sz.extract(&vols).unwrap();
    assert_same_files(&files, &out);
}

#[test]
fn round_trip_with_password() {
    let sz = SevenZip::new().unwrap();
    let files = vec![file("secret.txt", patterned(5_000, 1))];
    let mut opts = StreamOptions::default();
    opts.password = Some("hunter2".to_string());
    let salt = vec![0xabu8; 16];
    let vols = sz
        .create_archive_streaming(&files, CompressionLevel::Normal, &opts, salt)
        .unwrap();
    let out = sz
        .extract_with_password(&vols, Some("hunter2"))
        .unwrap();
    assert_same_files(&files, &out);
}

#[test]
fn wrong_password_rejected_before_any_output() {
    let sz = SevenZip::new().unwrap();
    let files = vec![file("secret.txt", patterned(5_000, 1))];
    let mut opts = StreamOptions::default();
    opts.password = Some("right horse".to_string());
    let vols = sz
        .create_archive_streaming(&files, CompressionLevel::Store, &opts, vec![5u8; 16])
        .unwrap();
    assert_eq!(
        sz.extract_with_password(&vols, Some("wrong battery")).err(),
        Some(Error::WrongPassword)
    );
    assert_eq!(sz.extract(&vols).err(), Some(Error::WrongPassword));
    assert_eq!(
        sz.test_archive(&vols, Some("wrong battery")).err(),
        Some(Error::WrongPassword)
    );
    // The creating password still works.
    assert!(sz.extract_with_password(&vols, Some("right horse")).is_ok());
}

#[test]
fn split_volumes_respect_threshold_and_reassemble() {
    let sz = SevenZip::new().unwrap();
    let files = vec![
        file("one.bin", patterned(3_000, 1)),
        file("two.bin", patterned(3_000, 2)),
        file("three.bin", patterned(3_000, 3)),
    ];
    let mut opts = StreamOptions::default();
    opts.chunk_size = 1_024;
    opts.split_size = 2_048;
    let vols = sz
        .create_archive_streaming(&files, CompressionLevel::Store, &opts, Vec::new())
        .unwrap();
    assert!(vols.len() > 1);
    for v in vols.iter().take(vols.len() - 1) {
        assert!(v.len() as u64 <= opts.split_size);
    }
    let out = sz.extract(&vols).unwrap();
    assert_same_files(&files, &out);
}

#[test]
fn split_too_small_is_unsupported() {
    let sz = SevenZip::new().unwrap();
    let files = vec![file("a.bin", vec![1, 2, 3])];
    let mut opts = StreamOptions::default();
    opts.chunk_size = 4_096;
    opts.split_size = 4_096;
    assert_eq!(
        sz.create_archive_streaming(&files, CompressionLevel::Store, &opts, Vec::new())
            .err(),
        Some(Error::UnsupportedConfig)
    );
}

#[test]
fn bad_salt_is_invalid_parameter() {
    let sz = SevenZip::new().unwrap();
    let files = vec![file("a.bin", vec![1, 2, 3])];
    let mut opts = StreamOptions::default();
    opts.password = Some("pw".to_string());
    assert_eq!(
        sz.create_archive_streaming(&files, CompressionLevel::Store, &opts, vec![0u8; 5])
            .err(),
        Some(Error::InvalidParameter)
    );
}

#[test]
fn overlong_name_is_invalid_parameter() {
    let sz = SevenZip::new().unwrap();
    let files = vec![file(&"n".repeat(70_000), vec![1])];
    let opts = StreamOptions::default();
    assert_eq!(
        sz.create_archive_streaming(&files, CompressionLevel::Store, &opts, Vec::new())
            .err(),
        Some(Error::InvalidParameter)
    );
}

#[test]
fn directory_with_data_is_invalid_parameter() {
    let sz = SevenZip::new().unwrap();
    let mut d = dir("d");
    d.data = vec![1u8];
    let opts = StreamOptions::default();
    assert_eq!(
        sz.create_archive_streaming(&vec![d], CompressionLevel::Store, &opts, Vec::new())
            .err(),
        Some(Error::InvalidParameter)
    );
}

#[test]
fn garbage_stream_is_corrupt() {
    let sz = SevenZip::new().unwrap();
    assert_eq!(
        sz.extract(&vec![vec![0u8; 40]]).err(),
        Some(Error::CorruptArchive)
    );
    assert_eq!(sz.extract(&vec![Vec::new()]).err(), Some(Error::CorruptArchive));
}

#[test]
fn truncated_stream_is_corrupt() {
    let sz = SevenZip::new().unwrap();
    let files = vec![file("a.bin", patterned(1_000, 4))];
    let bytes = sz
        .create_archive(&files, CompressionLevel::Store, None, Vec::new())
        .unwrap();
    let cut = bytes[..bytes.len() - 5].to_vec();
    assert_eq!(sz.extract(&vec![cut]).err(), Some(Error::CorruptArchive));
}

#[test]
fn test_mode_reports_each_corrupt_entry() {
    let sz = SevenZip::new().unwrap();
    // Ten entries of 32 bytes each, store level, no password: every frame is
    // 9 + 32 bytes, directly after the 14-byte header.
    let files: Vec<FileData> = (0..10)
        .map(|i| file(&format!("e{}", i), patterned(32, i as u8)))
        .collect();
    let mut bytes = sz
        .create_archive(&files, CompressionLevel::Store, None, Vec::new())
        .unwrap();
    for corrupt_idx in [2usize, 7] {
        let payload_pos = 14 + corrupt_idx * (9 + 32) + 9 + 3;
        bytes[payload_pos] ^= 0xff;
    }
    let vols = vec![bytes];
    let reports = sz.test_archive(&vols, None).unwrap();
    assert_eq!(reports.len(), 10);
    let bad: Vec<String> = reports
        .iter()
        .filter(|r| !r.ok)
        .map(|r| r.name.clone())
        .collect();
    assert_eq!(bad, vec!["e2".to_string(), "e7".to_string()]);
    // Extraction refuses the damaged archive outright.
    assert_eq!(sz.extract(&vols).err(), Some(Error::CorruptArchive));
}

#[test]
fn extract_files_selects_by_name() {
    let sz = SevenZip::new().unwrap();
    let files = vec![
        file("keep.txt", b"keep".to_vec()),
        file("drop.txt", b"drop".to_vec()),
        file("also.txt", b"also".to_vec()),
    ];
    let vols = vec![sz
        .create_archive(&files, CompressionLevel::Store, None, Vec::new())
        .unwrap()];
    let wanted = vec!["keep.txt".to_string(), "also.txt".to_string()];
    let out = sz.extract_files(&vols, &wanted, None).unwrap();
    assert_eq!(out.len(), 2);
    assert_eq!(out[0].name, "keep.txt");
    assert_eq!(out[1].name, "also.txt");
}

#[test]
fn list_reports_metadata_without_password() {
    let sz = SevenZip::new().unwrap();
    let files = vec![file("a.bin", patterned(500, 6))];
    let mut opts = StreamOptions::default();
    opts.password = Some("pw".to_string());
    let vols = sz
        .create_archive_streaming(&files, CompressionLevel::Store, &opts, vec![9u8; 16])
        .unwrap();
    // The index is not encrypted: listing needs no password.
    let entries = sz.list(&vols, None).unwrap();
    assert_eq!(entries.len(), 1);
    assert_eq!(entries[0].name, "a.bin");
    assert_eq!(entries[0].size, 500);
    // A password that is offered is verified.
    assert_eq!(sz.list(&vols, Some("nope")).err(), Some(Error::WrongPassword));
}

#[test]
fn empty_archive_round_trip() {
    let sz = SevenZip::new().unwrap();
    let files: Vec<FileData> = Vec::new();
    let vols = vec![sz
        .create_archive(&files, CompressionLevel::Store, None, Vec::new())
        .unwrap()];
    assert!(sz.extract(&vols).unwrap().is_empty());
    assert!(sz.list(&vols, None).unwrap().is_empty());
}

#[test]
fn listing_a_200mb_store_archive_reports_exact_sizes() {
    let sz = SevenZip::new().unwrap();
    // Five files summing to 200 MiB, 64 MiB chunks, one volume, store level.
    let mb = 1024 * 1024;
    let sizes = [40 * mb, 40 * mb, 40 * mb, 40 * mb, 40 * mb];
    let files: Vec<FileData> = sizes
        .iter()
        .enumerate()
        .map(|(i, len)| file(&format!("big{}", i), vec![i as u8; *len]))
        .collect();
    let mut opts = StreamOptions::default();
    opts.chunk_size = 64 * mb as u64;
    opts.split_size = 0;
    let vols = sz
        .create_archive_streaming(&files, CompressionLevel::Store, &opts, Vec::new())
        .unwrap();
    let entries = sz.list(&vols, None).unwrap();
    assert_eq!(entries.len(), 5);
    let total: u64 = entries.iter().map(|e| e.size).sum();
    assert_eq!(total, 200 * mb as u64);
    for e in &entries {
        assert!(e.packed_size <= e.size);
        assert_eq!(e.packed_size, e.size);
    }
}

#[test]
fn progress_counters_advance_monotonically() {
    let (mut w, _op) = seven_zip::writer::ArchiveWriter::new(
        CompressionLevel::Store,
        16,
        0,
        None,
        Vec::new(),
        48,
    )
    .unwrap();
    w.begin_entry("f", 48, 0, 0, false).unwrap();
    let mut last = 0u64;
    for c in 0..3 {
        let _ = w.push_chunk(&[c as u8; 16]);
        let p = w.progress();
        assert!(p.bytes_processed > last);
        assert_eq!(p.bytes_total, 48);
        assert_eq!(p.current_file_name, "f");
        last = p.bytes_processed;
    }
    assert_eq!(last, 48);
}

#[test]
fn resume_after_interruption_is_byte_identical() {
    // An uninterrupted run over four chunks of one file.
    let chunk: usize = 16;
    let parts: Vec<Vec<u8>> = (0u8..4).map(|i| vec![i + 1; chunk]).collect();
    let run = |interrupt: bool| -> Vec<u8> {
        let (mut w, op0) = seven_zip::writer::ArchiveWriter::new(
            CompressionLevel::Normal,
            chunk as u64,
            0,
            None,
            Vec::new(),
            (4 * chunk) as u64,
        )
        .unwrap();
        let mut out = op0.bytes;
        w.begin_entry("resumable.bin", (4 * chunk) as u64, 7, 5, false)
            .unwrap();
        for p in parts.iter().take(2) {
            out.extend_from_slice(&w.push_chunk(p).bytes);
        }
        let mut w = if interrupt {
            // Persist, drop the writer, and rebuild it from the checkpoint
            // with the identical configuration.
            let cp = w.checkpoint();
            seven_zip::writer::ArchiveWriter::resume(&cp, CompressionLevel::Normal, chunk as u64, 0, None)
                .unwrap()
        } else {
            w
        };
        for p in parts.iter().skip(2) {
            out.extend_from_slice(&w.push_chunk(p).bytes);
        }
        w.end_entry();
        let (last, _) = w.finish();
        out.extend_from_slice(&last.bytes);
        out
    };
    let plain = run(false);
    let resumed = run(true);
    assert_eq!(plain, resumed);
    // Both are complete archives holding the original data.
    let sz = SevenZip::new().unwrap();
    let files = sz.extract(&vec![resumed]).unwrap();
    assert_eq!(files.len(), 1);
    let mut expect = Vec::new();
    for p in &parts {
        expect.extend_from_slice(p);
    }
    assert_eq!(files[0].data, expect);
    assert_eq!(files[0].name, "resumable.bin");
}

#[test]
fn resume_with_different_config_is_unsupported() {
    let (mut w, _op0) = seven_zip::writer::ArchiveWriter::new(
        CompressionLevel::Normal,
        16,
        0,
        None,
        Vec::new(),
        32,
    )
    .unwrap();
    w.begin_entry("f.bin", 32, 0, 0, false).unwrap();
    let _ = w.push_chunk(&[9u8; 16]);
    let cp = w.checkpoint();
    // A different chunk size, level, split threshold or password standing
    // is a fingerprint mismatch.
    for bad in [
        seven_zip::writer::ArchiveWriter::resume(&cp, CompressionLevel::Normal, 32, 0, None),
        seven_zip::writer::ArchiveWriter::resume(&cp, CompressionLevel::Ultra, 16, 0, None),
        seven_zip::writer::ArchiveWriter::resume(&cp, CompressionLevel::Normal, 16, 4096, None),
        seven_zip::writer::ArchiveWriter::resume(&cp, CompressionLevel::Normal, 16, 0, Some("pw")),
    ] {
        assert_eq!(bad.err(), Some(Error::UnsupportedConfig));
    }
    // Mangled checkpoint bytes are corrupt.
    let mut broken = cp.clone();
    broken[0] ^= 0xff;
    assert_eq!(
        seven_zip::writer::ArchiveWriter::resume(&broken, CompressionLevel::Normal, 16, 0, None)
            .err(),
        Some(Error::CorruptArchive)
    );
    // The matching configuration is accepted.
    assert!(
        seven_zip::writer::ArchiveWriter::resume(&cp, CompressionLevel::Normal, 16, 0, None)
            .is_ok()
    );
}
