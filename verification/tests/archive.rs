use krate::archive::{
    begin_archive, create_archive_bytes, decode_archive, encode_archive, inspect_container,
    magic_bytes, payload_reader, read_header, start_archive, ContainerKind, MAX_HEADER_LEN,
};
use krate::cipher::{derive_key, random_bytes, wipe};
use krate::error::ArchiveError;
use krate::stream::{decrypt_payload, encrypt_payload, StreamDecryptReader, StreamEncryptWriter};

const SALT: [u8; 16] = [1, 2, 3, 4, 5, 6, 7, 8, 9, 10, 11, 12, 13, 14, 15, 16];
const NONCE: [u8; 7] = [21, 22, 23, 24, 25, 26, 27];

fn tar_of(files: &[(&str, &[u8])]) -> Vec<u8> {
    let mut builder = tar::Builder::new(Vec::new());
    for (name, data) in files {
        let mut header = tar::Header::new_gnu();
        header.set_size(data.len() as u64);
        header.set_mode(0o644);
        header.set_cksum();
        builder.append_data(&mut header, name, *data).unwrap();
    }
    builder.into_inner().unwrap()
}

fn files_of(tar_bytes: &[u8]) -> Vec<(String, Vec<u8>)> {
    let mut archive = tar::Archive::new(tar_bytes);
    let mut out = Vec::new();
    for entry in archive.entries().unwrap() {
        let mut entry = entry.unwrap();
        let name = entry.path().unwrap().to_string_lossy().to_string();
        let mut data = Vec::new();
        std::io::Read::read_to_end(&mut entry, &mut data).unwrap();
        out.push((name, data));
    }
    out
}

fn sample(n: usize) -> Vec<u8> {
    let mut state: u32 = 0x1234_5678;
    let mut out = Vec::with_capacity(n);
    for _ in 0..n {
        state = state.wrapping_mul(1664525).wrapping_add(1013904223);
        out.push((state >> 24) as u8);
    }
    out
}

fn packed_pair() -> (Vec<u8>, Vec<u8>) {
    let tar = tar_of(&[("a.txt", b"hello"), ("b.txt", b"world")]);
    let archive = encode_archive(&tar, Some("pw"), Some(9), SALT, NONCE).unwrap();
    (tar, archive)
}

#[test]
fn pack_two_files_and_extract_with_the_password() {
    let (tar, archive) = packed_pair();
    let back = decode_archive(&archive, Some("pw")).unwrap();
    assert_eq!(back, tar);
    assert_eq!(
        files_of(&back),
        vec![
            ("a.txt".to_string(), b"hello".to_vec()),
            ("b.txt".to_string(), b"world".to_vec())
        ]
    );
}

#[test]
fn extract_without_password_is_refused() {
    let (_, archive) = packed_pair();
    assert_eq!(decode_archive(&archive, Some("")), Err(ArchiveError::PasswordRequired));
    assert_eq!(decode_archive(&archive, None), Err(ArchiveError::PasswordRequired));
}

#[test]
fn extract_with_wrong_password_fails_to_decrypt() {
    let (_, archive) = packed_pair();
    assert_eq!(decode_archive(&archive, Some("pwx")), Err(ArchiveError::DecryptFailed));
}

#[test]
fn encrypted_header_layout() {
    let (_, archive) = packed_pair();
    assert_eq!(&archive[..10], b"KRATE_PKG\0");
    assert_eq!(magic_bytes(), *b"KRATE_PKG\0");
    assert_eq!(archive[10], 1);
    assert_eq!(archive[11], 3);
    assert_eq!(archive[12], 9);
    assert_eq!(archive[13], 16);
    assert_eq!(&archive[14..30], &SALT);
    assert_eq!(archive[30], 7);
    assert_eq!(&archive[31..38], &NONCE);
    let announced = u32::from_be_bytes([archive[38], archive[39], archive[40], archive[41]]);
    assert_eq!(announced & 0x8000_0000, 0x8000_0000);
    assert_eq!((announced & 0x7FFF_FFFF) as usize, archive.len() - 42);
}

#[test]
fn plain_header_layout_and_round_trip() {
    let tar = tar_of(&[("x", b"1")]);
    for password in [None, Some("")] {
        let archive = encode_archive(&tar, password, None, SALT, NONCE).unwrap();
        assert_eq!(&archive[..10], b"KRATE_PKG\0");
        assert_eq!(&archive[10..15], &[1, 2, 9, 0, 0]);
        assert_eq!(archive[15], 0x1F);
        assert_eq!(decode_archive(&archive, password).unwrap(), tar);
        assert_eq!(decode_archive(&archive, Some("anything")).unwrap(), tar);
    }
}

#[test]
fn gzip_level_is_clamped() {
    let tar = tar_of(&[("x", b"1")]);
    for (asked, written) in [(Some(0), 0u8), (Some(5), 5), (Some(9), 9), (Some(10), 9), (Some(u32::MAX), 9), (None, 9)] {
        let archive = encode_archive(&tar, None, asked, SALT, NONCE).unwrap();
        assert_eq!(archive[12], written);
        assert_eq!(decode_archive(&archive, None).unwrap(), tar);
    }
}

#[test]
fn round_trip_over_several_segments() {
    let tar = sample(200_000);
    let archive = encode_archive(&tar, Some("s3cret"), Some(0), SALT, NONCE).unwrap();
    assert!(archive.len() > 200_000);
    assert_eq!(decode_archive(&archive, Some("s3cret")).unwrap(), tar);
    let empty: Vec<u8> = Vec::new();
    let archive = encode_archive(&empty, Some("s3cret"), Some(9), SALT, NONCE).unwrap();
    assert_eq!(decode_archive(&archive, Some("s3cret")).unwrap(), empty);
}

#[test]
fn flipped_payload_byte_fails_to_decrypt() {
    let (_, archive) = packed_pair();
    for at in [42usize, 43, archive.len() / 2, archive.len() - 17, archive.len() - 1] {
        let mut bad = archive.clone();
        bad[at] ^= 0x01;
        assert_eq!(decode_archive(&bad, Some("pw")), Err(ArchiveError::DecryptFailed));
    }
    let mut bad = archive.clone();
    bad[38] ^= 0x80;
    assert_eq!(decode_archive(&bad, Some("pw")), Err(ArchiveError::DecryptFailed));
    let mut bad = archive.clone();
    bad[41] ^= 0x01;
    assert_eq!(decode_archive(&bad, Some("pw")), Err(ArchiveError::DecryptFailed));
}

#[test]
fn truncated_archive_fails_to_decrypt() {
    let (_, archive) = packed_pair();
    for keep in [12usize, 13, 14, 29, 30, 37, 38, 39, 41, 42, 60, archive.len() - 1] {
        assert_eq!(
            decode_archive(&archive[..keep], Some("pw")),
            Err(ArchiveError::DecryptFailed)
        );
    }
    let tar = sample(70_000);
    let big = encode_archive(&tar, Some("pw"), Some(0), SALT, NONCE).unwrap();
    let first_frame_end = 38 + 4 + 65536 + 16;
    for keep in [first_frame_end - 1, first_frame_end, first_frame_end + 2, big.len() - 1] {
        assert_eq!(decode_archive(&big[..keep], Some("pw")), Err(ArchiveError::DecryptFailed));
    }
    assert_eq!(decode_archive(&big, Some("pw")).unwrap(), tar);
}

#[test]
fn short_or_foreign_containers_are_refused() {
    let (_, archive) = packed_pair();
    assert_eq!(decode_archive(&[], None), Err(ArchiveError::BadMagic));
    assert_eq!(decode_archive(&archive[..9], Some("pw")), Err(ArchiveError::BadMagic));
    assert_eq!(decode_archive(b"KRATE_PKX\0\x01\x02\x09\0\0", None), Err(ArchiveError::BadMagic));
    assert_eq!(decode_archive(&archive[..10], Some("pw")), Err(ArchiveError::UnsupportedVersion));
    assert_eq!(decode_archive(&archive[..11], Some("pw")), Err(ArchiveError::GzipIo));
    let mut v2 = archive.clone();
    v2[10] = 2;
    assert_eq!(decode_archive(&v2, Some("pw")), Err(ArchiveError::UnsupportedVersion));
    assert_eq!(decode_archive(b"KRATE_PKG\0\x01\x02\x09\0\0not gzip", None), Err(ArchiveError::GzipIo));
    assert_eq!(decode_archive(b"KRATE_PKG\0\x01\x02\x09", None), Err(ArchiveError::GzipIo));
}

#[test]
fn bad_salt_or_nonce_in_an_encrypted_header() {
    let mut short_salt = b"KRATE_PKG\0\x01\x03\x09\x04abcd\x07".to_vec();
    short_salt.extend_from_slice(&NONCE);
    short_salt.extend_from_slice(&[0x80, 0, 0, 16]);
    short_salt.extend_from_slice(&[0u8; 16]);
    assert_eq!(decode_archive(&short_salt, Some("pw")), Err(ArchiveError::KdfFailed));
    assert_eq!(decode_archive(&short_salt, None), Err(ArchiveError::PasswordRequired));

    let mut short_nonce = b"KRATE_PKG\0\x01\x03\x09\x10".to_vec();
    short_nonce.extend_from_slice(&SALT);
    short_nonce.extend_from_slice(&[3, 1, 2, 3]);
    short_nonce.extend_from_slice(&[0x80, 0, 0, 16]);
    short_nonce.extend_from_slice(&[0u8; 16]);
    assert_eq!(decode_archive(&short_nonce, Some("pw")), Err(ArchiveError::DecryptFailed));
}

#[test]
fn legacy_container_decodes() {
    let tar = tar_of(&[("old.txt", b"from before versions")]);
    let plain = encode_archive(&tar, None, Some(6), SALT, NONCE).unwrap();
    let mut legacy = b"KRATE_PKG\0".to_vec();
    legacy.extend_from_slice(&plain[15..]);
    assert_eq!(legacy[10], 0x1F);
    assert_eq!(decode_archive(&legacy, None).unwrap(), tar);
    assert_eq!(decode_archive(&legacy, Some("ignored")).unwrap(), tar);
    assert_eq!(decode_archive(&legacy[..20], None), Err(ArchiveError::GzipIo));
}

#[test]
fn create_archive_bytes_draws_fresh_salt_and_nonce() {
    let tar = tar_of(&[("a.txt", b"hello")]);
    let one = create_archive_bytes(&tar, Some("pw"), Some(9)).unwrap();
    let two = create_archive_bytes(&tar, Some("pw"), Some(9)).unwrap();
    assert_eq!(&one[..14], b"KRATE_PKG\0\x01\x03\x09\x10");
    assert_eq!(one[30], 7);
    assert_ne!(one[14..38], two[14..38]);
    assert_eq!(decode_archive(&one, Some("pw")).unwrap(), tar);
    assert_eq!(decode_archive(&two, Some("pw")).unwrap(), tar);
    let plain = create_archive_bytes(&tar, None, None).unwrap();
    assert_eq!(&plain[10..15], &[1, 2, 9, 0, 0]);
    assert_eq!(decode_archive(&plain, None).unwrap(), tar);
}

#[test]
fn derive_key_depends_on_password_and_salt() {
    let a = derive_key("pw", &SALT).unwrap();
    let b = derive_key("pw", &SALT).unwrap();
    let c = derive_key("pwx", &SALT).unwrap();
    let d = derive_key("pw", &[9u8; 16]).unwrap();
    assert_eq!(a.len(), 32);
    assert_eq!(a, b);
    assert_ne!(a, c);
    assert_ne!(a, d);
    assert_ne!(a, vec![0u8; 32]);
    assert_eq!(derive_key("pw", &[1, 2, 3]), Err(ArchiveError::KdfFailed));
}

#[test]
fn random_bytes_and_wipe() {
    let a = random_bytes(16).unwrap();
    let b = random_bytes(16).unwrap();
    assert_eq!(a.len(), 16);
    assert_ne!(a, b);
    assert_eq!(random_bytes(0).unwrap().len(), 0);
    let mut secret = vec![7u8; 32];
    wipe(&mut secret);
    assert!(secret.is_empty());
}

#[test]
fn writer_emits_a_frame_for_each_full_segment() {
    let key = vec![7u8; 32];
    let nonce = NONCE.to_vec();
    let data = sample(65536 * 2 + 10);
    let mut writer = StreamEncryptWriter::new(b"head".to_vec(), key.clone(), nonce.clone());
    assert_eq!(writer.write(&data[..100]).unwrap(), 100);
    assert_eq!(writer.write(&data[100..65536]).unwrap(), 65436);
    assert_eq!(writer.write(&data[65536..]).unwrap(), 65536 + 10);
    assert_eq!(writer.write(&[]).unwrap(), 0);
    let out = writer.finish().unwrap();
    assert_eq!(&out[..4], b"head");
    let frame = 4 + 65536 + 16;
    assert_eq!(out.len(), 4 + 2 * frame + 4 + 10 + 16);
    assert_eq!(&out[4..8], &[0x00, 0x01, 0x00, 0x10]);
    assert_eq!(&out[4 + frame..8 + frame], &[0x00, 0x01, 0x00, 0x10]);
    assert_eq!(&out[4 + 2 * frame..8 + 2 * frame], &[0x80, 0x00, 0x00, 26]);
    assert_ne!(&out[8..8 + 64], &data[..64]);
    let whole = encrypt_payload(b"head".to_vec(), key.clone(), nonce.clone(), &data).unwrap();
    assert_eq!(whole, out);
    assert_eq!(decrypt_payload(out[4..].to_vec(), key, nonce).unwrap(), data);
}

#[test]
fn exact_multiple_of_the_segment_size_ends_with_an_empty_last_segment() {
    let key = vec![1u8; 32];
    let nonce = NONCE.to_vec();
    let data = sample(65536);
    let out = encrypt_payload(Vec::new(), key.clone(), nonce.clone(), &data).unwrap();
    assert_eq!(out.len(), 4 + 65536 + 16 + 4 + 16);
    assert_eq!(&out[65556..65560], &[0x80, 0, 0, 16]);
    assert_eq!(decrypt_payload(out, key.clone(), nonce.clone()).unwrap(), data);
    let nothing = encrypt_payload(Vec::new(), key.clone(), nonce.clone(), &[]).unwrap();
    assert_eq!(nothing.len(), 20);
    assert_eq!(decrypt_payload(nothing, key, nonce).unwrap(), Vec::<u8>::new());
}

#[test]
fn reader_hands_out_plaintext_piece_by_piece() {
    let key = vec![3u8; 32];
    let nonce = NONCE.to_vec();
    let data = sample(65536 + 500);
    let mut payload = encrypt_payload(Vec::new(), key.clone(), nonce.clone(), &data).unwrap();
    payload.extend_from_slice(b"trailing bytes are never read");
    let mut reader = StreamDecryptReader::new(payload, key, nonce);
    let first = reader.read(1000).unwrap();
    assert_eq!(first, &data[..1000]);
    let mut got = first;
    loop {
        let piece = reader.read(30_000).unwrap();
        if piece.is_empty() {
            break;
        }
        assert!(piece.len() <= 30_000);
        got.extend_from_slice(&piece);
    }
    assert_eq!(got, data);
    assert_eq!(reader.read(10).unwrap(), Vec::<u8>::new());
    assert_eq!(reader.refill(), Ok(false));
}

#[test]
fn reader_refuses_bad_frames_for_good() {
    let key = vec![3u8; 32];
    let nonce = NONCE.to_vec();
    let payload = encrypt_payload(Vec::new(), key.clone(), nonce.clone(), b"abc").unwrap();

    let mut zero = StreamDecryptReader::new(vec![0, 0, 0, 0, 1, 2, 3], key.clone(), nonce.clone());
    assert_eq!(zero.refill(), Err(ArchiveError::DecryptFailed));
    assert_eq!(zero.read(1), Err(ArchiveError::DecryptFailed));

    let mut empty = StreamDecryptReader::new(Vec::new(), key.clone(), nonce.clone());
    assert_eq!(empty.read(1), Err(ArchiveError::DecryptFailed));

    let mut not_last = payload.clone();
    not_last[0] = 0;
    assert_eq!(
        decrypt_payload(not_last, key.clone(), nonce.clone()),
        Err(ArchiveError::DecryptFailed)
    );

    let mut other_key = key.clone();
    other_key[0] ^= 1;
    assert_eq!(
        decrypt_payload(payload.clone(), other_key, nonce.clone()),
        Err(ArchiveError::DecryptFailed)
    );
    let mut other_nonce = nonce.clone();
    other_nonce[6] ^= 1;
    assert_eq!(
        decrypt_payload(payload.clone(), key.clone(), other_nonce),
        Err(ArchiveError::DecryptFailed)
    );

    let two = encrypt_payload(Vec::new(), key.clone(), nonce.clone(), &sample(65536 + 1)).unwrap();
    let first = 4 + 65536 + 16;
    let mut swapped = two[first..].to_vec();
    swapped.extend_from_slice(&two[..first]);
    assert_eq!(decrypt_payload(swapped, key.clone(), nonce.clone()), Err(ArchiveError::DecryptFailed));
    assert_eq!(
        decrypt_payload(two[..first].to_vec(), key, nonce),
        Err(ArchiveError::DecryptFailed)
    );
}

#[test]
fn archive_error_codes() {
    let all = [
        (ArchiveError::PathNotFound, "PATH_NOT_FOUND"),
        (ArchiveError::NoInput, "NO_INPUT"),
        (ArchiveError::BadMagic, "BAD_MAGIC"),
        (ArchiveError::UnsupportedVersion, "UNSUPPORTED_VERSION"),
        (ArchiveError::PasswordRequired, "PASSWORD_REQUIRED"),
        (ArchiveError::DecryptFailed, "DECRYPT_FAILED"),
        (ArchiveError::TarIo, "TAR_IO"),
        (ArchiveError::GzipIo, "GZIP_IO"),
        (ArchiveError::SinkIo, "SINK_IO"),
        (ArchiveError::KdfFailed, "KDF_FAILED"),
        (ArchiveError::RngFailed, "RNG_FAILED"),
    ];
    for (error, code) in all {
        assert_eq!(error.code(), code);
    }
}

#[test]
fn inspect_container_tells_the_kinds_apart() {
    let tar = tar_of(&[("a.txt", b"hello")]);
    let sealed = encode_archive(&tar, Some("pw"), Some(9), [7u8; 16], [9u8; 7]).unwrap();
    assert_eq!(inspect_container(&sealed), Ok(ContainerKind::Encrypted));
    let plain = encode_archive(&tar, None, Some(9), [0u8; 16], [0u8; 7]).unwrap();
    assert_eq!(inspect_container(&plain), Ok(ContainerKind::Plain));
    let mut legacy = magic_bytes().to_vec();
    legacy.extend_from_slice(&plain[15..]);
    assert_eq!(inspect_container(&legacy), Ok(ContainerKind::Legacy));
    assert_eq!(decode_archive(&legacy, None).unwrap(), tar);
}

#[test]
fn inspect_container_refuses_as_decoding_does() {
    let tar = tar_of(&[("a.txt", b"hello")]);
    let sealed = encode_archive(&tar, Some("pw"), Some(9), [7u8; 16], [9u8; 7]).unwrap();
    let plain = encode_archive(&tar, None, Some(9), [0u8; 16], [0u8; 7]).unwrap();
    let mut foreign = sealed.clone();
    foreign[0] ^= 1;
    let mut newer = sealed.clone();
    newer[10] = 2;
    let cases: Vec<(Vec<u8>, ArchiveError)> = vec![
        (Vec::new(), ArchiveError::BadMagic),
        (b"KRATE_PK".to_vec(), ArchiveError::BadMagic),
        (foreign, ArchiveError::BadMagic),
        (magic_bytes().to_vec(), ArchiveError::UnsupportedVersion),
        (newer, ArchiveError::UnsupportedVersion),
        (sealed[..11].to_vec(), ArchiveError::GzipIo),
        (sealed[..12].to_vec(), ArchiveError::DecryptFailed),
        (sealed[..37].to_vec(), ArchiveError::DecryptFailed),
        (plain[..14].to_vec(), ArchiveError::GzipIo),
    ];
    for (bytes, want) in cases {
        assert_eq!(inspect_container(&bytes), Err(want));
        assert_eq!(decode_archive(&bytes, Some("pw")), Err(want));
        assert_eq!(decode_archive(&bytes, None), Err(want));
    }
    assert_eq!(inspect_container(&sealed[..38]), Ok(ContainerKind::Encrypted));
    assert_eq!(inspect_container(&plain[..15]), Ok(ContainerKind::Plain));
}

#[test]
fn frame_that_announces_no_bytes_is_refused() {
    let key = vec![1u8; 32];
    let nonce = vec![2u8; 7];
    for header in [[0u8, 0, 0, 0], [0x80, 0, 0, 0]] {
        let mut payload = header.to_vec();
        payload.extend_from_slice(&[0u8; 40]);
        assert_eq!(
            decrypt_payload(payload, key.clone(), nonce.clone()),
            Err(ArchiveError::DecryptFailed)
        );
    }
}

#[test]
fn reader_at_its_end_stays_where_it_is() {
    let key = vec![1u8; 32];
    let nonce = vec![2u8; 7];
    let mut payload = encrypt_payload(Vec::new(), key.clone(), nonce.clone(), b"abc").unwrap();
    payload.extend_from_slice(b"what follows the last frame");
    let mut reader = StreamDecryptReader::new(payload, key, nonce);
    assert_eq!(reader.read_to_end().unwrap(), b"abc");
    assert_eq!(reader.read(10).unwrap(), Vec::<u8>::new());
    assert_eq!(reader.refill(), Ok(false));
    assert_eq!(reader.read_to_end().unwrap(), Vec::<u8>::new());
    assert_eq!(reader.read(10).unwrap(), Vec::<u8>::new());
}

#[test]
fn read_header_gives_the_fields_and_where_the_payload_begins() {
    let tar = tar_of(&[("a.txt", b"hello")]);
    let sealed = encode_archive(&tar, Some("pw"), Some(4), [7u8; 16], [9u8; 7]).unwrap();
    let h = read_header(&sealed).unwrap();
    assert_eq!(h.kind, ContainerKind::Encrypted);
    assert_eq!(h.level, 4);
    assert_eq!(h.salt, vec![7u8; 16]);
    assert_eq!(h.nonce, vec![9u8; 7]);
    assert_eq!(h.payload_at, 38);
    assert_eq!(read_header(&sealed[..38]).unwrap(), h);
    assert_eq!(read_header(&sealed[..37]), Err(ArchiveError::DecryptFailed));

    let plain = encode_archive(&tar, None, None, [0u8; 16], [0u8; 7]).unwrap();
    let h = read_header(&plain).unwrap();
    assert_eq!((h.kind, h.level, h.payload_at), (ContainerKind::Plain, 9, 15));
    assert!(h.salt.is_empty() && h.nonce.is_empty());

    let mut legacy = magic_bytes().to_vec();
    legacy.extend_from_slice(&plain[15..]);
    let h = read_header(&legacy).unwrap();
    assert_eq!((h.kind, h.level, h.payload_at), (ContainerKind::Legacy, 0, 10));
    assert_eq!(read_header(b"nothing of the kind"), Err(ArchiveError::BadMagic));
}

#[test]
fn header_is_read_from_the_first_bytes_alone() {
    let mut long = magic_bytes().to_vec();
    long.extend_from_slice(&[1, 1, 9, 255]);
    long.extend_from_slice(&[3u8; 255]);
    long.push(255);
    long.extend_from_slice(&[4u8; 255]);
    assert_eq!(long.len(), MAX_HEADER_LEN);
    let mut whole = long.clone();
    whole.extend_from_slice(&[5u8; 100]);
    let h = read_header(&whole).unwrap();
    assert_eq!(h.payload_at, MAX_HEADER_LEN);
    assert_eq!(read_header(&whole[..MAX_HEADER_LEN]).unwrap(), h);
    assert_eq!(read_header(&long[..MAX_HEADER_LEN - 1]), Err(ArchiveError::DecryptFailed));
}

#[test]
fn payload_reader_says_why_it_cannot_begin() {
    assert_eq!(payload_reader(&[7u8; 16], &[9u8; 7], None).err(), Some(ArchiveError::PasswordRequired));
    assert_eq!(
        payload_reader(&[7u8; 16], &[9u8; 7], Some("")).err(),
        Some(ArchiveError::PasswordRequired)
    );
    assert_eq!(payload_reader(&[7u8; 2], &[9u8; 7], Some("pw")).err(), Some(ArchiveError::KdfFailed));
    assert_eq!(
        payload_reader(&[7u8; 16], &[9u8; 8], Some("pw")).err(),
        Some(ArchiveError::DecryptFailed)
    );
    assert!(payload_reader(&[7u8; 16], &[9u8; 7], Some("pw")).is_ok());
}

#[test]
fn container_written_in_pieces_decodes() {
    let data = sample(150_000);
    let start = begin_archive(Some("pw"), Some(12)).unwrap();
    assert_eq!(start.level, 9);
    assert_eq!(start.header.len(), 38);
    assert_eq!(&start.header[..14], b"KRATE_PKG\0\x01\x03\x09\x10");
    let mut writer = start.writer.unwrap();
    let mut file = start.header.clone();
    let mut pieces = 0;
    for piece in data.chunks(10_000) {
        assert_eq!(writer.write(piece), Ok(piece.len()));
        let out = writer.take_output();
        if !out.is_empty() {
            assert_eq!(out.len(), 4 + 65536 + 16);
            pieces += 1;
        }
        assert!(writer.take_output().is_empty());
        file.extend_from_slice(&out);
    }
    assert_eq!(pieces, 2);
    file.extend_from_slice(&writer.finish().unwrap());

    let header = read_header(&file).unwrap();
    assert_eq!(header.kind, ContainerKind::Encrypted);
    let key = derive_key("pw", &header.salt).unwrap();
    let whole = encrypt_payload(Vec::new(), key, header.nonce.clone(), &data).unwrap();
    assert_eq!(&file[38..], &whole[..]);

    let plain = begin_archive(None, Some(3)).unwrap();
    assert!(plain.writer.is_none());
    assert_eq!(plain.level, 3);
    assert_eq!(plain.header, b"KRATE_PKG\0\x01\x02\x03\x00\x00".to_vec());
    assert!(begin_archive(Some(""), None).unwrap().writer.is_none());
}

#[test]
fn reader_fed_frame_by_frame_reads_what_a_whole_source_gives() {
    let key = vec![1u8; 32];
    let nonce = vec![2u8; 7];
    let data = sample(140_000);
    let payload = encrypt_payload(Vec::new(), key.clone(), nonce.clone(), &data).unwrap();
    let mut reader = StreamDecryptReader::new(Vec::new(), key, nonce);
    let mut at = 0;
    let mut out = Vec::new();
    loop {
        loop {
            let wanted = reader.shortfall();
            if wanted == 0 || at == payload.len() {
                break;
            }
            let n = wanted.min(30_000).min(payload.len() - at);
            reader.feed(&payload[at..at + n]);
            at += n;
        }
        let piece = reader.read(50_000).unwrap();
        if piece.is_empty() {
            break;
        }
        out.extend_from_slice(&piece);
    }
    assert_eq!(out, data);
    assert_eq!(at, payload.len());
    assert_eq!(reader.shortfall(), 0);
}

#[test]
fn shortfall_counts_what_a_frame_still_lacks() {
    let key = vec![1u8; 32];
    let nonce = vec![2u8; 7];
    let payload = encrypt_payload(Vec::new(), key.clone(), nonce.clone(), b"abc").unwrap();
    assert_eq!(payload.len(), 4 + 3 + 16);
    let mut reader = StreamDecryptReader::new(Vec::new(), key.clone(), nonce.clone());
    assert_eq!(reader.shortfall(), 4);
    reader.feed(&payload[..1]);
    assert_eq!(reader.shortfall(), 3);
    reader.feed(&payload[1..4]);
    assert_eq!(reader.shortfall(), 19);
    reader.feed(&payload[4..22]);
    assert_eq!(reader.shortfall(), 1);
    reader.feed(&payload[22..]);
    assert_eq!(reader.shortfall(), 0);
    assert_eq!(reader.read(2).unwrap(), b"ab");
    assert_eq!(reader.shortfall(), 0);
    assert_eq!(reader.read(2).unwrap(), b"c");
    assert_eq!(reader.shortfall(), 0);
    assert_eq!(reader.read(2).unwrap(), Vec::<u8>::new());

    let mut refused = StreamDecryptReader::new(vec![0x80, 0, 0, 0], key.clone(), nonce.clone());
    assert_eq!(refused.shortfall(), 0);
    assert_eq!(refused.read(1), Err(ArchiveError::DecryptFailed));
    assert_eq!(refused.shortfall(), 0);

    let mut cut = StreamDecryptReader::new(payload[..10].to_vec(), key, nonce);
    assert_eq!(cut.shortfall(), 13);
    assert_eq!(cut.read(1), Err(ArchiveError::DecryptFailed));
}

#[test]
fn start_archive_writes_the_header_for_salt_and_nonce() {
    let start = start_archive(Some("pw"), Some(5), [7u8; 16], [9u8; 7]).unwrap();
    let mut want = b"KRATE_PKG\0\x01\x03\x05\x10".to_vec();
    want.extend_from_slice(&[7u8; 16]);
    want.push(7);
    want.extend_from_slice(&[9u8; 7]);
    assert_eq!(start.header, want);
    assert_eq!(start.level, 5);

    let tar = tar_of(&[("a.txt", b"hello")]);
    let whole = encode_archive(&tar, Some("pw"), Some(5), [7u8; 16], [9u8; 7]).unwrap();
    let mut writer = start.writer.unwrap();
    let gz = &whole[38..];
    let key = derive_key("pw", &[7u8; 16]).unwrap();
    let plain_gz = decrypt_payload(gz.to_vec(), key, vec![9u8; 7]).unwrap();
    writer.write(&plain_gz).unwrap();
    let mut pieces = start.header.clone();
    pieces.extend_from_slice(&writer.take_output());
    pieces.extend_from_slice(&writer.finish().unwrap());
    assert_eq!(pieces, whole);
    assert_eq!(decode_archive(&pieces, Some("pw")).unwrap(), tar);

    let plain = start_archive(None, None, [7u8; 16], [9u8; 7]).unwrap();
    assert!(plain.writer.is_none());
    assert_eq!(plain.header, b"KRATE_PKG\0\x01\x02\x09\x00\x00".to_vec());
}
