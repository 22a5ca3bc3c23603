//! The container format: magic bytes, a version, flags, the gzip level, salt
//! and nonce, and then the payload, which is a gzip stream, in frames where
//! the container is encrypted. A container from before versions existed has
//! its gzip stream right behind the magic bytes.
//!
//! A container is built and read whole, from bytes in memory, by
//! `encode_archive`, `create_archive_bytes` and `decode_archive`. One that is
//! too long for that is begun with `begin_archive` and read from
//! `read_header` on, and its payload goes through the writer and the reader
//! of `stream` piece by piece.

use crate::cipher::{
    derive_key, derived_key, opt_bytes, random_bytes, wipe, PLAIN_CHUNK, SALT_LEN,
    STREAM_NONCE_LEN,
};
use crate::error::ArchiveError;
use crate::stream::{
    chunk_count, chunks_open, frame_opens, full_frames, lemma_accepted_stream_opens_next_frame,
    lemma_payload_round_trip, lemma_truncated_payload_fails, payload_of, payload_opens,
    plain_of, StreamDecryptReader, StreamEncryptWriter,
};
use flate2::read::GzDecoder;
use flate2::write::GzEncoder;
use flate2::Compression;
use std::io::Read;
use std::io::Write;
use vstd::prelude::*;
use vstd::slice::slice_subrange;

verus! {

/// The version that new containers carry.
pub const VERSION_V1: u8 = 1;

/// The first byte of a gzip stream: where it stands in place of the version,
/// the container is of the old kind.
pub const GZIP_FIRST_BYTE: u8 = 0x1F;

/// The flag bit that marks an encrypted payload.
pub const FLAG_ENCRYPTED: u8 = 1;

/// The flag bit that marks a compressed payload.
pub const FLAG_COMPRESSED: u8 = 2;

/// The flags of a compressed and encrypted payload.
pub const FLAGS_SEALED: u8 = 3;

/// The longest a version 1 header can be: its fixed bytes, and a salt and
/// a nonce of 255 bytes each.
pub const MAX_HEADER_LEN: usize = 525;

/// The highest gzip level.
pub const MAX_GZIP_LEVEL: u32 = 9;

/// The ten bytes every container begins with: `KRATE_PKG` and a zero byte.
pub open spec fn magic() -> Seq<u8> {
    seq![0x4Bu8, 0x52u8, 0x41u8, 0x54u8, 0x45u8, 0x5Fu8, 0x50u8, 0x4Bu8, 0x47u8, 0x00u8]
}

pub fn magic_bytes() -> (r: [u8; 10])
    ensures
        r@ == magic(),
{
    let r: [u8; 10] = [0x4B, 0x52, 0x41, 0x54, 0x45, 0x5F, 0x50, 0x4B, 0x47, 0x00];
    assert(r@ =~= magic());
    r
}

/// The gzip stream that `flate2`'s `GzEncoder` writes for `data` at `level`
/// into a vector, `None` where it reports an error.
pub uninterp spec fn gzip_of(data: Seq<u8>, level: u32) -> Option<Seq<u8>>;

/// What `flate2`'s `GzDecoder` reads from a gzip stream, `None` where it
/// reports an error.
pub uninterp spec fn gunzip_of(bytes: Seq<u8>) -> Option<Seq<u8>>;

/// Compresses with `GzEncoder::write_all` and `GzEncoder::finish` into a
/// vector.
///
/// Trusted: the result is what the encoder is named to write, `None` where
/// it reports an error; and the decoder reads the data back from a stream
/// that the encoder wrote.
#[verifier::external_body]
fn gzip_bytes(data: &[u8], level: u32) -> (r: Option<Vec<u8>>)
    requires
        level <= MAX_GZIP_LEVEL,
    ensures
        opt_bytes(r) == gzip_of(data@, level),
        r matches Some(z) ==> gunzip_of(z@) == Some(data@),
{
    let mut encoder = GzEncoder::new(Vec::new(), Compression::new(level));
    match encoder.write_all(data) {
        Ok(()) => encoder.finish().ok(),
        Err(_) => None,
    }
}

/// Decompresses with `GzDecoder::read_to_end`.
///
/// Trusted: the result is what the decoder is named to read, `None` where
/// it reports an error.
#[verifier::external_body]
fn gunzip_bytes(bytes: &[u8]) -> (r: Option<Vec<u8>>)
    ensures
        match r {
            Some(v) => gunzip_of(bytes@) == Some(v@),
            None => gunzip_of(bytes@) is None,
        },
{
    let mut out = Vec::new();
    match GzDecoder::new(bytes).read_to_end(&mut out) {
        Ok(_) => Some(out),
        Err(_) => None,
    }
}

/// Whether flags mark an encrypted payload.
pub open spec fn flags_encrypted(flags: u8) -> bool {
    flags % 2 == 1
}

/// The gzip level used for a requested one: 9 where none is requested, and
/// never above 9.
pub open spec fn level_for(requested: Option<u32>) -> u8 {
    match requested {
        Some(l) => if l <= 9 {
            l as u8
        } else {
            9u8
        },
        None => 9u8,
    }
}

/// Whether a password asks for encryption: it is there and not empty.
pub open spec fn wants_encryption(password: Option<Seq<char>>) -> bool {
    password matches Some(p) && p.len() > 0
}

/// The text of an optional password; none at all counts as the empty one.
pub open spec fn password_text(password: Option<&str>) -> Seq<char> {
    match password {
        Some(p) => p@,
        None => Seq::empty(),
    }
}

/// The bytes of the header of a version 1 container.
pub open spec fn header_bytes(flags: u8, level: u8, salt: Seq<u8>, nonce: Seq<u8>) -> Seq<u8> {
    magic() + seq![VERSION_V1, flags, level, salt.len() as u8] + salt + seq![nonce.len() as u8]
        + nonce
}

/// The fields of a version 1 header behind the version byte.
pub struct HeaderView {
    pub flags: u8,
    pub level: u8,
    pub salt: Seq<u8>,
    pub nonce: Seq<u8>,
    /// Where the payload begins.
    pub payload_at: int,
}

/// Reads the header fields of a version 1 container; `None` where the
/// container ends before its header does.
pub open spec fn header_of(bytes: Seq<u8>) -> Option<HeaderView> {
    if bytes.len() < 14 {
        None
    } else {
        let salt_len = bytes[13] as int;
        if bytes.len() < 15 + salt_len {
            None
        } else {
            let nonce_len = bytes[14 + salt_len] as int;
            if bytes.len() < 15 + salt_len + nonce_len {
                None
            } else {
                Some(
                    HeaderView {
                        flags: bytes[11],
                        level: bytes[12],
                        salt: bytes.subrange(14, 14 + salt_len),
                        nonce: bytes.subrange(15 + salt_len, 15 + salt_len + nonce_len),
                        payload_at: 15 + salt_len + nonce_len,
                    },
                )
            }
        }
    }
}

/// The tar stream in a gzip stream.
pub open spec fn gunzipped(bytes: Seq<u8>) -> Result<Seq<u8>, ArchiveError> {
    match gunzip_of(bytes) {
        Some(t) => Ok(t),
        None => Err(ArchiveError::GzipIo),
    }
}

/// The tar stream behind a version 1 header.
pub open spec fn payload_decoded(bytes: Seq<u8>, h: HeaderView, password: Seq<char>) -> Result<
    Seq<u8>,
    ArchiveError,
> {
    if flags_encrypted(h.flags) {
        if password.len() == 0 {
            Err(ArchiveError::PasswordRequired)
        } else {
            match derived_key(password, h.salt) {
                None => Err(ArchiveError::KdfFailed),
                Some(key) => if h.nonce.len() != STREAM_NONCE_LEN {
                    Err(ArchiveError::DecryptFailed)
                } else {
                    match plain_of(key, h.nonce, 0, bytes.skip(h.payload_at)) {
                        None => Err(ArchiveError::DecryptFailed),
                        Some(gz) => gunzipped(gz),
                    }
                },
            }
        }
    } else {
        gunzipped(bytes.skip(h.payload_at))
    }
}

/// The tar stream that a container holds, or why there is none to be had.
///
/// A container that ends inside its header is refused as its payload would
/// be: with `DecryptFailed` where its flags are there and mark it encrypted,
/// with `GzipIo` otherwise.
pub open spec fn decoded(bytes: Seq<u8>, password: Seq<char>) -> Result<Seq<u8>, ArchiveError> {
    if bytes.len() < 10 || bytes.take(10) != magic() {
        Err(ArchiveError::BadMagic)
    } else if bytes.len() < 11 {
        Err(ArchiveError::UnsupportedVersion)
    } else if bytes[10] == GZIP_FIRST_BYTE {
        gunzipped(bytes.skip(10))
    } else if bytes[10] != VERSION_V1 {
        Err(ArchiveError::UnsupportedVersion)
    } else {
        match header_of(bytes) {
            None => if bytes.len() >= 12 && flags_encrypted(bytes[11]) {
                Err(ArchiveError::DecryptFailed)
            } else {
                Err(ArchiveError::GzipIo)
            },
            Some(h) => payload_decoded(bytes, h, password),
        }
    }
}

/// What a container's first bytes say it is.
#[derive(Clone, Copy, Debug, PartialEq, Eq, Structural)]
pub enum ContainerKind {
    /// A gzip stream right behind the magic bytes.
    Legacy,
    /// Version 1 with a gzip stream as payload.
    Plain,
    /// Version 1 with an encrypted payload in frames.
    Encrypted,
}

/// What kind of container the bytes begin, or why they begin none: the
/// refusal is the one that decoding gives, under any password.
pub open spec fn kind_of(bytes: Seq<u8>) -> Result<ContainerKind, ArchiveError> {
    if bytes.len() < 10 || bytes.take(10) != magic() {
        Err(ArchiveError::BadMagic)
    } else if bytes.len() < 11 {
        Err(ArchiveError::UnsupportedVersion)
    } else if bytes[10] == GZIP_FIRST_BYTE {
        Ok(ContainerKind::Legacy)
    } else if bytes[10] != VERSION_V1 {
        Err(ArchiveError::UnsupportedVersion)
    } else {
        match header_of(bytes) {
            None => if bytes.len() >= 12 && flags_encrypted(bytes[11]) {
                Err(ArchiveError::DecryptFailed)
            } else {
                Err(ArchiveError::GzipIo)
            },
            Some(h) => if flags_encrypted(h.flags) {
                Ok(ContainerKind::Encrypted)
            } else {
                Ok(ContainerKind::Plain)
            },
        }
    }
}

/// What a container's header says.
#[derive(Clone, Debug, PartialEq, Eq)]
pub struct ContainerHeader {
    pub kind: ContainerKind,
    /// The gzip level the header names; 0 for a container of the old kind.
    pub level: u8,
    pub salt: Vec<u8>,
    pub nonce: Vec<u8>,
    /// Where the payload begins.
    pub payload_at: usize,
}

/// The mathematical content of a header.
pub struct ContainerHeaderView {
    pub kind: ContainerKind,
    pub level: u8,
    pub salt: Seq<u8>,
    pub nonce: Seq<u8>,
    pub payload_at: nat,
}

impl View for ContainerHeader {
    type V = ContainerHeaderView;

    open spec fn view(&self) -> ContainerHeaderView {
        ContainerHeaderView {
            kind: self.kind,
            level: self.level,
            salt: self.salt@,
            nonce: self.nonce@,
            payload_at: self.payload_at as nat,
        }
    }
}

/// The header that the bytes begin with, or why they begin none. A
/// container of the old kind has no fields: its payload begins behind the
/// magic bytes.
pub open spec fn header_read(bytes: Seq<u8>) -> Result<ContainerHeaderView, ArchiveError> {
    match kind_of(bytes) {
        Err(e) => Err(e),
        Ok(ContainerKind::Legacy) => Ok(
            ContainerHeaderView {
                kind: ContainerKind::Legacy,
                level: 0,
                salt: Seq::empty(),
                nonce: Seq::empty(),
                payload_at: 10,
            },
        ),
        Ok(kind) => {
            let h = header_of(bytes)->0;
            Ok(
                ContainerHeaderView {
                    kind,
                    level: h.level,
                    salt: h.salt,
                    nonce: h.nonce,
                    payload_at: h.payload_at as nat,
                },
            )
        },
    }
}

/// What a `read_header` result holds.
pub open spec fn header_outcome(r: Result<ContainerHeader, ArchiveError>) -> Result<
    ContainerHeaderView,
    ArchiveError,
> {
    match r {
        Ok(h) => Ok(h@),
        Err(e) => Err(e),
    }
}

/// The container for a tar stream, or why none is made. Where a password
/// asks for encryption the key is derived first (`KdfFailed` where that
/// fails), then the tar stream is compressed (`GzipIo`), and the gzip
/// stream goes into frames (`SinkIo` where it would take more frames than
/// the position counter can number). Without encryption only `GzipIo` can
/// come, and salt and nonce are not looked at.
pub open spec fn encoded(
    tar: Seq<u8>,
    password: Option<Seq<char>>,
    requested_level: Option<u32>,
    salt: Seq<u8>,
    nonce: Seq<u8>,
) -> Result<Seq<u8>, ArchiveError> {
    let level = level_for(requested_level);
    if wants_encryption(password) {
        match derived_key(password->0, salt) {
            None => Err(ArchiveError::KdfFailed),
            Some(key) => match gzip_of(tar, level as u32) {
                None => Err(ArchiveError::GzipIo),
                Some(gz) => if chunk_count(gz) > u32::MAX {
                    Err(ArchiveError::SinkIo)
                } else {
                    Ok(header_bytes(FLAGS_SEALED, level, salt, nonce) + payload_of(key, nonce, gz))
                },
            },
        }
    } else {
        match gzip_of(tar, level as u32) {
            None => Err(ArchiveError::GzipIo),
            Some(gz) => Ok(header_bytes(FLAG_COMPRESSED, level, Seq::empty(), Seq::empty()) + gz),
        }
    }
}

/// What a result that holds a container, or a tar stream, says.
pub open spec fn decode_outcome(r: Result<Vec<u8>, ArchiveError>) -> Result<Seq<u8>, ArchiveError> {
    match r {
        Ok(v) => Ok(v@),
        Err(e) => Err(e),
    }
}

/// Whether a container that has lost bytes at its end, but still has its
/// flags, is refused with `DecryptFailed`.
pub open spec fn truncations_fail(bytes: Seq<u8>, password: Seq<char>) -> bool {
    forall|keep: int|
        12 <= keep < bytes.len() ==> #[trigger] decoded(bytes.take(keep), password) == Err::<
            Seq<u8>,
            ArchiveError,
        >(ArchiveError::DecryptFailed)
}

/// The text of an optional string slice.
pub open spec fn opt_text(o: Option<&str>) -> Option<Seq<char>> {
    match o {
        Some(s) => Some(s@),
        None => None,
    }
}

fn clamp_level(requested: Option<u32>) -> (r: u8)
    ensures
        r == level_for(requested),
        r <= 9,
{
    match requested {
        Some(l) => if l <= 9 {
            l as u8
        } else {
            9
        },
        None => 9,
    }
}

fn write_header(flags: u8, level: u8, salt: &[u8], nonce: &[u8]) -> (r: Vec<u8>)
    requires
        salt@.len() <= 255,
        nonce@.len() <= 255,
    ensures
        r@ == header_bytes(flags, level, salt@, nonce@),
{
    let mut out: Vec<u8> = Vec::new();
    let m = magic_bytes();
    out.extend_from_slice(m.as_slice());
    out.push(VERSION_V1);
    out.push(flags);
    out.push(level);
    out.push(salt.len() as u8);
    out.extend_from_slice(salt);
    out.push(nonce.len() as u8);
    out.extend_from_slice(nonce);
    assert(out@ =~= header_bytes(flags, level, salt@, nonce@));
    out
}

/// A header that was written is read back as it was written.
proof fn lemma_header_reads_back(flags: u8, level: u8, salt: Seq<u8>, nonce: Seq<u8>, rest: Seq<u8>)
    requires
        salt.len() <= 255,
        nonce.len() <= 255,
    ensures
        ({
            let bytes = header_bytes(flags, level, salt, nonce) + rest;
            &&& bytes.len() >= 11
            &&& bytes.take(10) == magic()
            &&& bytes.take(11) == magic() + seq![VERSION_V1]
            &&& bytes[10] == VERSION_V1
            &&& bytes.len() >= 12
            &&& bytes[11] == flags
            &&& header_of(bytes) == Some(
                HeaderView {
                    flags,
                    level,
                    salt,
                    nonce,
                    payload_at: (15 + salt.len() + nonce.len()) as int,
                },
            )
            &&& bytes.skip((15 + salt.len() + nonce.len()) as int) == rest
            &&& forall|keep: int|
                12 <= keep < 15 + salt.len() + nonce.len() ==> header_of(#[trigger] bytes.take(keep))
                    is None
            &&& forall|keep: int|
                15 + salt.len() + nonce.len() <= keep <= bytes.len() ==> header_of(
                    #[trigger] bytes.take(keep),
                ) == Some(
                    HeaderView {
                        flags,
                        level,
                        salt,
                        nonce,
                        payload_at: (15 + salt.len() + nonce.len()) as int,
                    },
                )
        }),
{
    let bytes = header_bytes(flags, level, salt, nonce) + rest;
    let sl: int = salt.len() as int;
    let n: int = (15 + salt.len() + nonce.len()) as int;
    assert(bytes.take(10) =~= magic());
    assert(bytes.take(11) =~= magic() + seq![VERSION_V1]);
    assert(bytes.subrange(14, 14 + sl) =~= salt);
    assert(bytes.subrange(15 + sl, n) =~= nonce);
    assert(bytes.skip(n) =~= rest);
    assert forall|keep: int| n <= keep <= bytes.len() implies header_of(
        #[trigger] bytes.take(keep),
    ) == Some(HeaderView { flags, level, salt, nonce, payload_at: n }) by {
        let cut = bytes.take(keep);
        assert(cut.subrange(14, 14 + sl) =~= salt);
        assert(cut.subrange(15 + sl, n) =~= nonce);
    }
}

/// An unencrypted container decodes to the tar stream in its gzip stream.
pub proof fn lemma_plain_container_decodes(level: u8, gz: Seq<u8>, tar: Seq<u8>, password: Seq<char>)
    requires
        gunzip_of(gz) == Some(tar),
    ensures
        ({
            let out = header_bytes(FLAG_COMPRESSED, level, Seq::empty(), Seq::empty()) + gz;
            &&& out.take(11) == magic() + seq![VERSION_V1]
            &&& decoded(out, password) == Ok::<Seq<u8>, ArchiveError>(tar)
        }),
{
    lemma_header_reads_back(FLAG_COMPRESSED, level, Seq::empty(), Seq::empty(), gz);
}

/// An encrypted container decodes to the tar stream in its gzip stream, and
/// is refused once it has lost bytes at its end.
pub proof fn lemma_sealed_container_decodes(
    level: u8,
    salt: Seq<u8>,
    nonce: Seq<u8>,
    key: Seq<u8>,
    gz: Seq<u8>,
    tar: Seq<u8>,
    password: Seq<char>,
)
    requires
        password.len() > 0,
        salt.len() == SALT_LEN,
        nonce.len() == STREAM_NONCE_LEN,
        derived_key(password, salt) == Some(key),
        payload_opens(key, nonce, gz),
        chunk_count(gz) <= u32::MAX,
        gunzip_of(gz) == Some(tar),
    ensures
        ({
            let out = header_bytes(FLAGS_SEALED, level, salt, nonce) + payload_of(key, nonce, gz);
            &&& out.take(11) == magic() + seq![VERSION_V1]
            &&& decoded(out, password) == Ok::<Seq<u8>, ArchiveError>(tar)
            &&& truncations_fail(out, password)
        }),
{
    let payload = payload_of(key, nonce, gz);
    let h = header_bytes(FLAGS_SEALED, level, salt, nonce);
    let out = h + payload;
    lemma_header_reads_back(FLAGS_SEALED, level, salt, nonce, payload);
    lemma_payload_round_trip(key, nonce, gz);
    assert(h.len() == 38);
    assert forall|keep: int| 12 <= keep < out.len() implies #[trigger] decoded(
        out.take(keep),
        password,
    ) == Err::<Seq<u8>, ArchiveError>(ArchiveError::DecryptFailed) by {
        let cut = out.take(keep);
        assert(cut.take(10) =~= out.take(10));
        assert(cut[10] == out[10]);
        assert(cut[11] == out[11]);
        if keep >= 38 {
            assert(cut.skip(38) =~= payload.take(keep - 38));
            lemma_truncated_payload_fails(key, nonce, gz, keep - 38);
        }
    }
}

/// What a container begins with, for one that is written piece by piece:
/// its header, the gzip level that its payload is to be compressed at, and,
/// where it is encrypted, the writer that turns the gzip stream into
/// frames.
pub struct ArchiveStart {
    pub header: Vec<u8>,
    pub level: u8,
    pub writer: Option<StreamEncryptWriter>,
}

/// Whether a writer stands at the start of the payload of an encrypted
/// container with this salt, under this password.
pub open spec fn writer_starts(w: StreamEncryptWriter, password: Seq<char>, salt: Seq<u8>) -> bool {
    &&& w.wf()
    &&& w.accepted() == Seq::<u8>::empty()
    &&& w.base() == Seq::<u8>::empty()
    &&& w.held() == Seq::<u8>::empty()
    &&& w.handed_out() == Seq::<u8>::empty()
    &&& w.nonce().len() == STREAM_NONCE_LEN
    &&& derived_key(password, salt) == Some(w.key())
}

/// Whether a container begun with `start` begins as this password, level,
/// salt and nonce ask.
pub open spec fn starts_as(
    start: ArchiveStart,
    password: Option<Seq<char>>,
    requested_level: Option<u32>,
    salt: Seq<u8>,
    nonce: Seq<u8>,
) -> bool {
    &&& start.level == level_for(requested_level)
    &&& if wants_encryption(password) {
        &&& start.header@ == header_bytes(FLAGS_SEALED, start.level, salt, nonce)
        &&& start.writer matches Some(w)
        &&& writer_starts(w, password->0, salt)
        &&& w.nonce() == nonce
    } else {
        &&& start.header@ == header_bytes(
            FLAG_COMPRESSED,
            start.level,
            Seq::empty(),
            Seq::empty(),
        )
        &&& start.writer is None
    }
}

/// Begins a container with the salt and nonce given. Without a password
/// only the header is made, and salt and nonce are not looked at. Where a
/// password asks for encryption the key is derived: `KdfFailed` where none
/// derives, and no other failure.
pub fn start_archive(
    password: Option<&str>,
    gzip_level: Option<u32>,
    salt: [u8; 16],
    nonce: [u8; 7],
) -> (r: Result<ArchiveStart, ArchiveError>)
    ensures
        r is Err <==> wants_encryption(opt_text(password)) && derived_key(
            password_text(password),
            salt@,
        ) is None,
        match r {
            Ok(start) => starts_as(start, opt_text(password), gzip_level, salt@, nonce@),
            Err(e) => e == ArchiveError::KdfFailed,
        },
{
    let level = clamp_level(gzip_level);
    let encrypted = match password {
        Some(p) => p.unicode_len() > 0,
        None => false,
    };
    if !encrypted {
        let empty: Vec<u8> = Vec::new();
        let header = write_header(FLAG_COMPRESSED, level, empty.as_slice(), empty.as_slice());
        assert(empty@ =~= Seq::<u8>::empty());
        return Ok(ArchiveStart { header, level, writer: None });
    }
    let pw = match password {
        Some(p) => p,
        None => "",
    };
    let key = match derive_key(pw, salt.as_slice()) {
        Ok(k) => k,
        Err(e) => {
            return Err(e);
        },
    };
    let header = write_header(FLAGS_SEALED, level, salt.as_slice(), nonce.as_slice());
    let mut nonce_vec: Vec<u8> = Vec::new();
    nonce_vec.extend_from_slice(nonce.as_slice());
    assert(nonce_vec@ =~= nonce@);
    let w = StreamEncryptWriter::new(Vec::new(), key, nonce_vec);
    Ok(ArchiveStart { header, level, writer: Some(w) })
}

/// Whether the outcome of beginning an encrypted container is the one
/// that this salt and nonce give: `KdfFailed` where no key derives from
/// password and salt, else a start with them.
pub open spec fn begun_as(
    r: Result<ArchiveStart, ArchiveError>,
    password: Option<Seq<char>>,
    requested_level: Option<u32>,
    salt: Seq<u8>,
    nonce: Seq<u8>,
) -> bool {
    match r {
        Ok(start) => starts_as(start, password, requested_level, salt, nonce) && derived_key(
            password->0,
            salt,
        ) is Some,
        Err(e) => e == ArchiveError::KdfFailed && derived_key(password->0, salt) is None,
    }
}

/// Begins a container. Where a password asks for encryption, salt and
/// nonce are drawn from the system's random number generator: `RngFailed`
/// where it gives none, else the outcome is `start_archive`'s for the salt
/// and nonce that were drawn. Without a password nothing is drawn.
pub fn begin_archive(password: Option<&str>, gzip_level: Option<u32>) -> (r: Result<
    ArchiveStart,
    ArchiveError,
>)
    ensures
        !wants_encryption(opt_text(password)) ==> (r matches Ok(start) && starts_as(
            start,
            opt_text(password),
            gzip_level,
            Seq::empty(),
            Seq::empty(),
        )),
        wants_encryption(opt_text(password)) ==> r matches Err(ArchiveError::RngFailed)
            || exists|salt: Seq<u8>, nonce: Seq<u8>|
            salt.len() == SALT_LEN && nonce.len() == STREAM_NONCE_LEN && #[trigger] begun_as(
                r,
                opt_text(password),
                gzip_level,
                salt,
                nonce,
            ),
{
    let encrypted = match password {
        Some(p) => p.unicode_len() > 0,
        None => false,
    };
    let mut salt: [u8; 16] = [0;16];
    let mut nonce: [u8; 7] = [0;7];
    if encrypted {
        let s = match random_bytes(SALT_LEN) {
            Ok(v) => v,
            Err(e) => {
                return Err(e);
            },
        };
        let n = match random_bytes(STREAM_NONCE_LEN) {
            Ok(v) => v,
            Err(e) => {
                return Err(e);
            },
        };
        salt =
        [
            s[0],
            s[1],
            s[2],
            s[3],
            s[4],
            s[5],
            s[6],
            s[7],
            s[8],
            s[9],
            s[10],
            s[11],
            s[12],
            s[13],
            s[14],
            s[15],
        ];
        nonce = [n[0], n[1], n[2], n[3], n[4], n[5], n[6]];
    }
    let r = start_archive(password, gzip_level, salt, nonce);
    proof {
        if encrypted {
            assert(begun_as(r, opt_text(password), gzip_level, salt@, nonce@));
        }
    }
    r
}

/// Compresses a tar stream and writes it, in frames where the container
/// is encrypted, behind the header of a container that was begun.
fn pack_payload(
    start: ArchiveStart,
    tar: &[u8],
    password: Option<&str>,
    gzip_level: Option<u32>,
    Ghost(salt): Ghost<Seq<u8>>,
    Ghost(nonce): Ghost<Seq<u8>>,
) -> (r: Result<Vec<u8>, ArchiveError>)
    requires
        starts_as(start, opt_text(password), gzip_level, salt, nonce),
        wants_encryption(opt_text(password)) ==> salt.len() == SALT_LEN,
    ensures
        decode_outcome(r) == encoded(tar@, opt_text(password), gzip_level, salt, nonce),
        r matches Ok(out) ==> {
            &&& out@.take(11) == magic() + seq![VERSION_V1]
            &&& decoded(out@, password_text(password)) == Ok::<Seq<u8>, ArchiveError>(tar@)
            &&& wants_encryption(opt_text(password)) ==> truncations_fail(
                out@,
                password_text(password),
            )
        },
{
    let ArchiveStart { header, level, writer } = start;
    let gz = match gzip_bytes(tar, level as u32) {
        Some(z) => z,
        None => {
            match writer {
                Some(w) => {
                    w.close();
                },
                None => {},
            }
            return Err(ArchiveError::GzipIo);
        },
    };
    let mut out = header;
    match writer {
        None => {
            proof {
                lemma_plain_container_decodes(level, gz@, tar@, password_text(password));
            }
            out.extend_from_slice(gz.as_slice());
            assert(out@ == header_bytes(FLAG_COMPRESSED, level, Seq::empty(), Seq::empty()) + gz@);
            Ok(out)
        },
        Some(w) => {
            let mut w = w;
            let ghost key = w.key();
            assert(Seq::<u8>::empty() + gz@ =~= gz@);
            match w.write(gz.as_slice()) {
                Err(e) => Err(e),
                Ok(_) => match w.finish() {
                    Err(e) => Err(e),
                    Ok(frames) => {
                        proof {
                            assert(Seq::<u8>::empty() + frames@ =~= frames@);
                            lemma_sealed_container_decodes(
                                level,
                                salt,
                                nonce,
                                key,
                                gz@,
                                tar@,
                                password_text(password),
                            );
                        }
                        out.extend_from_slice(frames.as_slice());
                        assert(out@ == header_bytes(FLAGS_SEALED, level, salt, nonce) + payload_of(
                            key,
                            nonce,
                            gz@,
                        ));
                        Ok(out)
                    },
                },
            }
        },
    }
}

/// Builds the container for a tar stream, with the salt and nonce given.
///
/// The outcome is `encoded`'s, so it says when a container is owed and
/// which error comes when. A container decodes to the tar stream again
/// under the same password, and an encrypted one is refused once it has
/// lost bytes at its end.
pub fn encode_archive(
    tar: &[u8],
    password: Option<&str>,
    gzip_level: Option<u32>,
    salt: [u8; 16],
    nonce: [u8; 7],
) -> (r: Result<Vec<u8>, ArchiveError>)
    ensures
        decode_outcome(r) == encoded(tar@, opt_text(password), gzip_level, salt@, nonce@),
        r matches Ok(out) ==> {
            &&& out@.take(11) == magic() + seq![VERSION_V1]
            &&& decoded(out@, password_text(password)) == Ok::<Seq<u8>, ArchiveError>(tar@)
            &&& wants_encryption(opt_text(password)) ==> truncations_fail(
                out@,
                password_text(password),
            )
        },
{
    let start = match start_archive(password, gzip_level, salt, nonce) {
        Ok(s) => s,
        Err(e) => {
            return Err(e);
        },
    };
    pack_payload(start, tar, password, gzip_level, Ghost(salt@), Ghost(nonce@))
}

/// Builds the container for a tar stream. Where a password asks for
/// encryption, salt and nonce are drawn from the system's random number
/// generator: `RngFailed` where it gives none, else the outcome is
/// `encoded`'s for the salt and nonce that were drawn. Without encryption
/// nothing is drawn and the outcome is `encoded`'s as it stands.
pub fn create_archive_bytes(tar: &[u8], password: Option<&str>, gzip_level: Option<u32>) -> (r:
    Result<Vec<u8>, ArchiveError>)
    ensures
        !wants_encryption(opt_text(password)) ==> decode_outcome(r) == encoded(
            tar@,
            opt_text(password),
            gzip_level,
            Seq::empty(),
            Seq::empty(),
        ),
        wants_encryption(opt_text(password)) ==> r == Err::<Vec<u8>, ArchiveError>(
            ArchiveError::RngFailed,
        ) || exists|salt: Seq<u8>, nonce: Seq<u8>|
            salt.len() == SALT_LEN && nonce.len() == STREAM_NONCE_LEN && decode_outcome(r)
                == #[trigger] encoded(tar@, opt_text(password), gzip_level, salt, nonce),
        r matches Ok(out) ==> {
            &&& out@.take(11) == magic() + seq![VERSION_V1]
            &&& decoded(out@, password_text(password)) == Ok::<Seq<u8>, ArchiveError>(tar@)
            &&& wants_encryption(opt_text(password)) ==> truncations_fail(
                out@,
                password_text(password),
            )
        },
{
    let start = match begin_archive(password, gzip_level) {
        Ok(s) => s,
        Err(e) => {
            proof {
                if e != ArchiveError::RngFailed {
                    let (salt, nonce) = choose|salt: Seq<u8>, nonce: Seq<u8>|
                        salt.len() == SALT_LEN && nonce.len() == STREAM_NONCE_LEN
                            && #[trigger] begun_as(
                            Err::<ArchiveStart, ArchiveError>(e),
                            opt_text(password),
                            gzip_level,
                            salt,
                            nonce,
                        );
                    assert(encoded(tar@, opt_text(password), gzip_level, salt, nonce) == Err::<
                        Seq<u8>,
                        ArchiveError,
                    >(ArchiveError::KdfFailed));
                }
            }
            return Err(e);
        },
    };
    let ghost (salt, nonce) = if wants_encryption(opt_text(password)) {
        choose|salt: Seq<u8>, nonce: Seq<u8>|
            salt.len() == SALT_LEN && nonce.len() == STREAM_NONCE_LEN && #[trigger] begun_as(
                Ok::<ArchiveStart, ArchiveError>(start),
                opt_text(password),
                gzip_level,
                salt,
                nonce,
            )
    } else {
        (Seq::empty(), Seq::empty())
    };
    pack_payload(start, tar, password, gzip_level, Ghost(salt), Ghost(nonce))
}

fn gunzip_stream(bytes: &[u8]) -> (r: Result<Vec<u8>, ArchiveError>)
    ensures
        decode_outcome(r) == gunzipped(bytes@),
{
    match gunzip_bytes(bytes) {
        Some(t) => Ok(t),
        None => Err(ArchiveError::GzipIo),
    }
}

/// Reads the first bytes of a container and says what kind it is, before
/// any of its payload is looked at.
pub fn inspect_container(bytes: &[u8]) -> (r: Result<ContainerKind, ArchiveError>)
    ensures
        r == kind_of(bytes@),
        r matches Err(e) ==> forall|password: Seq<char>|
            #[trigger] decoded(bytes@, password) == Err::<Seq<u8>, ArchiveError>(e),
{
    let total = bytes.len();
    if total < 10 {
        return Err(ArchiveError::BadMagic);
    }
    let m = magic_bytes();
    let mut i: usize = 0;
    while i < 10
        invariant
            i <= 10 <= total,
            total == bytes@.len(),
            m@ == magic(),
            bytes@.take(i as int) == magic().take(i as int),
        decreases 10 - i,
    {
        if bytes[i] != m[i] {
            assert(bytes@.take(10)[i as int] != magic()[i as int]);
            return Err(ArchiveError::BadMagic);
        }
        assert(bytes@.take(i + 1) =~= bytes@.take(i as int).push(bytes@[i as int]));
        assert(magic().take(i + 1) =~= magic().take(i as int).push(magic()[i as int]));
        i += 1;
    }
    assert(magic().take(10) =~= magic());
    if total < 11 {
        return Err(ArchiveError::UnsupportedVersion);
    }
    if bytes[10] == GZIP_FIRST_BYTE {
        return Ok(ContainerKind::Legacy);
    }
    if bytes[10] != VERSION_V1 {
        return Err(ArchiveError::UnsupportedVersion);
    }
    let short = if total >= 12 && bytes[11] % 2 == 1 {
        ArchiveError::DecryptFailed
    } else {
        ArchiveError::GzipIo
    };
    if total < 14 {
        return Err(short);
    }
    let salt_len = bytes[13] as usize;
    if total - 14 < salt_len + 1 {
        return Err(short);
    }
    let nonce_len = bytes[14 + salt_len] as usize;
    if total - 15 - salt_len < nonce_len {
        return Err(short);
    }
    if bytes[11] % 2 == 1 {
        Ok(ContainerKind::Encrypted)
    } else {
        Ok(ContainerKind::Plain)
    }
}

/// Reads the header that the bytes begin with.
pub fn read_header(bytes: &[u8]) -> (r: Result<ContainerHeader, ArchiveError>)
    ensures
        header_outcome(r) == header_read(bytes@),
        r matches Ok(h) ==> h.payload_at <= bytes@.len(),
{
    let kind = match inspect_container(bytes) {
        Ok(k) => k,
        Err(e) => {
            return Err(e);
        },
    };
    if kind == ContainerKind::Legacy {
        return Ok(
            ContainerHeader {
                kind,
                level: 0,
                salt: Vec::new(),
                nonce: Vec::new(),
                payload_at: 10,
            },
        );
    }
    let salt_len = bytes[13] as usize;
    let nonce_len = bytes[14 + salt_len] as usize;
    let mut salt: Vec<u8> = Vec::new();
    salt.extend_from_slice(slice_subrange(bytes, 14, 14 + salt_len));
    let mut nonce: Vec<u8> = Vec::new();
    nonce.extend_from_slice(slice_subrange(bytes, 15 + salt_len, 15 + salt_len + nonce_len));
    assert(salt@ =~= bytes@.subrange(14, 14 + salt_len));
    assert(nonce@ =~= bytes@.subrange(15 + salt_len, 15 + salt_len + nonce_len));
    Ok(ContainerHeader { kind, level: bytes[12], salt, nonce, payload_at: 15 + salt_len + nonce_len })
}

/// A header is read from the first bytes of a container: what follows
/// the longest header there can be does not change it.
pub proof fn lemma_header_in_first_bytes(bytes: Seq<u8>, n: int)
    requires
        MAX_HEADER_LEN <= n <= bytes.len(),
    ensures
        kind_of(bytes.take(n)) == kind_of(bytes),
        header_read(bytes.take(n)) == header_read(bytes),
{
    let cut = bytes.take(n);
    assert(cut.take(10) =~= bytes.take(10));
    assert(cut[10] == bytes[10]);
    assert(cut[11] == bytes[11]);
    let salt_len = bytes[13] as int;
    assert(cut[13] == bytes[13]);
    let nonce_len = bytes[14 + salt_len] as int;
    assert(cut[14 + salt_len] == bytes[14 + salt_len]);
    assert(cut.subrange(14, 14 + salt_len) =~= bytes.subrange(14, 14 + salt_len));
    assert(cut.subrange(15 + salt_len, 15 + salt_len + nonce_len) =~= bytes.subrange(
        15 + salt_len,
        15 + salt_len + nonce_len,
    ));
}

/// The reader for the frames of an encrypted container with this salt and
/// nonce, its source still empty. `PasswordRequired` without a password,
/// `KdfFailed` where no key derives from it, `DecryptFailed` where the
/// nonce is not one of this cipher.
pub fn payload_reader(salt: &[u8], nonce: &[u8], password: Option<&str>) -> (r: Result<
    StreamDecryptReader,
    ArchiveError,
>)
    ensures
        r is Ok <==> password_text(password).len() > 0 && derived_key(
            password_text(password),
            salt@,
        ) is Some && nonce@.len() == STREAM_NONCE_LEN,
        match r {
            Ok(reader) => {
                &&& reader.wf()
                &&& Some(reader.key()) == derived_key(password_text(password), salt@)
                &&& reader.nonce() == nonce@
                &&& reader.source_left() == Seq::<u8>::empty()
                &&& reader.pending() == Seq::<u8>::empty()
                &&& reader.position() == 0
                &&& !reader.done()
                &&& !reader.failed()
            },
            Err(e) => e == if password_text(password).len() == 0 {
                ArchiveError::PasswordRequired
            } else if derived_key(password_text(password), salt@) is None {
                ArchiveError::KdfFailed
            } else {
                ArchiveError::DecryptFailed
            },
        },
{
    let pw = match password {
        Some(p) => p,
        None => "",
    };
    proof {
        reveal_strlit("");
    }
    if pw.unicode_len() == 0 {
        assert(pw@ =~= Seq::<char>::empty());
        return Err(ArchiveError::PasswordRequired);
    }
    let key = match derive_key(pw, salt) {
        Ok(k) => k,
        Err(e) => {
            return Err(e);
        },
    };
    if nonce.len() != STREAM_NONCE_LEN {
        let mut k = key;
        wipe(&mut k);
        return Err(ArchiveError::DecryptFailed);
    }
    let mut nonce_vec: Vec<u8> = Vec::new();
    nonce_vec.extend_from_slice(nonce);
    assert(nonce_vec@ =~= nonce@);
    Ok(StreamDecryptReader::new(Vec::new(), key, nonce_vec))
}

/// Reads the tar stream out of a container.
pub fn decode_archive(bytes: &[u8], password: Option<&str>) -> (r: Result<Vec<u8>, ArchiveError>)
    ensures
        decode_outcome(r) == decoded(bytes@, password_text(password)),
{
    let total = bytes.len();
    let kind = match inspect_container(bytes) {
        Ok(k) => k,
        Err(e) => {
            return Err(e);
        },
    };
    if kind == ContainerKind::Legacy {
        let gz = slice_subrange(bytes, 10, total);
        assert(gz@ =~= bytes@.skip(10));
        return gunzip_stream(gz);
    }
    let salt_len = bytes[13] as usize;
    let nonce_len = bytes[14 + salt_len] as usize;
    let salt = slice_subrange(bytes, 14, 14 + salt_len);
    let nonce = slice_subrange(bytes, 15 + salt_len, 15 + salt_len + nonce_len);
    let payload = slice_subrange(bytes, 15 + salt_len + nonce_len, total);
    assert(payload@ =~= bytes@.skip(15 + salt_len + nonce_len));
    if kind == ContainerKind::Encrypted {
        let mut reader = match payload_reader(salt, nonce, password) {
            Ok(r) => r,
            Err(e) => {
                return Err(e);
            },
        };
        reader.feed(payload);
        assert(reader.source_left() =~= payload@);
        match reader.read_to_end() {
            Err(e) => Err(e),
            Ok(gz) => {
                assert(Seq::<u8>::empty() + gz@ =~= gz@);
                reader.close();
                gunzip_stream(gz.as_slice())
            },
        }
    } else {
        gunzip_stream(payload)
    }
}

/// Under a password, an encrypted container is refused with
/// `DecryptFailed` unless a key derives from the password and the cipher
/// opens the first frame under that key. So a password other than the
/// one the container was made with reads nothing of it, as far as the
/// cipher refuses what another key sealed.
pub proof fn lemma_password_must_open_first_frame(
    level: u8,
    salt: Seq<u8>,
    nonce: Seq<u8>,
    payload: Seq<u8>,
    password: Seq<char>,
)
    requires
        password.len() > 0,
        salt.len() <= 255,
        nonce.len() <= 255,
    ensures
        ({
            let out = header_bytes(FLAGS_SEALED, level, salt, nonce) + payload;
            match derived_key(password, salt) {
                None => decoded(out, password) == Err::<Seq<u8>, ArchiveError>(
                    ArchiveError::KdfFailed,
                ),
                Some(key) => decoded(out, password) == Err::<Seq<u8>, ArchiveError>(
                    ArchiveError::DecryptFailed,
                ) || (nonce.len() == STREAM_NONCE_LEN && frame_opens(key, nonce, 0, payload)),
            }
        }),
{
    lemma_header_reads_back(FLAGS_SEALED, level, salt, nonce, payload);
}

/// An encrypted container whose payload was altered behind its first
/// `upto` frames is refused with `DecryptFailed` unless what stands there
/// now begins with a frame that the cipher opens at that position. So one
/// changed byte of the payload is accepted only if the cipher opens the
/// frame that holds it.
pub proof fn lemma_altered_payload_must_open(
    level: u8,
    salt: Seq<u8>,
    nonce: Seq<u8>,
    key: Seq<u8>,
    gz: Seq<u8>,
    upto: nat,
    rest: Seq<u8>,
    password: Seq<char>,
)
    requires
        password.len() > 0,
        salt.len() <= 255,
        nonce.len() == STREAM_NONCE_LEN,
        chunks_open(key, nonce, gz, upto),
        upto <= u32::MAX,
        upto * PLAIN_CHUNK <= gz.len(),
    ensures
        ({
            let out = header_bytes(FLAGS_SEALED, level, salt, nonce) + (full_frames(
                key,
                nonce,
                gz,
                upto,
            ) + rest);
            derived_key(password, salt) == Some(key) ==> decoded(out, password) == Err::<
                Seq<u8>,
                ArchiveError,
            >(ArchiveError::DecryptFailed) || frame_opens(key, nonce, upto, rest)
        }),
{
    lemma_header_reads_back(FLAGS_SEALED, level, salt, nonce, full_frames(key, nonce, gz, upto) + rest);
    lemma_accepted_stream_opens_next_frame(key, nonce, gz, upto, rest);
}

/// A container of the old kind, a gzip stream behind the magic bytes,
/// decodes to what the gzip stream holds, whatever the password.
pub proof fn lemma_legacy_container_decodes(bytes: Seq<u8>, password: Seq<char>)
    requires
        bytes.len() >= 11,
        bytes.take(11) == magic() + seq![GZIP_FIRST_BYTE],
    ensures
        decoded(bytes, password) == gunzipped(bytes.skip(10)),
{
    assert(bytes.take(10) =~= bytes.take(11).take(10));
    assert(bytes.take(11).take(10) =~= magic());
    assert(bytes[10] == bytes.take(11)[10]);
}

} // verus!
