//! The signature cache: where entries are kept, what they are named, and which of them count.
//!
//! An entry is a file named after the video's path, size and modification time and after the
//! settings that affect a signature. Its first byte is the version of the format, and the stored
//! signature follows. Entries that were not used for a while can be removed.

use crate::entry;
use crate::paths::{self, join_name, lossy_text, path_of_text};
use crate::visual::config::SignatureConfig;
use crate::visual::VideoSignature;
use std::path::PathBuf;
use vstd::bytes::{u32_to_le_bytes, u64_to_le_bytes};
use vstd::prelude::*;

verus! {

/// Cache format version. Entries of another version are ignored.
pub const CACHE_VERSION: u8 = 1;

// ---- Places ----

/// The directory of the user's caches: the one that is set, else `.cache` in the home directory.
fn dirs_cache(xdg_cache_home: Option<PathBuf>, home: Option<PathBuf>) -> (dir: Option<PathBuf>)
    ensures
        dir is None <==> xdg_cache_home is None && home is None,
        dir matches Some(d) ==> paths::path_parts(d) == match (xdg_cache_home, home) {
            (Some(set), _) => paths::path_parts(set),
            (None, Some(h)) => paths::path_parts(h).push(".cache"@),
            (None, None) => Seq::empty(),
        },
{
    match (xdg_cache_home, home) {
        (Some(set), _) => Some(set),
        (None, Some(h)) => {
            proof {
                reveal_strlit(".cache");
            }
            Some(join_name(&h, ".cache"))
        },
        (None, None) => None,
    }
}

/// The components of the cache directory.
pub open spec fn cache_dir_parts(
    xdg_cache_home: Option<PathBuf>,
    home: Option<PathBuf>,
) -> Seq<Seq<char>> {
    let base = match (xdg_cache_home, home) {
        (Some(set), _) => paths::path_parts(set),
        (None, Some(h)) => paths::path_parts(h).push(".cache"@),
        (None, None) => seq![".similario_cache"@],
    };
    base.push("similario"@).push("signatures"@)
}

/// The cache directory for signatures: within the user's cache directory, or, where there is none,
/// within the current one.
pub fn cache_dir(xdg_cache_home: Option<PathBuf>, home: Option<PathBuf>) -> (dir: PathBuf)
    ensures
        paths::path_parts(dir) == cache_dir_parts(xdg_cache_home, home),
{
    proof {
        reveal_strlit(".similario_cache");
        reveal_strlit("similario");
        reveal_strlit("signatures");
    }
    let base = match dirs_cache(xdg_cache_home, home) {
        Some(dir) => dir,
        None => path_of_text(".similario_cache"),
    };
    let own = join_name(&base, "similario");
    join_name(&own, "signatures")
}

/// Whether a text holds nothing that separates components or drives.
pub open spec fn is_key(key: Seq<char>) -> bool {
    !key.contains('/') && !key.contains('\\') && !key.contains(':')
}

proof fn lemma_key_with_ending(key: Seq<char>, ending: Seq<char>)
    requires
        is_key(key),
        ending.len() == 4,
        is_key(ending),
    ensures
        paths::is_plain_name(key + ending),
{
    let name = key + ending;
    if name.contains('/') {
        let i = name.index_of('/');
        if i < key.len() {
            assert(key[i] == '/');
        } else {
            assert(ending[i - key.len()] == '/');
        }
    }
    if name.contains('\\') {
        let i = name.index_of('\\');
        if i < key.len() {
            assert(key[i] == '\\');
        } else {
            assert(ending[i - key.len()] == '\\');
        }
    }
    if name.contains(':') {
        let i = name.index_of(':');
        if i < key.len() {
            assert(key[i] == ':');
        } else {
            assert(ending[i - key.len()] == ':');
        }
    }
}

/// Where in a directory the entry with a key is kept.
pub open spec fn entry_parts(dir: Seq<Seq<char>>, key: Seq<char>) -> Seq<Seq<char>> {
    dir.push(key + ".bin"@)
}

/// Where in a directory the entry with a key is written to at first.
pub open spec fn temporary_parts(dir: Seq<Seq<char>>, key: Seq<char>) -> Seq<Seq<char>> {
    dir.push(key + ".tmp"@)
}

/// The file of an entry: `<key>.bin` in the cache directory.
pub fn cache_path(dir: &PathBuf, key: &str) -> (path: PathBuf)
    requires
        is_key(key@),
    ensures
        paths::path_parts(path) == entry_parts(paths::path_parts(*dir), key@),
{
    let mut name = String::from_str(key);
    name.append(".bin");
    proof {
        reveal_strlit(".bin");
        lemma_key_with_ending(key@, ".bin"@);
    }
    join_name(dir, name.as_str())
}

/// The file that an entry is written to before it takes its place: `<key>.tmp`.
pub fn temporary_path(dir: &PathBuf, key: &str) -> (path: PathBuf)
    requires
        is_key(key@),
    ensures
        paths::path_parts(path) == temporary_parts(paths::path_parts(*dir), key@),
{
    let mut name = String::from_str(key);
    name.append(".tmp");
    proof {
        reveal_strlit(".tmp");
        lemma_key_with_ending(key@, ".tmp"@);
    }
    join_name(dir, name.as_str())
}

// ---- Keys ----

/// The BLAKE3 hash of bytes, as a hexadecimal text.
pub uninterp spec fn blake3_hex(bytes: Seq<u8>) -> Seq<char>;

/// Whether a character is a hexadecimal digit, in small letters.
pub open spec fn is_hex_digit(c: char) -> bool {
    '0' <= c <= '9' || 'a' <= c <= 'f'
}

/// Whether a text is made of 64 hexadecimal digits, in small letters.
pub open spec fn is_hex_hash(text: Seq<char>) -> bool {
    &&& text.len() == 64
    &&& forall|i: int| 0 <= i < text.len() ==> is_hex_digit(#[trigger] text[i])
}

/// `blake3::Hasher`: the hash of the given bytes, spelled by `Hash::to_hex` as 64 hexadecimal
/// digits in small letters.
#[verifier::external_body]
fn hash_hex(bytes: &[u8]) -> (text: String)
    ensures
        text@ == blake3_hex(bytes@),
        is_hex_hash(text@),
{
    let mut hasher = blake3::Hasher::new();
    hasher.update(bytes);
    hasher.finalize().to_hex().to_string()
}

/// The eight bytes of a number, least significant one first.
pub open spec fn le(n: u64) -> Seq<u8> {
    vstd::bytes::spec_u64_to_le_bytes(n)
}

/// The bytes of a machine word, of which there are four or eight, least significant one first.
pub open spec fn le_word(n: usize) -> Seq<u8> {
    if usize::BITS == 64 {
        le(n as u64)
    } else {
        vstd::bytes::spec_u32_to_le_bytes(n as u32)
    }
}

/// A truth value as a byte.
pub open spec fn flag(value: bool) -> u8 {
    if value {
        1
    } else {
        0
    }
}

/// The part of the key material after the path: size and time of the file, the version of the
/// format, and the settings that affect a signature.
pub open spec fn key_suffix(size: u64, mtime_secs: u64, config: SignatureConfig) -> Seq<u8> {
    le(size) + le(mtime_secs) + seq![CACHE_VERSION] + le(config.skip_secs.bits)
        + le_word(config.window_count) + le(config.window_secs.bits)
        + seq![flag(config.cropdetect), flag(config.audio_fingerprint)]
}

/// What a key is the hash of.
pub open spec fn key_material(
    path: Seq<char>,
    size: u64,
    mtime_secs: u64,
    config: SignatureConfig,
) -> Seq<u8> {
    vstd::utf8::encode_utf8(path) + key_suffix(size, mtime_secs, config)
}

/// The key of a video file.
pub open spec fn key_of(
    path: Seq<char>,
    size: u64,
    mtime_secs: u64,
    config: SignatureConfig,
) -> Seq<char> {
    blake3_hex(key_material(path, size, mtime_secs, config))
}

fn push_all(bytes: &mut Vec<u8>, more: &[u8])
    ensures
        final(bytes)@ == old(bytes)@ + more@,
{
    let ghost before = bytes@;
    let mut i: usize = 0;
    while i < more.len()
        invariant
            i <= more@.len(),
            bytes@ == before + more@.take(i as int),
        decreases more@.len() - i,
    {
        bytes.push(more[i]);
        assert(bytes@ =~= before + more@.take(i + 1));
        i = i + 1;
    }
    assert(more@.take(i as int) =~= more@);
}

fn push_number(bytes: &mut Vec<u8>, n: u64)
    ensures
        final(bytes)@ == old(bytes)@ + le(n),
{
    let le_bytes = u64_to_le_bytes(n);
    push_all(bytes, le_bytes.as_slice());
}

fn push_word(bytes: &mut Vec<u8>, n: usize)
    ensures
        final(bytes)@ == old(bytes)@ + le_word(n),
{
    if usize::BITS == 64 {
        push_number(bytes, n as u64);
    } else {
        let le_bytes = u32_to_le_bytes(n as u32);
        push_all(bytes, le_bytes.as_slice());
    }
}

fn flag_byte(value: bool) -> (byte: u8)
    ensures
        byte == flag(value),
{
    if value {
        1
    } else {
        0
    }
}

/// Lays out what a key is the hash of.
fn lay_out(path: &str, size: u64, mtime_secs: u64, config: &SignatureConfig) -> (material: Vec<u8>)
    ensures
        material@ == key_material(path@, size, mtime_secs, *config),
{
    let mut material: Vec<u8> = Vec::new();
    push_all(&mut material, path.as_bytes());
    push_number(&mut material, size);
    push_number(&mut material, mtime_secs);
    material.push(CACHE_VERSION);
    push_number(&mut material, config.skip_secs.bits);
    push_word(&mut material, config.window_count);
    push_number(&mut material, config.window_secs.bits);
    material.push(flag_byte(config.cropdetect));
    material.push(flag_byte(config.audio_fingerprint));
    assert(material@ =~= key_material(path@, size, mtime_secs, *config));
    material
}

/// Computes the key of a video file: the hash of its path, size and modification time and of the
/// settings that affect its signature.
pub fn cache_key(
    path: &PathBuf,
    size: u64,
    mtime_secs: u64,
    config: &SignatureConfig,
) -> (key: String)
    ensures
        key@ == key_of(paths::path_text(*path), size, mtime_secs, *config),
        is_hex_hash(key@),
        is_key(key@),
{
    let spelling = lossy_text(path);
    let material = lay_out(spelling.as_str(), size, mtime_secs, config);
    let key = hash_hex(material.as_slice());
    assert(is_key(key@)) by {
        assert(forall|i: int| 0 <= i < key@.len() ==> is_hex_digit(#[trigger] key@[i]));
    }
    key
}

// ---- Entries ----

/// The stored form of an entry: the version of the format, and then the signature.
pub open spec fn framed(payload: Seq<u8>) -> Seq<u8> {
    seq![CACHE_VERSION] + payload
}

/// Makes the stored form of an entry.
pub fn frame_entry(payload: &[u8]) -> (bytes: Vec<u8>)
    ensures
        bytes@ == framed(payload@),
{
    let mut bytes: Vec<u8> = Vec::new();
    bytes.push(CACHE_VERSION);
    push_all(&mut bytes, payload);
    assert(bytes@ =~= seq![CACHE_VERSION] + payload@);
    bytes
}

/// What the stored form of an entry holds: nothing, if it is of another version.
pub open spec fn unframed(bytes: Seq<u8>) -> Option<Seq<u8>> {
    if bytes.len() > 0 && bytes[0] == CACHE_VERSION {
        Some(bytes.skip(1))
    } else {
        None
    }
}

/// Takes the stored form of an entry apart: nothing comes of one of another version.
pub fn unframe_entry(bytes: &[u8]) -> (payload: Option<Vec<u8>>)
    ensures
        payload is Some <==> unframed(bytes@) is Some,
        payload matches Some(p) ==> unframed(bytes@) == Some(p@),
{
    if bytes.len() == 0 || bytes[0] != CACHE_VERSION {
        return None;
    }
    let mut payload: Vec<u8> = Vec::new();
    let mut i: usize = 1;
    while i < bytes.len()
        invariant
            1 <= i <= bytes@.len(),
            payload@ == bytes@.subrange(1, i as int),
        decreases bytes@.len() - i,
    {
        payload.push(bytes[i]);
        assert(payload@ =~= bytes@.subrange(1, i + 1));
        i = i + 1;
    }
    assert(payload@ =~= bytes@.skip(1));
    Some(payload)
}

// ---- Cleaning up ----

/// The earliest time that a system clock expresses, in nanoseconds since 1970.
pub const EARLIEST: i128 = -9_223_372_036_854_775_808_000_000_000;

/// The time before which an entry is old: so many days before now, or 1970, where no clock
/// expresses that.
pub open spec fn cutoff(now: int, max_age_days: int) -> int {
    let time = now - max_age_days * 86_400_000_000_000;
    if time >= EARLIEST {
        time
    } else {
        0
    }
}

/// The time before which an entry is old, in nanoseconds since 1970.
pub fn stale_cutoff(now: i128, max_age_days: u64) -> (time: i128)
    requires
        now >= EARLIEST,
    ensures
        time == cutoff(now as int, max_age_days as int),
{
    let age: i128 = max_age_days as i128 * 86_400_000_000_000;
    let time: i128 = now - age;
    if time >= EARLIEST {
        time
    } else {
        0
    }
}

/// Whether a file of the cache directory is to be removed: it is an entry, and was last used
/// before the cutoff. A file whose time is unknown stays.
pub fn is_stale(extension: Option<&str>, modified: Option<i128>, cutoff_time: i128) -> (stale: bool)
    ensures
        stale <==> extension is Some && extension->0@ == "bin"@ && modified is Some && modified->0
            < cutoff_time,
{
    match (extension, modified) {
        (Some(ending), Some(time)) => crate::text::equal(ending, "bin") && time < cutoff_time,
        _ => false,
    }
}

// ---- Laws ----

/// What is read of an entry is what was written to it.
pub proof fn law_entries_read_back(payload: Seq<u8>)
    ensures
        unframed(framed(payload)) == Some(payload),
{
    assert(framed(payload).skip(1) =~= payload);
}

/// An entry of another version is ignored, whatever follows.
pub proof fn law_other_versions_are_ignored(version: u8, payload: Seq<u8>)
    requires
        version != CACHE_VERSION,
    ensures
        unframed(seq![version] + payload) is None,
{
}

/// The material of a key tells apart whatever goes into it: paths, sizes, times and settings. Two
/// keys are the same only if all of them are, or if the hash collides.
pub proof fn law_key_material_is_unambiguous(
    path_a: Seq<char>,
    size_a: u64,
    mtime_a: u64,
    config_a: SignatureConfig,
    path_b: Seq<char>,
    size_b: u64,
    mtime_b: u64,
    config_b: SignatureConfig,
)
    requires
        key_material(path_a, size_a, mtime_a, config_a) == key_material(
            path_b,
            size_b,
            mtime_b,
            config_b,
        ),
    ensures
        path_a == path_b,
        size_a == size_b,
        mtime_a == mtime_b,
        config_a.skip_secs == config_b.skip_secs,
        config_a.window_count == config_b.window_count,
        config_a.window_secs == config_b.window_secs,
        config_a.cropdetect == config_b.cropdetect,
        config_a.audio_fingerprint == config_b.audio_fingerprint,
{
    vstd::bytes::lemma_auto_spec_u64_to_from_le_bytes();
    vstd::bytes::lemma_auto_spec_u32_to_from_le_bytes();
    let w: int = if usize::BITS == 64 { 8 } else { 4 };
    let n = 35 + w;
    let a = key_material(path_a, size_a, mtime_a, config_a);
    let b = key_material(path_b, size_b, mtime_b, config_b);
    let sa = key_suffix(size_a, mtime_a, config_a);
    let sb = key_suffix(size_b, mtime_b, config_b);
    let pa = vstd::utf8::encode_utf8(path_a);
    let pb = vstd::utf8::encode_utf8(path_b);
    assert(sa.len() == n && sb.len() == n);
    assert(pa =~= a.take(a.len() - n));
    assert(pb =~= b.take(b.len() - n));
    assert(sa =~= a.skip(a.len() - n));
    assert(sb =~= b.skip(b.len() - n));
    assert(path_a == path_b) by {
        vstd::utf8::encode_utf8_decode_utf8(path_a);
        vstd::utf8::encode_utf8_decode_utf8(path_b);
    }
    assert(le(size_a) =~= sa.subrange(0, 8));
    assert(le(size_b) =~= sb.subrange(0, 8));
    assert(le(mtime_a) =~= sa.subrange(8, 16));
    assert(le(mtime_b) =~= sb.subrange(8, 16));
    assert(le(config_a.skip_secs.bits) =~= sa.subrange(17, 25));
    assert(le(config_b.skip_secs.bits) =~= sb.subrange(17, 25));
    assert(le_word(config_a.window_count) =~= sa.subrange(25, 25 + w));
    assert(le_word(config_b.window_count) =~= sb.subrange(25, 25 + w));
    assert(le(config_a.window_secs.bits) =~= sa.subrange(25 + w, 33 + w));
    assert(le(config_b.window_secs.bits) =~= sb.subrange(25 + w, 33 + w));
    assert(flag(config_a.cropdetect) == sa[33 + w]);
    assert(flag(config_b.cropdetect) == sb[33 + w]);
    assert(flag(config_a.audio_fingerprint) == sa[34 + w]);
    assert(flag(config_b.audio_fingerprint) == sb[34 + w]);
}

/// The timeouts of ffmpeg calls do not affect a signature, so they do not affect the key.
pub proof fn law_timeouts_do_not_affect_keys(
    path: Seq<char>,
    size: u64,
    mtime_secs: u64,
    config: SignatureConfig,
    other: SignatureConfig,
)
    requires
        other == (SignatureConfig { ffmpeg_timeout: other.ffmpeg_timeout, ..config }),
    ensures
        key_material(path, size, mtime_secs, config) == key_material(
            path,
            size,
            mtime_secs,
            other,
        ),
{
}

/// What a cache directory holds: the bytes of each file, by the components of its path.
pub type Files = Map<Seq<Seq<char>>, Seq<u8>>;

/// The files after the entry with a key was saved.
pub open spec fn saved(
    files: Files,
    dir: Seq<Seq<char>>,
    key: Seq<char>,
    payload: Seq<u8>,
) -> Files {
    files.insert(entry_parts(dir, key), framed(payload))
}

/// What is loaded of the entry with a key: the signature that its file holds; nothing where there
/// is no such file, it is of another version or it holds no signature.
pub open spec fn loaded(
    files: Files,
    dir: Seq<Seq<char>>,
    key: Seq<char>,
) -> Option<entry::SignatureView> {
    if files.dom().contains(entry_parts(dir, key)) {
        match unframed(files[entry_parts(dir, key)]) {
            Some(payload) => entry::decoded(payload),
            None => None,
        }
    } else {
        None
    }
}

/// A signature that was saved is loaded again, with all that it holds, as long as the file is the
/// same and the settings differ in nothing but the timeouts of ffmpeg calls.
pub proof fn law_saved_signatures_are_loaded(
    files: Files,
    dir: Seq<Seq<char>>,
    path: Seq<char>,
    size: u64,
    mtime_secs: u64,
    config: SignatureConfig,
    other: SignatureConfig,
    signature: VideoSignature,
    payload: Seq<u8>,
)
    requires
        other == (SignatureConfig { ffmpeg_timeout: other.ffmpeg_timeout, ..config }),
        entry::unpacked(payload) matches Some(record) && entry::is_record_of(
            record,
            entry::signature_view(signature),
        ),
        paths::path_parts(signature.path) == paths::text_parts(
            paths::path_text(signature.path),
        ),
    ensures
        loaded(
            saved(files, dir, key_of(path, size, mtime_secs, config), payload),
            dir,
            key_of(path, size, mtime_secs, other),
        ) == Some(entry::signature_view(signature)),
{
    law_timeouts_do_not_affect_keys(path, size, mtime_secs, config, other);
    law_entries_read_back(payload);
    entry::law_records_read_back(entry::unpacked(payload)->0, signature);
}

/// Saving an entry leaves the entries with other keys as they are: of a file with another path,
/// size or time, or of other settings, nothing new is loaded, unless the hash collides.
pub proof fn law_saving_keeps_other_entries(
    files: Files,
    dir: Seq<Seq<char>>,
    key: Seq<char>,
    payload: Seq<u8>,
    other: Seq<char>,
)
    requires
        other != key,
    ensures
        loaded(saved(files, dir, key, payload), dir, other) == loaded(files, dir, other),
{
    let a = entry_parts(dir, key);
    let b = entry_parts(dir, other);
    if a == b {
        assert(a[dir.len() as int] == b[dir.len() as int]);
        let name = key + ".bin"@;
        assert(name == other + ".bin"@);
        assert(name.len() == other.len() + ".bin"@.len());
        assert(key =~= name.take(key.len() as int));
        assert(other =~= name.take(key.len() as int));
    }
}

/// A file that an entry is written to at first is never taken for an entry.
pub proof fn law_temporary_files_are_no_entries(
    dir: Seq<Seq<char>>,
    key: Seq<char>,
    other: Seq<char>,
)
    ensures
        temporary_parts(dir, key) != entry_parts(dir, other),
{
    reveal_strlit(".bin");
    reveal_strlit(".tmp");
    let a = temporary_parts(dir, key);
    let b = entry_parts(dir, other);
    assert(a[dir.len() as int].last() == 'p');
    assert(b[dir.len() as int].last() == 'n');
}

/// Entries are kept for the given number of days after their last use, and no longer: an entry is
/// older than the cutoff exactly where more time than that has passed since.
pub proof fn law_entries_are_kept_for_days(now: int, max_age_days: int, used: int)
    requires
        now - max_age_days * (24 * 60 * 60 * 1_000_000_000) >= -9_223_372_036_854_775_808
            * 1_000_000_000,
    ensures
        used < cutoff(now, max_age_days) <==> now - used > max_age_days * (24 * 60 * 60
            * 1_000_000_000),
{
}

} // verus!
