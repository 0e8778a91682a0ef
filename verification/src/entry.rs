//! What an entry of the cache holds of a signature.
//!
//! The fields of a signature are laid out one after another. Times and rates are doubles, and the
//! aspect ratio is a number of single precision; they are given by their bits.

use crate::double::Double;
use crate::metadata::{self, VideoMetadata};
use crate::paths::{self, path_of_text, unicode_text};
use crate::single::Single;
use crate::visual::hash::{self, HashBits};
use crate::visual::{TemporalHash, VideoSignature};
use vstd::prelude::*;

verus! {

// ---- Records ----

/// The metadata of a record: the bits of its duration and of its frame rate, codec, bit rate,
/// width and height.
pub type PlainMetadata = (
    u64,
    Option<u64>,
    Option<String>,
    Option<u64>,
    Option<u32>,
    Option<u32>,
);

/// A record: path, duration, the bits of the aspect ratio, the hashes with their positions, the
/// fingerprint and the metadata.
pub type PlainRecord = (
    String,
    u64,
    u32,
    Vec<(u64, u64, Vec<u8>)>,
    Option<Vec<u32>>,
    Option<PlainMetadata>,
);

/// The metadata of a record, with mathematical values.
pub struct RecordMetadata {
    pub duration: u64,
    pub fps: Option<u64>,
    pub codec: Option<Seq<char>>,
    pub bitrate: Option<u64>,
    pub width: Option<u32>,
    pub height: Option<u32>,
}

/// A record, with mathematical values.
pub struct Record {
    pub path: Seq<char>,
    pub duration_ms: u64,
    pub ratio: u32,
    pub hashes: Seq<(u64, u64, Seq<u8>)>,
    pub fingerprint: Option<Seq<u32>>,
    pub metadata: Option<RecordMetadata>,
}

/// The items of an optional list.
pub open spec fn optional_items(list: Option<Vec<u32>>) -> Option<Seq<u32>> {
    match list {
        Some(items) => Some(items@),
        None => None,
    }
}

/// The hashes that a record holds.
pub open spec fn plain_hashes(list: Seq<(u64, u64, Vec<u8>)>) -> Seq<(u64, u64, Seq<u8>)> {
    Seq::new(list.len(), |i: int| (list[i].0, list[i].1, list[i].2@))
}

/// The metadata that a record holds.
pub open spec fn plain_metadata(plain: Option<PlainMetadata>) -> Option<RecordMetadata> {
    match plain {
        Some(m) => Some(
            RecordMetadata {
                duration: m.0,
                fps: m.1,
                codec: metadata::optional_text(m.2),
                bitrate: m.3,
                width: m.4,
                height: m.5,
            },
        ),
        None => None,
    }
}

/// What a record holds.
pub open spec fn plain_record(plain: PlainRecord) -> Record {
    Record {
        path: plain.0@,
        duration_ms: plain.1,
        ratio: plain.2,
        hashes: plain_hashes(plain.3@),
        fingerprint: optional_items(plain.4),
        metadata: plain_metadata(plain.5),
    }
}

/// The bytes that a record is laid out in.
pub uninterp spec fn packed(record: Record) -> Seq<u8>;

/// The record that bytes start with, if they do.
pub uninterp spec fn unpacked(bytes: Seq<u8>) -> Option<Record>;

/// `bincode::serialize` of a record: it always succeeds, as nothing limits the size and every list
/// knows its length, and `bincode::deserialize` gives the record back. How a record is laid out is
/// left to the name `packed`.
#[verifier::external_body]
fn pack(record: &PlainRecord) -> (bytes: Option<Vec<u8>>)
    ensures
        bytes is Some,
        bytes matches Some(b) ==> b@ == packed(plain_record(*record)),
        bytes matches Some(b) ==> unpacked(b@) == Some(plain_record(*record)),
{
    bincode::serialize(record).ok()
}

/// `bincode::deserialize` of a record: the record that the bytes start with, or nothing, where they
/// do not hold a whole one. Which bytes do is left to the name `unpacked`.
#[verifier::external_body]
fn unpack(bytes: &[u8]) -> (record: Option<PlainRecord>)
    ensures
        record is Some == unpacked(bytes@) is Some,
        record matches Some(r) ==> unpacked(bytes@) == Some(plain_record(r)),
{
    bincode::deserialize(bytes).ok()
}

// ---- Signatures ----

/// A signature with mathematical values. A path is given by its components and its spelling, and
/// a hash by its bits.
pub struct SignatureView {
    pub parts: Seq<Seq<char>>,
    pub path: Seq<char>,
    pub duration_ms: u64,
    pub aspect_ratio: Single,
    pub hashes: Seq<(u64, u64, Seq<bool>)>,
    pub fingerprint: Option<Seq<u32>>,
    pub metadata: Option<metadata::MetadataView>,
}

/// What a signature holds.
pub open spec fn signature_view(signature: VideoSignature) -> SignatureView {
    SignatureView {
        parts: paths::path_parts(signature.path),
        path: paths::path_text(signature.path),
        duration_ms: signature.duration_ms,
        aspect_ratio: signature.aspect_ratio,
        hashes: Seq::new(
            signature.visual_hashes@.len(),
            |i: int|
                (
                    signature.visual_hashes@[i].start_ms,
                    signature.visual_hashes@[i].end_ms,
                    hash::hash_contents(signature.visual_hashes@[i].bits),
                ),
        ),
        fingerprint: optional_items(signature.audio_fingerprint),
        metadata: match signature.metadata {
            Some(m) => Some(m@),
            None => None,
        },
    }
}

/// The record of metadata.
pub open spec fn metadata_record(m: metadata::MetadataView) -> RecordMetadata {
    RecordMetadata {
        duration: m.duration_secs.bits,
        fps: match m.fps {
            Some(fps) => Some(fps.bits),
            None => None,
        },
        codec: m.codec,
        bitrate: match m.bitrate_bps {
            Some(rate) => Some(rate as u64),
            None => None,
        },
        width: match m.width {
            Some(width) => Some(width as u32),
            None => None,
        },
        height: match m.height {
            Some(height) => Some(height as u32),
            None => None,
        },
    }
}

/// The metadata of a record.
pub open spec fn restored_metadata(m: RecordMetadata) -> metadata::MetadataView {
    metadata::MetadataView {
        duration_secs: Double { bits: m.duration },
        fps: match m.fps {
            Some(fps) => Some(Double { bits: fps }),
            None => None,
        },
        codec: m.codec,
        bitrate_bps: match m.bitrate {
            Some(rate) => Some(rate as nat),
            None => None,
        },
        width: match m.width {
            Some(width) => Some(width as int),
            None => None,
        },
        height: match m.height {
            Some(height) => Some(height as int),
            None => None,
        },
    }
}

/// Whether a record is that of a signature.
pub open spec fn is_record_of(record: Record, signature: SignatureView) -> bool {
    &&& record.path == signature.path
    &&& record.duration_ms == signature.duration_ms
    &&& record.ratio == signature.aspect_ratio.bits
    &&& record.hashes.len() == signature.hashes.len()
    &&& forall|i: int|
        0 <= i < record.hashes.len() ==> {
            &&& (#[trigger] record.hashes[i]).0 == signature.hashes[i].0
            &&& record.hashes[i].1 == signature.hashes[i].1
            &&& record.hashes[i].2.len() == hash::STORED_BYTES
            &&& hash::bits_of(record.hashes[i].2) == signature.hashes[i].2
        }
    &&& record.fingerprint == signature.fingerprint
    &&& record.metadata == match signature.metadata {
        Some(m) => Some(metadata_record(m)),
        None => None,
    }
}

/// Whether all hashes of a record have the size of a hash.
pub open spec fn has_whole_hashes(record: Record) -> bool {
    forall|i: int|
        0 <= i < record.hashes.len() ==> (#[trigger] record.hashes[i]).2.len()
            == hash::STORED_BYTES
}

/// The signature of a record.
pub open spec fn restored(record: Record) -> SignatureView {
    SignatureView {
        parts: paths::text_parts(record.path),
        path: record.path,
        duration_ms: record.duration_ms,
        aspect_ratio: Single { bits: record.ratio },
        hashes: Seq::new(
            record.hashes.len(),
            |i: int|
                (record.hashes[i].0, record.hashes[i].1, hash::bits_of(record.hashes[i].2)),
        ),
        fingerprint: record.fingerprint,
        metadata: match record.metadata {
            Some(m) => Some(restored_metadata(m)),
            None => None,
        },
    }
}

/// The signature that the payload of an entry holds, if it is that of one.
pub open spec fn decoded(payload: Seq<u8>) -> Option<SignatureView> {
    match unpacked(payload) {
        Some(record) => if has_whole_hashes(record) {
            Some(restored(record))
        } else {
            None
        },
        None => None,
    }
}

fn copied_text(text: &Option<String>) -> (copy: Option<String>)
    ensures
        metadata::optional_text(copy) == metadata::optional_text(*text),
{
    match text {
        Some(t) => Some(String::from_str(t.as_str())),
        None => None,
    }
}

fn copied_items(list: &Vec<u32>) -> (copy: Vec<u32>)
    ensures
        copy@ == list@,
{
    let mut copy: Vec<u32> = Vec::new();
    let mut i: usize = 0;
    while i < list.len()
        invariant
            i <= list@.len(),
            copy@ == list@.take(i as int),
        decreases list@.len() - i,
    {
        copy.push(list[i]);
        assert(copy@ =~= list@.take(i + 1));
        i = i + 1;
    }
    assert(copy@ =~= list@);
    copy
}

fn record_metadata(m: &VideoMetadata) -> (plain: PlainMetadata)
    ensures
        plain_metadata(Some(plain)) == Some(metadata_record(m@)),
{
    let fps: Option<u64> = match m.fps {
        Some(fps) => Some(fps.bits),
        None => None,
    };
    (m.duration_secs.bits, fps, copied_text(&m.codec), m.bitrate_bps, m.width, m.height)
}

fn record_hashes(list: &Vec<TemporalHash>) -> (plain: Vec<(u64, u64, Vec<u8>)>)
    ensures
        plain@.len() == list@.len(),
        forall|i: int|
            0 <= i < plain@.len() ==> (#[trigger] plain@[i]).0 == list@[i].start_ms && plain@[i].1
                == list@[i].end_ms && plain@[i].2@.len() == hash::STORED_BYTES && hash::bits_of(
                plain@[i].2@,
            ) == hash::hash_contents(list@[i].bits),
{
    let mut plain: Vec<(u64, u64, Vec<u8>)> = Vec::new();
    let mut i: usize = 0;
    while i < list.len()
        invariant
            i <= list@.len(),
            plain@.len() == i,
            forall|k: int|
                0 <= k < plain@.len() ==> (#[trigger] plain@[k]).0 == list@[k].start_ms
                    && plain@[k].1 == list@[k].end_ms && plain@[k].2@.len() == hash::STORED_BYTES
                    && hash::bits_of(plain@[k].2@) == hash::hash_contents(list@[k].bits),
        decreases list@.len() - i,
    {
        plain.push((list[i].start_ms, list[i].end_ms, list[i].bits.to_bytes()));
        i = i + 1;
    }
    plain
}

/// Lays out a signature as the payload of an entry. There is none of a path that is not Unicode.
pub fn encode_signature(signature: &VideoSignature) -> (payload: Option<Vec<u8>>)
    ensures
        payload is Some <==> paths::is_unicode(signature.path),
        payload matches Some(p) ==> unpacked(p@) is Some && p@ == packed(unpacked(p@)->0)
            && is_record_of(unpacked(p@)->0, signature_view(*signature)),
        payload is Some ==> paths::path_parts(signature.path) == paths::text_parts(
            paths::path_text(signature.path),
        ),
{
    let path = match unicode_text(&signature.path) {
        Some(path) => path,
        None => {
            return None;
        },
    };
    let fingerprint: Option<Vec<u32>> = match &signature.audio_fingerprint {
        Some(items) => Some(copied_items(items)),
        None => None,
    };
    let about: Option<PlainMetadata> = match &signature.metadata {
        Some(m) => Some(record_metadata(m)),
        None => None,
    };
    let record: PlainRecord = (
        path,
        signature.duration_ms,
        signature.aspect_ratio.bits,
        record_hashes(&signature.visual_hashes),
        fingerprint,
        about,
    );
    let ghost view = plain_record(record);
    assert forall|i: int| 0 <= i < view.hashes.len() implies {
        &&& (#[trigger] view.hashes[i]).0 == signature_view(*signature).hashes[i].0
        &&& view.hashes[i].1 == signature_view(*signature).hashes[i].1
        &&& view.hashes[i].2.len() == hash::STORED_BYTES
        &&& hash::bits_of(view.hashes[i].2) == signature_view(*signature).hashes[i].2
    } by {
        assert(view.hashes[i].0 == record.3@[i].0);
    }
    assert(is_record_of(view, signature_view(*signature)));
    pack(&record)
}

fn restore_metadata(m: PlainMetadata) -> (about: VideoMetadata)
    ensures
        plain_metadata(Some(m)) matches Some(r) && about@ == restored_metadata(r),
{
    let (duration, fps_bits, codec, bitrate_bps, width, height) = m;
    let fps = match fps_bits {
        Some(bits) => Some(Double { bits }),
        None => None,
    };
    VideoMetadata { duration_secs: Double { bits: duration }, fps, codec, bitrate_bps, width, height }
}

fn restore_hashes(list: &Vec<(u64, u64, Vec<u8>)>) -> (hashes: Option<Vec<TemporalHash>>)
    ensures
        hashes is Some <==> forall|i: int|
            0 <= i < list@.len() ==> (#[trigger] list@[i]).2@.len() == hash::STORED_BYTES,
        hashes matches Some(h) ==> h@.len() == list@.len() && forall|i: int|
            0 <= i < h@.len() ==> (#[trigger] h@[i]).start_ms == list@[i].0 && h@[i].end_ms
                == list@[i].1 && hash::hash_contents(h@[i].bits) == hash::bits_of(list@[i].2@),
{
    let mut hashes: Vec<TemporalHash> = Vec::new();
    let mut i: usize = 0;
    while i < list.len()
        invariant
            i <= list@.len(),
            hashes@.len() == i,
            forall|k: int|
                0 <= k < i ==> (#[trigger] list@[k]).2@.len() == hash::STORED_BYTES,
            forall|k: int|
                0 <= k < hashes@.len() ==> (#[trigger] hashes@[k]).start_ms == list@[k].0
                    && hashes@[k].end_ms == list@[k].1 && hash::hash_contents(hashes@[k].bits)
                    == hash::bits_of(list@[k].2@),
        decreases list@.len() - i,
    {
        match HashBits::from_bytes(list[i].2.as_slice()) {
            Some(bits) => {
                hashes.push(TemporalHash { start_ms: list[i].0, end_ms: list[i].1, bits });
            },
            None => {
                assert(list@[i as int].2@.len() != hash::STORED_BYTES);
                return None;
            },
        }
        i = i + 1;
    }
    Some(hashes)
}

/// Reads the signature that the payload of an entry holds. There is none where a hash has another
/// size, or where the payload is no record.
pub fn decode_signature(payload: &[u8]) -> (signature: Option<VideoSignature>)
    ensures
        signature is Some <==> decoded(payload@) is Some,
        signature matches Some(s) ==> decoded(payload@) == Some(signature_view(s)),
{
    let record = match unpack(payload) {
        Some(record) => record,
        None => {
            return None;
        },
    };
    let ghost view = plain_record(record);
    let (path, duration_ms, ratio, list, audio_fingerprint, about) = record;
    let visual_hashes = match restore_hashes(&list) {
        Some(hashes) => hashes,
        None => {
            proof {
                if has_whole_hashes(view) {
                    assert forall|i: int| 0 <= i < list@.len() implies (
                    #[trigger] list@[i]).2@.len() == hash::STORED_BYTES by {
                        assert(view.hashes[i].2 == list@[i].2@);
                    }
                }
            }
            return None;
        },
    };
    assert(has_whole_hashes(view)) by {
        assert forall|i: int| 0 <= i < view.hashes.len() implies (
        #[trigger] view.hashes[i]).2.len() == hash::STORED_BYTES by {
            assert(view.hashes[i].2 == list@[i].2@);
        }
    }
    let metadata: Option<VideoMetadata> = match about {
        Some(m) => Some(restore_metadata(m)),
        None => None,
    };
    let signature = VideoSignature {
        path: path_of_text(path.as_str()),
        duration_ms,
        aspect_ratio: Single { bits: ratio },
        visual_hashes,
        audio_fingerprint,
        metadata,
    };
    proof {
        let given = signature_view(signature);
        let expected = restored(view);
        assert(given.hashes =~= expected.hashes) by {
            assert forall|i: int| 0 <= i < given.hashes.len() implies given.hashes[i]
                == expected.hashes[i] by {
                assert(visual_hashes@[i].start_ms == list@[i].0);
            }
        }
    }
    Some(signature)
}

// ---- Laws ----

/// The signature of a record is the one that the record was made of, with all that it holds. Its
/// path is Unicode, so that it is the one with its spelling.
pub proof fn law_records_read_back(record: Record, signature: VideoSignature)
    requires
        is_record_of(record, signature_view(signature)),
        paths::path_parts(signature.path) == paths::text_parts(
            paths::path_text(signature.path),
        ),
    ensures
        has_whole_hashes(record),
        restored(record) == signature_view(signature),
{
    assert(restored(record).hashes =~= signature_view(signature).hashes);
    if let Some(m) = signature.metadata {
        assert(restored_metadata(metadata_record(m@)) == m@);
    }
}

} // verus!
