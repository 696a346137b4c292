//! Binary-archive indexer: reduce an in-memory release archive to a mapping
//! from compiled-unit name to a 64-bit fingerprint of checksum and size.
//!
//! Directory entries, the module descriptor and entries without the
//! compiled-unit suffix are skipped; the unit name is the entry path with
//! the suffix removed and path separators replaced by namespace dots; the
//! fingerprint packs the entry's checksum into the high and its size into
//! the low 32 bits.

use vstd::prelude::*;
use std::io::Cursor;

verus! {

use crate::index::ReleaseIndex;
use crate::strutil::{has_suffix, dotted_spec, dotted, ends_with, str_eq};

#[verifier::external_type_specification]
#[verifier::external_body]
#[verifier::reject_recursive_types(R)]
pub struct ExZipArchive<R>(zip::ZipArchive<R>);

#[verifier::external_type_specification]
#[verifier::external_body]
#[verifier::reject_recursive_types(T)]
pub struct ExCursor<T>(Cursor<T>);

/// Why a release could not be indexed.
#[derive(Debug, PartialEq, Eq, Structural)]
pub enum IndexingError {
    /// The bytes are not a readable archive.
    NotAnArchive,
    /// An entry of the archive could not be read.
    EntryUnreadable,
}

/// One archive entry as the indexer reads it.
pub struct ZipEntry {
    pub name: String,
    pub is_dir: bool,
    pub crc: u32,
    pub size: u64,
}

/// The view of one archive entry.
pub struct ZipEntryView {
    pub name: Seq<char>,
    pub is_dir: bool,
    pub crc: u32,
    pub size: u64,
}

impl View for ZipEntry {
    type V = ZipEntryView;

    open spec fn view(&self) -> ZipEntryView {
        ZipEntryView { name: self.name@, is_dir: self.is_dir, crc: self.crc, size: self.size }
    }
}

/// The bytes an opened archive holds: what it was opened from.
pub uninterp spec fn zip_source(a: zip::ZipArchive<Cursor<Vec<u8>>>) -> Seq<u8>;

/// The entries of the archive that the given bytes denote.
pub uninterp spec fn zip_entries_of(bytes: Seq<u8>) -> Seq<ZipEntryView>;

/// Do the given bytes parse as an archive?  Parsing an in-memory buffer
/// depends on the bytes alone.
pub uninterp spec fn archive_ok(bytes: Seq<u8>) -> bool;

/// Can entry `i` of the archive the bytes denote be read?  Reading an
/// in-memory buffer depends on the bytes and the position alone.
pub uninterp spec fn entry_ok(bytes: Seq<u8>, i: int) -> bool;

/// Relies on zip::ZipArchive::new over an in-memory cursor: reading the
/// central directory of the archive the bytes denote; fails exactly on
/// bytes that are not a readable archive.
#[verifier::external_body]
fn open_archive(bytes: Vec<u8>) -> (r: Result<zip::ZipArchive<Cursor<Vec<u8>>>, IndexingError>)
    ensures
        r is Ok <==> archive_ok(bytes@),
        match r {
            Ok(a) => zip_source(a) == bytes@,
            Err(e) => e is NotAnArchive,
        },
{
    match zip::ZipArchive::new(Cursor::new(bytes)) {
        Ok(a) => Ok(a),
        Err(_) => Err(IndexingError::NotAnArchive),
    }
}

/// Relies on zip::ZipArchive::len: how many entries the archive holds.
#[verifier::external_body]
fn archive_len(a: &zip::ZipArchive<Cursor<Vec<u8>>>) -> (r: usize)
    ensures
        r == zip_entries_of(zip_source(*a)).len(),
{
    a.len()
}

/// Relies on zip::ZipArchive::by_index and the entry accessors name,
/// is_dir, crc32 and size: the entry at position `i`, succeeding exactly
/// when that entry of the underlying bytes can be read; reading does not
/// change what the archive holds.
#[verifier::external_body]
fn entry_at(a: &mut zip::ZipArchive<Cursor<Vec<u8>>>, i: usize) -> (r: Result<
    ZipEntry,
    IndexingError,
>)
    requires
        i < zip_entries_of(zip_source(*old(a))).len(),
    ensures
        zip_source(*final (a)) == zip_source(*old(a)),
        r is Ok <==> entry_ok(zip_source(*old(a)), i as int),
        match r {
            Ok(e) => e@ == zip_entries_of(zip_source(*old(a)))[i as int],
            Err(e) => e is EntryUnreadable,
        },
{
    match a.by_index(i) {
        Ok(f) => Ok(
            ZipEntry {
                name: f.name().to_owned(),
                is_dir: f.is_dir(),
                crc: f.crc32(),
                size: f.size(),
            },
        ),
        Err(_) => Err(IndexingError::EntryUnreadable),
    }
}

/// Is this entry indexed at all?
pub open spec fn indexed_entry(e: ZipEntryView) -> bool {
    !e.is_dir && has_suffix(e.name, ".class"@) && e.name != "module-info.class"@
}

/// The unit name of an indexed entry.
pub open spec fn unit_name(name: Seq<char>) -> Seq<char> {
    dotted_spec(name.take(name.len() - 6))
}

/// The fingerprint of one entry: checksum in the high, size in the low 32
/// bits.
pub open spec fn unit_fingerprint(e: ZipEntryView) -> u64 {
    ((e.crc as u64) << 32u64) | (e.size & 0xFFFFFFFFu64)
}

/// The index a list of archive entries denotes, in order.
pub open spec fn binary_index_of(es: Seq<ZipEntryView>) -> Map<Seq<char>, u64>
    decreases es.len(),
{
    if es.len() == 0 {
        Map::empty()
    } else {
        let m = binary_index_of(es.drop_last());
        let e = es.last();
        if indexed_entry(e) {
            m.insert(unit_name(e.name), unit_fingerprint(e))
        } else {
            m
        }
    }
}

/// Do the bytes begin with the archive signature the downloader checks for?
pub fn looks_like_archive(bytes: &Vec<u8>) -> (r: bool)
    ensures
        r == (bytes@.len() >= 4 && bytes@[0] == 0x50u8 && bytes@[1] == 0x4bu8),
{
    bytes.len() >= 4 && bytes[0] == 0x50 && bytes[1] == 0x4b
}

/// Are the bytes a readable archive all of whose entries can be read?
pub open spec fn indexable(bytes: Seq<u8>) -> bool {
    archive_ok(bytes) && forall|i: int|
        0 <= i < zip_entries_of(bytes).len() ==> entry_ok(bytes, i)
}

/// Build the index of one release archive given as bytes.  Succeeds exactly
/// when the bytes are a readable archive with readable entries, and then
/// maps exactly the indexed entries of the archive the bytes denote, under
/// their unit names, to their fingerprints; bytes that are not an archive
/// are `NotAnArchive`, an unreadable entry is `EntryUnreadable`.  An archive
/// without compiled units yields an empty index, not an error.
pub fn index_jar(bytes: Vec<u8>) -> (r: Result<ReleaseIndex, IndexingError>)
    ensures
        r is Ok <==> indexable(bytes@),
        match r {
            Ok(ix) => ix.wf() && ix@ == binary_index_of(zip_entries_of(bytes@)),
            Err(e) => (e is NotAnArchive <==> !archive_ok(bytes@)),
        },
{
    let ghost bv = bytes@;
    let mut archive = match open_archive(bytes) {
        Ok(a) => a,
        Err(e) => {
            return Err(e);
        },
    };
    let ghost es = zip_entries_of(bv);
    let n = archive_len(&archive);
    let mut ix = ReleaseIndex::new();
    let mut i: usize = 0;
    proof {
        assert(binary_index_of(es.take(0)) =~= Map::<Seq<char>, u64>::empty());
    }
    while i < n
        invariant
            bv == bytes@,
            archive_ok(bv),
            zip_source(archive) == bv,
            es == zip_entries_of(bv),
            n == es.len(),
            0 <= i <= n,
            forall|j: int| 0 <= j < i ==> entry_ok(bv, j),
            ix.wf(),
            ix@ == binary_index_of(es.take(i as int)),
        decreases n - i,
    {
        let e = match entry_at(&mut archive, i) {
            Ok(e) => e,
            Err(err) => {
                assert(!entry_ok(bv, i as int));
                return Err(err);
            },
        };
        proof {
            assert(es.take(i + 1).drop_last() =~= es.take(i as int));
            assert(es.take(i + 1).last() == es[i as int]);
        }
        let name_len = e.name.as_str().unicode_len();
        if !e.is_dir && ends_with(e.name.as_str(), ".class") && !str_eq(
            e.name.as_str(),
            "module-info.class",
        ) {
            proof {
                reveal_strlit(".class");
            }
            let stem = e.name.as_str().substring_char(0, name_len - 6);
            let class_name = dotted(stem);
            let fp: u64 = ((e.crc as u64) << 32u64) | (e.size & 0xFFFFFFFFu64);
            proof {
                assert(e.name@.subrange(0, e.name@.len() - 6) =~= e.name@.take(e.name@.len() - 6));
                assert(class_name@ == unit_name(es[i as int].name));
                assert(fp == unit_fingerprint(es[i as int]));
            }
            ix.insert(class_name, fp);
        }
        i = i + 1;
    }
    proof {
        assert(es.take(n as int) =~= es);
        assert(indexable(bv));
    }
    Ok(ix)
}

} // verus!
