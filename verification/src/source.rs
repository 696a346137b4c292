//! Source-tree indexer: reduce one tree snapshot, given as a listing of file
//! paths with their contents, to a mapping from unit name to a content
//! digest.
//!
//! Only source files outside test directories are indexed; the unit name is
//! the path with the first matching source-root prefix and the source-file
//! suffix removed and path separators replaced by namespace dots.

use vstd::prelude::*;
use std::collections::hash_map::DefaultHasher;
use std::hash::Hasher;

verus! {

use crate::index::ReleaseIndex;
use crate::strutil::{
    has_suffix,
    has_prefix,
    first_occ,
    dotted_spec,
    trim_end_matches_spec,
    dotted,
    trim_end_matches,
    ends_with,
    starts_with,
    find_sub,
};

/// The content digest of one source file; it depends on the bytes alone.
pub uninterp spec fn digest_of(content: Seq<u8>) -> u64;

/// Relies on DefaultHasher (new, write, finish) over the raw bytes: a
/// fixed-key digest that depends on the bytes alone.
#[verifier::external_body]
fn content_digest(content: &Vec<u8>) -> (r: u64)
    ensures
        r == digest_of(content@),
{
    let mut h = DefaultHasher::new();
    h.write(content);
    h.finish()
}

/// Is this path indexed at all: a source file not under a test directory?
pub open spec fn is_source_path(p: Seq<char>) -> bool {
    has_suffix(p, ".java"@) && first_occ(p, "/test/"@) is None
}

/// Executable test of `is_source_path`.
pub fn source_path_ok(p: &str) -> (r: bool)
    ensures
        r == is_source_path(p@),
{
    ends_with(p, ".java") && find_sub(p, "/test/").is_none()
}

/// The unit name of one source path: the first matching source-root prefix
/// removed, the source suffix trimmed, path separators turned into dots.
pub open spec fn source_unit_name(p: Seq<char>) -> Seq<char> {
    let stripped = if has_prefix(p, "src/main/java/"@) {
        p.skip(14)
    } else if has_prefix(p, "src/"@) {
        p.skip(4)
    } else {
        p
    };
    dotted_spec(trim_end_matches_spec(stripped, ".java"@))
}

/// Executable `source_unit_name`.
pub fn source_unit_name_exec(p: &str) -> (r: String)
    ensures
        r@ == source_unit_name(p@),
{
    let n = p.unicode_len();
    let stripped: &str = if starts_with(p, "src/main/java/") {
        proof {
            reveal_strlit("src/main/java/");
            assert(p@.subrange(14, n as int) =~= p@.skip(14));
        }
        p.substring_char(14, n)
    } else if starts_with(p, "src/") {
        proof {
            reveal_strlit("src/");
            assert(p@.subrange(4, n as int) =~= p@.skip(4));
        }
        p.substring_char(4, n)
    } else {
        p
    };
    let stem = trim_end_matches(stripped, ".java");
    dotted(stem.as_str())
}

/// The index a listing of files denotes: every indexed path mapped, under
/// its unit name, to the digest of its content, later files overriding
/// earlier ones on a name collision.
pub open spec fn source_index_of(files: Seq<(Seq<char>, Seq<u8>)>) -> Map<Seq<char>, u64>
    decreases files.len(),
{
    if files.len() == 0 {
        Map::empty()
    } else {
        let m = source_index_of(files.drop_last());
        let f = files.last();
        if is_source_path(f.0) {
            m.insert(source_unit_name(f.0), digest_of(f.1))
        } else {
            m
        }
    }
}

/// The views of a file listing.
pub open spec fn file_views(files: Seq<(String, Vec<u8>)>) -> Seq<(Seq<char>, Seq<u8>)> {
    files.map_values(|f: (String, Vec<u8>)| (f.0@, f.1@))
}

/// Build the index of one tree snapshot from its file listing.  Paths that
/// are not indexable source files are skipped; a listing that a caller has
/// already filtered is indexed in full.
pub fn source_index(files: &Vec<(String, Vec<u8>)>) -> (r: ReleaseIndex)
    ensures
        r.wf(),
        r@ == source_index_of(file_views(files@)),
{
    let ghost fv = file_views(files@);
    let mut ix = ReleaseIndex::new();
    let mut i: usize = 0;
    proof {
        assert(source_index_of(fv.take(0)) =~= Map::<Seq<char>, u64>::empty());
    }
    while i < files.len()
        invariant
            fv == file_views(files@),
            0 <= i <= fv.len(),
            ix.wf(),
            ix@ == source_index_of(fv.take(i as int)),
        decreases fv.len() - i,
    {
        proof {
            assert(fv.take(i + 1).drop_last() =~= fv.take(i as int));
            assert(fv.take(i + 1).last() == fv[i as int]);
        }
        if source_path_ok(files[i].0.as_str()) {
            let name = source_unit_name_exec(files[i].0.as_str());
            let digest = content_digest(&files[i].1);
            ix.insert(name, digest);
        }
        i = i + 1;
    }
    proof {
        assert(fv.take(fv.len() as int) =~= fv);
    }
    ix
}

} // verus!
