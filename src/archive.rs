//! Packing one partition directory into a zip archive held in memory.
use crate::paths::{entry_name, entry_name_of, in_partition, segs_view};
use std::io::{Cursor, Write};
use vstd::prelude::*;
use zip::result::ZipError;
use zip::write::FileOptions;
use zip::ZipWriter;

verus! {

/// A zip archive being written into memory. Verus does not take zip's
/// writer type in a declaration (its bounds are on std's I/O traits), so it
/// is held here, out of Verus's sight.
#[verifier::external_body]
pub struct ArchiveWriter {
    inner: ZipWriter<Cursor<Vec<u8>>>,
}

/// zip's error type, carried through opaque.
#[verifier::external_type_specification]
#[verifier::external_body]
pub struct ExZipError(ZipError);

/// std's I/O error, carried through opaque.
#[verifier::external_type_specification]
#[verifier::external_body]
pub struct ExIoError(std::io::Error);

/// The entries written so far to an archive, in order: each with its name
/// as stored, whether it is a directory, the permission bits it was started
/// with, and its contents.
pub uninterp spec fn zip_entries(w: ArchiveWriter) -> Seq<(Seq<char>, bool, u32, Seq<u8>)>;

/// Whether the archive is still open for writing: not finished, and no
/// write into it has failed.
pub uninterp spec fn zip_open(w: ArchiveWriter) -> bool;

/// The bytes of the finished archive that holds these entries: files
/// deflated and directories stored, each with its permission bits and zip's
/// fixed timestamp, each file's contents written in one piece.
pub uninterp spec fn zip_bytes(entries: Seq<(Seq<char>, bool, u32, Seq<u8>)>) -> Seq<u8>;

/// The permission bits recorded on every entry.
pub const ENTRY_MODE: u32 = 0o755;

/// The size under which an entry's contents always fit in a plain (not
/// zip64) entry, even after compression.
pub const ENTRY_SIZE_LIMIT: u64 = 0x8000_0000;

/// The name zip stores for a directory: a separator is appended where the
/// name does not already end in one.
pub open spec fn dir_entry_name(s: Seq<char>) -> Seq<char> {
    if s.len() > 0 && (s.last() == '/' || s.last() == '\\') {
        s
    } else {
        s.push('/')
    }
}

/// Whether every entry's contents stay under the size limit.
pub open spec fn entries_small(es: Seq<(Seq<char>, bool, u32, Seq<u8>)>) -> bool {
    forall|i: int| 0 <= i < es.len() ==> (#[trigger] es[i]).3.len() < ENTRY_SIZE_LIMIT
}

/// Relies on ZipWriter::new over an empty in-memory buffer: open, no entry yet.
#[verifier::external_body]
fn new_archive() -> (w: ArchiveWriter)
    ensures
        zip_entries(w) == Seq::<(Seq<char>, bool, u32, Seq<u8>)>::empty(),
        zip_open(w),
{
    ArchiveWriter { inner: ZipWriter::new(Cursor::new(Vec::new())) }
}

/// Relies on ZipWriter::start_file, with FileOptions::default (deflate) and
/// FileOptions::unix_permissions: a file entry of that name, still empty, is
/// appended. On an in-memory writer it fails only when the writer was closed
/// or the previous entry overflowed a plain entry.
#[verifier::external_body]
fn start_file(w: &mut ArchiveWriter, name: &String, mode: u32) -> (r: Result<(), ZipError>)
    requires
        mode <= 0o777,
    ensures
        r is Ok ==> zip_entries(*final(w)) == zip_entries(*old(w)).push((name@, false, mode, Seq::<u8>::empty())),
        r is Ok ==> zip_open(*final(w)),
        zip_open(*old(w)) && entries_small(zip_entries(*old(w))) ==> r is Ok,
{
    w.inner.start_file(name.clone(), FileOptions::default().unix_permissions(mode))
}

/// Relies on ZipWriter's `Write` impl: while a file entry is the last one,
/// the bytes become its contents. It fails only on a closed writer or past
/// the plain-entry size limit.
#[verifier::external_body]
fn write_data(w: &mut ArchiveWriter, data: &Vec<u8>) -> (r: Result<(), std::io::Error>)
    requires
        zip_entries(*old(w)).len() > 0,
        !zip_entries(*old(w)).last().1,
        zip_entries(*old(w)).last().3.len() == 0,
    ensures
        r is Ok ==> zip_entries(*final(w)) == zip_entries(*old(w)).drop_last().push(
            (zip_entries(*old(w)).last().0, false, zip_entries(*old(w)).last().2, data@),
        ),
        r is Ok ==> zip_open(*final(w)),
        zip_open(*old(w)) && data@.len() < ENTRY_SIZE_LIMIT ==> r is Ok,
{
    w.inner.write_all(data.as_slice())
}

/// Relies on ZipWriter::add_directory, with FileOptions::unix_permissions:
/// a directory entry is appended, its name ending in a separator. It fails
/// as start_file does.
#[verifier::external_body]
fn add_directory(w: &mut ArchiveWriter, name: &String, mode: u32) -> (r: Result<(), ZipError>)
    requires
        mode <= 0o777,
    ensures
        r is Ok ==> zip_entries(*final(w)) == zip_entries(*old(w)).push(
            (dir_entry_name(name@), true, mode, Seq::<u8>::empty()),
        ),
        r is Ok ==> zip_open(*final(w)),
        zip_open(*old(w)) && entries_small(zip_entries(*old(w))) ==> r is Ok,
{
    w.inner.add_directory(name.clone(), FileOptions::default().unix_permissions(mode))
}

/// Relies on ZipWriter::finish: the central directory is written and the
/// buffer handed back. It fails as start_file does.
#[verifier::external_body]
fn finish(w: &mut ArchiveWriter) -> (r: Result<Vec<u8>, ZipError>)
    ensures
        r matches Ok(b) ==> b@ == zip_bytes(zip_entries(*old(w))),
        zip_open(*old(w)) && entries_small(zip_entries(*old(w))) ==> r is Ok,
{
    w.inner.finish().map(|c| c.into_inner())
}

/// A file or directory found inside a partition directory.
pub struct TreeItem {
    /// Its path, segment by segment.
    pub path: Vec<String>,
    /// A file's contents; `None` for a directory.
    pub data: Option<Vec<u8>>,
}

/// Why an archive could not be built.
#[derive(Debug)]
pub enum ArchiveError {
    /// The item at this index does not lie inside a partition directory
    /// under the destination root.
    OutsideRoot { index: usize },
    /// The archive writer failed.
    Zip(ZipError),
    /// Writing a file's contents into the archive failed.
    Io(std::io::Error),
}

/// The archive entry that stands for `item`: named relative to its
/// partition directory, with the mode `ENTRY_MODE`.
pub open spec fn entry_of(root: Seq<Seq<char>>, item: TreeItem) -> (Seq<char>, bool, u32, Seq<u8>) {
    match item.data {
        Some(d) => (entry_name_of(root, segs_view(item.path@)), false, ENTRY_MODE, d@),
        None => (dir_entry_name(entry_name_of(root, segs_view(item.path@))), true, ENTRY_MODE, Seq::<u8>::empty()),
    }
}

/// Whether every file among the items is under the entry size limit.
pub open spec fn items_small(items: Seq<TreeItem>) -> bool {
    forall|k: int| 0 <= k < items.len() ==> ((#[trigger] items[k]).data matches Some(d) ==> d@.len() < ENTRY_SIZE_LIMIT)
}

/// Whether `k` is the first item that lies outside every partition directory
/// under `root`.
pub open spec fn first_outside(root: Seq<Seq<char>>, items: Seq<TreeItem>, k: int) -> bool {
    &&& 0 <= k < items.len()
    &&& !in_partition(root, segs_view(items[k].path@))
    &&& forall|j: int| 0 <= j < k ==> in_partition(root, segs_view(#[trigger] items[j].path@))
}

/// The entries of a partition's archive, one per item, in order.
pub open spec fn entries_of(root: Seq<Seq<char>>, items: Seq<TreeItem>) -> Seq<(Seq<char>, bool, u32, Seq<u8>)> {
    items.map_values(|it: TreeItem| entry_of(root, it))
}

/// Builds the archive of one partition directory under `root`: one entry per
/// item, named relative to the partition directory, holding the file's
/// bytes or marking a directory.
pub fn zip_dir(root: &Vec<String>, items: &Vec<TreeItem>) -> (r: Result<Vec<u8>, ArchiveError>)
    ensures
        r matches Err(ArchiveError::OutsideRoot { index }) ==> first_outside(segs_view(root@), items@, index as int),
        (exists|k: int| 0 <= k < items.len() && !in_partition(segs_view(root@), segs_view(#[trigger] items@[k].path@)))
            <==> (r is Err && r->Err_0 is OutsideRoot),
        r matches Ok(b) ==> b@ == zip_bytes(entries_of(segs_view(root@), items@)),
        (forall|k: int| 0 <= k < items.len() ==> in_partition(segs_view(root@), segs_view(#[trigger] items@[k].path@)))
            && items_small(items@) ==> r is Ok,
{
    let mut k: usize = 0;
    while k < items.len()
        invariant
            k <= items.len(),
            forall|j: int| 0 <= j < k ==> in_partition(segs_view(root@), segs_view(#[trigger] items@[j].path@)),
        decreases items.len() - k,
    {
        if entry_name(root, &items[k].path).is_none() {
            return Err(ArchiveError::OutsideRoot { index: k });
        }
        k = k + 1;
    }
    let ghost rv = segs_view(root@);
    let mut w = new_archive();
    let mut i: usize = 0;
    assert(entries_of(rv, items@.subrange(0, 0)) =~= Seq::<(Seq<char>, bool, u32, Seq<u8>)>::empty());
    while i < items.len()
        invariant
            i <= items.len(),
            rv == segs_view(root@),
            forall|j: int| 0 <= j < items.len() ==> in_partition(rv, segs_view(#[trigger] items@[j].path@)),
            zip_entries(w) == entries_of(rv, items@.subrange(0, i as int)),
            zip_open(w),
            items_small(items@) ==> entries_small(zip_entries(w)),
        decreases items.len() - i,
    {
        let item = &items[i];
        let name = match entry_name(root, &item.path) {
            Some(n) => n,
            None => {
                return Err(ArchiveError::OutsideRoot { index: i });
            },
        };
        match &item.data {
            Some(data) => {
                match start_file(&mut w, &name, ENTRY_MODE) {
                    Ok(()) => {},
                    Err(e) => {
                        return Err(ArchiveError::Zip(e));
                    },
                }
                match write_data(&mut w, data) {
                    Ok(()) => {},
                    Err(e) => {
                        return Err(ArchiveError::Io(e));
                    },
                }
            },
            None => {
                match add_directory(&mut w, &name, ENTRY_MODE) {
                    Ok(()) => {},
                    Err(e) => {
                        return Err(ArchiveError::Zip(e));
                    },
                }
            },
        }
        proof {
            let next = items@.subrange(0, i + 1);
            if items_small(items@) {
                let es = zip_entries(w);
                assert forall|j: int| 0 <= j < es.len() implies (#[trigger] es[j]).3.len() < ENTRY_SIZE_LIMIT by {}
            }
            assert(next.drop_last() =~= items@.subrange(0, i as int));
            assert(entries_of(rv, next) =~= entries_of(rv, items@.subrange(0, i as int)).push(
                entry_of(rv, items@[i as int]),
            ));
        }
        i = i + 1;
    }
    assert(items@.subrange(0, i as int) =~= items@);
    match finish(&mut w) {
        Ok(b) => Ok(b),
        Err(e) => Err(ArchiveError::Zip(e)),
    }
}

} // verus!
