use vstd::prelude::*;
use crate::decoder::{
    lemma_children_infos_wf, lemma_table_wf, parse_children, parse_table_from, read_u32, spec_load,
};
use crate::error::{Error, ParseError};
use crate::fetch::{copy_range, decompress_checked, xbc1_decodes, xbc1_unpacked};
use crate::info::FileInfo;
use crate::path::ArchivePath;
use crate::tree::{
    file_reachable, lemma_reachable_file_resolves, lemma_resolved_file_reachable,
    lemma_resolved_info_wf, no_dup_names, resolve_entry, resolve_node, resolved_info,
    resolves_to_file, tree_infos_wf, DirEntry, DirNode, EntryView, Resolution,
};

verus! {

/// The bytes a file occupies in the data blob.
pub open spec fn stored_range(info: FileInfo, data: Seq<u8>) -> Seq<u8> {
    data.subrange(info.offset as int, info.offset + info.stored_size)
}

/// The file's stored range lies inside the data blob.
pub open spec fn range_in_bounds(info: FileInfo, data: Seq<u8>) -> bool {
    info.offset + info.stored_size <= data.len()
}

/// The loaded virtual filesystem: the decoded directory tree and the data
/// blob the index addresses. Read-only once built. Each file node carries
/// its metadata record, so a path keys the record through the same
/// resolution that keys directories.
#[derive(Debug)]
pub struct Filesystem {
    pub root: DirNode,
    pub data: Vec<u8>,
}

impl Filesystem {
    /// Every file record the tree carries is well formed; `load` establishes
    /// this and nothing mutates the tree afterwards.
    pub open spec fn wf(&self) -> bool {
        tree_infos_wf(self.root@.entry)
    }

    /// Decode the index once and wrap the data blob. The whole load fails on
    /// the first structural error; a partially decoded tree is never handed
    /// out.
    pub fn load(index: &Vec<u8>, data: Vec<u8>) -> (r: Result<Filesystem, Error>)
        ensures
            match r {
                Ok(fs) => {
                    &&& spec_load(index@) == Ok::<EntryView, Error>(fs.root@.entry)
                    &&& fs.root@.entry is Directory
                    &&& fs.root@.name == Seq::<char>::empty()
                    &&& fs.data == data
                    &&& fs.wf()
                },
                Err(e) => spec_load(index@) == Err::<EntryView, Error>(e),
            },
    {
        let ghost s = index@;
        let n = index.len();
        if n < 8 {
            return Err(Error::Parse(ParseError::Truncated));
        }
        if !(index[0] == 0x41 && index[1] == 0x52 && index[2] == 0x48 && index[3] == 0x31) {
            return Err(Error::Parse(ParseError::BadMagic));
        }
        let fc = read_u32(index, 4);
        if (fc as u64) * 21 > (n as u64) - 8 {
            return Err(Error::Parse(ParseError::Truncated));
        }
        let table = match parse_table_from(index, 0, fc) {
            Ok(t) => t,
            Err(e) => {
                proof {
                    assert(s.skip(8int + 21 * 0) =~= s.skip(8));
                }
                return Err(e);
            },
        };
        proof {
            assert(s.skip(8int + 21 * 0) =~= s.skip(8));
        }
        let t_end: usize = 8 + (fc as usize) * 21;
        if n - t_end < 4 {
            return Err(Error::Parse(ParseError::Truncated));
        }
        let cnt = read_u32(index, t_end);
        let (children, end) = match parse_children(index, t_end + 4, &table, cnt) {
            Ok(x) => x,
            Err(e) => {
                return Err(e);
            },
        };
        if end != n {
            return Err(Error::Parse(ParseError::TrailingData));
        }
        let root = DirNode { name: String::new(), entry: DirEntry::Directory { children } };
        proof {
            lemma_table_wf(s.skip(8), fc as nat);
            lemma_children_infos_wf(s.skip(t_end as int + 4), table@, cnt as nat);
        }
        Ok(Filesystem { root, data })
    }

    /// Resolve a path to a directory node. The root path yields the loaded
    /// root itself. A path that resolves to a file, or does not resolve,
    /// yields nothing.
    pub fn get_dir<'a>(&'a self, path: &ArchivePath) -> (r: Option<&'a DirNode>)
        ensures
            match r {
                Option::Some(d) => {
                    &&& resolve_entry(self.root@.entry, path@) == Resolution::Found(d@.entry)
                    &&& d@.entry is Directory
                },
                Option::None => !(resolve_entry(self.root@.entry, path@) matches Resolution::Found(
                    EntryView::Directory { .. },
                )),
            },
    {
        match resolve_node(&self.root, path) {
            Ok(node) => match &node.entry {
                DirEntry::Directory { .. } => Some(node),
                DirEntry::File { .. } => None,
            },
            Err(_) => None,
        }
    }

    /// Resolve a path to a file's metadata. Fails with the not-found error
    /// exactly when a segment names no child, and with the wrong-kind error
    /// exactly when the path runs through a file or ends on a directory.
    pub fn get_file_info(&self, path: &ArchivePath) -> (r: Result<FileInfo, Error>)
        ensures
            match r {
                Ok(info) => resolve_entry(self.root@.entry, path@) == Resolution::Found(
                    EntryView::File { info },
                ),
                Err(e) => {
                    &&& (e == Error::NotFound <==> resolve_entry(self.root@.entry, path@)
                        is NotFound)
                    &&& (e == Error::WrongEntryKind <==> (resolve_entry(self.root@.entry, path@)
                        is WrongKind || resolve_entry(self.root@.entry, path@)
                        matches Resolution::Found(EntryView::Directory { .. })))
                    &&& (e == Error::NotFound || e == Error::WrongEntryKind)
                },
            },
    {
        match resolve_node(&self.root, path) {
            Ok(node) => match &node.entry {
                DirEntry::File { info } => Ok(*info),
                DirEntry::Directory { .. } => Err(Error::WrongEntryKind),
            },
            Err(e) => Err(e),
        }
    }

    /// Materialize a file's logical bytes. The stored range is read from the
    /// data blob; a compressed entry is decoded and held to its declared
    /// logical length, an uncompressed entry is returned as stored. A failure
    /// is scoped to this one fetch.
    pub fn fetch_bytes(&self, path: &ArchivePath) -> (r: Result<Vec<u8>, Error>)
        requires
            self.wf(),
        ensures
            match resolve_entry(self.root@.entry, path@) {
                Resolution::Found(EntryView::File { info }) => {
                    &&& (r matches Ok(v) ==> {
                        &&& range_in_bounds(info, self.data@)
                        &&& v@.len() == info.actual_size
                        &&& (info.compressed ==> v@ == xbc1_unpacked(
                            stored_range(info, self.data@),
                        ))
                        &&& (!info.compressed ==> v@ == stored_range(info, self.data@))
                    })
                    &&& (!range_in_bounds(info, self.data@) ==> r == Err::<Vec<u8>, _>(Error::Io))
                    &&& (range_in_bounds(info, self.data@) && !info.compressed ==> r is Ok)
                    &&& (range_in_bounds(info, self.data@) && info.compressed ==> ((r is Ok) == (
                        xbc1_decodes(stored_range(info, self.data@)) && xbc1_unpacked(
                            stored_range(info, self.data@),
                        ).len() == info.actual_size)))
                    &&& ((range_in_bounds(info, self.data@) && r is Err) ==> (r->Err_0
                        matches Error::Decompress(_)))
                },
                Resolution::Found(EntryView::Directory { .. }) => r == Err::<Vec<u8>, _>(
                    Error::WrongEntryKind,
                ),
                Resolution::NotFound => r == Err::<Vec<u8>, _>(Error::NotFound),
                Resolution::WrongKind => r == Err::<Vec<u8>, _>(Error::WrongEntryKind),
            },
    {
        let info = match self.get_file_info(path) {
            Ok(i) => i,
            Err(e) => {
                return Err(e);
            },
        };
        proof {
            lemma_resolved_info_wf(self.root@.entry, path@);
            assert(resolved_info(self.root@.entry, path@) == info);
            assert(info.wf());
        }
        let dlen = self.data.len();
        let end64: u64 = info.offset + (info.stored_size as u64);
        if end64 > dlen as u64 {
            return Err(Error::Io);
        }
        let start: usize = info.offset as usize;
        let end: usize = end64 as usize;
        let stored = copy_range(&self.data, start, end);
        if info.is_compressed() {
            decompress_checked(&stored, info.actual_size())
        } else {
            proof {
                assert(stored@.len() == info.stored_size as u64);
            }
            Ok(stored)
        }
    }
}

/// No orphans in either direction: in a tree without duplicate names, a
/// file node stands at a path for plain traversal exactly when lookup at
/// that path reaches a file — so every file reachable in the tree has its
/// metadata reachable through `get_file_info` at the same path, and the
/// reverse.
pub proof fn lemma_no_orphans(fs: &Filesystem, p: Seq<Seq<char>>)
    requires
        no_dup_names(fs.root@.entry),
    ensures
        file_reachable(fs.root@.entry, p) <==> resolves_to_file(fs.root@.entry, p),
{
    if file_reachable(fs.root@.entry, p) {
        lemma_reachable_file_resolves(fs.root@.entry, p);
    }
    if resolves_to_file(fs.root@.entry, p) {
        lemma_resolved_file_reachable(fs.root@.entry, p);
    }
}

/// The root path resolves to the loaded root directory itself, with its
/// children exactly as the index declared them.
pub proof fn lemma_root_resolves(fs: &Filesystem)
    ensures
        resolve_entry(fs.root@.entry, Seq::<Seq<char>>::empty()) == Resolution::Found(
            fs.root@.entry,
        ),
{
}

} // verus!

