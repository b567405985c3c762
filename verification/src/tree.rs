use vstd::prelude::*;
use crate::error::Error;
use crate::info::FileInfo;
use crate::path::ArchivePath;

verus! {

/// A named entry of the in-memory hierarchy.
#[derive(Debug)]
pub struct DirNode {
    pub name: String,
    pub entry: DirEntry,
}

/// The two kinds of entry: a directory with its children in the archive's
/// declared order, or a file with its metadata record.
#[derive(Debug)]
pub enum DirEntry {
    Directory { children: Vec<DirNode> },
    File { info: FileInfo },
}

/// Mathematical model of a node: the name as a character sequence and the
/// modelled entry.
pub struct NodeView {
    pub name: Seq<char>,
    pub entry: EntryView,
}

/// Mathematical model of an entry.
pub enum EntryView {
    Directory { children: Seq<NodeView> },
    File { info: FileInfo },
}

pub open spec fn node_view(n: DirNode) -> NodeView
    decreases n,
{
    NodeView { name: n.name@, entry: entry_view(n.entry) }
}

pub open spec fn nodes_view(s: Seq<DirNode>) -> Seq<NodeView>
    decreases s,
{
    if s.len() == 0 {
        Seq::empty()
    } else {
        seq![node_view(s[0])] + nodes_view(s.skip(1))
    }
}

pub open spec fn entry_view(e: DirEntry) -> EntryView
    decreases e,
{
    match e {
        DirEntry::Directory { children } => EntryView::Directory {
            children: nodes_view(children@),
        },
        DirEntry::File { info } => EntryView::File { info },
    }
}

/// Pointwise reading of [`nodes_view`].
pub proof fn lemma_nodes_view_index(s: Seq<DirNode>)
    ensures
        nodes_view(s).len() == s.len(),
        forall|i: int| 0 <= i < s.len() ==> nodes_view(s)[i] == node_view(s[i]),
    decreases s,
{
    if s.len() > 0 {
        lemma_nodes_view_index(s.skip(1));
        assert forall|i: int| 0 <= i < s.len() implies nodes_view(s)[i] == node_view(s[i]) by {
            if i > 0 {
                assert(nodes_view(s)[i] == nodes_view(s.skip(1))[i - 1]);
                assert(s.skip(1)[i - 1] == s[i]);
            }
        }
    }
}

impl View for DirNode {
    type V = NodeView;

    open spec fn view(&self) -> NodeView {
        node_view(*self)
    }
}

impl View for DirEntry {
    type V = EntryView;

    open spec fn view(&self) -> EntryView {
        entry_view(*self)
    }
}

/// Outcome of walking a path through the tree.
pub enum Resolution {
    /// Every segment resolved; the named entry.
    Found(EntryView),
    /// Some segment named no child of the directory reached so far.
    NotFound,
    /// Some non-final segment named a file.
    WrongKind,
}

/// The first child carrying the given name, in declared order; lookup
/// policy for duplicate names is first match wins.
pub open spec fn first_match(children: Seq<NodeView>, name: Seq<char>) -> Option<NodeView>
    decreases children.len(),
{
    if children.len() == 0 {
        None
    } else if children[0].name == name {
        Some(children[0])
    } else {
        first_match(children.skip(1), name)
    }
}

/// Path resolution: descend from `e` one segment at a time. The empty path
/// resolves to `e` itself.
pub open spec fn resolve_entry(e: EntryView, path: Seq<Seq<char>>) -> Resolution
    decreases path.len(),
{
    if path.len() == 0 {
        Resolution::Found(e)
    } else {
        match e {
            EntryView::File { .. } => Resolution::WrongKind,
            EntryView::Directory { children } => match first_match(children, path[0]) {
                Option::None => Resolution::NotFound,
                Option::Some(c) => resolve_entry(c.entry, path.skip(1)),
            },
        }
    }
}

/// Resolution reaches a file at the end of the path.
pub open spec fn resolves_to_file(e: EntryView, path: Seq<Seq<char>>) -> bool {
    resolve_entry(e, path) matches Resolution::Found(EntryView::File { .. })
}

/// The file metadata resolution reaches, when it reaches a file.
pub open spec fn resolved_info(e: EntryView, path: Seq<Seq<char>>) -> FileInfo
    recommends
        resolves_to_file(e, path),
{
    match resolve_entry(e, path) {
        Resolution::Found(EntryView::File { info }) => info,
        _ => arbitrary(),
    }
}

/// A file node stands at `path` for plain tree traversal: some chain of
/// children with the path's names, not necessarily the chain lookup picks,
/// ends in a file.
pub open spec fn file_reachable(e: EntryView, path: Seq<Seq<char>>) -> bool
    decreases e,
{
    match e {
        EntryView::File { .. } => path.len() == 0,
        EntryView::Directory { children } => path.len() > 0 && exists|i: int|
            0 <= i < children.len() && (#[trigger] children[i]).name == path[0]
                && file_reachable(children[i].entry, path.skip(1)),
    }
}

/// No directory anywhere below `e` carries two children of one name.
pub open spec fn no_dup_names(e: EntryView) -> bool
    decreases e,
{
    match e {
        EntryView::File { .. } => true,
        EntryView::Directory { children } => {
            &&& forall|i: int, j: int|
                0 <= i < j < children.len() ==> children[i].name != children[j].name
            &&& forall|i: int|
                0 <= i < children.len() ==> no_dup_names((#[trigger] children[i]).entry)
        },
    }
}

/// Every file record below `e` is well formed.
pub open spec fn tree_infos_wf(e: EntryView) -> bool
    decreases e,
{
    match e {
        EntryView::File { info } => info.wf(),
        EntryView::Directory { children } => forall|i: int|
            0 <= i < children.len() ==> tree_infos_wf((#[trigger] children[i]).entry),
    }
}

proof fn lemma_first_match_contains(children: Seq<NodeView>, name: Seq<char>)
    requires
        first_match(children, name) is Some,
    ensures
        exists|i: int|
            0 <= i < children.len() && #[trigger] children[i] == first_match(
                children,
                name,
            )->Some_0 && children[i].name == name,
    decreases children.len(),
{
    if children[0].name == name {
        assert(children[0] == first_match(children, name)->Some_0 && children[0].name == name);
    } else {
        lemma_first_match_contains(children.skip(1), name);
        let j = choose|j: int|
            0 <= j < children.skip(1).len() && #[trigger] children.skip(1)[j] == first_match(
                children.skip(1),
                name,
            )->Some_0 && children.skip(1)[j].name == name;
        assert(children[j + 1] == children.skip(1)[j]);
    }
}

proof fn lemma_first_match_unique(children: Seq<NodeView>, name: Seq<char>, i: int)
    requires
        0 <= i < children.len(),
        children[i].name == name,
        forall|a: int, b: int| 0 <= a < b < children.len() ==> children[a].name != children[b].name,
    ensures
        first_match(children, name) == Some(children[i]),
    decreases children.len(),
{
    if i == 0 {
    } else {
        assert(children[0].name != children[i].name);
        lemma_first_match_unique(children.skip(1), name, i - 1);
    }
}

/// Skipping children that do not carry the name does not change the match.
pub proof fn lemma_first_match_skip(children: Seq<NodeView>, name: Seq<char>, i: int)
    requires
        0 <= i <= children.len(),
        forall|j: int| 0 <= j < i ==> children[j].name != name,
    ensures
        first_match(children, name) == first_match(children.skip(i), name),
    decreases i,
{
    if i > 0 {
        lemma_first_match_skip(children.skip(1), name, i - 1);
        assert(children.skip(1).skip(i - 1) =~= children.skip(i));
    } else {
        assert(children.skip(0) =~= children);
    }
}

/// A file that lookup reaches also stands in the tree for plain traversal.
pub proof fn lemma_resolved_file_reachable(e: EntryView, path: Seq<Seq<char>>)
    requires
        resolves_to_file(e, path),
    ensures
        file_reachable(e, path),
    decreases path.len(),
{
    if path.len() == 0 {
    } else {
        match e {
            EntryView::Directory { children } => {
                lemma_first_match_contains(children, path[0]);
                let c = first_match(children, path[0])->Some_0;
                lemma_resolved_file_reachable(c.entry, path.skip(1));
                let i = choose|i: int|
                    0 <= i < children.len() && #[trigger] children[i] == c && children[i].name
                        == path[0];
                assert(children[i].name == path[0] && file_reachable(
                    children[i].entry,
                    path.skip(1),
                ));
            },
            EntryView::File { .. } => {},
        }
    }
}

/// Under distinct names, a file that stands in the tree is also the file
/// lookup reaches: traversal and lookup agree, so no file is orphaned in
/// either direction.
pub proof fn lemma_reachable_file_resolves(e: EntryView, path: Seq<Seq<char>>)
    requires
        file_reachable(e, path),
        no_dup_names(e),
    ensures
        resolves_to_file(e, path),
    decreases path.len(),
{
    if path.len() == 0 {
    } else {
        match e {
            EntryView::Directory { children } => {
                let i = choose|i: int|
                    0 <= i < children.len() && (#[trigger] children[i]).name == path[0]
                        && file_reachable(children[i].entry, path.skip(1));
                lemma_first_match_unique(children, path[0], i);
                lemma_reachable_file_resolves(children[i].entry, path.skip(1));
            },
            EntryView::File { .. } => {},
        }
    }
}

/// Resolving past a file fails with the wrong-kind outcome, never with
/// not-found: a path that runs through a file is distinguishable from a
/// missing one.
pub proof fn lemma_through_file_wrong_kind(e: EntryView, p: Seq<Seq<char>>, q: Seq<Seq<char>>)
    requires
        resolves_to_file(e, p),
        q.len() > 0,
    ensures
        resolve_entry(e, p + q) is WrongKind,
    decreases p.len(),
{
    if p.len() == 0 {
        assert(p + q =~~= q);
    } else {
        match e {
            EntryView::Directory { children } => {
                assert((p + q)[0] == p[0]);
                assert((p + q).skip(1) =~~= p.skip(1) + q);
                match first_match(children, p[0]) {
                    Option::Some(c) => {
                        lemma_through_file_wrong_kind(c.entry, p.skip(1), q);
                    },
                    Option::None => {},
                }
            },
            EntryView::File { .. } => {},
        }
    }
}

/// A top-level name that matches no child fails with not-found.
pub proof fn lemma_missing_name_not_found(children: Seq<NodeView>, p: Seq<Seq<char>>)
    requires
        p.len() > 0,
        first_match(children, p[0]) is None,
    ensures
        resolve_entry(EntryView::Directory { children }, p) is NotFound,
{
}

/// Resolution is a pure function of the tree and the path: two resolutions
/// of one path against one tree are one result. Reads are idempotent.
pub proof fn lemma_resolution_deterministic(
    e: EntryView,
    path: Seq<Seq<char>>,
    r1: Resolution,
    r2: Resolution,
)
    requires
        r1 == resolve_entry(e, path),
        r2 == resolve_entry(e, path),
    ensures
        r1 == r2,
{
}

/// Every well-formed record below `e` stays well formed at whatever path
/// resolution finds it.
pub proof fn lemma_resolved_info_wf(e: EntryView, path: Seq<Seq<char>>)
    requires
        tree_infos_wf(e),
        resolves_to_file(e, path),
    ensures
        resolved_info(e, path).wf(),
    decreases path.len(),
{
    if path.len() == 0 {
    } else {
        match e {
            EntryView::Directory { children } => {
                lemma_first_match_contains(children, path[0]);
                let c = first_match(children, path[0])->Some_0;
                let i = choose|i: int|
                    0 <= i < children.len() && #[trigger] children[i] == c && children[i].name
                        == path[0];
                assert(tree_infos_wf(children[i].entry));
                lemma_resolved_info_wf(c.entry, path.skip(1));
            },
            EntryView::File { .. } => {},
        }
    }
}

/// Linear scan for the first child of the given name.
fn find_child<'a>(children: &'a Vec<DirNode>, name: &String) -> (r: Option<&'a DirNode>)
    ensures
        match r {
            Option::Some(c) => first_match(nodes_view(children@), name@) == Some(c@),
            Option::None => first_match(nodes_view(children@), name@) is None,
        },
{
    let ghost cv = nodes_view(children@);
    proof {
        lemma_nodes_view_index(children@);
    }
    let mut i: usize = 0;
    while i < children.len()
        invariant
            i <= children.len(),
            cv == nodes_view(children@),
            cv.len() == children@.len(),
            forall|j: int| 0 <= j < children@.len() ==> cv[j] == node_view(children@[j]),
            forall|j: int| 0 <= j < i ==> cv[j].name != name@,
        decreases children.len() - i,
    {
        if children[i].name == *name {
            proof {
                lemma_first_match_skip(cv, name@, i as int);
                assert(cv.skip(i as int)[0] == cv[i as int]);
            }
            return Some(&children[i]);
        }
        i += 1;
    }
    proof {
        lemma_first_match_skip(cv, name@, i as int);
        assert(cv.skip(i as int).len() == 0);
    }
    None
}

/// Walk `path` from `root`, one segment at a time, descending into the
/// first child of each name. Fails with the not-found error when a segment
/// names no child, and with the wrong-kind error when a non-final segment
/// names a file.
pub fn resolve_node<'a>(root: &'a DirNode, path: &ArchivePath) -> (r: Result<&'a DirNode, Error>)
    ensures
        match r {
            Ok(n) => resolve_entry(root@.entry, path@) == Resolution::Found(n@.entry),
            Err(e) => (e == Error::NotFound && resolve_entry(root@.entry, path@) is NotFound) || (
            e == Error::WrongEntryKind && resolve_entry(root@.entry, path@) is WrongKind),
        },
{
    let mut cur: &DirNode = root;
    let n = path.segments.len();
    let mut i: usize = 0;
    proof {
        assert(path@.skip(0) =~~= path@);
    }
    while i < n
        invariant
            i <= n,
            n == path.segments@.len(),
            resolve_entry(root@.entry, path@) == resolve_entry(cur@.entry, path@.skip(i as int)),
        decreases n - i,
    {
        let ghost rest = path@.skip(i as int);
        proof {
            assert(rest.len() == n - i);
            assert(rest[0] == path@[i as int]);
            assert(path@[i as int] == path.segments@[i as int]@);
        }
        match &cur.entry {
            DirEntry::File { .. } => {
                proof {
                    assert(resolve_entry(cur@.entry, rest) is WrongKind);
                }
                return Err(Error::WrongEntryKind);
            },
            DirEntry::Directory { children } => {
                proof {
                    assert(cur@.entry == EntryView::Directory { children: nodes_view(children@) });
                }
                match find_child(children, &path.segments[i]) {
                    Option::None => {
                        proof {
                            assert(resolve_entry(cur@.entry, rest) is NotFound);
                        }
                        return Err(Error::NotFound);
                    },
                    Option::Some(c) => {
                        proof {
                            assert(rest.skip(1) =~~= path@.skip(i + 1));
                            assert(resolve_entry(cur@.entry, rest) == resolve_entry(
                                c@.entry,
                                rest.skip(1),
                            ));
                        }
                        cur = c;
                    },
                }
            },
        }
        i += 1;
    }
    proof {
        assert(path@.skip(n as int) =~~= Seq::<Seq<char>>::empty());
    }
    Ok(cur)
}

} // verus!
