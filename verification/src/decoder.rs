use vstd::prelude::*;
use crate::error::{Error, ParseError};
use crate::info::FileInfo;
use crate::tree::{DirEntry, DirNode, EntryView, NodeView, node_view, nodes_view};

verus! {

// The index layout, little-endian throughout, no padding:
//   magic "ARH1" (4 bytes) | file count (u32)
//   file table: count records of 21 bytes each:
//       offset (u64) | stored size (u32) | actual size (u64, signed domain) | flag (u8)
//   root child count (u32) | child records
//   child record: tag (u8: 0 directory, 1 file) | name length (u16) | name bytes
//       directory: child count (u32) | child records
//       file: index into the file table (u32)
pub open spec fn le_u16(s: Seq<u8>, pos: int) -> int
    recommends
        0 <= pos,
        pos + 2 <= s.len(),
{
    s[pos] + s[pos + 1] * 0x100
}

pub open spec fn le_u32(s: Seq<u8>, pos: int) -> int
    recommends
        0 <= pos,
        pos + 4 <= s.len(),
{
    s[pos] + s[pos + 1] * 0x100 + s[pos + 2] * 0x1_0000 + s[pos + 3] * 0x100_0000
}

pub open spec fn le_u64(s: Seq<u8>, pos: int) -> int
    recommends
        0 <= pos,
        pos + 8 <= s.len(),
{
    s[pos] + s[pos + 1] * 0x100 + s[pos + 2] * 0x1_0000 + s[pos + 3] * 0x100_0000 + s[pos + 4]
        * 0x1_0000_0000 + s[pos + 5] * 0x100_0000_0000 + s[pos + 6] * 0x1_0000_0000_0000 + s[pos
        + 7] * 0x100_0000_0000_0000
}

/// A name is stored as printable bytes below the ASCII bound, never the
/// separator, and is nonempty.
pub open spec fn valid_name_bytes(b: Seq<u8>) -> bool {
    &&& b.len() > 0
    &&& forall|i: int| 0 <= i < b.len() ==> 0x20 <= #[trigger] b[i] <= 0x7e && b[i] != 0x2f
}

/// The characters a stored name denotes: one per byte.
pub open spec fn name_chars(b: Seq<u8>) -> Seq<char> {
    b.map_values(|x: u8| x as char)
}

/// One file-table record, read from the first 21 bytes of `s`. The actual
/// size is stored in a signed domain: a value above the signed maximum is a
/// negative size and is rejected, never wrapped.
pub open spec fn spec_record(s: Seq<u8>) -> Result<FileInfo, Error>
    recommends
        s.len() >= 21,
{
    let offset = le_u64(s, 0);
    let stored = le_u32(s, 8);
    let actual = le_u64(s, 12);
    let flag = s[20];
    if actual > 0x7fff_ffff_ffff_ffff {
        Err(Error::SizeConvert)
    } else if flag != 0 && flag != 1 {
        Err(Error::Parse(ParseError::BadTag))
    } else if offset + stored > u64::MAX {
        Err(Error::Parse(ParseError::RangeOverflow))
    } else if flag == 0 && stored != actual {
        Err(Error::Parse(ParseError::SizeMismatch))
    } else {
        Ok(
            FileInfo {
                offset: offset as u64,
                stored_size: stored as u32,
                actual_size: actual as u64,
                compressed: flag == 1,
            },
        )
    }
}

/// The file table: `n` consecutive records; the first malformed record
/// aborts the whole decode.
pub open spec fn spec_parse_table(s: Seq<u8>, n: nat) -> Result<Seq<FileInfo>, Error>
    decreases n,
{
    if n == 0 {
        Ok(Seq::empty())
    } else if s.len() < 21 {
        Err(Error::Parse(ParseError::Truncated))
    } else {
        match spec_record(s) {
            Err(e) => Err(e),
            Ok(fi) => match spec_parse_table(s.skip(21), (n - 1) as nat) {
                Err(e) => Err(e),
                Ok(rest) => Ok(seq![fi] + rest),
            },
        }
    }
}

/// One node record at the head of `s`: the modelled node and the number of
/// bytes it occupies.
pub open spec fn spec_parse_node(s: Seq<u8>, table: Seq<FileInfo>) -> Result<(NodeView, nat), Error>
    decreases s.len(), 0int,
{
    if s.len() < 3 {
        Err(Error::Parse(ParseError::Truncated))
    } else {
        let tag = s[0];
        let nlen = le_u16(s, 1);
        if tag != 0 && tag != 1 {
            Err(Error::Parse(ParseError::BadTag))
        } else if s.len() < 3 + nlen {
            Err(Error::Parse(ParseError::Truncated))
        } else if !valid_name_bytes(s.subrange(3, 3 + nlen as int)) {
            Err(Error::Parse(ParseError::BadName))
        } else {
            let name = name_chars(s.subrange(3, 3 + nlen as int));
            let body = s.skip(3 + nlen as int);
            if body.len() < 4 {
                Err(Error::Parse(ParseError::Truncated))
            } else if tag == 0 {
                let cnt = le_u32(body, 0);
                match spec_parse_children(body.skip(4), table, cnt as nat) {
                    Err(e) => Err(e),
                    Ok((children, used)) => Ok(
                        (
                            NodeView { name, entry: EntryView::Directory { children } },
                            (3 + nlen + 4 + used) as nat,
                        ),
                    ),
                }
            } else {
                let idx = le_u32(body, 0);
                if idx >= table.len() {
                    Err(Error::Parse(ParseError::BadFileIndex))
                } else {
                    Ok(
                        (
                            NodeView { name, entry: EntryView::File { info: table[idx as int] } },
                            (3 + nlen + 4) as nat,
                        ),
                    )
                }
            }
        }
    }
}

/// `n` consecutive node records at the head of `s`, in declared order: the
/// modelled children and the number of bytes they occupy together.
pub open spec fn spec_parse_children(s: Seq<u8>, table: Seq<FileInfo>, n: nat) -> Result<
    (Seq<NodeView>, nat),
    Error,
>
    decreases s.len(), n + 1,
{
    if n == 0 {
        Ok((Seq::empty(), 0))
    } else {
        match spec_parse_node(s, table) {
            Err(e) => Err(e),
            Ok((nv, c)) => {
                if c < 1 || c > s.len() {
                    Err(Error::Parse(ParseError::Truncated))
                } else {
                    match spec_parse_children(s.skip(c as int), table, (n - 1) as nat) {
                        Err(e) => Err(e),
                        Ok((rest, c2)) => Ok((seq![nv] + rest, c + c2)),
                    }
                }
            },
        }
    }
}

/// The whole index: magic, file table, root children, nothing after them.
/// The result is the root entry, a directory whose children stand in the
/// archive's declared order.
pub open spec fn spec_load(s: Seq<u8>) -> Result<EntryView, Error> {
    if s.len() < 8 {
        Err(Error::Parse(ParseError::Truncated))
    } else if !(s[0] == 0x41 && s[1] == 0x52 && s[2] == 0x48 && s[3] == 0x31) {
        Err(Error::Parse(ParseError::BadMagic))
    } else {
        let fc = le_u32(s, 4);
        if s.len() < 8 + fc * 21 {
            Err(Error::Parse(ParseError::Truncated))
        } else {
            match spec_parse_table(s.skip(8), fc as nat) {
                Err(e) => Err(e),
                Ok(table) => {
                    let t = 8 + fc * 21;
                    if s.len() < t + 4 {
                        Err(Error::Parse(ParseError::Truncated))
                    } else {
                        match spec_parse_children(s.skip(t + 4), table, le_u32(s, t) as nat) {
                            Err(e) => Err(e),
                            Ok((children, used)) => {
                                if t + 4 + used != s.len() {
                                    Err(Error::Parse(ParseError::TrailingData))
                                } else {
                                    Ok(EntryView::Directory { children })
                                }
                            },
                        }
                    }
                },
            }
        }
    }
}

/// Every record a successful table parse yields is well formed: its stored
/// range cannot wrap, and an uncompressed record declares equal sizes.
pub proof fn lemma_table_wf(s: Seq<u8>, n: nat)
    requires
        spec_parse_table(s, n) is Ok,
    ensures
        forall|i: int|
            0 <= i < spec_parse_table(s, n)->Ok_0.len() ==> (#[trigger] spec_parse_table(
                s,
                n,
            )->Ok_0[i]).wf(),
    decreases n,
{
    if n > 0 {
        let fi = spec_record(s)->Ok_0;
        assert(fi.wf());
        lemma_table_wf(s.skip(21), (n - 1) as nat);
        let whole = spec_parse_table(s, n)->Ok_0;
        let rest = spec_parse_table(s.skip(21), (n - 1) as nat)->Ok_0;
        assert forall|i: int| 0 <= i < whole.len() implies (#[trigger] whole[i]).wf() by {
            if i > 0 {
                assert(whole[i] == rest[i - 1]);
            }
        }
    }
}

/// A node parsed against a table of well-formed records carries only
/// well-formed records.
pub proof fn lemma_node_infos_wf(s: Seq<u8>, table: Seq<FileInfo>)
    requires
        spec_parse_node(s, table) is Ok,
        forall|i: int| 0 <= i < table.len() ==> (#[trigger] table[i]).wf(),
    ensures
        crate::tree::tree_infos_wf(spec_parse_node(s, table)->Ok_0.0.entry),
    decreases s.len(), 0int,
{
    let nlen = le_u16(s, 1);
    let body = s.skip(3 + nlen as int);
    if s[0] == 0 {
        lemma_children_infos_wf(body.skip(4), table, le_u32(body, 0) as nat);
    }
}

/// Children parsed against a table of well-formed records carry only
/// well-formed records.
pub proof fn lemma_children_infos_wf(s: Seq<u8>, table: Seq<FileInfo>, n: nat)
    requires
        spec_parse_children(s, table, n) is Ok,
        forall|i: int| 0 <= i < table.len() ==> (#[trigger] table[i]).wf(),
    ensures
        forall|i: int|
            0 <= i < spec_parse_children(s, table, n)->Ok_0.0.len() ==> crate::tree::tree_infos_wf(
                (#[trigger] spec_parse_children(s, table, n)->Ok_0.0[i]).entry,
            ),
    decreases s.len(), n + 1,
{
    if n > 0 {
        let (nv, c) = spec_parse_node(s, table)->Ok_0;
        lemma_node_infos_wf(s, table);
        lemma_children_infos_wf(s.skip(c as int), table, (n - 1) as nat);
        let whole = spec_parse_children(s, table, n)->Ok_0.0;
        let rest = spec_parse_children(s.skip(c as int), table, (n - 1) as nat)->Ok_0.0;
        assert forall|i: int| 0 <= i < whole.len() implies crate::tree::tree_infos_wf(
            (#[trigger] whole[i]).entry,
        ) by {
            if i > 0 {
                assert(whole[i] == rest[i - 1]);
            }
        }
    }
}

/// Relies on `String::from_utf8`: a vector of bytes below the ASCII bound
/// is valid UTF-8 and decodes to exactly one character per byte, each the
/// same code point.
#[verifier::external_body]
fn ascii_to_string(bytes: Vec<u8>) -> (r: String)
    requires
        forall|i: int| 0 <= i < bytes@.len() ==> bytes@[i] < 0x80,
    ensures
        r@ == name_chars(bytes@),
{
    String::from_utf8(bytes).unwrap_or_default()
}

fn read_u16(b: &Vec<u8>, pos: usize) -> (r: u16)
    requires
        pos + 2 <= b@.len(),
    ensures
        r as int == le_u16(b@, pos as int),
{
    proof {
        assert(b.len() == b@.len());
    }
    (b[pos] as u16) + (b[pos + 1] as u16) * 0x100
}

pub(crate) fn read_u32(b: &Vec<u8>, pos: usize) -> (r: u32)
    requires
        pos + 4 <= b@.len(),
    ensures
        r as int == le_u32(b@, pos as int),
{
    proof {
        assert(b.len() == b@.len());
    }
    (b[pos] as u32) + (b[pos + 1] as u32) * 0x100 + (b[pos + 2] as u32) * 0x1_0000 + (b[pos
        + 3] as u32) * 0x100_0000
}

fn read_u64(b: &Vec<u8>, pos: usize) -> (r: u64)
    requires
        pos + 8 <= b@.len(),
    ensures
        r as int == le_u64(b@, pos as int),
{
    proof {
        assert(b.len() == b@.len());
    }
    (b[pos] as u64) + (b[pos + 1] as u64) * 0x100 + (b[pos + 2] as u64) * 0x1_0000 + (b[pos
        + 3] as u64) * 0x100_0000 + (b[pos + 4] as u64) * 0x1_0000_0000 + (b[pos + 5] as u64)
        * 0x100_0000_0000 + (b[pos + 6] as u64) * 0x1_0000_0000_0000 + (b[pos + 7] as u64)
        * 0x100_0000_0000_0000
}

/// Parse the file table records starting at record `i`.
pub(crate) fn parse_table_from(bytes: &Vec<u8>, i: u32, count: u32) -> (r: Result<Vec<FileInfo>, Error>)
    requires
        i <= count,
        8 + count * 21 <= bytes@.len(),
    ensures
        match r {
            Ok(t) => spec_parse_table(bytes@.skip(8 + 21 * i as int), (count - i) as nat)
                == Ok::<_, Error>(t@),
            Err(e) => spec_parse_table(bytes@.skip(8 + 21 * i as int), (count - i) as nat)
                == Err::<Seq<FileInfo>, _>(e),
        },
    decreases count - i,
{
    let ghost s = bytes@.skip(8 + 21 * i as int);
    if i == count {
        let t: Vec<FileInfo> = Vec::new();
        proof {
            assert(t@ =~= Seq::<FileInfo>::empty());
        }
        return Ok(t);
    }
    let blen = bytes.len();
    proof {
        assert((i as int) * 21 + 21 <= (count as int) * 21);
        assert(8 + (i as int) * 21 + 21 <= blen as int);
    }
    let base: usize = 8 + (i as usize) * 21;
    proof {
        assert(base + 21 <= bytes@.len());
        assert(s.len() >= 21);
        assert forall|k: int| 0 <= k < 21 implies s[k] == bytes@[base + k] by {}
    }
    let offset = read_u64(bytes, base);
    let stored = read_u32(bytes, base + 8);
    let actual = read_u64(bytes, base + 12);
    let flag = bytes[base + 20];
    proof {
        assert(le_u64(s, 0) == le_u64(bytes@, base as int));
        assert(le_u32(s, 8) == le_u32(bytes@, base as int + 8));
        assert(le_u64(s, 12) == le_u64(bytes@, base as int + 12));
    }
    if actual > 0x7fff_ffff_ffff_ffff {
        return Err(Error::SizeConvert);
    }
    if flag != 0 && flag != 1 {
        return Err(Error::Parse(ParseError::BadTag));
    }
    if offset > u64::MAX - (stored as u64) {
        return Err(Error::Parse(ParseError::RangeOverflow));
    }
    if flag == 0 && (stored as u64) != actual {
        return Err(Error::Parse(ParseError::SizeMismatch));
    }
    let info = FileInfo { offset, stored_size: stored, actual_size: actual, compressed: flag == 1 };
    proof {
        assert(spec_record(s) == Ok::<_, Error>(info));
    }
    match parse_table_from(bytes, i + 1, count) {
        Err(e) => {
            proof {
                assert(bytes@.skip(8 + 21 * (i + 1) as int) =~= s.skip(21));
            }
            Err(e)
        },
        Ok(mut rest) => {
            proof {
                assert(bytes@.skip(8 + 21 * (i + 1) as int) =~= s.skip(21));
            }
            let ghost rv = rest@;
            rest.insert(0, info);
            proof {
                assert(rest@ =~= seq![info] + rv);
            }
            Ok(rest)
        },
    }
}

/// Parse one node record at `pos`.
fn parse_node(bytes: &Vec<u8>, pos: usize, table: &Vec<FileInfo>) -> (r: Result<
    (DirNode, usize),
    Error,
>)
    requires
        pos <= bytes@.len(),
    ensures
        match r {
            Ok(p) => {
                &&& spec_parse_node(bytes@.skip(pos as int), table@) == Ok::<_, Error>(
                    (p.0@, (p.1 - pos) as nat),
                )
                &&& pos < p.1 <= bytes@.len()
            },
            Err(e) => spec_parse_node(bytes@.skip(pos as int), table@) == Err::<(NodeView, nat), _>(
                e,
            ),
        },
    decreases bytes@.len() - pos, 0int,
{
    let ghost s = bytes@.skip(pos as int);
    let n = bytes.len();
    if n - pos < 3 {
        return Err(Error::Parse(ParseError::Truncated));
    }
    let tag = bytes[pos];
    let nlen = read_u16(bytes, pos + 1) as usize;
    proof {
        assert(s[0] == bytes@[pos as int]);
        assert forall|k: int| 0 <= k < s.len() implies s[k] == bytes@[pos + k] by {}
        assert(le_u16(s, 1) == le_u16(bytes@, pos as int + 1));
    }
    if tag != 0 && tag != 1 {
        return Err(Error::Parse(ParseError::BadTag));
    }
    if n - pos - 3 < nlen {
        proof {
            assert(s.len() < 3 + nlen);
        }
        return Err(Error::Parse(ParseError::Truncated));
    }
    let ghost raw_name = s.subrange(3, 3 + nlen as int);
    if nlen == 0 {
        proof {
            assert(!valid_name_bytes(raw_name));
        }
        return Err(Error::Parse(ParseError::BadName));
    }
    let mut name_bytes: Vec<u8> = Vec::new();
    let mut k: usize = 0;
    proof {
        assert(name_bytes@ =~= raw_name.take(0));
    }
    while k < nlen
        invariant
            k <= nlen,
            pos + 3 + nlen <= bytes@.len(),
            bytes@.len() <= usize::MAX,
            s == bytes@.skip(pos as int),
            s.len() >= 3,
            tag == s[0],
            tag == 0 || tag == 1,
            nlen as int == le_u16(s, 1),
            s.len() >= 3 + nlen,
            raw_name == s.subrange(3, 3 + nlen as int),
            raw_name.len() == nlen,
            name_bytes@ == raw_name.take(k as int),
            forall|j: int| 0 <= j < k ==> 0x20 <= #[trigger] raw_name[j] <= 0x7e && raw_name[j] != 0x2f,
        decreases nlen - k,
    {
        let byte = bytes[pos + 3 + k];
        proof {
            assert(raw_name[k as int] == bytes@[pos + 3 + k]);
        }
        if byte < 0x20 || byte > 0x7e || byte == 0x2f {
            proof {
                assert(!valid_name_bytes(raw_name));
            }
            return Err(Error::Parse(ParseError::BadName));
        }
        name_bytes.push(byte);
        proof {
            assert(name_bytes@ =~= raw_name.take(k + 1));
        }
        k += 1;
    }
    proof {
        assert(name_bytes@ =~= raw_name);
        assert(valid_name_bytes(raw_name));
    }
    let name = ascii_to_string(name_bytes);
    let name_end = pos + 3 + nlen;
    let ghost body = s.skip(3 + nlen as int);
    proof {
        assert forall|k2: int| 0 <= k2 < body.len() implies body[k2] == bytes@[name_end + k2] by {}
    }
    if n - name_end < 4 {
        proof {
            assert(body.len() < 4);
        }
        return Err(Error::Parse(ParseError::Truncated));
    }
    let arg = read_u32(bytes, name_end);
    proof {
        assert(le_u32(body, 0) == le_u32(bytes@, name_end as int));
        assert(arg as int == le_u32(body, 0));
    }
    if tag == 0 {
        match parse_children(bytes, name_end + 4, table, arg) {
            Err(e) => {
                proof {
                    assert(body.skip(4) =~= bytes@.skip(name_end + 4));
                }
                Err(e)
            },
            Ok((children, end)) => {
                proof {
                    assert(body.skip(4) =~= bytes@.skip(name_end + 4));
                }
                let node = DirNode { name, entry: DirEntry::Directory { children } };
                proof {
                    assert(node@ == NodeView {
                        name: name_chars(raw_name),
                        entry: EntryView::Directory { children: nodes_view(children@) },
                    });
                    assert((end - pos) as nat == 3 + nlen as nat + 4 + (end - (name_end + 4)) as nat);
                }
                Ok((node, end))
            },
        }
    } else {
        if arg as usize >= table.len() {
            return Err(Error::Parse(ParseError::BadFileIndex));
        }
        let info = table[arg as usize];
        let node = DirNode { name, entry: DirEntry::File { info } };
        proof {
            assert(node@ == NodeView {
                name: name_chars(raw_name),
                entry: EntryView::File { info: table@[arg as int] },
            });
        }
        Ok((node, name_end + 4))
    }
}

/// Parse `n` consecutive node records at `pos`.
pub(crate) fn parse_children(bytes: &Vec<u8>, pos: usize, table: &Vec<FileInfo>, n: u32) -> (r: Result<
    (Vec<DirNode>, usize),
    Error,
>)
    requires
        pos <= bytes@.len(),
    ensures
        match r {
            Ok(p) => {
                &&& spec_parse_children(bytes@.skip(pos as int), table@, n as nat) == Ok::<
                    _,
                    Error,
                >((nodes_view(p.0@), (p.1 - pos) as nat))
                &&& pos <= p.1 <= bytes@.len()
            },
            Err(e) => spec_parse_children(bytes@.skip(pos as int), table@, n as nat) == Err::<
                (Seq<NodeView>, nat),
                _,
            >(e),
        },
    decreases bytes@.len() - pos, n as int + 1,
{
    let ghost s = bytes@.skip(pos as int);
    if n == 0 {
        let empty: Vec<DirNode> = Vec::new();
        proof {
            assert(nodes_view(empty@) =~= Seq::<NodeView>::empty());
        }
        return Ok((empty, pos));
    }
    let (first, p1) = match parse_node(bytes, pos, table) {
        Ok(x) => x,
        Err(e) => {
            return Err(e);
        },
    };
    let ghost c = (p1 - pos) as nat;
    proof {
        assert(1 <= c <= s.len());
        assert(s.skip(c as int) =~= bytes@.skip(p1 as int));
    }
    match parse_children(bytes, p1, table, n - 1) {
        Err(e) => Err(e),
        Ok((mut rest, end)) => {
            let ghost rv = rest@;
            rest.insert(0, first);
            proof {
                assert(rest@ =~= seq![first] + rv);
                assert(rest@.skip(1) =~= rv);
                assert(rest@[0] == first);
                assert(nodes_view(rest@) == seq![node_view(first)] + nodes_view(rv));
            }
            Ok((rest, end))
        },
    }
}

} // verus!
