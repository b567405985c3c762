use vstd::prelude::*;
use vstd::string::*;
use crate::error::Error;
use crate::fs::Filesystem;
use crate::path::{deep_segs, ArchivePath};
use crate::tree::{
    lemma_nodes_view_index, nodes_view, resolve_entry, DirEntry, EntryView, NodeView, Resolution,
};

verus! {

/// The character for one decimal digit.
pub open spec fn digit_char(d: nat) -> char {
    if d == 0 {
        '0'
    } else if d == 1 {
        '1'
    } else if d == 2 {
        '2'
    } else if d == 3 {
        '3'
    } else if d == 4 {
        '4'
    } else if d == 5 {
        '5'
    } else if d == 6 {
        '6'
    } else if d == 7 {
        '7'
    } else if d == 8 {
        '8'
    } else {
        '9'
    }
}

/// Decimal rendering of `n`, most significant digit first, no leading
/// zeros except for zero itself.
pub open spec fn spec_decimal(n: nat) -> Seq<char>
    decreases n,
{
    if n < 10 {
        seq![digit_char(n)]
    } else {
        spec_decimal(n / 10).push(digit_char(n % 10))
    }
}

fn digit_str(d: u64) -> (r: &'static str)
    requires
        d < 10,
    ensures
        r@ == seq![digit_char(d as nat)],
{
    if d == 0 {
        proof {
            reveal_strlit("0");
            assert("0"@ =~= seq![digit_char(0)]);
        }
        "0"
    } else if d == 1 {
        proof {
            reveal_strlit("1");
            assert("1"@ =~= seq![digit_char(1)]);
        }
        "1"
    } else if d == 2 {
        proof {
            reveal_strlit("2");
            assert("2"@ =~= seq![digit_char(2)]);
        }
        "2"
    } else if d == 3 {
        proof {
            reveal_strlit("3");
            assert("3"@ =~= seq![digit_char(3)]);
        }
        "3"
    } else if d == 4 {
        proof {
            reveal_strlit("4");
            assert("4"@ =~= seq![digit_char(4)]);
        }
        "4"
    } else if d == 5 {
        proof {
            reveal_strlit("5");
            assert("5"@ =~= seq![digit_char(5)]);
        }
        "5"
    } else if d == 6 {
        proof {
            reveal_strlit("6");
            assert("6"@ =~= seq![digit_char(6)]);
        }
        "6"
    } else if d == 7 {
        proof {
            reveal_strlit("7");
            assert("7"@ =~= seq![digit_char(7)]);
        }
        "7"
    } else if d == 8 {
        proof {
            reveal_strlit("8");
            assert("8"@ =~= seq![digit_char(8)]);
        }
        "8"
    } else {
        proof {
            reveal_strlit("9");
            assert("9"@ =~= seq![digit_char(9)]);
        }
        "9"
    }
}

/// Render `n` in decimal.
pub fn u64_to_decimal(n: u64) -> (r: String)
    ensures
        r@ == spec_decimal(n as nat),
    decreases n,
{
    if n < 10 {
        String::from_str(digit_str(n))
    } else {
        let q = n / 10;
        proof {
            assert(q < n) by (nonlinear_arith)
                requires
                    n >= 10,
                    q == n / 10,
            ;
        }
        let rest = u64_to_decimal(q);
        let r = rest.concat(digit_str(n % 10));
        proof {
            assert(r@ =~= spec_decimal(q as nat).push(digit_char((n % 10) as nat)));
        }
        r
    }
}

/// The column widths that remain after a row is merged in: the longer of
/// the old width and the row's cell width, column by column; columns the
/// row does not reach keep their width, and new columns take the cell's.
pub open spec fn merged_lens(a: Seq<int>, b: Seq<int>) -> Seq<int> {
    Seq::new(
        if a.len() >= b.len() {
            a.len()
        } else {
            b.len()
        },
        |i: int|
            if i < a.len() && i < b.len() {
                if a[i] >= b[i] {
                    a[i]
                } else {
                    b[i]
                }
            } else if i < a.len() {
                a[i]
            } else {
                b[i]
            },
    )
}

pub open spec fn lens_view(l: Seq<usize>) -> Seq<int> {
    l.map_values(|x: usize| x as int)
}

/// Character width of each cell of a row.
pub open spec fn row_widths(row: Seq<String>) -> Seq<int> {
    row.map_values(|s: String| s@.len() as int)
}

/// A column-aligned text table: the rows pushed so far, and the widest cell
/// width seen for each column.
#[derive(Debug)]
pub struct Table {
    pub rows: Vec<Vec<String>>,
    pub lens: Vec<usize>,
}

impl Table {
    pub fn new() -> (r: Table)
        ensures
            r.rows@ == Seq::<Vec<String>>::empty(),
            r.lens@ == Seq::<usize>::empty(),
    {
        Table { rows: Vec::new(), lens: Vec::new() }
    }

    /// Append one row and widen the column widths to cover it.
    pub fn push_row(&mut self, row: Vec<String>)
        ensures
            final(self).rows@ == old(self).rows@.push(row),
            lens_view(final(self).lens@) == merged_lens(
                lens_view(old(self).lens@),
                row_widths(row@),
            ),
    {
        let ghost a = lens_view(self.lens@);
        let ghost b = row_widths(row@);
        let mut i: usize = 0;
        while i < row.len()
            invariant
                i <= row@.len(),
                b == row_widths(row@),
                self.rows == old(self).rows,
                forall|j: int| 0 <= j < i ==> #[trigger] b[j] <= usize::MAX,
                self.lens@.len() as int == if i <= a.len() {
                    a.len() as int
                } else {
                    i as int
                },
                forall|j: int|
                    0 <= j < self.lens@.len() ==> #[trigger] self.lens@[j] as int == (if j < i {
                        merged_lens(a, b)[j]
                    } else {
                        a[j]
                    }),
            decreases row@.len() - i,
        {
            let cell_width = row[i].as_str().unicode_len();
            proof {
                assert(b[i as int] == row@[i as int]@.len() as int);
            }
            if i >= self.lens.len() {
                self.lens.push(cell_width);
            } else {
                if cell_width > self.lens[i] {
                    self.lens.set(i, cell_width);
                }
            }
            i += 1;
        }
        proof {
            assert(lens_view(self.lens@) =~= merged_lens(a, b));
        }
        self.rows.push(row);
    }
}

/// A run of `n` spaces.
pub open spec fn spaces(n: nat) -> Seq<char>
    decreases n,
{
    if n == 0 {
        Seq::empty()
    } else {
        seq![' '] + spaces((n - 1) as nat)
    }
}

proof fn lemma_spaces_snoc(n: nat)
    ensures
        spaces(n + 1) == spaces(n) + seq![' '],
    decreases n,
{
    if n == 0 {
        assert(spaces(1) =~= spaces(0) + seq![' ']);
    } else {
        lemma_spaces_snoc((n - 1) as nat);
        assert(seq![' '] + (spaces((n - 1) as nat) + seq![' ']) =~= (seq![' '] + spaces(
            (n - 1) as nat,
        )) + seq![' ']);
    }
}

/// Padding that takes a cell of width `w` to column width `l`, plus the two
/// spaces that separate columns.
pub open spec fn pad_width(w: int, l: int) -> nat {
    (if l >= w {
        l - w
    } else {
        0
    } + 2) as nat
}

/// One rendered line: each cell followed by the spaces that pad it to its
/// column's width, plus two separating spaces; a cell beyond the known
/// columns gets the two separating spaces alone.
pub open spec fn spec_line(row: Seq<Seq<char>>, lens: Seq<int>) -> Seq<char>
    decreases row.len(),
{
    if row.len() == 0 {
        Seq::empty()
    } else {
        let l = if lens.len() > 0 {
            lens[0]
        } else {
            0
        };
        let rest = if lens.len() > 0 {
            lens.skip(1)
        } else {
            lens
        };
        row[0] + spaces(pad_width(row[0].len() as int, l)) + spec_line(row.skip(1), rest)
    }
}

proof fn lemma_spec_line_snoc(row: Seq<Seq<char>>, lens: Seq<int>, x: Seq<char>)
    ensures
        spec_line(row.push(x), lens) == spec_line(row, lens) + x + spaces(
            pad_width(
                x.len() as int,
                if lens.len() > row.len() {
                    lens[row.len() as int]
                } else {
                    0
                },
            ),
        ),
    decreases row.len(),
{
    let l = if lens.len() > row.len() {
        lens[row.len() as int]
    } else {
        0
    };
    let tail = x + spaces(pad_width(x.len() as int, l));
    let rest_lens = if lens.len() > 0 {
        lens.skip(1)
    } else {
        lens
    };
    if row.len() == 0 {
        assert(row.push(x)[0] == x);
        assert(row.push(x).skip(1) =~~= row);
        assert(spec_line(row.push(x).skip(1), rest_lens) == spec_line(row, rest_lens));
        assert(spec_line(row, rest_lens) == Seq::<char>::empty());
        assert(spec_line(row, lens) == Seq::<char>::empty());
        assert(spec_line(row.push(x), lens) == x + spaces(pad_width(x.len() as int, l))
            + spec_line(row, rest_lens));
        assert(spec_line(row, lens) + x + spaces(pad_width(x.len() as int, l)) =~= x + spaces(
            pad_width(x.len() as int, l),
        ) + spec_line(row, rest_lens));
        assert(spec_line(row.push(x), lens) == spec_line(row, lens) + x + spaces(
            pad_width(x.len() as int, l),
        ));
    } else {
        assert(row.push(x)[0] == row[0]);
        assert(row.push(x).skip(1) =~~= row.skip(1).push(x));
        lemma_spec_line_snoc(row.skip(1), rest_lens, x);
        let l0 = if lens.len() > 0 {
            lens[0]
        } else {
            0
        };
        let head = row[0] + spaces(pad_width(row[0].len() as int, l0));
        if lens.len() > row.len() {
            assert(lens.skip(1)[row.len() - 1] == lens[row.len() as int]);
        }
        let lp = if rest_lens.len() > row.skip(1).len() {
            rest_lens[row.skip(1).len() as int]
        } else {
            0
        };
        assert(lp == l);
        assert(spec_line(row.skip(1).push(x), rest_lens) == spec_line(
            row.skip(1),
            rest_lens,
        ) + x + spaces(pad_width(x.len() as int, l)));
        assert(spec_line(row.push(x), lens) == head + spec_line(
            row.skip(1).push(x),
            rest_lens,
        ));
        assert(spec_line(row, lens) == head + spec_line(row.skip(1), rest_lens));
        assert(head + (spec_line(row.skip(1), rest_lens) + x + spaces(
            pad_width(x.len() as int, l),
        )) =~= (head + spec_line(row.skip(1), rest_lens)) + x + spaces(
            pad_width(x.len() as int, l),
        ));
        assert(spec_line(row.push(x), lens) == spec_line(row, lens) + x + spaces(
            pad_width(x.len() as int, l),
        ));
    }
}

impl Table {
    /// The rendered text of the table: one line per row, each cell padded
    /// with spaces to its column's width plus two separating spaces.
    pub fn render_lines(&self) -> (r: Vec<String>)
        ensures
            r@.len() == self.rows@.len(),
            forall|k: int|
                0 <= k < r@.len() ==> r@[k]@ == spec_line(
                    deep_segs(self.rows@[k]@),
                    lens_view(self.lens@),
                ),
    {
        let ghost lv = lens_view(self.lens@);
        let mut out: Vec<String> = Vec::new();
        let mut k: usize = 0;
        while k < self.rows.len()
            invariant
                k <= self.rows@.len(),
                lv == lens_view(self.lens@),
                out@.len() == k,
                forall|j: int|
                    0 <= j < k ==> out@[j]@ == spec_line(deep_segs(self.rows@[j]@), lv),
            decreases self.rows@.len() - k,
        {
            let row = &self.rows[k];
            let ghost rv = deep_segs(row@);
            let mut line = String::new();
            let mut i: usize = 0;
            proof {
                assert(rv.take(0) =~~= Seq::<Seq<char>>::empty());
            }
            while i < row.len()
                invariant
                    i <= row@.len(),
                    rv == deep_segs(row@),
                    rv.len() == row@.len(),
                    lv == lens_view(self.lens@),
                    line@ == spec_line(rv.take(i as int), lv),
                decreases row@.len() - i,
            {
                let cell = &row[i];
                let width = cell.as_str().unicode_len();
                let col = if i < self.lens.len() {
                    self.lens[i]
                } else {
                    0
                };
                let pad = if col >= width {
                    col - width
                } else {
                    0
                };
                line.append(cell.as_str());
                let mut p: usize = 0;
                let ghost mid = line@;
                while p < pad
                    invariant
                        p <= pad,
                        line@ == mid + spaces(p as nat),
                    decreases pad - p,
                {
                    line.append(" ");
                    proof {
                        reveal_strlit(" ");
                        lemma_spaces_snoc(p as nat);
                        assert(" "@ =~= seq![' ']);
                        assert(mid + spaces(p as nat) + seq![' '] =~= mid + (spaces(p as nat)
                            + seq![' ']));
                    }
                    p += 1;
                }
                line.append(" ");
                line.append(" ");
                proof {
                    reveal_strlit(" ");
                    assert(" "@ =~= seq![' ']);
                    lemma_spaces_snoc(pad as nat);
                    lemma_spaces_snoc((pad + 1) as nat);
                    assert(mid + spaces(pad as nat) + seq![' '] =~= mid + spaces(pad as nat + 1));
                    assert(mid + spaces(pad as nat + 1) + seq![' '] =~= mid + spaces(
                        pad as nat + 2,
                    ));
                }
                proof {
                    assert(rv[i as int] == row@[i as int]@);
                    assert(rv.take(i + 1) =~~= rv.take(i as int).push(rv[i as int]));
                    lemma_spec_line_snoc(rv.take(i as int), lv, rv[i as int]);
                    assert((pad + 2) as nat == pad_width(
                        rv[i as int].len() as int,
                        if lv.len() > i {
                            lv[i as int]
                        } else {
                            0
                        },
                    ));
                    assert(line@ =~= spec_line(rv.take(i + 1), lv));
                }
                i += 1;
            }
            proof {
                assert(rv.take(row@.len() as int) =~~= rv);
            }
            out.push(line);
            k += 1;
        }
        out
    }
}

impl Default for Table {
    /// An empty table: no rows, no column widths.
    fn default() -> (r: Table)
        ensures
            r.rows@ == Seq::<Vec<String>>::empty(),
            r.lens@ == Seq::<usize>::empty(),
    {
        Table::new()
    }
}

/// Arguments of the listing operation: the directory to list (the root when
/// absent) and whether to print names only, without header and summary.
#[derive(Debug)]
pub struct ListArgs {
    pub working_directory: Option<ArchivePath>,
    pub raw: bool,
}

/// The listing row a child produces: name, kind, and for a file its logical
/// size in decimal; a directory shows no size.
pub open spec fn child_row(c: NodeView) -> Seq<Seq<char>> {
    match c.entry {
        EntryView::File { info } => seq![c.name, "File"@, spec_decimal(info.actual_size as nat)],
        EntryView::Directory { .. } => seq![c.name, "Directory"@, "--"@],
    }
}

/// One listing row per child, in declared order.
pub open spec fn children_rows(children: Seq<NodeView>) -> Seq<Seq<Seq<char>>> {
    children.map_values(|c: NodeView| child_row(c))
}

/// The two header rows shown above a listing.
pub open spec fn header_rows() -> Seq<Seq<Seq<char>>> {
    seq![
        seq!["Name"@, "Type"@, "Size"@],
        seq!["----"@, "----"@, "----"@],
    ]
}

pub open spec fn table_rows_view(rows: Seq<Vec<String>>) -> Seq<Seq<Seq<char>>> {
    rows.map_values(|r: Vec<String>| deep_segs(r@))
}

/// How many children are directories.
pub open spec fn count_dirs(children: Seq<NodeView>) -> nat
    decreases children.len(),
{
    if children.len() == 0 {
        0
    } else {
        (if children[0].entry is Directory {
            1nat
        } else {
            0nat
        }) + count_dirs(children.skip(1))
    }
}

proof fn lemma_count_dirs_push(s: Seq<NodeView>, x: NodeView)
    ensures
        count_dirs(s.push(x)) == count_dirs(s) + (if x.entry is Directory {
            1nat
        } else {
            0nat
        }),
    decreases s.len(),
{
    if s.len() == 0 {
        assert(s.push(x).skip(1) =~= s);
    } else {
        assert(s.push(x).skip(1) =~= s.skip(1).push(x));
        assert(s.push(x)[0] == s[0]);
        lemma_count_dirs_push(s.skip(1), x);
    }
}

/// The working directory a listing call names: the given path, or the root
/// when none is given.
pub open spec fn listing_target(args: &ListArgs) -> Seq<Seq<char>> {
    match args.working_directory {
        Option::Some(p) => p@,
        Option::None => Seq::empty(),
    }
}

/// Build the listing of one directory: one row per child in declared order
/// under an optional header, and the number of directories and files among
/// the children.
pub fn list_directory(fs: &Filesystem, args: &ListArgs) -> (r: Result<(Table, usize, usize), Error>)
    ensures
        match resolve_entry(fs.root@.entry, listing_target(args)) {
            Resolution::Found(EntryView::Directory { children }) => match r {
                Ok(out) => {
                    &&& table_rows_view(out.0.rows@) == (if args.raw {
                        Seq::<Seq<Seq<char>>>::empty()
                    } else {
                        header_rows()
                    }) + children_rows(children)
                    &&& out.1 == count_dirs(children)
                    &&& out.1 + out.2 == children.len()
                },
                Err(_) => false,
            },
            Resolution::Found(EntryView::File { .. }) => r == Err::<(Table, usize, usize), _>(
                Error::WrongEntryKind,
            ),
            Resolution::NotFound => r == Err::<(Table, usize, usize), _>(Error::NotFound),
            Resolution::WrongKind => r == Err::<(Table, usize, usize), _>(Error::WrongEntryKind),
        },
{
    let root_path = ArchivePath::root();
    let wd: &ArchivePath = match &args.working_directory {
        Option::Some(p) => p,
        Option::None => &root_path,
    };
    proof {
        assert(wd@ == listing_target(args));
    }
    let node = match crate::tree::resolve_node(&fs.root, wd) {
        Ok(nd) => nd,
        Err(e) => {
            return Err(e);
        },
    };
    let dir: &Vec<crate::tree::DirNode> = match &node.entry {
        DirEntry::Directory { children } => children,
        DirEntry::File { .. } => {
            return Err(Error::WrongEntryKind);
        },
    };
    let mut table = Table::new();
    if !args.raw {
        let mut h1: Vec<String> = Vec::new();
        h1.push(String::from_str("Name"));
        h1.push(String::from_str("Type"));
        h1.push(String::from_str("Size"));
        let mut h2: Vec<String> = Vec::new();
        h2.push(String::from_str("----"));
        h2.push(String::from_str("----"));
        h2.push(String::from_str("----"));
        proof {
            assert(deep_segs(h1@) =~= seq!["Name"@, "Type"@, "Size"@]);
            assert(deep_segs(h2@) =~= seq!["----"@, "----"@, "----"@]);
        }
        table.push_row(h1);
        table.push_row(h2);
    }
    let ghost header = if args.raw {
        Seq::<Seq<Seq<char>>>::empty()
    } else {
        header_rows()
    };
    proof {
        assert(table_rows_view(table.rows@) =~~= header);
    }
    let mut dirs: usize = 0;
    let mut files: usize = 0;
    let ghost cv = nodes_view(dir@);
    proof {
        lemma_nodes_view_index(dir@);
    }
    let n = dir.len();
    let mut i: usize = 0;
    while i < n
        invariant
            i <= n,
            n == dir@.len(),
            cv == nodes_view(dir@),
            cv.len() == dir@.len(),
            forall|j: int| 0 <= j < dir@.len() ==> cv[j] == crate::tree::node_view(dir@[j]),
            table_rows_view(table.rows@) == header + children_rows(cv.take(i as int)),
            dirs == count_dirs(cv.take(i as int)),
            dirs + files == i,
        decreases n - i,
    {
        let child = &dir[i];
        let mut row: Vec<String> = Vec::new();
        row.push(child.name.clone());
        match &child.entry {
            DirEntry::File { info } => {
                row.push(String::from_str("File"));
                row.push(u64_to_decimal(info.actual_size()));
                proof {
                    assert(deep_segs(row@) =~= child_row(cv[i as int]));
                }
                files += 1;
            },
            DirEntry::Directory { .. } => {
                row.push(String::from_str("Directory"));
                row.push(String::from_str("--"));
                proof {
                    assert(deep_segs(row@) =~= child_row(cv[i as int]));
                }
                dirs += 1;
            },
        }
        let ghost prev_rows = table.rows@;
        table.push_row(row);
        proof {
            assert(cv.take(i + 1) =~= cv.take(i as int).push(cv[i as int]));
            lemma_count_dirs_push(cv.take(i as int), cv[i as int]);
            let new_view = table_rows_view(table.rows@);
            let target = header + children_rows(cv.take(i + 1));
            assert(table.rows@ == prev_rows.push(row));
            assert(table_rows_view(prev_rows).len() == prev_rows.len());
            assert(children_rows(cv.take(i as int)).len() == i);
            assert(children_rows(cv.take(i + 1)).len() == i + 1);
            assert(new_view.len() == prev_rows.len() + 1);
            assert(new_view.len() == target.len());
            assert forall|j: int| 0 <= j < new_view.len() implies new_view[j] == target[j] by {
                if j < header.len() + i {
                    assert(new_view[j] == deep_segs(prev_rows[j]@));
                    assert(deep_segs(prev_rows[j]@) == table_rows_view(prev_rows)[j]);
                    if j >= header.len() {
                        assert(table_rows_view(prev_rows)[j] == children_rows(
                            cv.take(i as int),
                        )[j - header.len()]);
                        assert(children_rows(cv.take(i as int))[j - header.len()] == child_row(
                            cv.take(i as int)[j - header.len()],
                        ));
                        assert(children_rows(cv.take(i + 1))[j - header.len()] == child_row(
                            cv.take(i + 1)[j - header.len()],
                        ));
                    }
                } else {
                    assert(new_view[j] == deep_segs(row@));
                    assert(target[j] == child_row(cv.take(i + 1)[i as int]));
                }
            }
            assert(new_view =~~= target);
        }
        i += 1;
    }
    proof {
        assert(cv.take(n as int) =~= cv);
    }
    Ok((table, dirs, files))
}

} // verus!
