use vstd::prelude::*;
use vstd::string::*;

verus! {

/// A segment may stand between separators: it is nonempty and holds no
/// separator character.
pub open spec fn valid_segment(s: Seq<char>) -> bool {
    &&& s.len() > 0
    &&& forall|i: int| 0 <= i < s.len() ==> s[i] != '/'
}

pub open spec fn valid_segments(p: Seq<Seq<char>>) -> bool {
    forall|i: int| 0 <= i < p.len() ==> valid_segment(#[trigger] p[i])
}

/// Length of the leading separator-free run of `s`.
pub open spec fn segment_run(s: Seq<char>) -> nat
    decreases s.len(),
{
    if s.len() == 0 || s[0] == '/' {
        0
    } else {
        1 + segment_run(s.skip(1))
    }
}

pub proof fn lemma_segment_run_le(s: Seq<char>)
    ensures
        segment_run(s) <= s.len(),
    decreases s.len(),
{
    if s.len() > 0 && s[0] != '/' {
        lemma_segment_run_le(s.skip(1));
    }
}

/// Every character inside the leading run is a non-separator.
pub proof fn lemma_segment_run_chars(s: Seq<char>)
    ensures
        forall|i: int| 0 <= i < segment_run(s) ==> s[i] != '/',
    decreases s.len(),
{
    if s.len() > 0 && s[0] != '/' {
        lemma_segment_run_chars(s.skip(1));
        lemma_segment_run_le(s.skip(1));
        assert(segment_run(s) == 1 + segment_run(s.skip(1)));
        assert forall|i: int| 0 <= i < segment_run(s) implies s[i] != '/' by {
            if i > 0 {
                assert(0 <= i - 1 < segment_run(s.skip(1)));
                assert(s.skip(1)[i - 1] == s[i]);
            }
        }
    }
}

/// The leading run is exactly `k` when the first `k` characters are
/// non-separators and the run is ended by the end of the string or a
/// separator.
pub proof fn lemma_segment_run_is(s: Seq<char>, k: int)
    requires
        0 <= k <= s.len(),
        forall|i: int| 0 <= i < k ==> s[i] != '/',
        k == s.len() || s[k] == '/',
    ensures
        segment_run(s) == k,
    decreases k,
{
    if k == 0 {
    } else {
        assert(s[0] != '/');
        lemma_segment_run_is(s.skip(1), k - 1);
    }
}

/// Normalized parse of a path string: separators split the string into
/// segments, and empty segments (leading, trailing or doubled separators)
/// are dropped. The empty string and the bare separator both denote the
/// root, the empty sequence of segments.
pub open spec fn parse_path(s: Seq<char>) -> Seq<Seq<char>>
    decreases s.len(),
    via parse_path_decreases
{
    if s.len() == 0 {
        Seq::empty()
    } else if s[0] == '/' {
        parse_path(s.skip(1))
    } else {
        seq![s.take(segment_run(s) as int)] + parse_path(s.skip(segment_run(s) as int))
    }
}

#[via_fn]
proof fn parse_path_decreases(s: Seq<char>) {
    if s.len() > 0 && s[0] != '/' {
        lemma_segment_run_le(s);
        assert(segment_run(s) == 1 + segment_run(s.skip(1)));
    }
}

/// Rendering of a nonempty segment sequence: each segment is preceded by one
/// separator.
pub open spec fn render_tail(p: Seq<Seq<char>>) -> Seq<char>
    decreases p.len(),
{
    if p.len() == 0 {
        Seq::empty()
    } else {
        seq!['/'] + p[0] + render_tail(p.skip(1))
    }
}

/// Rendered string form of a path: the root renders as the bare separator,
/// any other path as its segments, each preceded by one separator.
pub open spec fn render_path(p: Seq<Seq<char>>) -> Seq<char> {
    if p.len() == 0 {
        seq!['/']
    } else {
        render_tail(p)
    }
}

/// Every segment a parse produces is valid: nonempty and separator-free.
pub proof fn lemma_parse_valid(s: Seq<char>)
    ensures
        valid_segments(parse_path(s)),
    decreases s.len(),
{
    if s.len() == 0 {
    } else if s[0] == '/' {
        lemma_parse_valid(s.skip(1));
    } else {
        lemma_segment_run_le(s);
        lemma_segment_run_chars(s);
        lemma_parse_valid(s.skip(segment_run(s) as int));
        let seg = s.take(segment_run(s) as int);
        assert(valid_segment(seg));
        assert forall|i: int| 0 <= i < parse_path(s).len() implies valid_segment(
            #[trigger] parse_path(s)[i],
        ) by {
            if i > 0 {
                assert(parse_path(s)[i] == parse_path(s.skip(segment_run(s) as int))[i - 1]);
            }
        }
    }
}

/// A separator-free block followed by a string that is empty or starts with
/// a separator has the block as its leading run.
proof fn lemma_run_of_segment(x: Seq<char>, y: Seq<char>)
    requires
        forall|i: int| 0 <= i < x.len() ==> x[i] != '/',
        y.len() == 0 || y[0] == '/',
    ensures
        segment_run(x + y) == x.len(),
    decreases x.len(),
{
    if x.len() == 0 {
        assert(x + y =~= y);
    } else {
        assert((x + y)[0] == x[0]);
        assert((x + y).skip(1) =~= x.skip(1) + y);
        lemma_run_of_segment(x.skip(1), y);
    }
}

proof fn lemma_parse_render_tail(p: Seq<Seq<char>>)
    requires
        valid_segments(p),
    ensures
        parse_path(render_tail(p)) == p,
    decreases p.len(),
{
    if p.len() == 0 {
        assert(parse_path(render_tail(p)) =~~= p);
    } else {
        let rest = render_tail(p.skip(1));
        let s = render_tail(p);
        assert(s == seq!['/'] + p[0] + rest);
        assert(s[0] == '/');
        assert(s.skip(1) =~= p[0] + rest);
        let t = p[0] + rest;
        assert(rest.len() == 0 || rest[0] == '/') by {
            if p.skip(1).len() > 0 {
                assert(rest == seq!['/'] + p.skip(1)[0] + render_tail(p.skip(1).skip(1)));
            }
        }
        assert(valid_segment(p[0]));
        lemma_run_of_segment(p[0], rest);
        assert(segment_run(t) == p[0].len());
        assert(t.len() > 0 && t[0] != '/');
        assert(t.take(p[0].len() as int) =~= p[0]);
        assert(t.skip(p[0].len() as int) =~= rest);
        lemma_parse_render_tail(p.skip(1));
        assert(parse_path(t) == seq![p[0]] + p.skip(1));
        assert(seq![p[0]] + p.skip(1) =~~= p);
        assert(parse_path(s) == parse_path(s.skip(1)));
        assert(t =~= s.skip(1));
    }
}

/// Path round-trip: parsing the rendered string form of any path whose
/// segments are valid yields the same path again.
pub proof fn lemma_path_round_trip(p: Seq<Seq<char>>)
    requires
        valid_segments(p),
    ensures
        parse_path(render_path(p)) == p,
{
    if p.len() == 0 {
        let s = seq!['/'];
        assert(render_path(p) == s);
        assert(s.len() == 1 && s[0] == '/');
        assert(s.skip(1) =~= Seq::<char>::empty());
        assert(parse_path(s) == parse_path(Seq::<char>::empty()));
        assert(parse_path(Seq::<char>::empty()) == Seq::<Seq<char>>::empty());
        assert(p =~~= Seq::<Seq<char>>::empty());
    } else {
        lemma_parse_render_tail(p);
    }
}

/// Appending one segment extends the rendered tail by a separator and the
/// segment.
proof fn lemma_render_tail_push(p: Seq<Seq<char>>, x: Seq<char>)
    ensures
        render_tail(p.push(x)) == render_tail(p) + seq!['/'] + x,
    decreases p.len(),
{
    if p.len() == 0 {
        assert(p.push(x).skip(1) =~~= p);
        assert(p.push(x)[0] == x);
        assert(render_tail(p) == Seq::<char>::empty());
        assert(render_tail(p.push(x)) == seq!['/'] + x + render_tail(p));
        assert(seq!['/'] + x + render_tail(p) =~= render_tail(p) + seq!['/'] + x);
    } else {
        assert(p.push(x).skip(1) =~~= p.skip(1).push(x));
        assert(p.push(x)[0] == p[0]);
        lemma_render_tail_push(p.skip(1), x);
        assert(seq!['/'] + p[0] + (render_tail(p.skip(1)) + seq!['/'] + x) =~= (seq!['/'] + p[0]
            + render_tail(p.skip(1))) + seq!['/'] + x);
    }
}

/// The deep view of a segment vector: each owned string replaced by its
/// character sequence.
pub open spec fn deep_segs(s: Seq<String>) -> Seq<Seq<char>> {
    s.map_values(|x: String| x@)
}

/// A normalized, comparable path into the archive: an ordered sequence of
/// separator-free segments. The empty sequence denotes the root.
#[derive(Debug)]
pub struct ArchivePath {
    pub segments: Vec<String>,
}

impl View for ArchivePath {
    type V = Seq<Seq<char>>;

    open spec fn view(&self) -> Seq<Seq<char>> {
        deep_segs(self.segments@)
    }
}

impl ArchivePath {
    /// Structural invariant: every segment is nonempty and separator-free.
    pub open spec fn wf(&self) -> bool {
        valid_segments(self@)
    }

    /// The root path.
    pub fn root() -> (r: ArchivePath)
        ensures
            r@ == Seq::<Seq<char>>::empty(),
            r.wf(),
    {
        let r = ArchivePath { segments: Vec::new() };
        proof {
            assert(r@ =~~= Seq::<Seq<char>>::empty());
        }
        r
    }

    /// Parse a delimited string into a normalized path. Leading, trailing
    /// and doubled separators are dropped; the empty string and the bare
    /// separator denote the root.
    pub fn parse(s: &str) -> (r: ArchivePath)
        ensures
            r@ == parse_path(s@),
            r.wf(),
    {
        let segments = parse_segments(s, 0);
        proof {
            assert(s@.skip(0) =~= s@);
            lemma_parse_valid(s@);
        }
        ArchivePath { segments }
    }

    /// Render the path back to its delimited string form.
    pub fn render(&self) -> (r: String)
        ensures
            r@ == render_path(self@),
    {
        if self.segments.len() == 0 {
            let r = String::from_str("/");
            proof {
                reveal_strlit("/");
                assert(r@ =~= seq!['/']);
            }
            return r;
        }
        let mut out = String::new();
        let mut i: usize = 0;
        proof {
            assert(render_tail(self@.take(0)) =~= out@);
        }
        while i < self.segments.len()
            invariant
                i <= self.segments.len(),
                out@ == render_tail(self@.take(i as int)),
            decreases self.segments.len() - i,
        {
            out.append("/");
            out.append(self.segments[i].as_str());
            proof {
                reveal_strlit("/");
                lemma_render_tail_push(self@.take(i as int), self@[i as int]);
                assert(self@.take(i as int).push(self@[i as int]) =~~= self@.take(i + 1));
                assert("/"@ =~= seq!['/']);
            }
            i += 1;
        }
        proof {
            assert(self@.take(self.segments.len() as int) =~~= self@);
        }
        out
    }

    /// The path of a named child of this path.
    pub fn child(&self, name: &str) -> (r: ArchivePath)
        ensures
            r@ == self@.push(name@),
    {
        let mut segments: Vec<String> = self.segments.clone();
        proof {
            assert forall|k: int| 0 <= k < segments@.len() implies segments@[k] == self.segments@[k] by {
                assert(vstd::prelude::cloned::<String>(self.segments[k], segments[k]));
            }
            assert(segments@ =~= self.segments@);
        }
        segments.push(String::from_str(name));
        proof {
            assert(deep_segs(segments@) =~~= self@.push(name@));
        }
        ArchivePath { segments }
    }
}

impl Default for ArchivePath {
    /// The default path is the root.
    fn default() -> (r: Self)
        ensures
            r@ == Seq::<Seq<char>>::empty(),
            r.wf(),
    {
        ArchivePath::root()
    }
}

impl PartialEq for ArchivePath {
    /// Two paths are equal exactly when their segment sequences are equal.
    fn eq(&self, other: &Self) -> (r: bool)
    {
        if self.segments.len() != other.segments.len() {
            proof {
                assert(self@.len() == self.segments@.len());
                assert(other@.len() == other.segments@.len());
            }
            return false;
        }
        let mut i: usize = 0;
        while i < self.segments.len()
            invariant
                i <= self.segments.len(),
                self.segments@.len() == other.segments@.len(),
                forall|j: int| 0 <= j < i ==> self@[j] == other@[j],
            decreases self.segments.len() - i,
        {
            if !(self.segments[i] == other.segments[i]) {
                assert(self@[i as int] != other@[i as int]);
                return false;
            }
            i += 1;
        }
        proof {
            assert(self@ =~~= other@);
        }
        true
    }
}

impl vstd::std_specs::cmp::PartialEqSpecImpl for ArchivePath {
    open spec fn obeys_eq_spec() -> bool {
        true
    }

    open spec fn eq_spec(&self, other: &Self) -> bool {
        self@ == other@
    }
}

/// Parse the suffix of `s` that starts at character position `pos`.
fn parse_segments(s: &str, pos: usize) -> (r: Vec<String>)
    requires
        pos <= s@.len(),
    ensures
        deep_segs(r@) == parse_path(s@.skip(pos as int)),
    decreases s@.len() - pos,
{
    let n = s.unicode_len();
    if pos == n {
        let r: Vec<String> = Vec::new();
        proof {
            assert(deep_segs(r@) =~~= parse_path(s@.skip(pos as int)));
        }
        return r;
    }
    let c = s.get_char(pos);
    if c == '/' {
        let r = parse_segments(s, pos + 1);
        proof {
            assert(s@.skip(pos as int).skip(1) =~= s@.skip(pos + 1));
        }
        r
    } else {
        let mut j: usize = pos + 1;
        while j < n && s.get_char(j) != '/'
            invariant
                pos < j <= n,
                n == s@.len(),
                forall|i: int| pos <= i < j ==> s@[i] != '/',
            decreases n - j,
        {
            j += 1;
        }
        proof {
            let suf = s@.skip(pos as int);
            assert forall|i: int| 0 <= i < j - pos implies suf[i] != '/' by {
                assert(suf[i] == s@[pos + i]);
            }
            if j < n {
                assert(suf[j - pos] == s@[j as int]);
            }
            lemma_segment_run_is(suf, j - pos);
        }
        let seg = String::from_str(s.substring_char(pos, j));
        let mut rest = parse_segments(s, j);
        proof {
            let suf = s@.skip(pos as int);
            assert(suf.take(segment_run(suf) as int) =~= s@.subrange(pos as int, j as int));
            assert(suf.skip(segment_run(suf) as int) =~= s@.skip(j as int));
        }
        rest.insert(0, seg);
        proof {
            let suf = s@.skip(pos as int);
            assert(deep_segs(rest@) =~~= parse_path(suf));
        }
        rest
    }
}

} // verus!
