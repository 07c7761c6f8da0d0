//! Source positions: interned file identities and byte-offset → (line, col)
//! conversion.
use vstd::prelude::*;
use vstd::string::StringSliceAdditionalSpecFns;

verus! {

/// Identity of a source file, interned in a [`FileTable`].
#[derive(Debug, Clone, Copy, PartialEq, Eq, Structural, Hash, PartialOrd, Ord)]
pub struct FileId(pub u32);

/// Interning table `FileId ↔ path`, one entry per parsed file.
#[derive(Debug, Clone)]
pub struct FileTable {
    paths: Vec<String>,
}

/// The path interned under index `i` of a table's path list.
pub open spec fn seq_index_of(paths: Seq<Seq<char>>, p: Seq<char>) -> int {
    choose|i: int| 0 <= i < paths.len() && paths[i] == p
}

/// `true` iff no path occurs twice.
pub open spec fn distinct_paths(paths: Seq<Seq<char>>) -> bool {
    forall|i: int, j: int| 0 <= i < j < paths.len() ==> paths[i] != paths[j]
}

impl FileTable {
    /// The interned paths, in interning order: `FileId(i)` names entry `i`.
    pub closed spec fn view(&self) -> Seq<Seq<char>> {
        self.paths@.map_values(|p: String| p@)
    }

    /// No path is interned twice, and every id fits in a `u32`.
    pub closed spec fn wf(&self) -> bool {
        &&& distinct_paths(self.view())
        &&& self.paths@.len() <= u32::MAX
    }

    /// An empty table.
    pub fn new() -> (t: FileTable)
        ensures
            t.wf(),
            t.view() == Seq::<Seq<char>>::empty(),
    {
        let t = FileTable { paths: Vec::new() };
        assert(t.view() =~= Seq::<Seq<char>>::empty());
        t
    }

    /// Number of interned paths.
    pub fn len(&self) -> (n: usize)
        ensures
            n == self.view().len(),
    {
        self.paths.len()
    }

    /// Intern `path`, returning the existing id when already present.
    pub fn intern(&mut self, path: String) -> (id: FileId)
        requires
            old(self).wf(),
            old(self).view().contains(path@) || old(self).view().len() < u32::MAX,
        ensures
            final(self).wf(),
            old(self).view().contains(path@) ==> final(self).view() == old(self).view(),
            !old(self).view().contains(path@) ==> final(self).view() == old(self).view().push(path@),
            id.0 < final(self).view().len(),
            final(self).view()[id.0 as int] == path@,
            !old(self).view().contains(path@) ==> id.0 == old(self).view().len(),
            forall|k: int| 0 <= k < old(self).view().len() && old(self).view()[k] == path@ ==> id.0 == k,
    {
        let n = self.paths.len();
        let mut i: usize = 0;
        while i < n
            invariant
                self.wf(),
                n == self.paths@.len(),
                n <= u32::MAX,
                0 <= i <= n,
                forall|k: int| 0 <= k < i ==> self.paths@[k]@ != path@,
            decreases n - i,
        {
            if self.paths[i] == path {
                assert(self.view()[i as int] == path@);
                return FileId(i as u32);
            }
            i = i + 1;
        }
        assert(!self.view().contains(path@)) by {
            if self.view().contains(path@) {
                let k = choose|k: int| 0 <= k < self.view().len() && self.view()[k] == path@;
                assert(self.paths@[k]@ == path@);
            }
        }
        let ghost old_view = self.view();
        self.paths.push(path);
        assert(self.view() =~= old_view.push(path@));
        assert(distinct_paths(self.view()));
        FileId(n as u32)
    }

    /// A well-formed table holds each path once, so a path has one id.
    pub proof fn lemma_paths_distinct(&self)
        requires
            self.wf(),
        ensures
            distinct_paths(self.view()),
            self.view().len() <= u32::MAX,
    {
    }

    /// Resolve an id minted by [`FileTable::intern`]; `None` for an id this
    /// table never minted.
    pub fn path(&self, id: FileId) -> (p: Option<&String>)
        ensures
            id.0 < self.view().len() <==> p is Some,
            p matches Some(s) ==> s@ == self.view()[id.0 as int],
    {
        let i = id.0 as usize;
        if i < self.paths.len() {
            Some(&self.paths[i])
        } else {
            None
        }
    }
}

/// A `(file, line, col)` source position. `line` is 1-indexed, `col` 0-indexed.
#[derive(Debug, Clone, Copy, PartialEq, Eq, Structural)]
pub struct SourceRange {
    pub file: FileId,
    pub line: u32,
    pub col: u32,
}

/// The line-start table of a byte string, over its first `n` bytes: offset 0,
/// then one past every `'\n'`, in ascending order.
pub open spec fn line_starts_upto(bytes: Seq<u8>, n: nat) -> Seq<int>
    decreases n,
{
    if n == 0 {
        seq![0int]
    } else {
        let prev = line_starts_upto(bytes, (n - 1) as nat);
        if bytes[n - 1] == 10u8 {
            prev.push(n as int)
        } else {
            prev
        }
    }
}

/// The line-start table of a whole byte string.
pub open spec fn line_starts_of(bytes: Seq<u8>) -> Seq<int> {
    line_starts_upto(bytes, bytes.len())
}

/// `true` iff `s` is strictly ascending.
pub open spec fn strictly_ascending(s: Seq<int>) -> bool {
    forall|i: int, j: int| 0 <= i < j < s.len() ==> s[i] < s[j]
}

/// Facts about the line-start table of a prefix: it starts at 0, ascends, is
/// bounded by the prefix length and has one entry per newline plus one.
pub proof fn lemma_line_starts_shape(bytes: Seq<u8>, n: nat)
    requires
        n <= bytes.len(),
    ensures
        line_starts_upto(bytes, n).len() >= 1,
        line_starts_upto(bytes, n)[0] == 0,
        strictly_ascending(line_starts_upto(bytes, n)),
        forall|k: int|
            0 <= k < line_starts_upto(bytes, n).len() ==> 0 <= #[trigger] line_starts_upto(
                bytes,
                n,
            )[k] <= n,
        line_starts_upto(bytes, n).len() <= n + 1,
    decreases n,
{
    if n > 0 {
        lemma_line_starts_shape(bytes, (n - 1) as nat);
    }
}

/// Build the table of byte offsets where each line begins (index = line
/// index, value = start offset).
pub fn compute_line_starts(source: &str) -> (starts: Vec<u32>)
    requires
        source.spec_bytes().len() < u32::MAX,
    ensures
        starts@.map_values(|s: u32| s as int) == line_starts_of(source.spec_bytes()),
        ascending_u32(starts@),
        starts@.len() >= 1 && starts@[0] == 0,
{
    let bytes = source.as_bytes();
    let n = bytes.len();
    let mut starts: Vec<u32> = Vec::new();
    starts.push(0);
    let mut i: usize = 0;
    assert(starts@.map_values(|s: u32| s as int) =~= line_starts_upto(bytes@, 0));
    while i < n
        invariant
            n == bytes@.len(),
            bytes@ == source.spec_bytes(),
            n < u32::MAX,
            0 <= i <= n,
            starts@.map_values(|s: u32| s as int) == line_starts_upto(bytes@, i as nat),
        decreases n - i,
    {
        let ghost prev = starts@;
        if bytes[i] == 10u8 {
            starts.push(i as u32 + 1);
            assert(starts@.map_values(|s: u32| s as int) =~= prev.map_values(
                |s: u32| s as int,
            ).push((i + 1) as int));
        }
        i = i + 1;
    }
    proof {
        lemma_line_starts_shape(source.spec_bytes(), source.spec_bytes().len());
        let ls = line_starts_of(source.spec_bytes());
        assert(starts@.len() == ls.len());
        assert forall|i: int, j: int| 0 <= i <= j < starts@.len() implies starts@[i] <= starts@[j] by {
            assert(starts@.map_values(|s: u32| s as int)[i] == ls[i]);
            assert(starts@.map_values(|s: u32| s as int)[j] == ls[j]);
        }
        assert(starts@.map_values(|s: u32| s as int)[0] == ls[0]);
    }
    starts
}

/// `true` iff `starts` is ascending (non-strictly).
pub open spec fn ascending_u32(starts: Seq<u32>) -> bool {
    forall|i: int, j: int| 0 <= i <= j < starts.len() ==> starts[i] <= starts[j]
}

/// `r` is where `offset` falls in the line table `starts`: the last line
/// starting at or below it (1-indexed), and the distance from that start.
pub open spec fn locates(starts: Seq<u32>, offset: u32, file: FileId, r: SourceRange) -> bool {
    &&& r.file == file
    &&& 1 <= r.line <= starts.len()
    &&& starts[r.line - 1] <= offset
    &&& (r.line == starts.len() || starts[r.line as int] > offset)
    &&& r.col == offset - starts[r.line - 1]
}

/// On an ascending table an offset falls in one place only: a span-map
/// lookup and the free conversion over the same table agree.
pub proof fn lemma_locates_unique(starts: Seq<u32>, offset: u32, file: FileId, a: SourceRange, b: SourceRange)
    requires
        ascending_u32(starts),
        locates(starts, offset, file, a),
        locates(starts, offset, file, b),
    ensures
        a == b,
{
    if a.line < b.line {
        assert(starts[a.line as int] <= starts[b.line - 1]);
    }
    if b.line < a.line {
        assert(starts[b.line as int] <= starts[a.line - 1]);
    }
}

/// Convert a byte offset into a (line, col) pair using a line-starts table:
/// the line is the last start at or below `offset` (1-indexed), the column
/// the distance from that start.
pub fn offset_to_range(starts: &[u32], offset: u32, file: FileId) -> (r: SourceRange)
    requires
        starts@.len() >= 1,
        starts@.len() <= u32::MAX,
        ascending_u32(starts@),
        starts@[0] <= offset,
    ensures
        r.file == file,
        1 <= r.line <= starts@.len(),
        starts@[r.line - 1] <= offset,
        r.line == starts@.len() || starts@[r.line as int] > offset,
        r.col == offset - starts@[r.line - 1],
        locates(starts@, offset, file, r),
{
    // Binary search for the partition point: the number of leading entries
    // `<= offset`.
    let mut lo: usize = 0;
    let mut hi: usize = starts.len();
    while lo < hi
        invariant
            0 <= lo <= hi <= starts@.len(),
            ascending_u32(starts@),
            forall|i: int| 0 <= i < lo ==> starts@[i] <= offset,
            forall|i: int| hi <= i < starts@.len() ==> starts@[i] > offset,
        decreases hi - lo,
    {
        let mid = lo + (hi - lo) / 2;
        if starts[mid] <= offset {
            lo = mid + 1;
        } else {
            hi = mid;
        }
    }
    let line = if lo == 0 { 0 } else { lo - 1 };
    SourceRange { file, line: line as u32 + 1, col: offset - starts[line] }
}

/// Everything the lowering needs to mint [`SourceRange`]s for one file: the
/// line-start table plus the file's interned identity.
#[derive(Debug)]
pub struct SourceMap {
    line_starts: Vec<u32>,
    file: FileId,
}

impl Clone for SourceMap {
    fn clone(&self) -> (c: SourceMap)
        ensures
            c.starts() == self.starts(),
            c.file() == self.file(),
    {
        proof {
            use_type_invariant(self);
        }
        let line_starts = self.line_starts.clone();
        assert(line_starts@ =~= self.line_starts@);
        SourceMap { line_starts, file: self.file }
    }
}

impl SourceMap {
    /// The line-start table, empty for [`SourceMap::empty`].
    pub closed spec fn starts(&self) -> Seq<u32> {
        self.line_starts@
    }

    /// The file the map mints spans for.
    pub closed spec fn file(&self) -> FileId {
        self.file
    }

    #[verifier::type_invariant]
    closed spec fn wf(&self) -> bool {
        &&& self.line_starts@.len() <= u32::MAX
        &&& ascending_u32(self.line_starts@)
        &&& self.line_starts@.len() > 0 ==> self.line_starts@[0] == 0
    }

    /// The map of `source`, minting spans into `file`.
    pub fn new(source: &str, file: FileId) -> (m: SourceMap)
        requires
            source.spec_bytes().len() < u32::MAX,
        ensures
            m.starts().map_values(|s: u32| s as int) == line_starts_of(source.spec_bytes()),
            m.file() == file,
    {
        let line_starts = compute_line_starts(source);
        proof {
            lemma_line_starts_shape(source.spec_bytes(), source.spec_bytes().len());
            let ls = line_starts_of(source.spec_bytes());
            assert(line_starts@.len() == ls.len());
            assert forall|i: int, j: int| 0 <= i <= j < line_starts@.len() implies line_starts@[i]
                <= line_starts@[j] by {
                assert(line_starts@.map_values(|s: u32| s as int)[i] == ls[i]);
                assert(line_starts@.map_values(|s: u32| s as int)[j] == ls[j]);
            }
            assert(line_starts@.map_values(|s: u32| s as int)[0] == ls[0]);
        }
        SourceMap { line_starts, file }
    }

    /// A map with no line table: `span_at` always yields `None`.
    pub fn empty() -> (m: SourceMap)
        ensures
            m.starts().len() == 0,
            m.file() == FileId(u32::MAX),
    {
        SourceMap { line_starts: Vec::new(), file: FileId(u32::MAX) }
    }

    /// Convert a byte offset into a span, `None` when the map is empty.
    pub fn span_at(&self, offset: u32) -> (r: Option<SourceRange>)
        ensures
            self.starts().len() == 0 <==> r is None,
            r matches Some(s) ==> {
                &&& s.file == self.file()
                &&& 1 <= s.line <= self.starts().len()
                &&& self.starts()[s.line - 1] <= offset
                &&& (s.line == self.starts().len() || self.starts()[s.line as int] > offset)
                &&& s.col == offset - self.starts()[s.line - 1]
            },
            r matches Some(s) ==> locates(self.starts(), offset, self.file(), s),
            ascending_u32(self.starts()),
    {
        proof {
            use_type_invariant(self);
        }
        if self.line_starts.len() == 0 {
            None
        } else {
            Some(offset_to_range(self.line_starts.as_slice(), offset, self.file))
        }
    }
}

} // verus!
