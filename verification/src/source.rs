use vstd::prelude::*;
use vstd::string::StringSliceAdditionalSpecFns;
use crate::symbol::bytes_to_vec;

verus! {

/// Width of a tab used for new sources.
pub const TAB_SIZE: usize = 4;

/// Handle of a source text held by a [`SourceMap`]. Two handles are equal
/// when they name the same source.
#[derive(Copy, Clone, Debug, PartialEq, Eq, Structural)]
pub struct Source {
    id: usize,
    len: usize,
}

/// Name, text, path and tab size of a source.
pub struct SourceData {
    name: Vec<u8>,
    text: Vec<u8>,
    path: Option<Vec<u8>>,
    tabs: usize,
}

impl SourceData {
    pub closed spec fn spec_name(&self) -> Seq<u8> {
        self.name@
    }

    pub closed spec fn spec_text(&self) -> Seq<u8> {
        self.text@
    }

    pub closed spec fn spec_path(&self) -> Option<Seq<u8>> {
        match self.path {
            Some(p) => Some(p@),
            None => None,
        }
    }

    pub closed spec fn spec_tabs(&self) -> usize {
        self.tabs
    }
}

/// Bound of a range of positions.
#[derive(Copy, Clone, Debug, PartialEq, Eq, Structural)]
pub enum RangeBound {
    Included(usize),
    Excluded(usize),
    Unbounded,
}

/// All the sources loaded so far, and the directory paths are relative to.
///
/// The source with index `0` is the empty source.
/// The sources part of a context.
pub type SourceContext = SourceMap;

/// Values that cover a span of source text.
pub trait HasSpan {
    fn span(&self) -> Span;
}

impl HasSpan for Span {
    fn span(&self) -> (r: Span)
        ensures
            r == *self,
    {
        *self
    }
}

pub struct SourceMap {
    base_dir: Vec<u8>,
    sources: Vec<SourceData>,
}

impl Source {
    pub open spec fn spec_id(&self) -> usize {
        self.view().0
    }

    pub open spec fn spec_len(&self) -> usize {
        self.view().1
    }

    pub closed spec fn view(&self) -> (usize, usize) {
        (self.id, self.len)
    }

    /// The empty source, with no name and no text.
    pub fn empty() -> (r: Source)
        ensures
            r.view() == (0usize, 0usize),
    {
        Source { id: 0, len: 0 }
    }

    /// Length of the text in bytes.
    pub fn len(&self) -> (r: usize)
        ensures
            r == self.spec_len(),
    {
        self.len
    }

    /// The span of the whole text.
    pub fn span(&self) -> (r: Span)
        ensures
            r.spec_src() == *self,
            r.spec_pos() == 0,
            r.spec_end() == self.spec_len(),
            r.spec_indent() == 0,
    {
        Span::new(*self, 0, self.len, 0)
    }

    /// The span of the positions in the given bounds.
    pub fn range(&self, start: RangeBound, end: RangeBound) -> (r: Span)
        requires
            ({
                let sta = spec_range_start(start);
                let end = spec_range_end(end, self.spec_len());
                sta <= end <= self.spec_len()
            }),
        ensures
            r.spec_src() == *self,
            r.spec_pos() == spec_range_start(start),
            r.spec_end() == spec_range_end(end, self.spec_len()),
            r.spec_indent() == 0,
    {
        let sta = match start {
            RangeBound::Included(n) => n,
            RangeBound::Excluded(n) => n + 1,
            RangeBound::Unbounded => 0,
        };
        let end = match end {
            RangeBound::Included(n) => n + 1,
            RangeBound::Excluded(n) => n,
            RangeBound::Unbounded => self.len,
        };
        Span::new(*self, sta, end, 0)
    }

    /// Name of the source.
    pub fn name<'a>(&self, map: &'a SourceMap) -> (r: &'a [u8])
        requires
            map.contains(*self),
        ensures
            r@ == map.spec_data(*self).spec_name(),
    {
        map.sources[self.id].name.as_slice()
    }

    /// Text of the source.
    pub fn text<'a>(&self, map: &'a SourceMap) -> (r: &'a [u8])
        requires
            map.contains(*self),
        ensures
            r@ == map.spec_data(*self).spec_text(),
            r@.len() == self.spec_len(),
    {
        map.sources[self.id].text.as_slice()
    }

    /// Path of the file the source was loaded from, if any.
    pub fn path<'a>(&self, map: &'a SourceMap) -> (r: Option<&'a [u8]>)
        requires
            map.contains(*self),
        ensures
            match r {
                Some(p) => map.spec_data(*self).spec_path() == Some(p@),
                None => map.spec_data(*self).spec_path() is None,
            },
    {
        match &map.sources[self.id].path {
            Some(p) => Some(p.as_slice()),
            None => None,
        }
    }

    /// Width of a tab in the source.
    pub fn tab_size(&self, map: &SourceMap) -> (r: usize)
        requires
            map.contains(*self),
        ensures
            r == map.spec_data(*self).spec_tabs(),
    {
        map.sources[self.id].tabs
    }
}

pub open spec fn spec_range_start(b: RangeBound) -> int {
    match b {
        RangeBound::Included(n) => n as int,
        RangeBound::Excluded(n) => n + 1,
        RangeBound::Unbounded => 0,
    }
}

pub open spec fn spec_range_end(b: RangeBound, len: usize) -> int {
    match b {
        RangeBound::Included(n) => n + 1,
        RangeBound::Excluded(n) => n as int,
        RangeBound::Unbounded => len as int,
    }
}

impl Default for Source {
    fn default() -> (r: Source)
        ensures
            r.view() == (0usize, 0usize),
    {
        Source::empty()
    }
}

impl SourceMap {
    pub closed spec fn spec_count(&self) -> nat {
        self.sources@.len()
    }

    pub closed spec fn spec_data(&self, src: Source) -> SourceData {
        self.sources@[src.spec_id() as int]
    }

    pub closed spec fn spec_base_dir(&self) -> Seq<u8> {
        self.base_dir@
    }

    /// Every source of `old` is a source of `self`, with the same data.
    pub open spec fn extends(&self, old: SourceMap) -> bool {
        forall|s: Source| old.contains(s) ==> #[trigger] self.contains(s) && self.spec_data(s) == old.spec_data(s)
    }

    /// `src` names a source of this map.
    pub closed spec fn contains(&self, src: Source) -> bool {
        &&& src.spec_id() < self.sources@.len()
        &&& self.sources@[src.spec_id() as int].text@.len() == src.spec_len()
    }

    /// A source of this map is one of the first `spec_count` ones, and its
    /// length is that of its text.
    pub proof fn lemma_contains(&self, src: Source)
        requires
            self.contains(src),
        ensures
            src.spec_id() < self.spec_count(),
            src.spec_len() == self.spec_data(src).spec_text().len(),
    {
    }

    /// A map holding only the empty source, with the given base directory.
    pub fn new(base_dir: &[u8]) -> (r: SourceMap)
        ensures
            r.spec_count() == 1,
            r.contains(Source::empty_spec()),
            r.spec_base_dir() == base_dir@,
            r.spec_data(Source::empty_spec()).spec_text() == Seq::<u8>::empty(),
            r.spec_data(Source::empty_spec()).spec_name() == Seq::<u8>::empty(),
    {
        let empty = SourceData { name: Vec::new(), text: Vec::new(), path: None, tabs: TAB_SIZE };
        let mut sources = Vec::new();
        sources.push(empty);
        SourceMap { base_dir: bytes_to_vec(base_dir), sources }
    }

    /// Replace the base directory, returning the previous one.
    pub fn set_base_dir(&mut self, base_dir: &[u8]) -> (r: Vec<u8>)
        ensures
            r@ == old(self).spec_base_dir(),
            final(self).spec_base_dir() == base_dir@,
            final(self).spec_count() == old(self).spec_count(),
            final(self).extends(*old(self)),
    {
        let mut dir = bytes_to_vec(base_dir);
        std::mem::swap(&mut dir, &mut self.base_dir);
        dir
    }

    /// The base directory.
    pub fn base_dir(&self) -> (r: &[u8])
        ensures
            r@ == self.spec_base_dir(),
    {
        self.base_dir.as_slice()
    }

    /// Add a source with the given name and text.
    pub fn from_string(&mut self, name: &str, text: &str) -> (r: Source)
        requires
            old(self).spec_count() < usize::MAX,
        ensures
            final(self).contains(r),
            r.spec_id() == old(self).spec_count(),
            final(self).spec_count() == old(self).spec_count() + 1,
            final(self).spec_data(r).spec_name() == name.spec_bytes(),
            final(self).spec_data(r).spec_text() == text.spec_bytes(),
            r.spec_len() == text.spec_bytes().len(),
            forall|s: Source| #[trigger] old(self).contains(s) ==> s != r,
            final(self).spec_data(r).spec_path() is None,
            final(self).spec_data(r).spec_tabs() == TAB_SIZE,
            final(self).extends(*old(self)),
    {
        self.add(name.as_bytes(), text.as_bytes(), None)
    }

    /// Number of sources held, the empty source included.
    pub fn count(&self) -> (r: usize)
        ensures
            r == self.spec_count(),
    {
        self.sources.len()
    }

    /// Add a source read from the file at `path`.
    pub fn add_file(&mut self, name: &[u8], text: &[u8], path: &[u8]) -> (r: Source)
        requires
            old(self).spec_count() < usize::MAX,
        ensures
            final(self).contains(r),
            r.spec_id() == old(self).spec_count(),
            final(self).spec_count() == old(self).spec_count() + 1,
            final(self).spec_data(r).spec_name() == name@,
            final(self).spec_data(r).spec_text() == text@,
            r.spec_len() == text@.len(),
            forall|s: Source| #[trigger] old(self).contains(s) ==> s != r,
            final(self).spec_data(r).spec_path() == Some(path@),
            final(self).spec_data(r).spec_tabs() == TAB_SIZE,
            final(self).extends(*old(self)),
    {
        self.add(name, text, Some(path))
    }

    fn add(&mut self, name: &[u8], text: &[u8], path: Option<&[u8]>) -> (r: Source)
        requires
            old(self).spec_count() < usize::MAX,
        ensures
            final(self).contains(r),
            r.spec_id() == old(self).spec_count(),
            final(self).spec_count() == old(self).spec_count() + 1,
            final(self).spec_data(r).spec_name() == name@,
            final(self).spec_data(r).spec_text() == text@,
            r.spec_len() == text@.len(),
            forall|s: Source| #[trigger] old(self).contains(s) ==> s != r,
            final(self).spec_data(r).spec_path() == (match path {
                Some(p) => Some(p@),
                None => None,
            }),
            final(self).spec_data(r).spec_tabs() == TAB_SIZE,
            final(self).spec_base_dir() == old(self).spec_base_dir(),
            final(self).extends(*old(self)),
    {
        let path = match path {
            Some(p) => Some(bytes_to_vec(p)),
            None => None,
        };
        let data = SourceData { name: bytes_to_vec(name), text: bytes_to_vec(text), path, tabs: TAB_SIZE };
        let id = self.sources.len();
        let len = data.text.len();
        self.sources.push(data);
        Source { id, len }
    }

    /// The source loaded from the file at `path`, if there is one.
    pub fn find_path(&self, path: &[u8]) -> (r: Option<Source>)
        ensures
            match r {
                Some(s) => self.contains(s) && self.spec_data(s).spec_path() == Some(path@),
                None => forall|s: Source| #[trigger] self.contains(s) ==> self.spec_data(s).spec_path() != Some(path@),
            },
    {
        let n = self.sources.len();
        let mut i: usize = 0;
        while i < n
            invariant
                0 <= i <= n,
                n == self.sources@.len(),
                forall|k: int| 0 <= k < i ==> #[trigger] self.sources@[k].spec_path() != Some(path@),
            decreases n - i,
        {
            match &self.sources[i].path {
                Some(p) => {
                    if crate::symbol::bytes_eq(p.as_slice(), path) {
                        return Some(Source { id: i, len: self.sources[i].text.len() });
                    }
                },
                None => {},
            }
            i = i + 1;
        }
        None
    }
}

impl Source {
    pub open spec fn empty_spec() -> Source {
        arbitrary_source(0, 0)
    }
}

pub closed spec fn arbitrary_source(id: usize, len: usize) -> Source {
    Source { id, len }
}

/// A range of positions in the text of a source, and the indentation of the
/// line it starts on.
#[derive(Copy, Clone, Debug, PartialEq, Eq, Structural)]
pub struct Span {
    sta: usize,
    end: usize,
    ind: usize,
    src: Source,
}

impl Span {
    pub closed spec fn spec_pos(&self) -> usize {
        self.sta
    }

    pub closed spec fn spec_end(&self) -> usize {
        self.end
    }

    pub closed spec fn spec_indent(&self) -> usize {
        self.ind
    }

    pub closed spec fn spec_src(&self) -> Source {
        self.src
    }

    /// The empty span: no source, no positions.
    pub open spec fn spec_is_empty(&self) -> bool {
        self.spec_pos() == 0 && self.spec_end() == 0 && self.spec_indent() == 0 && self.spec_src()
            == Source::empty_spec()
    }

    /// A span inside the text of `src`.
    pub fn new(src: Source, sta: usize, end: usize, ind: usize) -> (r: Span)
        requires
            sta <= end <= src.spec_len(),
        ensures
            r.spec_src() == src,
            r.spec_pos() == sta,
            r.spec_end() == end,
            r.spec_indent() == ind,
    {
        Span { sta, end, ind, src }
    }

    /// The empty span.
    pub fn empty() -> (r: Span)
        ensures
            r.spec_is_empty(),
    {
        let r = Span { sta: 0, end: 0, ind: 0, src: Source::empty() };
        assert(r.spec_src() == Source::empty_spec());
        r
    }

    /// The span from the first to the last of `spans`: the merge of the
    /// two, or the first alone, or the empty span when there is none.
    pub fn range(spans: &[Span]) -> (r: Span)
        requires
            spans@.len() >= 2 ==> spans@[0].spec_mergeable(spans@.last()),
        ensures
            spans@.len() == 0 ==> r.spec_is_empty(),
            spans@.len() == 1 ==> r == spans@[0],
            spans@.len() >= 2 ==> r == Span::spec_merge(spans@[0], spans@.last()),
    {
        let n = spans.len();
        if n == 0 {
            Span::empty()
        } else if n == 1 {
            spans[0]
        } else {
            Self::merge(spans[0], spans[n - 1])
        }
    }

    /// Two spans can be merged when one is empty or both are in one source.
    pub open spec fn spec_mergeable(self, other: Span) -> bool {
        self.spec_is_empty() || other.spec_is_empty() || self.spec_src() == other.spec_src()
    }

    /// The smallest span covering both spans; the indentation is that of the
    /// span that starts first. An empty span is ignored.
    pub open spec fn spec_merge(a: Span, b: Span) -> Span {
        if a.spec_is_empty() {
            b
        } else if b.spec_is_empty() {
            a
        } else {
            let (x, y) = if a.spec_pos() <= b.spec_pos() { (a, b) } else { (b, a) };
            span_of(
                x.spec_src(),
                x.spec_pos(),
                if x.spec_end() >= y.spec_end() { x.spec_end() } else { y.spec_end() },
                x.spec_indent(),
            )
        }
    }

    pub fn merge(a: Span, b: Span) -> (r: Span)
        requires
            a.spec_mergeable(b),
        ensures
            r == Span::spec_merge(a, b),
    {
        if a.is_empty() {
            return b;
        }
        if b.is_empty() {
            return a;
        }
        let (a, b) = if a.sta <= b.sta { (a, b) } else { (b, a) };
        Span { sta: a.sta, ind: a.ind, end: if a.end >= b.end { a.end } else { b.end }, src: a.src }
    }

    pub fn merged(self, other: Span) -> (r: Span)
        requires
            self.spec_mergeable(other),
        ensures
            r == Span::spec_merge(self, other),
    {
        Self::merge(self, other)
    }

    pub fn src(&self) -> (r: Source)
        ensures
            r == self.spec_src(),
    {
        self.src
    }

    pub fn pos(&self) -> (r: usize)
        ensures
            r == self.spec_pos(),
    {
        self.sta
    }

    pub fn len(&self) -> (r: usize)
        requires
            self.spec_pos() <= self.spec_end(),
        ensures
            r == self.spec_end() - self.spec_pos(),
    {
        self.end - self.sta
    }

    pub fn end(&self) -> (r: usize)
        ensures
            r == self.spec_end(),
    {
        self.end
    }

    pub fn indent(&self) -> (r: usize)
        ensures
            r == self.spec_indent(),
    {
        self.ind
    }

    pub fn is_empty(&self) -> (r: bool)
        ensures
            r == self.spec_is_empty(),
    {
        let e = Source::empty();
        assert(e == Source::empty_spec());
        self.sta == 0 && self.end == 0 && self.ind == 0 && self.src == e
    }

    /// The text covered by the span.
    pub fn text<'a>(&self, map: &'a SourceMap) -> (r: &'a [u8])
        requires
            map.contains(self.spec_src()),
            self.spec_pos() <= self.spec_end() <= self.spec_src().spec_len(),
        ensures
            r@ == map.spec_data(self.spec_src()).spec_text().subrange(
                self.spec_pos() as int,
                self.spec_end() as int,
            ),
    {
        let text = self.src.text(map);
        slice_range(text, self.sta, self.end)
    }

    /// The span cut to at most `len` positions from its start.
    pub closed spec fn spec_truncated(self, len: usize) -> Span {
        Span { end: if self.end < self.sta || self.end - self.sta <= len { self.end } else { (self.sta + len) as usize }, ..self }
    }

    /// The empty span at the end of the span.
    pub closed spec fn spec_to_end(self) -> Span {
        Span { sta: self.end, ..self }
    }

    /// The span cut to at most `len` positions from its start.
    pub fn truncated(&self, len: usize) -> (r: Span)
        ensures
            r == self.spec_truncated(len),
            r.spec_src() == self.spec_src(),
            r.spec_pos() == self.spec_pos(),
            r.spec_indent() == self.spec_indent(),
            r.spec_end() == (if self.spec_end() < self.spec_pos() || self.spec_end() - self.spec_pos() <= len {
                self.spec_end() as int
            } else {
                self.spec_pos() + len
            }),
    {
        let end = if self.end < self.sta || self.end - self.sta <= len {
            self.end
        } else {
            self.sta + len
        };
        Span { end, ..*self }
    }

    /// The empty span at the end of the span.
    pub fn to_end(&self) -> (r: Span)
        ensures
            r == self.spec_to_end(),
            r.spec_src() == self.spec_src(),
            r.spec_pos() == self.spec_end(),
            r.spec_end() == self.spec_end(),
            r.spec_indent() == self.spec_indent(),
    {
        Span { sta: self.end, ..*self }
    }

    /// A cursor at the start of the span.
    pub fn location<'a>(&self, map: &'a SourceMap) -> (r: Cursor<'a>)
        requires
            map.contains(self.spec_src()),
            self.spec_pos() <= self.spec_src().spec_len(),
        ensures
            r.spec_src() == self.spec_src(),
            r.spec_pos() == self.spec_pos(),
            r.spec_text() == map.spec_data(self.spec_src()).spec_text(),
    {
        let mut cursor = Cursor::new(map, self.src);
        cursor.skip_len(self.sta);
        cursor
    }
}

pub closed spec fn span_of(src: Source, sta: usize, end: usize, ind: usize) -> Span {
    Span { sta, end, ind, src }
}

/// Merging with the empty span changes nothing, and merging is commutative
/// for spans of one source that start at different positions.
pub proof fn lemma_merge_laws(a: Span, b: Span)
    ensures
        Span::spec_merge(a, Span::spec_empty()) == a,
        Span::spec_merge(Span::spec_empty(), a) == a,
        !a.spec_is_empty() && !b.spec_is_empty() && a.spec_pos() != b.spec_pos() ==> Span::spec_merge(a, b)
            == Span::spec_merge(b, a),
{
    assert(Span::spec_empty().spec_is_empty());
}

/// The empty source is the one source named by `0` with no text.
pub proof fn lemma_empty_source(s: Source)
    ensures
        s.view() == (0usize, 0usize) <==> s == Source::empty_spec(),
{
}

/// The empty span is the one span that is empty.
pub proof fn lemma_empty_span(s: Span)
    requires
        s.spec_is_empty(),
    ensures
        s == Span::spec_empty(),
{
}

/// A merged span of two nonempty spans of one source: it starts where the
/// first starts, ends where the last ends, and has the indentation of the
/// span that starts first (of `a` when both start together).
pub proof fn lemma_merge_covers(a: Span, b: Span)
    requires
        !a.spec_is_empty(),
        !b.spec_is_empty(),
        a.spec_src() == b.spec_src(),
    ensures
        Span::spec_merge(a, b).spec_src() == a.spec_src(),
        Span::spec_merge(a, b).spec_pos() == if a.spec_pos() <= b.spec_pos() {
            a.spec_pos()
        } else {
            b.spec_pos()
        },
        Span::spec_merge(a, b).spec_end() == if a.spec_end() >= b.spec_end() {
            a.spec_end()
        } else {
            b.spec_end()
        },
        Span::spec_merge(a, b).spec_indent() == if a.spec_pos() <= b.spec_pos() {
            a.spec_indent()
        } else {
            b.spec_indent()
        },
        Span::spec_merge(a, b).spec_pos() <= a.spec_pos(),
        Span::spec_merge(a, b).spec_pos() <= b.spec_pos(),
        Span::spec_merge(a, b).spec_end() >= a.spec_end(),
        Span::spec_merge(a, b).spec_end() >= b.spec_end(),
{
}

/// The span made of a source, a start, an end and an indentation has them.
pub proof fn lemma_span_of(src: Source, sta: usize, end: usize, ind: usize)
    ensures
        span_of(src, sta, end, ind).spec_src() == src,
        span_of(src, sta, end, ind).spec_pos() == sta,
        span_of(src, sta, end, ind).spec_end() == end,
        span_of(src, sta, end, ind).spec_indent() == ind,
{
}

/// Sources with the same view are the same source.
pub proof fn lemma_source_eq(a: Source, b: Source)
    requires
        a.view() == b.view(),
    ensures
        a == b,
{
}

/// Spans with the same source, start, end and indentation are equal.
pub proof fn lemma_span_eq(a: Span, b: Span)
    requires
        a.spec_src() == b.spec_src(),
        a.spec_pos() == b.spec_pos(),
        a.spec_end() == b.spec_end(),
        a.spec_indent() == b.spec_indent(),
    ensures
        a == b,
{
}

impl Span {
    pub open spec fn spec_empty() -> Span {
        span_of(Source::empty_spec(), 0, 0, 0)
    }
}

/// The positions `sta..end` of a slice.
pub fn slice_range(s: &[u8], sta: usize, end: usize) -> (r: &[u8])
    requires
        sta <= end <= s@.len(),
    ensures
        r@ == s@.subrange(sta as int, end as int),
{
    let (head, _) = s.split_at(end);
    let (_, tail) = head.split_at(sta);
    assert(tail@ =~= s@.subrange(sta as int, end as int));
    tail
}

/// A position in the text of a source.
pub struct Cursor<'a> {
    text: &'a [u8],
    src: Source,
    pos: usize,
}

impl<'a> Cursor<'a> {
    pub closed spec fn spec_text(&self) -> Seq<u8> {
        self.text@
    }

    pub closed spec fn spec_src(&self) -> Source {
        self.src
    }

    pub closed spec fn spec_pos(&self) -> usize {
        self.pos
    }

    pub closed spec fn wf(&self) -> bool {
        &&& self.pos <= self.text@.len()
        &&& self.text@.len() == self.src.spec_len()
    }

    /// A well-formed cursor is within its text, which is that of its source.
    pub proof fn lemma_wf(&self)
        requires
            self.wf(),
        ensures
            self.spec_pos() <= self.spec_text().len(),
            self.spec_text().len() == self.spec_src().spec_len(),
    {
    }

    /// A cursor at the start of `src`.
    pub fn new(map: &'a SourceMap, src: Source) -> (r: Cursor<'a>)
        requires
            map.contains(src),
        ensures
            r.wf(),
            r.spec_src() == src,
            r.spec_pos() == 0,
            r.spec_text() == map.spec_data(src).spec_text(),
    {
        Cursor { text: src.text(map), src, pos: 0 }
    }

    /// Number of bytes left.
    pub fn len(&self) -> (r: usize)
        requires
            self.wf(),
        ensures
            r == self.spec_text().len() - self.spec_pos(),
    {
        self.text.len() - self.pos
    }

    /// The text left.
    pub fn text(&self) -> (r: &'a [u8])
        requires
            self.wf(),
        ensures
            r@ == self.spec_text().subrange(self.spec_pos() as int, self.spec_text().len() as int),
    {
        slice_range(self.text, self.pos, self.text.len())
    }

    /// Move forward `len` bytes, or to the end of the text.
    pub fn skip_len(&mut self, len: usize)
        requires
            old(self).wf(),
        ensures
            final(self).wf(),
            final(self).spec_src() == old(self).spec_src(),
            final(self).spec_text() == old(self).spec_text(),
            final(self).spec_pos() == (if old(self).spec_pos() + len <= old(self).spec_text().len() {
                old(self).spec_pos() + len
            } else {
                old(self).spec_text().len() as int
            }),
    {
        let left = self.text.len() - self.pos;
        if len <= left {
            self.pos = self.pos + len;
        } else {
            self.pos = self.text.len();
        }
    }

    /// The span of the next `len` bytes.
    pub fn span_with_len(&self, len: usize) -> (r: Span)
        requires
            self.wf(),
            self.spec_pos() + len <= self.spec_text().len(),
        ensures
            r.spec_src() == self.spec_src(),
            r.spec_pos() == self.spec_pos(),
            r.spec_end() == self.spec_pos() + len,
            r.spec_indent() == 0,
    {
        Span::new(self.src, self.pos, self.pos + len, 0)
    }

    pub fn src(&self) -> (r: Source)
        ensures
            r == self.spec_src(),
    {
        self.src
    }

    pub fn pos(&self) -> (r: usize)
        ensures
            r == self.spec_pos(),
    {
        self.pos
    }
}

} // verus!
