use vstd::prelude::*;
use vstd::string::StringExecFns;
use crate::text::{decimal, push_decimal};
use vstd::string::StringSliceAdditionalSpecFns;
use vstd::arithmetic::div_mod::{lemma_fundamental_div_mod, lemma_mod_multiples_basic, lemma_small_mod};
use vstd::arithmetic::mul::lemma_mul_is_commutative;

verus! {

pub const KB: usize = 1024;

pub const MB: usize = 1024 * KB;

pub const GB: usize = 1024 * MB;

pub const TB: u64 = 1024 * 1024 * 1024 * 1024;

/// A byte count under a megabyte as text: the number and ` bytes` under a
/// kilobyte, else the whole kilobytes and ` KB`. `None` from a megabyte up,
/// where the figure is shown with a fraction.
pub fn small_bytes_text(bytes: usize) -> (r: Option<String>)
    ensures
        bytes < KB ==> (r matches Some(s) && s@ == decimal(bytes as nat) + " bytes"@),
        KB <= bytes < MB ==> (r matches Some(s) && s@ == decimal((bytes / KB) as nat) + " KB"@),
        bytes >= MB ==> r is None,
{
    if bytes >= MB {
        return None;
    }
    let n: usize = if bytes < KB { bytes } else { bytes / KB };
    let mut s = String::new();
    proof {
        assert(s@ =~= Seq::<char>::empty());
    }
    push_decimal(&mut s, n as u64);
    if bytes < KB {
        s.append(" bytes");
    } else {
        s.append(" KB");
    }
    Some(s)
}

/// Page size of a store made with [`Store::new`].
pub const DEFAULT_PAGE: usize = 256 * MB;

/// Smallest page size of a store.
pub const MIN_PAGE: usize = 1024;

/// Allocations larger than the page size divided by this are made outside
/// the pages.
pub const MAX_ALLOC_RATIO: usize = 8;

/// `a + b`, wrapping around like the atomic counters of memory statistics.
pub open spec fn wrap_add(a: usize, b: usize) -> usize {
    if a + b > usize::MAX {
        (a + b - usize::MAX - 1) as usize
    } else {
        (a + b) as usize
    }
}

/// `a - b`, wrapping around like the atomic counters of memory statistics.
pub open spec fn wrap_sub(a: usize, b: usize) -> usize {
    if a >= b {
        (a - b) as usize
    } else {
        (a - b + usize::MAX + 1) as usize
    }
}

pub open spec fn max_usize(a: usize, b: usize) -> usize {
    if a >= b {
        a
    } else {
        b
    }
}

/// Mathematical value of [`MemStat`].
pub struct MemCounts {
    /// Bytes reserved for pages and large allocations.
    pub size: usize,
    /// Bytes handed out.
    pub used: usize,
    /// Highest value `size` reached.
    pub max_size: usize,
    /// Highest value `used` reached.
    pub max_used: usize,
}

/// The counts after `size` more bytes were reserved and `used` more handed
/// out.
pub open spec fn counts_add(m: MemCounts, size: usize, used: usize) -> MemCounts {
    MemCounts {
        size: wrap_add(m.size, size),
        used: wrap_add(m.used, used),
        max_size: max_usize(m.max_size, wrap_add(m.size, size)),
        max_used: max_usize(m.max_used, wrap_add(m.used, used)),
    }
}

/// The counts after `size` reserved bytes and `used` handed out bytes were
/// given back.
pub open spec fn counts_sub(m: MemCounts, size: usize, used: usize) -> MemCounts {
    MemCounts { size: wrap_sub(m.size, size), used: wrap_sub(m.used, used), ..m }
}

/// Memory statistics: bytes reserved and handed out, and the highest values
/// they reached.
#[derive(Debug)]
pub struct MemStat {
    size: usize,
    used: usize,
    max_size: usize,
    max_used: usize,
}

impl View for MemStat {
    type V = MemCounts;

    closed spec fn view(&self) -> MemCounts {
        MemCounts { size: self.size, used: self.used, max_size: self.max_size, max_used: self.max_used }
    }
}

impl MemStat {
    /// Statistics with every count at zero.
    pub fn new() -> (r: MemStat)
        ensures
            r@ == (MemCounts { size: 0, used: 0, max_size: 0, max_used: 0 }),
    {
        MemStat { size: 0, used: 0, max_size: 0, max_used: 0 }
    }

    /// Count `size` more bytes reserved and `used` more handed out.
    pub fn add(&mut self, size: usize, used: usize)
        ensures
            final(self)@ == counts_add(old(self)@, size, used),
    {
        let s = self.size.wrapping_add(size);
        let u = self.used.wrapping_add(used);
        self.size = s;
        self.used = u;
        if s > self.max_size {
            self.max_size = s;
        }
        if u > self.max_used {
            self.max_used = u;
        }
    }

    /// Count `size` reserved bytes and `used` handed out bytes as given back.
    pub fn sub(&mut self, size: usize, used: usize)
        ensures
            final(self)@ == counts_sub(old(self)@, size, used),
    {
        self.size = self.size.wrapping_sub(size);
        self.used = self.used.wrapping_sub(used);
    }

    pub fn size(&self) -> (r: usize)
        ensures
            r == self@.size,
    {
        self.size
    }

    pub fn used(&self) -> (r: usize)
        ensures
            r == self@.used,
    {
        self.used
    }

    pub fn max_size(&self) -> (r: usize)
        ensures
            r == self@.max_size,
    {
        self.max_size
    }

    pub fn max_used(&self) -> (r: usize)
        ensures
            r == self@.max_used,
    {
        self.max_used
    }
}

/// The first multiple of `align` at or after `n`.
pub open spec fn align_up(n: int, align: int) -> int {
    n + (align - n % align) % align
}

pub proof fn lemma_align_up(n: int, align: int)
    requires
        0 <= n,
        0 < align,
    ensures
        align_up(n, align) % align == 0,
        n <= align_up(n, align) < n + align,
{
    lemma_fundamental_div_mod(n, align);
    let q = n / align;
    let r = n % align;
    if r == 0 {
        assert(align % align == 0) by {
            lemma_mod_multiples_basic(1, align);
        }
        assert(align_up(n, align) == n);
    } else {
        lemma_small_mod((align - r) as nat, align as nat);
        assert(align_up(n, align) == align * (q + 1)) by (nonlinear_arith)
            requires
                n == align * q + r,
                align_up(n, align) == n + (align - r),
        ;
        lemma_mul_is_commutative(align, q + 1);
        lemma_mod_multiples_basic(q + 1, align);
    }
}

/// Where an allocation of a store lies.
#[derive(Copy, Clone, Debug, PartialEq, Eq, Structural)]
pub enum Place {
    /// `len` bytes at `offset` of the page numbered `page`, aligned to
    /// `align`.
    Page { page: usize, offset: usize, len: usize, align: usize },
    /// A separate allocation of `size` bytes, outside the pages.
    Big { size: usize },
}

/// A page of a store: its size and how many of its bytes are handed out.
#[derive(Debug)]
pub struct Page {
    size: usize,
    used: usize,
}

impl View for Page {
    type V = (usize, usize);

    closed spec fn view(&self) -> (usize, usize) {
        (self.size, self.used)
    }
}

impl Page {
    /// An empty page of `size` bytes.
    pub fn new(size: usize) -> (r: Page)
        ensures
            r@ == (size, 0usize),
    {
        Page { size, used: 0 }
    }

    /// Hand out `size` bytes (at least one) at the first offset aligned to
    /// `align`; `None` when they do not fit on the page.
    pub fn allocate(&mut self, size: usize, align: usize) -> (r: Option<usize>)
        requires
            align > 0,
            old(self)@.1 <= old(self)@.0,
        ensures
            ({
                let pos = align_up(old(self)@.1 as int, align as int);
                let len = if size == 0 { 1 } else { size as int };
                &&& pos + len <= old(self)@.0 ==> r == Some(pos as usize) && final(self)@ == (
                    old(self)@.0,
                    (pos + len) as usize,
                )
                &&& pos + len > old(self)@.0 ==> r is None && final(self)@ == old(self)@
            }),
    {
        let len: usize = if size == 0 { 1 } else { size };
        let pad: usize = (align - self.used % align) % align;
        if pad > self.size - self.used {
            return None;
        }
        let pos: usize = self.used + pad;
        if len > self.size - pos {
            return None;
        }
        self.used = pos + len;
        Some(pos)
    }
}

/// Bookkeeping of a store: page size, bytes handed out on pages, the current
/// page, the number of pages made, every allocation in order, and the
/// statistics.
pub struct StoreState {
    pub page_size: usize,
    pub used: usize,
    pub page_used: usize,
    pub pages: usize,
    pub allocs: Seq<Place>,
    pub stats: MemCounts,
}

/// The bookkeeping after an allocation of `size` bytes aligned to `align`,
/// and where it lies: outside the pages when larger than the page size over
/// [`MAX_ALLOC_RATIO`]; else on the current page when it fits there, or at
/// the start of a new page.
pub open spec fn after_allocate(s: StoreState, size: usize, align: usize) -> (StoreState, Place) {
    if size > s.page_size / MAX_ALLOC_RATIO {
        let p = Place::Big { size };
        (StoreState { allocs: s.allocs.push(p), stats: counts_add(s.stats, size, size), ..s }, p)
    } else {
        let used = wrap_add(s.used, size);
        let len: usize = if size == 0 { 1 } else { size };
        let pos = align_up(s.page_used as int, align as int);
        if pos + len <= s.page_size {
            let p = Place::Page { page: (s.pages - 1) as usize, offset: pos as usize, len, align };
            (
                StoreState {
                    used,
                    page_used: (pos + len) as usize,
                    allocs: s.allocs.push(p),
                    stats: counts_add(s.stats, 0, (pos + len - s.page_used) as usize),
                    ..s
                },
                p,
            )
        } else {
            let p = Place::Page { page: s.pages, offset: 0, len, align };
            (
                StoreState {
                    used,
                    page_used: len,
                    pages: (s.pages + 1) as usize,
                    allocs: s.allocs.push(p),
                    stats: counts_add(counts_add(s.stats, s.page_size, 0), 0, len),
                    ..s
                },
                p,
            )
        }
    }
}

/// The place lies where the bookkeeping `s` says it may: a page allocation
/// on a page made so far, inside it, aligned, and inside the handed out part
/// of the current page; a separate one larger than the page threshold.
pub open spec fn place_ok(s: StoreState, p: Place) -> bool {
    match p {
        Place::Page { page, offset, len, align } => {
            &&& page < s.pages
            &&& len >= 1
            &&& align > 0
            &&& offset % align == 0
            &&& offset + len <= s.page_size
            &&& page == s.pages - 1 ==> offset + len <= s.page_used
        },
        Place::Big { size } => size > s.page_size / MAX_ALLOC_RATIO,
    }
}

/// Allocation `a`, made before `b`, lies before it: on an earlier page, or
/// ending where or before `b` starts on the same page.
pub open spec fn place_before(a: Place, b: Place) -> bool {
    match (a, b) {
        (Place::Page { page: pa, offset: oa, len: la, .. }, Place::Page { page: pb, offset: ob, .. }) => pa < pb || (
        pa == pb && oa + la <= ob),
        _ => true,
    }
}

/// The allocations of `s` lie where they may, in the order they were made.
pub open spec fn state_wf(s: StoreState) -> bool {
    &&& s.page_size >= MIN_PAGE
    &&& s.pages >= 1
    &&& s.page_used <= s.page_size
    &&& forall|i: int| 0 <= i < s.allocs.len() ==> #[trigger] place_ok(s, s.allocs[i])
    &&& forall|i: int, j: int| 0 <= i < j < s.allocs.len() ==> #[trigger] place_before(s.allocs[i], s.allocs[j])
}

/// Handle of a value kept by a [`Store`].
#[derive(Copy, Clone, Debug, PartialEq, Eq, Structural)]
pub struct Stored {
    index: usize,
}

/// Handle of a text kept by a [`Store`].
#[derive(Copy, Clone, Debug, PartialEq, Eq, Structural)]
pub struct StoredStr {
    index: usize,
}

/// Handle of a run of values kept together by a [`Store`].
#[derive(Copy, Clone, Debug, PartialEq, Eq, Structural)]
pub struct StoredSlice {
    start: usize,
    len: usize,
}

impl StoredSlice {
    pub closed spec fn spec_start(&self) -> int {
        self.start as int
    }

    pub closed spec fn spec_len(&self) -> int {
        self.len as int
    }
}

/// The items `sta..end` of `s`.
fn sub_slice<T>(s: &[T], sta: usize, end: usize) -> (r: &[T])
    requires
        sta <= end <= s@.len(),
    ensures
        r@ == s@.subrange(sta as int, end as int),
{
    let (head, _) = s.split_at(end);
    let (_, tail) = head.split_at(sta);
    assert(tail@ =~= s@.subrange(sta as int, end as int));
    tail
}

impl Stored {
    pub closed spec fn spec_index(&self) -> int {
        self.index as int
    }
}

impl StoredStr {
    pub closed spec fn spec_index(&self) -> int {
        self.index as int
    }
}

/// A run of values kept together, with its length.
#[derive(Debug)]
pub struct ChunkOf<T> {
    items: Vec<T>,
}

impl<T> View for ChunkOf<T> {
    type V = Seq<T>;

    closed spec fn view(&self) -> Seq<T> {
        self.items@
    }
}

impl<T> ChunkOf<T> {
    pub fn len(&self) -> (r: usize)
        ensures
            r == self@.len(),
    {
        self.items.len()
    }

    pub fn as_slice(&self) -> (r: &[T])
        ensures
            r@ == self@,
    {
        self.items.as_slice()
    }
}

/// An arena: keeps the values handed to it, and accounts for the memory
/// they take on pages of a fixed size, or outside the pages when large.
/// Every value is dropped with the store.
#[derive(Debug)]
pub struct Store<T> {
    size: usize,
    used: usize,
    page: Page,
    pages: usize,
    allocs: Vec<Place>,
    values: Vec<T>,
    texts: Vec<String>,
    stats: MemStat,
}

impl<T> Store<T> {
    /// The bookkeeping of this store.
    pub closed spec fn state(&self) -> StoreState {
        StoreState {
            page_size: self.size,
            used: self.used,
            page_used: self.page@.1,
            pages: self.pages,
            allocs: self.allocs@,
            stats: self.stats@,
        }
    }

    /// The values kept, in the order they were stored.
    pub closed spec fn values(&self) -> Seq<T> {
        self.values@
    }

    /// The texts kept, in the order they were stored.
    pub closed spec fn texts(&self) -> Seq<Seq<char>> {
        self.texts@.map_values(|t: String| t@)
    }

    pub closed spec fn wf(&self) -> bool {
        &&& state_wf(self.state())
        &&& self.page@.0 == self.size
    }

    /// A store with pages of 256 MB.
    pub fn new() -> (r: Store<T>)
        ensures
            r.wf(),
            r.state() == (StoreState {
                page_size: DEFAULT_PAGE,
                used: 0,
                page_used: 0,
                pages: 1,
                allocs: Seq::empty(),
                stats: MemCounts { size: DEFAULT_PAGE, used: 0, max_size: DEFAULT_PAGE, max_used: 0 },
            }),
            r.values() == Seq::<T>::empty(),
            r.texts() == Seq::<Seq<char>>::empty(),
    {
        Self::with_page(DEFAULT_PAGE)
    }

    /// A store with pages of `size` bytes, at least [`MIN_PAGE`]; the first
    /// page is made at once.
    pub fn with_page(size: usize) -> (r: Store<T>)
        requires
            size > 0,
        ensures
            r.wf(),
            ({
                let page = if size >= MIN_PAGE { size } else { MIN_PAGE };
                r.state() == (StoreState {
                    page_size: page,
                    used: 0,
                    page_used: 0,
                    pages: 1,
                    allocs: Seq::empty(),
                    stats: MemCounts { size: page, used: 0, max_size: page, max_used: 0 },
                })
            }),
            r.values() == Seq::<T>::empty(),
            r.texts() == Seq::<Seq<char>>::empty(),
    {
        let size = if size >= MIN_PAGE { size } else { MIN_PAGE };
        let mut stats = MemStat::new();
        stats.add(size, 0);
        let r = Store {
            size,
            used: 0,
            page: Page::new(size),
            pages: 1,
            allocs: Vec::new(),
            values: Vec::new(),
            texts: Vec::new(),
            stats,
        };
        assert(r.texts() =~= Seq::<Seq<char>>::empty());
        r
    }

    /// The memory statistics of this store.
    pub fn stats(&self) -> (r: &MemStat)
        ensures
            r@ == self.state().stats,
    {
        &self.stats
    }

    /// Bytes handed out on the pages so far.
    pub fn used(&self) -> (r: usize)
        ensures
            r == self.state().used,
    {
        self.used
    }

    /// Number of pages made so far.
    pub fn pages(&self) -> (r: usize)
        ensures
            r == self.state().pages,
    {
        self.pages
    }

    /// Where each allocation lies, in the order they were made.
    pub fn places(&self) -> (r: &[Place])
        ensures
            r@ == self.state().allocs,
    {
        self.allocs.as_slice()
    }

    /// Account for `size` bytes aligned to `align`; see [`after_allocate`].
    pub fn allocate(&mut self, size: usize, align: usize) -> (r: Place)
        requires
            old(self).wf(),
            align > 0,
            old(self).state().pages < usize::MAX,
        ensures
            final(self).wf(),
            (final(self).state(), r) == after_allocate(old(self).state(), size, align),
            final(self).values() == old(self).values(),
            final(self).texts() == old(self).texts(),
    {
        let ghost s = self.state();
        if size > self.size / MAX_ALLOC_RATIO {
            let p = Place::Big { size };
            self.stats.add(size, size);
            self.allocs.push(p);
            proof {
                assert forall|i: int| 0 <= i < self.allocs@.len() implies #[trigger] place_ok(
                    self.state(),
                    self.allocs@[i],
                ) by {
                    if i < s.allocs.len() {
                        assert(self.allocs@[i] == s.allocs[i]);
                        assert(place_ok(s, s.allocs[i]));
                    }
                }
                assert forall|i: int, j: int| 0 <= i < j < self.allocs@.len() implies #[trigger] place_before(
                    self.allocs@[i],
                    self.allocs@[j],
                ) by {
                    if j < s.allocs.len() {
                        assert(self.allocs@[i] == s.allocs[i]);
                        assert(self.allocs@[j] == s.allocs[j]);
                    }
                }
                assert(self.texts() =~= old(self).texts());
            }
            return p;
        }
        self.used = self.used.wrapping_add(size);
        let len: usize = if size == 0 { 1 } else { size };
        let prev_used = self.page.used;
        proof {
            lemma_align_up(prev_used as int, align as int);
        }
        match self.page.allocate(size, align) {
            Some(pos) => {
                let p = Place::Page { page: self.pages - 1, offset: pos, len, align };
                self.stats.add(0, self.page.used - prev_used);
                self.allocs.push(p);
                proof {
                    assert forall|i: int| 0 <= i < self.allocs@.len() implies #[trigger] place_ok(
                        self.state(),
                        self.allocs@[i],
                    ) by {
                        if i < s.allocs.len() {
                            assert(self.allocs@[i] == s.allocs[i]);
                            assert(place_ok(s, s.allocs[i]));
                        }
                    }
                    assert forall|i: int, j: int| 0 <= i < j < self.allocs@.len() implies #[trigger] place_before(
                        self.allocs@[i],
                        self.allocs@[j],
                    ) by {
                        assert(self.allocs@[i] == s.allocs[i]);
                        assert(place_ok(s, s.allocs[i]));
                        if j < s.allocs.len() {
                            assert(self.allocs@[j] == s.allocs[j]);
                        }
                    }
                    assert(self.texts() =~= old(self).texts());
                }
                p
            },
            None => {
                self.page = Page::new(self.size);
                self.stats.add(self.size, 0);
                let ghost s2 = self.page@;
                proof {
                    lemma_align_up(0, align as int);
                    lemma_small_mod(align_up(0, align as int) as nat, align as nat);
                    assert(align_up(0, align as int) == 0);
                }
                let pos = match self.page.allocate(size, align) {
                    Some(pos) => pos,
                    None => {
                        proof {
                            assert(false);
                        }
                        0
                    },
                };
                self.stats.add(0, len);
                let p = Place::Page { page: self.pages, offset: pos, len, align };
                self.pages = self.pages + 1;
                self.allocs.push(p);
                proof {
                    assert(pos == 0);
                    assert(0int % (align as int) == 0) by {
                        lemma_mod_multiples_basic(0, align as int);
                    }
                    assert forall|i: int| 0 <= i < self.allocs@.len() implies #[trigger] place_ok(
                        self.state(),
                        self.allocs@[i],
                    ) by {
                        if i < s.allocs.len() {
                            assert(self.allocs@[i] == s.allocs[i]);
                            assert(place_ok(s, s.allocs[i]));
                        }
                    }
                    assert forall|i: int, j: int| 0 <= i < j < self.allocs@.len() implies #[trigger] place_before(
                        self.allocs@[i],
                        self.allocs@[j],
                    ) by {
                        assert(self.allocs@[i] == s.allocs[i]);
                        assert(place_ok(s, s.allocs[i]));
                        if j < s.allocs.len() {
                            assert(self.allocs@[j] == s.allocs[j]);
                        }
                    }
                    assert(self.texts() =~= old(self).texts());
                }
                p
            },
        }
    }

    /// Keep `value`, accounting for the memory of one value of its type.
    pub fn store(&mut self, value: T) -> (r: Stored)
        requires
            old(self).wf(),
            old(self).state().pages < usize::MAX,
        ensures
            final(self).wf(),
            final(self).state() == after_allocate(
                old(self).state(),
                vstd::layout::size_of::<T>() as usize,
                vstd::layout::align_of::<T>() as usize,
            ).0,
            final(self).values() == old(self).values().push(value),
            final(self).texts() == old(self).texts(),
            r.spec_index() == old(self).values().len(),
    {
        vstd::layout::layout_for_type_is_valid::<T>();
        let size = core::mem::size_of::<T>();
        let align = core::mem::align_of::<T>();
        self.allocate(size, align);
        let index = self.values.len();
        self.values.push(value);
        Stored { index }
    }

    /// The value kept under `handle`.
    pub fn get(&self, handle: Stored) -> (r: &T)
        requires
            0 <= handle.spec_index() < self.values().len(),
        ensures
            *r == self.values()[handle.spec_index()],
    {
        &self.values[handle.index]
    }

    /// Keep the values `elems` together, accounting for the memory of all of
    /// them; no values take no memory.
    pub fn slice(&mut self, elems: Vec<T>) -> (r: StoredSlice)
        requires
            old(self).wf(),
            old(self).state().pages < usize::MAX,
            elems@.len() * vstd::layout::size_of::<T>() <= usize::MAX,
        ensures
            final(self).wf(),
            elems@.len() == 0 ==> final(self).state() == old(self).state(),
            elems@.len() > 0 ==> final(self).state() == after_allocate(
                old(self).state(),
                (elems@.len() * vstd::layout::size_of::<T>()) as usize,
                vstd::layout::align_of::<T>() as usize,
            ).0,
            final(self).values() == old(self).values() + elems@,
            final(self).texts() == old(self).texts(),
            r.spec_start() == old(self).values().len(),
            r.spec_len() == elems@.len(),
    {
        let mut elems = elems;
        let count = elems.len();
        if count > 0 {
            vstd::layout::layout_for_type_is_valid::<T>();
            let size = count * core::mem::size_of::<T>();
            let align = core::mem::align_of::<T>();
            self.allocate(size, align);
        }
        let start = self.values.len();
        let ghost items = elems@;
        self.values.append(&mut elems);
        assert(self.values() =~= old(self).values() + items);
        StoredSlice { start, len: count }
    }

    /// The values kept under `handle`.
    pub fn get_slice(&self, handle: StoredSlice) -> (r: &[T])
        requires
            0 <= handle.spec_start(),
            handle.spec_start() + handle.spec_len() <= self.values().len(),
        ensures
            r@ == self.values().subrange(handle.spec_start(), handle.spec_start() + handle.spec_len()),
    {
        let n = self.values.len();
        assert(handle.start + handle.len <= n);
        sub_slice(self.values.as_slice(), handle.start, handle.start + handle.len)
    }

    /// Keep a copy of the text `s`, accounting for its bytes; the empty text
    /// takes no memory.
    pub fn str(&mut self, s: &str) -> (r: StoredStr)
        requires
            old(self).wf(),
            old(self).state().pages < usize::MAX,
        ensures
            final(self).wf(),
            s.len() == 0 ==> final(self).state() == old(self).state(),
            s.len() > 0 ==> final(self).state() == after_allocate(old(self).state(), s.len(), 1).0,
            final(self).values() == old(self).values(),
            final(self).texts() == old(self).texts().push(s@),
            r.spec_index() == old(self).texts().len(),
    {
        let len = s.len();
        if len > 0 {
            self.allocate(len, 1);
            assert(self.state() == after_allocate(old(self).state(), len, 1).0);
        }
        let ghost st = self.state();
        let index = self.texts.len();
        let ghost before = self.texts();
        self.texts.push(s.to_owned());
        assert(self.texts() =~= before.push(s@));
        assert(self.state() == st);
        StoredStr { index }
    }

    /// The text kept under `handle`.
    pub fn get_str(&self, handle: StoredStr) -> (r: &str)
        requires
            0 <= handle.spec_index() < self.texts().len(),
        ensures
            r@ == self.texts()[handle.spec_index()],
    {
        self.texts[handle.index].as_str()
    }
}

impl<T: Copy> Store<T> {
    /// A chunk holding a copy of `elems`, accounting for its length and its
    /// values.
    pub fn chunk_from_slice(&mut self, elems: &[T]) -> (r: ChunkOf<T>)
        requires
            old(self).wf(),
            old(self).state().pages < usize::MAX,
            (elems@.len() + 1) * vstd::layout::size_of::<T>() + 8 <= usize::MAX,
        ensures
            final(self).wf(),
            final(self).state() == after_allocate(
                old(self).state(),
                (8 + elems@.len() * vstd::layout::size_of::<T>()) as usize,
                if vstd::layout::align_of::<T>() > 8 { vstd::layout::align_of::<T>() as usize } else { 8 },
            ).0,
            final(self).values() == old(self).values(),
            final(self).texts() == old(self).texts(),
            r@ == elems@,
    {
        vstd::layout::layout_for_type_is_valid::<T>();
        let elem = core::mem::size_of::<T>();
        let elem_align = core::mem::align_of::<T>();
        let align: usize = if elem_align > 8 { elem_align } else { 8 };
        assert(elems@.len() * elem <= (elems@.len() + 1) * elem) by (nonlinear_arith);
        let size = 8 + elems.len() * elem;
        self.allocate(size, align);
        let mut items: Vec<T> = Vec::new();
        let mut i: usize = 0;
        while i < elems.len()
            invariant
                0 <= i <= elems@.len(),
                items@ == elems@.take(i as int),
            decreases elems@.len() - i,
        {
            items.push(elems[i]);
            i = i + 1;
            assert(items@ =~= elems@.take(i as int));
        }
        assert(elems@.take(elems@.len() as int) =~= elems@);
        ChunkOf { items }
    }
}

/// An allocation on a page lies inside it, aligned, and never overlaps an
/// allocation made before it on the same page.
pub proof fn lemma_places_disjoint(s: StoreState, i: int, j: int)
    requires
        state_wf(s),
        0 <= i < j < s.allocs.len(),
    ensures
        s.allocs[j] is Page ==> s.allocs[j]->Page_offset % s.allocs[j]->Page_align == 0
            && s.allocs[j]->Page_offset + s.allocs[j]->Page_len <= s.page_size,
        s.allocs[i] is Page && s.allocs[j] is Page && s.allocs[i]->Page_page == s.allocs[j]->Page_page
            ==> s.allocs[i]->Page_offset + s.allocs[i]->Page_len <= s.allocs[j]->Page_offset,
{
    assert(place_ok(s, s.allocs[j]));
    assert(place_before(s.allocs[i], s.allocs[j]));
}

/// The highest counts never fall below the current counts once they are
/// reached, and never go down.
pub proof fn lemma_stats_peaks(m: MemCounts, size: usize, used: usize)
    ensures
        counts_add(m, size, used).max_size >= counts_add(m, size, used).size,
        counts_add(m, size, used).max_used >= counts_add(m, size, used).used,
        counts_add(m, size, used).max_size >= m.max_size,
        counts_add(m, size, used).max_used >= m.max_used,
        counts_sub(m, size, used).max_size == m.max_size,
        counts_sub(m, size, used).max_used == m.max_used,
{
}

} // verus!
