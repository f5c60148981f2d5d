use vstd::prelude::*;
use vstd::string::StringSliceAdditionalSpecFns;
use vstd::string::StringExecFns;
use vstd::utf8::{valid_utf8, decode_utf8, encode_utf8_decode_utf8};
use crate::result::{Error, ErrorSpec, Result};
use crate::text::{bytes_list_text, decimal, push_bytes_list, push_decimal};

verus! {

/// Equality of byte slices.
pub fn bytes_eq(a: &[u8], b: &[u8]) -> (r: bool)
    ensures
        r == (a@ == b@),
{
    if a.len() != b.len() {
        return false;
    }
    let mut i: usize = 0;
    while i < a.len()
        invariant
            0 <= i <= a@.len(),
            a@.len() == b@.len(),
            forall|k: int| 0 <= k < i ==> a@[k] == b@[k],
        decreases a@.len() - i,
    {
        if a[i] != b[i] {
            return false;
        }
        i = i + 1;
    }
    assert(a@ =~= b@);
    true
}

/// Copy of a byte slice.
pub fn bytes_to_vec(a: &[u8]) -> (r: Vec<u8>)
    ensures
        r@ == a@,
{
    let mut r: Vec<u8> = Vec::new();
    let mut i: usize = 0;
    while i < a.len()
        invariant
            0 <= i <= a@.len(),
            r@ == a@.take(i as int),
        decreases a@.len() - i,
    {
        r.push(a[i]);
        i = i + 1;
        assert(r@ =~= a@.take(i as int));
    }
    assert(a@.take(a@.len() as int) =~= a@);
    r
}

/// Text that `{:?}` gives for a string: the string in double quotes, with
/// quotes, backslashes and control characters escaped, and non-printable
/// and grapheme-extending characters written as `\u{..}`.
pub uninterp spec fn str_debug_text(s: Seq<char>) -> Seq<char>;

/// Message that `std::str::Utf8Error` displays for bytes that are not UTF-8.
pub uninterp spec fn utf8_error_text(bytes: Seq<u8>) -> Seq<char>;

/// Calls `std::str::from_utf8`: the bytes read as text when they are valid
/// UTF-8, which the text then holds unchanged; else the displayed message of
/// the failure, which depends on the bytes alone.
#[verifier::external_body]
pub(crate) fn utf8_str(bytes: &[u8]) -> (r: core::result::Result<&str, String>)
    ensures
        r is Ok <==> valid_utf8(bytes@),
        r is Ok ==> r->Ok_0.spec_bytes() == bytes@,
        r is Err ==> r->Err_0@ == utf8_error_text(bytes@),
{
    std::str::from_utf8(bytes).map_err(|e| e.to_string())
}

/// Formats `s` with `{:?}` (the `Debug` impl of `str`); the result is named,
/// not stated.
#[verifier::external_body]
fn str_debug(s: &str) -> (r: String)
    ensures
        r@ == str_debug_text(s@),
{
    format!("{:?}", s)
}

/// Name of a symbol with the bytes `bytes`: the text when the bytes are
/// UTF-8, else the list of byte values; with `brackets`, the text is quoted
/// and escaped, and the list is put in parentheses.
pub open spec fn name_text(bytes: Seq<u8>, brackets: bool) -> Seq<char> {
    if valid_utf8(bytes) {
        if brackets {
            str_debug_text(decode_utf8(bytes))
        } else {
            decode_utf8(bytes)
        }
    } else if brackets {
        seq!['('] + bytes_list_text(bytes) + seq![')']
    } else {
        bytes_list_text(bytes)
    }
}

/// Displayed text of a symbol whose name reads `name`: the name, `$`, and
/// the counter of a unique symbol.
pub open spec fn display_text(name: Seq<char>, cnt: u32) -> Seq<char> {
    if cnt > 0 {
        name + seq!['$'] + decimal(cnt as nat)
    } else {
        name + seq!['$']
    }
}

/// The displayed text of a symbol whose name reads `name` and whose counter
/// is `cnt`.
pub fn display_with_name(name: String, cnt: u32) -> (r: String)
    ensures
        r@ == display_text(name@, cnt),
{
    let mut out = name;
    proof {
        reveal_strlit("$");
    }
    out.append("$");
    if cnt > 0 {
        push_decimal(&mut out, cnt as u64);
    }
    assert(out@ =~= display_text(name@, cnt));
    out
}

/// Lexicographic order of byte strings: `-1`, `0` or `1` as `a` comes
/// before, with or after `b`.
pub open spec fn bytes_order(a: Seq<u8>, b: Seq<u8>) -> int
    decreases a.len(),
{
    if a.len() == 0 {
        if b.len() == 0 {
            0
        } else {
            -1
        }
    } else if b.len() == 0 {
        1
    } else if a[0] < b[0] {
        -1
    } else if a[0] > b[0] {
        1
    } else {
        bytes_order(a.drop_first(), b.drop_first())
    }
}

/// Lexicographic order of byte slices, as [`bytes_order`].
pub fn order_of_bytes(a: &[u8], b: &[u8]) -> (r: i8)
    ensures
        r == bytes_order(a@, b@),
{
    let mut i: usize = 0;
    assert(a@.skip(0) =~= a@);
    assert(b@.skip(0) =~= b@);
    while i < a.len() && i < b.len()
        invariant
            0 <= i <= a@.len(),
            i <= b@.len(),
            bytes_order(a@, b@) == bytes_order(a@.skip(i as int), b@.skip(i as int)),
        decreases a@.len() - i,
    {
        assert(a@.skip(i as int)[0] == a@[i as int]);
        assert(b@.skip(i as int)[0] == b@[i as int]);
        if a[i] < b[i] {
            return -1;
        }
        if a[i] > b[i] {
            return 1;
        }
        assert(a@.skip(i as int).drop_first() =~= a@.skip(i + 1));
        assert(b@.skip(i as int).drop_first() =~= b@.skip(i + 1));
        i = i + 1;
    }
    if i < a.len() {
        1
    } else if i < b.len() {
        -1
    } else {
        0
    }
}

/// Lexicographic order of byte slices.
pub fn compare_bytes(a: &[u8], b: &[u8]) -> (r: std::cmp::Ordering)
    ensures
        (r == std::cmp::Ordering::Less) == (bytes_order(a@, b@) < 0),
        (r == std::cmp::Ordering::Equal) == (bytes_order(a@, b@) == 0),
        (r == std::cmp::Ordering::Greater) == (bytes_order(a@, b@) > 0),
{
    let o = order_of_bytes(a, b);
    if o < 0 {
        std::cmp::Ordering::Less
    } else if o > 0 {
        std::cmp::Ordering::Greater
    } else {
        std::cmp::Ordering::Equal
    }
}

/// Comparing byte strings the other way round gives the opposite order,
/// and they compare equal only when they are the same.
pub proof fn lemma_bytes_order(a: Seq<u8>, b: Seq<u8>)
    ensures
        bytes_order(a, b) == -bytes_order(b, a),
        bytes_order(a, b) == 0 <==> a == b,
    decreases a.len(),
{
    if a.len() > 0 && b.len() > 0 {
        lemma_bytes_order(a.drop_first(), b.drop_first());
        if a[0] == b[0] && a.drop_first() == b.drop_first() {
            assert(a =~= seq![a[0]] + a.drop_first());
            assert(b =~= seq![b[0]] + b.drop_first());
        }
    } else if a.len() == 0 && b.len() == 0 {
        assert(a =~= b);
    }
}

/// An identifier: a string of bytes, and a counter that tells apart the
/// unique symbols made from the same bytes.
///
/// Symbols made from the same bytes are equal; a unique symbol is only equal
/// to itself. The counter of a plain symbol is `0`.
#[derive(Debug)]
pub struct Symbol {
    bytes: Vec<u8>,
    cnt: u32,
}

impl View for Symbol {
    type V = (Seq<u8>, u32);

    closed spec fn view(&self) -> (Seq<u8>, u32) {
        (self.bytes@, self.cnt)
    }
}

impl Symbol {
    /// The symbol with no bytes.
    pub fn empty() -> (r: Symbol)
        ensures
            r@ == (Seq::<u8>::empty(), 0u32),
    {
        Symbol { bytes: Vec::new(), cnt: 0 }
    }

    /// The symbol for the given bytes.
    pub fn get(bytes: &[u8]) -> (r: Symbol)
        ensures
            r@ == (bytes@, 0u32),
    {
        Symbol { bytes: bytes_to_vec(bytes), cnt: 0 }
    }

    /// The symbol for the bytes of `s`.
    pub fn str(s: &str) -> (r: Symbol)
        ensures
            r@ == (s.spec_bytes(), 0u32),
    {
        Self::get(s.as_bytes())
    }

    /// A new unique symbol with the bytes of `s`.
    pub fn unique(s: &str, symbols: &mut SymbolRegistry) -> (r: Symbol)
        ensures
            r@ == (s.spec_bytes(), old(symbols).spec_next(s.spec_bytes())),
            final(symbols).spec_next(s.spec_bytes()) == next_count(old(symbols).spec_next(s.spec_bytes())),
            forall|k: Seq<u8>| k != s.spec_bytes() ==> #[trigger] final(symbols).spec_next(k) == old(
                symbols,
            ).spec_next(k),
    {
        Self::str(s).to_unique(symbols)
    }

    /// A new symbol with the same bytes as this one, equal to no other symbol
    /// made so far. Unique symbols made from the same bytes share one counter.
    pub fn to_unique(&self, symbols: &mut SymbolRegistry) -> (r: Symbol)
        ensures
            r@ == (self@.0, old(symbols).spec_next(self@.0)),
            final(symbols).spec_next(self@.0) == next_count(old(symbols).spec_next(self@.0)),
            forall|k: Seq<u8>| k != self@.0 ==> #[trigger] final(symbols).spec_next(k) == old(symbols).spec_next(k),
    {
        let cnt = symbols.next(self.bytes.as_slice());
        Symbol { bytes: self.bytes.clone(), cnt }
    }

    pub fn len(&self) -> (r: usize)
        ensures
            r == self@.0.len(),
    {
        self.bytes.len()
    }

    pub fn as_bytes(&self) -> (r: &[u8])
        ensures
            r@ == self@.0,
    {
        self.bytes.as_slice()
    }

    /// The bytes read as text; an error when they are not UTF-8.
    pub fn as_str(&self) -> (r: Result<&str>)
        ensures
            r is Ok <==> valid_utf8(self@.0),
            r is Ok ==> r->Ok_0.spec_bytes() == self@.0,
            r is Err ==> r->Err_0@ == (ErrorSpec {
                message: utf8_error_text(self@.0),
                file: Seq::empty(),
                line: 0,
                detailed: false,
            }),
    {
        match utf8_str(self.bytes.as_slice()) {
            Ok(s) => Ok(s),
            Err(msg) => Err(Error::new(msg.as_str())),
        }
    }

    /// The name of this symbol; see [`name_text`].
    pub fn write_name(&self, brackets: bool) -> (r: String)
        ensures
            r@ == name_text(self@.0, brackets),
    {
        match utf8_str(self.bytes.as_slice()) {
            Ok(s) => {
                proof {
                    encode_utf8_decode_utf8(s@);
                }
                if brackets {
                    str_debug(s)
                } else {
                    s.to_owned()
                }
            },
            Err(_) => {
                let mut out = String::new();
                proof {
                    reveal_strlit("(");
                    reveal_strlit(")");
                }
                if brackets {
                    out.append("(");
                }
                push_bytes_list(&mut out, self.bytes.as_slice());
                if brackets {
                    out.append(")");
                }
                assert(out@ =~= name_text(self@.0, brackets));
                out
            },
        }
    }

    /// The displayed text of this symbol: its quoted name, `$`, and the
    /// counter of a unique symbol, as in `"abc"$2`.
    pub fn to_string(&self) -> (r: String)
        ensures
            r@ == display_text(name_text(self@.0, true), self@.1),
    {
        display_with_name(self.write_name(true), self.cnt)
    }

    /// Order of symbols: a symbol is equal to itself; other symbols are
    /// ordered by their bytes, so unique symbols made from the same bytes
    /// compare equal.
    pub fn compare(&self, other: &Symbol) -> (r: std::cmp::Ordering)
        ensures
            self@ == other@ ==> r == std::cmp::Ordering::Equal,
            self@ != other@ ==> ((r == std::cmp::Ordering::Less) == (bytes_order(self@.0, other@.0) < 0)
                && (r == std::cmp::Ordering::Equal) == (bytes_order(self@.0, other@.0) == 0)
                && (r == std::cmp::Ordering::Greater) == (bytes_order(self@.0, other@.0) > 0)),
    {
        if self.same(other) {
            std::cmp::Ordering::Equal
        } else {
            compare_bytes(self.bytes.as_slice(), other.bytes.as_slice())
        }
    }

    /// The counter that tells this unique symbol apart, `0` for a plain one.
    pub fn counter(&self) -> (r: u32)
        ensures
            r == self@.1,
    {
        self.cnt
    }

    /// Symbols are equal when their bytes and counters are.
    pub fn same(&self, other: &Symbol) -> (r: bool)
        ensures
            r == (self@ == other@),
    {
        self.cnt == other.cnt && bytes_eq(self.bytes.as_slice(), other.bytes.as_slice())
    }

    pub fn duplicate(&self) -> (r: Symbol)
        ensures
            r@ == self@,
    {
        Symbol { bytes: self.bytes.clone(), cnt: self.cnt }
    }
}

impl Clone for Symbol {
    fn clone(&self) -> (r: Symbol)
        ensures
            r@ == self@,
    {
        self.duplicate()
    }
}

impl PartialEq for Symbol {
    fn eq(&self, other: &Symbol) -> (r: bool) {
        self.same(other)
    }
}

impl vstd::std_specs::cmp::PartialEqSpecImpl for Symbol {
    open spec fn obeys_eq_spec() -> bool {
        true
    }

    open spec fn eq_spec(&self, other: &Symbol) -> bool {
        self@ == other@
    }
}

impl Eq for Symbol {}

impl Default for Symbol {
    fn default() -> (r: Symbol)
        ensures
            r@ == (Seq::<u8>::empty(), 0u32),
    {
        Symbol::empty()
    }
}

/// The counter value after `c`, wrapping like the atomic counter it models.
pub open spec fn next_count(c: u32) -> u32 {
    if c == u32::MAX {
        0
    } else {
        (c + 1) as u32
    }
}

/// Counter of the unique symbols made from one string of bytes.
#[derive(Copy, Clone, Debug, PartialEq, Eq, Structural)]
pub struct SymbolCounter {
    next: u32,
}

impl SymbolCounter {
    pub closed spec fn spec_value(&self) -> u32 {
        self.next
    }

    /// A counter whose first unique symbol is numbered `1`.
    pub fn new() -> (r: SymbolCounter)
        ensures
            r.spec_value() == 1,
    {
        SymbolCounter { next: 1 }
    }

    /// Take the next number.
    pub fn next(&mut self) -> (r: u32)
        ensures
            r == old(self).spec_value(),
            final(self).spec_value() == next_count(old(self).spec_value()),
    {
        let r = self.next;
        self.next = if self.next == u32::MAX { 0 } else { self.next + 1 };
        r
    }
}

/// Counters of unique symbols, one per string of bytes.
pub struct SymbolRegistry {
    entries: Vec<(Vec<u8>, SymbolCounter)>,
}

/// Counter of the first entry at or after `i` whose key is `key`, or `1`.
pub open spec fn registry_lookup(ev: Seq<(Seq<u8>, u32)>, key: Seq<u8>, i: int) -> u32
    decreases ev.len() - i,
{
    if i < 0 || i >= ev.len() {
        1
    } else if ev[i].0 == key {
        ev[i].1
    } else {
        registry_lookup(ev, key, i + 1)
    }
}

proof fn lemma_lookup_update(ev: Seq<(Seq<u8>, u32)>, key: Seq<u8>, j: int, v: u32, k: Seq<u8>, i: int)
    requires
        0 <= j < ev.len(),
        ev[j].0 == key,
        0 <= i <= j,
        forall|m: int| i <= m < j ==> #[trigger] ev[m].0 != key,
    ensures
        registry_lookup(ev.update(j, (key, v)), k, i) == (if k == key { v } else { registry_lookup(ev, k, i) }),
    decreases ev.len() - i,
{
    if i < j {
        lemma_lookup_update(ev, key, j, v, k, i + 1);
    } else {
        if k != key {
            lemma_lookup_same_after(ev, ev.update(j, (key, v)), k, i + 1);
        }
    }
}

proof fn lemma_lookup_same_after(a: Seq<(Seq<u8>, u32)>, b: Seq<(Seq<u8>, u32)>, k: Seq<u8>, i: int)
    requires
        a.len() == b.len(),
        0 <= i,
        forall|m: int| i <= m < a.len() ==> #[trigger] a[m] == b[m],
    ensures
        registry_lookup(a, k, i) == registry_lookup(b, k, i),
    decreases a.len() - i,
{
    if i < a.len() {
        lemma_lookup_same_after(a, b, k, i + 1);
    }
}

proof fn lemma_lookup_push(ev: Seq<(Seq<u8>, u32)>, key: Seq<u8>, v: u32, k: Seq<u8>, i: int)
    requires
        0 <= i <= ev.len(),
        forall|m: int| i <= m < ev.len() ==> #[trigger] ev[m].0 != key,
    ensures
        registry_lookup(ev.push((key, v)), k, i) == (if k == key { v } else { registry_lookup(ev, k, i) }),
    decreases ev.len() - i,
{
    let p = ev.push((key, v));
    if i < ev.len() {
        assert(p[i] == ev[i]);
        lemma_lookup_push(ev, key, v, k, i + 1);
    } else {
        assert(p[i] == (key, v));
        assert(registry_lookup(p, k, i + 1) == 1);
    }
}

impl SymbolRegistry {
    closed spec fn entries_view(&self) -> Seq<(Seq<u8>, u32)> {
        self.entries@.map_values(|e: (Vec<u8>, SymbolCounter)| (e.0@, e.1.spec_value()))
    }

    /// The number the next unique symbol made from `bytes` will get.
    pub closed spec fn spec_next(&self, bytes: Seq<u8>) -> u32 {
        registry_lookup(self.entries_view(), bytes, 0)
    }

    /// A registry in which no unique symbol was made yet.
    pub fn new() -> (r: SymbolRegistry)
        ensures
            forall|k: Seq<u8>| #[trigger] r.spec_next(k) == 1,
    {
        SymbolRegistry { entries: Vec::new() }
    }

    /// Take the next number for `bytes`.
    pub fn next(&mut self, bytes: &[u8]) -> (r: u32)
        ensures
            r == old(self).spec_next(bytes@),
            final(self).spec_next(bytes@) == next_count(old(self).spec_next(bytes@)),
            forall|k: Seq<u8>| k != bytes@ ==> #[trigger] final(self).spec_next(k) == old(self).spec_next(k),
    {
        let ghost ev = self.entries_view();
        let n = self.entries.len();
        let mut i: usize = 0;
        while i < n
            invariant
                0 <= i <= n,
                n == self.entries@.len(),
                ev == self.entries_view(),
                ev == old(self).entries_view(),
                forall|k: int| 0 <= k < i ==> #[trigger] ev[k].0 != bytes@,
                registry_lookup(ev, bytes@, 0) == registry_lookup(ev, bytes@, i as int),
            decreases n - i,
        {
            if bytes_eq(self.entries[i].0.as_slice(), bytes) {
                let mut counter = self.entries[i].1;
                assert(ev[i as int].0 == bytes@);
                assert(ev[i as int].1 == counter.spec_value());
                assert(registry_lookup(ev, bytes@, i as int) == ev[i as int].1);
                let r = counter.next();
                let key = bytes_to_vec(bytes);
                self.entries.set(i, (key, counter));
                proof {
                    assert(self.entries_view() =~= ev.update(i as int, (bytes@, counter.spec_value())));
                    assert forall|k: Seq<u8>| #[trigger] registry_lookup(self.entries_view(), k, 0) == (if k
                        == bytes@ {
                        counter.spec_value()
                    } else {
                        registry_lookup(ev, k, 0)
                    }) by {
                        lemma_lookup_update(ev, bytes@, i as int, counter.spec_value(), k, 0);
                    }
                }
                return r;
            }
            assert(registry_lookup(ev, bytes@, i as int) == registry_lookup(ev, bytes@, i + 1));
            i = i + 1;
        }
        let mut counter = SymbolCounter::new();
        let r = counter.next();
        self.entries.push((bytes_to_vec(bytes), counter));
        proof {
            assert(self.entries_view() =~= ev.push((bytes@, counter.spec_value())));
            assert forall|k: Seq<u8>| #[trigger] registry_lookup(self.entries_view(), k, 0) == (if k == bytes@ {
                counter.spec_value()
            } else {
                registry_lookup(ev, k, 0)
            }) by {
                lemma_lookup_push(ev, bytes@, counter.spec_value(), k, 0);
            }
        }
        r
    }
}

/// Two unique symbols made one after the other from the same bytes differ:
/// `a` is made by [`Symbol::to_unique`] on the registry `r0`, which leaves
/// `r1`, on which `b` is made.
pub proof fn lemma_unique_symbols_differ(
    r0: SymbolRegistry,
    r1: SymbolRegistry,
    bytes: Seq<u8>,
    a: (Seq<u8>, u32),
    b: (Seq<u8>, u32),
)
    requires
        a == (bytes, r0.spec_next(bytes)),
        r1.spec_next(bytes) == next_count(r0.spec_next(bytes)),
        b == (bytes, r1.spec_next(bytes)),
    ensures
        a != b,
{
}

} // verus!
