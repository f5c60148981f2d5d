use vstd::prelude::*;
use vstd::string::StringSliceAdditionalSpecFns;
use crate::symbol::{Symbol, bytes_eq, bytes_to_vec};
use crate::source::{Cursor, Span, slice_range};

verus! {

/// Kinds of tokens read by the lexer.
#[derive(Debug)]
pub enum Token {
    Nothing,
    Break,
    Symbol(Symbol),
    Word(Symbol),
    Integer,
    Float,
    Literal,
    Comment,
}

/// Mathematical value of a [`Token`].
pub enum TokenSpec {
    Nothing,
    Break,
    Symbol((Seq<u8>, u32)),
    Word((Seq<u8>, u32)),
    Integer,
    Float,
    Literal,
    Comment,
}

impl View for Token {
    type V = TokenSpec;

    open spec fn view(&self) -> TokenSpec {
        match self {
            Token::Nothing => TokenSpec::Nothing,
            Token::Break => TokenSpec::Break,
            Token::Symbol(s) => TokenSpec::Symbol(s@),
            Token::Word(s) => TokenSpec::Word(s@),
            Token::Integer => TokenSpec::Integer,
            Token::Float => TokenSpec::Float,
            Token::Literal => TokenSpec::Literal,
            Token::Comment => TokenSpec::Comment,
        }
    }
}

impl Token {
    /// Tokens are equal when their kinds and symbols are.
    pub fn same(&self, other: &Token) -> (r: bool)
        ensures
            r == (self@ == other@),
    {
        match (self, other) {
            (Token::Nothing, Token::Nothing) => true,
            (Token::Break, Token::Break) => true,
            (Token::Symbol(a), Token::Symbol(b)) => a.same(b),
            (Token::Word(a), Token::Word(b)) => a.same(b),
            (Token::Integer, Token::Integer) => true,
            (Token::Float, Token::Float) => true,
            (Token::Literal, Token::Literal) => true,
            (Token::Comment, Token::Comment) => true,
            _ => false,
        }
    }

    pub fn duplicate(&self) -> (r: Token)
        ensures
            r@ == self@,
    {
        match self {
            Token::Nothing => Token::Nothing,
            Token::Break => Token::Break,
            Token::Symbol(s) => Token::Symbol(s.duplicate()),
            Token::Word(s) => Token::Word(s.duplicate()),
            Token::Integer => Token::Integer,
            Token::Float => Token::Float,
            Token::Literal => Token::Literal,
            Token::Comment => Token::Comment,
        }
    }
}

impl Clone for Token {
    fn clone(&self) -> (r: Token)
        ensures
            r@ == self@,
    {
        self.duplicate()
    }
}

impl PartialEq for Token {
    fn eq(&self, other: &Token) -> (r: bool) {
        self.same(other)
    }
}

impl vstd::std_specs::cmp::PartialEqSpecImpl for Token {
    open spec fn obeys_eq_spec() -> bool {
        true
    }

    open spec fn eq_spec(&self, other: &Token) -> bool {
        self@ == other@
    }
}

impl Eq for Token {}

pub open spec fn is_id_byte(b: u8, mid: bool) -> bool {
    (97 <= b <= 122) || (65 <= b <= 90) || b == 95 || (mid && 48 <= b <= 57)
}

pub open spec fn is_digit_byte(b: u8) -> bool {
    48 <= b <= 57
}

/// Classes of bytes that make up runs in the grammar.
pub enum Run {
    /// Digits and `_`.
    Digits,
    /// Letters, digits and `_`.
    AlphaNum,
    /// Anything but a line break.
    Line,
}

pub open spec fn in_run(k: Run, b: u8) -> bool {
    match k {
        Run::Digits => is_digit_byte(b) || b == 95,
        Run::AlphaNum => is_id_byte(b, true),
        Run::Line => b != 10 && b != 13,
    }
}

/// Length of the longest prefix of `t` made of bytes of class `k`.
pub open spec fn run_len(t: Seq<u8>, k: Run) -> nat
    decreases t.len(),
{
    if t.len() > 0 && in_run(k, t[0]) {
        1 + run_len(t.drop_first(), k)
    } else {
        0
    }
}

pub proof fn lemma_run_len(t: Seq<u8>, k: Run, n: int)
    requires
        0 <= n <= t.len(),
        forall|i: int| 0 <= i < n ==> in_run(k, #[trigger] t[i]),
        n == t.len() || !in_run(k, t[n]),
    ensures
        run_len(t, k) == n,
    decreases n,
{
    if n > 0 {
        assert forall|i: int| 0 <= i < n - 1 implies in_run(k, #[trigger] t.drop_first()[i]) by {
            assert(t.drop_first()[i] == t[i + 1]);
        }
        if n < t.len() {
            assert(t.drop_first()[n - 1] == t[n]);
        }
        lemma_run_len(t.drop_first(), k, n - 1);
    }
}

pub proof fn lemma_run_len_bound(t: Seq<u8>, k: Run)
    ensures
        run_len(t, k) <= t.len(),
        forall|i: int| 0 <= i < run_len(t, k) ==> in_run(k, #[trigger] t[i]),
        run_len(t, k) < t.len() ==> !in_run(k, t[run_len(t, k) as int]),
    decreases t.len(),
{
    if t.len() > 0 && in_run(k, t[0]) {
        lemma_run_len_bound(t.drop_first(), k);
        assert forall|i: int| 0 <= i < run_len(t, k) implies in_run(k, #[trigger] t[i]) by {
            if i > 0 {
                assert(t[i] == t.drop_first()[i - 1]);
            }
        }
        if run_len(t, k) < t.len() {
            assert(t[run_len(t, k) as int] == t.drop_first()[run_len(t.drop_first(), k) as int]);
        }
    }
}

fn in_run_exec(k: &Run, b: u8) -> (r: bool)
    ensures
        r == in_run(*k, b),
{
    match k {
        Run::Digits => (b >= 48 && b <= 57) || b == 95,
        Run::AlphaNum => DefaultGrammar::id(b, true),
        Run::Line => b != 10 && b != 13,
    }
}

/// Length of the run of class `k` at the start of `t`.
pub fn run_length(t: &[u8], k: Run) -> (r: usize)
    ensures
        r == run_len(t@, k),
{
    let n = t.len();
    let mut i: usize = 0;
    while i < n
        invariant
            0 <= i <= n,
            n == t@.len(),
            forall|j: int| 0 <= j < i ==> in_run(k, #[trigger] t@[j]),
        decreases n - i,
    {
        if !in_run_exec(&k, t[i]) {
            proof {
                lemma_run_len(t@, k, i as int);
            }
            return i;
        }
        i = i + 1;
    }
    proof {
        lemma_run_len(t@, k, n as int);
    }
    n
}

/// Number of `\` immediately before position `i`.
pub open spec fn backslashes_before(t: Seq<u8>, i: int) -> nat
    decreases i,
{
    if i <= 0 || i > t.len() || t[i - 1] != 92 {
        0
    } else {
        1 + backslashes_before(t, i - 1)
    }
}

/// Length of a quoted literal scanned from position `j`: up to and including
/// the first quote, after the opening one, that is not escaped by an odd
/// number of `\`; or the whole text when there is none.
pub open spec fn literal_scan(t: Seq<u8>, j: int) -> nat
    decreases t.len() - j,
{
    if j < 0 || j >= t.len() {
        t.len()
    } else if j >= 1 && t[j] == t[0] && backslashes_before(t, j) % 2 == 0 {
        (j + 1) as nat
    } else {
        literal_scan(t, j + 1)
    }
}

/// Length of the number at the start of `t`, and whether it is a float.
///
/// A number is a run of digits and `_`, optionally followed by `.` and a
/// non-empty such run, optionally followed by an exponent (`e` or `E`, an
/// optional sign, and a non-empty run of digits and `_`), and then by any
/// letters, digits and `_`. An `e` that is not followed by a valid exponent
/// ends the number scan at its start, which then continues as a run of
/// letters, digits and `_` from the beginning.
pub open spec fn number_token(t: Seq<u8>) -> (nat, bool) {
    let d = run_len(t, Run::Digits);
    let (l1, f1) = if d < t.len() && t[d as int] == 46 {
        let f = run_len(t.skip(d as int + 1), Run::Digits);
        if f > 0 {
            ((d + 1 + f) as nat, true)
        } else {
            (d, false)
        }
    } else {
        (d, false)
    };
    let (l2, f2) = if l1 < t.len() && (t[l1 as int] == 101 || t[l1 as int] == 69) {
        let e0 = l1 + 1;
        let e = if e0 < t.len() && (t[e0 as int] == 43 || t[e0 as int] == 45) {
            e0 + 1
        } else {
            e0
        };
        let x = run_len(t.skip(e as int), Run::Digits);
        if x > 0 {
            ((e + x) as nat, true)
        } else {
            (0nat, f1)
        }
    } else {
        (l1, f1)
    };
    ((l2 + run_len(t.skip(l2 as int), Run::AlphaNum)) as nat, f2)
}

/// The token at the start of `t` according to the grammar, and its length.
pub open spec fn spec_match_next(t: Seq<u8>) -> Option<(TokenSpec, nat)> {
    if t.len() == 0 {
        None
    } else if t[0] == 35 {
        Some((TokenSpec::Comment, run_len(t, Run::Line)))
    } else if t[0] == 39 || t[0] == 34 {
        Some((TokenSpec::Literal, literal_scan(t, 0)))
    } else if is_digit_byte(t[0]) {
        let (len, flt) = number_token(t);
        Some((if flt { TokenSpec::Float } else { TokenSpec::Integer }, len))
    } else if is_id_byte(t[0], false) {
        let len = 1 + run_len(t.drop_first(), Run::AlphaNum);
        Some((TokenSpec::Word((t.take(len as int), 0u32)), len as nat))
    } else {
        None
    }
}

/// The default grammar: comments, quoted literals, numbers and words.
#[derive(Copy, Clone, Debug, Default)]
pub struct DefaultGrammar;

impl DefaultGrammar {
    /// A byte of an identifier; digits only after the first byte.
    pub fn id(c: u8, mid: bool) -> (r: bool)
        ensures
            r == is_id_byte(c, mid),
    {
        if c >= 97 && c <= 122 {
            true
        } else if c >= 65 && c <= 90 {
            true
        } else if c == 95 {
            true
        } else if c >= 48 && c <= 57 {
            mid
        } else {
            false
        }
    }

    pub fn is_digit(c: u8) -> (r: bool)
        ensures
            r == is_digit_byte(c),
    {
        c >= 48 && c <= 57
    }

    /// Length of the run of letters, digits and `_` at the start of `text`.
    pub fn alpha_num(text: &[u8]) -> (r: usize)
        ensures
            r == run_len(text@, Run::AlphaNum),
    {
        run_length(text, Run::AlphaNum)
    }

    /// Length of the run of digits and `_` at the start of `text`.
    pub fn digits(text: &[u8]) -> (r: usize)
        ensures
            r == run_len(text@, Run::Digits),
    {
        run_length(text, Run::Digits)
    }

    /// Is `c` a space of the default grammar: a tab or a space character
    /// of [`is_space`]? Line breaks are not.
    pub fn is_space(c: char) -> (r: bool)
        ensures
            r == spec_is_blank(c),
    {
        c == '\t' || is_space(c)
    }
}

/// Space characters: those of Unicode's `Zs` category (space, no-break
/// space, Ogham space mark, the spaces from U+2000 to U+200A, narrow
/// no-break space, medium mathematical space and ideographic space). Tabs
/// and line breaks are not among them.
pub open spec fn spec_is_space(c: char) -> bool {
    let v = c as u32;
    v == 0x20 || v == 0xA0 || v == 0x1680 || (0x2000 <= v <= 0x200A) || v == 0x202F || v == 0x205F || v == 0x3000
}

/// What the default grammar skips between tokens: the tab and the space
/// characters. The tab is skipped so that a text of tabs and spaces holds no
/// token.
pub open spec fn spec_is_blank(c: char) -> bool {
    c == '\t' || spec_is_space(c)
}

/// Is `c` a space character (see [`spec_is_space`])?
pub fn is_space(c: char) -> (r: bool)
    ensures
        r == spec_is_space(c),
{
    let v = c as u32;
    v == 0x20 || v == 0xA0 || v == 0x1680 || (v >= 0x2000 && v <= 0x200A) || v == 0x202F || v == 0x205F
        || v == 0x3000
}


pub proof fn lemma_literal_scan_bounds(t: Seq<u8>, j: int)
    requires
        0 <= j <= t.len(),
        t.len() >= 1,
    ensures
        1 <= literal_scan(t, j) <= t.len(),
        j >= 1 ==> literal_scan(t, j) > j || literal_scan(t, j) == t.len(),
    decreases t.len() - j,
{
    if j < t.len() {
        lemma_literal_scan_bounds(t, j + 1);
    }
}

pub proof fn lemma_match_next_len(t: Seq<u8>)
    requires
        t.len() > 0,
    ensures
        spec_match_next(t) matches Some((_, len)) ==> 0 < len <= t.len(),
{
    lemma_run_len_bound(t, Run::Line);
    lemma_run_len_bound(t, Run::Digits);
    lemma_run_len_bound(t.drop_first(), Run::AlphaNum);
    if t[0] == 39 || t[0] == 34 {
        lemma_literal_scan_bounds(t, 0);
    }
    if t[0] != 35 && t[0] != 39 && t[0] != 34 && is_digit_byte(t[0]) {
        let d = run_len(t, Run::Digits);
        if d < t.len() && t[d as int] == 46 {
            lemma_run_len_bound(t.skip(d as int + 1), Run::Digits);
        }
        let l2 = number_token_base(t);
        let (l1, f1) = number_fraction(t);
        if l1 < t.len() && (t[l1 as int] == 101 || t[l1 as int] == 69) {
            let e0 = l1 + 1;
            let e = if e0 < t.len() && (t[e0 as int] == 43 || t[e0 as int] == 45) {
                e0 + 1
            } else {
                e0
            };
            lemma_run_len_bound(t.skip(e as int), Run::Digits);
        }
        lemma_run_len_bound(t.skip(l2 as int), Run::AlphaNum);
        if l2 == 0 {
            assert(t.skip(0) =~= t);
        }
    }
}

/// Length of the number before its trailing letters and digits.
pub open spec fn number_token_base(t: Seq<u8>) -> nat {
    let (l1, f1) = number_fraction(t);
    if l1 < t.len() && (t[l1 as int] == 101 || t[l1 as int] == 69) {
        let e0 = l1 + 1;
        let e = if e0 < t.len() && (t[e0 as int] == 43 || t[e0 as int] == 45) {
            e0 + 1
        } else {
            e0
        };
        let x = run_len(t.skip(e as int), Run::Digits);
        if x > 0 {
            (e + x) as nat
        } else {
            0nat
        }
    } else {
        l1
    }
}

/// Length of the integer part and fraction of a number, and whether there is
/// a fraction.
pub open spec fn number_fraction(t: Seq<u8>) -> (nat, bool) {
    let d = run_len(t, Run::Digits);
    if d < t.len() && t[d as int] == 46 {
        let f = run_len(t.skip(d as int + 1), Run::Digits);
        if f > 0 {
            ((d + 1 + f) as nat, true)
        } else {
            (d, false)
        }
    } else {
        (d, false)
    }
}

impl DefaultGrammar {
    /// Read the token at the start of `text`, if the grammar has one there.
    pub fn match_next(&self, text: &[u8]) -> (r: Option<(Token, usize)>)
        requires
            text@.len() > 0,
        ensures
            match r {
                Some((tok, len)) => spec_match_next(text@) == Some((tok@, len as nat)) && 0 < len <= text@.len(),
                None => spec_match_next(text@) is None,
            },
    {
        proof {
            lemma_match_next_len(text@);
        }
        let next = text[0];
        if next == 35 {
            let len = run_length(text, Run::Line);
            Some((Token::Comment, len))
        } else if next == 39 || next == 34 {
            let len = Self::literal_len(text);
            Some((Token::Literal, len))
        } else if Self::is_digit(next) {
            let (len, flt) = Self::number_len(text);
            let kind = if flt { Token::Float } else { Token::Integer };
            Some((kind, len))
        } else if Self::id(next, false) {
            let rest = slice_range(text, 1, text.len());
            assert(rest@ =~= text@.drop_first());
            let word_len = 1 + Self::alpha_num(rest);
            let word = slice_range(text, 0, word_len);
            assert(word@ =~= text@.take(word_len as int));
            Some((Token::Word(Symbol::get(word)), word_len))
        } else {
            None
        }
    }

    fn literal_len(text: &[u8]) -> (r: usize)
        requires
            text@.len() > 0,
        ensures
            r == literal_scan(text@, 0),
    {
        let quote = text[0];
        let mut escape = false;
        let n = text.len();
        let mut pos: usize = 0;
        assert(literal_scan(text@, 0) == literal_scan(text@, 1));
        while pos < n
            invariant
                0 <= pos <= n,
                n == text@.len(),
                quote == text@[0],
                escape == (backslashes_before(text@, pos as int) % 2 == 1),
                pos == 0 ==> !escape,
                literal_scan(text@, 0) == (if pos == 0 { literal_scan(text@, 1) } else { literal_scan(text@, pos as int) }),
            decreases n - pos,
        {
            let chr = text[pos];
            if chr == quote && pos > 0 && !escape {
                return pos + 1;
            }
            if escape {
                escape = false;
            } else if chr == 92 {
                escape = true;
            }
            proof {
                if pos > 0 {
                    assert(literal_scan(text@, pos as int) == literal_scan(text@, pos + 1));
                }
            }
            pos = pos + 1;
        }
        n
    }

    fn number_len(text: &[u8]) -> (r: (usize, bool))
        requires
            text@.len() > 0,
        ensures
            r.0 == number_token(text@).0,
            r.1 == number_token(text@).1,
    {
        let n = text.len();
        proof {
            lemma_run_len_bound(text@, Run::Digits);
        }
        let len = Self::digits(text);
        let (len, flt) = if len < n && text[len] == 46 {
            let pos = len + 1;
            let frac = slice_range(text, pos, n);
            assert(frac@ =~= text@.skip(pos as int));
            proof {
                lemma_run_len_bound(frac@, Run::Digits);
            }
            let flt_len = Self::digits(frac);
            if flt_len > 0 {
                let more = slice_range(text, pos + flt_len, n);
                proof {
                    lemma_run_len(more@, Run::Digits, 0);
                    if pos + flt_len < n {
                        assert(more@[0] == frac@[flt_len as int]);
                    }
                }
                let flt_len = flt_len + Self::digits(more);
                (pos + flt_len, true)
            } else {
                (len, false)
            }
        } else {
            (len, false)
        };
        assert(len == number_fraction(text@).0 && flt == number_fraction(text@).1);
        let (len, flt) = if len < n && (text[len] == 101 || text[len] == 69) {
            let mut exp_len = len + 1;
            if exp_len < n && (text[exp_len] == 43 || text[exp_len] == 45) {
                exp_len = exp_len + 1;
            }
            let rest = slice_range(text, exp_len, n);
            assert(rest@ =~= text@.skip(exp_len as int));
            proof {
                lemma_run_len_bound(rest@, Run::Digits);
            }
            let len = Self::digits(rest);
            if len > 0 {
                (exp_len + len, true)
            } else {
                (len, flt)
            }
        } else {
            (len, flt)
        };
        assert(len == number_token_base(text@));
        let tail = slice_range(text, len, n);
        assert(tail@ =~= text@.skip(len as int));
        proof {
            lemma_run_len_bound(tail@, Run::AlphaNum);
        }
        let len = len + Self::alpha_num(tail);
        (len, flt)
    }
}

/// Number of slots of a [`SymbolTable`].
pub const SYMBOL_SLOTS: usize = 257;

/// `s` is a prefix of `t`.
pub open spec fn is_prefix(s: Seq<u8>, t: Seq<u8>) -> bool {
    s.len() <= t.len() && t.take(s.len() as int) == s
}

/// `n` is the length of the longest symbol of `set` that is a prefix of `t`.
pub open spec fn longest_symbol_is(set: Set<Seq<u8>>, t: Seq<u8>, n: nat) -> bool {
    &&& exists|s: Seq<u8>| set.contains(s) && is_prefix(s, t) && s.len() == n
    &&& forall|s: Seq<u8>| set.contains(s) && is_prefix(s, t) ==> s.len() <= n
}

/// Length of the longest symbol of `set` that is a prefix of `t`, if any.
pub open spec fn longest_symbol(set: Set<Seq<u8>>, t: Seq<u8>) -> Option<nat> {
    if exists|n: nat| longest_symbol_is(set, t, n) {
        Some(choose|n: nat| longest_symbol_is(set, t, n))
    } else {
        None
    }
}

pub proof fn lemma_longest_symbol_unique(set: Set<Seq<u8>>, t: Seq<u8>, n: nat)
    requires
        longest_symbol_is(set, t, n),
    ensures
        longest_symbol(set, t) == Some(n),
{
    let m = choose|m: nat| longest_symbol_is(set, t, m);
    let sn = choose|s: Seq<u8>| set.contains(s) && is_prefix(s, t) && s.len() == n;
    let sm = choose|s: Seq<u8>| set.contains(s) && is_prefix(s, t) && s.len() == m;
    assert(sn.len() <= m);
    assert(sm.len() <= n);
}

proof fn lemma_longest_search(set: Set<Seq<u8>>, t: Seq<u8>, n: nat, s0: Seq<u8>)
    requires
        n <= t.len(),
        set.contains(s0),
        is_prefix(s0, t),
        s0.len() <= n,
        forall|k: nat| n < k <= t.len() ==> !set.contains(#[trigger] t.take(k as int)),
    ensures
        exists|m: nat| longest_symbol_is(set, t, m),
    decreases n,
{
    if set.contains(t.take(n as int)) {
        assert forall|s: Seq<u8>| set.contains(s) && is_prefix(s, t) implies s.len() <= n by {
            if s.len() > n {
                assert(!set.contains(t.take(s.len() as int)));
            }
        }
        assert(t.take(n as int).len() == n);
        assert(longest_symbol_is(set, t, n));
    } else {
        if n == s0.len() {
            assert(t.take(n as int) == s0);
        }
        assert forall|k: nat| n - 1 < k && k <= t.len() implies !set.contains(#[trigger] t.take(k as int)) by {
            if k > n {
            } else {
                assert(k == n);
            }
        }
        lemma_longest_search(set, t, (n - 1) as nat, s0);
    }
}

/// There is a longest symbol of `set` at the start of `t` exactly when some
/// symbol of `set` is a prefix of `t`; it is then the longest such symbol.
pub proof fn lemma_longest_symbol_none(set: Set<Seq<u8>>, t: Seq<u8>)
    ensures
        longest_symbol(set, t) is None <==> forall|s: Seq<u8>| set.contains(s) ==> !is_prefix(s, t),
        longest_symbol(set, t) matches Some(n) ==> longest_symbol_is(set, t, n),
{
    if exists|s: Seq<u8>| set.contains(s) && is_prefix(s, t) {
        let s0 = choose|s: Seq<u8>| set.contains(s) && is_prefix(s, t);
        lemma_longest_search(set, t, t.len(), s0);
    } else {
        assert forall|n: nat| !longest_symbol_is(set, t, n) by {}
    }
}

/// The properties of a slot of a symbol table are kept by inserting a new
/// symbol at the first position of a shorter one.
proof fn lemma_slot_insert(old_slot: Seq<Seq<u8>>, ins: int, sym: Seq<u8>, k: int)
    requires
        0 <= ins <= old_slot.len(),
        sym.len() > 0,
        sym[0] == k,
        forall|i: int| 0 <= i < old_slot.len() ==> #[trigger] old_slot[i].len() > 0 && old_slot[i][0] == k,
        forall|i: int, j: int|
            0 <= i < j < old_slot.len() ==> #[trigger] old_slot[i].len() >= #[trigger] old_slot[j].len()
                && old_slot[i] != old_slot[j],
        forall|i: int| 0 <= i < old_slot.len() ==> #[trigger] old_slot[i] != sym,
        forall|i: int| 0 <= i < ins ==> #[trigger] old_slot[i].len() >= sym.len(),
        ins < old_slot.len() ==> old_slot[ins].len() < sym.len(),
    ensures
        ({
            let ns = old_slot.insert(ins, sym);
            &&& forall|i: int| 0 <= i < ns.len() ==> #[trigger] ns[i].len() > 0 && ns[i][0] == k
            &&& forall|i: int, j: int|
                0 <= i < j < ns.len() ==> #[trigger] ns[i].len() >= #[trigger] ns[j].len() && ns[i] != ns[j]
        }),
{
    let ns = old_slot.insert(ins, sym);
    assert forall|i: int| 0 <= i < ns.len() implies #[trigger] ns[i].len() > 0 && ns[i][0] == k by {
        if i < ins {
            assert(ns[i] == old_slot[i]);
        } else if i > ins {
            assert(ns[i] == old_slot[i - 1]);
        }
    }
    assert forall|i: int, j: int| 0 <= i < j < ns.len() implies #[trigger] ns[i].len() >= #[trigger] ns[j].len()
        && ns[i] != ns[j] by {
        if j < ins {
            assert(ns[i] == old_slot[i] && ns[j] == old_slot[j]);
        } else if j == ins {
            assert(ns[i] == old_slot[i]);
        } else if i < ins {
            assert(ns[i] == old_slot[i] && ns[j] == old_slot[j - 1]);
        } else if i == ins {
            assert(ns[j] == old_slot[j - 1]);
            if j - 1 > ins {
                assert(old_slot[ins].len() >= old_slot[j - 1].len());
            }
        } else {
            assert(ns[i] == old_slot[i - 1] && ns[j] == old_slot[j - 1]);
        }
    }
}

/// Symbols of the lexer, found by their first byte and longest first.
pub struct SymbolTable {
    symbols: Vec<Vec<Vec<u8>>>,
}

impl SymbolTable {
    pub closed spec fn slot(&self, k: int) -> Seq<Seq<u8>> {
        self.symbols@[k]@.map_values(|v: Vec<u8>| v@)
    }

    pub closed spec fn wf(&self) -> bool {
        &&& self.symbols@.len() == SYMBOL_SLOTS
        &&& forall|k: int, i: int|
            0 <= k < SYMBOL_SLOTS && 0 <= i < self.slot(k).len() ==> #[trigger] self.slot(k)[i].len() > 0
                && self.slot(k)[i][0] == k
        &&& forall|k: int, i: int, j: int|
            0 <= k < SYMBOL_SLOTS && 0 <= i < j < self.slot(k).len() ==> #[trigger] self.slot(k)[i].len()
                >= #[trigger] self.slot(k)[j].len() && self.slot(k)[i] != self.slot(k)[j]
    }

    /// The set of symbols.
    pub closed spec fn view(&self) -> Set<Seq<u8>> {
        Set::new(
            |s: Seq<u8>|
                exists|k: int, i: int| 0 <= k < SYMBOL_SLOTS && 0 <= i < self.slot(k).len() && #[trigger] self.slot(k)[i] == s,
        )
    }

    /// The symbols of a well-formed table are not empty.
    pub proof fn lemma_symbols_nonempty(&self)
        requires
            self.wf(),
        ensures
            forall|s: Seq<u8>| #[trigger] self.view().contains(s) ==> s.len() > 0,
    {
        assert forall|s: Seq<u8>| #[trigger] self.view().contains(s) implies s.len() > 0 by {
            let (k, i) = choose|k: int, i: int| 0 <= k < SYMBOL_SLOTS && 0 <= i < self.slot(k).len() && #[trigger] self.slot(k)[i] == s;
            assert(self.slot(k)[i].len() > 0);
        }
    }

    /// A table with no symbols.
    pub fn new() -> (r: SymbolTable)
        ensures
            r.wf(),
            r.view() == Set::<Seq<u8>>::empty(),
    {
        let mut symbols: Vec<Vec<Vec<u8>>> = Vec::new();
        let mut i: usize = 0;
        while i < SYMBOL_SLOTS
            invariant
                0 <= i <= SYMBOL_SLOTS,
                symbols@.len() == i,
                forall|k: int| 0 <= k < i ==> (#[trigger] symbols@[k])@.len() == 0,
            decreases SYMBOL_SLOTS - i,
        {
            symbols.push(Vec::new());
            i = i + 1;
        }
        let r = SymbolTable { symbols };
        assert forall|k: int| 0 <= k < SYMBOL_SLOTS implies #[trigger] r.slot(k).len() == 0 by {
            assert(r.symbols@[k]@.len() == 0);
        }
        assert(r.view() =~= Set::<Seq<u8>>::empty());
        r
    }

    /// Add a symbol; adding one that is already there changes nothing.
    pub fn add_symbol(&mut self, symbol: &[u8])
        requires
            old(self).wf(),
            symbol@.len() > 0,
        ensures
            final(self).wf(),
            final(self).view() == old(self).view().insert(symbol@),
    {
        let ghost old_view = self.view();
        let k = symbol[0] as usize;
        let slot = &self.symbols[k];
        let n = slot.len();
        let mut i: usize = 0;
        let mut ins: usize = n;
        while i < n
            invariant
                0 <= i <= n,
                n == self.slot(k as int).len(),
                self.wf(),
                old_view == self.view(),
                slot@ == self.symbols@[k as int]@,
                0 <= k < SYMBOL_SLOTS,
                forall|j: int| 0 <= j < i ==> #[trigger] self.slot(k as int)[j] != symbol@,
                ins <= i || ins == n,
                ins == n ==> forall|j: int| 0 <= j < i ==> #[trigger] self.slot(k as int)[j].len() >= symbol@.len(),
                ins < n ==> self.slot(k as int)[ins as int].len() < symbol@.len()
                    && forall|j: int| 0 <= j < ins ==> #[trigger] self.slot(k as int)[j].len() >= symbol@.len(),
            decreases n - i,
        {
            let cur = slot[i].as_slice();
            assert(cur@ == self.slot(k as int)[i as int]);
            if bytes_eq(cur, symbol) {
                assert(self.slot(k as int)[i as int] == symbol@);
                assert(old_view.contains(symbol@));
                assert(self.view() =~= old_view.insert(symbol@));
                return;
            }
            if ins == n && cur.len() < symbol.len() {
                ins = i;
            }
            i = i + 1;
        }
        let mut new_slot = Self::copy_slot(slot);
        new_slot.insert(ins, bytes_to_vec(symbol));
        let ghost old_slot = self.slot(k as int);
        self.symbols.set(k, new_slot);
        proof {
            let ns = self.slot(k as int);
            assert(ns =~= old_slot.insert(ins as int, symbol@));
            lemma_slot_insert(old_slot, ins as int, symbol@, k as int);
            assert forall|kk: int| 0 <= kk < SYMBOL_SLOTS && kk != k implies #[trigger] self.slot(kk) == old(self).slot(kk) by {
            }
            assert forall|s: Seq<u8>| self.view().contains(s) <==> old_view.insert(symbol@).contains(s) by {
                if self.view().contains(s) {
                    let (kk, a) = choose|kk: int, a: int|
                        0 <= kk < SYMBOL_SLOTS && 0 <= a < self.slot(kk).len() && #[trigger] self.slot(kk)[a] == s;
                    if kk == k {
                        if a < ins {
                            assert(old_slot[a] == s);
                        } else if a > ins {
                            assert(old_slot[a - 1] == s);
                        }
                    } else {
                        assert(old(self).slot(kk)[a] == s);
                    }
                }
                if old_view.insert(symbol@).contains(s) {
                    if s == symbol@ {
                        assert(self.slot(k as int)[ins as int] == s);
                    } else {
                        let (kk, a) = choose|kk: int, a: int|
                            0 <= kk < SYMBOL_SLOTS && 0 <= a < old(self).slot(kk).len() && #[trigger] old(self).slot(kk)[a] == s;
                        if kk == k {
                            if a < ins {
                                assert(self.slot(kk)[a] == s);
                            } else {
                                assert(self.slot(kk)[a + 1] == s);
                            }
                        } else {
                            assert(self.slot(kk)[a] == s);
                        }
                    }
                }
            }
            assert(self.view() =~= old_view.insert(symbol@));
        }
    }

    fn copy_slot(slot: &Vec<Vec<u8>>) -> (r: Vec<Vec<u8>>)
        ensures
            r@.map_values(|v: Vec<u8>| v@) == slot@.map_values(|v: Vec<u8>| v@),
    {
        let mut r: Vec<Vec<u8>> = Vec::new();
        let mut i: usize = 0;
        while i < slot.len()
            invariant
                0 <= i <= slot@.len(),
                r@.len() == i,
                forall|j: int| 0 <= j < i ==> (#[trigger] r@[j])@ == slot@[j]@,
            decreases slot@.len() - i,
        {
            r.push(bytes_to_vec(slot[i].as_slice()));
            i = i + 1;
        }
        assert(r@.map_values(|v: Vec<u8>| v@) =~= slot@.map_values(|v: Vec<u8>| v@));
        r
    }

    /// Length of the longest symbol that is a prefix of `input`, if any.
    pub fn read(&self, input: &[u8]) -> (r: Option<usize>)
        requires
            self.wf(),
        ensures
            match r {
                Some(n) => longest_symbol(self.view(), input@) == Some(n as nat),
                None => longest_symbol(self.view(), input@) is None,
            },
    {
        if input.len() == 0 {
            proof {
                assert forall|n: nat| !longest_symbol_is(self.view(), input@, n) by {
                    if longest_symbol_is(self.view(), input@, n) {
                        let s = choose|s: Seq<u8>| self.view().contains(s) && is_prefix(s, input@) && s.len() == n;
                        let (kk, a) = choose|kk: int, a: int|
                            0 <= kk < SYMBOL_SLOTS && 0 <= a < self.slot(kk).len() && #[trigger] self.slot(kk)[a] == s;
                        assert(self.slot(kk)[a].len() > 0);
                    }
                }
            }
            return None;
        }
        let k = input[0] as usize;
        let slot = &self.symbols[k];
        let n = slot.len();
        let mut i: usize = 0;
        while i < n
            invariant
                0 <= i <= n,
                0 <= k < SYMBOL_SLOTS,
                k == input@[0],
                n == self.slot(k as int).len(),
                slot@ == self.symbols@[k as int]@,
                self.wf(),
                forall|j: int| 0 <= j < i ==> !is_prefix(#[trigger] self.slot(k as int)[j], input@),
            decreases n - i,
        {
            let cur = slot[i].as_slice();
            assert(cur@ == self.slot(k as int)[i as int]);
            if cur.len() <= input.len() && bytes_eq(crate::source::slice_range(input, 0, cur.len()), cur) {
                proof {
                    let s = cur@;
                    assert(is_prefix(s, input@));
                    assert(self.view().contains(s));
                    assert forall|t: Seq<u8>| self.view().contains(t) && is_prefix(t, input@) implies t.len() <= s.len() by {
                        let (kk, a) = choose|kk: int, a: int|
                            0 <= kk < SYMBOL_SLOTS && 0 <= a < self.slot(kk).len() && #[trigger] self.slot(kk)[a] == t;
                        assert(t[0] == input@.take(t.len() as int)[0]);
                        assert(kk == k);
                        if a < i {
                        } else if a > i {
                        }
                    }
                    assert(longest_symbol_is(self.view(), input@, s.len()));
                    lemma_longest_symbol_unique(self.view(), input@, s.len());
                }
                return Some(cur.len());
            }
            i = i + 1;
        }
        proof {
            assert forall|m: nat| !longest_symbol_is(self.view(), input@, m) by {
                if longest_symbol_is(self.view(), input@, m) {
                    let t = choose|t: Seq<u8>| self.view().contains(t) && is_prefix(t, input@) && t.len() == m;
                    let (kk, a) = choose|kk: int, a: int|
                        0 <= kk < SYMBOL_SLOTS && 0 <= a < self.slot(kk).len() && #[trigger] self.slot(kk)[a] == t;
                    assert(t[0] == input@.take(t.len() as int)[0]);
                    assert(kk == k);
                }
            }
        }
        None
    }
}

impl Default for SymbolTable {
    fn default() -> (r: SymbolTable)
        ensures
            r.wf(),
            r.view() == Set::<Seq<u8>>::empty(),
    {
        SymbolTable::new()
    }
}

/// Length of the UTF-8 encoding of the character the default grammar skips
/// at the start of `t`, or `0` when `t` does not start with one. The
/// encodings are those of the characters of [`spec_is_blank`]: `09`, `20`, `C2 A0`, `E1 9A 80`, `E2 80 80` to
/// `E2 80 8A`, `E2 80 AF`, `E2 81 9F` and `E3 80 80`.
pub open spec fn space_width(t: Seq<u8>) -> nat {
    if t.len() >= 1 && (t[0] == 0x09 || t[0] == 0x20) {
        1
    } else if t.len() >= 2 && t[0] == 0xC2 && t[1] == 0xA0 {
        2
    } else if t.len() >= 3 && ((t[0] == 0xE1 && t[1] == 0x9A && t[2] == 0x80) || (t[0] == 0xE2 && t[1] == 0x80
        && ((0x80 <= t[2] <= 0x8A) || t[2] == 0xAF)) || (t[0] == 0xE2 && t[1] == 0x81 && t[2] == 0x9F) || (t[0]
        == 0xE3 && t[1] == 0x80 && t[2] == 0x80)) {
        3
    } else {
        0
    }
}

/// Length of the run of space characters at the start of `t`.
pub open spec fn space_run(t: Seq<u8>) -> nat
    decreases t.len(),
{
    let w = space_width(t);
    if w > 0 && w <= t.len() {
        w + space_run(t.skip(w as int))
    } else {
        0
    }
}

pub proof fn lemma_space_run_bound(t: Seq<u8>)
    ensures
        space_run(t) <= t.len(),
    decreases t.len(),
{
    let w = space_width(t);
    if w > 0 && w <= t.len() {
        lemma_space_run_bound(t.skip(w as int));
    }
}

/// Width of the space character at the start of `t`.
pub fn space_width_of(t: &[u8]) -> (r: usize)
    ensures
        r == space_width(t@),
{
    let n = t.len();
    if n >= 1 && (t[0] == 0x09 || t[0] == 0x20) {
        1
    } else if n >= 2 && t[0] == 0xC2 && t[1] == 0xA0 {
        2
    } else if n >= 3 && ((t[0] == 0xE1 && t[1] == 0x9A && t[2] == 0x80) || (t[0] == 0xE2 && t[1] == 0x80 && ((
    t[2] >= 0x80 && t[2] <= 0x8A) || t[2] == 0xAF)) || (t[0] == 0xE2 && t[1] == 0x81 && t[2] == 0x9F) || (t[0]
        == 0xE3 && t[1] == 0x80 && t[2] == 0x80)) {
        3
    } else {
        0
    }
}

/// Length of the run of space characters at the start of `text`.
pub fn skip_spaces(text: &[u8]) -> (r: usize)
    ensures
        r == space_run(text@),
{
    let n = text.len();
    let mut pos: usize = 0;
    assert(text@.skip(0) =~= text@);
    loop
        invariant
            0 <= pos <= n,
            n == text@.len(),
            space_run(text@) == pos + space_run(text@.skip(pos as int)),
        decreases n - pos,
    {
        let rest = slice_range(text, pos, n);
        assert(rest@ =~= text@.skip(pos as int));
        let w = space_width_of(rest);
        if w == 0 || w > rest.len() {
            return pos;
        }
        assert(rest@.skip(w as int) =~= text@.skip(pos + w));
        pos = pos + w;
    }
}

/// The next token at the start of `t`: a line break, a token of the grammar,
/// or the longest symbol of `syms`; and its length.
pub open spec fn next_token(syms: Set<Seq<u8>>, t: Seq<u8>) -> Option<(TokenSpec, nat)> {
    if t.len() == 0 {
        None
    } else if t[0] == 13 || t[0] == 10 {
        Some((TokenSpec::Break, if t.len() >= 2 && t[0] == 13 && t[1] == 10 { 2nat } else { 1nat }))
    } else if spec_match_next(t) is Some {
        spec_match_next(t)
    } else if longest_symbol(syms, t) is Some {
        let n = longest_symbol(syms, t)->0;
        Some((TokenSpec::Symbol((t.take(n as int), 0u32)), n))
    } else {
        None
    }
}

/// Tokens of `text` from position `pos`, with their start and end positions,
/// and the position where reading stopped: spaces are skipped, and reading
/// stops at the end of the text or before the first byte where no token
/// starts.
pub open spec fn lex(syms: Set<Seq<u8>>, text: Seq<u8>, pos: int) -> (Seq<(TokenSpec, int, int)>, int)
    decreases text.len() - pos,
{
    if pos < 0 || pos >= text.len() {
        (Seq::empty(), pos)
    } else {
        let t = text.subrange(pos, text.len() as int);
        let sp = space_run(t);
        if sp > 0 && sp <= t.len() {
            lex(syms, text, pos + sp)
        } else {
            match next_token(syms, t) {
                Some((tok, len)) => if 0 < len <= t.len() {
                    let rest = lex(syms, text, pos + len);
                    (seq![(tok, pos, pos + len)] + rest.0, rest.1)
                } else {
                    (Seq::empty(), pos)
                },
                None => (Seq::empty(), pos),
            }
        }
    }
}

/// The tokens read from `pos` lie in the text after `pos`, each nonempty,
/// in order and without overlap; reading stops at or after `pos`, at or
/// before the end of the text.
pub proof fn lemma_lex_tokens_ordered(syms: Set<Seq<u8>>, text: Seq<u8>, pos: int)
    requires
        0 <= pos <= text.len(),
    ensures
        ({
            let (toks, end) = lex(syms, text, pos);
            &&& pos <= end <= text.len()
            &&& forall|i: int| 0 <= i < toks.len() ==> pos <= (#[trigger] toks[i]).1 < toks[i].2 <= end
            &&& forall|i: int, j: int| 0 <= i < j < toks.len() ==> (#[trigger] toks[i]).2 <= (#[trigger] toks[j]).1
        }),
    decreases text.len() - pos,
{
    if pos < text.len() {
        let t = text.subrange(pos, text.len() as int);
        let sp = space_run(t);
        if sp > 0 && sp <= t.len() {
            lemma_lex_tokens_ordered(syms, text, pos + sp);
        } else {
            match next_token(syms, t) {
                Some((tok, len)) => if 0 < len <= t.len() {
                    lemma_lex_tokens_ordered(syms, text, pos + len);
                    let rest = lex(syms, text, pos + len);
                    let toks = seq![(tok, pos, pos + len)] + rest.0;
                    assert forall|i: int| 0 <= i < toks.len() implies pos <= (#[trigger] toks[i]).1 < toks[i].2
                        <= rest.1 by {
                        if i > 0 {
                            assert(toks[i] == rest.0[i - 1]);
                        }
                    }
                    assert forall|i: int, j: int| 0 <= i < j < toks.len() implies (#[trigger] toks[i]).2
                        <= (#[trigger] toks[j]).1 by {
                        assert(toks[j] == rest.0[j - 1]);
                        if i > 0 {
                            assert(toks[i] == rest.0[i - 1]);
                        }
                    }
                } else {
                },
                None => {},
            }
        }
    }
}

/// Where the run of spaces starting at `p` in `text` ends.
pub open spec fn gap_end(text: Seq<u8>, p: int) -> int {
    p + space_run(text.subrange(p, text.len() as int))
}

proof fn lemma_space_run_rest(t: Seq<u8>)
    ensures
        space_run(t.skip(space_run(t) as int)) == 0,
    decreases t.len(),
{
    let w = space_width(t);
    if w > 0 && w <= t.len() {
        let r = space_run(t.skip(w as int));
        lemma_space_run_rest(t.skip(w as int));
        lemma_space_run_bound(t.skip(w as int));
        assert(t.skip(w as int).skip(r as int) =~= t.skip((w + r) as int));
    } else {
        assert(t.skip(0) =~= t);
    }
}

/// Reading tokens from `pos` skips only spaces: each token starts where the
/// spaces after the previous one (or after `pos`) end, and reading ends
/// where the spaces after the last token end. It ends at the end of the
/// text, or where no token starts.
#[verifier::rlimit(40)]
#[verifier::spinoff_prover]
pub proof fn lemma_lex_skips_only_spaces(syms: Set<Seq<u8>>, text: Seq<u8>, pos: int)
    requires
        0 <= pos <= text.len(),
        forall|s: Seq<u8>| syms.contains(s) ==> s.len() > 0,
    ensures
        ({
            let (toks, end) = lex(syms, text, pos);
            &&& forall|i: int| 0 <= i < toks.len() ==> (#[trigger] toks[i]).1 == gap_end(
                text,
                if i == 0 {
                    pos
                } else {
                    toks[i - 1].2
                },
            )
            &&& end == gap_end(text, if toks.len() == 0 { pos } else { toks.last().2 })
            &&& end == text.len() || next_token(syms, text.subrange(end, text.len() as int)) is None
        }),
    decreases text.len() - pos,
{
    if pos < text.len() {
        let t = text.subrange(pos, text.len() as int);
        let sp = space_run(t);
        lemma_space_run_bound(t);
        if sp > 0 && sp <= t.len() {
            lemma_lex_skips_only_spaces(syms, text, pos + sp);
            lemma_space_run_rest(t);
            assert(t.skip(sp as int) =~= text.subrange(pos + sp, text.len() as int));
            assert(gap_end(text, pos + sp) == pos + sp);
        } else {
            assert(sp == 0);
            match next_token(syms, t) {
                Some((tok, len)) => {
                    if t[0] != 13 && t[0] != 10 {
                        lemma_match_next_len(t);
                        if spec_match_next(t) is None {
                            lemma_longest_symbol_none(syms, t);
                        }
                    }
                    assert(0 < len <= t.len());
                    lemma_lex_skips_only_spaces(syms, text, pos + len);
                    let rest = lex(syms, text, pos + len);
                    let toks = seq![(tok, pos, pos + len)] + rest.0;
                    assert forall|i: int| 0 <= i < toks.len() implies (#[trigger] toks[i]).1 == gap_end(
                        text,
                        if i == 0 {
                            pos
                        } else {
                            toks[i - 1].2
                        },
                    ) by {
                        if i > 0 {
                            assert(toks[i] == rest.0[i - 1]);
                            if i > 1 {
                                assert(toks[i - 1] == rest.0[i - 2]);
                            }
                        }
                    }
                    if rest.0.len() > 0 {
                        assert(toks.last() == rest.0.last());
                    }
                },
                None => {},
            }
        }
    } else {
        assert(text.subrange(pos, text.len() as int).len() == 0);
    }
}

/// A lexer: the default grammar and a table of symbols.
pub struct Lexer {
    symbols: SymbolTable,
    grammar: DefaultGrammar,
}

impl Lexer {
    pub closed spec fn wf(&self) -> bool {
        self.symbols.wf()
    }

    /// The symbols of the lexer.
    pub closed spec fn spec_symbols(&self) -> Set<Seq<u8>> {
        self.symbols.view()
    }

    /// A lexer with no symbols.
    pub fn new(grammar: DefaultGrammar) -> (r: Lexer)
        ensures
            r.wf(),
            r.spec_symbols() == Set::<Seq<u8>>::empty(),
    {
        Lexer { symbols: SymbolTable::new(), grammar }
    }

    /// Add each of `symbols`.
    pub fn add_symbols(&mut self, symbols: &[&str])
        requires
            old(self).wf(),
            forall|i: int| 0 <= i < symbols@.len() ==> (#[trigger] symbols@[i]).spec_bytes().len() > 0,
        ensures
            final(self).wf(),
            final(self).spec_symbols() == old(self).spec_symbols().union(
                Set::new(|s: Seq<u8>| exists|i: int| 0 <= i < symbols@.len() && #[trigger] symbols@[i].spec_bytes() == s),
            ),
    {
        let ghost added = Set::new(
            |s: Seq<u8>| exists|i: int| 0 <= i < symbols@.len() && #[trigger] symbols@[i].spec_bytes() == s,
        );
        let ghost start = self.spec_symbols();
        let mut i: usize = 0;
        while i < symbols.len()
            invariant
                0 <= i <= symbols@.len(),
                self.wf(),
                forall|j: int| 0 <= j < symbols@.len() ==> (#[trigger] symbols@[j]).spec_bytes().len() > 0,
                self.spec_symbols() == start.union(
                    Set::new(|s: Seq<u8>| exists|j: int| 0 <= j < i && #[trigger] symbols@[j].spec_bytes() == s),
                ),
            decreases symbols@.len() - i,
        {
            let ghost before = Set::new(
                |s: Seq<u8>| exists|j: int| 0 <= j < i && #[trigger] symbols@[j].spec_bytes() == s,
            );
            self.add_symbol(symbols[i]);
            let ghost after = Set::new(
                |s: Seq<u8>| exists|j: int| 0 <= j < i + 1 && #[trigger] symbols@[j].spec_bytes() == s,
            );
            assert(after =~= before.insert(symbols@[i as int].spec_bytes())) by {
                assert forall|s: Seq<u8>| after.contains(s) implies before.insert(symbols@[i as int].spec_bytes()).contains(s) by {
                    let j = choose|j: int| 0 <= j < i + 1 && #[trigger] symbols@[j].spec_bytes() == s;
                    if j < i {
                        assert(before.contains(s));
                    }
                }
                assert forall|s: Seq<u8>| before.insert(symbols@[i as int].spec_bytes()).contains(s) implies after.contains(s) by {
                    if before.contains(s) {
                        let j = choose|j: int| 0 <= j < i && #[trigger] symbols@[j].spec_bytes() == s;
                        assert(0 <= j < i + 1 && symbols@[j].spec_bytes() == s);
                    } else {
                        assert(0 <= i < i + 1 && symbols@[i as int].spec_bytes() == s);
                    }
                }
            }
            assert(self.spec_symbols() =~= start.union(after));
            i = i + 1;
        }
        assert(added =~= Set::new(
            |s: Seq<u8>| exists|j: int| 0 <= j < i && #[trigger] symbols@[j].spec_bytes() == s,
        ));
    }

    /// Add a symbol.
    pub fn add_symbol(&mut self, symbol: &str)
        requires
            old(self).wf(),
            symbol.spec_bytes().len() > 0,
        ensures
            final(self).wf(),
            final(self).spec_symbols() == old(self).spec_symbols().insert(symbol.spec_bytes()),
    {
        self.symbols.add_symbol(symbol.as_bytes());
    }

    /// Add a symbol given by its bytes.
    pub fn add_symbol_bytes(&mut self, symbol: &[u8])
        requires
            old(self).wf(),
            symbol@.len() > 0,
        ensures
            final(self).wf(),
            final(self).spec_symbols() == old(self).spec_symbols().insert(symbol@),
    {
        self.symbols.add_symbol(symbol);
    }

    /// Read the tokens from the cursor to the end of its text, or to the first
    /// position where no token starts. The cursor is left where reading
    /// stopped.
    pub fn tokenize<'a>(&mut self, cursor: &mut Cursor<'a>) -> (r: Vec<(Token, Span)>)
        requires
            old(self).wf(),
            old(cursor).wf(),
        ensures
            final(self).wf(),
            final(self).spec_symbols() == old(self).spec_symbols(),
            final(cursor).wf(),
            final(cursor).spec_src() == old(cursor).spec_src(),
            final(cursor).spec_text() == old(cursor).spec_text(),
            final(cursor).spec_pos() == lex(
                old(self).spec_symbols(),
                old(cursor).spec_text(),
                old(cursor).spec_pos() as int,
            ).1,
            ({
                let toks = lex(old(self).spec_symbols(), old(cursor).spec_text(), old(cursor).spec_pos() as int).0;
                &&& r@.len() == toks.len()
                &&& forall|i: int|
                    0 <= i < toks.len() ==> (#[trigger] r@[i]).0@ == toks[i].0 && r@[i].1.spec_pos() == toks[i].1
                        && r@[i].1.spec_end() == toks[i].2 && r@[i].1.spec_src() == old(cursor).spec_src()
            }),
            forall|i: int| 0 <= i < r@.len() ==> (#[trigger] r@[i]).1.spec_pos() < r@[i].1.spec_end(),
            forall|i: int, j: int| 0 <= i < j < r@.len() ==> (#[trigger] r@[i]).1.spec_end() <= (#[trigger] r@[j]).1.spec_pos(),
            forall|i: int| 0 <= i < r@.len() ==> (#[trigger] r@[i]).1.spec_pos() == gap_end(
                old(cursor).spec_text(),
                if i == 0 { old(cursor).spec_pos() as int } else { r@[i - 1].1.spec_end() as int },
            ),
            final(cursor).spec_pos() == gap_end(
                old(cursor).spec_text(),
                if r@.len() == 0 { old(cursor).spec_pos() as int } else { r@.last().1.spec_end() as int },
            ),
            final(cursor).spec_pos() == old(cursor).spec_text().len() || next_token(
                old(self).spec_symbols(),
                old(cursor).spec_text().subrange(final(cursor).spec_pos() as int, old(cursor).spec_text().len() as int),
            ) is None,
    {
        let ghost syms = self.spec_symbols();
        let ghost text = cursor.spec_text();
        let ghost p0 = cursor.spec_pos() as int;
        let mut output: Vec<(Token, Span)> = Vec::new();
        let mut done = false;
        while !done && cursor.len() > 0
            invariant
                self.wf(),
                self.spec_symbols() == syms,
                cursor.wf(),
                cursor.spec_text() == text,
                cursor.spec_src() == old(cursor).spec_src(),
                done ==> lex(syms, text, cursor.spec_pos() as int) == (Seq::<(TokenSpec, int, int)>::empty(), cursor.spec_pos() as int),
                output@.len() + lex(syms, text, cursor.spec_pos() as int).0.len() == lex(syms, text, p0).0.len(),
                lex(syms, text, cursor.spec_pos() as int).1 == lex(syms, text, p0).1,
                forall|i: int|
                    0 <= i < output@.len() ==> (#[trigger] output@[i]).0@ == lex(syms, text, p0).0[i].0
                        && output@[i].1.spec_pos() == lex(syms, text, p0).0[i].1 && output@[i].1.spec_end() == lex(
                        syms,
                        text,
                        p0,
                    ).0[i].2 && output@[i].1.spec_src() == old(cursor).spec_src(),
                forall|i: int|
                    0 <= i < lex(syms, text, cursor.spec_pos() as int).0.len() ==> lex(syms, text, p0).0[output@.len()
                        + i] == #[trigger] lex(syms, text, cursor.spec_pos() as int).0[i],
            decreases text.len() - cursor.spec_pos(), if done { 0int } else { 1int },
        {
            let text_now = cursor.text();
            let ghost pos = cursor.spec_pos() as int;
            proof {
                lemma_space_run_bound(text_now@);
            }
            let skip = skip_spaces(text_now);
            if skip > 0 {
                cursor.skip_len(skip);
                continue;
            }
            let next = text_now[0];
            let found: Option<(Token, usize)> = if next == 13 || next == 10 {
                let len = if text_now.len() >= 2 && next == 13 && text_now[1] == 10 {
                    2
                } else {
                    1
                };
                Some((Token::Break, len))
            } else if let Some((token, len)) = self.grammar.match_next(text_now) {
                Some((token, len))
            } else if let Some(len) = self.symbols.read(text_now) {
                proof {
                    let n = longest_symbol(syms, text_now@)->0;
                    let s = choose|s: Seq<u8>| syms.contains(s) && is_prefix(s, text_now@) && s.len() == n;
                    assert(longest_symbol_is(syms, text_now@, n));
                }
                let word = slice_range(text_now, 0, len);
                assert(word@ =~= text_now@.take(len as int));
                Some((Token::Symbol(Symbol::get(word)), len))
            } else {
                None
            };
            match found {
                Some((token, len)) => {
                    assert(next_token(syms, text_now@) == Some((token@, len as nat)));
                    let span = cursor.span_with_len(len);
                    output.push((token, span));
                    cursor.skip_len(len);
                    proof {
                        let rest = lex(syms, text, pos + len);
                        assert(lex(syms, text, pos) == (seq![(token@, pos, pos + len)] + rest.0, rest.1));
                        assert forall|i: int| 0 <= i < rest.0.len() implies lex(syms, text, p0).0[output@.len() + i] == #[trigger] rest.0[i] by {
                            assert(lex(syms, text, pos).0[i + 1] == rest.0[i]);
                        }
                        assert(lex(syms, text, p0).0[output@.len() - 1] == lex(syms, text, pos).0[0]);
                    }
                },
                None => {
                    assert(next_token(syms, text_now@) is None);
                    done = true;
                },
            }
        }
        proof {
            if !done {
                assert(lex(syms, text, cursor.spec_pos() as int).0.len() == 0);
            }
            self.symbols.lemma_symbols_nonempty();
            old(cursor).lemma_wf();
            lemma_lex_tokens_ordered(syms, text, p0);
            lemma_lex_skips_only_spaces(syms, text, p0);
            let toks = lex(syms, text, p0).0;
            if output@.len() > 0 {
                assert(output@.last() == output@[output@.len() - 1]);
            }
            assert forall|i: int| 0 <= i < output@.len() implies (#[trigger] output@[i]).1.spec_pos() == gap_end(
                text,
                if i == 0 { p0 } else { output@[i - 1].1.spec_end() as int },
            ) by {
                assert(toks[i].1 == output@[i].1.spec_pos());
                if i > 0 {
                    assert(toks[i - 1].2 == output@[i - 1].1.spec_end());
                }
            }
            assert forall|i: int, j: int| 0 <= i < j < output@.len() implies (#[trigger] output@[i]).1.spec_end()
                <= (#[trigger] output@[j]).1.spec_pos() by {
                assert(toks[i].2 == output@[i].1.spec_end());
                assert(toks[j].1 == output@[j].1.spec_pos());
            }
        }
        output
    }
}

/// A grammar: which characters are spaces, and which token starts a text.
pub trait Grammar: Sized {
    fn is_space(c: char) -> bool;

    fn match_next(&self, text: &[u8]) -> Option<(Token, usize)>
        requires
            text@.len() > 0,
    ;
}

impl Grammar for DefaultGrammar {
    /// The tab and the space characters; see [`spec_is_blank`].
    fn is_space(c: char) -> (r: bool)
        ensures
            r == spec_is_blank(c),
    {
        c == '\t' || is_space(c)
    }

    fn match_next(&self, text: &[u8]) -> (r: Option<(Token, usize)>)
        ensures
            match r {
                Some((tok, len)) => spec_match_next(text@) == Some((tok@, len as nat)) && 0 < len <= text@.len(),
                None => spec_match_next(text@) is None,
            },
    {
        DefaultGrammar::match_next(self, text)
    }
}

/// Reads the tokens of a text.
pub trait Tokenizer: Sized {
    /// The tokenizer is set up for use.
    spec fn ready(&self) -> bool;

    fn tokenize<'a>(&mut self, cursor: &mut Cursor<'a>) -> Vec<(Token, Span)>
        requires
            old(self).ready(),
            old(cursor).wf(),
    ;
}

impl Tokenizer for Lexer {
    open spec fn ready(&self) -> bool {
        self.wf()
    }

    fn tokenize<'a>(&mut self, cursor: &mut Cursor<'a>) -> (r: Vec<(Token, Span)>)
        ensures
            final(self).wf(),
            final(self).spec_symbols() == old(self).spec_symbols(),
            final(cursor).wf(),
            final(cursor).spec_src() == old(cursor).spec_src(),
            final(cursor).spec_text() == old(cursor).spec_text(),
            final(cursor).spec_pos() == lex(
                old(self).spec_symbols(),
                old(cursor).spec_text(),
                old(cursor).spec_pos() as int,
            ).1,
            ({
                let toks = lex(old(self).spec_symbols(), old(cursor).spec_text(), old(cursor).spec_pos() as int).0;
                &&& r@.len() == toks.len()
                &&& forall|i: int|
                    0 <= i < toks.len() ==> (#[trigger] r@[i]).0@ == toks[i].0 && r@[i].1.spec_pos() == toks[i].1
                        && r@[i].1.spec_end() == toks[i].2 && r@[i].1.spec_src() == old(cursor).spec_src()
            }),
    {
        Lexer::tokenize(self, cursor)
    }
}

impl Default for Lexer {
    fn default() -> (r: Lexer)
        ensures
            r.wf(),
            r.spec_symbols() == Set::<Seq<u8>>::empty(),
    {
        Lexer::new(DefaultGrammar)
    }
}
} // verus!
