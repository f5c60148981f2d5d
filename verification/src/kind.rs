use vstd::prelude::*;

verus! {

/// Kinds of integer values; `Lit` is an untyped literal.
#[derive(Copy, Clone, Debug, PartialEq, Eq, Structural)]
pub enum IntKind {
    I8,
    I16,
    I32,
    I64,
    U8,
    U16,
    U32,
    U64,
    Lit,
}

/// The smallest value of a fixed-width integer kind.
pub open spec fn kind_min(k: IntKind) -> int {
    match k {
        IntKind::I8 => -128,
        IntKind::I16 => -32768,
        IntKind::I32 => -2147483648,
        IntKind::I64 => -9223372036854775808,
        _ => 0,
    }
}

/// The largest value of a fixed-width integer kind.
pub open spec fn kind_max(k: IntKind) -> int {
    match k {
        IntKind::I8 => 127,
        IntKind::I16 => 32767,
        IntKind::I32 => 2147483647,
        IntKind::I64 => 9223372036854775807,
        IntKind::U8 => 255,
        IntKind::U16 => 65535,
        IntKind::U32 => 4294967295,
        IntKind::U64 => 18446744073709551615,
        IntKind::Lit => 0,
    }
}

/// A fixed-width integer kind can be promoted to another exactly when every
/// value of the first is a value of the second.
pub proof fn lemma_promote_is_range_inclusion(a: IntKind, b: IntKind)
    requires
        a != IntKind::Lit,
        b != IntKind::Lit,
    ensures
        a.spec_can_promote_to(b) <==> (kind_min(b) <= kind_min(a) && kind_max(a) <= kind_max(b)),
{
}

/// The untyped literal kind promotes to itself and to every signed kind, and
/// to no unsigned one; no other kind promotes to it.
pub proof fn lemma_promote_literal(k: IntKind)
    ensures
        IntKind::Lit.spec_can_promote_to(k) <==> (k == IntKind::Lit || kind_min(k) < 0),
        k.spec_can_promote_to(IntKind::Lit) <==> k == IntKind::Lit,
{
}

/// Kinds of floating point values.
#[derive(Copy, Clone, Debug, PartialEq, Eq, Structural)]
pub enum FloatKind {
    F32,
    F64,
}

impl IntKind {
    pub open spec fn spec_signed(self) -> bool {
        match self {
            IntKind::U8 | IntKind::U16 | IntKind::U32 | IntKind::U64 => false,
            _ => true,
        }
    }

    pub open spec fn spec_bits(self) -> u8 {
        match self {
            IntKind::I8 | IntKind::U8 => 8,
            IntKind::I16 | IntKind::U16 => 16,
            IntKind::I32 | IntKind::U32 => 32,
            IntKind::I64 | IntKind::U64 => 64,
            IntKind::Lit => 0,
        }
    }

    /// A value of kind `self` is a valid value of kind `other`.
    pub open spec fn spec_is_valid(self, other: IntKind) -> bool {
        if self.spec_signed() == other.spec_signed() {
            other.spec_bits() >= self.spec_bits()
        } else {
            other.spec_bits() > self.spec_bits()
        }
    }

    /// A value of kind `self` can be promoted to kind `to`.
    pub open spec fn spec_can_promote_to(self, to: IntKind) -> bool {
        if self == to {
            true
        } else if self.spec_signed() == to.spec_signed() {
            self.spec_bits() <= to.spec_bits()
        } else if to.spec_signed() {
            self.spec_bits() < to.spec_bits()
        } else {
            false
        }
    }

    pub fn signed(&self) -> (r: bool)
        ensures
            r == self.spec_signed(),
    {
        match self {
            IntKind::I8 | IntKind::I16 | IntKind::I32 | IntKind::I64 => true,
            IntKind::U8 | IntKind::U16 | IntKind::U32 | IntKind::U64 => false,
            IntKind::Lit => true,
        }
    }

    pub fn bits(&self) -> (r: u8)
        ensures
            r == self.spec_bits(),
    {
        match self {
            IntKind::I8 | IntKind::U8 => 8,
            IntKind::I16 | IntKind::U16 => 16,
            IntKind::I32 | IntKind::U32 => 32,
            IntKind::I64 | IntKind::U64 => 64,
            IntKind::Lit => 0,
        }
    }

    pub fn is_valid(&self, other: &IntKind) -> (r: bool)
        ensures
            r == self.spec_is_valid(*other),
    {
        if self.signed() == other.signed() {
            other.bits() >= self.bits()
        } else {
            other.bits() > self.bits()
        }
    }

    pub fn can_promote_to(self, to: IntKind) -> (r: bool)
        ensures
            r == self.spec_can_promote_to(to),
    {
        if self == to {
            true
        } else if self.signed() == to.signed() {
            self.bits() <= to.bits()
        } else if to.signed() {
            self.bits() < to.bits()
        } else {
            false
        }
    }
}

impl FloatKind {
    pub open spec fn spec_bits(self) -> u8 {
        match self {
            FloatKind::F32 => 32,
            FloatKind::F64 => 64,
        }
    }

    pub open spec fn spec_can_promote_to(self, to: FloatKind) -> bool {
        self == to || self.spec_bits() <= to.spec_bits()
    }

    pub fn bits(&self) -> (r: u8)
        ensures
            r == self.spec_bits(),
    {
        match self {
            FloatKind::F32 => 32,
            FloatKind::F64 => 64,
        }
    }

    pub fn is_valid(&self, other: &FloatKind) -> (r: bool)
        ensures
            r == (self.spec_bits() <= other.spec_bits()),
    {
        self.bits() <= other.bits()
    }

    pub fn can_promote_to(self, to: FloatKind) -> (r: bool)
        ensures
            r == self.spec_can_promote_to(to),
    {
        self == to || self.bits() <= to.bits()
    }
}

/// Promotion between integer kinds is reflexive and transitive.
pub proof fn lemma_int_promotion_preorder(a: IntKind, b: IntKind, c: IntKind)
    ensures
        a.spec_can_promote_to(a),
        a.spec_can_promote_to(b) && b.spec_can_promote_to(c) ==> a.spec_can_promote_to(c),
{
}

/// Promotion between float kinds is a total order on the two kinds.
pub proof fn lemma_float_promotion_total(a: FloatKind, b: FloatKind)
    ensures
        a.spec_can_promote_to(b) || b.spec_can_promote_to(a),
{
}

} // verus!

verus! {

/// An integer value of any of the supported kinds.
#[derive(Copy, Clone, Debug)]
pub enum Int {
    I8(i8),
    I16(i16),
    I32(i32),
    I64(i64),
    U8(u8),
    U16(u16),
    U32(u32),
    U64(u64),
    Lit(i128),
}

impl Int {
    /// The mathematical value held.
    pub open spec fn value(self) -> int {
        match self {
            Int::I8(v) => v as int,
            Int::I16(v) => v as int,
            Int::I32(v) => v as int,
            Int::I64(v) => v as int,
            Int::U8(v) => v as int,
            Int::U16(v) => v as int,
            Int::U32(v) => v as int,
            Int::U64(v) => v as int,
            Int::Lit(v) => v as int,
        }
    }

    pub open spec fn spec_kind(self) -> IntKind {
        match self {
            Int::I8(_) => IntKind::I8,
            Int::I16(_) => IntKind::I16,
            Int::I32(_) => IntKind::I32,
            Int::I64(_) => IntKind::I64,
            Int::U8(_) => IntKind::U8,
            Int::U16(_) => IntKind::U16,
            Int::U32(_) => IntKind::U32,
            Int::U64(_) => IntKind::U64,
            Int::Lit(_) => IntKind::Lit,
        }
    }

    /// A fixed-size signed value is not the minimum of its type, whose
    /// absolute value does not fit in the type.
    pub open spec fn has_abs(self) -> bool {
        match self {
            Int::I8(v) => v != i8::MIN,
            Int::I16(v) => v != i16::MIN,
            Int::I32(v) => v != i32::MIN,
            Int::I64(v) => v != i64::MIN,
            Int::Lit(v) => v != i128::MIN,
            _ => true,
        }
    }

    /// The `(sign, magnitude)` pair that identifies a value: the sign of a
    /// literal is `1` when positive and `0` otherwise; fixed-size signed values
    /// use `-1`, `0` or `1`.
    pub open spec fn spec_sign_abs(self) -> (i32, u128) {
        let v = self.value();
        let mag = (if v < 0 { -v } else { v }) as u128;
        match self {
            Int::I8(_) | Int::I16(_) | Int::I32(_) | Int::I64(_) => (
                if v < 0 { -1i32 } else if v == 0 { 0i32 } else { 1i32 },
                mag,
            ),
            _ => (if v > 0 { 1i32 } else { 0i32 }, mag),
        }
    }

    /// Order of two `(sign, magnitude)` pairs, lexicographic.
    pub open spec fn pair_lt(a: (i32, u128), b: (i32, u128)) -> bool {
        a.0 < b.0 || (a.0 == b.0 && a.1 < b.1)
    }

    pub fn kind(&self) -> (r: IntKind)
        ensures
            r == self.spec_kind(),
    {
        match self {
            Int::I8(_) => IntKind::I8,
            Int::I16(_) => IntKind::I16,
            Int::I32(_) => IntKind::I32,
            Int::I64(_) => IntKind::I64,
            Int::U8(_) => IntKind::U8,
            Int::U16(_) => IntKind::U16,
            Int::U32(_) => IntKind::U32,
            Int::U64(_) => IntKind::U64,
            Int::Lit(_) => IntKind::Lit,
        }
    }

    /// The value as `i64`, or `None` when it is above `i64::MAX`. A literal
    /// below `i64::MIN` is truncated to its low 64 bits.
    pub fn as_i64(&self) -> (r: Option<i64>)
        ensures
            self.value() > i64::MAX ==> r is None,
            self.value() <= i64::MAX && self.value() >= i64::MIN ==> r == Some(self.value() as i64),
            self.value() < i64::MIN ==> r == Some(self.value() as i64),
    {
        let val = match *self {
            Int::I64(v) => v,
            Int::I8(v) => v as i64,
            Int::I16(v) => v as i64,
            Int::I32(v) => v as i64,
            Int::U8(v) => v as i64,
            Int::U16(v) => v as i64,
            Int::U32(v) => v as i64,
            Int::U64(v) => {
                if v > i64::MAX as u64 {
                    return None;
                }
                v as i64
            },
            Int::Lit(v) => {
                if v > i64::MAX as i128 {
                    return None;
                }
                #[verifier::truncate]
                (v as i64)
            },
        };
        Some(val)
    }

    /// The value as `u64`, or `None` when it is negative or above `u64::MAX`.
    pub fn as_u64(&self) -> (r: Option<u64>)
        ensures
            0 <= self.value() <= u64::MAX ==> r == Some(self.value() as u64),
            !(0 <= self.value() <= u64::MAX) ==> r is None,
    {
        let val = match *self {
            Int::U64(v) => v,
            Int::U8(v) => v as u64,
            Int::U16(v) => v as u64,
            Int::U32(v) => v as u64,
            Int::I8(v) => {
                if v < 0 {
                    return None;
                }
                v as u64
            },
            Int::I16(v) => {
                if v < 0 {
                    return None;
                }
                v as u64
            },
            Int::I32(v) => {
                if v < 0 {
                    return None;
                }
                v as u64
            },
            Int::I64(v) => {
                if v < 0 {
                    return None;
                }
                v as u64
            },
            Int::Lit(v) => {
                if v < 0 || v > u64::MAX as i128 {
                    return None;
                }
                v as u64
            },
        };
        Some(val)
    }

    /// The value as `usize`; it must be a valid `u64` that fits a `usize`.
    pub fn as_usize(&self) -> (r: usize)
        requires
            0 <= self.value() <= usize::MAX,
        ensures
            r == self.value(),
    {
        let v = self.as_u64();
        match v {
            Some(v) => v as usize,
            None => 0,
        }
    }

    /// Sign and magnitude of the value.
    pub fn sign_abs(&self) -> (r: (i32, u128))
        requires
            self.has_abs(),
        ensures
            r == self.spec_sign_abs(),
    {
        match *self {
            Int::I8(v) => (Self::signum(v as i64), Self::magnitude(v as i128)),
            Int::I16(v) => (Self::signum(v as i64), Self::magnitude(v as i128)),
            Int::I32(v) => (Self::signum(v as i64), Self::magnitude(v as i128)),
            Int::I64(v) => (Self::signum(v), Self::magnitude(v as i128)),
            Int::U8(v) => (if v > 0 { 1 } else { 0 }, v as u128),
            Int::U16(v) => (if v > 0 { 1 } else { 0 }, v as u128),
            Int::U32(v) => (if v > 0 { 1 } else { 0 }, v as u128),
            Int::U64(v) => (if v > 0 { 1 } else { 0 }, v as u128),
            Int::Lit(v) => (if v > 0 { 1 } else { 0 }, Self::magnitude(v)),
        }
    }

    fn magnitude(v: i128) -> (r: u128)
        requires
            v != i128::MIN,
        ensures
            r == (if v < 0 { -v } else { v as int }),
    {
        if v < 0 {
            (-v) as u128
        } else {
            v as u128
        }
    }

    fn signum(v: i64) -> (r: i32)
        ensures
            r == (if v < 0 { -1i32 } else if v == 0 { 0i32 } else { 1i32 }),
    {
        if v < 0 {
            -1
        } else if v == 0 {
            0
        } else {
            1
        }
    }

    fn magnitude_any(v: i128) -> (r: u128)
        ensures
            r == (if v < 0 { -v } else { v as int }),
    {
        if v < 0 {
            ((-(v + 1)) as u128) + 1
        } else {
            v as u128
        }
    }

    /// The `(sign, magnitude)` pair of any integer, the least ones included.
    fn sign_abs_any(&self) -> (r: (i32, u128))
        ensures
            r == self.spec_sign_abs(),
    {
        match *self {
            Int::I8(v) => (Self::signum(v as i64), Self::magnitude_any(v as i128)),
            Int::I16(v) => (Self::signum(v as i64), Self::magnitude_any(v as i128)),
            Int::I32(v) => (Self::signum(v as i64), Self::magnitude_any(v as i128)),
            Int::I64(v) => (Self::signum(v), Self::magnitude_any(v as i128)),
            Int::U8(v) => (if v > 0 { 1 } else { 0 }, v as u128),
            Int::U16(v) => (if v > 0 { 1 } else { 0 }, v as u128),
            Int::U32(v) => (if v > 0 { 1 } else { 0 }, v as u128),
            Int::U64(v) => (if v > 0 { 1 } else { 0 }, v as u128),
            Int::Lit(v) => (if v > 0 { 1 } else { 0 }, Self::magnitude_any(v)),
        }
    }

    /// Two integers are equal when their sign and magnitude agree.
    pub fn equals(&self, other: &Int) -> (r: bool)
        requires
            self.has_abs(),
            other.has_abs(),
        ensures
            r == (self.spec_sign_abs() == other.spec_sign_abs()),
    {
        let a = self.sign_abs();
        let b = other.sign_abs();
        a.0 == b.0 && a.1 == b.1
    }

    /// Order of two integers by sign, then magnitude.
    pub fn compare(&self, other: &Int) -> (r: std::cmp::Ordering)
        requires
            self.has_abs(),
            other.has_abs(),
        ensures
            (r == std::cmp::Ordering::Less) == Int::pair_lt(self.spec_sign_abs(), other.spec_sign_abs()),
            (r == std::cmp::Ordering::Equal) == (self.spec_sign_abs() == other.spec_sign_abs()),
            (r == std::cmp::Ordering::Greater) == Int::pair_lt(other.spec_sign_abs(), self.spec_sign_abs()),
    {
        let a = self.sign_abs();
        let b = other.sign_abs();
        if a.0 < b.0 || (a.0 == b.0 && a.1 < b.1) {
            std::cmp::Ordering::Less
        } else if a.0 == b.0 && a.1 == b.1 {
            std::cmp::Ordering::Equal
        } else {
            std::cmp::Ordering::Greater
        }
    }
}

/// Equality of integers is an equivalence and the order is total: for any two
/// values exactly one of less, equal, greater holds.
pub proof fn lemma_int_order_total(a: Int, b: Int)
    ensures
        Int::pair_lt(a.spec_sign_abs(), b.spec_sign_abs())
            || a.spec_sign_abs() == b.spec_sign_abs()
            || Int::pair_lt(b.spec_sign_abs(), a.spec_sign_abs()),
        !(Int::pair_lt(a.spec_sign_abs(), b.spec_sign_abs()) && Int::pair_lt(b.spec_sign_abs(), a.spec_sign_abs())),
{
}

/// Non-negative integers of any kind are equal exactly when their values are.
pub proof fn lemma_int_eq_nonneg(a: Int, b: Int)
    requires
        a.value() >= 0,
        b.value() >= 0,
    ensures
        (a.spec_sign_abs() == b.spec_sign_abs()) <==> a.value() == b.value(),
{
}

} // verus!

verus! {

/// Kind of a value: the shape of the data it holds.
#[derive(Debug)]
pub enum XKind {
    Nothing,
    Unknown,
    Any,
    Unit,
    Bool,
    Int(IntKind),
    Float(FloatKind),
    Str,
    Array(Box<XKind>),
}

/// Identifier of a kind. Two identifiers are equal exactly when their kinds
/// are equal.
#[derive(Debug)]
pub struct KindId {
    kind: XKind,
}

impl XKind {
    /// Structural equality of kinds.
    pub fn same(&self, other: &XKind) -> (r: bool)
        ensures
            r == (*self == *other),
        decreases self,
    {
        match (self, other) {
            (XKind::Nothing, XKind::Nothing) => true,
            (XKind::Unknown, XKind::Unknown) => true,
            (XKind::Any, XKind::Any) => true,
            (XKind::Unit, XKind::Unit) => true,
            (XKind::Bool, XKind::Bool) => true,
            (XKind::Int(a), XKind::Int(b)) => *a == *b,
            (XKind::Float(a), XKind::Float(b)) => *a == *b,
            (XKind::Str, XKind::Str) => true,
            (XKind::Array(a), XKind::Array(b)) => (**a).same(&**b),
            _ => false,
        }
    }
}

impl XKind {
    /// A copy of this kind.
    pub fn duplicate(&self) -> (r: XKind)
        ensures
            r == *self,
        decreases self,
    {
        match self {
            XKind::Nothing => XKind::Nothing,
            XKind::Unknown => XKind::Unknown,
            XKind::Any => XKind::Any,
            XKind::Unit => XKind::Unit,
            XKind::Bool => XKind::Bool,
            XKind::Int(a) => XKind::Int(*a),
            XKind::Float(a) => XKind::Float(*a),
            XKind::Str => XKind::Str,
            XKind::Array(a) => XKind::Array(Box::new((**a).duplicate())),
        }
    }
}

impl Clone for XKind {
    fn clone(&self) -> (r: XKind)
        ensures
            r == *self,
    {
        self.duplicate()
    }
}

impl Clone for KindId {
    fn clone(&self) -> (r: KindId)
        ensures
            r == *self,
    {
        KindId { kind: self.kind.duplicate() }
    }
}

impl PartialEq for XKind {
    fn eq(&self, other: &XKind) -> (r: bool) {
        self.same(other)
    }
}

impl vstd::std_specs::cmp::PartialEqSpecImpl for XKind {
    open spec fn obeys_eq_spec() -> bool {
        true
    }

    open spec fn eq_spec(&self, other: &XKind) -> bool {
        *self == *other
    }
}

impl Eq for XKind {}

impl PartialEq for Int {
    fn eq(&self, other: &Int) -> (r: bool) {
        let a = self.sign_abs_any();
        let b = other.sign_abs_any();
        a.0 == b.0 && a.1 == b.1
    }
}

impl vstd::std_specs::cmp::PartialEqSpecImpl for Int {
    open spec fn obeys_eq_spec() -> bool {
        true
    }

    open spec fn eq_spec(&self, other: &Int) -> bool {
        self.spec_sign_abs() == other.spec_sign_abs()
    }
}

impl Eq for Int {}

impl PartialOrd for Int {
    fn partial_cmp(&self, other: &Int) -> (r: Option<core::cmp::Ordering>) {
        let a = self.sign_abs_any();
        let b = other.sign_abs_any();
        if a.0 < b.0 || (a.0 == b.0 && a.1 < b.1) {
            Some(core::cmp::Ordering::Less)
        } else if a.0 == b.0 && a.1 == b.1 {
            Some(core::cmp::Ordering::Equal)
        } else {
            Some(core::cmp::Ordering::Greater)
        }
    }
}

impl vstd::std_specs::cmp::PartialOrdSpecImpl for Int {
    open spec fn obeys_partial_cmp_spec() -> bool {
        true
    }

    /// Integers are ordered by sign, then magnitude, as [`Int::compare`]
    /// orders them.
    open spec fn partial_cmp_spec(&self, other: &Int) -> Option<core::cmp::Ordering> {
        let a = self.spec_sign_abs();
        let b = other.spec_sign_abs();
        if Int::pair_lt(a, b) {
            Some(core::cmp::Ordering::Less)
        } else if a == b {
            Some(core::cmp::Ordering::Equal)
        } else {
            Some(core::cmp::Ordering::Greater)
        }
    }
}

impl core::hash::Hash for Int {
    /// Hashes the sign and the magnitude, which `==` compares, so that equal
    /// integers of different kinds hash alike.
    #[verifier::external_body]
    fn hash<H: core::hash::Hasher>(&self, state: &mut H) {
        core::hash::Hash::hash(&self.sign_abs_any(), state)
    }
}

impl PartialEq for KindId {
    fn eq(&self, other: &KindId) -> (r: bool) {
        self.kind.same(&other.kind)
    }
}

impl vstd::std_specs::cmp::PartialEqSpecImpl for KindId {
    open spec fn obeys_eq_spec() -> bool {
        true
    }

    open spec fn eq_spec(&self, other: &KindId) -> bool {
        *self == *other
    }
}

impl Eq for KindId {}

impl View for KindId {
    type V = XKind;

    open spec fn view(&self) -> XKind {
        self.spec_kind()
    }
}

/// Identifiers of the same kind are the same identifier.
pub proof fn lemma_kind_id_injective(a: KindId, b: KindId)
    requires
        a@ == b@,
    ensures
        a == b,
{
}

impl XKind {
    /// A value of kind `self` is a valid value of kind `other`.
    pub open spec fn spec_is_valid(self, other: XKind) -> bool {
        match other {
            XKind::Nothing => false,
            XKind::Any => self != XKind::Nothing,
            XKind::Int(o) => match self {
                XKind::Int(k) => k.spec_is_valid(o),
                _ => false,
            },
            XKind::Float(o) => match self {
                XKind::Float(k) => k.spec_bits() <= o.spec_bits(),
                _ => false,
            },
            _ => self == other,
        }
    }

    pub fn id(&self) -> (r: KindId)
        ensures
            r@ == *self,
    {
        KindId { kind: self.clone() }
    }

    pub fn is_none(&self) -> (r: bool)
        ensures
            r == (*self == XKind::Nothing),
    {
        match self {
            XKind::Nothing => true,
            _ => false,
        }
    }

    pub fn is_valid(&self, other: &XKind) -> (r: bool)
        ensures
            r == self.spec_is_valid(*other),
    {
        match other {
            XKind::Nothing => false,
            XKind::Any => !self.is_none(),
            XKind::Int(o) => {
                if let XKind::Int(kind) = self {
                    kind.is_valid(o)
                } else {
                    false
                }
            },
            XKind::Float(o) => {
                if let XKind::Float(kind) = self {
                    kind.is_valid(o)
                } else {
                    false
                }
            },
            _ => *self == *other,
        }
    }

    /// The kind of arrays of `self`.
    pub fn array_of(&self) -> (r: XKind)
        ensures
            r == XKind::Array(Box::new(*self)),
    {
        XKind::Array(Box::new(self.clone()))
    }
}

impl Default for XKind {
    fn default() -> (r: XKind)
        ensures
            r == XKind::Nothing,
    {
        XKind::Nothing
    }
}

impl KindId {
    pub closed spec fn spec_kind(&self) -> XKind {
        self.kind
    }

    pub fn as_kind(&self) -> (r: &XKind)
        ensures
            *r == self@,
    {
        &self.kind
    }

    pub fn none() -> (r: KindId)
        ensures
            r@ == XKind::Nothing,
    {
        XKind::Nothing.id()
    }

    pub fn unknown() -> (r: KindId)
        ensures
            r@ == XKind::Unknown,
    {
        XKind::Unknown.id()
    }

    /// Note that this holds of every kind but `None`.
    pub open spec fn spec_is_none(&self) -> bool {
        self@ != XKind::Nothing
    }

    pub open spec fn spec_is_unknown(&self) -> bool {
        self@ == XKind::Unknown
    }

    /// True for every kind but `None`.
    pub fn is_none(&self) -> (r: bool)
        ensures
            r == self.spec_is_none(),
    {
        !self.kind.is_none()
    }

    pub fn is_some(&self) -> (r: bool)
        ensures
            r == !self.spec_is_none(),
    {
        !self.is_none()
    }

    pub fn is_valid(&self) -> (r: bool)
        ensures
            r == (!self.spec_is_none() && !self.spec_is_unknown()),
    {
        self.is_some() && self.is_known()
    }

    pub fn is_unknown(&self) -> (r: bool)
        ensures
            r == self.spec_is_unknown(),
    {
        match self.kind {
            XKind::Unknown => true,
            _ => false,
        }
    }

    pub fn is_known(&self) -> (r: bool)
        ensures
            r == !self.spec_is_unknown(),
    {
        !self.is_unknown()
    }

    pub open spec fn spec_is_numeric(&self) -> bool {
        self@ is Int || self@ is Float
    }

    pub open spec fn spec_can_promote_to(&self, to: KindId) -> bool {
        match self@ {
            XKind::Int(ta) => match to@ {
                XKind::Int(tb) => ta.spec_can_promote_to(tb),
                _ => false,
            },
            XKind::Float(ta) => match to@ {
                XKind::Float(tb) => tb.spec_bits() >= ta.spec_bits(),
                _ => false,
            },
            _ => false,
        }
    }

    pub open spec fn spec_get_result_kind(&self, expected: KindId) -> XKind {
        if self.spec_is_none() || expected.spec_is_none() {
            XKind::Nothing
        } else if self.spec_is_unknown() {
            XKind::Unknown
        } else if expected.spec_is_unknown() {
            self@
        } else if self.spec_can_promote_to(expected) {
            expected@
        } else if expected@ == XKind::Int(IntKind::Lit) {
            self@
        } else {
            XKind::Nothing
        }
    }

    pub fn is_numeric(&self) -> (r: bool)
        ensures
            r == self.spec_is_numeric(),
    {
        match self.as_kind() {
            XKind::Int(_) => true,
            XKind::Float(_) => true,
            _ => false,
        }
    }

    pub fn can_promote_to(&self, to: &KindId) -> (r: bool)
        ensures
            r == self.spec_can_promote_to(*to),
    {
        match self.as_kind() {
            XKind::Int(ta) => {
                if let XKind::Int(tb) = to.as_kind() {
                    ta.can_promote_to(*tb)
                } else {
                    false
                }
            },
            XKind::Float(ta) => {
                if let XKind::Float(tb) = to.as_kind() {
                    tb.bits() >= ta.bits()
                } else {
                    false
                }
            },
            _ => false,
        }
    }

    /// Kind of the result of an operation on `self` that is expected to
    /// produce `expected_output`.
    pub fn get_result_kind(&self, expected_output: &KindId) -> (r: KindId)
        ensures
            r@ == self.spec_get_result_kind(*expected_output),
    {
        if self.is_none() || expected_output.is_none() {
            KindId::none()
        } else if self.is_unknown() {
            KindId::unknown()
        } else if expected_output.is_unknown() {
            self.clone()
        } else if self.can_promote_to(expected_output) {
            expected_output.clone()
        } else if *expected_output.as_kind() == XKind::Int(IntKind::Lit) {
            self.clone()
        } else {
            KindId::none()
        }
    }
}

impl Default for KindId {
    fn default() -> (r: KindId)
        ensures
            r@ == XKind::Nothing,
    {
        KindId::none()
    }
}

/// Kind of the result of a numeric operation on kinds `a` and `b`.
pub open spec fn spec_numeric_result(a: KindId, b: KindId) -> XKind {
    if !a.spec_is_unknown() && !a.spec_is_numeric() {
        XKind::Nothing
    } else if !b.spec_is_unknown() && !b.spec_is_numeric() {
        XKind::Nothing
    } else if a.spec_is_unknown() || b.spec_is_unknown() {
        XKind::Unknown
    } else if a@ == b@ {
        a@
    } else if a.spec_can_promote_to(b) {
        b@
    } else if b.spec_can_promote_to(a) {
        a@
    } else {
        XKind::Nothing
    }
}

pub fn get_numeric_result(a: &KindId, b: &KindId) -> (r: KindId)
    ensures
        r@ == spec_numeric_result(*a, *b),
{
    if a.is_known() && !a.is_numeric() {
        return KindId::none();
    }
    if b.is_known() && !b.is_numeric() {
        return KindId::none();
    }
    if !a.is_known() || !b.is_known() {
        return KindId::unknown();
    }
    if *a == *b {
        return a.clone();
    }
    if a.can_promote_to(b) {
        b.clone()
    } else if b.can_promote_to(a) {
        a.clone()
    } else {
        KindId::none()
    }
}

/// `is_none` holds of every kind but the none kind, so the result kind of
/// an operation is always the none kind, whatever the operand and the
/// expected output.
pub proof fn lemma_result_kind_always_none(a: KindId, expected: KindId)
    ensures
        a.spec_get_result_kind(expected) == XKind::Nothing,
{
}

/// The numeric result of two fixed-width integer kinds is the one whose
/// values include the other's, when there is one, and the none kind when
/// neither range holds the other.
pub proof fn lemma_numeric_result_int_ranges(a: KindId, b: KindId, x: IntKind, y: IntKind)
    requires
        a@ == XKind::Int(x),
        b@ == XKind::Int(y),
        x != IntKind::Lit,
        y != IntKind::Lit,
    ensures
        kind_min(y) <= kind_min(x) && kind_max(x) <= kind_max(y) ==> spec_numeric_result(a, b) == b@,
        kind_min(x) <= kind_min(y) && kind_max(y) <= kind_max(x) ==> spec_numeric_result(a, b) == a@,
        !(kind_min(y) <= kind_min(x) && kind_max(x) <= kind_max(y)) && !(kind_min(x) <= kind_min(y) && kind_max(y)
            <= kind_max(x)) ==> spec_numeric_result(a, b) == XKind::Nothing,
{
    lemma_promote_is_range_inclusion(x, y);
    lemma_promote_is_range_inclusion(y, x);
}

/// The numeric result does not depend on the order of its operands.
pub proof fn lemma_numeric_result_symmetric(a: KindId, b: KindId)
    ensures
        spec_numeric_result(a, b) == spec_numeric_result(b, a),
{
    if a@ == b@ {
    }
    if a.spec_can_promote_to(b) && b.spec_can_promote_to(a) {
        match (a@, b@) {
            (XKind::Int(x), XKind::Int(y)) => {
                assert(x == y);
            },
            _ => {},
        }
    }
}

/// A numeric result is either `None`, `Unknown` or the kind of one operand.
pub proof fn lemma_numeric_result_is_operand(a: KindId, b: KindId)
    ensures
        spec_numeric_result(a, b) == XKind::Nothing
            || spec_numeric_result(a, b) == XKind::Unknown
            || spec_numeric_result(a, b) == a@
            || spec_numeric_result(a, b) == b@,
{
}

} // verus!
