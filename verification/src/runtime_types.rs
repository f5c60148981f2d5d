use vstd::prelude::*;

verus! {

/// Primitive data types.
#[derive(Copy, Clone, Debug, PartialEq, Eq, Structural)]
pub enum Primitive {
    /// Zero sized type.
    Empty,
    /// Boolean.
    Bool,
    /// Generic string.
    String,
    /// Fixed size signed int. The zero size is the best native integer.
    SInt(u8),
    /// Fixed size unsigned int. The zero size is the best native integer.
    UInt(u8),
    /// Unsigned int capable of holding any representable memory size.
    UIntSize,
    /// Signed int equivalent of [`Primitive::UIntSize`].
    SIntSize,
    /// Unicode character.
    Char,
    /// Single precision floating point (32 bits IEEE 754).
    Float32,
    /// Double precision floating point (64 bits IEEE 754).
    Float64,
    /// Arbitrary pointer to anything.
    Pointer,
    /// An unsigned integer that can be safely converted to and from a pointer.
    UIntPtr,
    /// Signed integer equivalent of [`Primitive::UIntPtr`].
    SIntPtr,
    /// Signed integer type with the result of subtracting two pointers.
    PtrDiff,
}

impl Primitive {
    /// Position of the variant in the declaration order.
    pub open spec fn spec_rank(self) -> int {
        match self {
            Primitive::Empty => 0,
            Primitive::Bool => 1,
            Primitive::String => 2,
            Primitive::SInt(_) => 3,
            Primitive::UInt(_) => 4,
            Primitive::UIntSize => 5,
            Primitive::SIntSize => 6,
            Primitive::Char => 7,
            Primitive::Float32 => 8,
            Primitive::Float64 => 9,
            Primitive::Pointer => 10,
            Primitive::UIntPtr => 11,
            Primitive::SIntPtr => 12,
            Primitive::PtrDiff => 13,
        }
    }

    /// Order of primitives: by variant, then by size.
    pub open spec fn spec_cmp(self, other: Primitive) -> int {
        if self.spec_rank() < other.spec_rank() {
            -1
        } else if self.spec_rank() > other.spec_rank() {
            1
        } else {
            match (self, other) {
                (Primitive::SInt(a), Primitive::SInt(b)) | (Primitive::UInt(a), Primitive::UInt(b)) => if a < b {
                    -1
                } else if a > b {
                    1
                } else {
                    0
                },
                _ => 0,
            }
        }
    }

    pub fn rank(self) -> (r: u8)
        ensures
            r == self.spec_rank(),
    {
        match self {
            Primitive::Empty => 0,
            Primitive::Bool => 1,
            Primitive::String => 2,
            Primitive::SInt(_) => 3,
            Primitive::UInt(_) => 4,
            Primitive::UIntSize => 5,
            Primitive::SIntSize => 6,
            Primitive::Char => 7,
            Primitive::Float32 => 8,
            Primitive::Float64 => 9,
            Primitive::Pointer => 10,
            Primitive::UIntPtr => 11,
            Primitive::SIntPtr => 12,
            Primitive::PtrDiff => 13,
        }
    }

    /// Compare two primitives: `-1`, `0` or `1`.
    pub fn compare(self, other: Primitive) -> (r: i8)
        ensures
            r == self.spec_cmp(other),
    {
        let (a, b) = (self.rank(), other.rank());
        if a < b {
            -1
        } else if a > b {
            1
        } else {
            match (self, other) {
                (Primitive::SInt(a), Primitive::SInt(b)) | (Primitive::UInt(a), Primitive::UInt(b)) => if a < b {
                    -1
                } else if a > b {
                    1
                } else {
                    0
                },
                _ => 0,
            }
        }
    }
}

/// A type of the runtime: an index into its [`RuntimeTypeContext`]. Two types
/// are equal only when they are the same entry.
#[derive(Copy, Clone, Debug, PartialEq, Eq, Structural)]
pub struct RuntimeType {
    id: usize,
}

/// Definition of a runtime type.
#[derive(Copy, Clone, Debug, PartialEq, Eq, Structural)]
pub enum TypeKind {
    Nothing,
    Unit,
    Never,
    Any,
    Unknown,
    Invalid(RuntimeType),
    Builtin(Primitive),
    Sum(RuntimeType, RuntimeType),
}

/// An entry of a [`RuntimeTypeContext`].
#[derive(Copy, Clone, Debug)]
pub struct RuntimeTypeData {
    kind: TypeKind,
}

/// Key of a [`TypeMap`].
#[derive(Copy, Clone, Debug, PartialEq, Eq, Structural)]
pub enum TypeKey {
    Type(RuntimeType),
    Prim(Primitive),
    Pair(RuntimeType, RuntimeType),
}

/// A map from keys to the types made for them, so that the same key always
/// gives the same type.
pub struct TypeMap {
    entries: Vec<(TypeKey, RuntimeType)>,
}

impl TypeMap {
    /// The map as a mathematical map.
    pub closed spec fn view(&self) -> Map<TypeKey, RuntimeType> {
        Map::new(
            |k: TypeKey| exists|i: int| 0 <= i < self.entries@.len() && #[trigger] self.entries@[i].0 == k,
            |k: TypeKey| self.entries@[choose|i: int| 0 <= i < self.entries@.len() && #[trigger] self.entries@[i].0 == k].1,
        )
    }

    pub closed spec fn wf(&self) -> bool {
        forall|i: int, j: int|
            0 <= i < self.entries@.len() && 0 <= j < self.entries@.len() && #[trigger] self.entries@[i].0
                == #[trigger] self.entries@[j].0 ==> i == j
    }

    pub fn new() -> (r: TypeMap)
        ensures
            r.wf(),
            r.view() == Map::<TypeKey, RuntimeType>::empty(),
    {
        let r = TypeMap { entries: Vec::new() };
        assert(r.view() =~= Map::<TypeKey, RuntimeType>::empty());
        r
    }

    /// The type made for `key`, if any.
    pub fn get(&self, key: &TypeKey) -> (r: Option<RuntimeType>)
        requires
            self.wf(),
        ensures
            match r {
                Some(t) => self.view().contains_key(*key) && self.view()[*key] == t,
                None => !self.view().contains_key(*key),
            },
    {
        let n = self.entries.len();
        let mut i: usize = 0;
        while i < n
            invariant
                0 <= i <= n,
                n == self.entries@.len(),
                self.wf(),
                forall|j: int| 0 <= j < i ==> #[trigger] self.entries@[j].0 != *key,
            decreases n - i,
        {
            if self.entries[i].0 == *key {
                assert(self.entries@[i as int].0 == *key);
                assert(self.view().contains_key(*key));
                let ghost j = choose|j: int| 0 <= j < self.entries@.len() && #[trigger] self.entries@[j].0 == *key;
                assert(j == i);
                return Some(self.entries[i].1);
            }
            i = i + 1;
        }
        None
    }

    /// Record the type made for a key that has none yet.
    pub fn insert(&mut self, key: TypeKey, value: RuntimeType)
        requires
            old(self).wf(),
            !old(self).view().contains_key(key),
        ensures
            final(self).wf(),
            final(self).view() == old(self).view().insert(key, value),
    {
        let ghost old_entries = self.entries@;
        let ghost old_view = self.view();
        self.entries.push((key, value));
        assert forall|i: int, j: int|
            0 <= i < self.entries@.len() && 0 <= j < self.entries@.len() && #[trigger] self.entries@[i].0
                == #[trigger] self.entries@[j].0 implies i == j by {
            if i < old_entries.len() && j == old_entries.len() {
                assert(old_view.contains_key(old_entries[i].0));
            }
            if j < old_entries.len() && i == old_entries.len() {
                assert(old_view.contains_key(old_entries[j].0));
            }
        }
        assert forall|k: TypeKey| #[trigger] self.view().contains_key(k) == old_view.insert(key, value).contains_key(k)
            by {
            if old_view.contains_key(k) {
                let i = choose|i: int| 0 <= i < old_entries.len() && #[trigger] old_entries[i].0 == k;
                assert(self.entries@[i].0 == k);
            }
            if k == key {
                assert(self.entries@[old_entries.len() as int].0 == k);
            }
            if self.view().contains_key(k) && k != key {
                let i = choose|i: int| 0 <= i < self.entries@.len() && #[trigger] self.entries@[i].0 == k;
                assert(old_entries[i].0 == k);
            }
        }
        assert forall|k: TypeKey| #[trigger] self.view().contains_key(k) implies self.view()[k] == old_view.insert(
            key,
            value,
        )[k] by {
            let i = choose|i: int| 0 <= i < self.entries@.len() && #[trigger] self.entries@[i].0 == k;
            if k != key {
                let j = choose|j: int| 0 <= j < old_entries.len() && #[trigger] old_entries[j].0 == k;
                assert(self.entries@[j].0 == k);
            } else {
                assert(self.entries@[old_entries.len() as int].0 == k);
            }
        }
        assert(self.view() =~= old_view.insert(key, value));
    }
}


impl RuntimeTypeData {
    pub closed spec fn spec_kind(&self) -> TypeKind {
        self.kind
    }

    /// The definition of a type.
    pub fn new(kind: TypeKind) -> (r: RuntimeTypeData)
        ensures
            r.spec_kind() == kind,
    {
        RuntimeTypeData { kind }
    }
}

impl TypeKind {
    pub open spec fn spec_rank(self) -> int {
        match self {
            TypeKind::Nothing => 0,
            TypeKind::Unit => 1,
            TypeKind::Never => 2,
            TypeKind::Any => 3,
            TypeKind::Unknown => 4,
            TypeKind::Invalid(_) => 5,
            TypeKind::Builtin(_) => 6,
            TypeKind::Sum(_, _) => 7,
        }
    }

    pub fn rank(&self) -> (r: u8)
        ensures
            r == self.spec_rank(),
    {
        match self {
            TypeKind::Nothing => 0,
            TypeKind::Unit => 1,
            TypeKind::Never => 2,
            TypeKind::Any => 3,
            TypeKind::Unknown => 4,
            TypeKind::Invalid(_) => 5,
            TypeKind::Builtin(_) => 6,
            TypeKind::Sum(_, _) => 7,
        }
    }
}

/// Index of the none type.
pub const NONE_ID: usize = 0;
/// Index of the unit type.
pub const UNIT_ID: usize = 1;
/// Index of the string type.
pub const STR_ID: usize = 2;
/// Index of the boolean type.
pub const BOOL_ID: usize = 3;
/// Index of the default signed integer type.
pub const SINT_ID: usize = 4;
/// Index of the default unsigned integer type.
pub const UINT_ID: usize = 5;
/// Index of the never type.
pub const NEVER_ID: usize = 6;
/// Index of the any type.
pub const ANY_ID: usize = 7;
/// Index of the unknown type.
pub const UNKNOWN_ID: usize = 8;
/// Number of predefined types.
pub const BASE_TYPES: usize = 9;

/// The definitions of the predefined types, in index order.
pub open spec fn base_kinds() -> Seq<TypeKind> {
    seq![
        TypeKind::Nothing,
        TypeKind::Unit,
        TypeKind::Builtin(Primitive::String),
        TypeKind::Builtin(Primitive::Bool),
        TypeKind::Builtin(Primitive::SInt(64)),
        TypeKind::Builtin(Primitive::UInt(64)),
        TypeKind::Never,
        TypeKind::Any,
        TypeKind::Unknown,
    ]
}

impl RuntimeType {
    pub closed spec fn spec_id(self) -> int {
        self.id as int
    }
}

pub open spec fn tid(t: RuntimeType) -> int {
    t.spec_id()
}

/// Two types with the same index are the same type.
pub proof fn lemma_tid_injective(a: RuntimeType, b: RuntimeType)
    requires
        tid(a) == tid(b),
    ensures
        a == b,
{
}

/// Entry `i` refers only to earlier entries, and never wraps an invalid type.
pub open spec fn kind_ok(kinds: Seq<TypeKind>, i: int) -> bool {
    match kinds[i] {
        TypeKind::Invalid(t) => 0 <= tid(t) < i && !(kinds[tid(t)] is Invalid),
        TypeKind::Sum(a, b) => 0 <= tid(a) < i && 0 <= tid(b) < i && !(kinds[tid(a)] is Invalid) && !(
        kinds[tid(b)] is Invalid),
        _ => true,
    }
}

/// Does type `x` contain type `y`?
pub open spec fn spec_contains(kinds: Seq<TypeKind>, x: int, y: int) -> bool
    decreases x + y,
{
    if x < 0 || y < 0 || x >= kinds.len() || y >= kinds.len() {
        false
    } else if x == y {
        true
    } else if kinds[y] is Never || kinds[y] is Nothing {
        true
    } else if kinds[y] is Invalid {
        let v = tid(kinds[y]->Invalid_0);
        if 0 <= v < y {
            spec_contains(kinds, x, v)
        } else {
            false
        }
    } else {
        match kinds[x] {
            TypeKind::Any | TypeKind::Unknown => true,
            TypeKind::Invalid(inner) => 0 <= tid(inner) < x && (tid(inner) == NONE_ID || spec_contains(
                kinds,
                tid(inner),
                y,
            )),
            TypeKind::Sum(a, b) => 0 <= tid(a) < x && 0 <= tid(b) < x && (spec_contains(kinds, tid(a), y)
                || spec_contains(kinds, tid(b), y)),
            _ => false,
        }
    }
}

/// Order of types by definition: `-1`, `0` or `1`.
pub open spec fn spec_type_cmp(kinds: Seq<TypeKind>, x: int, y: int) -> int
    decreases x + y,
{
    if x < 0 || y < 0 || x >= kinds.len() || y >= kinds.len() {
        0
    } else if kinds[x].spec_rank() < kinds[y].spec_rank() {
        -1
    } else if kinds[x].spec_rank() > kinds[y].spec_rank() {
        1
    } else {
        match (kinds[x], kinds[y]) {
            (TypeKind::Invalid(a), TypeKind::Invalid(b)) => if 0 <= tid(a) < x && 0 <= tid(b) < y {
                spec_type_cmp(kinds, tid(a), tid(b))
            } else {
                0
            },
            (TypeKind::Builtin(p), TypeKind::Builtin(q)) => p.spec_cmp(q),
            (TypeKind::Sum(a1, b1), TypeKind::Sum(a2, b2)) => if 0 <= tid(a1) < x && 0 <= tid(b1) < x && 0 <= tid(
                a2,
            ) < y && 0 <= tid(b2) < y {
                let c = spec_type_cmp(kinds, tid(a1), tid(a2));
                if c != 0 {
                    c
                } else {
                    spec_type_cmp(kinds, tid(b1), tid(b2))
                }
            } else {
                0
            },
            _ => 0,
        }
    }
}

/// The operands of a sum in the order used to build it: the smaller first;
/// when neither is smaller, the second operand first.
pub open spec fn sum_order(kinds: Seq<TypeKind>, x: RuntimeType, y: RuntimeType) -> (RuntimeType, RuntimeType) {
    if spec_type_cmp(kinds, tid(x), tid(y)) < 0 {
        (x, y)
    } else {
        (y, x)
    }
}

/// `r` is the sum of the valid, ordered types `a` and `b`: an unknown or none
/// operand gives the other one; an operand that contains the other is the
/// sum; otherwise the sum is a new type `Sum(a, b)`.
pub open spec fn sum_rule(kinds: Seq<TypeKind>, a: RuntimeType, b: RuntimeType, r: RuntimeType) -> bool {
    if tid(a) == UNKNOWN_ID || tid(a) == NONE_ID {
        r == b
    } else if tid(b) == UNKNOWN_ID || tid(b) == NONE_ID {
        r == a
    } else if spec_contains(kinds, tid(a), tid(b)) {
        r == a
    } else if spec_contains(kinds, tid(b), tid(a)) {
        r == b
    } else {
        0 <= tid(r) < kinds.len() && kinds[tid(r)] == TypeKind::Sum(a, b)
    }
}

/// Does a value of type `x` have a boolean meaning for every type it
/// contains that is defined?
pub open spec fn spec_bool_defined(kinds: Seq<TypeKind>, x: int) -> bool
    decreases x,
{
    if x < 0 || x >= kinds.len() {
        true
    } else {
        match kinds[x] {
            TypeKind::Builtin(p) => p is Bool || p is String || p is SInt || p is UInt,
            TypeKind::Sum(a, b) => 0 <= tid(a) < x && 0 <= tid(b) < x && spec_bool_defined(kinds, tid(a))
                && spec_bool_defined(kinds, tid(b)),
            _ => true,
        }
    }
}

/// Can a value of type `x` be used as a boolean?
pub open spec fn spec_valid_bool(kinds: Seq<TypeKind>, x: int) -> bool
    decreases x,
{
    if x < 0 || x >= kinds.len() {
        false
    } else {
        match kinds[x] {
            TypeKind::Unit | TypeKind::Never | TypeKind::Builtin(_) => true,
            TypeKind::Sum(a, b) => 0 <= tid(a) < x && 0 <= tid(b) < x && spec_valid_bool(kinds, tid(a))
                && spec_valid_bool(kinds, tid(b)),
            _ => false,
        }
    }
}

/// All the types of a runtime. Types are only ever added.
pub struct RuntimeTypeContext {
    data: Vec<RuntimeTypeData>,
    invalid: TypeMap,
    builtin: TypeMap,
    sum_types: TypeMap,
}

impl RuntimeTypeContext {
    /// Definitions of the types, by index.
    pub closed spec fn kinds(&self) -> Seq<TypeKind> {
        self.data@.map_values(|d: RuntimeTypeData| d.kind)
    }

    pub closed spec fn wf(&self) -> bool {
        let kinds = self.kinds();
        &&& kinds.len() >= BASE_TYPES
        &&& forall|i: int| 0 <= i < BASE_TYPES ==> #[trigger] kinds[i] == base_kinds()[i]
        &&& forall|i: int| 0 <= i < kinds.len() ==> #[trigger] kind_ok(kinds, i)
        &&& forall|i: int| BASE_TYPES <= i < kinds.len() ==> !(#[trigger] kinds[i] is Nothing) && !(kinds[i] is Unknown)
        &&& self.invalid.wf()
        &&& self.builtin.wf()
        &&& self.sum_types.wf()
        &&& forall|k: TypeKey| #[trigger] self.invalid.view().contains_key(k) ==> ({
            let r = self.invalid.view()[k];
            &&& k matches TypeKey::Type(t)
            &&& 0 <= tid(t) < kinds.len()
            &&& !(kinds[tid(t)] is Invalid)
            &&& 0 <= tid(r) < kinds.len()
            &&& kinds[tid(r)] == TypeKind::Invalid(t)
        })
        &&& forall|k: TypeKey| #[trigger] self.builtin.view().contains_key(k) ==> ({
            let r = self.builtin.view()[k];
            &&& k matches TypeKey::Prim(p)
            &&& p != Primitive::Bool && p != Primitive::String && p != Primitive::SInt(64) && p != Primitive::UInt(64)
            &&& 0 <= tid(r) < kinds.len()
            &&& kinds[tid(r)] == TypeKind::Builtin(p)
        })
        &&& forall|k: TypeKey| #[trigger] self.sum_types.view().contains_key(k) ==> ({
            let r = self.sum_types.view()[k];
            &&& k matches TypeKey::Pair(a, b)
            &&& 0 <= tid(a) < kinds.len()
            &&& 0 <= tid(b) < kinds.len()
            &&& !(kinds[tid(a)] is Invalid)
            &&& !(kinds[tid(b)] is Invalid)
            &&& 0 <= tid(r) < kinds.len()
            &&& !(kinds[tid(r)] is Invalid)
            &&& sum_rule(kinds, a, b, r)
        })
    }

    pub closed spec fn spec_invalid_memo(&self) -> Map<TypeKey, RuntimeType> {
        self.invalid.view()
    }

    pub closed spec fn spec_builtin_memo(&self) -> Map<TypeKey, RuntimeType> {
        self.builtin.view()
    }

    pub closed spec fn spec_sum_types_memo(&self) -> Map<TypeKey, RuntimeType> {
        self.sum_types.view()
    }

    /// `t` is a type of this context.
    pub open spec fn has(&self, t: RuntimeType) -> bool {
        0 <= tid(t) < self.kinds().len()
    }

    /// This context holds every type of `old`, unchanged.
    pub open spec fn extends(&self, old: &RuntimeTypeContext) -> bool {
        &&& old.kinds().len() <= self.kinds().len()
        &&& forall|i: int| 0 <= i < old.kinds().len() ==> #[trigger] self.kinds()[i] == old.kinds()[i]
    }

    /// A context holding only the predefined types.
    pub fn new() -> (r: RuntimeTypeContext)
        ensures
            r.wf(),
            r.kinds() == base_kinds(),
    {
        let mut data: Vec<RuntimeTypeData> = Vec::new();
        data.push(RuntimeTypeData { kind: TypeKind::Nothing });
        data.push(RuntimeTypeData { kind: TypeKind::Unit });
        data.push(RuntimeTypeData { kind: TypeKind::Builtin(Primitive::String) });
        data.push(RuntimeTypeData { kind: TypeKind::Builtin(Primitive::Bool) });
        data.push(RuntimeTypeData { kind: TypeKind::Builtin(Primitive::SInt(64)) });
        data.push(RuntimeTypeData { kind: TypeKind::Builtin(Primitive::UInt(64)) });
        data.push(RuntimeTypeData { kind: TypeKind::Never });
        data.push(RuntimeTypeData { kind: TypeKind::Any });
        data.push(RuntimeTypeData { kind: TypeKind::Unknown });
        let r = RuntimeTypeContext {
            data,
            invalid: TypeMap::new(),
            builtin: TypeMap::new(),
            sum_types: TypeMap::new(),
        };
        assert(r.kinds() =~= base_kinds());
        r
    }

    /// Null-value for a type, representing the lack of a type.
    pub fn none(&self) -> (r: RuntimeType)
        ensures
            tid(r) == NONE_ID,
            self.wf() ==> self.has(r),
    {
        RuntimeType { id: NONE_ID }
    }

    /// Concrete type containing only a single zero-sized value.
    pub fn unit(&self) -> (r: RuntimeType)
        ensures
            tid(r) == UNIT_ID,
            self.wf() ==> self.has(r),
    {
        RuntimeType { id: UNIT_ID }
    }

    /// Concrete type containing no possible values.
    pub fn never(&self) -> (r: RuntimeType)
        ensures
            tid(r) == NEVER_ID,
            self.wf() ==> self.has(r),
    {
        RuntimeType { id: NEVER_ID }
    }

    /// Concrete type able to hold any possible value.
    pub fn any(&self) -> (r: RuntimeType)
        ensures
            tid(r) == ANY_ID,
            self.wf() ==> self.has(r),
    {
        RuntimeType { id: ANY_ID }
    }

    /// Abstract unknown type.
    pub fn unknown(&self) -> (r: RuntimeType)
        ensures
            tid(r) == UNKNOWN_ID,
            self.wf() ==> self.has(r),
    {
        RuntimeType { id: UNKNOWN_ID }
    }

    /// Default string type.
    pub fn str(&self) -> (r: RuntimeType)
        ensures
            tid(r) == STR_ID,
            self.wf() ==> self.has(r),
    {
        RuntimeType { id: STR_ID }
    }

    /// Builtin boolean type.
    pub fn bool(&self) -> (r: RuntimeType)
        ensures
            tid(r) == BOOL_ID,
            self.wf() ==> self.has(r),
    {
        RuntimeType { id: BOOL_ID }
    }

    /// Default signed integer.
    pub fn sint(&self) -> (r: RuntimeType)
        ensures
            tid(r) == SINT_ID,
            self.wf() ==> self.has(r),
    {
        RuntimeType { id: SINT_ID }
    }

    /// Default unsigned integer.
    pub fn uint(&self) -> (r: RuntimeType)
        ensures
            tid(r) == UINT_ID,
            self.wf() ==> self.has(r),
    {
        RuntimeType { id: UINT_ID }
    }

    /// The invalid type made from the none type.
    pub fn invalid(&mut self) -> (r: RuntimeType)
        requires
            old(self).wf(),
        ensures
            final(self).wf(),
            final(self).extends(old(self)),
            final(self).has(r),
            final(self).kinds()[tid(r)] == TypeKind::Invalid(RuntimeType::spec_of(NONE_ID)),
            old(self).spec_invalid_memo().contains_key(TypeKey::Type(RuntimeType::spec_of(NONE_ID))) ==> r
                == old(self).spec_invalid_memo()[TypeKey::Type(RuntimeType::spec_of(NONE_ID))],
            invalid_kept(*old(self), *final(self)),
    {
        let none = self.none();
        assert(none == RuntimeType::spec_of(NONE_ID));
        none.to_invalid(self)
    }

    /// Add a type, except that the none and unknown types are never added
    /// again: their predefined types are returned.
    pub fn store(&mut self, data: RuntimeTypeData) -> (r: RuntimeType)
        requires
            old(self).wf(),
            kind_ok(old(self).kinds().push(data.spec_kind()), old(self).kinds().len() as int),
        ensures
            final(self).wf(),
            final(self).extends(old(self)),
            final(self).has(r),
            data.spec_kind() is Nothing ==> tid(r) == NONE_ID && final(self).kinds() == old(self).kinds(),
            data.spec_kind() is Unknown ==> tid(r) == UNKNOWN_ID && final(self).kinds() == old(self).kinds(),
            !(data.spec_kind() is Nothing) && !(data.spec_kind() is Unknown) ==> tid(r) == old(self).kinds().len()
                && final(self).kinds() == old(self).kinds().push(data.spec_kind()),
            final(self).spec_invalid_memo() == old(self).spec_invalid_memo(),
            final(self).spec_builtin_memo() == old(self).spec_builtin_memo(),
            final(self).spec_sum_types_memo() == old(self).spec_sum_types_memo(),
    {
        match data.kind {
            TypeKind::Nothing => RuntimeType { id: NONE_ID },
            TypeKind::Unknown => RuntimeType { id: UNKNOWN_ID },
            _ => {
                let ghost old_kinds = self.kinds();
                let id = self.data.len();
                self.data.push(data);
                proof {
                    assert(self.kinds() =~= old_kinds.push(data.kind));
                    lemma_extend_kinds(old_kinds, self.kinds());
                    assert forall|i: int| 0 <= i < self.kinds().len() implies #[trigger] kind_ok(self.kinds(), i) by {
                        if i < old_kinds.len() {
                            assert(kind_ok(old_kinds, i));
                        }
                    }
                    self.lemma_memo_extend(old_kinds);
                }
                RuntimeType { id }
            },
        }
    }

    proof fn lemma_memo_extend(&self, old_kinds: Seq<TypeKind>)
        requires
            old_kinds.len() <= self.kinds().len(),
            forall|i: int| 0 <= i < old_kinds.len() ==> #[trigger] self.kinds()[i] == old_kinds[i],
            forall|k: TypeKey| #[trigger] self.sum_types.view().contains_key(k) ==> ({
                let r = self.sum_types.view()[k];
                &&& k matches TypeKey::Pair(a, b)
                &&& 0 <= tid(a) < old_kinds.len()
                &&& 0 <= tid(b) < old_kinds.len()
                &&& !(old_kinds[tid(a)] is Invalid)
                &&& !(old_kinds[tid(b)] is Invalid)
                &&& 0 <= tid(r) < old_kinds.len()
                &&& !(old_kinds[tid(r)] is Invalid)
                &&& sum_rule(old_kinds, a, b, r)
            }),
        ensures
            forall|k: TypeKey| #[trigger] self.sum_types.view().contains_key(k) ==> ({
                let r = self.sum_types.view()[k];
                &&& k matches TypeKey::Pair(a, b)
                &&& 0 <= tid(a) < self.kinds().len()
                &&& 0 <= tid(b) < self.kinds().len()
                &&& !(self.kinds()[tid(a)] is Invalid)
                &&& !(self.kinds()[tid(b)] is Invalid)
                &&& 0 <= tid(r) < self.kinds().len()
                &&& !(self.kinds()[tid(r)] is Invalid)
                &&& sum_rule(self.kinds(), a, b, r)
            }),
    {
        assert forall|k: TypeKey| #[trigger] self.sum_types.view().contains_key(k) implies ({
            let r = self.sum_types.view()[k];
            &&& k matches TypeKey::Pair(a, b)
            &&& 0 <= tid(a) < self.kinds().len()
            &&& 0 <= tid(b) < self.kinds().len()
            &&& !(self.kinds()[tid(a)] is Invalid)
            &&& !(self.kinds()[tid(b)] is Invalid)
            &&& 0 <= tid(r) < self.kinds().len()
            &&& !(self.kinds()[tid(r)] is Invalid)
            &&& sum_rule(self.kinds(), a, b, r)
        }) by {
            let r = self.sum_types.view()[k];
            if let TypeKey::Pair(a, b) = k {
                lemma_contains_extend(old_kinds, self.kinds(), tid(a), tid(b));
                lemma_contains_extend(old_kinds, self.kinds(), tid(b), tid(a));
            }
        }
    }
}

impl RuntimeType {
    pub open spec fn spec_of(id: usize) -> RuntimeType {
        runtime_type_of(id)
    }
}

pub closed spec fn runtime_type_of(id: usize) -> RuntimeType {
    RuntimeType { id }
}

pub proof fn lemma_runtime_type_of(id: usize)
    ensures
        tid(runtime_type_of(id)) == id,
{
}

/// Adding types does not change which earlier types contain each other.
pub proof fn lemma_contains_extend(a: Seq<TypeKind>, b: Seq<TypeKind>, x: int, y: int)
    requires
        a.len() <= b.len(),
        forall|i: int| 0 <= i < a.len() ==> #[trigger] b[i] == a[i],
        0 <= x < a.len(),
        0 <= y < a.len(),
    ensures
        spec_contains(a, x, y) == spec_contains(b, x, y),
    decreases x + y,
{
    if x != y && !(a[y] is Never || a[y] is Nothing) {
        if a[y] is Invalid {
            let v = tid(a[y]->Invalid_0);
            if 0 <= v < y {
                lemma_contains_extend(a, b, x, v);
            }
        } else {
            match a[x] {
                TypeKind::Invalid(inner) => {
                    if 0 <= tid(inner) < x {
                        lemma_contains_extend(a, b, tid(inner), y);
                    }
                },
                TypeKind::Sum(p, q) => {
                    if 0 <= tid(p) < x && 0 <= tid(q) < x {
                        lemma_contains_extend(a, b, tid(p), y);
                        lemma_contains_extend(a, b, tid(q), y);
                    }
                },
                _ => {},
            }
        }
    }
}

/// Adding types does not change the order of earlier types.
pub proof fn lemma_cmp_extend(a: Seq<TypeKind>, b: Seq<TypeKind>, x: int, y: int)
    requires
        a.len() <= b.len(),
        forall|i: int| 0 <= i < a.len() ==> #[trigger] b[i] == a[i],
        0 <= x < a.len(),
        0 <= y < a.len(),
    ensures
        spec_type_cmp(a, x, y) == spec_type_cmp(b, x, y),
    decreases x + y,
{
    match (a[x], a[y]) {
        (TypeKind::Invalid(p), TypeKind::Invalid(q)) => {
            if 0 <= tid(p) < x && 0 <= tid(q) < y {
                lemma_cmp_extend(a, b, tid(p), tid(q));
            }
        },
        (TypeKind::Sum(a1, b1), TypeKind::Sum(a2, b2)) => {
            if 0 <= tid(a1) < x && 0 <= tid(b1) < x && 0 <= tid(a2) < y && 0 <= tid(b2) < y {
                lemma_cmp_extend(a, b, tid(a1), tid(a2));
                lemma_cmp_extend(a, b, tid(b1), tid(b2));
            }
        },
        _ => {},
    }
}

pub proof fn lemma_extend_kinds(a: Seq<TypeKind>, b: Seq<TypeKind>)
    requires
        a.len() <= b.len(),
        forall|i: int| 0 <= i < a.len() ==> #[trigger] b[i] == a[i],
    ensures
        forall|x: int, y: int|
            0 <= x < a.len() && 0 <= y < a.len() ==> #[trigger] spec_contains(b, x, y) == spec_contains(a, x, y),
        forall|x: int, y: int|
            0 <= x < a.len() && 0 <= y < a.len() ==> #[trigger] spec_type_cmp(b, x, y) == spec_type_cmp(a, x, y),
{
    assert forall|x: int, y: int| 0 <= x < a.len() && 0 <= y < a.len() implies #[trigger] spec_contains(b, x, y)
        == spec_contains(a, x, y) by {
        lemma_contains_extend(a, b, x, y);
    }
    assert forall|x: int, y: int| 0 <= x < a.len() && 0 <= y < a.len() implies #[trigger] spec_type_cmp(b, x, y)
        == spec_type_cmp(a, x, y) by {
        lemma_cmp_extend(a, b, x, y);
    }
}

/// The type context of a runtime.
pub type TypeContext = RuntimeTypeContext;

impl RuntimeTypeContext {
    /// Definition of a builtin primitive type.
    pub fn from_primitive(&self, typ: Primitive) -> (r: RuntimeTypeData)
        ensures
            r.spec_kind() == TypeKind::Builtin(typ),
    {
        RuntimeTypeData { kind: TypeKind::Builtin(typ) }
    }

    /// The builtin type of a primitive: the predefined type for booleans,
    /// strings and 64-bit integers, and one type per other primitive.
    pub fn builtin(&mut self, typ: Primitive) -> (r: RuntimeType)
        requires
            old(self).wf(),
        ensures
            final(self).wf(),
            final(self).extends(old(self)),
            final(self).has(r),
            final(self).kinds()[tid(r)] == TypeKind::Builtin(typ),
            typ == Primitive::Bool ==> tid(r) == BOOL_ID,
            typ == Primitive::String ==> tid(r) == STR_ID,
            typ == Primitive::SInt(64) ==> tid(r) == SINT_ID,
            typ == Primitive::UInt(64) ==> tid(r) == UINT_ID,
            old(self).spec_builtin_memo().contains_key(TypeKey::Prim(typ)) ==> r == old(self).spec_builtin_memo()[TypeKey::Prim(
                typ,
            )],
            memo_builtin(*final(self), typ) == Some(r),
            memo_builtin(*old(self), typ) matches Some(m) ==> r == m,
            forall|k: TypeKey| #[trigger]
                old(self).spec_builtin_memo().contains_key(k) ==> final(self).spec_builtin_memo().contains_key(k)
                    && final(self).spec_builtin_memo()[k] == old(self).spec_builtin_memo()[k],
            final(self).spec_sum_types_memo() == old(self).spec_sum_types_memo(),
            final(self).spec_invalid_memo() == old(self).spec_invalid_memo(),
    {
        match typ {
            Primitive::Bool => return self.bool(),
            Primitive::String => return self.str(),
            Primitive::SInt(64) => return self.sint(),
            Primitive::UInt(64) => return self.uint(),
            _ => {},
        }
        let key = TypeKey::Prim(typ);
        if let Some(t) = self.builtin.get(&key) {
            return t;
        }
        let data = self.from_primitive(typ);
        let t = self.store(data);
        let ghost old_kinds = self.kinds();
        self.builtin.insert(key, t);
        assert forall|k: TypeKey| #[trigger] self.builtin.view().contains_key(k) implies ({
            let r = self.builtin.view()[k];
            &&& k matches TypeKey::Prim(p)
            &&& p != Primitive::Bool && p != Primitive::String && p != Primitive::SInt(64) && p != Primitive::UInt(64)
            &&& 0 <= tid(r) < self.kinds().len()
            &&& self.kinds()[tid(r)] == TypeKind::Builtin(p)
        }) by {
            if k != key {
                assert(old(self).spec_builtin_memo().contains_key(k));
            }
        }
        t
    }
}

impl RuntimeType {
    /// Index of the type in its context.
    pub fn id(&self) -> (r: usize)
        ensures
            r == tid(*self),
    {
        self.id
    }

    /// Is this the none type?
    pub fn is_none(self) -> (r: bool)
        ensures
            r == (tid(self) == NONE_ID),
    {
        self.id == NONE_ID
    }

    /// Is this the unknown type?
    pub fn is_unknown(self) -> (r: bool)
        ensures
            r == (tid(self) == UNKNOWN_ID),
    {
        self.id == UNKNOWN_ID
    }

    /// Is this type an invalid type?
    pub fn is_invalid(self, types: &RuntimeTypeContext) -> (r: bool)
        requires
            types.has(self),
        ensures
            r == (types.kinds()[tid(self)] is Invalid),
    {
        match types.data[self.id].kind {
            TypeKind::Invalid(_) => true,
            _ => false,
        }
    }

    /// Is this type valid?
    pub fn is_valid(self, types: &RuntimeTypeContext) -> (r: bool)
        requires
            types.has(self),
        ensures
            r == !(types.kinds()[tid(self)] is Invalid),
    {
        !self.is_invalid(types)
    }

    /// A proper type is not none, unknown, or invalid.
    pub fn is_proper(self, types: &RuntimeTypeContext) -> (r: bool)
        requires
            types.has(self),
        ensures
            r == !(tid(self) == NONE_ID || types.kinds()[tid(self)] is Invalid || tid(self) == UNKNOWN_ID),
    {
        !(self.is_none() || self.is_invalid(types) || self.is_unknown())
    }

    /// The valid type an invalid type was made from, or the type itself.
    pub fn get_valid(self, types: &RuntimeTypeContext) -> (r: RuntimeType)
        requires
            types.wf(),
            types.has(self),
        ensures
            types.has(r),
            !(types.kinds()[tid(r)] is Invalid),
            types.kinds()[tid(self)] matches TypeKind::Invalid(t) ==> r == t,
            !(types.kinds()[tid(self)] is Invalid) ==> r == self,
    {
        proof {
            assert(kind_ok(types.kinds(), tid(self)));
        }
        match types.data[self.id].kind {
            TypeKind::Invalid(t) => t,
            _ => self,
        }
    }

    /// The invalid type made from this type; an invalid type is returned as
    /// it is. The same valid type always gives the same invalid type.
    pub fn to_invalid(self, types: &mut RuntimeTypeContext) -> (r: RuntimeType)
        requires
            old(types).wf(),
            old(types).has(self),
        ensures
            final(types).wf(),
            final(types).extends(old(types)),
            final(types).has(r),
            old(types).kinds()[tid(self)] is Invalid ==> r == self && final(types).kinds() == old(types).kinds(),
            !(old(types).kinds()[tid(self)] is Invalid) ==> final(types).kinds()[tid(r)] == TypeKind::Invalid(self),
            old(types).spec_invalid_memo().contains_key(TypeKey::Type(self)) ==> r == old(types).spec_invalid_memo()[TypeKey::Type(
                self,
            )] && final(types).kinds() == old(types).kinds(),
            final(types).spec_sum_types_memo() == old(types).spec_sum_types_memo(),
            final(types).spec_builtin_memo() == old(types).spec_builtin_memo(),
            final(types).spec_invalid_memo().contains_key(TypeKey::Type(self)) || old(types).kinds()[tid(self)] is Invalid,
            !(old(types).kinds()[tid(self)] is Invalid) ==> final(types).spec_invalid_memo()[TypeKey::Type(self)] == r,
            invalid_kept(*old(types), *final(types)),
    {
        if self.is_invalid(types) {
            return self;
        }
        let key = TypeKey::Type(self);
        if let Some(t) = types.invalid.get(&key) {
            return t;
        }
        let t = types.store(RuntimeTypeData { kind: TypeKind::Invalid(self) });
        let ghost mid = types.kinds();
        types.invalid.insert(key, t);
        assert forall|k: TypeKey| #[trigger] types.invalid.view().contains_key(k) implies ({
            let r = types.invalid.view()[k];
            &&& k matches TypeKey::Type(u)
            &&& 0 <= tid(u) < types.kinds().len()
            &&& !(types.kinds()[tid(u)] is Invalid)
            &&& 0 <= tid(r) < types.kinds().len()
            &&& types.kinds()[tid(r)] == TypeKind::Invalid(u)
        }) by {
            if k != key {
                assert(old(types).spec_invalid_memo().contains_key(k));
            }
        }
        t
    }

    /// A new type with the same definition, equal only to itself; the none and
    /// unknown types have a single instance and are returned as they are.
    pub fn to_unique(self, types: &mut RuntimeTypeContext) -> (r: RuntimeType)
        requires
            old(types).wf(),
            old(types).has(self),
        ensures
            final(types).wf(),
            final(types).extends(old(types)),
            final(types).has(r),
            final(types).kinds()[tid(r)] == old(types).kinds()[tid(self)],
            tid(self) == NONE_ID ==> r == self,
            tid(self) == UNKNOWN_ID ==> r == self,
            !(old(types).kinds()[tid(self)] is Nothing) && !(old(types).kinds()[tid(self)] is Unknown) ==> tid(r)
                == old(types).kinds().len(),
            final(types).spec_invalid_memo() == old(types).spec_invalid_memo(),
    {
        let data = types.data[self.id];
        proof {
            assert(kind_ok(types.kinds(), tid(self)));
            assert(kind_ok(types.kinds().push(data.kind), types.kinds().len() as int));
            if tid(self) >= BASE_TYPES {
            } else {
                assert(types.kinds()[tid(self)] == base_kinds()[tid(self)]);
            }
        }
        types.store(data)
    }

    /// Does this type contain every value of `other`?
    pub fn contains(self, other: RuntimeType, types: &RuntimeTypeContext) -> (r: bool)
        requires
            types.wf(),
            types.has(self),
            types.has(other),
        ensures
            r == spec_contains(types.kinds(), tid(self), tid(other)),
        decreases tid(self) + tid(other),
    {
        proof {
            assert(kind_ok(types.kinds(), tid(self)));
            assert(kind_ok(types.kinds(), tid(other)));
        }
        if self.id == other.id {
            return true;
        }
        match types.data[other.id].kind {
            TypeKind::Never | TypeKind::Nothing => return true,
            TypeKind::Invalid(v) => return self.contains(v, types),
            _ => {},
        }
        match types.data[self.id].kind {
            TypeKind::Unit => false,
            TypeKind::Nothing => false,
            TypeKind::Never => false,
            TypeKind::Any => true,
            TypeKind::Builtin(_) => false,
            TypeKind::Unknown => true,
            TypeKind::Invalid(inner) => inner.is_none() || inner.contains(other, types),
            TypeKind::Sum(a, b) => a.contains(other, types) || b.contains(other, types),
        }
    }

    /// Compare two types by definition: `-1`, `0` or `1`.
    pub fn compare(self, other: RuntimeType, types: &RuntimeTypeContext) -> (r: i8)
        requires
            types.wf(),
            types.has(self),
            types.has(other),
        ensures
            r == spec_type_cmp(types.kinds(), tid(self), tid(other)),
        decreases tid(self) + tid(other),
    {
        proof {
            assert(kind_ok(types.kinds(), tid(self)));
            assert(kind_ok(types.kinds(), tid(other)));
        }
        let ka = types.data[self.id].kind;
        let kb = types.data[other.id].kind;
        let (ra, rb) = (ka.rank(), kb.rank());
        if ra < rb {
            return -1;
        }
        if ra > rb {
            return 1;
        }
        match (ka, kb) {
            (TypeKind::Invalid(a), TypeKind::Invalid(b)) => a.compare(b, types),
            (TypeKind::Builtin(p), TypeKind::Builtin(q)) => p.compare(q),
            (TypeKind::Sum(a1, b1), TypeKind::Sum(a2, b2)) => {
                let c = a1.compare(a2, types);
                if c != 0 {
                    c
                } else {
                    b1.compare(b2, types)
                }
            },
            _ => 0,
        }
    }

    /// Can a value of this type be used as a boolean? Builtin types other
    /// than booleans, strings and integers have no such rule yet.
    pub fn is_valid_bool(self, types: &RuntimeTypeContext) -> (r: bool)
        requires
            types.wf(),
            types.has(self),
            spec_bool_defined(types.kinds(), tid(self)),
        ensures
            r == spec_valid_bool(types.kinds(), tid(self)),
        decreases tid(self),
    {
        proof {
            assert(kind_ok(types.kinds(), tid(self)));
        }
        match types.data[self.id].kind {
            TypeKind::Nothing => false,
            TypeKind::Unit => true,
            TypeKind::Never => true,
            TypeKind::Any => false,
            TypeKind::Unknown => false,
            TypeKind::Invalid(_) => false,
            TypeKind::Builtin(_) => true,
            TypeKind::Sum(a, b) => a.is_valid_bool(types) && b.is_valid_bool(types),
        }
    }
}

impl RuntimeType {
    /// The sum of this type with `other`: a type containing both. A sum with
    /// an invalid operand is the invalid type of the sum of the valid types.
    /// The same operands always give the same sum.
    pub fn sum(self, other: RuntimeType, types: &mut RuntimeTypeContext) -> (r: RuntimeType)
        requires
            old(types).wf(),
            old(types).has(self),
            old(types).has(other),
        ensures
            final(types).wf(),
            final(types).extends(old(types)),
            final(types).has(r),
            sum_spec(final(types).kinds(), self, other, r),
            memo_sum(*final(types), self, other) == Some(r),
            memo_sum(*old(types), self, other) matches Some(m) ==> r == m,
            invalid_kept(*old(types), *final(types)),
    {
        if self.is_invalid(types) || other.is_invalid(types) {
            let va = self.get_valid(types);
            let vb = other.get_valid(types);
            let ghost k0 = types.kinds();
            let s = va.sum_valid(vb, types);
            let ghost k1 = types.kinds();
            let r = s.to_invalid(types);
            proof {
                lemma_extend_kinds(k1, types.kinds());
                lemma_extend_kinds(k0, types.kinds());
                assert(kind_ok(k0, tid(self)));
                assert(kind_ok(k0, tid(other)));
                let k2 = types.kinds();
                assert(valid_of(k2, self) == va);
                assert(valid_of(k2, other) == vb);
                assert(spec_type_cmp(k2, tid(va), tid(vb)) == spec_type_cmp(k0, tid(va), tid(vb)));
                assert(sum_order(k2, va, vb) == sum_order(k0, va, vb));
            }
            r
        } else {
            let ghost k0 = types.kinds();
            let r = self.sum_valid(other, types);
            proof {
                lemma_extend_kinds(k0, types.kinds());
                assert(spec_type_cmp(types.kinds(), tid(self), tid(other)) == spec_type_cmp(k0, tid(self), tid(other)));
                assert(sum_order(types.kinds(), self, other) == sum_order(k0, self, other));
            }
            r
        }
    }

    fn sum_valid(self, other: RuntimeType, types: &mut RuntimeTypeContext) -> (r: RuntimeType)
        requires
            old(types).wf(),
            old(types).has(self),
            old(types).has(other),
            !(old(types).kinds()[tid(self)] is Invalid),
            !(old(types).kinds()[tid(other)] is Invalid),
        ensures
            final(types).wf(),
            final(types).extends(old(types)),
            final(types).has(r),
            !(final(types).kinds()[tid(r)] is Invalid),
            sum_rule(
                final(types).kinds(),
                sum_order(final(types).kinds(), self, other).0,
                sum_order(final(types).kinds(), self, other).1,
                r,
            ),
            ({
                let o = sum_order(old(types).kinds(), self, other);
                let key = TypeKey::Pair(o.0, o.1);
                &&& final(types).spec_sum_types_memo().contains_key(key)
                &&& final(types).spec_sum_types_memo()[key] == r
                &&& old(types).spec_sum_types_memo().contains_key(key) ==> r == old(
                    types,
                ).spec_sum_types_memo()[key]
            }),
            forall|k: TypeKey| #[trigger]
                old(types).spec_sum_types_memo().contains_key(k) ==> final(types).spec_sum_types_memo().contains_key(k)
                    && final(types).spec_sum_types_memo()[k] == old(types).spec_sum_types_memo()[k],
            final(types).spec_invalid_memo() == old(types).spec_invalid_memo(),
            final(types).spec_builtin_memo() == old(types).spec_builtin_memo(),
    {
        let ghost k0 = types.kinds();
        let c = self.compare(other, types);
        let (a, b) = if c < 0 { (self, other) } else { (other, self) };
        let key = TypeKey::Pair(a, b);
        if let Some(t) = types.sum_types.get(&key) {
            return t;
        }
        let t = if a.is_unknown() || a.is_none() {
            b
        } else if b.is_unknown() || b.is_none() {
            a
        } else if a.contains(b, types) {
            a
        } else if b.contains(a, types) {
            b
        } else {
            types.store(RuntimeTypeData { kind: TypeKind::Sum(a, b) })
        };
        proof {
            lemma_extend_kinds(k0, types.kinds());
            assert(sum_rule(types.kinds(), a, b, t));
        }
        types.sum_types.insert(key, t);
        proof {
            assert forall|k: TypeKey| #[trigger] types.sum_types.view().contains_key(k) implies ({
                let r = types.sum_types.view()[k];
                &&& k matches TypeKey::Pair(a, b)
                &&& 0 <= tid(a) < types.kinds().len()
                &&& 0 <= tid(b) < types.kinds().len()
                &&& !(types.kinds()[tid(a)] is Invalid)
                &&& !(types.kinds()[tid(b)] is Invalid)
                &&& 0 <= tid(r) < types.kinds().len()
                &&& !(types.kinds()[tid(r)] is Invalid)
                &&& sum_rule(types.kinds(), a, b, r)
            }) by {
                if k != key {
                    assert(old(types).sum_types.view().contains_key(k));
                    if let TypeKey::Pair(x, y) = k {
                        lemma_contains_extend(k0, types.kinds(), tid(x), tid(y));
                        lemma_contains_extend(k0, types.kinds(), tid(y), tid(x));
                    }
                }
            }
        }
        t
    }
}

/// The type of the primitive `typ` in the context, if it is known: the base
/// types for booleans, strings and 64-bit integers, else the type recorded
/// when it was first made.
pub open spec fn memo_builtin(t: RuntimeTypeContext, typ: Primitive) -> Option<RuntimeType> {
    match typ {
        Primitive::Bool => Some(RuntimeType::spec_of(BOOL_ID)),
        Primitive::String => Some(RuntimeType::spec_of(STR_ID)),
        Primitive::SInt(64) => Some(RuntimeType::spec_of(SINT_ID)),
        Primitive::UInt(64) => Some(RuntimeType::spec_of(UINT_ID)),
        _ => if t.spec_builtin_memo().contains_key(TypeKey::Prim(typ)) {
            Some(t.spec_builtin_memo()[TypeKey::Prim(typ)])
        } else {
            None
        },
    }
}

/// Asking again for the type of a primitive gives the same type, in a
/// later context that keeps the recorded primitive types.
pub proof fn lemma_builtin_repeats(t1: RuntimeTypeContext, t2: RuntimeTypeContext, typ: Primitive, r1: RuntimeType)
    requires
        memo_builtin(t1, typ) == Some(r1),
        forall|k: TypeKey| #[trigger]
            t1.spec_builtin_memo().contains_key(k) ==> t2.spec_builtin_memo().contains_key(k)
                && t2.spec_builtin_memo()[k] == t1.spec_builtin_memo()[k],
    ensures
        memo_builtin(t2, typ) == Some(r1),
{
}

/// The sum of `x` and `y` recorded by the context, if it was computed: for
/// valid operands, the sum of the ordered pair; otherwise the invalid type
/// made from the sum of their valid types.
pub open spec fn memo_sum(t: RuntimeTypeContext, x: RuntimeType, y: RuntimeType) -> Option<RuntimeType> {
    let k = t.kinds();
    let sums = t.spec_sum_types_memo();
    if !(k[tid(x)] is Invalid) && !(k[tid(y)] is Invalid) {
        let o = sum_order(k, x, y);
        if sums.contains_key(TypeKey::Pair(o.0, o.1)) {
            Some(sums[TypeKey::Pair(o.0, o.1)])
        } else {
            None
        }
    } else {
        let o = sum_order(k, valid_of(k, x), valid_of(k, y));
        if sums.contains_key(TypeKey::Pair(o.0, o.1)) {
            let s = sums[TypeKey::Pair(o.0, o.1)];
            if t.spec_invalid_memo().contains_key(TypeKey::Type(s)) {
                Some(t.spec_invalid_memo()[TypeKey::Type(s)])
            } else {
                None
            }
        } else {
            None
        }
    }
}

/// The valid type of `t`: the type it invalidates, or `t` itself.
pub open spec fn valid_of(kinds: Seq<TypeKind>, t: RuntimeType) -> RuntimeType {
    match kinds[tid(t)] {
        TypeKind::Invalid(v) => v,
        _ => t,
    }
}

/// Every type contains itself, and the any type contains every type.
pub proof fn lemma_contains_reflexive(types: &RuntimeTypeContext, x: RuntimeType, y: RuntimeType)
    requires
        types.wf(),
        types.has(x),
        types.has(y),
    ensures
        spec_contains(types.kinds(), tid(x), tid(x)),
        !(types.kinds()[tid(y)] is Invalid) ==> spec_contains(types.kinds(), ANY_ID as int, tid(y)),
{
    assert(types.kinds()[ANY_ID as int] == base_kinds()[ANY_ID as int]);
}

/// Laws of containment: a type contains itself, the none and never types;
/// the any type contains every type; the boolean and the signed integer
/// types do not contain one another; and a sum `s` of `a` and `b` contains a
/// valid type `u` other than itself exactly when `a` or `b` does.
pub proof fn lemma_contains_laws(types: &RuntimeTypeContext, t: RuntimeType, u: RuntimeType)
    requires
        types.wf(),
        types.has(t),
        types.has(u),
    ensures
        spec_contains(types.kinds(), tid(t), tid(t)),
        spec_contains(types.kinds(), tid(t), NONE_ID as int),
        spec_contains(types.kinds(), tid(t), NEVER_ID as int),
        spec_contains(types.kinds(), ANY_ID as int, tid(u)),
        !spec_contains(types.kinds(), BOOL_ID as int, SINT_ID as int),
        !spec_contains(types.kinds(), SINT_ID as int, BOOL_ID as int),
        types.kinds()[tid(t)] matches TypeKind::Sum(a, b) ==> (tid(u) != tid(t) && !(types.kinds()[tid(u)] is Invalid)
            ==> (spec_contains(types.kinds(), tid(t), tid(u)) <==> spec_contains(types.kinds(), tid(a), tid(u))
            || spec_contains(types.kinds(), tid(b), tid(u)))),
{
    let k = types.kinds();
    lemma_wf_kinds(types);
    assert(k[NONE_ID as int] == base_kinds()[NONE_ID as int]);
    assert(k[NEVER_ID as int] == base_kinds()[NEVER_ID as int]);
    assert(k[ANY_ID as int] == base_kinds()[ANY_ID as int]);
    assert(k[BOOL_ID as int] == base_kinds()[BOOL_ID as int]);
    assert(k[SINT_ID as int] == base_kinds()[SINT_ID as int]);
    assert(kind_ok(k, tid(u)));
    assert(kind_ok(k, tid(t)));
    if let TypeKind::Invalid(v) = k[tid(u)] {
        assert(kind_ok(k, tid(v)));
        assert(spec_contains(k, ANY_ID as int, tid(v)));
    }
}

/// Laws of sums: a valid type other than the unknown type is the sum of
/// itself and the none type, either way round; any valid type is the sum of
/// itself with itself; and a sum with an invalid operand is invalid.
pub proof fn lemma_sum_laws(types: &RuntimeTypeContext, a: RuntimeType, b: RuntimeType, r: RuntimeType)
    requires
        types.wf(),
        types.has(a),
        types.has(b),
    ensures
        !(types.kinds()[tid(a)] is Invalid) && tid(a) != UNKNOWN_ID && sum_spec(types.kinds(), a, RuntimeType::spec_of(NONE_ID), r)
            ==> r == a,
        !(types.kinds()[tid(a)] is Invalid) && tid(a) != UNKNOWN_ID && sum_spec(types.kinds(), RuntimeType::spec_of(NONE_ID), a, r)
            ==> r == a,
        !(types.kinds()[tid(a)] is Invalid) && sum_spec(types.kinds(), a, a, r) ==> r == a,
        ((types.kinds()[tid(a)] is Invalid) || (types.kinds()[tid(b)] is Invalid)) && sum_spec(types.kinds(), a, b, r)
            ==> types.kinds()[tid(r)] is Invalid,
{
    let k = types.kinds();
    let n = RuntimeType::spec_of(NONE_ID);
    lemma_runtime_type_of(NONE_ID);
    lemma_wf_kinds(types);
    assert(k[NONE_ID as int] == base_kinds()[NONE_ID as int]);
    assert(spec_contains(k, tid(a), tid(a)));
}

/// The sum of two proper types contains both of them.
pub proof fn lemma_sum_contains_operands(types: &RuntimeTypeContext, x: RuntimeType, y: RuntimeType, r: RuntimeType)
    requires
        types.wf(),
        types.has(x),
        types.has(y),
        types.has(r),
        tid(x) != NONE_ID && tid(x) != UNKNOWN_ID && !(types.kinds()[tid(x)] is Invalid),
        tid(y) != NONE_ID && tid(y) != UNKNOWN_ID && !(types.kinds()[tid(y)] is Invalid),
        sum_rule(types.kinds(), sum_order(types.kinds(), x, y).0, sum_order(types.kinds(), x, y).1, r),
    ensures
        spec_contains(types.kinds(), tid(r), tid(x)),
        spec_contains(types.kinds(), tid(r), tid(y)),
{
    let k = types.kinds();
    let (a, b) = sum_order(k, x, y);
    if spec_contains(k, tid(a), tid(b)) {
    } else if spec_contains(k, tid(b), tid(a)) {
    } else {
        assert(kind_ok(k, tid(r)));
        assert(spec_contains(k, tid(a), tid(a)));
        assert(spec_contains(k, tid(b), tid(b)));
        if tid(r) != tid(x) {
            assert(!(k[tid(x)] is Never) ==> spec_contains(k, tid(r), tid(x)));
        }
        if tid(r) != tid(y) {
            assert(!(k[tid(y)] is Never) ==> spec_contains(k, tid(r), tid(y)));
        }
    }
}

/// `r` is a sum of `x` and `y`: for valid operands, the sum of the rule; for
/// an invalid operand, the invalid type of the sum of the valid types.
pub open spec fn sum_spec(k: Seq<TypeKind>, x: RuntimeType, y: RuntimeType, r: RuntimeType) -> bool {
    &&& 0 <= tid(r) < k.len()
    &&& if !(k[tid(x)] is Invalid) && !(k[tid(y)] is Invalid) {
        sum_rule(k, sum_order(k, x, y).0, sum_order(k, x, y).1, r)
    } else {
        let va = valid_of(k, x);
        let vb = valid_of(k, y);
        k[tid(r)] matches TypeKind::Invalid(s) && sum_rule(k, sum_order(k, va, vb).0, sum_order(k, va, vb).1, s)
    }
}

/// A sum stays a sum when types are added.
pub proof fn lemma_sum_spec_extend(a: Seq<TypeKind>, b: Seq<TypeKind>, x: RuntimeType, y: RuntimeType, r: RuntimeType)
    requires
        a.len() <= b.len(),
        forall|i: int| 0 <= i < a.len() ==> #[trigger] b[i] == a[i],
        0 <= tid(x) < a.len(),
        0 <= tid(y) < a.len(),
        forall|i: int| 0 <= i < a.len() ==> #[trigger] kind_ok(a, i),
        sum_spec(a, x, y, r),
    ensures
        sum_spec(b, x, y, r),
{
    lemma_extend_kinds(a, b);
    assert(kind_ok(a, tid(x)));
    assert(kind_ok(a, tid(y)));
}

/// Facts of a well-formed context: every entry refers to earlier valid
/// entries, and the predefined types come first.
pub proof fn lemma_wf_kinds(types: &RuntimeTypeContext)
    requires
        types.wf(),
    ensures
        forall|i: int| 0 <= i < types.kinds().len() ==> #[trigger] kind_ok(types.kinds(), i),
        types.kinds().len() >= BASE_TYPES,
        forall|i: int| 0 <= i < BASE_TYPES ==> #[trigger] types.kinds()[i] == base_kinds()[i],
{
}
/// Comparing two types the other way round gives the opposite order.
pub proof fn lemma_type_cmp_antisymmetric(k: Seq<TypeKind>, x: int, y: int)
    ensures
        spec_type_cmp(k, x, y) == -spec_type_cmp(k, y, x),
    decreases x + y,
{
    if 0 <= x < k.len() && 0 <= y < k.len() && k[x].spec_rank() == k[y].spec_rank() {
        match (k[x], k[y]) {
            (TypeKind::Invalid(a), TypeKind::Invalid(b)) => {
                if 0 <= tid(a) < x && 0 <= tid(b) < y {
                    lemma_type_cmp_antisymmetric(k, tid(a), tid(b));
                }
            },
            (TypeKind::Sum(a1, b1), TypeKind::Sum(a2, b2)) => {
                if 0 <= tid(a1) < x && 0 <= tid(b1) < x && 0 <= tid(a2) < y && 0 <= tid(b2) < y {
                    lemma_type_cmp_antisymmetric(k, tid(a1), tid(a2));
                    lemma_type_cmp_antisymmetric(k, tid(b1), tid(b2));
                }
            },
            _ => {},
        }
    }
}

/// The sum does not depend on the order of its operands, when the operands
/// (and their valid types) are not ordered the same.
pub proof fn lemma_sum_commutative(k: Seq<TypeKind>, x: RuntimeType, y: RuntimeType, r: RuntimeType)
    requires
        0 <= tid(x) < k.len(),
        0 <= tid(y) < k.len(),
        spec_type_cmp(k, tid(x), tid(y)) != 0,
        spec_type_cmp(k, tid(valid_of(k, x)), tid(valid_of(k, y))) != 0,
    ensures
        sum_spec(k, x, y, r) == sum_spec(k, y, x, r),
{
    lemma_type_cmp_antisymmetric(k, tid(x), tid(y));
    lemma_type_cmp_antisymmetric(k, tid(valid_of(k, x)), tid(valid_of(k, y)));
    assert(sum_order(k, x, y) == sum_order(k, y, x));
    assert(sum_order(k, valid_of(k, x), valid_of(k, y)) == sum_order(k, valid_of(k, y), valid_of(k, x)));
}

/// `b` keeps the invalid types recorded in `a`: each key of `a`'s record is
/// in `b`'s, with the same type.
pub open spec fn invalid_kept(a: RuntimeTypeContext, b: RuntimeTypeContext) -> bool {
    forall|k: TypeKey| #[trigger]
        a.spec_invalid_memo().contains_key(k) ==> b.spec_invalid_memo().contains_key(k)
            && b.spec_invalid_memo()[k] == a.spec_invalid_memo()[k]
}

/// The same type always gives the same invalid type: once
/// [`RuntimeType::to_invalid`] has given `r` for the valid type `t` in `t1`,
/// it gives `r` again in any later context `t2` that keeps the invalid types
/// recorded in `t1`, as every operation on a type context does.
pub proof fn lemma_to_invalid_repeats(t1: RuntimeTypeContext, t2: RuntimeTypeContext, t: RuntimeType, r: RuntimeType)
    requires
        t1.spec_invalid_memo()[TypeKey::Type(t)] == r,
        t1.spec_invalid_memo().contains_key(TypeKey::Type(t)),
        invalid_kept(t1, t2),
    ensures
        t2.spec_invalid_memo().contains_key(TypeKey::Type(t)),
        t2.spec_invalid_memo()[TypeKey::Type(t)] == r,
{
}

/// Summing the same two types again gives the same type: once a sum is
/// recorded in `t1`, a later context `t2` that keeps the types and the
/// recorded sums and invalid types of `t1` records the same sum, which
/// [`RuntimeType::sum`] then returns.
pub proof fn lemma_sum_repeats(t1: RuntimeTypeContext, t2: RuntimeTypeContext, x: RuntimeType, y: RuntimeType, r1: RuntimeType)
    requires
        t1.wf(),
        t2.extends(&t1),
        t1.has(x),
        t1.has(y),
        memo_sum(t1, x, y) == Some(r1),
        forall|k: TypeKey| #[trigger]
            t1.spec_sum_types_memo().contains_key(k) ==> t2.spec_sum_types_memo().contains_key(k)
                && t2.spec_sum_types_memo()[k] == t1.spec_sum_types_memo()[k],
        forall|k: TypeKey| #[trigger]
            t1.spec_invalid_memo().contains_key(k) ==> t2.spec_invalid_memo().contains_key(k)
                && t2.spec_invalid_memo()[k] == t1.spec_invalid_memo()[k],
    ensures
        memo_sum(t2, x, y) == Some(r1),
{
    let k1 = t1.kinds();
    let k2 = t2.kinds();
    lemma_wf_kinds(&t1);
    lemma_extend_kinds(k1, k2);
    assert(kind_ok(k1, tid(x)));
    assert(kind_ok(k1, tid(y)));
    assert(valid_of(k2, x) == valid_of(k1, x));
    assert(valid_of(k2, y) == valid_of(k1, y));
    assert(sum_order(k2, x, y) == sum_order(k1, x, y));
    assert(sum_order(k2, valid_of(k2, x), valid_of(k2, y)) == sum_order(k1, valid_of(k1, x), valid_of(k1, y)));
}

} // verus!
