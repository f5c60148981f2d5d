use vstd::prelude::*;
use crate::runtime_types::Primitive;

verus! {

/// Layout of the data of a type.
#[derive(Copy, Clone, Debug, PartialEq, Eq, Structural)]
pub enum DataRepr {
    /// Zero-sized data.
    Empty,
}

/// A type descriptor: an index into a [`TypeTable`]. Two types are equal only
/// when they are the same entry.
#[derive(Copy, Clone, Debug, PartialEq, Eq, Structural)]
pub struct Type {
    id: usize,
}

/// Definition of a [`Type`].
#[derive(Copy, Clone, Debug, PartialEq, Eq, Structural)]
pub enum TypeDef {
    Nothing,
    Unit,
    Never,
    Any,
    Unknown,
    Invalid(Type),
    Builtin(Primitive),
}

/// An entry of a [`TypeTable`]: the definition of a type and the layout of
/// its data, when it has one.
#[derive(Copy, Clone, Debug)]
pub struct TypeData {
    kind: TypeDef,
    repr: Option<DataRepr>,
}

impl TypeData {
    pub closed spec fn spec_kind(&self) -> TypeDef {
        self.kind
    }

    pub closed spec fn spec_repr(&self) -> Option<DataRepr> {
        self.repr
    }

    /// A type definition with its data layout.
    pub fn new(kind: TypeDef, repr: Option<DataRepr>) -> (r: TypeData)
        ensures
            r.spec_kind() == kind,
            r.spec_repr() == repr,
    {
        TypeData { kind, repr }
    }

    /// Add the definition to `table`: the none and unknown types have a
    /// single instance, which is returned for them.
    pub fn store(self, table: &mut TypeTable) -> (r: Type)
        requires
            old(table).wf(),
            self.spec_kind() matches TypeDef::Invalid(t) ==> 0 <= t.spec_id() < old(table).defs().len() && !(old(
                table,
            ).defs()[t.spec_id()] is Invalid),
        ensures
            final(table).wf(),
            final(table).extends(old(table)),
            final(table).has(r),
            self.spec_kind() is Nothing ==> r.spec_id() == 0 && final(table).defs() == old(table).defs(),
            self.spec_kind() is Unknown ==> r.spec_id() == 4 && final(table).defs() == old(table).defs(),
            !(self.spec_kind() is Nothing) && !(self.spec_kind() is Unknown) ==> r.spec_id() == old(table).defs().len()
                && final(table).defs() == old(table).defs().push(self.spec_kind()) && final(table).reprs()
                == old(table).reprs().push(self.spec_repr()),
            final(table).spec_invalid_memo() == old(table).spec_invalid_memo(),
    {
        match self.kind {
            TypeDef::Nothing => Type { id: 0 },
            TypeDef::Unknown => Type { id: 4 },
            _ => {
                let ghost old_defs = table.defs();
                let id = table.data.len();
                table.data.push(self);
                assert(table.defs() =~= old_defs.push(self.kind));
                assert(table.reprs() =~= old(table).reprs().push(self.repr));
                assert forall|i: int| 0 <= i < table.defs().len() implies #[trigger] def_ok(table.defs(), i) by {
                    if i < old_defs.len() {
                        assert(def_ok(old_defs, i));
                    }
                }
                Type { id }
            },
        }
    }
}

/// The definitions of the predefined types: none, unit, never, any and
/// unknown, in index order.
pub open spec fn base_defs() -> Seq<TypeDef> {
    seq![TypeDef::Nothing, TypeDef::Unit, TypeDef::Never, TypeDef::Any, TypeDef::Unknown]
}

/// Entry `i` refers only to an earlier valid entry.
pub open spec fn def_ok(defs: Seq<TypeDef>, i: int) -> bool {
    match defs[i] {
        TypeDef::Invalid(t) => 0 <= t.spec_id() < i && !(defs[t.spec_id()] is Invalid),
        _ => true,
    }
}

/// A map from types to the invalid types made from them.
pub struct TypeMap {
    entries: Vec<(Type, Type)>,
}

impl TypeMap {
    pub closed spec fn view(&self) -> Map<Type, Type> {
        Map::new(
            |k: Type| exists|i: int| 0 <= i < self.entries@.len() && #[trigger] self.entries@[i].0 == k,
            |k: Type| self.entries@[choose|i: int| 0 <= i < self.entries@.len() && #[trigger] self.entries@[i].0 == k].1,
        )
    }

    pub closed spec fn wf(&self) -> bool {
        forall|i: int, j: int|
            0 <= i < self.entries@.len() && 0 <= j < self.entries@.len() && #[trigger] self.entries@[i].0
                == #[trigger] self.entries@[j].0 ==> i == j
    }

    pub fn new() -> (r: TypeMap)
        ensures
            r.wf(),
            r.view() == Map::<Type, Type>::empty(),
    {
        let r = TypeMap { entries: Vec::new() };
        assert(r.view() =~= Map::<Type, Type>::empty());
        r
    }

    pub fn get(&self, key: &Type) -> (r: Option<Type>)
        requires
            self.wf(),
        ensures
            match r {
                Some(t) => self.view().contains_key(*key) && self.view()[*key] == t,
                None => !self.view().contains_key(*key),
            },
    {
        let n = self.entries.len();
        let mut i: usize = 0;
        while i < n
            invariant
                0 <= i <= n,
                n == self.entries@.len(),
                self.wf(),
                forall|j: int| 0 <= j < i ==> #[trigger] self.entries@[j].0 != *key,
            decreases n - i,
        {
            if self.entries[i].0 == *key {
                assert(self.entries@[i as int].0 == *key);
                assert(self.view().contains_key(*key));
                let ghost j = choose|j: int| 0 <= j < self.entries@.len() && #[trigger] self.entries@[j].0 == *key;
                assert(j == i);
                return Some(self.entries[i].1);
            }
            i = i + 1;
        }
        None
    }

    pub fn insert(&mut self, key: Type, value: Type)
        requires
            old(self).wf(),
            !old(self).view().contains_key(key),
        ensures
            final(self).wf(),
            final(self).view() == old(self).view().insert(key, value),
    {
        let ghost old_entries = self.entries@;
        let ghost old_view = self.view();
        self.entries.push((key, value));
        assert forall|i: int, j: int|
            0 <= i < self.entries@.len() && 0 <= j < self.entries@.len() && #[trigger] self.entries@[i].0
                == #[trigger] self.entries@[j].0 implies i == j by {
            if i < old_entries.len() && j == old_entries.len() {
                assert(old_view.contains_key(old_entries[i].0));
            }
            if j < old_entries.len() && i == old_entries.len() {
                assert(old_view.contains_key(old_entries[j].0));
            }
        }
        assert forall|k: Type| #[trigger] self.view().contains_key(k) == old_view.insert(key, value).contains_key(k) by {
            if old_view.contains_key(k) {
                let i = choose|i: int| 0 <= i < old_entries.len() && #[trigger] old_entries[i].0 == k;
                assert(self.entries@[i].0 == k);
            }
            if k == key {
                assert(self.entries@[old_entries.len() as int].0 == k);
            }
            if self.view().contains_key(k) && k != key {
                let i = choose|i: int| 0 <= i < self.entries@.len() && #[trigger] self.entries@[i].0 == k;
                assert(old_entries[i].0 == k);
            }
        }
        assert forall|k: Type| #[trigger] self.view().contains_key(k) implies self.view()[k] == old_view.insert(
            key,
            value,
        )[k] by {
            let i = choose|i: int| 0 <= i < self.entries@.len() && #[trigger] self.entries@[i].0 == k;
            if k != key {
                let j = choose|j: int| 0 <= j < old_entries.len() && #[trigger] old_entries[j].0 == k;
                assert(self.entries@[j].0 == k);
            } else {
                assert(self.entries@[old_entries.len() as int].0 == k);
            }
        }
        assert(self.view() =~= old_view.insert(key, value));
    }
}

/// All the types made so far. Types are only ever added.
pub struct TypeTable {
    data: Vec<TypeData>,
    invalid: TypeMap,
}

impl Type {
    pub closed spec fn spec_id(self) -> int {
        self.id as int
    }
}

impl TypeTable {
    pub closed spec fn defs(&self) -> Seq<TypeDef> {
        self.data@.map_values(|d: TypeData| d.kind)
    }

    pub closed spec fn reprs(&self) -> Seq<Option<DataRepr>> {
        self.data@.map_values(|d: TypeData| d.repr)
    }

    pub closed spec fn spec_invalid_memo(&self) -> Map<Type, Type> {
        self.invalid.view()
    }

    pub closed spec fn wf(&self) -> bool {
        let defs = self.defs();
        &&& defs.len() >= 5
        &&& forall|i: int| 0 <= i < 5 ==> #[trigger] defs[i] == base_defs()[i]
        &&& forall|i: int| 0 <= i < defs.len() ==> #[trigger] def_ok(defs, i)
        &&& forall|i: int| 5 <= i < defs.len() ==> !(#[trigger] defs[i] is Nothing) && !(defs[i] is Unknown)
        &&& self.invalid.wf()
        &&& forall|k: Type| #[trigger] self.invalid.view().contains_key(k) ==> ({
            let r = self.invalid.view()[k];
            &&& 0 <= k.spec_id() < defs.len()
            &&& !(defs[k.spec_id()] is Invalid)
            &&& 0 <= r.spec_id() < defs.len()
            &&& defs[r.spec_id()] == TypeDef::Invalid(k)
        })
    }

    pub open spec fn has(&self, t: Type) -> bool {
        0 <= t.spec_id() < self.defs().len()
    }

    pub open spec fn extends(&self, old: &TypeTable) -> bool {
        &&& old.defs().len() <= self.defs().len()
        &&& forall|i: int| 0 <= i < old.defs().len() ==> #[trigger] self.defs()[i] == old.defs()[i]
        &&& forall|i: int| 0 <= i < old.reprs().len() ==> #[trigger] self.reprs()[i] == old.reprs()[i]
    }

    /// A table holding only the predefined types.
    pub fn new() -> (r: TypeTable)
        ensures
            r.wf(),
            r.defs() == base_defs(),
            r.reprs() == seq![Some(DataRepr::Empty), Some(DataRepr::Empty), None, None, None],
    {
        let mut data: Vec<TypeData> = Vec::new();
        data.push(TypeData { kind: TypeDef::Nothing, repr: Some(DataRepr::Empty) });
        data.push(TypeData { kind: TypeDef::Unit, repr: Some(DataRepr::Empty) });
        data.push(TypeData { kind: TypeDef::Never, repr: None });
        data.push(TypeData { kind: TypeDef::Any, repr: None });
        data.push(TypeData { kind: TypeDef::Unknown, repr: None });
        let r = TypeTable { data, invalid: TypeMap::new() };
        assert(r.defs() =~= base_defs());
        assert(r.reprs() =~= seq![Some(DataRepr::Empty), Some(DataRepr::Empty), None, None, None]);
        r
    }
}

impl Type {
    /// Null-value for a type, representing the lack of a type.
    pub fn none() -> (r: Type)
        ensures
            r.spec_id() == 0,
    {
        Type { id: 0 }
    }

    /// Concrete type containing only a single zero-sized value.
    pub fn unit() -> (r: Type)
        ensures
            r.spec_id() == 1,
    {
        Type { id: 1 }
    }

    /// Concrete type containing no possible values.
    pub fn never() -> (r: Type)
        ensures
            r.spec_id() == 2,
    {
        Type { id: 2 }
    }

    /// Concrete type able to hold any possible value.
    pub fn any() -> (r: Type)
        ensures
            r.spec_id() == 3,
    {
        Type { id: 3 }
    }

    /// Abstract unknown type.
    pub fn unknown() -> (r: Type)
        ensures
            r.spec_id() == 4,
    {
        Type { id: 4 }
    }

    /// The invalid type made from the none type.
    pub fn invalid(table: &mut TypeTable) -> (r: Type)
        requires
            old(table).wf(),
        ensures
            final(table).wf(),
            final(table).extends(old(table)),
            final(table).has(r),
            final(table).defs()[r.spec_id()] == TypeDef::Invalid(type_of(0)),
            old(table).spec_invalid_memo().contains_key(type_of(0)) ==> r == old(table).spec_invalid_memo()[type_of(0)],
    {
        let none = Type::none();
        assert(none == type_of(0));
        none.to_invalid(table)
    }

    /// The invalid type made from this type; an invalid type is returned as
    /// it is. The same valid type always gives the same invalid type.
    pub fn to_invalid(&self, table: &mut TypeTable) -> (r: Type)
        requires
            old(table).wf(),
            old(table).has(*self),
        ensures
            final(table).wf(),
            final(table).extends(old(table)),
            final(table).has(r),
            final(table).defs()[r.spec_id()] is Invalid,
            old(table).defs()[self.spec_id()] is Invalid ==> r == *self && final(table).defs() == old(table).defs(),
            !(old(table).defs()[self.spec_id()] is Invalid) ==> final(table).defs()[r.spec_id()] == TypeDef::Invalid(
                *self,
            ),
            old(table).spec_invalid_memo().contains_key(*self) ==> r == old(table).spec_invalid_memo()[*self]
                && final(table).defs() == old(table).defs(),
    {
        if self.is_invalid(table) {
            return *self;
        }
        if let Some(t) = table.invalid.get(self) {
            return t;
        }
        let t = TypeData { kind: TypeDef::Invalid(*self), repr: None }.store(table);
        table.invalid.insert(*self, t);
        assert forall|k: Type| #[trigger] table.invalid.view().contains_key(k) implies ({
            let r = table.invalid.view()[k];
            &&& 0 <= k.spec_id() < table.defs().len()
            &&& !(table.defs()[k.spec_id()] is Invalid)
            &&& 0 <= r.spec_id() < table.defs().len()
            &&& table.defs()[r.spec_id()] == TypeDef::Invalid(k)
        }) by {
            if k != *self {
                assert(old(table).invalid.view().contains_key(k));
            }
        }
        t
    }

    /// Is this type valid?
    pub fn is_valid(&self, table: &TypeTable) -> (r: bool)
        requires
            table.has(*self),
        ensures
            r == !(table.defs()[self.spec_id()] is Invalid),
    {
        !self.is_invalid(table)
    }

    /// Is this type an invalid type?
    pub fn is_invalid(&self, table: &TypeTable) -> (r: bool)
        requires
            table.has(*self),
        ensures
            r == (table.defs()[self.spec_id()] is Invalid),
    {
        match table.data[self.id].kind {
            TypeDef::Invalid(_) => true,
            _ => false,
        }
    }

    /// The valid type an invalid type was made from, or the type itself.
    pub fn get_valid(&self, table: &TypeTable) -> (r: Type)
        requires
            table.wf(),
            table.has(*self),
        ensures
            table.has(r),
            table.defs()[self.spec_id()] matches TypeDef::Invalid(t) ==> r == t,
            !(table.defs()[self.spec_id()] is Invalid) ==> r == *self,
    {
        proof {
            assert(def_ok(table.defs(), self.spec_id()));
        }
        match table.data[self.id].kind {
            TypeDef::Invalid(t) => t,
            _ => *self,
        }
    }

    /// Is this the none type?
    pub fn is_none(&self) -> (r: bool)
        ensures
            r == (self.spec_id() == 0),
    {
        self.id == 0
    }

    /// Is this the unknown type?
    pub fn is_unknown(&self) -> (r: bool)
        ensures
            r == (self.spec_id() == 4),
    {
        self.id == 4
    }

    /// A proper type is not none, unknown, or invalid.
    pub fn is_proper(&self, table: &TypeTable) -> (r: bool)
        requires
            table.has(*self),
        ensures
            r == !(self.spec_id() == 0 || table.defs()[self.spec_id()] is Invalid || self.spec_id() == 4),
    {
        !(self.is_none() || self.is_invalid(table) || self.is_unknown())
    }

    /// A new type with the same definition, equal only to itself; the none and
    /// unknown types have a single instance and are returned as they are.
    pub fn to_unique(&self, table: &mut TypeTable) -> (r: Type)
        requires
            old(table).wf(),
            old(table).has(*self),
        ensures
            final(table).wf(),
            final(table).extends(old(table)),
            final(table).has(r),
            final(table).defs()[r.spec_id()] == old(table).defs()[self.spec_id()],
            self.spec_id() == 0 ==> r.spec_id() == 0,
            self.spec_id() == 4 ==> r.spec_id() == 4,
            self.spec_id() != 0 && self.spec_id() != 4 ==> r.spec_id() == old(table).defs().len(),
    {
        let data = table.data[self.id];
        proof {
            assert(def_ok(table.defs(), self.spec_id()));
            if self.spec_id() >= 5 {
            } else {
                assert(table.defs()[self.spec_id()] == base_defs()[self.spec_id()]);
            }
        }
        data.store(table)
    }

    /// Layout of the data of the type, for types that have one.
    pub fn data(&self, table: &TypeTable) -> (r: Option<DataRepr>)
        requires
            table.has(*self),
        ensures
            r == table.reprs()[self.spec_id()],
    {
        table.data[self.id].repr
    }

    /// Is this the builtin type of `typ`?
    pub fn is_builtin(&self, typ: Primitive, table: &TypeTable) -> (r: bool)
        requires
            table.has(*self),
        ensures
            r == (table.defs()[self.spec_id()] == TypeDef::Builtin(typ)),
    {
        match table.data[self.id].kind {
            TypeDef::Builtin(p) => p == typ,
            _ => false,
        }
    }
}

pub closed spec fn type_of(id: usize) -> Type {
    Type { id }
}

pub proof fn lemma_type_of(id: usize)
    ensures
        type_of(id).spec_id() == id,
{
}

/// An invalid type is made from a valid type, never from another invalid
/// one.
pub proof fn lemma_invalid_holds_valid(table: &TypeTable, t: Type)
    requires
        table.wf(),
        table.has(t),
        table.defs()[t.spec_id()] is Invalid,
    ensures
        match table.defs()[t.spec_id()] {
            TypeDef::Invalid(v) => !(table.defs()[v.spec_id()] is Invalid),
            _ => false,
        },
{
    assert(def_ok(table.defs(), t.spec_id()));
}

} // verus!
