use vstd::prelude::*;

verus! {

/// Number of arguments an operator accepts.
#[derive(Copy, Clone, Debug, PartialEq, Eq, Structural)]
pub enum Arity {
    Nullary,
    Unary,
    Binary,
    Ternary,
    Variadic { min: Option<usize>, max: Option<usize> },
}

impl Arity {
    /// Whether an argument count is accepted by this arity.
    pub open spec fn spec_allows_count(self, n: int) -> bool {
        match self {
            Arity::Nullary => n == 0,
            Arity::Unary => n == 1,
            Arity::Binary => n == 2,
            Arity::Ternary => n == 3,
            Arity::Variadic { min, max } => {
                &&& (min matches Some(lo) ==> lo <= n)
                &&& (max matches Some(hi) ==> n <= hi)
            },
        }
    }

    /// The arity described by an exact argument count.
    pub open spec fn spec_exact(n: usize) -> Arity {
        if n == 0 {
            Arity::Nullary
        } else if n == 1 {
            Arity::Unary
        } else if n == 2 {
            Arity::Binary
        } else if n == 3 {
            Arity::Ternary
        } else {
            Arity::Variadic { min: Some(n), max: Some(n) }
        }
    }

    /// `self` allows every count at the bounds of `other`: the counts of fixed
    /// arities, and the present `min` and `max` of a variadic one.
    pub open spec fn spec_allows(self, other: Arity) -> bool {
        match other {
            Arity::Nullary => self.spec_allows_count(0),
            Arity::Unary => self.spec_allows_count(1),
            Arity::Binary => self.spec_allows_count(2),
            Arity::Ternary => self.spec_allows_count(3),
            Arity::Variadic { min, max } => {
                &&& (min matches Some(lo) ==> self.spec_allows_count(lo as int))
                &&& (max matches Some(hi) ==> self.spec_allows_count(hi as int))
            },
        }
    }

    /// The arity of `between(min, max)`, with the bounds put in order.
    pub open spec fn spec_between(a: usize, b: usize) -> Arity {
        let (lo, hi) = if b < a { (b, a) } else { (a, b) };
        if lo == hi {
            Arity::spec_exact(lo)
        } else {
            Arity::Variadic { min: Some(lo), max: Some(hi) }
        }
    }

    /// Any number of arguments.
    pub fn any() -> (r: Arity)
        ensures
            r == (Arity::Variadic { min: None, max: None }),
            forall|k: int| #[trigger] r.spec_allows_count(k),
    {
        Arity::Variadic { min: None, max: None }
    }

    /// Exactly `n` arguments.
    pub fn exact(n: usize) -> (r: Arity)
        ensures
            r == Arity::spec_exact(n),
            forall|k: int| #[trigger] r.spec_allows_count(k) <==> k == n,
    {
        match n {
            0 => Arity::Nullary,
            1 => Arity::Unary,
            2 => Arity::Binary,
            3 => Arity::Ternary,
            n => Arity::Variadic { min: Some(n), max: Some(n) },
        }
    }

    /// At least `n` arguments.
    pub fn min(n: usize) -> (r: Arity)
        ensures
            r == (Arity::Variadic { min: Some(n), max: None }),
            forall|k: int| #[trigger] r.spec_allows_count(k) <==> n <= k,
    {
        Arity::Variadic { min: Some(n), max: None }
    }

    /// At most `n` arguments.
    pub fn max(n: usize) -> (r: Arity)
        ensures
            n == 0 ==> r == Arity::Nullary,
            n != 0 ==> r == (Arity::Variadic { min: None, max: Some(n) }),
            forall|k: int| 0 <= k ==> (#[trigger] r.spec_allows_count(k) <==> k <= n),
    {
        if n == 0 {
            Arity::Nullary
        } else {
            Arity::Variadic { min: None, max: Some(n) }
        }
    }

    /// Between `min` and `max` arguments, in either order.
    pub fn between(min: usize, max: usize) -> (r: Arity)
        ensures
            r == Arity::spec_between(min, max),
            forall|k: int| #[trigger] r.spec_allows_count(k) <==> (
                (min <= k && k <= max) || (max <= k && k <= min)),
    {
        let (min, max) = if max < min { (max, min) } else { (min, max) };
        if min == max {
            Self::exact(min)
        } else {
            Arity::Variadic { min: Some(min), max: Some(max) }
        }
    }

    /// Does this arity allow the bounds of `other`?
    pub fn allows(&self, other: &Arity) -> (r: bool)
        ensures
            r == self.spec_allows(*other),
    {
        match other {
            Arity::Nullary => self.allows_count(0),
            Arity::Unary => self.allows_count(1),
            Arity::Binary => self.allows_count(2),
            Arity::Ternary => self.allows_count(3),
            Arity::Variadic { min, max } => {
                if let Some(min) = *min {
                    if !self.allows_count(min) {
                        return false;
                    }
                }
                if let Some(max) = *max {
                    if !self.allows_count(max) {
                        return false;
                    }
                }
                true
            },
        }
    }

    /// Does this arity accept `arg_count` arguments?
    pub fn allows_count(&self, arg_count: usize) -> (r: bool)
        ensures
            r == self.spec_allows_count(arg_count as int),
    {
        match self {
            Arity::Nullary => arg_count == 0,
            Arity::Unary => arg_count == 1,
            Arity::Binary => arg_count == 2,
            Arity::Ternary => arg_count == 3,
            Arity::Variadic { min, max } => {
                if let Some(min) = *min {
                    if arg_count < min {
                        return false;
                    }
                }
                if let Some(max) = *max {
                    if arg_count > max {
                        return false;
                    }
                }
                true
            },
        }
    }
}

impl Default for Arity {
    fn default() -> (r: Arity)
        ensures
            r == (Arity::Variadic { min: None, max: None }),
    {
        Arity::any()
    }
}

/// The arity has a least and a greatest count, in order: a fixed arity, or
/// a variadic one with both bounds.
pub open spec fn bounded(a: Arity) -> bool {
    match a {
        Arity::Variadic { min, max } => min is Some && max is Some && min->0 <= max->0,
        _ => true,
    }
}

/// The counts an arity accepts have no gap: between two accepted counts,
/// every count is accepted.
pub proof fn lemma_counts_interval(s: Arity, i: int, j: int, k: int)
    requires
        s.spec_allows_count(i),
        s.spec_allows_count(j),
        i <= k <= j,
    ensures
        s.spec_allows_count(k),
{
}

/// For an arity `o` with both bounds, `s` allows `o` exactly when `s`
/// accepts every count that `o` accepts.
pub proof fn lemma_allows_is_inclusion(s: Arity, o: Arity)
    requires
        bounded(o),
    ensures
        s.spec_allows(o) <==> (forall|k: int| #[trigger] o.spec_allows_count(k) ==> s.spec_allows_count(k)),
{
    match o {
        Arity::Variadic { min, max } => {
            let lo = min->0 as int;
            let hi = max->0 as int;
            if s.spec_allows(o) {
                assert forall|k: int| #[trigger] o.spec_allows_count(k) implies s.spec_allows_count(k) by {
                    lemma_counts_interval(s, lo, hi, k);
                }
            }
            if forall|k: int| #[trigger] o.spec_allows_count(k) ==> s.spec_allows_count(k) {
                assert(o.spec_allows_count(lo));
                assert(o.spec_allows_count(hi));
            }
        },
        Arity::Nullary => {
            if forall|k: int| #[trigger] o.spec_allows_count(k) ==> s.spec_allows_count(k) {
                assert(o.spec_allows_count(0));
            }
        },
        Arity::Unary => {
            if forall|k: int| #[trigger] o.spec_allows_count(k) ==> s.spec_allows_count(k) {
                assert(o.spec_allows_count(1));
            }
        },
        Arity::Binary => {
            if forall|k: int| #[trigger] o.spec_allows_count(k) ==> s.spec_allows_count(k) {
                assert(o.spec_allows_count(2));
            }
        },
        Arity::Ternary => {
            if forall|k: int| #[trigger] o.spec_allows_count(k) ==> s.spec_allows_count(k) {
                assert(o.spec_allows_count(3));
            }
        },
    }
}

/// With no upper bound, `s` allows `o` exactly when it accepts the least
/// count of `o`, if `o` has one.
pub proof fn lemma_allows_open_above(s: Arity, o: Arity)
    requires
        o matches Arity::Variadic { max: None, .. },
    ensures
        s.spec_allows(o) <==> (o->min matches Some(lo) ==> s.spec_allows_count(lo as int)),
{
}

/// `between` does not depend on the order of its bounds.
pub proof fn lemma_between_symmetric(a: usize, b: usize)
    ensures
        Arity::spec_between(a, b) == Arity::spec_between(b, a),
{
}

/// Every arity whose bounds are in order allows itself.
pub proof fn lemma_allows_reflexive(a: Arity)
    requires
        a matches Arity::Variadic { min: Some(lo), max: Some(hi) } ==> lo <= hi,
    ensures
        a.spec_allows(a),
{
}

/// An exact arity allows another exact arity only when the counts agree.
pub proof fn lemma_exact_allows_only_itself(n: usize, m: usize)
    ensures
        Arity::spec_exact(n).spec_allows(Arity::spec_exact(m)) <==> n == m,
{
}

} // verus!
