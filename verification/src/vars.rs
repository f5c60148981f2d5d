use vstd::prelude::*;
use crate::nodes::Node;
use crate::symbol::Symbol;

verus! {

/// A variable: its index among the variables declared.
#[derive(Copy, Clone, Debug, PartialEq, Eq, Structural)]
pub struct Var {
    id: usize,
}

impl Var {
    pub closed spec fn spec_id(&self) -> int {
        self.id as int
    }

    pub fn id(&self) -> (r: usize)
        ensures
            r == self.spec_id(),
    {
        self.id
    }
}

/// The variables declared so far: the name of each, and the node that
/// declares it.
pub struct VariablesContext {
    vars: Vec<(Symbol, Node)>,
}

impl View for VariablesContext {
    type V = Seq<((Seq<u8>, u32), Node)>;

    closed spec fn view(&self) -> Seq<((Seq<u8>, u32), Node)> {
        self.vars@.map_values(|v: (Symbol, Node)| (v.0@, v.1))
    }
}

impl VariablesContext {
    /// No variables.
    pub fn new() -> (r: VariablesContext)
        ensures
            r@.len() == 0,
    {
        let r = VariablesContext { vars: Vec::new() };
        assert(r@ =~= Seq::<((Seq<u8>, u32), Node)>::empty());
        r
    }

    /// Number of variables declared.
    pub fn len(&self) -> (r: usize)
        ensures
            r == self@.len(),
    {
        self.vars.len()
    }

    /// Declare a new variable named `name`, declared by the node `source`.
    pub fn declare(&mut self, name: Symbol, source: Node) -> (r: Var)
        requires
            old(self)@.len() < usize::MAX,
        ensures
            r.spec_id() == old(self)@.len(),
            final(self)@ == old(self)@.push((name@, source)),
    {
        let id = self.vars.len();
        let ghost before = self@;
        let ghost entry = (name@, source);
        self.vars.push((name, source));
        assert(self@ =~= before.push(entry));
        Var { id }
    }

    /// The name of a variable.
    pub fn name(&self, v: Var) -> (r: &Symbol)
        requires
            0 <= v.spec_id() < self@.len(),
        ensures
            r@ == self@[v.spec_id()].0,
    {
        &self.vars[v.id].0
    }

    /// The node that declares a variable.
    pub fn node(&self, v: Var) -> (r: Node)
        requires
            0 <= v.spec_id() < self@.len(),
        ensures
            r == self@[v.spec_id()].1,
    {
        self.vars[v.id].1
    }
}

} // verus!
