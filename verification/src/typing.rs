use vstd::prelude::*;
use crate::code::NodeValue;
use crate::lexer::Token;
use crate::nodes::{lemma_node_of, Node, NodeTree};
use crate::runtime_types::{tid, RuntimeType, RuntimeTypeContext, TypeKind, BOOL_ID, NONE_ID, SINT_ID, STR_ID, UINT_ID, UNIT_ID};
use crate::vars::VariablesContext;

verus! {

/// The type a node evaluates to, before it is made a type of a context.
#[derive(Copy, Clone, Debug, PartialEq, Eq, Structural)]
pub enum BaseType {
    Nothing,
    Unit,
    Bool,
    Str,
    SInt,
    UInt,
    Invalid,
}

/// Every variable that a node of the tree refers to is declared, by a node
/// of the tree.
pub open spec fn vars_ok(values: Seq<NodeValue>, vars: Seq<((Seq<u8>, u32), Node)>) -> bool {
    forall|m: int|
        0 <= m < values.len() ==> match #[trigger] values[m] {
            NodeValue::Var(v) => 0 <= v.spec_id() < vars.len() && 0 <= vars[v.spec_id()].1.spec_id() < values.len(),
            _ => true,
        }
}

/// The type of the node `n`, reached through the nodes `anc` and then `cur`:
/// an error naming `n` when `anc` holds it, for then its type depends on
/// itself. A literal value or token has its type; a source, another token
/// and a binary operator are invalid; print is unit; a module has the type
/// of its last child, a `let` and a group that of their first (none when
/// they have no children); a variable has the type of the node that
/// declares it; other nodes are invalid. `fuel` bounds the depth.
pub open spec fn type_spec(
    values: Seq<NodeValue>,
    children: Seq<Seq<usize>>,
    vars: Seq<((Seq<u8>, u32), Node)>,
    n: int,
    anc: Seq<usize>,
    cur: usize,
    fuel: nat,
) -> Result<BaseType, usize>
    decreases fuel,
{
    if anc.contains(n as usize) || fuel == 0 {
        Err(n as usize)
    } else {
        let next = anc.push(cur);
        let c = children[n];
        match values[n] {
            NodeValue::Nothing => Ok(BaseType::Nothing),
            NodeValue::Unit => Ok(BaseType::Unit),
            NodeValue::Bool(_) => Ok(BaseType::Bool),
            NodeValue::Str(_) => Ok(BaseType::Str),
            NodeValue::SInt(_) => Ok(BaseType::SInt),
            NodeValue::UInt(_) => Ok(BaseType::UInt),
            NodeValue::Token(Token::Integer) => Ok(BaseType::SInt),
            NodeValue::Token(Token::Literal) => Ok(BaseType::Str),
            NodeValue::Print => Ok(BaseType::Unit),
            NodeValue::Module(_) => if c.len() == 0 {
                Ok(BaseType::Nothing)
            } else {
                type_spec(values, children, vars, c.last() as int, next, n as usize, (fuel - 1) as nat)
            },
            NodeValue::Let(_) | NodeValue::Group { .. } => if c.len() == 0 {
                Ok(BaseType::Nothing)
            } else {
                type_spec(values, children, vars, c[0] as int, next, n as usize, (fuel - 1) as nat)
            },
            NodeValue::Var(v) => type_spec(
                values,
                children,
                vars,
                vars[v.spec_id()].1.spec_id(),
                next,
                n as usize,
                (fuel - 1) as nat,
            ),
            _ => Ok(BaseType::Invalid),
        }
    }
}

/// Does `v` hold `x`?
fn holds(v: &Vec<usize>, x: usize) -> (r: bool)
    ensures
        r == v@.contains(x),
{
    let mut i: usize = 0;
    while i < v.len()
        invariant
            0 <= i <= v@.len(),
            forall|j: int| 0 <= j < i ==> v@[j] != x,
        decreases v@.len() - i,
    {
        if v[i] == x {
            return true;
        }
        i = i + 1;
    }
    false
}

/// The type of the node of id `n`; see [`type_spec`].
fn type_at(tree: &NodeTree<NodeValue>, vars: &VariablesContext, n: usize, anc: &mut Vec<usize>, cur: usize, fuel: usize) -> (r: Result<BaseType, usize>)
    requires
        tree.wf(),
        n < tree.spec_len(),
        vars_ok(tree.spec_values(), vars@),
    ensures
        r == type_spec(tree.spec_values(), tree.spec_children(), vars@, n as int, old(anc)@, cur, fuel as nat),
        final(anc)@ == old(anc)@,
    decreases fuel,
{
    if fuel == 0 || holds(anc, n) {
        return Err(n);
    }
    proof {
        lemma_node_of(n as int);
    }
    let node = tree.get(n);
    let ghost a = anc@;
    let c = tree.nodes(node);
    let next: Option<usize> = match tree.value(node) {
        NodeValue::Nothing => return Ok(BaseType::Nothing),
        NodeValue::Unit => return Ok(BaseType::Unit),
        NodeValue::Bool(_) => return Ok(BaseType::Bool),
        NodeValue::Str(_) => return Ok(BaseType::Str),
        NodeValue::SInt(_) => return Ok(BaseType::SInt),
        NodeValue::UInt(_) => return Ok(BaseType::UInt),
        NodeValue::Token(Token::Integer) => return Ok(BaseType::SInt),
        NodeValue::Token(Token::Literal) => return Ok(BaseType::Str),
        NodeValue::Print => return Ok(BaseType::Unit),
        NodeValue::Module(_) => if c.len() == 0 {
            None
        } else {
            Some(c[c.len() - 1])
        },
        NodeValue::Let(_) | NodeValue::Group { .. } => if c.len() == 0 {
            None
        } else {
            Some(c[0])
        },
        NodeValue::Var(v) => {
            proof {
                assert(match tree.spec_values()[n as int] {
                    NodeValue::Var(v) => 0 <= v.spec_id() < vars@.len() && 0 <= vars@[v.spec_id()].1.spec_id()
                        < tree.spec_len(),
                    _ => true,
                });
            }
            Some(vars.node(*v).id())
        },
        _ => return Ok(BaseType::Invalid),
    };
    match next {
        None => Ok(BaseType::Nothing),
        Some(m) => {
            anc.push(cur);
            let r = type_at(tree, vars, m, anc, n, fuel - 1);
            anc.pop();
            proof {
                assert(anc@ =~= a);
            }
            r
        },
    }
}

/// The type of the node `n`: see [`type_spec`], reached through no node,
/// with a depth of at most the number of nodes and two. An error names a
/// node whose type depends on itself.
pub fn eval_type(tree: &NodeTree<NodeValue>, vars: &VariablesContext, n: Node) -> (r: Result<BaseType, usize>)
    requires
        tree.wf(),
        tree.has(n),
        vars_ok(tree.spec_values(), vars@),
        tree.spec_len() + 2 <= usize::MAX,
    ensures
        r == type_spec(
            tree.spec_values(),
            tree.spec_children(),
            vars@,
            n.spec_id(),
            Seq::empty(),
            n.spec_id() as usize,
            (tree.spec_len() + 2) as nat,
        ),
{
    let mut anc: Vec<usize> = Vec::new();
    let fuel: usize = tree.count() + 2;
    let r = type_at(tree, vars, n.id(), &mut anc, n.id(), fuel);
    r
}

impl BaseType {
    /// The type of the context `types` that is this base type: the
    /// predefined none, unit, boolean, string, signed and unsigned types, or
    /// the invalid type made from none.
    pub fn runtime_type(self, types: &mut RuntimeTypeContext) -> (r: RuntimeType)
        requires
            old(types).wf(),
        ensures
            final(types).wf(),
            final(types).extends(old(types)),
            final(types).has(r),
            match self {
                BaseType::Nothing => tid(r) == NONE_ID,
                BaseType::Unit => tid(r) == UNIT_ID,
                BaseType::Bool => tid(r) == BOOL_ID,
                BaseType::Str => tid(r) == STR_ID,
                BaseType::SInt => tid(r) == SINT_ID,
                BaseType::UInt => tid(r) == UINT_ID,
                BaseType::Invalid => final(types).kinds()[tid(r)] == TypeKind::Invalid(RuntimeType::spec_of(NONE_ID)),
            },
    {
        match self {
            BaseType::Nothing => types.none(),
            BaseType::Unit => types.unit(),
            BaseType::Bool => types.bool(),
            BaseType::Str => types.str(),
            BaseType::SInt => types.sint(),
            BaseType::UInt => types.uint(),
            BaseType::Invalid => types.invalid(),
        }
    }
}

} // verus!
