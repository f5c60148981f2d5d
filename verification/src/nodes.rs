use vstd::prelude::*;
use vstd::pervasive::VecAdditionalExecFns;
use crate::source::{spec_range_end, spec_range_start, RangeBound, Span};

verus! {

/// The node is done: no rule needs to look at it again.
pub const FLAG_DONE: u8 = 1;

/// The node is silent: it is left out of the program's roots.
pub const FLAG_SILENT: u8 = 2;

/// Handle of a node of a [`NodeTree`].
#[derive(Copy, Clone, Debug, PartialEq, Eq, Structural)]
pub struct Node {
    id: usize,
}

impl Node {
    pub closed spec fn spec_id(&self) -> int {
        self.id as int
    }

    pub fn id(&self) -> (r: usize)
        ensures
            r == self.spec_id(),
    {
        self.id
    }
}

pub closed spec fn node_of(id: int) -> Node {
    Node { id: id as usize }
}

pub proof fn lemma_node_of(id: int)
    requires
        0 <= id <= usize::MAX,
    ensures
        node_of(id).spec_id() == id,
{
}

/// A node is the one of its id.
pub proof fn lemma_node_is_of_id(n: Node)
    ensures
        n == node_of(n.spec_id()),
{
}

/// What a node holds besides its value and children.
#[derive(Copy, Clone, Debug)]
pub struct NodeMeta {
    pub span: Span,
    pub block: bool,
    pub parent: Option<usize>,
    pub index: usize,
    pub status: u8,
}

/// The nodes of a program: each has a value, a span, whether it is a block,
/// its parent and its position there, its children in order, and status
/// flags.
pub struct NodeTree<V> {
    meta: Vec<NodeMeta>,
    children: Vec<Vec<usize>>,
    values: Vec<V>,
}

/// Each child of a node names it as its parent at its position, and each
/// node with a parent is that parent's child at its position.
pub open spec fn links_ok(meta: Seq<NodeMeta>, children: Seq<Seq<usize>>) -> bool {
    &&& meta.len() == children.len()
    &&& meta.len() <= usize::MAX
    &&& forall|n: int, i: int|
        0 <= n < children.len() && 0 <= i < children[n].len() ==> {
            let c = #[trigger] children[n][i];
            &&& c < meta.len()
            &&& meta[c as int].parent == Some(n as usize)
            &&& meta[c as int].index == i
        }
    &&& forall|n: int|
        0 <= n < meta.len() && (#[trigger] meta[n].parent) is Some ==> {
            let p = meta[n].parent->0;
            &&& p < children.len()
            &&& meta[n].index < children[p as int].len()
            &&& children[p as int][meta[n].index as int] == n
        }
}

impl<V> NodeTree<V> {
    pub closed spec fn spec_meta(&self) -> Seq<NodeMeta> {
        self.meta@
    }

    pub closed spec fn spec_children(&self) -> Seq<Seq<usize>> {
        self.children@.map_values(|c: Vec<usize>| c@)
    }

    pub closed spec fn spec_values(&self) -> Seq<V> {
        self.values@
    }

    /// Number of nodes made.
    pub open spec fn spec_len(&self) -> nat {
        self.spec_meta().len()
    }

    pub open spec fn has(&self, n: Node) -> bool {
        0 <= n.spec_id() < self.spec_len()
    }

    /// Parents and children agree.
    pub open spec fn wf(&self) -> bool {
        &&& links_ok(self.spec_meta(), self.spec_children())
        &&& self.spec_values().len() == self.spec_len()
    }

    pub open spec fn children_of(&self, n: Node) -> Seq<usize> {
        self.spec_children()[n.spec_id()]
    }

    pub open spec fn meta_of(&self, n: Node) -> NodeMeta {
        self.spec_meta()[n.spec_id()]
    }

    /// A tree with no nodes.
    pub fn new() -> (r: NodeTree<V>)
        ensures
            r.wf(),
            r.spec_len() == 0,
    {
        let r = NodeTree { meta: Vec::new(), children: Vec::new(), values: Vec::new() };
        assert(r.spec_children() =~= Seq::<Seq<usize>>::empty());
        r
    }

    /// A new node with no parent and no children.
    pub fn new_node(&mut self, value: V, span: Span, block: bool) -> (r: Node)
        requires
            old(self).wf(),
            old(self).spec_len() < usize::MAX,
        ensures
            final(self).wf(),
            r.spec_id() == old(self).spec_len(),
            final(self).spec_meta() == old(self).spec_meta().push(
                NodeMeta { span, block, parent: None, index: 0, status: 0 },
            ),
            final(self).spec_children() == old(self).spec_children().push(Seq::empty()),
            final(self).spec_values() == old(self).spec_values().push(value),
    {
        let id = self.meta.len();
        let ghost ch = self.spec_children();
        self.meta.push(NodeMeta { span, block, parent: None, index: 0, status: 0 });
        self.children.push(Vec::new());
        self.values.push(value);
        assert(self.spec_children() =~= ch.push(Seq::empty()));
        proof {
            let m = self.spec_meta();
            let c = self.spec_children();
            assert forall|n: int, i: int| 0 <= n < c.len() && 0 <= i < c[n].len() implies {
                let x = #[trigger] c[n][i];
                &&& x < m.len()
                &&& m[x as int].parent == Some(n as usize)
                &&& m[x as int].index == i
            } by {
                assert(n < ch.len());
                assert(c[n] == ch[n]);
            }
            assert forall|n: int| 0 <= n < m.len() && (#[trigger] m[n].parent) is Some implies {
                let p = m[n].parent->0;
                &&& p < c.len()
                &&& m[n].index < c[p as int].len()
                &&& c[p as int][m[n].index as int] == n
            } by {
                assert(n < ch.len());
            }
        }
        Node { id }
    }

    /// The node with the id `id`, which must have been made.
    pub fn get(&self, id: usize) -> (r: Node)
        requires
            id < self.spec_len(),
        ensures
            r == node_of(id as int),
            r.spec_id() == id,
            self.has(r),
    {
        Node { id }
    }

    /// Number of nodes made.
    pub fn count(&self) -> (r: usize)
        requires
            self.wf(),
        ensures
            r == self.spec_len(),
    {
        self.meta.len()
    }

    /// The value of a node.
    pub fn value(&self, n: Node) -> (r: &V)
        requires
            self.wf(),
            self.has(n),
        ensures
            *r == self.spec_values()[n.spec_id()],
    {
        &self.values[n.id]
    }

    pub fn span(&self, n: Node) -> (r: Span)
        requires
            self.has(n),
        ensures
            r == self.meta_of(n).span,
    {
        self.meta[n.id].span
    }

    /// Whether the node is a block.
    pub fn is_block(&self, n: Node) -> (r: bool)
        requires
            self.has(n),
        ensures
            r == self.meta_of(n).block,
    {
        self.meta[n.id].block
    }

    pub fn parent(&self, n: Node) -> (r: Option<Node>)
        requires
            self.wf(),
            self.has(n),
        ensures
            match self.meta_of(n).parent {
                Some(p) => r == Some(node_of(p as int)) && self.has(node_of(p as int)),
                None => r is None,
            },
    {
        match self.meta[n.id].parent {
            Some(p) => {
                proof {
                    assert(self.spec_meta()[n.spec_id()].parent is Some);
                }
                Some(Node { id: p })
            },
            None => None,
        }
    }

    /// The position of the node in its parent; kept as it was when the node
    /// is removed from its parent.
    pub fn index(&self, n: Node) -> (r: usize)
        requires
            self.has(n),
        ensures
            r == self.meta_of(n).index,
    {
        self.meta[n.id].index
    }

    /// Number of children.
    pub fn len(&self, n: Node) -> (r: usize)
        requires
            self.wf(),
            self.has(n),
        ensures
            r == self.children_of(n).len(),
    {
        self.children[n.id].len()
    }

    /// The child at `index`, if any.
    pub fn node(&self, n: Node, index: usize) -> (r: Option<Node>)
        requires
            self.wf(),
            self.has(n),
        ensures
            index < self.children_of(n).len() ==> r == Some(node_of(self.children_of(n)[index as int] as int))
                && self.has(node_of(self.children_of(n)[index as int] as int)),
            index >= self.children_of(n).len() ==> r is None,
    {
        if index < self.children[n.id].len() {
            let c = self.children[n.id][index];
            proof {
                assert(self.spec_children()[n.spec_id()][index as int] == c);
            }
            Some(Node { id: c })
        } else {
            None
        }
    }

    /// The children of a node.
    pub fn nodes(&self, n: Node) -> (r: &[usize])
        requires
            self.wf(),
            self.has(n),
        ensures
            r@ == self.children_of(n),
    {
        self.children[n.id].as_slice()
    }

    /// The sibling after the node, if any.
    pub fn next(&self, n: Node) -> (r: Option<Node>)
        requires
            self.wf(),
            self.has(n),
        ensures
            r == next_spec(self.spec_meta(), self.spec_children(), n.spec_id()),
            r matches Some(x) ==> self.has(x),
    {
        match self.meta[n.id].parent {
            Some(p) => {
                proof {
                    assert(self.spec_meta()[n.spec_id()].parent is Some);
                }
                let i = self.meta[n.id].index;
                if i < self.children[p].len() - 1 {
                    let c = self.children[p][i + 1];
                    proof {
                        assert(self.spec_children()[p as int][i + 1] == c);
                    }
                    Some(Node { id: c })
                } else {
                    None
                }
            },
            None => None,
        }
    }

    /// The sibling before the node, if any.
    pub fn prev(&self, n: Node) -> (r: Option<Node>)
        requires
            self.wf(),
            self.has(n),
        ensures
            r == prev_spec(self.spec_meta(), self.spec_children(), n.spec_id()),
            r matches Some(x) ==> self.has(x),
    {
        let i = self.meta[n.id].index;
        if i == 0 {
            return None;
        }
        match self.meta[n.id].parent {
            Some(p) => {
                proof {
                    assert(self.spec_meta()[n.spec_id()].parent is Some);
                }
                let c = self.children[p][i - 1];
                proof {
                    assert(self.spec_children()[p as int][i - 1] == c);
                }
                Some(Node { id: c })
            },
            None => None,
        }
    }

    /// Remove the children of `n` in the range from `start` to `end`: they
    /// lose their parent but keep their position; later children move back.
    /// The removed children are returned in order.
    pub fn remove_nodes(&mut self, n: Node, start: RangeBound, end: RangeBound) -> (r: Vec<usize>)
        requires
            old(self).wf(),
            old(self).has(n),
            ({
                let sta = spec_range_start(start);
                let end = spec_range_end(end, old(self).children_of(n).len() as usize);
                0 <= sta <= end <= old(self).children_of(n).len()
            }),
        ensures
            final(self).wf(),
            ({
                let len = old(self).children_of(n).len() as usize;
                let sta = spec_range_start(start) as usize;
                let end = spec_range_end(end, len) as usize;
                &&& r@ == old(self).children_of(n).subrange(sta as int, end as int)
                &&& final(self).spec_children() == old(self).spec_children().update(
                    n.spec_id(),
                    removed_children(old(self).children_of(n), sta, end),
                )
                &&& final(self).spec_meta() == Seq::new(
                    old(self).spec_len(),
                    |m: int| removed_meta(old(self).spec_meta()[m], n.spec_id() as usize, sta, end),
                )
            }),
            final(self).spec_values() == old(self).spec_values(),
    {
        let len = self.children[n.id].len();
        let sta: usize = match start {
            RangeBound::Included(k) => k,
            RangeBound::Excluded(k) => k + 1,
            RangeBound::Unbounded => 0,
        };
        let end: usize = match end {
            RangeBound::Included(k) => k + 1,
            RangeBound::Excluded(k) => k,
            RangeBound::Unbounded => len,
        };
        let ghost om = self.spec_meta();
        let ghost oc = self.spec_children();
        let ghost list = oc[n.spec_id()];
        let ghost d = end - sta;
        let ghost id = n.id;
        proof {
            assert(self.children@[n.spec_id()]@ == list);
        }
        let mut removed: Vec<usize> = Vec::new();
        let mut i: usize = sta;
        while i < end
            invariant
                self.children@ == old(self).children@,
                self.values@ == old(self).values@,
                self.spec_children() == oc,
                self.spec_values().len() == om.len(),
                oc.len() == om.len(),
                links_ok(om, oc),
                0 <= id < oc.len(),
                id == n.id,
                list == oc[id as int],
                self.children@[id as int]@ == list,
                sta <= i <= end <= list.len(),
                removed@ == list.subrange(sta as int, i as int),
                self.spec_meta().len() == om.len(),
                forall|m: int| 0 <= m < om.len() ==> #[trigger] self.spec_meta()[m] == (if om[m].parent == Some(id)
                    && sta <= om[m].index < i {
                    NodeMeta { parent: None, ..om[m] }
                } else {
                    om[m]
                }),
            decreases end - i,
        {
            let c = self.children[n.id][i];
            proof {
                assert(list[i as int] == c);
                assert(om[c as int].parent == Some(id) && om[c as int].index == i);
            }
            let mut m = self.meta[c];
            m.parent = None;
            self.meta.set(c, m);
            removed.push(c);
            i = i + 1;
            proof {
                assert(removed@ =~= list.subrange(sta as int, i as int));
                assert forall|x: int| 0 <= x < om.len() implies #[trigger] self.spec_meta()[x] == (if om[x].parent == Some(id)
                    && sta <= om[x].index < i {
                    NodeMeta { parent: None, ..om[x] }
                } else {
                    om[x]
                }) by {
                    if x == c {
                    } else if om[x].parent == Some(id) && om[x].index == i - 1 {
                        assert(oc[id as int][om[x].index as int] == x);
                    }
                }
            }
        }
        let mut new_list: Vec<usize> = Vec::new();
        let mut j: usize = 0;
        while j < sta
            invariant
                id == n.id,
                self.children@ == old(self).children@,
                self.values@ == old(self).values@,
                self.spec_meta().len() == om.len(),
                0 <= id < self.children@.len(),
                oc == old(self).spec_children(),
                list == oc[id as int],
                self.children@[id as int]@ == list,
                0 <= j <= sta <= end <= list.len(),
                new_list@ == list.subrange(0, j as int),
            decreases sta - j,
        {
            new_list.push(self.children[n.id][j]);
            j = j + 1;
            assert(new_list@ =~= list.subrange(0, j as int));
        }
        let mut j: usize = end;
        while j < len
            invariant
                id == n.id,
                self.children@ == old(self).children@,
                self.values@ == old(self).values@,
                self.spec_meta().len() == om.len(),
                0 <= id < self.children@.len(),
                oc == old(self).spec_children(),
                list == oc[id as int],
                self.children@[id as int]@ == list,
                len == list.len(),
                0 <= sta <= end <= j <= len,
                new_list@ == list.subrange(0, sta as int) + list.subrange(end as int, j as int),
            decreases len - j,
        {
            new_list.push(self.children[n.id][j]);
            j = j + 1;
            assert(new_list@ =~= list.subrange(0, sta as int) + list.subrange(end as int, j as int));
        }
        assert(new_list@ == removed_children(list, sta, end));
        let ghost mid = self.spec_meta();
        let mut k: usize = sta;
        while k < new_list.len()
            invariant
                self.children@ == old(self).children@,
                self.values@ == old(self).values@,
                oc.len() == om.len(),
                links_ok(om, oc),
                0 <= id < oc.len(),
                id == n.id,
                list == oc[id as int],
                new_list@ == removed_children(list, sta, end),
                d == end - sta,
                sta <= end <= list.len(),
                sta <= k <= new_list@.len(),
                self.spec_meta().len() == om.len(),
                forall|m: int| 0 <= m < om.len() ==> #[trigger] mid[m] == (if om[m].parent == Some(id) && sta
                    <= om[m].index < end {
                    NodeMeta { parent: None, ..om[m] }
                } else {
                    om[m]
                }),
                forall|m: int| 0 <= m < om.len() ==> #[trigger] self.spec_meta()[m] == (if om[m].parent == Some(id)
                    && end <= om[m].index < k + d {
                    NodeMeta { index: (om[m].index - d) as usize, ..om[m] }
                } else {
                    mid[m]
                }),
            decreases new_list@.len() - k,
        {
            let c = new_list[k];
            proof {
                assert(new_list@[k as int] == list[k + d]);
                assert(om[c as int].parent == Some(id) && om[c as int].index == k + d);
            }
            let mut m = self.meta[c];
            m.index = k;
            self.meta.set(c, m);
            k = k + 1;
            proof {
                assert forall|x: int| 0 <= x < om.len() implies #[trigger] self.spec_meta()[x] == (if om[x].parent
                    == Some(id) && end <= om[x].index < k + d {
                    NodeMeta { index: (om[x].index - d) as usize, ..om[x] }
                } else {
                    mid[x]
                }) by {
                    if x == c {
                    } else if om[x].parent == Some(id) && om[x].index == k - 1 + d {
                        assert(oc[id as int][om[x].index as int] == x);
                        assert(list[k - 1 + d] == c);
                    }
                }
            }
        }
        proof {
            assert forall|m: int| 0 <= m < om.len() && om[m].parent == Some(id) implies #[trigger] om[m].index
                < list.len() by {
                assert(om[m].parent is Some);
            }
        }
        self.children.set(n.id, new_list);
        proof {
            assert(self.spec_children() =~= oc.update(id as int, removed_children(list, sta, end)));
            assert(self.spec_meta() =~= Seq::new(om.len(), |m: int| removed_meta(om[m], id, sta, end)));
            lemma_remove_links(om, oc, id, sta, end);
        }
        removed
    }

    /// Give `n` the children `nodes`, in order: its former children lose
    /// their parent and position, the new ones take `n` and their position.
    pub fn set_nodes(&mut self, n: Node, nodes: &[usize])
        requires
            old(self).wf(),
            old(self).has(n),
            forall|i: int| 0 <= i < nodes@.len() ==> #[trigger] nodes@[i] < old(self).spec_len(),
            forall|i: int, j: int| 0 <= i < j < nodes@.len() ==> #[trigger] nodes@[i] != #[trigger] nodes@[j],
            forall|i: int|
                0 <= i < nodes@.len() ==> (#[trigger] old(self).spec_meta()[nodes@[i] as int].parent) is None
                    || old(self).spec_meta()[nodes@[i] as int].parent == Some(n.spec_id() as usize),
        ensures
            final(self).wf(),
            final(self).spec_children() == old(self).spec_children().update(n.spec_id(), nodes@),
            final(self).spec_len() == old(self).spec_len(),
            forall|k: int| 0 <= k < nodes@.len() ==> #[trigger] final(self).spec_meta()[nodes@[k] as int] == (NodeMeta {
                parent: Some(n.spec_id() as usize),
                index: k as usize,
                ..old(self).spec_meta()[nodes@[k] as int]
            }),
            forall|m: int| 0 <= m < old(self).spec_len() && !nodes@.contains(m as usize) ==> #[trigger] final(self).spec_meta()[m] == (if old(self).spec_meta()[m].parent == Some(n.spec_id() as usize) {
                NodeMeta { parent: None, index: 0, ..old(self).spec_meta()[m] }
            } else {
                old(self).spec_meta()[m]
            }),
            final(self).spec_values() == old(self).spec_values(),
    {
        let ghost om = self.spec_meta();
        let ghost oc = self.spec_children();
        let ghost id = n.id;
        let old_len = self.children[n.id].len();
        let mut i: usize = 0;
        while i < old_len
            invariant
                id == n.id,
                0 <= id < oc.len(),
                self.children@ == old(self).children@,
                self.values@ == old(self).values@,
                oc == old(self).spec_children(),
                links_ok(om, oc),
                old_len == oc[id as int].len(),
                0 <= i <= old_len,
                self.spec_meta().len() == om.len(),
                forall|m: int| 0 <= m < om.len() ==> #[trigger] self.spec_meta()[m] == (if om[m].parent == Some(id)
                    && om[m].index < i {
                    NodeMeta { parent: None, index: 0, ..om[m] }
                } else {
                    om[m]
                }),
            decreases old_len - i,
        {
            let c = self.children[n.id][i];
            proof {
                assert(oc[id as int][i as int] == c);
            }
            let mut m = self.meta[c];
            m.parent = None;
            m.index = 0;
            self.meta.set(c, m);
            i = i + 1;
            proof {
                assert forall|x: int| 0 <= x < om.len() implies #[trigger] self.spec_meta()[x] == (if om[x].parent == Some(id)
                    && om[x].index < i {
                    NodeMeta { parent: None, index: 0, ..om[x] }
                } else {
                    om[x]
                }) by {
                    if x != c && om[x].parent == Some(id) && om[x].index == i - 1 {
                        assert(oc[id as int][om[x].index as int] == x);
                    }
                }
            }
        }
        let ghost mid = self.spec_meta();
        let mut k: usize = 0;
        while k < nodes.len()
            invariant
                id == n.id,
                0 <= id < oc.len(),
                self.children@ == old(self).children@,
                self.values@ == old(self).values@,
                forall|a: int| 0 <= a < nodes@.len() ==> #[trigger] nodes@[a] < om.len(),
                forall|a: int, b: int| 0 <= a < b < nodes@.len() ==> #[trigger] nodes@[a] != #[trigger] nodes@[b],
                0 <= k <= nodes@.len(),
                self.spec_meta().len() == om.len(),
                mid.len() == om.len(),
                forall|a: int| 0 <= a < k ==> #[trigger] self.spec_meta()[nodes@[a] as int] == (NodeMeta {
                    parent: Some(id),
                    index: a as usize,
                    ..mid[nodes@[a] as int]
                }),
                forall|m: int|
                    0 <= m < om.len() && (forall|a: int| 0 <= a < k ==> #[trigger] nodes@[a] != m as usize) ==> #[trigger] self.spec_meta()[m]
                        == mid[m],
            decreases nodes@.len() - k,
        {
            let c = nodes[k];
            let mut m = self.meta[c];
            m.parent = Some(n.id);
            m.index = k;
            self.meta.set(c, m);
            k = k + 1;
            proof {
                assert forall|a: int| 0 <= a < k implies #[trigger] self.spec_meta()[nodes@[a] as int] == (NodeMeta {
                    parent: Some(id),
                    index: a as usize,
                    ..mid[nodes@[a] as int]
                }) by {
                    if a < k - 1 {
                        assert(nodes@[a] != nodes@[k - 1]);
                    }
                }
                assert forall|m: int|
                    0 <= m < om.len() && (forall|a: int| 0 <= a < k ==> #[trigger] nodes@[a] != m as usize) implies #[trigger] self.spec_meta()[m]
                        == mid[m] by {
                    assert(nodes@[k - 1] != m as usize);
                }
            }
        }
        let list = slice_to_vec(nodes);
        self.children.set(n.id, list);
        proof {
            let fm = self.spec_meta();
            let fc = self.spec_children();
            assert(fc =~= oc.update(id as int, nodes@));
            assert forall|p: int, i: int| 0 <= p < fc.len() && 0 <= i < fc[p].len() implies {
                let c = #[trigger] fc[p][i];
                &&& c < fm.len()
                &&& fm[c as int].parent == Some(p as usize)
                &&& fm[c as int].index == i
            } by {
                if p == id {
                    assert(fc[p][i] == nodes@[i]);
                } else {
                    let c = oc[p][i];
                    assert(fc[p][i] == c);
                    assert(om[c as int].parent == Some(p as usize));
                    if nodes@.contains(c) {
                        let w = choose|w: int| 0 <= w < nodes@.len() && nodes@[w] == c;
                        assert(old(self).spec_meta()[nodes@[w] as int].parent is None || old(self).spec_meta()[nodes@[w] as int].parent == Some(id));
                    }
                }
            }
            assert forall|m: int| 0 <= m < fm.len() && (#[trigger] fm[m].parent) is Some implies {
                let p = fm[m].parent->0;
                &&& p < fc.len()
                &&& fm[m].index < fc[p as int].len()
                &&& fc[p as int][fm[m].index as int] == m
            } by {
                if nodes@.contains(m as usize) {
                    let w = choose|w: int| 0 <= w < nodes@.len() && nodes@[w] == m as usize;
                    assert(fm[nodes@[w] as int].parent == Some(id));
                } else {
                    assert forall|a: int| 0 <= a < nodes@.len() implies #[trigger] nodes@[a] != m as usize by {
                        if nodes@[a] == m as usize {
                            assert(nodes@.contains(m as usize));
                        }
                    }
                    assert(fm[m] == mid[m]);
                    assert(om[m].parent is Some);
                    let p = om[m].parent->0;
                    assert(oc[p as int][om[m].index as int] == m);
                }
            }
            assert forall|kk: int| 0 <= kk < nodes@.len() implies #[trigger] fm[nodes@[kk] as int] == (NodeMeta {
                parent: Some(id),
                index: kk as usize,
                ..om[nodes@[kk] as int]
            }) by {
                let x = nodes@[kk];
                assert(fm[x as int] == NodeMeta { parent: Some(id), index: kk as usize, ..mid[x as int] });
            }
        }
    }

    /// Insert the nodes `nodes`, which have no parent, among the children
    /// of `n` at position `at`; they take `n` and their positions. The
    /// children after them keep their recorded positions, so the tree stays
    /// well formed when they are put at the end.
    pub fn insert_nodes(&mut self, n: Node, at: usize, nodes: &[usize])
        requires
            old(self).wf(),
            old(self).has(n),
            at <= old(self).children_of(n).len(),
            old(self).children_of(n).len() + nodes@.len() <= usize::MAX,
            forall|i: int| 0 <= i < nodes@.len() ==> #[trigger] nodes@[i] < old(self).spec_len(),
            forall|i: int, j: int| 0 <= i < j < nodes@.len() ==> #[trigger] nodes@[i] != #[trigger] nodes@[j],
            forall|i: int| 0 <= i < nodes@.len() ==> (#[trigger] old(self).spec_meta()[nodes@[i] as int].parent) is None,
        ensures
            final(self).spec_children() == old(self).spec_children().update(
                n.spec_id(),
                old(self).children_of(n).subrange(0, at as int) + nodes@ + old(self).children_of(n).subrange(
                    at as int,
                    old(self).children_of(n).len() as int,
                ),
            ),
            final(self).spec_len() == old(self).spec_len(),
            forall|k: int| 0 <= k < nodes@.len() ==> #[trigger] final(self).spec_meta()[nodes@[k] as int] == (NodeMeta {
                parent: Some(n.spec_id() as usize),
                index: (at + k) as usize,
                ..old(self).spec_meta()[nodes@[k] as int]
            }),
            forall|m: int| 0 <= m < old(self).spec_len() && !nodes@.contains(m as usize) ==> #[trigger] final(self).spec_meta()[m]
                == old(self).spec_meta()[m],
            final(self).spec_values() == old(self).spec_values(),
            at == old(self).children_of(n).len() ==> final(self).wf(),
    {
        let ghost om = self.spec_meta();
        let ghost oc = self.spec_children();
        let ghost id = n.id;
        let ghost list = oc[id as int];
        let len = self.children[n.id].len();
        proof {
            assert(self.children@[id as int]@ == list);
        }
        let mut new_list: Vec<usize> = Vec::new();
        let mut j: usize = 0;
        while j < at
            invariant
                id == n.id,
                0 <= id < self.children@.len(),
                self.children@[id as int]@ == list,
                0 <= j <= at <= list.len(),
                new_list@ == list.subrange(0, j as int),
            decreases at - j,
        {
            new_list.push(self.children[n.id][j]);
            j = j + 1;
            assert(new_list@ =~= list.subrange(0, j as int));
        }
        let mut k: usize = 0;
        while k < nodes.len()
            invariant
                id == n.id,
                self.children@ == old(self).children@,
                self.values@ == old(self).values@,
                self.spec_meta().len() == om.len(),
                at <= list.len(),
                list.len() + nodes@.len() <= usize::MAX,
                forall|a: int| 0 <= a < nodes@.len() ==> #[trigger] nodes@[a] < om.len(),
                forall|a: int, b: int| 0 <= a < b < nodes@.len() ==> #[trigger] nodes@[a] != #[trigger] nodes@[b],
                0 <= k <= nodes@.len(),
                new_list@ == list.subrange(0, at as int) + nodes@.take(k as int),
                forall|a: int| 0 <= a < k ==> #[trigger] self.spec_meta()[nodes@[a] as int] == (NodeMeta {
                    parent: Some(id),
                    index: (at + a) as usize,
                    ..om[nodes@[a] as int]
                }),
                forall|m: int|
                    0 <= m < om.len() && (forall|a: int| 0 <= a < k ==> #[trigger] nodes@[a] != m as usize) ==> #[trigger] self.spec_meta()[m]
                        == om[m],
            decreases nodes@.len() - k,
        {
            let c = nodes[k];
            let mut m = self.meta[c];
            m.parent = Some(n.id);
            m.index = at + k;
            self.meta.set(c, m);
            new_list.push(c);
            k = k + 1;
            proof {
                assert(new_list@ =~= list.subrange(0, at as int) + nodes@.take(k as int));
                assert forall|a: int| 0 <= a < k implies #[trigger] self.spec_meta()[nodes@[a] as int] == (NodeMeta {
                    parent: Some(id),
                    index: (at + a) as usize,
                    ..om[nodes@[a] as int]
                }) by {
                    if a < k - 1 {
                        assert(nodes@[a] != nodes@[k - 1]);
                    }
                }
                assert forall|m: int|
                    0 <= m < om.len() && (forall|a: int| 0 <= a < k ==> #[trigger] nodes@[a] != m as usize) implies #[trigger] self.spec_meta()[m]
                        == om[m] by {
                    assert(nodes@[k - 1] != m as usize);
                }
            }
        }
        assert(nodes@.take(nodes@.len() as int) =~= nodes@);
        let mut j: usize = at;
        while j < len
            invariant
                id == n.id,
                0 <= id < self.children@.len(),
                self.children@[id as int]@ == list,
                len == list.len(),
                0 <= at <= j <= len,
                new_list@ == list.subrange(0, at as int) + nodes@ + list.subrange(at as int, j as int),
            decreases len - j,
        {
            new_list.push(self.children[n.id][j]);
            j = j + 1;
            assert(new_list@ =~= list.subrange(0, at as int) + nodes@ + list.subrange(at as int, j as int));
        }
        self.children.set(n.id, new_list);
        proof {
            let fm = self.spec_meta();
            let fc = self.spec_children();
            assert(fc =~= oc.update(id as int, list.subrange(0, at as int) + nodes@ + list.subrange(at as int, list.len() as int)));
            assert forall|m: int| 0 <= m < om.len() && !nodes@.contains(m as usize) implies #[trigger] fm[m] == om[m] by {
                assert forall|a: int| 0 <= a < nodes@.len() implies #[trigger] nodes@[a] != m as usize by {
                    if nodes@[a] == m as usize {
                        assert(nodes@.contains(m as usize));
                    }
                }
            }
            if at == list.len() {
                assert forall|p: int, i: int| 0 <= p < fc.len() && 0 <= i < fc[p].len() implies {
                    let c = #[trigger] fc[p][i];
                    &&& c < fm.len()
                    &&& fm[c as int].parent == Some(p as usize)
                    &&& fm[c as int].index == i
                } by {
                    if p == id && i >= at {
                        assert(fc[p][i] == nodes@[i - at]);
                    } else {
                        let c = oc[p][i];
                        assert(fc[p][i] == c);
                        assert(om[c as int].parent == Some(p as usize));
                        if nodes@.contains(c) {
                            let w = choose|w: int| 0 <= w < nodes@.len() && nodes@[w] == c;
                            assert(om[nodes@[w] as int].parent is None);
                        }
                    }
                }
                assert forall|m: int| 0 <= m < fm.len() && (#[trigger] fm[m].parent) is Some implies {
                    let p = fm[m].parent->0;
                    &&& p < fc.len()
                    &&& fm[m].index < fc[p as int].len()
                    &&& fc[p as int][fm[m].index as int] == m
                } by {
                    if nodes@.contains(m as usize) {
                        let w = choose|w: int| 0 <= w < nodes@.len() && nodes@[w] == m as usize;
                        assert(fm[nodes@[w] as int].index == at + w);
                        assert(fc[id as int][at + w] == nodes@[w]);
                    } else {
                        assert(om[m].parent is Some);
                        let p = om[m].parent->0;
                        assert(oc[p as int][om[m].index as int] == m);
                    }
                }
            }
        }
    }

    /// Put the nodes `nodes`, which have no parent, after the children of
    /// `n`.
    pub fn append_nodes(&mut self, n: Node, nodes: &[usize])
        requires
            old(self).wf(),
            old(self).has(n),
            old(self).children_of(n).len() + nodes@.len() <= usize::MAX,
            forall|i: int| 0 <= i < nodes@.len() ==> #[trigger] nodes@[i] < old(self).spec_len(),
            forall|i: int, j: int| 0 <= i < j < nodes@.len() ==> #[trigger] nodes@[i] != #[trigger] nodes@[j],
            forall|i: int| 0 <= i < nodes@.len() ==> (#[trigger] old(self).spec_meta()[nodes@[i] as int].parent) is None,
        ensures
            final(self).wf(),
            final(self).spec_children() == old(self).spec_children().update(
                n.spec_id(),
                old(self).children_of(n) + nodes@,
            ),
            forall|k: int| 0 <= k < nodes@.len() ==> #[trigger] final(self).spec_meta()[nodes@[k] as int] == (NodeMeta {
                parent: Some(n.spec_id() as usize),
                index: (old(self).children_of(n).len() + k) as usize,
                ..old(self).spec_meta()[nodes@[k] as int]
            }),
            forall|m: int| 0 <= m < old(self).spec_len() && !nodes@.contains(m as usize) ==> #[trigger] final(self).spec_meta()[m]
                == old(self).spec_meta()[m],
            final(self).spec_values() == old(self).spec_values(),
    {
        let len = self.children[n.id].len();
        let ghost list = self.children_of(n);
        self.insert_nodes(n, len, nodes);
        assert(list.subrange(0, len as int) =~= list);
        assert(list.subrange(len as int, len as int) =~= Seq::<usize>::empty());
        assert(list.subrange(0, len as int) + nodes@ + list.subrange(len as int, list.len() as int) =~= list + nodes@);
    }

    /// Put the node `x`, which has no parent, after the children of `n`.
    pub fn push_node(&mut self, n: Node, x: Node)
        requires
            old(self).wf(),
            old(self).has(n),
            old(self).has(x),
            old(self).children_of(n).len() < usize::MAX,
            old(self).meta_of(x).parent is None,
        ensures
            final(self).wf(),
            final(self).spec_children() == old(self).spec_children().update(
                n.spec_id(),
                old(self).children_of(n).push(x.spec_id() as usize),
            ),
            final(self).spec_meta() == old(self).spec_meta().update(
                x.spec_id(),
                NodeMeta {
                    parent: Some(n.spec_id() as usize),
                    index: old(self).children_of(n).len() as usize,
                    ..old(self).meta_of(x)
                },
            ),
            final(self).spec_values() == old(self).spec_values(),
    {
        let one = [x.id];
        let ghost om = self.spec_meta();
        assert(one@ =~= seq![x.id]);
        self.append_nodes(n, &one);
        proof {
            assert(old(self).children_of(n) + one@ =~= old(self).children_of(n).push(x.spec_id() as usize));
            let target = om.update(
                x.spec_id(),
                NodeMeta {
                    parent: Some(n.spec_id() as usize),
                    index: old(self).children_of(n).len() as usize,
                    ..om[x.spec_id()]
                },
            );
            assert forall|m: int| 0 <= m < om.len() implies #[trigger] self.spec_meta()[m] == target[m] by {
                if m != x.spec_id() {
                    assert(!one@.contains(m as usize));
                } else {
                    assert(one@[0] == x.id);
                }
            }
            assert(self.spec_meta() =~= target);
        }
    }

    /// Take the node out of its parent; it keeps no position. `false` when
    /// it has no parent.
    pub fn remove(&mut self, n: Node) -> (r: bool)
        requires
            old(self).wf(),
            old(self).has(n),
        ensures
            final(self).wf(),
            r == (old(self).meta_of(n).parent is Some),
            !r ==> final(self).spec_meta() == old(self).spec_meta() && final(self).spec_children() == old(
                self,
            ).spec_children(),
            r ==> ({
                let p = old(self).meta_of(n).parent->0;
                let i = old(self).meta_of(n).index;
                &&& final(self).spec_children() == old(self).spec_children().update(
                    p as int,
                    removed_children(old(self).spec_children()[p as int], i, (i + 1) as usize),
                )
                &&& final(self).spec_meta() == Seq::new(
                    old(self).spec_len(),
                    |m: int| removed_meta(old(self).spec_meta()[m], p, i, (i + 1) as usize),
                ).update(n.spec_id(), NodeMeta { parent: None, index: 0, ..old(self).meta_of(n) })
            }),
            final(self).spec_values() == old(self).spec_values(),
    {
        match self.meta[n.id].parent {
            Some(p) => {
                let idx = self.meta[n.id].index;
                proof {
                    assert(self.spec_meta()[n.spec_id()].parent is Some);
                }
                let parent = Node { id: p };
                let plen = self.children[p].len();
                assert(idx < plen);
                self.remove_nodes(parent, RangeBound::Included(idx), RangeBound::Excluded(idx + 1));
                let mut m = self.meta[n.id];
                m.index = 0;
                self.meta.set(n.id, m);
                proof {
                    let fm = self.spec_meta();
                    let fc = self.spec_children();
                    assert forall|p2: int, i: int| 0 <= p2 < fc.len() && 0 <= i < fc[p2].len() implies {
                        let c = #[trigger] fc[p2][i];
                        &&& c < fm.len()
                        &&& fm[c as int].parent == Some(p2 as usize)
                        &&& fm[c as int].index == i
                    } by {
                        let c = fc[p2][i];
                        if c == n.id {
                            assert(fm[c as int].parent is None);
                        }
                    }
                }
                true
            },
            None => false,
        }
    }

    /// The status flags of the node include `flag`.
    fn get_status(&self, n: Node, flag: u8) -> (r: bool)
        requires
            self.has(n),
        ensures
            r == (self.meta_of(n).status & flag > 0),
    {
        self.meta[n.id].status & flag > 0
    }

    /// Set or clear the status flags `flag` of the node.
    fn set_status(&mut self, n: Node, flag: u8, bit: bool)
        requires
            old(self).wf(),
            old(self).has(n),
        ensures
            final(self).wf(),
            final(self).spec_children() == old(self).spec_children(),
            final(self).spec_values() == old(self).spec_values(),
            final(self).spec_meta() == old(self).spec_meta().update(
                n.spec_id(),
                NodeMeta {
                    status: if bit {
                        old(self).meta_of(n).status | flag
                    } else {
                        old(self).meta_of(n).status & !flag
                    },
                    ..old(self).meta_of(n)
                },
            ),
    {
        let mut m = self.meta[n.id];
        m.status = if bit { m.status | flag } else { m.status & !flag };
        self.meta.set(n.id, m);
        proof {
            let fm = self.spec_meta();
            let fc = self.spec_children();
            assert forall|p: int, i: int| 0 <= p < fc.len() && 0 <= i < fc[p].len() implies {
                let c = #[trigger] fc[p][i];
                &&& c < fm.len()
                &&& fm[c as int].parent == Some(p as usize)
                &&& fm[c as int].index == i
            } by {
                assert(fc[p][i] == old(self).spec_children()[p][i]);
            }
            assert forall|x: int| 0 <= x < fm.len() && (#[trigger] fm[x].parent) is Some implies {
                let p = fm[x].parent->0;
                &&& p < fc.len()
                &&& fm[x].index < fc[p as int].len()
                &&& fc[p as int][fm[x].index as int] == x
            } by {
                assert(old(self).spec_meta()[x].parent is Some);
            }
        }
    }

    /// The node is silent.
    pub fn is_silent(&self, n: Node) -> (r: bool)
        requires
            self.has(n),
        ensures
            r == (self.meta_of(n).status & FLAG_SILENT > 0),
    {
        self.get_status(n, FLAG_SILENT)
    }

    /// The node is done.
    pub fn is_done(&self, n: Node) -> (r: bool)
        requires
            self.has(n),
        ensures
            r == (self.meta_of(n).status & FLAG_DONE > 0),
    {
        self.get_status(n, FLAG_DONE)
    }

    /// The node is not done: rules still look at it.
    pub fn keep_alive(&mut self, n: Node)
        requires
            old(self).wf(),
            old(self).has(n),
        ensures
            final(self).wf(),
            final(self).spec_children() == old(self).spec_children(),
            final(self).spec_values() == old(self).spec_values(),
            final(self).spec_meta() == old(self).spec_meta().update(
                n.spec_id(),
                NodeMeta { status: old(self).meta_of(n).status & !FLAG_DONE, ..old(self).meta_of(n) },
            ),
    {
        self.set_status(n, FLAG_DONE, false)
    }

    /// The node is silent and done.
    pub fn ignore(&mut self, n: Node)
        requires
            old(self).wf(),
            old(self).has(n),
        ensures
            final(self).wf(),
            final(self).spec_children() == old(self).spec_children(),
            final(self).spec_values() == old(self).spec_values(),
            final(self).spec_meta() == old(self).spec_meta().update(
                n.spec_id(),
                NodeMeta { status: old(self).meta_of(n).status | (FLAG_SILENT | FLAG_DONE), ..old(self).meta_of(n) },
            ),
    {
        self.set_status(n, FLAG_SILENT | FLAG_DONE, true)
    }

    /// The node is silent.
    pub fn flag_silent(&mut self, n: Node)
        requires
            old(self).wf(),
            old(self).has(n),
        ensures
            final(self).wf(),
            final(self).spec_children() == old(self).spec_children(),
            final(self).spec_values() == old(self).spec_values(),
            final(self).spec_meta() == old(self).spec_meta().update(
                n.spec_id(),
                NodeMeta { status: old(self).meta_of(n).status | FLAG_SILENT, ..old(self).meta_of(n) },
            ),
    {
        self.set_status(n, FLAG_SILENT, true)
    }

    /// The node is done.
    pub fn flag_done(&mut self, n: Node)
        requires
            old(self).wf(),
            old(self).has(n),
        ensures
            final(self).wf(),
            final(self).spec_children() == old(self).spec_children(),
            final(self).spec_values() == old(self).spec_values(),
            final(self).spec_meta() == old(self).spec_meta().update(
                n.spec_id(),
                NodeMeta { status: old(self).meta_of(n).status | FLAG_DONE, ..old(self).meta_of(n) },
            ),
    {
        self.set_status(n, FLAG_DONE, true)
    }

    /// Give the node a new value; its status flags are cleared.
    pub fn set_value(&mut self, n: Node, value: V)
        requires
            old(self).wf(),
            old(self).has(n),
        ensures
            final(self).wf(),
            final(self).spec_children() == old(self).spec_children(),
            final(self).spec_values() == old(self).spec_values().update(n.spec_id(), value),
            final(self).spec_meta() == old(self).spec_meta().update(
                n.spec_id(),
                NodeMeta { status: 0, ..old(self).meta_of(n) },
            ),
    {
        let st = self.meta[n.id].status;
        self.values.set(n.id, value);
        self.set_status(n, 255u8, false);
        assert(st & !255u8 == 0) by (bit_vector);
    }

    /// Following parents from `n` ends at a node without parent within the
    /// number of nodes made.
    pub fn is_rooted(&self, n: Node) -> (r: bool)
        requires
            self.wf(),
            self.has(n),
        ensures
            r == rooted(self.spec_meta(), n.spec_id(), self.spec_len()),
    {
        let total = self.meta.len();
        let mut cur = n.id;
        let mut fuel: usize = total;
        loop
            invariant
                self.wf(),
                0 <= cur < self.spec_len(),
                fuel <= total,
                total == self.spec_len(),
                rooted(self.spec_meta(), n.spec_id(), self.spec_len()) == rooted(self.spec_meta(), cur as int, fuel as nat),
            decreases fuel,
        {
            match self.meta[cur].parent {
                None => return true,
                Some(p) => {
                    proof {
                        assert(self.spec_meta()[cur as int].parent is Some);
                    }
                    if fuel == 0 {
                        return false;
                    }
                    cur = p;
                    fuel = fuel - 1;
                },
            }
        }
    }

    /// The next node after `n`: its next sibling, or that of the nearest
    /// ancestor that has one.
    pub fn find_next(&self, n: Node) -> (r: Option<Node>)
        requires
            self.wf(),
            self.has(n),
            rooted(self.spec_meta(), n.spec_id(), self.spec_len()),
        ensures
            r == find_next_spec(self.spec_meta(), self.spec_children(), n.spec_id(), self.spec_len()),
            r matches Some(x) ==> self.has(x),
    {
        let mut cur = n;
        let ghost mut fuel: nat = self.spec_len();
        loop
            invariant
                self.wf(),
                self.has(cur),
                rooted(self.spec_meta(), cur.spec_id(), fuel),
                find_next_spec(self.spec_meta(), self.spec_children(), n.spec_id(), self.spec_len())
                    == find_next_spec(self.spec_meta(), self.spec_children(), cur.spec_id(), fuel),
            decreases fuel,
        {
            match self.next(cur) {
                Some(x) => return Some(x),
                None => {},
            }
            match self.parent(cur) {
                Some(p) => {
                    proof {
                        fuel = (fuel - 1) as nat;
                    }
                    cur = p;
                },
                None => return None,
            }
        }
    }

    /// The node before `n`: its previous sibling, or that of the nearest
    /// ancestor that has one.
    pub fn find_prev(&self, n: Node) -> (r: Option<Node>)
        requires
            self.wf(),
            self.has(n),
            rooted(self.spec_meta(), n.spec_id(), self.spec_len()),
        ensures
            r == find_prev_spec(self.spec_meta(), self.spec_children(), n.spec_id(), self.spec_len()),
            r matches Some(x) ==> self.has(x),
    {
        let mut cur = n;
        let ghost mut fuel: nat = self.spec_len();
        loop
            invariant
                self.wf(),
                self.has(cur),
                rooted(self.spec_meta(), cur.spec_id(), fuel),
                find_prev_spec(self.spec_meta(), self.spec_children(), n.spec_id(), self.spec_len())
                    == find_prev_spec(self.spec_meta(), self.spec_children(), cur.spec_id(), fuel),
            decreases fuel,
        {
            match self.prev(cur) {
                Some(x) => return Some(x),
                None => {},
            }
            match self.parent(cur) {
                Some(p) => {
                    proof {
                        fuel = (fuel - 1) as nat;
                    }
                    cur = p;
                },
                None => return None,
            }
        }
    }

    /// The first node inside `n` that is not a block, going down through
    /// first children; `None` at an empty block.
    pub fn enter_block(&self, n: Node) -> (r: Option<Node>)
        requires
            self.wf(),
            self.has(n),
            block_descends(self.spec_meta(), self.spec_children(), n.spec_id(), self.spec_len()),
        ensures
            r == enter_block_spec(self.spec_meta(), self.spec_children(), n.spec_id(), self.spec_len()),
            r matches Some(x) ==> self.has(x),
    {
        let mut cur = n;
        let ghost mut fuel: nat = self.spec_len();
        while self.meta[cur.id].block
            invariant
                self.wf(),
                self.has(cur),
                block_descends(self.spec_meta(), self.spec_children(), cur.spec_id(), fuel),
                enter_block_spec(self.spec_meta(), self.spec_children(), n.spec_id(), self.spec_len())
                    == enter_block_spec(self.spec_meta(), self.spec_children(), cur.spec_id(), fuel),
            decreases fuel,
        {
            match self.node(cur, 0) {
                Some(child) => {
                    proof {
                        fuel = (fuel - 1) as nat;
                    }
                    cur = child;
                },
                None => return None,
            }
        }
        Some(cur)
    }

    /// The first node that is not a block inside the node before `n`.
    pub fn find_prev_non_block(&self, n: Node) -> (r: Option<Node>)
        requires
            self.wf(),
            self.has(n),
            rooted(self.spec_meta(), n.spec_id(), self.spec_len()),
            forall|x: Node| #[trigger] self.has(x) ==> block_descends(self.spec_meta(), self.spec_children(), x.spec_id(), self.spec_len()),
        ensures
            r == (match find_prev_spec(self.spec_meta(), self.spec_children(), n.spec_id(), self.spec_len()) {
                Some(x) => enter_block_spec(self.spec_meta(), self.spec_children(), x.spec_id(), self.spec_len()),
                None => None,
            }),
    {
        match self.find_prev(n) {
            Some(x) => self.enter_block(x),
            None => None,
        }
    }
}

/// A copy of a slice of node ids.
fn slice_to_vec(s: &[usize]) -> (r: Vec<usize>)
    ensures
        r@ == s@,
{
    let mut r: Vec<usize> = Vec::new();
    let mut i: usize = 0;
    while i < s.len()
        invariant
            0 <= i <= s@.len(),
            r@ == s@.take(i as int),
        decreases s@.len() - i,
    {
        r.push(s[i]);
        i = i + 1;
        assert(r@ =~= s@.take(i as int));
    }
    assert(s@.take(s@.len() as int) =~= s@);
    r
}

/// A node's data after the children `sta..end` of node `n` are removed: a
/// removed child has no parent (its position is kept), a later child moves
/// back by the number removed.
pub open spec fn removed_meta(m: NodeMeta, n: usize, sta: usize, end: usize) -> NodeMeta {
    if m.parent == Some(n) && sta <= m.index < end {
        NodeMeta { parent: None, ..m }
    } else if m.parent == Some(n) && m.index >= end {
        NodeMeta { index: (m.index - (end - sta)) as usize, ..m }
    } else {
        m
    }
}

/// The children of `n` without those at `sta..end`.
pub open spec fn removed_children(c: Seq<usize>, sta: usize, end: usize) -> Seq<usize> {
    c.subrange(0, sta as int) + c.subrange(end as int, c.len() as int)
}

pub proof fn lemma_remove_links(meta: Seq<NodeMeta>, children: Seq<Seq<usize>>, n: usize, sta: usize, end: usize)
    requires
        links_ok(meta, children),
        n < children.len(),
        sta <= end <= children[n as int].len(),
    ensures
        links_ok(
            Seq::new(meta.len(), |m: int| removed_meta(meta[m], n, sta, end)),
            children.update(n as int, removed_children(children[n as int], sta, end)),
        ),
{
    let nm = Seq::new(meta.len(), |m: int| removed_meta(meta[m], n, sta, end));
    let nc = children.update(n as int, removed_children(children[n as int], sta, end));
    let old_list = children[n as int];
    let d = end - sta;
    assert forall|p: int, i: int| 0 <= p < nc.len() && 0 <= i < nc[p].len() implies {
        let c = #[trigger] nc[p][i];
        &&& c < nm.len()
        &&& nm[c as int].parent == Some(p as usize)
        &&& nm[c as int].index == i
    } by {
        if p == n {
            if i < sta {
                let c = old_list[i];
                assert(nc[p][i] == c);
                assert(meta[c as int].parent == Some(n) && meta[c as int].index == i);
            } else {
                let c = old_list[i + d];
                assert(nc[p][i] == c);
                assert(meta[c as int].parent == Some(n) && meta[c as int].index == i + d);
            }
        } else {
            let c = children[p][i];
            assert(nc[p][i] == c);
            assert(meta[c as int].parent == Some(p as usize));
        }
    }
    assert forall|m: int| 0 <= m < nm.len() && (#[trigger] nm[m].parent) is Some implies {
        let p = nm[m].parent->0;
        &&& p < nc.len()
        &&& nm[m].index < nc[p as int].len()
        &&& nc[p as int][nm[m].index as int] == m
    } by {
        assert(meta[m].parent is Some);
        let p = meta[m].parent->0;
        assert(children[p as int][meta[m].index as int] == m);
        if p == n {
            if meta[m].index >= end {
                assert(nc[p as int][nm[m].index as int] == old_list[meta[m].index as int]);
            } else {
                assert(meta[m].index < sta);
                assert(nc[p as int][nm[m].index as int] == old_list[meta[m].index as int]);
            }
        }
    }
}

/// Following parents from node `n` ends at a node without parent within
/// `fuel` steps.
pub open spec fn rooted(meta: Seq<NodeMeta>, n: int, fuel: nat) -> bool
    decreases fuel,
{
    match meta[n].parent {
        None => true,
        Some(p) => fuel > 0 && rooted(meta, p as int, (fuel - 1) as nat),
    }
}

/// The next sibling of `n`, or of its nearest ancestor that has one, looking
/// up at most `fuel` ancestors.
pub open spec fn find_next_spec(meta: Seq<NodeMeta>, children: Seq<Seq<usize>>, n: int, fuel: nat) -> Option<Node>
    decreases fuel,
{
    match next_spec(meta, children, n) {
        Some(x) => Some(x),
        None => match meta[n].parent {
            Some(p) => if fuel > 0 {
                find_next_spec(meta, children, p as int, (fuel - 1) as nat)
            } else {
                None
            },
            None => None,
        },
    }
}

/// The previous sibling of `n`, or of its nearest ancestor that has one,
/// looking up at most `fuel` ancestors.
pub open spec fn find_prev_spec(meta: Seq<NodeMeta>, children: Seq<Seq<usize>>, n: int, fuel: nat) -> Option<Node>
    decreases fuel,
{
    match prev_spec(meta, children, n) {
        Some(x) => Some(x),
        None => match meta[n].parent {
            Some(p) => if fuel > 0 {
                find_prev_spec(meta, children, p as int, (fuel - 1) as nat)
            } else {
                None
            },
            None => None,
        },
    }
}

/// Going down through the first children of blocks from `n` reaches a node
/// that is not a block, or an empty block, within `fuel` steps.
pub open spec fn block_descends(meta: Seq<NodeMeta>, children: Seq<Seq<usize>>, n: int, fuel: nat) -> bool
    decreases fuel,
{
    if !meta[n].block || children[n].len() == 0 {
        true
    } else {
        fuel > 0 && block_descends(meta, children, children[n][0] as int, (fuel - 1) as nat)
    }
}

/// The first node that is not a block going down through the first
/// children of blocks from `n`, within `fuel` steps; `None` at an empty
/// block.
pub open spec fn enter_block_spec(meta: Seq<NodeMeta>, children: Seq<Seq<usize>>, n: int, fuel: nat) -> Option<Node>
    decreases fuel,
{
    if !meta[n].block {
        Some(node_of(n))
    } else if children[n].len() == 0 {
        None
    } else if fuel > 0 {
        enter_block_spec(meta, children, children[n][0] as int, (fuel - 1) as nat)
    } else {
        None
    }
}

/// The sibling after node `n`, if any.
pub open spec fn next_spec(meta: Seq<NodeMeta>, children: Seq<Seq<usize>>, n: int) -> Option<Node> {
    match meta[n].parent {
        Some(p) => if meta[n].index + 1 < children[p as int].len() {
            Some(node_of(children[p as int][meta[n].index + 1] as int))
        } else {
            None
        },
        None => None,
    }
}

/// The sibling before node `n`, if any.
pub open spec fn prev_spec(meta: Seq<NodeMeta>, children: Seq<Seq<usize>>, n: int) -> Option<Node> {
    if meta[n].index == 0 {
        None
    } else {
        match meta[n].parent {
            Some(p) => Some(node_of(children[p as int][meta[n].index - 1] as int)),
            None => None,
        }
    }
}

/// In a tree whose parents and children agree, a node is a child of at most
/// one node, at one position.
pub proof fn lemma_child_unique(
    meta: Seq<NodeMeta>,
    children: Seq<Seq<usize>>,
    p: int,
    i: int,
    q: int,
    j: int,
)
    requires
        links_ok(meta, children),
        0 <= p < children.len(),
        0 <= i < children[p].len(),
        0 <= q < children.len(),
        0 <= j < children[q].len(),
        children[p][i] == children[q][j],
    ensures
        p == q,
        i == j,
{
    let c = children[p][i];
    assert(meta[c as int].parent == Some(p as usize));
    assert(meta[children[q][j] as int].parent == Some(q as usize));
}

} // verus!
