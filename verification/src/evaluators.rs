use vstd::prelude::*;
use crate::eval::{indent_items, indent_plan, indent_state, IndentError, IndentItem, Marker, dedent, dedents, line_break_plan, line_items, line_state, LineItem, binary_op_plan, else_kind, else_plan, if_chain, if_chain_plan, lemma_chain_len_bound, ChainKind, ElseKind, empty_operand_target, first_empty_from, last_empty_before, left_tree, right_tree, runs_between, runs_of, targets_ok, OpTree};
use crate::nodes::{rooted, links_ok, next_spec, node_of, lemma_child_unique, lemma_node_of, lemma_node_is_of_id, removed_children, removed_meta, Node, NodeMeta, NodeTree, FLAG_DONE, FLAG_SILENT};
use crate::lexer::Token;
use crate::ops::OpKey;
use crate::source::{lemma_empty_source, lemma_empty_span, lemma_merge_covers, RangeBound, Source, Span};

verus! {

/// The spans of a sequence of node ids.
pub open spec fn spans_of(meta: Seq<NodeMeta>, ids: Seq<usize>) -> Seq<Span> {
    ids.map_values(|x: usize| meta[x as int].span)
}

/// Every two of the spans can be merged.
pub open spec fn spans_agree(spans: Seq<Span>) -> bool {
    forall|a: int, b: int| 0 <= a < spans.len() && 0 <= b < spans.len() ==> (#[trigger] spans[a]).spec_mergeable(
        #[trigger] spans[b],
    )
}

/// A span that can be merged with each of `spans`.
pub open spec fn agrees_with(s: Span, spans: Seq<Span>) -> bool {
    forall|a: int| 0 <= a < spans.len() ==> s.spec_mergeable(#[trigger] spans[a]) && spans[a].spec_mergeable(s)
}

/// Merging two spans that agree with a third gives one that agrees with it.
pub proof fn lemma_merge_agrees(a: Span, b: Span, x: Span)
    requires
        a.spec_mergeable(b),
        a.spec_mergeable(x),
        b.spec_mergeable(x),
    ensures
        Span::spec_merge(a, b).spec_mergeable(x),
        x.spec_mergeable(Span::spec_merge(a, b)),
{
    if !a.spec_is_empty() && !b.spec_is_empty() {
        lemma_merge_covers(a, b);
    }
}

/// The status of a node after it is marked: silent, and done too when
/// `done` holds.
pub open spec fn marked(status: u8, done: bool) -> u8 {
    if done {
        status | (FLAG_SILENT | FLAG_DONE)
    } else {
        status | FLAG_SILENT
    }
}

/// The ids of the children at the given positions.
pub open spec fn at_positions(c: Seq<usize>, t: Seq<usize>) -> Seq<usize> {
    t.map_values(|x: usize| c[x as int])
}

/// The spans of the children of `n`.
fn child_spans<V>(tree: &NodeTree<V>, n: Node) -> (r: Vec<Span>)
    requires
        tree.wf(),
        tree.has(n),
    ensures
        r@ == spans_of(tree.spec_meta(), tree.children_of(n)),
{
    let c = tree.nodes(n);
    let mut r: Vec<Span> = Vec::new();
    let mut i: usize = 0;
    while i < c.len()
        invariant
            tree.wf(),
            tree.has(n),
            c@ == tree.children_of(n),
            0 <= i <= c@.len(),
            r@ == spans_of(tree.spec_meta(), c@).take(i as int),
        decreases c@.len() - i,
    {
        let x = tree.node(n, i).unwrap();
        proof {
            lemma_node_of(c@[i as int] as int);
        }
        r.push(tree.span(x));
        i = i + 1;
        assert(r@ =~= spans_of(tree.spec_meta(), c@).take(i as int));
    }
    assert(r@ =~= spans_of(tree.spec_meta(), c@));
    r
}

/// Mark the children of `n` at the positions `t` silent, and done too when
/// `done` holds.
fn mark_children<V>(tree: &mut NodeTree<V>, n: Node, t: &[usize], done: bool)
    requires
        old(tree).wf(),
        old(tree).has(n),
        targets_ok(old(tree).children_of(n).len() as usize, t@),
    ensures
        final(tree).wf(),
        final(tree).spec_children() == old(tree).spec_children(),
        final(tree).spec_values() == old(tree).spec_values(),
        final(tree).spec_len() == old(tree).spec_len(),
        forall|m: int|
            0 <= m < old(tree).spec_len() ==> #[trigger] final(tree).spec_meta()[m] == (if at_positions(
                old(tree).children_of(n),
                t@,
            ).contains(m as usize) {
                NodeMeta { status: marked(old(tree).spec_meta()[m].status, done), ..old(tree).spec_meta()[m] }
            } else {
                old(tree).spec_meta()[m]
            }),
{
    let ghost om = tree.spec_meta();
    let ghost c = tree.children_of(n);
    let ghost ids = at_positions(c, t@);
    let mut i: usize = 0;
    while i < t.len()
        invariant
            tree.wf(),
            tree.has(n),
            tree.spec_children() == old(tree).spec_children(),
            tree.spec_values() == old(tree).spec_values(),
            tree.children_of(n) == c,
            om == old(tree).spec_meta(),
            tree.spec_meta().len() == om.len(),
            targets_ok(c.len() as usize, t@),
            ids == at_positions(c, t@),
            0 <= i <= t@.len(),
            forall|m: int|
                0 <= m < om.len() ==> #[trigger] tree.spec_meta()[m] == (if ids.take(i as int).contains(m as usize) {
                    NodeMeta { status: marked(om[m].status, done), ..om[m] }
                } else {
                    om[m]
                }),
        decreases t@.len() - i,
    {
        let x = tree.node(n, t[i]).unwrap();
        let ghost xi = ids[i as int];
        proof {
            assert(t@[i as int] < c.len());
            lemma_node_of(c[t@[i as int] as int] as int);
            assert(ids[i as int] == c[t@[i as int] as int]);
            assert(!ids.take(i as int).contains(ids[i as int])) by {
                let cur = ids.take(i as int);
                if cur.contains(ids[i as int]) {
                    let w = choose|w: int| 0 <= w < cur.len() && cur[w] == ids[i as int];
                    assert(ids[w] == ids[i as int]);
                    assert(t@[w] < t@[i as int]);
                    lemma_child_unique(om, old(tree).spec_children(), n.spec_id(), t@[w] as int, n.spec_id(), t@[i as int] as int);
                }
            }
        }
        if done {
            tree.ignore(x);
        } else {
            tree.flag_silent(x);
        }
        i = i + 1;
        proof {
            assert forall|m: int| 0 <= m < om.len() implies #[trigger] tree.spec_meta()[m] == (if ids.take(i as int).contains(m as usize) {
                NodeMeta { status: marked(om[m].status, done), ..om[m] }
            } else {
                om[m]
            }) by {
                let pre = ids.take(i - 1);
                let cur = ids.take(i as int);
                assert(cur[i - 1] == xi);
                if m == xi {
                    assert(cur.contains(m as usize));
                } else {
                    if cur.contains(m as usize) {
                        let w = choose|w: int| 0 <= w < cur.len() && cur[w] == m as usize;
                        assert(pre[w] == m as usize);
                    }
                    if pre.contains(m as usize) {
                        let w = choose|w: int| 0 <= w < pre.len() && pre[w] == m as usize;
                        assert(cur[w] == m as usize);
                    }
                }
            }
        }
    }
    assert(ids.take(t@.len() as int) =~= ids);
}

/// The ids `s[sta..end]`, copied.
pub(crate) fn copy_range(s: &[usize], sta: usize, end: usize) -> (r: Vec<usize>)
    requires
        sta <= end <= s@.len(),
    ensures
        r@ == s@.subrange(sta as int, end as int),
{
    let mut r: Vec<usize> = Vec::new();
    let mut i: usize = sta;
    while i < end
        invariant
            sta <= i <= end <= s@.len(),
            r@ == s@.subrange(sta as int, i as int),
        decreases end - i,
    {
        r.push(s[i]);
        i = i + 1;
        assert(r@ =~= s@.subrange(sta as int, i as int));
    }
    r
}

/// The status of a node just made: done or not.
pub open spec fn made_status(done: bool) -> u8 {
    if done {
        FLAG_DONE
    } else {
        0
    }
}

/// Ids that are below `len`, distinct, and of nodes without a parent.
pub open spec fn free_ids(meta: Seq<NodeMeta>, ids: Seq<usize>) -> bool {
    &&& forall|a: int| 0 <= a < ids.len() ==> #[trigger] ids[a] < meta.len()
    &&& forall|a: int, b: int| 0 <= a < b < ids.len() ==> #[trigger] ids[a] != #[trigger] ids[b]
    &&& forall|a: int| 0 <= a < ids.len() ==> (#[trigger] meta[ids[a] as int]).parent is None
}

/// A new node with the given value, span and children, which had no parent.
pub(crate) fn make_node<V>(tree: &mut NodeTree<V>, value: V, span: Span, block: bool, group: &[usize], done: bool) -> (r: Node)
    requires
        old(tree).wf(),
        old(tree).spec_len() < usize::MAX,
        free_ids(old(tree).spec_meta(), group@),
    ensures
        final(tree).wf(),
        r.spec_id() == old(tree).spec_len(),
        final(tree).spec_len() == old(tree).spec_len() + 1,
        final(tree).spec_values() == old(tree).spec_values().push(value),
        final(tree).spec_children() == old(tree).spec_children().push(group@),
        final(tree).spec_meta()[r.spec_id()] == (NodeMeta {
            span,
            block,
            parent: None,
            index: 0,
            status: made_status(done),
        }),
        forall|k: int| 0 <= k < group@.len() ==> #[trigger] final(tree).spec_meta()[group@[k] as int] == (NodeMeta {
            parent: Some(r.spec_id() as usize),
            index: k as usize,
            ..old(tree).spec_meta()[group@[k] as int]
        }),
        forall|m: int| 0 <= m < old(tree).spec_len() && !group@.contains(m as usize) ==> #[trigger] final(tree).spec_meta()[m]
            == old(tree).spec_meta()[m],
{
    let ghost om = tree.spec_meta();
    let x = tree.new_node(value, span, block);
    let ghost m1 = tree.spec_meta();
    proof {
        assert forall|a: int| 0 <= a < group@.len() implies (#[trigger] m1[group@[a] as int]).parent is None by {
            assert(m1[group@[a] as int] == om[group@[a] as int]);
        }
    }
    tree.set_nodes(x, group);
    let ghost m2 = tree.spec_meta();
    proof {
        assert(!group@.contains(x.spec_id() as usize)) by {
            if group@.contains(x.spec_id() as usize) {
                let w = choose|w: int| 0 <= w < group@.len() && group@[w] == x.spec_id() as usize;
                assert(group@[w] < om.len());
            }
        }
        assert forall|m: int| 0 <= m < m1.len() && !group@.contains(m as usize) implies #[trigger] m2[m] == m1[m] by {
            if m1[m].parent == Some(x.spec_id() as usize) {
                if m < om.len() {
                    assert(om[m].parent == Some(x.spec_id() as usize));
                    let p = x.spec_id();
                    assert(p < old(tree).spec_children().len());
                }
            }
        }
    }
    if done {
        tree.flag_done(x);
        assert((0u8 | 1u8) == 1u8) by (bit_vector);
    }
    proof {
        let fm = tree.spec_meta();
        assert forall|k: int| 0 <= k < group@.len() implies #[trigger] fm[group@[k] as int] == (NodeMeta {
            parent: Some(x.spec_id() as usize),
            index: k as usize,
            ..om[group@[k] as int]
        }) by {
            assert(group@[k] != x.spec_id() as usize);
            assert(m2[group@[k] as int] == NodeMeta { parent: Some(x.spec_id() as usize), index: k as usize, ..m1[group@[k] as int] });
        }
        assert forall|m: int| 0 <= m < om.len() && !group@.contains(m as usize) implies #[trigger] fm[m] == om[m] by {
            assert(m2[m] == m1[m]);
        }
    }
    x
}

/// The ids of the children in a run of positions.
pub open spec fn run_ids(c: Seq<usize>, run: (usize, usize)) -> Seq<usize> {
    c.subrange(run.0 as int, run.1 as int)
}

/// A child is at one of the positions `t` only when its position is one of
/// them.
proof fn lemma_at_positions(meta: Seq<NodeMeta>, children: Seq<Seq<usize>>, p: int, t: Seq<usize>, q: int)
    requires
        links_ok(meta, children),
        0 <= p < children.len(),
        targets_ok(children[p].len() as usize, t),
        0 <= q < children[p].len(),
    ensures
        at_positions(children[p], t).contains(children[p][q]) <==> t.contains(q as usize),
{
    let c = children[p];
    let ids = at_positions(c, t);
    if ids.contains(c[q]) {
        let w = choose|w: int| 0 <= w < ids.len() && ids[w] == c[q];
        assert(t[w] < c.len());
        lemma_child_unique(meta, children, p, t[w] as int, p, q);
        assert(t[w] == q as usize);
    }
    if t.contains(q as usize) {
        let w = choose|w: int| 0 <= w < t.len() && t[w] == q as usize;
        assert(ids[w] == c[q]);
    }
}

/// Id of the node made for target `i` of `k`, in a tree of `len` nodes: the
/// nodes are made from the last target back.
pub open spec fn made_id(len: nat, k: nat, i: int) -> int {
    len + k - 1 - i
}

/// Children of the print node of target `i`: the children after the target
/// up to the next one, then the print node of the next target.
pub open spec fn print_children(c: Seq<usize>, t: Seq<usize>, len: nat, i: int) -> Seq<usize> {
    let own = run_ids(c, runs_between(c.len() as usize, t)[i + 1]);
    if i + 1 < t.len() {
        own.push(made_id(len, t.len(), i + 1) as usize)
    } else {
        own
    }
}

/// Span of the print node of target `i`: from the target to the last node
/// it takes.
pub open spec fn print_span(spans: Seq<Span>, t: Seq<usize>, i: int) -> Span
    decreases t.len() - i,
{
    if 0 <= i && i + 1 < t.len() {
        Span::spec_merge(spans[t[i] as int], print_span(spans, t, i + 1))
    } else if t[i] + 1 == spans.len() {
        spans[t[i] as int]
    } else {
        Span::spec_merge(spans[t[i] as int], spans.last())
    }
}

/// The span of a print node can be merged with each span of the children.
proof fn lemma_print_span_agrees(spans: Seq<Span>, t: Seq<usize>, i: int)
    requires
        spans_agree(spans),
        targets_ok(spans.len() as usize, t),
        0 <= i < t.len(),
    ensures
        agrees_with(print_span(spans, t, i), spans),
    decreases t.len() - i,
{
    let a = spans[t[i] as int];
    assert(t[i] < spans.len());
    if i + 1 < t.len() {
        lemma_print_span_agrees(spans, t, i + 1);
        let b = print_span(spans, t, i + 1);
        assert forall|x: int| 0 <= x < spans.len() implies print_span(spans, t, i).spec_mergeable(#[trigger] spans[x])
            && spans[x].spec_mergeable(print_span(spans, t, i)) by {
            assert(a.spec_mergeable(spans[x]));
            assert(b.spec_mergeable(spans[x]));
            assert(a.spec_mergeable(b)) by {
                assert(b.spec_mergeable(a));
            }
            lemma_merge_agrees(a, b, spans[x]);
        }
    } else if t[i] + 1 == spans.len() {
    } else {
        let b = spans.last();
        assert forall|x: int| 0 <= x < spans.len() implies print_span(spans, t, i).spec_mergeable(#[trigger] spans[x])
            && spans[x].spec_mergeable(print_span(spans, t, i)) by {
            assert(a.spec_mergeable(spans[x]));
            assert(b.spec_mergeable(spans[x]));
            assert(a.spec_mergeable(b));
            lemma_merge_agrees(a, b, spans[x]);
        }
    }
}

/// Turns each matched child and the children after it into a print node,
/// nested from the last match back: the node of a match takes the children
/// up to the next match, then the node of the next match.
#[derive(Debug)]
pub struct EvalPrint;

impl EvalPrint {
    /// Apply the rule to the children of `parent` at the positions
    /// `targets`; `print` is the value of the nodes made. The matched
    /// children become silent and leave the tree.
    pub fn eval_nodes<V: Copy>(&self, tree: &mut NodeTree<V>, parent: Node, targets: &[usize], print: V)
        requires
            old(tree).wf(),
            old(tree).has(parent),
            targets_ok(old(tree).children_of(parent).len() as usize, targets@),
            old(tree).spec_len() + targets@.len() <= usize::MAX,
            spans_agree(spans_of(old(tree).spec_meta(), old(tree).children_of(parent))),
        ensures
            final(tree).wf(),
            ({
                let len = old(tree).spec_len();
                let k = targets@.len();
                let t = targets@;
                let c = old(tree).children_of(parent);
                let om = old(tree).spec_meta();
                let spans = spans_of(om, c);
                &&& final(tree).spec_len() == len + k
                &&& final(tree).spec_values() == old(tree).spec_values() + Seq::new(k, |_i: int| print)
                &&& k == 0 ==> final(tree).spec_children() == old(tree).spec_children()
                &&& k > 0 ==> final(tree).children_of(parent) == run_ids(c, runs_between(c.len() as usize, t)[0]).push(
                    made_id(len, k, 0) as usize,
                )
                &&& forall|i: int| 0 <= i < k ==> #[trigger] final(tree).spec_children()[made_id(len, k, i)]
                    == print_children(c, t, len, i)
                &&& forall|i: int|
                    0 <= i < k ==> (#[trigger] final(tree).spec_meta()[made_id(len, k, i)]).span == print_span(spans, t, i)
                        && final(tree).spec_meta()[made_id(len, k, i)].block == false
                        && final(tree).spec_meta()[made_id(len, k, i)].status == FLAG_DONE
                &&& forall|m: int|
                    0 <= m < len && m != parent.spec_id() ==> #[trigger] final(tree).spec_children()[m]
                        == old(tree).spec_children()[m]
                &&& forall|m: int|
                    0 <= m < len && om[m].parent != Some(parent.spec_id() as usize) ==> #[trigger] final(tree).spec_meta()[m]
                        == om[m]
                &&& forall|j: int|
                    0 <= j < k ==> #[trigger] final(tree).spec_meta()[c[t[j] as int] as int] == (NodeMeta {
                        parent: None,
                        status: marked(om[c[t[j] as int] as int].status, false),
                        ..om[c[t[j] as int] as int]
                    })
                &&& forall|q: int|
                    0 <= q < c.len() && !t.contains(q as usize) ==> {
                        let x = #[trigger] final(tree).spec_meta()[c[q] as int];
                        &&& x.span == om[c[q] as int].span
                        &&& x.block == om[c[q] as int].block
                        &&& x.status == om[c[q] as int].status
                    }
            }),
    {
        let k = targets.len();
        if k == 0 {
            assert(tree.spec_values() =~= tree.spec_values() + Seq::new(0, |_i: int| print));
            return;
        }
        let ghost len = tree.spec_len();
        let ghost kn: nat = k as nat;
        let ghost t = targets@;
        let ghost c = tree.children_of(parent);
        let ghost om = tree.spec_meta();
        let ghost oc = tree.spec_children();
        let ghost ov = tree.spec_values();
        let ghost pid = parent.spec_id();
        let n = tree.len(parent);
        let spans = child_spans(tree, parent);
        let ghost sp = spans@;
        mark_children(tree, parent, targets, false);
        let ghost mk = tree.spec_meta();
        let all = tree.remove_nodes(parent, RangeBound::Unbounded, RangeBound::Unbounded);
        proof {
            let ids = at_positions(c, t);
            assert(all@ =~= c);
            assert forall|m: int| 0 <= m < len && om[m].parent != Some(pid as usize) implies #[trigger] tree.spec_meta()[m]
                == om[m] by {
                if ids.contains(m as usize) {
                    let w = choose|w: int| 0 <= w < ids.len() && ids[w] == m as usize;
                    assert(t[w] < n);
                    assert(oc[pid][t[w] as int] == m);
                }
            }
            assert forall|q: int| 0 <= q < n implies {
                let x = #[trigger] tree.spec_meta()[c[q] as int];
                &&& x.span == om[c[q] as int].span
                &&& x.block == om[c[q] as int].block
                &&& x.status == (if t.contains(q as usize) {
                    marked(om[c[q] as int].status, false)
                } else {
                    om[c[q] as int].status
                })
                &&& x.parent is None
                &&& x.index == q
            } by {
                lemma_at_positions(om, oc, pid, t, q);
                assert(om[c[q] as int].parent == Some(pid as usize));
                assert(om[c[q] as int].index == q);
            }
        }
        let mut next: Option<Node> = None;
        let mut next_span = Span::empty();
        let mut i: usize = k;
        while i > 0
            invariant
                tree.wf(),
                tree.has(parent),
                pid == parent.spec_id(),
                0 <= pid < len,
                k == t.len(),
                kn == k,
                n == c.len(),
                t == targets@,
                all@ == c,
                sp == spans@,
                sp == spans_of(om, c),
                targets_ok(n, t),
                spans_agree(sp),
                links_ok(om, oc),
                oc[pid] == c,
                oc.len() == len,
                om.len() == len,
                len + k <= usize::MAX,
                0 <= i <= k,
                tree.spec_len() == len + (k - i),
                tree.spec_values() == ov + Seq::new((k - i) as nat, |_x: int| print),
                tree.spec_children()[pid] == Seq::<usize>::empty(),
                forall|m: int| 0 <= m < len && m != pid ==> #[trigger] tree.spec_children()[m] == oc[m],
                forall|j: int| i <= j < k ==> #[trigger] tree.spec_children()[made_id(len, kn, j)] == print_children(c, t, len, j),
                forall|j: int|
                    i <= j < k ==> (#[trigger] tree.spec_meta()[made_id(len, kn, j)]).span == print_span(sp, t, j)
                        && tree.spec_meta()[made_id(len, kn, j)].block == false
                        && tree.spec_meta()[made_id(len, kn, j)].status == FLAG_DONE,
                i < k ==> tree.spec_meta()[made_id(len, kn, i as int)].parent is None,
                i < k ==> next == Some(node_of(made_id(len, kn, i as int))) && next_span == print_span(sp, t, i as int),
                i == k ==> next is None,
                forall|m: int| 0 <= m < len && om[m].parent != Some(pid as usize) ==> #[trigger] tree.spec_meta()[m] == om[m],
                forall|q: int|
                    0 <= q < n ==> {
                        let x = #[trigger] tree.spec_meta()[c[q] as int];
                        &&& x.span == om[c[q] as int].span
                        &&& x.block == om[c[q] as int].block
                        &&& x.status == (if t.contains(q as usize) {
                            marked(om[c[q] as int].status, false)
                        } else {
                            om[c[q] as int].status
                        })
                    },
                forall|q: int|
                    0 <= q < n && (i == k || q <= t[i as int]) ==> (#[trigger] tree.spec_meta()[c[q] as int]).parent is None
                        && tree.spec_meta()[c[q] as int].index == q,
                forall|j: int|
                    0 <= j < k ==> (#[trigger] tree.spec_meta()[c[t[j] as int] as int]).parent is None
                        && tree.spec_meta()[c[t[j] as int] as int].index == t[j],
            decreases i,
        {
            let j = i - 1;
            let tj = targets[j];
            let end = if j + 1 < k {
                targets[j + 1]
            } else {
                n
            };
            proof {
                assert(tj < n);
                if j + 1 < k {
                    assert(t[j as int] < t[j + 1]);
                }
                lemma_print_span_agrees(sp, t, j as int);
                if j + 1 < k {
                    lemma_print_span_agrees(sp, t, j + 1);
                }
            }
            let mut group = copy_range(all.as_slice(), tj + 1, end);
            let span = match next {
                Some(_) => {
                    proof {
                        assert(print_span(sp, t, j + 1).spec_mergeable(sp[tj as int]));
                    }
                    Span::merge(spans[tj], next_span)
                },
                None => if tj + 1 == n {
                    spans[tj]
                } else {
                    Span::merge(spans[tj], spans[n - 1])
                },
            };
            let ghost own = group@;
            match next {
                Some(p) => group.push(p.id()),
                None => {},
            }
            let ghost m0 = tree.spec_meta();
            proof {
                assert(runs_between(n, t)[j + 1] == ((tj + 1) as usize, end));
                assert(own == run_ids(c, runs_between(n, t)[j + 1]));
                if j + 1 < k {
                    lemma_node_of(made_id(len, kn, j + 1));
                }
                assert(span == print_span(sp, t, j as int));
                assert(group@ == print_children(c, t, len, j as int));
                assert forall|a: int, b: int| 0 <= a < b < group@.len() implies #[trigger] group@[a] != #[trigger] group@[b] by {
                    if b < own.len() {
                        assert(own[a] == c[tj + 1 + a]);
                        assert(own[b] == c[tj + 1 + b]);
                        if own[a] == own[b] {
                            lemma_child_unique(om, oc, pid, tj + 1 + a, pid, tj + 1 + b);
                        }
                    } else {
                        assert(own[a] == c[tj + 1 + a]);
                    }
                }
                assert forall|a: int| 0 <= a < group@.len() implies #[trigger] group@[a] < m0.len() by {
                    if a < own.len() {
                        assert(own[a] == c[tj + 1 + a]);
                    }
                }
                assert forall|a: int| 0 <= a < group@.len() implies (#[trigger] m0[group@[a] as int]).parent is None by {
                    if a < own.len() {
                        assert(own[a] == c[tj + 1 + a]);
                        assert(i == k || tj + 1 + a <= t[i as int]);
                    }
                }
            }
            let node = make_node(tree, print, span, false, group.as_slice(), true);
            proof {
                let fm = tree.spec_meta();
                assert(node.spec_id() == made_id(len, kn, j as int));
                assert(tree.spec_values() =~= ov + Seq::new((k - j) as nat, |_x: int| print));
                assert forall|m: int| 0 <= m < len && om[m].parent != Some(pid as usize) implies #[trigger] fm[m] == om[m] by {
                    if group@.contains(m as usize) {
                        let w = choose|w: int| 0 <= w < group@.len() && group@[w] == m as usize;
                        if w < own.len() {
                            assert(own[w] == c[tj + 1 + w]);
                            assert(om[c[tj + 1 + w] as int].parent == Some(pid as usize));
                        }
                    }
                }
                assert forall|q: int| 0 <= q < n && (j == k || q <= t[j as int]) implies (#[trigger] fm[c[q] as int]).parent is None
                    && fm[c[q] as int].index == q by {
                    if group@.contains(c[q]) {
                        let w = choose|w: int| 0 <= w < group@.len() && group@[w] == c[q];
                        if w < own.len() {
                            assert(own[w] == c[tj + 1 + w]);
                            lemma_child_unique(om, oc, pid, tj + 1 + w, pid, q);
                        }
                    }
                    assert(i == k || q <= t[i as int]) by {
                        if i < k {
                            assert(t[j as int] < t[i as int]);
                        }
                    }
                }
                assert forall|jj: int| 0 <= jj < k implies (#[trigger] fm[c[t[jj] as int] as int]).parent is None
                    && fm[c[t[jj] as int] as int].index == t[jj] by {
                    assert(t[jj] < n);
                    if group@.contains(c[t[jj] as int]) {
                        let w = choose|w: int| 0 <= w < group@.len() && group@[w] == c[t[jj] as int];
                        if w < own.len() {
                            assert(own[w] == c[tj + 1 + w]);
                            lemma_child_unique(om, oc, pid, tj + 1 + w, pid, t[jj] as int);
                            if jj <= j {
                                if jj < j {
                                    assert(t[jj] < t[j as int]);
                                }
                            } else if jj == j + 1 {
                            } else {
                                assert(t[j + 1] < t[jj]);
                            }
                        }
                    }
                }
                assert forall|q: int| 0 <= q < n implies {
                    let x = #[trigger] fm[c[q] as int];
                    &&& x.span == om[c[q] as int].span
                    &&& x.block == om[c[q] as int].block
                    &&& x.status == (if t.contains(q as usize) {
                        marked(om[c[q] as int].status, false)
                    } else {
                        om[c[q] as int].status
                    })
                } by {
                    assert(c[q] < len);
                    if group@.contains(c[q]) {
                        let w = choose|w: int| 0 <= w < group@.len() && group@[w] == c[q];
                        assert(fm[group@[w] as int] == NodeMeta {
                            parent: Some(node.spec_id() as usize),
                            index: w as usize,
                            ..m0[group@[w] as int]
                        });
                    }
                }
                assert forall|jj: int|
                    j <= jj < k implies (#[trigger] fm[made_id(len, kn, jj)]).span == print_span(sp, t, jj) && fm[made_id(
                        len,
                        kn,
                        jj,
                    )].block == false && fm[made_id(len, kn, jj)].status == FLAG_DONE by {
                    if jj > j {
                        let x = made_id(len, kn, jj);
                        if group@.contains(x as usize) {
                            let w = choose|w: int| 0 <= w < group@.len() && group@[w] == x as usize;
                            assert(fm[group@[w] as int] == NodeMeta {
                                parent: Some(node.spec_id() as usize),
                                index: w as usize,
                                ..m0[group@[w] as int]
                            });
                        }
                    }
                }
                assert forall|m: int| 0 <= m < len && m != pid implies #[trigger] tree.spec_children()[m] == oc[m] by {
                }
                assert forall|jj: int| j <= jj < k implies #[trigger] tree.spec_children()[made_id(len, kn, jj)] == print_children(
                    c,
                    t,
                    len,
                    jj,
                ) by {
                }
                lemma_node_is_of_id(node);
            }
            next = Some(node);
            next_span = span;
            i = j;
        }
        let mut head = copy_range(all.as_slice(), 0, targets[0]);
        let ghost own = head@;
        let first = next.unwrap();
        head.push(first.id());
        let ghost m0 = tree.spec_meta();
        proof {
            assert(t[0] < n);
            lemma_node_of(made_id(len, kn, 0));
            assert(head@[own.len() as int] == made_id(len, kn, 0));
            assert forall|a: int, b: int| 0 <= a < b < head@.len() implies #[trigger] head@[a] != #[trigger] head@[b] by {
                if b < own.len() {
                    assert(own[a] == c[a]);
                    assert(own[b] == c[b]);
                    if own[a] == own[b] {
                        lemma_child_unique(om, oc, pid, a, pid, b);
                    }
                } else {
                    assert(own[a] == c[a]);
                }
            }
            assert forall|a: int| 0 <= a < head@.len() implies #[trigger] head@[a] < m0.len() by {
                if a < own.len() {
                    assert(own[a] == c[a]);
                }
            }
            assert forall|a: int| 0 <= a < head@.len() implies (#[trigger] m0[head@[a] as int]).parent is None || m0[head@[a] as int].parent
                == Some(pid as usize) by {
                if a < own.len() {
                    assert(own[a] == c[a]);
                }
            }
        }
        tree.set_nodes(parent, head.as_slice());
        proof {
            let fm = tree.spec_meta();
            assert forall|m: int| 0 <= m < m0.len() && !head@.contains(m as usize) implies #[trigger] fm[m] == m0[m] by {
                if m0[m].parent == Some(pid as usize) {
                    assert(tree.spec_children().len() == m0.len());
                }
            }
            assert forall|m: int| 0 <= m < len && om[m].parent != Some(pid as usize) implies #[trigger] fm[m] == om[m] by {
                if head@.contains(m as usize) {
                    let w = choose|w: int| 0 <= w < head@.len() && head@[w] == m as usize;
                    if w < own.len() {
                        assert(own[w] == c[w]);
                    }
                }
            }
            assert forall|jj: int| 0 <= jj < k implies #[trigger] fm[c[t[jj] as int] as int] == (NodeMeta {
                parent: None,
                status: marked(om[c[t[jj] as int] as int].status, false),
                ..om[c[t[jj] as int] as int]
            }) by {
                assert(t[jj] < n);
                lemma_at_positions(om, oc, pid, t, t[jj] as int);
                assert(t.contains(t[jj]));
                if head@.contains(c[t[jj] as int]) {
                    let w = choose|w: int| 0 <= w < head@.len() && head@[w] == c[t[jj] as int];
                    if w < own.len() {
                        assert(own[w] == c[w]);
                        lemma_child_unique(om, oc, pid, w, pid, t[jj] as int);
                        if jj > 0 {
                            assert(t[0] < t[jj]);
                        }
                    }
                }
            }
            assert forall|q: int| 0 <= q < n && !t.contains(q as usize) implies {
                let x = #[trigger] fm[c[q] as int];
                &&& x.span == om[c[q] as int].span
                &&& x.block == om[c[q] as int].block
                &&& x.status == om[c[q] as int].status
            } by {
                if head@.contains(c[q]) {
                    let w = choose|w: int| 0 <= w < head@.len() && head@[w] == c[q];
                    assert(fm[head@[w] as int] == NodeMeta { parent: Some(pid as usize), index: w as usize, ..m0[head@[w] as int] });
                }
            }
            assert forall|jj: int|
                0 <= jj < k implies (#[trigger] fm[made_id(len, kn, jj)]).span == print_span(sp, t, jj) && fm[made_id(
                    len,
                    kn,
                    jj,
                )].block == false && fm[made_id(len, kn, jj)].status == FLAG_DONE by {
                let x = made_id(len, kn, jj);
                if head@.contains(x as usize) {
                    let w = choose|w: int| 0 <= w < head@.len() && head@[w] == x as usize;
                    assert(fm[head@[w] as int] == NodeMeta { parent: Some(pid as usize), index: w as usize, ..m0[head@[w] as int] });
                }
            }
            assert(head@ == run_ids(c, runs_between(n, t)[0]).push(made_id(len, kn, 0) as usize));
        }
    }
}

/// Span of the children `s..e`: from the first to the last.
pub open spec fn run_span(spans: Seq<Span>, s: usize, e: usize) -> Span {
    if e == s + 1 {
        spans[s as int]
    } else {
        Span::spec_merge(spans[s as int], spans[e - 1])
    }
}

/// The node `id` and the nodes below it, all made after the first `len`
/// nodes, are the operator tree `plan` over the children `c`: an operand is
/// a node of value `group` whose children are its run, a block that is
/// done; an operator is a node of value `op` with its two operands, first
/// the left one. The span of an operand covers its run, that of an operator
/// merges the spans of its operands, the one made first first.
pub open spec fn built<V>(
    tree: NodeTree<V>,
    id: int,
    plan: OpTree,
    c: Seq<usize>,
    spans: Seq<Span>,
    len: nat,
    group: V,
    op: V,
    group_right: bool,
) -> bool
    decreases plan,
{
    let ch = tree.spec_children();
    let meta = tree.spec_meta();
    &&& len <= id < tree.spec_len()
    &&& match plan {
        OpTree::Operand(s, e) => {
            &&& ch[id] == c.subrange(s as int, e as int)
            &&& tree.spec_values()[id] == group
            &&& meta[id].span == run_span(spans, s, e)
            &&& meta[id].block
            &&& meta[id].status == FLAG_DONE
        },
        OpTree::Op(l, r) => {
            &&& ch[id].len() == 2
            &&& tree.spec_values()[id] == op
            &&& !meta[id].block
            &&& meta[id].status == 0
            &&& meta[id].span == (if group_right {
                Span::spec_merge(meta[ch[id][1] as int].span, meta[ch[id][0] as int].span)
            } else {
                Span::spec_merge(meta[ch[id][0] as int].span, meta[ch[id][1] as int].span)
            })
            &&& built(tree, ch[id][0] as int, *l, c, spans, len, group, op, group_right)
            &&& built(tree, ch[id][1] as int, *r, c, spans, len, group, op, group_right)
        },
    }
}

/// A built operator tree stays built while the nodes made so far keep their
/// children, values, spans, kinds and status.
proof fn lemma_built_frame<V>(
    a: NodeTree<V>,
    b: NodeTree<V>,
    id: int,
    plan: OpTree,
    c: Seq<usize>,
    spans: Seq<Span>,
    len: nat,
    group: V,
    op: V,
    group_right: bool,
)
    requires
        built(a, id, plan, c, spans, len, group, op, group_right),
        a.spec_len() <= b.spec_len(),
        forall|x: int| len <= x < a.spec_len() ==> #[trigger] b.spec_children()[x] == a.spec_children()[x],
        forall|x: int| len <= x < a.spec_len() ==> #[trigger] b.spec_values()[x] == a.spec_values()[x],
        forall|x: int|
            len <= x < a.spec_len() ==> (#[trigger] b.spec_meta()[x]).span == a.spec_meta()[x].span
                && b.spec_meta()[x].block == a.spec_meta()[x].block && b.spec_meta()[x].status
                == a.spec_meta()[x].status,
    ensures
        built(b, id, plan, c, spans, len, group, op, group_right),
    decreases plan,
{
    match plan {
        OpTree::Operand(s, e) => {},
        OpTree::Op(l, r) => {
            let ch = a.spec_children();
            lemma_built_frame(a, b, ch[id][0] as int, *l, c, spans, len, group, op, group_right);
            lemma_built_frame(a, b, ch[id][1] as int, *r, c, spans, len, group, op, group_right);
            assert(b.spec_children()[id] == ch[id]);
            assert(built(a, ch[id][0] as int, *l, c, spans, len, group, op, group_right));
            assert(built(a, ch[id][1] as int, *r, c, spans, len, group, op, group_right));
        },
    }
}

/// Without a first empty run from `i` on, every run from `i` on has
/// children.
proof fn lemma_no_first_empty(runs: Seq<(usize, usize)>, i: int)
    requires
        0 <= i,
        first_empty_from(runs, i) is None,
    ensures
        forall|j: int| i <= j < runs.len() ==> (#[trigger] runs[j]).0 != runs[j].1,
    decreases runs.len() - i,
{
    if i < runs.len() {
        lemma_no_first_empty(runs, i + 1);
    }
}

/// Without a last empty run before `i`, every run before `i` has children.
proof fn lemma_no_last_empty(runs: Seq<(usize, usize)>, i: int)
    requires
        i <= runs.len(),
        last_empty_before(runs, i) is None,
    ensures
        forall|j: int| 0 <= j < i ==> (#[trigger] runs[j]).0 != runs[j].1,
    decreases i,
{
    if i > 0 {
        lemma_no_last_empty(runs, i - 1);
    }
}

/// The runs of a parent's children are in order, within the children, and
/// end at the targets.
proof fn lemma_runs_bounds(n: usize, t: Seq<usize>)
    requires
        targets_ok(n, t),
    ensures
        forall|i: int| 0 <= i < t.len() + 1 ==> (#[trigger] runs_between(n, t)[i]).0 <= runs_between(n, t)[i].1 <= n,
        forall|i: int| 0 <= i < t.len() ==> (#[trigger] runs_between(n, t)[i]).1 == t[i],
        forall|i: int| 0 < i < t.len() + 1 ==> (#[trigger] runs_between(n, t)[i]).0 == t[i - 1] + 1,
        forall|i: int, j: int|
            0 <= i < j < t.len() + 1 ==> (#[trigger] runs_between(n, t)[i]).1 < (#[trigger] runs_between(n, t)[j]).0,
        runs_between(n, t)[0].0 == 0,
        runs_between(n, t)[t.len() as int].1 == n,
{
    let runs = runs_between(n, t);
    assert forall|i: int| 0 <= i < t.len() + 1 implies (#[trigger] runs[i]).0 <= runs[i].1 <= n by {
        if i > 0 && i < t.len() {
            assert(t[i - 1] < t[i]);
        }
        if i > 0 {
            assert(t[i - 1] < n);
        }
        if i < t.len() {
            assert(t[i] < n);
        }
    }
    assert forall|i: int, j: int| 0 <= i < j < t.len() + 1 implies (#[trigger] runs[i]).1 < (#[trigger] runs[j]).0 by {
        if i < j - 1 {
            assert(t[i] < t[j - 1]);
        }
    }
}

/// Ids without repeats.
pub open spec fn distinct_ids(s: Seq<usize>) -> bool {
    forall|a: int, b: int| 0 <= a < b < s.len() ==> #[trigger] s[a] != #[trigger] s[b]
}

/// An operand node for the children `all[s..e]`, which have no parent.
fn make_operand<V>(
    tree: &mut NodeTree<V>,
    all: &[usize],
    spans: &[Span],
    s: usize,
    e: usize,
    group: V,
) -> (r: (Node, Span))
    requires
        old(tree).wf(),
        old(tree).spec_len() < usize::MAX,
        s < e <= all@.len(),
        spans@.len() == all@.len(),
        spans_agree(spans@),
        distinct_ids(all@),
        forall|a: int| 0 <= a < all@.len() ==> #[trigger] all@[a] < old(tree).spec_len(),
        forall|q: int| s <= q < e ==> (#[trigger] old(tree).spec_meta()[all@[q] as int]).parent is None,
    ensures
        final(tree).wf(),
        r.0.spec_id() == old(tree).spec_len(),
        r.1 == run_span(spans@, s, e),
        agrees_with(r.1, spans@),
        final(tree).spec_len() == old(tree).spec_len() + 1,
        final(tree).spec_values() == old(tree).spec_values().push(group),
        final(tree).spec_children() == old(tree).spec_children().push(all@.subrange(s as int, e as int)),
        final(tree).spec_meta()[r.0.spec_id()] == (NodeMeta {
            span: r.1,
            block: true,
            parent: None,
            index: 0,
            status: FLAG_DONE,
        }),
        forall|q: int| s <= q < e ==> #[trigger] final(tree).spec_meta()[all@[q] as int] == (NodeMeta {
            parent: Some(r.0.spec_id() as usize),
            index: (q - s) as usize,
            ..old(tree).spec_meta()[all@[q] as int]
        }),
        forall|m: int|
            0 <= m < old(tree).spec_len() && !all@.subrange(s as int, e as int).contains(m as usize)
                ==> #[trigger] final(tree).spec_meta()[m] == old(tree).spec_meta()[m],
{
    let span = if e == s + 1 {
        spans[s]
    } else {
        Span::merge(spans[s], spans[e - 1])
    };
    proof {
        if e != s + 1 {
            assert forall|x: int| 0 <= x < spans@.len() implies span.spec_mergeable(#[trigger] spans@[x])
                && spans@[x].spec_mergeable(span) by {
                assert(spans@[s as int].spec_mergeable(spans@[x]));
                assert(spans@[e - 1].spec_mergeable(spans@[x]));
                assert(spans@[s as int].spec_mergeable(spans@[e - 1]));
                lemma_merge_agrees(spans@[s as int], spans@[e - 1], spans@[x]);
            }
        } else {
            assert forall|x: int| 0 <= x < spans@.len() implies span.spec_mergeable(#[trigger] spans@[x])
                && spans@[x].spec_mergeable(span) by {
                assert(spans@[s as int].spec_mergeable(spans@[x]));
                assert(spans@[x].spec_mergeable(spans@[s as int]));
            }
        }
    }
    let group_ids = copy_range(all, s, e);
    let ghost m0 = tree.spec_meta();
    proof {
        assert forall|a: int| 0 <= a < group_ids@.len() implies (#[trigger] m0[group_ids@[a] as int]).parent is None by {
            assert(group_ids@[a] == all@[s + a]);
        }
        assert forall|a: int| 0 <= a < group_ids@.len() implies #[trigger] group_ids@[a] < m0.len() by {
            assert(group_ids@[a] == all@[s + a]);
        }
        assert forall|a: int, b: int| 0 <= a < b < group_ids@.len() implies #[trigger] group_ids@[a] != #[trigger] group_ids@[b] by {
            assert(group_ids@[a] == all@[s + a]);
            assert(group_ids@[b] == all@[s + b]);
        }
    }
    let node = make_node(tree, group, span, true, group_ids.as_slice(), true);
    proof {
        assert forall|q: int| s <= q < e implies #[trigger] tree.spec_meta()[all@[q] as int] == (NodeMeta {
            parent: Some(node.spec_id() as usize),
            index: (q - s) as usize,
            ..m0[all@[q] as int]
        }) by {
            assert(group_ids@[q - s] == all@[q]);
        }
    }
    (node, span)
}

/// The ids of the children in the runs `lo..hi`.
pub open spec fn run_set(all: Seq<usize>, runs: Seq<(usize, usize)>, lo: int, hi: int) -> Set<usize> {
    Set::new(
        |x: usize|
            exists|i: int, q: int|
                lo <= i < hi && runs[i].0 <= q < runs[i].1 && #[trigger] all[q] == x && #[trigger] runs[i] == runs[i],
    )
}

/// Runs in order, each with children.
pub open spec fn runs_ok(runs: Seq<(usize, usize)>, n: int) -> bool {
    &&& forall|i: int| 0 <= i < runs.len() ==> (#[trigger] runs[i]).0 < runs[i].1 <= n
    &&& forall|i: int, j: int| 0 <= i < j < runs.len() ==> (#[trigger] runs[i]).1 <= (#[trigger] runs[j]).0
}

/// A child of a run belongs to the ids of a range of runs only when the run
/// is in the range.
proof fn lemma_run_set(all: Seq<usize>, runs: Seq<(usize, usize)>, lo: int, hi: int, j: int, q: int)
    requires
        distinct_ids(all),
        runs_ok(runs, all.len() as int),
        0 <= lo,
        hi <= runs.len(),
        0 <= j < runs.len(),
        runs[j].0 <= q < runs[j].1,
        run_set(all, runs, lo, hi).contains(all[q]),
    ensures
        lo <= j < hi,
{
    let (i, w) = choose|i: int, w: int|
        lo <= i < hi && runs[i].0 <= w < runs[i].1 && #[trigger] all[w] == all[q] && #[trigger] runs[i] == runs[i];
    if w != q {
        if w < q {
            assert(all[w] != all[q]);
        } else {
            assert(all[q] != all[w]);
        }
    }
    if i < j {
        assert(runs[i].1 <= runs[j].0);
    } else if j < i {
        assert(runs[j].1 <= runs[i].0);
    }
}

/// The operands in `runs` over the children `all`, which have no parent,
/// grouped to the left under operator nodes.
#[verifier::spinoff_prover]
#[verifier::rlimit(40)]
fn build_left<V: Copy>(
    tree: &mut NodeTree<V>,
    all: &[usize],
    spans: &[Span],
    runs: &[(usize, usize)],
    group: V,
    op: V,
) -> (r: Node)
    requires
        old(tree).wf(),
        runs@.len() >= 1,
        old(tree).spec_len() + 2 * runs@.len() <= usize::MAX,
        spans@.len() == all@.len(),
        spans_agree(spans@),
        distinct_ids(all@),
        forall|a: int| 0 <= a < all@.len() ==> #[trigger] all@[a] < old(tree).spec_len(),
        runs_ok(runs@, all@.len() as int),
        forall|q: int| 0 <= q < all@.len() ==> (#[trigger] old(tree).spec_meta()[all@[q] as int]).parent is None,
    ensures
        final(tree).wf(),
        final(tree).spec_len() == old(tree).spec_len() + 2 * runs@.len() - 1,
        built(*final(tree), r.spec_id(), left_tree(runs@), all@, spans@, old(tree).spec_len(), group, op, false),
        final(tree).spec_meta()[r.spec_id()].parent is None,
        agrees_with(final(tree).spec_meta()[r.spec_id()].span, spans@),
        forall|x: int| 0 <= x < old(tree).spec_len() ==> #[trigger] final(tree).spec_children()[x] == old(tree).spec_children()[x],
        forall|x: int| 0 <= x < old(tree).spec_len() ==> #[trigger] final(tree).spec_values()[x] == old(tree).spec_values()[x],
        forall|x: int|
            0 <= x < old(tree).spec_len() ==> (#[trigger] final(tree).spec_meta()[x]).span == old(tree).spec_meta()[x].span
                && final(tree).spec_meta()[x].block == old(tree).spec_meta()[x].block && final(tree).spec_meta()[x].status
                == old(tree).spec_meta()[x].status,
        forall|x: int|
            0 <= x < old(tree).spec_len() && !run_set(all@, runs@, 0, runs@.len() as int).contains(x as usize)
                ==> #[trigger] final(tree).spec_meta()[x] == old(tree).spec_meta()[x],
{
    let ghost t0 = *tree;
    let ghost len = tree.spec_len();
    let ghost om = tree.spec_meta();
    let m = runs.len();
    let (s0, e0) = runs[0];
    let (first, first_span) = make_operand(tree, all, spans, s0, e0, group);
    let mut acc = first;
    let mut acc_span = first_span;
    proof {
        assert(runs@.take(1).len() == 1);
        assert(left_tree(runs@.take(1)) == OpTree::Operand(s0, e0));
        assert forall|x: int| 0 <= x < len && !run_set(all@, runs@, 0, 1).contains(x as usize) implies #[trigger] tree.spec_meta()[x]
            == om[x] by {
            if all@.subrange(s0 as int, e0 as int).contains(x as usize) {
                let w = choose|w: int| 0 <= w < e0 - s0 && all@.subrange(s0 as int, e0 as int)[w] == x as usize;
                assert(all@[s0 + w] == x as usize);
                assert(runs@[0] == runs@[0]);
            }
        }
    }
    let mut r: usize = 1;
    while r < m
        invariant
            m == runs@.len(),
            1 <= r <= m,
            len == t0.spec_len(),
            om == t0.spec_meta(),
            t0.wf(),
            len + 2 * m <= usize::MAX,
            spans@.len() == all@.len(),
            spans_agree(spans@),
            distinct_ids(all@),
            forall|a: int| 0 <= a < all@.len() ==> #[trigger] all@[a] < len,
            runs_ok(runs@, all@.len() as int),
            forall|q: int| 0 <= q < all@.len() ==> (#[trigger] om[all@[q] as int]).parent is None,
            tree.wf(),
            tree.spec_len() == len + 2 * r - 1,
            built(*tree, acc.spec_id(), left_tree(runs@.take(r as int)), all@, spans@, len, group, op, false),
            tree.spec_meta()[acc.spec_id()].parent is None,
            acc_span == tree.spec_meta()[acc.spec_id()].span,
            agrees_with(acc_span, spans@),
            forall|x: int| 0 <= x < len ==> #[trigger] tree.spec_children()[x] == t0.spec_children()[x],
            forall|x: int| 0 <= x < len ==> #[trigger] tree.spec_values()[x] == t0.spec_values()[x],
            forall|x: int|
                0 <= x < len ==> (#[trigger] tree.spec_meta()[x]).span == om[x].span && tree.spec_meta()[x].block
                    == om[x].block && tree.spec_meta()[x].status == om[x].status,
            forall|x: int|
                0 <= x < len && !run_set(all@, runs@, 0, r as int).contains(x as usize) ==> #[trigger] tree.spec_meta()[x]
                    == om[x],
        decreases m - r,
    {
        let (s, e) = runs[r];
        let ghost t1 = *tree;
        proof {
            assert(runs@[r as int].0 < runs@[r as int].1);
            assert forall|q: int| s <= q < e implies (#[trigger] tree.spec_meta()[all@[q] as int]).parent is None by {
                if run_set(all@, runs@, 0, r as int).contains(all@[q]) {
                    lemma_run_set(all@, runs@, 0, r as int, r as int, q);
                }
            }
        }
        let (g, g_span) = make_operand(tree, all, spans, s, e, group);
        let ghost t2 = *tree;
        proof {
            assert(acc_span.spec_mergeable(g_span)) by {
                assert(acc_span.spec_mergeable(spans@[s as int]));
                assert(g_span.spec_mergeable(spans@[s as int]));
                if !acc_span.spec_is_empty() && !g_span.spec_is_empty() && !spans@[s as int].spec_is_empty() {
                } else if !acc_span.spec_is_empty() && !g_span.spec_is_empty() {
                    assert(spans@[s as int].spec_is_empty());
                    assert(g_span == spans@[s as int] || g_span == Span::spec_merge(spans@[s as int], spans@[e - 1]));
                    assert(acc_span.spec_mergeable(spans@[e - 1]));
                    assert(spans@[s as int].spec_mergeable(spans@[e - 1]));
                    if e != s + 1 {
                        lemma_merge_agrees(spans@[s as int], spans@[e - 1], acc_span);
                    }
                }
            }
        }
        let span = Span::merge(acc_span, g_span);
        let pair = [acc.id(), g.id()];
        let ghost m2 = tree.spec_meta();
        proof {
            assert(pair@ == seq![acc.spec_id() as usize, g.spec_id() as usize]);
            assert(acc.spec_id() < t1.spec_len());
            assert(m2[acc.spec_id()] == t1.spec_meta()[acc.spec_id()]) by {
                if all@.subrange(s as int, e as int).contains(acc.spec_id() as usize) {
                    let w = choose|w: int| 0 <= w < e - s && all@.subrange(s as int, e as int)[w] == acc.spec_id() as usize;
                    assert(all@[s + w] < len);
                }
            }
            assert forall|a: int| 0 <= a < pair@.len() implies (#[trigger] m2[pair@[a] as int]).parent is None by {}
        }
        let b = make_node(tree, op, span, false, &pair, false);
        proof {
            let t3 = *tree;
            lemma_built_frame(t1, t3, acc.spec_id(), left_tree(runs@.take(r as int)), all@, spans@, len, group, op, false);
            assert(runs@.take(r + 1).drop_last() =~= runs@.take(r as int));
            assert(runs@.take(r + 1).last() == runs@[r as int]);
            assert(t3.spec_children()[b.spec_id()] == pair@);
            assert(built(t3, g.spec_id(), OpTree::Operand(s, e), all@, spans@, len, group, op, false)) by {
                assert(t3.spec_children()[g.spec_id()] == t2.spec_children()[g.spec_id()]);
                assert(t3.spec_meta()[g.spec_id()].span == g_span);
            }
            assert(built(t3, b.spec_id(), left_tree(runs@.take(r + 1)), all@, spans@, len, group, op, false));
            assert forall|x: int| 0 <= x < spans@.len() implies span.spec_mergeable(#[trigger] spans@[x]) && spans@[x].spec_mergeable(span) by {
                lemma_merge_agrees(acc_span, g_span, spans@[x]);
            }
            assert forall|x: int|
                0 <= x < len && !run_set(all@, runs@, 0, r + 1).contains(x as usize) implies #[trigger] t3.spec_meta()[x] == om[x] by {
                if all@.subrange(s as int, e as int).contains(x as usize) {
                    let w = choose|w: int| 0 <= w < e - s && all@.subrange(s as int, e as int)[w] == x as usize;
                    assert(all@[s + w] == x as usize);
                    assert(runs@[r as int] == runs@[r as int]);
                }
                if run_set(all@, runs@, 0, r as int).contains(x as usize) {
                    let (i, q) = choose|i: int, q: int|
                        0 <= i < r && runs@[i].0 <= q < runs@[i].1 && #[trigger] all@[q] == x as usize && #[trigger] runs@[i] == runs@[i];
                    assert(run_set(all@, runs@, 0, r + 1).contains(x as usize));
                }
            }
            lemma_node_is_of_id(b);
        }
        acc = b;
        acc_span = span;
        r = r + 1;
    }
    assert(runs@.take(m as int) =~= runs@);
    acc
}

/// The operands in `runs` over the children `all`, which have no parent,
/// grouped to the right under operator nodes.
#[verifier::spinoff_prover]
#[verifier::rlimit(40)]
fn build_right<V: Copy>(
    tree: &mut NodeTree<V>,
    all: &[usize],
    spans: &[Span],
    runs: &[(usize, usize)],
    group: V,
    op: V,
) -> (r: Node)
    requires
        old(tree).wf(),
        runs@.len() >= 1,
        old(tree).spec_len() + 2 * runs@.len() <= usize::MAX,
        spans@.len() == all@.len(),
        spans_agree(spans@),
        distinct_ids(all@),
        forall|a: int| 0 <= a < all@.len() ==> #[trigger] all@[a] < old(tree).spec_len(),
        runs_ok(runs@, all@.len() as int),
        forall|q: int| 0 <= q < all@.len() ==> (#[trigger] old(tree).spec_meta()[all@[q] as int]).parent is None,
    ensures
        final(tree).wf(),
        final(tree).spec_len() == old(tree).spec_len() + 2 * runs@.len() - 1,
        built(*final(tree), r.spec_id(), right_tree(runs@), all@, spans@, old(tree).spec_len(), group, op, true),
        final(tree).spec_meta()[r.spec_id()].parent is None,
        agrees_with(final(tree).spec_meta()[r.spec_id()].span, spans@),
        forall|x: int| 0 <= x < old(tree).spec_len() ==> #[trigger] final(tree).spec_children()[x] == old(tree).spec_children()[x],
        forall|x: int| 0 <= x < old(tree).spec_len() ==> #[trigger] final(tree).spec_values()[x] == old(tree).spec_values()[x],
        forall|x: int|
            0 <= x < old(tree).spec_len() ==> (#[trigger] final(tree).spec_meta()[x]).span == old(tree).spec_meta()[x].span
                && final(tree).spec_meta()[x].block == old(tree).spec_meta()[x].block && final(tree).spec_meta()[x].status
                == old(tree).spec_meta()[x].status,
        forall|x: int|
            0 <= x < old(tree).spec_len() && !run_set(all@, runs@, 0, runs@.len() as int).contains(x as usize)
                ==> #[trigger] final(tree).spec_meta()[x] == old(tree).spec_meta()[x],
{
    let ghost t0 = *tree;
    let ghost len = tree.spec_len();
    let ghost om = tree.spec_meta();
    let m = runs.len();
    let (sl, el) = runs[m - 1];
    let (last, last_span) = make_operand(tree, all, spans, sl, el, group);
    let mut acc = last;
    let mut acc_span = last_span;
    proof {
        assert(runs@.subrange(m - 1, m as int).len() == 1);
        assert(right_tree(runs@.subrange(m - 1, m as int)) == OpTree::Operand(sl, el));
        assert forall|x: int| 0 <= x < len && !run_set(all@, runs@, m - 1, m as int).contains(x as usize) implies #[trigger] tree.spec_meta()[x]
            == om[x] by {
            if all@.subrange(sl as int, el as int).contains(x as usize) {
                let w = choose|w: int| 0 <= w < el - sl && all@.subrange(sl as int, el as int)[w] == x as usize;
                assert(all@[sl + w] == x as usize);
                assert(runs@[m - 1] == runs@[m - 1]);
            }
        }
    }
    let mut r: usize = m - 1;
    while r > 0
        invariant
            m == runs@.len(),
            m >= 1,
            0 <= r < m,
            len == t0.spec_len(),
            om == t0.spec_meta(),
            t0.wf(),
            len + 2 * m <= usize::MAX,
            spans@.len() == all@.len(),
            spans_agree(spans@),
            distinct_ids(all@),
            forall|a: int| 0 <= a < all@.len() ==> #[trigger] all@[a] < len,
            runs_ok(runs@, all@.len() as int),
            forall|q: int| 0 <= q < all@.len() ==> (#[trigger] om[all@[q] as int]).parent is None,
            tree.wf(),
            tree.spec_len() == len + 2 * (m - r) - 1,
            built(*tree, acc.spec_id(), right_tree(runs@.subrange(r as int, m as int)), all@, spans@, len, group, op, true),
            tree.spec_meta()[acc.spec_id()].parent is None,
            acc_span == tree.spec_meta()[acc.spec_id()].span,
            agrees_with(acc_span, spans@),
            forall|x: int| 0 <= x < len ==> #[trigger] tree.spec_children()[x] == t0.spec_children()[x],
            forall|x: int| 0 <= x < len ==> #[trigger] tree.spec_values()[x] == t0.spec_values()[x],
            forall|x: int|
                0 <= x < len ==> (#[trigger] tree.spec_meta()[x]).span == om[x].span && tree.spec_meta()[x].block
                    == om[x].block && tree.spec_meta()[x].status == om[x].status,
            forall|x: int|
                0 <= x < len && !run_set(all@, runs@, r as int, m as int).contains(x as usize) ==> #[trigger] tree.spec_meta()[x]
                    == om[x],
        decreases r,
    {
        let (s, e) = runs[r - 1];
        let ghost t1 = *tree;
        proof {
            assert(runs@[r - 1].0 < runs@[r - 1].1);
            assert forall|q: int| s <= q < e implies (#[trigger] tree.spec_meta()[all@[q] as int]).parent is None by {
                if run_set(all@, runs@, r as int, m as int).contains(all@[q]) {
                    lemma_run_set(all@, runs@, r as int, m as int, r - 1, q);
                }
            }
        }
        let (g, g_span) = make_operand(tree, all, spans, s, e, group);
        let ghost t2 = *tree;
        proof {
            assert(acc_span.spec_mergeable(g_span)) by {
                assert(acc_span.spec_mergeable(spans@[s as int]));
                assert(g_span.spec_mergeable(spans@[s as int]));
                if !acc_span.spec_is_empty() && !g_span.spec_is_empty() && !spans@[s as int].spec_is_empty() {
                } else if !acc_span.spec_is_empty() && !g_span.spec_is_empty() {
                    assert(spans@[s as int].spec_is_empty());
                    assert(acc_span.spec_mergeable(spans@[e - 1]));
                    assert(spans@[s as int].spec_mergeable(spans@[e - 1]));
                    if e != s + 1 {
                        lemma_merge_agrees(spans@[s as int], spans@[e - 1], acc_span);
                    }
                }
            }
        }
        let span = Span::merge(acc_span, g_span);
        let pair = [g.id(), acc.id()];
        let ghost m2 = tree.spec_meta();
        proof {
            assert(pair@ == seq![g.spec_id() as usize, acc.spec_id() as usize]);
            assert(acc.spec_id() < t1.spec_len());
            assert(m2[acc.spec_id()] == t1.spec_meta()[acc.spec_id()]) by {
                if all@.subrange(s as int, e as int).contains(acc.spec_id() as usize) {
                    let w = choose|w: int| 0 <= w < e - s && all@.subrange(s as int, e as int)[w] == acc.spec_id() as usize;
                    assert(all@[s + w] < len);
                }
            }
            assert forall|a: int| 0 <= a < pair@.len() implies (#[trigger] m2[pair@[a] as int]).parent is None by {}
        }
        let b = make_node(tree, op, span, false, &pair, false);
        proof {
            let t3 = *tree;
            lemma_built_frame(t1, t3, acc.spec_id(), right_tree(runs@.subrange(r as int, m as int)), all@, spans@, len, group, op, true);
            assert(runs@.subrange(r - 1, m as int).drop_first() =~= runs@.subrange(r as int, m as int));
            assert(runs@.subrange(r - 1, m as int)[0] == runs@[r - 1]);
            assert(t3.spec_children()[b.spec_id()] == pair@);
            assert(built(t3, g.spec_id(), OpTree::Operand(s, e), all@, spans@, len, group, op, true)) by {
                assert(t3.spec_children()[g.spec_id()] == t2.spec_children()[g.spec_id()]);
                assert(t3.spec_meta()[g.spec_id()].span == g_span);
            }
            assert(built(t3, b.spec_id(), right_tree(runs@.subrange(r - 1, m as int)), all@, spans@, len, group, op, true));
            assert forall|x: int| 0 <= x < spans@.len() implies span.spec_mergeable(#[trigger] spans@[x]) && spans@[x].spec_mergeable(span) by {
                lemma_merge_agrees(acc_span, g_span, spans@[x]);
            }
            assert forall|x: int|
                0 <= x < len && !run_set(all@, runs@, r - 1, m as int).contains(x as usize) implies #[trigger] t3.spec_meta()[x] == om[x] by {
                if all@.subrange(s as int, e as int).contains(x as usize) {
                    let w = choose|w: int| 0 <= w < e - s && all@.subrange(s as int, e as int)[w] == x as usize;
                    assert(all@[s + w] == x as usize);
                    assert(runs@[r - 1] == runs@[r - 1]);
                }
                if run_set(all@, runs@, r as int, m as int).contains(x as usize) {
                    let (i, q) = choose|i: int, q: int|
                        r <= i < m && runs@[i].0 <= q < runs@[i].1 && #[trigger] all@[q] == x as usize && #[trigger] runs@[i] == runs@[i];
                    assert(run_set(all@, runs@, r - 1, m as int).contains(x as usize));
                }
            }
            lemma_node_is_of_id(b);
        }
        acc = b;
        acc_span = span;
        r = r - 1;
    }
    assert(runs@.subrange(0, m as int) =~= runs@);
    acc
}

/// A matched child is in no run of the children between the matches.
proof fn lemma_target_not_in_runs(
    meta: Seq<NodeMeta>,
    children: Seq<Seq<usize>>,
    p: int,
    t: Seq<usize>,
    j: int,
)
    requires
        links_ok(meta, children),
        0 <= p < children.len(),
        targets_ok(children[p].len() as usize, t),
        0 <= j < t.len(),
    ensures
        !run_set(children[p], runs_between(children[p].len() as usize, t), 0, t.len() + 1int).contains(
            children[p][t[j] as int],
        ),
{
    let c = children[p];
    let n = c.len() as usize;
    let runs = runs_between(n, t);
    lemma_runs_bounds(n, t);
    if run_set(c, runs, 0, t.len() + 1int).contains(c[t[j] as int]) {
        let (i, w) = choose|i: int, w: int|
            0 <= i < t.len() + 1 && runs[i].0 <= w < runs[i].1 && #[trigger] c[w] == c[t[j] as int] && #[trigger] runs[i] == runs[i];
        assert(t[j] < n);
        lemma_child_unique(meta, children, p, w, p, t[j] as int);
        if j < i {
            if j < i - 1 {
                assert(t[j] < t[i - 1]);
            }
        } else {
            assert(runs[i].1 == t[i]);
            if i < j {
                assert(t[i] < t[j]);
            }
        }
    }
}

/// Groups the children of a parent around a binary operator: the runs
/// between the matched children are the operands, each grouped under a node,
/// and the operands are joined two by two under operator nodes, to the left
/// or, with `group_right`, to the right.
#[derive(Debug)]
pub struct EvalBinaryOp {
    pub op: OpKey,
    pub group_right: bool,
}

impl EvalBinaryOp {
    /// Apply the rule to the children of `parent` at the positions `targets`,
    /// the operator; `group` is the value of the operand nodes, `op` that of
    /// the operator nodes, made from [`EvalBinaryOp::op`]. The parent is left
    /// with the one node at the top. An empty operand is an error, reported
    /// as the target given by [`empty_operand_target`]; the tree is then as
    /// it was.
    #[verifier::spinoff_prover]
    #[verifier::rlimit(40)]
    pub fn eval_nodes<V: Copy>(&self, tree: &mut NodeTree<V>, parent: Node, targets: &[usize], group: V, op: V) -> (r: Result<(), usize>)
        requires
            old(tree).wf(),
            old(tree).has(parent),
            targets@.len() > 0,
            targets_ok(old(tree).children_of(parent).len() as usize, targets@),
            old(tree).spec_len() + 2 * (targets@.len() + 1) <= usize::MAX,
            spans_agree(spans_of(old(tree).spec_meta(), old(tree).children_of(parent))),
        ensures
            final(tree).wf(),
            ({
                let len = old(tree).spec_len();
                let k = targets@.len();
                let t = targets@;
                let c = old(tree).children_of(parent);
                let om = old(tree).spec_meta();
                let runs = runs_between(c.len() as usize, t);
                let plan = if self.group_right {
                    right_tree(runs)
                } else {
                    left_tree(runs)
                };
                match empty_operand_target(runs, self.group_right) {
                    Some(j) => {
                        &&& r == Err::<(), usize>(j as usize)
                        &&& final(tree).spec_children() == old(tree).spec_children()
                        &&& final(tree).spec_meta() == old(tree).spec_meta()
                        &&& final(tree).spec_values() == old(tree).spec_values()
                    },
                    None => {
                        &&& r == Ok::<(), usize>(())
                        &&& final(tree).spec_len() == len + 2 * k + 1
                        &&& final(tree).children_of(parent).len() == 1
                        &&& built(
                            *final(tree),
                            final(tree).children_of(parent)[0] as int,
                            plan,
                            c,
                            spans_of(om, c),
                            len,
                            group,
                            op,
                            self.group_right,
                        )
                        &&& forall|x: int| 0 <= x < len ==> #[trigger] final(tree).spec_values()[x] == old(tree).spec_values()[x]
                        &&& forall|m: int|
                            0 <= m < len && m != parent.spec_id() ==> #[trigger] final(tree).spec_children()[m]
                                == old(tree).spec_children()[m]
                        &&& forall|m: int|
                            0 <= m < len && om[m].parent != Some(parent.spec_id() as usize)
                                ==> #[trigger] final(tree).spec_meta()[m] == om[m]
                        &&& forall|j: int|
                            0 <= j < k ==> #[trigger] final(tree).spec_meta()[c[t[j] as int] as int] == (NodeMeta {
                                parent: None,
                                status: marked(om[c[t[j] as int] as int].status, true),
                                ..om[c[t[j] as int] as int]
                            })
                        &&& forall|q: int|
                            0 <= q < c.len() && !t.contains(q as usize) ==> {
                                let x = #[trigger] final(tree).spec_meta()[c[q] as int];
                                &&& x.span == om[c[q] as int].span
                                &&& x.block == om[c[q] as int].block
                                &&& x.status == om[c[q] as int].status
                            }
                    },
                }
            }),
    {
        let n = tree.len(parent);
        match binary_op_plan(n, targets, self.group_right) {
            Err(j) => return Err(j),
            Ok(_) => {},
        }
        let ghost len = tree.spec_len();
        let ghost t = targets@;
        let ghost c = tree.children_of(parent);
        let ghost om = tree.spec_meta();
        let ghost oc = tree.spec_children();
        let ghost pid = parent.spec_id();
        let runs = runs_of(n, targets);
        proof {
            lemma_runs_bounds(n, t);
            if self.group_right {
                lemma_no_last_empty(runs@, runs@.len() as int);
            } else {
                lemma_no_first_empty(runs@, 0);
            }
            assert(runs_ok(runs@, n as int)) by {
                assert forall|i: int, j: int| 0 <= i < j < runs@.len() implies (#[trigger] runs@[i]).1 <= (#[trigger] runs@[j]).0 by {}
            }
        }
        let spans = child_spans(tree, parent);
        mark_children(tree, parent, targets, true);
        let ghost mk = tree.spec_meta();
        let all = tree.remove_nodes(parent, RangeBound::Unbounded, RangeBound::Unbounded);
        let ghost t1 = *tree;
        proof {
            let ids = at_positions(c, t);
            assert(all@ =~= c);
            assert(distinct_ids(c)) by {
                assert forall|a: int, b: int| 0 <= a < b < c.len() implies #[trigger] c[a] != #[trigger] c[b] by {
                    if c[a] == c[b] {
                        lemma_child_unique(om, oc, pid, a, pid, b);
                    }
                }
            }
            assert forall|q: int| 0 <= q < n implies (#[trigger] t1.spec_meta()[c[q] as int]).parent is None by {
                assert(om[c[q] as int].parent == Some(pid as usize));
                assert(om[c[q] as int].index == q);
            }
            assert forall|a: int| 0 <= a < c.len() implies #[trigger] c[a] < t1.spec_len() by {}
        }
        let root = if self.group_right {
            build_right(tree, all.as_slice(), spans.as_slice(), runs.as_slice(), group, op)
        } else {
            build_left(tree, all.as_slice(), spans.as_slice(), runs.as_slice(), group, op)
        };
        let ghost t2 = *tree;
        proof {
            assert(t2.spec_children()[pid] == t1.spec_children()[pid]);
        }
        tree.push_node(parent, root);
        proof {
            let t3 = *tree;
            let runs_s = runs_between(n, t);
            let plan = if self.group_right { right_tree(runs_s) } else { left_tree(runs_s) };
            assert(t3.spec_children()[pid] == seq![root.spec_id() as usize]);
            lemma_built_frame(t2, t3, root.spec_id(), plan, c, spans@, len, group, op, self.group_right);
            let ids = at_positions(c, t);
            assert forall|m: int| 0 <= m < len && om[m].parent != Some(pid as usize) implies #[trigger] t3.spec_meta()[m] == om[m] by {
                if ids.contains(m as usize) {
                    let w = choose|w: int| 0 <= w < ids.len() && ids[w] == m as usize;
                    assert(t[w] < n);
                    assert(oc[pid][t[w] as int] == m);
                }
                if run_set(c, runs_s, 0, runs_s.len() as int).contains(m as usize) {
                    let (i, q) = choose|i: int, q: int|
                        0 <= i < runs_s.len() && runs_s[i].0 <= q < runs_s[i].1 && #[trigger] c[q] == m as usize && #[trigger] runs_s[i] == runs_s[i];
                    assert(om[c[q] as int].parent == Some(pid as usize));
                }
            }
            assert forall|j: int| 0 <= j < t.len() implies #[trigger] t3.spec_meta()[c[t[j] as int] as int] == (NodeMeta {
                parent: None,
                status: marked(om[c[t[j] as int] as int].status, true),
                ..om[c[t[j] as int] as int]
            }) by {
                assert(t[j] < n);
                lemma_target_not_in_runs(om, oc, pid, t, j);
                lemma_at_positions(om, oc, pid, t, t[j] as int);
                assert(t.contains(t[j]));
                assert(om[c[t[j] as int] as int].parent == Some(pid as usize));
                assert(om[c[t[j] as int] as int].index == t[j]);
            }
            assert forall|q: int| 0 <= q < n && !t.contains(q as usize) implies {
                let x = #[trigger] t3.spec_meta()[c[q] as int];
                &&& x.span == om[c[q] as int].span
                &&& x.block == om[c[q] as int].block
                &&& x.status == om[c[q] as int].status
            } by {
                lemma_at_positions(om, oc, pid, t, q);
                assert(c[q] < len);
            }
            assert forall|x: int| 0 <= x < len implies #[trigger] t3.spec_values()[x] == old(tree).spec_values()[x] by {}
            assert forall|m: int| 0 <= m < len && m != pid implies #[trigger] t3.spec_children()[m] == oc[m] by {}
        }
        Ok(())
    }
}

/// Span of a sequence of nodes: from the first to the last, the first alone,
/// or the empty span when there is none.
pub open spec fn range_of(spans: Seq<Span>) -> Span {
    if spans.len() == 0 {
        Span::spec_empty()
    } else if spans.len() == 1 {
        spans[0]
    } else {
        Span::spec_merge(spans[0], spans.last())
    }
}

/// The span of the nodes `ids`, see [`range_of`].
pub(crate) fn span_range<V>(tree: &NodeTree<V>, ids: &[usize]) -> (r: Span)
    requires
        forall|a: int| 0 <= a < ids@.len() ==> #[trigger] ids@[a] < tree.spec_len(),
        ids@.len() >= 2 ==> tree.spec_meta()[ids@[0] as int].span.spec_mergeable(tree.spec_meta()[ids@.last() as int].span),
    ensures
        ids@.len() == 0 ==> r.spec_is_empty(),
        ids@.len() > 0 ==> r == range_of(spans_of(tree.spec_meta(), ids@)),
{
    let n = ids.len();
    if n == 0 {
        return Span::empty();
    }
    let first = tree.get(ids[0]);
    let a = tree.span(first);
    if n == 1 {
        return a;
    }
    let last = tree.get(ids[n - 1]);
    let b = tree.span(last);
    Span::merge(a, b)
}

/// The nodes `expr`, which have no parent, grouped under a new node that
/// becomes, with `block`, the last children of `root`.
fn attach_block<V>(tree: &mut NodeTree<V>, root: Node, expr: &[usize], block: Node, group: V) -> (r: Node)
    requires
        old(tree).wf(),
        old(tree).has(root),
        old(tree).has(block),
        old(tree).spec_len() < usize::MAX,
        old(tree).children_of(root).len() + 2 <= usize::MAX,
        free_ids(old(tree).spec_meta(), expr@),
        !expr@.contains(block.spec_id() as usize),
        !expr@.contains(root.spec_id() as usize),
        old(tree).meta_of(block).parent is None,
        expr@.len() >= 2 ==> old(tree).spec_meta()[expr@[0] as int].span.spec_mergeable(
            old(tree).spec_meta()[expr@.last() as int].span,
        ),
    ensures
        final(tree).wf(),
        r.spec_id() == old(tree).spec_len(),
        final(tree).spec_len() == old(tree).spec_len() + 1,
        final(tree).spec_values() == old(tree).spec_values().push(group),
        final(tree).spec_children() == old(tree).spec_children().update(
            root.spec_id(),
            old(tree).children_of(root) + seq![r.spec_id() as usize, block.spec_id() as usize],
        ).push(expr@),
        expr@.len() == 0 ==> final(tree).spec_meta()[r.spec_id()].span.spec_is_empty(),
        expr@.len() > 0 ==> final(tree).spec_meta()[r.spec_id()].span == range_of(spans_of(old(tree).spec_meta(), expr@)),
        final(tree).spec_meta()[r.spec_id()].block,
        final(tree).spec_meta()[r.spec_id()].status == 0,
        final(tree).spec_meta()[r.spec_id()].parent == Some(root.spec_id() as usize),
        final(tree).spec_meta()[r.spec_id()].index == old(tree).children_of(root).len(),
        final(tree).spec_meta()[block.spec_id()] == (NodeMeta {
            parent: Some(root.spec_id() as usize),
            index: (old(tree).children_of(root).len() + 1) as usize,
            ..old(tree).meta_of(block)
        }),
        forall|k: int| 0 <= k < expr@.len() ==> #[trigger] final(tree).spec_meta()[expr@[k] as int] == (NodeMeta {
            parent: Some(r.spec_id() as usize),
            index: k as usize,
            ..old(tree).spec_meta()[expr@[k] as int]
        }),
        forall|m: int|
            0 <= m < old(tree).spec_len() && !expr@.contains(m as usize) && m != block.spec_id()
                ==> #[trigger] final(tree).spec_meta()[m] == old(tree).spec_meta()[m],
{
    let span = span_range(tree, expr);
    let cond = make_node(tree, group, span, true, expr, false);
    let pair = [cond.id(), block.id()];
    let ghost m1 = tree.spec_meta();
    proof {
        assert(pair@ == seq![cond.spec_id() as usize, block.spec_id() as usize]);
        assert(block.spec_id() < old(tree).spec_len());
        assert(m1[block.spec_id()] == old(tree).meta_of(block));
    }
    tree.append_nodes(root, &pair);
    proof {
        let fm = tree.spec_meta();
        assert(fm[cond.spec_id()] == NodeMeta {
            parent: Some(root.spec_id() as usize),
            index: old(tree).children_of(root).len() as usize,
            ..m1[cond.spec_id()]
        }) by {
            assert(pair@[0] == cond.spec_id() as usize);
        }
        assert(fm[block.spec_id()] == NodeMeta {
            parent: Some(root.spec_id() as usize),
            index: (old(tree).children_of(root).len() + 1) as usize,
            ..m1[block.spec_id()]
        }) by {
            assert(pair@[1] == block.spec_id() as usize);
        }
        assert forall|k: int| 0 <= k < expr@.len() implies #[trigger] fm[expr@[k] as int] == (NodeMeta {
            parent: Some(cond.spec_id() as usize),
            index: k as usize,
            ..old(tree).spec_meta()[expr@[k] as int]
        }) by {
            assert(!pair@.contains(expr@[k])) by {
                if pair@.contains(expr@[k]) {
                    let w = choose|w: int| 0 <= w < 2 && pair@[w] == expr@[k];
                    if w == 1 {
                        assert(expr@.contains(block.spec_id() as usize));
                    }
                }
            }
        }
        assert forall|m: int|
            0 <= m < old(tree).spec_len() && !expr@.contains(m as usize) && m != block.spec_id() implies #[trigger] fm[m]
                == old(tree).spec_meta()[m] by {
            assert(!pair@.contains(m as usize)) by {
                if pair@.contains(m as usize) {
                    let w = choose|w: int| 0 <= w < 2 && pair@[w] == m as usize;
                }
            }
        }
        assert(tree.spec_children() =~= old(tree).spec_children().update(
            root.spec_id(),
            old(tree).children_of(root) + seq![cond.spec_id() as usize, block.spec_id() as usize],
        ).push(expr@));
    }
    cond
}

/// Makes `root` a statement of value `value` whose children are a new
/// group of the nodes `expr`, its condition or expression, and `block`.
fn make_statement<V>(tree: &mut NodeTree<V>, root: Node, expr: &[usize], block: Node, group: V, value: V)
    requires
        old(tree).wf(),
        old(tree).has(root),
        old(tree).has(block),
        block != root,
        old(tree).spec_len() < usize::MAX,
        old(tree).children_of(root).len() + 2 <= usize::MAX,
        free_ids(old(tree).spec_meta(), expr@),
        !expr@.contains(block.spec_id() as usize),
        !expr@.contains(root.spec_id() as usize),
        old(tree).meta_of(block).parent is None,
        expr@.len() >= 2 ==> old(tree).spec_meta()[expr@[0] as int].span.spec_mergeable(
            old(tree).spec_meta()[expr@.last() as int].span,
        ),
    ensures
        statement_made(*old(tree), *final(tree), root, expr@, block, group, value),
{
    let ghost t0 = *tree;
    proof {
        lemma_node_is_of_id(block);
        lemma_node_is_of_id(root);
    }
    tree.set_value(root, value);
    let ghost t1 = *tree;
    proof {
        assert forall|a: int| 0 <= a < expr@.len() implies (#[trigger] t1.spec_meta()[expr@[a] as int]).parent is None by {
            assert(expr@[a] != root.spec_id());
        }
    }
    let cond = attach_block(tree, root, expr, block, group);
    proof {
        let t2 = *tree;
        assert(t2.spec_values() =~= t0.spec_values().update(root.spec_id(), value).push(group));
        assert forall|k: int| 0 <= k < expr@.len() implies #[trigger] t2.spec_meta()[expr@[k] as int] == (NodeMeta {
            parent: Some(t0.spec_len() as usize),
            index: k as usize,
            ..t0.spec_meta()[expr@[k] as int]
        }) by {
            assert(expr@[k] != root.spec_id());
        }
        assert(t2.spec_meta()[root.spec_id()] == NodeMeta { status: 0, ..t0.spec_meta()[root.spec_id()] }) by {
            assert(!expr@.contains(root.spec_id() as usize));
        }
    }
}

/// The tree `b` is `a` after `root` became a statement of value `value`
/// over a new group of `expr` and `block`: the group, of value `group`, is a
/// block over `expr` spanning them, not done; `root` takes it and `block`
/// as its last children; its status flags are cleared.
pub open spec fn statement_made<V>(a: NodeTree<V>, b: NodeTree<V>, root: Node, expr: Seq<usize>, block: Node, group: V, value: V) -> bool {
    let len = a.spec_len();
    let n = a.children_of(root).len();
    let g = b.spec_meta()[len as int];
    &&& b.wf()
    &&& b.spec_len() == len + 1
    &&& b.spec_values() == a.spec_values().update(root.spec_id(), value).push(group)
    &&& b.spec_children() == a.spec_children().update(
        root.spec_id(),
        a.children_of(root) + seq![len as usize, block.spec_id() as usize],
    ).push(expr)
    &&& (if expr.len() == 0 {
        g.span.spec_is_empty()
    } else {
        g.span == range_of(spans_of(a.spec_meta(), expr))
    })
    &&& g.block
    &&& g.status == 0
    &&& g.parent == Some(root.spec_id() as usize)
    &&& g.index == n
    &&& b.spec_meta()[root.spec_id()] == (NodeMeta { status: 0, ..a.spec_meta()[root.spec_id()] })
    &&& b.spec_meta()[block.spec_id()] == (NodeMeta {
        parent: Some(root.spec_id() as usize),
        index: (n + 1) as usize,
        ..a.spec_meta()[block.spec_id()]
    })
    &&& forall|k: int| 0 <= k < expr.len() ==> #[trigger] b.spec_meta()[expr[k] as int] == (NodeMeta {
        parent: Some(len as usize),
        index: k as usize,
        ..a.spec_meta()[expr[k] as int]
    })
    &&& forall|m: int|
        0 <= m < len && !expr.contains(m as usize) && m != block.spec_id() && m != root.spec_id()
            ==> #[trigger] b.spec_meta()[m] == a.spec_meta()[m]
}

/// Makes `root` an `if` statement: its condition, a new group of the nodes
/// `expr`, then its block. `group` is the value of the condition, `if_value`
/// the new value of `root`.
pub fn eval_if<V>(tree: &mut NodeTree<V>, root: Node, expr: &[usize], block: Node, group: V, if_value: V)
    requires
        old(tree).wf(),
        old(tree).has(root),
        old(tree).has(block),
        block != root,
        old(tree).spec_len() < usize::MAX,
        old(tree).children_of(root).len() + 2 <= usize::MAX,
        free_ids(old(tree).spec_meta(), expr@),
        !expr@.contains(block.spec_id() as usize),
        !expr@.contains(root.spec_id() as usize),
        old(tree).meta_of(block).parent is None,
        expr@.len() >= 2 ==> old(tree).spec_meta()[expr@[0] as int].span.spec_mergeable(
            old(tree).spec_meta()[expr@.last() as int].span,
        ),
    ensures
        statement_made(*old(tree), *final(tree), root, expr@, block, group, if_value),
{
    make_statement(tree, root, expr, block, group, if_value)
}

/// Makes `root` a `for` statement: its expression, a new group of the
/// nodes `expr`, then its block. `group` is the value of the expression,
/// `for_value` the new value of `root`.
pub fn eval_for<V>(tree: &mut NodeTree<V>, root: Node, expr: &[usize], block: Node, group: V, for_value: V)
    requires
        old(tree).wf(),
        old(tree).has(root),
        old(tree).has(block),
        block != root,
        old(tree).spec_len() < usize::MAX,
        old(tree).children_of(root).len() + 2 <= usize::MAX,
        free_ids(old(tree).spec_meta(), expr@),
        !expr@.contains(block.spec_id() as usize),
        !expr@.contains(root.spec_id() as usize),
        old(tree).meta_of(block).parent is None,
        expr@.len() >= 2 ==> old(tree).spec_meta()[expr@[0] as int].span.spec_mergeable(
            old(tree).spec_meta()[expr@.last() as int].span,
        ),
    ensures
        statement_made(*old(tree), *final(tree), root, expr@, block, group, for_value),
{
    make_statement(tree, root, expr, block, group, for_value)
}

/// Makes `root` an `else` statement, or an `else if` statement when the
/// nodes `expr` start with the word `if` (`first` is the token of the first
/// of them, if it is one); the word is then marked silent and done. The
/// nodes after it, if any, become a new group, the condition, before
/// `block` among the last children of `root`; `root` is done. Another first
/// word is an error, reported with the span of `expr`; the tree is then as
/// it was.
pub fn eval_else<V>(
    tree: &mut NodeTree<V>,
    root: Node,
    expr: &[usize],
    block: Node,
    first: Option<&Token>,
    group: V,
    else_if: V,
    else_value: V,
) -> (r: Result<(), Span>)
    requires
        old(tree).wf(),
        old(tree).has(root),
        old(tree).has(block),
        block != root,
        old(tree).spec_len() < usize::MAX,
        old(tree).children_of(root).len() + 2 <= usize::MAX,
        free_ids(old(tree).spec_meta(), expr@),
        !expr@.contains(block.spec_id() as usize),
        !expr@.contains(root.spec_id() as usize),
        old(tree).meta_of(block).parent is None,
        spans_agree(spans_of(old(tree).spec_meta(), expr@)),
        expr@.len() == 0 ==> first is None,
    ensures
        ({
            let a = *old(tree);
            let b = *final(tree);
            let len = a.spec_len();
            let n = a.children_of(root).len();
            let om = a.spec_meta();
            match else_kind(
                match first {
                    Some(t) => Some(t@),
                    None => None,
                },
            ) {
                None => {
                    &&& r == Err::<(), Span>(range_of(spans_of(om, expr@)))
                    &&& b == a
                },
                Some((kind, skip)) => {
                    let value = if kind == ElseKind::ElseIf {
                        else_if
                    } else {
                        else_value
                    };
                    let rest = expr@.subrange(skip as int, expr@.len() as int);
                    &&& r == Ok::<(), Span>(())
                    &&& b.wf()
                    &&& skip == 1 ==> b.spec_meta()[expr@[0] as int] == (NodeMeta {
                        status: marked(om[expr@[0] as int].status, true),
                        ..om[expr@[0] as int]
                    })
                    &&& b.spec_meta()[root.spec_id()] == (NodeMeta { status: FLAG_DONE, ..om[root.spec_id()] })
                    &&& b.spec_meta()[block.spec_id()] == (NodeMeta {
                        parent: Some(root.spec_id() as usize),
                        index: (if rest.len() > 0 { n + 1 } else { n }) as usize,
                        ..om[block.spec_id()]
                    })
                    &&& if rest.len() > 0 {
                        let g = b.spec_meta()[len as int];
                        &&& b.spec_len() == len + 1
                        &&& b.spec_values() == a.spec_values().update(root.spec_id(), value).push(group)
                        &&& b.spec_children() == a.spec_children().update(
                            root.spec_id(),
                            a.children_of(root) + seq![len as usize, block.spec_id() as usize],
                        ).push(rest)
                        &&& g.span == range_of(spans_of(om, rest))
                        &&& g.block
                        &&& g.status == 0
                        &&& g.parent == Some(root.spec_id() as usize)
                        &&& g.index == n
                        &&& forall|k: int| 0 <= k < rest.len() ==> #[trigger] b.spec_meta()[rest[k] as int] == (NodeMeta {
                            parent: Some(len as usize),
                            index: k as usize,
                            ..om[rest[k] as int]
                        })
                    } else {
                        &&& b.spec_len() == len
                        &&& b.spec_values() == a.spec_values().update(root.spec_id(), value)
                        &&& b.spec_children() == a.spec_children().update(
                            root.spec_id(),
                            a.children_of(root).push(block.spec_id() as usize),
                        )
                    }
                    &&& forall|m: int|
                        0 <= m < len && !expr@.contains(m as usize) && m != block.spec_id() && m != root.spec_id()
                            ==> #[trigger] b.spec_meta()[m] == om[m]
                },
            }
        }),
{
    let plan = else_plan(first);
    let (kind, skip) = match plan {
        None => {
            proof {
                if expr@.len() >= 2 {
                    assert(spans_of(tree.spec_meta(), expr@)[0] == tree.spec_meta()[expr@[0] as int].span);
                    assert(spans_of(tree.spec_meta(), expr@)[expr@.len() - 1] == tree.spec_meta()[expr@.last() as int].span);
                }
            }
            let span = span_range(tree, expr);
            return Err(span);
        },
        Some(p) => p,
    };
    let ghost t0 = *tree;
    if skip == 1 {
        let w = tree.get(expr[0]);
        tree.ignore(w);
    }
    let value = match kind {
        ElseKind::ElseIf => else_if,
        ElseKind::Else => else_value,
    };
    let ghost t1 = *tree;
    proof {
        lemma_node_is_of_id(root);
        lemma_node_is_of_id(block);
        if skip == 1 {
            assert(expr@[0] != root.spec_id());
            assert(expr@[0] != block.spec_id());
        }
    }
    tree.set_value(root, value);
    tree.flag_done(root);
    proof {
        assert((0u8 | 1u8) == 1u8) by (bit_vector);
    }
    let rest = copy_range(expr, skip, expr.len());
    let ghost t2 = *tree;
    proof {
        assert forall|a: int| 0 <= a < rest@.len() implies (#[trigger] t2.spec_meta()[rest@[a] as int]).parent is None by {
            assert(rest@[a] == expr@[skip + a]);
            assert(expr@[skip + a] != root.spec_id());
        }
        assert forall|a: int| 0 <= a < rest@.len() implies #[trigger] rest@[a] < t2.spec_len() by {
            assert(rest@[a] == expr@[skip + a]);
        }
        assert forall|a: int, b: int| 0 <= a < b < rest@.len() implies #[trigger] rest@[a] != #[trigger] rest@[b] by {
            assert(rest@[a] == expr@[skip + a]);
            assert(rest@[b] == expr@[skip + b]);
        }
        assert(!rest@.contains(block.spec_id() as usize)) by {
            if rest@.contains(block.spec_id() as usize) {
                let w = choose|w: int| 0 <= w < rest@.len() && rest@[w] == block.spec_id() as usize;
                assert(rest@[w] == expr@[skip + w]);
            }
        }
        assert(!rest@.contains(root.spec_id() as usize)) by {
            if rest@.contains(root.spec_id() as usize) {
                let w = choose|w: int| 0 <= w < rest@.len() && rest@[w] == root.spec_id() as usize;
                assert(rest@[w] == expr@[skip + w]);
            }
        }
        if rest@.len() >= 2 {
            let sp = spans_of(t0.spec_meta(), expr@);
            assert(rest@[0] == expr@[skip as int]);
            assert(rest@.last() == expr@[expr@.len() - 1]);
            assert(sp[skip as int].spec_mergeable(sp[expr@.len() - 1]));
            assert(t2.spec_meta()[rest@[0] as int].span == t0.spec_meta()[rest@[0] as int].span);
            assert(t2.spec_meta()[rest@.last() as int].span == t0.spec_meta()[rest@.last() as int].span);
        }
    }
    if rest.len() > 0 {
        let cond = attach_block(tree, root, rest.as_slice(), block, group);
        proof {
            let t3 = *tree;
            let om = t0.spec_meta();
            assert(spans_of(t2.spec_meta(), rest@) =~= spans_of(om, rest@)) by {
                assert forall|a: int| 0 <= a < rest@.len() implies t2.spec_meta()[rest@[a] as int].span == om[rest@[a] as int].span by {
                    assert(rest@[a] == expr@[skip + a]);
                }
            }
            assert(t3.spec_values() =~= t0.spec_values().update(root.spec_id(), value).push(group));
            assert forall|k: int| 0 <= k < rest@.len() implies #[trigger] t3.spec_meta()[rest@[k] as int] == (NodeMeta {
                parent: Some(t0.spec_len() as usize),
                index: k as usize,
                ..om[rest@[k] as int]
            }) by {
                assert(rest@[k] == expr@[skip + k]);
                assert(rest@[k] != root.spec_id());
                if skip == 1 {
                    assert(expr@[0] != expr@[skip + k]);
                }
            }
            if skip == 1 {
                assert(!rest@.contains(expr@[0])) by {
                    if rest@.contains(expr@[0]) {
                        let w = choose|w: int| 0 <= w < rest@.len() && rest@[w] == expr@[0];
                        assert(rest@[w] == expr@[1 + w]);
                    }
                }
            }
        }
    } else {
        let ghost n = tree.children_of(root).len();
        tree.push_node(root, block);
        proof {
            let t3 = *tree;
            assert(t3.spec_values() =~= t0.spec_values().update(root.spec_id(), value));
        }
    }
    Ok(())
}

/// What the chain node `j` of `m` `else if` statements takes last: the next
/// statement of the chain, or the `else` block after the last one.
pub open spec fn chain_next(e: Seq<usize>, m: int, has_else: bool, body: usize, j: int) -> Seq<usize> {
    if j + 1 < m {
        seq![e[j + 1]]
    } else if has_else {
        seq![body]
    } else {
        Seq::empty()
    }
}

/// Joins an `if` statement with the `else if` and `else` statements after
/// it: the `else if` statements become nested `if` statements, each holding
/// the next one last, the last one holding the block of the `else`.
#[derive(Debug)]
pub struct EvalIf;

impl EvalIf {
    /// Apply the rule to the `if` statement `if_node`, whose siblings after
    /// it are of the kinds `kinds`; `if_value` is the new value of the
    /// `else if` statements. The statements of the chain leave the parent,
    /// the `else` statement becomes silent and done and gives up its block.
    /// An `else` before the end of the chain is an error, reported as its
    /// position in the chain; the tree is then as it was.
    pub fn eval_node<V: Copy>(&self, tree: &mut NodeTree<V>, if_node: Node, kinds: &[ChainKind], if_value: V) -> (r: Result<(), usize>)
        requires
            old(tree).wf(),
            old(tree).has(if_node),
            old(tree).meta_of(if_node).parent matches Some(p) ==> {
                let c = old(tree).spec_children()[p as int];
                let i = old(tree).meta_of(if_node).index;
                &&& kinds@.len() == c.len() - i - 1
                &&& old(tree).spec_meta()[p as int].parent != Some(p)
                &&& old(tree).children_of(if_node).len() < usize::MAX
                &&& forall|j: int| i < j < c.len() ==> (#[trigger] old(tree).spec_children()[c[j] as int]).len() < usize::MAX
                &&& match if_chain(kinds@) {
                    Ok(ch) => ch.has_else ==> old(tree).spec_children()[c[i + ch.len] as int].len() == 1,
                    Err(_) => true,
                }
            },
        ensures
            final(tree).wf(),
            final(tree).spec_len() == old(tree).spec_len(),
            match old(tree).meta_of(if_node).parent {
                None => r == Ok::<(), usize>(()) && *final(tree) == *old(tree),
                Some(p) => match if_chain(kinds@) {
                    Err(j) => r == Err::<(), usize>(j) && *final(tree) == *old(tree),
                    Ok(ch) => {
                        let c = old(tree).spec_children()[p as int];
                        let i = old(tree).meta_of(if_node).index as int;
                        let k = ch.len as int;
                        let e = c.subrange(i + 1, i + 1 + k);
                        let m = if ch.has_else { k - 1 } else { k };
                        let body = if ch.has_else { old(tree).spec_children()[e[k - 1] as int][0] } else { 0 };
                        let top = if m > 0 { e[0] } else { body };
                        &&& r == Ok::<(), usize>(())
                        &&& k == 0 ==> *final(tree) == *old(tree)
                        &&& k > 0 ==> {
                            &&& final(tree).spec_children()[p as int] == removed_children(c, (i + 1) as usize, (i + 1 + k) as usize)
                            &&& final(tree).children_of(if_node) == old(tree).children_of(if_node).push(top)
                            &&& forall|j: int| 0 <= j < m ==> #[trigger] final(tree).spec_children()[e[j] as int]
                                == old(tree).spec_children()[e[j] as int] + chain_next(e, m, ch.has_else, body, j)
                            &&& forall|j: int|
                                0 <= j < m ==> #[trigger] final(tree).spec_values()[e[j] as int] == if_value
                                    && final(tree).spec_meta()[e[j] as int].status == 0
                            &&& ch.has_else ==> final(tree).spec_children()[e[k - 1] as int] == Seq::<usize>::empty()
                                && final(tree).spec_meta()[e[k - 1] as int].status == marked(
                                    old(tree).spec_meta()[e[k - 1] as int].status,
                                    true,
                                ) && final(tree).spec_meta()[e[k - 1] as int].parent is None
                            &&& forall|x: int|
                                0 <= x < old(tree).spec_len() && !e.contains(x as usize) && x != p && x != if_node.spec_id()
                                    ==> #[trigger] final(tree).spec_children()[x] == old(tree).spec_children()[x]
                            &&& forall|x: int|
                                0 <= x < old(tree).spec_len() && !e.subrange(0, m).contains(x as usize)
                                    ==> #[trigger] final(tree).spec_values()[x] == old(tree).spec_values()[x]
                        }
                    },
                },
            },
    {
        let parent = match tree.parent(if_node) {
            None => return Ok(()),
            Some(p) => p,
        };
        let index = tree.index(if_node);
        let n = tree.len(parent);
        let chain = match if_chain_plan(kinds) {
            Err(j) => return Err(j),
            Ok(ch) => ch,
        };
        let k = chain.len;
        if k == 0 {
            return Ok(());
        }
        let ghost t0 = *tree;
        let ghost pid = parent.spec_id();
        let ghost c = t0.spec_children()[pid];
        let ghost oc = t0.spec_children();
        let ghost om = t0.spec_meta();
        let ghost i = index as int;
        proof {
            lemma_node_is_of_id(parent);
            lemma_node_of((om[if_node.spec_id()].parent->0) as int);
            lemma_chain_len_bound(kinds@);
            assert(om[if_node.spec_id()].parent == Some(pid as usize));
            assert(c[i] == if_node.spec_id());
            assert(i + 1 + k <= n);
        }
        let ghost e = c.subrange(i + 1, i + 1 + k);
        let removed = tree.remove_nodes(parent, RangeBound::Included(index + 1), RangeBound::Excluded(index + 1 + k));
        let ghost t1 = *tree;
        proof {
            assert(removed@ == e);
            assert(distinct_ids(e)) by {
                assert forall|a: int, b: int| 0 <= a < b < e.len() implies #[trigger] e[a] != #[trigger] e[b] by {
                    if e[a] == e[b] {
                        lemma_child_unique(om, oc, pid, i + 1 + a, pid, i + 1 + b);
                    }
                }
            }
            assert forall|a: int| 0 <= a < e.len() implies (#[trigger] t1.spec_meta()[e[a] as int]).parent is None by {
                assert(om[e[a] as int].parent == Some(pid as usize));
                assert(om[e[a] as int].index == i + 1 + a);
            }
            assert(!e.contains(if_node.spec_id() as usize)) by {
                if e.contains(if_node.spec_id() as usize) {
                    let w = choose|w: int| 0 <= w < e.len() && e[w] == if_node.spec_id() as usize;
                    lemma_child_unique(om, oc, pid, i + 1 + w, pid, i);
                }
            }
            assert(!e.contains(pid as usize)) by {
                if e.contains(pid as usize) {
                    let w = choose|w: int| 0 <= w < e.len() && e[w] == pid as usize;
                    assert(om[pid].parent == Some(pid as usize));
                }
            }
        }
        let mut next: Option<Node> = None;
        let mut m: usize = k;
        let ghost body: usize = 0;
        if chain.has_else {
            let last = tree.get(removed[k - 1]);
            proof {
                assert(e[k - 1] == c[i + k]);
                assert(oc[e[k - 1] as int].len() == 1);
                assert(t1.spec_children()[e[k - 1] as int] == oc[e[k - 1] as int]);
            }
            let b = tree.node(last, 0).unwrap();
            proof {
                body = oc[e[k - 1] as int][0];
                lemma_node_of(body as int);
                assert(b.spec_id() == body);
                assert(om[body as int].parent == Some(e[k - 1]));
                assert(om[body as int].index == 0);
                assert(body != e[k - 1]) by {
                    if body == e[k - 1] {
                        assert(om[e[k - 1] as int].parent == Some(pid as usize));
                    }
                }
            }
            tree.ignore(last);
            let ghost ti = *tree;
            proof {
                assert(ti.spec_meta()[body as int] == t1.spec_meta()[body as int]);
                assert(t1.spec_meta()[body as int] == om[body as int]);
            }
            let ok = tree.remove(b);
            proof {
                let tr = *tree;
                assert(ok);
                assert(tr.spec_children()[e[k - 1] as int] =~= Seq::<usize>::empty());
                assert forall|x: int| 0 <= x < tr.spec_len() && x != body implies #[trigger] tr.spec_meta()[x] == ti.spec_meta()[x] by {
                    if ti.spec_meta()[x].parent == Some(e[k - 1]) {
                        assert(ti.spec_children()[e[k - 1] as int][ti.spec_meta()[x].index as int] == x);
                    }
                }
            }
            next = Some(b);
            m = k - 1;
        }
        let ghost t2 = *tree;
        let ghost has_else = chain.has_else;
        proof {
            assert forall|a: int| 0 <= a < m implies #[trigger] t2.spec_children()[e[a] as int] == oc[e[a] as int] && t2.spec_meta()[e[a] as int].parent is None by {
                assert(e[a] != pid);
                if has_else {
                    assert(e[a] != e[k - 1]);
                    assert(e[a] != body);
                }
            }
            if has_else {
                assert(!e.contains(body)) by {
                    if e.contains(body) {
                        let w = choose|w: int| 0 <= w < e.len() && e[w] == body;
                        assert(om[e[w] as int].parent == Some(pid as usize));
                    }
                }
            }
        }
        let mut j: usize = m;
        while j > 0
            invariant
                0 <= j <= m,
                m <= k,
                has_else == chain.has_else,
                m as int == (if has_else { k - 1 } else { k as int }),
                k as int == e.len(),
                k <= kinds@.len(),
                removed@ == e,
                distinct_ids(e),
                has_else ==> !e.contains(body),
                tree.wf(),
                tree.spec_len() == t2.spec_len(),
                t2.spec_len() == t0.spec_len(),
                forall|a: int| 0 <= a < e.len() ==> #[trigger] e[a] < t2.spec_len(),
                forall|a: int| 0 <= a < m ==> #[trigger] t2.spec_children()[e[a] as int] == oc[e[a] as int],
                forall|a: int| 0 <= a < m ==> (#[trigger] t2.spec_meta()[e[a] as int]).parent is None,
                forall|a: int| 0 <= a < m ==> (#[trigger] oc[e[a] as int]).len() < usize::MAX,
                forall|a: int|
                    j <= a < m ==> #[trigger] tree.spec_children()[e[a] as int] == oc[e[a] as int] + chain_next(
                        e,
                        m as int,
                        has_else,
                        body,
                        a,
                    ),
                forall|a: int| j <= a < m ==> #[trigger] tree.spec_values()[e[a] as int] == if_value,
                forall|a: int| j <= a < m ==> (#[trigger] tree.spec_meta()[e[a] as int]).status == 0,
                j < m ==> next == Some(node_of(e[j as int] as int)) && tree.spec_meta()[e[j as int] as int].parent is None,
                j == m && has_else ==> next == Some(node_of(body as int)) && tree.spec_meta()[body as int].parent is None,
                j == m && !has_else ==> next is None,
                has_else ==> body < t2.spec_len(),
                forall|x: int|
                    0 <= x < t2.spec_len() && !e.subrange(j as int, m as int).contains(x as usize) ==> #[trigger] tree.spec_children()[x]
                        == t2.spec_children()[x],
                forall|x: int|
                    0 <= x < t2.spec_len() && !e.subrange(j as int, m as int).contains(x as usize) ==> #[trigger] tree.spec_values()[x]
                        == t2.spec_values()[x],
                forall|x: int|
                    0 <= x < t2.spec_len() && !e.subrange(j as int, m as int).contains(x as usize) && !(j < m && has_else && x
                        == body) ==> #[trigger] tree.spec_meta()[x] == t2.spec_meta()[x],
            decreases j,
        {
            let ghost ta = *tree;
            let x = tree.get(removed[j - 1]);
            proof {
                assert(x.spec_id() == e[j - 1]);
                assert(!e.subrange(j as int, m as int).contains(e[j - 1])) by {
                    if e.subrange(j as int, m as int).contains(e[j - 1]) {
                        let w = choose|w: int| 0 <= w < m - j && e.subrange(j as int, m as int)[w] == e[j - 1];
                        assert(e[j + w] == e[j - 1]);
                    }
                }
                assert(tree.spec_children()[e[j - 1] as int] == oc[e[j - 1] as int]);
                assert(has_else ==> e[j - 1] != body);
                assert(tree.spec_meta()[e[j - 1] as int] == t2.spec_meta()[e[j - 1] as int]);
            }
            tree.set_value(x, if_value);
            let ghost tb = *tree;
            match next {
                Some(y) => {
                    proof {
                        if j < m {
                            lemma_node_of(e[j as int] as int);
                            assert(y.spec_id() == e[j as int]);
                            assert(e[j as int] != e[j - 1]);
                        } else {
                            lemma_node_of(body as int);
                        }
                    }
                    tree.push_node(x, y);
                },
                None => {},
            }
            proof {
                let tc = *tree;
                let cur = e.subrange(j - 1, m as int);
                let prev = e.subrange(j as int, m as int);
                assert(cur[0] == e[j - 1]);
                assert(tc.spec_children()[e[j - 1] as int] == oc[e[j - 1] as int] + chain_next(e, m as int, has_else, body, j - 1));
                assert forall|a: int| j - 1 <= a < m implies #[trigger] tc.spec_children()[e[a] as int] == oc[e[a] as int]
                    + chain_next(e, m as int, has_else, body, a) by {
                    if a >= j {
                        assert(e[a] != e[j - 1]);
                    }
                }
                assert forall|a: int| j - 1 <= a < m implies #[trigger] tc.spec_values()[e[a] as int] == if_value by {
                    if a >= j {
                        assert(e[a] != e[j - 1]);
                    }
                }
                assert forall|a: int| j - 1 <= a < m implies (#[trigger] tc.spec_meta()[e[a] as int]).status == 0 by {
                    if a >= j {
                        assert(e[a] != e[j - 1]);
                        assert(ta.spec_meta()[e[a] as int].status == 0);
                        assert(tb.spec_meta()[e[a] as int] == ta.spec_meta()[e[a] as int]);
                        assert(tc.spec_meta()[e[a] as int].status == tb.spec_meta()[e[a] as int].status);
                    } else {
                        assert(tb.spec_meta()[e[a] as int].status == 0);
                        assert(tc.spec_meta()[e[a] as int].status == tb.spec_meta()[e[a] as int].status);
                    }
                }
                assert forall|y: int| 0 <= y < t2.spec_len() && !cur.contains(y as usize) implies #[trigger] tc.spec_children()[y]
                    == t2.spec_children()[y] by {
                    assert(y != e[j - 1]);
                    if prev.contains(y as usize) {
                        let w = choose|w: int| 0 <= w < prev.len() && prev[w] == y as usize;
                        assert(cur[w + 1] == y as usize);
                    }
                }
                assert forall|y: int| 0 <= y < t2.spec_len() && !cur.contains(y as usize) implies #[trigger] tc.spec_values()[y]
                    == t2.spec_values()[y] by {
                    assert(y != e[j - 1]);
                    if prev.contains(y as usize) {
                        let w = choose|w: int| 0 <= w < prev.len() && prev[w] == y as usize;
                        assert(cur[w + 1] == y as usize);
                    }
                }
                assert forall|y: int|
                    0 <= y < t2.spec_len() && !cur.contains(y as usize) && !(j - 1 < m && has_else && y == body) implies #[trigger] tc.spec_meta()[y]
                        == t2.spec_meta()[y] by {
                    assert(y != e[j - 1]);
                    if prev.contains(y as usize) {
                        let w = choose|w: int| 0 <= w < prev.len() && prev[w] == y as usize;
                        assert(cur[w + 1] == y as usize);
                    }
                    if j < m {
                        assert(prev[0] == e[j as int]);
                        if y == e[j as int] {
                            assert(cur[1] == y as usize);
                        }
                    }
                }
                lemma_node_is_of_id(x);
            }
            next = Some(x);
            j = j - 1;
        }
        let ghost t3 = *tree;
        let top = next.unwrap();
        proof {
            if m > 0 {
                lemma_node_of(e[0] as int);
            } else {
                lemma_node_of(body as int);
            }
            assert(!e.subrange(0, m as int).contains(if_node.spec_id() as usize)) by {
                if e.subrange(0, m as int).contains(if_node.spec_id() as usize) {
                    let w = choose|w: int| 0 <= w < m && e.subrange(0, m as int)[w] == if_node.spec_id() as usize;
                    assert(e.contains(if_node.spec_id() as usize));
                }
            }
            assert(t3.spec_children()[if_node.spec_id()] == oc[if_node.spec_id()]);
        }
        tree.push_node(if_node, top);
        proof {
            let tf = *tree;
            assert forall|x: int|
                0 <= x < t0.spec_len() && !e.contains(x as usize) && x != pid && x != if_node.spec_id() implies #[trigger] tf.spec_children()[x]
                    == oc[x] by {
                if e.subrange(0, m as int).contains(x as usize) {
                    let w = choose|w: int| 0 <= w < m && e.subrange(0, m as int)[w] == x as usize;
                    assert(e[w] == x as usize);
                }
                if has_else && x == e[k - 1] {
                    assert(e.contains(x as usize));
                }
            }
            assert forall|x: int| 0 <= x < t0.spec_len() && !e.subrange(0, m as int).contains(x as usize) implies #[trigger] tf.spec_values()[x]
                == t0.spec_values()[x] by {}
            if has_else {
                assert(!e.subrange(0, m as int).contains(e[k - 1])) by {
                    if e.subrange(0, m as int).contains(e[k - 1]) {
                        let w = choose|w: int| 0 <= w < m && e.subrange(0, m as int)[w] == e[k - 1];
                        assert(e[w] == e[k - 1]);
                    }
                }
                assert(top.spec_id() != e[k - 1]);
            }
        }
        Ok(())
    }
}

/// The level of each line: the indentation of the span of its children,
/// at the position of its first child; `0` elsewhere.
pub open spec fn line_levels(spans: Seq<Span>, runs: Seq<(usize, usize)>, k: int) -> Seq<usize>
    decreases k,
{
    if k <= 0 {
        Seq::new(spans.len(), |q: int| 0usize)
    } else {
        let run = runs[k - 1];
        let prev = line_levels(spans, runs, k - 1);
        if run.0 < run.1 {
            prev.update(run.0 as int, run_span(spans, run.0, run.1).spec_indent())
        } else {
            prev
        }
    }
}

/// The lines of `items` are not empty, end by `b`, and come in order.
pub open spec fn lines_ok(items: Seq<LineItem>, b: int) -> bool {
    &&& forall|i: int| 0 <= i < items.len() && (#[trigger] items[i]) is Line ==> items[i]->Line_0 < items[i]->Line_1 <= b
    &&& forall|i: int, j: int|
        0 <= i < j < items.len() && (#[trigger] items[i]) is Line && (#[trigger] items[j]) is Line ==> items[i]->Line_1
            <= items[j]->Line_0
}

proof fn lemma_lines_ok_push(items: Seq<LineItem>, b: int, x: LineItem, b2: int)
    requires
        lines_ok(items, b),
        b <= b2,
        x is Line ==> b <= x->Line_0 < x->Line_1 <= b2,
    ensures
        lines_ok(items.push(x), b2),
{
    let r = items.push(x);
    assert forall|i: int, j: int|
        0 <= i < j < r.len() && (#[trigger] r[i]) is Line && (#[trigger] r[j]) is Line implies r[i]->Line_1 <= r[j]->Line_0 by {
        if j == items.len() {
            assert(r[i] == items[i]);
        } else {
            assert(r[i] == items[i] && r[j] == items[j]);
        }
    }
    assert forall|i: int| 0 <= i < r.len() && (#[trigger] r[i]) is Line implies r[i]->Line_0 < r[i]->Line_1 <= b2 by {
        if i < items.len() {
            assert(r[i] == items[i]);
        }
    }
}

proof fn lemma_lines_ok_dedents(items: Seq<LineItem>, b: int, k: nat)
    requires
        lines_ok(items, b),
    ensures
        lines_ok(items + dedents(k), b),
    decreases k,
{
    if k > 0 {
        lemma_lines_ok_dedents(items, b, (k - 1) as nat);
        assert(dedents(k) =~= dedents((k - 1) as nat).push(LineItem::Dedent));
        assert(items + dedents(k) =~= (items + dedents((k - 1) as nat)).push(LineItem::Dedent));
        lemma_lines_ok_push(items + dedents((k - 1) as nat), b, LineItem::Dedent, b);
    } else {
        assert(items + dedents(0) =~= items);
    }
}

/// The lines a line break makes are runs with children, in order.
proof fn lemma_line_items_in_order(levels: Seq<usize>, n: usize, t: Seq<usize>, k: int)
    requires
        targets_ok(n, t),
        0 <= k <= t.len() + 1,
    ensures
        line_state(levels, runs_between(n, t).take(k)) matches Ok((st, out)) ==> lines_ok(
            out,
            if k == 0 {
                0
            } else {
                runs_between(n, t)[k - 1].1 as int
            },
        ),
    decreases k,
{
    let runs = runs_between(n, t);
    lemma_runs_bounds(n, t);
    if k > 0 {
        lemma_line_items_in_order(levels, n, t, k - 1);
        let rk = runs.take(k);
        assert(rk.drop_last() =~= runs.take(k - 1));
        assert(rk.last() == runs[k - 1]);
        let b0: int = if k - 1 == 0 {
            0
        } else {
            runs[k - 2].1 as int
        };
        let b1 = runs[k - 1].1 as int;
        if k >= 2 {
            assert(runs[k - 2].1 < runs[k - 1].0);
        }
        if let Ok((stack, out)) = line_state(levels, runs.take(k - 1)) {
            let run = runs[k - 1];
            let line = LineItem::Line(run.0, run.1);
            if run.0 == run.1 {
                assert(lines_ok(out, b1)) by {
                    assert forall|i: int| 0 <= i < out.len() && (#[trigger] out[i]) is Line implies out[i]->Line_0
                        < out[i]->Line_1 <= b1 by {}
                }
            } else if stack.len() == 0 {
                lemma_lines_ok_push(out, b0, line, b1);
            } else if levels[run.0 as int] > stack.last() {
                lemma_lines_ok_push(out, b0, LineItem::Indent, b0);
                lemma_lines_ok_push(out.push(LineItem::Indent), b0, line, b1);
            } else if levels[run.0 as int] < stack.last() {
                if let Some(s2) = dedent(stack, levels[run.0 as int]) {
                    lemma_lines_ok_dedents(out, b0, (stack.len() - s2.len()) as nat);
                    lemma_lines_ok_push(out + dedents((stack.len() - s2.len()) as nat), b0, line, b1);
                }
            } else {
                lemma_lines_ok_push(out, b0, line, b1);
            }
        }
    } else {
        assert(runs.take(0) =~= Seq::<(usize, usize)>::empty());
    }
}

/// The span of the run `s..e` of the spans, computed; see [`run_span`].
fn span_of_run(spans: &[Span], s: usize, e: usize) -> (r: Span)
    requires
        s < e <= spans@.len(),
        spans_agree(spans@),
    ensures
        r == run_span(spans@, s, e),
{
    if e == s + 1 {
        spans[s]
    } else {
        proof {
            assert(spans@[s as int].spec_mergeable(spans@[e - 1]));
        }
        Span::merge(spans[s], spans[e - 1])
    }
}

/// The levels of the lines, computed; see [`line_levels`].
fn levels_of(spans: &[Span], runs: &[(usize, usize)]) -> (r: Vec<usize>)
    requires
        spans_agree(spans@),
        forall|i: int| 0 <= i < runs@.len() ==> (#[trigger] runs@[i]).0 <= runs@[i].1 <= spans@.len(),
    ensures
        r@ == line_levels(spans@, runs@, runs@.len() as int),
{
    let n = spans.len();
    let mut r: Vec<usize> = Vec::new();
    let mut q: usize = 0;
    while q < n
        invariant
            n == spans@.len(),
            0 <= q <= n,
            r@ == Seq::new(q as nat, |x: int| 0usize),
        decreases n - q,
    {
        r.push(0);
        q = q + 1;
        assert(r@ =~= Seq::new(q as nat, |x: int| 0usize));
    }
    let mut k: usize = 0;
    while k < runs.len()
        invariant
            n == spans@.len(),
            spans_agree(spans@),
            forall|i: int| 0 <= i < runs@.len() ==> (#[trigger] runs@[i]).0 <= runs@[i].1 <= spans@.len(),
            0 <= k <= runs@.len(),
            r@ == line_levels(spans@, runs@, k as int),
            r@.len() == n,
        decreases runs@.len() - k,
    {
        let (s0, e0) = runs[k];
        if s0 < e0 {
            let sp = span_of_run(spans, s0, e0);
            r.set(s0, sp.indent());
        }
        k = k + 1;
    }
    r
}

/// Position of the first line of `items` at or after `i`.
pub open spec fn next_line(items: Seq<LineItem>, i: int) -> Option<int>
    decreases items.len() - i,
{
    if i < 0 || i >= items.len() {
        None
    } else if items[i] is Line {
        Some(i)
    } else {
        next_line(items, i + 1)
    }
}

/// Position of the last line of `items` before `i`.
pub open spec fn prev_line(items: Seq<LineItem>, i: int) -> Option<int>
    decreases i,
{
    if i <= 0 || i > items.len() {
        None
    } else if items[i - 1] is Line {
        Some(i - 1)
    } else {
        prev_line(items, i - 1)
    }
}

/// The span of the line `items[j]`, a run of the spans.
pub open spec fn line_span(items: Seq<LineItem>, spans: Seq<Span>, j: int) -> Span {
    run_span(spans, items[j]->Line_0, items[j]->Line_1)
}

/// The span of the node made for the item `i`: a line spans its children;
/// an indentation change is the empty span at the start of the line after
/// it, or, after the last line, at its end.
pub open spec fn item_span(items: Seq<LineItem>, spans: Seq<Span>, i: int) -> Span {
    if items[i] is Line {
        line_span(items, spans, i)
    } else {
        match next_line(items, i + 1) {
            Some(j) => line_span(items, spans, j).spec_truncated(0),
            None => match prev_line(items, items.len() as int) {
                Some(j) => line_span(items, spans, j).spec_to_end(),
                None => Span::spec_empty(),
            },
        }
    }
}

/// The spans of the nodes made for `items`, computed; see [`item_span`].
fn item_spans(items: &[LineItem], spans: &[Span]) -> (r: Vec<Span>)
    requires
        spans_agree(spans@),
        lines_ok(items@, spans@.len() as int),
    ensures
        r@.len() == items@.len(),
        forall|i: int| 0 <= i < items@.len() ==> #[trigger] r@[i] == item_span(items@, spans@, i),
{
    let m = items.len();
    let mut last: Option<Span> = None;
    let mut i: usize = 0;
    while i < m
        invariant
            m == items@.len(),
            spans_agree(spans@),
            lines_ok(items@, spans@.len() as int),
            0 <= i <= m,
            last == (match prev_line(items@, i as int) {
                Some(j) => Some(line_span(items@, spans@, j)),
                None => None::<Span>,
            }),
        decreases m - i,
    {
        match items[i] {
            LineItem::Line(s0, e0) => {
                last = Some(span_of_run(spans, s0, e0));
            },
            _ => {},
        }
        i = i + 1;
    }
    let end_span = match last {
        Some(sp) => sp.to_end(),
        None => Span::empty(),
    };
    let mut out: Vec<Span> = Vec::new();
    let mut next: Option<Span> = None;
    let mut j: usize = m;
    while j > 0
        invariant
            m == items@.len(),
            spans_agree(spans@),
            lines_ok(items@, spans@.len() as int),
            0 <= j <= m,
            out@.len() == m - j,
            next == (match next_line(items@, j as int) {
                Some(x) => Some(line_span(items@, spans@, x)),
                None => None::<Span>,
            }),
            end_span.spec_is_empty() || prev_line(items@, m as int) is Some,
            prev_line(items@, m as int) matches Some(x) ==> end_span == line_span(items@, spans@, x).spec_to_end(),
            forall|a: int| 0 <= a < m - j ==> #[trigger] out@[a] == item_span(items@, spans@, m - 1 - a),
        decreases j,
    {
        let x = j - 1;
        let sp = match items[x] {
            LineItem::Line(s0, e0) => {
                let l = span_of_run(spans, s0, e0);
                next = Some(l);
                l
            },
            _ => match next {
                Some(l) => l.truncated(0),
                None => end_span,
            },
        };
        proof {
            if !(items@[x as int] is Line) {
                assert(next_line(items@, x as int) == next_line(items@, x + 1));
                if next_line(items@, x + 1) is None && prev_line(items@, m as int) is None {
                    lemma_empty_span(end_span);
                }
            }
            assert(sp == item_span(items@, spans@, x as int));
        }
        out.push(sp);
        j = x;
    }
    // the spans were made from the last item back
    let mut r: Vec<Span> = Vec::new();
    let mut a: usize = m;
    while a > 0
        invariant
            m == items@.len(),
            out@.len() == m,
            0 <= a <= m,
            r@.len() == m - a,
            forall|b: int| 0 <= b < m - a ==> #[trigger] r@[b] == out@[m - 1 - b],
        decreases a,
    {
        r.push(out[a - 1]);
        a = a - 1;
    }
    proof {
        assert forall|i: int| 0 <= i < items@.len() implies #[trigger] r@[i] == item_span(items@, spans@, i) by {
            assert(r@[i] == out@[m - 1 - i]);
            assert(out@[m - 1 - i] == item_span(items@, spans@, m - 1 - (m - 1 - i)));
        }
    }
    r
}

/// Each line of `items` is one of the runs `runs[0..k]`.
pub open spec fn lines_are_runs(items: Seq<LineItem>, runs: Seq<(usize, usize)>, k: int) -> bool {
    forall|i: int|
        0 <= i < items.len() && (#[trigger] items[i]) is Line ==> exists|r: int|
            0 <= r < k && #[trigger] runs[r] == (items[i]->Line_0, items[i]->Line_1)
}

proof fn lemma_lines_are_runs_push(items: Seq<LineItem>, runs: Seq<(usize, usize)>, k: int, x: LineItem, k2: int)
    requires
        lines_are_runs(items, runs, k),
        k <= k2,
        x is Line ==> exists|r: int| 0 <= r < k2 && #[trigger] runs[r] == (x->Line_0, x->Line_1),
    ensures
        lines_are_runs(items.push(x), runs, k2),
{
    let p = items.push(x);
    assert forall|i: int| 0 <= i < p.len() && (#[trigger] p[i]) is Line implies exists|r: int|
        0 <= r < k2 && #[trigger] runs[r] == (p[i]->Line_0, p[i]->Line_1) by {
        if i < items.len() {
            assert(p[i] == items[i]);
            let r = choose|r: int| 0 <= r < k && #[trigger] runs[r] == (items[i]->Line_0, items[i]->Line_1);
            assert(runs[r] == (p[i]->Line_0, p[i]->Line_1));
        }
    }
}

proof fn lemma_lines_are_runs_dedents(items: Seq<LineItem>, runs: Seq<(usize, usize)>, k: int, d: nat)
    requires
        lines_are_runs(items, runs, k),
    ensures
        lines_are_runs(items + dedents(d), runs, k),
    decreases d,
{
    if d > 0 {
        lemma_lines_are_runs_dedents(items, runs, k, (d - 1) as nat);
        assert(dedents(d) =~= dedents((d - 1) as nat).push(LineItem::Dedent));
        assert(items + dedents(d) =~= (items + dedents((d - 1) as nat)).push(LineItem::Dedent));
        lemma_lines_are_runs_push(items + dedents((d - 1) as nat), runs, k, LineItem::Dedent, k);
    } else {
        assert(items + dedents(0) =~= items);
    }
}

/// The lines a line break makes are runs between the breaks.
proof fn lemma_line_items_runs(levels: Seq<usize>, runs: Seq<(usize, usize)>, k: int)
    requires
        0 <= k <= runs.len(),
    ensures
        line_state(levels, runs.take(k)) matches Ok((st, out)) ==> lines_are_runs(out, runs, k),
    decreases k,
{
    if k > 0 {
        lemma_line_items_runs(levels, runs, k - 1);
        let rk = runs.take(k);
        assert(rk.drop_last() =~= runs.take(k - 1));
        assert(rk.last() == runs[k - 1]);
        if let Ok((stack, out)) = line_state(levels, runs.take(k - 1)) {
            let run = runs[k - 1];
            let line = LineItem::Line(run.0, run.1);
            assert(runs[k - 1] == (line->Line_0, line->Line_1));
            if run.0 == run.1 {
                assert forall|i: int| 0 <= i < out.len() && (#[trigger] out[i]) is Line implies exists|r: int|
                    0 <= r < k && #[trigger] runs[r] == (out[i]->Line_0, out[i]->Line_1) by {
                    let r = choose|r: int| 0 <= r < k - 1 && #[trigger] runs[r] == (out[i]->Line_0, out[i]->Line_1);
                    assert(runs[r] == (out[i]->Line_0, out[i]->Line_1));
                }
            } else if stack.len() == 0 {
                lemma_lines_are_runs_push(out, runs, k - 1, line, k);
            } else if levels[run.0 as int] > stack.last() {
                lemma_lines_are_runs_push(out, runs, k - 1, LineItem::Indent, k - 1);
                lemma_lines_are_runs_push(out.push(LineItem::Indent), runs, k - 1, line, k);
            } else if levels[run.0 as int] < stack.last() {
                if let Some(s2) = dedent(stack, levels[run.0 as int]) {
                    lemma_lines_are_runs_dedents(out, runs, k - 1, (stack.len() - s2.len()) as nat);
                    lemma_lines_are_runs_push(out + dedents((stack.len() - s2.len()) as nat), runs, k - 1, line, k);
                }
            } else {
                lemma_lines_are_runs_push(out, runs, k - 1, line, k);
            }
        }
    } else {
        assert(runs.take(0) =~= Seq::<(usize, usize)>::empty());
    }
}

proof fn lemma_line_levels_len(spans: Seq<Span>, runs: Seq<(usize, usize)>, k: int)
    requires
        k <= runs.len(),
        forall|i: int| 0 <= i < runs.len() ==> (#[trigger] runs[i]).0 <= runs[i].1 <= spans.len(),
    ensures
        line_levels(spans, runs, k).len() == spans.len(),
    decreases k,
{
    if k > 0 {
        lemma_line_levels_len(spans, runs, k - 1);
    }
}

/// The value of the node made for an item.
pub open spec fn item_value<V>(item: LineItem, group: V, indent_up: V, indent_down: V) -> V {
    match item {
        LineItem::Line(..) => group,
        LineItem::Indent => indent_up,
        LineItem::Dedent => indent_down,
    }
}

/// The children of the node made for an item: those of its line.
pub open spec fn item_children(c: Seq<usize>, item: LineItem) -> Seq<usize> {
    match item {
        LineItem::Line(s, e) => c.subrange(s as int, e as int),
        _ => Seq::empty(),
    }
}

/// Splits the children of a parent into lines at the matched line breaks:
/// each line with children becomes a group, and a change of indentation
/// between lines becomes a node that opens or closes a level; see
/// [`line_items`].
#[derive(Debug)]
pub struct EvalLineBreak;

impl EvalLineBreak {
    /// Apply the rule to the children of `parent` at the positions
    /// `targets`, the line breaks. The level of a line is the indentation of
    /// the span of its children. `group` is the value of the lines,
    /// `indent_up` and `indent_down` those of the level changes. The parent
    /// is left with the nodes made, in order; the breaks become silent and
    /// done. A line that closes the base level is an error, reported at the
    /// position of its first child; the tree is then as it was.
    #[verifier::spinoff_prover]
    #[verifier::rlimit(40)]
    pub fn eval_nodes<V: Copy>(
        &self,
        tree: &mut NodeTree<V>,
        parent: Node,
        targets: &[usize],
        group: V,
        indent_up: V,
        indent_down: V,
    ) -> (r: Result<(), usize>)
        requires
            old(tree).wf(),
            old(tree).has(parent),
            targets_ok(old(tree).children_of(parent).len() as usize, targets@),
            spans_agree(spans_of(old(tree).spec_meta(), old(tree).children_of(parent))),
            ({
                let c = old(tree).children_of(parent);
                let runs = runs_between(c.len() as usize, targets@);
                let levels = line_levels(spans_of(old(tree).spec_meta(), c), runs, runs.len() as int);
                match line_items(levels, runs) {
                    Ok(items) => old(tree).spec_len() + items.len() <= usize::MAX,
                    Err(_) => true,
                }
            }),
        ensures
            final(tree).wf(),
            ({
                let len = old(tree).spec_len();
                let t = targets@;
                let c = old(tree).children_of(parent);
                let om = old(tree).spec_meta();
                let spans = spans_of(om, c);
                let runs = runs_between(c.len() as usize, t);
                let levels = line_levels(spans, runs, runs.len() as int);
                match line_items(levels, runs) {
                    Err(q) => {
                        &&& r == Err::<(), usize>(q)
                        &&& *final(tree) == *old(tree)
                    },
                    Ok(items) => {
                        &&& r == Ok::<(), usize>(())
                        &&& final(tree).spec_len() == len + items.len()
                        &&& final(tree).children_of(parent) == Seq::new(items.len(), |i: int| (len + i) as usize)
                        &&& forall|i: int|
                            0 <= i < items.len() ==> {
                                let x = #[trigger] final(tree).spec_meta()[len + i];
                                &&& final(tree).spec_values()[len + i] == item_value(items[i], group, indent_up, indent_down)
                                &&& final(tree).spec_children()[len + i] == item_children(c, items[i])
                                &&& x.span == item_span(items, spans, i)
                                &&& x.block == items[i] is Line
                                &&& x.status == (if items[i] is Line {
                                    FLAG_DONE
                                } else {
                                    0
                                })
                            }
                        &&& forall|x: int| 0 <= x < len ==> #[trigger] final(tree).spec_values()[x] == old(tree).spec_values()[x]
                        &&& forall|m: int|
                            0 <= m < len && m != parent.spec_id() ==> #[trigger] final(tree).spec_children()[m]
                                == old(tree).spec_children()[m]
                        &&& forall|m: int|
                            0 <= m < len && om[m].parent != Some(parent.spec_id() as usize)
                                ==> #[trigger] final(tree).spec_meta()[m] == om[m]
                        &&& forall|j: int|
                            0 <= j < t.len() ==> #[trigger] final(tree).spec_meta()[c[t[j] as int] as int] == (NodeMeta {
                                parent: None,
                                status: marked(om[c[t[j] as int] as int].status, true),
                                ..om[c[t[j] as int] as int]
                            })
                        &&& forall|q: int|
                            0 <= q < c.len() && !t.contains(q as usize) ==> {
                                let x = #[trigger] final(tree).spec_meta()[c[q] as int];
                                &&& x.span == om[c[q] as int].span
                                &&& x.block == om[c[q] as int].block
                                &&& x.status == om[c[q] as int].status
                            }
                    },
                }
            }),
    {
        let ghost len = tree.spec_len();
        let ghost t = targets@;
        let ghost c = tree.children_of(parent);
        let ghost om = tree.spec_meta();
        let ghost oc = tree.spec_children();
        let ghost pid = parent.spec_id();
        let n = tree.len(parent);
        let spans = child_spans(tree, parent);
        let runs = runs_of(n, targets);
        proof {
            lemma_runs_bounds(n, t);
        }
        let levels = levels_of(spans.as_slice(), runs.as_slice());
        proof {
            lemma_line_levels_len(spans@, runs@, runs@.len() as int);
        }
        let items = match line_break_plan(levels.as_slice(), targets) {
            Err(q) => return Err(q),
            Ok(it) => it,
        };
        let ghost runs_s = runs@;
        let ghost k1 = runs_s.len() as int;
        proof {
            lemma_line_items_in_order(levels@, n, t, k1);
            lemma_line_items_runs(levels@, runs_s, k1);
            assert(runs_s.take(k1) =~= runs_s);
            if let Ok((st, out)) = line_state(levels@, runs_s) {
                if st.len() > 1 {
                    lemma_lines_ok_dedents(out, n as int, (st.len() - 1) as nat);
                    lemma_lines_are_runs_dedents(out, runs_s, k1, (st.len() - 1) as nat);
                }
            }
            assert(lines_ok(items@, n as int));
            assert(lines_are_runs(items@, runs_s, k1));
        }
        let sps = item_spans(items.as_slice(), spans.as_slice());
        mark_children(tree, parent, targets, true);
        let all = tree.remove_nodes(parent, RangeBound::Unbounded, RangeBound::Unbounded);
        let ghost t1 = *tree;
        proof {
            assert(all@ =~= c);
            assert forall|q: int| 0 <= q < n implies (#[trigger] t1.spec_meta()[c[q] as int]).parent is None by {
                assert(om[c[q] as int].parent == Some(pid as usize));
                assert(om[c[q] as int].index == q);
            }
        }
        let m = items.len();
        let mut ids: Vec<usize> = Vec::new();
        let mut bnd: usize = 0;
        let mut i: usize = 0;
        while i < m
            invariant
                m == items@.len(),
                0 <= i <= m,
                n == c.len(),
                all@ == c,
                sps@.len() == m,
                forall|a: int| 0 <= a < m ==> #[trigger] sps@[a] == item_span(items@, spans@, a),
                spans@ == spans_of(om, c),
                lines_ok(items@, n as int),
                lines_are_runs(items@, runs_s, k1),
                runs_s == runs_between(n, t),
                k1 == t.len() + 1,
                targets_ok(n, t),
                links_ok(om, oc),
                oc.len() == len,
                om.len() == len,
                oc[pid] == c,
                0 <= pid < len,
                len == t1.spec_len(),
                len + m <= usize::MAX,
                t1.wf(),
                forall|q: int| 0 <= q < n ==> (#[trigger] t1.spec_meta()[c[q] as int]).parent is None,
                tree.wf(),
                tree.spec_len() == len + i,
                ids@ == Seq::new(i as nat, |a: int| (len + a) as usize),
                bnd <= n,
                forall|a: int| i <= a < m && (#[trigger] items@[a]) is Line ==> bnd <= items@[a]->Line_0,
                forall|a: int|
                    0 <= a < i ==> {
                        let x = #[trigger] tree.spec_meta()[len + a];
                        &&& tree.spec_values()[len + a] == item_value(items@[a], group, indent_up, indent_down)
                        &&& tree.spec_children()[len + a] == item_children(c, items@[a])
                        &&& x.span == item_span(items@, spans@, a)
                        &&& x.block == items@[a] is Line
                        &&& x.status == (if items@[a] is Line {
                            FLAG_DONE
                        } else {
                            0
                        })
                        &&& x.parent is None
                    },
                forall|x: int| 0 <= x < len ==> #[trigger] tree.spec_children()[x] == t1.spec_children()[x],
                forall|x: int| 0 <= x < len ==> #[trigger] tree.spec_values()[x] == t1.spec_values()[x],
                forall|x: int|
                    0 <= x < len ==> (#[trigger] tree.spec_meta()[x]).span == t1.spec_meta()[x].span
                        && tree.spec_meta()[x].block == t1.spec_meta()[x].block && tree.spec_meta()[x].status
                        == t1.spec_meta()[x].status,
                forall|x: int|
                    0 <= x < len && om[x].parent != Some(pid as usize) ==> #[trigger] tree.spec_meta()[x] == t1.spec_meta()[x],
                forall|q: int|
                    0 <= q < n && (q >= bnd || t.contains(q as usize)) ==> #[trigger] tree.spec_meta()[c[q] as int]
                        == t1.spec_meta()[c[q] as int],
            decreases m - i,
        {
            let ghost ta = *tree;
            let node = match items[i] {
                LineItem::Line(s0, e0) => {
                    let group_ids = copy_range(all.as_slice(), s0, e0);
                    proof {
                        let r = choose|r: int| 0 <= r < k1 && #[trigger] runs_s[r] == (s0, e0);
                        assert(items@[i as int] is Line);
                        assert forall|a: int| 0 <= a < group_ids@.len() implies #[trigger] group_ids@[a] < ta.spec_len() by {
                            assert(group_ids@[a] == c[s0 + a]);
                        }
                        assert forall|a: int, b: int| 0 <= a < b < group_ids@.len() implies #[trigger] group_ids@[a]
                            != #[trigger] group_ids@[b] by {
                            assert(group_ids@[a] == c[s0 + a]);
                            assert(group_ids@[b] == c[s0 + b]);
                            if c[s0 + a] == c[s0 + b] {
                                lemma_child_unique(om, oc, pid, s0 + a, pid, s0 + b);
                            }
                        }
                        assert forall|a: int| 0 <= a < group_ids@.len() implies (#[trigger] ta.spec_meta()[group_ids@[a] as int]).parent
                            is None by {
                            assert(group_ids@[a] == c[s0 + a]);
                            assert(s0 + a >= bnd);
                            assert(ta.spec_meta()[c[s0 + a] as int] == t1.spec_meta()[c[s0 + a] as int]);
                        }
                    }
                    let x = make_node(tree, group, sps[i], true, group_ids.as_slice(), true);
                    proof {
                        let tb = *tree;
                        let r = choose|r: int| 0 <= r < k1 && #[trigger] runs_s[r] == (s0, e0);
                        assert forall|q: int| 0 <= q < n && (q >= e0 || t.contains(q as usize)) implies #[trigger] tb.spec_meta()[c[q] as int]
                            == t1.spec_meta()[c[q] as int] by {
                            if group_ids@.contains(c[q]) {
                                let w = choose|w: int| 0 <= w < group_ids@.len() && group_ids@[w] == c[q];
                                assert(group_ids@[w] == c[s0 + w]);
                                lemma_child_unique(om, oc, pid, s0 + w, pid, q);
                                if t.contains(q as usize) {
                                    let jj = choose|jj: int| 0 <= jj < t.len() && t[jj] == q as usize;
                                    if jj < r {
                                        if jj < r - 1 {
                                            assert(t[jj] < t[r - 1]);
                                        }
                                    } else {
                                        assert(runs_s[r].1 == t[r]);
                                        if r < jj {
                                            assert(t[r] < t[jj]);
                                        }
                                    }
                                }
                            }
                            assert(q >= bnd || t.contains(q as usize));
                        }
                        assert forall|xx: int| 0 <= xx < len && om[xx].parent != Some(pid as usize) implies #[trigger] tb.spec_meta()[xx]
                            == t1.spec_meta()[xx] by {
                            if group_ids@.contains(xx as usize) {
                                let w = choose|w: int| 0 <= w < group_ids@.len() && group_ids@[w] == xx as usize;
                                assert(group_ids@[w] == c[s0 + w]);
                                assert(om[c[s0 + w] as int].parent == Some(pid as usize));
                            }
                        }
                        assert forall|a: int| i < a < m && (#[trigger] items@[a]) is Line implies e0 <= items@[a]->Line_0 by {
                            assert(items@[i as int] is Line);
                        }
                        assert(group_ids@ == item_children(c, items@[i as int]));
                    }
                    bnd = e0;
                    x
                },
                LineItem::Indent => make_node(tree, indent_up, sps[i], false, &[], false),
                LineItem::Dedent => make_node(tree, indent_down, sps[i], false, &[], false),
            };
            ids.push(node.id());
            proof {
                let tb = *tree;
                assert(ids@ =~= Seq::new((i + 1) as nat, |a: int| (len + a) as usize));
                assert forall|a: int| 0 <= a < i implies #[trigger] tb.spec_meta()[len + a] == ta.spec_meta()[len + a] by {
                    if items@[i as int] is Line {
                        let s0 = items@[i as int]->Line_0;
                        let e0 = items@[i as int]->Line_1;
                        if c.subrange(s0 as int, e0 as int).contains((len + a) as usize) {
                            let w = choose|w: int| 0 <= w < e0 - s0 && c.subrange(s0 as int, e0 as int)[w] == (len + a) as usize;
                            assert(c[s0 + w] < len);
                        }
                    }
                }
            }
            i = i + 1;
        }
        let ghost t2 = *tree;
        proof {
            assert forall|a: int| 0 <= a < ids@.len() implies (#[trigger] t2.spec_meta()[ids@[a] as int]).parent is None
                || t2.spec_meta()[ids@[a] as int].parent == Some(pid as usize) by {
                assert(ids@[a] == len + a);
            }
            assert forall|a: int| 0 <= a < ids@.len() implies #[trigger] ids@[a] < t2.spec_len() by {}
            assert forall|a: int, b: int| 0 <= a < b < ids@.len() implies #[trigger] ids@[a] != #[trigger] ids@[b] by {}
        }
        tree.set_nodes(parent, ids.as_slice());
        proof {
            let tf = *tree;
            assert forall|x: int| 0 <= x < t2.spec_len() && !ids@.contains(x as usize) implies #[trigger] tf.spec_meta()[x]
                == t2.spec_meta()[x] by {
                if t2.spec_meta()[x].parent == Some(pid as usize) {
                    assert(t2.spec_children()[pid] == t1.spec_children()[pid]);
                }
            }
            assert forall|x: int| 0 <= x < len implies !(#[trigger] ids@.contains(x as usize)) by {
                if ids@.contains(x as usize) {
                    let w = choose|w: int| 0 <= w < ids@.len() && ids@[w] == x as usize;
                }
            }
            assert forall|j: int| 0 <= j < t.len() implies #[trigger] tf.spec_meta()[c[t[j] as int] as int] == (NodeMeta {
                parent: None,
                status: marked(om[c[t[j] as int] as int].status, true),
                ..om[c[t[j] as int] as int]
            }) by {
                assert(t[j] < n);
                assert(t.contains(t[j]));
                lemma_at_positions(om, oc, pid, t, t[j] as int);
                assert(om[c[t[j] as int] as int].parent == Some(pid as usize));
                assert(om[c[t[j] as int] as int].index == t[j]);
                assert(c[t[j] as int] < len);
            }
            assert forall|q: int| 0 <= q < n && !t.contains(q as usize) implies {
                let x = #[trigger] tf.spec_meta()[c[q] as int];
                &&& x.span == om[c[q] as int].span
                &&& x.block == om[c[q] as int].block
                &&& x.status == om[c[q] as int].status
            } by {
                lemma_at_positions(om, oc, pid, t, q);
                assert(c[q] < len);
            }
            assert forall|mm: int| 0 <= mm < len && om[mm].parent != Some(pid as usize) implies #[trigger] tf.spec_meta()[mm] == om[mm] by {
                let ids_t = at_positions(c, t);
                if ids_t.contains(mm as usize) {
                    let w = choose|w: int| 0 <= w < ids_t.len() && ids_t[w] == mm as usize;
                    assert(t[w] < n);
                    assert(oc[pid][t[w] as int] == mm);
                }
            }
            assert forall|a: int| 0 <= a < m implies {
                let x = #[trigger] tf.spec_meta()[len + a];
                &&& tf.spec_values()[len + a] == item_value(items@[a], group, indent_up, indent_down)
                &&& tf.spec_children()[len + a] == item_children(c, items@[a])
                &&& x.span == item_span(items@, spans@, a)
                &&& x.block == items@[a] is Line
                &&& x.status == (if items@[a] is Line {
                    FLAG_DONE
                } else {
                    0
                })
            } by {
                assert(ids@[a] == len + a);
            }
        }
        Ok(())
    }
}

/// The scope of the node `n`: the span of its nearest ancestor, within
/// `fuel` steps, that opens a scope (as `scoped` says of each node) and
/// covers some text; else the whole source of `n`, unless `n` has none.
pub open spec fn scope_spec(meta: Seq<NodeMeta>, scoped: Seq<bool>, n: int, x: Option<usize>, fuel: nat) -> Option<(Source, usize, usize)>
    decreases fuel,
{
    match x {
        Some(p) => {
            let span = meta[p as int].span;
            if !span.spec_is_empty() && scoped[p as int] {
                Some((span.spec_src(), span.spec_pos(), span.spec_end()))
            } else if fuel > 0 {
                scope_spec(meta, scoped, n, meta[p as int].parent, (fuel - 1) as nat)
            } else {
                None
            }
        },
        None => {
            let src = meta[n].span.spec_src();
            if src == Source::empty_spec() {
                None
            } else {
                Some((src, 0usize, src.spec_len()))
            }
        },
    }
}

/// The source and the range of positions of the scope of `n`; see
/// [`scope_spec`]. `scoped` tells of each node whether it opens a scope.
pub fn get_scope<V>(tree: &NodeTree<V>, n: Node, scoped: &[bool]) -> (r: Option<(Source, usize, usize)>)
    requires
        tree.wf(),
        tree.has(n),
        scoped@.len() == tree.spec_len(),
        rooted(tree.spec_meta(), n.spec_id(), tree.spec_len()),
    ensures
        r == scope_spec(tree.spec_meta(), scoped@, n.spec_id(), tree.meta_of(n).parent, tree.spec_len()),
{
    let mut cur = tree.parent(n);
    let ghost mut fuel: nat = tree.spec_len();
    proof {
        if tree.meta_of(n).parent is Some {
            lemma_node_of(tree.meta_of(n).parent->0 as int);
        }
    }
    loop
        invariant
            tree.wf(),
            tree.has(n),
            scoped@.len() == tree.spec_len(),
            match cur {
                Some(c) => tree.has(c) && rooted(tree.spec_meta(), c.spec_id(), (fuel - 1) as nat) && fuel > 0,
                None => true,
            },
            scope_spec(tree.spec_meta(), scoped@, n.spec_id(), tree.meta_of(n).parent, tree.spec_len()) == scope_spec(
                tree.spec_meta(),
                scoped@,
                n.spec_id(),
                match cur {
                    Some(c) => Some(c.spec_id() as usize),
                    None => None,
                },
                fuel,
            ),
        decreases fuel,
    {
        match cur {
            Some(node) => {
                let span = tree.span(node);
                if !span.is_empty() && scoped[node.id()] {
                    return Some((span.src(), span.pos(), span.end()));
                }
                let next = tree.parent(node);
                proof {
                    if tree.meta_of(node).parent is Some {
                        lemma_node_of(tree.meta_of(node).parent->0 as int);
                    }
                }
                cur = next;
                proof {
                    fuel = (fuel - 1) as nat;
                }
            },
            None => {
                let src = tree.span(n).src();
                let e = Source::empty();
                proof {
                    lemma_empty_source(e);
                }
                if src == e {
                    return None;
                }
                return Some((src, 0, src.len()));
            },
        }
    }
}

/// The stack with `ids` put after the innermost group.
pub open spec fn push_top(stack: Seq<Seq<usize>>, ids: Seq<usize>) -> Seq<Seq<usize>> {
    stack.update(stack.len() - 1, stack.last() + ids)
}

/// The open groups (the innermost last) and the children of the blocks
/// made so far, after the first `k` markers: the children before each
/// marker join the innermost group; an opening marker opens a group; a
/// closing one makes a block node, of id `len` plus the number made before,
/// of the innermost group, and puts it in the group around. An error as in
/// [`indent_state`].
pub open spec fn indent_build(c: Seq<usize>, runs: Seq<(usize, usize)>, markers: Seq<Marker>, len: nat, k: int) -> Result<
    (Seq<Seq<usize>>, Seq<Seq<usize>>),
    IndentError,
>
    decreases k,
{
    if k <= 0 {
        Ok((seq![Seq::<usize>::empty()], Seq::empty()))
    } else {
        match indent_build(c, runs, markers, len, k - 1) {
            Err(e) => Err(e),
            Ok((stack, made)) => {
                let run = runs[k - 1];
                let stack = push_top(stack, c.subrange(run.0 as int, run.1 as int));
                match markers[k - 1] {
                    Marker::Open => Ok((stack.push(Seq::empty()), made)),
                    Marker::Close => if stack.len() <= 1 {
                        Err(IndentError::Unbalanced((k - 1) as usize))
                    } else {
                        Ok((push_top(stack.drop_last(), seq![(len + made.len()) as usize]), made.push(stack.last())))
                    },
                    Marker::Other => Err(IndentError::Invalid((k - 1) as usize)),
                }
            },
        }
    }
}

/// The building agrees with [`indent_state`]: the same errors, and one
/// more open group than open blocks.
proof fn lemma_indent_build_state(c: Seq<usize>, runs: Seq<(usize, usize)>, markers: Seq<Marker>, len: nat, k: int)
    ensures
        match (indent_state(runs, markers, k), indent_build(c, runs, markers, len, k)) {
            (Err(a), Err(b)) => a == b,
            (Ok((d, _)), Ok((st, _))) => st.len() == d + 1,
            _ => false,
        },
    decreases k,
{
    if k > 0 {
        lemma_indent_build_state(c, runs, markers, len, k - 1);
    }
}

/// A prefix of a building that succeeds succeeds, with no more blocks.
proof fn lemma_indent_build_prefix(c: Seq<usize>, runs: Seq<(usize, usize)>, markers: Seq<Marker>, len: nat, i: int, k: int)
    requires
        0 <= i <= k,
        indent_build(c, runs, markers, len, k) is Ok,
    ensures
        indent_build(c, runs, markers, len, i) is Ok,
        indent_build(c, runs, markers, len, i)->Ok_0.1.len() <= indent_build(c, runs, markers, len, k)->Ok_0.1.len(),
        indent_build(c, runs, markers, len, i)->Ok_0.0.len() >= 1,
    decreases k - i,
{
    if i < k {
        lemma_indent_build_prefix(c, runs, markers, len, i + 1, k);
    } else {
        lemma_indent_build_len(c, runs, markers, len, k);
    }
}

proof fn lemma_indent_build_made(c: Seq<usize>, runs: Seq<(usize, usize)>, markers: Seq<Marker>, len: nat, k: int)
    requires
        0 <= k,
    ensures
        indent_build(c, runs, markers, len, k) matches Ok((_, made)) ==> made.len() <= k,
    decreases k,
{
    if k > 0 {
        lemma_indent_build_made(c, runs, markers, len, k - 1);
    }
}

proof fn lemma_indent_build_len(c: Seq<usize>, runs: Seq<(usize, usize)>, markers: Seq<Marker>, len: nat, k: int)
    ensures
        indent_build(c, runs, markers, len, k) matches Ok((st, _)) ==> st.len() >= 1,
    decreases k,
{
    if k > 0 {
        lemma_indent_build_len(c, runs, markers, len, k - 1);
    }
}

/// What an indentation makes of the children `c` of a parent whose children
/// at `t` are the markers `markers`, in a tree of `len` nodes: the children
/// left to the parent, and the children of each block node made, in order;
/// see [`indent_build`]. Blocks still open at the end are an error.
pub open spec fn indent_result(c: Seq<usize>, t: Seq<usize>, markers: Seq<Marker>, len: nat) -> Result<
    (Seq<usize>, Seq<Seq<usize>>),
    IndentError,
> {
    let runs = runs_between(c.len() as usize, t);
    match indent_build(c, runs, markers, len, t.len() as int) {
        Err(e) => Err(e),
        Ok((stack, made)) => if stack.len() != 1 {
            Err(IndentError::Missing)
        } else {
            let last = runs[t.len() as int];
            Ok((stack[0] + c.subrange(last.0 as int, last.1 as int), made))
        },
    }
}

/// The result fails exactly when the plan of the indentation does.
proof fn lemma_indent_result_plan(c: Seq<usize>, t: Seq<usize>, markers: Seq<Marker>, len: nat)
    ensures
        match (indent_items(c.len() as usize, t, markers), indent_result(c, t, markers, len)) {
            (Err(a), Err(b)) => a == b,
            (Ok(_), Ok(_)) => true,
            _ => false,
        },
{
    let runs = runs_between(c.len() as usize, t);
    lemma_indent_build_state(c, runs, markers, len, t.len() as int);
}

/// The span is empty or in the source `src`.
pub open spec fn fits(s: Span, src: Source) -> bool {
    s.spec_is_empty() || s.spec_src() == src
}

proof fn lemma_fits_merge(a: Span, b: Span, src: Source)
    requires
        fits(a, src),
        fits(b, src),
    ensures
        a.spec_mergeable(b),
        fits(Span::spec_merge(a, b), src),
{
    if !a.spec_is_empty() && !b.spec_is_empty() {
        lemma_merge_covers(a, b);
    }
}

/// The vectors of ids, as sequences.
pub open spec fn id_lists(s: Seq<Vec<usize>>) -> Seq<Seq<usize>> {
    s.map_values(|v: Vec<usize>| v@)
}

/// Put `all[s..e]` after the ids `v`.
fn extend_ids(v: &mut Vec<usize>, all: &[usize], s: usize, e: usize)
    requires
        s <= e <= all@.len(),
    ensures
        final(v)@ == old(v)@ + all@.subrange(s as int, e as int),
{
    let ghost o = v@;
    let mut i: usize = s;
    while i < e
        invariant
            s <= i <= e <= all@.len(),
            v@ == o + all@.subrange(s as int, i as int),
        decreases e - i,
    {
        v.push(all[i]);
        i = i + 1;
        assert(v@ =~= o + all@.subrange(s as int, i as int));
    }
}

/// The ids held by the open groups are distinct, below `tn`, of nodes
/// without a parent whose spans fit `src`; those below `len` are children
/// of `pid` in `om` at a position below `cur`.
pub open spec fn groups_ok<V>(
    tree: NodeTree<V>,
    groups: Seq<Seq<usize>>,
    om: Seq<NodeMeta>,
    pid: int,
    len: nat,
    cur: int,
    src: Source,
    t: Seq<usize>,
) -> bool {
    let f = groups.flatten();
    &&& distinct_ids(f)
    &&& forall|a: int|
        0 <= a < f.len() ==> {
            let y = #[trigger] f[a];
            &&& y < tree.spec_len()
            &&& tree.spec_meta()[y as int].parent is None
            &&& fits(tree.spec_meta()[y as int].span, src)
            &&& y < len ==> om[y as int].parent == Some(pid as usize) && om[y as int].index < cur && !t.contains(
                om[y as int].index,
            )
        }
}

proof fn lemma_distinct_split(a: Seq<usize>, b: Seq<usize>)
    requires
        distinct_ids(a + b),
    ensures
        distinct_ids(a),
        distinct_ids(b),
        forall|i: int, j: int| 0 <= i < a.len() && 0 <= j < b.len() ==> #[trigger] a[i] != #[trigger] b[j],
{
    let ab = a + b;
    assert forall|i: int, j: int| 0 <= i < j < a.len() implies #[trigger] a[i] != #[trigger] a[j] by {
        assert(ab[i] == a[i] && ab[j] == a[j]);
    }
    assert forall|i: int, j: int| 0 <= i < j < b.len() implies #[trigger] b[i] != #[trigger] b[j] by {
        assert(ab[a.len() + i] == b[i] && ab[a.len() + j] == b[j]);
    }
    assert forall|i: int, j: int| 0 <= i < a.len() && 0 <= j < b.len() implies #[trigger] a[i] != #[trigger] b[j] by {
        assert(ab[i] == a[i] && ab[a.len() + j] == b[j]);
    }
}

proof fn lemma_distinct_join(a: Seq<usize>, b: Seq<usize>)
    requires
        distinct_ids(a),
        distinct_ids(b),
        forall|i: int, j: int| 0 <= i < a.len() && 0 <= j < b.len() ==> #[trigger] a[i] != #[trigger] b[j],
    ensures
        distinct_ids(a + b),
{
    let ab = a + b;
    assert forall|i: int, j: int| 0 <= i < j < ab.len() implies #[trigger] ab[i] != #[trigger] ab[j] by {
        if j < a.len() {
            assert(ab[i] == a[i] && ab[j] == a[j]);
        } else if i < a.len() {
            assert(ab[i] == a[i] && ab[j] == b[j - a.len()]);
        } else {
            assert(ab[i] == b[i - a.len()] && ab[j] == b[j - a.len()]);
        }
    }
}

/// What holds throughout an indentation of the children `c` of `pid`: the
/// tree `t1` is the tree after the markers were marked and the children
/// taken from the parent; `fin` is what the whole building gives.
pub open spec fn indent_fixed<V>(
    c: Seq<usize>,
    t: Seq<usize>,
    markers: Seq<Marker>,
    rs: Seq<(usize, usize)>,
    om: Seq<NodeMeta>,
    oc: Seq<Seq<usize>>,
    pid: int,
    len: nat,
    t1: NodeTree<V>,
    src: Source,
    sp: Seq<Span>,
    fin: (Seq<Seq<usize>>, Seq<Seq<usize>>),
) -> bool {
    let n = c.len();
    let k = t.len();
    &&& k == markers.len()
    &&& rs == runs_between(n as usize, t)
    &&& targets_ok(n as usize, t)
    &&& links_ok(om, oc)
    &&& oc.len() == len
    &&& om.len() == len
    &&& oc[pid] == c
    &&& 0 <= pid < len
    &&& len == t1.spec_len()
    &&& len + k <= usize::MAX
    &&& t1.wf()
    &&& forall|q: int| 0 <= q < n ==> (#[trigger] t1.spec_meta()[c[q] as int]).parent is None
    &&& forall|q: int| 0 <= q < n ==> fits(#[trigger] sp[q], src)
    &&& sp == spans_of(om, c)
    &&& forall|x: int| 0 <= x < len ==> (#[trigger] t1.spec_meta()[x]).span == om[x].span && t1.spec_meta()[x].block == om[x].block
    &&& forall|q: int|
        0 <= q < n ==> (#[trigger] t1.spec_meta()[c[q] as int]).status == (if t.contains(q as usize) {
            marked(om[c[q] as int].status, true)
        } else {
            om[c[q] as int].status
        })
    &&& forall|x: int| 0 <= x < len && om[x].parent != Some(pid as usize) ==> #[trigger] t1.spec_meta()[x] == om[x]
    &&& forall|j: int| 0 <= j < t.len() ==> #[trigger] t1.spec_meta()[c[t[j] as int] as int] == (NodeMeta {
        parent: None,
        status: marked(om[c[t[j] as int] as int].status, true),
        ..om[c[t[j] as int] as int]
    })
    &&& indent_build(c, rs, markers, len, k as int) == Ok::<(Seq<Seq<usize>>, Seq<Seq<usize>>), IndentError>(fin)
    &&& fin.0.len() == 1
}

/// The state of an indentation after the first `i` markers: the open
/// groups and the block nodes made are those of [`indent_build`], and only
/// the children taken into blocks have changed.
pub open spec fn indent_progress<V>(
    tree: NodeTree<V>,
    stack: Seq<Seq<usize>>,
    i: int,
    c: Seq<usize>,
    t: Seq<usize>,
    markers: Seq<Marker>,
    rs: Seq<(usize, usize)>,
    om: Seq<NodeMeta>,
    pid: int,
    len: nat,
    t1: NodeTree<V>,
    src: Source,
    sequence: V,
) -> bool {
    let n = c.len();
    &&& 0 <= i <= t.len()
    &&& indent_build(c, rs, markers, len, i) matches Ok((st, made)) && {
        &&& stack == st
        &&& tree.spec_len() == len + made.len()
        &&& forall|j: int|
            0 <= j < made.len() ==> {
                let x = #[trigger] tree.spec_meta()[len + j];
                &&& tree.spec_children()[len + j] == made[j]
                &&& tree.spec_values()[len + j] == sequence
                &&& x.span == range_of(spans_of(tree.spec_meta(), made[j]))
                &&& x.block
                &&& x.status == 0
            }
    }
    &&& tree.wf()
    &&& groups_ok(tree, stack, om, pid, len, rs[i].0 as int, src, t)
    &&& forall|x: int| 0 <= x < len ==> #[trigger] tree.spec_children()[x] == t1.spec_children()[x]
    &&& forall|x: int| 0 <= x < len ==> #[trigger] tree.spec_values()[x] == t1.spec_values()[x]
    &&& forall|x: int|
        0 <= x < len ==> (#[trigger] tree.spec_meta()[x]).block == t1.spec_meta()[x].block && tree.spec_meta()[x].status
            == t1.spec_meta()[x].status && tree.spec_meta()[x].span == t1.spec_meta()[x].span
    &&& forall|x: int| 0 <= x < len && om[x].parent != Some(pid as usize) ==> #[trigger] tree.spec_meta()[x] == t1.spec_meta()[x]
    &&& forall|q: int|
        0 <= q < n && (q >= rs[i].0 || t.contains(q as usize)) ==> #[trigger] tree.spec_meta()[c[q] as int]
            == t1.spec_meta()[c[q] as int]
}

/// One marker of an indentation: its children join the innermost group,
/// then it opens a group or closes one into a block node.
#[verifier::spinoff_prover]
#[verifier::rlimit(100)]
fn indent_step<V: Copy>(
    tree: &mut NodeTree<V>,
    stack: &mut Vec<Vec<usize>>,
    all: &[usize],
    runs: &[(usize, usize)],
    markers: &[Marker],
    sequence: V,
    i: usize,
    Ghost(c): Ghost<Seq<usize>>,
    Ghost(t): Ghost<Seq<usize>>,
    Ghost(om): Ghost<Seq<NodeMeta>>,
    Ghost(oc): Ghost<Seq<Seq<usize>>>,
    Ghost(pid): Ghost<int>,
    Ghost(len): Ghost<nat>,
    Ghost(t1): Ghost<NodeTree<V>>,
    Ghost(src): Ghost<Source>,
    Ghost(sp): Ghost<Seq<Span>>,
    Ghost(fin): Ghost<(Seq<Seq<usize>>, Seq<Seq<usize>>)>,
)
    requires
        all@ == c,
        runs@ == runs_between(c.len() as usize, t),
        i < t.len(),
        indent_fixed(c, t, markers@, runs@, om, oc, pid, len, t1, src, sp, fin),
        indent_progress(*old(tree), id_lists(old(stack)@), i as int, c, t, markers@, runs@, om, pid, len, t1, src, sequence),
    ensures
        indent_progress(*final(tree), id_lists(final(stack)@), i + 1, c, t, markers@, runs@, om, pid, len, t1, src, sequence),
{
    let ghost rs = runs@;
    let ghost n = c.len();
    let ghost k = t.len();
    let ghost ta = *tree;
    proof {
        lemma_runs_bounds(n as usize, t);
    }
        let (s0, e0) = runs[i];
        let ghost st0 = indent_build(c, rs, markers@, len, i as int)->Ok_0.0;
        let ghost made0 = indent_build(c, rs, markers@, len, i as int)->Ok_0.1;
        proof {
            lemma_indent_build_prefix(c, rs, markers@, len, i + 1, k as int);
            lemma_indent_build_prefix(c, rs, markers@, len, i as int, k as int);
            lemma_indent_build_made(c, rs, markers@, len, i as int);
            assert(rs[i as int] == (s0, e0));
            assert(s0 <= e0 <= n);
            if i > 0 {
                assert(rs[i as int].0 == t[i - 1] + 1);
            }
            assert(rs[i + 1].0 == t[i as int] + 1);
        }
        let mut top = stack.pop().unwrap();
        let ghost rest = id_lists(stack@);
        proof {
            assert(st0 == rest.push(top@));
            assert(st0.drop_last() =~= rest);
            rest.lemma_flatten_push(top@);
        }
        let ghost top0 = top@;
        extend_ids(&mut top, all, s0, e0);
        let ghost st1 = push_top(st0, c.subrange(s0 as int, e0 as int));
        proof {
            assert(st1 =~= rest.push(top@));
            rest.lemma_flatten_push(top@);
            // the new ids are fresh and free
            let f0 = rest.flatten() + top0;
            let added = c.subrange(s0 as int, e0 as int);
            assert forall|a: int, b: int| 0 <= a < f0.len() && 0 <= b < added.len() implies #[trigger] f0[a] != #[trigger] added[b] by {
                assert(added[b] == c[s0 + b]);
                if f0[a] == added[b] {
                    assert(om[f0[a] as int].parent == Some(pid as usize) && om[f0[a] as int].index < s0);
                    assert(om[c[s0 + b] as int].index == s0 + b);
                }
            }
            assert(distinct_ids(added)) by {
                assert forall|a: int, b: int| 0 <= a < b < added.len() implies #[trigger] added[a] != #[trigger] added[b] by {
                    assert(added[a] == c[s0 + a] && added[b] == c[s0 + b]);
                    if c[s0 + a] == c[s0 + b] {
                        lemma_child_unique(om, oc, pid, s0 + a, pid, s0 + b);
                    }
                }
            }
            lemma_distinct_join(f0, added);
            assert(rest.flatten() + top@ =~= f0 + added);
            let f1 = f0 + added;
            assert(st1.flatten() == f1);
            assert forall|a: int| 0 <= a < f1.len() implies {
                let y = #[trigger] f1[a];
                &&& y < tree.spec_len()
                &&& tree.spec_meta()[y as int].parent is None
                &&& fits(tree.spec_meta()[y as int].span, src)
                &&& y < len ==> om[y as int].parent == Some(pid as usize) && om[y as int].index < rs[i + 1].0
                    && !t.contains(om[y as int].index)
            } by {
                if a < f0.len() {
                    assert(f1[a] == f0[a]);
                    assert(st0.flatten() == f0);
                    assert(st0.flatten()[a] == f0[a]);
                } else {
                    let b = a - f0.len();
                    let q = s0 + b;
                    assert(f1[a] == added[b]);
                    assert(added[b] == c[q]);
                    assert(q >= rs[i as int].0);
                    assert(tree.spec_meta()[c[q] as int] == t1.spec_meta()[c[q] as int]);
                    assert(om[c[q] as int].parent == Some(pid as usize));
                    assert(om[c[q] as int].index == q);
                    assert(t1.spec_meta()[c[q] as int].span == om[c[q] as int].span);
                    assert(sp[q] == om[c[q] as int].span);
                    if t.contains(q as usize) {
                        let jj = choose|jj: int| 0 <= jj < t.len() && t[jj] == q as usize;
                        if jj < i {
                            if jj < i - 1 {
                                assert(t[jj] < t[i - 1]);
                            }
                        } else if jj > i {
                            assert(t[i as int] < t[jj]);
                        }
                    }
                }
            }
            assert(groups_ok(*tree, st1, om, pid, len, rs[i + 1].0 as int, src, t));
        }
        match markers[i] {
            Marker::Open => {
                stack.push(top);
                stack.push(Vec::new());
                proof {
                    assert(id_lists(stack@) =~= st1.push(Seq::empty()));
                    st1.lemma_flatten_push(Seq::empty());
                    assert(st1.push(Seq::<usize>::empty()).flatten() =~= st1.flatten());
                    assert(groups_ok(*tree, id_lists(stack@), om, pid, len, rs[i + 1].0 as int, src, t));
                    assert forall|q: int| 0 <= q < n && (q >= rs[i + 1].0 || t.contains(q as usize)) implies #[trigger] tree.spec_meta()[c[q] as int]
                        == t1.spec_meta()[c[q] as int] by {
                        assert(rs[i as int].0 <= rs[i + 1].0);
                        assert(tree.spec_meta()[c[q] as int] == ta.spec_meta()[c[q] as int]);
                    }
                    assert forall|x: int| 0 <= x < len && om[x].parent != Some(pid as usize) implies #[trigger] tree.spec_meta()[x] == t1.spec_meta()[x] by {
                        assert(tree.spec_meta()[x] == ta.spec_meta()[x]);
                    }
                }
            },
            Marker::Close => {
                let mut below = stack.pop().unwrap();
                let ghost rest2 = id_lists(stack@);
                proof {
                    assert(rest == rest2.push(below@));
                    rest2.lemma_flatten_push(below@);
                }
                let ghost tt = top@;
                let ghost bb = below@;
                let ghost f2 = rest2.flatten() + bb;
                proof {
                    assert(rest == rest2.push(bb));
                    assert(st1 == rest2.push(bb).push(tt));
                    assert(st1.flatten() =~= f2 + tt);
                    lemma_distinct_split(f2, tt);
                    assert forall|a: int| 0 <= a < tt.len() implies #[trigger] tt[a] < tree.spec_len() && tree.spec_meta()[tt[a] as int].parent
                        is None && fits(tree.spec_meta()[tt[a] as int].span, src) by {
                        assert(st1.flatten()[f2.len() + a] == tt[a]);
                    }
                    if tt.len() >= 2 {
                        lemma_fits_merge(tree.spec_meta()[tt[0] as int].span, tree.spec_meta()[tt.last() as int].span, src);
                    }
                }
                let span = span_range(tree, top.as_slice());
                let ghost tb = *tree;
                proof {
                    if tt.len() == 0 {
                        lemma_empty_span(span);
                    }
                    assert(span == range_of(spans_of(tb.spec_meta(), tt)));
                    if tt.len() >= 2 {
                        lemma_fits_merge(tb.spec_meta()[tt[0] as int].span, tb.spec_meta()[tt.last() as int].span, src);
                    }
                    assert(fits(span, src));
                }
                let x = make_node(tree, sequence, span, true, top.as_slice(), false);
                below.push(x.id());
                stack.push(below);
                proof {
                    let tn = *tree;
                    assert forall|y: int| 0 <= y < tb.spec_len() implies (#[trigger] tn.spec_meta()[y]).span == tb.spec_meta()[y].span
                        && tn.spec_meta()[y].block == tb.spec_meta()[y].block && tn.spec_meta()[y].status == tb.spec_meta()[y].status by {
                        if tt.contains(y as usize) {
                            let w = choose|w: int| 0 <= w < tt.len() && tt[w] == y as usize;
                            assert(tn.spec_meta()[tt[w] as int] == NodeMeta { parent: Some(x.spec_id() as usize), index: w as usize, ..tb.spec_meta()[tt[w] as int] });
                        }
                    }
                    assert(spans_of(tn.spec_meta(), tt) =~= spans_of(tb.spec_meta(), tt));
                    let st2 = push_top(st1.drop_last(), seq![(len + made0.len()) as usize]);
                    assert(st1.drop_last() =~= rest2.push(bb));
                    assert(x.spec_id() == len + made0.len());
                    assert(bb + seq![x.spec_id() as usize] =~= bb.push(x.spec_id() as usize));
                    assert(st2 =~= rest2.push(bb.push(x.spec_id() as usize)));
                    assert(id_lists(stack@) =~= st2);
                    rest2.lemma_flatten_push(bb.push(x.spec_id() as usize));
                    let f3 = rest2.flatten() + bb.push(x.spec_id() as usize);
                    assert(f3 =~= f2.push(x.spec_id() as usize));
                    assert(distinct_ids(f3)) by {
                        assert forall|a: int, b: int| 0 <= a < b < f3.len() implies #[trigger] f3[a] != #[trigger] f3[b] by {
                            if b == f2.len() {
                                assert(f2[a] == st1.flatten()[a]);
                            }
                        }
                    }
                    assert forall|a: int| 0 <= a < f3.len() implies {
                        let y = #[trigger] f3[a];
                        &&& y < tn.spec_len()
                        &&& tn.spec_meta()[y as int].parent is None
                        &&& fits(tn.spec_meta()[y as int].span, src)
                        &&& y < len ==> om[y as int].parent == Some(pid as usize) && om[y as int].index < rs[i + 1].0 && !t.contains(
                            om[y as int].index,
                        )
                    } by {
                        if a < f2.len() {
                            assert(f3[a] == f2[a]);
                            assert(st1.flatten()[a] == f2[a]);
                            assert(!tt.contains(f2[a])) by {
                                if tt.contains(f2[a]) {
                                    let w = choose|w: int| 0 <= w < tt.len() && tt[w] == f2[a];
                                }
                            }
                        }
                    }
                    assert(groups_ok(tn, st2, om, pid, len, rs[i + 1].0 as int, src, t));
                    assert forall|y: int| 0 <= y < len && om[y].parent != Some(pid as usize) implies #[trigger] tn.spec_meta()[y] == t1.spec_meta()[y] by {
                        if tt.contains(y as usize) {
                            let w = choose|w: int| 0 <= w < tt.len() && tt[w] == y as usize;
                            assert(st1.flatten()[f2.len() + w] == tt[w]);
                        }
                    }
                    assert forall|q: int| 0 <= q < n && (q >= rs[i + 1].0 || t.contains(q as usize)) implies #[trigger] tn.spec_meta()[c[q] as int]
                        == t1.spec_meta()[c[q] as int] by {
                        if tt.contains(c[q]) {
                            let w = choose|w: int| 0 <= w < tt.len() && tt[w] == c[q];
                            assert(st1.flatten()[f2.len() + w] == tt[w]);
                            assert(om[c[q] as int].index == q);
                        }
                        assert(rs[i as int].0 <= rs[i + 1].0);
                    }
                    assert forall|j: int| 0 <= j < made0.len() + 1 implies {
                        let y = #[trigger] tn.spec_meta()[len + j];
                        &&& tn.spec_children()[len + j] == made0.push(tt)[j]
                        &&& tn.spec_values()[len + j] == sequence
                        &&& y.span == range_of(spans_of(tn.spec_meta(), made0.push(tt)[j]))
                        &&& y.block
                        &&& y.status == 0
                    } by {
                        if j < made0.len() {
                            assert(spans_of(tn.spec_meta(), made0[j]) =~= spans_of(ta.spec_meta(), made0[j])) by {
                                assert forall|w: int| 0 <= w < made0[j].len() implies tn.spec_meta()[made0[j][w] as int].span == ta.spec_meta()[made0[j][w] as int].span by {
                                    assert(ta.spec_children()[len + j] == made0[j]);
                                    assert(ta.spec_children()[len + j][w] < ta.spec_len());
                                    assert(made0[j][w] < tb.spec_len());
                                }
                            }
                        }
                    }
                }
            },
            Marker::Other => {
                proof {
                    assert(false);
                }
            },
        }
}

/// Regroups the children of a parent into indented blocks at the matched
/// markers: the children between an opening and its closing marker become
/// the children of a new block node; see [`indent_result`].
#[derive(Debug)]
pub struct EvalIndent;

impl EvalIndent {
    /// Apply the rule to the children of `parent` at the positions
    /// `targets`, whose markers are `markers`; `sequence` is the value of the
    /// block nodes. The markers become silent and done. A closing marker
    /// without an open block, another child matched, or a block still open at
    /// the end is an error; the tree is then as it was.
    #[verifier::spinoff_prover]
    #[verifier::rlimit(60)]
    pub fn eval_nodes<V: Copy>(&self, tree: &mut NodeTree<V>, parent: Node, targets: &[usize], markers: &[Marker], sequence: V) -> (r: Result<(), IndentError>)
        requires
            old(tree).wf(),
            old(tree).has(parent),
            targets_ok(old(tree).children_of(parent).len() as usize, targets@),
            markers@.len() == targets@.len(),
            old(tree).spec_len() + targets@.len() <= usize::MAX,
            spans_agree(spans_of(old(tree).spec_meta(), old(tree).children_of(parent))),
        ensures
            final(tree).wf(),
            ({
                let len = old(tree).spec_len();
                let t = targets@;
                let c = old(tree).children_of(parent);
                let om = old(tree).spec_meta();
                match indent_result(c, t, markers@, len) {
                    Err(e) => {
                        &&& r == Err::<(), IndentError>(e)
                        &&& *final(tree) == *old(tree)
                    },
                    Ok((top, made)) => {
                        &&& r == Ok::<(), IndentError>(())
                        &&& final(tree).spec_len() == len + made.len()
                        &&& final(tree).children_of(parent) == top
                        &&& forall|j: int|
                            0 <= j < made.len() ==> {
                                let x = #[trigger] final(tree).spec_meta()[len + j];
                                &&& final(tree).spec_children()[len + j] == made[j]
                                &&& final(tree).spec_values()[len + j] == sequence
                                &&& x.span == range_of(spans_of(final(tree).spec_meta(), made[j]))
                                &&& x.block
                                &&& x.status == 0
                            }
                        &&& forall|x: int| 0 <= x < len ==> #[trigger] final(tree).spec_values()[x] == old(tree).spec_values()[x]
                        &&& forall|m: int|
                            0 <= m < len && m != parent.spec_id() ==> #[trigger] final(tree).spec_children()[m]
                                == old(tree).spec_children()[m]
                        &&& forall|m: int|
                            0 <= m < len && om[m].parent != Some(parent.spec_id() as usize)
                                ==> #[trigger] final(tree).spec_meta()[m] == om[m]
                        &&& forall|j: int|
                            0 <= j < t.len() ==> #[trigger] final(tree).spec_meta()[c[t[j] as int] as int] == (NodeMeta {
                                parent: None,
                                status: marked(om[c[t[j] as int] as int].status, true),
                                ..om[c[t[j] as int] as int]
                            })
                        &&& forall|q: int|
                            0 <= q < c.len() && !t.contains(q as usize) ==> {
                                let x = #[trigger] final(tree).spec_meta()[c[q] as int];
                                &&& x.span == om[c[q] as int].span
                                &&& x.block == om[c[q] as int].block
                                &&& x.status == om[c[q] as int].status
                            }
                    },
                }
            }),
    {
        let ghost len = tree.spec_len();
        let ghost t = targets@;
        let ghost c = tree.children_of(parent);
        let ghost om = tree.spec_meta();
        let ghost oc = tree.spec_children();
        let ghost pid = parent.spec_id();
        let n = tree.len(parent);
        let k = targets.len();
        match indent_plan(n, targets, markers) {
            Err(e) => {
                proof {
                    lemma_indent_result_plan(c, t, markers@, len);
                }
                return Err(e);
            },
            Ok(_) => {},
        }
        let runs = runs_of(n, targets);
        let ghost rs = runs@;
        proof {
            lemma_indent_result_plan(c, t, markers@, len);
            lemma_runs_bounds(n, t);
            lemma_indent_build_state(c, rs, markers@, len, k as int);
        }
        let ghost fin = indent_build(c, rs, markers@, len, k as int)->Ok_0;
        let ghost sp = spans_of(om, c);
        let ghost src: Source = if exists|q: int| 0 <= q < c.len() && !(#[trigger] sp[q]).spec_is_empty() {
            sp[choose|q: int| 0 <= q < c.len() && !(#[trigger] sp[q]).spec_is_empty()].spec_src()
        } else {
            Source::empty_spec()
        };
        proof {
            assert forall|q: int| 0 <= q < c.len() implies fits(#[trigger] sp[q], src) by {
                if exists|w: int| 0 <= w < c.len() && !(#[trigger] sp[w]).spec_is_empty() {
                    let w = choose|w: int| 0 <= w < c.len() && !(#[trigger] sp[w]).spec_is_empty();
                    assert(sp[q].spec_mergeable(sp[w]));
                }
            }
        }
        mark_children(tree, parent, targets, true);
        let all = tree.remove_nodes(parent, RangeBound::Unbounded, RangeBound::Unbounded);
        let ghost t1 = *tree;
        proof {
            assert(all@ =~= c);
            assert forall|q: int| 0 <= q < n implies (#[trigger] t1.spec_meta()[c[q] as int]).parent is None by {
                assert(om[c[q] as int].parent == Some(pid as usize));
                assert(om[c[q] as int].index == q);
            }
            let ids = at_positions(c, t);
            assert forall|q: int| 0 <= q < n implies (#[trigger] t1.spec_meta()[c[q] as int]).status == (if t.contains(q as usize) {
                marked(om[c[q] as int].status, true)
            } else {
                om[c[q] as int].status
            }) by {
                lemma_at_positions(om, oc, pid, t, q);
            }
            assert forall|x: int| 0 <= x < len && om[x].parent != Some(pid as usize) implies #[trigger] t1.spec_meta()[x] == om[x] by {
                if ids.contains(x as usize) {
                    let w = choose|w: int| 0 <= w < ids.len() && ids[w] == x as usize;
                    assert(t[w] < n);
                    assert(oc[pid][t[w] as int] == x);
                }
            }
            assert forall|j: int| 0 <= j < t.len() implies #[trigger] t1.spec_meta()[c[t[j] as int] as int] == (NodeMeta {
                parent: None,
                status: marked(om[c[t[j] as int] as int].status, true),
                ..om[c[t[j] as int] as int]
            }) by {
                assert(t[j] < n);
                lemma_at_positions(om, oc, pid, t, t[j] as int);
                assert(t.contains(t[j]));
                assert(om[c[t[j] as int] as int].parent == Some(pid as usize));
                assert(om[c[t[j] as int] as int].index == t[j]);
            }
        }
        let mut stack: Vec<Vec<usize>> = Vec::new();
        stack.push(Vec::new());
        proof {
            assert(id_lists(stack@) =~= seq![Seq::<usize>::empty()]);
            seq![Seq::<usize>::empty()].lemma_flatten_one_element();
        }
        let mut i: usize = 0;
        while i < k
            invariant
                0 <= i <= k,
                k == t.len(),
                n == c.len(),
                all@ == c,
                rs == runs@,
                indent_fixed(c, t, markers@, rs, om, oc, pid, len, t1, src, sp, fin),
                indent_progress(*tree, id_lists(stack@), i as int, c, t, markers@, rs, om, pid, len, t1, src, sequence),
            decreases k - i,
        {
            indent_step(
                tree,
                &mut stack,
                all.as_slice(),
                runs.as_slice(),
                markers,
                sequence,
                i,
                Ghost(c),
                Ghost(t),
                Ghost(om),
                Ghost(oc),
                Ghost(pid),
                Ghost(len),
                Ghost(t1),
                Ghost(src),
                Ghost(sp),
                Ghost(fin),
            );
            i = i + 1;
        }
        let (s0, e0) = runs[k];
        let ghost ta = *tree;
        proof {
            assert(rs[k as int] == (s0, e0));
            if k > 0 {
                assert(rs[k as int].0 == t[k - 1] + 1);
            }
            assert(fin.0 =~= id_lists(stack@));
        }
        let mut top = stack.pop().unwrap();
        proof {
            assert(id_lists(stack@).len() == 0);
            assert(fin.0 == seq![top@]);
            seq![top@].lemma_flatten_one_element();
        }
        let ghost top0 = top@;
        extend_ids(&mut top, all.as_slice(), s0, e0);
        proof {
            let added = c.subrange(s0 as int, e0 as int);
            assert forall|a: int, b: int| 0 <= a < top0.len() && 0 <= b < added.len() implies #[trigger] top0[a] != #[trigger] added[b] by {
                assert(added[b] == c[s0 + b]);
                if top0[a] == added[b] {
                    assert(om[top0[a] as int].parent == Some(pid as usize) && om[top0[a] as int].index < s0);
                    assert(om[c[s0 + b] as int].index == s0 + b);
                }
            }
            assert(distinct_ids(added)) by {
                assert forall|a: int, b: int| 0 <= a < b < added.len() implies #[trigger] added[a] != #[trigger] added[b] by {
                    assert(added[a] == c[s0 + a] && added[b] == c[s0 + b]);
                    if c[s0 + a] == c[s0 + b] {
                        lemma_child_unique(om, oc, pid, s0 + a, pid, s0 + b);
                    }
                }
            }
            lemma_distinct_join(top0, added);
            assert(top@ =~= top0 + added);
            assert forall|a: int| 0 <= a < top@.len() implies #[trigger] top@[a] < tree.spec_len() && (tree.spec_meta()[top@[a] as int].parent
                is None || tree.spec_meta()[top@[a] as int].parent == Some(pid as usize)) by {
                if a >= top0.len() {
                    let q = s0 + (a - top0.len());
                    assert(top@[a] == c[q]);
                    assert(tree.spec_meta()[c[q] as int] == t1.spec_meta()[c[q] as int]);
                }
            }
        }
        tree.set_nodes(parent, top.as_slice());
        proof {
            let tf = *tree;
            let fmade = fin.1;
            assert(indent_result(c, t, markers@, len) == Ok::<(Seq<usize>, Seq<Seq<usize>>), IndentError>((top@, fmade)));
            assert forall|y: int| 0 <= y < ta.spec_len() && !top@.contains(y as usize) implies #[trigger] tf.spec_meta()[y] == ta.spec_meta()[y] by {
                if ta.spec_meta()[y].parent == Some(pid as usize) {
                    assert(ta.spec_children()[pid] == t1.spec_children()[pid]);
                }
            }
            assert forall|y: int| 0 <= y < ta.spec_len() implies (#[trigger] tf.spec_meta()[y]).span == ta.spec_meta()[y].span
                && tf.spec_meta()[y].block == ta.spec_meta()[y].block && tf.spec_meta()[y].status == ta.spec_meta()[y].status by {
                if top@.contains(y as usize) {
                    let w = choose|w: int| 0 <= w < top@.len() && top@[w] == y as usize;
                    assert(tf.spec_meta()[top@[w] as int] == NodeMeta { parent: Some(pid as usize), index: w as usize, ..ta.spec_meta()[top@[w] as int] });
                }
            }
            assert forall|j: int| 0 <= j < fmade.len() implies {
                let x = #[trigger] tf.spec_meta()[len + j];
                &&& tf.spec_children()[len + j] == fmade[j]
                &&& tf.spec_values()[len + j] == sequence
                &&& x.span == range_of(spans_of(tf.spec_meta(), fmade[j]))
                &&& x.block
                &&& x.status == 0
            } by {
                assert(spans_of(tf.spec_meta(), fmade[j]) =~= spans_of(ta.spec_meta(), fmade[j])) by {
                    assert forall|w: int| 0 <= w < fmade[j].len() implies tf.spec_meta()[fmade[j][w] as int].span == ta.spec_meta()[fmade[j][w] as int].span by {
                        assert(ta.spec_children()[len + j] == fmade[j]);
                        assert(ta.spec_children()[len + j][w] < ta.spec_len());
                    }
                }
            }
            assert forall|j: int| 0 <= j < t.len() implies #[trigger] tf.spec_meta()[c[t[j] as int] as int] == (NodeMeta {
                parent: None,
                status: marked(om[c[t[j] as int] as int].status, true),
                ..om[c[t[j] as int] as int]
            }) by {
                assert(t[j] < n);
                assert(t.contains(t[j]));
                assert(ta.spec_meta()[c[t[j] as int] as int] == t1.spec_meta()[c[t[j] as int] as int]);
                if top@.contains(c[t[j] as int]) {
                    let w = choose|w: int| 0 <= w < top@.len() && top@[w] == c[t[j] as int];
                    if w < top0.len() {
                        assert(om[top0[w] as int].index == t[j]) by {
                            assert(om[c[t[j] as int] as int].index == t[j]);
                        }
                    } else {
                        let q = s0 + (w - top0.len());
                        assert(top@[w] == c[q]);
                        lemma_child_unique(om, oc, pid, q, pid, t[j] as int);
                        if j < k - 1 {
                            assert(t[j] < t[k - 1]);
                        }
                    }
                }
            }
            assert forall|q: int| 0 <= q < n && !t.contains(q as usize) implies {
                let x = #[trigger] tf.spec_meta()[c[q] as int];
                &&& x.span == om[c[q] as int].span
                &&& x.block == om[c[q] as int].block
                &&& x.status == om[c[q] as int].status
            } by {
                assert(c[q] < len);
                assert(t1.spec_meta()[c[q] as int].status == om[c[q] as int].status);
            }
            assert forall|mm: int| 0 <= mm < len && om[mm].parent != Some(pid as usize) implies #[trigger] tf.spec_meta()[mm] == om[mm] by {
                if top@.contains(mm as usize) {
                    let w = choose|w: int| 0 <= w < top@.len() && top@[w] == mm as usize;
                    if w >= top0.len() {
                        let q = s0 + (w - top0.len());
                        assert(top@[w] == c[q]);
                    }
                }
            }
        }
        Ok(())
    }
}

} // verus!

verus! {

/// Ids of `k` nodes made in a row, the first with id `first`.
pub open spec fn made_ids(first: nat, k: nat) -> Seq<usize> {
    Seq::new(k, |j: int| (first + j) as usize)
}

/// Values of the nodes made for `tokens`.
pub open spec fn token_values<V>(tokens: Seq<(V, Span)>) -> Seq<V> {
    tokens.map_values(|t: (V, Span)| t.0)
}

/// Turns a source node into a module holding a node for each of its
/// tokens.
pub struct TokenizeSource;

impl TokenizeSource {
    /// `node` takes the value `module` and is done; a new node, not a block
    /// and with no status, is made for each of `tokens` with its value and
    /// span, in order, and they become the last children of `node`.
    pub fn eval_node<V: Copy>(&self, tree: &mut NodeTree<V>, node: Node, tokens: &[(V, Span)], module: V)
        requires
            old(tree).wf(),
            old(tree).has(node),
            old(tree).spec_len() + tokens@.len() <= usize::MAX,
            old(tree).children_of(node).len() + tokens@.len() <= usize::MAX,
        ensures
            ({
                let a = *old(tree);
                let b = *final(tree);
                let len = a.spec_len();
                let n = a.children_of(node).len();
                let ids = made_ids(len, tokens@.len());
                &&& b.wf()
                &&& b.spec_len() == len + tokens@.len()
                &&& b.spec_values() == a.spec_values().update(node.spec_id(), module) + token_values(tokens@)
                &&& b.spec_children() == a.spec_children().update(node.spec_id(), a.children_of(node) + ids)
                    + Seq::new(tokens@.len(), |j: int| Seq::<usize>::empty())
                &&& b.spec_meta()[node.spec_id()] == (NodeMeta { status: FLAG_DONE, ..a.meta_of(node) })
                &&& forall|k: int| 0 <= k < tokens@.len() ==> #[trigger] b.spec_meta()[len + k] == (NodeMeta {
                    span: tokens@[k].1,
                    block: false,
                    parent: Some(node.spec_id() as usize),
                    index: (n + k) as usize,
                    status: 0,
                })
                &&& forall|m: int| 0 <= m < len && m != node.spec_id() ==> #[trigger] b.spec_meta()[m] == a.spec_meta()[m]
            }),
    {
        let ghost t0 = *tree;
        let ghost len = t0.spec_len();
        let mut ids: Vec<usize> = Vec::new();
        let mut i: usize = 0;
        while i < tokens.len()
            invariant
                0 <= i <= tokens@.len(),
                len == t0.spec_len(),
                len + tokens@.len() <= usize::MAX,
                tree.wf(),
                tree.spec_len() == len + i,
                ids@ == made_ids(len, i as nat),
                tree.spec_values() == t0.spec_values() + token_values(tokens@.take(i as int)),
                tree.spec_children() == t0.spec_children() + Seq::new(i as nat, |j: int| Seq::<usize>::empty()),
                forall|k: int| 0 <= k < i ==> #[trigger] tree.spec_meta()[len + k] == (NodeMeta {
                    span: tokens@[k].1,
                    block: false,
                    parent: None,
                    index: 0,
                    status: 0,
                }),
                forall|m: int| 0 <= m < len ==> #[trigger] tree.spec_meta()[m] == t0.spec_meta()[m],
            decreases tokens@.len() - i,
        {
            let (v, sp) = tokens[i];
            let ghost before = *tree;
            let nd = tree.new_node(v, sp, false);
            ids.push(nd.id());
            proof {
                assert(ids@ =~= made_ids(len, (i + 1) as nat));
                assert(token_values(tokens@.take(i + 1)) =~= token_values(tokens@.take(i as int)).push(v));
                assert(tree.spec_values() =~= t0.spec_values() + token_values(tokens@.take(i + 1)));
                assert(tree.spec_children() =~= t0.spec_children() + Seq::new((i + 1) as nat, |j: int| Seq::<usize>::empty()));
                assert forall|k: int| 0 <= k < i + 1 implies #[trigger] tree.spec_meta()[len + k] == (NodeMeta {
                    span: tokens@[k].1,
                    block: false,
                    parent: None,
                    index: 0,
                    status: 0,
                }) by {
                    if k < i {
                        assert(tree.spec_meta()[len + k] == before.spec_meta()[len + k]);
                    }
                }
                assert forall|m: int| 0 <= m < len implies #[trigger] tree.spec_meta()[m] == t0.spec_meta()[m] by {
                    assert(tree.spec_meta()[m] == before.spec_meta()[m]);
                }
            }
            i = i + 1;
        }
        let ghost t1 = *tree;
        proof {
            lemma_node_is_of_id(node);
            assert(tokens@.take(tokens@.len() as int) =~= tokens@);
        }
        tree.set_value(node, module);
        tree.flag_done(node);
        proof {
            assert((0u8 | 1u8) == 1u8) by (bit_vector);
            assert forall|a: int| 0 <= a < ids@.len() implies (#[trigger] tree.spec_meta()[ids@[a] as int]).parent is None by {
                assert(ids@[a] == len + a);
            }
            assert forall|a: int, b: int| 0 <= a < b < ids@.len() implies #[trigger] ids@[a] != #[trigger] ids@[b] by {}
            assert(tree.children_of(node) == t0.children_of(node));
        }
        let ghost t2 = *tree;
        tree.append_nodes(node, ids.as_slice());
        proof {
            let a = t0;
            let b = *tree;
            let n = a.children_of(node).len();
            assert(b.spec_values() =~= a.spec_values().update(node.spec_id(), module) + token_values(tokens@));
            assert(b.spec_children() =~= a.spec_children().update(node.spec_id(), a.children_of(node) + ids@)
                + Seq::new(tokens@.len(), |j: int| Seq::<usize>::empty()));
            assert(!ids@.contains(node.spec_id() as usize)) by {
                if ids@.contains(node.spec_id() as usize) {
                    let w = choose|w: int| 0 <= w < ids@.len() && ids@[w] == node.spec_id() as usize;
                }
            }
            assert forall|k: int| 0 <= k < tokens@.len() implies #[trigger] b.spec_meta()[len + k] == (NodeMeta {
                span: tokens@[k].1,
                block: false,
                parent: Some(node.spec_id() as usize),
                index: (n + k) as usize,
                status: 0,
            }) by {
                assert(ids@[k] == len + k);
                assert(t2.spec_meta()[len + k] == t1.spec_meta()[len + k]);
            }
            assert forall|m: int| 0 <= m < len && m != node.spec_id() implies #[trigger] b.spec_meta()[m] == a.spec_meta()[m] by {
                assert(!ids@.contains(m as usize)) by {
                    if ids@.contains(m as usize) {
                        let w = choose|w: int| 0 <= w < ids@.len() && ids@[w] == m as usize;
                    }
                }
                assert(t2.spec_meta()[m] == t1.spec_meta()[m]);
            }
        }
    }
}

/// Gives each node of `targets` the value `value`, its status cleared, or
/// set to silent and done when `mark` holds.
fn set_values<V: Copy>(tree: &mut NodeTree<V>, targets: &[usize], value: V, mark: bool)
    requires
        old(tree).wf(),
        forall|k: int| 0 <= k < targets@.len() ==> #[trigger] targets@[k] < old(tree).spec_len(),
    ensures
        final(tree).wf(),
        final(tree).spec_len() == old(tree).spec_len(),
        final(tree).spec_children() == old(tree).spec_children(),
        final(tree).spec_values() == Seq::new(
            old(tree).spec_len(),
            |m: int| if targets@.contains(m as usize) { value } else { old(tree).spec_values()[m] },
        ),
        final(tree).spec_meta() == Seq::new(
            old(tree).spec_len(),
            |m: int| if targets@.contains(m as usize) {
                NodeMeta { status: if mark { FLAG_SILENT | FLAG_DONE } else { 0 }, ..old(tree).spec_meta()[m] }
            } else {
                old(tree).spec_meta()[m]
            },
        ),
{
    let ghost t0 = *tree;
    let mut i: usize = 0;
    while i < targets.len()
        invariant
            0 <= i <= targets@.len(),
            forall|k: int| 0 <= k < targets@.len() ==> #[trigger] targets@[k] < t0.spec_len(),
            tree.wf(),
            tree.spec_len() == t0.spec_len(),
            tree.spec_children() == t0.spec_children(),
            tree.spec_values() == Seq::new(
                t0.spec_len(),
                |m: int| if targets@.take(i as int).contains(m as usize) { value } else { t0.spec_values()[m] },
            ),
            tree.spec_meta() == Seq::new(
                t0.spec_len(),
                |m: int| if targets@.take(i as int).contains(m as usize) {
                    NodeMeta { status: if mark { FLAG_SILENT | FLAG_DONE } else { 0 }, ..t0.spec_meta()[m] }
                } else {
                    t0.spec_meta()[m]
                },
            ),
        decreases targets@.len() - i,
    {
        let n = tree.get(targets[i]);
        let ghost before = *tree;
        tree.set_value(n, value);
        if mark {
            tree.ignore(n);
        }
        proof {
            assert((0u8 | (FLAG_SILENT | FLAG_DONE)) == (FLAG_SILENT | FLAG_DONE)) by (bit_vector);
            let pre = targets@.take(i as int);
            let post = targets@.take(i + 1);
            assert(post =~= pre.push(targets@[i as int]));
            assert forall|m: int| 0 <= m < t0.spec_len() implies #[trigger] post.contains(m as usize) == (pre.contains(m as usize)
                || m == targets@[i as int]) by {
                if post.contains(m as usize) && m != targets@[i as int] {
                    let w = choose|w: int| 0 <= w < post.len() && post[w] == m as usize;
                    assert(pre[w] == m as usize);
                }
                if pre.contains(m as usize) {
                    let w = choose|w: int| 0 <= w < pre.len() && pre[w] == m as usize;
                    assert(post[w] == m as usize);
                }
                if m == targets@[i as int] {
                    assert(post[i as int] == m as usize);
                }
            }
            assert(tree.spec_values() =~= Seq::new(
                t0.spec_len(),
                |m: int| if post.contains(m as usize) { value } else { t0.spec_values()[m] },
            ));
            assert(tree.spec_meta() =~= Seq::new(
                t0.spec_len(),
                |m: int| if post.contains(m as usize) {
                    NodeMeta { status: if mark { FLAG_SILENT | FLAG_DONE } else { 0 }, ..t0.spec_meta()[m] }
                } else {
                    t0.spec_meta()[m]
                },
            ));
        }
        i = i + 1;
    }
    assert(targets@.take(targets@.len() as int) =~= targets@);
}

/// Gives the nodes of a boolean word their boolean value.
pub struct EvalBool(pub bool);

impl EvalBool {
    /// Each node of `targets` takes the value `value`, the node value of
    /// this boolean; its status is cleared.
    pub fn eval_nodes<V: Copy>(&self, tree: &mut NodeTree<V>, targets: &[usize], value: V)
        requires
            old(tree).wf(),
            forall|k: int| 0 <= k < targets@.len() ==> #[trigger] targets@[k] < old(tree).spec_len(),
        ensures
            final(tree).wf(),
            final(tree).spec_len() == old(tree).spec_len(),
            final(tree).spec_children() == old(tree).spec_children(),
            final(tree).spec_values() == Seq::new(
                old(tree).spec_len(),
                |m: int| if targets@.contains(m as usize) { value } else { old(tree).spec_values()[m] },
            ),
            final(tree).spec_meta() == Seq::new(
                old(tree).spec_len(),
                |m: int| if targets@.contains(m as usize) {
                    NodeMeta { status: 0, ..old(tree).spec_meta()[m] }
                } else {
                    old(tree).spec_meta()[m]
                },
            ),
    {
        set_values(tree, targets, value, false)
    }
}

/// Gives the nodes that name a variable the variable as their value.
pub struct EvalVar(pub crate::vars::Var);

impl EvalVar {
    /// Each node of `targets` takes the value `value`, the node value of
    /// this variable, and becomes silent and done.
    pub fn eval_nodes<V: Copy>(&self, tree: &mut NodeTree<V>, targets: &[usize], value: V)
        requires
            old(tree).wf(),
            forall|k: int| 0 <= k < targets@.len() ==> #[trigger] targets@[k] < old(tree).spec_len(),
        ensures
            final(tree).wf(),
            final(tree).spec_len() == old(tree).spec_len(),
            final(tree).spec_children() == old(tree).spec_children(),
            final(tree).spec_values() == Seq::new(
                old(tree).spec_len(),
                |m: int| if targets@.contains(m as usize) { value } else { old(tree).spec_values()[m] },
            ),
            final(tree).spec_meta() == Seq::new(
                old(tree).spec_len(),
                |m: int| if targets@.contains(m as usize) {
                    NodeMeta { status: FLAG_SILENT | FLAG_DONE, ..old(tree).spec_meta()[m] }
                } else {
                    old(tree).spec_meta()[m]
                },
            ),
    {
        set_values(tree, targets, value, true)
    }
}

/// Children lists after the node `x` leaves its parent.
pub open spec fn children_without(c: Seq<Seq<usize>>, meta: Seq<NodeMeta>, x: int) -> Seq<Seq<usize>> {
    match meta[x].parent {
        Some(p) => c.update(p as int, removed_children(c[p as int], meta[x].index, (meta[x].index + 1) as usize)),
        None => c,
    }
}

/// Data of the node `m`, other than `x`, after `x` leaves its parent: the
/// later siblings of `x` move back by one.
pub open spec fn meta_without(meta: Seq<NodeMeta>, x: int, m: int) -> NodeMeta {
    match meta[x].parent {
        Some(p) => removed_meta(meta[m], p, meta[x].index, (meta[x].index + 1) as usize),
        None => meta[m],
    }
}

/// Turns a node ending with a block delimiter into a statement head and
/// its indented block.
pub struct EvalIndentedBlock;

impl EvalIndentedBlock {
    /// Apply the rule to `node`, whose last child is the delimiter; `next` is
    /// the node found after the delimiter, and `next_is_block` tells whether
    /// it is an indented block. The delimiter becomes silent and done. With
    /// no node after it, the error is reported with the delimiter's span;
    /// with a node that is not an indented block, with that node's span; the
    /// tree is then as it was, but for the delimiter. Otherwise the children
    /// of `node` but the delimiter move into a new group of value `group`,
    /// done, and the block leaves its parent; `node` takes the group and the
    /// block, now done, as its only children. The delimiter is left without
    /// parent.
    #[verifier::rlimit(80)]
    #[verifier::spinoff_prover]
    pub fn eval_node<V>(&self, tree: &mut NodeTree<V>, node: Node, next: Option<Node>, next_is_block: bool, group: V) -> (r: Result<(), Span>)
        requires
            old(tree).wf(),
            old(tree).has(node),
            old(tree).children_of(node).len() >= 1,
            !old(tree).children_of(node).contains(node.spec_id() as usize),
            old(tree).spec_len() < usize::MAX,
            next matches Some(x) ==> old(tree).has(x) && x != node && !old(tree).children_of(node).contains(
                x.spec_id() as usize,
            ),
            ({
                let c = old(tree).children_of(node);
                let e = c.take(c.len() - 1);
                e.len() >= 2 ==> old(tree).spec_meta()[e[0] as int].span.spec_mergeable(
                    old(tree).spec_meta()[e.last() as int].span,
                )
            }),
        ensures
            ({
                let a = *old(tree);
                let b = *final(tree);
                let len = a.spec_len();
                let c = a.children_of(node);
                let k = c.len();
                let sep = c[k - 1] as int;
                let e = c.take(k - 1);
                let sep_meta = NodeMeta { status: a.spec_meta()[sep].status | (FLAG_SILENT | FLAG_DONE), ..a.spec_meta()[sep] };
                match next {
                    None => r == Err::<(), Span>(a.spec_meta()[sep].span) && b.wf() && b.spec_len() == len
                        && b.spec_values() == a.spec_values() && b.spec_children() == a.spec_children()
                        && b.spec_meta() == a.spec_meta().update(sep, sep_meta),
                    Some(x) => if !next_is_block {
                        r == Err::<(), Span>(a.meta_of(x).span) && b.wf() && b.spec_len() == len
                            && b.spec_values() == a.spec_values() && b.spec_children() == a.spec_children()
                            && b.spec_meta() == a.spec_meta().update(sep, sep_meta)
                    } else {
                        let xi = x.spec_id();
                        &&& r == Ok::<(), Span>(())
                        &&& b.wf()
                        &&& b.spec_len() == len + 1
                        &&& b.spec_values() == a.spec_values().push(group)
                        &&& b.spec_children() == children_without(
                            a.spec_children().update(node.spec_id(), Seq::empty()),
                            a.spec_meta(),
                            xi,
                        ).update(node.spec_id(), seq![len as usize, xi as usize]).push(e)
                        &&& b.spec_meta()[len as int] == (NodeMeta {
                            span: range_of(spans_of(a.spec_meta(), e)),
                            block: true,
                            parent: Some(node.spec_id() as usize),
                            index: 0,
                            status: FLAG_DONE,
                        })
                        &&& b.spec_meta()[xi] == (NodeMeta {
                            parent: Some(node.spec_id() as usize),
                            index: 1,
                            status: a.meta_of(x).status | FLAG_DONE,
                            ..a.meta_of(x)
                        })
                        &&& b.spec_meta()[sep] == (NodeMeta { parent: None, ..sep_meta })
                        &&& forall|j: int| 0 <= j < e.len() ==> #[trigger] b.spec_meta()[e[j] as int] == (NodeMeta {
                            parent: Some(len as usize),
                            index: j as usize,
                            ..a.spec_meta()[e[j] as int]
                        })
                        &&& forall|m: int|
                            0 <= m < len && !c.contains(m as usize) && m != xi
                                ==> #[trigger] b.spec_meta()[m] == meta_without(a.spec_meta(), xi, m)
                    },
                }
            }),
    {
        let ghost a = *tree;
        let k = tree.len(node);
        let sep_id = tree.nodes(node)[k - 1];
        proof {
            assert(a.children_of(node)[k - 1] < a.spec_len());
        }
        let sep = tree.get(sep_id);
        tree.ignore(sep);
        let x = match next {
            None => {
                return Err(tree.span(sep));
            },
            Some(x) => x,
        };
        if !next_is_block {
            return Err(tree.span(x));
        }
        let ghost t1 = *tree;
        let children = tree.remove_nodes(node, RangeBound::Unbounded, RangeBound::Unbounded);
        let ghost t2 = *tree;
        let expr = copy_range(children.as_slice(), 0, k - 1);
        proof {
            lemma_node_is_of_id(node);
            lemma_node_is_of_id(x);
            lemma_node_is_of_id(sep);
        }
        tree.remove(x);
        let ghost t3 = *tree;
        let head = attach_block(tree, node, expr.as_slice(), x, group);
        let ghost t4 = *tree;
        tree.flag_done(head);
        tree.flag_done(x);
        proof {
            let b = *tree;
            let len = a.spec_len();
            let c = a.children_of(node);
            let e = c.take(k - 1);
            let xi = x.spec_id();
            let si = sep.spec_id();
            let am = a.spec_meta();
            assert(expr@ =~= e);
            assert(si == c[k - 1]);
            assert((0u8 | FLAG_DONE) == FLAG_DONE) by (bit_vector);
            // a node whose parent is `node` is one of its children
            assert forall|m: int| 0 <= m < len && #[trigger] am[m].parent == Some(node.spec_id() as usize) implies c.contains(
                m as usize,
            ) by {
                assert(c[am[m].index as int] == m);
            }
            assert(am[xi].parent != Some(node.spec_id() as usize));
            assert(t1.spec_meta()[xi] == am[xi]);
            assert(t2.spec_meta()[xi] == am[xi]);
            assert(removed_children(c, 0, k as usize) =~= Seq::<usize>::empty());
            assert(t3.children_of(node) =~= Seq::<usize>::empty()) by {
                if let Some(p) = am[xi].parent {
                    assert(p != node.spec_id());
                }
            }
            assert(b.spec_children() =~= children_without(
                a.spec_children().update(node.spec_id(), Seq::empty()),
                am,
                xi,
            ).update(node.spec_id(), seq![len as usize, xi as usize]).push(e)) by {
                if let Some(p) = am[xi].parent {
                    assert(p != node.spec_id());
                    assert(t2.spec_children()[p as int] == a.spec_children()[p as int]);
                }
                assert(seq![head.spec_id() as usize, xi as usize] =~= seq![len as usize, xi as usize]);
                assert(Seq::<usize>::empty() + seq![len as usize, xi as usize] =~= seq![len as usize, xi as usize]);
            }
            // spans of the group's nodes are those of the start
            assert(spans_of(t3.spec_meta(), e) =~= spans_of(am, e)) by {
                assert forall|j: int| 0 <= j < e.len() implies t3.spec_meta()[e[j] as int].span == am[e[j] as int].span by {
                    assert(c[j] == e[j]);
                    assert(e[j] != si);
                }
            }
            if e.len() == 0 {
                lemma_empty_span(t4.spec_meta()[len as int].span);
            }
            assert forall|j: int| 0 <= j < e.len() implies #[trigger] b.spec_meta()[e[j] as int] == (NodeMeta {
                parent: Some(len as usize),
                index: j as usize,
                ..am[e[j] as int]
            }) by {
                assert(c[j] == e[j]);
                if e[j] == si {
                    lemma_child_unique(am, a.spec_children(), node.spec_id(), j, node.spec_id(), k - 1);
                }
                assert(e[j] != xi);
                assert(am[e[j] as int].index == j);
                assert(t3.spec_meta()[e[j] as int] == (NodeMeta { parent: None, ..am[e[j] as int] }));
            }
            assert(!e.contains(si as usize)) by {
                if e.contains(si as usize) {
                    let w = choose|w: int| 0 <= w < e.len() && e[w] == si as usize;
                    lemma_child_unique(am, a.spec_children(), node.spec_id(), w, node.spec_id(), k - 1);
                }
            }
            assert(b.spec_meta()[si] == (NodeMeta {
                parent: None,
                status: am[si].status | (FLAG_SILENT | FLAG_DONE),
                ..am[si]
            })) by {
                assert(si != xi);
                assert(am[si].parent == Some(node.spec_id() as usize));
                assert(am[si].index == k - 1);
            }
            assert forall|m: int| 0 <= m < len && !c.contains(m as usize) && m != xi implies #[trigger] b.spec_meta()[m]
                == meta_without(am, xi, m) by {
                assert(am[m].parent != Some(node.spec_id() as usize));
                assert(m != si);
                assert(!e.contains(m as usize)) by {
                    if e.contains(m as usize) {
                        let w = choose|w: int| 0 <= w < e.len() && e[w] == m as usize;
                        assert(c[w] == m);
                    }
                }
                assert(t2.spec_meta()[m] == am[m]);
            }
        }
        Ok(())
    }
}


/// Data of a node after the children `i` and `i + 1` of `root` leave it,
/// and then, when `outer` names a parent and a position, after the child at
/// that position leaves that parent.
pub open spec fn else_moved(m: NodeMeta, root: usize, i: usize, outer: Option<(usize, usize)>) -> NodeMeta {
    let m1 = removed_meta(m, root, i, (i + 2) as usize);
    match outer {
        Some((p, j)) => removed_meta(m1, p, j, (j + 1) as usize),
        None => m1,
    }
}

/// Status of a node made silent and done.
pub open spec fn ignored(s: u8) -> u8 {
    s | (FLAG_SILENT | FLAG_DONE)
}

/// The tree `b` is `a` after the `else` statement `node` was attached to
/// the `if` statement `f`, as [`EvalElse::eval_node`] describes.
pub open spec fn else_attached<V>(a: NodeTree<V>, b: NodeTree<V>, node: Node, f: Node, group: V) -> bool {
    let am = a.spec_meta();
    let len = a.spec_len();
    let c = a.children_of(node);
    let hd = c[0] as int;
    let e = c.skip(1);
    let rt = a.meta_of(node).parent->0 as int;
    let i = a.meta_of(node).index;
    let cr = a.spec_children()[rt];
    let nx = next_spec(am, a.spec_children(), node.spec_id());
        let blk = nx->0.spec_id();
        let drop_root = cr.len() == 2 && am[rt].block;
        let outer = if drop_root && am[rt].parent is Some {
            Some((am[rt].parent->0, am[rt].index))
        } else {
            None
        };
        let c4 = a.spec_children().update(node.spec_id(), Seq::empty()).update(
            rt,
            removed_children(cr, i, (i + 2) as usize),
        );
        let c5 = match outer {
            Some((p, j)) => c4.update(p as int, removed_children(c4[p as int], j, (j + 1) as usize)),
            None => c4,
        };
        let c6 = if e.len() > 0 { c5.push(e).push(seq![len as usize, blk as usize]) } else { c5 };
        let last = if e.len() > 0 { (len + 1) as usize } else { blk as usize };
        let fi = f.spec_id();
        &&& b.wf()
        &&& b.spec_len() == (if e.len() > 0 { len + 2 } else { len })
        &&& b.spec_values() == (if e.len() > 0 {
            a.spec_values().push(group).push(group)
        } else {
            a.spec_values()
        })
        &&& b.spec_children() == c6.update(fi, a.spec_children()[fi].push(last))
        &&& b.spec_meta()[hd] == (NodeMeta { parent: None, status: ignored(am[hd].status), ..am[hd] })
        &&& b.spec_meta()[node.spec_id()] == (NodeMeta {
            parent: None,
            status: ignored(am[node.spec_id()].status),
            ..am[node.spec_id()]
        })
        &&& b.spec_meta()[blk] == (if e.len() > 0 {
            NodeMeta { parent: Some((len + 1) as usize), index: 1, ..am[blk] }
        } else {
            NodeMeta { parent: Some(fi as usize), index: 2, ..am[blk] }
        })
        &&& b.spec_meta()[rt] == (if drop_root {
            NodeMeta {
                parent: None,
                index: if am[rt].parent is Some { 0 } else { am[rt].index },
                status: ignored(am[rt].status),
                ..am[rt]
            }
        } else {
            am[rt]
        })
        &&& e.len() > 0 ==> {
            &&& forall|j: int| 0 <= j < e.len() ==> #[trigger] b.spec_meta()[e[j] as int] == (NodeMeta {
                parent: Some(len as usize),
                index: j as usize,
                ..am[e[j] as int]
            })
            &&& b.spec_meta()[len as int] == (NodeMeta {
                span: range_of(spans_of(am, e)),
                block: true,
                parent: Some((len + 1) as usize),
                index: 0,
                status: 0,
            })
            &&& b.spec_meta()[len + 1int] == (NodeMeta {
                span: Span::spec_merge(range_of(spans_of(am, e)), am[blk].span),
                block: true,
                parent: Some(fi as usize),
                index: 2,
                status: 0,
            })
        }
        &&& e.len() == 0 ==> forall|j: int| 0 <= j < e.len() ==> #[trigger] b.spec_meta()[e[j] as int] == am[e[j] as int]
        &&& forall|m: int|
            0 <= m < len && !c.contains(m as usize) && m != node.spec_id() && m != rt && m != blk
                ==> #[trigger] b.spec_meta()[m] == else_moved(am[m], rt as usize, i, outer)
}

/// The tree `t` is `a` after the `else` statement `node` left: its first
/// child, the word, and `node` are silent and done; `node` has no children
/// and, with the block after it, leaves its parent, which leaves its own
/// parent, silent and done, when it is a block left empty.
pub open spec fn else_detached<V>(a: NodeTree<V>, t: NodeTree<V>, node: Node) -> bool {
    let am = a.spec_meta();
    let len = a.spec_len();
    let c = a.children_of(node);
    let hd = c[0] as int;
    let e = c.skip(1);
    let ni = node.spec_id();
    let rt = am[ni].parent->0 as int;
    let i = am[ni].index;
    let cr = a.spec_children()[rt];
    let blk = cr[i + 1] as int;
    let drop_root = cr.len() == 2 && am[rt].block;
    let outer = if drop_root && am[rt].parent is Some {
        Some((am[rt].parent->0, am[rt].index))
    } else {
        None
    };
    let c4 = a.spec_children().update(ni, Seq::empty()).update(rt, removed_children(cr, i, (i + 2) as usize));
    let c5 = match outer {
        Some((p, j)) => c4.update(p as int, removed_children(c4[p as int], j, (j + 1) as usize)),
        None => c4,
    };
    &&& t.wf()
    &&& t.spec_len() == len
    &&& t.spec_values() == a.spec_values()
    &&& t.spec_children() == c5
    &&& t.spec_meta()[hd] == (NodeMeta { parent: None, status: ignored(am[hd].status), ..am[hd] })
    &&& forall|j: int| 0 <= j < e.len() ==> #[trigger] t.spec_meta()[e[j] as int] == (NodeMeta { parent: None, ..am[e[j] as int] })
    &&& t.spec_meta()[ni] == (NodeMeta { parent: None, status: ignored(am[ni].status), ..am[ni] })
    &&& t.spec_meta()[blk] == (NodeMeta { parent: None, ..am[blk] })
    &&& t.spec_meta()[rt] == (if drop_root {
        NodeMeta {
            parent: None,
            index: if am[rt].parent is Some { 0 } else { am[rt].index },
            status: ignored(am[rt].status),
            ..am[rt]
        }
    } else {
        am[rt]
    })
    &&& forall|m: int|
        0 <= m < len && !c.contains(m as usize) && m != ni && m != rt && m != blk ==> #[trigger] t.spec_meta()[m]
            == else_moved(am[m], rt as usize, i, outer)
}

/// Facts about an `else` statement `node` that stands before a block.
pub open spec fn else_in_place<V>(a: NodeTree<V>, node: Node) -> bool {
    let am = a.spec_meta();
    let c = a.children_of(node);
    let ni = node.spec_id();
    &&& a.wf()
    &&& a.has(node)
    &&& c.len() >= 1
    &&& !c.contains(ni as usize)
    &&& am[ni].parent is Some
    &&& !c.contains(am[ni].parent->0)
    &&& am[am[ni].parent->0 as int].parent != am[ni].parent
    &&& am[ni].index + 1 < a.spec_children()[am[ni].parent->0 as int].len()
}

proof fn lemma_child_of(a_meta: Seq<NodeMeta>, a_children: Seq<Seq<usize>>, n: int, m: int)
    requires
        links_ok(a_meta, a_children),
        0 <= n < a_children.len(),
        0 <= m < a_meta.len(),
        a_meta[m].parent == Some(n as usize),
    ensures
        a_children[n].contains(m as usize),
{
    assert(a_children[n][a_meta[m].index as int] == m);
}

/// Takes the `else` statement `node` and the block after it out of their
/// parent; see [`else_detached`].
#[verifier::rlimit(100)]
#[verifier::spinoff_prover]
fn detach_else<V>(tree: &mut NodeTree<V>, node: Node, head: Node, rt: Node, i: usize)
    requires
        else_in_place(*old(tree), node),
        head.spec_id() == old(tree).children_of(node)[0],
        rt.spec_id() == old(tree).meta_of(node).parent->0,
        i == old(tree).meta_of(node).index,
    ensures
        else_detached(*old(tree), *final(tree), node),
{
    let ghost a = *tree;
    let ghost am = a.spec_meta();
    let ghost ac = a.spec_children();
    let ghost c = a.children_of(node);
    let ghost ni = node.spec_id();
    let ghost ri = rt.spec_id();
    let ghost hi = head.spec_id();
    let ghost cr = ac[ri];
    let ghost bi = cr[i + 1] as int;
    let k = tree.len(node);
    proof {
        assert(a.wf());
        assert(hi < a.spec_len());
        assert(am[bi].parent == Some(ri as usize));
        assert(am[bi].index == i + 1);
        assert(ac[ri][i as int] == ni);
        assert(!c.contains(bi as usize)) by {
            if c.contains(bi as usize) {
                let w = choose|w: int| 0 <= w < c.len() && c[w] == bi as usize;
                assert(am[c[w] as int].parent == Some(ni as usize));
            }
        }
        assert(c.contains(hi as usize));
    }
    tree.ignore(head);
    let ghost t1 = *tree;
    tree.remove_nodes(node, RangeBound::Unbounded, RangeBound::Unbounded);
    let ghost t2 = *tree;
    tree.ignore(node);
    let ghost t3 = *tree;
    let nr = tree.len(rt);
    proof {
        assert(t3.children_of(rt) == cr);
        assert(i + 1 < nr);
    }
    tree.remove_nodes(rt, RangeBound::Included(i), RangeBound::Excluded(i + 2));
    let ghost t4 = *tree;
    if tree.len(rt) == 0 && tree.is_block(rt) {
        tree.remove(rt);
        tree.ignore(rt);
    }
    proof {
        let t = *tree;
        let len = a.spec_len();
        let e = c.skip(1);
        assert forall|m: int| 0 <= m < len && #[trigger] am[m].parent == Some(ni as usize) implies c.contains(m as usize) by {
            lemma_child_of(am, ac, ni, m);
        }
        assert(am[ri].parent != Some(ni as usize));
        assert(removed_children(c, 0, k) =~= Seq::<usize>::empty());
        assert(t4.spec_meta()[ri] == am[ri]);
        assert(t4.children_of(rt) =~= removed_children(cr, i, (i + 2) as usize));
        assert(t4.spec_meta()[hi] == NodeMeta { parent: None, status: ignored(am[hi].status), ..am[hi] });
        assert(t4.spec_meta()[ni] == NodeMeta { parent: None, status: ignored(am[ni].status), ..am[ni] });
        assert(t4.spec_meta()[bi] == NodeMeta { parent: None, ..am[bi] });
        if let Some(pp) = am[ri].parent {
            assert(pp != ni) by {
                if pp == ni {
                    assert(c.contains(ri as usize));
                }
            }
        }
        assert forall|j: int| 0 <= j < e.len() implies #[trigger] t.spec_meta()[e[j] as int] == (NodeMeta { parent: None, ..am[e[j] as int] }) by {
            assert(e[j] == c[j + 1]);
            if e[j] == hi {
                lemma_child_unique(am, ac, ni, j + 1, ni, 0);
            }
            assert(am[e[j] as int].parent == Some(ni as usize));
            assert(e[j] != ri && e[j] != bi && e[j] != ni);
        }
        let drop_root = cr.len() == 2 && am[ri].block;
        let outer = if drop_root && am[ri].parent is Some {
            Some((am[ri].parent->0, am[ri].index))
        } else {
            None
        };
        let c4 = ac.update(ni, Seq::empty()).update(ri, removed_children(cr, i, (i + 2) as usize));
        assert(t2.spec_children() =~= ac.update(ni, Seq::empty()));
        assert(t4.spec_children() =~= c4);
        assert forall|m: int|
            0 <= m < len && !c.contains(m as usize) && m != ni && m != ri && m != bi implies #[trigger] t.spec_meta()[m]
                == else_moved(am[m], ri as usize, i, outer) by {
            assert(am[m].parent != Some(ni as usize));
            assert(t2.spec_meta()[m] == am[m]);
        }
    }
}

/// The tree `b` is `t` after the block `blk`, in a new group after a new
/// group of the nodes `e` when there are any, became the last child of `f`.
pub open spec fn attached_to_if<V>(t: NodeTree<V>, b: NodeTree<V>, e: Seq<usize>, blk: int, f: Node, group: V) -> bool {
    let len = t.spec_len();
    let tm = t.spec_meta();
    let fi = f.spec_id();
    let n = t.children_of(f).len();
    let last = if e.len() > 0 { (len + 1) as usize } else { blk as usize };
    let ch = if e.len() > 0 { t.spec_children().push(e).push(seq![len as usize, blk as usize]) } else { t.spec_children() };
    &&& b.wf()
    &&& b.spec_len() == (if e.len() > 0 { len + 2 } else { len })
    &&& b.spec_values() == (if e.len() > 0 { t.spec_values().push(group).push(group) } else { t.spec_values() })
    &&& b.spec_children() == ch.update(fi, t.children_of(f).push(last))
    &&& b.spec_meta()[blk] == (if e.len() > 0 {
        NodeMeta { parent: Some((len + 1) as usize), index: 1, ..tm[blk] }
    } else {
        NodeMeta { parent: Some(fi as usize), index: n as usize, ..tm[blk] }
    })
    &&& e.len() > 0 ==> {
        &&& forall|j: int| 0 <= j < e.len() ==> #[trigger] b.spec_meta()[e[j] as int] == (NodeMeta {
            parent: Some(len as usize),
            index: j as usize,
            ..tm[e[j] as int]
        })
        &&& b.spec_meta()[len as int] == (NodeMeta {
            span: range_of(spans_of(tm, e)),
            block: true,
            parent: Some((len + 1) as usize),
            index: 0,
            status: 0,
        })
        &&& b.spec_meta()[len + 1int] == (NodeMeta {
            span: Span::spec_merge(range_of(spans_of(tm, e)), tm[blk].span),
            block: true,
            parent: Some(fi as usize),
            index: n as usize,
            status: 0,
        })
    }
    &&& forall|m: int| 0 <= m < len && !e.contains(m as usize) && m != blk ==> #[trigger] b.spec_meta()[m] == tm[m]
}

/// Puts the block `blk`, after a group of the nodes `expr` when there are
/// any, last in the `if` statement `f`; see [`attached_to_if`].
#[verifier::rlimit(100)]
#[verifier::spinoff_prover]
fn attach_to_if<V: Copy>(tree: &mut NodeTree<V>, expr: &[usize], blk: Node, f: Node, group: V)
    requires
        old(tree).wf(),
        old(tree).spec_len() + 2 < usize::MAX,
        free_ids(old(tree).spec_meta(), expr@),
        old(tree).has(blk),
        old(tree).meta_of(blk).parent is None,
        !expr@.contains(blk.spec_id() as usize),
        old(tree).has(f),
        !expr@.contains(f.spec_id() as usize),
        f != blk,
        old(tree).children_of(f).len() < usize::MAX,
        expr@.len() >= 2 ==> old(tree).spec_meta()[expr@[0] as int].span.spec_mergeable(
            old(tree).spec_meta()[expr@.last() as int].span,
        ),
        expr@.len() > 0 ==> range_of(spans_of(old(tree).spec_meta(), expr@)).spec_mergeable(old(tree).meta_of(blk).span),
    ensures
        attached_to_if(*old(tree), *final(tree), expr@, blk.spec_id(), f, group),
{
    let ghost t = *tree;
    proof {
        lemma_node_is_of_id(blk);
        lemma_node_is_of_id(f);
    }
    if expr.len() > 0 {
        let sp = span_range(tree, expr);
        let g = make_node(tree, group, sp, true, expr, false);
        let ghost t1 = *tree;
        let sp2 = Span::merge(tree.span(g), tree.span(blk));
        let pair = [g.id(), blk.id()];
        proof {
            assert(pair@ == seq![g.spec_id() as usize, blk.spec_id() as usize]);
            assert(t1.spec_meta()[blk.spec_id()] == t.spec_meta()[blk.spec_id()]);
            assert((0u8 | FLAG_DONE) == FLAG_DONE) by (bit_vector);
        }
        let g2 = make_node(tree, group, sp2, true, &pair, false);
        let ghost t2 = *tree;
        tree.push_node(f, g2);
        proof {
            let b = *tree;
            let len = t.spec_len();
            assert(pair@ =~= seq![len as usize, blk.spec_id() as usize]);
            assert(t2.children_of(f) == t.children_of(f));
            assert forall|m: int| 0 <= m < len && !expr@.contains(m as usize) && m != blk.spec_id() implies #[trigger] b.spec_meta()[m] == t.spec_meta()[m] by {
                assert(!pair@.contains(m as usize));
            }
            assert(b.spec_meta()[blk.spec_id()] == NodeMeta { parent: Some((len + 1) as usize), index: 1, ..t.spec_meta()[blk.spec_id()] }) by {
                assert(pair@[1] == blk.spec_id());
            }
            assert(t2.spec_meta()[len as int] == NodeMeta { parent: Some((len + 1) as usize), index: 0, ..t1.spec_meta()[len as int] }) by {
                assert(pair@[0] == len);
            }
            assert forall|j: int| 0 <= j < expr@.len() implies #[trigger] b.spec_meta()[expr@[j] as int] == (NodeMeta {
                parent: Some(len as usize),
                index: j as usize,
                ..t.spec_meta()[expr@[j] as int]
            }) by {
                assert(expr@[j] < len);
                assert(!pair@.contains(expr@[j]));
            }
            assert(b.spec_children() =~= t.spec_children().push(expr@).push(seq![len as usize, blk.spec_id() as usize]).update(
                f.spec_id(),
                t.children_of(f).push((len + 1) as usize),
            ));
        }
    } else {
        tree.push_node(f, blk);
    }
}

/// Attaches an `else` statement to the `if` statement before it.
pub struct EvalElse;

impl EvalElse {
    /// Apply the rule to `node`, a block whose first child is the word
    /// `else`; `if_node` is the node found before the word, `if_is_if` tells
    /// whether it is an `if` statement, and `block_ok` whether the sibling
    /// after `node` is an indented block. A `node` that is not a block is
    /// left as it is. Otherwise the word becomes silent and done, and it is
    /// an error, the tree left so, when there is no node before it (the
    /// word's span), when that node is not an `if` statement (its span),
    /// when it does not have exactly two children (the word's span), or when
    /// no indented block follows `node` (the span of the sibling after it,
    /// or of the word). Otherwise `node`, now silent and done, and the block
    /// leave their parent, which is itself made silent and done and leaves
    /// its own parent when it is a block left empty; the nodes after the
    /// word, if any, become a new group before the block in another new
    /// group; and the block, or that group, becomes the last child of the
    /// `if` statement. See [`else_attached`].
    #[verifier::rlimit(100)]
    #[verifier::spinoff_prover]
    pub fn eval_node<V: Copy>(&self, tree: &mut NodeTree<V>, node: Node, if_node: Option<Node>, if_is_if: bool, block_ok: bool, group: V) -> (r: Result<(), Span>)
        requires
            old(tree).wf(),
            old(tree).has(node),
            old(tree).children_of(node).len() >= 1,
            !old(tree).children_of(node).contains(node.spec_id() as usize),
            old(tree).meta_of(node).parent is Some,
            !old(tree).children_of(node).contains(old(tree).meta_of(node).parent->0),
            old(tree).spec_meta()[old(tree).meta_of(node).parent->0 as int].parent != old(tree).meta_of(node).parent,
            old(tree).spec_len() + 2 < usize::MAX,
            if_node matches Some(f) ==> {
                let rt = old(tree).meta_of(node).parent->0;
                &&& old(tree).has(f)
                &&& f != node
                &&& f.spec_id() != rt
                &&& Some(f.spec_id() as usize) != old(tree).spec_meta()[rt as int].parent
                &&& !old(tree).children_of(node).contains(f.spec_id() as usize)
                &&& next_spec(old(tree).spec_meta(), old(tree).spec_children(), node.spec_id()) != Some(f)
            },
            ({
                let a = *old(tree);
                let c = a.children_of(node);
                let e = c.skip(1);
                let nx = next_spec(a.spec_meta(), a.spec_children(), node.spec_id());
                &&& e.len() >= 2 ==> a.spec_meta()[e[0] as int].span.spec_mergeable(a.spec_meta()[e.last() as int].span)
                &&& (e.len() > 0 && nx is Some) ==> range_of(spans_of(a.spec_meta(), e)).spec_mergeable(
                    a.meta_of(nx->0).span,
                )
            }),
        ensures
            ({
                let a = *old(tree);
                let b = *final(tree);
                let am = a.spec_meta();
                let len = a.spec_len();
                let c = a.children_of(node);
                let hd = c[0] as int;
                let nx = next_spec(am, a.spec_children(), node.spec_id());
                let head_done = am.update(hd, NodeMeta { status: ignored(am[hd].status), ..am[hd] });
                let err_tree = b.wf() && b.spec_len() == len && b.spec_values() == a.spec_values()
                    && b.spec_children() == a.spec_children() && b.spec_meta() == head_done;
                if !am[node.spec_id()].block {
                    r == Ok::<(), Span>(()) && b == a
                } else {
                    match if_node {
                        None => r == Err::<(), Span>(am[hd].span) && err_tree,
                        Some(f) => if !if_is_if {
                            r == Err::<(), Span>(am[f.spec_id()].span) && err_tree
                        } else if a.children_of(f).len() != 2 {
                            r == Err::<(), Span>(am[hd].span) && err_tree
                        } else if !block_ok || nx is None {
                            r == Err::<(), Span>(match nx { Some(x) => am[x.spec_id()].span, None => am[hd].span })
                                && err_tree
                        } else {
                            r == Ok::<(), Span>(()) && else_attached(a, b, node, f, group)
                        },
                    }
                }
            }),
    {
        let ghost a = *tree;
        if !tree.is_block(node) {
            return Ok(());
        }
        let k = tree.len(node);
        let hd_id = tree.nodes(node)[0];
        proof {
            assert(a.children_of(node)[0] < a.spec_len());
        }
        let head = tree.get(hd_id);
        let f = match if_node {
            None => {
                tree.ignore(head);
                return Err(tree.span(head));
            },
            Some(f) => f,
        };
        if !if_is_if {
            tree.ignore(head);
            return Err(tree.span(f));
        }
        if tree.len(f) != 2 {
            tree.ignore(head);
            return Err(tree.span(head));
        }
        let nx = tree.next(node);
        let blk = match nx {
            Some(x) => {
                if !block_ok {
                    tree.ignore(head);
                    return Err(tree.span(x));
                }
                x
            },
            None => {
                tree.ignore(head);
                return Err(tree.span(head));
            },
        };
        let rt = match tree.parent(node) {
            Some(p) => p,
            None => {
                return Ok(());
            },
        };
        let i = tree.index(node);
        let expr = copy_range(tree.nodes(node), 1, k);
        proof {
            lemma_node_is_of_id(node);
            lemma_node_is_of_id(rt);
            lemma_node_is_of_id(blk);
            lemma_node_is_of_id(head);
            let am = a.spec_meta();
            let p0 = am[node.spec_id()].parent->0 as int;
            lemma_node_of(p0);
            lemma_node_of(a.spec_children()[p0][i + 1] as int);
            assert(blk.spec_id() == a.spec_children()[p0][i + 1]);
            assert(else_in_place(a, node));
        }
        detach_else(tree, node, head, rt, i);
        let ghost t = *tree;
        proof {
            let am = a.spec_meta();
            let ac = a.spec_children();
            let c = a.children_of(node);
            let e = c.skip(1);
            let ni = node.spec_id();
            let ri = rt.spec_id();
            let bi = blk.spec_id();
            let fi = f.spec_id();
            assert(expr@ =~= e);
            assert(am[bi].parent == Some(ri as usize));
            assert(!c.contains(bi as usize)) by {
                if c.contains(bi as usize) {
                    let w = choose|w: int| 0 <= w < c.len() && c[w] == bi as usize;
                    assert(am[c[w] as int].parent == Some(ni as usize));
                }
            }
            assert forall|a1: int| 0 <= a1 < e.len() implies #[trigger] e[a1] < t.spec_len() by {
                assert(e[a1] == c[a1 + 1]);
            }
            assert forall|a1: int, b1: int| 0 <= a1 < b1 < e.len() implies #[trigger] e[a1] != #[trigger] e[b1] by {
                if e[a1] == e[b1] {
                    lemma_child_unique(am, ac, ni, a1 + 1, ni, b1 + 1);
                }
            }
            assert(free_ids(t.spec_meta(), e));
            assert(!e.contains(bi as usize)) by {
                if e.contains(bi as usize) {
                    let w = choose|w: int| 0 <= w < e.len() && e[w] == bi as usize;
                    assert(c[w + 1] == bi);
                }
            }
            assert(!e.contains(fi as usize)) by {
                if e.contains(fi as usize) {
                    let w = choose|w: int| 0 <= w < e.len() && e[w] == fi as usize;
                    assert(c[w + 1] == fi);
                }
            }
            assert(spans_of(t.spec_meta(), e) =~= spans_of(am, e));
            lemma_node_is_of_id(f);
            assert(fi != ni);
            assert(fi != ri);
            assert(else_detached(a, t, node));
            assert(t.spec_children()[fi] == ac[fi]) by {
                let cr = ac[ri];
                let drop_root = cr.len() == 2 && am[ri].block;
                if drop_root && am[ri].parent is Some {
                    assert(am[ri].parent->0 != fi);
                }
            }
            assert(t.children_of(f) == a.children_of(f));
            assert(t.spec_meta()[bi].span == am[bi].span);
        }
        attach_to_if(tree, expr.as_slice(), blk, f, group);
        proof {
            let b = *tree;
            let am = a.spec_meta();
            let c = a.children_of(node);
            let e = c.skip(1);
            let ni = node.spec_id();
            let ri = rt.spec_id();
            let bi = blk.spec_id();
            let hi = head.spec_id();
            assert(!e.contains(hi as usize)) by {
                if e.contains(hi as usize) {
                    let w = choose|w: int| 0 <= w < e.len() && e[w] == hi as usize;
                    lemma_child_unique(am, a.spec_children(), ni, w + 1, ni, 0);
                }
            }
            assert(!e.contains(ni as usize)) by {
                if e.contains(ni as usize) {
                    let w = choose|w: int| 0 <= w < e.len() && e[w] == ni as usize;
                    assert(c[w + 1] == ni);
                }
            }
            assert(!e.contains(ri as usize)) by {
                if e.contains(ri as usize) {
                    let w = choose|w: int| 0 <= w < e.len() && e[w] == ri as usize;
                    assert(c[w + 1] == ri);
                }
            }
            assert forall|j: int| 0 <= j < e.len() implies #[trigger] b.spec_meta()[e[j] as int] == (NodeMeta {
                parent: Some(a.spec_len() as usize),
                index: j as usize,
                ..am[e[j] as int]
            }) by {}
            assert forall|m: int|
                0 <= m < a.spec_len() && !c.contains(m as usize) && m != ni && m != ri && m != bi implies #[trigger] b.spec_meta()[m]
                    == t.spec_meta()[m] by {
                assert(!e.contains(m as usize)) by {
                    if e.contains(m as usize) {
                        let w = choose|w: int| 0 <= w < e.len() && e[w] == m as usize;
                        assert(c[w + 1] == m);
                    }
                }
            }
        }
        Ok(())
    }
}

} // verus!
