use vstd::prelude::*;
use crate::lexer::{Token, TokenSpec};
use crate::symbol::Symbol;
use crate::code::NodeValue;
use crate::evaluators::{copy_range, ignored, make_node, range_of, span_range, spans_of};
use crate::nodes::{lemma_node_is_of_id, lemma_node_of, node_of, removed_children, removed_meta, Node, NodeMeta, NodeTree, FLAG_DONE};
use crate::source::{lemma_empty_source, lemma_empty_span, RangeBound, Source, Span};
use crate::vars::{Var, VariablesContext};

verus! {

/// The runs of children between the matched children at `targets`, for a
/// parent with `n` children: before the first target, between each two, and
/// after the last.
pub open spec fn runs_between(n: usize, targets: Seq<usize>) -> Seq<(usize, usize)> {
    Seq::new(
        (targets.len() + 1) as nat,
        |i: int|
            (
                if i == 0 {
                    0usize
                } else {
                    (targets[i - 1] + 1) as usize
                },
                if i < targets.len() {
                    targets[i]
                } else {
                    n
                },
            ),
    )
}

/// The targets are positions of children, in increasing order.
pub open spec fn targets_ok(n: usize, targets: Seq<usize>) -> bool {
    &&& forall|i: int| 0 <= i < targets.len() ==> #[trigger] targets[i] < n
    &&& forall|i: int, j: int| 0 <= i < j < targets.len() ==> #[trigger] targets[i] < #[trigger] targets[j]
}

/// The runs between the targets, made in order.
pub fn runs_of(n: usize, targets: &[usize]) -> (r: Vec<(usize, usize)>)
    requires
        targets_ok(n, targets@),
    ensures
        r@ == runs_between(n, targets@),
        forall|i: int| 0 <= i < r@.len() ==> (#[trigger] r@[i]).0 <= r@[i].1,
{
    let mut r: Vec<(usize, usize)> = Vec::new();
    let mut cur: usize = 0;
    let mut i: usize = 0;
    while i < targets.len()
        invariant
            targets_ok(n, targets@),
            0 <= i <= targets@.len(),
            r@ == runs_between(n, targets@).take(i as int),
            cur == runs_between(n, targets@)[i as int].0,
            cur <= n,
            i > 0 ==> cur == targets@[i - 1] + 1,
            forall|j: int| 0 <= j < r@.len() ==> (#[trigger] r@[j]).0 <= r@[j].1,
        decreases targets@.len() - i,
    {
        let t = targets[i];
        proof {
            if i > 0 {
                assert(targets@[i - 1] < targets@[i as int]);
            }
            assert(targets@[i as int] < n);
        }
        r.push((cur, t));
        cur = t + 1;
        i = i + 1;
        assert(r@ =~= runs_between(n, targets@).take(i as int));
    }
    r.push((cur, n));
    assert(r@ =~= runs_between(n, targets@));
    r
}

/// A tree of binary operators over runs of children.
#[derive(Debug, PartialEq, Eq)]
pub enum OpTree {
    /// The children `start..end`, grouped.
    Operand(usize, usize),
    /// An operator applied to two operands.
    Op(Box<OpTree>, Box<OpTree>),
}

/// The operands grouped to the left: `((a op b) op c) op d`.
pub open spec fn left_tree(runs: Seq<(usize, usize)>) -> OpTree
    decreases runs.len(),
{
    if runs.len() <= 1 {
        OpTree::Operand(runs[0].0, runs[0].1)
    } else {
        OpTree::Op(Box::new(left_tree(runs.drop_last())), Box::new(OpTree::Operand(runs.last().0, runs.last().1)))
    }
}

/// The operands grouped to the right: `a op (b op (c op d))`.
pub open spec fn right_tree(runs: Seq<(usize, usize)>) -> OpTree
    decreases runs.len(),
{
    if runs.len() <= 1 {
        OpTree::Operand(runs[0].0, runs[0].1)
    } else {
        OpTree::Op(Box::new(OpTree::Operand(runs[0].0, runs[0].1)), Box::new(right_tree(runs.drop_first())))
    }
}

/// Index of the first empty run at or after `i`.
pub open spec fn first_empty_from(runs: Seq<(usize, usize)>, i: int) -> Option<int>
    decreases runs.len() - i,
{
    if i < 0 || i >= runs.len() {
        None
    } else if runs[i].0 == runs[i].1 {
        Some(i)
    } else {
        first_empty_from(runs, i + 1)
    }
}

/// Index of the last empty run before `i`.
pub open spec fn last_empty_before(runs: Seq<(usize, usize)>, i: int) -> Option<int>
    decreases i,
{
    if i <= 0 || i > runs.len() {
        None
    } else if runs[i - 1].0 == runs[i - 1].1 {
        Some(i - 1)
    } else {
        last_empty_before(runs, i - 1)
    }
}

/// The target at which an empty operand is reported. Operands are read
/// left to right, or right to left when grouped to the right; an operand is
/// reported at the operator after it, except the operand read last, which is
/// reported at the last operator.
pub open spec fn empty_operand_target(runs: Seq<(usize, usize)>, group_right: bool) -> Option<int> {
    let k = runs.len() - 1;
    if !group_right {
        match first_empty_from(runs, 0) {
            Some(i) => Some(if i < k { i } else { k - 1 }),
            None => None,
        }
    } else {
        match last_empty_before(runs, runs.len() as int) {
            Some(i) => Some(if i > 0 { i - 1 } else { k - 1 }),
            None => None,
        }
    }
}

/// The operands `runs`, grouped to the left; the first empty one is an
/// error, see [`empty_operand_target`].
pub fn left_plan(runs: &[(usize, usize)]) -> (r: Result<OpTree, usize>)
    requires
        runs@.len() >= 2,
    ensures
        match empty_operand_target(runs@, false) {
            Some(t) => r == Err::<OpTree, usize>(t as usize),
            None => r == Ok::<OpTree, usize>(left_tree(runs@)),
        },
{
    let m = runs.len();
    let (s0, e0) = runs[0];
    if s0 == e0 {
        return Err(0);
    }
    let mut tree = OpTree::Operand(s0, e0);
    let mut i: usize = 1;
    proof {
        assert(runs@.take(1).len() == 1);
    }
    while i < m
        invariant
            m == runs@.len(),
            m >= 2,
            1 <= i <= m,
            first_empty_from(runs@, 0) == first_empty_from(runs@, i as int),
            tree == left_tree(runs@.take(i as int)),
        decreases m - i,
    {
        let (s, e) = runs[i];
        if s == e {
            return Err(if i < m - 1 { i } else { m - 2 });
        }
        proof {
            assert(runs@.take(i + 1).drop_last() =~= runs@.take(i as int));
            assert(runs@.take(i + 1).last() == runs@[i as int]);
        }
        tree = OpTree::Op(Box::new(tree), Box::new(OpTree::Operand(s, e)));
        i = i + 1;
    }
    assert(runs@.take(m as int) =~= runs@);
    Ok(tree)
}

/// The operands `runs`, grouped to the right; the last empty one is an
/// error, see [`empty_operand_target`].
pub fn right_plan(runs: &[(usize, usize)]) -> (r: Result<OpTree, usize>)
    requires
        runs@.len() >= 2,
    ensures
        match empty_operand_target(runs@, true) {
            Some(t) => r == Err::<OpTree, usize>(t as usize),
            None => r == Ok::<OpTree, usize>(right_tree(runs@)),
        },
{
    let m = runs.len();
    let (sl, el) = runs[m - 1];
    if sl == el {
        assert(last_empty_before(runs@, m as int) == Some(m - 1));
        return Err(m - 2);
    }
    let mut tree = OpTree::Operand(sl, el);
    let mut i: usize = m - 1;
    proof {
        assert(runs@.subrange(i as int, m as int).len() == 1);
    }
    while i > 0
        invariant
            m == runs@.len(),
            m >= 2,
            0 <= i < m,
            last_empty_before(runs@, m as int) == last_empty_before(runs@, i as int + 1),
            runs@[i as int].0 != runs@[i as int].1,
            tree == right_tree(runs@.subrange(i as int, m as int)),
        decreases i,
    {
        let (s, e) = runs[i - 1];
        assert(last_empty_before(runs@, i as int + 1) == last_empty_before(runs@, i as int));
        if s == e {
            assert(last_empty_before(runs@, i as int) == Some(i - 1));
            return Err(if i - 1 > 0 { i - 2 } else { m - 2 });
        }
        proof {
            assert(runs@.subrange(i - 1, m as int).drop_first() =~= runs@.subrange(i as int, m as int));
            assert(runs@.subrange(i - 1, m as int)[0] == runs@[i - 1]);
        }
        tree = OpTree::Op(Box::new(OpTree::Operand(s, e)), Box::new(tree));
        i = i - 1;
    }
    assert(runs@.subrange(0, m as int) =~= runs@);
    assert(last_empty_before(runs@, 1) == last_empty_before(runs@, 0));
    Ok(tree)
}

/// How a binary operator groups the children of a parent whose children at
/// `targets` are the operator: the runs between operators become operands,
/// grouped to the left, or to the right with `group_right`. An empty operand
/// is an error, reported at the target given by [`empty_operand_target`].
pub fn binary_op_plan(n: usize, targets: &[usize], group_right: bool) -> (r: Result<OpTree, usize>)
    requires
        targets@.len() > 0,
        targets_ok(n, targets@),
    ensures
        ({
            let runs = runs_between(n, targets@);
            match empty_operand_target(runs, group_right) {
                Some(t) => r == Err::<OpTree, usize>(t as usize),
                None => r == Ok::<OpTree, usize>(
                    if group_right {
                        right_tree(runs)
                    } else {
                        left_tree(runs)
                    },
                ),
            }
        }),
{
    let runs = runs_of(n, targets);
    if group_right {
        right_plan(runs.as_slice())
    } else {
        left_plan(runs.as_slice())
    }
}

/// What a line break makes of the children of a parent.
#[derive(Copy, Clone, Debug, PartialEq, Eq, Structural)]
pub enum LineItem {
    /// The indentation grows by one level.
    Indent,
    /// The indentation shrinks by one level.
    Dedent,
    /// The children `start..end` form a line.
    Line(usize, usize),
}

/// `k` dedents.
pub open spec fn dedents(k: nat) -> Seq<LineItem> {
    Seq::new(k, |i: int| LineItem::Dedent)
}

/// The indentation levels left open after a line at `level`: the deeper
/// ones are closed; `None` when that would close the base level.
pub open spec fn dedent(stack: Seq<usize>, level: usize) -> Option<Seq<usize>>
    decreases stack.len(),
{
    if stack.len() == 0 {
        None
    } else if level < stack.last() {
        if stack.len() == 1 {
            None
        } else {
            dedent(stack.drop_last(), level)
        }
    } else {
        Some(stack)
    }
}

/// The open levels and the items after the line `run` at `level`: a deeper
/// line opens a level, a shallower one closes the deeper levels, and the
/// first line sets the base level. An empty run makes nothing.
pub open spec fn line_step(
    stack: Seq<usize>,
    out: Seq<LineItem>,
    run: (usize, usize),
    level: usize,
) -> Option<(Seq<usize>, Seq<LineItem>)> {
    let line = LineItem::Line(run.0, run.1);
    if run.0 == run.1 {
        Some((stack, out))
    } else if stack.len() == 0 {
        Some((seq![level], out.push(line)))
    } else if level > stack.last() {
        Some((stack.push(level), out.push(LineItem::Indent).push(line)))
    } else if level < stack.last() {
        match dedent(stack, level) {
            None => None,
            Some(s2) => Some((s2, (out + dedents((stack.len() - s2.len()) as nat)).push(line))),
        }
    } else {
        Some((stack, out.push(line)))
    }
}

/// The open levels and the items after the lines `runs`, each at the level of
/// its first child; an error at the first child of the line that closes the
/// base level.
pub open spec fn line_state(levels: Seq<usize>, runs: Seq<(usize, usize)>) -> Result<(Seq<usize>, Seq<LineItem>), usize>
    decreases runs.len(),
{
    if runs.len() == 0 {
        Ok((Seq::empty(), Seq::empty()))
    } else {
        match line_state(levels, runs.drop_last()) {
            Err(e) => Err(e),
            Ok((stack, out)) => {
                let run = runs.last();
                match line_step(stack, out, run, levels[run.0 as int]) {
                    None => Err(run.0),
                    Some(st) => Ok(st),
                }
            },
        }
    }
}

/// The items a line break makes: the lines between breaks with the
/// indentation changes between them, and the levels still open closed at
/// the end.
pub open spec fn line_items(levels: Seq<usize>, runs: Seq<(usize, usize)>) -> Result<Seq<LineItem>, usize> {
    match line_state(levels, runs) {
        Err(e) => Err(e),
        Ok((stack, out)) => Ok(
            if stack.len() > 1 {
                out + dedents((stack.len() - 1) as nat)
            } else {
                out
            },
        ),
    }
}

proof fn lemma_line_state_err(levels: Seq<usize>, runs: Seq<(usize, usize)>, i: int, e: usize)
    requires
        0 <= i <= runs.len(),
        line_state(levels, runs.take(i)) == Err::<(Seq<usize>, Seq<LineItem>), usize>(e),
    ensures
        line_state(levels, runs) == Err::<(Seq<usize>, Seq<LineItem>), usize>(e),
    decreases runs.len() - i,
{
    if i < runs.len() {
        assert(runs.take(i + 1).drop_last() =~= runs.take(i));
        lemma_line_state_err(levels, runs, i + 1, e);
    } else {
        assert(runs.take(i) =~= runs);
    }
}

proof fn lemma_dedent_len(stack: Seq<usize>, level: usize)
    ensures
        dedent(stack, level) matches Some(s2) ==> 1 <= s2.len() <= stack.len() && s2 == stack.take(
            s2.len() as int,
        ),
    decreases stack.len(),
{
    if stack.len() > 1 && level < stack.last() {
        lemma_dedent_len(stack.drop_last(), level);
        if let Some(s2) = dedent(stack.drop_last(), level) {
            assert(s2 =~= stack.take(s2.len() as int));
        }
    } else if stack.len() > 0 {
        assert(stack =~= stack.take(stack.len() as int));
    }
}

/// How a line break splits the children of a parent with the indent levels
/// `levels`, whose children at `breaks` are the line breaks; see
/// [`line_items`].
pub fn line_break_plan(levels: &[usize], breaks: &[usize]) -> (r: Result<Vec<LineItem>, usize>)
    requires
        targets_ok(levels@.len() as usize, breaks@),
    ensures
        match line_items(levels@, runs_between(levels@.len() as usize, breaks@)) {
            Ok(items) => r is Ok && r->Ok_0@ == items,
            Err(e) => r == Err::<Vec<LineItem>, usize>(e),
        },
{
    let n = levels.len();
    let runs = runs_of(n, breaks);
    let ghost all = runs@;
    let mut stack: Vec<usize> = Vec::new();
    let mut out: Vec<LineItem> = Vec::new();
    let mut i: usize = 0;
    while i < runs.len()
        invariant
            n == levels@.len(),
            all == runs@,
            all == runs_between(n, breaks@),
            forall|j: int| 0 <= j < all.len() ==> (#[trigger] all[j]).0 <= all[j].1,
            forall|j: int| 0 <= j < all.len() ==> (#[trigger] all[j]).1 <= n,
            0 <= i <= all.len(),
            line_state(levels@, all.take(i as int)) == Ok::<(Seq<usize>, Seq<LineItem>), usize>((stack@, out@)),
        decreases all.len() - i,
    {
        let (start, end) = runs[i];
        proof {
            assert(all.take(i + 1).drop_last() =~= all.take(i as int));
            assert(all.take(i + 1).last() == all[i as int]);
        }
        if start < end {
            assert(start < n);
            let level = levels[start];
            let ghost out0 = out@;
            if stack.len() == 0 {
                stack.push(level);
                out.push(LineItem::Line(start, end));
                assert(stack@ =~= seq![level]);
            } else if level > stack[stack.len() - 1] {
                stack.push(level);
                out.push(LineItem::Indent);
                out.push(LineItem::Line(start, end));
            } else if level < stack[stack.len() - 1] {
                let ghost stack0 = stack@;
                let ghost target = dedent(stack0, level);
                proof {
                    lemma_dedent_len(stack0, level);
                }
                while stack.len() > 0 && level < stack[stack.len() - 1]
                    invariant
                        n == levels@.len(),
                        all == runs_between(n, breaks@),
                        0 <= i < all.len(),
                        all[i as int] == (start, end),
                        start < end,
                        start < levels@.len(),
                        level == levels@[start as int],
                        line_state(levels@, all.take(i as int)) == Ok::<(Seq<usize>, Seq<LineItem>), usize>((stack0, out0)),
                        all.take(i + 1).drop_last() == all.take(i as int),
                        all.take(i + 1).last() == all[i as int],
                        stack0.len() > 0,
                        level < stack0.last(),
                        1 <= stack@.len() <= stack0.len(),
                        stack@ == stack0.take(stack@.len() as int),
                        dedent(stack@, level) == target,
                        target == dedent(stack0, level),
                        target matches Some(s2) ==> s2.len() <= stack@.len(),
                        out@ == out0 + dedents((stack0.len() - stack@.len()) as nat),
                    decreases stack@.len(),
                {
                    if stack.len() == 1 {
                        proof {
                            assert(dedent(stack@, level) is None);
                            assert(line_state(levels@, all.take(i + 1)) == Err::<(Seq<usize>, Seq<LineItem>), usize>(start));
                            lemma_line_state_err(levels@, all, i + 1, start);
                        }
                        return Err(start);
                    }
                    let ghost before = stack@;
                    stack.pop();
                    assert(stack@ =~= before.drop_last());
                    assert(stack@ =~= stack0.take(stack@.len() as int));
                    out.push(LineItem::Dedent);
                    assert(out@ =~= out0 + dedents((stack0.len() - stack@.len()) as nat));
                    proof {
                        lemma_dedent_len(stack@, level);
                    }
                }
                assert(dedent(stack@, level) == Some(stack@));
                out.push(LineItem::Line(start, end));
            } else {
                out.push(LineItem::Line(start, end));
            }
        }
        i = i + 1;
    }
    assert(all.take(all.len() as int) =~= all);
    let ghost out1 = out@;
    let ghost st = stack@;
    while stack.len() > 1
        invariant
            1 <= st.len() ==> 1 <= stack@.len() <= st.len(),
            st.len() == 0 ==> stack@.len() == 0,
            out@ == out1 + dedents((st.len() - stack@.len()) as nat),
        decreases stack@.len(),
    {
        stack.pop();
        out.push(LineItem::Dedent);
        assert(out@ =~= out1 + dedents((st.len() - stack@.len()) as nat));
    }
    proof {
        if st.len() > 1 {
            assert(out@ =~= out1 + dedents((st.len() - 1) as nat));
        } else {
            assert(out@ =~= out1);
        }
    }
    Ok(out)
}

/// What a matched child of an indented block stands for.
#[derive(Copy, Clone, Debug, PartialEq, Eq, Structural)]
pub enum Marker {
    /// The indentation grows: a block opens.
    Open,
    /// The indentation shrinks: the innermost block closes.
    Close,
    /// Anything else.
    Other,
}

/// The children of a parent, regrouped into blocks.
#[derive(Copy, Clone, Debug, PartialEq, Eq, Structural)]
pub enum IndentItem {
    /// The children `start..end`, in the current block.
    Children(usize, usize),
    /// A block opens.
    Open,
    /// The innermost block closes.
    Close,
}

/// Why children could not be regrouped into blocks.
#[derive(Copy, Clone, Debug, PartialEq, Eq, Structural)]
pub enum IndentError {
    /// The target at this index closes a block when none is open.
    Unbalanced(usize),
    /// The target at this index opens or closes no block.
    Invalid(usize),
    /// Blocks are still open at the end.
    Missing,
}

/// The children of a nonempty run, as an item.
pub open spec fn run_items(run: (usize, usize)) -> Seq<IndentItem> {
    if run.0 < run.1 {
        seq![IndentItem::Children(run.0, run.1)]
    } else {
        Seq::empty()
    }
}

/// The open blocks and the items after the first `k` targets: the children
/// before each target, then the block it opens or closes.
pub open spec fn indent_state(runs: Seq<(usize, usize)>, markers: Seq<Marker>, k: int) -> Result<
    (nat, Seq<IndentItem>),
    IndentError,
>
    decreases k,
{
    if k <= 0 {
        Ok((0, Seq::empty()))
    } else {
        match indent_state(runs, markers, k - 1) {
            Err(e) => Err(e),
            Ok((depth, items)) => {
                let items = items + run_items(runs[k - 1]);
                match markers[k - 1] {
                    Marker::Open => Ok((depth + 1, items.push(IndentItem::Open))),
                    Marker::Close => if depth == 0 {
                        Err(IndentError::Unbalanced((k - 1) as usize))
                    } else {
                        Ok(((depth - 1) as nat, items.push(IndentItem::Close)))
                    },
                    Marker::Other => Err(IndentError::Invalid((k - 1) as usize)),
                }
            },
        }
    }
}

/// The children of a parent regrouped into blocks by the markers at
/// `targets`; every block opened must be closed.
pub open spec fn indent_items(n: usize, targets: Seq<usize>, markers: Seq<Marker>) -> Result<Seq<IndentItem>, IndentError> {
    let runs = runs_between(n, targets);
    match indent_state(runs, markers, targets.len() as int) {
        Err(e) => Err(e),
        Ok((depth, items)) => if depth == 0 {
            Ok(items + run_items(runs.last()))
        } else {
            Err(IndentError::Missing)
        },
    }
}

proof fn lemma_indent_state_err(runs: Seq<(usize, usize)>, markers: Seq<Marker>, i: int, k: int, e: IndentError)
    requires
        0 <= i <= k,
        indent_state(runs, markers, i) == Err::<(nat, Seq<IndentItem>), IndentError>(e),
    ensures
        indent_state(runs, markers, k) == Err::<(nat, Seq<IndentItem>), IndentError>(e),
    decreases k - i,
{
    if i < k {
        lemma_indent_state_err(runs, markers, i, k - 1, e);
    }
}

/// How an indentation regroups the children of a parent with `n` children,
/// whose children at `targets` are the markers `markers`; see
/// [`indent_items`].
pub fn indent_plan(n: usize, targets: &[usize], markers: &[Marker]) -> (r: Result<Vec<IndentItem>, IndentError>)
    requires
        targets_ok(n, targets@),
        markers@.len() == targets@.len(),
    ensures
        match indent_items(n, targets@, markers@) {
            Ok(items) => r is Ok && r->Ok_0@ == items,
            Err(e) => r == Err::<Vec<IndentItem>, IndentError>(e),
        },
{
    let runs = runs_of(n, targets);
    let ghost all = runs@;
    let k = targets.len();
    let mut depth: usize = 0;
    let mut items: Vec<IndentItem> = Vec::new();
    let mut i: usize = 0;
    while i < k
        invariant
            k == targets@.len(),
            k == markers@.len(),
            all == runs@,
            all == runs_between(n, targets@),
            0 <= i <= k,
            depth <= i,
            indent_state(all, markers@, i as int) == Ok::<(nat, Seq<IndentItem>), IndentError>((depth as nat, items@)),
        decreases k - i,
    {
        let (start, end) = runs[i];
        if start < end {
            items.push(IndentItem::Children(start, end));
        }
        let ghost before = indent_state(all, markers@, i as int);
        match markers[i] {
            Marker::Open => {
                depth = depth + 1;
                items.push(IndentItem::Open);
            },
            Marker::Close => {
                if depth == 0 {
                    proof {
                        lemma_indent_state_err(all, markers@, i + 1, k as int, IndentError::Unbalanced(i));
                    }
                    return Err(IndentError::Unbalanced(i));
                }
                depth = depth - 1;
                items.push(IndentItem::Close);
            },
            Marker::Other => {
                proof {
                    lemma_indent_state_err(all, markers@, i + 1, k as int, IndentError::Invalid(i));
                }
                return Err(IndentError::Invalid(i));
            },
        }
        i = i + 1;
        proof {
            let prev_items = before->Ok_0.1;
            assert(items@ =~= (prev_items + run_items(all[i - 1])).push(
                if markers@[i - 1] == Marker::Open { IndentItem::Open } else { IndentItem::Close },
            ));
        }
    }
    if depth != 0 {
        return Err(IndentError::Missing);
    }
    let (start, end) = runs[k];
    if start < end {
        items.push(IndentItem::Children(start, end));
    }
    assert(items@ =~= indent_items(n, targets@, markers@)->Ok_0);
    Ok(items)
}

/// What a sibling after an `if` statement is.
#[derive(Copy, Clone, Debug, PartialEq, Eq, Structural)]
pub enum ChainKind {
    /// An `else if` statement.
    ElseIf,
    /// An `else` statement.
    Else,
    /// Anything else.
    Other,
}

/// The siblings that continue an `if` statement: how many, and whether the
/// last is an `else`. The `else if` statements become nested `if`
/// statements, each holding the next one, the last holding the `else`
/// block.
#[derive(Copy, Clone, Debug, PartialEq, Eq, Structural)]
pub struct IfChain {
    pub len: usize,
    pub has_else: bool,
}

/// Number of leading `else if` and `else` statements of `kinds`.
pub open spec fn chain_len(kinds: Seq<ChainKind>) -> nat
    decreases kinds.len(),
{
    if kinds.len() == 0 || kinds[0] == ChainKind::Other {
        0
    } else {
        1 + chain_len(kinds.drop_first())
    }
}

/// The chain that continues an `if` statement followed by the siblings
/// `kinds`; an error at the first `else` that is not the last of the chain.
pub open spec fn if_chain(kinds: Seq<ChainKind>) -> Result<IfChain, usize> {
    let len = chain_len(kinds);
    if exists|j: int| 0 <= j < len - 1 && #[trigger] kinds[j] == ChainKind::Else {
        Err(
            (choose|j: int|
                0 <= j < len - 1 && #[trigger] kinds[j] == ChainKind::Else && forall|m: int|
                    0 <= m < j ==> #[trigger] kinds[m] != ChainKind::Else) as usize,
        )
    } else {
        Ok(IfChain { len: len as usize, has_else: len > 0 && kinds[len - 1] == ChainKind::Else })
    }
}

proof fn lemma_chain_len(kinds: Seq<ChainKind>, i: int)
    requires
        0 <= i <= kinds.len(),
        forall|j: int| 0 <= j < i ==> #[trigger] kinds[j] != ChainKind::Other,
    ensures
        chain_len(kinds) >= i,
        i < kinds.len() && kinds[i] == ChainKind::Other ==> chain_len(kinds) == i,
        i == kinds.len() ==> chain_len(kinds) == i,
        chain_len(kinds) <= kinds.len(),
    decreases i,
{
    if i > 0 {
        assert forall|j: int| 0 <= j < i - 1 implies #[trigger] kinds.drop_first()[j] != ChainKind::Other by {
            assert(kinds.drop_first()[j] == kinds[j + 1]);
        }
        lemma_chain_len(kinds.drop_first(), i - 1);
        if i < kinds.len() {
            assert(kinds.drop_first()[i - 1] == kinds[i]);
        }
    } else {
        lemma_chain_len_bound(kinds);
    }
}

pub(crate) proof fn lemma_chain_len_bound(kinds: Seq<ChainKind>)
    ensures
        chain_len(kinds) <= kinds.len(),
    decreases kinds.len(),
{
    if kinds.len() > 0 {
        lemma_chain_len_bound(kinds.drop_first());
    }
}

/// How an `if` statement takes the `else if` and `else` statements that
/// follow it, given the kinds of its following siblings; see [`if_chain`].
pub fn if_chain_plan(kinds: &[ChainKind]) -> (r: Result<IfChain, usize>)
    ensures
        r == if_chain(kinds@),
{
    let n = kinds.len();
    let mut len: usize = 0;
    while len < n && kinds[len] != ChainKind::Other
        invariant
            n == kinds@.len(),
            0 <= len <= n,
            forall|j: int| 0 <= j < len ==> #[trigger] kinds@[j] != ChainKind::Other,
        decreases n - len,
    {
        len = len + 1;
    }
    proof {
        lemma_chain_len(kinds@, len as int);
    }
    let mut j: usize = 0;
    while len > 0 && j < len - 1
        invariant
            n == kinds@.len(),
            len == chain_len(kinds@),
            len <= n,
            0 <= j <= len,
            forall|m: int| 0 <= m < j ==> #[trigger] kinds@[m] != ChainKind::Else,
        decreases len - j,
    {
        if kinds[j] == ChainKind::Else {
            proof {
                let c = choose|c: int|
                    0 <= c < len - 1 && #[trigger] kinds@[c] == ChainKind::Else && forall|m: int|
                        0 <= m < c ==> #[trigger] kinds@[m] != ChainKind::Else;
                assert(0 <= j < len - 1 && kinds@[j as int] == ChainKind::Else && forall|m: int|
                    0 <= m < j ==> #[trigger] kinds@[m] != ChainKind::Else);
                if c < j {
                } else if c > j {
                    assert(kinds@[j as int] != ChainKind::Else);
                }
            }
            return Err(j);
        }
        j = j + 1;
    }
    Ok(IfChain { len, has_else: len > 0 && kinds[len - 1] == ChainKind::Else })
}

/// What an `else` statement is.
#[derive(Copy, Clone, Debug, PartialEq, Eq, Structural)]
pub enum ElseKind {
    /// `else if`, with its condition after the word `if`.
    ElseIf,
    /// A plain `else`.
    Else,
}

/// The kind of an `else` statement whose expression starts with `first`,
/// and how many of its nodes to skip: `if` makes it an `else if`; any other
/// word is an error.
pub open spec fn else_kind(first: Option<TokenSpec>) -> Option<(ElseKind, usize)> {
    match first {
        Some(TokenSpec::Word(sym)) => if sym == (seq![105u8, 102u8], 0u32) {
            Some((ElseKind::ElseIf, 1usize))
        } else {
            None
        },
        _ => Some((ElseKind::Else, 0usize)),
    }
}

/// The kind of an `else` statement whose expression starts with the token
/// `first` (`None` when the expression is empty or starts with something
/// other than a token); see [`else_kind`].
pub fn else_plan(first: Option<&Token>) -> (r: Option<(ElseKind, usize)>)
    ensures
        r == else_kind(
            match first {
                Some(t) => Some(t@),
                None => None,
            },
        ),
{
    match first {
        Some(Token::Word(sym)) => {
            let bytes: &[u8] = &[105u8, 102u8];
            assert(bytes@ =~= seq![105u8, 102u8]);
            let word_if = Symbol::get(bytes);
            if sym.same(&word_if) {
                Some((ElseKind::ElseIf, 1))
            } else {
                None
            }
        },
        _ => Some((ElseKind::Else, 0)),
    }
}

/// The name declared by a `let` statement whose following children are
/// `next` (the name) and `eq` (the `=` symbol): the word of `next` when `eq`
/// is the symbol `=`.
pub open spec fn let_name(next: Option<TokenSpec>, eq: Option<TokenSpec>) -> Option<(Seq<u8>, u32)> {
    if eq == Some(TokenSpec::Symbol((seq![61u8], 0u32))) {
        match next {
            Some(TokenSpec::Word(name)) => Some(name),
            _ => None,
        }
    } else {
        None
    }
}

/// The name declared by a `let` statement, see [`let_name`]; `None` when
/// the children do not declare one. The expression is the children after
/// the `=`.
pub fn let_plan(next: Option<&Token>, eq: Option<&Token>) -> (r: Option<Symbol>)
    ensures
        r matches Some(s) ==> let_name(
            match next {
                Some(t) => Some(t@),
                None => None,
            },
            match eq {
                Some(t) => Some(t@),
                None => None,
            },
        ) == Some(s@),
        r is None ==> let_name(
            match next {
                Some(t) => Some(t@),
                None => None,
            },
            match eq {
                Some(t) => Some(t@),
                None => None,
            },
        ) is None,
{
    let has_eq = match eq {
        Some(Token::Symbol(s)) => {
            let bytes: &[u8] = &[61u8];
            assert(bytes@ =~= seq![61u8]);
            let sym_eq = Symbol::get(bytes);
            s.same(&sym_eq)
        },
        _ => false,
    };
    if !has_eq {
        return None;
    }
    match next {
        Some(Token::Word(name)) => Some(name.duplicate()),
        _ => None,
    }
}

/// Most nodes reported for one source when nodes are left unprocessed.
pub const MAX_BY_SRC: usize = 20;

/// Most nodes listed when nodes are left unprocessed.
pub const MAX_TOTAL: usize = 50;

/// Number of the chosen items `out` of `items` that come from `src`.
pub open spec fn src_count(items: Seq<(usize, u64)>, out: Seq<usize>, src: usize) -> nat
    decreases out.len(),
{
    if out.len() == 0 {
        0
    } else {
        src_count(items, out.drop_last(), src) + if items[out.last() as int].0 == src {
            1nat
        } else {
            0nat
        }
    }
}

/// Some chosen item of `out` is the same as `item`.
pub open spec fn already_chosen(items: Seq<(usize, u64)>, out: Seq<usize>, item: (usize, u64)) -> bool {
    exists|j: int| 0 <= j < out.len() && #[trigger] items[out[j] as int] == item
}

/// The items chosen among the first `k` of `items` (source and value of each
/// unprocessed node, in order): an item is chosen unless its source already
/// has [`MAX_BY_SRC`] chosen items, or the same item was chosen.
pub open spec fn report_choice(items: Seq<(usize, u64)>, k: int) -> Seq<usize>
    decreases k,
{
    if k <= 0 {
        Seq::empty()
    } else {
        let out = report_choice(items, k - 1);
        let item = items[k - 1];
        if src_count(items, out, item.0) < MAX_BY_SRC && !already_chosen(items, out, item) {
            out.push((k - 1) as usize)
        } else {
            out
        }
    }
}

/// The report on unprocessed nodes: the positions of the nodes listed (the
/// first [`MAX_TOTAL`] chosen ones) and how many nodes were not chosen.
pub open spec fn pending_report_spec(items: Seq<(usize, u64)>) -> (Seq<usize>, nat) {
    let out = report_choice(items, items.len() as int);
    (if out.len() > MAX_TOTAL { out.take(MAX_TOTAL as int) } else { out }, (items.len() - out.len()) as nat)
}

proof fn lemma_report_choice_len(items: Seq<(usize, u64)>, k: int)
    requires
        0 <= k <= items.len(),
    ensures
        report_choice(items, k).len() <= k,
        forall|j: int| 0 <= j < report_choice(items, k).len() ==> #[trigger] report_choice(items, k)[j] < k,
    decreases k,
{
    if k > 0 {
        lemma_report_choice_len(items, k - 1);
    }
}

proof fn lemma_src_count_push(items: Seq<(usize, u64)>, out: Seq<usize>, x: usize, src: usize)
    ensures
        src_count(items, out.push(x), src) == src_count(items, out, src) + if items[x as int].0 == src {
            1nat
        } else {
            0nat
        },
{
    assert(out.push(x).drop_last() =~= out);
}

/// No source has more than [`MAX_BY_SRC`] nodes chosen for the report.
pub proof fn lemma_report_per_source(items: Seq<(usize, u64)>, k: int, src: usize)
    requires
        0 <= k <= items.len() <= usize::MAX,
    ensures
        src_count(items, report_choice(items, k), src) <= MAX_BY_SRC,
    decreases k,
{
    if k > 0 {
        lemma_report_per_source(items, k - 1, src);
        let out = report_choice(items, k - 1);
        lemma_src_count_push(items, out, (k - 1) as usize, src);
    }
}

/// Which unprocessed nodes to report, given the source and value of each
/// in order; see [`pending_report_spec`].
pub fn pending_report(items: &[(usize, u64)]) -> (r: (Vec<usize>, usize))
    ensures
        (r.0@, r.1 as nat) == pending_report_spec(items@),
{
    let n = items.len();
    let mut out: Vec<usize> = Vec::new();
    let mut i: usize = 0;
    while i < n
        invariant
            n == items@.len(),
            0 <= i <= n,
            out@ == report_choice(items@, i as int),
            out@.len() <= i,
            forall|j: int| 0 <= j < out@.len() ==> #[trigger] out@[j] < i,
        decreases n - i,
    {
        let item = items[i];
        let mut count: usize = 0;
        let mut seen = false;
        let mut m: usize = 0;
        while m < out.len()
            invariant
                n == items@.len(),
                i < n,
                item == items@[i as int],
                0 <= m <= out@.len(),
                forall|j: int| 0 <= j < out@.len() ==> #[trigger] out@[j] < i,
                count == src_count(items@, out@.take(m as int), item.0),
                count <= m,
                seen == already_chosen(items@, out@.take(m as int), item),
            decreases out@.len() - m,
        {
            let j = out[m];
            let other = items[j];
            proof {
                assert(out@.take(m + 1).drop_last() =~= out@.take(m as int));
                assert(out@.take(m + 1).last() == out@[m as int]);
                assert(out@[m as int] < i);
            }
            if other.0 == item.0 {
                count = count + 1;
            }
            if other.0 == item.0 && other.1 == item.1 {
                seen = true;
                assert(out@.take(m + 1)[m as int] == j);
            }
            proof {
                if seen {
                    if !already_chosen(items@, out@.take(m as int), item) {
                        assert(items@[out@.take(m + 1)[m as int] as int] == item);
                    } else {
                        let w = choose|w: int| 0 <= w < out@.take(m as int).len() && #[trigger] items@[out@.take(m as int)[w] as int] == item;
                        assert(out@.take(m + 1)[w] == out@.take(m as int)[w]);
                    }
                } else {
                    assert forall|w: int| 0 <= w < out@.take(m + 1).len() implies #[trigger] items@[out@.take(m + 1)[w] as int] != item by {
                        if w < m {
                            assert(out@.take(m + 1)[w] == out@.take(m as int)[w]);
                        }
                    }
                }
            }
            m = m + 1;
        }
        proof {
            assert(out@.take(out@.len() as int) =~= out@);
        }
        if count < MAX_BY_SRC && !seen {
            out.push(i);
        }
        i = i + 1;
    }
    let total = out.len();
    let skipped = n - total;
    if total > MAX_TOTAL {
        out.truncate(MAX_TOTAL);
    }
    (out, skipped)
}

/// The operands of a tree of binary operators, left to right.
pub open spec fn leaves(t: OpTree) -> Seq<(usize, usize)>
    decreases t,
{
    match t {
        OpTree::Operand(a, b) => seq![(a, b)],
        OpTree::Op(l, r) => leaves(*l) + leaves(*r),
    }
}

proof fn lemma_left_leaves(runs: Seq<(usize, usize)>)
    requires
        runs.len() >= 1,
    ensures
        leaves(left_tree(runs)) == runs,
    decreases runs.len(),
{
    if runs.len() == 1 {
        assert((runs[0].0, runs[0].1) == runs[0]);
        assert(leaves(left_tree(runs)) == seq![runs[0]]);
        assert(leaves(left_tree(runs)) =~= runs);
    } else {
        lemma_left_leaves(runs.drop_last());
        assert((runs.last().0, runs.last().1) == runs.last());
        let last = OpTree::Operand(runs.last().0, runs.last().1);
        assert(leaves(last) == seq![runs.last()]);
        assert(left_tree(runs) == OpTree::Op(Box::new(left_tree(runs.drop_last())), Box::new(last)));
        assert(leaves(left_tree(runs)) == leaves(left_tree(runs.drop_last())) + seq![runs.last()]);
        assert(leaves(left_tree(runs)) =~= runs);
    }
}

proof fn lemma_right_leaves(runs: Seq<(usize, usize)>)
    requires
        runs.len() >= 1,
    ensures
        leaves(right_tree(runs)) == runs,
    decreases runs.len(),
{
    if runs.len() == 1 {
        assert((runs[0].0, runs[0].1) == runs[0]);
        assert(leaves(right_tree(runs)) == seq![runs[0]]);
        assert(leaves(right_tree(runs)) =~= runs);
    } else {
        lemma_right_leaves(runs.drop_first());
        assert((runs[0].0, runs[0].1) == runs[0]);
        let first = OpTree::Operand(runs[0].0, runs[0].1);
        assert(leaves(first) == seq![runs[0]]);
        assert(right_tree(runs) == OpTree::Op(Box::new(first), Box::new(right_tree(runs.drop_first()))));
        assert(leaves(right_tree(runs)) == seq![runs[0]] + leaves(right_tree(runs.drop_first())));
        assert(leaves(right_tree(runs)) =~= runs);
    }
}

/// Grouping to the left or to the right keeps every operand, in order: the
/// two trees differ only in how the operators nest.
pub proof fn lemma_groupings_keep_operands(runs: Seq<(usize, usize)>)
    requires
        runs.len() >= 1,
    ensures
        leaves(left_tree(runs)) == runs,
        leaves(right_tree(runs)) == runs,
{
    lemma_left_leaves(runs);
    lemma_right_leaves(runs);
}

/// Number of items of `s` equal to `x`.
pub open spec fn count_of<A>(s: Seq<A>, x: A) -> nat
    decreases s.len(),
{
    if s.len() == 0 {
        0
    } else {
        count_of(s.drop_last(), x) + if s.last() == x {
            1nat
        } else {
            0nat
        }
    }
}

proof fn lemma_count_concat<A>(a: Seq<A>, b: Seq<A>, x: A)
    ensures
        count_of(a + b, x) == count_of(a, x) + count_of(b, x),
    decreases b.len(),
{
    if b.len() == 0 {
        assert(a + b =~= a);
    } else {
        assert((a + b).drop_last() =~= a + b.drop_last());
        lemma_count_concat(a, b.drop_last(), x);
    }
}

proof fn lemma_count_dedents(k: nat)
    ensures
        count_of(dedents(k), LineItem::Dedent) == k,
        count_of(dedents(k), LineItem::Indent) == 0,
    decreases k,
{
    if k > 0 {
        assert(dedents(k).drop_last() =~= dedents((k - 1) as nat));
        lemma_count_dedents((k - 1) as nat);
    }
}

proof fn lemma_count_push<A>(s: Seq<A>, y: A, x: A)
    ensures
        count_of(s.push(y), x) == count_of(s, x) + if y == x {
            1nat
        } else {
            0nat
        },
{
    assert(s.push(y).drop_last() =~= s);
}

proof fn lemma_line_state_counts(levels: Seq<usize>, runs: Seq<(usize, usize)>)
    ensures
        line_state(levels, runs) matches Ok((stack, out)) ==> {
            &&& stack.len() == 0 ==> count_of(out, LineItem::Indent) == 0 && count_of(out, LineItem::Dedent) == 0
            &&& stack.len() >= 1 ==> count_of(out, LineItem::Indent) == count_of(out, LineItem::Dedent)
                + stack.len() - 1
        },
    decreases runs.len(),
{
    if runs.len() > 0 {
        lemma_line_state_counts(levels, runs.drop_last());
        if let Ok((stack, out)) = line_state(levels, runs.drop_last()) {
            let run = runs.last();
            let level = levels[run.0 as int];
            let line = LineItem::Line(run.0, run.1);
            if run.0 == run.1 {
            } else if stack.len() == 0 {
                lemma_count_push(out, line, LineItem::Indent);
                lemma_count_push(out, line, LineItem::Dedent);
            } else if level > stack.last() {
                lemma_count_push(out, LineItem::Indent, LineItem::Indent);
                lemma_count_push(out, LineItem::Indent, LineItem::Dedent);
                lemma_count_push(out.push(LineItem::Indent), line, LineItem::Indent);
                lemma_count_push(out.push(LineItem::Indent), line, LineItem::Dedent);
            } else if level < stack.last() {
                lemma_dedent_len(stack, level);
                if let Some(s2) = dedent(stack, level) {
                    let d = dedents((stack.len() - s2.len()) as nat);
                    lemma_count_concat(out, d, LineItem::Indent);
                    lemma_count_concat(out, d, LineItem::Dedent);
                    lemma_count_dedents((stack.len() - s2.len()) as nat);
                    lemma_count_push(out + d, line, LineItem::Indent);
                    lemma_count_push(out + d, line, LineItem::Dedent);
                }
            } else {
                lemma_count_push(out, line, LineItem::Indent);
                lemma_count_push(out, line, LineItem::Dedent);
            }
        }
    }
}

/// A line break closes every indentation it opens: its items hold as many
/// dedents as indents.
pub proof fn lemma_line_breaks_balanced(levels: Seq<usize>, runs: Seq<(usize, usize)>)
    ensures
        line_items(levels, runs) matches Ok(items) ==> count_of(items, LineItem::Indent) == count_of(
            items,
            LineItem::Dedent,
        ),
{
    lemma_line_state_counts(levels, runs);
    if let Ok((stack, out)) = line_state(levels, runs) {
        if stack.len() > 1 {
            let d = dedents((stack.len() - 1) as nat);
            lemma_count_concat(out, d, LineItem::Indent);
            lemma_count_concat(out, d, LineItem::Dedent);
            lemma_count_dedents((stack.len() - 1) as nat);
        }
    }
}

/// The lines among the items, in order.
pub open spec fn lines_of(items: Seq<LineItem>) -> Seq<(usize, usize)>
    decreases items.len(),
{
    if items.len() == 0 {
        Seq::empty()
    } else {
        let rest = lines_of(items.drop_last());
        match items.last() {
            LineItem::Line(s, e) => rest.push((s, e)),
            _ => rest,
        }
    }
}

/// The runs that have children, in order.
pub open spec fn nonempty_runs(runs: Seq<(usize, usize)>) -> Seq<(usize, usize)>
    decreases runs.len(),
{
    if runs.len() == 0 {
        Seq::empty()
    } else {
        let rest = nonempty_runs(runs.drop_last());
        if runs.last().0 < runs.last().1 {
            rest.push(runs.last())
        } else {
            rest
        }
    }
}

proof fn lemma_lines_of_push(items: Seq<LineItem>, x: LineItem)
    ensures
        lines_of(items.push(x)) == (match x {
            LineItem::Line(s, e) => lines_of(items).push((s, e)),
            _ => lines_of(items),
        }),
{
    assert(items.push(x).drop_last() =~= items);
}

proof fn lemma_lines_of_dedents(items: Seq<LineItem>, k: nat)
    ensures
        lines_of(items + dedents(k)) == lines_of(items),
    decreases k,
{
    if k > 0 {
        lemma_lines_of_dedents(items, (k - 1) as nat);
        assert(items + dedents(k) =~= (items + dedents((k - 1) as nat)).push(LineItem::Dedent));
        lemma_lines_of_push(items + dedents((k - 1) as nat), LineItem::Dedent);
    } else {
        assert(items + dedents(0) =~= items);
    }
}

proof fn lemma_line_state_lines(levels: Seq<usize>, runs: Seq<(usize, usize)>)
    requires
        forall|i: int| 0 <= i < runs.len() ==> (#[trigger] runs[i]).0 <= runs[i].1,
    ensures
        line_state(levels, runs) matches Ok((stack, out)) ==> lines_of(out) == nonempty_runs(runs),
    decreases runs.len(),
{
    if runs.len() > 0 {
        assert forall|i: int| 0 <= i < runs.drop_last().len() implies (#[trigger] runs.drop_last()[i]).0 <= runs.drop_last()[i].1 by {
            assert(runs.drop_last()[i] == runs[i]);
        }
        lemma_line_state_lines(levels, runs.drop_last());
        let run = runs.last();
        assert(run.0 <= run.1);
        assert(nonempty_runs(runs) == (if run.0 < run.1 {
            nonempty_runs(runs.drop_last()).push(run)
        } else {
            nonempty_runs(runs.drop_last())
        }));
        if let Ok((stack, out)) = line_state(levels, runs.drop_last()) {
            let line = LineItem::Line(run.0, run.1);
            let level = levels[run.0 as int];
            assert(line_state(levels, runs) == (match line_step(stack, out, run, level) {
                None => Err(run.0),
                Some(st) => Ok::<(Seq<usize>, Seq<LineItem>), usize>(st),
            }));
            if run.0 == run.1 {
            } else if stack.len() == 0 {
                lemma_lines_of_push(out, line);
            } else if level > stack.last() {
                lemma_lines_of_push(out, LineItem::Indent);
                lemma_lines_of_push(out.push(LineItem::Indent), line);
            } else if level < stack.last() {
                if let Some(s2) = dedent(stack, level) {
                    let d = dedents((stack.len() - s2.len()) as nat);
                    lemma_lines_of_dedents(out, (stack.len() - s2.len()) as nat);
                    lemma_lines_of_push(out + d, line);
                }
            } else {
                lemma_lines_of_push(out, line);
            }
        }
    }
}

/// A line break keeps every run of children between the breaks that has
/// children, as a line, in order, and makes no other line.
pub proof fn lemma_line_breaks_keep_lines(levels: Seq<usize>, runs: Seq<(usize, usize)>)
    requires
        forall|i: int| 0 <= i < runs.len() ==> (#[trigger] runs[i]).0 <= runs[i].1,
    ensures
        line_items(levels, runs) matches Ok(items) ==> lines_of(items) == nonempty_runs(runs),
{
    lemma_line_state_lines(levels, runs);
    if let Ok((stack, out)) = line_state(levels, runs) {
        if stack.len() > 1 {
            lemma_lines_of_dedents(out, (stack.len() - 1) as nat);
        }
    }
}

proof fn lemma_run_items_counts(run: (usize, usize))
    ensures
        count_of(run_items(run), IndentItem::Open) == 0,
        count_of(run_items(run), IndentItem::Close) == 0,
{
    reveal_with_fuel(count_of, 2);
    if run.0 < run.1 {
        assert(run_items(run).drop_last() =~= Seq::<IndentItem>::empty());
    }
}

proof fn lemma_indent_state_counts(runs: Seq<(usize, usize)>, markers: Seq<Marker>, k: int)
    ensures
        indent_state(runs, markers, k) matches Ok((depth, items)) ==> count_of(items, IndentItem::Open) == count_of(
            items,
            IndentItem::Close,
        ) + depth,
    decreases k,
{
    if k > 0 {
        lemma_indent_state_counts(runs, markers, k - 1);
        if let Ok((depth, items)) = indent_state(runs, markers, k - 1) {
            let r = run_items(runs[k - 1]);
            lemma_run_items_counts(runs[k - 1]);
            lemma_count_concat(items, r, IndentItem::Open);
            lemma_count_concat(items, r, IndentItem::Close);
            lemma_count_push(items + r, IndentItem::Open, IndentItem::Open);
            lemma_count_push(items + r, IndentItem::Open, IndentItem::Close);
            lemma_count_push(items + r, IndentItem::Close, IndentItem::Open);
            lemma_count_push(items + r, IndentItem::Close, IndentItem::Close);
        }
    }
}

/// Regrouping into blocks closes every block it opens.
pub proof fn lemma_blocks_balanced(n: usize, targets: Seq<usize>, markers: Seq<Marker>)
    ensures
        indent_items(n, targets, markers) matches Ok(items) ==> count_of(items, IndentItem::Open) == count_of(
            items,
            IndentItem::Close,
        ),
{
    let runs = runs_between(n, targets);
    lemma_indent_state_counts(runs, markers, targets.len() as int);
    if let Ok((depth, items)) = indent_state(runs, markers, targets.len() as int) {
        let r = run_items(runs.last());
        lemma_run_items_counts(runs.last());
        lemma_count_concat(items, r, IndentItem::Open);
        lemma_count_concat(items, r, IndentItem::Close);
    }
}


/// The token a node holds, if it holds one.
pub open spec fn token_of(v: NodeValue) -> Option<TokenSpec> {
    match v {
        NodeValue::Token(t) => Some(t@),
        _ => None,
    }
}

/// The name that the `let` statement at `it` declares: `it` is the first of
/// at least three children of its parent, the second a word, which is the
/// name, and the third the symbol `=`. `None` when `it` is no such node.
pub open spec fn let_statement(a: NodeTree<NodeValue>, it: Node) -> Option<(Seq<u8>, u32)> {
    let m = a.meta_of(it);
    if m.parent is Some && m.index == 0 && a.spec_children()[m.parent->0 as int].len() >= 3 {
        let c = a.spec_children()[m.parent->0 as int];
        let_name(token_of(a.spec_values()[c[1] as int]), token_of(a.spec_values()[c[2] as int]))
    } else {
        None
    }
}

/// The metadata `am` after the children `c` of `p` left it, the first three
/// of them made silent and done.
pub open spec fn let_meta(am: Seq<NodeMeta>, p: usize, c: Seq<usize>) -> Seq<NodeMeta> {
    Seq::new(
        am.len(),
        |m: int|
            {
                let x = removed_meta(am[m], p, 0, c.len() as usize);
                if m == c[0] || m == c[1] || m == c[2] {
                    NodeMeta { status: ignored(x.status), ..x }
                } else {
                    x
                }
            },
    )
}

/// What a `let` statement hands on for the bindings of its variable: the
/// variable, and in the source `src` the positions from `start` to `end`,
/// where the name refers to the variable, and the span of the expression,
/// where `this` does.
#[derive(Copy, Clone, Debug)]
pub struct LetScope {
    pub var: Var,
    pub src: Source,
    pub start: usize,
    pub end: usize,
    pub expr_start: usize,
    pub expr_end: usize,
}

/// Turns a `let` statement into a node that declares its variable.
pub struct EvalLet;

impl EvalLet {
    /// Apply the rule to `it`. When `it` is not the first child of a parent
    /// whose second child is a word and third the symbol `=`, it is only made
    /// not done, and the result is `None`. Otherwise all children leave the
    /// parent, the first three silent and done, and a new node, spanning the
    /// first two, is made: when the source of `it` is the empty one, the
    /// `let` has no scope, and that is an error with the new node's span.
    /// Otherwise a variable with the word as name, declared by the new node,
    /// is added to `vars`; the node holds it as a `let` value, the children
    /// after the `=` become its children, and it is done and the only child
    /// of the parent. The result tells the scope: the rest of the source
    /// after the expression (after the new node's span when there is no
    /// expression), and the expression's span.
    #[verifier::rlimit(60)]
    #[verifier::spinoff_prover]
    pub fn eval_node(&self, tree: &mut NodeTree<NodeValue>, vars: &mut VariablesContext, it: Node) -> (r: Result<Option<LetScope>, Span>)
        requires
            old(tree).wf(),
            old(tree).has(it),
            old(tree).spec_len() + 1 < usize::MAX,
            old(vars)@.len() < usize::MAX,
            let_statement(*old(tree), it) is Some ==> {
                let a = *old(tree);
                let c = a.spec_children()[a.meta_of(it).parent->0 as int];
                let e = c.skip(3);
                &&& a.spec_meta()[c[0] as int].span.spec_mergeable(a.spec_meta()[c[1] as int].span)
                &&& e.len() >= 2 ==> a.spec_meta()[e[0] as int].span.spec_mergeable(a.spec_meta()[e.last() as int].span)
            },
        ensures
            ({
                let a = *old(tree);
                let b = *final(tree);
                let len = a.spec_len();
                match let_statement(a, it) {
                    None => {
                        &&& r == Ok::<Option<LetScope>, Span>(None)
                        &&& b.wf()
                        &&& b.spec_values() == a.spec_values()
                        &&& b.spec_children() == a.spec_children()
                        &&& b.spec_meta() == a.spec_meta().update(
                            it.spec_id(),
                            NodeMeta { status: a.meta_of(it).status & !FLAG_DONE, ..a.meta_of(it) },
                        )
                        &&& final(vars)@ == old(vars)@
                    },
                    Some(name) => {
                        let p = a.meta_of(it).parent->0;
                        let c = a.spec_children()[p as int];
                        let am = let_meta(a.spec_meta(), p, c);
                        let e = c.skip(3);
                        let span = Span::spec_merge(a.spec_meta()[c[0] as int].span, a.spec_meta()[c[1] as int].span);
                        let src = a.meta_of(it).span.spec_src();
                        &&& b.wf()
                        &&& b.spec_len() == len + 1
                        &&& if src == Source::empty_spec() {
                            &&& r == Err::<Option<LetScope>, Span>(span)
                            &&& b.spec_values() == a.spec_values().push(NodeValue::Nothing)
                            &&& b.spec_children() == a.spec_children().update(p as int, Seq::empty()).push(Seq::empty())
                            &&& b.spec_meta() == am.push(NodeMeta { span, block: false, parent: None, index: 0, status: 0 })
                            &&& final(vars)@ == old(vars)@
                        } else {
                            &&& r matches Ok(Some(s))
                            &&& s.var.spec_id() == old(vars)@.len()
                            &&& s.src == src
                            &&& s.start == (if e.len() > 0 { a.spec_meta()[e.last() as int].span.spec_end() } else { span.spec_end() })
                            &&& s.end == src.spec_len()
                            &&& s.expr_start == range_of(spans_of(a.spec_meta(), e)).spec_pos()
                            &&& s.expr_end == range_of(spans_of(a.spec_meta(), e)).spec_end()
                            &&& final(vars)@ == old(vars)@.push((name, node_of(len as int)))
                            &&& b.spec_values() == a.spec_values().push(NodeValue::Let(s.var))
                            &&& b.spec_children() == a.spec_children().update(p as int, seq![len as usize]).push(e)
                            &&& b.spec_meta()[len as int] == (NodeMeta { span, block: false, parent: Some(p), index: 0, status: FLAG_DONE })
                            &&& forall|k: int| 0 <= k < e.len() ==> #[trigger] b.spec_meta()[e[k] as int] == (NodeMeta {
                                parent: Some(len as usize),
                                index: k as usize,
                                ..am[e[k] as int]
                            })
                            &&& forall|m: int| 0 <= m < len && !e.contains(m as usize) ==> #[trigger] b.spec_meta()[m] == am[m]
                        }
                    },
                }
            }),
    {
        let ghost a = *tree;
        let parent = match tree.parent(it) {
            Some(p) => p,
            None => {
                tree.keep_alive(it);
                return Ok(None);
            },
        };
        let ghost p = a.meta_of(it).parent->0;
        let ghost c = a.spec_children()[p as int];
        proof {
            lemma_node_of(p as int);
            assert(c[a.meta_of(it).index as int] == it.spec_id());
        }
        if tree.index(it) != 0 || tree.len(parent) < 3 {
            tree.keep_alive(it);
            return Ok(None);
        }
        let i1 = tree.nodes(parent)[1];
        let i2 = tree.nodes(parent)[2];
        let n1 = tree.get(i1);
        let n2 = tree.get(i2);
        proof {
            assert(c[0] == it.spec_id());
            assert(i1 == c[1] && i2 == c[2]);
        }
        let name = {
            let t1 = match tree.value(n1) {
                NodeValue::Token(t) => Some(t),
                _ => None,
            };
            let t2 = match tree.value(n2) {
                NodeValue::Token(t) => Some(t),
                _ => None,
            };
            proof {
                assert(match t1 {
                    Some(t) => Some(t@),
                    None => None,
                } == token_of(a.spec_values()[c[1] as int]));
                assert(match t2 {
                    Some(t) => Some(t@),
                    None => None,
                } == token_of(a.spec_values()[c[2] as int]));
            }
            let_plan(t1, t2)
        };
        let name = match name {
            Some(s) => s,
            None => {
                tree.keep_alive(it);
                return Ok(None);
            },
        };
        let span = Span::merge(tree.span(it), tree.span(n1));
        let src = tree.span(it).src();
        proof {
            assert(a.spec_meta()[c[1] as int].index == 1);
            assert(a.spec_meta()[c[2] as int].index == 2);
            assert(a.spec_meta()[c[0] as int].index == 0);
        }
        let nodes = tree.remove_nodes(parent, RangeBound::Unbounded, RangeBound::Unbounded);
        tree.ignore(it);
        tree.ignore(n1);
        tree.ignore(n2);
        let ghost am = let_meta(a.spec_meta(), p, c);
        let ghost ee = c.skip(3);
        proof {
            let t3 = *tree;
            assert(removed_children(c, 0, c.len() as usize) =~= Seq::<usize>::empty());
            assert(t3.spec_children() =~= a.spec_children().update(p as int, Seq::empty()));
            assert(t3.spec_meta() =~= am);
        }
        let e = copy_range(&nodes, 3, nodes.len());
        let empty = Source::empty();
        proof {
            lemma_empty_source(empty);
            assert(e@ =~= ee);
        }
        if src == empty {
            let _ = tree.new_node(NodeValue::Nothing, span, false);
            return Err(span);
        }
        let start = if e.len() > 0 {
            let last = tree.get(e[e.len() - 1]);
            tree.span(last).end()
        } else {
            span.end()
        };
        proof {
            let t3 = *tree;
            assert forall|k: int| 0 <= k < ee.len() implies #[trigger] ee[k] < t3.spec_len() && t3.spec_meta()[ee[k] as int].span
                == a.spec_meta()[ee[k] as int].span && t3.spec_meta()[ee[k] as int].parent is None by {
                assert(ee[k] == c[k + 3]);
                assert(a.spec_meta()[c[k + 3] as int].index == k + 3);
            }
            assert forall|i: int, j: int| 0 <= i < j < ee.len() implies #[trigger] ee[i] != #[trigger] ee[j] by {
                assert(ee[i] == c[i + 3] && ee[j] == c[j + 3]);
                assert(a.spec_meta()[c[i + 3] as int].index == i + 3);
                assert(a.spec_meta()[c[j + 3] as int].index == j + 3);
            }
            assert(spans_of(t3.spec_meta(), ee) =~= spans_of(a.spec_meta(), ee));
        }
        let esp = span_range(tree, &e);
        proof {
            if e.len() == 0 {
                lemma_empty_span(esp);
            }
        }
        let ghost t3 = *tree;
        let x = make_node(tree, NodeValue::Nothing, span, false, &e, false);
        let var = vars.declare(name, x);
        tree.set_value(x, NodeValue::Let(var));
        tree.flag_done(x);
        let ghost t6 = *tree;
        tree.push_node(parent, x);
        proof {
            let b = *tree;
            let len = a.spec_len();
            lemma_node_is_of_id(x);
            assert((0u8 | FLAG_DONE) == FLAG_DONE) by (bit_vector);
            assert(t6.spec_children()[p as int] == Seq::<usize>::empty());
            assert(b.spec_children() =~= a.spec_children().update(p as int, seq![len as usize]).push(ee));
            assert forall|m: int| 0 <= m < len && !ee.contains(m as usize) implies #[trigger] b.spec_meta()[m] == am[m] by {
                assert(t3.spec_meta()[m] == am[m]);
            }
        }
        Ok(Some(LetScope { var, src, start, end: src.len(), expr_start: esp.pos(), expr_end: esp.end() }))
    }
}

} // verus!
