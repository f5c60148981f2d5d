use vstd::prelude::*;

verus! {

/// How well one operand matches an operator's signature, best first.
#[derive(Copy, Clone, Debug, PartialEq, Eq, Structural)]
pub enum OpMatchItem {
    Exact,
    Compatible,
    Convertible,
    Polymorphic,
    Any,
}

/// Number of [`OpMatchItem`] variants.
pub const OP_MATCH_COUNT: usize = 5;

impl OpMatchItem {
    pub open spec fn spec_index(self) -> int {
        match self {
            OpMatchItem::Exact => 0,
            OpMatchItem::Compatible => 1,
            OpMatchItem::Convertible => 2,
            OpMatchItem::Polymorphic => 3,
            OpMatchItem::Any => 4,
        }
    }

    /// Position of the item in the declaration order.
    pub fn index(self) -> (r: usize)
        ensures
            r == self.spec_index(),
            r < OP_MATCH_COUNT,
    {
        match self {
            OpMatchItem::Exact => 0,
            OpMatchItem::Compatible => 1,
            OpMatchItem::Convertible => 2,
            OpMatchItem::Polymorphic => 3,
            OpMatchItem::Any => 4,
        }
    }
}

/// Count of matched inputs per [`OpMatchItem`].
#[derive(Copy, Clone, Debug)]
pub struct OpMatchCount {
    count: [usize; 5],
}

impl View for OpMatchCount {
    type V = Seq<usize>;

    closed spec fn view(&self) -> Seq<usize> {
        self.count@
    }
}

impl OpMatchCount {
    pub proof fn lemma_len(&self)
        ensures
            self@.len() == OP_MATCH_COUNT,
    {
    }

    /// All inputs were exact matches.
    pub open spec fn spec_is_exact(&self) -> bool {
        forall|i: int| 1 <= i < OP_MATCH_COUNT ==> #[trigger] self@[i] == 0
    }

    /// An empty count.
    pub fn new() -> (r: OpMatchCount)
        ensures
            r@ == seq![0usize, 0, 0, 0, 0],
    {
        let r = OpMatchCount { count: [0, 0, 0, 0, 0] };
        assert(r@ =~= seq![0usize, 0, 0, 0, 0]);
        r
    }

    pub fn get(&self, mode: OpMatchItem) -> (r: usize)
        ensures
            r == self@[mode.spec_index()],
    {
        self.count[mode.index()]
    }

    pub fn add(&mut self, mode: OpMatchItem)
        requires
            old(self)@[mode.spec_index()] < usize::MAX,
        ensures
            final(self)@ == old(self)@.update(mode.spec_index(), (old(self)@[mode.spec_index()] + 1) as usize),
    {
        let i = mode.index();
        self.count[i] = self.count[i] + 1;
    }

    pub fn add_ignored(&mut self)
        requires
            old(self)@[4] < usize::MAX,
        ensures
            final(self)@ == old(self)@.update(4, (old(self)@[4] + 1) as usize),
    {
        self.add(OpMatchItem::Any)
    }

    pub fn is_exact(&self) -> (r: bool)
        ensures
            r == self.spec_is_exact(),
    {
        let mut i: usize = 0;
        while i < OP_MATCH_COUNT
            invariant
                0 <= i <= OP_MATCH_COUNT,
                self@.len() == OP_MATCH_COUNT,
                forall|j: int| 1 <= j < i ==> #[trigger] self@[j] == 0,
            decreases OP_MATCH_COUNT - i,
        {
            if i != 0 && self.count[i] > 0 {
                return false;
            }
            i = i + 1;
        }
        true
    }

    /// Order of match counts: more matches on the better items come first.
    pub fn compare(&self, other: &OpMatchCount) -> (r: std::cmp::Ordering)
        ensures
            (r == std::cmp::Ordering::Equal) == (self@ == other@),
            (r == std::cmp::Ordering::Less) == spec_count_before(self@, other@, 0),
            (r == std::cmp::Ordering::Greater) == spec_count_before(other@, self@, 0),
    {
        let mut i: usize = 0;
        while i < OP_MATCH_COUNT
            invariant
                0 <= i <= OP_MATCH_COUNT,
                self@.len() == OP_MATCH_COUNT,
                other@.len() == OP_MATCH_COUNT,
                forall|j: int| 0 <= j < i ==> #[trigger] self@[j] == other@[j],
                spec_count_before(self@, other@, 0) == count_before_at(self@, other@, i),
                spec_count_before(other@, self@, 0) == count_before_at(other@, self@, i),
            decreases OP_MATCH_COUNT - i,
        {
            let a = self.count[i];
            let b = other.count[i];
            if a > b {
                return std::cmp::Ordering::Less;
            }
            if a < b {
                return std::cmp::Ordering::Greater;
            }
            proof {
                lemma_count_before_step(self@, other@, i);
                lemma_count_before_step(other@, self@, i);
            }
            i = i + 1;
        }
        assert(self@ =~= other@);
        std::cmp::Ordering::Equal
    }
}

/// `a` comes before `b` from position `i` on: at the first position where they
/// differ, `a` has the larger count.
pub open spec fn spec_count_before(a: Seq<usize>, b: Seq<usize>, i: int) -> bool
    decreases a.len() - i,
{
    if i < 0 || i >= a.len() || i >= b.len() {
        false
    } else if a[i] != b[i] {
        a[i] > b[i]
    } else {
        spec_count_before(a, b, i + 1)
    }
}

spec fn count_before_at(a: Seq<usize>, b: Seq<usize>, i: usize) -> bool {
    spec_count_before(a, b, i as int)
}

proof fn lemma_count_before_step(a: Seq<usize>, b: Seq<usize>, i: usize)
    requires
        0 <= i < a.len(),
        i < b.len(),
        a[i as int] == b[i as int],
    ensures
        count_before_at(a, b, i) == spec_count_before(a, b, i + 1),
{
}

/// Score of an operator candidate for a set of operands.
#[derive(Copy, Clone, Debug)]
pub enum OpMatch {
    Exact,
    Score { input: OpMatchCount, output: OpMatchItem },
    Nothing,
}

impl OpMatch {
    /// An empty score, with an output that matches anything.
    pub fn begin() -> (r: OpMatch)
        ensures
            r matches OpMatch::Score { input, output } && input@ == seq![0usize, 0, 0, 0, 0]
                && output == OpMatchItem::Any,
    {
        OpMatch::Score { input: OpMatchCount::new(), output: OpMatchItem::Any }
    }

    /// Mark the candidate as not matching.
    pub fn fail(&mut self)
        ensures
            *final(self) is Nothing,
    {
        *self = OpMatch::Nothing;
    }

    pub fn set_output(&mut self, mode: OpMatchItem)
        ensures
            match *old(self) {
                OpMatch::Score { input, .. } => *final(self) == (OpMatch::Score { input, output: mode }),
                _ => *final(self) == *old(self),
            },
    {
        if let OpMatch::Score { input, output: _ } = *self {
            *self = OpMatch::Score { input, output: mode };
        }
    }

    pub fn add_input(&mut self, mode: OpMatchItem)
        requires
            *old(self) matches OpMatch::Score { input, .. } ==> input@[mode.spec_index()] < usize::MAX,
        ensures
            match *old(self) {
                OpMatch::Score { input, output } => (*final(self) matches OpMatch::Score { input: i2, output: o2 }
                    && o2 == output
                    && i2@ == input@.update(mode.spec_index(), (input@[mode.spec_index()] + 1) as usize)),
                _ => *final(self) == *old(self),
            },
    {
        if let OpMatch::Score { input, output } = *self {
            let mut input = input;
            input.add(mode);
            *self = OpMatch::Score { input, output };
        }
    }

    pub fn add_ignored_input(&mut self)
        requires
            *old(self) matches OpMatch::Score { input, .. } ==> input@[4] < usize::MAX,
        ensures
            match *old(self) {
                OpMatch::Score { input, output } => (*final(self) matches OpMatch::Score { input: i2, output: o2 }
                    && o2 == output
                    && i2@ == input@.update(4, (input@[4] + 1) as usize)),
                _ => *final(self) == *old(self),
            },
    {
        if let OpMatch::Score { input, output } = *self {
            let mut input = input;
            input.add_ignored();
            *self = OpMatch::Score { input, output };
        }
    }

    /// Finish scoring: a score whose output and inputs are all exact becomes
    /// `Exact`.
    pub fn end(self) -> (r: OpMatch)
        ensures
            (self matches OpMatch::Score { input, output } && output == OpMatchItem::Exact
                && input.spec_is_exact()) ==> r is Exact,
            !(self matches OpMatch::Score { input, output } && output == OpMatchItem::Exact
                && input.spec_is_exact()) ==> r == self,
    {
        if let OpMatch::Score { input, output } = self {
            if output == OpMatchItem::Exact && input.is_exact() {
                return OpMatch::Exact;
            }
        }
        self
    }
}

impl Default for OpMatch {
    fn default() -> (r: OpMatch)
        ensures
            r matches OpMatch::Score { input, output } && input@ == seq![0usize, 0, 0, 0, 0]
                && output == OpMatchItem::Any,
    {
        OpMatch::begin()
    }
}

/// Scoring only exact inputs with an exact output ends in an exact match.
pub proof fn lemma_exact_inputs_end_exact(input: OpMatchCount)
    requires
        input@.len() == OP_MATCH_COUNT,
        forall|i: int| 1 <= i < OP_MATCH_COUNT ==> #[trigger] input@[i] == 0,
    ensures
        input.spec_is_exact(),
{
}

} // verus!
