use vstd::prelude::*;
use crate::Precedence;

verus! {

/// A rule bound to the positions `sta..end` of a source, applied in the
/// order of its precedence.
#[derive(Copy, Clone, Debug, PartialEq, Eq, Structural)]
pub struct BoundValue {
    pub sta: usize,
    pub end: usize,
    pub ord: Precedence,
}

/// The range `sta..end` starts inside the range of the value and does not
/// go past its end.
pub open spec fn range_within(v: BoundValue, sta: usize, end: usize) -> bool {
    sta >= v.sta && sta < v.end && end <= v.end
}

impl BoundValue {
    /// Whether the range `sta..end` lies within the value's range; see
    /// [`range_within`].
    pub fn contains_range(&self, sta: usize, end: usize) -> (r: bool)
        ensures
            r == range_within(*self, sta, end),
    {
        sta >= self.sta && sta < self.end && end <= self.end
    }
}

/// Positions `sta..end` bound to the value `val`, by its index; `queued`
/// when it waits to be evaluated.
#[derive(Copy, Clone, Debug, PartialEq, Eq, Structural)]
pub struct BoundSegment {
    pub sta: usize,
    pub end: usize,
    pub val: usize,
    pub queued: bool,
}

/// Segments that are not empty, in order and apart, bound to one of `n`
/// values.
pub open spec fn segments_ok(segs: Seq<BoundSegment>, n: nat) -> bool {
    &&& forall|i: int| 0 <= i < segs.len() ==> (#[trigger] segs[i]).sta < segs[i].end && segs[i].val < n
    &&& forall|i: int, j: int| 0 <= i < j < segs.len() ==> (#[trigger] segs[i]).end <= (#[trigger] segs[j]).sta
}

/// A new segment `a..b` of the value `v`, waiting, when it is not empty.
pub open spec fn gap(a: int, b: int, v: usize) -> Seq<BoundSegment> {
    if a < b {
        seq![BoundSegment { sta: a as usize, end: b as usize, val: v, queued: true }]
    } else {
        Seq::empty()
    }
}

pub open spec fn larger(a: int, b: int) -> int {
    if a >= b {
        a
    } else {
        b
    }
}

pub open spec fn smaller(a: int, b: int) -> int {
    if a <= b {
        a
    } else {
        b
    }
}

/// What binding the value `v`, of range `s..e`, to `s..e` makes of the
/// segment `seg`: a segment outside the range, or whose value does not hold
/// the range, is kept; another gives its part inside the range to `v`, which
/// waits, and keeps the parts before and after.
pub open spec fn split(seg: BoundSegment, vals: Seq<BoundValue>, s: usize, e: usize, v: usize) -> Seq<BoundSegment> {
    if seg.end <= s || e <= seg.sta || !range_within(vals[seg.val as int], s, e) {
        seq![seg]
    } else {
        (if seg.sta < s {
            seq![BoundSegment { end: s, ..seg }]
        } else {
            Seq::empty()
        }) + seq![
            BoundSegment {
                sta: larger(seg.sta as int, s as int) as usize,
                end: smaller(seg.end as int, e as int) as usize,
                val: v,
                queued: true,
            },
        ] + (if e < seg.end {
            seq![BoundSegment { sta: e, ..seg }]
        } else {
            Seq::empty()
        })
    }
}

/// End of the segment before `segs[i]`, or `s` for the first.
pub open spec fn end_before(segs: Seq<BoundSegment>, i: int, s: usize) -> int {
    if i == 0 {
        s as int
    } else {
        segs[i - 1].end as int
    }
}

/// The segments `segs` after binding `v` to `s..e`, before the last gap:
/// each segment split, after the part of `s..e` between it and the one
/// before, which goes to `v`.
pub open spec fn overlay_body(segs: Seq<BoundSegment>, vals: Seq<BoundValue>, s: usize, e: usize, v: usize) -> Seq<BoundSegment>
    decreases segs.len(),
{
    if segs.len() == 0 {
        Seq::empty()
    } else {
        let i = segs.len() - 1;
        overlay_body(segs.drop_last(), vals, s, e, v) + gap(
            larger(s as int, end_before(segs, i, s)),
            smaller(e as int, segs[i].sta as int),
            v,
        ) + split(segs[i], vals, s, e, v)
    }
}

/// The segments after binding the value `v`, of range `s..e`, to `s..e`:
/// where no segment was, `v` is bound; a segment whose value holds the
/// range gives the part inside it to `v`; the others are kept.
pub open spec fn overlay(segs: Seq<BoundSegment>, vals: Seq<BoundValue>, s: usize, e: usize, v: usize) -> Seq<BoundSegment> {
    overlay_body(segs, vals, s, e, v) + gap(larger(s as int, end_before(segs, segs.len() as int, s)), e as int, v)
}

/// Append a segment that starts where the last one ends or later.
fn push_segment(out: &mut Vec<BoundSegment>, x: BoundSegment, Ghost(n): Ghost<nat>)
    requires
        segments_ok(old(out)@, n),
        x.sta < x.end,
        x.val < n,
        old(out)@.len() > 0 ==> old(out)@.last().end <= x.sta,
    ensures
        final(out)@ == old(out)@.push(x),
        segments_ok(final(out)@, n),
{
    let ghost o = out@;
    out.push(x);
    proof {
        assert forall|i: int, j: int| 0 <= i < j < out@.len() implies (#[trigger] out@[i]).end <= (#[trigger] out@[j]).sta by {
            if j == o.len() && i < o.len() - 1 {
                assert(o[i].end <= o[o.len() - 1].sta);
            }
        }
    }
}

/// Append what binding `v` to `s..e` makes of the segment `seg`; see
/// [`split`]. `within` tells whether the value of `seg` holds the range.
fn push_split(
    out: &mut Vec<BoundSegment>,
    seg: BoundSegment,
    within: bool,
    s: usize,
    e: usize,
    v: usize,
    Ghost(vals): Ghost<Seq<BoundValue>>,
    Ghost(n): Ghost<nat>,
)
    requires
        segments_ok(old(out)@, n),
        seg.sta < seg.end,
        seg.val < n,
        v < n,
        s < e,
        seg.val < vals.len(),
        within == range_within(vals[seg.val as int], s, e),
        old(out)@.len() > 0 ==> old(out)@.last().end <= seg.sta,
    ensures
        final(out)@ == old(out)@ + split(seg, vals, s, e, v),
        segments_ok(final(out)@, n),
        final(out)@.len() > 0,
        final(out)@.last().end == seg.end,
{
    let ghost o = out@;
    if seg.end <= s || e <= seg.sta || !within {
        push_segment(out, seg, Ghost(n));
    } else {
        if seg.sta < s {
            push_segment(out, BoundSegment { end: s, ..seg }, Ghost(n));
        }
        let mid_sta = if seg.sta >= s {
            seg.sta
        } else {
            s
        };
        let mid_end = if seg.end <= e {
            seg.end
        } else {
            e
        };
        push_segment(out, BoundSegment { sta: mid_sta, end: mid_end, val: v, queued: true }, Ghost(n));
        if e < seg.end {
            push_segment(out, BoundSegment { sta: e, ..seg }, Ghost(n));
        }
    }
    assert(out@ =~= o + split(seg, vals, s, e, v));
}

/// The segments bound to the values of one pattern, by position.
pub struct PatternBindings {
    values: Vec<BoundValue>,
    segments: Vec<BoundSegment>,
}

impl PatternBindings {
    pub closed spec fn spec_values(&self) -> Seq<BoundValue> {
        self.values@
    }

    pub closed spec fn spec_segments(&self) -> Seq<BoundSegment> {
        self.segments@
    }

    /// The segments are in order, apart, not empty, and of known values.
    pub open spec fn wf(&self) -> bool {
        segments_ok(self.spec_segments(), self.spec_values().len())
    }

    /// No values and no segments.
    pub fn new() -> (r: PatternBindings)
        ensures
            r.wf(),
            r.spec_values().len() == 0,
            r.spec_segments().len() == 0,
    {
        PatternBindings { values: Vec::new(), segments: Vec::new() }
    }

    /// The values bound so far, in the order they were bound.
    pub fn values(&self) -> (r: &[BoundValue])
        ensures
            r@ == self.spec_values(),
    {
        self.values.as_slice()
    }

    /// The segments, in order of position.
    pub fn segments(&self) -> (r: &[BoundSegment])
        ensures
            r@ == self.spec_segments(),
    {
        self.segments.as_slice()
    }

    /// Bind the value `val` to its range; see [`overlay`]. An empty range
    /// binds nothing.
    pub fn bind(&mut self, val: BoundValue)
        requires
            old(self).wf(),
            old(self).spec_values().len() < usize::MAX,
        ensures
            final(self).wf(),
            val.sta >= val.end ==> final(self).spec_values() == old(self).spec_values()
                && final(self).spec_segments() == old(self).spec_segments(),
            val.sta < val.end ==> final(self).spec_values() == old(self).spec_values().push(val)
                && final(self).spec_segments() == overlay(
                old(self).spec_segments(),
                old(self).spec_values().push(val),
                val.sta,
                val.end,
                old(self).spec_values().len() as usize,
            ),
            // at each position: outside the range nothing changes; inside,
            // the new value is bound, waiting, unless a value that does not
            // hold the range was bound there
            val.sta < val.end ==> forall|p: int| #[trigger] bound_at(final(self).spec_segments(), p) == bound_after(
                bound_at(old(self).spec_segments(), p),
                old(self).spec_values().push(val),
                val.sta,
                val.end,
                old(self).spec_values().len() as usize,
                p,
            ),
    {
        if val.sta >= val.end {
            return;
        }
        let s = val.sta;
        let e = val.end;
        let v = self.values.len();
        self.values.push(val);
        let ghost vals = self.values@;
        let ghost segs = self.segments@;
        let ghost nv: nat = (v + 1) as nat;
        let n = self.segments.len();
        let mut out: Vec<BoundSegment> = Vec::new();
        let mut i: usize = 0;
        while i < n
            invariant
                n == segs.len(),
                segs == self.segments@,
                vals == self.values@,
                vals.len() == v + 1,
                nv == v + 1,
                s < e,
                s == val.sta,
                e == val.end,
                segments_ok(segs, v as nat),
                0 <= i <= n,
                segments_ok(out@, nv),
                out@ == overlay_body(segs.take(i as int), vals, s, e, v),
                out@.len() > 0 ==> out@.last().end <= end_before(segs, i as int, s),
            decreases n - i,
        {
            let seg = self.segments[i];
            let prev = if i == 0 {
                s
            } else {
                self.segments[i - 1].end
            };
            let a = if prev >= s {
                prev
            } else {
                s
            };
            let b = if e <= seg.sta {
                e
            } else {
                seg.sta
            };
            let ghost o0 = out@;
            proof {
                assert(segs.take(i + 1).drop_last() =~= segs.take(i as int));
                assert(segs.take(i + 1)[i as int] == seg);
                assert(end_before(segs.take(i + 1), i as int, s) == end_before(segs, i as int, s));
                if i > 0 {
                    assert(segs[i - 1].end <= seg.sta);
                }
            }
            if a < b {
                push_segment(&mut out, BoundSegment { sta: a, end: b, val: v, queued: true }, Ghost(nv));
            }
            let ghost o1 = out@;
            proof {
                assert(o1 == o0 + gap(larger(s as int, end_before(segs, i as int, s)), smaller(e as int, seg.sta as int), v));
            }
            let within = self.values[seg.val].contains_range(s, e);
            push_split(&mut out, seg, within, s, e, v, Ghost(vals), Ghost(nv));
            proof {
                assert(out@ =~= overlay_body(segs.take(i + 1), vals, s, e, v));
                assert(end_before(segs, i + 1, s) == seg.end);
            }
            i = i + 1;
        }
        let last_end = if n == 0 {
            s
        } else {
            self.segments[n - 1].end
        };
        let a = if last_end >= s {
            last_end
        } else {
            s
        };
        proof {
            assert(segs.take(n as int) =~= segs);
        }
        if a < e {
            push_segment(&mut out, BoundSegment { sta: a, end: e, val: v, queued: true }, Ghost(nv));
        }
        self.segments = out;
        proof {
            assert(self.spec_segments() == overlay(segs, vals, s, e, v));
            assert forall|p: int| #[trigger] bound_at(self.spec_segments(), p) == bound_after(
                bound_at(segs, p),
                vals,
                s,
                e,
                v,
                p,
            ) by {
                assert(segments_ok(segs, vals.len()));
                lemma_bind_overlays(segs, vals, s, e, v, p);
            }
        }
    }
}

/// The value and waiting state of the last segment of `segs` that holds the
/// position `p`, if any; in ordered segments, the one that holds it.
pub open spec fn bound_at(segs: Seq<BoundSegment>, p: int) -> Option<(usize, bool)>
    decreases segs.len(),
{
    if segs.len() == 0 {
        None
    } else if segs.last().sta <= p < segs.last().end {
        Some((segs.last().val, segs.last().queued))
    } else {
        bound_at(segs.drop_last(), p)
    }
}

/// What is bound at `p` after binding the value `v`, of range `s..e`, where
/// `old` was bound before: outside the range nothing changes; inside, `v`,
/// waiting, unless a value that does not hold the range was bound there.
pub open spec fn bound_after(old: Option<(usize, bool)>, vals: Seq<BoundValue>, s: usize, e: usize, v: usize, p: int) -> Option<(usize, bool)> {
    if p < s || e <= p {
        old
    } else {
        match old {
            None => Some((v, true)),
            Some((u, q)) => if range_within(vals[u as int], s, e) {
                Some((v, true))
            } else {
                old
            },
        }
    }
}

proof fn lemma_bound_at_concat(a: Seq<BoundSegment>, b: Seq<BoundSegment>, p: int)
    ensures
        bound_at(a + b, p) == (if bound_at(b, p) is Some {
            bound_at(b, p)
        } else {
            bound_at(a, p)
        }),
    decreases b.len(),
{
    if b.len() == 0 {
        assert(a + b =~= a);
    } else {
        assert((a + b).drop_last() =~= a + b.drop_last());
        assert((a + b).last() == b.last());
        lemma_bound_at_concat(a, b.drop_last(), p);
    }
}

proof fn lemma_bound_at_after(segs: Seq<BoundSegment>, p: int)
    requires
        forall|i: int| 0 <= i < segs.len() ==> (#[trigger] segs[i]).end <= p,
    ensures
        bound_at(segs, p) is None,
    decreases segs.len(),
{
    if segs.len() > 0 {
        assert(segs.last() == segs[segs.len() - 1]);
        lemma_bound_at_after(segs.drop_last(), p);
    }
}

proof fn lemma_bound_at_one(x: BoundSegment, p: int)
    ensures
        bound_at(seq![x], p) == (if x.sta <= p < x.end {
            Some((x.val, x.queued))
        } else {
            None
        }),
{
    let one = seq![x];
    assert(one.len() == 1);
    assert(one.last() == x);
    assert(one.drop_last() =~= Seq::<BoundSegment>::empty());
    assert(bound_at(one.drop_last(), p) is None);
}

proof fn lemma_bound_at_gap(a: int, b: int, v: usize, p: int)
    requires
        0 <= a,
        b <= usize::MAX,
    ensures
        bound_at(gap(a, b, v), p) == (if a <= p < b {
            Some((v, true))
        } else {
            None
        }),
{
    if a < b {
        lemma_bound_at_one(BoundSegment { sta: a as usize, end: b as usize, val: v, queued: true }, p);
    }
}

/// What is bound at `p` in the pieces of one segment.
proof fn lemma_bound_at_split(seg: BoundSegment, vals: Seq<BoundValue>, s: usize, e: usize, v: usize, p: int)
    requires
        seg.sta < seg.end,
        s < e,
    ensures
        bound_at(split(seg, vals, s, e, v), p) == (if seg.sta <= p < seg.end {
            bound_after(Some((seg.val, seg.queued)), vals, s, e, v, p)
        } else {
            None
        }),
{
    if seg.end <= s || e <= seg.sta || !range_within(vals[seg.val as int], s, e) {
        lemma_bound_at_one(seg, p);
    } else {
        let pre: Seq<BoundSegment> = if seg.sta < s {
            seq![BoundSegment { end: s, ..seg }]
        } else {
            Seq::empty()
        };
        let mid = BoundSegment {
            sta: larger(seg.sta as int, s as int) as usize,
            end: smaller(seg.end as int, e as int) as usize,
            val: v,
            queued: true,
        };
        let suf: Seq<BoundSegment> = if e < seg.end {
            seq![BoundSegment { sta: e, ..seg }]
        } else {
            Seq::empty()
        };
        lemma_bound_at_concat(pre + seq![mid], suf, p);
        lemma_bound_at_concat(pre, seq![mid], p);
        lemma_bound_at_one(mid, p);
        if seg.sta < s {
            lemma_bound_at_one(BoundSegment { end: s, ..seg }, p);
        }
        if e < seg.end {
            lemma_bound_at_one(BoundSegment { sta: e, ..seg }, p);
        }
    }
}

/// The segments of `overlay_body` over the first `k` segments: before the
/// end of the segment `k - 1`, what [`bound_after`] gives; after it, nothing.
proof fn lemma_bound_at_body(segs: Seq<BoundSegment>, vals: Seq<BoundValue>, s: usize, e: usize, v: usize, k: int, p: int)
    requires
        segments_ok(segs, vals.len()),
        s < e,
        0 <= k <= segs.len(),
    ensures
        p < end_before(segs, k, s) ==> bound_at(overlay_body(segs.take(k), vals, s, e, v), p) == bound_after(
            bound_at(segs.take(k), p),
            vals,
            s,
            e,
            v,
            p,
        ),
        p >= end_before(segs, k, s) ==> bound_at(overlay_body(segs.take(k), vals, s, e, v), p) is None,
        p >= end_before(segs, k, s) ==> bound_at(segs.take(k), p) is None,
    decreases k,
{
    if k == 0 {
        assert(segs.take(0) =~= Seq::<BoundSegment>::empty());
    } else {
        let t = segs.take(k);
        let seg = segs[k - 1];
        assert(t.drop_last() =~= segs.take(k - 1));
        assert(t.last() == seg);
        assert(end_before(t, k - 1, s) == end_before(segs, k - 1, s));
        lemma_bound_at_body(segs, vals, s, e, v, k - 1, p);
        let body0 = overlay_body(segs.take(k - 1), vals, s, e, v);
        let g = gap(larger(s as int, end_before(segs, k - 1, s)), smaller(e as int, seg.sta as int), v);
        let sp = split(seg, vals, s, e, v);
        assert(overlay_body(t, vals, s, e, v) == body0 + g + sp);
        lemma_bound_at_concat(body0 + g, sp, p);
        lemma_bound_at_concat(body0, g, p);
        lemma_bound_at_gap(larger(s as int, end_before(segs, k - 1, s)), smaller(e as int, seg.sta as int), v, p);
        lemma_bound_at_split(seg, vals, s, e, v, p);
        if k >= 2 {
            assert(segs[k - 2].end <= seg.sta);
            assert(segs[k - 2].sta < segs[k - 2].end);
        }
        assert(end_before(segs, k - 1, s) <= seg.sta || k == 1);
    }
}

/// Binding a value changes what is bound at each position as
/// [`bound_after`] says, and nowhere else.
pub proof fn lemma_bind_overlays(segs: Seq<BoundSegment>, vals: Seq<BoundValue>, s: usize, e: usize, v: usize, p: int)
    requires
        segments_ok(segs, vals.len()),
        s < e,
    ensures
        bound_at(overlay(segs, vals, s, e, v), p) == bound_after(bound_at(segs, p), vals, s, e, v, p),
{
    let n = segs.len() as int;
    lemma_bound_at_body(segs, vals, s, e, v, n, p);
    assert(segs.take(n) =~= segs);
    let last = larger(s as int, end_before(segs, n, s));
    lemma_bound_at_concat(overlay_body(segs, vals, s, e, v), gap(last, e as int, v), p);
    lemma_bound_at_gap(last, e as int, v, p);
}

} // verus!
