//! Operational-transform reconciliation of concurrent deltas, and position
//! mapping through a delta's edits.
//!
//! `a.transform(b, priority)` produces the delta to apply after `a` so that
//! both concurrent edits take effect.  `priority` breaks the tie when both
//! sides insert at one position: with it set, `a`'s insert counts as first
//! and `b`'s content is shifted behind it.

use vstd::prelude::*;

use crate::attrs::AttrEntryV;
use crate::attrs::AttrMap;
use crate::attrs::lemma_transform_attrs_wf;
use crate::attrs::transform_attr_maps;
use crate::attrs::transform_attrs_s;
use crate::ops::Delta;
use crate::ops::DeltaOps;
use crate::ops::OpV;
use crate::ops::canon;
use crate::ops::canonical;
use crate::ops::lemma_canonical_drop_last;
use crate::ops::lemma_units_props;
use crate::ops::op_attrs_wf;
use crate::ops::op_len;
use crate::ops::push_op;
use crate::ops::push_seq;
use crate::ops::push_to;
use crate::ops::total_len_s;
use crate::ops::units_s;

verus! {

/// The smaller of two integers.
pub open spec fn min_i(a: int, b: int) -> int {
    if a < b {
        a
    } else {
        b
    }
}

/// Transformation of two unit-level operation sequences derived from one
/// base document.
pub open spec fn transform_units_s(a: Seq<OpV>, b: Seq<OpV>, priority: bool) -> Seq<OpV>
    decreases a.len() + b.len(),
{
    if b.len() == 0 {
        Seq::empty()
    } else if a.len() > 0 && (a[0] is InsertV || a[0] is InsertEmbedV) && (priority || !(b[0]
        is InsertV || b[0] is InsertEmbedV)) {
        seq![OpV::RetainV(1, Seq::empty())] + transform_units_s(a.drop_first(), b, priority)
    } else if b[0] is InsertV || b[0] is InsertEmbedV {
        seq![b[0]] + transform_units_s(a, b.drop_first(), priority)
    } else if a.len() == 0 {
        b
    } else {
        let rest = transform_units_s(a.drop_first(), b.drop_first(), priority);
        match (a[0], b[0]) {
            (OpV::DeleteV(_), _) => rest,
            (OpV::RetainV(_, _), OpV::DeleteV(_)) => seq![OpV::DeleteV(1)] + rest,
            (OpV::RetainV(_, aa), OpV::RetainV(_, ba)) => seq![
                OpV::RetainV(1, transform_attrs_s(aa, ba, priority)),
            ] + rest,
            _ => rest,
        }
    }
}

/// Transforming against nothing emits the other side as it stands.
pub proof fn lemma_transform_a_empty(b: Seq<OpV>, priority: bool)
    ensures
        transform_units_s(Seq::empty(), b, priority) == b,
    decreases b.len(),
{
    let a = Seq::<OpV>::empty();
    if b.len() > 0 && (b[0] is InsertV || b[0] is InsertEmbedV) {
        lemma_transform_a_empty(b.drop_first(), priority);
        assert(transform_units_s(a, b, priority) == seq![b[0]] + b.drop_first());
        assert(seq![b[0]] + b.drop_first() =~= b);
    }
}

/// A trailing pure retain (no attributes) is dropped: it carries no edit.
pub open spec fn chop_s(ops: Seq<OpV>) -> Seq<OpV> {
    if ops.len() == 0 {
        ops
    } else {
        match ops.last() {
            OpV::RetainV(_, a) => if a.len() == 0 {
                ops.drop_last()
            } else {
                ops
            },
            _ => ops,
        }
    }
}

/// Drop a trailing attribute-less retain from an operation vector.
pub(crate) fn chop_ops(ops: &mut Vec<DeltaOps>)
    requires
        canonical(old(ops).deep_view()),
    ensures
        final(ops).deep_view() == chop_s(old(ops).deep_view()),
        canonical(final(ops).deep_view()),
{
    let ghost ops0 = ops.deep_view();
    let n = ops.len();
    if n == 0 {
        return;
    }
    proof {
        assert(ops0[n - 1] == ops0.last());
    }
    let drop = match &ops[n - 1] {
        DeltaOps::Retain(_, a) => a.is_empty(),
        _ => false,
    };
    if drop {
        ops.pop().unwrap();
        proof {
            assert(ops.deep_view() =~= ops0.drop_last());
            lemma_canonical_drop_last(ops0);
        }
    }
}

impl Delta {
    /// The delta that, applied after this one, carries out `other`'s
    /// concurrent edit.  With `priority`, this delta's inserts at a shared
    /// position count as first.
    pub fn transform(&self, other: &Delta, priority: bool) -> (r: Delta)
        requires
            self.wf(),
            other.wf(),
            total_len_s(self@) + total_len_s(other@) <= usize::MAX as int,
        ensures
            r@ == chop_s(canon(transform_units_s(units_s(self@), units_s(other@), priority))),
            r.wf(),
    {
        let ua = self.to_units();
        let ub = other.to_units();
        let ghost uav = units_s(self@);
        let ghost ubv = units_s(other@);
        proof {
            lemma_units_props(self@);
            lemma_units_props(other@);
        }
        let na = ua.len();
        let nb = ub.len();
        let mut out: Vec<DeltaOps> = Vec::new();
        let mut ai: usize = 0;
        let mut bi: usize = 0;
        proof {
            assert(uav.skip(0) =~= uav);
            assert(ubv.skip(0) =~= ubv);
            assert(out.deep_view() =~= Seq::<OpV>::empty());
        }
        while bi < nb
            invariant
                na == ua.len(),
                nb == ub.len(),
                ua.deep_view() == uav,
                ub.deep_view() == ubv,
                na + nb <= usize::MAX as int,
                forall|j: int|
                    0 <= j < uav.len() ==> op_len(#[trigger] uav[j]) == 1 && op_attrs_wf(uav[j]),
                forall|j: int|
                    0 <= j < ubv.len() ==> op_len(#[trigger] ubv[j]) == 1 && op_attrs_wf(ubv[j]),
                ai <= na,
                bi <= nb,
                canonical(out.deep_view()),
                total_len_s(out.deep_view()) <= ai + bi,
                push_seq(Seq::empty(), transform_units_s(uav, ubv, priority)) == push_seq(
                    out.deep_view(),
                    transform_units_s(uav.skip(ai as int), ubv.skip(bi as int), priority),
                ),
            decreases (na - ai) + (nb - bi),
        {
            let ghost ra = uav.skip(ai as int);
            let ghost rb = ubv.skip(bi as int);
            proof {
                if ai < na {
                    assert(ra[0] == uav[ai as int]);
                    assert(ra.drop_first() =~= uav.skip(ai as int + 1));
                }
                assert(rb[0] == ubv[bi as int]);
                assert(rb.drop_first() =~= ubv.skip(bi as int + 1));
            }
            let a_is_insert: bool = if ai < na {
                match &ua[ai] {
                    DeltaOps::Insert(_, _) => true,
                    DeltaOps::InsertEmbed(_, _) => true,
                    _ => false,
                }
            } else {
                false
            };
            let b_is_insert: bool = match &ub[bi] {
                DeltaOps::Insert(_, _) => true,
                DeltaOps::InsertEmbed(_, _) => true,
                _ => false,
            };
            if a_is_insert && (priority || !b_is_insert) {
                let u = DeltaOps::Retain(1, AttrMap::new());
                proof {
                    assert(u@ == OpV::RetainV(1, Seq::<AttrEntryV>::empty()));
                    assert(transform_units_s(ra, rb, priority) == seq![u@]
                        + transform_units_s(uav.skip(ai as int + 1), rb, priority));
                    assert((seq![u@] + transform_units_s(uav.skip(ai as int + 1), rb, priority))[0]
                        == u@);
                    assert((seq![u@] + transform_units_s(
                        uav.skip(ai as int + 1),
                        rb,
                        priority,
                    )).drop_first() =~= transform_units_s(uav.skip(ai as int + 1), rb, priority));
                }
                push_to(&mut out, u);
                ai += 1;
            } else if b_is_insert {
                proof {
                    assert(transform_units_s(ra, rb, priority) == seq![rb[0]]
                        + transform_units_s(ra, ubv.skip(bi as int + 1), priority));
                    assert((seq![rb[0]] + transform_units_s(
                        ra,
                        ubv.skip(bi as int + 1),
                        priority,
                    ))[0] == rb[0]);
                    assert((seq![rb[0]] + transform_units_s(
                        ra,
                        ubv.skip(bi as int + 1),
                        priority,
                    )).drop_first() =~= transform_units_s(ra, ubv.skip(bi as int + 1), priority));
                }
                push_to(&mut out, ub[bi].clone());
                bi += 1;
            } else if ai >= na {
                proof {
                    assert(ra =~= Seq::<OpV>::empty());
                    assert(uav.skip(ai as int) =~= Seq::<OpV>::empty());
                    assert(transform_units_s(ra, rb, priority) == rb);
                    lemma_transform_a_empty(ubv.skip(bi as int + 1), priority);
                    assert(rb.drop_first() =~= transform_units_s(
                        uav.skip(ai as int),
                        ubv.skip(bi as int + 1),
                        priority,
                    ));
                }
                push_to(&mut out, ub[bi].clone());
                bi += 1;
            } else {
                let ghost rest = transform_units_s(
                    uav.skip(ai as int + 1),
                    ubv.skip(bi as int + 1),
                    priority,
                );
                match (&ua[ai], &ub[bi]) {
                    (DeltaOps::Delete(_), _) => {
                        proof {
                            assert(transform_units_s(ra, rb, priority) == rest);
                        }
                    },
                    (DeltaOps::Retain(_, _), DeltaOps::Delete(_)) => {
                        let u = DeltaOps::Delete(1);
                        proof {
                            assert(transform_units_s(ra, rb, priority) == seq![u@] + rest);
                            assert((seq![u@] + rest)[0] == u@);
                            assert((seq![u@] + rest).drop_first() =~= rest);
                        }
                        push_to(&mut out, u);
                    },
                    (DeltaOps::Retain(_, aa), DeltaOps::Retain(_, ba)) => {
                        let u = DeltaOps::Retain(1, transform_attr_maps(aa, ba, priority));
                        proof {
                            lemma_transform_attrs_wf(aa@, ba@, priority);
                            assert(transform_units_s(ra, rb, priority) == seq![u@] + rest);
                            assert((seq![u@] + rest)[0] == u@);
                            assert((seq![u@] + rest).drop_first() =~= rest);
                        }
                        push_to(&mut out, u);
                    },
                    _ => {
                        proof {
                            assert(false);
                        }
                    },
                }
                ai += 1;
                bi += 1;
            }
        }
        proof {
            assert(ubv.skip(nb as int) =~= Seq::<OpV>::empty());
            assert(transform_units_s(uav.skip(ai as int), Seq::empty(), priority)
                == Seq::<OpV>::empty());
            assert(push_seq(out.deep_view(), Seq::<OpV>::empty()) == out.deep_view());
        }
        chop_ops(&mut out);
        Delta { ops: out }
    }
}

// ---------------------------------------------------------------------------
// Position mapping
// ---------------------------------------------------------------------------

/// Mapping of a document offset through a delta's edits, operation by
/// operation.  Deletes before the position pull it left (never past the
/// deletion point); inserts before it push it right; an insert exactly at
/// the position pushes it right only when `priority` does not favor it
/// staying put.
pub open spec fn tp_s(ops: Seq<OpV>, offset: int, index: int, priority: bool) -> int
    decreases ops.len(),
{
    if ops.len() == 0 || offset > index {
        index
    } else {
        let l = op_len(ops[0]);
        match ops[0] {
            OpV::DeleteV(n) => tp_s(
                ops.drop_first(),
                offset,
                index - min_i(n, index - offset),
                priority,
            ),
            OpV::RetainV(_, _) => tp_s(ops.drop_first(), offset + l, index, priority),
            _ => {
                if offset < index || !priority {
                    tp_s(ops.drop_first(), offset + l, index + l, priority)
                } else {
                    tp_s(ops.drop_first(), offset + l, index, priority)
                }
            },
        }
    }
}

impl Delta {
    /// Map a document offset through this delta's edits (see `tp_s`).
    pub fn transform_position(&self, index: usize, priority: bool) -> (r: usize)
        requires
            self.wf(),
            index + total_len_s(self@) <= usize::MAX as int,
        ensures
            r == tp_s(self@, 0, index as int, priority),
    {
        let ghost ops = self@;
        let n = self.ops.len();
        let mut i: usize = 0;
        let mut offset: usize = 0;
        let mut index = index;
        let ghost index0 = index as int;
        proof {
            assert(ops.skip(0) =~= ops);
            assert(total_len_s(ops.subrange(0, 0)) == 0);
            assert(forall|j: int| 0 <= j < ops.len() ==> op_len(#[trigger] ops[j]) >= 0);
            crate::ops::lemma_total_nonneg(ops);
        }
        while i < n && offset <= index
            invariant
                n == self.ops.len(),
                ops == self@,
                self.wf(),
                i <= n,
                index0 + total_len_s(ops) <= usize::MAX as int,
                index as int <= index0 + total_len_s(ops.subrange(0, i as int)),
                offset as int <= index0 + total_len_s(ops.subrange(0, i as int)),
                total_len_s(ops.subrange(0, i as int)) <= total_len_s(ops),
                tp_s(ops, 0, index0, priority) == tp_s(
                    ops.skip(i as int),
                    offset as int,
                    index as int,
                    priority,
                ),
            decreases n - i,
        {
            let ghost rops = ops.skip(i as int);
            proof {
                assert(rops[0] == ops[i as int]);
                assert(rops.drop_first() =~= ops.skip(i as int + 1));
                assert(ops.subrange(0, i as int + 1).drop_last() =~= ops.subrange(0, i as int));
                assert(ops.subrange(0, i as int + 1).last() == ops[i as int]);
                crate::ops::lemma_total_prefix(ops, i as int + 1);
            }
            match &self.ops[i] {
                DeltaOps::Delete(k) => {
                    let gap = index - offset;
                    let d = if *k < gap {
                        *k
                    } else {
                        gap
                    };
                    index -= d;
                },
                DeltaOps::Retain(k, _) => {
                    offset += *k;
                },
                DeltaOps::Insert(t, _) => {
                    let l = t.as_str().unicode_len();
                    if offset < index || !priority {
                        index += l;
                    }
                    offset += l;
                },
                DeltaOps::InsertEmbed(_, _) => {
                    if offset < index || !priority {
                        index += 1;
                    }
                    offset += 1;
                },
            }
            i += 1;
        }
        proof {
            if i == n {
                assert(ops.skip(n as int) =~= Seq::<OpV>::empty());
            }
        }
        index
    }
}

/// Mapping never lands below the smaller of the position and the point
/// reached so far.
proof fn lemma_tp_lower(ops: Seq<OpV>, offset: int, index: int, priority: bool)
    requires
        forall|i: int| 0 <= i < ops.len() ==> op_len(#[trigger] ops[i]) >= 0,
    ensures
        tp_s(ops, offset, index, priority) >= min_i(index, offset),
    decreases ops.len(),
{
    if ops.len() == 0 || offset > index {
    } else {
        assert(forall|i: int|
            0 <= i < ops.drop_first().len() ==> #[trigger] ops.drop_first()[i] == ops[i + 1]);
        let l = op_len(ops[0]);
        match ops[0] {
            OpV::DeleteV(n) => {
                lemma_tp_lower(ops.drop_first(), offset, index - min_i(n, index - offset), priority);
            },
            OpV::RetainV(_, _) => {
                lemma_tp_lower(ops.drop_first(), offset + l, index, priority);
            },
            _ => {
                if offset < index || !priority {
                    lemma_tp_lower(ops.drop_first(), offset + l, index + l, priority);
                } else {
                    lemma_tp_lower(ops.drop_first(), offset + l, index, priority);
                }
            },
        }
    }
}

/// Position mapping is monotonic: a position at or after another never maps
/// to an earlier point than the other's image.
pub proof fn lemma_transform_position_monotonic(
    ops: Seq<OpV>,
    index1: int,
    index2: int,
    priority: bool,
)
    requires
        forall|i: int| 0 <= i < ops.len() ==> op_len(#[trigger] ops[i]) >= 0,
        index1 <= index2,
    ensures
        tp_s(ops, 0, index1, priority) <= tp_s(ops, 0, index2, priority),
{
    lemma_tp_mono_rec(ops, 0, index1, index2, priority);
}

/// The inductive core of monotonicity, generalized over the cursor offset.
proof fn lemma_tp_mono_rec(ops: Seq<OpV>, offset: int, index1: int, index2: int, priority: bool)
    requires
        forall|i: int| 0 <= i < ops.len() ==> op_len(#[trigger] ops[i]) >= 0,
        index1 <= index2,
    ensures
        tp_s(ops, offset, index1, priority) <= tp_s(ops, offset, index2, priority),
    decreases ops.len(),
{
    if ops.len() == 0 {
    } else if offset > index1 {
        // the first position exits untouched; the second never maps below it
        lemma_tp_lower(ops, offset, index2, priority);
    } else {
        assert(forall|i: int|
            0 <= i < ops.drop_first().len() ==> #[trigger] ops.drop_first()[i] == ops[i + 1]);
        let l = op_len(ops[0]);
        match ops[0] {
            OpV::DeleteV(n) => {
                lemma_tp_mono_rec(
                    ops.drop_first(),
                    offset,
                    index1 - min_i(n, index1 - offset),
                    index2 - min_i(n, index2 - offset),
                    priority,
                );
            },
            OpV::RetainV(_, _) => {
                lemma_tp_mono_rec(ops.drop_first(), offset + l, index1, index2, priority);
            },
            _ => {
                if offset < index1 || !priority {
                    lemma_tp_mono_rec(
                        ops.drop_first(),
                        offset + l,
                        index1 + l,
                        index2 + l,
                        priority,
                    );
                } else if offset < index2 || !priority {
                    lemma_tp_mono_rec(ops.drop_first(), offset + l, index1, index2 + l, priority);
                } else {
                    lemma_tp_mono_rec(ops.drop_first(), offset + l, index1, index2, priority);
                }
            },
        }
    }
}

} // verus!
