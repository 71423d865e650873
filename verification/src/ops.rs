//! The delta operation model: insert / delete / retain operations and the
//! `Delta` sequence with its canonicalizing builders.
//!
//! A delta is kept in canonical form: no zero-length operation, adjacent
//! operations of the same kind with identical attributes are merged, and an
//! insert directly after a delete is reordered in front of it (the two orders
//! edit a document identically, so one is fixed as canonical).

use vstd::prelude::*;

use crate::attrs::AttrEntry;
use crate::attrs::AttrEntryV;
use crate::attrs::AttrMap;
use crate::attrs::attr_maps_equal;
use crate::attrs::drop_nulls_s;
use crate::attrs::lemma_drop_nulls_props;
use crate::attrs::lemma_remove_key_unique;
use crate::attrs::no_nulls;
use crate::attrs::set_entry_s;
use crate::attrs::str_eq;
use crate::attrs::unique_keys;
use crate::vocab::Embeds;
use crate::vocab::EmbedsV;
use crate::vocab::embeds_eq;

verus! {

// ---------------------------------------------------------------------------
// Model
// ---------------------------------------------------------------------------

/// Model of one delta operation.
pub enum OpV {
    InsertV(Seq<char>, Seq<AttrEntryV>),
    InsertEmbedV(EmbedsV, Seq<AttrEntryV>),
    DeleteV(int),
    RetainV(int, Seq<AttrEntryV>),
}

/// The number of content units an operation covers: characters for a text
/// insert, one for an embed, the stated count for delete and retain.
pub open spec fn op_len(op: OpV) -> int {
    match op {
        OpV::InsertV(s, _) => s.len() as int,
        OpV::InsertEmbedV(_, _) => 1,
        OpV::DeleteV(n) => n,
        OpV::RetainV(n, _) => n,
    }
}

/// Well-formed attributes of one operation: unique keys, and no removal
/// tombstone on inserted content (a tombstone is only meaningful on retain).
pub open spec fn op_attrs_wf(op: OpV) -> bool {
    match op {
        OpV::InsertV(_, a) => unique_keys(a) && no_nulls(a),
        OpV::InsertEmbedV(_, a) => unique_keys(a) && no_nulls(a),
        OpV::DeleteV(_) => true,
        OpV::RetainV(_, a) => unique_keys(a),
    }
}

/// Adjacent operations that canonicalization would combine or reorder.
pub open spec fn mergeable(x: OpV, y: OpV) -> bool {
    match (x, y) {
        (OpV::DeleteV(_), OpV::DeleteV(_)) => true,
        (OpV::DeleteV(_), OpV::InsertV(_, _)) => true,
        (OpV::DeleteV(_), OpV::InsertEmbedV(_, _)) => true,
        (OpV::InsertV(_, a1), OpV::InsertV(_, a2)) => a1 == a2,
        (OpV::RetainV(_, a1), OpV::RetainV(_, a2)) => a1 == a2,
        _ => false,
    }
}

/// Canonical form: every operation is non-empty and well-formed, and no two
/// adjacent operations could be merged or reordered.
pub open spec fn canonical(ops: Seq<OpV>) -> bool {
    &&& forall|i: int|
        0 <= i < ops.len() ==> op_len(#[trigger] ops[i]) > 0 && op_attrs_wf(ops[i])
    &&& forall|i: int| 0 <= i < ops.len() - 1 ==> !mergeable(#[trigger] ops[i], ops[i + 1])
}

/// The total number of content units covered by a delta.
pub open spec fn total_len_s(ops: Seq<OpV>) -> int
    decreases ops.len(),
{
    if ops.len() == 0 {
        0
    } else {
        total_len_s(ops.drop_last()) + op_len(ops.last())
    }
}

/// Canonicalizing push of one operation onto the end of an operation
/// sequence: empty operations vanish, like kinds with identical attributes
/// merge, and an insert pushed after a delete steps in front of it.
pub open spec fn push_op(ops: Seq<OpV>, op: OpV) -> Seq<OpV>
    decreases ops.len(),
{
    if op_len(op) <= 0 {
        ops
    } else if ops.len() == 0 {
        seq![op]
    } else {
        match (ops.last(), op) {
            (OpV::DeleteV(m), OpV::DeleteV(n)) => ops.drop_last().push(OpV::DeleteV(m + n)),
            (OpV::DeleteV(m), OpV::InsertV(s, a)) => push_op(
                ops.drop_last(),
                OpV::InsertV(s, a),
            ).push(OpV::DeleteV(m)),
            (OpV::DeleteV(m), OpV::InsertEmbedV(e, a)) => push_op(
                ops.drop_last(),
                OpV::InsertEmbedV(e, a),
            ).push(OpV::DeleteV(m)),
            (OpV::InsertV(s1, a1), OpV::InsertV(s2, a2)) => if a1 == a2 {
                ops.drop_last().push(OpV::InsertV(s1 + s2, a1))
            } else {
                ops.push(op)
            },
            (OpV::RetainV(n1, a1), OpV::RetainV(n2, a2)) => if a1 == a2 {
                ops.drop_last().push(OpV::RetainV(n1 + n2, a1))
            } else {
                ops.push(op)
            },
            _ => ops.push(op),
        }
    }
}

/// Push a whole sequence, one operation at a time.
pub open spec fn push_seq(acc: Seq<OpV>, ops: Seq<OpV>) -> Seq<OpV>
    decreases ops.len(),
{
    if ops.len() == 0 {
        acc
    } else {
        push_seq(push_op(acc, ops[0]), ops.drop_first())
    }
}

/// Canonicalization of an arbitrary operation sequence.
pub open spec fn canon(ops: Seq<OpV>) -> Seq<OpV> {
    push_seq(Seq::empty(), ops)
}

/// One operation split into unit-length operations.
pub open spec fn op_units(op: OpV) -> Seq<OpV> {
    match op {
        OpV::InsertV(s, a) => Seq::new(s.len(), |i: int| OpV::InsertV(seq![s[i]], a)),
        OpV::InsertEmbedV(e, a) => seq![OpV::InsertEmbedV(e, a)],
        OpV::DeleteV(n) => if n <= 0 {
            Seq::empty()
        } else {
            Seq::new(n as nat, |i: int| OpV::DeleteV(1))
        },
        OpV::RetainV(n, a) => if n <= 0 {
            Seq::empty()
        } else {
            Seq::new(n as nat, |i: int| OpV::RetainV(1, a))
        },
    }
}

/// A delta flattened into unit-length operations.
pub open spec fn units_s(ops: Seq<OpV>) -> Seq<OpV>
    decreases ops.len(),
{
    if ops.len() == 0 {
        Seq::empty()
    } else {
        units_s(ops.drop_last()) + op_units(ops.last())
    }
}

// ---------------------------------------------------------------------------
// Lemmas about canonical push
// ---------------------------------------------------------------------------

/// A prefix of a canonical sequence is canonical.
pub proof fn lemma_canonical_drop_last(ops: Seq<OpV>)
    requires
        canonical(ops),
        ops.len() > 0,
    ensures
        canonical(ops.drop_last()),
{
    assert(forall|i: int|
        0 <= i < ops.drop_last().len() ==> #[trigger] ops.drop_last()[i] == ops[i]);
}

/// Total length is non-negative when every operation is.
pub proof fn lemma_total_nonneg(ops: Seq<OpV>)
    requires
        forall|i: int| 0 <= i < ops.len() ==> op_len(#[trigger] ops[i]) >= 0,
    ensures
        total_len_s(ops) >= 0,
        ops.len() > 0 ==> op_len(ops.last()) <= total_len_s(ops),
    decreases ops.len(),
{
    if ops.len() > 0 {
        assert(forall|i: int|
            0 <= i < ops.drop_last().len() ==> #[trigger] ops.drop_last()[i] == ops[i]);
        lemma_total_nonneg(ops.drop_last());
        assert(ops[ops.len() - 1] == ops.last());
    }
}

/// Canonical push keeps the sequence canonical; the pushed operation's
/// merge class survives as the last element (unless it slid in front of a
/// trailing delete).
pub proof fn lemma_push_op_canonical(ops: Seq<OpV>, op: OpV)
    requires
        canonical(ops),
        op_attrs_wf(op),
    ensures
        canonical(push_op(ops, op)),
        op_len(op) > 0 && !(ops.len() > 0 && ops.last() is DeleteV) ==> {
            let r = push_op(ops, op);
            r.len() > 0 && mergeable_class_eq(r.last(), op)
        },
        op_len(op) <= 0 ==> push_op(ops, op) == ops,
        total_len_s(push_op(ops, op)) == total_len_s(ops) + if op_len(op) > 0 {
            op_len(op)
        } else {
            0
        },
    decreases ops.len(),
{
    let r = push_op(ops, op);
    if op_len(op) <= 0 {
    } else if ops.len() == 0 {
        assert(r.drop_last() =~= Seq::<OpV>::empty());
        assert(r.last() == op);
        assert(total_len_s(Seq::<OpV>::empty()) == 0);
        assert(total_len_s(r) == op_len(op));
    } else {
        lemma_canonical_drop_last(ops);
        let pre = ops.drop_last();
        assert(ops[ops.len() - 1] == ops.last());
        assert(forall|i: int| 0 <= i < pre.len() ==> #[trigger] pre[i] == ops[i]);
        if ops.len() >= 2 {
            assert(!mergeable(ops[ops.len() - 2], ops[ops.len() - 1]));
        }
        match (ops.last(), op) {
            (OpV::DeleteV(m), OpV::DeleteV(n)) => {
                let merged = OpV::DeleteV(m + n);
                assert(r == pre.push(merged));
                lemma_push_end_canonical(pre, merged, ops.last());
                assert(total_len_s(r) == total_len_s(pre) + m + n) by {
                    assert(r.drop_last() =~= pre);
                }
            },
            (OpV::DeleteV(m), OpV::InsertV(_, _)) | (OpV::DeleteV(m), OpV::InsertEmbedV(_, _)) => {
                lemma_push_op_canonical(pre, op);
                let inner = push_op(pre, op);
                assert(r == inner.push(OpV::DeleteV(m)));
                // the prefix cannot end in a delete, so the inner push ends
                // in the insert's merge class and never merges with a delete
                assert(!(pre.len() > 0 && pre.last() is DeleteV)) by {
                    if pre.len() > 0 {
                        assert(pre[pre.len() - 1] == ops[ops.len() - 2]);
                    }
                }
                assert(inner.len() > 0 && mergeable_class_eq(inner.last(), op));
                assert(!mergeable(inner.last(), OpV::DeleteV(m)));
                assert(canonical(r)) by {
                    assert(forall|i: int|
                        0 <= i < inner.len() ==> #[trigger] r[i] == inner[i]);
                    assert(r[r.len() - 1] == OpV::DeleteV(m));
                }
                assert(total_len_s(r) == total_len_s(inner) + m) by {
                    assert(r.drop_last() =~= inner);
                }
            },
            (OpV::InsertV(s1, a1), OpV::InsertV(s2, a2)) => {
                if a1 == a2 {
                    let merged = OpV::InsertV(s1 + s2, a1);
                    assert(r == pre.push(merged));
                    lemma_push_end_canonical(pre, merged, ops.last());
                    assert(total_len_s(r) == total_len_s(pre) + s1.len() + s2.len()) by {
                        assert(r.drop_last() =~= pre);
                    }
                } else {
                    assert(r == ops.push(op));
                    lemma_push_end_canonical(ops, op, op);
                    assert(total_len_s(r) == total_len_s(ops) + op_len(op)) by {
                        assert(r.drop_last() =~= ops);
                    }
                }
            },
            (OpV::RetainV(n1, a1), OpV::RetainV(n2, a2)) => {
                if a1 == a2 {
                    let merged = OpV::RetainV(n1 + n2, a1);
                    assert(r == pre.push(merged));
                    lemma_push_end_canonical(pre, merged, ops.last());
                    assert(total_len_s(r) == total_len_s(pre) + n1 + n2) by {
                        assert(r.drop_last() =~= pre);
                    }
                } else {
                    assert(r == ops.push(op));
                    lemma_push_end_canonical(ops, op, op);
                    assert(total_len_s(r) == total_len_s(ops) + op_len(op)) by {
                        assert(r.drop_last() =~= ops);
                    }
                }
            },
            _ => {
                assert(r == ops.push(op));
                assert(!mergeable(ops.last(), op));
                lemma_push_end_canonical(ops, op, op);
                assert(total_len_s(r) == total_len_s(ops) + op_len(op)) by {
                    assert(r.drop_last() =~= ops);
                }
            },
        }
    }
}

/// The two operations fall into the same merge class: merging or reordering
/// against either behaves identically.
pub open spec fn mergeable_class_eq(x: OpV, y: OpV) -> bool {
    match (x, y) {
        (OpV::InsertV(_, a1), OpV::InsertV(_, a2)) => a1 == a2,
        (OpV::InsertEmbedV(_, a1), OpV::InsertEmbedV(_, a2)) => true,
        (OpV::DeleteV(_), OpV::DeleteV(_)) => true,
        (OpV::RetainV(_, a1), OpV::RetainV(_, a2)) => a1 == a2,
        _ => false,
    }
}

/// Appending one non-empty, well-formed operation that does not merge with
/// the preceding sequence's last element keeps the sequence canonical.
/// `like` is an operation of the appended operation's merge class that the
/// sequence's last element is known not to merge with.
proof fn lemma_push_end_canonical(pre: Seq<OpV>, merged: OpV, like: OpV)
    requires
        canonical(pre),
        op_len(merged) > 0,
        op_attrs_wf(merged),
        mergeable_class_eq(merged, like) || pre.len() == 0,
        pre.len() > 0 ==> !mergeable(pre.last(), like),
    ensures
        canonical(pre.push(merged)),
        pre.push(merged).len() > 0,
        pre.push(merged).last() == merged,
{
    let r = pre.push(merged);
    assert(forall|i: int| 0 <= i < pre.len() ==> #[trigger] r[i] == pre[i]);
    assert(r[r.len() - 1] == merged);
    if pre.len() > 0 {
        assert(pre[pre.len() - 1] == pre.last());
        assert(!mergeable(pre.last(), merged));
    }
}

// ---------------------------------------------------------------------------
// Executable operations
// ---------------------------------------------------------------------------

/// One delta operation.
pub enum DeltaOps {
    /// Insert the given text, formatted with the given attributes.
    Insert(String, AttrMap),
    /// Insert one embedded content unit with its attributes.
    InsertEmbed(Embeds, AttrMap),
    /// Delete this many content units at the cursor.
    Delete(usize),
    /// Keep this many content units, optionally re-formatting them.
    Retain(usize, AttrMap),
}

impl View for DeltaOps {
    type V = OpV;

    open spec fn view(&self) -> OpV {
        match self {
            DeltaOps::Insert(t, a) => OpV::InsertV(t@, a@),
            DeltaOps::InsertEmbed(e, a) => OpV::InsertEmbedV(e@, a@),
            DeltaOps::Delete(n) => OpV::DeleteV(*n as int),
            DeltaOps::Retain(n, a) => OpV::RetainV(*n as int, a@),
        }
    }
}

impl DeepView for DeltaOps {
    type V = OpV;

    open spec fn deep_view(&self) -> OpV {
        self.view()
    }
}

impl Clone for DeltaOps {
    fn clone(&self) -> (r: Self)
        ensures
            r@ == self@,
    {
        match self {
            DeltaOps::Insert(t, a) => DeltaOps::Insert(t.clone(), a.clone()),
            DeltaOps::InsertEmbed(e, a) => DeltaOps::InsertEmbed(e.clone(), a.clone()),
            DeltaOps::Delete(n) => DeltaOps::Delete(*n),
            DeltaOps::Retain(n, a) => DeltaOps::Retain(*n, a.clone()),
        }
    }
}

/// Canonicalizing push of one operation onto an operation vector.
pub(crate) fn push_to(ops: &mut Vec<DeltaOps>, op: DeltaOps)
    requires
        canonical(old(ops).deep_view()),
        op_attrs_wf(op@),
        total_len_s(old(ops).deep_view()) + op_len(op@) <= usize::MAX as int,
    ensures
        final(ops).deep_view() == push_op(old(ops).deep_view(), op@),
        canonical(final(ops).deep_view()),
        total_len_s(final(ops).deep_view()) <= total_len_s(old(ops).deep_view()) + op_len(op@),
{
    let ghost ops0 = ops.deep_view();
    let ghost opv = op@;
    proof {
        lemma_push_op_canonical(ops0, opv);
    }
    let empty_op = match &op {
        DeltaOps::Insert(t, _) => t.as_str().is_empty(),
        DeltaOps::InsertEmbed(_, _) => false,
        DeltaOps::Delete(n) => *n == 0,
        DeltaOps::Retain(n, _) => *n == 0,
    };
    if empty_op {
        return;
    }
    let n = ops.len();
    if n == 0 {
        ops.push(op);
        proof {
            assert(ops.deep_view() =~= push_op(ops0, op@));
        }
        return;
    }
    proof {
        assert(ops0[n - 1] == ops0.last());
        lemma_total_nonneg(ops0);
        lemma_canonical_drop_last(ops0);
        lemma_total_nonneg(ops0.drop_last());
    }
    let action: u8 = match (&ops[n - 1], &op) {
        (DeltaOps::Delete(_), DeltaOps::Delete(_)) => 1,
        (DeltaOps::Delete(_), DeltaOps::Insert(_, _)) => 2,
        (DeltaOps::Delete(_), DeltaOps::InsertEmbed(_, _)) => 2,
        (DeltaOps::Insert(_, a1), DeltaOps::Insert(_, a2)) => {
            if attr_maps_equal(a1, a2) {
                3
            } else {
                0
            }
        },
        (DeltaOps::Retain(_, a1), DeltaOps::Retain(_, a2)) => {
            if attr_maps_equal(a1, a2) {
                4
            } else {
                0
            }
        },
        _ => 0,
    };
    if action == 1 {
        let last = ops.pop().unwrap();
        proof {
            assert(ops.deep_view() =~= ops0.drop_last());
        }
        match (last, op) {
            (DeltaOps::Delete(m), DeltaOps::Delete(k)) => {
                ops.push(DeltaOps::Delete(m + k));
                proof {
                    assert(ops.deep_view() =~= push_op(ops0, OpV::DeleteV(k as int)));
                }
            },
            _ => {
                proof {
                    assert(false);
                }
            },
        }
    } else if action == 2 {
        // the insert steps in front of the trailing delete
        let last = ops.pop().unwrap();
        proof {
            assert(ops.deep_view() =~= ops0.drop_last());
        }
        let m = ops.len();
        let inner_merge: bool = if m == 0 {
            false
        } else {
            match (&ops[m - 1], &op) {
                (DeltaOps::Insert(_, a1), DeltaOps::Insert(_, a2)) => attr_maps_equal(a1, a2),
                _ => false,
            }
        };
        proof {
            if m > 0 {
                assert(ops.deep_view()[m - 1] == ops.deep_view().last());
            }
        }
        if inner_merge {
            let last2 = ops.pop().unwrap();
            let ghost pre2 = ops.deep_view();
            proof {
                assert(pre2 =~= ops0.drop_last().drop_last());
            }
            match (last2, op) {
                (DeltaOps::Insert(t1, a1), DeltaOps::Insert(t2, _)) => {
                    ops.push(DeltaOps::Insert(t1.concat(t2.as_str()), a1));
                    proof {
                        assert(ops.deep_view() =~= push_op(
                            ops0.drop_last(),
                            OpV::InsertV(t2@, a1@),
                        ));
                    }
                },
                _ => {
                    proof {
                        assert(false);
                    }
                },
            }
        } else {
            ops.push(op);
            proof {
                assert(ops.deep_view().drop_last() =~= ops0.drop_last());
                assert(ops.deep_view() =~= push_op(ops0.drop_last(), opv));
            }
        }
        match last {
            DeltaOps::Delete(m2) => {
                ops.push(DeltaOps::Delete(m2));
                proof {
                    assert(ops.deep_view() =~= push_op(ops0, opv));
                }
            },
            _ => {
                proof {
                    assert(false);
                }
            },
        }
    } else if action == 3 {
        let last = ops.pop().unwrap();
        proof {
            assert(ops.deep_view() =~= ops0.drop_last());
        }
        match (last, op) {
            (DeltaOps::Insert(t1, a1), DeltaOps::Insert(t2, _)) => {
                ops.push(DeltaOps::Insert(t1.concat(t2.as_str()), a1));
                proof {
                    assert(ops.deep_view() =~= push_op(ops0, OpV::InsertV(t2@, a1@)));
                }
            },
            _ => {
                proof {
                    assert(false);
                }
            },
        }
    } else if action == 4 {
        let last = ops.pop().unwrap();
        proof {
            assert(ops.deep_view() =~= ops0.drop_last());
        }
        match (last, op) {
            (DeltaOps::Retain(n1, a1), DeltaOps::Retain(n2, _)) => {
                ops.push(DeltaOps::Retain(n1 + n2, a1));
                proof {
                    assert(ops.deep_view() =~= push_op(ops0, OpV::RetainV(n2 as int, a1@)));
                }
            },
            _ => {
                proof {
                    assert(false);
                }
            },
        }
    } else {
        ops.push(op);
        proof {
            assert(ops.deep_view().drop_last() =~= ops0);
            assert(ops.deep_view() =~= push_op(ops0, opv));
        }
    }
}

/// Equality of delta operations.
pub fn op_eq(a: &DeltaOps, b: &DeltaOps) -> (r: bool)
    ensures
        r == (a@ == b@),
{
    match (a, b) {
        (DeltaOps::Insert(t1, a1), DeltaOps::Insert(t2, a2)) => {
            if str_eq(t1.as_str(), t2.as_str()) {
                attr_maps_equal(a1, a2)
            } else {
                false
            }
        },
        (DeltaOps::InsertEmbed(e1, a1), DeltaOps::InsertEmbed(e2, a2)) => {
            if embeds_eq(e1, e2) {
                attr_maps_equal(a1, a2)
            } else {
                false
            }
        },
        (DeltaOps::Delete(m), DeltaOps::Delete(n)) => m == n,
        (DeltaOps::Retain(m, a1), DeltaOps::Retain(n, a2)) => {
            if m == n {
                attr_maps_equal(a1, a2)
            } else {
                false
            }
        },
        _ => false,
    }
}

/// The key-unique form of an operation's attributes; inserted content also
/// sheds removal tombstones, which carry no meaning on an insert.
pub open spec fn sanitize_op_s(op: OpV) -> OpV {
    match op {
        OpV::InsertV(s, a) => OpV::InsertV(s, drop_nulls_s(crate::attrs::dedup_s(a))),
        OpV::InsertEmbedV(e, a) => OpV::InsertEmbedV(e, drop_nulls_s(crate::attrs::dedup_s(a))),
        OpV::DeleteV(n) => OpV::DeleteV(n),
        OpV::RetainV(n, a) => OpV::RetainV(n, crate::attrs::dedup_s(a)),
    }
}

/// `sanitize_op_s` of every operation in turn.
pub open spec fn sanitize_seq_s(ops: Seq<OpV>) -> Seq<OpV> {
    ops.map_values(|op: OpV| sanitize_op_s(op))
}

/// Sanitizing never changes an operation's length and makes its attributes
/// well-formed.
pub proof fn lemma_sanitize_op(op: OpV)
    ensures
        op_len(sanitize_op_s(op)) == op_len(op),
        op_attrs_wf(sanitize_op_s(op)),
{
    match op {
        OpV::InsertV(s, a) => {
            lemma_dedup_wf(a);
            lemma_drop_nulls_props(crate::attrs::dedup_s(a));
        },
        OpV::InsertEmbedV(e, a) => {
            lemma_dedup_wf(a);
            lemma_drop_nulls_props(crate::attrs::dedup_s(a));
        },
        OpV::DeleteV(_) => {},
        OpV::RetainV(_, a) => {
            lemma_dedup_wf(a);
        },
    }
}

/// Rebuilding a mapping entry by entry yields unique keys.
pub proof fn lemma_dedup_wf(m: Seq<AttrEntryV>)
    ensures
        unique_keys(crate::attrs::dedup_s(m)),
    decreases m.len(),
{
    if m.len() == 0 {
    } else {
        lemma_dedup_wf(m.drop_last());
        lemma_remove_key_unique(crate::attrs::dedup_s(m.drop_last()), m.last().key);
    }
}

/// A structurally invalid operation or record, rejected rather than
/// silently repaired.  Which input fails, and on what ground, is pinned by
/// the contract of each function that returns this error: `Delta::diff`
/// rejects exactly a side that is not insert-only, and `Delta::from_text`
/// rejects exactly a parse failure, leftover input, or a length beyond a
/// machine word.
#[derive(Clone, Copy, PartialEq, Eq, Structural, Debug)]
pub enum DeltaError {
    InvalidOperation,
}

/// The attribute mapping an operation carries (none for a delete).
pub open spec fn op_attrs(op: OpV) -> Seq<AttrEntryV> {
    match op {
        OpV::InsertV(_, a) => a,
        OpV::InsertEmbedV(_, a) => a,
        OpV::DeleteV(_) => Seq::empty(),
        OpV::RetainV(_, a) => a,
    }
}

/// A sequence of unit operations covers as many content units as it has
/// elements.
pub proof fn lemma_total_units(ops: Seq<OpV>)
    requires
        forall|i: int| 0 <= i < ops.len() ==> op_len(#[trigger] ops[i]) == 1,
    ensures
        total_len_s(ops) == ops.len(),
    decreases ops.len(),
{
    if ops.len() > 0 {
        assert(forall|i: int|
            0 <= i < ops.drop_last().len() ==> #[trigger] ops.drop_last()[i] == ops[i]);
        lemma_total_units(ops.drop_last());
        assert(ops[ops.len() - 1] == ops.last());
    }
}

/// Canonicalize a vector of well-formed operations.
pub(crate) fn canonize(src: Vec<DeltaOps>) -> (r: Vec<DeltaOps>)
    requires
        forall|j: int|
            0 <= j < src.deep_view().len() ==> op_attrs_wf(#[trigger] src.deep_view()[j]),
        total_len_s(src.deep_view()) <= usize::MAX as int,
    ensures
        r.deep_view() == canon(src.deep_view()),
        canonical(r.deep_view()),
        total_len_s(r.deep_view()) <= total_len_s(src.deep_view()),
{
    let ghost sv = src.deep_view();
    let mut acc: Vec<DeltaOps> = Vec::new();
    let n = src.len();
    let mut i: usize = 0;
    proof {
        assert(acc.deep_view() =~= Seq::<OpV>::empty());
        assert(sv.skip(0) =~= sv);
        assert(forall|j: int| 0 <= j < sv.len() ==> op_len(#[trigger] sv[j]) >= 0);
    }
    while i < n
        invariant
            n == src.len(),
            i <= n,
            sv == src.deep_view(),
            forall|j: int| 0 <= j < sv.len() ==> op_attrs_wf(#[trigger] sv[j]),
            forall|j: int| 0 <= j < sv.len() ==> op_len(#[trigger] sv[j]) >= 0,
            total_len_s(sv) <= usize::MAX as int,
            canonical(acc.deep_view()),
            total_len_s(acc.deep_view()) <= total_len_s(sv.subrange(0, i as int)),
            push_seq(Seq::empty(), sv) == push_seq(acc.deep_view(), sv.skip(i as int)),
        decreases n - i,
    {
        proof {
            assert(sv.subrange(0, i as int + 1).drop_last() =~= sv.subrange(0, i as int));
            assert(sv.subrange(0, i as int + 1).last() == sv[i as int]);
            lemma_total_prefix(sv, i as int + 1);
            assert(sv.skip(i as int)[0] == sv[i as int]);
            assert(sv.skip(i as int).drop_first() =~= sv.skip(i as int + 1));
        }
        push_to(&mut acc, src[i].clone());
        i += 1;
    }
    proof {
        assert(sv.skip(n as int) =~= Seq::<OpV>::empty());
        assert(sv.subrange(0, n as int) =~= sv);
    }
    acc
}

// ---------------------------------------------------------------------------
// Delta
// ---------------------------------------------------------------------------

/// An ordered sequence of delta operations, kept in canonical form.
pub struct Delta {
    pub ops: Vec<DeltaOps>,
}

impl View for Delta {
    type V = Seq<OpV>;

    open spec fn view(&self) -> Seq<OpV> {
        self.ops.deep_view()
    }
}

impl Clone for Delta {
    fn clone(&self) -> (r: Self)
        ensures
            r@ == self@,
    {
        Delta { ops: clone_ops(&self.ops) }
    }
}

/// A deep copy of an operation vector.
pub(crate) fn clone_ops(ops: &Vec<DeltaOps>) -> (r: Vec<DeltaOps>)
    ensures
        r.deep_view() == ops.deep_view(),
{
    let mut out: Vec<DeltaOps> = Vec::new();
    let n = ops.len();
    let mut i: usize = 0;
    proof {
        assert(out.deep_view() =~= ops.deep_view().subrange(0, 0));
    }
    while i < n
        invariant
            n == ops.len(),
            i <= n,
            out.deep_view() =~= ops.deep_view().subrange(0, i as int),
        decreases n - i,
    {
        let ghost preout = out.deep_view();
        let ghost prevec = out@;
        let e = ops[i].clone();
        let ghost ev = e@;
        out.push(e);
        proof {
            assert(out@ == prevec.push(e));
            assert(preout.len() == i as int);
            assert(prevec.len() == i as int);
            assert forall|j: int|
                0 <= j < out@.len() implies #[trigger] out.deep_view()[j] == ops.deep_view()
                .subrange(0, i as int + 1)[j] by {
                assert(out.deep_view()[j] == out@[j].deep_view());
                if j < i as int {
                    assert(out@[j] == prevec[j]);
                    assert(preout[j] == prevec[j].deep_view());
                    assert(preout[j] == ops.deep_view().subrange(0, i as int)[j]);
                } else {
                    assert(out@[j].deep_view() == ev);
                    assert(ev == ops.deep_view()[i as int]);
                }
            }
            assert(out.deep_view() =~= ops.deep_view().subrange(0, i as int + 1));
        }
        i += 1;
    }
    proof {
        assert(out.deep_view() =~= ops.deep_view());
    }
    out
}

/// A prefix of a sequence never covers more content than the whole.
pub proof fn lemma_total_prefix(ops: Seq<OpV>, i: int)
    requires
        0 <= i <= ops.len(),
        forall|j: int| 0 <= j < ops.len() ==> op_len(#[trigger] ops[j]) >= 0,
    ensures
        total_len_s(ops.subrange(0, i)) <= total_len_s(ops),
    decreases ops.len() - i,
{
    if i == ops.len() {
        assert(ops.subrange(0, i) =~= ops);
    } else {
        lemma_total_prefix(ops, i + 1);
        assert(ops.subrange(0, i + 1).drop_last() =~= ops.subrange(0, i));
        assert(ops.subrange(0, i + 1).last() == ops[i]);
    }
}

impl Delta {
    /// Canonical form with a total length a machine word can hold.
    pub open spec fn wf(&self) -> bool {
        canonical(self@) && total_len_s(self@) <= usize::MAX as int
    }

    /// The empty delta: the identity edit.
    pub fn new() -> (r: Delta)
        ensures
            r@ == Seq::<OpV>::empty(),
            r.wf(),
    {
        let r = Delta { ops: Vec::new() };
        proof {
            assert(r@ =~= Seq::<OpV>::empty());
        }
        r
    }

    /// Canonicalize an arbitrary operation list into a delta: attributes are
    /// made key-unique, empty operations vanish and adjacent like operations
    /// merge.
    pub fn from_ops(ops: Vec<DeltaOps>) -> (r: Delta)
        requires
            total_len_s(ops.deep_view()) <= usize::MAX as int,
        ensures
            r@ == canon(sanitize_seq_s(ops.deep_view())),
            r.wf(),
    {
        let ghost src = sanitize_seq_s(ops.deep_view());
        let mut acc: Vec<DeltaOps> = Vec::new();
        let n = ops.len();
        let mut i: usize = 0;
        proof {
            assert(acc.deep_view() =~= Seq::<OpV>::empty());
            assert(src.skip(0) =~= src);
            assert(forall|j: int|
                0 <= j < ops.deep_view().len() ==> op_len(#[trigger] ops.deep_view()[j]) >= 0);
            assert(forall|j: int|
                0 <= j < src.len() ==> op_len(#[trigger] src[j]) >= 0 && op_attrs_wf(src[j]))
                by {
                assert forall|j: int|
                    0 <= j < src.len() implies op_len(#[trigger] src[j]) >= 0 && op_attrs_wf(
                    src[j],
                ) by {
                    lemma_sanitize_op(ops.deep_view()[j]);
                }
            }
            assert(total_len_s(src) == total_len_s(ops.deep_view())) by {
                lemma_total_sanitize(ops.deep_view());
            }
        }
        while i < n
            invariant
                n == ops.len(),
                i <= n,
                src == sanitize_seq_s(ops.deep_view()),
                forall|j: int|
                    0 <= j < src.len() ==> op_len(#[trigger] src[j]) >= 0 && op_attrs_wf(src[j]),
                total_len_s(src) <= usize::MAX as int,
                canonical(acc.deep_view()),
                total_len_s(acc.deep_view()) <= total_len_s(src.subrange(0, i as int)),
                push_seq(Seq::empty(), src) == push_seq(acc.deep_view(), src.skip(i as int)),
            decreases n - i,
        {
            let ghost accv = acc.deep_view();
            proof {
                assert(src[i as int] == sanitize_op_s(ops.deep_view()[i as int]));
                lemma_sanitize_op(ops.deep_view()[i as int]);
                assert(src.subrange(0, i as int + 1).drop_last() =~= src.subrange(0, i as int));
                assert(src.subrange(0, i as int + 1).last() == src[i as int]);
                lemma_total_prefix(src, i as int + 1);
                assert(src.skip(i as int)[0] == src[i as int]);
                assert(src.skip(i as int).drop_first() =~= src.skip(i as int + 1));
            }
            let op = match &ops[i] {
                DeltaOps::Insert(t, a) => DeltaOps::Insert(t.clone(), a.sanitized().without_nulls()),
                DeltaOps::InsertEmbed(e, a) => DeltaOps::InsertEmbed(
                    e.clone(),
                    a.sanitized().without_nulls(),
                ),
                DeltaOps::Delete(k) => DeltaOps::Delete(*k),
                DeltaOps::Retain(k, a) => DeltaOps::Retain(*k, a.sanitized()),
            };
            proof {
                assert(op@ == src[i as int]);
            }
            push_to(&mut acc, op);
            i += 1;
        }
        proof {
            assert(src.skip(n as int) =~= Seq::<OpV>::empty());
            assert(src.subrange(0, n as int) =~= src);
        }
        Delta { ops: acc }
    }

    /// Append an insert of `text` with the given formatting; empty text is a
    /// no-op.  Returns a new delta, leaving this one untouched.
    pub fn insert(&self, text: &str, attrs: &AttrMap) -> (r: Delta)
        requires
            self.wf(),
            total_len_s(self@) + text@.len() <= usize::MAX as int,
        ensures
            r@ == push_op(
                self@,
                OpV::InsertV(text@, drop_nulls_s(crate::attrs::dedup_s(attrs@))),
            ),
            r.wf(),
    {
        let mut out = clone_ops(&self.ops);
        let a = attrs.sanitized().without_nulls();
        proof {
            lemma_dedup_wf(attrs@);
            lemma_drop_nulls_props(crate::attrs::dedup_s(attrs@));
        }
        push_to(&mut out, DeltaOps::Insert(text.to_owned(), a));
        Delta { ops: out }
    }

    /// Append an insert of one embedded content unit with its formatting.
    pub fn insert_embed(&self, embed: Embeds, attrs: &AttrMap) -> (r: Delta)
        requires
            self.wf(),
            total_len_s(self@) + 1 <= usize::MAX as int,
        ensures
            r@ == push_op(
                self@,
                OpV::InsertEmbedV(embed@, drop_nulls_s(crate::attrs::dedup_s(attrs@))),
            ),
            r.wf(),
    {
        let mut out = clone_ops(&self.ops);
        let a = attrs.sanitized().without_nulls();
        proof {
            lemma_dedup_wf(attrs@);
            lemma_drop_nulls_props(crate::attrs::dedup_s(attrs@));
        }
        push_to(&mut out, DeltaOps::InsertEmbed(embed, a));
        Delta { ops: out }
    }

    /// Append a delete of `len` content units; zero is a no-op.
    pub fn delete(&self, len: usize) -> (r: Delta)
        requires
            self.wf(),
            total_len_s(self@) + len <= usize::MAX as int,
        ensures
            r@ == push_op(self@, OpV::DeleteV(len as int)),
            r.wf(),
    {
        let mut out = clone_ops(&self.ops);
        push_to(&mut out, DeltaOps::Delete(len));
        Delta { ops: out }
    }

    /// Append a retain of `len` content units, optionally re-formatting
    /// them; zero is a no-op.
    pub fn retain(&self, len: usize, attrs: &AttrMap) -> (r: Delta)
        requires
            self.wf(),
            total_len_s(self@) + len <= usize::MAX as int,
        ensures
            r@ == push_op(self@, OpV::RetainV(len as int, crate::attrs::dedup_s(attrs@))),
            r.wf(),
    {
        let mut out = clone_ops(&self.ops);
        let a = attrs.sanitized();
        proof {
            lemma_dedup_wf(attrs@);
        }
        push_to(&mut out, DeltaOps::Retain(len, a));
        Delta { ops: out }
    }

    /// The delta whose operations are this delta's followed by `other`'s,
    /// merged canonically at every step.
    pub fn concat(&self, other: &Delta) -> (r: Delta)
        requires
            self.wf(),
            other.wf(),
            total_len_s(self@) + total_len_s(other@) <= usize::MAX as int,
        ensures
            r@ == push_seq(self@, other@),
            r.wf(),
    {
        let mut acc = clone_ops(&self.ops);
        let n = other.ops.len();
        let mut i: usize = 0;
        proof {
            assert(other@.skip(0) =~= other@);
            assert(other@.subrange(0, 0) =~= Seq::<OpV>::empty());
            assert(forall|j: int|
                0 <= j < other@.len() ==> op_len(#[trigger] other@[j]) >= 0);
        }
        while i < n
            invariant
                n == other.ops.len(),
                i <= n,
                other.wf(),
                canonical(acc.deep_view()),
                total_len_s(self@) + total_len_s(other@) <= usize::MAX as int,
                total_len_s(acc.deep_view()) <= total_len_s(self@) + total_len_s(
                    other@.subrange(0, i as int),
                ),
                push_seq(self@, other@) == push_seq(acc.deep_view(), other@.skip(i as int)),
            decreases n - i,
        {
            proof {
                assert(other@[i as int] == other.ops[i as int]@);
                assert(op_len(other@[i as int]) >= 0 && op_attrs_wf(other@[i as int]));
                assert(other@.subrange(0, i as int + 1).drop_last() =~= other@.subrange(
                    0,
                    i as int,
                ));
                assert(other@.subrange(0, i as int + 1).last() == other@[i as int]);
                lemma_total_prefix(other@, i as int + 1);
                lemma_total_nonneg(other@.subrange(0, i as int));
                assert(other@.skip(i as int)[0] == other@[i as int]);
                assert(other@.skip(i as int).drop_first() =~= other@.skip(i as int + 1));
            }
            push_to(&mut acc, other.ops[i].clone());
            i += 1;
        }
        proof {
            assert(other@.skip(n as int) =~= Seq::<OpV>::empty());
        }
        Delta { ops: acc }
    }

    /// Structural equality of two deltas.
    pub fn equals(&self, other: &Delta) -> (r: bool)
        ensures
            r == (self@ == other@),
    {
        let n = self.ops.len();
        if n != other.ops.len() {
            proof {
                assert(self@.len() == self.ops@.len());
                assert(other@.len() == other.ops@.len());
            }
            return false;
        }
        let mut i: usize = 0;
        while i < n
            invariant
                n == self.ops.len(),
                n == other.ops.len(),
                i <= n,
                forall|j: int| 0 <= j < i ==> #[trigger] self@[j] == other@[j],
            decreases n - i,
        {
            if !op_eq(&self.ops[i], &other.ops[i]) {
                proof {
                    assert(self@[i as int] != other@[i as int]);
                }
                return false;
            }
            proof {
                assert(self@[i as int] == other@[i as int]);
            }
            i += 1;
        }
        proof {
            assert(self@ =~= other@);
        }
        true
    }
}

/// Append one operation verbatim, with no canonical merging.
pub(crate) fn push_unit(out: &mut Vec<DeltaOps>, u: DeltaOps)
    ensures
        final(out).deep_view() == old(out).deep_view().push(u@),
{
    let ghost preout = out.deep_view();
    let ghost prevec = out@;
    let ghost uv = u@;
    out.push(u);
    proof {
        assert(out@.len() == prevec.len() + 1);
        assert(preout.len() == prevec.len());
        assert forall|j: int|
            0 <= j < out@.len() implies #[trigger] out.deep_view()[j] == preout.push(uv)[j] by {
            assert(out.deep_view()[j] == out@[j].deep_view());
            if j < prevec.len() {
                assert(out@[j] == prevec[j]);
                assert(preout[j] == prevec[j].deep_view());
            } else {
                assert(out@[j].deep_view() == uv);
            }
        }
        assert(out.deep_view() =~= preout.push(uv));
    }
}

impl Delta {
    /// This delta flattened into unit-length operations.
    pub fn to_units(&self) -> (r: Vec<DeltaOps>)
        ensures
            r.deep_view() == units_s(self@),
    {
        let mut out: Vec<DeltaOps> = Vec::new();
        let n = self.ops.len();
        let mut i: usize = 0;
        proof {
            assert(out.deep_view() =~= units_s(self@.subrange(0, 0)));
        }
        while i < n
            invariant
                n == self.ops.len(),
                i <= n,
                out.deep_view() =~= units_s(self@.subrange(0, i as int)),
            decreases n - i,
        {
            proof {
                assert(self@.subrange(0, i as int + 1).drop_last() =~= self@.subrange(
                    0,
                    i as int,
                ));
                assert(self@.subrange(0, i as int + 1).last() == self@[i as int]);
            }
            let ghost base = out.deep_view();
            let ghost opv = self@[i as int];
            match &self.ops[i] {
                DeltaOps::Insert(t, a) => {
                    let ghost s = t@;
                    let ghost av = a@;
                    let m = t.as_str().unicode_len();
                    let mut j: usize = 0;
                    while j < m
                        invariant
                            m == s.len(),
                            j <= m,
                            opv == OpV::InsertV(s, av),
                            t@ == s,
                            a@ == av,
                            out.deep_view() =~= base + op_units(opv).subrange(0, j as int),
                        decreases m - j,
                    {
                        let u = DeltaOps::Insert(
                            t.as_str().substring_char(j, j + 1).to_owned(),
                            a.clone(),
                        );
                        proof {
                            assert(s.subrange(j as int, j as int + 1) =~= seq![s[j as int]]);
                            assert(u@ == op_units(opv)[j as int]);
                        }
                        push_unit(&mut out, u);
                        proof {
                            assert(op_units(opv).subrange(0, j as int + 1) =~= op_units(
                                opv,
                            ).subrange(0, j as int).push(op_units(opv)[j as int]));
                            assert(out.deep_view() =~= base + op_units(opv).subrange(
                                0,
                                j as int + 1,
                            ));
                        }
                        j += 1;
                    }
                    proof {
                        assert(op_units(opv).subrange(0, m as int) =~= op_units(opv));
                    }
                },
                DeltaOps::InsertEmbed(e, a) => {
                    let u = DeltaOps::InsertEmbed(e.clone(), a.clone());
                    proof {
                        assert(u@ == op_units(opv)[0]);
                    }
                    push_unit(&mut out, u);
                    proof {
                        assert(base.push(op_units(opv)[0]) =~= base + op_units(opv));
                    }
                },
                DeltaOps::Delete(k) => {
                    let ghost kv = *k as int;
                    let m = *k;
                    let mut j: usize = 0;
                    while j < m
                        invariant
                            m as int == kv,
                            j <= m,
                            opv == OpV::DeleteV(kv),
                            out.deep_view() =~= base + op_units(opv).subrange(0, j as int),
                        decreases m - j,
                    {
                        let u = DeltaOps::Delete(1);
                        proof {
                            assert(u@ == op_units(opv)[j as int]);
                        }
                        push_unit(&mut out, u);
                        proof {
                            assert(op_units(opv).subrange(0, j as int + 1) =~= op_units(
                                opv,
                            ).subrange(0, j as int).push(op_units(opv)[j as int]));
                            assert(out.deep_view() =~= base + op_units(opv).subrange(
                                0,
                                j as int + 1,
                            ));
                        }
                        j += 1;
                    }
                    proof {
                        if kv <= 0 {
                            assert(op_units(opv).subrange(0, 0) =~= op_units(opv));
                        } else {
                            assert(op_units(opv).subrange(0, m as int) =~= op_units(opv));
                        }
                    }
                },
                DeltaOps::Retain(k, a) => {
                    let ghost kv = *k as int;
                    let ghost av = a@;
                    let m = *k;
                    let mut j: usize = 0;
                    while j < m
                        invariant
                            m as int == kv,
                            j <= m,
                            opv == OpV::RetainV(kv, av),
                            a@ == av,
                            out.deep_view() =~= base + op_units(opv).subrange(0, j as int),
                        decreases m - j,
                    {
                        let u = DeltaOps::Retain(1, a.clone());
                        proof {
                            assert(u@ == op_units(opv)[j as int]);
                        }
                        push_unit(&mut out, u);
                        proof {
                            assert(op_units(opv).subrange(0, j as int + 1) =~= op_units(
                                opv,
                            ).subrange(0, j as int).push(op_units(opv)[j as int]));
                            assert(out.deep_view() =~= base + op_units(opv).subrange(
                                0,
                                j as int + 1,
                            ));
                        }
                        j += 1;
                    }
                    proof {
                        if kv <= 0 {
                            assert(op_units(opv).subrange(0, 0) =~= op_units(opv));
                        } else {
                            assert(op_units(opv).subrange(0, m as int) =~= op_units(opv));
                        }
                    }
                },
            }
            proof {
                assert(out.deep_view() =~= units_s(self@.subrange(0, i as int + 1)));
            }
            i += 1;
        }
        proof {
            assert(self@.subrange(0, n as int) =~= self@);
            assert(out.deep_view() =~= units_s(self@));
        }
        out
    }
}

/// Every unit of a delta with well-formed operations covers exactly one
/// content unit and carries well-formed attributes; a delta has as many
/// units as its total length, when no operation is negative.
pub proof fn lemma_units_props(ops: Seq<OpV>)
    requires
        forall|i: int|
            0 <= i < ops.len() ==> op_len(#[trigger] ops[i]) >= 0 && op_attrs_wf(ops[i]),
    ensures
        forall|i: int|
            0 <= i < units_s(ops).len() ==> op_len(#[trigger] units_s(ops)[i]) == 1
                && op_attrs_wf(units_s(ops)[i]),
        units_s(ops).len() == total_len_s(ops),
    decreases ops.len(),
{
    if ops.len() > 0 {
        let pre = ops.drop_last();
        assert(forall|i: int| 0 <= i < pre.len() ==> #[trigger] pre[i] == ops[i]);
        lemma_units_props(pre);
        assert(ops[ops.len() - 1] == ops.last());
        let u = op_units(ops.last());
        assert(u.len() == op_len(ops.last()));
        assert(forall|i: int|
            0 <= i < u.len() ==> op_len(#[trigger] u[i]) == 1 && op_attrs_wf(u[i]));
        assert(forall|i: int|
            0 <= i < units_s(ops).len() ==> op_len(#[trigger] units_s(ops)[i]) == 1
                && op_attrs_wf(units_s(ops)[i])) by {
            assert(forall|i: int|
                0 <= i < units_s(pre).len() ==> #[trigger] units_s(ops)[i] == units_s(pre)[i]);
            assert(forall|i: int|
                units_s(pre).len() <= i < units_s(ops).len() ==> #[trigger] units_s(ops)[i]
                    == u[i - units_s(pre).len()]);
        }
    }
}

/// Pushing a concatenation is pushing one part after the other.
pub proof fn lemma_push_seq_append(acc: Seq<OpV>, x: Seq<OpV>, y: Seq<OpV>)
    ensures
        push_seq(acc, x + y) == push_seq(push_seq(acc, x), y),
    decreases x.len(),
{
    if x.len() == 0 {
        assert(x + y =~= y);
    } else {
        assert((x + y)[0] == x[0]);
        assert((x + y).drop_first() =~= x.drop_first() + y);
        lemma_push_seq_append(push_op(acc, x[0]), x.drop_first(), y);
    }
}

/// Pushing the units of a text insert one by one merges them back into the
/// single insert.
proof fn lemma_push_insert_units(pre: Seq<OpV>, s: Seq<char>, a: Seq<AttrEntryV>, k: int)
    requires
        1 <= k <= s.len(),
    ensures
        push_seq(
            pre.push(OpV::InsertV(s.subrange(0, k), a)),
            op_units(OpV::InsertV(s, a)).skip(k),
        ) == pre.push(OpV::InsertV(s, a)),
    decreases s.len() - k,
{
    let units = op_units(OpV::InsertV(s, a));
    let acc = pre.push(OpV::InsertV(s.subrange(0, k), a));
    if k == s.len() {
        assert(units.skip(k) =~= Seq::<OpV>::empty());
        assert(s.subrange(0, k) =~= s);
    } else {
        assert(units.skip(k)[0] == units[k]);
        assert(units[k] == OpV::InsertV(seq![s[k]], a));
        assert(acc.last() == OpV::InsertV(s.subrange(0, k), a));
        assert(s.subrange(0, k).len() > 0);
        let merged = OpV::InsertV(s.subrange(0, k) + seq![s[k]], a);
        assert(push_op(acc, units[k]) == acc.drop_last().push(merged));
        assert(acc.drop_last() =~= pre);
        assert(s.subrange(0, k) + seq![s[k]] =~= s.subrange(0, k + 1));
        assert(push_op(acc, units[k]) == pre.push(OpV::InsertV(s.subrange(0, k + 1), a)));
        assert(units.skip(k).drop_first() =~= units.skip(k + 1));
        lemma_push_insert_units(pre, s, a, k + 1);
    }
}

/// Pushing `n` unit deletes one by one merges them into one delete.
proof fn lemma_push_delete_units(pre: Seq<OpV>, n: int, k: int)
    requires
        1 <= k <= n,
    ensures
        push_seq(pre.push(OpV::DeleteV(k)), op_units(OpV::DeleteV(n)).skip(k)) == pre.push(
            OpV::DeleteV(n),
        ),
    decreases n - k,
{
    let units = op_units(OpV::DeleteV(n));
    let acc = pre.push(OpV::DeleteV(k));
    if k == n {
        assert(units.skip(k) =~= Seq::<OpV>::empty());
    } else {
        assert(units.skip(k)[0] == units[k]);
        assert(units[k] == OpV::DeleteV(1));
        assert(acc.last() == OpV::DeleteV(k));
        assert(push_op(acc, units[k]) == acc.drop_last().push(OpV::DeleteV(k + 1)));
        assert(acc.drop_last() =~= pre);
        assert(units.skip(k).drop_first() =~= units.skip(k + 1));
        lemma_push_delete_units(pre, n, k + 1);
    }
}

/// Pushing `n` unit retains one by one merges them into one retain.
proof fn lemma_push_retain_units(pre: Seq<OpV>, n: int, a: Seq<AttrEntryV>, k: int)
    requires
        1 <= k <= n,
    ensures
        push_seq(pre.push(OpV::RetainV(k, a)), op_units(OpV::RetainV(n, a)).skip(k)) == pre.push(
            OpV::RetainV(n, a),
        ),
    decreases n - k,
{
    let units = op_units(OpV::RetainV(n, a));
    let acc = pre.push(OpV::RetainV(k, a));
    if k == n {
        assert(units.skip(k) =~= Seq::<OpV>::empty());
    } else {
        assert(units.skip(k)[0] == units[k]);
        assert(units[k] == OpV::RetainV(1, a));
        assert(acc.last() == OpV::RetainV(k, a));
        assert(push_op(acc, units[k]) == acc.drop_last().push(OpV::RetainV(k + 1, a)));
        assert(acc.drop_last() =~= pre);
        assert(units.skip(k).drop_first() =~= units.skip(k + 1));
        lemma_push_retain_units(pre, n, a, k + 1);
    }
}

/// Pushing all units of one non-empty operation onto a sequence it does not
/// merge with appends exactly that operation.
pub proof fn lemma_push_units_op(acc: Seq<OpV>, op: OpV)
    requires
        op_len(op) > 0,
        acc.len() > 0 ==> !mergeable(acc.last(), op),
    ensures
        push_seq(acc, op_units(op)) == acc.push(op),
{
    let units = op_units(op);
    match op {
        OpV::InsertV(s, a) => {
            let u0 = OpV::InsertV(s.subrange(0, 1), a);
            assert(s.subrange(0, 1) =~= seq![s[0]]);
            assert(units[0] == u0);
            assert(push_op(acc, u0) == acc.push(u0)) by {
                if acc.len() > 0 {
                    assert(!mergeable(acc.last(), op));
                } else {
                    assert(seq![u0] =~= acc.push(u0));
                }
            }
            assert(units.len() == s.len());
            assert(push_seq(acc, units) == push_seq(push_op(acc, units[0]), units.drop_first()));
            assert(units.drop_first() =~= units.skip(1));
            lemma_push_insert_units(acc, s, a, 1);
            assert(push_seq(acc.push(u0), units.skip(1)) == acc.push(op));
        },
        OpV::InsertEmbedV(_, _) => {
            assert(units =~= seq![op]);
            assert(units[0] == op);
            assert(push_op(acc, op) == acc.push(op)) by {
                if acc.len() == 0 {
                    assert(seq![op] =~= acc.push(op));
                }
            }
            assert(push_seq(acc, units) == push_seq(push_op(acc, units[0]), units.drop_first()));
            assert(units.drop_first() =~= Seq::<OpV>::empty());
            assert(push_seq(acc.push(op), Seq::<OpV>::empty()) == acc.push(op));
        },
        OpV::DeleteV(n) => {
            let u0 = OpV::DeleteV(1);
            assert(units[0] == u0);
            assert(push_op(acc, u0) == acc.push(u0)) by {
                if acc.len() == 0 {
                    assert(seq![u0] =~= acc.push(u0));
                }
            }
            assert(units.len() == n);
            assert(push_seq(acc, units) == push_seq(push_op(acc, units[0]), units.drop_first()));
            assert(units.drop_first() =~= units.skip(1));
            lemma_push_delete_units(acc, n, 1);
            assert(push_seq(acc.push(OpV::DeleteV(1)), units.skip(1)) == acc.push(op));
        },
        OpV::RetainV(n, a) => {
            let u0 = OpV::RetainV(1, a);
            assert(units[0] == u0);
            assert(push_op(acc, u0) == acc.push(u0)) by {
                if acc.len() == 0 {
                    assert(seq![u0] =~= acc.push(u0));
                }
            }
            assert(units.len() == n);
            assert(push_seq(acc, units) == push_seq(push_op(acc, units[0]), units.drop_first()));
            assert(units.drop_first() =~= units.skip(1));
            lemma_push_retain_units(acc, n, a, 1);
            assert(push_seq(acc.push(OpV::RetainV(1, a)), units.skip(1)) == acc.push(op));
        },
    }
}

/// Canonicalizing the units of a canonical delta gives the delta back: the
/// canonical form is a normal form.
pub proof fn lemma_canon_units_id(ops: Seq<OpV>)
    requires
        canonical(ops),
    ensures
        canon(units_s(ops)) == ops,
    decreases ops.len(),
{
    if ops.len() == 0 {
        assert(units_s(ops) =~= Seq::<OpV>::empty());
    } else {
        let pre = ops.drop_last();
        lemma_canonical_drop_last(ops);
        lemma_canon_units_id(pre);
        lemma_push_seq_append(Seq::empty(), units_s(pre), op_units(ops.last()));
        assert(ops[ops.len() - 1] == ops.last());
        assert(op_len(ops.last()) > 0);
        if pre.len() > 0 {
            assert(pre[pre.len() - 1] == ops[ops.len() - 2]);
            assert(!mergeable(pre.last(), ops.last()));
        }
        lemma_push_units_op(pre, ops.last());
        assert(pre.push(ops.last()) =~= ops);
    }
}

/// Appending one operation appends its units.
pub proof fn lemma_units_push(x: Seq<OpV>, op: OpV)
    ensures
        units_s(x.push(op)) == units_s(x) + op_units(op),
{
    assert(x.push(op).drop_last() =~= x);
    assert(x.push(op).last() == op);
}

/// A unit-length operation is its own single unit.
pub proof fn lemma_op_units_single(u: OpV)
    requires
        op_len(u) == 1,
    ensures
        op_units(u) == seq![u],
{
    match u {
        OpV::InsertV(s, a) => {
            assert(seq![s[0]] =~= s);
            assert(op_units(u) =~= seq![u]);
        },
        OpV::InsertEmbedV(_, _) => {},
        OpV::DeleteV(_) => {
            assert(op_units(u) =~= seq![u]);
        },
        OpV::RetainV(_, a) => {
            assert(op_units(u) =~= seq![u]);
        },
    }
}

/// The unit-level view of one canonical push: a merge keeps the units as
/// they were, with the new unit appended; an insert pushed after a trailing
/// delete slides in between that delete's units and the rest.
pub proof fn lemma_push_op_units(acc: Seq<OpV>, u: OpV)
    requires
        canonical(acc),
        op_len(u) == 1,
        op_attrs_wf(u),
    ensures
        (u is InsertV || u is InsertEmbedV) && acc.len() > 0 && acc.last() is DeleteV ==> push_op(
            acc,
            u,
        ) == push_op(acc.drop_last(), u).push(acc.last()) && units_s(push_op(acc, u)) == units_s(
            acc.drop_last(),
        ) + seq![u] + op_units(acc.last()),
        !((u is InsertV || u is InsertEmbedV) && acc.len() > 0 && acc.last() is DeleteV)
            ==> units_s(push_op(acc, u)) == units_s(acc) + seq![u],
    decreases acc.len(),
{
    lemma_op_units_single(u);
    if acc.len() == 0 {
        assert(push_op(acc, u) == seq![u]);
        assert(units_s(seq![u]) == units_s(seq![u].drop_last()) + op_units(u));
        assert(seq![u].drop_last() =~= Seq::<OpV>::empty());
        assert(units_s(push_op(acc, u)) =~= units_s(acc) + seq![u]);
    } else {
        let pre = acc.drop_last();
        lemma_canonical_drop_last(acc);
        assert(acc[acc.len() - 1] == acc.last());
        assert(units_s(acc) == units_s(pre) + op_units(acc.last()));
        match (acc.last(), u) {
            (OpV::DeleteV(m), OpV::DeleteV(n)) => {
                let merged = OpV::DeleteV(m + n);
                assert(push_op(acc, u) == pre.push(merged));
                lemma_units_push(pre, merged);
                assert(op_units(merged) =~= op_units(acc.last()) + seq![u]) by {
                    assert(n == 1);
                    assert(forall|i: int|
                        0 <= i < m ==> #[trigger] op_units(merged)[i] == OpV::DeleteV(1));
                }
                assert(units_s(push_op(acc, u)) =~= units_s(acc) + seq![u]);
            },
            (OpV::DeleteV(m), OpV::InsertV(_, _)) | (OpV::DeleteV(m), OpV::InsertEmbedV(_, _)) => {
                let inner = push_op(pre, u);
                assert(push_op(acc, u) == inner.push(acc.last()));
                assert(!(pre.len() > 0 && pre.last() is DeleteV)) by {
                    if pre.len() > 0 {
                        assert(pre[pre.len() - 1] == acc[acc.len() - 2]);
                        assert(!mergeable(acc[acc.len() - 2], acc[acc.len() - 1]));
                    }
                }
                lemma_push_op_units(pre, u);
                assert(units_s(inner) == units_s(pre) + seq![u]);
                lemma_units_push(inner, acc.last());
                assert(units_s(push_op(acc, u)) =~= units_s(pre) + seq![u] + op_units(
                    acc.last(),
                ));
            },
            (OpV::InsertV(s1, a1), OpV::InsertV(s2, a2)) => {
                if a1 == a2 {
                    let merged = OpV::InsertV(s1 + s2, a1);
                    assert(push_op(acc, u) == pre.push(merged));
                    lemma_units_push(pre, merged);
                    assert(op_units(merged) =~= op_units(acc.last()) + seq![u]) by {
                        assert(s2.len() == 1);
                        assert(forall|i: int|
                            0 <= i < s1.len() ==> #[trigger] (s1 + s2)[i] == s1[i]);
                        assert forall|i: int|
                            0 <= i < s1.len() implies #[trigger] op_units(merged)[i] == op_units(
                            acc.last(),
                        )[i] by {
                            assert(seq![(s1 + s2)[i]] =~= seq![s1[i]]);
                        }
                        assert((s1 + s2)[s1.len() as int] == s2[0]);
                        assert(seq![(s1 + s2)[s1.len() as int]] =~= s2);
                    }
                    assert(units_s(push_op(acc, u)) =~= units_s(acc) + seq![u]);
                } else {
                    assert(push_op(acc, u) == acc.push(u));
                    lemma_units_push(acc, u);
                }
            },
            (OpV::RetainV(n1, a1), OpV::RetainV(n2, a2)) => {
                if a1 == a2 {
                    let merged = OpV::RetainV(n1 + n2, a1);
                    assert(push_op(acc, u) == pre.push(merged));
                    lemma_units_push(pre, merged);
                    assert(op_units(merged) =~= op_units(acc.last()) + seq![u]) by {
                        assert(n2 == 1);
                        assert(forall|i: int|
                            0 <= i < n1 ==> #[trigger] op_units(merged)[i] == OpV::RetainV(
                                1,
                                a1,
                            ));
                    }
                    assert(units_s(push_op(acc, u)) =~= units_s(acc) + seq![u]);
                } else {
                    assert(push_op(acc, u) == acc.push(u));
                    lemma_units_push(acc, u);
                }
            },
            _ => {
                assert(push_op(acc, u) == acc.push(u));
                lemma_units_push(acc, u);
            },
        }
    }
}

/// Sanitizing preserves the total covered length.
pub proof fn lemma_total_sanitize(ops: Seq<OpV>)
    ensures
        total_len_s(sanitize_seq_s(ops)) == total_len_s(ops),
    decreases ops.len(),
{
    if ops.len() == 0 {
        assert(sanitize_seq_s(ops) =~= Seq::<OpV>::empty());
    } else {
        lemma_total_sanitize(ops.drop_last());
        assert(sanitize_seq_s(ops).drop_last() =~= sanitize_seq_s(ops.drop_last()));
        assert(sanitize_seq_s(ops).last() == sanitize_op_s(ops.last()));
        lemma_sanitize_op(ops.last());
    }
}

} // verus!
