//! Structural diff between two documents.
//!
//! Both sides must be documents (insert-only deltas).  The diff aligns their
//! flattened content by the longest common prefix and suffix; the aligned
//! spans become retains that carry only the attribute change, the removed
//! middle becomes one delete, and the new middle is re-inserted.  Embeds are
//! atomic: they are never diffed internally.
//!
//! The alignment is deterministic — the longest common prefix and suffix are
//! taken first — and for an edit confined to one contiguous region it is
//! minimal: unchanged spans become retains (attribute-only where only the
//! formatting changed) and only the changed region is deleted and
//! re-inserted.  Changes scattered across several regions collapse into one
//! replaced middle; a finer alignment of the middle is deliberately not
//! attempted.  Whatever the alignment, the result is a correct patch:
//! `lemma_diff_patch` proves that composing the first document with the
//! diff yields the second document, unit for unit, and
//! `lemma_diff_patch_units` states the same law at the unit level.

use vstd::prelude::*;

use crate::attrs::AttrMap;
use crate::attrs::diff_attr_maps;
use crate::attrs::diff_attrs_s;
use crate::attrs::lemma_diff_attrs_wf;
use crate::attrs::str_eq;
use crate::ops::Delta;
use crate::ops::DeltaError;
use crate::ops::DeltaOps;
use crate::ops::OpV;
use crate::ops::canon;
use crate::ops::canonize;
use crate::ops::lemma_total_units;
use crate::ops::lemma_units_props;
use crate::ops::op_attrs;
use crate::ops::op_attrs_wf;
use crate::ops::op_len;
use crate::ops::push_unit;
use crate::ops::total_len_s;
use crate::ops::units_s;
use crate::transform::min_i;
use crate::vocab::embeds_eq;

verus! {

/// A delta that only inserts: a document.
pub open spec fn insert_only(ops: Seq<OpV>) -> bool {
    forall|i: int| 0 <= i < ops.len() ==> (#[trigger] ops[i] is InsertV || ops[i] is InsertEmbedV)
}

/// Equal content of two units, their formatting aside.
pub open spec fn unit_content_eq(x: OpV, y: OpV) -> bool {
    match (x, y) {
        (OpV::InsertV(s1, _), OpV::InsertV(s2, _)) => s1 == s2,
        (OpV::InsertEmbedV(e1, _), OpV::InsertEmbedV(e2, _)) => e1 == e2,
        _ => false,
    }
}

/// Equal content of two units, decided executably.
pub fn unit_content_equal(a: &DeltaOps, b: &DeltaOps) -> (r: bool)
    ensures
        r == unit_content_eq(a@, b@),
{
    match (a, b) {
        (DeltaOps::Insert(t1, _), DeltaOps::Insert(t2, _)) => str_eq(t1.as_str(), t2.as_str()),
        (DeltaOps::InsertEmbed(e1, _), DeltaOps::InsertEmbed(e2, _)) => embeds_eq(e1, e2),
        _ => false,
    }
}

/// Length of the longest common content prefix.
pub open spec fn cpl_s(a: Seq<OpV>, b: Seq<OpV>) -> int
    decreases a.len(),
{
    if a.len() > 0 && b.len() > 0 && unit_content_eq(a[0], b[0]) {
        1 + cpl_s(a.drop_first(), b.drop_first())
    } else {
        0
    }
}

/// Length of the longest common content suffix, capped so that it cannot
/// overlap the common prefix.
pub open spec fn csl_s(a: Seq<OpV>, b: Seq<OpV>, cap: int) -> int
    decreases a.len(),
{
    if cap > 0 && a.len() > 0 && b.len() > 0 && unit_content_eq(a.last(), b.last()) {
        1 + csl_s(a.drop_last(), b.drop_last(), cap - 1)
    } else {
        0
    }
}

/// The common prefix never exceeds either side.
pub proof fn lemma_cpl_bounds(a: Seq<OpV>, b: Seq<OpV>)
    ensures
        0 <= cpl_s(a, b),
        cpl_s(a, b) <= a.len(),
        cpl_s(a, b) <= b.len(),
    decreases a.len(),
{
    if a.len() > 0 && b.len() > 0 && unit_content_eq(a[0], b[0]) {
        lemma_cpl_bounds(a.drop_first(), b.drop_first());
    }
}

/// The common suffix stays within its cap and both sides.
pub proof fn lemma_csl_bounds(a: Seq<OpV>, b: Seq<OpV>, cap: int)
    ensures
        0 <= csl_s(a, b, cap),
        csl_s(a, b, cap) <= a.len(),
        csl_s(a, b, cap) <= b.len(),
        cap >= 0 ==> csl_s(a, b, cap) <= cap,
    decreases a.len(),
{
    if cap > 0 && a.len() > 0 && b.len() > 0 && unit_content_eq(a.last(), b.last()) {
        lemma_csl_bounds(a.drop_last(), b.drop_last(), cap - 1);
    }
}

/// Unit retains carrying, position by position, the attribute change from
/// `a`'s units to `b`'s.
pub open spec fn retain_zip(a: Seq<OpV>, b: Seq<OpV>, oa: int, ob: int, n: int) -> Seq<OpV> {
    Seq::new(
        n as nat,
        |i: int| OpV::RetainV(1, diff_attrs_s(op_attrs(a[oa + i]), op_attrs(b[ob + i]))),
    )
}

/// The diff of two unit-level documents: attribute retains over the common
/// prefix, one delete over the removed middle, the new middle re-inserted,
/// and attribute retains over the common suffix.
pub open spec fn diff_units_s(a: Seq<OpV>, b: Seq<OpV>) -> Seq<OpV> {
    let p = cpl_s(a, b);
    let cap = min_i(a.len() - p, b.len() - p);
    let s = csl_s(a, b, cap);
    retain_zip(a, b, 0, 0, p) + Seq::new((a.len() - p - s) as nat, |i: int| OpV::DeleteV(1))
        + b.subrange(p, b.len() - s) + retain_zip(a, b, a.len() - s, b.len() - s, s)
}

impl Delta {
    /// The delta that edits this document into `other`, aligned by the
    /// longest common content prefix and suffix (minimal for any edit
    /// confined to one contiguous region; see the module note).  Both sides
    /// must be documents (insert-only); anything else is an
    /// `InvalidOperation`.
    #[verifier::rlimit(60)]
    pub fn diff(&self, other: &Delta) -> (r: Result<Delta, DeltaError>)
        requires
            self.wf(),
            other.wf(),
            total_len_s(self@) + total_len_s(other@) <= usize::MAX as int,
        ensures
            match r {
                Ok(d) => insert_only(self@) && insert_only(other@) && d@ == canon(
                    diff_units_s(units_s(self@), units_s(other@)),
                ) && d.wf(),
                Err(e) => !(insert_only(self@) && insert_only(other@)) && e
                    == DeltaError::InvalidOperation,
            },
    {
        if !is_document(&self.ops) || !is_document(&other.ops) {
            return Err(DeltaError::InvalidOperation);
        }
        let ua = self.to_units();
        let ub = other.to_units();
        let ghost uav = units_s(self@);
        let ghost ubv = units_s(other@);
        proof {
            lemma_units_props(self@);
            lemma_units_props(other@);
            lemma_cpl_bounds(uav, ubv);
        }
        let na = ua.len();
        let nb = ub.len();
        // longest common content prefix
        let mut p: usize = 0;
        proof {
            assert(uav.skip(0) =~= uav);
            assert(ubv.skip(0) =~= ubv);
        }
        loop
            invariant
                na == ua.len(),
                nb == ub.len(),
                ua.deep_view() == uav,
                ub.deep_view() == ubv,
                p <= na,
                p <= nb,
                cpl_s(uav, ubv) == p + cpl_s(uav.skip(p as int), ubv.skip(p as int)),
            ensures
                p <= na,
                p <= nb,
                cpl_s(uav, ubv) == p as int,
            decreases na - p,
        {
            if !(p < na && p < nb) {
                proof {
                    assert(cpl_s(uav.skip(p as int), ubv.skip(p as int)) == 0);
                }
                break;
            }
            proof {
                assert(uav.skip(p as int)[0] == uav[p as int]);
                assert(ubv.skip(p as int)[0] == ubv[p as int]);
                assert(uav.skip(p as int).drop_first() =~= uav.skip(p as int + 1));
                assert(ubv.skip(p as int).drop_first() =~= ubv.skip(p as int + 1));
            }
            if !unit_content_equal(&ua[p], &ub[p]) {
                proof {
                    assert(cpl_s(uav.skip(p as int), ubv.skip(p as int)) == 0);
                }
                break;
            }
            p += 1;
        }
        // longest common content suffix, capped to avoid the prefix
        let cap = if na - p < nb - p {
            na - p
        } else {
            nb - p
        };
        let ghost capv = min_i(na as int - p, nb as int - p);
        proof {
            assert(cap as int == capv);
            lemma_csl_bounds(uav, ubv, capv);
        }
        let mut s: usize = 0;
        proof {
            assert(uav.subrange(0, na as int) =~= uav);
            assert(ubv.subrange(0, nb as int) =~= ubv);
        }
        loop
            invariant
                na == ua.len(),
                nb == ub.len(),
                ua.deep_view() == uav,
                ub.deep_view() == ubv,
                p <= na,
                p <= nb,
                cap as int == capv,
                capv == min_i(na as int - p, nb as int - p),
                s <= cap,
                csl_s(uav, ubv, capv) == s + csl_s(
                    uav.subrange(0, na as int - s),
                    ubv.subrange(0, nb as int - s),
                    capv - s,
                ),
            ensures
                s <= cap,
                csl_s(uav, ubv, capv) == s as int,
            decreases cap - s,
        {
            if !(s < cap) {
                proof {
                    assert(csl_s(
                        uav.subrange(0, na as int - s),
                        ubv.subrange(0, nb as int - s),
                        capv - s,
                    ) == 0);
                }
                break;
            }
            proof {
                let sa = uav.subrange(0, na as int - s);
                let sb = ubv.subrange(0, nb as int - s);
                assert(sa.last() == uav[na as int - 1 - s]);
                assert(sb.last() == ubv[nb as int - 1 - s]);
                assert(sa.drop_last() =~= uav.subrange(0, na as int - s - 1));
                assert(sb.drop_last() =~= ubv.subrange(0, nb as int - s - 1));
            }
            if !unit_content_equal(&ua[na - 1 - s], &ub[nb - 1 - s]) {
                proof {
                    assert(csl_s(
                        uav.subrange(0, na as int - s),
                        ubv.subrange(0, nb as int - s),
                        capv - s,
                    ) == 0);
                }
                break;
            }
            s += 1;
        }
        let ghost pre = retain_zip(uav, ubv, 0, 0, p as int);
        let ghost del = Seq::new((na - p - s) as nat, |i: int| OpV::DeleteV(1));
        let ghost mid = ubv.subrange(p as int, nb as int - s as int);
        let ghost suf = retain_zip(uav, ubv, na as int - s, nb as int - s, s as int);
        let mut raw: Vec<DeltaOps> = Vec::new();
        // retains over the common prefix, carrying the attribute change
        let empty_map = AttrMap::new();
        let mut i: usize = 0;
        proof {
            assert(raw.deep_view() =~= pre.subrange(0, 0));
        }
        while i < p
            invariant
                na == ua.len(),
                nb == ub.len(),
                ua.deep_view() == uav,
                ub.deep_view() == ubv,
                p <= na,
                p <= nb,
                i <= p,
                empty_map@ == Seq::<crate::attrs::AttrEntryV>::empty(),
                pre == retain_zip(uav, ubv, 0, 0, p as int),
                raw.deep_view() =~= pre.subrange(0, i as int),
            decreases p - i,
        {
            let aa = match &ua[i] {
                DeltaOps::Insert(_, a) => a,
                DeltaOps::InsertEmbed(_, a) => a,
                DeltaOps::Retain(_, a) => a,
                DeltaOps::Delete(_) => &empty_map,
            };
            let ba = match &ub[i] {
                DeltaOps::Insert(_, a) => a,
                DeltaOps::InsertEmbed(_, a) => a,
                DeltaOps::Retain(_, a) => a,
                DeltaOps::Delete(_) => &empty_map,
            };
            let u = DeltaOps::Retain(1, diff_attr_maps(aa, ba));
            proof {
                assert(aa@ == op_attrs(uav[i as int]));
                assert(ba@ == op_attrs(ubv[i as int]));
                assert(u@ == pre[i as int]);
                assert(pre.subrange(0, i as int + 1) =~= pre.subrange(0, i as int).push(
                    pre[i as int],
                ));
            }
            push_unit(&mut raw, u);
            i += 1;
        }
        proof {
            assert(pre.subrange(0, p as int) =~= pre);
        }
        // one unit delete for each removed content unit
        let dn = na - p - s;
        let mut j: usize = 0;
        proof {
            assert(raw.deep_view() =~= pre + del.subrange(0, 0));
        }
        while j < dn
            invariant
                j <= dn,
                dn == na - p - s,
                del == Seq::new((na - p - s) as nat, |k: int| OpV::DeleteV(1)),
                raw.deep_view() =~= pre + del.subrange(0, j as int),
            decreases dn - j,
        {
            let u = DeltaOps::Delete(1);
            proof {
                assert(u@ == del[j as int]);
                assert(pre + del.subrange(0, j as int + 1) =~= (pre + del.subrange(
                    0,
                    j as int,
                )).push(del[j as int]));
            }
            push_unit(&mut raw, u);
            j += 1;
        }
        proof {
            assert(del.subrange(0, dn as int) =~= del);
        }
        // the new middle, re-inserted with its own formatting
        let mut k: usize = p;
        proof {
            assert(raw.deep_view() =~= (pre + del) + mid.subrange(0, 0));
        }
        while k < nb - s
            invariant
                nb == ub.len(),
                ub.deep_view() == ubv,
                p <= k,
                k <= nb - s,
                s <= nb,
                mid == ubv.subrange(p as int, nb as int - s as int),
                raw.deep_view() =~= (pre + del) + mid.subrange(0, k as int - p),
            decreases nb - s - k,
        {
            let u = ub[k].clone();
            proof {
                assert(u@ == mid[k as int - p]);
                assert((pre + del) + mid.subrange(0, k as int - p + 1) =~= ((pre + del)
                    + mid.subrange(0, k as int - p)).push(mid[k as int - p]));
            }
            push_unit(&mut raw, u);
            k += 1;
        }
        proof {
            assert(mid.subrange(0, nb as int - s as int - p as int) =~= mid);
        }
        // retains over the common suffix, carrying the attribute change
        let mut t: usize = 0;
        proof {
            assert(raw.deep_view() =~= ((pre + del) + mid) + suf.subrange(0, 0));
        }
        while t < s
            invariant
                na == ua.len(),
                nb == ub.len(),
                ua.deep_view() == uav,
                ub.deep_view() == ubv,
                t <= s,
                s <= na,
                s <= nb,
                empty_map@ == Seq::<crate::attrs::AttrEntryV>::empty(),
                suf == retain_zip(uav, ubv, na as int - s, nb as int - s, s as int),
                raw.deep_view() =~= ((pre + del) + mid) + suf.subrange(0, t as int),
            decreases s - t,
        {
            let aa = match &ua[na - s + t] {
                DeltaOps::Insert(_, a) => a,
                DeltaOps::InsertEmbed(_, a) => a,
                DeltaOps::Retain(_, a) => a,
                DeltaOps::Delete(_) => &empty_map,
            };
            let ba = match &ub[nb - s + t] {
                DeltaOps::Insert(_, a) => a,
                DeltaOps::InsertEmbed(_, a) => a,
                DeltaOps::Retain(_, a) => a,
                DeltaOps::Delete(_) => &empty_map,
            };
            let u = DeltaOps::Retain(1, diff_attr_maps(aa, ba));
            proof {
                assert(aa@ == op_attrs(uav[na as int - s + t]));
                assert(ba@ == op_attrs(ubv[nb as int - s + t]));
                assert(u@ == suf[t as int]);
                assert(((pre + del) + mid) + suf.subrange(0, t as int + 1) =~= (((pre + del)
                    + mid) + suf.subrange(0, t as int)).push(suf[t as int]));
            }
            push_unit(&mut raw, u);
            t += 1;
        }
        proof {
            assert(suf.subrange(0, s as int) =~= suf);
            assert(raw.deep_view() =~= diff_units_s(uav, ubv));
        }
        // canonicalize: adjacent like units merge back into full operations
        proof {
            assert forall|q: int|
                0 <= q < raw.deep_view().len() implies op_attrs_wf(
                #[trigger] raw.deep_view()[q],
            ) && op_len(raw.deep_view()[q]) == 1 by {
                let rv = raw.deep_view();
                let plen = pre.len();
                let dlen = del.len();
                let mlen = mid.len();
                if q < plen {
                    assert(rv[q] == pre[q]);
                    lemma_diff_attrs_wf(op_attrs(uav[q]), op_attrs(ubv[q]));
                } else if q < plen + dlen {
                    assert(rv[q] == del[q - plen]);
                } else if q < plen + dlen + mlen {
                    assert(rv[q] == mid[q - plen - dlen]);
                    assert(mid[q - plen - dlen] == ubv[q - plen - dlen + p]);
                } else {
                    assert(rv[q] == suf[q - plen - dlen - mlen]);
                    let w = q - plen - dlen - mlen;
                    lemma_diff_attrs_wf(
                        op_attrs(uav[na as int - s + w]),
                        op_attrs(ubv[nb as int - s + w]),
                    );
                }
            }
            lemma_total_units(raw.deep_view());
        }
        let out = canonize(raw);
        proof {
            crate::ops::lemma_total_nonneg(out.deep_view());
        }
        Ok(Delta { ops: out })
    }
}

// ---------------------------------------------------------------------------
// Patch correctness
// ---------------------------------------------------------------------------

/// What a unit retain does to a document unit: the content stays, the
/// retain's attributes compose onto the unit's own (tombstones removing).
pub open spec fn reformat_unit(u: OpV, r: Seq<crate::attrs::AttrEntryV>) -> OpV {
    match u {
        OpV::InsertV(s, aa) => OpV::InsertV(s, crate::attrs::compose_attrs_s(aa, r, false)),
        OpV::InsertEmbedV(e, aa) => OpV::InsertEmbedV(
            e,
            crate::attrs::compose_attrs_s(aa, r, false),
        ),
        other => other,
    }
}

/// Composing a run of unit retains onto document units reformats them one
/// by one.
proof fn lemma_compose_retain_phase(x: Seq<OpV>, r: Seq<OpV>, rest: Seq<OpV>)
    requires
        r.len() <= x.len(),
        forall|i: int| 0 <= i < x.len() ==> (#[trigger] x[i] is InsertV || x[i] is InsertEmbedV),
        forall|i: int| 0 <= i < r.len() ==> #[trigger] r[i] is RetainV,
    ensures
        crate::compose::compose_units_s(x, r + rest) == Seq::new(
            r.len(),
            |i: int| reformat_unit(x[i], op_attrs(r[i])),
        ) + crate::compose::compose_units_s(x.skip(r.len() as int), rest),
    decreases r.len(),
{
    let lhs = crate::compose::compose_units_s(x, r + rest);
    if r.len() == 0 {
        assert(r + rest =~= rest);
        assert(x.skip(0) =~= x);
        assert(Seq::new(0, |i: int| reformat_unit(x[i], op_attrs(r[i])))
            + crate::compose::compose_units_s(x, rest) =~= crate::compose::compose_units_s(
            x,
            rest,
        ));
    } else {
        let b = r + rest;
        assert(b[0] == r[0]);
        assert(x[0] is InsertV || x[0] is InsertEmbedV);
        let emitted = reformat_unit(x[0], op_attrs(r[0]));
        assert(lhs == seq![emitted] + crate::compose::compose_units_s(
            x.drop_first(),
            b.drop_first(),
        ));
        assert(b.drop_first() =~= r.drop_first() + rest);
        assert(forall|i: int|
            0 <= i < x.drop_first().len() ==> #[trigger] x.drop_first()[i] == x[i + 1]);
        assert(forall|i: int|
            0 <= i < r.drop_first().len() ==> #[trigger] r.drop_first()[i] == r[i + 1]);
        lemma_compose_retain_phase(x.drop_first(), r.drop_first(), rest);
        assert(x.drop_first().skip(r.len() - 1) =~= x.skip(r.len() as int));
        let inner = Seq::new(
            r.drop_first().len(),
            |i: int| reformat_unit(x.drop_first()[i], op_attrs(r.drop_first()[i])),
        );
        let tail = crate::compose::compose_units_s(x.skip(r.len() as int), rest);
        assert(seq![emitted] + (inner + tail) =~= Seq::new(
            r.len(),
            |i: int| reformat_unit(x[i], op_attrs(r[i])),
        ) + tail);
    }
}

/// Composing a run of unit deletes onto document units drops them one by
/// one.
proof fn lemma_compose_delete_phase(x: Seq<OpV>, k: int, rest: Seq<OpV>)
    requires
        0 <= k <= x.len(),
        forall|i: int| 0 <= i < x.len() ==> (#[trigger] x[i] is InsertV || x[i] is InsertEmbedV),
    ensures
        crate::compose::compose_units_s(
            x,
            Seq::new(k as nat, |i: int| OpV::DeleteV(1)) + rest,
        ) == crate::compose::compose_units_s(x.skip(k), rest),
    decreases k,
{
    let dels = Seq::new(k as nat, |i: int| OpV::DeleteV(1));
    if k == 0 {
        assert(dels + rest =~= rest);
        assert(x.skip(0) =~= x);
    } else {
        let b = dels + rest;
        assert(b[0] == OpV::DeleteV(1));
        assert(x[0] is InsertV || x[0] is InsertEmbedV);
        assert(crate::compose::compose_units_s(x, b) == crate::compose::compose_units_s(
            x.drop_first(),
            b.drop_first(),
        ));
        assert(b.drop_first() =~= Seq::new((k - 1) as nat, |i: int| OpV::DeleteV(1)) + rest);
        assert(forall|i: int|
            0 <= i < x.drop_first().len() ==> #[trigger] x.drop_first()[i] == x[i + 1]);
        lemma_compose_delete_phase(x.drop_first(), k - 1, rest);
        assert(x.drop_first().skip(k - 1) =~= x.skip(k));
    }
}

/// Composing inserted units emits them as they stand.
proof fn lemma_compose_insert_phase(x: Seq<OpV>, ins: Seq<OpV>, rest: Seq<OpV>)
    requires
        forall|i: int|
            0 <= i < ins.len() ==> (#[trigger] ins[i] is InsertV || ins[i] is InsertEmbedV),
    ensures
        crate::compose::compose_units_s(x, ins + rest) == ins
            + crate::compose::compose_units_s(x, rest),
    decreases ins.len(),
{
    if ins.len() == 0 {
        assert(ins + rest =~= rest);
        assert(ins + crate::compose::compose_units_s(x, rest)
            =~= crate::compose::compose_units_s(x, rest));
    } else {
        let b = ins + rest;
        assert(b[0] == ins[0]);
        assert(crate::compose::compose_units_s(x, b) == seq![ins[0]]
            + crate::compose::compose_units_s(x, b.drop_first()));
        assert(b.drop_first() =~= ins.drop_first() + rest);
        assert(forall|i: int|
            0 <= i < ins.drop_first().len() ==> #[trigger] ins.drop_first()[i] == ins[i + 1]);
        lemma_compose_insert_phase(x, ins.drop_first(), rest);
        assert(seq![ins[0]] + (ins.drop_first() + crate::compose::compose_units_s(x, rest))
            =~= ins + crate::compose::compose_units_s(x, rest));
    }
}

/// Within the common prefix, the two sides' contents agree.
proof fn lemma_cpl_content(a: Seq<OpV>, b: Seq<OpV>)
    ensures
        forall|i: int| 0 <= i < cpl_s(a, b) ==> unit_content_eq(#[trigger] a[i], b[i]),
    decreases a.len(),
{
    lemma_cpl_bounds(a, b);
    if a.len() > 0 && b.len() > 0 && unit_content_eq(a[0], b[0]) {
        lemma_cpl_content(a.drop_first(), b.drop_first());
        assert forall|i: int| 0 <= i < cpl_s(a, b) implies unit_content_eq(
            #[trigger] a[i],
            b[i],
        ) by {
            if i > 0 {
                assert(a.drop_first()[i - 1] == a[i]);
                assert(b.drop_first()[i - 1] == b[i]);
                assert(unit_content_eq(a.drop_first()[i - 1], b.drop_first()[i - 1]));
            }
        }
    }
}

/// Within the common suffix, the two sides' contents agree.
proof fn lemma_csl_content(a: Seq<OpV>, b: Seq<OpV>, cap: int)
    ensures
        forall|j: int|
            0 <= j < csl_s(a, b, cap) ==> unit_content_eq(
                #[trigger] a[a.len() - 1 - j],
                b[b.len() - 1 - j],
            ),
    decreases a.len(),
{
    lemma_csl_bounds(a, b, cap);
    if cap > 0 && a.len() > 0 && b.len() > 0 && unit_content_eq(a.last(), b.last()) {
        lemma_csl_content(a.drop_last(), b.drop_last(), cap - 1);
        assert forall|j: int| 0 <= j < csl_s(a, b, cap) implies unit_content_eq(
            #[trigger] a[a.len() - 1 - j],
            b[b.len() - 1 - j],
        ) by {
            if j == 0 {
                assert(a[a.len() - 1] == a.last());
                assert(b[b.len() - 1] == b.last());
            } else {
                let ap = a.drop_last();
                let bp = b.drop_last();
                assert(unit_content_eq(ap[ap.len() - 1 - (j - 1)], bp[bp.len() - 1 - (j - 1)]));
                assert(ap[ap.len() - 1 - (j - 1)] == a[a.len() - 1 - j]);
                assert(bp[bp.len() - 1 - (j - 1)] == b[b.len() - 1 - j]);
            }
        }
    }
}

/// The same document, unit for unit: the same content under the same
/// attribute mapping.  Attribute-list order is abstracted away: two lists
/// denoting one mapping count as the same formatting.
pub open spec fn doc_equiv_u(x: Seq<OpV>, y: Seq<OpV>) -> bool {
    &&& x.len() == y.len()
    &&& forall|i: int|
        0 <= i < x.len() ==> unit_content_eq(#[trigger] x[i], y[i])
            && crate::attrs::attrs_as_map(op_attrs(x[i])) == crate::attrs::attrs_as_map(
            op_attrs(y[i]),
        )
}

/// Patch correctness of the diff: composing the first document's units
/// with the diff of the two documents yields the second document, unit for
/// unit — the same content under the same attribute mapping.  (The composed
/// attribute lists may order their entries differently from the second
/// document's, which `doc_equiv_u` abstracts away; this is why the law is
/// stated as document equivalence rather than structural delta equality.)
pub proof fn lemma_diff_patch_units(ua: Seq<OpV>, ub: Seq<OpV>)
    requires
        forall|i: int|
            0 <= i < ua.len() ==> (#[trigger] ua[i] is InsertV || ua[i] is InsertEmbedV)
                && op_attrs_wf(ua[i]),
        forall|i: int|
            0 <= i < ub.len() ==> (#[trigger] ub[i] is InsertV || ub[i] is InsertEmbedV)
                && op_attrs_wf(ub[i]),
    ensures
        doc_equiv_u(crate::compose::compose_units_s(ua, diff_units_s(ua, ub)), ub),
{
    let na = ua.len() as int;
    let nb = ub.len() as int;
    let p = cpl_s(ua, ub);
    let cap = min_i(na - p, nb - p);
    let s = csl_s(ua, ub, cap);
    lemma_cpl_bounds(ua, ub);
    lemma_csl_bounds(ua, ub, cap);
    let pre = retain_zip(ua, ub, 0, 0, p);
    let del = Seq::new((na - p - s) as nat, |i: int| OpV::DeleteV(1));
    let mid = ub.subrange(p, nb - s);
    let suf = retain_zip(ua, ub, na - s, nb - s, s);
    assert(diff_units_s(ua, ub) =~= pre + (del + (mid + suf)));
    // the prefix retains reformat the prefix units
    assert(forall|i: int| 0 <= i < pre.len() ==> #[trigger] pre[i] is RetainV);
    lemma_compose_retain_phase(ua, pre, del + (mid + suf));
    let ap1 = Seq::new(pre.len(), |i: int| reformat_unit(ua[i], op_attrs(pre[i])));
    // the delete span swallows the removed middle units
    let xs = ua.skip(p);
    assert(forall|i: int|
        0 <= i < xs.len() ==> (#[trigger] xs[i] is InsertV || xs[i] is InsertEmbedV)) by {
        assert(forall|i: int| 0 <= i < xs.len() ==> #[trigger] xs[i] == ua[i + p]);
    }
    lemma_compose_delete_phase(xs, na - p - s, mid + suf);
    assert(xs.skip(na - p - s) =~= ua.skip(na - s));
    // the new middle is emitted as it stands
    assert(forall|i: int|
        0 <= i < mid.len() ==> (#[trigger] mid[i] is InsertV || mid[i] is InsertEmbedV)) by {
        assert(forall|i: int| 0 <= i < mid.len() ==> #[trigger] mid[i] == ub[i + p]);
    }
    lemma_compose_insert_phase(ua.skip(na - s), mid, suf);
    // the suffix retains reformat the suffix units
    let ys = ua.skip(na - s);
    assert(forall|i: int|
        0 <= i < ys.len() ==> (#[trigger] ys[i] is InsertV || ys[i] is InsertEmbedV)) by {
        assert(forall|i: int| 0 <= i < ys.len() ==> #[trigger] ys[i] == ua[i + na - s]);
    }
    assert(forall|i: int| 0 <= i < suf.len() ==> #[trigger] suf[i] is RetainV);
    lemma_compose_retain_phase(ys, suf, Seq::empty());
    let ap2 = Seq::new(suf.len(), |i: int| reformat_unit(ys[i], op_attrs(suf[i])));
    assert(ys.skip(s) =~= Seq::<OpV>::empty());
    assert(crate::compose::compose_units_s(Seq::<OpV>::empty(), Seq::<OpV>::empty())
        == Seq::<OpV>::empty());
    let app = crate::compose::compose_units_s(ua, diff_units_s(ua, ub));
    assert(app =~= ap1 + mid + ap2) by {
        assert(ap2 + Seq::<OpV>::empty() =~= ap2);
    }
    // unit-for-unit equivalence with the second document
    lemma_cpl_content(ua, ub);
    lemma_csl_content(ua, ub, cap);
    assert(app.len() == nb);
    assert forall|i: int| 0 <= i < nb implies unit_content_eq(#[trigger] app[i], ub[i])
        && crate::attrs::attrs_as_map(op_attrs(app[i])) == crate::attrs::attrs_as_map(
        op_attrs(ub[i]),
    ) by {
        if i < p {
            assert(app[i] == ap1[i]);
            assert(pre[i] == OpV::RetainV(1, diff_attrs_s(op_attrs(ua[i]), op_attrs(ub[i]))));
            assert(unit_content_eq(ua[i], ub[i]));
            lemma_unit_patch(ua[i], ub[i]);
        } else if i < nb - s {
            assert(app[i] == mid[i - p]);
            assert(mid[i - p] == ub[i]);
            assert(unit_content_eq(ub[i], ub[i]));
        } else {
            let j = i - (nb - s);
            assert(app[i] == ap2[j]);
            assert(ys[j] == ua[na - s + j]);
            assert(suf[j] == OpV::RetainV(
                1,
                diff_attrs_s(op_attrs(ua[na - s + j]), op_attrs(ub[nb - s + j])),
            ));
            let jr = s - 1 - j;
            assert(unit_content_eq(ua[na - 1 - jr], ub[nb - 1 - jr]));
            assert(na - 1 - jr == na - s + j && nb - 1 - jr == nb - s + j);
            lemma_unit_patch(ua[na - s + j], ub[nb - s + j]);
        }
    }
}

/// Reformatting one document unit with the attribute change toward a
/// target unit of equal content gives that target, content and mapping.
proof fn lemma_unit_patch(u: OpV, v: OpV)
    requires
        u is InsertV || u is InsertEmbedV,
        v is InsertV || v is InsertEmbedV,
        op_attrs_wf(u),
        op_attrs_wf(v),
        unit_content_eq(u, v),
    ensures
        unit_content_eq(reformat_unit(u, diff_attrs_s(op_attrs(u), op_attrs(v))), v),
        crate::attrs::attrs_as_map(
            op_attrs(reformat_unit(u, diff_attrs_s(op_attrs(u), op_attrs(v)))),
        ) == crate::attrs::attrs_as_map(op_attrs(v)),
{
    crate::attrs::lemma_patch_attrs(op_attrs(u), op_attrs(v));
}

/// Delete-free operations yield delete-free units.
proof fn lemma_units_no_delete(x: Seq<OpV>)
    requires
        forall|j: int| 0 <= j < x.len() ==> !(#[trigger] x[j] is DeleteV),
    ensures
        forall|k: int|
            0 <= k < crate::ops::units_s(x).len() ==> !(#[trigger] crate::ops::units_s(x)[k]
                is DeleteV),
    decreases x.len(),
{
    if x.len() > 0 {
        let pre = x.drop_last();
        assert(forall|j: int| 0 <= j < pre.len() ==> #[trigger] pre[j] == x[j]);
        lemma_units_no_delete(pre);
        assert(x[x.len() - 1] == x.last());
        let u = crate::ops::op_units(x.last());
        assert(forall|k: int| 0 <= k < u.len() ==> !(#[trigger] u[k] is DeleteV));
        assert(forall|k: int|
            0 <= k < crate::ops::units_s(x).len() ==> !(#[trigger] crate::ops::units_s(x)[k]
                is DeleteV)) by {
            assert(forall|k: int|
                0 <= k < crate::ops::units_s(pre).len() ==> #[trigger] crate::ops::units_s(x)[k]
                    == crate::ops::units_s(pre)[k]);
            assert(forall|k: int|
                crate::ops::units_s(pre).len() <= k < crate::ops::units_s(x).len()
                    ==> #[trigger] crate::ops::units_s(x)[k] == u[
                    k - crate::ops::units_s(pre).len()
                ]);
        }
    }
}

/// Delete-free units come from delete-free operations.
proof fn lemma_no_delete_ops(x: Seq<OpV>)
    requires
        crate::ops::canonical(x),
        forall|k: int|
            0 <= k < crate::ops::units_s(x).len() ==> !(#[trigger] crate::ops::units_s(x)[k]
                is DeleteV),
    ensures
        forall|j: int| 0 <= j < x.len() ==> !(#[trigger] x[j] is DeleteV),
    decreases x.len(),
{
    if x.len() > 0 {
        let pre = x.drop_last();
        crate::ops::lemma_canonical_drop_last(x);
        assert(x[x.len() - 1] == x.last());
        let u = crate::ops::op_units(x.last());
        if x.last() is DeleteV {
            assert(op_len(x.last()) > 0);
            assert(u[0] == OpV::DeleteV(1));
            assert(crate::ops::units_s(x)[crate::ops::units_s(pre).len() as int] == u[0]);
        }
        assert(forall|k: int|
            0 <= k < crate::ops::units_s(pre).len() ==> #[trigger] crate::ops::units_s(pre)[k]
                == crate::ops::units_s(x)[k]);
        lemma_no_delete_ops(pre);
        assert(forall|j: int| 0 <= j < pre.len() ==> #[trigger] x[j] == pre[j]);
    }
}

/// Canonicalizing unit operations that are not inserts never reorders:
/// the units simply accumulate.
proof fn lemma_push_seq_no_inserts(acc: Seq<OpV>, w: Seq<OpV>)
    requires
        crate::ops::canonical(acc),
        forall|i: int|
            0 <= i < w.len() ==> op_len(#[trigger] w[i]) == 1 && op_attrs_wf(w[i]) && !(w[i]
                is InsertV) && !(w[i] is InsertEmbedV),
    ensures
        crate::ops::canonical(crate::ops::push_seq(acc, w)),
        crate::ops::units_s(crate::ops::push_seq(acc, w)) == crate::ops::units_s(acc) + w,
    decreases w.len(),
{
    if w.len() == 0 {
        assert(crate::ops::units_s(acc) + w =~= crate::ops::units_s(acc));
    } else {
        let u = w[0];
        let r = crate::ops::push_op(acc, u);
        crate::ops::lemma_push_op_canonical(acc, u);
        crate::ops::lemma_push_op_units(acc, u);
        assert(crate::ops::units_s(r) == crate::ops::units_s(acc) + seq![u]);
        assert(forall|i: int|
            0 <= i < w.drop_first().len() ==> #[trigger] w.drop_first()[i] == w[i + 1]);
        lemma_push_seq_no_inserts(r, w.drop_first());
        assert(crate::ops::units_s(acc) + seq![u] + w.drop_first() =~= crate::ops::units_s(acc)
            + w);
    }
}

/// Canonicalizing delete-free unit operations never reorders either, and
/// the result stays delete-free.
proof fn lemma_push_seq_delete_free(acc: Seq<OpV>, w: Seq<OpV>)
    requires
        crate::ops::canonical(acc),
        forall|j: int| 0 <= j < acc.len() ==> !(#[trigger] acc[j] is DeleteV),
        forall|i: int|
            0 <= i < w.len() ==> op_len(#[trigger] w[i]) == 1 && op_attrs_wf(w[i]) && !(w[i]
                is DeleteV),
    ensures
        crate::ops::canonical(crate::ops::push_seq(acc, w)),
        forall|j: int|
            0 <= j < crate::ops::push_seq(acc, w).len() ==> !(#[trigger] crate::ops::push_seq(
                acc,
                w,
            )[j] is DeleteV),
        crate::ops::units_s(crate::ops::push_seq(acc, w)) == crate::ops::units_s(acc) + w,
    decreases w.len(),
{
    if w.len() == 0 {
        assert(crate::ops::units_s(acc) + w =~= crate::ops::units_s(acc));
    } else {
        let u = w[0];
        let r = crate::ops::push_op(acc, u);
        crate::ops::lemma_push_op_canonical(acc, u);
        assert(!(acc.len() > 0 && acc.last() is DeleteV)) by {
            if acc.len() > 0 {
                assert(acc[acc.len() - 1] == acc.last());
            }
        }
        crate::ops::lemma_push_op_units(acc, u);
        assert(crate::ops::units_s(r) == crate::ops::units_s(acc) + seq![u]);
        lemma_units_no_delete(acc);
        assert(forall|k: int|
            0 <= k < crate::ops::units_s(r).len() ==> !(#[trigger] crate::ops::units_s(r)[k]
                is DeleteV)) by {
            assert(forall|k: int|
                0 <= k < crate::ops::units_s(acc).len() ==> #[trigger] crate::ops::units_s(r)[k]
                    == crate::ops::units_s(acc)[k]);
            assert(crate::ops::units_s(r)[crate::ops::units_s(acc).len() as int] == u);
        }
        lemma_no_delete_ops(r);
        assert(forall|i: int|
            0 <= i < w.drop_first().len() ==> #[trigger] w.drop_first()[i] == w[i + 1]);
        lemma_push_seq_delete_free(r, w.drop_first());
        assert(crate::ops::units_s(acc) + seq![u] + w.drop_first() =~= crate::ops::units_s(acc)
            + w);
    }
}

/// Unit deletes pushed onto a trailing delete merge into it.
proof fn lemma_push_seq_deletes_merge(acc: Seq<OpV>, m: int, k: int)
    requires
        acc.len() > 0,
        acc.last() == OpV::DeleteV(m),
        m > 0,
        k >= 0,
    ensures
        crate::ops::push_seq(acc, Seq::new(k as nat, |i: int| OpV::DeleteV(1)))
            == acc.drop_last().push(OpV::DeleteV(m + k)),
    decreases k,
{
    let dels = Seq::new(k as nat, |i: int| OpV::DeleteV(1));
    if k == 0 {
        assert(acc.drop_last().push(OpV::DeleteV(m)) =~= acc);
    } else {
        let r = crate::ops::push_op(acc, OpV::DeleteV(1));
        assert(r == acc.drop_last().push(OpV::DeleteV(m + 1)));
        assert(dels[0] == OpV::DeleteV(1));
        assert(dels.drop_first() =~= Seq::new((k - 1) as nat, |i: int| OpV::DeleteV(1)));
        assert(r.last() == OpV::DeleteV(m + 1)) by {
            assert(r[r.len() - 1] == OpV::DeleteV(m + 1));
        }
        assert(r.drop_last() =~= acc.drop_last());
        lemma_push_seq_deletes_merge(r, m + 1, k - 1);
    }
}

/// A run of unit deletes pushed after non-delete operations becomes one
/// delete at the end.
proof fn lemma_push_seq_deletes(acc: Seq<OpV>, k: int)
    requires
        crate::ops::canonical(acc),
        acc.len() == 0 || !(acc.last() is DeleteV),
        k >= 1,
    ensures
        crate::ops::push_seq(acc, Seq::new(k as nat, |i: int| OpV::DeleteV(1))) == acc.push(
            OpV::DeleteV(k),
        ),
        crate::ops::canonical(acc.push(OpV::DeleteV(k))),
{
    let dels = Seq::new(k as nat, |i: int| OpV::DeleteV(1));
    let first = crate::ops::push_op(acc, OpV::DeleteV(1));
    assert(first == acc.push(OpV::DeleteV(1))) by {
        if acc.len() == 0 {
            assert(seq![OpV::DeleteV(1)] =~= acc.push(OpV::DeleteV(1)));
        }
    }
    assert(dels[0] == OpV::DeleteV(1));
    assert(dels.drop_first() =~= Seq::new((k - 1) as nat, |i: int| OpV::DeleteV(1)));
    assert(first.last() == OpV::DeleteV(1)) by {
        assert(first[first.len() - 1] == OpV::DeleteV(1));
    }
    assert(first.drop_last() =~= acc);
    lemma_push_seq_deletes_merge(first, 1, k - 1);
    assert(crate::ops::push_op(acc, OpV::DeleteV(k)) == acc.push(OpV::DeleteV(k))) by {
        if acc.len() == 0 {
            assert(seq![OpV::DeleteV(k)] =~= acc.push(OpV::DeleteV(k)));
        }
    }
    crate::ops::lemma_push_op_canonical(acc, OpV::DeleteV(k));
}

/// Insert units pushed after a trailing delete slide in before it, in
/// order; the delete stays last.
proof fn lemma_push_seq_hoist(acc: Seq<OpV>, w: Seq<OpV>)
    requires
        crate::ops::canonical(acc),
        acc.len() > 0,
        acc.last() is DeleteV,
        forall|i: int|
            0 <= i < w.len() ==> op_len(#[trigger] w[i]) == 1 && op_attrs_wf(w[i]) && (w[i]
                is InsertV || w[i] is InsertEmbedV),
    ensures
        crate::ops::canonical(crate::ops::push_seq(acc, w)),
        crate::ops::push_seq(acc, w).len() > 0,
        crate::ops::push_seq(acc, w).last() == acc.last(),
        crate::ops::units_s(crate::ops::push_seq(acc, w)) == crate::ops::units_s(
            acc.drop_last(),
        ) + w + crate::ops::op_units(acc.last()),
    decreases w.len(),
{
    if w.len() == 0 {
        assert(acc[acc.len() - 1] == acc.last());
        assert(crate::ops::units_s(acc) == crate::ops::units_s(acc.drop_last())
            + crate::ops::op_units(acc.last()));
        assert(crate::ops::units_s(acc.drop_last()) + w + crate::ops::op_units(acc.last())
            =~= crate::ops::units_s(acc.drop_last()) + crate::ops::op_units(acc.last()));
    } else {
        let u = w[0];
        let r = crate::ops::push_op(acc, u);
        crate::ops::lemma_push_op_canonical(acc, u);
        crate::ops::lemma_push_op_units(acc, u);
        assert(r == crate::ops::push_op(acc.drop_last(), u).push(acc.last()));
        assert(r.last() == acc.last()) by {
            assert(r[r.len() - 1] == acc.last());
        }
        assert(r.drop_last() =~= crate::ops::push_op(acc.drop_last(), u));
        crate::ops::lemma_canonical_drop_last(acc);
        assert(!(acc.drop_last().len() > 0 && acc.drop_last().last() is DeleteV)) by {
            if acc.drop_last().len() > 0 {
                assert(acc.drop_last()[acc.drop_last().len() - 1] == acc[acc.len() - 2]);
                assert(acc[acc.len() - 1] == acc.last());
                assert(!crate::ops::mergeable(acc[acc.len() - 2], acc[acc.len() - 1]));
            }
        }
        crate::ops::lemma_push_op_units(acc.drop_last(), u);
        assert(crate::ops::units_s(r.drop_last()) == crate::ops::units_s(acc.drop_last())
            + seq![u]);
        assert(forall|i: int|
            0 <= i < w.drop_first().len() ==> #[trigger] w.drop_first()[i] == w[i + 1]);
        lemma_push_seq_hoist(r, w.drop_first());
        assert(crate::ops::units_s(acc.drop_last()) + seq![u] + w.drop_first()
            + crate::ops::op_units(acc.last()) =~= crate::ops::units_s(acc.drop_last()) + w
            + crate::ops::op_units(acc.last()));
    }
}

/// Insert-only operations yield insert-only units.
proof fn lemma_units_insert_only(x: Seq<OpV>)
    requires
        forall|j: int| 0 <= j < x.len() ==> (#[trigger] x[j] is InsertV || x[j] is InsertEmbedV),
    ensures
        forall|k: int|
            0 <= k < crate::ops::units_s(x).len() ==> (#[trigger] crate::ops::units_s(x)[k]
                is InsertV || crate::ops::units_s(x)[k] is InsertEmbedV),
    decreases x.len(),
{
    if x.len() > 0 {
        let pre = x.drop_last();
        assert(forall|j: int| 0 <= j < pre.len() ==> #[trigger] pre[j] == x[j]);
        lemma_units_insert_only(pre);
        assert(x[x.len() - 1] == x.last());
        let u = crate::ops::op_units(x.last());
        assert(forall|k: int|
            0 <= k < u.len() ==> (#[trigger] u[k] is InsertV || u[k] is InsertEmbedV));
        assert(forall|k: int|
            0 <= k < crate::ops::units_s(x).len() ==> (#[trigger] crate::ops::units_s(x)[k]
                is InsertV || crate::ops::units_s(x)[k] is InsertEmbedV)) by {
            assert(forall|k: int|
                0 <= k < crate::ops::units_s(pre).len() ==> #[trigger] crate::ops::units_s(x)[k]
                    == crate::ops::units_s(pre)[k]);
            assert(forall|k: int|
                crate::ops::units_s(pre).len() <= k < crate::ops::units_s(x).len()
                    ==> #[trigger] crate::ops::units_s(x)[k] == u[
                    k - crate::ops::units_s(pre).len()
                ]);
        }
    }
}

/// The diff's units after canonicalization: the same spans, with the
/// re-inserted middle slid in front of the delete (the canonical order of
/// an insert and an adjacent delete).
spec fn diff_units_hoisted(a: Seq<OpV>, b: Seq<OpV>) -> Seq<OpV> {
    let p = cpl_s(a, b);
    let cap = min_i(a.len() - p, b.len() - p);
    let s = csl_s(a, b, cap);
    retain_zip(a, b, 0, 0, p) + b.subrange(p, b.len() - s) + Seq::new(
        (a.len() - p - s) as nat,
        |i: int| OpV::DeleteV(1),
    ) + retain_zip(a, b, a.len() - s, b.len() - s, s)
}

/// Canonicalizing the diff's units merges them into operations whose units
/// are the hoisted form.
proof fn lemma_units_canon_diff(ua: Seq<OpV>, ub: Seq<OpV>)
    requires
        forall|i: int|
            0 <= i < ua.len() ==> (#[trigger] ua[i] is InsertV || ua[i] is InsertEmbedV)
                && op_len(ua[i]) == 1 && op_attrs_wf(ua[i]),
        forall|i: int|
            0 <= i < ub.len() ==> (#[trigger] ub[i] is InsertV || ub[i] is InsertEmbedV)
                && op_len(ub[i]) == 1 && op_attrs_wf(ub[i]),
    ensures
        crate::ops::canonical(canon(diff_units_s(ua, ub))),
        crate::ops::units_s(canon(diff_units_s(ua, ub))) == diff_units_hoisted(ua, ub),
{
    let na = ua.len() as int;
    let nb = ub.len() as int;
    let p = cpl_s(ua, ub);
    let cap = min_i(na - p, nb - p);
    let s = csl_s(ua, ub, cap);
    lemma_cpl_bounds(ua, ub);
    lemma_csl_bounds(ua, ub, cap);
    let pre = retain_zip(ua, ub, 0, 0, p);
    let k = na - p - s;
    let del = Seq::new(k as nat, |i: int| OpV::DeleteV(1));
    let mid = ub.subrange(p, nb - s);
    let suf = retain_zip(ua, ub, na - s, nb - s, s);
    let empty_acc = Seq::<OpV>::empty();
    assert(diff_units_s(ua, ub) == ((pre + del) + mid) + suf);
    crate::ops::lemma_push_seq_append(empty_acc, (pre + del) + mid, suf);
    crate::ops::lemma_push_seq_append(empty_acc, pre + del, mid);
    crate::ops::lemma_push_seq_append(empty_acc, pre, del);
    assert(crate::ops::canonical(empty_acc));
    assert(crate::ops::units_s(empty_acc) == Seq::<OpV>::empty());
    // the retain spans carry well-formed attribute diffs
    assert(forall|i: int|
        0 <= i < pre.len() ==> op_len(#[trigger] pre[i]) == 1 && op_attrs_wf(pre[i]) && !(pre[i]
            is DeleteV) && !(pre[i] is InsertV) && !(pre[i] is InsertEmbedV)) by {
        assert forall|i: int|
            0 <= i < pre.len() implies op_len(#[trigger] pre[i]) == 1 && op_attrs_wf(pre[i])
            && !(pre[i] is DeleteV) && !(pre[i] is InsertV) && !(pre[i] is InsertEmbedV) by {
            lemma_diff_attrs_wf(op_attrs(ua[i]), op_attrs(ub[i]));
        }
    }
    assert(forall|i: int|
        0 <= i < suf.len() ==> op_len(#[trigger] suf[i]) == 1 && op_attrs_wf(suf[i]) && !(suf[i]
            is InsertV) && !(suf[i] is InsertEmbedV)) by {
        assert forall|i: int|
            0 <= i < suf.len() implies op_len(#[trigger] suf[i]) == 1 && op_attrs_wf(suf[i])
            && !(suf[i] is InsertV) && !(suf[i] is InsertEmbedV) by {
            lemma_diff_attrs_wf(op_attrs(ua[na - s + i]), op_attrs(ub[nb - s + i]));
        }
    }
    assert(forall|i: int|
        0 <= i < mid.len() ==> op_len(#[trigger] mid[i]) == 1 && op_attrs_wf(mid[i]) && (mid[i]
            is InsertV || mid[i] is InsertEmbedV) && !(mid[i] is DeleteV)) by {
        assert(forall|i: int| 0 <= i < mid.len() ==> #[trigger] mid[i] == ub[i + p]);
    }
    let s1 = crate::ops::push_seq(empty_acc, pre);
    lemma_push_seq_delete_free(empty_acc, pre);
    assert(crate::ops::units_s(s1) =~= pre);
    let s2 = crate::ops::push_seq(s1, del);
    if k == 0 {
        assert(del =~= Seq::<OpV>::empty());
        assert(s2 == s1);
        let s3 = crate::ops::push_seq(s2, mid);
        lemma_push_seq_delete_free(s1, mid);
        assert(crate::ops::units_s(s3) =~= pre + mid);
        let s4 = crate::ops::push_seq(s3, suf);
        lemma_push_seq_no_inserts(s3, suf);
        assert(crate::ops::units_s(s4) =~= pre + mid + del + suf);
        assert(crate::ops::units_s(canon(diff_units_s(ua, ub))) =~= diff_units_hoisted(ua, ub));
    } else {
        assert(s1.len() == 0 || !(s1.last() is DeleteV)) by {
            if s1.len() > 0 {
                assert(s1[s1.len() - 1] == s1.last());
            }
        }
        lemma_push_seq_deletes(s1, k);
        assert(s2 == s1.push(OpV::DeleteV(k)));
        crate::ops::lemma_units_push(s1, OpV::DeleteV(k));
        assert(crate::ops::op_units(OpV::DeleteV(k)) =~= del);
        assert(crate::ops::units_s(s2) =~= pre + del);
        assert(s2.last() == OpV::DeleteV(k)) by {
            assert(s2[s2.len() - 1] == OpV::DeleteV(k));
        }
        assert(s2.drop_last() =~= s1);
        let s3 = crate::ops::push_seq(s2, mid);
        if mid.len() == 0 {
            assert(mid =~= Seq::<OpV>::empty());
            assert(s3 == s2);
            let s4 = crate::ops::push_seq(s3, suf);
            lemma_push_seq_no_inserts(s3, suf);
            assert(crate::ops::units_s(s4) =~= pre + mid + del + suf);
            assert(crate::ops::units_s(canon(diff_units_s(ua, ub))) =~= diff_units_hoisted(
                ua,
                ub,
            ));
        } else {
            lemma_push_seq_hoist(s2, mid);
            assert(crate::ops::units_s(s3) == crate::ops::units_s(s2.drop_last()) + mid
                + crate::ops::op_units(s2.last()));
            assert(crate::ops::units_s(s3) =~= pre + mid + del);
            let s4 = crate::ops::push_seq(s3, suf);
            lemma_push_seq_no_inserts(s3, suf);
            assert(crate::ops::units_s(s4) =~= pre + mid + del + suf);
            assert(crate::ops::units_s(canon(diff_units_s(ua, ub))) =~= diff_units_hoisted(
                ua,
                ub,
            ));
        }
    }
}

/// The delta-level patch law, read through the contracts of `Delta::diff`
/// and `Delta::compose`: for two well-formed documents `a` and `b`,
/// composing `a` with `a.diff(&b)` denotes the same document as `b` — the
/// same content units under the same attribute mappings.  (The composed
/// delta need not be structurally identical to `b`: composed attribute
/// lists may order their entries differently.)
#[verifier::rlimit(100)]
#[verifier::spinoff_prover]
pub proof fn lemma_diff_patch(a: Seq<OpV>, b: Seq<OpV>)
    requires
        crate::ops::canonical(a),
        crate::ops::canonical(b),
        insert_only(a),
        insert_only(b),
    ensures
        doc_equiv_u(
            crate::ops::units_s(
                canon(
                    crate::compose::compose_units_s(
                        crate::ops::units_s(a),
                        crate::ops::units_s(
                            canon(
                                diff_units_s(crate::ops::units_s(a), crate::ops::units_s(b)),
                            ),
                        ),
                    ),
                ),
            ),
            crate::ops::units_s(b),
        ),
{
    let ua = crate::ops::units_s(a);
    let ub = crate::ops::units_s(b);
    lemma_units_props(a);
    lemma_units_props(b);
    lemma_units_insert_only(a);
    lemma_units_insert_only(b);
    let na = ua.len() as int;
    let nb = ub.len() as int;
    let p = cpl_s(ua, ub);
    let cap = min_i(na - p, nb - p);
    let s = csl_s(ua, ub, cap);
    lemma_cpl_bounds(ua, ub);
    lemma_csl_bounds(ua, ub, cap);
    let pre = retain_zip(ua, ub, 0, 0, p);
    let k = na - p - s;
    let del = Seq::new(k as nat, |i: int| OpV::DeleteV(1));
    let mid = ub.subrange(p, nb - s);
    let suf = retain_zip(ua, ub, na - s, nb - s, s);
    // the canonicalized diff's units are the hoisted spans
    lemma_units_canon_diff(ua, ub);
    let h = diff_units_hoisted(ua, ub);
    assert(h =~= pre + (mid + (del + suf)));
    // composing the hoisted spans onto the document's units, span by span
    assert(forall|i: int| 0 <= i < pre.len() ==> #[trigger] pre[i] is RetainV);
    lemma_compose_retain_phase(ua, pre, mid + (del + suf));
    let ap1 = Seq::new(pre.len(), |i: int| reformat_unit(ua[i], op_attrs(pre[i])));
    let xs = ua.skip(p);
    assert(forall|i: int|
        0 <= i < xs.len() ==> (#[trigger] xs[i] is InsertV || xs[i] is InsertEmbedV)) by {
        assert(forall|i: int| 0 <= i < xs.len() ==> #[trigger] xs[i] == ua[i + p]);
    }
    assert(forall|i: int|
        0 <= i < mid.len() ==> (#[trigger] mid[i] is InsertV || mid[i] is InsertEmbedV)) by {
        assert(forall|i: int| 0 <= i < mid.len() ==> #[trigger] mid[i] == ub[i + p]);
    }
    lemma_compose_insert_phase(xs, mid, del + suf);
    lemma_compose_delete_phase(xs, k, suf);
    assert(xs.skip(k) =~= ua.skip(na - s));
    let ys = ua.skip(na - s);
    assert(forall|i: int|
        0 <= i < ys.len() ==> (#[trigger] ys[i] is InsertV || ys[i] is InsertEmbedV)) by {
        assert(forall|i: int| 0 <= i < ys.len() ==> #[trigger] ys[i] == ua[i + na - s]);
    }
    assert(forall|i: int| 0 <= i < suf.len() ==> #[trigger] suf[i] is RetainV);
    assert(suf + Seq::<OpV>::empty() =~= suf);
    lemma_compose_retain_phase(ys, suf, Seq::empty());
    let ap2 = Seq::new(suf.len(), |i: int| reformat_unit(ys[i], op_attrs(suf[i])));
    assert(ys.skip(s) =~= Seq::<OpV>::empty());
    assert(crate::compose::compose_units_s(Seq::<OpV>::empty(), Seq::<OpV>::empty())
        == Seq::<OpV>::empty());
    let app = crate::compose::compose_units_s(ua, crate::ops::units_s(
        canon(diff_units_s(ua, ub)),
    ));
    assert(app =~= ap1 + mid + ap2) by {
        assert(ap2 + Seq::<OpV>::empty() =~= ap2);
    }
    // the same spans arise from composing the diff's units directly, so the
    // unit-level patch law applies
    assert(diff_units_s(ua, ub) =~= pre + (del + (mid + suf)));
    lemma_compose_retain_phase(ua, pre, del + (mid + suf));
    lemma_compose_delete_phase(xs, k, mid + suf);
    lemma_compose_insert_phase(ys, mid, suf);
    let app0 = crate::compose::compose_units_s(ua, diff_units_s(ua, ub));
    assert(app0 =~= ap1 + mid + ap2) by {
        assert(ap2 + Seq::<OpV>::empty() =~= ap2);
    }
    lemma_diff_patch_units(ua, ub);
    assert(doc_equiv_u(app, ub));
    // the composed units are delete-free, so canonicalizing them only
    // merges: they re-split to themselves
    assert(forall|i: int|
        0 <= i < app.len() ==> op_len(#[trigger] app[i]) == 1 && op_attrs_wf(app[i]) && !(app[i]
            is DeleteV)) by {
        assert forall|i: int|
            0 <= i < app.len() implies op_len(#[trigger] app[i]) == 1 && op_attrs_wf(app[i])
            && !(app[i] is DeleteV) by {
            if i < p {
                assert(app[i] == ap1[i]);
                lemma_diff_attrs_wf(op_attrs(ua[i]), op_attrs(ub[i]));
                crate::attrs::lemma_compose_attrs_wf(
                    op_attrs(ua[i]),
                    op_attrs(pre[i]),
                    false,
                );
            } else if i < p + mid.len() {
                assert(app[i] == mid[i - p]);
                assert(mid[i - p] == ub[i - p + p]);
            } else {
                let j = i - p - mid.len();
                assert(app[i] == ap2[j]);
                assert(ys[j] == ua[na - s + j]);
                lemma_diff_attrs_wf(op_attrs(ua[na - s + j]), op_attrs(ub[nb - s + j]));
                crate::attrs::lemma_compose_attrs_wf(
                    op_attrs(ys[j]),
                    op_attrs(suf[j]),
                    false,
                );
            }
        }
    }
    assert(crate::ops::canonical(Seq::<OpV>::empty()));
    assert(crate::ops::units_s(Seq::<OpV>::empty()) == Seq::<OpV>::empty());
    lemma_push_seq_delete_free(Seq::empty(), app);
    assert(crate::ops::units_s(canon(app)) =~= app);
}

/// Is every operation an insert?
pub fn is_document(ops: &Vec<DeltaOps>) -> (r: bool)
    ensures
        r == insert_only(ops.deep_view()),
{
    let n = ops.len();
    let mut i: usize = 0;
    while i < n
        invariant
            n == ops.len(),
            i <= n,
            forall|j: int|
                0 <= j < i ==> (#[trigger] ops.deep_view()[j] is InsertV || ops.deep_view()[j]
                    is InsertEmbedV),
        decreases n - i,
    {
        let ok = match &ops[i] {
            DeltaOps::Insert(_, _) => true,
            DeltaOps::InsertEmbed(_, _) => true,
            _ => false,
        };
        if !ok {
            proof {
                assert(!(ops.deep_view()[i as int] is InsertV) && !(ops.deep_view()[i as int]
                    is InsertEmbedV));
            }
            return false;
        }
        i += 1;
    }
    true
}

} // verus!
