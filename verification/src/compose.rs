//! Composition of two sequential deltas into one cumulative delta.
//!
//! `b.compose` onto `a` walks both operation sequences in lock-step over
//! single content units: an insert of `b` is emitted as is; a delete of `a`
//! survives; a retain of `b` re-formats what `a` produced (with `b` winning
//! on key collision and `Null` acting as a removal tombstone); a delete of
//! `b` swallows an insert of `a` and turns a retain of `a` into a delete.

use vstd::prelude::*;

use crate::attrs::compose_attr_maps;
use crate::attrs::compose_attrs_s;
use crate::attrs::lemma_compose_attrs_wf;
use crate::ops::Delta;
use crate::ops::DeltaOps;
use crate::ops::OpV;
use crate::ops::canon;
use crate::ops::canonical;
use crate::ops::lemma_canon_units_id;
use crate::ops::lemma_units_props;
use crate::ops::op_attrs_wf;
use crate::ops::op_len;
use crate::ops::push_op;
use crate::ops::push_seq;
use crate::ops::push_to;
use crate::ops::total_len_s;
use crate::ops::units_s;

verus! {

/// Composition of two unit-level operation sequences.
pub open spec fn compose_units_s(a: Seq<OpV>, b: Seq<OpV>) -> Seq<OpV>
    decreases a.len() + b.len(),
{
    if b.len() > 0 && (b[0] is InsertV || b[0] is InsertEmbedV) {
        seq![b[0]] + compose_units_s(a, b.drop_first())
    } else if a.len() > 0 && a[0] is DeleteV {
        seq![a[0]] + compose_units_s(a.drop_first(), b)
    } else if b.len() == 0 {
        a
    } else if a.len() == 0 {
        b
    } else {
        let rest = compose_units_s(a.drop_first(), b.drop_first());
        match (a[0], b[0]) {
            (OpV::InsertV(s, aa), OpV::RetainV(_, ba)) => seq![
                OpV::InsertV(s, compose_attrs_s(aa, ba, false)),
            ] + rest,
            (OpV::InsertEmbedV(e, aa), OpV::RetainV(_, ba)) => seq![
                OpV::InsertEmbedV(e, compose_attrs_s(aa, ba, false)),
            ] + rest,
            (OpV::InsertV(_, _), OpV::DeleteV(_)) => rest,
            (OpV::InsertEmbedV(_, _), OpV::DeleteV(_)) => rest,
            (OpV::RetainV(_, aa), OpV::RetainV(_, ba)) => seq![
                OpV::RetainV(1, compose_attrs_s(aa, ba, true)),
            ] + rest,
            (OpV::RetainV(_, _), OpV::DeleteV(_)) => seq![OpV::DeleteV(1)] + rest,
            _ => rest,
        }
    }
}

/// Composing with nothing on the right changes nothing.
pub proof fn lemma_compose_units_empty(a: Seq<OpV>)
    ensures
        compose_units_s(a, Seq::empty()) == a,
    decreases a.len(),
{
    let b = Seq::<OpV>::empty();
    if a.len() > 0 && a[0] is DeleteV {
        lemma_compose_units_empty(a.drop_first());
        assert(compose_units_s(a, b) == seq![a[0]] + a.drop_first());
        assert(seq![a[0]] + a.drop_first() =~= a);
    }
}

/// Composing onto nothing emits the right side as it stands.
pub proof fn lemma_compose_units_b_only(b: Seq<OpV>)
    ensures
        compose_units_s(Seq::empty(), b) == b,
    decreases b.len(),
{
    let a = Seq::<OpV>::empty();
    if b.len() > 0 && (b[0] is InsertV || b[0] is InsertEmbedV) {
        lemma_compose_units_b_only(b.drop_first());
        assert(compose_units_s(a, b) == seq![b[0]] + b.drop_first());
        assert(seq![b[0]] + b.drop_first() =~= b);
    }
}

/// Composing a canonical delta with the identity (empty) delta gives the
/// delta back unchanged: the empty delta is a right identity of `compose`.
pub proof fn lemma_compose_identity(a: Seq<OpV>)
    requires
        canonical(a),
    ensures
        canon(compose_units_s(units_s(a), units_s(Seq::empty()))) == a,
{
    assert(units_s(Seq::<OpV>::empty()) == Seq::<OpV>::empty());
    lemma_compose_units_empty(units_s(a));
    lemma_canon_units_id(a);
}

/// Composing the identity (empty) delta with a canonical delta gives the
/// delta back unchanged: the empty delta is a left identity of `compose`.
pub proof fn lemma_compose_identity_left(b: Seq<OpV>)
    requires
        canonical(b),
    ensures
        canon(compose_units_s(units_s(Seq::empty()), units_s(b))) == b,
{
    assert(units_s(Seq::<OpV>::empty()) == Seq::<OpV>::empty());
    lemma_compose_units_b_only(units_s(b));
    lemma_canon_units_id(b);
}

impl Delta {
    /// Compose `other` onto this delta: the single delta that edits a base
    /// document exactly as applying this delta and then `other` would.
    pub fn compose(&self, other: &Delta) -> (r: Delta)
        requires
            self.wf(),
            other.wf(),
            total_len_s(self@) + total_len_s(other@) <= usize::MAX as int,
        ensures
            r@ == canon(compose_units_s(units_s(self@), units_s(other@))),
            r.wf(),
    {
        let ua = self.to_units();
        let ub = other.to_units();
        let ghost uav = units_s(self@);
        let ghost ubv = units_s(other@);
        proof {
            lemma_units_props(self@);
            lemma_units_props(other@);
        }
        let na = ua.len();
        let nb = ub.len();
        let mut out: Vec<DeltaOps> = Vec::new();
        let mut ai: usize = 0;
        let mut bi: usize = 0;
        proof {
            assert(uav.skip(0) =~= uav);
            assert(ubv.skip(0) =~= ubv);
            assert(out.deep_view() =~= Seq::<OpV>::empty());
        }
        while ai < na || bi < nb
            invariant
                na == ua.len(),
                nb == ub.len(),
                ua.deep_view() == uav,
                ub.deep_view() == ubv,
                na + nb <= usize::MAX as int,
                forall|j: int|
                    0 <= j < uav.len() ==> op_len(#[trigger] uav[j]) == 1 && op_attrs_wf(uav[j]),
                forall|j: int|
                    0 <= j < ubv.len() ==> op_len(#[trigger] ubv[j]) == 1 && op_attrs_wf(ubv[j]),
                ai <= na,
                bi <= nb,
                canonical(out.deep_view()),
                total_len_s(out.deep_view()) <= ai + bi,
                push_seq(Seq::empty(), compose_units_s(uav, ubv)) == push_seq(
                    out.deep_view(),
                    compose_units_s(uav.skip(ai as int), ubv.skip(bi as int)),
                ),
            decreases (na - ai) + (nb - bi),
        {
            let ghost ra = uav.skip(ai as int);
            let ghost rb = ubv.skip(bi as int);
            proof {
                if ai < na {
                    assert(ra[0] == uav[ai as int]);
                    assert(ra.drop_first() =~= uav.skip(ai as int + 1));
                }
                if bi < nb {
                    assert(rb[0] == ubv[bi as int]);
                    assert(rb.drop_first() =~= ubv.skip(bi as int + 1));
                }
            }
            let b_is_insert: bool = if bi < nb {
                match &ub[bi] {
                    DeltaOps::Insert(_, _) => true,
                    DeltaOps::InsertEmbed(_, _) => true,
                    _ => false,
                }
            } else {
                false
            };
            let a_is_delete: bool = if ai < na {
                match &ua[ai] {
                    DeltaOps::Delete(_) => true,
                    _ => false,
                }
            } else {
                false
            };
            if b_is_insert {
                proof {
                    assert(compose_units_s(ra, rb) == seq![rb[0]] + compose_units_s(
                        ra,
                        rb.drop_first(),
                    ));
                    assert((seq![rb[0]] + compose_units_s(ra, rb.drop_first()))[0] == rb[0]);
                    assert((seq![rb[0]] + compose_units_s(ra, rb.drop_first())).drop_first()
                        =~= compose_units_s(ra, ubv.skip(bi as int + 1)));
                }
                push_to(&mut out, ub[bi].clone());
                bi += 1;
            } else if a_is_delete {
                proof {
                    assert(compose_units_s(ra, rb) == seq![ra[0]] + compose_units_s(
                        ra.drop_first(),
                        rb,
                    ));
                    assert((seq![ra[0]] + compose_units_s(ra.drop_first(), rb))[0] == ra[0]);
                    assert((seq![ra[0]] + compose_units_s(ra.drop_first(), rb)).drop_first()
                        =~= compose_units_s(uav.skip(ai as int + 1), rb));
                }
                push_to(&mut out, ua[ai].clone());
                ai += 1;
            } else if bi >= nb {
                proof {
                    assert(rb =~= Seq::<OpV>::empty());
                    assert(ubv.skip(bi as int) =~= Seq::<OpV>::empty());
                    lemma_compose_units_empty(ra);
                    assert(compose_units_s(ra, rb) == ra);
                    assert(ra[0] == uav[ai as int]);
                    lemma_compose_units_empty(uav.skip(ai as int + 1));
                    assert(ra.drop_first() =~= compose_units_s(
                        uav.skip(ai as int + 1),
                        ubv.skip(bi as int),
                    ));
                }
                push_to(&mut out, ua[ai].clone());
                ai += 1;
            } else if ai >= na {
                proof {
                    assert(ra =~= Seq::<OpV>::empty());
                    assert(uav.skip(ai as int) =~= Seq::<OpV>::empty());
                    lemma_compose_units_b_only(rb);
                    assert(compose_units_s(ra, rb) == rb);
                    assert(rb[0] == ubv[bi as int]);
                    lemma_compose_units_b_only(ubv.skip(bi as int + 1));
                    assert(rb.drop_first() =~= compose_units_s(
                        uav.skip(ai as int),
                        ubv.skip(bi as int + 1),
                    ));
                }
                push_to(&mut out, ub[bi].clone());
                bi += 1;
            } else {
                let ghost au = uav[ai as int];
                let ghost bu = ubv[bi as int];
                let ghost rest = compose_units_s(
                    uav.skip(ai as int + 1),
                    ubv.skip(bi as int + 1),
                );
                match (&ua[ai], &ub[bi]) {
                    (DeltaOps::Insert(t, aa), DeltaOps::Retain(_, ba)) => {
                        let u = DeltaOps::Insert(t.clone(), compose_attr_maps(aa, ba, false));
                        proof {
                            assert(compose_units_s(ra, rb) == compose_pair(au, bu) + rest);
                            lemma_compose_attrs_wf(aa@, ba@, false);
                            assert(compose_pair(au, bu) =~= seq![u@]);
                            assert((seq![u@] + rest)[0] == u@);
                            assert((seq![u@] + rest).drop_first() =~= rest);
                        }
                        push_to(&mut out, u);
                    },
                    (DeltaOps::InsertEmbed(e, aa), DeltaOps::Retain(_, ba)) => {
                        let u = DeltaOps::InsertEmbed(
                            e.clone(),
                            compose_attr_maps(aa, ba, false),
                        );
                        proof {
                            assert(compose_units_s(ra, rb) == compose_pair(au, bu) + rest);
                            lemma_compose_attrs_wf(aa@, ba@, false);
                            assert(compose_pair(au, bu) =~= seq![u@]);
                            assert((seq![u@] + rest)[0] == u@);
                            assert((seq![u@] + rest).drop_first() =~= rest);
                        }
                        push_to(&mut out, u);
                    },
                    (DeltaOps::Insert(_, _), DeltaOps::Delete(_)) => {
                        proof {
                            assert(compose_units_s(ra, rb) == compose_pair(au, bu) + rest);
                            assert(compose_pair(au, bu) =~= Seq::<OpV>::empty());
                            assert(Seq::<OpV>::empty() + rest =~= rest);
                        }
                    },
                    (DeltaOps::InsertEmbed(_, _), DeltaOps::Delete(_)) => {
                        proof {
                            assert(compose_units_s(ra, rb) == compose_pair(au, bu) + rest);
                            assert(compose_pair(au, bu) =~= Seq::<OpV>::empty());
                            assert(Seq::<OpV>::empty() + rest =~= rest);
                        }
                    },
                    (DeltaOps::Retain(_, aa), DeltaOps::Retain(_, ba)) => {
                        let u = DeltaOps::Retain(1, compose_attr_maps(aa, ba, true));
                        proof {
                            assert(compose_units_s(ra, rb) == compose_pair(au, bu) + rest);
                            lemma_compose_attrs_wf(aa@, ba@, true);
                            assert(compose_pair(au, bu) =~= seq![u@]);
                            assert((seq![u@] + rest)[0] == u@);
                            assert((seq![u@] + rest).drop_first() =~= rest);
                        }
                        push_to(&mut out, u);
                    },
                    (DeltaOps::Retain(_, _), DeltaOps::Delete(_)) => {
                        let u = DeltaOps::Delete(1);
                        proof {
                            assert(compose_units_s(ra, rb) == compose_pair(au, bu) + rest);
                            assert(compose_pair(au, bu) =~= seq![u@]);
                            assert((seq![u@] + rest)[0] == u@);
                            assert((seq![u@] + rest).drop_first() =~= rest);
                        }
                        push_to(&mut out, u);
                    },
                    _ => {
                        proof {
                            assert(false);
                        }
                    },
                }
                ai += 1;
                bi += 1;
            }
        }
        proof {
            assert(uav.skip(na as int) =~= Seq::<OpV>::empty());
            assert(ubv.skip(nb as int) =~= Seq::<OpV>::empty());
            assert(compose_units_s(Seq::empty(), Seq::empty()) == Seq::<OpV>::empty());
            assert(push_seq(out.deep_view(), Seq::<OpV>::empty()) == out.deep_view());
        }
        Delta { ops: out }
    }
}

/// What one lock-step pair of units composes to.
pub open spec fn compose_pair(au: OpV, bu: OpV) -> Seq<OpV> {
    match (au, bu) {
        (OpV::InsertV(s, aa), OpV::RetainV(_, ba)) => seq![
            OpV::InsertV(s, compose_attrs_s(aa, ba, false)),
        ],
        (OpV::InsertEmbedV(e, aa), OpV::RetainV(_, ba)) => seq![
            OpV::InsertEmbedV(e, compose_attrs_s(aa, ba, false)),
        ],
        (OpV::InsertV(_, _), OpV::DeleteV(_)) => Seq::empty(),
        (OpV::InsertEmbedV(_, _), OpV::DeleteV(_)) => Seq::empty(),
        (OpV::RetainV(_, aa), OpV::RetainV(_, ba)) => seq![
            OpV::RetainV(1, compose_attrs_s(aa, ba, true)),
        ],
        (OpV::RetainV(_, _), OpV::DeleteV(_)) => seq![OpV::DeleteV(1)],
        _ => Seq::empty(),
    }
}

} // verus!
