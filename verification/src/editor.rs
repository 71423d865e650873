//! A thin stateful façade over one `Delta`: every mutation composes the
//! change into the owned delta and hands the single-change delta back, so a
//! caller can track cumulative state and inspect each discrete edit.
//!
//! Also the small value types of the editor's event surface: selection
//! ranges, change sources and change events.

use vstd::prelude::*;

use crate::attrs::drop_nulls_s;
use crate::attrs::dedup_s;
use crate::compose::compose_units_s;
use crate::ops::Delta;
use crate::ops::DeltaError;
use crate::ops::DeltaOps;
use crate::ops::OpV;
use crate::ops::canon;
use crate::ops::lemma_push_op_canonical;
use crate::ops::push_op;
use crate::ops::push_seq;
use crate::ops::sanitize_seq_s;
use crate::ops::total_len_s;
use crate::ops::units_s;
use crate::vocab::EmbedAttrV;
use crate::vocab::Embeds;
use crate::vocab::EmbedAttr;
use crate::vocab::Inline;
use crate::vocab::InlineV;
use crate::vocab::encode_all_s;
use crate::vocab::encode_embed_all_s;
use crate::vocab::embed_attrs_to_map;
use crate::vocab::inlines_to_map;

verus! {

/// The delta a single text insert builds.
pub open spec fn text_change_s(text: Seq<char>, attrs: Seq<InlineV>) -> Seq<OpV> {
    push_op(Seq::empty(), OpV::InsertV(text, drop_nulls_s(dedup_s(encode_all_s(attrs)))))
}

/// The delta a single embed insert builds.
pub open spec fn embed_change_s(embed: crate::vocab::EmbedsV, attrs: Seq<EmbedAttrV>) -> Seq<
    OpV,
> {
    push_op(
        Seq::empty(),
        OpV::InsertEmbedV(embed, drop_nulls_s(dedup_s(encode_embed_all_s(attrs)))),
    )
}

/// The delta a single delete builds.
pub open spec fn delete_change_s(len: int) -> Seq<OpV> {
    push_op(Seq::empty(), OpV::DeleteV(len))
}

/// The delta a single retain builds.
pub open spec fn retain_change_s(len: int, attrs: Seq<InlineV>) -> Seq<OpV> {
    push_op(Seq::empty(), OpV::RetainV(len, dedup_s(encode_all_s(attrs))))
}

/// A stateful façade over one delta.
pub struct DeltaEditor {
    pub delta: Delta,
}

impl View for DeltaEditor {
    type V = Seq<OpV>;

    open spec fn view(&self) -> Seq<OpV> {
        self.delta@
    }
}

impl DeltaEditor {
    /// The owned delta is canonical and machine-bounded.
    pub open spec fn wf(&self) -> bool {
        self.delta.wf()
    }

    /// An editor over the canonicalized form of the given operations.
    pub fn new(ops: Vec<DeltaOps>) -> (r: DeltaEditor)
        requires
            total_len_s(ops.deep_view()) <= usize::MAX as int,
        ensures
            r@ == canon(sanitize_seq_s(ops.deep_view())),
            r.wf(),
    {
        DeltaEditor { delta: Delta::from_ops(ops) }
    }

    /// An editor over an existing delta.
    pub fn from_delta(delta: Delta) -> (r: DeltaEditor)
        requires
            delta.wf(),
        ensures
            r@ == delta@,
            r.wf(),
    {
        DeltaEditor { delta }
    }

    /// The owned delta.
    pub fn get_inner_delta(&self) -> (r: &Delta)
        ensures
            r@ == self@,
    {
        &self.delta
    }

    /// Insert `text` with the given formats at the edit cursor; the owned
    /// delta becomes the composition, and the single-insert change delta is
    /// returned.
    pub fn insert_text(&mut self, text: &str, attributes: &Vec<Inline>) -> (r: Delta)
        requires
            old(self).wf(),
            total_len_s(old(self)@) + text@.len() <= usize::MAX as int,
        ensures
            r@ == text_change_s(text@, attributes.deep_view()),
            final(self)@ == canon(compose_units_s(units_s(old(self)@), units_s(r@))),
            final(self).wf(),
    {
        proof {
            crate::ops::lemma_total_nonneg(self@);
        }
        let attrs = inlines_to_map(attributes);
        let change = Delta::new().insert(text, &attrs);
        proof {
            crate::ops::lemma_total_nonneg(self@);
            crate::ops::lemma_dedup_wf(encode_all_s(attributes.deep_view()));
            crate::attrs::lemma_drop_nulls_props(dedup_s(encode_all_s(attributes.deep_view())));
            assert(crate::ops::canonical(Seq::<OpV>::empty()));
            lemma_push_op_canonical(
                Seq::empty(),
                OpV::InsertV(
                    text@,
                    drop_nulls_s(dedup_s(encode_all_s(attributes.deep_view()))),
                ),
            );
        }
        self.delta = self.delta.compose(&change);
        change
    }

    /// Insert one embedded content unit with the given embed formats.
    pub fn insert_embed(&mut self, embed: Embeds, attributes: &Vec<EmbedAttr>) -> (r: Delta)
        requires
            old(self).wf(),
            total_len_s(old(self)@) + 1 <= usize::MAX as int,
        ensures
            r@ == embed_change_s(embed@, attributes.deep_view()),
            final(self)@ == canon(compose_units_s(units_s(old(self)@), units_s(r@))),
            final(self).wf(),
    {
        proof {
            crate::ops::lemma_total_nonneg(self@);
        }
        let attrs = embed_attrs_to_map(attributes);
        let ghost ev = embed@;
        let change = Delta::new().insert_embed(embed, &attrs);
        proof {
            crate::ops::lemma_total_nonneg(self@);
            crate::ops::lemma_dedup_wf(encode_embed_all_s(attributes.deep_view()));
            crate::attrs::lemma_drop_nulls_props(
                dedup_s(encode_embed_all_s(attributes.deep_view())),
            );
            assert(crate::ops::canonical(Seq::<OpV>::empty()));
            lemma_push_op_canonical(
                Seq::empty(),
                OpV::InsertEmbedV(
                    ev,
                    drop_nulls_s(dedup_s(encode_embed_all_s(attributes.deep_view()))),
                ),
            );
        }
        self.delta = self.delta.compose(&change);
        change
    }

    /// Delete `length` content units at the edit cursor.
    pub fn delete(&mut self, length: usize) -> (r: Delta)
        requires
            old(self).wf(),
            total_len_s(old(self)@) + length <= usize::MAX as int,
        ensures
            r@ == delete_change_s(length as int),
            final(self)@ == canon(compose_units_s(units_s(old(self)@), units_s(r@))),
            final(self).wf(),
    {
        proof {
            crate::ops::lemma_total_nonneg(self@);
        }
        let change = Delta::new().delete(length);
        proof {
            crate::ops::lemma_total_nonneg(self@);
            assert(crate::ops::canonical(Seq::<OpV>::empty()));
            lemma_push_op_canonical(Seq::empty(), OpV::DeleteV(length as int));
        }
        self.delta = self.delta.compose(&change);
        change
    }

    /// Keep `length` content units, optionally re-formatting them.
    pub fn retain(&mut self, length: usize, attributes: &Vec<Inline>) -> (r: Delta)
        requires
            old(self).wf(),
            total_len_s(old(self)@) + length <= usize::MAX as int,
        ensures
            r@ == retain_change_s(length as int, attributes.deep_view()),
            final(self)@ == canon(compose_units_s(units_s(old(self)@), units_s(r@))),
            final(self).wf(),
    {
        proof {
            crate::ops::lemma_total_nonneg(self@);
        }
        let attrs = inlines_to_map(attributes);
        let change = Delta::new().retain(length, &attrs);
        proof {
            crate::ops::lemma_total_nonneg(self@);
            crate::ops::lemma_dedup_wf(encode_all_s(attributes.deep_view()));
            assert(crate::ops::canonical(Seq::<OpV>::empty()));
            lemma_push_op_canonical(
                Seq::empty(),
                OpV::RetainV(length as int, dedup_s(encode_all_s(attributes.deep_view()))),
            );
        }
        self.delta = self.delta.compose(&change);
        change
    }

    /// A new editor over the concatenation of both owned deltas; neither
    /// editor is touched.
    pub fn concat(&self, other: &DeltaEditor) -> (r: DeltaEditor)
        requires
            self.wf(),
            other.wf(),
            total_len_s(self@) + total_len_s(other@) <= usize::MAX as int,
        ensures
            r@ == push_seq(self@, other@),
            r.wf(),
    {
        DeltaEditor { delta: self.delta.concat(&other.delta) }
    }

    /// The owned delta's textual serialization (see `Delta::to_text`).
    pub fn to_text(&self) -> (r: String)
        ensures
            r@ == crate::codec::print_delta(self@),
    {
        self.delta.to_text()
    }

    /// An editor parsed back from a textual serialization (see
    /// `Delta::from_text`).
    pub fn from_text(s: &str) -> (r: Result<DeltaEditor, DeltaError>)
        ensures
            match r {
                Ok(d) => crate::codec::sp_delta(s@) matches Some((ops, j)) && j == s@.len()
                    && total_len_s(ops) <= usize::MAX as int && d@ == canon(sanitize_seq_s(ops))
                    && d.wf(),
                Err(e) => e == DeltaError::InvalidOperation && match crate::codec::sp_delta(s@) {
                    Some((ops, j)) => j != s@.len() || total_len_s(ops) > usize::MAX as int,
                    None => true,
                },
            },
    {
        match Delta::from_text(s) {
            Ok(d) => Ok(DeltaEditor { delta: d }),
            Err(e) => Err(e),
        }
    }

    /// The delta editing this document into `other`'s, aligned by the
    /// longest common content prefix and suffix (see `Delta::diff`; patch
    /// correctness is `crate::diff::lemma_diff_patch`).
    pub fn diff(&self, other: &DeltaEditor) -> (r: Result<DeltaEditor, DeltaError>)
        requires
            self.wf(),
            other.wf(),
            total_len_s(self@) + total_len_s(other@) <= usize::MAX as int,
        ensures
            match r {
                Ok(d) => crate::diff::insert_only(self@) && crate::diff::insert_only(other@)
                    && d@ == canon(
                    crate::diff::diff_units_s(units_s(self@), units_s(other@)),
                ) && d.wf(),
                Err(e) => !(crate::diff::insert_only(self@) && crate::diff::insert_only(other@))
                    && e == DeltaError::InvalidOperation,
            },
    {
        match self.delta.diff(&other.delta) {
            Ok(d) => Ok(DeltaEditor { delta: d }),
            Err(e) => Err(e),
        }
    }
}

// ---------------------------------------------------------------------------
// Event-surface value types
// ---------------------------------------------------------------------------

/// A selection range reported by the editor surface.
#[derive(Clone, Copy, Debug)]
pub struct Selection {
    pub index: u32,
    pub length: u32,
}

/// Where a change came from.
#[derive(Clone, Copy, Debug)]
pub enum Source {
    Api,
    User,
    Silent,
}

/// The tag a change source is reported under.
pub open spec fn source_tag_s(s: Source) -> Seq<char> {
    match s {
        Source::Api => "api"@,
        Source::User => "user"@,
        Source::Silent => "silent"@,
    }
}

impl Source {
    /// The source's wire tag.
    pub fn as_str(&self) -> (r: &str)
        ensures
            r@ == source_tag_s(*self),
    {
        match self {
            Source::Api => "api",
            Source::User => "user",
            Source::Silent => "silent",
        }
    }
}

impl Default for Source {
    fn default() -> (r: Self)
        ensures
            r is Api,
    {
        Source::Api
    }
}

/// A half-open content range with an optional length.
#[derive(Clone, Copy, Debug)]
pub struct ContentRange {
    pub index: usize,
    pub length: Option<usize>,
}

impl ContentRange {
    /// The range starting at zero with no length set.
    pub fn new() -> (r: Self)
        ensures
            r.index == 0,
            r.length is None,
    {
        ContentRange { index: 0, length: None }
    }

    /// The same range moved to `index`.
    pub fn set_index(self, index: usize) -> (r: Self)
        ensures
            r.index == index,
            r.length == self.length,
    {
        ContentRange { index, length: self.length }
    }

    /// The same range with `length` set.
    pub fn set_length(self, length: usize) -> (r: Self)
        ensures
            r.index == self.index,
            r.length == Some(length),
    {
        ContentRange { index: self.index, length: Some(length) }
    }

    /// Where the range starts.
    pub fn index(&self) -> (r: usize)
        ensures
            r == self.index,
    {
        self.index
    }

    /// The range's length; zero when none was set.
    pub fn length(&self) -> (r: usize)
        ensures
            r == (match self.length {
                Some(l) => l,
                None => 0,
            }),
    {
        match self.length {
            Some(l) => l,
            None => 0,
        }
    }
}

impl Default for ContentRange {
    fn default() -> (r: Self)
        ensures
            r.index == 0,
            r.length is None,
    {
        ContentRange::new()
    }
}

/// One editor change event, as handed to registered callbacks.
pub enum EventChange {
    /// A document change: the change delta, the prior-state delta, and the
    /// change source.
    Text(Delta, Delta, Source),
    /// A selection change: the old and new ranges, and the change source.
    Selection(Option<ContentRange>, Option<ContentRange>, Source),
    /// Any other editor event, by name.
    Generic(String),
}

/// The event name a change is dispatched under.
pub open spec fn event_name_s(e: &EventChange) -> Seq<char> {
    match e {
        EventChange::Text(_, _, _) => "text-change"@,
        EventChange::Selection(_, _, _) => "selection-change"@,
        EventChange::Generic(n) => n@,
    }
}

impl EventChange {
    /// The event name this change is dispatched under.
    pub fn name(&self) -> (r: &str)
        ensures
            r@ == event_name_s(self),
    {
        match self {
            EventChange::Text(_, _, _) => "text-change",
            EventChange::Selection(_, _, _) => "selection-change",
            EventChange::Generic(n) => n.as_str(),
        }
    }
}

} // verus!
