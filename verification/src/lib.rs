//! A rich-text document-delta library.
//!
//! A `Delta` is an ordered sequence of insert / delete / retain operations
//! describing an edit to a text-like document.  This crate provides the
//! delta model together with the algorithms that combine (`compose`),
//! structurally compare (`diff`) and reconcile concurrent edits
//! (`transform`, `transform_position`), a typed formatting-attribute
//! vocabulary, a lossless textual serialization, and a handle-based
//! subscription registry with exactly-once, order-independent removal.

pub mod attrs;
pub mod codec;
pub mod compose;
pub mod diff;
pub mod editor;
pub mod ops;
pub mod transform;
pub mod registry;
pub mod vocab;

pub use attrs::AttrEntry;
pub use attrs::AttrMap;
pub use attrs::AttrValue;
pub use editor::ContentRange;
pub use editor::DeltaEditor;
pub use editor::EventChange;
pub use editor::Selection;
pub use editor::Source;
pub use ops::Delta;
pub use ops::DeltaError;
pub use ops::DeltaOps;
pub use registry::SubscriptionRegistry;
pub use vocab::EmbedAttr;
pub use vocab::Embeds;
pub use vocab::Inline;
pub use vocab::decode_inlines;
pub use vocab::embed_attrs_to_map;
pub use vocab::inlines_to_map;
