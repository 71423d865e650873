//! The typed formatting vocabulary: inline character formats, embed formats
//! and embedded content, with their conversions to and from the generic
//! attribute mapping.
//!
//! Decoding a generic mapping is priority-ordered: every well-known key whose
//! value has the expected shape becomes its closed variant; a well-known key
//! with an ill-shaped value is skipped silently; any other non-empty key is
//! preserved as a `Custom` attribute so that unfamiliar formatting survives a
//! round trip.

use vstd::prelude::*;

use crate::attrs::AttrEntry;
use crate::attrs::AttrEntryV;
use crate::attrs::AttrMap;
use crate::attrs::AttrValue;
use crate::attrs::AttrValueV;
use crate::attrs::has_key;
use crate::attrs::lemma_remove_key_unique;
use crate::attrs::remove_key_s;
use crate::attrs::set_entry_s;
use crate::attrs::str_eq;
use crate::attrs::unique_keys;

verus! {

// ---------------------------------------------------------------------------
// Inline character formats
// ---------------------------------------------------------------------------

/// Model of an inline character format.
pub enum InlineV {
    BoldV,
    ItalicV,
    UnderlineV,
    LinkV(Seq<char>),
    StrikeV,
    CodeV,
    BgColorV(Seq<char>),
    ColorV(Seq<char>),
    FontV(Seq<char>),
    SizeV(i64),
    SubV,
    SupV,
    AlignV(Seq<char>),
    CustomV(Seq<char>, AttrValueV),
}

/// An inline character format: a closed set of well-known formats plus a
/// `Custom` escape for any other key.
pub enum Inline {
    Bold,
    Italic,
    Underline,
    Link(String),
    Strike,
    Code,
    /// Highlight (background) color.
    BgColor(String),
    /// Text color.
    Color(String),
    /// Font family.
    Font(String),
    /// Text size.
    Size(i64),
    Sub,
    Sup,
    Align(String),
    /// Any attribute whose key is not in the closed set.
    Custom(String, AttrValue),
}

impl View for Inline {
    type V = InlineV;

    open spec fn view(&self) -> InlineV {
        match self {
            Inline::Bold => InlineV::BoldV,
            Inline::Italic => InlineV::ItalicV,
            Inline::Underline => InlineV::UnderlineV,
            Inline::Link(s) => InlineV::LinkV(s@),
            Inline::Strike => InlineV::StrikeV,
            Inline::Code => InlineV::CodeV,
            Inline::BgColor(s) => InlineV::BgColorV(s@),
            Inline::Color(s) => InlineV::ColorV(s@),
            Inline::Font(s) => InlineV::FontV(s@),
            Inline::Size(n) => InlineV::SizeV(*n),
            Inline::Sub => InlineV::SubV,
            Inline::Sup => InlineV::SupV,
            Inline::Align(s) => InlineV::AlignV(s@),
            Inline::Custom(k, v) => InlineV::CustomV(k@, v@),
        }
    }
}

impl DeepView for Inline {
    type V = InlineV;

    open spec fn deep_view(&self) -> InlineV {
        self.view()
    }
}

impl Clone for Inline {
    fn clone(&self) -> (r: Self)
        ensures
            r == *self,
    {
        match self {
            Inline::Bold => Inline::Bold,
            Inline::Italic => Inline::Italic,
            Inline::Underline => Inline::Underline,
            Inline::Link(s) => Inline::Link(s.clone()),
            Inline::Strike => Inline::Strike,
            Inline::Code => Inline::Code,
            Inline::BgColor(s) => Inline::BgColor(s.clone()),
            Inline::Color(s) => Inline::Color(s.clone()),
            Inline::Font(s) => Inline::Font(s.clone()),
            Inline::Size(n) => Inline::Size(*n),
            Inline::Sub => Inline::Sub,
            Inline::Sup => Inline::Sup,
            Inline::Align(s) => Inline::Align(s.clone()),
            Inline::Custom(k, v) => Inline::Custom(k.clone(), v.clone()),
        }
    }
}

/// The key/value pair that encodes an inline format.
pub open spec fn inline_kv_s(i: InlineV) -> AttrEntryV {
    match i {
        InlineV::BoldV => AttrEntryV { key: "bold"@, value: AttrValueV::BoolV(true) },
        InlineV::ItalicV => AttrEntryV { key: "italic"@, value: AttrValueV::BoolV(true) },
        InlineV::UnderlineV => AttrEntryV { key: "underline"@, value: AttrValueV::BoolV(true) },
        InlineV::LinkV(s) => AttrEntryV { key: "link"@, value: AttrValueV::StrV(s) },
        InlineV::StrikeV => AttrEntryV { key: "strike"@, value: AttrValueV::BoolV(true) },
        InlineV::CodeV => AttrEntryV { key: "code"@, value: AttrValueV::BoolV(true) },
        InlineV::BgColorV(s) => AttrEntryV { key: "background"@, value: AttrValueV::StrV(s) },
        InlineV::ColorV(s) => AttrEntryV { key: "color"@, value: AttrValueV::StrV(s) },
        InlineV::FontV(s) => AttrEntryV { key: "font"@, value: AttrValueV::StrV(s) },
        InlineV::SizeV(n) => AttrEntryV { key: "size"@, value: AttrValueV::IntV(n) },
        InlineV::SubV => AttrEntryV { key: "script"@, value: AttrValueV::StrV("sub"@) },
        InlineV::SupV => AttrEntryV { key: "script"@, value: AttrValueV::StrV("super"@) },
        InlineV::AlignV(s) => AttrEntryV { key: "align"@, value: AttrValueV::StrV(s) },
        InlineV::CustomV(k, v) => AttrEntryV { key: k, value: v },
    }
}

impl Inline {
    /// The (key, value) pair this format encodes to.
    pub fn as_kv(&self) -> (r: (String, AttrValue))
        ensures
            r.0@ == inline_kv_s(self@).key,
            r.1@ == inline_kv_s(self@).value,
    {
        match self {
            Inline::Bold => ("bold".to_owned(), AttrValue::Bool(true)),
            Inline::Italic => ("italic".to_owned(), AttrValue::Bool(true)),
            Inline::Underline => ("underline".to_owned(), AttrValue::Bool(true)),
            Inline::Link(s) => ("link".to_owned(), AttrValue::Str(s.clone())),
            Inline::Strike => ("strike".to_owned(), AttrValue::Bool(true)),
            Inline::Code => ("code".to_owned(), AttrValue::Bool(true)),
            Inline::BgColor(s) => ("background".to_owned(), AttrValue::Str(s.clone())),
            Inline::Color(s) => ("color".to_owned(), AttrValue::Str(s.clone())),
            Inline::Font(s) => ("font".to_owned(), AttrValue::Str(s.clone())),
            Inline::Size(n) => ("size".to_owned(), AttrValue::Int(*n)),
            Inline::Sub => ("script".to_owned(), AttrValue::Str("sub".to_owned())),
            Inline::Sup => ("script".to_owned(), AttrValue::Str("super".to_owned())),
            Inline::Align(s) => ("align".to_owned(), AttrValue::Str(s.clone())),
            Inline::Custom(k, v) => (k.clone(), v.clone()),
        }
    }
}

/// Encoding a sequence of inline formats into a key-unique mapping; later
/// entries overwrite earlier ones on key collision.
pub open spec fn encode_all_s(ins: Seq<InlineV>) -> Seq<AttrEntryV>
    decreases ins.len(),
{
    if ins.len() == 0 {
        Seq::empty()
    } else {
        set_entry_s(encode_all_s(ins.drop_last()), inline_kv_s(ins.last()))
    }
}

/// Build the key-unique attribute mapping of a list of inline formats;
/// later entries overwrite earlier ones on key collision.
pub fn inlines_to_map(attrs: &Vec<Inline>) -> (r: AttrMap)
    ensures
        r@ == encode_all_s(attrs.deep_view()),
        r.wf(),
{
    let mut m = AttrMap::new();
    let n = attrs.len();
    let mut i: usize = 0;
    proof {
        assert(attrs.deep_view().subrange(0, 0) =~= Seq::<InlineV>::empty());
    }
    while i < n
        invariant
            n == attrs.len(),
            i <= n,
            m@ == encode_all_s(attrs.deep_view().subrange(0, i as int)),
            m.wf(),
        decreases n - i,
    {
        proof {
            assert(attrs.deep_view().subrange(0, i as int + 1).drop_last() =~= attrs.deep_view()
                .subrange(0, i as int));
            assert(attrs.deep_view().subrange(0, i as int + 1).last() == attrs.deep_view()[
                i as int
            ]);
        }
        let kv = attrs[i].as_kv();
        m.set(kv.0, kv.1);
        i += 1;
    }
    proof {
        assert(attrs.deep_view().subrange(0, n as int) =~= attrs.deep_view());
    }
    m
}

/// Decoding of one generic entry into an inline format: a recognized key
/// with a well-shaped value becomes its closed variant; a recognized key
/// with an ill-shaped value is skipped; any other non-empty key becomes
/// `Custom`.
pub open spec fn decode_entry_s(e: AttrEntryV) -> Option<InlineV> {
    if e.key == "bold"@ {
        if e.value == AttrValueV::BoolV(true) {
            Some(InlineV::BoldV)
        } else {
            None
        }
    } else if e.key == "italic"@ {
        if e.value == AttrValueV::BoolV(true) {
            Some(InlineV::ItalicV)
        } else {
            None
        }
    } else if e.key == "underline"@ {
        if e.value == AttrValueV::BoolV(true) {
            Some(InlineV::UnderlineV)
        } else {
            None
        }
    } else if e.key == "strike"@ {
        if e.value == AttrValueV::BoolV(true) {
            Some(InlineV::StrikeV)
        } else {
            None
        }
    } else if e.key == "code"@ {
        if e.value == AttrValueV::BoolV(true) {
            Some(InlineV::CodeV)
        } else {
            None
        }
    } else if e.key == "link"@ {
        match e.value {
            AttrValueV::StrV(s) => Some(InlineV::LinkV(s)),
            _ => None,
        }
    } else if e.key == "background"@ {
        match e.value {
            AttrValueV::StrV(s) => Some(InlineV::BgColorV(s)),
            _ => None,
        }
    } else if e.key == "color"@ {
        match e.value {
            AttrValueV::StrV(s) => Some(InlineV::ColorV(s)),
            _ => None,
        }
    } else if e.key == "font"@ {
        match e.value {
            AttrValueV::StrV(s) => Some(InlineV::FontV(s)),
            _ => None,
        }
    } else if e.key == "size"@ {
        match e.value {
            AttrValueV::IntV(n) => Some(InlineV::SizeV(n)),
            _ => None,
        }
    } else if e.key == "script"@ {
        if e.value == AttrValueV::StrV("sub"@) {
            Some(InlineV::SubV)
        } else if e.value == AttrValueV::StrV("super"@) {
            Some(InlineV::SupV)
        } else {
            None
        }
    } else if e.key == "align"@ {
        match e.value {
            AttrValueV::StrV(s) => Some(InlineV::AlignV(s)),
            _ => None,
        }
    } else if e.key.len() > 0 {
        Some(InlineV::CustomV(e.key, e.value))
    } else {
        None
    }
}

/// Decoding of a whole mapping, in order, skipping rejected entries.
pub open spec fn decode_seq_s(m: Seq<AttrEntryV>) -> Seq<InlineV>
    decreases m.len(),
{
    if m.len() == 0 {
        Seq::empty()
    } else {
        decode_seq_s(m.drop_last()) + (match decode_entry_s(m.last()) {
            Some(iv) => seq![iv],
            None => Seq::empty(),
        })
    }
}

/// Decode one generic entry (see `decode_entry_s`).
pub fn decode_entry(e: &AttrEntry) -> (r: Option<Inline>)
    ensures
        match r {
            Some(i) => decode_entry_s(e@) == Some(i@),
            None => decode_entry_s(e@) is None,
        },
{
    let k = e.key.as_str();
    if str_eq(k, "bold") {
        match &e.value {
            AttrValue::Bool(b) => if *b {
                Some(Inline::Bold)
            } else {
                None
            },
            _ => None,
        }
    } else if str_eq(k, "italic") {
        match &e.value {
            AttrValue::Bool(b) => if *b {
                Some(Inline::Italic)
            } else {
                None
            },
            _ => None,
        }
    } else if str_eq(k, "underline") {
        match &e.value {
            AttrValue::Bool(b) => if *b {
                Some(Inline::Underline)
            } else {
                None
            },
            _ => None,
        }
    } else if str_eq(k, "strike") {
        match &e.value {
            AttrValue::Bool(b) => if *b {
                Some(Inline::Strike)
            } else {
                None
            },
            _ => None,
        }
    } else if str_eq(k, "code") {
        match &e.value {
            AttrValue::Bool(b) => if *b {
                Some(Inline::Code)
            } else {
                None
            },
            _ => None,
        }
    } else if str_eq(k, "link") {
        match &e.value {
            AttrValue::Str(s) => Some(Inline::Link(s.clone())),
            _ => None,
        }
    } else if str_eq(k, "background") {
        match &e.value {
            AttrValue::Str(s) => Some(Inline::BgColor(s.clone())),
            _ => None,
        }
    } else if str_eq(k, "color") {
        match &e.value {
            AttrValue::Str(s) => Some(Inline::Color(s.clone())),
            _ => None,
        }
    } else if str_eq(k, "font") {
        match &e.value {
            AttrValue::Str(s) => Some(Inline::Font(s.clone())),
            _ => None,
        }
    } else if str_eq(k, "size") {
        match &e.value {
            AttrValue::Int(n) => Some(Inline::Size(*n)),
            _ => None,
        }
    } else if str_eq(k, "script") {
        match &e.value {
            AttrValue::Str(s) => if str_eq(s.as_str(), "sub") {
                Some(Inline::Sub)
            } else if str_eq(s.as_str(), "super") {
                Some(Inline::Sup)
            } else {
                None
            },
            _ => None,
        }
    } else if str_eq(k, "align") {
        match &e.value {
            AttrValue::Str(s) => Some(Inline::Align(s.clone())),
            _ => None,
        }
    } else if e.key.as_str().unicode_len() > 0 {
        Some(Inline::Custom(e.key.clone(), e.value.clone()))
    } else {
        None
    }
}

/// Decode a generic key-value mapping into the inline formats it carries,
/// keeping unknown keys as `Custom` and skipping ill-shaped well-known
/// entries.
pub fn decode_inlines(m: &AttrMap) -> (r: Vec<Inline>)
    ensures
        r.deep_view() == decode_seq_s(m@),
{
    let mut out: Vec<Inline> = Vec::new();
    let n = m.entries.len();
    let mut i: usize = 0;
    proof {
        assert(out.deep_view() =~= decode_seq_s(m@.subrange(0, 0)));
    }
    while i < n
        invariant
            n == m.entries.len(),
            i <= n,
            out.deep_view() =~= decode_seq_s(m@.subrange(0, i as int)),
        decreases n - i,
    {
        proof {
            assert(m@.subrange(0, i as int + 1).drop_last() =~= m@.subrange(0, i as int));
            assert(m@.subrange(0, i as int + 1).last() == m@[i as int]);
        }
        match decode_entry(&m.entries[i]) {
            Some(x) => {
                out.push(x);
            },
            None => {},
        }
        proof {
            assert(out.deep_view() =~= decode_seq_s(m@.subrange(0, i as int + 1)));
        }
        i += 1;
    }
    proof {
        assert(m@.subrange(0, n as int) =~= m@);
        assert(out.deep_view() =~= decode_seq_s(m@));
    }
    out
}

// ---------------------------------------------------------------------------
// The attribute round-trip law
// ---------------------------------------------------------------------------

/// A well-known entry with a value of the expected shape.
pub open spec fn wk_valid(e: AttrEntryV) -> bool {
    ||| (e.key == "bold"@ && e.value == AttrValueV::BoolV(true))
    ||| (e.key == "italic"@ && e.value == AttrValueV::BoolV(true))
    ||| (e.key == "underline"@ && e.value == AttrValueV::BoolV(true))
    ||| (e.key == "strike"@ && e.value == AttrValueV::BoolV(true))
    ||| (e.key == "code"@ && e.value == AttrValueV::BoolV(true))
    ||| (e.key == "link"@ && e.value is StrV)
    ||| (e.key == "background"@ && e.value is StrV)
    ||| (e.key == "color"@ && e.value is StrV)
    ||| (e.key == "font"@ && e.value is StrV)
    ||| (e.key == "size"@ && e.value is IntV)
    ||| (e.key == "script"@ && (e.value == AttrValueV::StrV("sub"@) || e.value
        == AttrValueV::StrV("super"@)))
    ||| (e.key == "align"@ && e.value is StrV)
}

/// A well-known, well-shaped entry decodes to a format that encodes back to
/// the very same entry.
pub proof fn lemma_wk_entry_round(e: AttrEntryV)
    requires
        wk_valid(e),
    ensures
        decode_entry_s(e) is Some,
        inline_kv_s(decode_entry_s(e)->Some_0) == e,
{
    reveal_strlit("bold");
    reveal_strlit("italic");
    reveal_strlit("underline");
    reveal_strlit("strike");
    reveal_strlit("code");
    reveal_strlit("link");
    reveal_strlit("background");
    reveal_strlit("color");
    reveal_strlit("font");
    reveal_strlit("size");
    reveal_strlit("script");
    reveal_strlit("align");
    reveal_strlit("sub");
    reveal_strlit("super");
    // lengths tell most keys apart ...
    assert("bold"@.len() == 4);
    assert("italic"@.len() == 6);
    assert("underline"@.len() == 9);
    assert("strike"@.len() == 6);
    assert("code"@.len() == 4);
    assert("link"@.len() == 4);
    assert("background"@.len() == 10);
    assert("color"@.len() == 5);
    assert("font"@.len() == 4);
    assert("size"@.len() == 4);
    assert("script"@.len() == 6);
    assert("align"@.len() == 5);
    // ... keys of equal length but different value shape need a character
    assert("bold"@ != "link"@) by {
        assert("bold"@[0] == 'b' && "link"@[0] == 'l');
    }
    assert("bold"@ != "font"@) by {
        assert("bold"@[0] == 'b' && "font"@[0] == 'f');
    }
    assert("bold"@ != "size"@) by {
        assert("bold"@[0] == 'b' && "size"@[0] == 's');
    }
    assert("code"@ != "link"@) by {
        assert("code"@[0] == 'c' && "link"@[0] == 'l');
    }
    assert("code"@ != "font"@) by {
        assert("code"@[0] == 'c' && "font"@[0] == 'f');
    }
    assert("code"@ != "size"@) by {
        assert("code"@[0] == 'c' && "size"@[0] == 's');
    }
    assert("italic"@ != "script"@) by {
        assert("italic"@[0] == 'i' && "script"@[0] == 's');
    }
    assert("strike"@ != "script"@) by {
        assert("strike"@[1] == 't' && "script"@[1] == 'c');
    }
    assert("link"@ != "size"@) by {
        assert("link"@[0] == 'l' && "size"@[0] == 's');
    }
    assert("font"@ != "size"@) by {
        assert("font"@[0] == 'f' && "size"@[0] == 's');
    }
    assert("sub"@ != "super"@) by {
        assert("sub"@.len() == 3 && "super"@.len() == 5);
    }
    if e.key == "bold"@ {
        assert(decode_entry_s(e) == Some(InlineV::BoldV));
    } else if e.key == "italic"@ {
        assert(decode_entry_s(e) == Some(InlineV::ItalicV));
    } else if e.key == "underline"@ {
        assert(decode_entry_s(e) == Some(InlineV::UnderlineV));
    } else if e.key == "strike"@ {
        assert(decode_entry_s(e) == Some(InlineV::StrikeV));
    } else if e.key == "code"@ {
        assert(decode_entry_s(e) == Some(InlineV::CodeV));
    } else if e.key == "link"@ {
        assert(decode_entry_s(e) == Some(InlineV::LinkV(e.value->StrV_0)));
    } else if e.key == "background"@ {
        assert(decode_entry_s(e) == Some(InlineV::BgColorV(e.value->StrV_0)));
    } else if e.key == "color"@ {
        assert(decode_entry_s(e) == Some(InlineV::ColorV(e.value->StrV_0)));
    } else if e.key == "font"@ {
        assert(decode_entry_s(e) == Some(InlineV::FontV(e.value->StrV_0)));
    } else if e.key == "size"@ {
        assert(decode_entry_s(e) == Some(InlineV::SizeV(e.value->IntV_0)));
    } else if e.key == "script"@ {
        if e.value == AttrValueV::StrV("sub"@) {
            assert(decode_entry_s(e) == Some(InlineV::SubV));
        } else {
            assert(decode_entry_s(e) == Some(InlineV::SupV));
        }
    } else {
        assert(e.key == "align"@);
        assert(decode_entry_s(e) == Some(InlineV::AlignV(e.value->StrV_0)));
    }
}

/// Removing an absent key changes nothing.
pub proof fn lemma_remove_absent(m: Seq<AttrEntryV>, k: Seq<char>)
    requires
        !has_key(m, k),
    ensures
        remove_key_s(m, k) == m,
    decreases m.len(),
{
    if m.len() == 0 {
        assert(remove_key_s(m, k) =~= m);
    } else {
        assert(!has_key(m.drop_last(), k)) by {
            assert(forall|i: int|
                0 <= i < m.drop_last().len() ==> #[trigger] m.drop_last()[i] == m[i]);
        }
        lemma_remove_absent(m.drop_last(), k);
        assert(m.last().key != k) by {
            assert(m[m.len() - 1] == m.last());
        }
        assert(remove_key_s(m, k) =~= m);
    }
}

/// Re-encoding the decoding of a key-unique, well-known, well-shaped mapping
/// gives the mapping back unchanged.
pub proof fn lemma_encode_decode_id(m: Seq<AttrEntryV>)
    requires
        unique_keys(m),
        forall|i: int| 0 <= i < m.len() ==> wk_valid(#[trigger] m[i]),
    ensures
        encode_all_s(decode_seq_s(m)) == m,
    decreases m.len(),
{
    if m.len() == 0 {
        assert(encode_all_s(decode_seq_s(m)) =~= m);
    } else {
        let mp = m.drop_last();
        assert(unique_keys(mp));
        assert(forall|i: int| 0 <= i < mp.len() ==> wk_valid(#[trigger] mp[i])) by {
            assert(forall|i: int| 0 <= i < mp.len() ==> #[trigger] mp[i] == m[i]);
        }
        lemma_encode_decode_id(mp);
        assert(m[m.len() - 1] == m.last());
        assert(wk_valid(m.last()));
        lemma_wk_entry_round(m.last());
        let iv = decode_entry_s(m.last())->Some_0;
        assert(decode_seq_s(m) == decode_seq_s(mp) + seq![iv]);
        let ds = decode_seq_s(mp) + seq![iv];
        assert(ds.drop_last() =~= decode_seq_s(mp));
        assert(ds.last() == iv);
        assert(encode_all_s(ds) == set_entry_s(mp, inline_kv_s(iv)));
        assert(inline_kv_s(iv) == m.last());
        assert(!has_key(mp, m.last().key)) by {
            if has_key(mp, m.last().key) {
                let j = choose|j: int|
                    0 <= j < mp.len() && #[trigger] mp[j].key == m.last().key;
                assert(m[j].key == m[m.len() - 1].key);
            }
        }
        lemma_remove_absent(mp, m.last().key);
        assert(set_entry_s(mp, m.last()) =~= m);
    }
}

/// The attribute round-trip law: decoding, re-encoding and decoding again
/// yields the same formats as decoding once, for any key-unique mapping of
/// well-known, well-shaped entries.
pub proof fn lemma_attr_round_trip(m: Seq<AttrEntryV>)
    requires
        unique_keys(m),
        forall|i: int| 0 <= i < m.len() ==> wk_valid(#[trigger] m[i]),
    ensures
        decode_seq_s(encode_all_s(decode_seq_s(m))) == decode_seq_s(m),
{
    lemma_encode_decode_id(m);
}

// ---------------------------------------------------------------------------
// Embedded content
// ---------------------------------------------------------------------------

/// Model of an embedded content unit.
pub enum EmbedsV {
    VideoV(Seq<char>),
    ImageV(Seq<char>),
    FormulaV(Seq<char>),
}

/// A non-text atomic content unit occupying one document position.
pub enum Embeds {
    Video(String),
    Image(String),
    Formula(String),
}

impl View for Embeds {
    type V = EmbedsV;

    open spec fn view(&self) -> EmbedsV {
        match self {
            Embeds::Video(s) => EmbedsV::VideoV(s@),
            Embeds::Image(s) => EmbedsV::ImageV(s@),
            Embeds::Formula(s) => EmbedsV::FormulaV(s@),
        }
    }
}

impl DeepView for Embeds {
    type V = EmbedsV;

    open spec fn deep_view(&self) -> EmbedsV {
        self.view()
    }
}

impl Clone for Embeds {
    fn clone(&self) -> (r: Self)
        ensures
            r == *self,
    {
        match self {
            Embeds::Video(s) => Embeds::Video(s.clone()),
            Embeds::Image(s) => Embeds::Image(s.clone()),
            Embeds::Formula(s) => Embeds::Formula(s.clone()),
        }
    }
}

/// The payload of an embed.
pub open spec fn embed_value_s(e: EmbedsV) -> Seq<char> {
    match e {
        EmbedsV::VideoV(s) => s,
        EmbedsV::ImageV(s) => s,
        EmbedsV::FormulaV(s) => s,
    }
}

/// The type tag an embed is stored under.
pub open spec fn embed_tag_s(e: EmbedsV) -> Seq<char> {
    match e {
        EmbedsV::VideoV(_) => "video"@,
        EmbedsV::ImageV(_) => "image"@,
        EmbedsV::FormulaV(_) => "formula"@,
    }
}

impl Embeds {
    /// The embed's payload (a URL or formula source).
    pub fn get_value(&self) -> (r: &str)
        ensures
            r@ == embed_value_s(self@),
    {
        match self {
            Embeds::Video(v) => v.as_str(),
            Embeds::Image(v) => v.as_str(),
            Embeds::Formula(v) => v.as_str(),
        }
    }

    /// The embed's fixed type tag.
    pub fn get_type_name(&self) -> (r: &str)
        ensures
            r@ == embed_tag_s(self@),
    {
        match self {
            Embeds::Video(..) => "video",
            Embeds::Image(..) => "image",
            Embeds::Formula(..) => "formula",
        }
    }
}

/// Equality of embeds.
pub fn embeds_eq(a: &Embeds, b: &Embeds) -> (r: bool)
    ensures
        r == (a@ == b@),
{
    match (a, b) {
        (Embeds::Video(x), Embeds::Video(y)) => str_eq(x.as_str(), y.as_str()),
        (Embeds::Image(x), Embeds::Image(y)) => str_eq(x.as_str(), y.as_str()),
        (Embeds::Formula(x), Embeds::Formula(y)) => str_eq(x.as_str(), y.as_str()),
        _ => false,
    }
}

// ---------------------------------------------------------------------------
// Embed formats
// ---------------------------------------------------------------------------

/// Model of an embed format.
pub enum EmbedAttrV {
    WidthV(Seq<char>),
    HeightV(Seq<char>),
    AltV(Seq<char>),
    AlignV(Seq<char>),
    CustomV(Seq<char>, AttrValueV),
}

/// A formatting attribute of an embedded content unit.
pub enum EmbedAttr {
    Width(String),
    Height(String),
    Alt(String),
    Align(String),
    /// Any embed attribute whose key is not in the closed set.
    Custom(String, AttrValue),
}

impl View for EmbedAttr {
    type V = EmbedAttrV;

    open spec fn view(&self) -> EmbedAttrV {
        match self {
            EmbedAttr::Width(s) => EmbedAttrV::WidthV(s@),
            EmbedAttr::Height(s) => EmbedAttrV::HeightV(s@),
            EmbedAttr::Alt(s) => EmbedAttrV::AltV(s@),
            EmbedAttr::Align(s) => EmbedAttrV::AlignV(s@),
            EmbedAttr::Custom(k, v) => EmbedAttrV::CustomV(k@, v@),
        }
    }
}

impl DeepView for EmbedAttr {
    type V = EmbedAttrV;

    open spec fn deep_view(&self) -> EmbedAttrV {
        self.view()
    }
}

impl Clone for EmbedAttr {
    fn clone(&self) -> (r: Self)
        ensures
            r == *self,
    {
        match self {
            EmbedAttr::Width(s) => EmbedAttr::Width(s.clone()),
            EmbedAttr::Height(s) => EmbedAttr::Height(s.clone()),
            EmbedAttr::Alt(s) => EmbedAttr::Alt(s.clone()),
            EmbedAttr::Align(s) => EmbedAttr::Align(s.clone()),
            EmbedAttr::Custom(k, v) => EmbedAttr::Custom(k.clone(), v.clone()),
        }
    }
}

/// The key/value pair that encodes an embed format.
pub open spec fn embed_attr_kv_s(a: EmbedAttrV) -> AttrEntryV {
    match a {
        EmbedAttrV::WidthV(s) => AttrEntryV { key: "width"@, value: AttrValueV::StrV(s) },
        EmbedAttrV::HeightV(s) => AttrEntryV { key: "height"@, value: AttrValueV::StrV(s) },
        EmbedAttrV::AltV(s) => AttrEntryV { key: "alt"@, value: AttrValueV::StrV(s) },
        EmbedAttrV::AlignV(s) => AttrEntryV { key: "align"@, value: AttrValueV::StrV(s) },
        EmbedAttrV::CustomV(k, v) => AttrEntryV { key: k, value: v },
    }
}

impl EmbedAttr {
    /// The (key, value) pair this embed format encodes to.
    pub fn as_kv(&self) -> (r: (String, AttrValue))
        ensures
            r.0@ == embed_attr_kv_s(self@).key,
            r.1@ == embed_attr_kv_s(self@).value,
    {
        match self {
            EmbedAttr::Width(s) => ("width".to_owned(), AttrValue::Str(s.clone())),
            EmbedAttr::Height(s) => ("height".to_owned(), AttrValue::Str(s.clone())),
            EmbedAttr::Alt(s) => ("alt".to_owned(), AttrValue::Str(s.clone())),
            EmbedAttr::Align(s) => ("align".to_owned(), AttrValue::Str(s.clone())),
            EmbedAttr::Custom(k, v) => (k.clone(), v.clone()),
        }
    }
}

/// Encoding a sequence of embed formats into a key-unique mapping.
pub open spec fn encode_embed_all_s(ins: Seq<EmbedAttrV>) -> Seq<AttrEntryV>
    decreases ins.len(),
{
    if ins.len() == 0 {
        Seq::empty()
    } else {
        set_entry_s(encode_embed_all_s(ins.drop_last()), embed_attr_kv_s(ins.last()))
    }
}

/// Build the key-unique attribute mapping of a list of embed formats.
pub fn embed_attrs_to_map(attrs: &Vec<EmbedAttr>) -> (r: AttrMap)
    ensures
        r@ == encode_embed_all_s(attrs.deep_view()),
        r.wf(),
{
    let mut m = AttrMap::new();
    let n = attrs.len();
    let mut i: usize = 0;
    proof {
        assert(attrs.deep_view().subrange(0, 0) =~= Seq::<EmbedAttrV>::empty());
    }
    while i < n
        invariant
            n == attrs.len(),
            i <= n,
            m@ == encode_embed_all_s(attrs.deep_view().subrange(0, i as int)),
            m.wf(),
        decreases n - i,
    {
        proof {
            assert(attrs.deep_view().subrange(0, i as int + 1).drop_last() =~= attrs.deep_view()
                .subrange(0, i as int));
            assert(attrs.deep_view().subrange(0, i as int + 1).last() == attrs.deep_view()[
                i as int
            ]);
        }
        let kv = attrs[i].as_kv();
        m.set(kv.0, kv.1);
        i += 1;
    }
    proof {
        assert(attrs.deep_view().subrange(0, n as int) =~= attrs.deep_view());
    }
    m
}

} // verus!
