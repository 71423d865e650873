//! Attribute values and key-unique attribute mappings.
//!
//! An attribute mapping is an ordered association list of string keys and
//! dynamically-typed values with unique keys.  The value `Null` acts as a
//! removal tombstone when mappings are composed onto a retain operation.

use vstd::prelude::*;

verus! {

// ---------------------------------------------------------------------------
// Mathematical model
// ---------------------------------------------------------------------------

/// Model of a dynamically-typed attribute value.
pub enum AttrValueV {
    NullV,
    BoolV(bool),
    IntV(i64),
    StrV(Seq<char>),
}

/// Model of one key/value entry of an attribute mapping.
pub struct AttrEntryV {
    pub key: Seq<char>,
    pub value: AttrValueV,
}

/// Does the mapping contain an entry under `k`?
pub open spec fn has_key(m: Seq<AttrEntryV>, k: Seq<char>) -> bool {
    exists|i: int| 0 <= i < m.len() && #[trigger] m[i].key == k
}

/// All keys of the mapping are distinct.
pub open spec fn unique_keys(m: Seq<AttrEntryV>) -> bool {
    forall|i: int, j: int| 0 <= i < j < m.len() ==> #[trigger] m[i].key != #[trigger] m[j].key
}

/// No entry carries the `Null` removal tombstone.
pub open spec fn no_nulls(m: Seq<AttrEntryV>) -> bool {
    forall|i: int| 0 <= i < m.len() ==> #[trigger] m[i].value != AttrValueV::NullV
}

/// The value stored under `k`; the last entry wins when keys repeat.
pub open spec fn lookup_s(m: Seq<AttrEntryV>, k: Seq<char>) -> Option<AttrValueV>
    decreases m.len(),
{
    if m.len() == 0 {
        None
    } else if m.last().key == k {
        Some(m.last().value)
    } else {
        lookup_s(m.drop_last(), k)
    }
}

/// The mapping with every entry under `k` removed.
pub open spec fn remove_key_s(m: Seq<AttrEntryV>, k: Seq<char>) -> Seq<AttrEntryV>
    decreases m.len(),
{
    if m.len() == 0 {
        Seq::empty()
    } else if m.last().key == k {
        remove_key_s(m.drop_last(), k)
    } else {
        remove_key_s(m.drop_last(), k) + seq![m.last()]
    }
}

/// Write `e` into the mapping, overwriting any earlier entry under its key.
pub open spec fn set_entry_s(m: Seq<AttrEntryV>, e: AttrEntryV) -> Seq<AttrEntryV> {
    remove_key_s(m, e.key) + seq![e]
}

/// The entries of `a` whose keys do not occur in `b`.
pub open spec fn filter_absent_s(a: Seq<AttrEntryV>, b: Seq<AttrEntryV>) -> Seq<AttrEntryV>
    decreases a.len(),
{
    if a.len() == 0 {
        Seq::empty()
    } else if has_key(b, a.last().key) {
        filter_absent_s(a.drop_last(), b)
    } else {
        filter_absent_s(a.drop_last(), b) + seq![a.last()]
    }
}

/// The mapping with all `Null` tombstones removed.
pub open spec fn drop_nulls_s(m: Seq<AttrEntryV>) -> Seq<AttrEntryV>
    decreases m.len(),
{
    if m.len() == 0 {
        Seq::empty()
    } else if m.last().value == AttrValueV::NullV {
        drop_nulls_s(m.drop_last())
    } else {
        drop_nulls_s(m.drop_last()) + seq![m.last()]
    }
}

/// Composition of attribute mappings: `b` overrides `a` on key collision.
/// With `keep_null` false (composing onto an insert) tombstones are dropped;
/// with it true (composing onto a retain) they are kept as removal marks.
pub open spec fn compose_attrs_s(a: Seq<AttrEntryV>, b: Seq<AttrEntryV>, keep_null: bool) -> Seq<
    AttrEntryV,
> {
    if keep_null {
        b + filter_absent_s(a, b)
    } else {
        drop_nulls_s(b + filter_absent_s(a, b))
    }
}

/// Transformation of concurrent attribute mappings.  Without priority `b`
/// stands; with priority for `a`, only the keys of `b` that `a` does not
/// touch survive.
pub open spec fn transform_attrs_s(a: Seq<AttrEntryV>, b: Seq<AttrEntryV>, priority: bool) -> Seq<
    AttrEntryV,
> {
    if priority {
        filter_absent_s(b, a)
    } else {
        b
    }
}

/// The entries of `b` whose value differs from what `a` stores.
pub open spec fn changed_s(b: Seq<AttrEntryV>, a: Seq<AttrEntryV>) -> Seq<AttrEntryV>
    decreases b.len(),
{
    if b.len() == 0 {
        Seq::empty()
    } else if lookup_s(a, b.last().key) == Some(b.last().value) {
        changed_s(b.drop_last(), a)
    } else {
        changed_s(b.drop_last(), a) + seq![b.last()]
    }
}

/// A `Null` tombstone for every key of `a` that `b` lacks.
pub open spec fn nulled_s(a: Seq<AttrEntryV>, b: Seq<AttrEntryV>) -> Seq<AttrEntryV>
    decreases a.len(),
{
    if a.len() == 0 {
        Seq::empty()
    } else if has_key(b, a.last().key) {
        nulled_s(a.drop_last(), b)
    } else {
        nulled_s(a.drop_last(), b) + seq![
            (AttrEntryV { key: a.last().key, value: AttrValueV::NullV }),
        ]
    }
}

/// The attribute change that turns the formatting `a` into `b`: the entries
/// of `b` that differ from `a`, plus tombstones for the keys only `a` has.
pub open spec fn diff_attrs_s(a: Seq<AttrEntryV>, b: Seq<AttrEntryV>) -> Seq<AttrEntryV> {
    changed_s(b, a) + nulled_s(a, b)
}

// ---------------------------------------------------------------------------
// Executable types
// ---------------------------------------------------------------------------

/// A dynamically-typed attribute value.
pub enum AttrValue {
    Null,
    Bool(bool),
    Int(i64),
    Str(String),
}

impl View for AttrValue {
    type V = AttrValueV;

    open spec fn view(&self) -> AttrValueV {
        match self {
            AttrValue::Null => AttrValueV::NullV,
            AttrValue::Bool(b) => AttrValueV::BoolV(*b),
            AttrValue::Int(i) => AttrValueV::IntV(*i),
            AttrValue::Str(s) => AttrValueV::StrV(s@),
        }
    }
}

impl DeepView for AttrValue {
    type V = AttrValueV;

    open spec fn deep_view(&self) -> AttrValueV {
        self.view()
    }
}

impl Clone for AttrValue {
    fn clone(&self) -> (r: Self)
        ensures
            r == *self,
    {
        match self {
            AttrValue::Null => AttrValue::Null,
            AttrValue::Bool(b) => AttrValue::Bool(*b),
            AttrValue::Int(i) => AttrValue::Int(*i),
            AttrValue::Str(s) => AttrValue::Str(s.clone()),
        }
    }
}

/// One key/value entry of an attribute mapping.
pub struct AttrEntry {
    pub key: String,
    pub value: AttrValue,
}

impl View for AttrEntry {
    type V = AttrEntryV;

    open spec fn view(&self) -> AttrEntryV {
        AttrEntryV { key: self.key@, value: self.value@ }
    }
}

impl DeepView for AttrEntry {
    type V = AttrEntryV;

    open spec fn deep_view(&self) -> AttrEntryV {
        self.view()
    }
}

impl Clone for AttrEntry {
    fn clone(&self) -> (r: Self)
        ensures
            r == *self,
    {
        AttrEntry { key: self.key.clone(), value: self.value.clone() }
    }
}

/// Equality of string slices, decided through owned strings.
pub fn str_eq(a: &str, b: &str) -> (r: bool)
    ensures
        r == (a@ == b@),
{
    let sa: String = a.to_owned();
    let sb: String = b.to_owned();
    sa == sb
}

/// Equality of attribute values.
pub fn attr_value_eq(a: &AttrValue, b: &AttrValue) -> (r: bool)
    ensures
        r == (a@ == b@),
{
    match (a, b) {
        (AttrValue::Null, AttrValue::Null) => true,
        (AttrValue::Bool(x), AttrValue::Bool(y)) => x == y,
        (AttrValue::Int(x), AttrValue::Int(y)) => x == y,
        (AttrValue::Str(x), AttrValue::Str(y)) => *x == *y,
        _ => false,
    }
}

/// An ordered, key-unique attribute mapping.
pub struct AttrMap {
    pub entries: Vec<AttrEntry>,
}

impl View for AttrMap {
    type V = Seq<AttrEntryV>;

    open spec fn view(&self) -> Seq<AttrEntryV> {
        self.entries.deep_view()
    }
}

impl AttrMap {
    /// The mapping's keys are unique.
    pub open spec fn wf(&self) -> bool {
        unique_keys(self@)
    }

    /// The empty mapping.
    pub fn new() -> (r: AttrMap)
        ensures
            r@ == Seq::<AttrEntryV>::empty(),
            r.wf(),
    {
        let r = AttrMap { entries: Vec::new() };
        proof {
            assert(r@ =~= Seq::<AttrEntryV>::empty());
        }
        r
    }

    /// The number of entries.
    pub fn len(&self) -> (r: usize)
        ensures
            r == self@.len(),
    {
        self.entries.len()
    }

    /// Is the mapping empty?
    pub fn is_empty(&self) -> (r: bool)
        ensures
            r == (self@.len() == 0),
    {
        self.entries.len() == 0
    }

    /// A copy of the mapping.
    pub fn dup(&self) -> (r: AttrMap)
        ensures
            r@ == self@,
    {
        let mut out: Vec<AttrEntry> = Vec::new();
        let n = self.entries.len();
        let mut i: usize = 0;
        while i < n
            invariant
                n == self.entries.len(),
                i <= n,
                out@ =~= self.entries@.subrange(0, i as int),
            decreases n - i,
        {
            out.push(self.entries[i].clone());
            i += 1;
        }
        proof {
            assert(out@ =~= self.entries@);
        }
        AttrMap { entries: out }
    }

    /// Does the mapping contain `k`?
    pub fn contains_key(&self, k: &str) -> (r: bool)
        ensures
            r == has_key(self@, k@),
    {
        let n = self.entries.len();
        let mut i: usize = 0;
        while i < n
            invariant
                n == self.entries.len(),
                i <= n,
                forall|j: int| 0 <= j < i ==> #[trigger] self@[j].key != k@,
            decreases n - i,
        {
            if str_eq(self.entries[i].key.as_str(), k) {
                proof {
                    assert(self@[i as int].key == k@);
                }
                return true;
            }
            i += 1;
        }
        false
    }

    /// The value under `k`, if any.
    pub fn get(&self, k: &str) -> (r: Option<&AttrValue>)
        ensures
            match r {
                Some(v) => lookup_s(self@, k@) == Some(v@),
                None => lookup_s(self@, k@) is None,
            },
    {
        let mut i: usize = self.entries.len();
        proof {
            assert(self@.subrange(0, i as int) =~= self@);
        }
        while i > 0
            invariant
                i <= self.entries.len(),
                lookup_s(self@, k@) == lookup_s(self@.subrange(0, i as int), k@),
            decreases i,
        {
            i -= 1;
            proof {
                assert(self@.subrange(0, i as int + 1).drop_last() =~= self@.subrange(
                    0,
                    i as int,
                ));
                assert(self@.subrange(0, i as int + 1).last() == self@[i as int]);
            }
            if str_eq(self.entries[i].key.as_str(), k) {
                return Some(&self.entries[i].value);
            }
        }
        proof {
            assert(self@.subrange(0, 0) =~= Seq::<AttrEntryV>::empty());
        }
        None
    }

    /// Write `value` under `key`, overwriting any earlier entry.
    pub fn set(&mut self, key: String, value: AttrValue)
        ensures
            final(self)@ == set_entry_s(old(self)@, (AttrEntryV { key: key@, value: value@ })),
            old(self).wf() ==> final(self).wf(),
    {
        let ghost m0 = self@;
        let ghost kv = AttrEntryV { key: key@, value: value@ };
        let mut out: Vec<AttrEntry> = Vec::new();
        let n = self.entries.len();
        let mut i: usize = 0;
        while i < n
            invariant
                n == self.entries.len(),
                m0 == self@,
                i <= n,
                out.deep_view() =~= remove_key_s(m0.subrange(0, i as int), key@),
            decreases n - i,
        {
            proof {
                assert(m0.subrange(0, i as int + 1).drop_last() =~= m0.subrange(0, i as int));
                assert(m0.subrange(0, i as int + 1).last() == m0[i as int]);
            }
            if !str_eq(self.entries[i].key.as_str(), key.as_str()) {
                out.push(self.entries[i].clone());
            }
            i += 1;
        }
        proof {
            assert(m0.subrange(0, n as int) =~= m0);
        }
        out.push(AttrEntry { key, value });
        proof {
            assert(out.deep_view() =~= remove_key_s(m0, kv.key) + seq![kv]);
            lemma_remove_key_unique(m0, kv.key);
        }
        self.entries = out;
    }
}

/// Rebuilding a mapping entry by entry, later entries overwriting earlier
/// ones on key collision: the key-unique form of an arbitrary association
/// list.
pub open spec fn dedup_s(m: Seq<AttrEntryV>) -> Seq<AttrEntryV>
    decreases m.len(),
{
    if m.len() == 0 {
        Seq::empty()
    } else {
        set_entry_s(dedup_s(m.drop_last()), m.last())
    }
}

impl AttrMap {
    /// The key-unique form of this mapping; later entries win.
    pub fn sanitized(&self) -> (r: AttrMap)
        ensures
            r@ == dedup_s(self@),
            r.wf(),
    {
        let mut out = AttrMap::new();
        let n = self.entries.len();
        let mut i: usize = 0;
        proof {
            assert(self@.subrange(0, 0) =~= Seq::<AttrEntryV>::empty());
        }
        while i < n
            invariant
                n == self.entries.len(),
                i <= n,
                out@ == dedup_s(self@.subrange(0, i as int)),
                out.wf(),
            decreases n - i,
        {
            proof {
                assert(self@.subrange(0, i as int + 1).drop_last() =~= self@.subrange(
                    0,
                    i as int,
                ));
                assert(self@.subrange(0, i as int + 1).last() == self@[i as int]);
            }
            out.set(self.entries[i].key.clone(), self.entries[i].value.clone());
            i += 1;
        }
        proof {
            assert(self@.subrange(0, n as int) =~= self@);
        }
        out
    }
}

impl Clone for AttrMap {
    fn clone(&self) -> (r: Self)
        ensures
            r@ == self@,
    {
        self.dup()
    }
}

/// Equality of attribute mappings as ordered association lists.
pub fn attr_maps_equal(a: &AttrMap, b: &AttrMap) -> (r: bool)
    ensures
        r == (a@ == b@),
{
    let n = a.entries.len();
    if n != b.entries.len() {
        proof {
            assert(a@.len() == a.entries@.len());
            assert(b@.len() == b.entries@.len());
        }
        return false;
    }
    let mut i: usize = 0;
    while i < n
        invariant
            n == a.entries.len(),
            n == b.entries.len(),
            i <= n,
            forall|j: int| 0 <= j < i ==> #[trigger] a@[j] == b@[j],
        decreases n - i,
    {
        if !str_eq(a.entries[i].key.as_str(), b.entries[i].key.as_str()) {
            proof {
                assert(a@[i as int] != b@[i as int]);
            }
            return false;
        }
        if !attr_value_eq(&a.entries[i].value, &b.entries[i].value) {
            proof {
                assert(a@[i as int] != b@[i as int]);
            }
            return false;
        }
        proof {
            assert(a@[i as int] == b@[i as int]);
        }
        i += 1;
    }
    proof {
        assert(a@ =~= b@);
    }
    true
}

impl AttrMap {
    /// A copy of the mapping with all `Null` tombstones removed.
    pub fn without_nulls(&self) -> (r: AttrMap)
        ensures
            r@ == drop_nulls_s(self@),
    {
        let mut out: Vec<AttrEntry> = Vec::new();
        let n = self.entries.len();
        let mut i: usize = 0;
        proof {
            assert(out.deep_view() =~= drop_nulls_s(self@.subrange(0, 0)));
        }
        while i < n
            invariant
                n == self.entries.len(),
                i <= n,
                out.deep_view() =~= drop_nulls_s(self@.subrange(0, i as int)),
            decreases n - i,
        {
            proof {
                assert(self@.subrange(0, i as int + 1).drop_last() =~= self@.subrange(
                    0,
                    i as int,
                ));
                assert(self@.subrange(0, i as int + 1).last() == self@[i as int]);
            }
            let keep = match &self.entries[i].value {
                AttrValue::Null => false,
                _ => true,
            };
            if keep {
                out.push(self.entries[i].clone());
            }
            proof {
                assert(out.deep_view() =~= drop_nulls_s(self@.subrange(0, i as int + 1)));
            }
            i += 1;
        }
        proof {
            assert(self@.subrange(0, n as int) =~= self@);
        }
        AttrMap { entries: out }
    }
}

/// Composition of attribute mappings (see `compose_attrs_s`).
pub fn compose_attr_maps(a: &AttrMap, b: &AttrMap, keep_null: bool) -> (r: AttrMap)
    ensures
        r@ == compose_attrs_s(a@, b@, keep_null),
{
    let mut m = b.dup();
    let n = a.entries.len();
    let mut i: usize = 0;
    proof {
        assert(m@ =~= b@ + filter_absent_s(a@.subrange(0, 0), b@));
    }
    while i < n
        invariant
            n == a.entries.len(),
            i <= n,
            m@ =~= b@ + filter_absent_s(a@.subrange(0, i as int), b@),
        decreases n - i,
    {
        proof {
            assert(a@.subrange(0, i as int + 1).drop_last() =~= a@.subrange(0, i as int));
            assert(a@.subrange(0, i as int + 1).last() == a@[i as int]);
        }
        if !b.contains_key(a.entries[i].key.as_str()) {
            m.entries.push(a.entries[i].clone());
            proof {
                assert(b@ + filter_absent_s(a@.subrange(0, i as int + 1), b@) =~= (b@
                    + filter_absent_s(a@.subrange(0, i as int), b@)) + seq![a@[i as int]]);
            }
        }
        proof {
            assert(m@ =~= b@ + filter_absent_s(a@.subrange(0, i as int + 1), b@));
        }
        i += 1;
    }
    proof {
        assert(a@.subrange(0, n as int) =~= a@);
    }
    if keep_null {
        m
    } else {
        let mut out: Vec<AttrEntry> = Vec::new();
        let k = m.entries.len();
        let mut j: usize = 0;
        proof {
            assert(out.deep_view() =~= drop_nulls_s(m@.subrange(0, 0)));
        }
        while j < k
            invariant
                k == m.entries.len(),
                j <= k,
                m@ == b@ + filter_absent_s(a@, b@),
                out.deep_view() =~= drop_nulls_s(m@.subrange(0, j as int)),
            decreases k - j,
        {
            proof {
                assert(m@.subrange(0, j as int + 1).drop_last() =~= m@.subrange(0, j as int));
                assert(m@.subrange(0, j as int + 1).last() == m@[j as int]);
            }
            let keep = match &m.entries[j].value {
                AttrValue::Null => false,
                _ => true,
            };
            if keep {
                out.push(m.entries[j].clone());
            }
            proof {
                assert(out.deep_view() =~= drop_nulls_s(m@.subrange(0, j as int + 1)));
            }
            j += 1;
        }
        proof {
            assert(m@.subrange(0, k as int) =~= m@);
        }
        AttrMap { entries: out }
    }
}

/// Transformation of concurrent attribute mappings (see `transform_attrs_s`).
pub fn transform_attr_maps(a: &AttrMap, b: &AttrMap, priority: bool) -> (r: AttrMap)
    ensures
        r@ == transform_attrs_s(a@, b@, priority),
{
    if !priority {
        return b.dup();
    }
    let mut out: Vec<AttrEntry> = Vec::new();
    let n = b.entries.len();
    let mut i: usize = 0;
    proof {
        assert(out.deep_view() =~= filter_absent_s(b@.subrange(0, 0), a@));
    }
    while i < n
        invariant
            n == b.entries.len(),
            i <= n,
            out.deep_view() =~= filter_absent_s(b@.subrange(0, i as int), a@),
        decreases n - i,
    {
        proof {
            assert(b@.subrange(0, i as int + 1).drop_last() =~= b@.subrange(0, i as int));
            assert(b@.subrange(0, i as int + 1).last() == b@[i as int]);
        }
        if !a.contains_key(b.entries[i].key.as_str()) {
            out.push(b.entries[i].clone());
        }
        proof {
            assert(out.deep_view() =~= filter_absent_s(b@.subrange(0, i as int + 1), a@));
        }
        i += 1;
    }
    proof {
        assert(b@.subrange(0, n as int) =~= b@);
    }
    AttrMap { entries: out }
}

/// The attribute change from `a` to `b` (see `diff_attrs_s`).
pub fn diff_attr_maps(a: &AttrMap, b: &AttrMap) -> (r: AttrMap)
    ensures
        r@ == diff_attrs_s(a@, b@),
{
    let mut out: Vec<AttrEntry> = Vec::new();
    let n = b.entries.len();
    let mut i: usize = 0;
    proof {
        assert(out.deep_view() =~= changed_s(b@.subrange(0, 0), a@));
    }
    while i < n
        invariant
            n == b.entries.len(),
            i <= n,
            out.deep_view() =~= changed_s(b@.subrange(0, i as int), a@),
        decreases n - i,
    {
        proof {
            assert(b@.subrange(0, i as int + 1).drop_last() =~= b@.subrange(0, i as int));
            assert(b@.subrange(0, i as int + 1).last() == b@[i as int]);
        }
        let same = match a.get(b.entries[i].key.as_str()) {
            Some(v) => attr_value_eq(v, &b.entries[i].value),
            None => false,
        };
        if !same {
            out.push(b.entries[i].clone());
        }
        proof {
            assert(out.deep_view() =~= changed_s(b@.subrange(0, i as int + 1), a@));
        }
        i += 1;
    }
    proof {
        assert(b@.subrange(0, n as int) =~= b@);
    }
    let m = a.entries.len();
    let mut j: usize = 0;
    proof {
        assert(out.deep_view() =~= changed_s(b@, a@) + nulled_s(a@.subrange(0, 0), b@));
    }
    while j < m
        invariant
            m == a.entries.len(),
            j <= m,
            out.deep_view() =~= changed_s(b@, a@) + nulled_s(a@.subrange(0, j as int), b@),
        decreases m - j,
    {
        proof {
            assert(a@.subrange(0, j as int + 1).drop_last() =~= a@.subrange(0, j as int));
            assert(a@.subrange(0, j as int + 1).last() == a@[j as int]);
        }
        if !b.contains_key(a.entries[j].key.as_str()) {
            out.push(AttrEntry { key: a.entries[j].key.clone(), value: AttrValue::Null });
            proof {
                assert(changed_s(b@, a@) + nulled_s(a@.subrange(0, j as int + 1), b@) =~= (
                changed_s(b@, a@) + nulled_s(a@.subrange(0, j as int), b@)) + seq![
                    (AttrEntryV { key: a@[j as int].key, value: AttrValueV::NullV }),
                ]);
            }
        }
        proof {
            assert(out.deep_view() =~= changed_s(b@, a@) + nulled_s(
                a@.subrange(0, j as int + 1),
                b@,
            ));
        }
        j += 1;
    }
    proof {
        assert(a@.subrange(0, m as int) =~= a@);
    }
    AttrMap { entries: out }
}

/// Every entry that `filter_absent_s` keeps comes from `a` and misses `b`,
/// and key uniqueness is preserved.
pub proof fn lemma_filter_absent_props(a: Seq<AttrEntryV>, b: Seq<AttrEntryV>)
    ensures
        forall|i: int|
            0 <= i < filter_absent_s(a, b).len() ==> has_key(
                a,
                #[trigger] filter_absent_s(a, b)[i].key,
            ) && !has_key(b, filter_absent_s(a, b)[i].key),
        unique_keys(a) ==> unique_keys(filter_absent_s(a, b)),
    decreases a.len(),
{
    let f = filter_absent_s(a, b);
    if a.len() == 0 {
    } else {
        lemma_filter_absent_props(a.drop_last(), b);
        let fp = filter_absent_s(a.drop_last(), b);
        assert(forall|i: int|
            0 <= i < a.drop_last().len() ==> has_key(a, #[trigger] a.drop_last()[i].key)) by {
            assert(forall|i: int|
                0 <= i < a.drop_last().len() ==> #[trigger] a.drop_last()[i] == a[i]);
        }
        assert forall|i: int|
            0 <= i < fp.len() implies has_key(a, #[trigger] fp[i].key) && !has_key(
            b,
            fp[i].key,
        ) by {
            let j = choose|j: int|
                0 <= j < a.drop_last().len() && #[trigger] a.drop_last()[j].key == fp[i].key;
            assert(a[j].key == fp[i].key);
        }
        if !has_key(b, a.last().key) {
            assert(f == fp + seq![a.last()]);
            assert(has_key(a, a.last().key)) by {
                assert(a[a.len() - 1].key == a.last().key);
            }
            if unique_keys(a) {
                assert(unique_keys(a.drop_last()));
                assert forall|i: int| 0 <= i < fp.len() implies #[trigger] fp[i].key
                    != a.last().key by {
                    lemma_filter_absent_props(a.drop_last(), b);
                    let j = choose|j: int|
                        0 <= j < a.drop_last().len() && #[trigger] a.drop_last()[j].key
                            == fp[i].key;
                    assert(a[j].key == fp[i].key);
                }
            }
        }
    }
}

/// Dropping tombstones keeps keys from `m`, preserves uniqueness, and the
/// result carries no tombstone.
pub proof fn lemma_drop_nulls_props(m: Seq<AttrEntryV>)
    ensures
        forall|i: int|
            0 <= i < drop_nulls_s(m).len() ==> has_key(m, #[trigger] drop_nulls_s(m)[i].key),
        unique_keys(m) ==> unique_keys(drop_nulls_s(m)),
        no_nulls(drop_nulls_s(m)),
    decreases m.len(),
{
    let d = drop_nulls_s(m);
    if m.len() == 0 {
    } else {
        lemma_drop_nulls_props(m.drop_last());
        let dp = drop_nulls_s(m.drop_last());
        assert(forall|i: int|
            0 <= i < m.drop_last().len() ==> #[trigger] m.drop_last()[i] == m[i]);
        assert forall|i: int| 0 <= i < dp.len() implies has_key(m, #[trigger] dp[i].key) by {
            let j = choose|j: int|
                0 <= j < m.drop_last().len() && #[trigger] m.drop_last()[j].key == dp[i].key;
            assert(m[j].key == dp[i].key);
        }
        if m.last().value != AttrValueV::NullV {
            assert(d == dp + seq![m.last()]);
            assert(has_key(m, m.last().key)) by {
                assert(m[m.len() - 1].key == m.last().key);
            }
            if unique_keys(m) {
                assert(unique_keys(m.drop_last()));
                assert forall|i: int| 0 <= i < dp.len() implies #[trigger] dp[i].key
                    != m.last().key by {
                    let j = choose|j: int|
                        0 <= j < m.drop_last().len() && #[trigger] m.drop_last()[j].key
                            == dp[i].key;
                    assert(m[j].key == dp[i].key);
                }
            }
        }
    }
}

/// Composing two key-unique mappings yields a key-unique mapping; composing
/// onto an insert leaves no tombstone.
pub proof fn lemma_compose_attrs_wf(a: Seq<AttrEntryV>, b: Seq<AttrEntryV>, keep_null: bool)
    requires
        unique_keys(a),
        unique_keys(b),
    ensures
        unique_keys(compose_attrs_s(a, b, keep_null)),
        !keep_null ==> no_nulls(compose_attrs_s(a, b, keep_null)),
{
    lemma_filter_absent_props(a, b);
    let f = filter_absent_s(a, b);
    let c = b + f;
    assert forall|i: int, j: int| 0 <= i < j < c.len() implies #[trigger] c[i].key
        != #[trigger] c[j].key by {
        if i < b.len() && j >= b.len() {
            assert(c[j] == f[j - b.len()]);
            if c[i].key == c[j].key {
                assert(has_key(b, f[j - b.len()].key)) by {
                    assert(b[i].key == f[j - b.len()].key);
                }
            }
        } else if i >= b.len() {
            assert(c[i] == f[i - b.len()]);
            assert(c[j] == f[j - b.len()]);
        }
    }
    assert(unique_keys(c));
    lemma_drop_nulls_props(c);
}

/// Transforming key-unique mappings yields a key-unique mapping.
pub proof fn lemma_transform_attrs_wf(a: Seq<AttrEntryV>, b: Seq<AttrEntryV>, priority: bool)
    requires
        unique_keys(a),
        unique_keys(b),
    ensures
        unique_keys(transform_attrs_s(a, b, priority)),
{
    lemma_filter_absent_props(b, a);
}

/// Entries kept by `changed_s` come from `b`; uniqueness is preserved.
pub proof fn lemma_changed_props(b: Seq<AttrEntryV>, a: Seq<AttrEntryV>)
    ensures
        forall|i: int|
            0 <= i < changed_s(b, a).len() ==> has_key(b, #[trigger] changed_s(b, a)[i].key),
        unique_keys(b) ==> unique_keys(changed_s(b, a)),
    decreases b.len(),
{
    let c = changed_s(b, a);
    if b.len() == 0 {
    } else {
        lemma_changed_props(b.drop_last(), a);
        let cp = changed_s(b.drop_last(), a);
        assert(forall|i: int|
            0 <= i < b.drop_last().len() ==> #[trigger] b.drop_last()[i] == b[i]);
        assert forall|i: int| 0 <= i < cp.len() implies has_key(b, #[trigger] cp[i].key) by {
            let j = choose|j: int|
                0 <= j < b.drop_last().len() && #[trigger] b.drop_last()[j].key == cp[i].key;
            assert(b[j].key == cp[i].key);
        }
        if lookup_s(a, b.last().key) != Some(b.last().value) {
            assert(c == cp + seq![b.last()]);
            assert(has_key(b, b.last().key)) by {
                assert(b[b.len() - 1].key == b.last().key);
            }
            if unique_keys(b) {
                assert(unique_keys(b.drop_last()));
                assert forall|i: int| 0 <= i < cp.len() implies #[trigger] cp[i].key
                    != b.last().key by {
                    let j = choose|j: int|
                        0 <= j < b.drop_last().len() && #[trigger] b.drop_last()[j].key
                            == cp[i].key;
                    assert(b[j].key == cp[i].key);
                }
            }
        }
    }
}

/// Tombstones produced by `nulled_s` carry keys of `a` that are not in `b`;
/// uniqueness is preserved.
pub proof fn lemma_nulled_props(a: Seq<AttrEntryV>, b: Seq<AttrEntryV>)
    ensures
        forall|i: int|
            0 <= i < nulled_s(a, b).len() ==> has_key(a, #[trigger] nulled_s(a, b)[i].key)
                && !has_key(b, nulled_s(a, b)[i].key),
        unique_keys(a) ==> unique_keys(nulled_s(a, b)),
    decreases a.len(),
{
    let c = nulled_s(a, b);
    if a.len() == 0 {
    } else {
        lemma_nulled_props(a.drop_last(), b);
        let cp = nulled_s(a.drop_last(), b);
        assert(forall|i: int|
            0 <= i < a.drop_last().len() ==> #[trigger] a.drop_last()[i] == a[i]);
        assert forall|i: int|
            0 <= i < cp.len() implies has_key(a, #[trigger] cp[i].key) && !has_key(
            b,
            cp[i].key,
        ) by {
            let j = choose|j: int|
                0 <= j < a.drop_last().len() && #[trigger] a.drop_last()[j].key == cp[i].key;
            assert(a[j].key == cp[i].key);
        }
        if !has_key(b, a.last().key) {
            assert(c == cp + seq![(AttrEntryV { key: a.last().key, value: AttrValueV::NullV })]);
            assert(has_key(a, a.last().key)) by {
                assert(a[a.len() - 1].key == a.last().key);
            }
            if unique_keys(a) {
                assert(unique_keys(a.drop_last()));
                assert forall|i: int| 0 <= i < cp.len() implies #[trigger] cp[i].key
                    != a.last().key by {
                    let j = choose|j: int|
                        0 <= j < a.drop_last().len() && #[trigger] a.drop_last()[j].key
                            == cp[i].key;
                    assert(a[j].key == cp[i].key);
                }
            }
        }
    }
}

/// The attribute change from `a` to `b` is key-unique when both are.
pub proof fn lemma_diff_attrs_wf(a: Seq<AttrEntryV>, b: Seq<AttrEntryV>)
    requires
        unique_keys(a),
        unique_keys(b),
    ensures
        unique_keys(diff_attrs_s(a, b)),
{
    lemma_changed_props(b, a);
    lemma_nulled_props(a, b);
    let c = changed_s(b, a);
    let n = nulled_s(a, b);
    let d = c + n;
    assert forall|i: int, j: int| 0 <= i < j < d.len() implies #[trigger] d[i].key
        != #[trigger] d[j].key by {
        if i < c.len() && j >= c.len() {
            assert(d[i] == c[i]);
            assert(d[j] == n[j - c.len()]);
            if d[i].key == d[j].key {
                assert(has_key(b, d[i].key));
                assert(!has_key(b, n[j - c.len()].key));
            }
        } else if i >= c.len() {
            assert(d[i] == n[i - c.len()]);
            assert(d[j] == n[j - c.len()]);
        } else {
            assert(d[i] == c[i]);
            assert(d[j] == c[j]);
        }
    }
}

/// The mapping an association list denotes: later entries win.
pub open spec fn attrs_as_map(m: Seq<AttrEntryV>) -> Map<Seq<char>, AttrValueV>
    decreases m.len(),
{
    if m.len() == 0 {
        Map::empty()
    } else {
        attrs_as_map(m.drop_last()).insert(m.last().key, m.last().value)
    }
}

/// The denoted mapping holds exactly the listed keys, each at its
/// last-written value.
pub proof fn lemma_as_map_props(m: Seq<AttrEntryV>)
    ensures
        forall|k: Seq<char>| #[trigger] attrs_as_map(m).dom().contains(k) <==> has_key(m, k),
        forall|k: Seq<char>|
            has_key(m, k) ==> lookup_s(m, k) == Some(#[trigger] attrs_as_map(m)[k]),
    decreases m.len(),
{
    if m.len() == 0 {
        assert(attrs_as_map(m) == Map::<Seq<char>, AttrValueV>::empty());
        assert forall|k: Seq<char>| #[trigger] attrs_as_map(m).dom().contains(k) <==> has_key(
            m,
            k,
        ) by {
            assert(!Map::<Seq<char>, AttrValueV>::empty().dom().contains(k));
            if has_key(m, k) {
                let w = choose|w: int| 0 <= w < m.len() && #[trigger] m[w].key == k;
            }
        }
    } else {
        let pre = m.drop_last();
        assert(forall|i: int| 0 <= i < pre.len() ==> #[trigger] pre[i] == m[i]);
        lemma_as_map_props(pre);
        assert(m[m.len() - 1] == m.last());
        assert(attrs_as_map(m) == attrs_as_map(pre).insert(m.last().key, m.last().value));
        assert forall|k: Seq<char>| #[trigger] attrs_as_map(m).dom().contains(k) <==> has_key(
            m,
            k,
        ) by {
            if k == m.last().key {
                assert(has_key(m, k)) by {
                    assert(m[m.len() - 1].key == k);
                }
            } else {
                if has_key(m, k) {
                    let w = choose|w: int| 0 <= w < m.len() && #[trigger] m[w].key == k;
                    assert(w < pre.len());
                    assert(pre[w].key == k);
                }
                if has_key(pre, k) {
                    let w = choose|w: int| 0 <= w < pre.len() && #[trigger] pre[w].key == k;
                    assert(m[w].key == k);
                }
            }
        }
        assert forall|k: Seq<char>| has_key(m, k) implies lookup_s(m, k) == Some(
            #[trigger] attrs_as_map(m)[k],
        ) by {
            if k == m.last().key {
            } else {
                let w = choose|w: int| 0 <= w < m.len() && #[trigger] m[w].key == k;
                assert(w < pre.len());
                assert(pre[w].key == k);
                assert(has_key(pre, k));
            }
        }
    }
}

/// A key stands in a concatenation exactly when it stands in a part.
proof fn lemma_has_key_concat(x: Seq<AttrEntryV>, y: Seq<AttrEntryV>, k: Seq<char>)
    ensures
        has_key(x + y, k) <==> has_key(x, k) || has_key(y, k),
{
    if has_key(x, k) {
        let w = choose|w: int| 0 <= w < x.len() && #[trigger] x[w].key == k;
        assert((x + y)[w].key == k);
    }
    if has_key(y, k) {
        let w = choose|w: int| 0 <= w < y.len() && #[trigger] y[w].key == k;
        assert((x + y)[x.len() + w].key == k);
    }
    if has_key(x + y, k) {
        let w = choose|w: int| 0 <= w < (x + y).len() && #[trigger] (x + y)[w].key == k;
        if w < x.len() {
            assert(x[w].key == k);
        } else {
            assert(y[w - x.len()].key == k);
        }
    }
}

/// Lookup in a concatenation: the right part wins when it holds the key.
proof fn lemma_lookup_concat(x: Seq<AttrEntryV>, y: Seq<AttrEntryV>, k: Seq<char>)
    ensures
        lookup_s(x + y, k) == if has_key(y, k) {
            lookup_s(y, k)
        } else {
            lookup_s(x, k)
        },
    decreases y.len(),
{
    if y.len() == 0 {
        assert(x + y =~= x);
        if has_key(y, k) {
            let w = choose|w: int| 0 <= w < y.len() && #[trigger] y[w].key == k;
        }
    } else {
        let yp = y.drop_last();
        assert(forall|i: int| 0 <= i < yp.len() ==> #[trigger] yp[i] == y[i]);
        lemma_lookup_concat(x, yp, k);
        assert((x + y).drop_last() =~= x + yp);
        assert((x + y).last() == y.last());
        assert(y[y.len() - 1] == y.last());
        if y.last().key == k {
            assert(has_key(y, k));
        } else {
            if has_key(y, k) {
                let w = choose|w: int| 0 <= w < y.len() && #[trigger] y[w].key == k;
                assert(w < yp.len());
                assert(yp[w].key == k);
            }
            if has_key(yp, k) {
                let w = choose|w: int| 0 <= w < yp.len() && #[trigger] yp[w].key == k;
                assert(y[w].key == k);
            }
        }
    }
}

/// A lookup succeeds exactly on a present key.
proof fn lemma_lookup_has(m: Seq<AttrEntryV>, k: Seq<char>)
    ensures
        (lookup_s(m, k) is Some) <==> has_key(m, k),
    decreases m.len(),
{
    if m.len() == 0 {
        if has_key(m, k) {
            let w = choose|w: int| 0 <= w < m.len() && #[trigger] m[w].key == k;
        }
    } else {
        let pre = m.drop_last();
        assert(forall|i: int| 0 <= i < pre.len() ==> #[trigger] pre[i] == m[i]);
        lemma_lookup_has(pre, k);
        assert(m[m.len() - 1] == m.last());
        if m.last().key == k {
            assert(has_key(m, k));
        } else {
            if has_key(m, k) {
                let w = choose|w: int| 0 <= w < m.len() && #[trigger] m[w].key == k;
                assert(w < pre.len());
                assert(pre[w].key == k);
            }
            if has_key(pre, k) {
                let w = choose|w: int| 0 <= w < pre.len() && #[trigger] pre[w].key == k;
                assert(m[w].key == k);
            }
        }
    }
}

/// What `changed_s` holds under a key: exactly `b`'s entries whose value
/// differs from `a`'s, at `b`'s value.
proof fn lemma_changed_lookup(b: Seq<AttrEntryV>, a: Seq<AttrEntryV>, k: Seq<char>)
    requires
        unique_keys(b),
    ensures
        has_key(changed_s(b, a), k) <==> (has_key(b, k) && lookup_s(a, k) != lookup_s(b, k)),
        has_key(changed_s(b, a), k) ==> lookup_s(changed_s(b, a), k) == lookup_s(b, k),
    decreases b.len(),
{
    let c = changed_s(b, a);
    if b.len() == 0 {
        if has_key(c, k) {
            let w = choose|w: int| 0 <= w < c.len() && #[trigger] c[w].key == k;
        }
        if has_key(b, k) {
            let w = choose|w: int| 0 <= w < b.len() && #[trigger] b[w].key == k;
        }
    } else {
        let bp = b.drop_last();
        assert(forall|i: int| 0 <= i < bp.len() ==> #[trigger] bp[i] == b[i]);
        assert(unique_keys(bp));
        lemma_changed_lookup(bp, a, k);
        let cp = changed_s(bp, a);
        assert(b[b.len() - 1] == b.last());
        if b.last().key == k {
            assert(has_key(b, k));
            assert(!has_key(bp, k)) by {
                if has_key(bp, k) {
                    let w = choose|w: int| 0 <= w < bp.len() && #[trigger] bp[w].key == k;
                    assert(b[w].key == b[b.len() - 1].key);
                }
            }
            assert(lookup_s(b, k) == Some(b.last().value));
            assert(!has_key(cp, k));
            if lookup_s(a, b.last().key) != Some(b.last().value) {
                assert(c == cp + seq![b.last()]);
                assert(c.last() == b.last()) by {
                    assert(c[c.len() - 1] == b.last());
                }
                assert(has_key(c, k)) by {
                    assert(c[c.len() - 1].key == k);
                }
                assert(c.drop_last() =~= cp);
                assert(lookup_s(c, k) == Some(b.last().value));
            } else {
                assert(c == cp);
            }
        } else {
            assert(lookup_s(b, k) == lookup_s(bp, k));
            assert(has_key(b, k) <==> has_key(bp, k)) by {
                if has_key(b, k) {
                    let w = choose|w: int| 0 <= w < b.len() && #[trigger] b[w].key == k;
                    assert(w < bp.len());
                    assert(bp[w].key == k);
                }
                if has_key(bp, k) {
                    let w = choose|w: int| 0 <= w < bp.len() && #[trigger] bp[w].key == k;
                    assert(b[w].key == k);
                }
            }
            if lookup_s(a, b.last().key) != Some(b.last().value) {
                assert(c == cp + seq![b.last()]);
                assert(c.drop_last() =~= cp);
                assert(c.last() == b.last()) by {
                    assert(c[c.len() - 1] == b.last());
                }
                assert(lookup_s(c, k) == lookup_s(cp, k));
                assert(has_key(c, k) <==> has_key(cp, k)) by {
                    if has_key(c, k) {
                        let w = choose|w: int| 0 <= w < c.len() && #[trigger] c[w].key == k;
                        assert(w < cp.len());
                        assert(cp[w].key == k);
                    }
                    if has_key(cp, k) {
                        let w = choose|w: int| 0 <= w < cp.len() && #[trigger] cp[w].key == k;
                        assert(c[w].key == k);
                    }
                }
            } else {
                assert(c == cp);
            }
        }
    }
}

/// What `nulled_s` holds under a key: a tombstone exactly for `a`'s keys
/// absent from `b`.
proof fn lemma_nulled_lookup(a: Seq<AttrEntryV>, b: Seq<AttrEntryV>, k: Seq<char>)
    ensures
        has_key(nulled_s(a, b), k) <==> (has_key(a, k) && !has_key(b, k)),
        has_key(nulled_s(a, b), k) ==> lookup_s(nulled_s(a, b), k) == Some(AttrValueV::NullV),
    decreases a.len(),
{
    let c = nulled_s(a, b);
    if a.len() == 0 {
        if has_key(c, k) {
            let w = choose|w: int| 0 <= w < c.len() && #[trigger] c[w].key == k;
        }
        if has_key(a, k) {
            let w = choose|w: int| 0 <= w < a.len() && #[trigger] a[w].key == k;
        }
    } else {
        let ap = a.drop_last();
        assert(forall|i: int| 0 <= i < ap.len() ==> #[trigger] ap[i] == a[i]);
        lemma_nulled_lookup(ap, b, k);
        let cp = nulled_s(ap, b);
        assert(a[a.len() - 1] == a.last());
        let tomb = AttrEntryV { key: a.last().key, value: AttrValueV::NullV };
        assert(has_key(a, k) <==> (has_key(ap, k) || a.last().key == k)) by {
            if has_key(a, k) && a.last().key != k {
                let w = choose|w: int| 0 <= w < a.len() && #[trigger] a[w].key == k;
                assert(w < ap.len());
                assert(ap[w].key == k);
            }
            if has_key(ap, k) {
                let w = choose|w: int| 0 <= w < ap.len() && #[trigger] ap[w].key == k;
                assert(a[w].key == k);
            }
        }
        if !has_key(b, a.last().key) {
            assert(c == cp + seq![tomb]);
            assert(c.drop_last() =~= cp);
            assert(c.last() == tomb) by {
                assert(c[c.len() - 1] == tomb);
            }
            assert(has_key(c, k) <==> (has_key(cp, k) || k == a.last().key)) by {
                if has_key(c, k) && k != a.last().key {
                    let w = choose|w: int| 0 <= w < c.len() && #[trigger] c[w].key == k;
                    assert(w < cp.len());
                    assert(cp[w].key == k);
                }
                if has_key(cp, k) {
                    let w = choose|w: int| 0 <= w < cp.len() && #[trigger] cp[w].key == k;
                    assert(c[w].key == k);
                }
                if k == a.last().key {
                    assert(c[c.len() - 1].key == k);
                }
            }
        } else {
            assert(c == cp);
        }
    }
}

/// What `filter_absent_s` holds under a key: `a`'s entries, minus the keys
/// of `b`, at `a`'s value.
proof fn lemma_filter_absent_lookup(a: Seq<AttrEntryV>, b: Seq<AttrEntryV>, k: Seq<char>)
    ensures
        has_key(filter_absent_s(a, b), k) <==> (has_key(a, k) && !has_key(b, k)),
        has_key(filter_absent_s(a, b), k) ==> lookup_s(filter_absent_s(a, b), k) == lookup_s(
            a,
            k,
        ),
    decreases a.len(),
{
    let c = filter_absent_s(a, b);
    if a.len() == 0 {
        if has_key(c, k) {
            let w = choose|w: int| 0 <= w < c.len() && #[trigger] c[w].key == k;
        }
        if has_key(a, k) {
            let w = choose|w: int| 0 <= w < a.len() && #[trigger] a[w].key == k;
        }
    } else {
        let ap = a.drop_last();
        assert(forall|i: int| 0 <= i < ap.len() ==> #[trigger] ap[i] == a[i]);
        lemma_filter_absent_lookup(ap, b, k);
        let cp = filter_absent_s(ap, b);
        assert(a[a.len() - 1] == a.last());
        assert(has_key(a, k) <==> (has_key(ap, k) || a.last().key == k)) by {
            if has_key(a, k) && a.last().key != k {
                let w = choose|w: int| 0 <= w < a.len() && #[trigger] a[w].key == k;
                assert(w < ap.len());
                assert(ap[w].key == k);
            }
            if has_key(ap, k) {
                let w = choose|w: int| 0 <= w < ap.len() && #[trigger] ap[w].key == k;
                assert(a[w].key == k);
            }
        }
        if !has_key(b, a.last().key) {
            assert(c == cp + seq![a.last()]);
            assert(c.drop_last() =~= cp);
            assert(c.last() == a.last()) by {
                assert(c[c.len() - 1] == a.last());
            }
            assert(has_key(c, k) <==> (has_key(cp, k) || k == a.last().key)) by {
                if has_key(c, k) && k != a.last().key {
                    let w = choose|w: int| 0 <= w < c.len() && #[trigger] c[w].key == k;
                    assert(w < cp.len());
                    assert(cp[w].key == k);
                }
                if has_key(cp, k) {
                    let w = choose|w: int| 0 <= w < cp.len() && #[trigger] cp[w].key == k;
                    assert(c[w].key == k);
                }
                if k == a.last().key {
                    assert(c[c.len() - 1].key == k);
                }
            }
            if a.last().key == k {
                assert(lookup_s(c, k) == Some(a.last().value));
                assert(lookup_s(a, k) == Some(a.last().value));
            } else {
                assert(lookup_s(c, k) == lookup_s(cp, k));
                assert(lookup_s(a, k) == lookup_s(ap, k));
            }
        } else {
            assert(c == cp);
            if a.last().key == k {
                assert(!has_key(c, k)) by {
                    if has_key(cp, k) {
                        lemma_filter_absent_props(ap, b);
                        let w = choose|w: int| 0 <= w < cp.len() && #[trigger] cp[w].key == k;
                    }
                }
            } else {
                assert(lookup_s(a, k) == lookup_s(ap, k));
            }
        }
    }
}

/// What remains after dropping tombstones from a key-unique mapping: the
/// keys with a value, at that value.
proof fn lemma_drop_nulls_lookup(m: Seq<AttrEntryV>, k: Seq<char>)
    requires
        unique_keys(m),
    ensures
        has_key(drop_nulls_s(m), k) <==> (has_key(m, k) && lookup_s(m, k) != Some(
            AttrValueV::NullV,
        )),
        has_key(drop_nulls_s(m), k) ==> lookup_s(drop_nulls_s(m), k) == lookup_s(m, k),
    decreases m.len(),
{
    let c = drop_nulls_s(m);
    if m.len() == 0 {
        if has_key(c, k) {
            let w = choose|w: int| 0 <= w < c.len() && #[trigger] c[w].key == k;
        }
        if has_key(m, k) {
            let w = choose|w: int| 0 <= w < m.len() && #[trigger] m[w].key == k;
        }
    } else {
        let mp = m.drop_last();
        assert(forall|i: int| 0 <= i < mp.len() ==> #[trigger] mp[i] == m[i]);
        assert(unique_keys(mp));
        lemma_drop_nulls_lookup(mp, k);
        let cp = drop_nulls_s(mp);
        assert(m[m.len() - 1] == m.last());
        if m.last().key == k {
            assert(has_key(m, k));
            assert(!has_key(mp, k)) by {
                if has_key(mp, k) {
                    let w = choose|w: int| 0 <= w < mp.len() && #[trigger] mp[w].key == k;
                    assert(m[w].key == m[m.len() - 1].key);
                }
            }
            assert(lookup_s(m, k) == Some(m.last().value));
            assert(!has_key(cp, k));
            if m.last().value != AttrValueV::NullV {
                assert(c == cp + seq![m.last()]);
                assert(c.drop_last() =~= cp);
                assert(c.last() == m.last()) by {
                    assert(c[c.len() - 1] == m.last());
                }
                assert(has_key(c, k)) by {
                    assert(c[c.len() - 1].key == k);
                }
                assert(lookup_s(c, k) == Some(m.last().value));
            } else {
                assert(c == cp);
            }
        } else {
            assert(lookup_s(m, k) == lookup_s(mp, k));
            assert(has_key(m, k) <==> has_key(mp, k)) by {
                if has_key(m, k) {
                    let w = choose|w: int| 0 <= w < m.len() && #[trigger] m[w].key == k;
                    assert(w < mp.len());
                    assert(mp[w].key == k);
                }
                if has_key(mp, k) {
                    let w = choose|w: int| 0 <= w < mp.len() && #[trigger] mp[w].key == k;
                    assert(m[w].key == k);
                }
            }
            if m.last().value != AttrValueV::NullV {
                assert(c == cp + seq![m.last()]);
                assert(c.drop_last() =~= cp);
                assert(c.last() == m.last()) by {
                    assert(c[c.len() - 1] == m.last());
                }
                assert(lookup_s(c, k) == lookup_s(cp, k));
                assert(has_key(c, k) <==> has_key(cp, k)) by {
                    if has_key(c, k) {
                        let w = choose|w: int| 0 <= w < c.len() && #[trigger] c[w].key == k;
                        assert(w < cp.len());
                        assert(cp[w].key == k);
                    }
                    if has_key(cp, k) {
                        let w = choose|w: int| 0 <= w < cp.len() && #[trigger] cp[w].key == k;
                        assert(c[w].key == k);
                    }
                }
            } else {
                assert(c == cp);
            }
        }
    }
}

/// The attribute patch law: composing a mapping with the attribute change
/// from it to a target mapping yields the target, as a mapping.  The
/// composed list may order its entries differently from the target's list;
/// the denoted key-value mapping is identical.
pub proof fn lemma_patch_attrs(a: Seq<AttrEntryV>, b: Seq<AttrEntryV>)
    requires
        unique_keys(a),
        unique_keys(b),
        no_nulls(b),
    ensures
        attrs_as_map(compose_attrs_s(a, diff_attrs_s(a, b), false)) == attrs_as_map(b),
{
    let d = diff_attrs_s(a, b);
    let ch = changed_s(b, a);
    let nu = nulled_s(a, b);
    let f = filter_absent_s(a, d);
    let m = d + f;
    let c = drop_nulls_s(m);
    lemma_diff_attrs_wf(a, b);
    lemma_filter_absent_props(a, d);
    // the combined list is key-unique, so lookups are well-behaved
    assert(unique_keys(m)) by {
        assert forall|i: int, j: int| 0 <= i < j < m.len() implies #[trigger] m[i].key
            != #[trigger] m[j].key by {
            if i < d.len() && j >= d.len() {
                assert(m[j] == f[j - d.len()]);
                if m[i].key == m[j].key {
                    assert(has_key(d, f[j - d.len()].key)) by {
                        assert(d[i].key == f[j - d.len()].key);
                    }
                }
            } else if i >= d.len() {
                assert(m[i] == f[i - d.len()]);
                assert(m[j] == f[j - d.len()]);
            }
        }
    }
    assert forall|k: Seq<char>|
        #![trigger attrs_as_map(c).dom().contains(k)]
        #![trigger attrs_as_map(b).dom().contains(k)]
        (has_key(c, k) <==> has_key(b, k)) && (has_key(b, k) ==> lookup_s(c, k) == lookup_s(
        b,
        k,
    )) by {
        lemma_changed_lookup(b, a, k);
        lemma_nulled_lookup(a, b, k);
        lemma_has_key_concat(ch, nu, k);
        lemma_lookup_concat(ch, nu, k);
        lemma_filter_absent_lookup(a, d, k);
        lemma_has_key_concat(d, f, k);
        lemma_lookup_concat(d, f, k);
        lemma_drop_nulls_lookup(m, k);
        lemma_lookup_has(a, k);
        lemma_lookup_has(b, k);
        if has_key(b, k) {
            if lookup_s(a, k) != lookup_s(b, k) {
                // the changed entry carries b's value
                assert(has_key(ch, k));
                assert(lookup_s(d, k) == lookup_s(b, k));
                assert(has_key(d, k));
                assert(lookup_s(m, k) == lookup_s(b, k));
                // b never stores a tombstone
                assert(lookup_s(b, k) != Some(AttrValueV::NullV)) by {
                    let w = choose|w: int| 0 <= w < b.len() && #[trigger] b[w].key == k;
                    lemma_lookup_unique(b, k, w);
                }
                assert(has_key(c, k) && lookup_s(c, k) == lookup_s(b, k));
            } else {
                // unchanged: a's entry survives the filter untouched
                assert(!has_key(ch, k));
                assert(!has_key(nu, k));
                assert(!has_key(d, k));
                assert(has_key(a, k));
                assert(has_key(f, k) && lookup_s(f, k) == lookup_s(a, k));
                assert(lookup_s(m, k) == lookup_s(a, k));
                assert(lookup_s(b, k) != Some(AttrValueV::NullV)) by {
                    let w = choose|w: int| 0 <= w < b.len() && #[trigger] b[w].key == k;
                    lemma_lookup_unique(b, k, w);
                }
                assert(has_key(c, k) && lookup_s(c, k) == lookup_s(b, k));
            }
        } else {
            assert(!has_key(ch, k));
            if has_key(a, k) {
                // a tombstone covers the key, and the tombstone is dropped
                assert(has_key(nu, k));
                assert(has_key(d, k));
                assert(lookup_s(d, k) == Some(AttrValueV::NullV));
                assert(lookup_s(m, k) == Some(AttrValueV::NullV));
                assert(!has_key(c, k));
            } else {
                assert(!has_key(nu, k));
                assert(!has_key(d, k));
                assert(!has_key(f, k));
                assert(!has_key(m, k)) by {
                    if has_key(m, k) {
                        let w = choose|w: int| 0 <= w < m.len() && #[trigger] m[w].key == k;
                    }
                }
                assert(!has_key(c, k)) by {
                    lemma_drop_nulls_props(m);
                    if has_key(c, k) {
                        let w = choose|w: int| 0 <= w < c.len() && #[trigger] c[w].key == k;
                    }
                }
            }
        }
    }
    lemma_as_map_props(c);
    lemma_as_map_props(b);
    assert(attrs_as_map(c) =~= attrs_as_map(b)) by {
        assert forall|k: Seq<char>| attrs_as_map(c).dom().contains(k) implies attrs_as_map(c)[k]
            == attrs_as_map(b)[k] by {
            assert(has_key(c, k) && has_key(b, k));
            assert(lookup_s(c, k) == Some(attrs_as_map(c)[k]));
            assert(lookup_s(b, k) == Some(attrs_as_map(b)[k]));
        }
    }
}

/// With unique keys, any entry's value is the lookup's answer.
proof fn lemma_lookup_unique(m: Seq<AttrEntryV>, k: Seq<char>, w: int)
    requires
        unique_keys(m),
        0 <= w < m.len(),
        m[w].key == k,
    ensures
        lookup_s(m, k) == Some(m[w].value),
    decreases m.len(),
{
    assert(m[m.len() - 1] == m.last());
    if w == m.len() - 1 {
    } else {
        assert(m.last().key != k);
        let pre = m.drop_last();
        assert(forall|i: int| 0 <= i < pre.len() ==> #[trigger] pre[i] == m[i]);
        assert(unique_keys(pre));
        lemma_lookup_unique(pre, k, w);
    }
}

/// Removing a key keeps the remaining keys, removes that one entirely, and
/// preserves key uniqueness.
pub proof fn lemma_remove_key_unique(m: Seq<AttrEntryV>, k: Seq<char>)
    ensures
        !has_key(remove_key_s(m, k), k),
        unique_keys(m) ==> unique_keys(remove_key_s(m, k) + seq![
            (AttrEntryV { key: k, value: AttrValueV::NullV }),
        ]),
        unique_keys(m) ==> forall|e: AttrEntryV|
            e.key == k ==> unique_keys(remove_key_s(m, k) + seq![e]),
        forall|i: int|
            0 <= i < remove_key_s(m, k).len() ==> has_key(m, #[trigger] remove_key_s(m, k)[i].key),
        unique_keys(m) ==> unique_keys(remove_key_s(m, k)),
    decreases m.len(),
{
    let r = remove_key_s(m, k);
    if m.len() == 0 {
    } else {
        lemma_remove_key_unique(m.drop_last(), k);
        assert(forall|i: int|
            0 <= i < m.drop_last().len() ==> has_key(m, #[trigger] m.drop_last()[i].key));
        if m.last().key == k {
            assert(forall|i: int|
                0 <= i < r.len() ==> has_key(m, #[trigger] r[i].key));
        } else {
            let rp = remove_key_s(m.drop_last(), k);
            assert(r == rp + seq![m.last()]);
            assert(has_key(m, m.last().key)) by {
                assert(m[m.len() - 1].key == m.last().key);
            }
            assert(forall|i: int|
                0 <= i < r.len() ==> has_key(m, #[trigger] r[i].key)) by {
                assert(forall|i: int|
                    0 <= i < rp.len() ==> #[trigger] r[i] == rp[i]);
            }
            if unique_keys(m) {
                assert(unique_keys(m.drop_last()));
                // the re-appended last entry collides with no earlier key
                assert(forall|i: int| 0 <= i < rp.len() ==> #[trigger] rp[i].key != m.last().key)
                    by {
                    assert forall|i: int| 0 <= i < rp.len() implies #[trigger] rp[i].key
                        != m.last().key by {
                        assert(has_key(m.drop_last(), rp[i].key));
                        let j = choose|j: int|
                            0 <= j < m.drop_last().len() && #[trigger] m.drop_last()[j].key
                                == rp[i].key;
                        assert(m[j].key == rp[i].key);
                    }
                }
            }
        }
    }
}

} // verus!
