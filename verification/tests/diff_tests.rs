use quill_delta::AttrMap;
use quill_delta::AttrValue;
use quill_delta::Delta;
use quill_delta::DeltaError;
use quill_delta::Embeds;

fn no_attrs() -> AttrMap {
    AttrMap::new()
}

fn bold() -> AttrMap {
    let mut m = AttrMap::new();
    m.set("bold".to_string(), AttrValue::Bool(true));
    m
}

#[test]
fn diff_hello_hallo() {
    let a = Delta::new().insert("Hello", &no_attrs());
    let b = Delta::new().insert("Hallo", &no_attrs());
    let d = a.diff(&b).unwrap();
    let expected = Delta::new()
        .retain(1, &no_attrs())
        .delete(1)
        .insert("a", &no_attrs())
        .retain(3, &no_attrs());
    assert!(d.equals(&expected));
}

#[test]
fn diff_applies_back() {
    let a = Delta::new().insert("Hello", &no_attrs());
    let b = Delta::new().insert("Hallo", &no_attrs());
    let d = a.diff(&b).unwrap();
    assert!(a.compose(&d).equals(&b));
}

#[test]
fn diff_of_identical_documents_only_retains() {
    let a = Delta::new().insert("same", &no_attrs());
    let d = a.diff(&a).unwrap();
    assert!(a.compose(&d).equals(&a));
}

#[test]
fn diff_pure_insertion_and_removal() {
    let a = Delta::new().insert("ac", &no_attrs());
    let b = Delta::new().insert("abc", &no_attrs());
    let d = a.diff(&b).unwrap();
    assert!(a.compose(&d).equals(&b));
    let back = b.diff(&a).unwrap();
    assert!(b.compose(&back).equals(&a));
}

#[test]
fn diff_carries_attribute_changes_as_retains() {
    let a = Delta::new().insert("ab", &no_attrs());
    let b = Delta::new().insert("ab", &bold());
    let d = a.diff(&b).unwrap();
    assert!(a.compose(&d).equals(&b));
    // content is unchanged, so nothing is deleted or inserted
    for op in d.ops.iter() {
        assert!(matches!(op, quill_delta::DeltaOps::Retain(_, _)));
    }
}

#[test]
fn diff_treats_embeds_atomically() {
    let a = Delta::new().insert_embed(Embeds::Image("a.png".to_string()), &no_attrs());
    let b = Delta::new().insert_embed(Embeds::Image("b.png".to_string()), &no_attrs());
    let d = a.diff(&b).unwrap();
    assert!(a.compose(&d).equals(&b));
}

#[test]
fn diff_patch_restores_the_target_formatting() {
    // the composed attribute list may order entries differently from the
    // target's, so the check compares the denoted mappings
    let mut ma = AttrMap::new();
    ma.set("bold".to_string(), AttrValue::Bool(true));
    ma.set("color".to_string(), AttrValue::Str("red".to_string()));
    let mut mb = AttrMap::new();
    mb.set("color".to_string(), AttrValue::Str("blue".to_string()));
    mb.set("italic".to_string(), AttrValue::Bool(true));
    let a = Delta::new().insert("x", &ma);
    let b = Delta::new().insert("x", &mb);
    let d = a.diff(&b).unwrap();
    let c = a.compose(&d);
    assert_eq!(c.ops.len(), 1);
    match &c.ops[0] {
        quill_delta::DeltaOps::Insert(t, attrs) => {
            assert_eq!(t, "x");
            assert_eq!(attrs.len(), 2);
            assert!(quill_delta::attrs::attr_value_eq(
                attrs.get("color").unwrap(),
                &AttrValue::Str("blue".to_string()),
            ));
            assert!(quill_delta::attrs::attr_value_eq(
                attrs.get("italic").unwrap(),
                &AttrValue::Bool(true),
            ));
            assert!(attrs.get("bold").is_none());
        },
        _ => panic!("expected a single insert"),
    }
}

#[test]
fn diff_collapses_scattered_changes_into_one_middle() {
    // prefix/suffix alignment: distinct changed regions become one
    // replaced middle, still a correct patch
    let a = Delta::new().insert("XaY", &no_attrs());
    let b = Delta::new().insert("a", &no_attrs());
    let d = a.diff(&b).unwrap();
    let expected = Delta::new().insert("a", &no_attrs()).delete(3);
    assert!(d.equals(&expected));
    assert!(a.compose(&d).equals(&b));
}

#[test]
fn diff_rejects_non_documents() {
    let a = Delta::new().retain(1, &no_attrs());
    let b = Delta::new().insert("x", &no_attrs());
    assert!(matches!(a.diff(&b), Err(DeltaError::InvalidOperation)));
    assert!(matches!(b.diff(&a), Err(DeltaError::InvalidOperation)));
}
