use quill_delta::AttrMap;
use quill_delta::AttrValue;
use quill_delta::Delta;

fn no_attrs() -> AttrMap {
    AttrMap::new()
}

fn bold() -> AttrMap {
    let mut m = AttrMap::new();
    m.set("bold".to_string(), AttrValue::Bool(true));
    m
}

#[test]
fn compose_with_identity_is_identity() {
    let d = Delta::new()
        .insert("Hello", &bold())
        .retain(2, &no_attrs())
        .delete(3);
    let composed = d.compose(&Delta::new());
    assert!(composed.equals(&d));
}

#[test]
fn compose_identity_on_the_left() {
    let d = Delta::new().insert("Hi", &no_attrs()).delete(1);
    let composed = Delta::new().compose(&d);
    assert!(composed.equals(&d));
}

#[test]
fn compose_is_associative_on_samples() {
    let x = Delta::new().insert("AB", &no_attrs());
    let y = Delta::new().retain(1, &no_attrs()).insert("X", &bold()).delete(1);
    let z = Delta::new().retain(1, &bold()).insert("Q", &no_attrs()).delete(1);
    let left = x.compose(&y).compose(&z);
    let right = x.compose(&y.compose(&z));
    assert!(left.equals(&right));
}

#[test]
fn compose_is_associative_with_embeds_and_tombstones() {
    let mut strike_off = AttrMap::new();
    strike_off.set("strike".to_string(), AttrValue::Null);
    let x = Delta::new().insert("abc", &bold());
    let y = Delta::new().retain(2, &strike_off).delete(1);
    let z = Delta::new().insert("z", &no_attrs()).retain(1, &bold());
    let left = x.compose(&y).compose(&z);
    let right = x.compose(&y.compose(&z));
    assert!(left.equals(&right));
}

#[test]
fn zero_length_delete_is_a_no_op() {
    let a = Delta::new().insert("Hello", &no_attrs()).delete(0);
    let b = Delta::new().insert("Hello", &no_attrs());
    assert!(a.equals(&b));
}

#[test]
fn zero_length_retain_and_empty_insert_are_no_ops() {
    let a = Delta::new()
        .insert("", &bold())
        .retain(0, &no_attrs())
        .insert("Hey", &no_attrs());
    let b = Delta::new().insert("Hey", &no_attrs());
    assert!(a.equals(&b));
}

#[test]
fn insert_in_the_middle_via_retain_skip() {
    let doc = Delta::new().insert("AB", &no_attrs());
    let edit = Delta::new()
        .retain(1, &no_attrs())
        .insert("X", &no_attrs())
        .retain(1, &no_attrs());
    let composed = doc.compose(&edit);
    let expected = Delta::new()
        .insert("A", &no_attrs())
        .insert("X", &no_attrs())
        .insert("B", &no_attrs());
    assert!(composed.equals(&expected));
}

#[test]
fn adjacent_like_inserts_merge() {
    let d = Delta::new().insert("A", &no_attrs()).insert("B", &no_attrs());
    assert_eq!(d.ops.len(), 1);
}

#[test]
fn inserts_with_different_attrs_do_not_merge() {
    let d = Delta::new().insert("A", &no_attrs()).insert("B", &bold());
    assert_eq!(d.ops.len(), 2);
}

#[test]
fn insert_after_delete_steps_in_front() {
    let a = Delta::new().retain(1, &no_attrs()).delete(2).insert("xy", &no_attrs());
    let b = Delta::new().retain(1, &no_attrs()).insert("xy", &no_attrs()).delete(2);
    assert!(a.equals(&b));
}

#[test]
fn delete_swallows_a_fresh_insert_in_compose() {
    let a = Delta::new().insert("AB", &no_attrs());
    let b = Delta::new().delete(2);
    let composed = a.compose(&b);
    assert!(composed.equals(&Delta::new()));
}

#[test]
fn retain_with_tombstone_removes_an_attribute() {
    let mut bold_off = AttrMap::new();
    bold_off.set("bold".to_string(), AttrValue::Null);
    let a = Delta::new().insert("A", &bold());
    let b = Delta::new().retain(1, &bold_off);
    let composed = a.compose(&b);
    let expected = Delta::new().insert("A", &AttrMap::new());
    assert!(composed.equals(&expected));
}

#[test]
fn retain_attrs_override_on_collision() {
    let mut red = AttrMap::new();
    red.set("color".to_string(), AttrValue::Str("red".to_string()));
    let mut blue = AttrMap::new();
    blue.set("color".to_string(), AttrValue::Str("blue".to_string()));
    let a = Delta::new().insert("A", &red);
    let b = Delta::new().retain(1, &blue);
    let composed = a.compose(&b);
    let expected = Delta::new().insert("A", &blue);
    assert!(composed.equals(&expected));
}

#[test]
fn concat_merges_at_the_boundary() {
    let a = Delta::new().insert("Hel", &no_attrs());
    let b = Delta::new().insert("lo", &no_attrs());
    let joined = a.concat(&b);
    let expected = Delta::new().insert("Hello", &no_attrs());
    assert!(joined.equals(&expected));
}

#[test]
fn compose_keeps_left_deletes() {
    let a = Delta::new().delete(2).insert("Z", &no_attrs());
    let b = Delta::new().retain(1, &no_attrs());
    let composed = a.compose(&b);
    assert!(composed.equals(&a));
}
