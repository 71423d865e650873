use quill_delta::AttrMap;
use quill_delta::AttrValue;
use quill_delta::Delta;

fn no_attrs() -> AttrMap {
    AttrMap::new()
}

fn bold() -> AttrMap {
    let mut m = AttrMap::new();
    m.set("bold".to_string(), AttrValue::Bool(true));
    m
}

#[test]
fn concurrent_edits_converge() {
    // both deltas edit the same base document "abc"
    let base = Delta::new().insert("abc", &no_attrs());
    let da = Delta::new().retain(1, &no_attrs()).insert("X", &no_attrs());
    let db = Delta::new().retain(2, &no_attrs()).delete(1);
    let one = base.compose(&da).compose(&da.transform(&db, true));
    let two = base.compose(&db).compose(&db.transform(&da, false));
    assert!(one.equals(&two));
}

#[test]
fn concurrent_inserts_at_one_position_converge() {
    let base = Delta::new().insert("ab", &no_attrs());
    let da = Delta::new().retain(1, &no_attrs()).insert("X", &no_attrs());
    let db = Delta::new().retain(1, &no_attrs()).insert("Y", &no_attrs());
    let one = base.compose(&da).compose(&da.transform(&db, true));
    let two = base.compose(&db).compose(&db.transform(&da, false));
    assert!(one.equals(&two));
    // with priority for da, its insert stays first
    let expected = Delta::new().insert("aXYb", &no_attrs());
    assert!(one.equals(&expected));
}

#[test]
fn overlapping_deletes_collapse() {
    let base = Delta::new().insert("abcd", &no_attrs());
    let da = Delta::new().retain(1, &no_attrs()).delete(2);
    let db = Delta::new().retain(2, &no_attrs()).delete(2);
    let one = base.compose(&da).compose(&da.transform(&db, true));
    let two = base.compose(&db).compose(&db.transform(&da, false));
    assert!(one.equals(&two));
    let expected = Delta::new().insert("a", &no_attrs());
    assert!(one.equals(&expected));
}

#[test]
fn transform_shifts_past_the_other_insert() {
    let da = Delta::new().insert("X", &no_attrs());
    let db = Delta::new().insert("Y", &no_attrs());
    // without priority, db's insert comes out first
    let t = da.transform(&db, false);
    let expected = Delta::new().insert("Y", &no_attrs());
    assert!(t.equals(&expected));
    // with priority for da, db's insert is shifted behind it
    let t2 = da.transform(&db, true);
    let expected2 = Delta::new().retain(1, &no_attrs()).insert("Y", &no_attrs());
    assert!(t2.equals(&expected2));
}

#[test]
fn transform_attribute_priority() {
    let da = Delta::new().retain(1, &bold());
    let mut italic = AttrMap::new();
    italic.set("italic".to_string(), AttrValue::Bool(true));
    let db = Delta::new().retain(1, &italic);
    // without priority the other side's attributes stand
    let t = da.transform(&db, false);
    assert!(t.equals(&db));
    // with priority, only keys this side does not touch survive; italic
    // does not collide with bold, so it still stands
    let t2 = da.transform(&db, true);
    assert!(t2.equals(&db));
    // a colliding key is dropped under priority
    let mut bold_again = AttrMap::new();
    bold_again.set("bold".to_string(), AttrValue::Bool(false));
    let dc = Delta::new().retain(1, &bold_again);
    let t3 = da.transform(&dc, true);
    assert!(t3.equals(&Delta::new()));
}

#[test]
fn transform_position_shifts_right_of_an_insert() {
    let d = Delta::new().insert("ab", &no_attrs());
    assert_eq!(d.transform_position(1, false), 3);
    // an insert exactly at the index only shifts it without priority
    assert_eq!(d.transform_position(0, false), 2);
    assert_eq!(d.transform_position(0, true), 0);
}

#[test]
fn transform_position_shifts_left_of_a_delete() {
    let d = Delta::new().retain(2, &no_attrs()).delete(3);
    assert_eq!(d.transform_position(1, false), 1);
    assert_eq!(d.transform_position(3, false), 2);
    assert_eq!(d.transform_position(7, false), 4);
}

#[test]
fn transform_position_is_monotonic_on_samples() {
    let d = Delta::new()
        .retain(2, &no_attrs())
        .insert("xy", &no_attrs())
        .delete(3)
        .retain(1, &bold());
    for p in [false, true] {
        let mut prev = d.transform_position(0, p);
        let mut i: usize = 1;
        while i <= 12 {
            let cur = d.transform_position(i, p);
            assert!(prev <= cur);
            prev = cur;
            i += 1;
        }
    }
}
