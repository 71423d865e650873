use quill_delta::AttrMap;
use quill_delta::AttrValue;
use quill_delta::Delta;
use quill_delta::DeltaError;
use quill_delta::Embeds;

fn no_attrs() -> AttrMap {
    AttrMap::new()
}

fn bold() -> AttrMap {
    let mut m = AttrMap::new();
    m.set("bold".to_string(), AttrValue::Bool(true));
    m
}

#[test]
fn to_text_exact_form() {
    let d = Delta::new().insert("Hi", &bold()).delete(2);
    assert_eq!(
        d.to_text(),
        "[{\"insert\":\"Hi\",\"attributes\":{\"bold\":true}},{\"delete\":2}]"
    );
}

#[test]
fn to_text_escapes_quotes_and_backslashes() {
    let d = Delta::new().insert("a\"b\\c", &no_attrs());
    assert_eq!(d.to_text(), "[{\"insert\":\"a\\\"b\\\\c\",\"attributes\":{}}]");
}

#[test]
fn empty_delta_round_trips() {
    let d = Delta::new();
    assert_eq!(d.to_text(), "[]");
    let back = Delta::from_text("[]").unwrap();
    assert!(back.equals(&d));
}

#[test]
fn text_round_trip_plain() {
    let d = Delta::new().insert("Hello", &no_attrs()).retain(2, &bold()).delete(3);
    let back = Delta::from_text(&d.to_text()).unwrap();
    assert!(back.equals(&d));
}

#[test]
fn text_round_trip_with_escapes_and_values() {
    let mut m = AttrMap::new();
    m.set("link".to_string(), AttrValue::Str("https://a/\"q\"".to_string()));
    m.set("size".to_string(), AttrValue::Int(-42));
    m.set("x\\y".to_string(), AttrValue::Null);
    let d = Delta::new().insert("pa\\th\"s", &m).retain(7, &m).delete(1);
    let back = Delta::from_text(&d.to_text()).unwrap();
    assert!(back.equals(&d));
}

#[test]
fn text_round_trip_with_embeds() {
    let mut m = AttrMap::new();
    m.set("width".to_string(), AttrValue::Str("100".to_string()));
    let d = Delta::new()
        .insert_embed(Embeds::Video("v.mp4".to_string()), &m)
        .insert_embed(Embeds::Image("i.png".to_string()), &no_attrs())
        .insert_embed(Embeds::Formula("x^2".to_string()), &no_attrs());
    let back = Delta::from_text(&d.to_text()).unwrap();
    assert!(back.equals(&d));
}

#[test]
fn from_text_canonicalizes() {
    // a zero delete and two adjacent like inserts collapse
    let back = Delta::from_text(
        "[{\"insert\":\"ab\",\"attributes\":{}},{\"delete\":0},{\"insert\":\"cd\",\"attributes\":{}}]",
    )
    .unwrap();
    let expected = Delta::new().insert("abcd", &no_attrs());
    assert!(back.equals(&expected));
}

#[test]
fn from_text_rejects_malformed_records() {
    assert!(matches!(Delta::from_text(""), Err(DeltaError::InvalidOperation)));
    assert!(matches!(Delta::from_text("["), Err(DeltaError::InvalidOperation)));
    assert!(matches!(Delta::from_text("{}"), Err(DeltaError::InvalidOperation)));
    assert!(matches!(
        Delta::from_text("[{\"bogus\":1}]"),
        Err(DeltaError::InvalidOperation)
    ));
    assert!(matches!(
        Delta::from_text("[{\"delete\":-1}]"),
        Err(DeltaError::InvalidOperation)
    ));
    assert!(matches!(
        Delta::from_text("[{\"delete\":2}] "),
        Err(DeltaError::InvalidOperation)
    ));
    assert!(matches!(
        Delta::from_text("[{\"delete\":99999999999999999999999}]"),
        Err(DeltaError::InvalidOperation)
    ));
}

#[test]
fn from_text_accepts_unknown_attribute_keys() {
    let back = Delta::from_text(
        "[{\"insert\":\"x\",\"attributes\":{\"custom-key\":\"v\",\"n\":7}}]",
    )
    .unwrap();
    let mut m = AttrMap::new();
    m.set("custom-key".to_string(), AttrValue::Str("v".to_string()));
    m.set("n".to_string(), AttrValue::Int(7));
    let expected = Delta::new().insert("x", &m);
    assert!(back.equals(&expected));
}
