use quill_delta::AttrMap;
use quill_delta::AttrValue;
use quill_delta::Inline;
use quill_delta::EmbedAttr;
use quill_delta::attrs::attr_maps_equal;
use quill_delta::attrs::attr_value_eq;
use quill_delta::decode_inlines;
use quill_delta::embed_attrs_to_map;
use quill_delta::inlines_to_map;

fn inline_kvs(v: &[Inline]) -> Vec<(String, AttrValue)> {
    v.iter().map(|i| i.as_kv()).collect()
}

fn same_kvs(a: &[(String, AttrValue)], b: &[(String, AttrValue)]) -> bool {
    a.len() == b.len()
        && a.iter().zip(b.iter()).all(|(x, y)| x.0 == y.0 && attr_value_eq(&x.1, &y.1))
}

#[test]
fn attribute_round_trip_on_well_known_keys() {
    let mut m = AttrMap::new();
    m.set("bold".to_string(), AttrValue::Bool(true));
    m.set("link".to_string(), AttrValue::Str("https://x".to_string()));
    m.set("size".to_string(), AttrValue::Int(12));
    m.set("script".to_string(), AttrValue::Str("sub".to_string()));
    m.set("align".to_string(), AttrValue::Str("center".to_string()));
    let once = decode_inlines(&m);
    let twice = decode_inlines(&inlines_to_map(&once));
    assert!(same_kvs(&inline_kvs(&once), &inline_kvs(&twice)));
    // and the re-encoded mapping equals the input mapping
    assert!(attr_maps_equal(&inlines_to_map(&once), &m));
}

#[test]
fn decode_skips_ill_shaped_well_known_values() {
    let mut m = AttrMap::new();
    m.set("bold".to_string(), AttrValue::Str("yes".to_string()));
    m.set("italic".to_string(), AttrValue::Bool(true));
    m.set("size".to_string(), AttrValue::Str("big".to_string()));
    m.set("script".to_string(), AttrValue::Str("middle".to_string()));
    let decoded = decode_inlines(&m);
    assert_eq!(decoded.len(), 1);
    assert!(matches!(decoded[0], Inline::Italic));
}

#[test]
fn decode_keeps_unknown_keys_as_custom() {
    let mut m = AttrMap::new();
    m.set("highlighter".to_string(), AttrValue::Str("neon".to_string()));
    let decoded = decode_inlines(&m);
    assert_eq!(decoded.len(), 1);
    match &decoded[0] {
        Inline::Custom(k, v) => {
            assert_eq!(k, "highlighter");
            assert!(attr_value_eq(v, &AttrValue::Str("neon".to_string())));
        },
        _ => panic!("expected a custom attribute"),
    }
}

#[test]
fn encode_all_is_key_unique_and_last_write_wins() {
    let attrs = vec![
        Inline::Color("red".to_string()),
        Inline::Bold,
        Inline::Color("blue".to_string()),
    ];
    let m = inlines_to_map(&attrs);
    assert_eq!(m.len(), 2);
    match m.get("color") {
        Some(v) => assert!(attr_value_eq(v, &AttrValue::Str("blue".to_string()))),
        None => panic!("color missing"),
    }
}

#[test]
fn inline_kv_shapes() {
    assert_eq!(Inline::Bold.as_kv().0, "bold");
    assert_eq!(Inline::Sub.as_kv().0, "script");
    assert_eq!(Inline::Sup.as_kv().0, "script");
    let (k, v) = Inline::BgColor("lime".to_string()).as_kv();
    assert_eq!(k, "background");
    assert!(attr_value_eq(&v, &AttrValue::Str("lime".to_string())));
    let (k2, v2) = Inline::Size(7).as_kv();
    assert_eq!(k2, "size");
    assert!(attr_value_eq(&v2, &AttrValue::Int(7)));
}

#[test]
fn embed_attrs_encode_like_inlines() {
    let attrs = vec![
        EmbedAttr::Width("10".to_string()),
        EmbedAttr::Alt("pic".to_string()),
        EmbedAttr::Custom("fit".to_string(), AttrValue::Str("cover".to_string())),
    ];
    let m = embed_attrs_to_map(&attrs);
    assert_eq!(m.len(), 3);
    assert!(m.get("width").is_some());
    assert!(m.get("alt").is_some());
    assert!(m.get("fit").is_some());
}
