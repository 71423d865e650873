use quill_delta::AttrMap;
use quill_delta::AttrValue;
use quill_delta::ContentRange;
use quill_delta::Delta;
use quill_delta::DeltaEditor;
use quill_delta::DeltaOps;
use quill_delta::Embeds;
use quill_delta::EventChange;
use quill_delta::Inline;
use quill_delta::Source;

#[test]
fn editor_tracks_cumulative_state_and_returns_changes() {
    let mut ed = DeltaEditor::new(Vec::new());
    let change = ed.insert_text("Hello", &vec![Inline::Bold]);
    assert_eq!(change.ops.len(), 1);
    let change2 = ed.delete(2);
    let expected_change = Delta::new().delete(2);
    assert!(change2.equals(&expected_change));
    // the delete composes at the document start, removing "He"
    let state = ed.get_inner_delta();
    let mut bold = AttrMap::new();
    bold.set("bold".to_string(), AttrValue::Bool(true));
    let expected_state = Delta::new().insert("llo", &bold);
    assert!(state.equals(&expected_state));
}

#[test]
fn editor_new_canonicalizes_its_operations() {
    let ops = vec![
        DeltaOps::Insert("ab".to_string(), AttrMap::new()),
        DeltaOps::Delete(0),
        DeltaOps::Insert("cd".to_string(), AttrMap::new()),
    ];
    let ed = DeltaEditor::new(ops);
    let expected = Delta::new().insert("abcd", &AttrMap::new());
    assert!(ed.get_inner_delta().equals(&expected));
}

#[test]
fn editor_from_delta_and_concat() {
    let a = DeltaEditor::from_delta(Delta::new().insert("Hel", &AttrMap::new()));
    let b = DeltaEditor::from_delta(Delta::new().insert("lo", &AttrMap::new()));
    let joined = a.concat(&b);
    let expected = Delta::new().insert("Hello", &AttrMap::new());
    assert!(joined.get_inner_delta().equals(&expected));
}

#[test]
fn editor_insert_embed_and_retain() {
    let mut ed = DeltaEditor::new(Vec::new());
    ed.insert_text("pic:", &Vec::new());
    let change = ed.insert_embed(
        Embeds::Image("cat.png".to_string()),
        &vec![quill_delta::EmbedAttr::Width("32".to_string())],
    );
    assert_eq!(change.ops.len(), 1);
    ed.retain(0, &Vec::new());
    assert_eq!(ed.get_inner_delta().ops.len(), 2);
}

#[test]
fn editor_diff_and_text_round_trip() {
    let a = DeltaEditor::from_delta(Delta::new().insert("Hello", &AttrMap::new()));
    let b = DeltaEditor::from_delta(Delta::new().insert("Hallo", &AttrMap::new()));
    let d = a.diff(&b).unwrap();
    assert!(a.get_inner_delta().compose(d.get_inner_delta()).equals(b.get_inner_delta()));
    let text = a.to_text();
    let back = DeltaEditor::from_text(&text).unwrap();
    assert!(back.get_inner_delta().equals(a.get_inner_delta()));
}

#[test]
fn content_range_builder() {
    let r = ContentRange::new().set_index(4).set_length(9);
    assert_eq!(r.index(), 4);
    assert_eq!(r.length(), 9);
    let bare = ContentRange::new();
    assert_eq!(bare.index(), 0);
    assert_eq!(bare.length(), 0);
}

#[test]
fn source_tags_and_event_names() {
    assert_eq!(Source::Api.as_str(), "api");
    assert_eq!(Source::User.as_str(), "user");
    assert_eq!(Source::Silent.as_str(), "silent");
    let e = EventChange::Text(Delta::new(), Delta::new(), Source::User);
    assert_eq!(e.name(), "text-change");
    let s = EventChange::Selection(None, Some(ContentRange::new()), Source::Api);
    assert_eq!(s.name(), "selection-change");
    let g = EventChange::Generic("scroll".to_string());
    assert_eq!(g.name(), "scroll");
}

#[test]
fn embeds_expose_value_and_type() {
    let v = Embeds::Video("v.mp4".to_string());
    assert_eq!(v.get_value(), "v.mp4");
    assert_eq!(v.get_type_name(), "video");
    assert_eq!(Embeds::Image("i".to_string()).get_type_name(), "image");
    assert_eq!(Embeds::Formula("f".to_string()).get_type_name(), "formula");
}
