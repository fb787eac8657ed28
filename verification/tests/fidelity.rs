//! The collaborator's guarantee the engine builds on: parsing a document and
//! serializing it back, with no sorting in between, reproduces it exactly.

use toml_sort::Matcher;

#[test]
fn parse_serialize_round_trip() {
    let input = "# top comment\n[package]\nname = \"demo\" # trailing\n\n[dependencies]\nserde = \"1\"\n";
    let doc: toml_edit::DocumentMut = input.parse().unwrap();
    assert_eq!(doc.to_string(), input);
}

#[test]
fn matcher_is_usable_from_outside() {
    let m = Matcher { heading: vec!["dependencies".to_owned()], heading_key: vec![] };
    assert_eq!(m.heading.len(), 1);
}
