use chip_as_text::canonical::escape_value;
use chip_as_text::{canonical_hash, canonical_text, parse, Definition, Instance, MemoryBlock, Module};

fn sample() -> Definition {
    Definition {
        kind: "CHIP".to_string(),
        name: "n".to_string(),
        full_name: None,
        description: "a\nb".to_string(),
        goals: vec!["g:1".to_string()],
        modules: vec![Module {
            name: "M".to_string(),
            summary: Some("s".to_string()),
            operations: vec!["op".to_string()],
            inputs: vec![],
            outputs: vec!["o\\".to_string()],
        }],
        instantiate: vec![Instance { module_name: "M".to_string(), count: 120 }],
        connect: vec!["x -> y".to_string()],
        memory_blocks: vec![MemoryBlock { name: "L1".to_string(), size: "1\r".to_string() }],
        output: "out".to_string(),
    }
}

#[test]
fn canonical_text_is_exact() {
    let text = canonical_text(&sample());
    let expected = "kind:CHIP\nname:n\nfull_name:\ndescription:a\\nb\ngoal:g\\:1\nmodule_begin\nmodule_name:M\nmodule_summary:s\nmodule_operation:op\nmodule_output:o\\\\\nmodule_end\ninstance:120:M\nconnect:x -> y\nmemory:L1:1\\r\noutput:out\n";
    assert_eq!(text, expected);
}

#[test]
fn escape_value_escapes_the_four_characters() {
    assert_eq!(escape_value("a\\b\nc\rd:e"), "a\\\\b\\nc\\rd\\:e");
    assert_eq!(escape_value(""), "");
    assert_eq!(escape_value("plain"), "plain");
}

#[test]
fn canonical_hash_is_blake3_hex_of_the_text() {
    let def = sample();
    let text = canonical_text(&def);
    let expected = blake3::hash(text.as_bytes()).to_hex().to_string();
    let got = canonical_hash(&def);
    assert_eq!(got, expected);
    assert_eq!(got.len(), 64);
    assert_ne!(got, chip_as_text::canonical::hex_encode(text.as_bytes()));
}

#[test]
fn hex_encode_is_lowercase_high_nibble_first() {
    assert_eq!(chip_as_text::canonical::hex_encode(&[0x00, 0x0f, 0xa5, 0xff]), "000fa5ff");
    assert_eq!(chip_as_text::canonical::hex_encode(&[]), "");
}

#[test]
fn canonical_hash_of_empty_definition_text() {
    let def = parse("# CHIP v2 e").unwrap();
    assert_eq!(
        canonical_text(&def),
        "kind:CHIP\nname:e\nfull_name:\ndescription:\noutput:\n"
    );
    let h1 = canonical_hash(&def);
    let h2 = canonical_hash(&parse("# CHIP v2 e\n\n").unwrap());
    assert_eq!(h1, h2);
}

#[test]
fn hash_differs_when_a_field_differs() {
    let a = parse("# CHIP v2 e\nConnect:\na").unwrap();
    let b = parse("# CHIP v2 e\nConnect:\nb").unwrap();
    assert_ne!(canonical_hash(&a), canonical_hash(&b));
}

#[test]
fn absent_and_empty_full_name_read_alike() {
    let mut a = sample();
    let mut b = sample();
    a.full_name = None;
    b.full_name = Some(String::new());
    assert_eq!(canonical_text(&a), canonical_text(&b));
    b.full_name = Some("x".to_string());
    assert_ne!(canonical_text(&a), canonical_text(&b));
}

#[test]
fn escaping_matches_four_replacements() {
    let s = "a:b\\c\nd\re::\\\\n";
    let chained = s
        .replace('\\', "\\\\")
        .replace('\n', "\\n")
        .replace('\r', "\\r")
        .replace(':', "\\:");
    assert_eq!(escape_value(s), chained);
}

#[test]
fn moving_a_line_between_fields_changes_the_text() {
    let mut a = sample();
    let mut b = sample();
    a.goals = vec!["x".to_string()];
    a.connect = vec![];
    b.goals = vec![];
    b.connect = vec!["x".to_string()];
    assert_ne!(canonical_text(&a), canonical_text(&b));
    assert_ne!(canonical_hash(&a), canonical_hash(&b));
}

#[test]
fn canonical_text_line_count() {
    let text = canonical_text(&sample());
    assert_eq!(text.matches('\n').count(), 15);
    assert!(text.ends_with('\n'));
}
