use config_store::document::{decode_document, encode_document, put_pair, DocumentError};
use config_store::setting::Setting;
use config_store::store::ConfigStore;

fn pairs(items: &[(&str, &str)]) -> Vec<(String, String)> {
    items.iter().map(|(k, v)| (k.to_string(), v.to_string())).collect()
}

#[test]
fn encodes_canonical_document() {
    assert_eq!(encode_document(&vec![]), "{}");
    assert_eq!(
        encode_document(&pairs(&[("a", "1"), ("b.c", "x y")])),
        "{\"a\":\"1\",\"b.c\":\"x y\"}"
    );
}

#[test]
fn encodes_escapes() {
    assert_eq!(
        encode_document(&pairs(&[("q\"k", "back\\slash\nline\u{1}")])),
        "{\"q\\\"k\":\"back\\\\slash\\u000aline\\u0001\"}"
    );
}

#[test]
fn document_round_trips() {
    let cases = vec![
        pairs(&[]),
        pairs(&[("k", "")]),
        pairs(&[("", "v")]),
        pairs(&[("ünï", "çødé ✓"), ("tab\tkey", "\u{1f}\"\\/")]),
        pairs(&[("a", "1"), ("b", "2"), ("c", "3.5")]),
    ];
    for c in cases {
        assert_eq!(decode_document(&encode_document(&c)), Ok(c));
    }
}

#[test]
fn decodes_whitespace_and_escapes() {
    let text = " {\n  \"a\" : \"x\\ty\" ,\r\n \"b\":\"\\u00e9\\/\\b\\f\\n\\r\\\"\\\\\" }\n";
    assert_eq!(
        decode_document(text),
        Ok(pairs(&[("a", "x\ty"), ("b", "é/\u{8}\u{c}\n\r\"\\")]))
    );
    assert_eq!(decode_document("{\"A\":\"\\u0041\\u00C9\"}"), Ok(pairs(&[("A", "AÉ")])));
    assert_eq!(decode_document("{\"e\":\"\\ud83d\\ude00!\"}"), Ok(pairs(&[("e", "\u{1f600}!")])));
}

#[test]
fn rejects_what_is_not_an_object_of_strings() {
    let bad = [
        "",
        "[]",
        "[\"a\"]",
        "{\"a\":1}",
        "{\"a\":true}",
        "{\"a\":{\"b\":\"c\"}}",
        "{\"a\":\"b\",}",
        "{\"a\":\"b\"} x",
        "{\"a\" \"b\"}",
        "{\"a\":\"b\"",
        "{\"a\":\"\\q\"}",
        "{\"a\":\"\\ud800\"}",
        "{\"a\":\"\\ud83d\\u0041\"}",
        "{\"a\":\"\\ude00\"}",
        "{\"a\":\"\u{1}\"}",
        "\"a\"",
    ];
    for b in bad {
        assert_eq!(decode_document(b), Err(DocumentError::NotAnObjectOfStrings), "{:?}", b);
    }
}

#[test]
fn put_pair_replaces_or_appends() {
    let mut p = pairs(&[("a", "1"), ("b", "2")]);
    put_pair(&mut p, "a".to_string(), "9".to_string());
    assert_eq!(p, pairs(&[("a", "9"), ("b", "2")]));
    put_pair(&mut p, "c".to_string(), "3".to_string());
    assert_eq!(p, pairs(&[("a", "9"), ("b", "2"), ("c", "3")]));
}

#[test]
fn both_backends_agree_after_the_same_writes() {
    let writes = [("x", Setting::Integer(4)), ("y", Setting::Boolean(false)), ("x", Setting::Integer(5))];
    let mut rows: Vec<(String, String)> = Vec::new();
    let mut document = encode_document(&rows);
    let mut store = ConfigStore::new(vec![], &rows, true);
    for (k, v) in writes {
        let w = store.set(k, v).unwrap();
        put_pair(&mut rows, w.key.clone(), w.raw.clone());
        let mut held = decode_document(&document).unwrap();
        put_pair(&mut held, w.key, w.raw);
        document = encode_document(&held);
    }
    let from_rows = ConfigStore::new(vec![], &rows, true);
    let from_document = ConfigStore::new(vec![], &decode_document(&document).unwrap(), true);
    for k in ["x", "y", "z"] {
        assert_eq!(from_rows.get(k, None), from_document.get(k, None));
    }
    assert_eq!(from_document.get("x", None), Setting::Integer(5));
}
