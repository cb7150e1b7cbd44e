use luminatti::jsonc::{json_config, plain_json_of};
use luminatti::resolve::JsonValue;

fn plain(source: &str) -> Option<String> {
    plain_json_of(source).map(|bytes| String::from_utf8(bytes).unwrap())
}

#[test]
fn comments_are_blanked_and_strings_kept() {
    assert_eq!(plain("{\"a\": 1 // note\n}").unwrap(), "{\"a\": 1        \n}");
    assert_eq!(plain("{/* x */\"a\": \"//not a comment\"}").unwrap(), "{       \"a\": \"//not a comment\"}");
    assert_eq!(plain("{\"q\": \"say \\\"hi\\\" /*\"}").unwrap(), "{\"q\": \"say \\\"hi\\\" /*\"}");
}

#[test]
fn trailing_commas_are_dropped() {
    assert_eq!(plain("[1, 2, ]").unwrap(), "[1, 2  ]");
    assert_eq!(plain("{\"a\": [1,],\n}").unwrap(), "{\"a\": [1 ] \n}");
    assert_eq!(plain("{\"a\": \",}\"}").unwrap(), "{\"a\": \",}\"}");
}

#[test]
fn unterminated_block_comments_are_rejected() {
    assert!(plain("{ /* open").is_none());
    assert!(json_config("{ /* open").is_none());
}

#[test]
fn configs_read_as_json_values() {
    let value = json_config("{\n  // paths\n  \"compilerOptions\": {\"baseUrl\": \".\",},\n}").unwrap();
    let base = value.get("compilerOptions").unwrap().get("baseUrl").unwrap();
    assert_eq!(base.as_text().map(|t| t.as_str()), Some("."));
    assert!(json_config("{ not json }").is_none());
}

#[test]
fn config_values_keep_numbers_as_text_and_members_in_key_order() {
    let value = json_config("{\"b\": [1, true, null], \"a\": 2.5}").unwrap();
    match value {
        JsonValue::Object(members) => {
            assert_eq!(members.len(), 2);
            assert_eq!(members[0].0, "a");
            assert!(matches!(&members[0].1, JsonValue::Number(n) if n == "2.5"));
            assert_eq!(members[1].0, "b");
            match &members[1].1 {
                JsonValue::Array(items) => {
                    assert_eq!(items.len(), 3);
                    assert!(matches!(&items[0], JsonValue::Number(n) if n == "1"));
                    assert!(matches!(items[1], JsonValue::Bool(true)));
                    assert!(matches!(items[2], JsonValue::Null));
                }
                _ => panic!("expected an array"),
            }
        }
        _ => panic!("expected an object"),
    }
}
