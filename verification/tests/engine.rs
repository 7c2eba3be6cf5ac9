use yiran_json::json_lexer::parse_all as lex_all;
use yiran_json::json_lexer::JsonLexer;
use yiran_json::json_mapping::FromJson;
use yiran_json::json_mapping::JsonMap;
use yiran_json::json_mapping::Mode;
use yiran_json::json_mapping::Pair;
use yiran_json::json_mapping::ToJson;
use yiran_json::json_mapping::TestStruct;
use yiran_json::json_mapping::TpType;
use yiran_json::json_parser::parse_all as parse_tokens;
use yiran_json::parse_json;
use yiran_json::Json;
use yiran_json::JsonError;
use yiran_json::JsonNode;
use yiran_json::JsonNumber;
use yiran_json::JsonToken;

fn num(text: &str) -> JsonNumber {
    JsonNumber::from_text(text).unwrap()
}

fn empty_object() -> JsonNode {
    JsonNode::Object(Vec::new())
}

fn empty_array() -> JsonNode {
    JsonNode::Array(Vec::new())
}

#[test]
fn parse_simple_document() {
    // An object with a number member and an array member.
    let v = parse_json("{\"a\":1,\"b\":[1,2,3]}").unwrap();
    assert_eq!(v.len(), Ok(2));
    match v.index_key("a").unwrap() {
        JsonNode::Number(n) => assert_eq!(n.as_text(), "1"),
        other => panic!("expected a number, found {:?}", other),
    }
    let b = v.index_key("b").unwrap();
    assert_eq!(b.len(), Ok(3));
    for (i, expected) in ["1", "2", "3"].iter().enumerate() {
        match b.index_at(i).unwrap() {
            JsonNode::Number(n) => assert_eq!(&n.as_text(), expected),
            other => panic!("expected a number, found {:?}", other),
        }
    }
}

#[test]
fn parse_leaves() {
    assert_eq!(parse_json("null"), Some(JsonNode::Null));
    assert_eq!(parse_json("true"), Some(JsonNode::Boolean(true)));
    assert_eq!(parse_json("false"), Some(JsonNode::Boolean(false)));
    assert_eq!(parse_json("\"hi\""), Some(JsonNode::Text("hi".to_string())));
    assert_eq!(parse_json("-2.5e3"), Some(JsonNode::Number(num("-2.5e3"))));
}

#[test]
fn parse_rejects_malformed_input() {
    assert_eq!(parse_json(""), None);
    assert_eq!(parse_json("tru"), None);
    assert_eq!(parse_json("nullx"), None);
    assert_eq!(parse_json("\"unterminated"), None);
    assert_eq!(parse_json("1e"), None);
    assert_eq!(parse_json("@"), None);
    assert_eq!(parse_json("{\"a\"}"), None);
    assert_eq!(parse_json("{\"a\":}"), None);
    assert_eq!(parse_json("[1"), None);
    assert_eq!(parse_json("\"bad \\x escape\""), None);
}

#[test]
fn parse_skips_array_commas() {
    // Commas in arrays merely separate; repeated and trailing ones are skipped.
    let v = parse_json("[,,1,,2,]").unwrap();
    assert_eq!(v.len(), Ok(2));
    // A trailing comma before `}` is tolerated as well.
    let o = parse_json("{\"a\":1,}").unwrap();
    assert_eq!(o.len(), Ok(1));
    // The parser stops at the first complete document value.
    assert_eq!(parse_json("1 2"), Some(JsonNode::Number(num("1"))));
}

#[test]
fn parse_unicode_escapes() {
    assert_eq!(
        parse_json("\"\\u0041\\u00e9\""),
        Some(JsonNode::Text("A\u{e9}".to_string()))
    );
    // An incomplete escape decodes to the replacement character.
    assert_eq!(
        parse_json("\"\\u00G1\""),
        Some(JsonNode::Text("\u{fffd}G1".to_string()))
    );
    // A surrogate code point decodes to the replacement character.
    assert_eq!(
        parse_json("\"\\uD800\""),
        Some(JsonNode::Text("\u{fffd}".to_string()))
    );
    // The simple escapes.
    assert_eq!(
        parse_json("\"\\\"\\\\\\/\\b\\f\\n\\r\\t\""),
        Some(JsonNode::Text("\"\\/\u{8}\u{c}\n\r\t".to_string()))
    );
}

#[test]
fn lexer_token_stream() {
    let mut lexer = JsonLexer::new(" { \"k\" : 12, [ ] } true");
    assert_eq!(lexer.next_token(), Some(JsonToken::LeftBrace));
    assert_eq!(lexer.next_token(), Some(JsonToken::Text("k".to_string())));
    assert_eq!(lexer.next_token(), Some(JsonToken::Colon));
    assert_eq!(lexer.next_token(), Some(JsonToken::Number(num("12"))));
    assert_eq!(lexer.next_token(), Some(JsonToken::Comma));
    assert_eq!(lexer.next_token(), Some(JsonToken::LeftBracket));
    assert_eq!(lexer.next_token(), Some(JsonToken::RightBracket));
    assert_eq!(lexer.next_token(), Some(JsonToken::RightBrace));
    assert_eq!(lexer.next_token(), Some(JsonToken::Boolean(true)));
    assert_eq!(lexer.next_token(), None);
    assert!(lexer.at_end());
}

#[test]
fn lexer_strict_failure() {
    // The strict policy stops at the first malformed token and reports
    // failure beside the tokens read before it.
    let (tokens, ok) = lex_all("[1, tru]");
    assert!(!ok);
    assert_eq!(tokens.len(), 3);
    let (tokens, ok) = lex_all(" [1] ");
    assert!(ok);
    assert_eq!(tokens.len(), 3);
}

#[test]
fn parser_over_token_queue() {
    let (tokens, ok) = lex_all("[null]");
    assert!(ok);
    let v = parse_tokens(tokens).unwrap();
    assert_eq!(v.len(), Ok(1));
    assert_eq!(v.index_at(0).unwrap(), &JsonNode::Null);
}

#[test]
fn dump_empty_object_stays_on_one_line() {
    // Dumping `{}` with indent width 2 yields the literal text `{}`.
    assert_eq!(empty_object().dump(2, false), "{}");
    assert_eq!(empty_array().dump(2, false), "[]");
}

#[test]
fn dump_formats_members() {
    let v = parse_json("{\"a\":1,\"b\":[1,2]}").unwrap();
    assert_eq!(
        v.dump(2, false),
        "{\n  \"a\": 1,\n  \"b\": [\n    1,\n    2\n  ]\n}"
    );
    assert_eq!(v.dump(0, false), "{\n\"a\": 1,\n\"b\": [\n1,\n2\n]\n}");
}

#[test]
fn dump_escapes_strings() {
    let v = JsonNode::Text("a\"b\\c\nd\u{e9}".to_string());
    assert_eq!(v.dump(2, true), "\"a\\\"b\\\\c\\nd\\u00e9\"");
    // With escaping off the characters are emitted verbatim.
    assert_eq!(v.dump(2, false), "\"a\"b\\c\nd\u{e9}\"");
}

#[test]
fn dump_parse_round_trip() {
    // Dumping a parsed tree and parsing the dump reproduces the tree.
    let v = parse_json("{\"a\":1,\"b\":[1,2,3],\"c\":{\"d\":\"x\\ny\",\"e\":null}}").unwrap();
    let text = v.dump(4, true);
    let again = parse_json(text.as_str()).unwrap();
    assert_eq!(v, again);
}

#[test]
fn escape_unescape_round_trip() {
    // Escaping then unescaping reproduces the string, control characters
    // and non-ASCII text included.
    let original = "ctl:\u{1}\t\r\n quote:\" back:\\ text:h\u{e9}llo\u{20ac}\u{fffd}";
    let node = JsonNode::Text(original.to_string());
    let text = node.dump(2, true);
    assert_eq!(parse_json(text.as_str()), Some(node));
}

#[test]
fn write_indexing_inserts_null() {
    // Write-indexing an absent key inserts Null and hands back a handle;
    // a subsequent read finds Null, not KeyNotFound.
    let mut v = empty_object();
    {
        let handle = v.index_key_mut("fresh").unwrap();
        assert_eq!(handle, &mut JsonNode::Null);
    }
    assert_eq!(v.index_key("fresh"), Ok(&JsonNode::Null));
    // Writing through the handle replaces the entry's value.
    {
        let handle = v.index_key_mut("fresh").unwrap();
        *handle = JsonNode::Boolean(true);
    }
    assert_eq!(v.index_key("fresh"), Ok(&JsonNode::Boolean(true)));
    // Only one level is created at a time: the fresh entry holds Null,
    // which itself cannot be key-indexed.
    let handle = v.index_key_mut("next").unwrap();
    assert_eq!(handle.index_key_mut("inner"), Err(JsonError::TypeMismatch));
}

#[test]
fn array_indexing_is_strictly_bounds_checked() {
    let mut v = parse_json("[10,20]").unwrap();
    // At index == length the access fails; at length - 1 it succeeds.
    assert_eq!(v.index_at(2), Err(JsonError::IndexOutOfBounds));
    assert_eq!(v.index_at(1).unwrap(), &JsonNode::Number(num("20")));
    assert_eq!(v.index_at_mut(2), Err(JsonError::IndexOutOfBounds));
    assert!(v.index_at_mut(1).is_ok());
}

#[test]
fn value_model_operations() {
    let mut v = empty_object();
    v.insert("x".to_string(), JsonNode::Boolean(true)).unwrap();
    v.insert("y".to_string(), JsonNode::Null).unwrap();
    assert_eq!(v.contains_key("x"), Ok(true));
    assert_eq!(v.contains_key("z"), Ok(false));
    assert_eq!(v.len(), Ok(2));
    // Inserting under a present key replaces the value in place.
    v.insert("x".to_string(), JsonNode::Boolean(false)).unwrap();
    assert_eq!(v.len(), Ok(2));
    assert_eq!(v.index_key("x"), Ok(&JsonNode::Boolean(false)));
    assert_eq!(v.remove("x"), Ok(Some(JsonNode::Boolean(false))));
    assert_eq!(v.remove("x"), Ok(None));
    assert_eq!(v.index_key("x"), Err(JsonError::KeyNotFound));
    v.clear().unwrap();
    assert_eq!(v.len(), Ok(0));
    assert!(matches!(v, JsonNode::Object(_)));

    let mut a = empty_array();
    a.push(JsonNode::Null).unwrap();
    a.reserve(8).unwrap();
    a.resize(3).unwrap();
    assert_eq!(a.len(), Ok(3));
    assert_eq!(a.index_at(2).unwrap(), &JsonNode::Null);
    a.resize(1).unwrap();
    assert_eq!(a.len(), Ok(1));
    a.set_null();
    assert_eq!(a, JsonNode::Null);

    // Every structural operation reports TypeMismatch on the wrong kind.
    let mut n = JsonNode::Null;
    assert_eq!(n.insert("k".to_string(), JsonNode::Null), Err(JsonError::TypeMismatch));
    assert_eq!(n.push(JsonNode::Null), Err(JsonError::TypeMismatch));
    assert_eq!(n.reserve(1), Err(JsonError::TypeMismatch));
    assert_eq!(n.len(), Err(JsonError::TypeMismatch));
    assert_eq!(n.resize(1), Err(JsonError::TypeMismatch));
    assert_eq!(n.clear(), Err(JsonError::TypeMismatch));
    assert_eq!(n.remove("k"), Err(JsonError::TypeMismatch));
    assert_eq!(n.contains_key("k"), Err(JsonError::TypeMismatch));
    assert_eq!(n.index_key("k"), Err(JsonError::TypeMismatch));
    assert_eq!(n.index_key_mut("k"), Err(JsonError::TypeMismatch));
    assert_eq!(n.index_at(0), Err(JsonError::TypeMismatch));
    assert_eq!(n.index_at_mut(0), Err(JsonError::TypeMismatch));
}

#[test]
fn deep_clone_copies_subtrees() {
    let v = parse_json("{\"a\":[1,{\"b\":null}],\"c\":\"s\"}").unwrap();
    let w = v.deep_clone();
    assert_eq!(v, w);
}

#[test]
fn json_wrapper_owns_the_root() {
    let mut doc = Json::new(parse_json("{\"a\":1}").unwrap());
    assert_eq!(doc.get_root().len(), Ok(1));
    doc.get_root_mut().set_null();
    assert_eq!(doc.get_root(), &JsonNode::Null);
}

#[test]
fn accessors_hand_out_members() {
    let v = parse_json("{\"a\":1,\"b\":2}").unwrap();
    let entries = v.obj_entries().unwrap();
    assert_eq!(entries.len(), 2);
    assert_eq!(entries[0].0, "a");
    assert_eq!(entries[1].0, "b");
    assert!(v.arr_items().is_none());
    let a = parse_json("[null,true]").unwrap();
    let items = a.arr_items().unwrap();
    assert_eq!(items.len(), 2);
    assert!(a.obj_entries().is_none());
}

#[test]
fn encoding_a_no_payload_variant() {
    // Encoding the no-payload variant named Idle yields {"type":"Idle"};
    // decoding it back yields the original variant.
    let encoded = Mode::Idle.to_json();
    assert_eq!(encoded.len(), Ok(1));
    assert_eq!(
        encoded.index_key("type"),
        Ok(&JsonNode::Text("Idle".to_string()))
    );
    assert_eq!(Mode::from_json(&encoded), Ok(Mode::Idle));

    let with_payload = Mode::Level(7).to_json();
    assert_eq!(Mode::from_json(&with_payload), Ok(Mode::Level(7)));
}

#[test]
fn tuple_arity_is_checked_exactly() {
    // Encoding the pair (1, 2.5) yields [Number(1), Number(2.5)]; decoding
    // it with a declared arity of 3 fails with ArityMismatch.
    let encoded = Pair(1, num("2.5")).to_json();
    assert_eq!(encoded.len(), Ok(2));
    assert_eq!(encoded.index_at(0).unwrap(), &JsonNode::Number(num("1")));
    assert_eq!(encoded.index_at(1).unwrap(), &JsonNode::Number(num("2.5")));
    assert_eq!(TpType::from_json(&encoded), Err(JsonError::ArityMismatch));
}

#[test]
fn decoding_reports_each_error() {
    assert_eq!(bool::from_json(&JsonNode::Null), Err(JsonError::TypeMismatch));
    assert_eq!(
        TestStruct::from_json(&empty_object()),
        Err(JsonError::KeyNotFound)
    );
    let unknown = parse_json("{\"type\":\"Nope\"}").unwrap();
    assert_eq!(Mode::from_json(&unknown), Err(JsonError::UnknownVariant));
    let untagged = parse_json("{\"kind\":\"Idle\"}").unwrap();
    assert_eq!(Mode::from_json(&untagged), Err(JsonError::UnknownVariant));
}

#[test]
fn leaf_codecs_round_trip() {
    let b = true.to_json();
    assert_eq!(bool::from_json(&b), Ok(true));
    let s = "text".to_string().to_json();
    assert_eq!(String::from_json(&s), Ok("text".to_string()));
    let n = (-42i64).to_json();
    assert_eq!(n, JsonNode::Number(num("-42")));
    assert_eq!(i64::from_json(&n), Ok(-42));
    let xs: Vec<i64> = vec![1, 2, 3];
    let encoded = xs.to_json();
    assert_eq!(<Vec<i64>>::from_json(&encoded), Ok(vec![1, 2, 3]));
    let tree = parse_json("[1,{\"a\":null}]").unwrap();
    assert_eq!(JsonNode::from_json(&tree), Ok(tree));
}

#[test]
fn integer_texts_and_limits() {
    assert_eq!(JsonNumber::from_i64(0).as_text(), "0");
    assert_eq!(JsonNumber::from_i64(-42).as_text(), "-42");
    assert_eq!(
        JsonNumber::from_i64(i64::MIN).as_text(),
        "-9223372036854775808"
    );
    assert_eq!(num("42").to_i64(), Some(42));
    assert_eq!(num("+007").to_i64(), Some(7));
    assert_eq!(num("-9223372036854775808").to_i64(), Some(i64::MIN));
    assert_eq!(num("9223372036854775807").to_i64(), Some(i64::MAX));
    assert_eq!(num("9223372036854775808").to_i64(), None);
    assert_eq!(num("2.5").to_i64(), None);
    let big = parse_json("99999999999999999999").unwrap();
    assert_eq!(i64::from_json(&big), Err(JsonError::TypeMismatch));
}

#[test]
fn number_grammar() {
    for good in ["1", "1.", ".5", "+1", "-0.5E-10", "2e7", "1E+5", "007"] {
        assert!(JsonNumber::from_text(good).is_some(), "{:?}", good);
    }
    for bad in ["", ".", "+", "1e", "1e+", "--1", "1.2.3", "e5", "1f"] {
        assert!(JsonNumber::from_text(bad).is_none(), "{:?}", bad);
    }
}

#[test]
fn compact_rendering() {
    let v = parse_json("{\"a\":1,\"b\":[true,null],\"c\":\"s\"}").unwrap();
    assert_eq!(v.to_text(), "{\"a\": 1, \"b\": [true, null], \"c\": \"s\"}");
    let doc = Json::new(v);
    assert_eq!(doc.to_text(), "{\"a\": 1, \"b\": [true, null], \"c\": \"s\"}");
    assert_eq!(parse_json("{}").unwrap().to_text(), "{}");
    assert_eq!(parse_json("[]").unwrap().to_text(), "[]");
}

#[test]
fn string_keyed_mapping_codec() {
    let m = JsonMap(vec![
        ("alpha".to_string(), 1i64),
        ("beta".to_string(), 2i64),
    ]);
    let encoded = m.to_json();
    assert_eq!(encoded.len(), Ok(2));
    assert_eq!(
        encoded.index_key("beta").unwrap(),
        &JsonNode::Number(num("2"))
    );
    assert_eq!(<JsonMap<i64>>::from_json(&encoded), Ok(m));
    assert_eq!(
        <JsonMap<i64>>::from_json(&JsonNode::Null),
        Err(JsonError::TypeMismatch)
    );
}
