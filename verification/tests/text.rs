use atomcode_core::json::{json_to_pretty, json_to_text, parse_json, parse_json_bytes, Json};
use atomcode_core::paths::{canonical_path, file_name_of, join_path, same_path, share_parent, top_component_of};
use atomcode_core::text::{
    byte_len, byte_prefix_of, char_is_space, contains_text, is_blank_text, join_texts, lines_of, push_decimal,
    push_decimal_int, push_hex, push_repeated, same_ignoring_ascii_case, split_text, starts_with_text,
    strip_prefix_text, to_ascii_lower, trim_text,
};
use atomcode_core::text_map::TextMap;
use atomcode_core::text_order::{sorted_keys, text_precedes};

#[test]
fn spaces_are_those_of_std() {
    for n in 0..=0x10ffffu32 {
        if let Some(c) = char::from_u32(n) {
            assert_eq!(char_is_space(c), c.is_whitespace(), "{:?}", c);
        }
    }
}

#[test]
fn lines_are_those_of_std() {
    for s in ["", "\n", "a", "a\n", "a\r\nb", "a\r", "\r\n\r\n", "a\n\nb\n", "\u{e9}\n\u{4e2d}"] {
        let expected: Vec<&str> = s.lines().collect();
        assert_eq!(lines_of(s), expected, "{:?}", s);
    }
}

#[test]
fn splits_and_joins_are_those_of_std() {
    for s in ["", ",", "a,b", ",a,", "\u{4e2d},\u{6587}"] {
        let expected: Vec<&str> = s.split(',').collect();
        let got = split_text(s, ',');
        assert_eq!(got, expected);
        assert_eq!(join_texts(&got, ","), s);
    }
    assert_eq!(trim_text(" \u{3000}a b\u{a0}\n"), " \u{3000}a b\u{a0}\n".trim());
    assert!(is_blank_text(" \t\u{2003}"));
    assert!(!is_blank_text(" x "));
}

#[test]
fn searches_are_those_of_std() {
    assert!(contains_text("a\u{4e2d}b", "\u{4e2d}"));
    assert!(contains_text("x", ""));
    assert!(!contains_text("ab", "abc"));
    assert!(starts_with_text("abc", "ab"));
    assert_eq!(strip_prefix_text("abc", "ab").as_deref(), Some("c"));
    assert_eq!(strip_prefix_text("abc", "b"), None);
    assert_eq!(to_ascii_lower("AbC\u{c9}"), "AbC\u{c9}".to_ascii_lowercase());
    assert!(same_ignoring_ascii_case("Auth", "aUTH"));
    assert!(!same_ignoring_ascii_case("\u{c9}", "\u{e9}"));
}

#[test]
fn numbers_are_written_as_std_does() {
    for n in [0u64, 7, 10, 4321, u64::MAX] {
        let mut out = String::from("n=");
        push_decimal(&mut out, n);
        assert_eq!(out, format!("n={n}"));
    }
    for n in [0i64, -1, 42, i64::MIN, i64::MAX] {
        let mut out = String::new();
        push_decimal_int(&mut out, n);
        assert_eq!(out, n.to_string());
    }
    let mut out = String::new();
    push_hex(&mut out, 0xbeef, 16);
    assert_eq!(out, format!("{:016x}", 0xbeef));
    let mut out = String::new();
    push_repeated(&mut out, "ab", 3);
    assert_eq!(out, "ababab");
}

#[test]
fn bytes_are_cut_between_characters() {
    let s = "a\u{4e2d}b";
    assert_eq!(byte_len(s), s.len());
    assert_eq!(byte_prefix_of(s, 3), "a");
    assert_eq!(byte_prefix_of(s, 4), "a\u{4e2d}");
    assert_eq!(byte_prefix_of(s, 99), s);
}

#[test]
fn texts_are_ordered_as_std_orders_them() {
    let words = ["", "a", "ab", "b", "B", "\u{e9}", "\u{10000}", "\u{ffff}"];
    for a in words {
        for b in words {
            assert_eq!(text_precedes(a, b), a < b, "{:?} {:?}", a, b);
        }
    }
    let mut m: TextMap<u64> = TextMap::new();
    for (i, w) in words.iter().enumerate() {
        m.insert(w.to_string(), i as u64);
    }
    let mut expected = words.to_vec();
    expected.sort();
    assert_eq!(sorted_keys(&m), expected);
}

#[test]
fn maps_keep_the_last_value_of_a_key() {
    let mut m: TextMap<String> = TextMap::new();
    m.insert("k".into(), "1".into());
    m.insert("k".into(), "2".into());
    assert_eq!(m.len(), 1);
    let copy = m.copy();
    assert_eq!(m.remove("k").as_deref(), Some("2"));
    assert!(m.get("k").is_none());
    m.extend(copy);
    assert_eq!((m.key_at(0).as_str(), m.value_at(0).as_str()), ("k", "2"));
}

#[test]
fn paths_are_read_as_std_reads_them() {
    for p in ["a/b.rs", "/", "", "a/..", "a/b/", ".", "./x", "x/.", "/a"] {
        let expected = std::path::Path::new(p).file_name().map(|f| f.to_string_lossy().to_string());
        assert_eq!(file_name_of(p), expected, "{:?}", p);
    }
    for (a, b) in [("/base", "x"), ("/base/", "x/y"), ("/base", "/abs"), ("", "x"), ("b", "")] {
        let expected = std::path::Path::new(a).join(b).to_string_lossy().to_string();
        assert_eq!(join_path(a, b), expected, "{:?} {:?}", a, b);
    }
    for (a, b) in [("a/x", "a/y"), ("a/x", "b/y"), ("x", "y"), ("/x", "/y"), ("a//x", "a/./y")] {
        let expected = std::path::Path::new(a).parent() == std::path::Path::new(b).parent();
        assert_eq!(share_parent(a, b), expected, "{:?} {:?}", a, b);
    }
    assert_eq!(top_component_of("src/a.rs").as_deref(), Some("src"));
}

#[test]
fn documents_are_read_and_written() {
    let j = parse_json(" {\"b\": [1, -2, 1.5, \"x\\n\", null, true], \"a\": {}} ").unwrap();
    assert_eq!(json_to_text(&j), r#"{"a":{},"b":[1,-2,1.5,"x\n",null,true]}"#);
    assert_eq!(json_to_pretty(&j.get("b").unwrap().as_array().unwrap()[0]), "1");
    assert_eq!(json_to_pretty(&Json::list(vec![Json::of_uint(1)])), "[\n  1\n]");
    assert!(parse_json("{").is_none());
    assert!(parse_json_bytes(b"[\xff]").is_none());
    let items = j.get("b").unwrap().as_array().unwrap();
    assert_eq!(items[0].as_u64(), Some(1));
    assert_eq!(items[1].as_i64(), Some(-2));
    assert_eq!(items[1].as_u64(), None);
    assert_eq!(items[2].as_i64(), None);
    assert_eq!(items[3].as_str(), Some("x\n"));
}

#[test]
fn documents_are_built() {
    let j = Json::empty_object().with("n", Json::of_int(-5)).with("s", Json::of_text("\u{4e2d}"));
    assert_eq!(json_to_text(&j), "{\"n\":-5,\"s\":\"\u{4e2d}\"}");
    let back = parse_json(&json_to_text(&j.clone())).unwrap();
    assert_eq!(back.str_at("s"), Some("\u{4e2d}"));
    assert_eq!(back.get("n").and_then(|n| n.as_i64()), Some(-5));
}

#[test]
fn paths_are_compared_as_std_compares_them() {
    let paths =
        ["a/b", "a//b", "./a/b", "a/./b/", "/a/b", "//a/b", "", ".", "./", "/", "//", "a/../b", "b", "..", "./..", "A/b"];
    for a in paths {
        for b in paths {
            let expected = std::path::Path::new(a) == std::path::Path::new(b);
            assert_eq!(same_path(a, b), expected, "{:?} {:?}", a, b);
        }
        assert_eq!(std::path::Path::new(&canonical_path(a)), std::path::Path::new(a));
    }
    assert_eq!(canonical_path("./a//b/./c/"), "./a/b/c");
}
