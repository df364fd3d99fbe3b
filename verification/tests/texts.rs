use depdep::collections::{TextMap, TextSet};
use depdep::order::comes_before;
use depdep::text::{
    ends_with, format_decimal, is_whitespace, join, line_error, lines, same_text, split,
    starts_with, trim, trim_end,
};

#[test]
fn whitespace_is_unicode_whitespace() {
    for code in 0..=0x10ffff_u32 {
        if let Some(c) = char::from_u32(code) {
            assert_eq!(is_whitespace(c), c.is_whitespace(), "{code:x}");
        }
    }
}

#[test]
fn texts_are_taken_apart_as_the_standard_library_does() {
    let samples = [
        "",
        "\n",
        "\r\n",
        "a",
        "a\n",
        "a\r\nb\n\nc",
        "a\r",
        "\r\r\n",
        " \u{a0}a b\u{3000}\t",
        "   ",
        "é/ü//",
        "/",
    ];
    for sample in samples {
        assert_eq!(lines(sample), sample.lines().collect::<Vec<_>>(), "{sample:?}");
        assert_eq!(split(sample, '/'), sample.split('/').collect::<Vec<_>>(), "{sample:?}");
        assert_eq!(trim(sample), sample.trim());
        assert_eq!(trim_end(sample), sample.trim_end());
        for other in samples {
            assert_eq!(same_text(sample, other), sample == other);
            assert_eq!(comes_before(sample, other), sample < other);
            assert_eq!(starts_with(sample, other), sample.starts_with(other));
            assert_eq!(ends_with(sample, other), sample.ends_with(other));
        }
    }
}

#[test]
fn texts_are_put_together() {
    let parts = vec!["a".to_string(), String::new(), "b".to_string()];
    assert_eq!(join(&parts, ", "), "a, , b");
    assert_eq!(join(&Vec::new(), ", "), "");
    for number in [0, 7, 10, 99, 100, 18446744073709551615] {
        assert_eq!(format_decimal(number), number.to_string());
    }
    assert_eq!(line_error(12, "what"), "line 12: what");
}

#[test]
fn collections_are_kept_in_order() {
    let mut set = TextSet::new();
    for text in ["b", "é", "a", "b", "", "ab"] {
        set.insert(text.to_string());
    }
    let listed: Vec<&str> = (0..set.len()).map(|i| set.at(i).as_str()).collect();
    assert_eq!(listed, ["", "a", "ab", "b", "é"]);
    assert!(set.contains("ab") && !set.contains("c"));
    let mut other = TextSet::new();
    other.extend(&set);
    assert!(other.same(&set));
    other.insert("c".to_string());
    assert!(!other.same(&set));

    let mut map: TextMap<u8> = TextMap::new();
    map.insert("b".to_string(), 1);
    map.insert("a".to_string(), 2);
    map.insert("b".to_string(), 3);
    assert_eq!(map.len(), 2);
    assert_eq!((map.key(0).as_str(), *map.value(0)), ("a", 2));
    assert_eq!((map.key(1).as_str(), *map.value(1)), ("b", 3));
    assert!(map.get("c").is_none());
}
