use def_resolver::text::{contains, ends_with, escape, is_less, str_equal, to_chars, trim};

#[test]
fn equality_of_strings() {
    assert!(str_equal("", ""));
    assert!(str_equal("Defs", "Defs"));
    assert!(!str_equal("Defs", "defs"));
    assert!(!str_equal("Def", "Defs"));
    assert!(str_equal("héllo", "héllo"));
}

#[test]
fn order_of_strings_is_by_bytes() {
    assert!(is_less("", "a"));
    assert!(!is_less("", ""));
    assert!(!is_less("a", ""));
    assert!(is_less("a", "b"));
    assert!(is_less("a", "ab"));
    assert!(!is_less("ab", "a"));
    assert!(is_less("B", "a"));
    assert!(is_less("z", "é"));
    assert!(!is_less("same", "same"));
    for (a, b) in [("abc", "abd"), ("", "x"), ("Zeta", "alpha"), ("li", "lia"), ("é", "日")] {
        assert_eq!(is_less(a, b), a < b);
        assert_eq!(is_less(b, a), b < a);
    }
}

#[test]
fn suffix_of_a_string() {
    assert!(ends_with("ThingDef", "Def"));
    assert!(ends_with("Def", "Def"));
    assert!(!ends_with("Defs", "Def"));
    assert!(!ends_with("ef", "Def"));
    assert!(!ends_with("Thingdef", "Def"));
    assert!(ends_with("anything", ""));
    assert!(ends_with("", ""));
}

#[test]
fn substring_of_a_string() {
    assert!(contains("steel wall", "el w"));
    assert!(contains("steel", "steel"));
    assert!(contains("steel", ""));
    assert!(contains("", ""));
    assert!(!contains("", "a"));
    assert!(!contains("steel", "steal"));
    assert!(!contains("ab", "abc"));
    assert!(contains("aab", "ab"));
}

#[test]
fn trimming_takes_white_space_from_both_ends() {
    assert_eq!(trim("  a b \t\r\n"), "a b");
    assert_eq!(trim("\u{a0}\u{3000}x\u{2003}"), "x");
    assert_eq!(trim("   "), "");
    assert_eq!(trim(""), "");
    assert_eq!(trim("x"), "x");
    for s in [" a ", "\n\nb", "c\t", " d e f ", "\u{85}g"] {
        assert_eq!(trim(s), s.trim());
    }
}

#[test]
fn escaping_the_five_characters() {
    assert_eq!(escape("<a href=\"x\">Tom & 'Jerry'</a>"), "&lt;a href=&quot;x&quot;&gt;Tom &amp; &apos;Jerry&apos;&lt;/a&gt;");
    assert_eq!(escape("plain ünïcode"), "plain ünïcode");
    assert_eq!(escape(""), "");
}

#[test]
fn characters_of_a_string() {
    assert_eq!(to_chars("aé日"), vec!['a', 'é', '日']);
    assert_eq!(to_chars(""), Vec::<char>::new());
}
