use airlock::mir_util::{clean_commas, drop_regions, normalize_ty_str};
use airlock::order::{sort_order, SortKey};
use airlock::text::{
    chars_of, contains_text, ends_with, mark_regions, push_count, push_decimal, replace,
    shorten, squeeze, starts_with, str_eq, string_of,
};

fn chars(text: &str) -> Vec<char> {
    text.chars().collect()
}

fn flags(text: &str) -> Vec<bool> {
    text.chars().map(|c| c == '1').collect()
}

#[test]
fn texts_are_compared_by_characters() {
    assert!(str_eq("Grüße", "Grüße"));
    assert!(!str_eq("Grüße", "Grüsse"));
    assert!(!str_eq("a", "ab"));
    assert!(str_eq("", ""));
    assert_eq!(string_of(&chars_of("Grüße")), "Grüße");
}

#[test]
fn patterns_are_found() {
    assert!(starts_with("--print=cfg", "--print="));
    assert!(!starts_with("-print=cfg", "--print="));
    assert!(starts_with("abc", ""));
    assert!(ends_with("/usr/bin/rustc", "rustc"));
    assert!(!ends_with("rustc", "/usr/bin/rustc"));
    assert!(contains_text("my_build_script_main", "build_script"));
    assert!(!contains_text("build-script", "build_script"));
    assert!(contains_text("xyz", "z"));
    assert!(contains_text("", ""));
}

#[test]
fn numbers_are_written_in_decimal() {
    let mut out = String::from("n = ");
    push_decimal(&mut out, 0);
    out.push(' ');
    push_decimal(&mut out, 1009876543);
    out.push(' ');
    push_count(&mut out, u128::MAX);
    assert_eq!(out, "n = 0 1009876543 340282366920938463463374607431768211455");
}

#[test]
fn long_texts_are_shortened() {
    assert_eq!(shorten("abcdef", 3), "abc");
    assert_eq!(shorten("abc", 3), "abc");
    assert_eq!(shorten("ab", 3), "ab");
}

#[test]
fn runs_of_separators_become_one_space() {
    assert_eq!(squeeze(&chars("..ab...c."), &flags("110011101")), chars("ab c"));
    assert_eq!(squeeze(&chars("..."), &flags("111")), chars(""));
    assert_eq!(squeeze(&chars("ab"), &flags("00")), chars("ab"));
}

#[test]
fn occurrences_are_replaced_from_the_left() {
    assert_eq!(replace(&chars("aaaa,"), &chars("aa"), &chars("b")), chars("bb,"));
    assert_eq!(replace(&chars("aaa"), &chars("aa"), &chars("a")), chars("aa"));
    assert_eq!(replace(&chars("abc"), &chars("x"), &chars("y")), chars("abc"));
}

/// A marked text, with `$` for a region.
fn marked(text: &str) -> Vec<Option<char>> {
    text.chars().map(|c| if c == '$' { None } else { Some(c) }).collect()
}

#[test]
fn regions_are_marked() {
    assert_eq!(
        mark_regions(&chars("&'ab c{er}d"), &flags("00110101101")),
        marked("&$ c$d")
    );
    // An apostrophe takes the whole word behind it, a brace everything up to
    // its counterpart.
    assert_eq!(mark_regions(&chars("'{x"), &flags("000")), marked("$$"));
    assert_eq!(mark_regions(&chars("a{b"), &flags("101")), marked("a$"));
}

#[test]
fn what_regions_leave_behind_is_dropped() {
    for (text, dropped) in [
        ("Item<$, Addr>", "Item<Addr>"),
        ("Foo<$, $, $, T>", "Foo<T>"),
        ("Foo< $ , T>", "Foo<T>"),
        ("Foo<T, $>", "Foo<T>"),
        ("Foo<T, $, $ >", "Foo<T>"),
        ("Foo<$, $>", "Foo<>"),
        ("Foo< $ >", "Foo<>"),
        ("Foo<T, $, U>", "Foo<T, U>"),
        ("Foo<T, $ , U>", "Foo<T, U>"),
        ("Foo<A<$, B>, $, C<$, $>>", "Foo<A<B>, C<>>"),
        ("for<$, $> fn(&$ A, &$ B) -> C", "for<> fn(& A, & B) -> C"),
        // What no region left behind stays.
        ("Foo<, T>", "Foo<, T>"),
        ("Foo< >", "Foo< >"),
        ("a,,b", "a,,b"),
        ("Foo<$, , T>", "Foo<, T>"),
        ("(u64,)", "(u64,)"),
        ("Box<A + $>", "Box<A + >"),
        ("", ""),
    ] {
        assert_eq!(drop_regions(&marked(text)), chars(dropped), "{text}");
    }
}

#[test]
fn commas_that_separate_nothing_are_cleaned() {
    for (text, cleaned) in [
        ("a, ,b", "a,b"),
        ("<,b", "<b"),
        ("a, >", "a>"),
        ("a,>", "a>"),
        ("a,,b", "a,,b"),
        ("(a, b)", "(a, b)"),
    ] {
        assert_eq!(clean_commas(&chars(text)), chars(cleaned), "{text}");
    }
}

#[test]
fn white_space_is_collapsed_last() {
    assert_eq!(normalize_ty_str("a, ,"), "a,");
    assert_eq!(normalize_ty_str("a, ,b"), "a,b");
    assert_eq!(normalize_ty_str(" \u{a0}'a Foo\n<T>\u{2003}'b "), "Foo <T>");
    for text in ["a, , ", "<, 'a", "'a , 'b", "T, 'a ,  'b >  "] {
        let once = normalize_ty_str(text);
        let words: Vec<&str> = once.split_whitespace().collect();
        assert_eq!(once, words.join(" "), "{text}");
    }
}

#[test]
fn a_plain_type_is_unchanged() {
    for text in ["a,,b", "Foo< >", "Map<u64, String>", "(u64,)", "fn(& A, B) -> C", ""] {
        assert_eq!(normalize_ty_str(text), text);
    }
}

#[test]
fn an_argument_that_was_only_a_region_leaves_no_trace() {
    assert_eq!(normalize_ty_str("Foo<'a, T>"), "Foo<T>");
    assert_eq!(normalize_ty_str("Foo<'a, 'b, T>"), "Foo<T>");
    assert_eq!(normalize_ty_str("Foo<'a, 'b, 'c, T>"), "Foo<T>");
    assert_eq!(normalize_ty_str("Foo<'a,  T>"), "Foo<T>");
    assert_eq!(normalize_ty_str("Foo<'a ,\tT>"), "Foo<T>");
    assert_eq!(normalize_ty_str("Foo<'a, 'b>"), "Foo<>");
    assert_eq!(normalize_ty_str("Foo<T, 'a, 'b>"), "Foo<T>");
    assert_eq!(normalize_ty_str("Foo<T, 'a, U>"), "Foo<T, U>");
    assert_eq!(normalize_ty_str("Foo< 'a , T>"), "Foo<T>");
    assert_eq!(normalize_ty_str("Cow<'{erased}, Bar<'_, '_, u8>>"), "Cow<Bar<u8>>");
}

#[test]
fn the_name_of_a_lifetime_does_not_matter() {
    for name in ["", "_", "a", "erased", "a_long_name_1", "\u{e9}t\u{e9}"] {
        assert_eq!(normalize_ty_str(&format!("Item<'{name}, Addr>")), "Item<Addr>");
        assert_eq!(normalize_ty_str(&format!("x'{name}'{name}{{'{name}}}y")), "xy");
    }
}

#[test]
fn types_are_normalized() {
    assert_eq!(normalize_ty_str("Item<'erased, Addr>"), "Item<Addr>");
    assert_eq!(normalize_ty_str("Addr"), "Addr");
    assert_eq!(normalize_ty_str("&'{erased} Addr"), "& Addr");
    assert_eq!(normalize_ty_str("Map<'_, u64,   String>"), "Map<u64, String>");
    assert_eq!(normalize_ty_str("DepsMut<'a>"), "DepsMut<>");
    assert_eq!(normalize_ty_str("&{erased} \t str"), "& str");
}

#[test]
fn order_is_by_text_before_numbers() {
    let key = |text: &str, numbers: &[usize]| SortKey {
        text: chars(text),
        numbers: numbers.to_vec(),
    };
    let keys = vec![
        key("b", &[1]),
        key("a", &[2]),
        key("a", &[1, 5]),
        key("a", &[1]),
        key("Z", &[9]),
        key("a", &[1]),
    ];
    // Equal keys keep their order.
    assert_eq!(sort_order(&keys), vec![4, 3, 5, 2, 1, 0]);
}
