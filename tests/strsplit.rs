use strsplit_cell::{skip_delims_prefix, StrSplit};

#[test]
fn do_skip_delims_prefix() {
    let tests: Vec<(&str, &str, Option<usize>)> = vec![
        ("", "x", None),
        ("xxxxxxxxxxx", "x", None),
        ("abc d", "x", Some(0)),
        ("a b c", " ", Some(0)),
        (" a b", " ", Some(1)),
        ("  a", " ", Some(2)),
        ("  a a a", " ", Some(2)),
        (".......", ".", None),
        ("<<<<", "<<", None),
        ("<<<", "<<", Some(2)),
    ];
    for (i, (inp, del, res)) in tests.iter().enumerate() {
        let actual = skip_delims_prefix(inp, del);
        assert_eq!(
            actual, *res,
            "test #{i} failed: input={inp:?}, delimiter={del:?}, expected={res:?}, got={actual:?}"
        );
    }
}

#[test]
fn lib_it_works() {
    let haystack = "a bc def h";
    let v: Vec<&str> = StrSplit::new(haystack, " ").collect();
    assert_eq!(vec!["a", "bc", "def", "h"], v);
}

#[test]
fn strsplit() {
    let tests: Vec<(&str, &str, Vec<&str>)> = vec![
        ("abcd", "x", vec!["abcd"]),
        ("a|b||c|d|", "|", vec!["a", "b", "c", "d"]),
        ("foo::bar::", "::", vec!["foo", "bar"]),
        ("::::::foo::bar::", "::", vec!["foo", "bar"]),
        (":::foo::bar:::", "::", vec![":foo", "bar", ":"]),
        ("a::b", ":", vec!["a", "b"]),
    ];
    for (i, (inp, del, expected)) in tests.iter().enumerate() {
        let actual: Vec<&str> = StrSplit::new(inp, del).collect();
        assert_eq!(
            actual, *expected,
            "test #{i} failed: input={inp:?}, delimiter={del:?}, expected={expected:?}, got={actual:?}"
        );
    }
}

#[test]
fn empty_str() {
    let haystack = "";
    let v: Vec<&str> = StrSplit::new(haystack, " ").collect();
    assert_eq!(Vec::<&str>::new(), v);
}

#[test]
fn only_delims() {
    let haystack = ".....";
    let delim = ".";
    let v: Vec<&str> = StrSplit::new(haystack, delim).collect();
    assert_eq!(Vec::<&str>::new(), v);
}

#[test]
fn lifetimes() {
    let haystack = ".....";
    let v: Vec<&str>;
    {
        let delim = ".".to_string();
        v = StrSplit::new(haystack, &delim).collect();
    }
    assert_eq!(Vec::<&str>::new(), v);
}

#[test]
fn join_of_split_restores_clean_input() {
    let inputs: Vec<(&str, &str)> = vec![
        ("a,b,c", ","),
        ("one::two", "::"),
        ("single", "|"),
        ("añb", "ñ"),
    ];
    for (inp, del) in inputs {
        let parts: Vec<&str> = StrSplit::new(inp, del).collect();
        assert_eq!(parts.join(del), inp);
    }
    let parts: Vec<&str> = StrSplit::new("x--y", "--").collect();
    assert_eq!(parts, vec!["x", "y"]);
}

#[test]
fn join_of_split_loses_extra_delimiters() {
    let cases: Vec<(&str, &str, &str)> = vec![
        ("|a", "|", "a"),
        ("a|", "|", "a"),
        ("a||b", "|", "a|b"),
    ];
    for (inp, del, joined) in cases {
        let parts: Vec<&str> = StrSplit::new(inp, del).collect();
        assert_eq!(parts.join(del), joined);
    }
}

#[test]
fn empty_source_with_various_delimiters() {
    for del in ["x", "::", "é", "long delimiter"] {
        assert!(StrSplit::new("", del).collect().is_empty());
    }
}

#[test]
fn only_delimiter_repeats() {
    let cases: Vec<(&str, &str)> = vec![("::::::", "::"), ("é", "é"), ("abab", "ab"), (" ", " ")];
    for (inp, del) in cases {
        assert!(StrSplit::new(inp, del).collect().is_empty(), "input={inp:?}");
    }
}

#[test]
fn no_delimiter_gives_whole_source() {
    let v: Vec<&str> = StrSplit::new("abc", "abcd").collect();
    assert_eq!(v, vec!["abc"]);
}

#[test]
fn next_after_end_keeps_returning_none() {
    let mut it = StrSplit::new("a b", " ");
    assert_eq!(it.next(), Some("a"));
    assert_eq!(it.next(), Some("b"));
    assert_eq!(it.next(), None);
    assert_eq!(it.next(), None);
}

#[test]
fn trailing_run_ends_without_empty_segment() {
    let mut it = StrSplit::new("a  ", " ");
    assert_eq!(it.next(), Some("a"));
    assert_eq!(it.next(), None);
}

#[test]
fn multibyte_text_and_delimiter() {
    let v: Vec<&str> = StrSplit::new("añbññcé", "ñ").collect();
    assert_eq!(v, vec!["a", "b", "cé"]);
    let v: Vec<&str> = StrSplit::new("日本→語→", "→").collect();
    assert_eq!(v, vec!["日本", "語"]);
    assert_eq!(skip_delims_prefix("ññx", "ñ"), Some(4));
}

#[test]
fn leftover_delimiter_byte_stays_in_segment() {
    let v: Vec<&str> = StrSplit::new("aaa", "aa").collect();
    assert_eq!(v, vec!["a"]);
}
