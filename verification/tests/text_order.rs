use hls_reorder::text::{chars_of, str_lt};

#[test]
fn chars_of_gives_the_characters() {
    assert_eq!(chars_of(""), Vec::<char>::new());
    assert_eq!(chars_of("aac"), vec!['a', 'a', 'c']);
    assert_eq!(chars_of("né"), vec!['n', 'é']);
}

#[test]
fn earlier_character_comes_first() {
    assert!(str_lt("aac", "ac3"));
    assert!(!str_lt("ac3", "aac"));
    assert!(str_lt("audio-1", "audio-2"));
}

#[test]
fn prefix_comes_first() {
    assert!(str_lt("", "a"));
    assert!(str_lt("aac", "aac-hi"));
    assert!(!str_lt("aac-hi", "aac"));
}

#[test]
fn nothing_comes_before_itself() {
    assert!(!str_lt("", ""));
    assert!(!str_lt("aac", "aac"));
}

#[test]
fn upper_case_comes_before_lower_case() {
    assert!(str_lt("Z", "a"));
    assert!(str_lt("AAC", "aac"));
    assert!(str_lt("10", "9"));
}

#[test]
fn order_is_that_of_the_standard_library() {
    let samples = ["", "a", "aa", "ab", "b", "A", "Z", "aac", "ac3", "é", "e", "z", "日本", "日", "\u{10000}", "\u{ffff}", "~", "0", "10", "9"];
    for a in samples {
        for b in samples {
            assert_eq!(str_lt(a, b), a < b, "{:?} {:?}", a, b);
        }
    }
}
