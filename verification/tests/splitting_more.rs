use split_sort::str_split::until_char;
use split_sort::str_split::Delimiter;
use split_sort::str_split::StrSplit;

fn segments<'a, D: Delimiter>(haystack: &'a str, delimiter: D) -> Vec<&'a str> {
    let mut splitter = StrSplit::new(haystack, delimiter);
    let mut found = Vec::new();
    while let Some(segment) = splitter.next() {
        found.push(segment);
    }
    found
}

#[test]
fn joining_segments_with_the_delimiter_gives_the_source_back() {
    for text in ["a,b,,c", ",", "", "abc", ",a,", "añ,ño,", "x,,"] {
        assert_eq!(segments(text, ",").join(","), text);
        assert_eq!(segments(text, ',').join(","), text);
    }
    for text in ["a--b----c", "--", "-a-", "a-b"] {
        assert_eq!(segments(text, "--").join("--"), text);
    }
}

#[test]
fn consumed_text_and_remainder_make_up_the_source_at_every_step() {
    let text = "one::two::::three";
    let mut splitter = StrSplit::new(text, "::");
    let mut consumed = String::new();
    let mut steps = 0;
    while let Some(segment) = splitter.next() {
        consumed.push_str(segment);
        steps += 1;
        assert!(text.starts_with(&consumed));
        if consumed.len() < text.len() {
            consumed.push_str("::");
        }
    }
    assert_eq!(steps, 4);
    assert_eq!(consumed, text);
}

#[test]
fn exhausted_splitter_keeps_returning_none() {
    let mut splitter = StrSplit::new("a b", " ");
    assert_eq!(splitter.next(), Some("a"));
    assert_eq!(splitter.next(), Some("b"));
    for _ in 0..5 {
        assert_eq!(splitter.next(), None);
    }
}

#[test]
fn text_without_delimiter_is_one_segment() {
    assert_eq!(segments("hello world", ","), vec!["hello world"]);
    assert_eq!(segments("hello world", 'x'), vec!["hello world"]);
    assert_eq!(segments("hello", "hello world"), vec!["hello"]);
}

#[test]
fn empty_text_gives_one_empty_segment() {
    assert_eq!(segments("", " "), vec![""]);
    assert_eq!(segments("", ' '), vec![""]);
    let mut splitter = StrSplit::new("", ' ');
    assert_eq!(splitter.next(), Some(""));
    assert_eq!(splitter.next(), None);
}

#[test]
fn delimiters_at_the_ends_and_side_by_side_give_empty_segments() {
    assert_eq!(segments(",a", ","), vec!["", "a"]);
    assert_eq!(segments("a,", ","), vec!["a", ""]);
    assert_eq!(segments("a,,b", ","), vec!["a", "", "b"]);
    assert_eq!(segments(",", ','), vec!["", ""]);
    assert_eq!(segments(",,", ','), vec!["", "", ""]);
}

#[test]
fn whole_text_equal_to_the_delimiter_gives_two_empty_segments() {
    assert_eq!(segments("abc", "abc"), vec!["", ""]);
}

#[test]
fn literal_delimiter_of_several_bytes() {
    assert_eq!(segments("a, b, c", ", "), vec!["a", "b", "c"]);
    assert_eq!(segments("key=>value=>", "=>"), vec!["key", "value", ""]);
}

#[test]
fn literal_delimiter_matches_leftmost_first() {
    assert_eq!(segments("aaa", "aa"), vec!["", "a"]);
    assert_eq!(segments("aaaa", "aa"), vec!["", "", ""]);
    assert_eq!(segments("xabababx", "abab"), vec!["x", "abx"]);
}

#[test]
fn literal_delimiter_is_case_sensitive() {
    assert_eq!(segments("aXbxc", "x"), vec!["aXb", "c"]);
}

#[test]
fn character_of_several_bytes_is_consumed_whole() {
    assert_eq!(segments("añbñc", 'ñ'), vec!["a", "b", "c"]);
    assert_eq!(segments("1€2€", '€'), vec!["1", "2", ""]);
    assert_eq!(segments("a😀b", '😀'), vec!["a", "b"]);
    assert_eq!(segments("ñandú", 'ñ'), vec!["", "andú"]);
}

#[test]
fn offsets_count_bytes_not_characters() {
    assert_eq!("ñ".find_next("añb"), Some((1, 3)));
    assert_eq!('ñ'.find_next("añb"), Some((1, 3)));
    assert_eq!('b'.find_next("añb"), Some((3, 4)));
    assert_eq!("b".find_next("añb"), Some((3, 4)));
    assert_eq!('😀'.find_next("€😀"), Some((3, 7)));
}

#[test]
fn find_next_of_a_literal() {
    assert_eq!(" ".find_next("a b c"), Some((1, 2)));
    assert_eq!("bc".find_next("abcbc"), Some((1, 3)));
    assert_eq!("abc".find_next("abc"), Some((0, 3)));
    assert_eq!("abcd".find_next("abc"), None);
    assert_eq!("x".find_next(""), None);
    assert_eq!("".find_next("abc"), Some((0, 0)));
    assert_eq!("".find_next(""), Some((0, 0)));
}

#[test]
fn find_next_of_a_character() {
    assert_eq!('o'.find_next("hello world"), Some((4, 5)));
    assert_eq!('h'.find_next("hello world"), Some((0, 1)));
    assert_eq!('d'.find_next("hello world"), Some((10, 11)));
    assert_eq!('x'.find_next("hello world"), None);
    assert_eq!('x'.find_next(""), None);
}

#[test]
fn character_and_one_character_literal_agree() {
    let texts = ["", "a", "a b c", " a ", "  ", "añb ñ", "€ € €", "no-space", "ñ", "😀 😀"];
    let delimiters = [(' ', " "), ('ñ', "ñ"), ('€', "€"), ('a', "a"), ('😀', "😀")];
    for text in texts {
        for (c, literal) in delimiters {
            assert_eq!(c.find_next(text), literal.find_next(text));
            assert_eq!(segments(text, c), segments(text, literal));
        }
    }
}

#[test]
fn empty_literal_never_advances() {
    let mut splitter = StrSplit::new("ab", "");
    for _ in 0..10 {
        assert_eq!(splitter.next(), Some(""));
    }
}

#[test]
fn segments_are_views_into_the_source() {
    let text = String::from("left|right");
    let mut splitter = StrSplit::new(&text, '|');
    let left = splitter.next().unwrap();
    let right = splitter.next().unwrap();
    assert_eq!(left.as_ptr(), text.as_ptr());
    assert_eq!(right.as_ptr(), text[5..].as_ptr());
}

#[test]
fn until_char_without_the_character_gives_everything() {
    assert_eq!(until_char("hello world", 'x'), "hello world");
    assert_eq!(until_char("", 'x'), "");
}

#[test]
fn until_char_stops_at_the_first_of_several() {
    assert_eq!(until_char("hello world", 'l'), "he");
    assert_eq!(until_char("hello world", 'h'), "");
    assert_eq!(until_char("añejo ñandú", 'ñ'), "a");
    assert_eq!(until_char("€uro", 'u'), "€");
}
