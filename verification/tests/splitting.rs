use split_sort::str_split::until_char;
use split_sort::str_split::Delimiter;
use split_sort::str_split::StrSplit;

fn collect<'a, D: Delimiter>(mut splitter: StrSplit<'a, D>) -> Vec<&'a str> {
    let mut segments = Vec::new();
    while let Some(segment) = splitter.next() {
        segments.push(segment);
    }
    segments
}

#[test]
fn it_works() {
    let haystack = "a b c d e";
    let letters: Vec<_> = collect(StrSplit::new(haystack, " "));
    assert_eq!(letters, vec!["a", "b", "c", "d", "e"]);
}

#[test]
fn tail() {
    let haystack = "a b c d ";
    let letters: Vec<_> = collect(StrSplit::new(haystack, " "));
    assert_eq!(letters, vec!["a", "b", "c", "d", ""]);
}

#[test]
fn until_char_test() {
    assert_eq!(until_char("hello world", 'o'), "hell");
}
