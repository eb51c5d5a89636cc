use crust::str_split::{until_char, Delimiter, StrSplit};

fn pieces<'a, D: Delimiter>(mut split: StrSplit<'a, D>) -> Vec<&'a str> {
    let mut out = Vec::new();
    while let Some(piece) = split.next() {
        out.push(piece);
    }
    out
}

#[test]
fn until_char_test() {
    assert_eq!(until_char("Hello World", 'o'), "Hell");
}

#[test]
fn it_works() {
    let haystack = "a b c d e";
    let letters = StrSplit::new(haystack, " ");
    assert_eq!(pieces(letters), vec!["a", "b", "c", "d", "e"]);
}

#[test]
fn tail() {
    let haystack = "a b c d e";
    let letters = StrSplit::new(haystack, " ");
    assert_eq!(pieces(letters), vec!["a", "b", "c", "d", "e"]);
}

#[test]
fn empty_tail() {
    let letters = StrSplit::new("a b c d ", " ");
    assert_eq!(pieces(letters), vec!["a", "b", "c", "d", ""]);
}

#[test]
fn multibyte_delimiter() {
    let letters = StrSplit::new("one--two--three", "--");
    assert_eq!(pieces(letters), vec!["one", "two", "three"]);
}

#[test]
fn char_delimiter_multibyte() {
    let letters = StrSplit::new("añbñc", 'ñ');
    assert_eq!(pieces(letters), vec!["a", "b", "c"]);
    assert_eq!(until_char("grüße", 'ß'), "grü");
}

#[test]
fn no_delimiter_gives_whole_haystack() {
    let mut split = StrSplit::new("abc", ",");
    assert_eq!(split.next(), Some("abc"));
    assert_eq!(split.next(), None);
    assert_eq!(until_char("abc", 'z'), "abc");
}

#[test]
fn empty_haystack_gives_one_empty_piece() {
    let mut split = StrSplit::new("", " ");
    assert_eq!(split.next(), Some(""));
    assert_eq!(split.next(), None);
}

#[test]
fn find_next_ranges() {
    assert_eq!(" ".find_next("a b"), Some((1, 2)));
    assert_eq!('é'.find_next("caté!"), Some((3, 5)));
    assert_eq!('x'.find_next("caté!"), None);
    assert_eq!("".find_next("abc"), Some((0, 0)));
}

#[test]
fn pieces_join_back_to_haystack() {
    let haystack = "a,b,,c,";
    let parts = pieces(StrSplit::new(haystack, ","));
    assert_eq!(parts, vec!["a", "b", "", "c", ""]);
    assert_eq!(parts.join(","), haystack);
}

#[test]
fn empty_delimiter_never_advances() {
    let mut split = StrSplit::new("ab", "");
    assert_eq!(split.next(), Some(""));
    assert_eq!(split.next(), Some(""));
    assert_eq!(split.next(), Some(""));
}

#[test]
fn split_ends_after_last_piece() {
    let mut split = StrSplit::new("x-y", "-");
    assert_eq!(split.next(), Some("x"));
    assert_eq!(split.next(), Some("y"));
    assert_eq!(split.next(), None);
    assert_eq!(split.next(), None);
}

#[test]
fn collect_vec_gives_every_piece() {
    let haystack = "one--two----three--";
    let parts = StrSplit::new(haystack, "--").collect_vec();
    assert_eq!(parts, vec!["one", "two", "", "three", ""]);
    assert_eq!(parts.len(), 1 + haystack.matches("--").count());
    assert_eq!(parts.join("--"), haystack);
    assert!(parts.iter().all(|p| !p.contains("--")));
}

#[test]
fn collect_vec_with_char_delimiter() {
    let parts = StrSplit::new("añbññc", 'ñ').collect_vec();
    assert_eq!(parts, vec!["a", "b", "", "c"]);
    assert_eq!(StrSplit::new("", 'ñ').collect_vec(), vec![""]);
}

#[test]
fn collect_vec_after_last_piece_is_empty() {
    let mut split = StrSplit::new("x", ",");
    assert_eq!(split.next(), Some("x"));
    assert_eq!(split.collect_vec(), Vec::<&str>::new());
}
