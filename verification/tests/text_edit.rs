use luminatti::text_edit::{erase_word_backward, CharKind};

fn erase(s: &str) -> String {
    let mut s = s.to_string();
    erase_word_backward(&mut s);
    s
}

#[test]
fn respects_punctuation_boundary() {
    assert_eq!(erase("something/another"), "something/");
    assert_eq!(erase("abc.def"), "abc.");
    assert_eq!(erase("foo-bar-baz"), "foo-bar-");
}

#[test]
fn deletes_punctuation_run_when_at_end() {
    assert_eq!(erase("something/"), "something");
    assert_eq!(erase("abc.."), "abc");
    assert_eq!(erase("a---"), "a");
}

#[test]
fn absorbs_trailing_whitespace_into_word() {
    assert_eq!(erase("foo bar"), "foo ");
    assert_eq!(erase("foo "), "");
    assert_eq!(erase("foo   "), "");
}

#[test]
fn handles_edges() {
    assert_eq!(erase(""), "");
    assert_eq!(erase("a"), "");
    assert_eq!(erase(" "), "");
    assert_eq!(erase("abc"), "");
}

#[test]
fn handles_unicode() {
    assert_eq!(erase("naïve/résumé"), "naïve/");
    assert_eq!(erase("café"), "");
}

#[test]
fn classifies_whitespace_punctuation_and_everything_else() {
    assert!(CharKind::classify(' ') == CharKind::Space);
    assert!(CharKind::classify('\u{3000}') == CharKind::Space);
    assert!(CharKind::classify('/') == CharKind::Punct);
    assert!(CharKind::classify('a') == CharKind::Other);
    assert!(CharKind::classify('é') == CharKind::Other);
}

#[test]
fn tabs_and_newlines_are_absorbed_like_spaces() {
    assert_eq!(erase("foo\t\n"), "");
    assert_eq!(erase("a b\t"), "a ");
}
