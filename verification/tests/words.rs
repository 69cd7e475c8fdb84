use patmatch::WordIterator;

#[test]
fn main() {
    let text = String::from("Twas brillig, and the slithy toves // Did gyre and gimble in the wabe: // All mimsy were the borogoves, // And the mome raths outgrabe. ");
    let mut word_iterator = WordIterator::new(&text);

    assert_eq!(word_iterator.next_word(), Some("Twas"));
    assert_eq!(word_iterator.next_word(), Some("brillig,"));
}

#[test]
fn words_without_trailing_space() {
    let text = String::from("ab c");
    let mut words = WordIterator::new(&text);
    assert_eq!(words.next_word(), Some("ab"));
    assert_eq!(words.next_word(), Some("c"));
    assert_eq!(words.next_word(), None);
}

#[test]
fn words_of_empty_string() {
    let mut words = WordIterator::new("");
    assert_eq!(words.next_word(), None);
}

#[test]
fn words_all_of_them() {
    let text = String::from("one two three ");
    let mut words = WordIterator::new(&text);
    assert_eq!(words.next_word(), Some("one"));
    assert_eq!(words.next_word(), Some("two"));
    assert_eq!(words.next_word(), Some("three"));
    assert_eq!(words.next_word(), None);
}
