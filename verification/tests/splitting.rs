use std::cell::Cell;

use striter::Func;
use striter::Substr;
use striter::Word;

#[test]
fn func_count() {
    let c = "Hello \u{1F60E} Dennis! \u{1F600}"
        .func_iter(|c: char| c < '\u{1F600}' || c > '\u{1F64F}')
        .count();

    assert_eq!(2, c);
}

#[test]
fn substr_count() {
    let c = "hello  world".substr_iter(" ").count();

    assert_eq!(2, c);
}

#[test]
fn word_count() {
    let c = "1 2 3 a b c".word_iter().count();

    assert_eq!(6, c);
}

#[test]
fn substr_collapses_consecutive_delimiters() {
    let mut it = "hello  world".substr_iter(" ");
    assert_eq!(Some("hello"), it.next());
    assert_eq!(Some("world"), it.next());
    assert_eq!(None, it.next());
}

#[test]
fn substr_all_empty_buffer_yields_one_empty_view() {
    let mut it = "".substr_iter("x").all();
    assert_eq!(Some(""), it.next());
    assert_eq!(None, it.next());
}

#[test]
fn substr_default_empty_buffer_yields_nothing() {
    let mut it = "".substr_iter("x");
    assert_eq!(None, it.next());
    assert_eq!(0, "".substr_iter("xyz").count());
}

#[test]
fn word_iter_splits_on_every_non_alphanumeric() {
    let mut it = "1 2 3 a b c".word_iter();
    assert_eq!(Some("1"), it.next());
    assert_eq!(Some("2"), it.next());
    assert_eq!(Some("3"), it.next());
    assert_eq!(Some("a"), it.next());
    assert_eq!(Some("b"), it.next());
    assert_eq!(Some("c"), it.next());
    assert_eq!(None, it.next());
}

#[test]
fn empty_needle_steps_one_character_at_a_time() {
    let mut it = "\u{e9}x".substr_iter("");
    assert_eq!(Some("\u{e9}"), it.next());
    assert_eq!(Some("x"), it.next());
    assert_eq!(None, it.next());
}

#[test]
fn empty_needle_ignores_all_mode() {
    let mut it = "ab".substr_iter("").all();
    assert_eq!(Some("a"), it.next());
    assert_eq!(Some("b"), it.next());
    assert_eq!(None, it.next());
}

#[test]
fn empty_needle_empty_buffer_yields_nothing() {
    let mut it = "".substr_iter("");
    assert_eq!(None, it.next());
}

#[test]
fn substr_exhaustion_is_idempotent() {
    let mut it = "a b".substr_iter(" ");
    assert_eq!(Some("a"), it.next());
    assert_eq!(Some("b"), it.next());
    assert_eq!(None, it.next());
    assert_eq!(None, it.next());
    assert_eq!(None, it.next());
}

#[test]
fn substr_all_exhaustion_is_idempotent() {
    let mut it = "a ".substr_iter(" ").all();
    assert_eq!(Some("a"), it.next());
    assert_eq!(Some(""), it.next());
    assert_eq!(None, it.next());
    assert_eq!(None, it.next());
}

#[test]
fn func_exhaustion_is_idempotent() {
    let mut it = " hi ".func_iter(|c: char| c == ' ');
    assert_eq!(Some("hi"), it.next());
    assert_eq!(None, it.next());
    assert_eq!(None, it.next());
}

#[test]
fn word_exhaustion_is_idempotent() {
    let mut it = "one".word_iter();
    assert_eq!(Some("one"), it.next());
    assert_eq!(None, it.next());
    assert_eq!(None, it.next());
}

#[test]
fn substr_reset_restores_the_fresh_sequence() {
    let mut it = "a,b,c".substr_iter(",");
    assert_eq!(Some("a"), it.next());
    assert_eq!(Some("b"), it.next());
    it.reset();
    assert_eq!(Some("a"), it.next());
    assert_eq!(Some("b"), it.next());
    assert_eq!(Some("c"), it.next());
    assert_eq!(None, it.next());
}

#[test]
fn substr_reset_preserves_all_mode() {
    let mut it = ",a,".substr_iter(",").all();
    assert_eq!(Some(""), it.next());
    assert_eq!(Some("a"), it.next());
    assert_eq!(Some(""), it.next());
    assert_eq!(None, it.next());
    it.reset();
    assert_eq!(Some(""), it.next());
    assert_eq!(Some("a"), it.next());
    assert_eq!(Some(""), it.next());
    assert_eq!(None, it.next());
}

#[test]
fn func_reset_restores_the_fresh_sequence() {
    let mut it = "x y".func_iter(|c: char| c == ' ');
    assert_eq!(Some("x"), it.next());
    it.reset();
    assert_eq!(Some("x"), it.next());
    assert_eq!(Some("y"), it.next());
    assert_eq!(None, it.next());
}

#[test]
fn word_reset_restores_the_fresh_sequence() {
    let mut it = "x-y".word_iter();
    assert_eq!(Some("x"), it.next());
    it.reset();
    assert_eq!(Some("x"), it.next());
    assert_eq!(Some("y"), it.next());
    assert_eq!(None, it.next());
}

#[test]
fn substr_all_emits_boundary_and_adjacent_empties() {
    let mut it = " a  b ".substr_iter(" ").all();
    assert_eq!(Some(""), it.next());
    assert_eq!(Some("a"), it.next());
    assert_eq!(Some(""), it.next());
    assert_eq!(Some("b"), it.next());
    assert_eq!(Some(""), it.next());
    assert_eq!(None, it.next());
}

#[test]
fn substr_all_on_buffer_equal_to_needle() {
    let mut it = "ab".substr_iter("ab").all();
    assert_eq!(Some(""), it.next());
    assert_eq!(Some(""), it.next());
    assert_eq!(None, it.next());
}

#[test]
fn substr_all_with_overlapping_suffix_match() {
    let mut it = "AAA".substr_iter("AA").all();
    assert_eq!(Some(""), it.next());
    assert_eq!(Some("A"), it.next());
    assert_eq!(None, it.next());
}

#[test]
fn substr_default_skips_boundary_delimiters() {
    let mut it = " a ".substr_iter(" ");
    assert_eq!(Some("a"), it.next());
    assert_eq!(None, it.next());
}

#[test]
fn substr_default_buffer_of_only_delimiters() {
    let mut it = "  ".substr_iter(" ");
    assert_eq!(None, it.next());
    assert_eq!(0, "  ".substr_iter(" ").count());
}

#[test]
fn substr_needle_longer_than_buffer_yields_whole_buffer() {
    let mut it = "a".substr_iter("ab");
    assert_eq!(Some("a"), it.next());
    assert_eq!(None, it.next());

    let mut all = "a".substr_iter("ab").all();
    assert_eq!(Some("a"), all.next());
    assert_eq!(None, all.next());
}

#[test]
fn substr_default_emits_tail_shorter_than_needle() {
    let mut it = "xABy".substr_iter("AB");
    assert_eq!(Some("x"), it.next());
    assert_eq!(Some("y"), it.next());
    assert_eq!(None, it.next());
}

#[test]
fn substr_default_views_hold_no_delimiter_content() {
    let mut it = "ABx".substr_iter("AB");
    assert_eq!(Some("x"), it.next());
    assert_eq!(None, it.next());

    let mut it = "xxABAByy".substr_iter("AB");
    assert_eq!(Some("xx"), it.next());
    assert_eq!(Some("yy"), it.next());
    assert_eq!(None, it.next());
}

#[test]
fn substr_all_tail_shorter_than_needle_is_absorbed() {
    let mut all = "ABy".substr_iter("AB").all();
    assert_eq!(Some(""), all.next());
    assert_eq!(None, all.next());
}

#[test]
fn substr_tail_at_least_needle_length_is_emitted() {
    let mut it = "xAByz".substr_iter("AB");
    assert_eq!(Some("x"), it.next());
    assert_eq!(Some("yz"), it.next());
    assert_eq!(None, it.next());
}

#[test]
fn substr_all_mode_can_be_enabled_mid_iteration() {
    let mut it = "a b c ".substr_iter(" ");
    assert_eq!(Some("a"), it.next());
    let mut it = it.all();
    assert_eq!(Some("b"), it.next());
    assert_eq!(Some("c"), it.next());
    assert_eq!(Some(""), it.next());
    assert_eq!(None, it.next());
}

#[test]
fn substr_multibyte_views_are_whole_characters() {
    let mut it = "\u{3b1}\u{3b2} \u{3b3}".substr_iter(" ");
    assert_eq!(Some("\u{3b1}\u{3b2}"), it.next());
    assert_eq!(Some("\u{3b3}"), it.next());
    assert_eq!(None, it.next());
}

#[test]
fn word_multibyte_views_are_whole_characters() {
    let mut it = "h\u{e9}llo w\u{f6}rld".word_iter();
    assert_eq!(Some("h\u{e9}llo"), it.next());
    assert_eq!(Some("w\u{f6}rld"), it.next());
    assert_eq!(None, it.next());
}

#[test]
fn word_punctuation_and_symbols_separate() {
    let mut it = "foo, bar!baz".word_iter();
    assert_eq!(Some("foo"), it.next());
    assert_eq!(Some("bar"), it.next());
    assert_eq!(Some("baz"), it.next());
    assert_eq!(None, it.next());
}

#[test]
fn word_empty_buffer_yields_nothing() {
    assert_eq!(None, "".word_iter().next());
    assert_eq!(0, "".word_iter().count());
}

#[test]
fn func_skips_leading_and_trailing_separators() {
    let mut it = "  hello   world  ".func_iter(|c: char| c == ' ');
    assert_eq!(Some("hello"), it.next());
    assert_eq!(Some("world"), it.next());
    assert_eq!(None, it.next());
}

#[test]
fn func_never_emits_empty_views() {
    let c = ",,a,,b,,".func_iter(|c: char| c == ',').count();
    assert_eq!(2, c);
}

#[test]
fn substr_for_each_visits_each_remaining_item() {
    let n = Cell::new(0usize);
    let joined = Cell::new(String::new());
    "a b c".substr_iter(" ").for_each(|v: &str| {
        n.set(n.get() + 1);
        let mut acc = joined.take();
        acc.push_str(v);
        joined.set(acc);
    });
    assert_eq!(3, n.get());
    assert_eq!("abc", joined.take());
}

#[test]
fn func_for_each_visits_each_remaining_item() {
    let n = Cell::new(0usize);
    "1 2 3".func_iter(|c: char| c == ' ').for_each(|_v: &str| {
        n.set(n.get() + 1);
    });
    assert_eq!(3, n.get());
}

#[test]
fn word_for_each_visits_each_remaining_item() {
    let n = Cell::new(0usize);
    "1 2 3 a b c".word_iter().for_each(|_v: &str| {
        n.set(n.get() + 1);
    });
    assert_eq!(6, n.get());
}

#[test]
fn substr_count_after_partial_consumption() {
    let mut it = "a b c d".substr_iter(" ");
    assert_eq!(Some("a"), it.next());
    assert_eq!(3, it.count());
}

#[test]
fn iterators_over_the_same_buffer_are_independent() {
    let buffer = "one two three";
    let mut a = buffer.substr_iter(" ");
    let mut b = buffer.substr_iter(" ");
    assert_eq!(Some("one"), a.next());
    assert_eq!(Some("two"), a.next());
    assert_eq!(Some("one"), b.next());
    assert_eq!(Some("three"), a.next());
    assert_eq!(Some("two"), b.next());
}
