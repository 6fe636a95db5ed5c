use manga_eroico::render::{is_cjk, wrap_lines};

#[test]
fn cjk_detection() {
    assert!(is_cjk('漢'));
    assert!(is_cjk('あ'));
    assert!(is_cjk('한'));
    assert!(is_cjk('。'));
    assert!(!is_cjk('a'));
    assert!(!is_cjk(' '));
}

#[test]
fn wraps_cjk_per_char() {
    let lines = wrap_lines(&"あいうえおかきくけこ".repeat(1), 5);
    assert_eq!(lines, vec!["あいうえお", "かきくけこ"]);
}

#[test]
fn wraps_latin_per_word() {
    let lines = wrap_lines("hello world foo", 11);
    assert_eq!(lines.len(), 2);
    assert_eq!(lines[0], "hello world");
    assert_eq!(lines[1], "foo");
}

#[test]
fn respects_explicit_newlines() {
    let lines = wrap_lines("a\nb", 10);
    assert_eq!(lines, vec!["a", "b"]);
}

#[test]
fn overlong_word_stays_whole() {
    let lines = wrap_lines("abcdefghij xy", 4);
    assert_eq!(lines, vec!["abcdefghij", "xy"]);
}

#[test]
fn empty_text_gives_one_empty_line() {
    let lines = wrap_lines("", 5);
    assert_eq!(lines, vec![""]);
    assert_eq!(wrap_lines("a\n\nb", 5), vec!["a", "", "b"]);
}

#[test]
fn cjk_lines_are_runs_of_max_characters() {
    let lines = wrap_lines("あいうえおかきくけこさ", 4);
    assert_eq!(lines, vec!["あいうえ", "おかきく", "けこさ"]);
    let cols = manga_eroico::layout::split_columns("あいうえおかきくけこさ", 4);
    let joined: Vec<String> = cols.iter().map(|c| c.iter().collect()).collect();
    assert_eq!(lines, joined);
}

#[test]
fn latin_lines_join_back_to_the_text() {
    let text = "the quick brown fox jumps over the lazy dog";
    let lines = wrap_lines(text, 11);
    assert_eq!(lines.join(" "), text);
    for l in &lines {
        assert!(l.chars().count() <= 11 || !l.contains(' '));
    }
    assert_eq!(lines, vec!["the quick", "brown fox", "jumps over", "the lazy", "dog"]);
}

#[test]
fn line_feeds_break_and_latin_breaks_are_forced() {
    let a = wrap_lines("one two three", 7);
    let b = wrap_lines("あいうえお", 2);
    let mut ab = a.clone();
    ab.extend(b.clone());
    assert_eq!(wrap_lines("one two three\nあいうえお", 7).len(), a.len() + wrap_lines("あいうえお", 7).len());
    assert_eq!(wrap_lines("one two\nthree", 7), vec!["one two", "three"]);
    let lines = wrap_lines("the quick brown fox jumps over the lazy dog", 11);
    for w in lines.windows(2) {
        let next_first = w[1].split(' ').next().unwrap();
        assert!(w[0].chars().count() + 1 + next_first.chars().count() > 11);
    }
}

#[test]
fn wrapping_keeps_every_visible_character() {
    let text = "  mixed テキスト with  spaces\nand 日本語の文章 too  ";
    for max in [1usize, 3, 7, 20] {
        let lines = wrap_lines(text, max);
        let kept: String = lines.concat().chars().filter(|c| !c.is_whitespace()).collect();
        let orig: String = text.chars().filter(|c| !c.is_whitespace()).collect();
        assert_eq!(kept, orig, "max {max}");
    }
}
