use receipt::text::{
    any_punctuation, chars_of, control, decimal_of, fold, is_blank, join, lines_of, punctuation, repeat, same,
    same_but_for_case, split_on, string_of, trim, trim_end_of, trim_start_of, white_space, Class,
};
use receipt::wrap::wrap;

fn chars(s: &str) -> Vec<char> {
    s.chars().collect()
}

fn strings(pieces: Vec<Vec<char>>) -> Vec<String> {
    pieces.into_iter().map(|p| p.into_iter().collect()).collect()
}

#[test]
fn classes_of_characters_are_those_of_the_standard_library() {
    for c in '\0'..=char::MAX {
        assert_eq!(white_space(c), c.is_whitespace());
        assert_eq!(control(c), c.is_control());
        assert_eq!(punctuation(c), c.is_ascii_punctuation());
        assert_eq!(fold(c), c.to_ascii_lowercase() as u32);
    }
}

#[test]
fn punctuation_beyond_ascii_is_neither_word_nor_space() {
    let mut count = 0;
    for c in '\0'..=char::MAX {
        if c.is_ascii() {
            assert_eq!(any_punctuation(c), punctuation(c));
        } else if any_punctuation(c) {
            assert!(!c.is_alphanumeric() && !c.is_whitespace() && !c.is_control(), "{c:?}");
            count += 1;
        }
    }
    assert_eq!(count, 837);
    // One of each category: connector, dash, open, close, initial, final, other.
    for c in ['\u{203f}', '\u{2014}', '\u{300c}', '\u{300d}', '\u{201c}', '\u{2019}', '\u{2026}'] {
        assert!(any_punctuation(c), "{c:?}");
    }
    for c in ['\u{20ac}', '\u{2212}', '\u{a9}', '\u{2550}', '\u{b4}', '\u{2044}', '\u{e9}'] {
        assert!(!any_punctuation(c), "{c:?}");
    }
}

#[test]
fn strings_and_their_characters_go_back_and_forth() {
    assert_eq!(chars_of("a\u{2550}b"), vec!['a', '\u{2550}', 'b']);
    assert_eq!(string_of(&['x', '\n', '\u{1f5a8}']), "x\n\u{1f5a8}");
    assert_eq!(repeat('\u{2550}', 3), "\u{2550}\u{2550}\u{2550}");
    assert_eq!(repeat('x', 0), "");
    assert!(same("abc", "abc"));
    assert!(!same("abc", "abd"));
    assert!(!same("abc", "ab"));
    assert!(same_but_for_case(&chars("PrInT"), &chars("print")));
    assert!(!same_but_for_case(&chars("\u{c9}"), &chars("\u{e9}")));
    assert!(!same_but_for_case(&chars("a"), &chars("ab")));
}

#[test]
fn trimming_takes_the_class_off_the_ends() {
    for s in ["", " ", "a", " a b ", "\t\u{3000}x\u{85}", "\n\n", "x\u{200b} "] {
        assert_eq!(trim(s), s.trim());
        assert_eq!(is_blank(s), s.trim().is_empty());
    }
    assert_eq!(trim_start_of(&chars(" ,.a, "), Class::SpaceOrPunctuation), &chars("a, ")[..]);
    assert_eq!(trim_end_of(&chars("a \n\n"), Class::Newline), &chars("a ")[..]);
    assert_eq!(trim_end_of(&chars("\n\n"), Class::Newline), &[] as &[char]);
}

#[test]
fn splitting_and_joining_undo_each_other() {
    for s in ["", ",", "a", "a,b", ",a,,b,"] {
        let pieces = strings(split_on(&chars(s), ','));
        assert_eq!(pieces, s.split(',').map(String::from).collect::<Vec<_>>());
        assert_eq!(join(&pieces, ","), s);
    }
    assert_eq!(join(&[], "; "), "");
    assert_eq!(join(&["a".to_string(), "b".to_string()], "; "), "a; b");
}

#[test]
fn lines_end_as_in_the_standard_library() {
    for s in ["", "\n", "a", "a\n", "a\r\nb", "a\r", "a\r\r\n\n", "\r\n\r\nb\r", "a\nb\n\n"] {
        let wanted: Vec<String> = s.lines().map(String::from).collect();
        assert_eq!(strings(lines_of(&chars(s))), wanted, "{s:?}");
    }
}

#[test]
fn numbers_read_as_in_the_standard_library() {
    for n in [0, 1, 9, 10, 600, 1_000_000, u64::MAX as u128, u128::MAX] {
        assert_eq!(decimal_of(n), n.to_string());
    }
}

#[test]
fn a_line_that_fits_is_left_as_it_is() {
    assert_eq!(wrap("  two  spaces ", 20), vec!["  two  spaces "]);
    assert_eq!(wrap("", 5), vec![""]);
    assert_eq!(wrap("", 0), vec![""]);
    assert_eq!(wrap("exact", 5), vec!["exact"]);
}

#[test]
fn words_wrap_at_the_width() {
    assert_eq!(wrap("the quick brown fox", 10), vec!["the quick", "brown fox"]);
    assert_eq!(wrap("the quick brown fox", 9), vec!["the quick", "brown fox"]);
    assert_eq!(wrap("the quick brown fox", 5), vec!["the", "quick", "brown", "fox"]);
    // A run of spaces counts as empty words between its spaces.
    assert_eq!(wrap("a  b  c", 3), vec!["a ", "b ", "c"]);
    assert_eq!(wrap(" leading", 7), vec!["leading"]);
    assert_eq!(wrap("trailing ", 8), vec!["trailing"]);
}

#[test]
fn over_long_words_are_cut_on_character_boundaries() {
    assert_eq!(wrap("abcdefgh", 3), vec!["abc", "def", "gh"]);
    assert_eq!(wrap("x abcdefg y", 3), vec!["x", "abc", "def", "g y"]);
    assert_eq!(wrap("\u{e9}\u{e9}\u{e9}\u{e9}\u{e9}", 2), vec!["\u{e9}\u{e9}", "\u{e9}\u{e9}", "\u{e9}"]);
    assert_eq!(wrap("abcdef", 3), vec!["abc", "def"]);
    assert_eq!(wrap("      ", 3), Vec::<String>::new());
    assert_eq!(wrap("   ", 0), Vec::<String>::new());
}

#[test]
fn a_word_that_fits_is_never_broken() {
    let text = "a bb ccc dddd  eeeee ffffffff ggg";
    for width in 1..12 {
        let lines = wrap(text, width);
        for word in text.split(' ').filter(|w| (1..=width).contains(&w.len())) {
            let whole = |line: &String| line.split(' ').any(|piece| piece == word);
            assert!(lines.iter().any(whole), "{word} at {width}");
        }
    }
}

#[test]
fn wrapping_keeps_every_character_and_the_width() {
    let text = "It prints what people send it, one roll of paper at a time; \
                supercalifragilisticexpialidocious words are cut.";
    for width in 1..60 {
        let lines = wrap(text, width);
        assert!(lines.iter().all(|l| l.chars().count() <= width));
        let ink: String = lines.concat().chars().filter(|c| *c != ' ').collect();
        assert_eq!(ink, text.replace(' ', ""));
    }
}
