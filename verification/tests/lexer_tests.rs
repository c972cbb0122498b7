use tfidf_index::lexer::{tokenize, Lexer};

fn chars(s: &str) -> Vec<char> {
    s.chars().collect()
}

fn terms(s: &str) -> Vec<String> {
    tokenize(&chars(s))
}

#[test]
fn empty_input_has_no_terms() {
    assert_eq!(terms(""), Vec::<String>::new());
    assert_eq!(terms("  \t\n "), Vec::<String>::new());
}

#[test]
fn digit_run_stops_at_letter() {
    assert_eq!(terms("4GL"), vec!["4".to_string(), "GL".to_string()]);
}

#[test]
fn letter_run_takes_digits() {
    assert_eq!(terms("GL4"), vec!["GL4".to_string()]);
}

#[test]
fn letters_are_upper_cased() {
    assert_eq!(terms("cat Dog cAt"), vec!["CAT", "DOG", "CAT"]);
}

#[test]
fn punctuation_is_one_term_each() {
    assert_eq!(terms("a, b!?"), vec!["A", ",", "B", "!", "?"]);
}

#[test]
fn numbers_and_words_mix() {
    assert_eq!(terms("glVertex3f(1, 22)"), vec!["GLVERTEX3F", "(", "1", ",", "22", ")"]);
}

#[test]
fn non_ascii_letters_keep_their_case() {
    assert_eq!(terms("\u{e9}t\u{e9} x"), vec!["\u{e9}T\u{e9}", "X"]);
}

#[test]
fn unicode_whitespace_separates() {
    assert_eq!(terms("a\u{a0}b\u{2003}c"), vec!["A", "B", "C"]);
}

#[test]
fn lexer_yields_terms_one_by_one() {
    let text = chars("one 2 three");
    let mut lexer = Lexer::new(&text);
    assert_eq!(lexer.next_token(), Some("ONE".to_string()));
    assert_eq!(lexer.next_token(), Some("2".to_string()));
    assert_eq!(lexer.next_token(), Some("THREE".to_string()));
    assert_eq!(lexer.next_token(), None);
    assert_eq!(lexer.next_token(), None);
}

#[test]
fn two_lexers_over_one_text_agree() {
    let text = chars("To be, or not to be: 42 times x1!");
    let first = tokenize(&text);
    let second = tokenize(&text);
    assert_eq!(first, second);
    let mut lexer = Lexer::new(&text);
    let mut third = Vec::new();
    while let Some(term) = lexer.next_token() {
        third.push(term);
    }
    assert_eq!(first, third);
}

fn is_white_space(c: char) -> bool {
    matches!(
        c,
        '\u{9}'..='\u{d}'
            | ' '
            | '\u{85}'
            | '\u{a0}'
            | '\u{1680}'
            | '\u{2000}'..='\u{200a}'
            | '\u{2028}'
            | '\u{2029}'
            | '\u{202f}'
            | '\u{205f}'
            | '\u{3000}'
    )
}

#[test]
fn whitespace_is_the_stated_set_and_nothing_else() {
    for code in 0..=0x10ffffu32 {
        if let Some(c) = char::from_u32(code) {
            let found = tokenize(&[c]);
            if is_white_space(c) {
                assert_eq!(found.len(), 0, "U+{code:04X}");
            } else {
                assert_eq!(found.len(), 1, "U+{code:04X}");
            }
        }
    }
}

#[test]
fn ascii_characters_have_their_stated_classes() {
    for code in 0..=0x7fu8 {
        let c = code as char;
        if is_white_space(c) {
            continue;
        }
        let found = tokenize(&[c, 'x', '7', c]);
        let expected: Vec<String> = if c.is_ascii_digit() {
            vec![c.to_string(), "X7".to_string() + &c.to_string()]
        } else if c.is_ascii_alphabetic() {
            let upper = c.to_ascii_uppercase();
            vec![format!("{upper}X7{upper}")]
        } else {
            vec![c.to_string(), "X7".to_string(), c.to_string()]
        };
        assert_eq!(found, expected, "U+{code:04X}");
    }
}

#[test]
fn only_ascii_lower_case_letters_change() {
    for code in 0..=0x10ffffu32 {
        if let Some(c) = char::from_u32(code) {
            if is_white_space(c) {
                continue;
            }
            let found = tokenize(&[c]);
            let expected = if c.is_ascii_lowercase() {
                ((c as u8) - 32) as char
            } else {
                c
            };
            assert_eq!(found, vec![expected.to_string()], "U+{code:04X}");
        }
    }
}
