use txt_analize::letters::{
    any_russian_letter_lower, has_russian_letter_lower, is_russian_letter, is_russian_letter_lower,
};
use txt_analize::tokens::{
    add_line_to_all_words, add_lines_to_all_words, first_disqualifying_index, is_bracket,
    is_closing_mark, keeps_candidate, split_words, strip_brackets, token_from_lowered,
    token_from_word,
};

fn chars(s: &str) -> Vec<char> {
    s.chars().collect()
}

fn token(word: &str) -> Option<String> {
    token_from_word(word)
}

#[test]
fn lowercase_russian_letters() {
    assert!(is_russian_letter_lower('а'));
    assert!(is_russian_letter_lower('я'));
    assert!(is_russian_letter_lower('ж'));
    assert!(!is_russian_letter_lower('ё'));
    assert!(!is_russian_letter_lower('А'));
    assert!(!is_russian_letter_lower('a'));
    assert!(!is_russian_letter_lower('\u{042F}'));
    assert!(!is_russian_letter_lower('\u{0450}'));
}

#[test]
fn russian_letters_of_both_cases() {
    assert!(is_russian_letter('а'));
    assert!(is_russian_letter('я'));
    assert!(is_russian_letter('А'));
    assert!(is_russian_letter('Я'));
    assert!(!is_russian_letter('Ё'));
    assert!(!is_russian_letter('ё'));
    assert!(!is_russian_letter('z'));
    assert!(!is_russian_letter('\u{040F}'));
}

#[test]
fn finds_a_lowercase_russian_letter() {
    assert!(has_russian_letter_lower(&"helloя".to_string()));
    assert!(has_russian_letter_lower(&"привет".to_string()));
    assert!(!has_russian_letter_lower(&"hello".to_string()));
    assert!(!has_russian_letter_lower(&"ПРИВЕТ".to_string()));
    assert!(!has_russian_letter_lower(&"".to_string()));
    assert!(any_russian_letter_lower(&chars("..в..")));
    assert!(!any_russian_letter_lower(&chars("....")));
}

#[test]
fn token_filter_keeps_a_trailing_full_stop() {
    assert_eq!(token("Привет."), Some("привет.".to_string()));
}

#[test]
fn token_filter_keeps_a_hyphen() {
    assert_eq!(token("при-вет"), Some("при-вет".to_string()));
}

#[test]
fn token_filter_rejects_a_mark_in_the_middle() {
    assert_eq!(token("при,вет"), None);
}

#[test]
fn token_filter_rejects_a_word_without_cyrillic() {
    assert_eq!(token("hello"), None);
    assert_eq!(token("123"), None);
    assert_eq!(token("ёёё"), None);
}

#[test]
fn token_filter_rejects_long_words() {
    let long: String = "а".repeat(30);
    assert_eq!(token(&long), None);
    let longer: String = "я".repeat(45);
    assert_eq!(token(&longer), None);
    let mixed = format!("{}{}", "a".repeat(29), "я");
    assert_eq!(mixed.chars().count(), 30);
    assert_eq!(token(&mixed), None);
}

#[test]
fn token_length_is_counted_in_characters() {
    // a Cyrillic letter is one character, however many bytes it takes
    assert_eq!(token(&"а".repeat(15)), Some("а".repeat(15)));
    assert_eq!(token(&"а".repeat(29)), Some("а".repeat(29)));
    assert_eq!(token(&"а".repeat(30)), None);
    let with_stop = format!("{}.", "а".repeat(28));
    assert_eq!(token(&with_stop), Some(with_stop.clone()));
    let with_stop = format!("{}.", "а".repeat(29));
    assert_eq!(token(&with_stop), None);
    let ascii_and_one = format!("{}я", "a".repeat(28));
    assert_eq!(token(&ascii_and_one), Some(ascii_and_one.clone()));
    let ascii_and_one = format!("{}я", "a".repeat(29));
    assert_eq!(token(&ascii_and_one), None);
    let wide = format!("я{}", "京".repeat(28));
    assert_eq!(wide.len(), 86);
    assert_eq!(token(&wide), Some(wide.clone()));
    let mut all_words = Vec::new();
    add_lines_to_all_words(&vec!["а".repeat(15)], &mut all_words);
    assert_eq!(all_words, vec!["а".repeat(15)]);
}

#[test]
fn token_is_lowercase() {
    assert_eq!(token("ПРИВЕТ"), Some("привет".to_string()));
    assert_eq!(token("МоСкВа,"), Some("москва,".to_string()));
}

#[test]
fn brackets_and_quotes_are_taken_out() {
    assert_eq!(token("(привет)"), Some("привет".to_string()));
    assert_eq!(token("«привет»"), Some("привет".to_string()));
    assert_eq!(token("\"привет\"."), Some("привет.".to_string()));
    assert_eq!(token("[при<в>ет]"), Some("привет".to_string()));
    assert_eq!(token("()"), None);
    assert_eq!(strip_brackets(&chars("a(b)«c»\"d\"[e]<f>g")), chars("abcdefg"));
    assert_eq!(strip_brackets(&chars("")), chars(""));
    for c in ['(', ')', '«', '»', '"', '[', ']', '<', '>'] {
        assert!(is_bracket(c));
    }
    for c in ['{', '}', '\'', 'a', '.', '‹'] {
        assert!(!is_bracket(c));
    }
}

#[test]
fn closing_marks() {
    for c in ['.', ',', '?', '!', ':', ';', ')'] {
        assert!(is_closing_mark(c));
    }
    for c in ['-', '(', 'a', '…', '"'] {
        assert!(!is_closing_mark(c));
    }
    for mark in [".", ",", "?", "!", ":", ";"] {
        let word = format!("слово{}", mark);
        assert_eq!(token(&word), Some(word.clone()));
    }
    assert_eq!(token("слово…"), None);
    assert_eq!(token("слово'"), None);
}

#[test]
fn only_one_trailing_mark_is_allowed() {
    assert_eq!(token("привет.."), None);
    assert_eq!(token("привет!?"), None);
    assert_eq!(token("привет1"), None);
    assert_eq!(token("при1вет"), None);
}

#[test]
fn leading_disqualifying_character_passes() {
    // the first disqualifying character stands at place 0, which is also
    // what a clean word reports
    assert_eq!(token("1привет"), Some("1привет".to_string()));
    assert_eq!(token(".привет,,"), Some(".привет,,".to_string()));
    assert_eq!(first_disqualifying_index(&chars("1привет")), 0);
    assert_eq!(first_disqualifying_index(&chars("привет")), 0);
    assert_eq!(first_disqualifying_index(&chars("привет.")), 6);
    assert_eq!(first_disqualifying_index(&chars("при,вет.")), 3);
    assert_eq!(first_disqualifying_index(&chars("при-вет")), 0);
    assert_eq!(first_disqualifying_index(&chars("abc京d")), 0);
    assert_eq!(first_disqualifying_index(&chars("")), 0);
}

#[test]
fn candidate_rule_on_a_given_index() {
    assert!(keeps_candidate(&chars("привет"), 0));
    assert!(keeps_candidate(&chars("привет."), 6));
    assert!(!keeps_candidate(&chars("привет."), 5));
    assert!(!keeps_candidate(&chars("привет."), 3));
    assert!(!keeps_candidate(&chars("приветы"), 6));
    assert!(keeps_candidate(&chars("привет)"), 6));
    assert!(!keeps_candidate(&chars("hello"), 0));
    assert!(!keeps_candidate(&chars(""), 0));
    assert!(keeps_candidate(&chars(&"я".repeat(15)), 0));
    assert!(keeps_candidate(&chars(&"я".repeat(29)), 0));
    assert!(!keeps_candidate(&chars(&"я".repeat(30)), 0));
    assert!(!keeps_candidate(&chars(&format!("{}.", "я".repeat(29))), 29));
}

#[test]
fn token_from_a_lowercase_word() {
    assert_eq!(token_from_lowered("привет"), Some("привет".to_string()));
    assert_eq!(token_from_lowered("(привет!)"), Some("привет!".to_string()));
    assert_eq!(token_from_lowered("при,вет"), None);
    assert_eq!(token_from_lowered(""), None);
    // no lowercasing happens here
    assert_eq!(token_from_lowered("ПРИВЕТ"), None);
}

#[test]
fn words_are_runs_without_white_space() {
    assert_eq!(split_words("  раз два\tтри\u{00A0}четыре \n"), vec!["раз", "два", "три", "четыре"]);
    assert_eq!(split_words(""), Vec::<String>::new());
    assert_eq!(split_words("   "), Vec::<String>::new());
    assert_eq!(split_words("одно"), vec!["одно"]);
    let line = " a  b\u{2003}c\u{3000}d\re ";
    let expected: Vec<String> = line.split_whitespace().map(|w| w.to_string()).collect();
    assert_eq!(split_words(line), expected);
}

#[test]
fn tokens_of_a_line_are_appended_in_order() {
    let mut all_words = vec!["начало".to_string()];
    add_line_to_all_words("Мама мыла раму, hello (и) 42 папу.", &mut all_words);
    assert_eq!(all_words, vec!["начало", "мама", "мыла", "раму,", "и", "папу."]);
}

#[test]
fn tokens_of_lines_follow_each_other() {
    let lines = vec![
        "Первая строка.".to_string(),
        "".to_string(),
        "no tokens here".to_string(),
        "Вторая, «третья»".to_string(),
    ];
    let mut all_words = Vec::new();
    add_lines_to_all_words(&lines, &mut all_words);
    assert_eq!(all_words, vec!["первая", "строка.", "вторая,", "третья"]);
    add_lines_to_all_words(&lines, &mut all_words);
    assert_eq!(all_words.len(), 8);
    assert_eq!(all_words[4], "первая");
    add_lines_to_all_words(&Vec::new(), &mut all_words);
    assert_eq!(all_words.len(), 8);
}

#[test]
fn brackets_do_not_count_towards_the_length() {
    let word = format!("{}я", "(".repeat(29));
    assert_eq!(word.chars().count(), 30);
    assert_eq!(token(&word), Some("я".to_string()));
    let word = format!("«{}»", "а".repeat(14));
    assert_eq!(token(&word), Some("а".repeat(14)));
}
