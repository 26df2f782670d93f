use bigram::{clean_words, cleanse_word, get_regex, parse_text_into_vec};

#[test]
fn test_parse_text_into_vec_with_no_punctuations_and_all_uppercase() {
    let line = "THE QUICK BROWN FOX AND THE QUICK BROWN HARE";
    let v = parse_text_into_vec(line, &get_regex());
    assert!(v.contains(&"quick".to_string()));
    assert!(!v.contains(&"THE".to_string()));
    assert_eq!(v.len(), 9);
}

#[test]
fn test_parse_text_into_vec_with_no_punctuations_and_mixedcase() {
    let line = "THE quICK brOWn FOX AND ThE QuiCK BROWN haRE";
    let v = parse_text_into_vec(line, &get_regex());
    assert!(v.contains(&"quick".to_string()));
    assert!(!v.contains(&"THE".to_string()));
    assert_eq!(v.len(), 9);
}

#[test]
fn test_parse_text_into_vec_with_no_punctuations_and_mixedcase_and_extra_spaces() {
    let line = "THE quICK brOWn             FOX AND      ThE             QuiCK BROWN haRE";
    let v = parse_text_into_vec(line, &get_regex());
    assert!(v.contains(&"quick".to_string()));
    assert!(!v.contains(&"THE".to_string()));
    assert_eq!(v.get(8), Some(&"hare".to_string()));
    assert_eq!(v.len(), 9);
}

#[test]
fn test_parse_text_into_vec_with_punctuations_at_end_and_mixedcase_and_extra_spaces() {
    let line = "THE quICK's brOWn'ss             FOX...??? AND      ThE             QuiCK BROWN haRE'ssssss";
    let v = parse_text_into_vec(line, &get_regex());
    assert!(v.contains(&"quick".to_string()));
    assert!(!v.contains(&"THE".to_string()));
    assert_eq!(v.get(8), Some(&"hare".to_string()));
    assert_eq!(v.len(), 9);
}

#[test]
fn test_parse_text_into_vec_with_punctuations_at_start_and_mixedcase_and_extra_spaces() {
    let line =
        "THE .......quICK brOWn         FOX AND      ThE             QuiCK BROWN \"\"\"haRE";
    let v = parse_text_into_vec(line, &get_regex());
    assert!(v.contains(&"quick".to_string()));
    assert!(!v.contains(&"THE".to_string()));
    assert_eq!(v.get(8), Some(&"hare".to_string()));
    assert_eq!(v.get(1), Some(&"quick".to_string()));
    assert_eq!(v.len(), 9);
}

#[test]
fn test_parse_text_into_vec_with_enclosing_punctuations_and_mixedcase_and_extra_spaces() {
    let line =
        "THE .......quICK!!!!! .....brOWn'ssss         FOX AND      ThE             QuiCK BROWN \"\"\"haRE\"\".....??????";
    let v = parse_text_into_vec(line, &get_regex());
    assert!(v.contains(&"quick".to_string()));
    assert!(!v.contains(&"THE".to_string()));
    assert_eq!(v.get(8), Some(&"hare".to_string()));
    assert_eq!(v.get(1), Some(&"quick".to_string()));
    assert_eq!(v.get(2), Some(&"brown".to_string()));
    assert_eq!(v.len(), 9);
}

#[test]
fn test_parse_text_into_vec_with_enclosing_punctuations_and_mixedcase_and_extra_spaces_and_non_ascii(
) {
    let line =
        "THE ૱﷼₢quICK₱€₴ brOWn🤯🤯🤯         FOX AND      ThE             QuiCK BROWN \"\"\"🥰🥰🥰haRE\"\"..😍😍😍...??????";
    let v = parse_text_into_vec(line, &get_regex());
    assert!(v.contains(&"quick".to_string()));
    assert!(!v.contains(&"THE".to_string()));
    assert_eq!(v.get(8), Some(&"hare".to_string()));
    assert_eq!(v.get(1), Some(&"quick".to_string()));
    assert_eq!(v.get(2), Some(&"brown".to_string()));
    assert_eq!(v.len(), 9);
}

#[test]
fn test_parse_text_into_vec_with_all_punctuations_and_mixedcase_and_extra_spaces_and_non_ascii() {
    let line =
        "THE ૱﷼₢quICK₱€₴ brOWn🤯🤯🤯         FOX AND    ???...;;;;   ThE    ₱€₴૱﷼₢;;../////         QuiCK BROWN \"\"\"🥰🥰🥰haRE\"\"..😍😍😍...??????";
    let v = parse_text_into_vec(line, &get_regex());
    assert!(v.contains(&"quick".to_string()));
    assert!(!v.contains(&"THE".to_string()));
    assert_eq!(v.get(8), Some(&"hare".to_string()));
    assert_eq!(v.get(1), Some(&"quick".to_string()));
    assert_eq!(v.get(2), Some(&"brown".to_string()));
    assert_eq!(v.len(), 9);
}

#[test]
fn test_cleanse_word_with_no_punctuations() {
    let sample_text = "fox";
    assert_eq!(cleanse_word(&sample_text, &get_regex()), Some("fox"));
}

#[test]
fn test_cleanse_word_with_punctuations_at_end() {
    let sample_text = "fox's";
    assert_eq!(cleanse_word(&sample_text, &get_regex()), Some("fox"));
}

#[test]
fn test_cleanse_word_with_punctuations_at_start() {
    let sample_text = "...???...,,,,```fox";
    assert_eq!(cleanse_word(&sample_text, &get_regex()), Some("fox"));
}

#[test]
fn test_cleanse_word_with_punctuations_both_ends() {
    let sample_text = "...???...,,,,```fox...!!!!!";
    assert_eq!(cleanse_word(&sample_text, &get_regex()), Some("fox"));
}

#[test]
fn test_cleanse_word_with_all_punctuations() {
    let sample_text = "...???...,,,,```...!!!!!";
    assert_eq!(cleanse_word(&sample_text, &get_regex()), None);
}

#[test]
fn test_cleanse_word_with_emojis() {
    let sample_text = "...???...,,,,```🥰😍fox...!!!!!";
    assert_eq!(cleanse_word(&sample_text, &get_regex()), Some("fox"));
}

#[test]
fn clean_token_is_kept_as_it_is() {
    let re = get_regex();
    assert_eq!(cleanse_word("abc123", &re), Some("abc123"));
    assert_eq!(cleanse_word("0", &re), Some("0"));
    assert_eq!(cleanse_word("zebra9", &re), Some("zebra9"));
}

#[test]
fn pure_noise_gives_no_token() {
    let re = get_regex();
    assert_eq!(cleanse_word("🥰😍", &re), None);
    assert_eq!(cleanse_word("!", &re), None);
    assert_eq!(cleanse_word("ÀÉ'", &re), None);
    assert_eq!(cleanse_word("FOX", &re), None);
}

#[test]
fn empty_candidate_is_returned_empty() {
    let re = get_regex();
    assert_eq!(cleanse_word("", &re), Some(""));
}

#[test]
fn cleanse_examples() {
    let re = get_regex();
    assert_eq!(cleanse_word("fox's", &re), Some("fox"));
    assert_eq!(cleanse_word("...???...fox", &re), Some("fox"));
    assert_eq!(cleanse_word("...fox...!!!", &re), Some("fox"));
    assert_eq!(cleanse_word("🥰fox!!!", &re), Some("fox"));
}

#[test]
fn cleanse_keeps_only_the_first_word_after_leading_noise() {
    let re = get_regex();
    assert_eq!(cleanse_word("..fox..hare", &re), Some("fox"));
    assert_eq!(cleanse_word("fox..hare", &re), Some("fox"));
    assert_eq!(cleanse_word("é1a", &re), Some("1a"));
}

#[test]
fn cleansing_a_token_again_changes_nothing() {
    let re = get_regex();
    for w in ["...fox!!", "fox's", "🥰x", "ab1"] {
        let t = cleanse_word(w, &re).unwrap();
        assert_eq!(cleanse_word(t, &re), Some(t));
    }
}

#[test]
fn uppercase_line_is_folded_in_order() {
    let line = "THE QUICK BROWN FOX AND THE QUICK BROWN HARE";
    let v = parse_text_into_vec(line, &get_regex());
    let expected: Vec<String> = ["the", "quick", "brown", "fox", "and", "the", "quick", "brown", "hare"]
        .iter()
        .map(|s| s.to_string())
        .collect();
    assert_eq!(v, expected);
    assert!(!v.contains(&"THE".to_string()));
}

#[test]
fn whitespace_of_every_kind_separates_words() {
    let v = parse_text_into_vec("  a\tb\u{3000}c\r\n ", &get_regex());
    assert_eq!(v, vec!["a".to_string(), "b".to_string(), "c".to_string()]);
}

#[test]
fn empty_and_noise_lines_give_no_tokens() {
    let re = get_regex();
    assert!(parse_text_into_vec("", &re).is_empty());
    assert!(parse_text_into_vec("   ", &re).is_empty());
    assert!(parse_text_into_vec("!!! ??? 😍", &re).is_empty());
}

#[test]
fn clean_words_lowercases_and_drops_noise() {
    let re = get_regex();
    let words = vec!["Fox's", "!!!", "HARE"];
    assert_eq!(clean_words(&words, &re), vec!["fox".to_string(), "hare".to_string()]);
}

#[test]
fn lowercasing_leaves_non_ascii_letters() {
    let re = get_regex();
    let words = vec!["ÉCOLE", "ABCé"];
    assert_eq!(clean_words(&words, &re), vec!["cole".to_string(), "abc".to_string()]);
}

#[test]
fn find_reports_byte_offsets_of_the_first_noise_run() {
    let re = get_regex();
    assert_eq!(re.find("ab🥰!c.."), Some((2, 7)));
    assert_eq!(re.find("...x"), Some((0, 3)));
    assert_eq!(re.find("abc 12"), None);
}

#[test]
fn line_break_keeps_the_token_stream() {
    let re = get_regex();
    let whole = parse_text_into_vec("the quick\nbrown fox", &re);
    let mut parts = parse_text_into_vec("the quick", &re);
    parts.extend(parse_text_into_vec("brown fox", &re));
    assert_eq!(whole, parts);
    assert_eq!(whole.len(), 4);
}

#[test]
fn every_token_is_lowercase_ascii_and_non_empty() {
    let re = get_regex();
    for t in parse_text_into_vec("É-x Ab'c ?? 42! \u{a0}Zz\u{2003}q", &re) {
        assert!(!t.is_empty());
        assert!(t.chars().all(|c| c.is_ascii_lowercase() || c.is_ascii_digit()));
    }
}
