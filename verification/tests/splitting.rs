use speakit::charset::{char_is_digit, char_is_letter, char_is_upper, spoken_number};
use speakit::{split, split_all, split_symbol, split_symbols, Configuration};

#[test]
fn literal_digits_keep_runs_together() {
    assert_eq!(split_symbol("aTest", true, false, 0), "a Test");
    assert_eq!(split_symbol("ABCDEF", true, false, 0), "A B C D E F");
    assert_eq!(split_symbol("__init__", true, false, 0), "init");
    assert_eq!(
        split_symbol("0_A1B2C3DEF99", true, false, 0),
        "0 A 1 B 2 C 3 D E F 99"
    );
    assert_eq!(split_symbol("abc123def", true, false, 0), "abc 123 def");
    assert_eq!(split_symbol("12_34", true, false, 0), "12 34");
}

#[test]
fn literal_digits_left_out() {
    assert_eq!(split_symbol("0_A1B2C3DEF99", false, false, 0), "A B C D E F");
    assert_eq!(split_symbol("2024", false, false, 0), "");
}

#[test]
fn literal_digits_with_limit() {
    assert_eq!(split_symbol("99module_aTestCase", true, false, 3), "99 module a");
    assert_eq!(split_symbol("99module_aTestCase", true, false, 1), "99");
    assert_eq!(
        split_symbol("99module_aTestCase", true, false, 5),
        "99 module a Test Case"
    );
    assert_eq!(
        split_symbol("99module_aTestCase", true, false, 50),
        "99 module a Test Case"
    );
}

#[test]
fn spoken_digits_are_words_of_their_own() {
    assert_eq!(split_symbol("999", true, true, 0), "nine nine nine");
    assert_eq!(split_symbol("_9a", true, true, 0), "nine a");
    assert_eq!(split_symbol("0_A1B2C3DEF99", true, true, 3), "zero A one");
    assert_eq!(
        split_symbol("0123456789", true, true, 0),
        "zero one two three four five six seven eight nine"
    );
}

#[test]
fn every_digit_has_its_name() {
    assert_eq!(spoken_number('0'), "zero");
    assert_eq!(spoken_number('1'), "one");
    assert_eq!(spoken_number('2'), "two");
    assert_eq!(spoken_number('3'), "three");
    assert_eq!(spoken_number('4'), "four");
    assert_eq!(spoken_number('5'), "five");
    assert_eq!(spoken_number('6'), "six");
    assert_eq!(spoken_number('7'), "seven");
    assert_eq!(spoken_number('8'), "eight");
    assert_eq!(spoken_number('9'), "nine");
}

#[test]
fn character_classes_are_ascii() {
    assert!(char_is_digit('0') && char_is_digit('9'));
    assert!(!char_is_digit('/') && !char_is_digit(':') && !char_is_digit('a'));
    assert!(!char_is_digit('٣') && !char_is_digit('²'));
    assert!(char_is_letter('a') && char_is_letter('z') && char_is_letter('A') && char_is_letter('Z'));
    assert!(!char_is_letter('@') && !char_is_letter('[') && !char_is_letter('`'));
    assert!(!char_is_letter('{') && !char_is_letter('5') && !char_is_letter('é'));
    assert!(char_is_upper('A') && char_is_upper('Z'));
    assert!(!char_is_upper('a') && !char_is_upper('É') && !char_is_upper('1'));
}

#[test]
fn empty_and_separator_only_tokens_give_nothing() {
    assert_eq!(split_symbol("", true, true, 0), "");
    assert_eq!(split_symbol("", false, false, 4), "");
    assert_eq!(split_symbol("___", true, true, 0), "");
    assert_eq!(split_symbol(" .-/ ", true, false, 2), "");
}

#[test]
fn separators_at_the_ends_leave_no_space() {
    assert_eq!(split_symbol("__a__b__", true, true, 0), "a b");
    assert_eq!(split_symbol("a_", true, true, 0), "a");
    assert_eq!(split_symbol("a_9", false, true, 0), "a");
    assert_eq!(split_symbol("a b\tc\nd", true, true, 0), "a b c d");
}

#[test]
fn characters_outside_ascii_separate_words() {
    assert_eq!(split_symbol("naïve", true, true, 0), "na ve");
    assert_eq!(split_symbol("É", true, true, 0), "");
    assert_eq!(split_symbol("a٣b", true, true, 0), "a b");
}

#[test]
fn a_digit_left_out_still_parts_letters() {
    assert_eq!(split_symbol("a9b", false, true, 0), "a b");
    assert_eq!(split_symbol("a9b", false, false, 0), "a b");
    assert_eq!(split_symbol("a_9b", false, true, 0), "a b");
    assert_eq!(split_symbol("a9_b", false, true, 0), "a b");
}

#[test]
fn capitals_begin_words_small_letters_do_not() {
    assert_eq!(split_symbol("HTTPServer", true, true, 0), "H T T P Server");
    assert_eq!(split_symbol("_Abc", true, true, 0), "Abc");
    assert_eq!(split_symbol("abcDef", true, true, 0), "abc Def");
    assert_eq!(split_symbol("x1Y", true, false, 0), "x 1 Y");
    assert_eq!(split_symbol("x1y", true, false, 0), "x 1 y");
}

#[test]
fn the_limit_cuts_between_words_only() {
    assert_eq!(split_symbol("module_aTestCase", true, true, 1), "module");
    assert_eq!(split_symbol("module_aTestCase", true, true, 2), "module a");
    assert_eq!(split_symbol("module_aTestCase", true, true, 4), "module a Test Case");
    assert_eq!(split_symbol("module_", true, true, 1), "module");
    assert_eq!(split_symbol("12ab", true, true, 1), "one");
    assert_eq!(split_symbol("12ab", true, false, 1), "12");
    assert_eq!(split_symbol("12ab", false, false, 1), "ab");
}

#[test]
fn configuration_defaults_and_constructor() {
    let d = Configuration::default();
    assert!(d.include_digits);
    assert!(d.spell_digits);
    assert_eq!(d.max_words, 0);
    let c = Configuration::new(false, true, 7);
    assert_eq!(
        c,
        Configuration {
            include_digits: false,
            spell_digits: true,
            max_words: 7
        }
    );
    assert_eq!(split("a1", &d), "a one");
    assert_eq!(split("a1", &c), "a");
}

#[test]
fn the_entry_points_agree() {
    let inputs = ["0_A1B2C3DEF99", "99module_aTestCase", "", "__init__", "x9y"];
    for input in inputs {
        for numbers in [false, true] {
            for limit in [0usize, 1, 2, 3, 10] {
                let cfg = Configuration::new(numbers, true, limit);
                let expected = split(input, &cfg);
                assert_eq!(split_symbol(input, numbers, true, limit), expected);
                assert_eq!(speakit::_split_symbol(input, numbers, limit), expected);
            }
        }
    }
}

#[test]
fn lists_are_split_element_by_element() {
    let cfg = Configuration::new(true, false, 2);
    let tokens = ["aTest", "", "0_A1B2", "___", "oneTwoThree"];
    let out = split_all(&tokens, &cfg);
    assert_eq!(out, vec!["a Test", "", "0 A", "", "one Two"]);
    assert_eq!(
        split_symbols(vec!["aTest", "", "0_A1B2", "___", "oneTwoThree"], true, false, 2),
        out
    );
    assert_eq!(
        speakit::_split_list(vec!["b2", "a1"], true, 0),
        vec!["b two", "a one"]
    );
    let none: Vec<String> = Vec::new();
    assert_eq!(split_all(&[], &cfg), none);
    assert_eq!(split_symbols(Vec::new(), true, true, 0), none);
}
