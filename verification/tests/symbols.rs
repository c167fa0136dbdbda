use speakit::{_split_list, _split_symbol};

#[test]
fn test_basic() {
    assert_eq!(_split_symbol("a", true, 0), "a");
    assert_eq!(_split_symbol("a_test", true, 0), "a test");
    assert_eq!(_split_symbol("aTest", true, 0), "a Test");
}

#[test]
fn test_caps() {
    assert_eq!(_split_symbol("A", true, 0), "A");
    assert_eq!(_split_symbol("ATestCase", true, 0), "A Test Case");
    assert_eq!(_split_symbol("ABCDEF", true, 0), "A B C D E F");
}

#[test]
fn test_separators() {
    assert_eq!(_split_symbol("A.word_C", true, 0), "A word C");
    assert_eq!(
        _split_symbol("module_aTestCase", true, 0),
        "module a Test Case"
    );
    assert_eq!(_split_symbol("_ABCDEF", true, 0), "A B C D E F");
    assert_eq!(_split_symbol("__init__", true, 0), "init");
}

#[test]
fn test_numbers() {
    assert_eq!(_split_symbol("999", true, 0), "nine nine nine");
    assert_eq!(
        _split_symbol("99module_aTestCase", true, 0),
        "nine nine module a Test Case"
    );
    assert_eq!(
        _split_symbol("0_A1B2C3DEF99", true, 0),
        "zero A one B two C three D E F nine nine"
    );
    assert_eq!(_split_symbol("_9a", true, 0), "nine a");
    assert_eq!(_split_symbol("_a9", true, 0), "a nine");
    assert_eq!(_split_symbol("9aa99", true, 0), "nine aa nine nine");
}

#[test]
fn test_no_numbers() {
    assert_eq!(_split_symbol("999", false, 0), "");
    assert_eq!(
        _split_symbol("99module_aTestCase", false, 0),
        "module a Test Case"
    );
    assert_eq!(_split_symbol("0_A1B2C3DEF99", false, 0), "A B C D E F");
    assert_eq!(_split_symbol("_9a", false, 0), "a");
    assert_eq!(_split_symbol("_a9", false, 0), "a");
    assert_eq!(_split_symbol("9aa99", false, 0), "aa");
}

#[test]
fn test_max_len() {
    assert_eq!(_split_symbol("99module_aTestCase", true, 3), "nine nine module");
    assert_eq!(
        _split_symbol("99module_aTestCase", false, 3),
        "module a Test"
    );
    assert_eq!(_split_symbol("0_A1B2C3DEF99", false, 3), "A B C");
    assert_eq!(_split_symbol("0_A1B2C3DEF99", true, 3), "zero A one");
}

#[test]
fn test_list() {
    assert_eq!(
        _split_list(
            vec![
                "999",
                "99module_aTestCase",
                "0_A1B2C3DEF99",
                "_9a",
                "_a9",
                "9aa99"
            ],
            true,
            0
        ),
        vec![
            "nine nine nine",
            "nine nine module a Test Case",
            "zero A one B two C three D E F nine nine",
            "nine a",
            "a nine",
            "nine aa nine nine"
        ]
    );
}
