use shortener::id::shortcut_generator::create;

fn is_code_char(c: char) -> bool {
    c.is_ascii_digit() || c.is_ascii_uppercase() || c.is_ascii_lowercase()
}

#[test]
fn create_gives_known_codes() {
    assert_eq!(create(0, 6), "7QVUOZ");
    assert_eq!(create(1, 6), "bs6nlS");
    assert_eq!(create(42, 7), "WE8U8z0");
    assert_eq!(create(12345, 10), "T1vZUnbDBA");
    assert_eq!(create(u64::MAX, 8), "soSjCuAa");
}

#[test]
fn create_of_length_zero_is_empty() {
    assert_eq!(create(7, 0), "");
}

#[test]
fn create_is_deterministic() {
    assert_eq!(create(99, 7), create(99, 7));
    assert_ne!(create(99, 7), create(100, 7));
}

#[test]
fn create_has_the_length_asked_for_and_only_digits_and_letters() {
    for id in 0..50u64 {
        let code = create(id, 7);
        assert_eq!(code.len(), 7);
        assert!(code.chars().all(is_code_char));
    }
}

#[test]
fn shorter_code_is_prefix_of_longer() {
    let long = create(31337, 12);
    let short = create(31337, 5);
    assert!(long.starts_with(&short));
}
