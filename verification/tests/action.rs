use beatr::action::{action, Action};

#[test]
fn the_two_lowest_bits_choose_the_kind() {
    assert_eq!(action(0), Action::SourceRead(1));
    assert_eq!(action(1), Action::TargetRead(1));
    assert_eq!(action(2), Action::SourceCopy(1));
    assert_eq!(action(3), Action::TargetCopy(1));
}

#[test]
fn the_other_bits_are_the_length_less_one() {
    assert_eq!(action(4), Action::SourceRead(2));
    assert_eq!(action(17), Action::TargetRead(5));
    assert_eq!(action(26), Action::SourceCopy(7));
    assert_eq!(action(15), Action::TargetCopy(4));
    assert_eq!(action(1023), Action::TargetCopy(256));
}

#[test]
fn the_largest_control_word_has_the_largest_length() {
    assert_eq!(action(u64::MAX), Action::TargetCopy(1 << 62));
    assert_eq!(action(u64::MAX - 3), Action::SourceRead(1 << 62));
}

#[test]
fn no_control_word_has_length_zero() {
    for word in (0..4096u64).chain(u64::MAX - 4096..=u64::MAX) {
        let length = match action(word) {
            Action::SourceRead(n) => n,
            Action::TargetRead(n) => n,
            Action::SourceCopy(n) => n,
            Action::TargetCopy(n) => n,
        };
        assert_eq!(length, (word >> 2) + 1);
        assert!(length >= 1);
    }
}
