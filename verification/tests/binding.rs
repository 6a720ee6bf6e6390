use shufti_matcher::binding::select_set;
use shufti_matcher::binding::BindingError;
use shufti_matcher::binding::BindingOption;

#[test]
fn single_set_option_names_the_set() {
    let lists = vec![vec![BindingOption::Needles(b"abc".to_vec())]];
    assert_eq!(select_set(&lists), Ok(&b"abc".to_vec()));
}

#[test]
fn last_set_of_the_deciding_list_wins() {
    let lists = vec![
        vec![],
        vec![BindingOption::Needles(b"abc".to_vec()), BindingOption::Needles(b"xyz".to_vec())],
        vec![BindingOption::Needles(b"later".to_vec())],
    ];
    assert_eq!(select_set(&lists), Ok(&b"xyz".to_vec()));
}

#[test]
fn no_option_means_missing_set() {
    assert_eq!(select_set(&vec![]), Err(BindingError::MissingSet));
    assert_eq!(select_set(&vec![vec![], vec![]]), Err(BindingError::MissingSet));
}

#[test]
fn unknown_option_is_refused() {
    let lists = vec![vec![BindingOption::Needles(b"abc".to_vec()), BindingOption::Unknown]];
    assert_eq!(select_set(&lists), Err(BindingError::UnknownOption));
    let lists = vec![vec![BindingOption::Unknown, BindingOption::NotText]];
    assert_eq!(select_set(&lists), Err(BindingError::UnknownOption));
}

#[test]
fn set_without_string_literal_is_refused() {
    let lists = vec![vec![], vec![BindingOption::NotText, BindingOption::Unknown]];
    assert_eq!(select_set(&lists), Err(BindingError::ExpectedText));
}

#[test]
fn lists_after_the_deciding_one_are_not_read() {
    let lists = vec![vec![BindingOption::Needles(b"\t\r\n".to_vec())], vec![BindingOption::Unknown]];
    assert_eq!(select_set(&lists), Ok(&b"\t\r\n".to_vec()));
}
