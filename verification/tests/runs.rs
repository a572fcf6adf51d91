use monster_solitaire::utils::RunsTrait;

#[test]
fn runs_group_equal_neighbours() {
    let mut runs = vec![true, true, false, true].runs();
    assert_eq!(runs.next(), Some((true, 2)));
    assert_eq!(runs.next(), Some((false, 1)));
    assert_eq!(runs.next(), Some((true, 1)));
    assert_eq!(runs.next(), None);
    assert_eq!(runs.next(), None);
}

#[test]
fn runs_of_nothing() {
    let mut runs = Vec::<bool>::new().runs();
    assert_eq!(runs.next(), None);
}

#[test]
fn runs_expand_back_to_the_flags() {
    let flags = vec![false, false, false, true, false, true, true, true, true, false];
    let mut runs = flags.clone().runs();
    let mut expanded = Vec::new();
    let mut last: Option<bool> = None;
    while let Some((v, n)) = runs.next() {
        assert!(n >= 1);
        assert_ne!(Some(v), last);
        last = Some(v);
        expanded.extend(std::iter::repeat(v).take(n));
    }
    assert_eq!(expanded, flags);
}

#[test]
fn runs_group_any_items_with_equality() {
    let mut runs = vec![3u8, 3, 3, 7, 3, 9, 9].runs();
    assert_eq!(runs.next(), Some((3, 3)));
    assert_eq!(runs.next(), Some((7, 1)));
    assert_eq!(runs.next(), Some((3, 1)));
    assert_eq!(runs.next(), Some((9, 2)));
    assert_eq!(runs.next(), None);
}

#[test]
fn runs_of_owned_items_hand_out_the_first_of_each_run() {
    let words: Vec<String> = ["ace", "ace", "king", "ace"].iter().map(|w| w.to_string()).collect();
    let mut runs = words.runs();
    assert_eq!(runs.next(), Some(("ace".to_string(), 2)));
    assert_eq!(runs.next(), Some(("king".to_string(), 1)));
    assert_eq!(runs.next(), Some(("ace".to_string(), 1)));
    assert_eq!(runs.next(), None);
}
