use light_river::archive::position_ending_with;

#[test]
fn finds_first_name_with_suffix() {
    let names = vec![
        "data/readme.txt".to_string(),
        "data/bank.csv".to_string(),
        "other/bank.csv".to_string(),
    ];
    assert_eq!(position_ending_with(&names, "bank.csv"), Some(1));
    assert_eq!(position_ending_with(&names, "readme.txt"), Some(0));
    assert_eq!(position_ending_with(&names, "missing.csv"), None);
    assert_eq!(position_ending_with(&names, "data/readme.txt.gz"), None);
    assert_eq!(position_ending_with(&vec![], "bank.csv"), None);
}
