use team_graph::table::{feature_columns, find_column};

fn headers() -> Vec<String> {
    ["Season", "Seed", "Full Team Name", "Wins", "Losses", "Points"]
        .iter()
        .map(|s| s.to_string())
        .collect()
}

#[test]
fn column_found_by_header() {
    let h = headers();
    assert_eq!(find_column(&h, &"Full Team Name".to_string()), Some(2));
    assert_eq!(find_column(&h, &"Season".to_string()), Some(0));
    assert_eq!(find_column(&h, &"Rank".to_string()), None);
}

#[test]
fn feature_columns_skip_name_group_and_seed() {
    let h = headers();
    assert_eq!(feature_columns(&h, 2, 0, &"Seed".to_string()), vec![3, 4, 5]);
}

#[test]
fn feature_columns_of_bare_table() {
    let h: Vec<String> = ["Name", "Season"].iter().map(|s| s.to_string()).collect();
    assert!(feature_columns(&h, 0, 1, &"Seed".to_string()).is_empty());
}
