use clinvoice::index::{Index, IndexLineOutcome};

fn strings(v: &[&str]) -> Vec<String> {
    v.iter().map(|s| s.to_string()).collect()
}

#[test]
fn test_index_new_loads_existing_file() {
    let mut index = Index::new();
    assert_eq!(index.load_line("1 2023.01.01 2023.01.02"), IndexLineOutcome::Loaded);
    assert_eq!(index.load_line("2 2023.02.01"), IndexLineOutcome::Loaded);
    assert_eq!(index.find_sequence(&strings(&["2023.01.01", "2023.01.02"])), 1);
    assert_eq!(index.find_sequence(&strings(&["2023.02.01"])), 2);
}

#[test]
fn test_index_find_sequence_new_sequence() {
    let mut index = Index::new();
    let dates = strings(&["2023.03.01"]);
    let sequence = index.find_sequence(&dates);
    assert_eq!(sequence, 1);
}

#[test]
fn test_index_find_sequence_existing_sequence() {
    let mut index = Index::new();
    let dates1 = strings(&["2023.03.01"]);
    let dates2 = strings(&["2023.04.01"]);
    index.add_sequence(1, &dates1);
    index.add_sequence(2, &dates2);
    assert_eq!(index.find_sequence(&dates1), 1);
    assert_eq!(index.find_sequence(&dates2), 2);
}

#[test]
fn test_index_add_sequence_new_entry() {
    let mut index = Index::new();
    let dates = strings(&["2023.05.01"]);
    let sequence = index.add_sequence(10, &dates);
    assert_eq!(sequence, 10);
    assert_eq!(index.find_sequence(&dates), 10);
}

#[test]
fn test_index_add_sequence_replace_existing() {
    let mut index = Index::new();
    let dates1 = strings(&["2023.06.01"]);
    let dates2 = strings(&["2023.06.02"]);
    index.add_sequence(1, &dates1);
    assert_eq!(index.find_sequence(&dates1), 1);
    index.add_sequence(1, &dates2);
    assert_eq!(index.find_sequence(&dates2), 1);
    assert_eq!(index.find_sequence(&dates1), 2);
}

#[test]
fn test_index_with_multiple_dates() {
    let mut index = Index::new();
    let dates = strings(&["2023.07.01", "2023.07.02", "2023.07.03"]);
    let sequence = index.add_sequence(1, &dates);
    assert_eq!(sequence, 1);
    assert_eq!(index.find_sequence(&dates), 1);
}

#[test]
fn test_index_save_and_reload() {
    let mut index = Index::new();
    let dates1 = strings(&["2023.08.01"]);
    let dates2 = strings(&["2023.08.02", "2023.08.03"]);
    index.add_sequence(5, &dates1);
    index.add_sequence(6, &dates2);
    let lines = index.save();

    let mut reloaded_index = Index::new();
    for line in &lines {
        assert_eq!(reloaded_index.load_line(line), IndexLineOutcome::Loaded);
    }
    assert_eq!(reloaded_index.find_sequence(&dates1), 5);
    assert_eq!(reloaded_index.find_sequence(&dates2), 6);
}

#[test]
fn test_index_save_sorted_lines() {
    let mut index = Index::new();
    index.add_sequence(7, &strings(&["2024.02.01"]));
    index.add_sequence(3, &strings(&["2024.01.01", "2024.01.02"]));
    let lines = index.save();
    assert_eq!(lines, vec!["3 2024.01.01 2024.01.02".to_string(), "7 2024.02.01".to_string()]);
}

#[test]
fn test_index_find_sequence_ignores_date_order() {
    let mut index = Index::new();
    let forward = strings(&["2023.09.01", "2023.09.02"]);
    let backward = strings(&["2023.09.02", "2023.09.01"]);
    let first = index.find_sequence(&forward);
    assert_eq!(index.find_sequence(&backward), first);
}

#[test]
fn test_index_find_sequence_twice_is_idempotent() {
    let mut index = Index::new();
    index.add_sequence(4, &strings(&["2023.10.01"]));
    let dates = strings(&["2023.11.01", "2023.11.02"]);
    let n1 = index.find_sequence(&dates);
    let n2 = index.find_sequence(&dates);
    assert_eq!(n1, n2);
    assert_eq!(n1, 5);
    // a different set never collides with it
    let other = index.find_sequence(&strings(&["2023.12.01"]));
    assert_ne!(other, n1);
}

#[test]
fn test_index_load_line_malformed() {
    let mut index = Index::new();
    assert_eq!(index.load_line("noseparator"), IndexLineOutcome::BadShape);
    assert_eq!(index.load_line("x 2023.01.01"), IndexLineOutcome::BadSequenceNumber);
    assert_eq!(index.load_line("-1 2023.01.01"), IndexLineOutcome::BadSequenceNumber);
    // malformed lines change nothing
    assert_eq!(index.find_sequence(&strings(&["2023.01.01"])), 1);
}
