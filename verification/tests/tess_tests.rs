use team_trial_tracker::scores::ScoreTable;
use team_trial_tracker::tess::{add_line, name_and_score, parse_orc_data, TessParseError};

fn names(v: &[&str]) -> Vec<String> {
    v.iter().map(|s| s.to_string()).collect()
}

#[test]
fn captured_words_are_filtered_and_joined() {
    let r = name_and_score("Special Week", "45,000", &names(&["Special", "Week", "Gold"]));
    assert_eq!(r, Some(("Special Week".to_string(), 45000)));
    let r = name_and_score("The Special Week", "45000", &names(&["Special", "Week"]));
    assert_eq!(r, Some(("Special Week".to_string(), 45000)));
    assert_eq!(name_and_score("Gold", "4a", &names(&["Gold"])), None);
}

#[test]
fn lines_add_scores_to_table() {
    let reg = r"^(.+?)\s+([\d,]+)\s*pts";
    let mut table = ScoreTable::new();
    table.insert_scores("Special Week".to_string(), vec![1]);
    let text = "Special Week 45,000 pts\nnoise\nGold Ship 39,000 pts\r\n".to_string();
    let r = parse_orc_data(text, &names(&["Special", "Week", "Gold", "Ship"]), reg, &mut table);
    assert!(r.is_ok());
    assert_eq!(table.get(&"Special Week".to_string()), Some(vec![1, 45000]));
    assert_eq!(table.get(&"Gold Ship".to_string()), Some(vec![39000]));
}

#[test]
fn missing_group_is_an_error() {
    let mut table = ScoreTable::new();
    let r = parse_orc_data("123".to_string(), &names(&[]), r"^(x)?(\d+)$", &mut table);
    assert_eq!(r, Err(TessParseError::MissingCaptureGroup));
}

#[test]
fn reading_stops_at_the_first_error() {
    let mut table = ScoreTable::new();
    let text = "Gold 1,000\nGold\nGold 2,000".to_string();
    let r = parse_orc_data(text, &names(&["Gold"]), r"^(\w+)(?: ([\d,]+))?$", &mut table);
    assert_eq!(r, Err(TessParseError::MissingCaptureGroup));
    assert_eq!(table.get(&"Gold".to_string()), Some(vec![1000]));
}

#[test]
fn invalid_pattern_is_an_error() {
    let mut table = ScoreTable::new();
    let r = parse_orc_data("Gold 1000".to_string(), &names(&["Gold"]), "(", &mut table);
    assert_eq!(r, Err(TessParseError::InvalidPattern));
    let r = parse_orc_data(String::new(), &names(&["Gold"]), "(", &mut table);
    assert_eq!(r, Ok(()));
    assert_eq!(table.len(), 0);
}

#[test]
fn one_line_groups_are_applied() {
    let mut table = ScoreTable::new();
    let g = Some(Some((Some("Gold Ship".to_string()), Some("3,100".to_string()))));
    assert_eq!(add_line(g, &names(&["Gold", "Ship"]), &mut table), Ok(()));
    assert_eq!(table.get(&"Gold Ship".to_string()), Some(vec![3100]));
    assert_eq!(add_line(Some(None), &names(&[]), &mut table), Ok(()));
    assert_eq!(add_line(None, &names(&[]), &mut table), Err(TessParseError::InvalidPattern));
    let g = Some(Some((None, Some("1".to_string()))));
    assert_eq!(add_line(g, &names(&[]), &mut table), Err(TessParseError::MissingCaptureGroup));
    let g = Some(Some((Some("Gold".to_string()), Some("x".to_string()))));
    assert_eq!(add_line(g, &names(&["Gold"]), &mut table), Ok(()));
    assert_eq!(table.len(), 1);
}
