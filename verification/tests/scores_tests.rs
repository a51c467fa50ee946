use team_trial_tracker::scores::{combine_scores, ScoreMap, ScoreTable};

fn s(x: &str) -> String {
    x.to_string()
}

#[test]
fn score_map_keeps_last_score_of_a_name() {
    let mut m = ScoreMap::new();
    m.insert(s("Special Week"), 40000);
    m.insert(s("Mayano Top Gun"), 47131);
    m.insert(s("Special Week"), 45000);
    assert_eq!(m.get(&s("Special Week")), Some(45000));
    assert_eq!(m.get(&s("Mayano Top Gun")), Some(47131));
    assert_eq!(m.get(&s("Oguri Cap")), None);
    assert_eq!(m.len(), 2);
}

#[test]
fn table_adds_scores_after_earlier_ones() {
    let mut t = ScoreTable::new();
    t.insert_scores(s("Special Week"), vec![40000]);
    t.push_score(s("Special Week"), 41000);
    t.push_score(s("Oguri Cap"), 39000);
    assert_eq!(t.get(&s("Special Week")), Some(vec![40000, 41000]));
    assert_eq!(t.get(&s("Oguri Cap")), Some(vec![39000]));
    assert_eq!(t.get(&s("Gold Ship")), None);
    assert_eq!(t.len(), 2);
}

#[test]
fn combining_screenshots_appends_in_order() {
    let mut t = ScoreTable::new();
    t.insert_scores(s("Special Week"), vec![1]);
    let mut a = ScoreMap::new();
    a.insert(s("Special Week"), 2);
    a.insert(s("Gold Ship"), 3);
    let mut b = ScoreMap::new();
    b.insert(s("Gold Ship"), 4);
    let t = combine_scores(t, &vec![a, b]);
    assert_eq!(t.get(&s("Special Week")), Some(vec![1, 2]));
    assert_eq!(t.get(&s("Gold Ship")), Some(vec![3, 4]));
    let mut names: Vec<String> = (0..t.len()).map(|i| t.entry(i).0).collect();
    names.sort();
    assert_eq!(names, vec![s("Gold Ship"), s("Special Week")]);
}

#[test]
fn combining_nothing_keeps_table() {
    let mut t = ScoreTable::new();
    t.insert_scores(s("Special Week"), vec![1, 2]);
    t.insert_scores(s("Special Week"), vec![5]);
    let t = combine_scores(t, &Vec::new());
    assert_eq!(t.get(&s("Special Week")), Some(vec![5]));
}
