use ocrs::{OcrEngine, OcrEngineParams};
use team_trial_tracker::ocr::{ocr_image, OcrFailure};
use team_trial_tracker::ocr::{filter_ocr_lines, line_scores_fit, parse_orc_data, read_line};

fn lines(v: &[&str]) -> Vec<String> {
    v.iter().map(|s| s.to_string()).collect()
}

#[test]
fn names_and_scores_on_separate_lines() {
    let names = lines(&["Special Week", "Mayano Top Gun"]);
    let r = parse_orc_data(
        lines(&["Mayano Top Gun", "47,131 pts i", "Special Week MVP", "45,000 pts"]),
        &names,
    );
    assert_eq!(r.scores.get(&"Mayano Top Gun".to_string()), Some(47131));
    assert_eq!(r.scores.get(&"Special Week".to_string()), Some(45000));
    assert_eq!(r.scores.len(), 2);
    assert!(r.corrections.is_empty());
}

#[test]
fn names_read_before_scores_and_epithets_dropped() {
    let names = lines(&["Special Week", "Mayano Top Gun", "Gold Ship"]);
    let r = parse_orc_data(
        lines(&["[Fiery Heart Forever]", "Mayano Top Gun", "Special Week", "47,131 pts", "45,000 pts"]),
        &names,
    );
    assert_eq!(r.scores.get(&"Mayano Top Gun".to_string()), Some(47131));
    assert_eq!(r.scores.get(&"Special Week".to_string()), Some(45000));
    assert_eq!(r.scores.len(), 2);
}

#[test]
fn misread_name_is_corrected() {
    let names = lines(&["Special Week", "Mayano Top Gun"]);
    let r = parse_orc_data(lines(&["Mayano Top Gan", "47,131 pts"]), &names);
    assert_eq!(r.scores.get(&"Mayano Top Gun".to_string()), Some(47131));
    assert_eq!(r.corrections.len(), 1);
    assert_eq!(r.corrections[0].ocr_name, "Mayano Top Gan");
    assert_eq!(r.corrections[0].corrected_name, "Mayano Top Gun");
    assert_eq!(r.corrections[0].distance, 1);
}

#[test]
fn no_character_names_gives_default_name() {
    let r = parse_orc_data(lines(&["Some Name", "1234"]), &Vec::new());
    assert_eq!(r.scores.get(&"Mambo".to_string()), Some(1234));
    assert_eq!(r.corrections[0].corrected_name, "Mambo");
    assert_eq!(r.corrections[0].distance, 1000);
}

#[test]
fn more_names_than_scores_keeps_closest() {
    let names = lines(&["Special Week", "Gold Ship"]);
    let r = parse_orc_data(lines(&["Gold Shop", "Special Week", "40,000"]), &names);
    assert_eq!(r.scores.get(&"Special Week".to_string()), Some(40000));
    assert_eq!(r.scores.len(), 1);
}

#[test]
fn score_and_name_on_one_line() {
    let names = lines(&["Gold Ship"]);
    let (text, digits) = read_line(&"Gold Ship 41,234 pts".to_string());
    assert_eq!(text, "Gold Ship");
    assert_eq!(digits.iter().collect::<String>(), "41234");
    let r = parse_orc_data(lines(&["Gold Ship 41,234 pts"]), &names);
    assert_eq!(r.scores.get(&"Gold Ship".to_string()), Some(41234));
}

#[test]
fn short_digit_runs_are_no_scores() {
    let (text, digits) = read_line(&"Rank 123 x".to_string());
    assert_eq!(text, "Rank  x");
    assert_eq!(digits.len(), 3);
    let r = parse_orc_data(lines(&["Gold Ship", "123"]), &lines(&["Gold Ship"]));
    assert_eq!(r.scores.len(), 0);
}

#[test]
fn oversized_scores_are_detected() {
    assert!(line_scores_fit(&lines(&["4294967295 pts"])));
    assert!(!line_scores_fit(&lines(&["4294967296 pts"])));
    assert!(line_scores_fit(&lines(&["123"])));
}

#[test]
fn short_lines_are_dropped() {
    let kept = filter_ocr_lines(lines(&["ab", "abc", "\u{e9}", "\u{e9}a", ""]));
    assert_eq!(kept, lines(&["abc", "\u{e9}a"]));
}

fn engine_without_models() -> OcrEngine {
    OcrEngine::new(OcrEngineParams::default()).unwrap()
}

#[test]
fn pixels_that_do_not_fit_the_size_are_refused() {
    let engine = engine_without_models();
    assert_eq!(ocr_image(&engine, &[0u8; 5], 2, 2), Err(OcrFailure::ImageSource));
    assert_eq!(ocr_image(&engine, &[0u8; 8], 2, 2), Err(OcrFailure::ImageSource));
    assert_eq!(ocr_image(&engine, &[], 0, 0), Err(OcrFailure::ImageSource));
}

#[test]
fn fitting_pixels_reach_word_detection() {
    let engine = engine_without_models();
    for len in [4usize, 12, 16] {
        let bytes = vec![255u8; len];
        assert_eq!(ocr_image(&engine, &bytes, 2, 2), Err(OcrFailure::DetectWords));
    }
}
