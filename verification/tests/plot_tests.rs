use std::str::FromStr;
use team_trial_tracker::plot::{
    base_image_width, box_base_colour, boxplot_left, layout_plots, BoxPlotType, Bounds, UmaData,
};
use team_trial_tracker::scores::ScoreTable;

fn uma(name: &str, scores: &[u32]) -> UmaData {
    UmaData { name: name.to_string(), scores: scores.to_vec() }
}

#[test]
fn layout_orders_by_median_and_skips_empty() {
    let data = vec![uma("A", &[30, 10, 20]), uma("B", &[]), uma("C", &[5]), uma("D", &[20, 20])];
    let l = layout_plots(&data, BoxPlotType::Median).unwrap();
    let labels: Vec<&str> = l.boxplots.iter().map(|b| b.label.as_str()).collect();
    assert_eq!(labels, vec!["C", "A", "D"]);
    assert_eq!(l.bounds.lower, 5 - 1);
    assert_eq!(l.bounds.upper, 30 + 1);
    assert_eq!(l.bounds.delta, 27);
    assert_eq!(l.width, 160 + 42 * 3);
}

#[test]
fn layout_refused_where_drawing_panics() {
    assert!(layout_plots(&vec![], BoxPlotType::Median).is_none());
    assert!(layout_plots(&vec![uma("A", &[])], BoxPlotType::Median).is_none());
    // A margin of 5 does not fit below 0.
    assert!(layout_plots(&vec![uma("A", &[0, 100])], BoxPlotType::Median).is_none());
    // The sum of the scores does not fit.
    assert!(layout_plots(&vec![uma("A", &[u32::MAX, 1])], BoxPlotType::Median).is_none());
}

#[test]
fn bounds_add_five_percent_margin() {
    let b = Bounds::new(40000, 50000);
    assert_eq!((b.lower, b.upper, b.delta), (39500, 50500, 11000));
    let b = Bounds::new(7, 7);
    assert_eq!((b.lower, b.upper, b.delta), (7, 7, 0));
    let b = Bounds::new(100, 139);
    assert_eq!((b.lower, b.upper), (100 - ((39f64 * 0.05) as u32), 139 + 1));
}

#[test]
fn image_geometry() {
    assert_eq!(base_image_width(0), 160);
    assert_eq!(base_image_width(10), 580);
    assert_eq!(boxplot_left(0), 80);
    assert_eq!(boxplot_left(2), 164);
}

#[test]
fn colours_match_palette() {
    for text in ["#ff00bb", "#abc", "fff", "+f+f+f", "#zz0000", "#12345", "", "#", "1+2"] {
        let expected = palette::Srgb::<u8>::from_str(text)
            .ok()
            .map(|c| [c.red, c.green, c.blue, 255]);
        assert_eq!(box_base_colour(Some(text)), expected, "colour {text:?}");
    }
    assert_eq!(box_base_colour(Some("#ff00bb")), Some([255, 0, 187, 255]));
    assert_eq!(box_base_colour(Some("\u{e9}\u{e9}\u{e9}")), None);
    assert_eq!(box_base_colour(None), Some([0, 0, 0, 255]));
}

#[test]
fn box_plot_type_names() {
    assert_eq!(BoxPlotType::Min.to_file_name(), "min");
    assert_eq!(BoxPlotType::Mean.to_file_name(), "mean");
    assert_eq!(BoxPlotType::Median.to_file_name(), "median");
    assert_eq!(BoxPlotType::Max.to_file_name(), "max");
    assert_eq!(BoxPlotType::Min.display_name(), "Minimum");
    assert_eq!(BoxPlotType::Max.display_name(), "Maximum");
}

#[test]
fn uma_data_lists_table_entries() {
    let mut t = ScoreTable::new();
    t.push_score("Gold Ship".to_string(), 3);
    t.push_score("Special Week".to_string(), 1);
    t.push_score("Gold Ship".to_string(), 4);
    let mut data = UmaData::from_scores(&t);
    data.sort_by(|a, b| a.name.cmp(&b.name));
    assert_eq!(data.len(), 2);
    assert_eq!(data[0].name, "Gold Ship");
    assert_eq!(data[0].scores, vec![3, 4]);
    assert_eq!(data[1].scores, vec![1]);
}

#[test]
fn layout_orders_by_each_statistic() {
    let data = vec![uma("A", &[30, 10, 20]), uma("C", &[5]), uma("D", &[20, 20]), uma("E", &[8, 40])];
    let order = |kind: BoxPlotType| -> Vec<String> {
        layout_plots(&data, kind).unwrap().boxplots.iter().map(|b| b.label.clone()).collect()
    };
    assert_eq!(order(BoxPlotType::Min), vec!["C", "E", "A", "D"]);
    assert_eq!(order(BoxPlotType::Mean), vec!["C", "A", "D", "E"]);
    assert_eq!(order(BoxPlotType::Median), vec!["C", "A", "D", "E"]);
    assert_eq!(order(BoxPlotType::Max), vec!["C", "D", "A", "E"]);
}
