use tc_utils::{sort, Category, Contents, Error, SortStrategy};

fn strings(v: &[&str]) -> Vec<String> {
    v.iter().map(|s| s.to_string()).collect()
}

#[test]
fn date_prefers_two_digit_month_where_it_fits() {
    // "(2021.123)" reads as month 1, day 3; "(2021.1.2)" as month 1, day 2
    let mut v = strings(&["a (2021.123)", "b (2021.1.2)"]);
    sort(&mut v, SortStrategy::Date);
    assert_eq!(v, strings(&["b (2021.1.2)", "a (2021.123)"]));
    // "(2021.12.31)" reads as month 12, day 31
    let mut w = strings(&["x (2021.12.31)", "y (2021.2.1)"]);
    sort(&mut w, SortStrategy::Date);
    assert_eq!(w, strings(&["y (2021.2.1)", "x (2021.12.31)"]));
}

#[test]
fn chapter_needs_the_closing_glyph() {
    let mut v = strings(&["vol 2 第3話", "第1話", "12 no mark"]);
    sort(&mut v, SortStrategy::Chapter);
    assert_eq!(v, strings(&["12 no mark", "第1話", "vol 2 第3話"]));
}

#[test]
fn huge_chapter_numbers_are_capped() {
    let mut v = strings(&["b 第99999999999999999999999話", "a 第99999999999999999999998話", "第5話"]);
    sort(&mut v, SortStrategy::Chapter);
    assert_eq!(
        v,
        strings(&["第5話", "a 第99999999999999999999998話", "b 第99999999999999999999999話"])
    );
}

#[test]
fn ties_fold_ascii_case_and_keep_order() {
    let mut v = strings(&["b", "A", "a", "B"]);
    sort(&mut v, SortStrategy::Auto);
    assert_eq!(v, strings(&["A", "a", "b", "B"]));
}

#[test]
fn sort_of_nothing_is_nothing() {
    let mut v: Vec<String> = Vec::new();
    sort(&mut v, SortStrategy::Date);
    assert!(v.is_empty());
}

#[test]
fn prepare_data_writes_a_timestamped_footer() {
    let c = Contents {
        label: "L".to_string(),
        categories: vec![Category { key: "A".to_string(), entries: strings(&["(2020.1.2) b", "(2019.1.2) a"]) }],
        count: 0,
    };
    let (lines, outcome) = c.prepare_data(SortStrategy::Date);
    assert!(outcome.is_none());
    assert_eq!(lines[..5].to_vec(), strings(&["L", "", "A", "  (2019.1.2) a", "  (2020.1.2) b"]));
    assert_eq!(lines[5], "");
    assert_eq!(lines[6], "");
    let footer = &lines[7];
    assert!(footer.starts_with("/*  info:v1,2,"));
    assert!(footer.ends_with("  */"));
    let stamp = &footer["/*  info:v1,2,".len()..footer.len() - 4];
    assert_eq!(stamp.chars().count(), 19);
    assert_eq!(stamp.chars().nth(10), Some('_'));
    assert_eq!(Contents::from_list_file(&lines).unwrap().count, 2);
}

#[test]
fn rerun_by_name_changes_nothing() {
    let c = Contents {
        label: "Shelf".to_string(),
        categories: vec![
            Category { key: "K".to_string(), entries: strings(&["shot-2", "shot-11", "shot-1"]) },
            Category { key: "<>".to_string(), entries: strings(&["loose"]) },
        ],
        count: 0,
    };
    let (lines, outcome) = c.prepare_data(SortStrategy::Name);
    assert!(outcome.is_none());
    assert_eq!(
        lines[..8].to_vec(),
        strings(&["Shelf", "", "<>", "  loose", "", "K", "  shot-1", "  shot-2"])
    );
    let lines2 = strings(&["C:\\Shelf\\K｜shot-11.pdf"]);
    let manifest = Contents::from_temp_file("m.tmp", &lines2, &vec![false]).unwrap();
    let again = manifest.merge(Contents::from_list_file(&lines));
    let (_, outcome) = again.prepare_data(SortStrategy::Name);
    assert!(matches!(outcome, Some(Error::NoChange)));
}
