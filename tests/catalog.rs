use tc_utils::{display_text, sort, Category, Contents, Error, Output, SortStrategy};

fn strings(v: &[&str]) -> Vec<String> {
    v.iter().map(|s| s.to_string()).collect()
}

fn keys_and_entries(c: &Contents) -> Vec<(String, Vec<String>)> {
    c.categories
        .iter()
        .map(|c| (c.key.clone(), c.entries.clone()))
        .collect()
}

fn manifest(lines: &[&str]) -> Contents {
    let lines = strings(lines);
    let dirs = vec![false; lines.len()];
    Contents::from_temp_file("C:\\Temp\\CMD1234.tmp", &lines, &dirs).unwrap()
}

#[test]
fn end_to_end_example() {
    let m = manifest(&["C:\\Lib\\MagA｜Sub1.pdf", "C:\\Lib\\MagA｜Sub2.pdf"]);
    assert_eq!(m.label, "Lib");
    let merged = m.merge(None);
    assert_eq!(
        keys_and_entries(&merged),
        vec![("MagA".to_string(), strings(&["Sub1", "Sub2"]))]
    );
    assert_eq!(merged.count, 0);
    let (lines, outcome) = merged.render("2024-01-02_03:04:05");
    assert!(outcome.is_none());
    assert_eq!(
        lines,
        strings(&[
            "Lib",
            "",
            "MagA",
            "  Sub1",
            "  Sub2",
            "",
            "",
            "/*  info:v1,2,2024-01-02_03:04:05  */"
        ])
    );
    let reread = Contents::from_list_file(&lines).unwrap();
    assert_eq!(reread.count, 2);
}

#[test]
fn rerun_with_nothing_new_changes_nothing() {
    let first = manifest(&["C:\\Lib\\MagA｜Sub1.pdf", "C:\\Lib\\MagA｜Sub2.pdf", "C:\\Lib\\Loose.pdf"]);
    let (lines, outcome) = first.merge(None).render("t1");
    assert!(outcome.is_none());
    let existing = Contents::from_list_file(&lines);
    let second = manifest(&["C:\\Lib\\MagA｜Sub2.pdf"]);
    let (again, outcome) = second.merge(existing).render("t2");
    assert!(matches!(outcome, Some(Error::NoChange)));
    assert_eq!(again, lines[..lines.len() - 3].to_vec());
}

#[test]
fn footer_round_trip() {
    let c = Contents {
        label: "Shelf".to_string(),
        categories: vec![
            Category { key: "B".to_string(), entries: strings(&["b1", "b2"]) },
            Category { key: "A".to_string(), entries: strings(&["a1"]) },
        ],
        count: 7,
    };
    let (lines, outcome) = c.render("2020-05-06_07:08:09");
    assert!(outcome.is_none());
    let back = Contents::from_list_file(&lines).unwrap();
    assert_eq!(back.label, "Shelf");
    assert_eq!(back.count, 3);
    assert_eq!(
        keys_and_entries(&back),
        vec![
            ("A".to_string(), strings(&["a1"])),
            ("B".to_string(), strings(&["b1", "b2"]))
        ]
    );
}

#[test]
fn shared_entry_round_trip_keeps_keys() {
    let c = Contents {
        label: "L".to_string(),
        categories: vec![
            Category { key: "B".to_string(), entries: strings(&["x", "y"]) },
            Category { key: "A".to_string(), entries: strings(&["x"]) },
        ],
        count: 0,
    };
    let (lines, outcome) = c.render("t");
    assert!(outcome.is_none());
    let back = Contents::from_list_file(&lines).unwrap();
    assert_eq!(back.count, 2);
    assert_eq!(
        keys_and_entries(&back),
        vec![("A".to_string(), strings(&["x"])), ("B".to_string(), strings(&["y"]))]
    );
}

#[test]
fn stray_key_becomes_entry_of_sentinel() {
    let lines = strings(&["Lib", "Lonely", "Busy", "  one", "  two"]);
    let c = Contents::from_list_file(&lines).unwrap();
    assert_eq!(
        keys_and_entries(&c),
        vec![
            ("Busy".to_string(), strings(&["one", "two"])),
            ("<>".to_string(), strings(&["Lonely"]))
        ]
    );
    assert_eq!(c.count, 0);
}

#[test]
fn stray_key_before_blank_line_becomes_entry() {
    let lines = strings(&["Lib", "Lonely", "", "\t", "Busy", "  one"]);
    let c = Contents::from_list_file(&lines).unwrap();
    assert_eq!(
        keys_and_entries(&c),
        vec![("Busy".to_string(), strings(&["one"])), ("<>".to_string(), strings(&["Lonely"]))]
    );
}

#[test]
fn legacy_catalog_without_keys() {
    let lines = strings(&["Lib", "first", "second", "", "/*  info:v1,2,x  */"]);
    let c = Contents::from_list_file(&lines).unwrap();
    assert_eq!(keys_and_entries(&c), vec![("<>".to_string(), strings(&["first", "second"]))]);
    assert_eq!(c.count, 2);
}

#[test]
fn catalog_parse_skips_and_dedups() {
    let lines = strings(&[
        "Lib",
        "Lib",
        "A",
        "  x",
        "\tx",
        "   ",
        "  see list.txt",
        "  y",
        "A",
        "  z",
    ]);
    let c = Contents::from_list_file(&lines).unwrap();
    assert_eq!(
        keys_and_entries(&c),
        vec![("A".to_string(), strings(&["x", "see list.txt", "y", "z"]))]
    );
}

#[test]
fn indented_lines_are_entries_even_naming_the_catalog_file() {
    let lines = strings(&["L", "K", "  list.txt", "  a", "list.txt", "L"]);
    let c = Contents::from_list_file(&lines).unwrap();
    assert_eq!(keys_and_entries(&c), vec![("K".to_string(), strings(&["list.txt", "a"]))]);
}

#[test]
fn write_decision_and_manifest_path() {
    assert!(tc_utils::should_write(&None, false));
    assert!(!tc_utils::should_write(&None, true));
    assert!(!tc_utils::should_write(&Some(Error::NoChange), false));
    assert!(Contents::is_manifest_path("C:\\Temp\\CMD12.tmp"));
    assert!(!Contents::is_manifest_path("C:\\Temp\\list.txt"));
}

#[test]
fn empty_catalog_file_is_absent() {
    assert!(Contents::from_list_file(&Vec::new()).is_none());
}

#[test]
fn footer_count_needs_format_tag_and_number() {
    let read = |footer: &str| {
        Contents::from_list_file(&strings(&["L", "A", "  a", footer])).unwrap().count
    };
    assert_eq!(read("/*  info:v1,12,2024-01-01_00:00:00  */"), 12);
    assert_eq!(read("  info:v1:5:later"), 5);
    assert_eq!(read("/*  info:v2,12,x  */"), 0);
    assert_eq!(read("/*  info:v1,twelve,x  */"), 0);
    assert_eq!(read("/* nothing */"), 0);
    assert_eq!(read("/*  info:v1,99999999999999999999999,x  */"), 0);
}

#[test]
fn lone_sentinel_has_no_key_line() {
    let m = manifest(&["C:\\Lib\\one.pdf", "C:\\Lib\\two.pdf"]);
    let (lines, _) = m.merge(None).render("t");
    assert_eq!(lines[..3].to_vec(), strings(&["Lib", "  one", "  two"]));
    let back = Contents::from_list_file(&lines).unwrap();
    assert_eq!(keys_and_entries(&back), vec![("<>".to_string(), strings(&["one", "two"]))]);
}

#[test]
fn render_leaves_out_repeated_lines() {
    let c = Contents {
        label: "L".to_string(),
        categories: vec![
            Category { key: "A".to_string(), entries: strings(&["x", "x", "y"]) },
            Category { key: "B".to_string(), entries: strings(&["x"]) },
        ],
        count: 0,
    };
    let (lines, outcome) = c.render("t");
    assert!(outcome.is_none());
    assert_eq!(
        lines,
        strings(&["L", "", "A", "  x", "  y", "", "B", "", "", "/*  info:v1,2,t  */"])
    );
}

#[test]
fn merge_keeps_every_entry() {
    let existing = Contents::from_list_file(&strings(&["Old", "A", "  a1", "C", "  c1"]));
    let m = manifest(&["C:\\New\\A｜a2.pdf", "C:\\New\\A｜a1.pdf", "C:\\New\\B｜b1.pdf"]);
    let merged = m.merge(existing);
    assert_eq!(merged.label, "New");
    assert_eq!(
        keys_and_entries(&merged),
        vec![
            ("A".to_string(), strings(&["a1", "a2"])),
            ("C".to_string(), strings(&["c1"])),
            ("B".to_string(), strings(&["b1"]))
        ]
    );
}

#[test]
fn manifest_errors() {
    let lines = strings(&["C:\\Lib\\a.pdf"]);
    let dirs = vec![false];
    assert!(matches!(
        Contents::from_temp_file("C:\\list.txt", &lines, &dirs),
        Err(Error::NotFound)
    ));
    assert!(matches!(
        Contents::from_temp_file("a.tmp", &Vec::new(), &Vec::new()),
        Err(Error::UnexpectedEof)
    ));
    assert!(matches!(
        Contents::from_temp_file("a.tmp", &strings(&["a.pdf"]), &dirs),
        Err(Error::Other(_))
    ));
}

#[test]
fn manifest_names_and_subtitles() {
    let lines = strings(&[
        "C:\\Lib\\MagA｜Lib Sub1.pdf",
        "C:\\Lib\\MagB｜x｜  Sub2.tar.gz",
        "C:\\Lib\\Folder.d",
        "C:\\Lib\\list.txt",
        "C:\\Lib\\.hidden",
        "C:\\Lib\\MagA｜Lib Sub1.pdf",
    ]);
    let dirs = vec![false, false, true, false, false, false];
    let c = Contents::from_temp_file("C:\\T\\x.tmp", &lines, &dirs).unwrap();
    assert_eq!(
        keys_and_entries(&c),
        vec![
            ("MagA".to_string(), strings(&["Sub1", "Sub1"])),
            ("MagB".to_string(), strings(&["Sub2.tar"])),
            ("<>".to_string(), strings(&["Folder.d", ".hidden"]))
        ]
    );
}

#[test]
fn sort_by_date() {
    let mut v = strings(&["ch (2021.5.3)", "ch (2020.12.1)"]);
    sort(&mut v, SortStrategy::Date);
    assert_eq!(v, strings(&["ch (2020.12.1)", "ch (2021.5.3)"]));
    let mut w = strings(&["ch (2021.5.3)", "ch (2020.12.1)"]);
    sort(&mut w, SortStrategy::Date);
    assert_eq!(v, w);
}

#[test]
fn sort_by_date_ties_and_missing() {
    let mut v = strings(&["b", "(2020-1-2)x", "A", "(1999/12/31)"]);
    sort(&mut v, SortStrategy::Date);
    assert_eq!(v, strings(&["A", "b", "(1999/12/31)", "(2020-1-2)x"]));
}

#[test]
fn sort_by_chapter_is_the_default() {
    let mut v = strings(&["第10話 end", "第2話", "intro", "3話"]);
    let mut w = v.clone();
    sort(&mut v, SortStrategy::Chapter);
    sort(&mut w, SortStrategy::default());
    assert_eq!(v, strings(&["intro", "第2話", "3話", "第10話 end"]));
    assert_eq!(v, w);
}

#[test]
fn sort_by_name() {
    let mut v = strings(&["shot-2", "shot-1", "shot-11"]);
    sort(&mut v, SortStrategy::Name);
    assert_eq!(v, strings(&["shot-1", "shot-2", "shot-11"]));
}

#[test]
fn strategy_names() {
    assert_eq!(SortStrategy::from_name("name"), SortStrategy::Name);
    assert_eq!(SortStrategy::from_name("date"), SortStrategy::Date);
    assert_eq!(SortStrategy::from_name("chapter"), SortStrategy::Chapter);
    assert_eq!(SortStrategy::from_name("none"), SortStrategy::Auto);
    assert_eq!(SortStrategy::from_name("Name"), SortStrategy::Auto);
}

#[test]
fn prepare_data_sorts_then_renders() {
    let c = Contents {
        label: "L".to_string(),
        categories: vec![Category { key: "A".to_string(), entries: strings(&["2話", "1話"]) }],
        count: 2,
    };
    let (lines, outcome) = c.prepare_data(SortStrategy::Chapter);
    assert!(matches!(outcome, Some(Error::NoChange)));
    assert_eq!(lines, strings(&["L", "", "A", "  1話", "  2話"]));
}

#[test]
fn display_drops_footer_and_trailing_space() {
    let lines = strings(&["L", "", "A", "  a ", "", "", "/*  info:v1,1,t  */"]);
    assert_eq!(display_text(&lines, false), "L\n\nA\n  a");
    assert_eq!(display_text(&lines[..4].to_vec(), true), "L\n\nA\n  a");
}

#[test]
fn error_texts() {
    assert_eq!(Error::NoChange.as_str(), "no changes to be made");
    assert_eq!(Error::NotFound.as_str(), "entity not found");
    assert_eq!(Error::UnexpectedEof.as_str(), "unexpected end of file");
    assert_eq!(Error::Other("x").as_str(), "unknown");
    assert_eq!(Error::Other("custom").message(), "custom");
    assert_eq!(Error::UnexpectedEof.message(), "unexpected end of file");
    let io = Error::from(std::io::Error::new(std::io::ErrorKind::Other, "disk"));
    assert!(matches!(io, Error::Io(_)));
    assert_eq!(io.message(), "disk");
}

#[test]
fn output_names() {
    assert_eq!(Output::default().filename(), "list.txt");
    assert_eq!(Output::new("list.v1.txt".to_string()).filename(), "list.txt");
    assert!(Output::list_in_line("see list.txt"));
    assert!(!Output::list_in_line("list.md"));
    let names = strings(&["list.txt", "list.v1.txt", "notes.txt", "list.md", "blist.txt", ".txt"]);
    let found = Output::find_list_file(&names);
    assert_eq!(
        found,
        vec![
            Output::new("list.txt".to_string()),
            Output::new("list.v1.txt".to_string()),
            Output::new("blist.txt".to_string())
        ]
    );
}

#[test]
fn indentation_chars() {
    assert!(tc_utils::trim_left(' '));
    assert!(tc_utils::trim_left('\t'));
    assert!(!tc_utils::trim_left('x'));
}
