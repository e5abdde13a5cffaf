use tc_utils::{Args, Mode, SortStrategy};

fn into_args(input: &[&str]) -> Vec<String> {
    input.iter().map(|&x| x.to_string()).collect()
}

#[test]
fn parse_args() {
    let path = String::from("./file");
    let ex1 = Args {
        path: path.clone(),
        mode: Mode::List,
        ignore_clipboard: true,
        sort: SortStrategy::Auto,
        dry_run: false,
    };
    let ex2 = Args { path: path.clone(), mode: Mode::Unset, ..Default::default() };

    assert_eq!(
        Some(ex1.clone()),
        Args::parse(&into_args(&["--ignore-clipboard", "--list", "--path", "./file"]), "/work")
    );
    assert_eq!(Some(ex1), Args::parse(&into_args(&["-c", "--list", "./file"]), "/work"));
    assert_eq!(Some(ex2), Args::parse(&into_args(&["./file"]), "/work"));
}

#[test]
fn parse_args_values() {
    let a = Args::parse(&into_args(&["--sort=chapter", "--dry-run", "list.tmp"]), "/work").unwrap();
    assert_eq!(a.sort, SortStrategy::Chapter);
    assert!(a.dry_run);
    assert_eq!(a.path, "list.tmp");
    assert_eq!(a.mode, Mode::Unset);

    let b = Args::parse(&into_args(&["--list", "--path=.", "x.tmp"]), "/work").unwrap();
    assert_eq!(b.path, "/work");
    assert_eq!(b.mode, Mode::List);

    let c = Args::parse(&into_args(&["--sort", "date", "--list", "x.tmp"]), "/w").unwrap();
    assert_eq!(c.sort, SortStrategy::Date);
    assert_eq!(c.path, "x.tmp");
}

#[test]
fn parse_args_shows_usage() {
    assert_eq!(Args::parse(&Vec::new(), "/work"), None);
    assert_eq!(Args::parse(&into_args(&["--list"]), "/work"), None);
    assert_eq!(Args::parse(&into_args(&["--path", "--list", "x.tmp"]), "/work"), None);
    assert_eq!(Args::parse(&into_args(&["--sort", "--list", "x.tmp"]), "/work"), None);
}
