use friz::args::{app_config, parse_args, AppConfig, Args};

fn parse(args: &[&str]) -> Args {
    parse_args(&args.iter().map(|arg| arg.to_string()).collect())
}

#[test]
fn no_arguments_ask_for_nothing() {
    let asked = parse(&[]);
    assert!(asked.heights.is_empty());
    assert!(!asked.reverse);
    assert_eq!(asked.header, None);
}

#[test]
fn all_options_together() {
    let asked = parse(&["--reverse", "--height", "40%", "--header=Select path"]);
    assert_eq!(asked.heights, vec!["40".to_string()]);
    assert!(asked.reverse);
    assert_eq!(asked.header, Some("Select path".to_string()));
}

#[test]
fn height_in_one_argument_or_two_with_and_without_percent() {
    for args in [
        &["--height=40%"][..],
        &["--height=40"][..],
        &["--height", "40%"][..],
        &["--height", "40"][..],
        &["--height=40%%"][..],
    ] {
        assert_eq!(parse(args).heights, vec!["40".to_string()]);
    }
}

#[test]
fn height_takes_the_next_argument_whatever_it_is() {
    let asked = parse(&["--height", "--reverse", "--reverse=1"]);
    assert_eq!(asked.heights, vec!["--reverse".to_string()]);
    assert!(!asked.reverse);
}

#[test]
fn height_without_a_value_is_passed_over() {
    let asked = parse(&["--reverse", "--height"]);
    assert!(asked.heights.is_empty());
    assert!(asked.reverse);
}

#[test]
fn header_takes_only_the_form_with_an_equals_sign() {
    let asked = parse(&["--header", "text", "--header=", "--header=a=b"]);
    assert_eq!(asked.header, Some("a=b".to_string()));
    assert_eq!(parse(&["--header="]).header, Some(String::new()));
    assert_eq!(parse(&["--header", "text"]).header, None);
}

#[test]
fn the_last_readable_height_counts() {
    let asked = parse(&["--height=40", "--height=50", "--height=tall", "--header=h"]);
    assert_eq!(asked.heights.len(), 3);
    let heights: Vec<Option<u32>> = asked
        .heights
        .iter()
        .map(|text| text.parse::<f32>().ok().map(|pct| (pct / 100.0).to_bits()))
        .collect();
    let config: AppConfig = app_config(asked, &heights);
    assert_eq!(config.height_percent.map(f32::from_bits), Some(0.5));
    assert_eq!(config.header, Some("h".to_string()));
    assert!(!config.reverse);
}

#[test]
fn no_readable_height_is_no_height() {
    let config = app_config(parse(&["--reverse"]), &vec![None, None]);
    assert_eq!(config.height_percent, None);
    assert!(config.reverse);
}
