use friz::args::AppConfig;
use friz::draw::{put, put_text, Color, DrawOp};
use friz::keys::Action;
use friz::render::{cleanup, has_basename_term, max_display, render, Screen};
use friz::search::search;
use friz::state::State;
use std::sync::atomic::AtomicUsize;

const SELECTED: Color = Color::Rgb { r: 255, g: 255, b: 255 };
const PLAIN: Color = Color::Rgb { r: 209, g: 209, b: 209 };
const FAINT: Color = Color::Rgb { r: 107, g: 107, b: 107 };

fn config(reverse: bool, header: Option<&str>) -> AppConfig {
    AppConfig { height_percent: None, reverse, header: header.map(|text| text.to_string()) }
}

fn with_lines(lines: &[&str]) -> State {
    let mut state = State::new();
    state.add_chunk(lines.iter().map(|line| line.to_string()).collect());
    state
}

fn with_query(lines: &[&str], query: &str) -> State {
    let mut state = with_lines(lines);
    for c in query.chars() {
        state.apply(Action::Insert(c), false);
    }
    let version = state.query_version();
    let found = search(query, state.lines(), &AtomicUsize::new(version), version).unwrap();
    assert!(state.publish(version, found));
    state
}

/// The rows of what is drawn, with colours set aside.
fn rows(ops: &[DrawOp]) -> Vec<String> {
    let mut result = vec![String::new()];
    for op in ops {
        match op {
            DrawOp::Print(text) => result.last_mut().unwrap().push_str(text),
            DrawOp::PrintChar(c) => result.last_mut().unwrap().push(*c),
            DrawOp::NewLine => result.push(String::new()),
            _ => {}
        }
    }
    result
}

fn print(text: &str) -> DrawOp {
    DrawOp::Print(text.to_string())
}

fn info(count: &str) -> String {
    format!("  {} {}", count, "\u{2500}".repeat(30 - count.len()))
}

#[test]
fn the_list_fits_the_terminal() {
    assert_eq!(max_display(0, None), 0);
    assert_eq!(max_display(1, None), 0);
    assert_eq!(max_display(2, None), 0);
    assert_eq!(max_display(10, None), 8);
    assert_eq!(max_display(17, None), 15);
    assert_eq!(max_display(50, None), 15);
    assert_eq!(max_display(50, Some(20)), 20);
    assert_eq!(max_display(50, Some(0)), 0);
}

#[test]
fn the_prompt_is_below_by_default() {
    let state = with_lines(&["one", "two"]);
    let (ops, height) = render(&state, 24, None, 0, &config(false, Some("Pick")));
    let expected: Vec<String> =
        vec!["  two".into(), "> one".into(), "  Pick".into(), info("2/2"), "> ".into()];
    assert_eq!(rows(&ops), expected);
    assert_eq!(height, 4);
}

#[test]
fn the_prompt_is_on_top_in_reverse() {
    let state = with_lines(&["one", "two"]);
    let (ops, height) = render(&state, 24, None, 0, &config(true, None));
    let expected: Vec<String> =
        vec!["> ".into(), info("2/2"), "> one".into(), "  two".into(), "".into()];
    assert_eq!(rows(&ops), expected);
    assert_eq!(height, 4);
}

#[test]
fn a_whole_picture() {
    let state = with_query(&["Ab/x", "x/ab"], "a");
    let (ops, height) = render(&state, 24, None, 3, &config(true, Some("H")));
    let expected = vec![
        DrawOp::MoveToColumn(0),
        DrawOp::MoveUp(3),
        DrawOp::ClearFromCursorDown,
        print("> "),
        print("a"),
        DrawOp::NewLine,
        print("  "),
        DrawOp::SetForeground(Color::White),
        print("2/2"),
        DrawOp::SetForeground(Color::DarkGrey),
        print(" "),
        print(&"\u{2500}".repeat(27)),
        DrawOp::NewLine,
        DrawOp::ResetColor,
        DrawOp::SetForeground(Color::Cyan),
        print("  "),
        print("H"),
        DrawOp::NewLine,
        DrawOp::ResetColor,
        DrawOp::SetForeground(SELECTED),
        DrawOp::SetBold,
        print("> "),
        DrawOp::PrintChar('x'),
        DrawOp::PrintChar('/'),
        DrawOp::SetForeground(Color::Red),
        DrawOp::PrintChar('a'),
        DrawOp::SetForeground(SELECTED),
        DrawOp::PrintChar('b'),
        DrawOp::NewLine,
        DrawOp::ResetAttributes,
        DrawOp::ResetColor,
        DrawOp::SetForeground(FAINT),
        print("  "),
        DrawOp::SetForeground(Color::Red),
        DrawOp::PrintChar('A'),
        DrawOp::SetForeground(FAINT),
        DrawOp::PrintChar('b'),
        DrawOp::PrintChar('/'),
        DrawOp::PrintChar('x'),
        DrawOp::NewLine,
        DrawOp::ResetAttributes,
        DrawOp::ResetColor,
    ];
    assert_eq!(ops, expected);
    assert_eq!(height, 5);
}

#[test]
fn results_with_a_term_in_their_last_segment_are_not_faint() {
    let state = with_query(&["b/a", "c/a", "a/b"], "a");
    let (ops, _) = render(&state, 24, None, 0, &config(true, None));
    let colors: Vec<&DrawOp> = ops
        .iter()
        .filter(|op| matches!(op, DrawOp::SetForeground(Color::Rgb { .. })))
        .collect();
    assert_eq!(colors[0], &DrawOp::SetForeground(SELECTED));
    assert!(colors.contains(&&DrawOp::SetForeground(PLAIN)));
    assert_eq!(colors[colors.len() - 1], &DrawOp::SetForeground(FAINT));
}

#[test]
fn highlights_go_by_bytes() {
    let state = with_query(&["\u{e9}a\u{e9}"], "a");
    let (ops, _) = render(&state, 24, None, 0, &config(true, None));
    let at = ops.iter().position(|op| *op == DrawOp::SetForeground(Color::Red)).unwrap();
    assert_eq!(ops[at - 1], DrawOp::PrintChar('\u{e9}'));
    assert_eq!(ops[at + 1], DrawOp::PrintChar('a'));
}

#[test]
fn the_list_follows_the_selection() {
    let names: Vec<String> = (0..9).map(|i| format!("n{}", i)).collect();
    let lines: Vec<&str> = names.iter().map(|name| name.as_str()).collect();
    let mut state = with_lines(&lines);
    for _ in 0..5 {
        state.apply(Action::Down, true);
    }
    let (ops, height) = render(&state, 24, Some(3), 0, &config(true, None));
    let expected: Vec<String> = vec![
        "> ".into(),
        info("9/9"),
        "  n3".into(),
        "  n4".into(),
        "> n5".into(),
        "".into(),
    ];
    assert_eq!(rows(&ops), expected);
    assert_eq!(height, rows(&ops).len() - 1);
    let (ops, height) = render(&state, 24, Some(3), 0, &config(false, None));
    assert_eq!(rows(&ops)[..3], ["> n5".to_string(), "  n4".to_string(), "  n3".to_string()]);
    assert_eq!(height, rows(&ops).len() - 1);
}

#[test]
fn no_rows_no_results() {
    let state = with_lines(&["a"]);
    let (ops, height) = render(&state, 24, Some(0), 0, &config(false, None));
    assert_eq!(rows(&ops), vec![info("1/1"), "> ".to_string()]);
    assert_eq!(height, 1);
    let (ops, height) = render(&State::new(), 24, None, 0, &config(true, None));
    assert_eq!(rows(&ops), vec!["> ".to_string(), info("0/0"), "".to_string()]);
    assert_eq!(height, 2);
}

#[test]
fn the_count_is_of_results_and_lines() {
    let state = with_query(&["a", "b", "c"], "b");
    let (ops, _) = render(&state, 24, None, 0, &config(true, None));
    assert_eq!(rows(&ops)[0], "> b");
    assert_eq!(rows(&ops)[1], info("1/3"));
}

#[test]
fn terms_are_looked_for_in_the_last_segment() {
    let terms = vec!["x".to_string(), "a".to_string()];
    assert!(has_basename_term("b/a", &terms));
    assert!(!has_basename_term("a/b", &terms));
    assert!(has_basename_term("a/b", &vec![]));
    assert!(has_basename_term("x/", &terms));
    assert!(has_basename_term("b", &vec![String::new()]));
}

#[test]
fn leaving_takes_the_picture_away() {
    assert_eq!(
        cleanup(4),
        vec![
            DrawOp::MoveToColumn(0),
            DrawOp::MoveUp(4),
            DrawOp::ClearFromCursorDown,
            DrawOp::ShowCursor,
            DrawOp::EnableLineWrap,
        ]
    );
    assert_eq!(cleanup(0).len(), 4);
}

#[test]
fn pictures_do_not_stack() {
    let state = with_lines(&["a", "b"]);
    let mut screen = Screen::new();
    assert!(!screen.is_behind(0));
    assert!(screen.is_behind(state.ui_version()));
    let first = screen.draw(&state, 24, None, &config(false, None));
    assert!(!first.iter().any(|op| matches!(op, DrawOp::MoveUp(_))));
    assert!(!screen.is_behind(state.ui_version()));
    let breaks = first.iter().filter(|op| **op == DrawOp::NewLine).count();
    let second = screen.draw(&state, 24, None, &config(false, None));
    assert_eq!(second[1], DrawOp::MoveUp(breaks as u16));
    assert_eq!(screen.leave()[1], DrawOp::MoveUp(breaks as u16));
}

#[test]
fn operations_are_appended() {
    let mut ops = vec![DrawOp::NewLine];
    put(&mut ops, DrawOp::SetBold);
    put_text(&mut ops, "x");
    assert_eq!(ops, vec![DrawOp::NewLine, DrawOp::SetBold, print("x")]);
}
