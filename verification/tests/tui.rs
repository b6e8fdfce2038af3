use ansi_to_tui::IntoText;
use mcom::cli::TsMode;
use mcom::clock::{Clock, Elapsed};
use mcom::input::Key;
use mcom::scrollback::{Line, Scrollback};
use mcom::text::first_line;
use mcom::tui::{
    first_width, lines_that_fit, next_mark, positions, row_background, tail_room, wrapped_height, Mode, RowText,
    Screen, Tui, TuiAction, TuiStatus, CURSOR_BACKGROUND, MATCH_BACKGROUND,
};
use ratatui::backend::TestBackend;
use ratatui::layout::{Constraint, Layout};
use ratatui::text::Line as TLine;
use ratatui::widgets::{Block, Borders, Paragraph, Wrap};
use ratatui::Terminal;
use regex::Regex;

fn sb_with(lines: &[&str]) -> Scrollback {
    let mut sb = Scrollback::new(100);
    for l in lines {
        sb.push(Line {
            raw: l.as_bytes().to_vec(),
            at: Clock::start().read().wall,
            rel: Elapsed { nanos: 0 },
            delta: Elapsed { nanos: 0 },
        });
    }
    sb
}

fn status() -> TuiStatus {
    TuiStatus {
        port: "/dev/ttyACM0".into(),
        baud: "115200".into(),
        frame: "8N1".into(),
        connected: true,
        rx_bytes: 2048,
        ts: TsMode::Off,
        logging: None,
        uptime: "0:07".into(),
    }
}

fn first(raw: &[u8]) -> TLine<'static> {
    raw.into_text()
        .map(|t| t.lines.into_iter().next().unwrap_or_default())
        .unwrap_or_default()
}

/// Draws on a terminal of the given size and gives back what is on it.
fn rendered(t: &mut Tui, sb: &Scrollback, partial: &[u8], w: u16, h: u16) -> String {
    let mut terminal = Terminal::new(TestBackend::new(w, h)).unwrap();
    terminal
        .draw(|frame| {
            let rects = Layout::vertical([Constraint::Min(1), Constraint::Length(1)])
                .split(frame.area());
            let screen = t.draw(sb, partial, &status(), rects[0].width, rects[0].height);
            let mut text: Vec<TLine> = Vec::new();
            for row in &screen.rows {
                text.push(match &row.content {
                    RowText::Ansi(raw) => first(raw),
                    RowText::Plain(s) => TLine::from(s.clone()),
                });
            }
            text.extend(screen.tail.as_deref().map(first));
            let hint: String = screen.hint.iter().map(|s| s.text.as_str()).collect();
            let block = Block::default().borders(Borders::ALL).title(screen.title);
            frame.render_widget(
                Paragraph::new(text).block(block).wrap(Wrap { trim: false }),
                rects[0],
            );
            frame.render_widget(Paragraph::new(hint), rects[1]);
        })
        .unwrap();
    t.drawn(terminal.size().ok().map(|s| s.height));
    terminal
        .backend()
        .buffer()
        .content()
        .chunks(w as usize)
        .map(|row| row.iter().map(|c| c.symbol()).collect::<String>())
        .collect::<Vec<_>>()
        .join("\n")
}

fn rows(screen: &Screen) -> Vec<String> {
    screen
        .rows
        .iter()
        .map(|r| match &r.content {
            RowText::Ansi(raw) => String::from_utf8_lossy(raw).into_owned(),
            RowText::Plain(s) => s.clone(),
        })
        .collect()
}

fn hint(screen: &Screen) -> String {
    screen.hint.iter().map(|s| s.text.as_str()).collect()
}

#[test]
fn filter_narrows_the_view() {
    let sb = sb_with(&["I info", "E error one", "I info", "E error two"]);
    let mut t = Tui::new();
    t.mode = Mode::Filter;
    for c in "^E".chars() {
        t.on_key(Key::Char(c), &sb);
    }
    t.on_key(Key::Enter, &sb);
    assert_eq!(t.visible(&sb), vec![1, 3]);
}

#[test]
fn invalid_regex_is_reported_not_applied() {
    let sb = sb_with(&["a"]);
    let mut t = Tui::new();
    t.mode = Mode::Filter;
    t.on_key(Key::Char('['), &sb);
    assert!(t.error.is_some());
    assert!(t.filter.is_none());
    assert_eq!(t.visible(&sb), vec![0]);
}

#[test]
fn search_jumps_between_matches_and_wraps() {
    let sb = sb_with(&["one", "target", "three", "target"]);
    let mut t = Tui::new();
    t.cursor = 0;
    t.search = Some(Regex::new("target").unwrap());
    t.jump_match(&sb, 1);
    assert_eq!(t.cursor, 1);
    t.jump_match(&sb, 1);
    assert_eq!(t.cursor, 3);
    t.jump_match(&sb, 1);
    assert_eq!(t.cursor, 1);
    t.jump_match(&sb, -1);
    assert_eq!(t.cursor, 3);
}

#[test]
fn scrolling_up_stops_following_and_end_resumes_it() {
    let sb = sb_with(&["a", "b", "c"]);
    let mut t = Tui::new();
    t.cursor = 2;
    t.on_key(Key::Up, &sb);
    assert_eq!(t.cursor, 1);
    assert!(!t.follow);
    t.on_key(Key::End, &sb);
    assert_eq!(t.cursor, 2);
    assert!(t.follow);
}

#[test]
fn q_leaves_but_ctrl_a_q_quits() {
    let sb = sb_with(&["a"]);
    let mut t = Tui::new();
    assert!(matches!(t.on_key(Key::Char('q'), &sb), TuiAction::Leave));
    t.on_key(Key::Ctrl('a'), &sb);
    assert!(matches!(t.on_key(Key::Char('q'), &sb), TuiAction::Quit));
}

#[test]
fn draws_the_newest_lines_with_a_status_bar() {
    let sb = sb_with(&["first", "second", "third"]);
    let mut t = Tui::new();
    let screen = rendered(&mut t, &sb, b"", 40, 8);
    assert!(screen.contains("/dev/ttyACM0"), "{screen}");
    assert!(screen.contains("third"), "{screen}");
    assert!(screen.contains("3/3"), "{screen}");
    assert!(screen.contains("follow"), "{screen}");
}

#[test]
fn draws_the_unfinished_line_last() {
    let sb = sb_with(&["done"]);
    let mut t = Tui::new();
    let screen = rendered(&mut t, &sb, b"prompt> ", 40, 8);
    assert!(screen.contains("prompt>"), "{screen}");
}

#[test]
fn wrapped_height_counts_screen_rows() {
    assert_eq!(wrapped_height(0, 80), 1);
    assert_eq!(wrapped_height(80, 80), 1);
    assert_eq!(wrapped_height(81, 80), 2);
    assert_eq!(wrapped_height(240, 80), 3);
}

#[test]
fn ansi_lines_survive_the_round_trip() {
    let sb = sb_with(&["\x1b[31mred\x1b[0m"]);
    assert_eq!(sb.get(0).unwrap().text(), "red");
}

#[test]
fn a_width_of_zero_counts_as_one() {
    assert_eq!(wrapped_height(3, 0), 3);
}

#[test]
fn typing_a_search_jumps_at_once_and_n_goes_on() {
    let sb = sb_with(&["x1", "y", "x2", "z", "x3"]);
    let mut t = Tui::new();
    t.on_key(Key::Char('g'), &sb);
    t.on_key(Key::Char('/'), &sb);
    for c in "x[0-9]".chars() {
        t.on_key(Key::Char(c), &sb);
    }
    t.on_key(Key::Enter, &sb);
    assert_eq!((t.cursor, t.mode, t.follow), (2, Mode::Normal, false));
    t.on_key(Key::Char('n'), &sb);
    assert_eq!(t.cursor, 4);
    t.on_key(Key::Char('N'), &sb);
    assert_eq!(t.cursor, 2);
    // An empty pattern drops the search.
    t.on_key(Key::Char('/'), &sb);
    assert_eq!(t.input, "x[0-9]");
    t.on_key(Key::Ctrl('u'), &sb);
    t.on_key(Key::Enter, &sb);
    assert!(t.search.is_none());
    t.on_key(Key::Char('n'), &sb);
    assert_eq!(t.cursor, 2);
}

#[test]
fn a_search_without_a_match_stays_put() {
    let sb = sb_with(&["a", "b"]);
    let mut t = Tui::new();
    t.cursor = 1;
    t.search = Some(Regex::new("nope").unwrap());
    t.jump_match(&sb, 1);
    assert_eq!((t.cursor, t.follow), (1, true));
}

#[test]
fn the_filter_follows_what_is_typed() {
    let sb = sb_with(&["ab", "b", "abc"]);
    let mut t = Tui::new();
    t.on_key(Key::Char('f'), &sb);
    t.on_key(Key::Char('a'), &sb);
    assert_eq!(t.visible(&sb), vec![0, 2]);
    t.on_key(Key::Char('('), &sb);
    assert!(t.error.as_deref().unwrap().starts_with("regex parse error"));
    assert_eq!(t.visible(&sb), vec![0, 2]);
    t.on_key(Key::Backspace, &sb);
    assert!(t.error.is_none());
    for c in "bc".chars() {
        t.on_key(Key::Char(c), &sb);
    }
    assert_eq!(t.visible(&sb), vec![2]);
    t.on_key(Key::Ctrl('u'), &sb);
    assert_eq!(t.visible(&sb), vec![0, 1, 2]);
    t.on_key(Key::Esc, &sb);
    assert_eq!(t.mode, Mode::Normal);
}

#[test]
fn paging_moves_by_what_fits() {
    let lines: Vec<String> = (0..50).map(|i| i.to_string()).collect();
    let refs: Vec<&str> = lines.iter().map(|s| s.as_str()).collect();
    let sb = sb_with(&refs);
    let mut t = Tui::new();
    rendered(&mut t, &sb, b"", 40, 12);
    assert_eq!((t.page, t.cursor), (8, 49));
    t.on_key(Key::PageUp, &sb);
    assert_eq!(t.cursor, 41);
    t.on_key(Key::PageDown, &sb);
    assert_eq!((t.cursor, t.follow), (49, true));
    t.on_key(Key::Home, &sb);
    t.on_key(Key::Char('k'), &sb);
    assert_eq!(t.cursor, 0);
    t.on_key(Key::Char('j'), &sb);
    assert_eq!(t.cursor, 1);
    t.drawn(None);
    assert_eq!(t.page, 10);
    t.drawn(Some(3));
    assert_eq!(t.page, 1);
}

#[test]
fn rows_fill_upwards_from_the_cursor() {
    let long = "w".repeat(25);
    let sb = sb_with(&["a", "b", &long, "c", "d"]);
    let mut t = Tui::new();
    // Ten columns and four rows inside the frame.
    let s = t.draw(&sb, b"", &status(), 12, 6);
    assert_eq!(rows(&s), vec!["c", "d"]);
    assert_eq!(s.rows[1].background, Some(CURSOR_BACKGROUND));
    assert_eq!(s.rows[0].background, None);
    let s = t.draw(&sb, b"", &status(), 12, 7);
    assert_eq!(rows(&s), vec![long.as_str(), "c", "d"]);
    // A line in focus that is too long for the screen is shown all the same.
    t.cursor = 2;
    t.follow = false;
    let s = t.draw(&sb, b"tail", &status(), 12, 4);
    assert_eq!(rows(&s), vec![long.as_str()]);
    assert!(s.tail.is_none());
}

#[test]
fn escape_sequences_take_no_room() {
    let red = format!("\x1b[31m{}\x1b[0m", "r".repeat(10));
    let sb = sb_with(&["a", &red]);
    let mut t = Tui::new();
    let s = t.draw(&sb, b"", &status(), 12, 4);
    assert_eq!(rows(&s), vec!["a", red.as_str()]);
    // Wide characters take two columns each.
    let sb = sb_with(&["a", "日本日本日本"]);
    let s = t.draw(&sb, b"", &status(), 12, 4);
    assert_eq!(rows(&s), vec!["日本日本日本"]);
}

#[test]
fn only_the_first_line_of_a_row_is_measured() {
    let long = format!("a\n{}", "w".repeat(30));
    let sb = sb_with(&["x", &long]);
    let mut t = Tui::new();
    let s = t.draw(&sb, b"", &status(), 12, 4);
    assert_eq!(rows(&s), vec!["x", long.as_str()]);
}

#[test]
fn the_unfinished_line_takes_room_while_following() {
    let sb = sb_with(&["a", "b", "c"]);
    let mut t = Tui::new();
    let s = t.draw(&sb, b"prompt> ", &status(), 12, 5);
    assert_eq!(rows(&s), vec!["b", "c"]);
    assert_eq!(s.tail.as_deref(), Some(&b"prompt> "[..]));
    let s = t.draw(&sb, b"prompt> ", &status(), 12, 3);
    assert_eq!(rows(&s), vec!["c"]);
    assert!(s.tail.is_none());
    t.on_key(Key::Up, &sb);
    let s = t.draw(&sb, b"prompt> ", &status(), 12, 5);
    assert_eq!(rows(&s), vec!["a", "b"]);
    assert!(s.tail.is_none());
}

#[test]
fn matches_are_marked() {
    let sb = sb_with(&["err 1", "ok", "err 2"]);
    let mut t = Tui::new();
    t.search = Some(Regex::new("err").unwrap());
    let s = t.draw(&sb, b"", &status(), 40, 10);
    let marks: Vec<Option<u8>> = s.rows.iter().map(|r| r.background).collect();
    assert_eq!(marks, vec![Some(MATCH_BACKGROUND), None, Some(CURSOR_BACKGROUND)]);
}

#[test]
fn an_empty_view_shows_no_rows() {
    let sb = sb_with(&["a"]);
    let mut t = Tui::new();
    t.filter = Some(Regex::new("zzz").unwrap());
    t.filter_src = "zzz".into();
    let s = t.draw(&sb, b"", &status(), 40, 10);
    assert!(s.rows.is_empty());
    assert_eq!(
        hint(&s),
        " 0/0 follow filter:zzz ts:off · / search · f filter · n/N · q back · ^A q quit"
    );
}

#[test]
fn the_title_and_the_hints_tell_the_state() {
    let mut sb = Scrollback::new(2);
    for _ in 0..5 {
        sb.push(Line {
            raw: b"x".to_vec(),
            at: Clock::start().read().wall,
            rel: Elapsed { nanos: 0 },
            delta: Elapsed { nanos: 0 },
        });
    }
    let mut t = Tui::new();
    t.search_src = "x".into();
    let mut st = status();
    st.logging = Some("/tmp/a.log".into());
    st.ts = TsMode::Delta;
    let s = t.draw(&sb, b"", &st, 80, 24);
    assert_eq!(s.title, " /dev/ttyACM0 · 115200 8N1 · connected · 2.0 KB · 0:07 ");
    assert_eq!(
        hint(&s),
        " 2/2 follow /x 3 evicted rec ts:delta · / search · f filter · n/N · q back · ^A q quit"
    );
    assert_eq!(rows(&s), vec!["[+   0.000] x", "[+   0.000] x"]);
    st.connected = false;
    t.on_key(Key::Char('/'), &sb);
    let s = t.draw(&sb, b"", &st, 80, 24);
    assert_eq!(s.title, " /dev/ttyACM0 · 115200 8N1 · waiting · 2.0 KB · 0:07 ");
    assert_eq!(hint(&s), " /x\u{2588}");
    assert!(s.hint[1].bold);
    t.on_key(Key::Esc, &sb);
    t.on_key(Key::Char('f'), &sb);
    assert_eq!(hint(&t.draw(&sb, b"", &st, 80, 24)), " filter: \u{2588}");
    t.on_key(Key::Char('*'), &sb);
    assert_eq!(
        hint(&t.draw(&sb, b"", &st, 80, 24)),
        " regex: regex parse error: "
    );
}

#[test]
fn only_the_first_line_of_an_error_is_kept() {
    assert_eq!(first_line("  one \r\ntwo"), "one");
    assert_eq!(first_line(""), "");
    assert_eq!(first_line("\nx"), "");
}

#[test]
fn marks_are_listed_and_stepped_through() {
    let marks = [false, true, false, true];
    assert_eq!(positions(&marks), vec![1, 3]);
    assert_eq!(next_mark(&marks, 0, 1), Some(1));
    assert_eq!(next_mark(&marks, 3, 1), Some(1));
    assert_eq!(next_mark(&marks, 1, -1), Some(3));
    assert_eq!(next_mark(&[false, true], 1, 1), Some(1));
    assert_eq!(next_mark(&[false, false], 1, -1), None);
}

#[test]
fn lines_fit_from_the_focus_upwards() {
    assert_eq!(lines_that_fit(&[1, 1, 3, 1], 4), 2);
    assert_eq!(lines_that_fit(&[1, 1, 2, 1], 4), 3);
    assert_eq!(lines_that_fit(&[9, 1], 4), 1);
    assert_eq!(lines_that_fit(&[], 4), 0);
    assert_eq!(lines_that_fit(&[1, 1], 0), 1);
    assert_eq!(tail_room(Some(11), 10, 4), Some(2));
    assert_eq!(tail_room(Some(11), 10, 2), None);
    assert_eq!(tail_room(None, 10, 2), Some(1));
    assert_eq!(first_width(Some(vec![7, 9])), Some(7));
    assert_eq!(first_width(Some(Vec::new())), Some(0));
    assert_eq!(first_width(None), None);
    assert_eq!(row_background(true, true), Some(CURSOR_BACKGROUND));
    assert_eq!(row_background(false, true), Some(MATCH_BACKGROUND));
    assert_eq!(row_background(false, false), None);
}

#[test]
fn a_compiled_pattern_is_put_to_use() {
    let sb = sb_with(&["a", "b"]);
    let mut t = Tui::new();
    t.mode = Mode::Filter;
    t.input = "b".into();
    t.filter_compiled(Err(" bad \n(".into()));
    assert_eq!(t.error.as_deref(), Some("bad"));
    assert_eq!(t.visible(&sb), vec![0, 1]);
    t.filter_compiled(Ok(Regex::new("b").unwrap()));
    assert_eq!((t.visible(&sb), t.filter_src.as_str()), (vec![1], "b"));
    t.mode = Mode::Search;
    t.filter = None;
    t.cursor = 1;
    t.input = "a".into();
    t.apply_compiled(Ok(Regex::new("a").unwrap()), &sb);
    assert_eq!((t.cursor, t.follow, t.search_src.as_str()), (0, false, "a"));
}
