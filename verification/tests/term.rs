use mcom::term::{restore, TermGuard, TermOp};

#[test]
fn the_alternate_screen_is_entered_and_left_once() {
    let (mut g, first) = TermGuard::new();
    assert_eq!(first, TermOp::EnableRawMode);
    assert!(!g.in_alt());
    assert_eq!(
        g.enter_alt(),
        vec![TermOp::EnterAlternateScreen, TermOp::HideCursor]
    );
    assert!(g.in_alt());
    assert!(g.enter_alt().is_empty());
    assert_eq!(
        g.leave_alt(),
        vec![TermOp::LeaveAlternateScreen, TermOp::ShowCursor]
    );
    assert!(!g.in_alt());
    assert!(g.leave_alt().is_empty());
}

#[test]
fn restoring_twice_is_safe() {
    let (mut g, _) = TermGuard::new();
    g.enter_alt();
    assert_eq!(
        restore(&mut g),
        vec![
            TermOp::LeaveAlternateScreen,
            TermOp::DisableRawMode,
            TermOp::ShowCursor,
            TermOp::ResetColors
        ]
    );
    assert!(!g.in_alt());
    assert_eq!(restore(&mut g), vec![TermOp::ShowCursor, TermOp::ResetColors]);
}
