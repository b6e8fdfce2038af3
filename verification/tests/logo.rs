use mcom::logo::{banner, BANNER, BLOCK, COMPACT, CONNECTOR};

fn widest(art: &str) -> usize {
    art.lines().map(|l| l.chars().count()).max().unwrap_or(0)
}

#[test]
fn the_startup_art_stays_small() {
    // An 80x24 terminal is the floor, and the art must not crowd out the
    // log it sits above.
    assert!(BANNER.lines().count() <= 3);
    assert!(widest(BANNER) <= 60, "{} columns", widest(BANNER));
}

#[test]
fn every_variant_fits_a_standard_terminal() {
    for art in [COMPACT, BLOCK, CONNECTOR] {
        assert!(!art.is_empty());
        assert!(widest(art) <= 80, "{} columns", widest(art));
    }
}

#[test]
fn the_banner_is_ready_for_raw_mode() {
    assert_eq!(banner(), format!("{}\r\n", BANNER.replace('\n', "\r\n")));
}
