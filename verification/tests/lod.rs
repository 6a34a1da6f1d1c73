use amba::lod::LodText;

fn single(text: &str) -> LodText {
    let mut t = LodText::new();
    t.coarser(text.to_string());
    t
}

/// The smallest square a one-level text fits in, found by probing.
fn fits(t: &LodText, w: u32, h: u32) -> bool {
    !t.get_given_available_square(w, h).is_empty()
}

#[test]
fn lod_width_and_height_of_lines() {
    let t = single("hello\nworld!!");
    assert!(fits(&t, 7, 2));
    assert!(!fits(&t, 6, 2));
    assert!(!fits(&t, 7, 1));
    assert_eq!(t.get_full(), "hello\nworld!!");
}

#[test]
fn lod_long_lines_wrap_at_eighty() {
    let t = single(&"x".repeat(200));
    assert!(fits(&t, 80, 3));
    assert!(!fits(&t, 80, 2));
    assert!(!fits(&t, 79, 3));
    let t = single(&"y".repeat(160));
    assert!(fits(&t, 80, 2));
    assert!(!fits(&t, 80, 1));
}

#[test]
fn lod_crlf_ends_are_not_counted() {
    let t = single("a\r\nbc\r");
    // lines "a" and "bc\r": three wide, two high
    assert!(fits(&t, 3, 2));
    assert!(!fits(&t, 2, 2));
    let t = single("abc\n\n");
    assert!(fits(&t, 3, 2));
    assert!(!fits(&t, 3, 1));
}

#[test]
fn lod_picks_the_finest_level_that_fits() {
    let mut t = LodText::new();
    assert_eq!(t.get_full(), "");
    assert_eq!(t.get_given_available_square(100, 100), "");
    t.coarser("State: 7\nWithin function: main".to_string());
    t.coarser("7\nmain".to_string());
    t.coarser("7".to_string());
    assert_eq!(t.get_given_available_square(100, 100), "State: 7\nWithin function: main");
    assert_eq!(t.get_given_available_square(4, 2), "7\nmain");
    assert_eq!(t.get_given_available_square(1, 1), "7");
    assert_eq!(t.get_given_available_square(0, 0), "");
    assert_eq!(t.get_full(), "State: 7\nWithin function: main");
}
