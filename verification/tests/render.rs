use n_puzzle::npuzzle::NPuzzle;

#[test]
fn render_draws_the_rule_and_the_rows() {
    let text = NPuzzle::goal_board(3).render();
    let expected = "---------------\n\n   1   2   3\n\n   4   5   6\n\n   7   8   \u{25a0}\n\n";
    assert_eq!(text, expected);
}

#[test]
fn render_flushes_wide_labels_right() {
    let tiles: Vec<u8> = (0..=255u8).collect();
    let text = NPuzzle::from_tiles(16, tiles).unwrap().render();
    let lines: Vec<&str> = text.split('\n').collect();
    assert_eq!(lines[0], "-".repeat(67));
    assert_eq!(lines[1], "");
    assert!(lines[2].starts_with("   \u{25a0}   1   2   3"));
    assert!(lines[2].ends_with("  14  15"));
    assert!(lines[16].starts_with(" 112 113"));
    assert!(lines[32].ends_with(" 254 255"));
    assert_eq!(lines.len(), 35);
}
