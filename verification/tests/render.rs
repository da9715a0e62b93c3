use rust_crypto_orderbook::render::{
    border, colourize, level_rows, now_hms, render_frame, render_table, row, shade_cell, visible_len, FillFrom, CELL_WIDTH,
    column_header, TABLE_WIDTH,
};

#[test]
fn visible_len_skips_escape_sequences() {
    assert_eq!(visible_len("plain"), 5);
    assert_eq!(visible_len("\x1b[31mab\x1b[0m"), 2);
    assert_eq!(visible_len("\x1b[48;5;22mx"), 1);
    // The character right after a lone escape is swallowed with it.
    assert_eq!(visible_len("a\x1bxb"), 2);
    assert_eq!(visible_len("binance \u{25cf}"), 9);
    assert_eq!(visible_len(""), 0);
}

#[test]
fn a_border_is_as_wide_as_a_row() {
    let mut b = String::new();
    border(&mut b, '┌', '┐');
    assert_eq!(b, format!("┌{}┐\n", "─".repeat(TABLE_WIDTH + 2)));

    let mut r = String::new();
    row(&mut r, "hi");
    assert_eq!(r, format!("│ hi{} │\n", " ".repeat(TABLE_WIDTH - 2)));
    assert_eq!(b.chars().count(), r.chars().count());
}

#[test]
fn a_row_pads_on_visible_width_and_never_truncates() {
    let mut r = String::new();
    row(&mut r, "\x1b[32mok\x1b[0m");
    assert_eq!(r, format!("│ \x1b[32mok\x1b[0m{} │\n", " ".repeat(TABLE_WIDTH - 2)));

    let long = "x".repeat(TABLE_WIDTH + 3);
    let mut r = String::new();
    row(&mut r, &long);
    assert_eq!(r, format!("│ {long} │\n"));
}

#[test]
fn colourize_wraps_only_when_colour_is_on() {
    assert_eq!(colourize("stale", "\x1b[31m", true), "\x1b[31mstale\x1b[0m");
    assert_eq!(colourize("stale", "\x1b[31m", false), "stale");
}

#[test]
fn now_hms_is_utc_wall_clock() {
    assert_eq!(now_hms(0), "00:00:00");
    assert_eq!(now_hms(3661), "01:01:01");
    assert_eq!(now_hms(86_400 + 86_399), "23:59:59");
    assert_eq!(now_hms(1_700_000_000), "22:13:20");
}

#[test]
fn a_bid_bar_fills_from_the_right() {
    let plain = format!("{}{}", "A".repeat(26), "B".repeat(9));
    assert_eq!(plain.chars().count(), CELL_WIDTH);
    let shaded = shade_cell(&plain, "32", "48;5;22", 5, FillFrom::Right);
    let expected = format!(
        "\x1b[32;49m{}\x1b[2;49m{}\x1b[2;48;5;22m{}\x1b[0m",
        "A".repeat(26),
        "B".repeat(4),
        "B".repeat(5)
    );
    assert_eq!(shaded, expected);
    assert_eq!(visible_len(&shaded), CELL_WIDTH);
}

#[test]
fn an_ask_bar_fills_from_the_left_and_is_capped_at_the_cell() {
    let plain = format!("{}{}", "A".repeat(26), "B".repeat(9));
    let shaded = shade_cell(&plain, "31", "48;5;52", 30, FillFrom::Left);
    let expected = format!(
        "\x1b[31;48;5;52m{}\x1b[2;48;5;52m{}\x1b[2;49m{}\x1b[0m",
        "A".repeat(26),
        "B".repeat(4),
        "B".repeat(5)
    );
    assert_eq!(shaded, expected);

    let full = shade_cell(&plain, "31", "48;5;52", 99, FillFrom::Left);
    let expected_full = format!(
        "\x1b[31;48;5;52m{}\x1b[2;48;5;52m{}\x1b[0m",
        "A".repeat(26),
        "B".repeat(9)
    );
    assert_eq!(full, expected_full);
}

#[test]
fn an_empty_bar_only_splits_the_colours() {
    let plain = format!("{}{}", "A".repeat(26), "B".repeat(9));
    let shaded = shade_cell(&plain, "32", "48;5;22", 0, FillFrom::Right);
    assert_eq!(shaded, format!("\x1b[32;49m{}\x1b[2;49m{}\x1b[0m", "A".repeat(26), "B".repeat(9)));
}

#[test]
fn the_column_header_centres_each_label_over_its_cell() {
    assert_eq!(column_header(), format!("{:^35} {:^35}", "BIDS", "ASKS"));
}

#[test]
fn a_frame_is_eight_lines_plus_one_per_row_all_the_same_width() {
    let cells: Vec<(String, String)> = (0..10).map(|_| (" ".repeat(CELL_WIDTH), " ".repeat(CELL_WIDTH))).collect();
    let status = "\x1b[32mbinance \u{25cf}\x1b[0m";
    let frame = render_frame(status, "12:34:56", &cells, "spread", true);
    assert!(frame.starts_with("\x1b[H┌"));
    let lines: Vec<&str> = frame.trim_start_matches("\x1b[H").lines().collect();
    assert_eq!(lines.len(), 18);
    assert_eq!(lines[0], format!("┌{}┐", "─".repeat(TABLE_WIDTH + 2)));
    assert_eq!(lines[17], format!("└{}┘", "─".repeat(TABLE_WIDTH + 2)));
    for l in &lines {
        assert_eq!(visible_len(l), TABLE_WIDTH + 4);
    }
    assert_eq!(
        lines[1],
        format!("│ {status}{}{:>16} │", " ".repeat(56 - 9), "12:34:56")
    );
    assert_eq!(lines[3], format!("│ {:<72} │", format!("{:^35} {:^35}", "BIDS", "ASKS")));
    assert_eq!(lines[16], format!("│ spread{} │", " ".repeat(TABLE_WIDTH - 6)));

    let plain = render_frame("s", "00:00:00", &Vec::new(), "x", false);
    assert!(plain.starts_with('┌'));
    assert_eq!(plain.lines().count(), 8);
}

#[test]
fn the_table_always_has_ten_level_rows() {
    let bids: Vec<String> = (0..3).map(|i| format!("{:<35}", format!("bid {i}"))).collect();
    let asks: Vec<String> = (0..12).map(|i| format!("{:<35}", format!("ask {i}"))).collect();
    let rows = level_rows(&bids, &asks);
    assert_eq!(rows.len(), 10);
    assert_eq!(rows[2].0, bids[2]);
    assert_eq!(rows[3].0, " ".repeat(CELL_WIDTH));
    assert_eq!(rows[9].1, asks[9]);

    let table = render_table("s", "00:00:00", &bids, &asks, "x", false);
    assert_eq!(table.matches('\n').count(), 18);
    assert!(table.ends_with('\n'));
    let empty = render_table("s", "00:00:00", &Vec::new(), &Vec::new(), "x", false);
    assert_eq!(empty.lines().count(), 18);
    assert_eq!(empty.lines().next().unwrap(), format!("┌{}┐", "─".repeat(TABLE_WIDTH + 2)));
    assert_eq!(empty.lines().nth(5).unwrap(), format!("│ {} {}  │", " ".repeat(35), " ".repeat(35)));
}
