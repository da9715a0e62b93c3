//! The terminal table the demo client draws: borders, padded rows, depth
//! bars in a cell, and colour — all measured in visible columns, with ANSI
//! escape sequences taking none.

use vstd::prelude::*;

use crate::text::{str_chars, string_push};

verus! {

/// Table interior width in visible columns.
pub const TABLE_WIDTH: usize = 72;

/// Visible width of one bid/ask cell.
pub const CELL_WIDTH: usize = 35;

/// Where a cell's price/amount region ends and its venue label begins.
pub const CELL_FG_SPLIT: usize = 26;

/// The escape character that starts an ANSI sequence.
pub const ESC: char = '\x1b';

/// Which edge a depth bar grows from — bids fill from the right, asks from
/// the left, so both grow toward the shared border between columns.
#[derive(Clone, Copy, Debug, PartialEq, Eq, Structural)]
pub enum FillFrom {
    Left,
    Right,
}

/// `c` is an ASCII letter.
pub open spec fn is_ascii_alpha(c: char) -> bool {
    ('a' <= c && c <= 'z') || ('A' <= c && c <= 'Z')
}

/// Visible characters of `s` read in `mode`: 0 plain text, 1 just after an
/// escape, 2 inside an `ESC [` sequence (which ends at an ASCII letter). The
/// character right after an escape is never visible.
pub open spec fn visible_from(s: Seq<char>, mode: int) -> nat
    decreases s.len(),
{
    if s.len() == 0 {
        0
    } else {
        let c = s[0];
        let rest = s.drop_first();
        if mode == 0 {
            if c == ESC {
                visible_from(rest, 1)
            } else {
                1 + visible_from(rest, 0)
            }
        } else if mode == 1 {
            if c == '[' {
                visible_from(rest, 2)
            } else {
                visible_from(rest, 0)
            }
        } else if is_ascii_alpha(c) {
            visible_from(rest, 0)
        } else {
            visible_from(rest, 2)
        }
    }
}

/// How many columns `s` takes on a terminal.
pub open spec fn spec_visible_len(s: Seq<char>) -> nat {
    visible_from(s, 0)
}

proof fn lemma_visible_from_bound(s: Seq<char>, mode: int)
    ensures
        visible_from(s, mode) <= s.len(),
    decreases s.len(),
{
    if s.len() > 0 {
        lemma_visible_from_bound(s.drop_first(), 0);
        lemma_visible_from_bound(s.drop_first(), 1);
        lemma_visible_from_bound(s.drop_first(), 2);
    }
}

/// Visible character count of `s`, skipping ANSI escape sequences.
pub fn visible_len(s: &str) -> (n: usize)
    ensures
        n == spec_visible_len(s@),
{
    let cs = str_chars(s);
    let mut i = cs.len();
    // Walk from the back, computing the visible count of each suffix in
    // each of the three modes.
    let mut v0: usize = 0;
    let mut v1: usize = 0;
    let mut v2: usize = 0;
    assert(cs@.skip(i as int) =~= Seq::<char>::empty());
    while i > 0
        invariant
            0 <= i <= cs@.len(),
            v0 == visible_from(cs@.skip(i as int), 0),
            v1 == visible_from(cs@.skip(i as int), 1),
            v2 == visible_from(cs@.skip(i as int), 2),
            v0 <= cs@.len() - i,
            cs@.len() <= usize::MAX,
        decreases i,
    {
        let c = cs[i - 1];
        proof {
            assert(cs@.skip(i - 1).drop_first() =~= cs@.skip(i as int));
            assert(cs@.skip(i - 1)[0] == c);
            lemma_visible_from_bound(cs@.skip(i as int), 1);
            lemma_visible_from_bound(cs@.skip(i as int), 2);
        }
        let alpha = ('a' <= c && c <= 'z') || ('A' <= c && c <= 'Z');
        let n0 = if c == ESC {
            v1
        } else {
            1 + v0
        };
        let n1 = if c == '[' {
            v2
        } else {
            v0
        };
        let n2 = if alpha {
            v0
        } else {
            v2
        };
        v0 = n0;
        v1 = n1;
        v2 = n2;
        i = i - 1;
    }
    assert(cs@.skip(0) =~= cs@);
    v0
}

/// `n` copies of `c`.
pub open spec fn repeated(c: char, n: nat) -> Seq<char> {
    Seq::new(n, |i: int| c)
}

/// Appends `n` copies of `c`.
fn push_repeated(out: &mut String, c: char, n: usize)
    ensures
        final(out)@ == old(out)@ + repeated(c, n as nat),
{
    let mut i: usize = 0;
    while i < n
        invariant
            0 <= i <= n,
            out@ == old(out)@ + repeated(c, i as nat),
        decreases n - i,
    {
        string_push(out, c);
        i = i + 1;
        assert(repeated(c, i as nat) =~= repeated(c, (i - 1) as nat).push(c));
    }
}

/// One border line: `left`, `TABLE_WIDTH + 2` horizontal rules, `right`,
/// newline — the same width as a `row`.
pub open spec fn spec_border(left: char, right: char) -> Seq<char> {
    seq![left] + repeated('─', (TABLE_WIDTH + 2) as nat) + seq![right, '\n']
}

/// Draws one border line, as wide as `row`'s `"│ content │"`.
pub fn border(out: &mut String, left: char, right: char)
    ensures
        final(out)@ == old(out)@ + spec_border(left, right),
{
    string_push(out, left);
    push_repeated(out, '─', TABLE_WIDTH + 2);
    string_push(out, right);
    string_push(out, '\n');
    assert(out@ =~= old(out)@ + spec_border(left, right));
}

/// One table row: the side borders around `content`, padded with spaces to
/// `TABLE_WIDTH` visible columns (no padding once it is that wide).
pub open spec fn spec_row(content: Seq<char>) -> Seq<char> {
    let v = spec_visible_len(content);
    let pad: nat = if v < TABLE_WIDTH {
        (TABLE_WIDTH - v) as nat
    } else {
        0
    };
    "│ "@ + content + repeated(' ', pad) + " │\n"@
}

/// Wraps content in the table's side borders, padded to `TABLE_WIDTH` on
/// visible width so a coloured cell doesn't misalign the border.
pub fn row(out: &mut String, content: &str)
    ensures
        final(out)@ == old(out)@ + spec_row(content@),
{
    let pad = TABLE_WIDTH.saturating_sub(visible_len(content));
    out.append("│ ");
    out.append(content);
    push_repeated(out, ' ', pad);
    out.append(" │\n");
    assert(out@ =~= old(out)@ + spec_row(content@));
}

/// Columns the venue status is padded to on the header line.
pub const STATUS_WIDTH: usize = 56;

/// Columns the clock is right-aligned in on the header line.
pub const CLOCK_WIDTH: usize = 16;

/// The column header: "BIDS" and "ASKS", each centred over its cell (15
/// columns before a label, 16 after, one between the cells).
pub open spec fn spec_column_header() -> Seq<char> {
    repeated(' ', 15) + "BIDS"@ + repeated(' ', 32) + "ASKS"@ + repeated(' ', 16)
}

/// Builds the column header.
pub fn column_header() -> (r: String)
    ensures
        r@ == spec_column_header(),
{
    let mut r = String::new();
    push_repeated(&mut r, ' ', 15);
    r.append("BIDS");
    push_repeated(&mut r, ' ', 32);
    r.append("ASKS");
    push_repeated(&mut r, ' ', 16);
    r
}

/// `n - m`, or zero when `m` is at least `n`.
pub open spec fn gap(n: nat, m: nat) -> nat {
    if m < n {
        (n - m) as nat
    } else {
        0
    }
}

/// The header line's content: the status padded on visible width to
/// `STATUS_WIDTH`, then the clock right-aligned in `CLOCK_WIDTH` columns.
pub open spec fn spec_header(status: Seq<char>, clock: Seq<char>) -> Seq<char> {
    status + repeated(' ', gap(STATUS_WIDTH as nat, spec_visible_len(status))) + repeated(
        ' ',
        gap(CLOCK_WIDTH as nat, clock.len()),
    ) + clock
}

/// The table rows of `cells`: each bid cell, a space, and its ask cell.
pub open spec fn spec_cell_rows(cells: Seq<(String, String)>) -> Seq<char>
    decreases cells.len(),
{
    if cells.len() == 0 {
        Seq::empty()
    } else {
        spec_cell_rows(cells.drop_last()) + spec_row(cells.last().0@ + " "@ + cells.last().1@)
    }
}

/// One frame of the client's table: the cursor sent home when colour is
/// on, then the top border, the status-and-clock line, a rule, the column
/// header, a rule, one row per cell pair, a rule, the spread line and the
/// bottom border.
pub open spec fn spec_frame(
    status: Seq<char>,
    clock: Seq<char>,
    cells: Seq<(String, String)>,
    spread: Seq<char>,
    colour: bool,
) -> Seq<char> {
    (if colour {
        "\x1b[H"@
    } else {
        Seq::empty()
    }) + spec_border('┌', '┐') + spec_row(spec_header(status, clock)) + spec_border('├', '┤')
        + spec_row(spec_column_header()) + spec_border('├', '┤') + spec_cell_rows(cells) + spec_border(
        '├',
        '┤',
    ) + spec_row(spread) + spec_border('└', '┘')
}

/// Builds one frame as a boxed table: cursor home (with colour), then
/// borders and fixed-width rows — never a full-screen clear, which would
/// flicker. The status may carry colour codes, so it is padded on visible
/// width.
pub fn render_frame(
    status: &str,
    clock: &str,
    cells: &Vec<(String, String)>,
    spread: &str,
    colour: bool,
) -> (r: String)
    ensures
        r@ == spec_frame(status@, clock@, cells@, spread@, colour),
{
    let mut out = String::new();
    if colour {
        out.append("\x1b[H");
    }
    let ghost start = out@;
    border(&mut out, '┌', '┐');
    let mut header = String::from_str(status);
    let vis = visible_len(status);
    let pad = if vis < STATUS_WIDTH {
        STATUS_WIDTH - vis
    } else {
        0
    };
    push_repeated(&mut header, ' ', pad);
    let clock_len = str_chars(clock).len();
    let clock_pad = if clock_len < CLOCK_WIDTH {
        CLOCK_WIDTH - clock_len
    } else {
        0
    };
    push_repeated(&mut header, ' ', clock_pad);
    header.append(clock);
    assert(header@ =~= spec_header(status@, clock@));
    row(&mut out, header.as_str());
    border(&mut out, '├', '┤');
    let header_line = column_header();
    row(&mut out, header_line.as_str());
    border(&mut out, '├', '┤');
    let ghost before_rows = out@;
    let mut i: usize = 0;
    assert(cells@.take(0) =~= Seq::<(String, String)>::empty());
    while i < cells.len()
        invariant
            0 <= i <= cells@.len(),
            out@ == before_rows + spec_cell_rows(cells@.take(i as int)),
        decreases cells@.len() - i,
    {
        let mut line = String::from_str(cells[i].0.as_str());
        line.append(" ");
        line.append(cells[i].1.as_str());
        row(&mut out, line.as_str());
        proof {
            assert(cells@.take(i + 1).drop_last() =~= cells@.take(i as int));
            assert(cells@.take(i + 1).last() == cells@[i as int]);
            assert(out@ =~= before_rows + spec_cell_rows(cells@.take(i + 1)));
        }
        i = i + 1;
    }
    assert(cells@.take(cells@.len() as int) =~= cells@);
    border(&mut out, '├', '┤');
    row(&mut out, spread);
    border(&mut out, '└', '┘');
    assert(out@ =~= spec_frame(status@, clock@, cells@, spread@, colour));
    out
}

/// Level rows per side in every frame.
pub const ROWS: usize = 10;

/// A cell with no level in it: blank, a cell wide.
pub open spec fn blank_cell() -> Seq<char> {
    repeated(' ', CELL_WIDTH as nat)
}

/// Row `i`'s cell for a side whose formatted levels are `cells`: the level,
/// or a blank cell past the side's last level.
pub open spec fn cell_or_blank(cells: Seq<String>, i: int) -> Seq<char> {
    if 0 <= i < cells.len() {
        cells[i]@
    } else {
        blank_cell()
    }
}

/// The first `k` level rows of the table.
pub open spec fn spec_level_rows(bids: Seq<String>, asks: Seq<String>, k: nat) -> Seq<char>
    decreases k,
{
    if k == 0 {
        Seq::empty()
    } else {
        spec_level_rows(bids, asks, (k - 1) as nat) + spec_row(
            cell_or_blank(bids, k - 1) + " "@ + cell_or_blank(asks, k - 1),
        )
    }
}

/// The client's whole table: as `spec_frame`, with exactly `ROWS` level
/// rows, blank where a side has fewer levels.
pub open spec fn spec_table(
    status: Seq<char>,
    clock: Seq<char>,
    bids: Seq<String>,
    asks: Seq<String>,
    spread: Seq<char>,
    colour: bool,
) -> Seq<char> {
    (if colour {
        "\x1b[H"@
    } else {
        Seq::empty()
    }) + spec_border('┌', '┐') + spec_row(spec_header(status, clock)) + spec_border('├', '┤')
        + spec_row(spec_column_header()) + spec_border('├', '┤') + spec_level_rows(bids, asks, ROWS as nat)
        + spec_border('├', '┤') + spec_row(spread) + spec_border('└', '┘')
}

/// A blank cell.
fn blank() -> (r: String)
    ensures
        r@ == blank_cell(),
{
    let mut r = String::new();
    push_repeated(&mut r, ' ', CELL_WIDTH);
    r
}

/// The `ROWS` cell pairs of the table: each side's formatted levels in
/// order, cut to `ROWS`, blank cells past a side's last level.
pub fn level_rows(bids: &Vec<String>, asks: &Vec<String>) -> (r: Vec<(String, String)>)
    ensures
        r@.len() == ROWS,
        forall|i: int|
            0 <= i < ROWS ==> #[trigger] r@[i].0@ == cell_or_blank(bids@, i) && r@[i].1@
                == cell_or_blank(asks@, i),
{
    let mut r: Vec<(String, String)> = Vec::new();
    let mut i: usize = 0;
    while i < ROWS
        invariant
            0 <= i <= ROWS,
            r@.len() == i,
            forall|k: int|
                0 <= k < i ==> #[trigger] r@[k].0@ == cell_or_blank(bids@, k) && r@[k].1@
                    == cell_or_blank(asks@, k),
        decreases ROWS - i,
    {
        let bid = if i < bids.len() {
            bids[i].clone()
        } else {
            blank()
        };
        let ask = if i < asks.len() {
            asks[i].clone()
        } else {
            blank()
        };
        r.push((bid, ask));
        i = i + 1;
    }
    r
}

/// The rows `render_frame` draws for `level_rows`' cells are the table's
/// level rows.
proof fn lemma_level_rows(cells: Seq<(String, String)>, bids: Seq<String>, asks: Seq<String>, k: nat)
    requires
        k <= cells.len(),
        forall|i: int|
            0 <= i < cells.len() ==> #[trigger] cells[i].0@ == cell_or_blank(bids, i) && cells[i].1@
                == cell_or_blank(asks, i),
    ensures
        spec_cell_rows(cells.take(k as int)) == spec_level_rows(bids, asks, k),
    decreases k,
{
    if k > 0 {
        lemma_level_rows(cells, bids, asks, (k - 1) as nat);
        assert(cells.take(k as int).drop_last() =~= cells.take(k - 1));
        assert(cells.take(k as int).last() == cells[k - 1]);
    }
}

/// Builds the client's table: `render_frame` over the `ROWS` cell pairs of
/// the two sides' formatted levels.
pub fn render_table(
    status: &str,
    clock: &str,
    bids: &Vec<String>,
    asks: &Vec<String>,
    spread: &str,
    colour: bool,
) -> (r: String)
    ensures
        r@ == spec_table(status@, clock@, bids@, asks@, spread@, colour),
{
    let cells = level_rows(bids, asks);
    let r = render_frame(status, clock, &cells, spread, colour);
    proof {
        assert forall|i: int| 0 <= i < cells@.len() implies #[trigger] cells@[i].0@ == cell_or_blank(
            bids@,
            i,
        ) && cells@[i].1@ == cell_or_blank(asks@, i) by {
            assert(0 <= i < ROWS);
            let c = cells@[i];
            assert(c.0@ == cell_or_blank(bids@, i));
        }
        lemma_level_rows(cells@, bids@, asks@, ROWS as nat);
        assert(cells@.take(ROWS as int) =~= cells@);
    }
    r
}

/// `text` wrapped in the ANSI `code` and a reset when `colour` is on.
pub open spec fn spec_colourize(text: Seq<char>, code: Seq<char>, colour: bool) -> Seq<char> {
    if colour {
        code + text + "\x1b[0m"@
    } else {
        text
    }
}

/// Wraps `text` in an ANSI colour code and a reset, or leaves it plain.
pub fn colourize(text: &str, code: &str, colour: bool) -> (r: String)
    ensures
        r@ == spec_colourize(text@, code@, colour),
{
    if colour {
        let mut r = String::from_str(code);
        r.append(text);
        r.append("\x1b[0m");
        r
    } else {
        String::from_str(text)
    }
}

/// The two decimal digits of `n` (below 100), with a leading zero.
pub open spec fn two_digits(n: int) -> Seq<char> {
    seq![('0' as int + n / 10) as char, ('0' as int + n % 10) as char]
}

/// Wall-clock `HH:MM:SS` (UTC) of `unix_secs` seconds since the epoch.
pub open spec fn spec_hms(unix_secs: u64) -> Seq<char> {
    two_digits(((unix_secs / 3600) % 24) as int) + seq![':'] + two_digits(
        ((unix_secs / 60) % 60) as int,
    ) + seq![':'] + two_digits((unix_secs % 60) as int)
}

/// Appends the two digits of `n` (below 100).
fn push_two_digits(out: &mut String, n: u64)
    requires
        n < 100,
    ensures
        final(out)@ == old(out)@ + two_digits(n as int),
{
    let tens = ((('0' as u8) + ((n / 10) as u8)) as char);
    let ones = ((('0' as u8) + ((n % 10) as u8)) as char);
    string_push(out, tens);
    string_push(out, ones);
    assert(out@ =~= old(out)@ + two_digits(n as int));
}

/// Wall-clock `HH:MM:SS`, UTC, for `unix_secs` seconds since the epoch.
pub fn now_hms(unix_secs: u64) -> (s: String)
    ensures
        s@ == spec_hms(unix_secs),
{
    let mut s = String::new();
    push_two_digits(&mut s, (unix_secs / 3600) % 24);
    string_push(&mut s, ':');
    push_two_digits(&mut s, (unix_secs / 60) % 60);
    string_push(&mut s, ':');
    push_two_digits(&mut s, unix_secs % 60);
    assert(s@ =~= spec_hms(unix_secs));
    s
}

/// Where a depth bar of `fill_len` columns (at most a cell) starts and
/// ends in a cell.
pub open spec fn bar_span(fill_len: nat, fill_from: FillFrom) -> (int, int) {
    let f = if fill_len < CELL_WIDTH {
        fill_len as int
    } else {
        CELL_WIDTH as int
    };
    match fill_from {
        FillFrom::Left => (0, f),
        FillFrom::Right => (CELL_WIDTH - f, CELL_WIDTH as int),
    }
}

/// The sorted run boundaries of a cell: its start, the colour split, the
/// bar's two ends, and its end.
pub open spec fn boundaries(bar: (int, int)) -> Seq<int> {
    let (s, e) = bar;
    if CELL_FG_SPLIT <= s {
        seq![0, CELL_FG_SPLIT as int, s, e, CELL_WIDTH as int]
    } else if CELL_FG_SPLIT <= e {
        seq![0, s, CELL_FG_SPLIT as int, e, CELL_WIDTH as int]
    } else {
        seq![0, s, e, CELL_FG_SPLIT as int, CELL_WIDTH as int]
    }
}

/// One run of a shaded cell, from `start` to `end`: an SGR code restating
/// both colours (the price colour before the split, dim after; the bar
/// colour inside the bar, default outside), then those characters.
pub open spec fn run(
    plain: Seq<char>,
    start: int,
    end: int,
    price_fg: Seq<char>,
    bar_bg: Seq<char>,
    bar: (int, int),
) -> Seq<char> {
    if start == end {
        Seq::empty()
    } else {
        let fg = if start < CELL_FG_SPLIT {
            price_fg
        } else {
            "2"@
        };
        let bg = if bar.0 <= start && start < bar.1 {
            bar_bg
        } else {
            "49"@
        };
        "\x1b["@ + fg + ";"@ + bg + "m"@ + plain.subrange(start, end)
    }
}

/// The shaded cell: its four runs, then a reset.
pub open spec fn spec_shade_cell(
    plain: Seq<char>,
    price_fg: Seq<char>,
    bar_bg: Seq<char>,
    fill_len: nat,
    fill_from: FillFrom,
) -> Seq<char> {
    let bar = bar_span(fill_len, fill_from);
    let b = boundaries(bar);
    run(plain, b[0], b[1], price_fg, bar_bg, bar) + run(plain, b[1], b[2], price_fg, bar_bg, bar)
        + run(plain, b[2], b[3], price_fg, bar_bg, bar) + run(
        plain,
        b[3],
        b[4],
        price_fg,
        bar_bg,
        bar,
    ) + "\x1b[0m"@
}

/// Appends one run of a shaded cell.
fn push_run(
    out: &mut String,
    chars: &Vec<char>,
    start: usize,
    end: usize,
    price_fg: &str,
    bar_bg: &str,
    bar_start: usize,
    bar_end: usize,
)
    requires
        start <= end <= chars@.len(),
    ensures
        final(out)@ == old(out)@ + run(
            chars@,
            start as int,
            end as int,
            price_fg@,
            bar_bg@,
            (bar_start as int, bar_end as int),
        ),
{
    if start == end {
        assert(out@ =~= old(out)@ + Seq::<char>::empty());
        return;
    }
    out.append("\x1b[");
    if start < CELL_FG_SPLIT {
        out.append(price_fg);
    } else {
        out.append("2");
    }
    out.append(";");
    if start >= bar_start && start < bar_end {
        out.append(bar_bg);
    } else {
        out.append("49");
    }
    out.append("m");
    let mut k = start;
    let ghost mid = out@;
    while k < end
        invariant
            start <= k <= end,
            end <= chars@.len(),
            out@ == mid + chars@.subrange(start as int, k as int),
        decreases end - k,
    {
        string_push(out, chars[k]);
        k = k + 1;
        assert(chars@.subrange(start as int, k as int) =~= chars@.subrange(start as int, k - 1).push(
            chars@[k - 1],
        ));
    }
    let ghost fg = if start < CELL_FG_SPLIT {
        price_fg@
    } else {
        "2"@
    };
    let ghost bg = if bar_start <= start && start < bar_end {
        bar_bg@
    } else {
        "49"@
    };
    assert(out@ =~= old(out)@ + ("\x1b["@ + fg + ";"@ + bg + "m"@ + chars@.subrange(
        start as int,
        end as int,
    )));
}

/// Wraps `plain` in ANSI codes, combining two boundaries: `CELL_FG_SPLIT`
/// (the foreground switches to dim) and the depth bar's span (the
/// background). Each run restates both colours, since SGR state persists.
/// `plain` must hold at least a cell's width of characters.
pub fn shade_cell(plain: &str, price_fg: &str, bar_bg: &str, fill_len: usize, fill_from: FillFrom) -> (r: String)
    requires
        plain@.len() >= CELL_WIDTH,
    ensures
        r@ == spec_shade_cell(plain@, price_fg@, bar_bg@, fill_len as nat, fill_from),
{
    let fill_len = if fill_len < CELL_WIDTH {
        fill_len
    } else {
        CELL_WIDTH
    };
    let (bar_start, bar_end) = match fill_from {
        FillFrom::Left => (0, fill_len),
        FillFrom::Right => (CELL_WIDTH - fill_len, CELL_WIDTH),
    };
    let (b1, b2, b3) = if CELL_FG_SPLIT <= bar_start {
        (CELL_FG_SPLIT, bar_start, bar_end)
    } else if CELL_FG_SPLIT <= bar_end {
        (bar_start, CELL_FG_SPLIT, bar_end)
    } else {
        (bar_start, bar_end, CELL_FG_SPLIT)
    };
    let chars = str_chars(plain);
    let mut out = String::new();
    push_run(&mut out, &chars, 0, b1, price_fg, bar_bg, bar_start, bar_end);
    push_run(&mut out, &chars, b1, b2, price_fg, bar_bg, bar_start, bar_end);
    push_run(&mut out, &chars, b2, b3, price_fg, bar_bg, bar_start, bar_end);
    push_run(&mut out, &chars, b3, CELL_WIDTH, price_fg, bar_bg, bar_start, bar_end);
    out.append("\x1b[0m");
    out
}

/// What a terminal shows of `s` read in `mode`: the characters that
/// `visible_from` counts, in order.
pub open spec fn shown_from(s: Seq<char>, mode: int) -> Seq<char>
    decreases s.len(),
{
    if s.len() == 0 {
        Seq::empty()
    } else {
        let c = s[0];
        let rest = s.drop_first();
        if mode == 0 {
            if c == ESC {
                shown_from(rest, 1)
            } else {
                seq![c] + shown_from(rest, 0)
            }
        } else if mode == 1 {
            if c == '[' {
                shown_from(rest, 2)
            } else {
                shown_from(rest, 0)
            }
        } else if is_ascii_alpha(c) {
            shown_from(rest, 0)
        } else {
            shown_from(rest, 2)
        }
    }
}

/// The mode the reader is in after reading `s` from `mode`.
pub open spec fn end_mode(s: Seq<char>, mode: int) -> int
    decreases s.len(),
{
    if s.len() == 0 {
        mode
    } else {
        let c = s[0];
        let rest = s.drop_first();
        if mode == 0 {
            if c == ESC {
                end_mode(rest, 1)
            } else {
                end_mode(rest, 0)
            }
        } else if mode == 1 {
            if c == '[' {
                end_mode(rest, 2)
            } else {
                end_mode(rest, 0)
            }
        } else if is_ascii_alpha(c) {
            end_mode(rest, 0)
        } else {
            end_mode(rest, 2)
        }
    }
}

/// What a terminal shows of `s`: `s` with its escape sequences taken out.
pub open spec fn spec_shown(s: Seq<char>) -> Seq<char> {
    shown_from(s, 0)
}

/// The visible length is the length of what is shown.
proof fn lemma_shown_len(s: Seq<char>, mode: int)
    ensures
        visible_from(s, mode) == shown_from(s, mode).len(),
    decreases s.len(),
{
    if s.len() > 0 {
        lemma_shown_len(s.drop_first(), 0);
        lemma_shown_len(s.drop_first(), 1);
        lemma_shown_len(s.drop_first(), 2);
    }
}

/// Reading `a + b` shows what `a` shows, then what `b` shows from the mode
/// `a` ends in.
proof fn lemma_shown_concat(a: Seq<char>, b: Seq<char>, mode: int)
    ensures
        shown_from(a + b, mode) == shown_from(a, mode) + shown_from(b, end_mode(a, mode)),
        end_mode(a + b, mode) == end_mode(b, end_mode(a, mode)),
    decreases a.len(),
{
    if a.len() == 0 {
        assert(a + b =~= b);
    } else {
        assert((a + b).drop_first() =~= a.drop_first() + b);
        assert((a + b)[0] == a[0]);
        lemma_shown_concat(a.drop_first(), b, 0);
        lemma_shown_concat(a.drop_first(), b, 1);
        lemma_shown_concat(a.drop_first(), b, 2);
        assert(seq![a[0]] + (shown_from(a.drop_first(), 0) + shown_from(b, end_mode(a.drop_first(), 0)))
            =~= (seq![a[0]] + shown_from(a.drop_first(), 0)) + shown_from(b, end_mode(a.drop_first(), 0)));
    }
}

/// `s` holds no ASCII letter.
pub open spec fn no_letters(s: Seq<char>) -> bool {
    forall|i: int| 0 <= i < s.len() ==> !is_ascii_alpha(#[trigger] s[i])
}

/// `s` holds no escape character.
pub open spec fn no_escapes(s: Seq<char>) -> bool {
    forall|i: int| 0 <= i < s.len() ==> #[trigger] s[i] != ESC
}

/// Inside an escape sequence, text with no letter shows nothing and keeps
/// the sequence open.
proof fn lemma_inside_sequence(s: Seq<char>)
    requires
        no_letters(s),
    ensures
        shown_from(s, 2) == Seq::<char>::empty(),
        end_mode(s, 2) == 2,
    decreases s.len(),
{
    if s.len() > 0 {
        assert(!is_ascii_alpha(s[0]));
        assert forall|i: int| 0 <= i < s.drop_first().len() implies !is_ascii_alpha(
            #[trigger] s.drop_first()[i],
        ) by {
            assert(s.drop_first()[i] == s[i + 1]);
        }
        lemma_inside_sequence(s.drop_first());
    }
}

/// Plain text with no escape shows as itself.
proof fn lemma_plain_shown(s: Seq<char>)
    requires
        no_escapes(s),
    ensures
        shown_from(s, 0) == s,
        end_mode(s, 0) == 0,
    decreases s.len(),
{
    if s.len() > 0 {
        assert(s[0] != ESC);
        assert forall|i: int| 0 <= i < s.drop_first().len() implies #[trigger] s.drop_first()[i]
            != ESC by {
            assert(s.drop_first()[i] == s[i + 1]);
        }
        lemma_plain_shown(s.drop_first());
        assert(seq![s[0]] + s.drop_first() =~= s);
    }
}

/// An SGR code `ESC [ fg ; bg m` with no letter in `fg` or `bg` shows
/// nothing and leaves plain text after it.
proof fn lemma_sgr_code(fg: Seq<char>, bg: Seq<char>)
    requires
        no_letters(fg),
        no_letters(bg),
    ensures
        shown_from("\x1b["@ + fg + ";"@ + bg + "m"@, 0) == Seq::<char>::empty(),
        end_mode("\x1b["@ + fg + ";"@ + bg + "m"@, 0) == 0,
{
    reveal_strlit("\x1b[");
    reveal_strlit(";");
    reveal_strlit("m");
    let open = "\x1b["@;
    let mid = fg + ";"@ + bg;
    assert(no_letters(mid)) by {
        assert forall|i: int| 0 <= i < mid.len() implies !is_ascii_alpha(#[trigger] mid[i]) by {
            if i < fg.len() {
                assert(mid[i] == fg[i]);
            } else if i > fg.len() {
                assert(mid[i] == bg[i - fg.len() - 1]);
            } else {
                assert(mid[i] == ';');
            }
        }
    }
    lemma_inside_sequence(mid);
    assert(open.len() == 2 && open[0] == ESC && open[1] == '[');
    let tail = seq!['['];
    assert(open.drop_first() =~= tail);
    assert(tail.drop_first() =~= Seq::<char>::empty());
    assert(tail[0] == '[');
    assert(shown_from(tail, 1) == shown_from(Seq::<char>::empty(), 2));
    assert(end_mode(tail, 1) == end_mode(Seq::<char>::empty(), 2));
    assert(shown_from(open, 0) == shown_from(tail, 1));
    assert(end_mode(open, 0) == end_mode(tail, 1));
    assert(shown_from(open, 0) =~= Seq::<char>::empty());
    assert(end_mode(open, 0) == 2);
    assert("m"@.len() == 1 && "m"@[0] == 'm');
    assert("m"@.drop_first() =~= Seq::<char>::empty());
    assert(is_ascii_alpha('m'));
    assert(shown_from("m"@, 2) == shown_from(Seq::<char>::empty(), 0));
    assert(end_mode("m"@, 2) == end_mode(Seq::<char>::empty(), 0));
    assert(shown_from("m"@, 2) =~= Seq::<char>::empty());
    lemma_shown_concat(open, mid, 0);
    lemma_shown_concat(open + mid, "m"@, 0);
    assert(open + mid + "m"@ =~= "\x1b["@ + fg + ";"@ + bg + "m"@);
}

/// One run of a shaded cell shows its slice of the plain text, and leaves
/// plain text after it.
proof fn lemma_run_shown(
    plain: Seq<char>,
    start: int,
    end: int,
    price_fg: Seq<char>,
    bar_bg: Seq<char>,
    bar: (int, int),
)
    requires
        0 <= start <= end <= plain.len(),
        no_escapes(plain),
        no_letters(price_fg),
        no_letters(bar_bg),
    ensures
        shown_from(run(plain, start, end, price_fg, bar_bg, bar), 0) == plain.subrange(start, end),
        end_mode(run(plain, start, end, price_fg, bar_bg, bar), 0) == 0,
{
    reveal_strlit("2");
    reveal_strlit("49");
    if start == end {
        assert(plain.subrange(start, end) =~= Seq::<char>::empty());
    } else {
        let fg = if start < CELL_FG_SPLIT {
            price_fg
        } else {
            "2"@
        };
        let bg = if bar.0 <= start && start < bar.1 {
            bar_bg
        } else {
            "49"@
        };
        assert(no_letters(fg));
        assert(no_letters(bg));
        lemma_sgr_code(fg, bg);
        let t = plain.subrange(start, end);
        assert(no_escapes(t)) by {
            assert forall|i: int| 0 <= i < t.len() implies #[trigger] t[i] != ESC by {
                assert(t[i] == plain[start + i]);
            }
        }
        lemma_plain_shown(t);
        lemma_shown_concat("\x1b["@ + fg + ";"@ + bg + "m"@, t, 0);
        assert(Seq::<char>::empty() + t =~= t);
    }
}

/// A shaded cell shows exactly the first `CELL_WIDTH` characters of its
/// plain text (the escape codes taken out give the text back), so it is
/// `CELL_WIDTH` columns wide, and it ends with a reset — for plain text with
/// no escape of its own and colour codes with no letter in them.
pub proof fn law_shade_cell_shows_the_plain_text(
    plain: Seq<char>,
    price_fg: Seq<char>,
    bar_bg: Seq<char>,
    fill_len: nat,
    fill_from: FillFrom,
)
    requires
        plain.len() >= CELL_WIDTH,
        no_escapes(plain),
        no_letters(price_fg),
        no_letters(bar_bg),
    ensures
        spec_shown(spec_shade_cell(plain, price_fg, bar_bg, fill_len, fill_from)) == plain.subrange(
            0,
            CELL_WIDTH as int,
        ),
        spec_visible_len(spec_shade_cell(plain, price_fg, bar_bg, fill_len, fill_from)) == CELL_WIDTH,
        spec_shade_cell(plain, price_fg, bar_bg, fill_len, fill_from).len() >= 4,
        spec_shade_cell(plain, price_fg, bar_bg, fill_len, fill_from).skip(
            spec_shade_cell(plain, price_fg, bar_bg, fill_len, fill_from).len() - 4,
        ) == "\x1b[0m"@,
{
    reveal_strlit("\x1b[0m");
    reveal_strlit("0");
    let bar = bar_span(fill_len, fill_from);
    let b = boundaries(bar);
    let r0 = run(plain, b[0], b[1], price_fg, bar_bg, bar);
    let r1 = run(plain, b[1], b[2], price_fg, bar_bg, bar);
    let r2 = run(plain, b[2], b[3], price_fg, bar_bg, bar);
    let r3 = run(plain, b[3], b[4], price_fg, bar_bg, bar);
    let reset = "\x1b[0m"@;
    lemma_run_shown(plain, b[0], b[1], price_fg, bar_bg, bar);
    lemma_run_shown(plain, b[1], b[2], price_fg, bar_bg, bar);
    lemma_run_shown(plain, b[2], b[3], price_fg, bar_bg, bar);
    lemma_run_shown(plain, b[3], b[4], price_fg, bar_bg, bar);
    // The reset shows nothing: ESC, `[`, then `0m` inside the sequence.
    let r1s = seq!['[', '0', 'm'];
    let r2s = seq!['0', 'm'];
    let r3s = seq!['m'];
    assert(reset.len() == 4 && reset[0] == ESC);
    assert(reset.drop_first() =~= r1s);
    assert(r1s.drop_first() =~= r2s);
    assert(r2s.drop_first() =~= r3s);
    assert(r3s.drop_first() =~= Seq::<char>::empty());
    assert(r1s[0] == '[' && r2s[0] == '0' && r3s[0] == 'm');
    assert(shown_from(r3s, 2) == shown_from(Seq::<char>::empty(), 0));
    assert(shown_from(r2s, 2) == shown_from(r3s, 2));
    assert(shown_from(r1s, 1) == shown_from(r2s, 2));
    assert(shown_from(reset, 0) == shown_from(r1s, 1));
    assert(shown_from(reset, 0) =~= Seq::<char>::empty());
    // The runs cover the cell from its start to its end, in order.
    assert(b[0] == 0 && b[4] == CELL_WIDTH);
    assert(b[0] <= b[1] <= b[2] <= b[3] <= b[4]);
    lemma_shown_concat(r0, r1, 0);
    lemma_shown_concat(r0 + r1, r2, 0);
    lemma_shown_concat(r0 + r1 + r2, r3, 0);
    lemma_shown_concat(r0 + r1 + r2 + r3, reset, 0);
    let out = r0 + r1 + r2 + r3 + reset;
    assert(out == spec_shade_cell(plain, price_fg, bar_bg, fill_len, fill_from));
    assert(plain.subrange(b[0], b[1]) + plain.subrange(b[1], b[2]) + plain.subrange(b[2], b[3])
        + plain.subrange(b[3], b[4]) + Seq::<char>::empty() =~= plain.subrange(0, CELL_WIDTH as int));
    lemma_shown_len(out, 0);
    assert(out.skip(out.len() - 4) =~= reset);
}

/// How many line ends `s` holds.
pub open spec fn newlines(s: Seq<char>) -> nat
    decreases s.len(),
{
    if s.len() == 0 {
        0
    } else {
        newlines(s.drop_last()) + if s.last() == '\n' {
            1nat
        } else {
            0nat
        }
    }
}

/// `s` holds no line end.
pub open spec fn no_newline(s: Seq<char>) -> bool {
    forall|i: int| 0 <= i < s.len() ==> #[trigger] s[i] != '\n'
}

proof fn lemma_newlines_concat(a: Seq<char>, b: Seq<char>)
    ensures
        newlines(a + b) == newlines(a) + newlines(b),
    decreases b.len(),
{
    if b.len() == 0 {
        assert(a + b =~= a);
    } else {
        lemma_newlines_concat(a, b.drop_last());
        assert((a + b).drop_last() =~= a + b.drop_last());
        assert((a + b).last() == b.last());
    }
}

proof fn lemma_no_newline(s: Seq<char>)
    requires
        no_newline(s),
    ensures
        newlines(s) == 0,
    decreases s.len(),
{
    if s.len() > 0 {
        assert(s[s.len() - 1] != '\n');
        assert forall|i: int| 0 <= i < s.drop_last().len() implies #[trigger] s.drop_last()[i] != '\n' by {
            assert(s.drop_last()[i] == s[i]);
        }
        lemma_no_newline(s.drop_last());
    }
}

proof fn lemma_concat_no_newline(a: Seq<char>, b: Seq<char>)
    requires
        no_newline(a),
        no_newline(b),
    ensures
        no_newline(a + b),
{
    assert forall|i: int| 0 <= i < (a + b).len() implies #[trigger] (a + b)[i] != '\n' by {
        if i < a.len() {
            assert((a + b)[i] == a[i]);
        } else {
            assert((a + b)[i] == b[i - a.len()]);
        }
    }
}

proof fn lemma_repeated_no_newline(c: char, n: nat)
    requires
        c != '\n',
    ensures
        no_newline(repeated(c, n)),
{
}

/// A border line holds one line end, at its end.
proof fn lemma_border_newlines(left: char, right: char)
    requires
        left != '\n',
        right != '\n',
    ensures
        newlines(spec_border(left, right)) == 1,
{
    let rep = repeated('─', (TABLE_WIDTH + 2) as nat);
    lemma_repeated_no_newline('─', (TABLE_WIDTH + 2) as nat);
    lemma_concat_no_newline(seq![left], rep);
    lemma_concat_no_newline(seq![left] + rep, seq![right]);
    let x = seq![left] + rep + seq![right];
    lemma_no_newline(x);
    assert(spec_border(left, right) =~= x.push('\n'));
    assert(x.push('\n').drop_last() =~= x);
    assert(x.push('\n').last() == '\n');
}

/// A row of content with no line end holds one, at its end.
proof fn lemma_row_newlines(content: Seq<char>)
    requires
        no_newline(content),
    ensures
        newlines(spec_row(content)) == 1,
{
    reveal_strlit("│ ");
    reveal_strlit(" │\n");
    let v = spec_visible_len(content);
    let pad: nat = if v < TABLE_WIDTH {
        (TABLE_WIDTH - v) as nat
    } else {
        0
    };
    let front = "│ "@ + content + repeated(' ', pad);
    assert(no_newline("│ "@));
    lemma_concat_no_newline("│ "@, content);
    lemma_concat_no_newline("│ "@ + content, repeated(' ', pad));
    lemma_concat_no_newline(front, seq![' ', '│']);
    let x = front + seq![' ', '│'];
    lemma_no_newline(x);
    assert(" │\n"@ =~= seq![' ', '│', '\n']);
    assert(spec_row(content) =~= x.push('\n'));
    assert(x.push('\n').drop_last() =~= x);
    assert(x.push('\n').last() == '\n');
}

/// Every table row holds one line end, when no cell holds one.
proof fn lemma_level_rows_newlines(bids: Seq<String>, asks: Seq<String>, k: nat)
    requires
        forall|i: int| 0 <= i < bids.len() ==> no_newline(#[trigger] bids[i]@),
        forall|i: int| 0 <= i < asks.len() ==> no_newline(#[trigger] asks[i]@),
    ensures
        newlines(spec_level_rows(bids, asks, k)) == k,
    decreases k,
{
    reveal_strlit(" ");
    if k > 0 {
        lemma_level_rows_newlines(bids, asks, (k - 1) as nat);
        let b = cell_or_blank(bids, k - 1);
        let a = cell_or_blank(asks, k - 1);
        lemma_repeated_no_newline(' ', CELL_WIDTH as nat);
        assert(no_newline(b));
        assert(no_newline(a));
        assert(no_newline(" "@));
        lemma_concat_no_newline(b, " "@);
        lemma_concat_no_newline(b + " "@, a);
        lemma_row_newlines(b + " "@ + a);
        lemma_newlines_concat(spec_level_rows(bids, asks, (k - 1) as nat), spec_row(b + " "@ + a));
    }
}

/// The client's table is always `8 + ROWS` lines, each ended by a line
/// end, whatever the two sides hold — when the status, clock, spread and
/// formatted cells hold no line end of their own.
pub proof fn law_table_has_fixed_lines(
    status: Seq<char>,
    clock: Seq<char>,
    bids: Seq<String>,
    asks: Seq<String>,
    spread: Seq<char>,
    colour: bool,
)
    requires
        no_newline(status),
        no_newline(clock),
        no_newline(spread),
        forall|i: int| 0 <= i < bids.len() ==> no_newline(#[trigger] bids[i]@),
        forall|i: int| 0 <= i < asks.len() ==> no_newline(#[trigger] asks[i]@),
    ensures
        newlines(spec_table(status, clock, bids, asks, spread, colour)) == 8 + ROWS,
        spec_table(status, clock, bids, asks, spread, colour).last() == '\n',
{
    reveal_strlit("\x1b[H");
    reveal_strlit("BIDS");
    reveal_strlit("ASKS");
    let home: Seq<char> = if colour {
        "\x1b[H"@
    } else {
        Seq::empty()
    };
    assert(no_newline(home));
    lemma_no_newline(home);
    lemma_border_newlines('┌', '┐');
    lemma_border_newlines('├', '┤');
    lemma_border_newlines('└', '┘');
    // The header line.
    let h = spec_header(status, clock);
    let p1 = repeated(' ', gap(STATUS_WIDTH as nat, spec_visible_len(status)));
    let p2 = repeated(' ', gap(CLOCK_WIDTH as nat, clock.len()));
    lemma_concat_no_newline(status, p1);
    lemma_concat_no_newline(status + p1, p2);
    lemma_concat_no_newline(status + p1 + p2, clock);
    lemma_row_newlines(h);
    // The column header.
    let ch = spec_column_header();
    assert(no_newline("BIDS"@));
    assert(no_newline("ASKS"@));
    lemma_concat_no_newline(repeated(' ', 15), "BIDS"@);
    lemma_concat_no_newline(repeated(' ', 15) + "BIDS"@, repeated(' ', 32));
    lemma_concat_no_newline(repeated(' ', 15) + "BIDS"@ + repeated(' ', 32), "ASKS"@);
    lemma_concat_no_newline(repeated(' ', 15) + "BIDS"@ + repeated(' ', 32) + "ASKS"@, repeated(' ', 16));
    lemma_row_newlines(ch);
    lemma_level_rows_newlines(bids, asks, ROWS as nat);
    lemma_row_newlines(spread);
    let t0 = home + spec_border('┌', '┐');
    let t1 = t0 + spec_row(h);
    let t2 = t1 + spec_border('├', '┤');
    let t3 = t2 + spec_row(ch);
    let t4 = t3 + spec_border('├', '┤');
    let t5 = t4 + spec_level_rows(bids, asks, ROWS as nat);
    let t6 = t5 + spec_border('├', '┤');
    let t7 = t6 + spec_row(spread);
    let t8 = t7 + spec_border('└', '┘');
    lemma_newlines_concat(home, spec_border('┌', '┐'));
    lemma_newlines_concat(t0, spec_row(h));
    lemma_newlines_concat(t1, spec_border('├', '┤'));
    lemma_newlines_concat(t2, spec_row(ch));
    lemma_newlines_concat(t3, spec_border('├', '┤'));
    lemma_newlines_concat(t4, spec_level_rows(bids, asks, ROWS as nat));
    lemma_newlines_concat(t5, spec_border('├', '┤'));
    lemma_newlines_concat(t6, spec_row(spread));
    lemma_newlines_concat(t7, spec_border('└', '┘'));
    assert(t8 == spec_table(status, clock, bids, asks, spread, colour));
    assert(spec_border('└', '┘').last() == '\n');
    assert(t8.last() == spec_border('└', '┘').last());
}

/// What a terminal shows of `s`, each shown character with the SGR
/// parameters in force for it (those of the last `ESC [ ... m` before it),
/// reading from `mode` with the sequence parameters `params` gathered so far
/// and `style` in force.
pub open spec fn styled_from(s: Seq<char>, mode: int, params: Seq<char>, style: Seq<char>) -> Seq<
    (char, Seq<char>),
>
    decreases s.len(),
{
    if s.len() == 0 {
        Seq::empty()
    } else {
        let c = s[0];
        let rest = s.drop_first();
        if mode == 0 {
            if c == ESC {
                styled_from(rest, 1, Seq::empty(), style)
            } else {
                seq![(c, style)] + styled_from(rest, 0, params, style)
            }
        } else if mode == 1 {
            if c == '[' {
                styled_from(rest, 2, Seq::empty(), style)
            } else {
                styled_from(rest, 0, Seq::empty(), style)
            }
        } else if is_ascii_alpha(c) {
            styled_from(rest, 0, Seq::empty(), if c == 'm' { params } else { style })
        } else {
            styled_from(rest, 2, params.push(c), style)
        }
    }
}

/// The reader's mode, gathered parameters and style in force after `s`.
pub open spec fn styled_end(s: Seq<char>, mode: int, params: Seq<char>, style: Seq<char>) -> (
    int,
    Seq<char>,
    Seq<char>,
)
    decreases s.len(),
{
    if s.len() == 0 {
        (mode, params, style)
    } else {
        let c = s[0];
        let rest = s.drop_first();
        if mode == 0 {
            if c == ESC {
                styled_end(rest, 1, Seq::empty(), style)
            } else {
                styled_end(rest, 0, params, style)
            }
        } else if mode == 1 {
            if c == '[' {
                styled_end(rest, 2, Seq::empty(), style)
            } else {
                styled_end(rest, 0, Seq::empty(), style)
            }
        } else if is_ascii_alpha(c) {
            styled_end(rest, 0, Seq::empty(), if c == 'm' { params } else { style })
        } else {
            styled_end(rest, 2, params.push(c), style)
        }
    }
}

/// The characters of `t`, each in `style`.
pub open spec fn in_style(t: Seq<char>, style: Seq<char>) -> Seq<(char, Seq<char>)> {
    Seq::new(t.len(), |i: int| (t[i], style))
}

proof fn lemma_styled_concat(a: Seq<char>, b: Seq<char>, mode: int, params: Seq<char>, style: Seq<char>)
    ensures
        ({
            let e = styled_end(a, mode, params, style);
            &&& styled_from(a + b, mode, params, style) == styled_from(a, mode, params, style)
                + styled_from(b, e.0, e.1, e.2)
            &&& styled_end(a + b, mode, params, style) == styled_end(b, e.0, e.1, e.2)
        }),
    decreases a.len(),
{
    if a.len() == 0 {
        assert(a + b =~= b);
        assert(styled_from(a, mode, params, style) =~= Seq::<(char, Seq<char>)>::empty());
        assert(Seq::<(char, Seq<char>)>::empty() + styled_from(b, mode, params, style) =~= styled_from(
            b,
            mode,
            params,
            style,
        ));
    } else {
        let c = a[0];
        assert((a + b).drop_first() =~= a.drop_first() + b);
        assert((a + b)[0] == c);
        let r = a.drop_first();
        lemma_styled_concat(r, b, 0, params, style);
        lemma_styled_concat(r, b, 1, Seq::empty(), style);
        lemma_styled_concat(r, b, 2, Seq::empty(), style);
        lemma_styled_concat(r, b, 0, Seq::empty(), style);
        lemma_styled_concat(r, b, 0, Seq::empty(), params);
        lemma_styled_concat(r, b, 2, params.push(c), style);
        let e = styled_end(r, 0, params, style);
        assert(seq![(c, style)] + (styled_from(r, 0, params, style) + styled_from(b, e.0, e.1, e.2))
            =~= (seq![(c, style)] + styled_from(r, 0, params, style)) + styled_from(b, e.0, e.1, e.2));
    }
}

/// Plain text with no escape shows as itself, in the style in force.
proof fn lemma_plain_styled(t: Seq<char>, params: Seq<char>, style: Seq<char>)
    requires
        no_escapes(t),
    ensures
        styled_from(t, 0, params, style) == in_style(t, style),
        styled_end(t, 0, params, style) == (0int, params, style),
    decreases t.len(),
{
    if t.len() == 0 {
        assert(in_style(t, style) =~= Seq::<(char, Seq<char>)>::empty());
    } else {
        assert(t[0] != ESC);
        let r = t.drop_first();
        assert forall|i: int| 0 <= i < r.len() implies #[trigger] r[i] != ESC by {
            assert(r[i] == t[i + 1]);
        }
        lemma_plain_styled(r, params, style);
        assert(seq![(t[0], style)] + in_style(r, style) =~= in_style(t, style));
    }
}

/// Inside an escape sequence, text with no letter is gathered as its
/// parameters and shows nothing.
proof fn lemma_params_gathered(u: Seq<char>, params: Seq<char>, style: Seq<char>)
    requires
        no_letters(u),
    ensures
        styled_from(u, 2, params, style) == Seq::<(char, Seq<char>)>::empty(),
        styled_end(u, 2, params, style) == (2int, params + u, style),
    decreases u.len(),
{
    if u.len() == 0 {
        assert(params + u =~= params);
    } else {
        assert(!is_ascii_alpha(u[0]));
        let r = u.drop_first();
        assert forall|i: int| 0 <= i < r.len() implies !is_ascii_alpha(#[trigger] r[i]) by {
            assert(r[i] == u[i + 1]);
        }
        lemma_params_gathered(r, params.push(u[0]), style);
        assert(params.push(u[0]) + r =~= params + u);
    }
}

/// An SGR code `ESC [ p m`, with no letter in `p`, shows nothing and puts
/// `p` in force.
proof fn lemma_sgr_styled(p: Seq<char>, params: Seq<char>, style: Seq<char>)
    requires
        no_letters(p),
    ensures
        styled_from(seq![ESC, '['] + p + seq!['m'], 0, params, style) == Seq::<(char, Seq<char>)>::empty(),
        styled_end(seq![ESC, '['] + p + seq!['m'], 0, params, style).0 == 0,
        styled_end(seq![ESC, '['] + p + seq!['m'], 0, params, style).2 == p,
{
    let open = seq![ESC, '['];
    assert(open.drop_first() =~= seq!['[']);
    assert(seq!['['].drop_first() =~= Seq::<char>::empty());
    assert(styled_from(seq!['['], 1, Seq::empty(), style) == styled_from(Seq::<char>::empty(), 2, Seq::empty(), style));
    assert(styled_end(seq!['['], 1, Seq::empty(), style) == styled_end(Seq::<char>::empty(), 2, Seq::empty(), style));
    assert(styled_from(open, 0, params, style) =~= Seq::<(char, Seq<char>)>::empty());
    assert(styled_end(open, 0, params, style) == (2int, Seq::<char>::empty(), style));
    lemma_params_gathered(p, Seq::empty(), style);
    assert(Seq::<char>::empty() + p =~= p);
    lemma_styled_concat(open, p, 0, params, style);
    let m = seq!['m'];
    assert(m.drop_first() =~= Seq::<char>::empty());
    assert(is_ascii_alpha('m'));
    assert(styled_from(m, 2, p, style) == styled_from(Seq::<char>::empty(), 0, Seq::empty(), p));
    assert(styled_end(m, 2, p, style) == styled_end(Seq::<char>::empty(), 0, Seq::empty(), p));
    lemma_styled_concat(open + p, m, 0, params, style);
    assert(styled_from(open + p, 0, params, style) =~= Seq::<(char, Seq<char>)>::empty());
    assert(Seq::<(char, Seq<char>)>::empty() + Seq::<(char, Seq<char>)>::empty() =~= Seq::<
        (char, Seq<char>),
    >::empty());
}

/// The SGR parameters a run of a shaded cell starting at `start` puts in
/// force: foreground, `;`, background.
pub open spec fn run_style(start: int, price_fg: Seq<char>, bar_bg: Seq<char>, bar: (int, int)) -> Seq<char> {
    (if start < CELL_FG_SPLIT {
        price_fg
    } else {
        "2"@
    }) + ";"@ + (if bar.0 <= start && start < bar.1 {
        bar_bg
    } else {
        "49"@
    })
}

/// One run of a shaded cell shows its slice of the plain text in its
/// style, and leaves the reader outside any sequence.
proof fn lemma_run_styled(
    plain: Seq<char>,
    start: int,
    end: int,
    price_fg: Seq<char>,
    bar_bg: Seq<char>,
    bar: (int, int),
    params: Seq<char>,
    style: Seq<char>,
)
    requires
        0 <= start <= end <= plain.len(),
        no_escapes(plain),
        no_letters(price_fg),
        no_letters(bar_bg),
    ensures
        styled_from(run(plain, start, end, price_fg, bar_bg, bar), 0, params, style) == in_style(
            plain.subrange(start, end),
            run_style(start, price_fg, bar_bg, bar),
        ),
        styled_end(run(plain, start, end, price_fg, bar_bg, bar), 0, params, style).0 == 0,
{
    reveal_strlit("2");
    reveal_strlit("49");
    reveal_strlit(";");
    reveal_strlit("m");
    reveal_strlit("\x1b[");
    let st = run_style(start, price_fg, bar_bg, bar);
    if start == end {
        assert(in_style(plain.subrange(start, end), st) =~= Seq::<(char, Seq<char>)>::empty());
    } else {
        let fg = if start < CELL_FG_SPLIT {
            price_fg
        } else {
            "2"@
        };
        let bg = if bar.0 <= start && start < bar.1 {
            bar_bg
        } else {
            "49"@
        };
        let p = fg + ";"@ + bg;
        assert(no_letters(p)) by {
            assert forall|i: int| 0 <= i < p.len() implies !is_ascii_alpha(#[trigger] p[i]) by {
                if i < fg.len() {
                    assert(p[i] == fg[i]);
                } else if i > fg.len() {
                    assert(p[i] == bg[i - fg.len() - 1]);
                } else {
                    assert(p[i] == ';');
                }
            }
        }
        let code = seq![ESC, '['] + p + seq!['m'];
        assert(code =~= "\x1b["@ + fg + ";"@ + bg + "m"@);
        lemma_sgr_styled(p, params, style);
        let t = plain.subrange(start, end);
        assert(no_escapes(t)) by {
            assert forall|i: int| 0 <= i < t.len() implies #[trigger] t[i] != ESC by {
                assert(t[i] == plain[start + i]);
            }
        }
        let e = styled_end(code, 0, params, style);
        lemma_plain_styled(t, e.1, p);
        lemma_styled_concat(code, t, 0, params, style);
        assert(run(plain, start, end, price_fg, bar_bg, bar) == code + t);
        assert(Seq::<(char, Seq<char>)>::empty() + in_style(t, p) =~= in_style(t, p));
    }
}

/// Column `c` of a cell lies under a depth bar of `fill_len` columns
/// growing from `fill_from` (the bar is at most a cell wide).
pub open spec fn under_bar(c: int, fill_len: nat, fill_from: FillFrom) -> bool {
    let f: int = if fill_len < CELL_WIDTH {
        fill_len as int
    } else {
        CELL_WIDTH as int
    };
    match fill_from {
        FillFrom::Left => c < f,
        FillFrom::Right => c >= CELL_WIDTH - f,
    }
}

/// Every column of a shaded cell shows its plain character with the
/// foreground `price_fg` before `CELL_FG_SPLIT` and dim (`2`) from there on,
/// and the background `bar_bg` under the depth bar and the default (`49`)
/// elsewhere — for every fill length and side, for plain text with no
/// escape of its own and colour codes with no letter in them.
pub proof fn law_shade_cell_colours_each_column(
    plain: Seq<char>,
    price_fg: Seq<char>,
    bar_bg: Seq<char>,
    fill_len: nat,
    fill_from: FillFrom,
)
    requires
        plain.len() >= CELL_WIDTH,
        no_escapes(plain),
        no_letters(price_fg),
        no_letters(bar_bg),
    ensures
        ({
            let shown = styled_from(
                spec_shade_cell(plain, price_fg, bar_bg, fill_len, fill_from),
                0,
                Seq::empty(),
                Seq::empty(),
            );
            &&& shown.len() == CELL_WIDTH
            &&& forall|c: int|
                0 <= c < CELL_WIDTH ==> #[trigger] shown[c] == (
                    plain[c],
                    (if c < CELL_FG_SPLIT {
                        price_fg
                    } else {
                        "2"@
                    }) + ";"@ + (if under_bar(c, fill_len, fill_from) {
                        bar_bg
                    } else {
                        "49"@
                    }),
                )
        }),
{
    reveal_strlit("\x1b[0m");
    let bar = bar_span(fill_len, fill_from);
    let b = boundaries(bar);
    let e: Seq<char> = Seq::empty();
    let r0 = run(plain, b[0], b[1], price_fg, bar_bg, bar);
    let r1 = run(plain, b[1], b[2], price_fg, bar_bg, bar);
    let r2 = run(plain, b[2], b[3], price_fg, bar_bg, bar);
    let r3 = run(plain, b[3], b[4], price_fg, bar_bg, bar);
    let reset = "\x1b[0m"@;
    assert(b[0] == 0 && b[4] == CELL_WIDTH);
    assert(b[0] <= b[1] <= b[2] <= b[3] <= b[4]);
    // Each run shows its slice in its style and leaves plain text behind.
    lemma_run_styled(plain, b[0], b[1], price_fg, bar_bg, bar, e, e);
    let e0 = styled_end(r0, 0, e, e);
    lemma_run_styled(plain, b[1], b[2], price_fg, bar_bg, bar, e0.1, e0.2);
    lemma_styled_concat(r0, r1, 0, e, e);
    let e1 = styled_end(r0 + r1, 0, e, e);
    lemma_run_styled(plain, b[2], b[3], price_fg, bar_bg, bar, e1.1, e1.2);
    lemma_styled_concat(r0 + r1, r2, 0, e, e);
    let e2 = styled_end(r0 + r1 + r2, 0, e, e);
    lemma_run_styled(plain, b[3], b[4], price_fg, bar_bg, bar, e2.1, e2.2);
    lemma_styled_concat(r0 + r1 + r2, r3, 0, e, e);
    let e3 = styled_end(r0 + r1 + r2 + r3, 0, e, e);
    // The reset shows nothing.
    assert(no_letters(seq!['0']));
    lemma_sgr_styled(seq!['0'], e3.1, e3.2);
    assert(reset =~= seq![ESC, '['] + seq!['0'] + seq!['m']);
    lemma_styled_concat(r0 + r1 + r2 + r3, reset, 0, e, e);
    let out = r0 + r1 + r2 + r3 + reset;
    assert(out == spec_shade_cell(plain, price_fg, bar_bg, fill_len, fill_from));
    let s0 = in_style(plain.subrange(b[0], b[1]), run_style(b[0], price_fg, bar_bg, bar));
    let s1 = in_style(plain.subrange(b[1], b[2]), run_style(b[1], price_fg, bar_bg, bar));
    let s2 = in_style(plain.subrange(b[2], b[3]), run_style(b[2], price_fg, bar_bg, bar));
    let s3 = in_style(plain.subrange(b[3], b[4]), run_style(b[3], price_fg, bar_bg, bar));
    let shown = styled_from(out, 0, e, e);
    assert(shown =~= s0 + s1 + s2 + s3);
    // No boundary (the split, the bar's ends) lies strictly inside a run, so
    // a run's style is that of each of its columns.
    assert forall|c: int| 0 <= c < CELL_WIDTH implies #[trigger] shown[c] == (
        plain[c],
        (if c < CELL_FG_SPLIT {
            price_fg
        } else {
            "2"@
        }) + ";"@ + (if under_bar(c, fill_len, fill_from) {
            bar_bg
        } else {
            "49"@
        }),
    ) by {
        assert(under_bar(c, fill_len, fill_from) == (bar.0 <= c && c < bar.1));
        if c < b[1] {
            assert(shown[c] == s0[c - b[0]]);
            assert(run_style(b[0], price_fg, bar_bg, bar) == run_style(c, price_fg, bar_bg, bar));
        } else if c < b[2] {
            assert(shown[c] == s1[c - b[1]]);
            assert(run_style(b[1], price_fg, bar_bg, bar) == run_style(c, price_fg, bar_bg, bar));
        } else if c < b[3] {
            assert(shown[c] == s2[c - b[2]]);
            assert(run_style(b[2], price_fg, bar_bg, bar) == run_style(c, price_fg, bar_bg, bar));
        } else {
            assert(shown[c] == s3[c - b[3]]);
            assert(run_style(b[3], price_fg, bar_bg, bar) == run_style(c, price_fg, bar_bg, bar));
        }
    }
}

} // verus!
