use horde::pane::{
    build_command, build_row, cursor, environment, max_input_line, spawn_failure, Cell, CellFlags,
    Damage, Outbox, PaneSignal, Rgb, Row, Run, Screen, Var, Wrote, BOLD, MAX_LINE, MAX_OUTBOUND, UNDERLINE,
};

const FG: Rgb = Rgb { r: 200, g: 200, b: 200 };
const BG: Rgb = Rgb { r: 0, g: 0, b: 0 };
const PLAIN: CellFlags = CellFlags {
    bold: false,
    dim: false,
    italic: false,
    underline: false,
    strikeout: false,
    inverse: false,
    hidden: false,
    spacer: false,
};

fn cell(ch: char, flags: CellFlags) -> Cell {
    Cell { ch, zerowidth: Vec::new(), fg: FG, bg: BG, flags }
}

fn row(text: &str) -> Row {
    Row { runs: vec![Run { text: text.into(), fg: FG, bg: BG, attrs: 0 }] }
}

#[test]
fn cells_that_look_alike_are_one_run() {
    let bold = CellFlags { bold: true, underline: true, ..PLAIN };
    let cells = vec![cell('a', PLAIN), cell('b', PLAIN), cell('c', bold)];
    let r = build_row(&cells);
    assert_eq!(r.runs.len(), 2);
    assert_eq!((r.runs[0].text.as_str(), r.runs[0].attrs), ("ab", 0));
    assert_eq!((r.runs[1].text.as_str(), r.runs[1].attrs), ("c", BOLD + UNDERLINE));
}

#[test]
fn an_inverted_cell_swaps_its_colours_and_a_hidden_one_shows_nothing() {
    let inverse = CellFlags { inverse: true, ..PLAIN };
    let r = build_row(&vec![cell('a', inverse)]);
    assert_eq!((r.runs[0].fg, r.runs[0].bg), (BG, FG));
    let hidden = CellFlags { hidden: true, ..PLAIN };
    let r = build_row(&vec![cell('s', hidden)]);
    assert_eq!(r.runs[0].text, " ");
}

#[test]
fn the_second_half_of_a_wide_character_is_left_out() {
    let spacer = CellFlags { spacer: true, ..PLAIN };
    let r = build_row(&vec![cell('字', PLAIN), cell(' ', spacer), cell('x', PLAIN)]);
    assert_eq!(r.runs[0].text, "字x");
}

#[test]
fn only_rows_that_changed_are_dirty() {
    let mut s = Screen::new(3);
    s.take_dirty();
    assert!(s.take_row(1, row("hello")));
    assert!(!s.take_row(1, row("hello")), "the same again is no change");
    assert_eq!(s.take_dirty(), vec![1]);
    assert!(s.take_dirty().is_empty());
    assert_eq!(s.visible_text(), vec!["", "hello", ""]);
    assert_eq!(s.row(1), Some(&row("hello")));
    assert_eq!(s.row(9), None);
}

#[test]
fn damage_says_which_rows_to_look_at_again() {
    let mut s = Screen::new(3);
    s.plan_refresh(3, &Damage::Full, false);
    let plan = s.plan_refresh(3, &Damage::Lines(vec![2, 7]), false);
    assert_eq!(plan.view, vec![2], "none off screen");
    assert!(plan.live.is_empty(), "what is seen is what is live");
    let plan = s.plan_refresh(3, &Damage::Lines(vec![2]), true);
    assert_eq!(plan.view, vec![0, 1, 2], "scrolled back");
    assert_eq!(plan.live, vec![0, 1, 2], "and every live row apart from it");
    let plan = s.plan_refresh(4, &Damage::Lines(vec![]), false);
    assert_eq!(plan.view, vec![0, 1, 2, 3], "resized");
}

#[test]
fn scrolling_back_does_not_change_what_detection_reads() {
    let mut s = Screen::new(2);
    s.plan_refresh(2, &Damage::Full, false);
    s.take_row(0, row("working"));
    s.take_row(1, row("esc to interrupt"));
    let live = s.detection_snapshot(2);
    assert_eq!(live, vec!["working", "esc to interrupt"]);

    // Somebody scrolls back: they see old rows, and the program goes on below.
    let plan = s.plan_refresh(2, &Damage::Full, true);
    for y in plan.view {
        s.take_row(y, row("old"));
    }
    s.take_live(0, row("working"));
    s.take_live(1, row("esc to interrupt"));
    assert_eq!(s.visible_text(), vec!["old", "old"]);
    assert_eq!(s.detection_snapshot(2), live, "an old row is no news of the agent");

    // And back down again.
    let plan = s.plan_refresh(2, &Damage::Full, false);
    assert_eq!((plan.view, plan.live), (vec![0, 1], vec![]));
    s.take_row(0, row("done"));
    s.take_row(1, row("$"));
    assert_eq!(s.detection_snapshot(2), vec!["done", "$"]);
}

#[test]
fn the_cursor_is_placed_in_what_is_seen() {
    let c = cursor(1, 4, 0, 10, true);
    assert_eq!((c.x, c.y, c.visible), (4, 1, true));
    let c = cursor(9, 4, 5, 10, true);
    assert!(!c.visible, "scrolled out of sight");
}

#[test]
fn input_waits_its_turn_and_is_bounded() {
    let mut o = Outbox::new(3);
    o.write(b"hello").unwrap();
    assert!(o.wrote(Wrote::Took(2)), "there is more to write");
    assert_eq!(o.outbound, b"llo");
    assert!(!o.wrote(Wrote::Full), "the terminal takes no more for now");
    assert_eq!(o.outbound, b"llo");
    let huge = vec![0u8; MAX_OUTBOUND];
    let e = o.write(&huge).unwrap_err();
    assert!(e.contains('3'), "it names the pane: {e}");
    assert_eq!(o.outbound, b"llo", "and takes none of it");
    o.exited = true;
    assert!(o.write(&huge).is_ok(), "what goes to a dead program is nobody's problem");
}

#[test]
fn what_was_put_off_is_typed_when_it_is_due() {
    let mut o = Outbox::new(3);
    o.write_later(b"a".to_vec(), 10);
    o.write_later(b"b".to_vec(), 20);
    assert_eq!(o.take_due(15), vec![b"a".to_vec()]);
    assert!(o.has_deferred());
    assert_eq!(o.take_due(20), vec![b"b".to_vec()]);
    assert!(!o.has_deferred());
}

#[test]
fn a_terminal_that_edits_lines_takes_only_short_ones() {
    assert_eq!(max_input_line(Some(true)), Some(MAX_LINE));
    assert_eq!(max_input_line(Some(false)), None);
    assert_eq!(max_input_line(None), None);
}

#[test]
fn a_command_is_split_into_words_and_an_empty_one_is_a_shell() {
    assert_eq!(build_command("npm  run test", "/bin/sh"), vec!["npm", "run", "test"]);
    assert_eq!(build_command("   ", "/bin/sh"), vec!["/bin/sh"]);
    assert_eq!(
        spawn_failure("frob --x"),
        "could not start \"frob\" — is it installed and on PATH?"
    );
}

#[test]
fn configured_variables_reach_the_program_in_the_pane() {
    let own = vec![Var { name: "HORDE_ENV_TEST".into(), value: "sk-or-test".into() }];
    let vars = environment("/run/h.sock", 3, 2, 1, &own);
    let get = |n: &str| vars.iter().rev().find(|v| v.name == n).map(|v| v.value.as_str());
    assert_eq!(get("HORDE_ENV_TEST"), Some("sk-or-test"));
    assert!(vars.iter().any(|v| v.value == "/run/h.sock"));
    assert!(vars.iter().any(|v| v.value == "3"));
}

#[test]
fn a_tick_answers_the_program_takes_its_title_and_types_what_is_due() {
    let mut o = Outbox::new(3);
    let mut title = String::from("old");
    o.write_later(b"\r".to_vec(), 10);
    let signals = vec![
        PaneSignal::Write(b"reply".to_vec()),
        PaneSignal::Title("vim".into()),
        PaneSignal::Bell,
    ];
    o.pump(&mut title, &signals, 10);
    assert_eq!(title, "vim");
    assert_eq!(o.outbound, b"reply\r", "the reply first, then what was put off");
    o.pump(&mut title, &Vec::new(), 10);
    assert_eq!(o.outbound, b"reply\r", "and not twice");
}
