use horde::question::{as_option, asks, extract, undecorate, MAX_OPTIONS, MAX_TEXT};

fn lines(s: &str) -> Vec<String> {
    s.lines().map(|l| l.to_string()).collect()
}

/// A pane too narrow for the prompt box: every wrapped row leaves a border fragment between the
/// options.
#[test]
fn a_prompt_box_wider_than_its_pane_still_parses() {
    let screen = lines(
        "? for shortcuts\n\
         ⏺ I need to edit a file.\n\
         ╭─────────────────────────────────────────────\n\
         ─╮\n\
         │ Do you want to make this edit to src/mux.rs?\n\
         \x20│\n\
         │\n\
         \x20│\n\
         │ ❯ 1. Yes\n\
         \x20│\n\
         │   2. Yes, and do not ask again\n\
         \x20│\n\
         │   3. No, and tell me what to do\n\
         \x20│\n\
         ╰─────────────────────────────────────────────\n\
         ─╯\n",
    );
    let q = extract(&screen).expect("a wrapped box is still a prompt");
    assert_eq!(q.text, "Do you want to make this edit to src/mux.rs?");
    assert_eq!(q.options.len(), 3);
    assert_eq!(q.options[2].label, "No, and tell me what to do");
}

#[test]
fn the_newest_prompt_wins_over_everything_above_it() {
    let screen = lines(
        "Do you want to run the tests?\n\
         ❯ 1. Yes\n\
         \x20 2. No\n\
         \n\
         ⏺ Ran the tests.\n\
         \n\
         Do you want to commit this?\n\
         ❯ 1. Yes\n\
         \x20 2. No, and tell me what to do\n",
    );
    let q = extract(&screen).unwrap();
    assert_eq!(q.text, "Do you want to commit this?");
    assert_eq!(q.options.len(), 2);
}

#[test]
fn a_plain_yes_no_prompt_has_no_list_to_find() {
    let screen = lines("aider> Apply edits to main.py? (y/n)");
    let q = extract(&screen).unwrap();
    assert_eq!(q.options.iter().map(|o| o.key.as_str()).collect::<Vec<_>>(), ["y", "n"]);
    assert!(q.text.contains("Apply edits"));
}

/// A queue that invents questions is worse than one that occasionally misses them.
#[test]
fn an_idle_screen_asks_nothing() {
    let screen = lines(
        "⏺ Done. The parser now handles nested groups.\n\
         \n\
         ╭──────────────────────────────╮\n\
         │ >                            │\n\
         ╰──────────────────────────────╯\n\
         \x20 ? for shortcuts\n",
    );
    assert_eq!(extract(&screen), None);
}

#[test]
fn a_working_screen_asks_nothing() {
    let screen = lines(
        "⏺ Bash(cargo test)\n\
         \x20 ⎿  Running…\n\
         \n\
         ✻ Thinking… (12s · esc to interrupt)\n\
         \n\
         ╭──────────────────────────────╮\n\
         │ >                            │\n\
         ╰──────────────────────────────╯\n",
    );
    assert_eq!(extract(&screen), None);
}

#[test]
fn a_single_numbered_line_is_not_a_menu() {
    let screen = lines("Here is what I found:\n1. the parser is wrong\n");
    assert_eq!(extract(&screen), None);
}

#[test]
fn box_drawing_is_stripped_from_both_ends() {
    let screen = lines(
        "╭────────────────────────╮\n\
         │ Allow this command?    │\n\
         │                        │\n\
         │ ❯ 1. Yes               │\n\
         │   2. No                │\n\
         ╰────────────────────────╯\n",
    );
    let q = extract(&screen).unwrap();
    assert_eq!(q.text, "Allow this command?");
    assert_eq!(q.options[1].label, "No");
}

#[test]
fn the_question_is_found_above_a_gap() {
    let screen = lines(
        "Do you want to proceed?\n\
         \n\
         ❯ 1. Yes\n\
         \x20 2. No\n",
    );
    assert_eq!(extract(&screen).unwrap().text, "Do you want to proceed?");
}

#[test]
fn more_options_than_there_are_digits_are_capped() {
    let mut s = String::from("Pick one?\n");
    for i in 1..=12 {
        s.push_str(&format!("{i}. option {i}\n"));
    }
    let q = extract(&lines(&s)).unwrap();
    assert!(q.options.len() <= MAX_OPTIONS, "{}", q.options.len());
    assert!(q.options.iter().all(|o| o.key.len() == 1));
}

#[test]
fn a_line_is_read_without_its_frame() {
    assert_eq!(undecorate("│   hello there   │"), "hello there");
    let o = as_option("❯ 2. Yes, always").unwrap();
    assert_eq!((o.key.as_str(), o.label.as_str()), ("2", "Yes, always"));
    assert!(as_option("12. too many digits").is_none());
    assert!(as_option("no number here").is_none());
}

#[test]
fn a_question_is_told_by_its_shape_whatever_its_case() {
    assert!(asks("Shall we go on?"));
    assert!(!asks("All is well."));
    let upper = lines("OVERWRITE THE FILE? [Y/N]");
    let q = extract(&upper).unwrap();
    assert_eq!(q.options.len(), 2);
    assert_eq!(q.text, "OVERWRITE THE FILE? [Y/N]");
}

#[test]
fn a_long_question_is_cut() {
    let mut long = "x".repeat(400);
    long.push_str(" (y/n)");
    let q = extract(&[format!("(y/n) {long}")]).unwrap();
    assert_eq!(q.text.chars().count(), MAX_TEXT);
}
