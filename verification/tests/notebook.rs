use horde::notebook::{
    doc_path, file_path, note_text, pane_doc, repo_dirs, vault_attach, vault_init_notice,
    vault_init_root, vault_put, vault_root, vault_roots, AttachError, FileError, NoteError,
    VaultQuery, MAX_ATTACHMENT,
};
use horde::paths::PathError;
use horde::state::{Bars, Session};
use horde::vault::{Found, Index};

const BARS: Bars = Bars { tab_bar: true, status_bar: true, pane_titles: true };
const HOME: &str = "/home/me/notes";
const LIMIT: usize = 1_000_000;

fn session() -> Session {
    let mut s = Session::new(true, false, 24, 30);
    s.create_space(BARS, "cat", Some("api"), "/src/api").unwrap();
    s
}

#[test]
fn writing_the_first_note_makes_the_vault_that_holds_it() {
    let s = session();
    let space = s.focused_space.expect("a space");
    let root = vault_root(&s, space, "", false, false, HOME, false);
    assert_eq!(root, None, "nothing is created before it is asked for");

    let plan = vault_put(None, HOME, "First.md", "# First\n", false, "agents", LIMIT)
        .expect("the write works");
    assert!(plan.makes_vault, "which is now a vault that is found again");
    assert_eq!(plan.root, HOME);
    assert_eq!(plan.path.unwrap(), "/home/me/notes/First.md", "it landed in the home vault");
    let root = vault_root(&s, space, "", false, false, HOME, true);
    assert_eq!(root.as_deref(), Some(HOME));
}

#[test]
fn a_note_written_by_an_agent_is_kept_apart_and_signed() {
    let plan =
        vault_put(Some(HOME), HOME, "Findings.md", "the thing I found", true, "agents", LIMIT)
            .expect("written");
    assert!(!plan.makes_vault);
    assert_eq!(plan.path.unwrap(), "/home/me/notes/agents/Findings.md", "in its own folder");
    let signed = "---\nby: scribe\n---\nthe thing I found";
    let text = note_text("", "the thing I found", false, Some(signed), LIMIT).unwrap();
    assert!(text.contains("by: scribe"), "and signed: {text}");

    // A path with a folder in it is the caller being specific, and is honoured.
    let elsewhere =
        vault_put(Some(HOME), HOME, "reviews/Deep.md", "body", true, "agents", LIMIT)
            .expect("written");
    assert_eq!(elsewhere.path.unwrap(), "/home/me/notes/reviews/Deep.md");

    // A person's own note is neither moved nor stamped.
    let mine =
        vault_put(Some(HOME), HOME, "Mine.md", "just mine", false, "agents", LIMIT)
            .expect("written");
    assert_eq!(mine.path.unwrap(), "/home/me/notes/Mine.md");
    assert_eq!(note_text("", "just mine", false, None, LIMIT).unwrap(), "just mine");
}

#[test]
fn appending_adds_to_a_note_without_stamping_it_again() {
    let signed = "---\nsource: horde\n---\nfirst";
    let first = note_text("", "first", false, Some(signed), LIMIT).unwrap();
    let again = "---\nsource: horde\n---\nsecond";
    let text = note_text(&first, "second", true, Some(again), LIMIT).unwrap();
    assert_eq!(text.matches("source: horde").count(), 1, "stamped once: {text}");
    assert!(text.contains("first") && text.contains("second"), "{text}");
    assert!(text.find("first") < text.find("second"), "in order");
}

#[test]
fn a_note_too_large_to_be_meant_is_refused_with_a_reason() {
    let huge = "x".repeat(LIMIT + 1);
    let err = vault_put(Some(HOME), HOME, "Huge.md", &huge, true, "agents", LIMIT).unwrap_err();
    assert!(err.message().contains("loop"), "it says what it thinks happened: {}", err.message());
    assert!(matches!(err, NoteError::TooLarge { limit: LIMIT, .. }));

    // And it cannot be got past by appending a little at a time.
    let big = "y".repeat(LIMIT);
    assert_eq!(
        note_text("start", &big, true, None, LIMIT),
        Err(NoteError::WouldOverflow { limit: LIMIT })
    );
}

#[test]
fn a_note_written_is_indexed_at_once() {
    let mut idx = Index::new(HOME.to_string());
    let found = vec![
        Found { path: "Welcome.md".into(), mtime: 1, size: 20 },
        Found { path: "Ideas/One.md".into(), mtime: 2, size: 30 },
    ];
    let read = vec![
        Some("# Welcome\n".to_string()),
        Some("# One\n\nsee [[Welcome]]\n".to_string()),
    ];
    idx.refresh(&found, &read, 100);
    let welcome = idx.resolve("Welcome").expect("the starter note");
    assert_eq!(idx.backlinks(welcome).len(), 1, "the new note's link is already known");
}

#[test]
fn a_project_without_a_vault_falls_back_to_the_home_one() {
    let s = session();
    let space = s.focused_space.expect("a space");
    assert_eq!(
        vault_root(&s, space, "", false, false, HOME, true).as_deref(),
        Some(HOME),
        "the fallback is the home vault"
    );
    // With one of its own, that one is used.
    assert_eq!(
        vault_root(&s, space, "", true, false, HOME, true).as_deref(),
        Some("/src/api")
    );
    assert_eq!(vault_roots(true, &vec!["/src/api".to_string()], HOME, true).len(), 2);
    assert!(vault_roots(false, &vec!["/src/api".to_string()], HOME, true).is_empty());
}

#[test]
fn making_a_vault_says_where_it_is() {
    let s = session();
    let space = s.focused_space.unwrap();
    let root = vault_init_root(&s, space, "notes", HOME);
    assert_eq!(root, "/src/api/notes");
    assert!(vault_init_notice(&root, true).contains("/src/api/notes"));
    assert_ne!(vault_init_notice(&root, true), vault_init_notice(&root, false));
}

#[test]
fn a_note_cannot_be_written_outside_its_vault() {
    let plan = vault_put(Some(HOME), HOME, "../out.md", "x", false, "agents", LIMIT).unwrap();
    assert!(plan.path.is_err());
    let s = session();
    let space = s.focused_space.unwrap();
    assert!(matches!(file_path(&s, space, "../../etc/passwd"), Err(FileError::Path(_))));
    assert_eq!(file_path(&s, space, "README.md").unwrap(), "/src/api/README.md");
    assert!(matches!(file_path(&s, 99, "README.md"), Err(FileError::NoSpace)));
}

#[test]
fn an_attachment_is_named_sized_and_placed() {
    let plan = vault_attach(Some(HOME), HOME, "pics", "a.png", 10).unwrap();
    assert_eq!(plan.dir, "/home/me/notes/pics");
    assert_eq!(plan.path.unwrap(), "/home/me/notes/pics/a.png");
    assert_eq!(vault_attach(Some(HOME), HOME, "pics", "a.png", 0).unwrap_err(), AttachError::Nothing);
    assert_eq!(
        vault_attach(Some(HOME), HOME, "pics", "a.png", MAX_ATTACHMENT + 1).unwrap_err(),
        AttachError::TooLarge(MAX_ATTACHMENT + 1)
    );
    assert_eq!(
        vault_attach(Some(HOME), HOME, "pics", "..", 1).unwrap_err(),
        AttachError::NotAName
    );
}

#[test]
fn a_document_is_looked_for_where_it_was_said_to_be() {
    let s = session();
    let space = s.focused_space.unwrap();
    assert_eq!(
        doc_path(&s, space, "docs/a.md", false, Some(HOME)).as_deref(),
        Some("/src/api/docs/a.md")
    );
    assert_eq!(
        doc_path(&s, space, "a.md", true, Some(HOME)).as_deref(),
        Some("/home/me/notes/a.md")
    );
    assert_eq!(doc_path(&s, space, "a.md", true, None), None);
    assert!(pane_doc(&s, space, "a.md", Some(HOME)).is_some());
}

#[test]
fn the_directories_to_watch_are_listed_once_each() {
    let mut s = session();
    s.create_space(BARS, "cat", Some("again"), "/src/api").unwrap();
    s.create_space(BARS, "cat", Some("docs"), "/src/docs").unwrap();
    s.create_space(BARS, "cat", Some("slash"), "/src/docs/").unwrap();
    s.create_space(BARS, "cat", Some("beside"), "/src/api-next").unwrap();
    assert_eq!(repo_dirs(&s), vec!["/src/api", "/src/api-next", "/src/docs"]);
}

#[test]
fn the_index_answers_each_kind_of_question() {
    let mut idx = Index::new(HOME.to_string());
    let found = vec![
        Found { path: "Welcome.md".into(), mtime: 1, size: 20 },
        Found { path: "One.md".into(), mtime: 2, size: 30 },
    ];
    let read = vec![
        Some("# Welcome\n".to_string()),
        Some("# One\n\nsee [[Welcome]] #idea\n".to_string()),
    ];
    idx.refresh(&found, &read, 100);
    let all = idx.answer(&VaultQuery::List).unwrap();
    assert_eq!((all.root.as_str(), all.notes.len()), (HOME, 2));
    let hit = idx.answer(&VaultQuery::Search("welcome".into())).unwrap();
    assert_eq!(hit.notes[0].path, "Welcome.md");
    let one = idx.answer(&VaultQuery::Note("Welcome.md".into())).unwrap();
    assert_eq!(one.backlinks.len(), 1);
    assert_eq!(one.backlinks[0].path, "One.md");
    assert!(idx.answer(&VaultQuery::Note("Nowhere.md".into())).is_none());
    assert_eq!(idx.answer(&VaultQuery::Graph).unwrap().graph.unwrap().nodes.len(), 2);
}

#[test]
fn a_path_error_is_told_apart_from_a_size_error() {
    let e = NoteError::Path(PathError::Leaves);
    assert_ne!(e.message(), NoteError::WouldOverflow { limit: 3 }.message());
}
