use horde::notes::{
    parse, parse_frontmatter, scan_inline_tags, scan_links, split_target, strip_wikilinks,
    target_stem, Link,
};
use horde::paths::{extension_in, join_paths, name_in, parent_in, safe_join, same_path, stem_in};
use horde::vault::{init, is_vault, locate, visit, Found, Index, Visit};

#[test]
fn an_alias_pipe_escaped_for_a_table_is_still_an_alias() {
    let (target, heading, alias) = split_target(r"Week 01 — Foundations\|1");
    assert_eq!(target, "Week 01 — Foundations");
    assert_eq!(alias.as_deref(), Some("1"));
    assert_eq!(heading, None);
}

#[test]
fn a_dot_in_a_title_is_not_an_extension() {
    assert_eq!(
        target_stem("Item Spec 5.x (Omni) Migration Guide"),
        "Item Spec 5.x (Omni) Migration Guide"
    );
    assert_eq!(target_stem("Dev.base"), "Dev");
    assert_eq!(
        target_stem("TAW Agentic Layer Master Plan.canvas"),
        "TAW Agentic Layer Master Plan"
    );
    assert_eq!(target_stem("folder/note"), "note", "path links resolve on the last part");
}

#[test]
fn the_link_forms_that_occur_in_a_real_vault_all_parse() {
    let links = scan_links(
        "see [[Plain Note]] and [[Other Note|call it this]]\n\
         and [[Ref#Some Heading]] and [[#Local Heading]]\n\
         and an embed ![[Dev.base]]\n",
    );
    assert_eq!(links.len(), 5, "{links:?}");
    assert_eq!(links[0], Link { target: "Plain Note".into(), heading: None, embed: false });
    assert_eq!(links[1].target, "Other Note", "the alias is not part of the target");
    assert_eq!(
        links[2],
        Link { target: "Ref".into(), heading: Some("Some Heading".into()), embed: false }
    );
    assert_eq!(links[3].target, "", "a same-note link has no target");
    assert!(links[4].embed, "`![[` is an embed");
}

#[test]
fn a_block_reference_resolves_to_its_note_and_claims_nothing_more() {
    let (target, heading, _) = split_target("Some Note#^abc123");
    assert_eq!(target, "Some Note");
    assert_eq!(heading.as_deref(), Some("^abc123"));
}

#[test]
fn the_title_is_the_first_h1_and_falls_back_to_the_filename() {
    let n = parse("# Real Title\n\nbody\n", "file-stem");
    assert_eq!(n.title, "Real Title");
    assert_eq!(parse("no heading here\n", "file-stem").title, "file-stem");
    assert_eq!(
        parse("## Not H1\n\n# Actual\n", "stem").title,
        "Actual",
        "an h2 above the h1 does not win"
    );
}

#[test]
fn frontmatter_tags_and_aliases_parse_in_both_shapes() {
    let inline = parse(
        "---\naliases: [horde-full]\ntags: [taw, dev]\nstatus: active\n---\n\n# T\n",
        "s",
    );
    assert_eq!(inline.tags, vec!["dev", "taw"]);
    assert_eq!(inline.aliases, vec!["horde-full"]);

    let listed = parse(
        "---\ntags:\n  - one\n  - two/nested\naliases:\n  - Another Name\n---\n\n# T\n",
        "s",
    );
    assert_eq!(listed.tags, vec!["one", "two/nested"]);
    assert_eq!(listed.aliases, vec!["Another Name"]);
}

#[test]
fn links_and_tags_inside_code_are_not_links_or_tags() {
    let n = parse(
        "# T\n\nreal [[Actual Note]]\n\n```\n[[Not A Link]]\n#not-a-tag\n```\n\nand `[[Inline Code]]` too\n",
        "s",
    );
    let targets: Vec<&str> = n.links.iter().map(|l| l.target.as_str()).collect();
    assert_eq!(targets, vec!["Actual Note"], "{:?}", n.links);
    assert!(!n.tags.iter().any(|t| t == "not-a-tag"), "{:?}", n.tags);
}

#[test]
fn a_heading_link_is_not_mistaken_for_an_inline_tag() {
    let n = parse("# T\n\nsee [[#Module C: the ask]] below\n\nand a real #review tag\n", "s");
    assert_eq!(n.tags, vec!["review"], "{:?}", n.tags);
}

// -- the index -----------------------------------------------------------

fn index_of(notes: &[(&str, &str)]) -> Index {
    let mut idx = Index::new("/vault".to_string());
    idx.notes = notes
        .iter()
        .map(|(name, text)| {
            let mut n = parse(text, name);
            n.path = format!("{name}.md");
            n
        })
        .collect();
    idx.reindex();
    idx
}

#[test]
fn a_link_makes_a_backlink_on_the_note_it_points_at() {
    let idx = index_of(&[
        ("Home", "# Home\n\nsee [[Project]] and [[Project|the project]]\n"),
        ("Project", "# Project\n"),
    ]);
    let project = idx.resolve("Project").unwrap();
    assert_eq!(idx.backlinks(project).len(), 1, "two links from one note is still one backlink");
    assert_eq!(idx.note(idx.backlinks(project)[0]).unwrap().title, "Home");
}

#[test]
fn resolution_prefers_a_filename_over_an_alias_and_ignores_case() {
    let idx = index_of(&[
        ("Real Note", "# Real Note\n"),
        ("Decoy", "---\naliases: [Real Note]\n---\n\n# Decoy\n"),
    ]);
    let real = idx.resolve("Real Note").unwrap();
    assert_eq!(idx.note(real).unwrap().title, "Real Note");
    assert_eq!(idx.resolve("rEaL nOtE"), Some(real), "case does not matter");
    assert!(idx.resolve("Decoy").is_some());
}

#[test]
fn a_link_to_a_note_that_does_not_exist_becomes_a_ghost() {
    let idx = index_of(&[("Home", "# Home\n\nsee [[Never Written]]\n")]);
    assert_eq!(idx.unresolved.len(), 1);
    assert_eq!(idx.unresolved[0].1, "Never Written");
}

#[test]
fn the_graph_has_a_node_per_note_and_one_ghost_per_missing_target() {
    let idx = index_of(&[
        ("Home", "---\ntags: [moc]\n---\n\n# Home\n\n[[Project]] and [[Unwritten]]\n"),
        ("Project", "# Project\n\nback to [[Home]] and also [[Unwritten]]\n"),
    ]);
    let g = idx.graph();

    let ghosts: Vec<&str> =
        g.nodes.iter().filter(|n| n.is_ghost).map(|n| n.label.as_str()).collect();
    assert_eq!(ghosts, vec!["Unwritten"], "two links to it, one ghost");
    assert_eq!(g.nodes.iter().filter(|n| !n.is_ghost).count(), 2, "a node per real note");

    let home = g.nodes.iter().find(|n| n.label == "Home").unwrap();
    assert_eq!(home.group, "moc", "the first tag is the cluster");
    assert_eq!(home.degree, 3, "two out, one in");

    for (a, b) in &g.edges {
        assert!((*a as usize) < g.nodes.len() && (*b as usize) < g.nodes.len(), "{a},{b}");
    }
    assert_eq!(g.edges.len(), 4, "home->project, project->home, and two to the ghost");
    let at = |label: &str| g.nodes.iter().position(|n| n.label == label).unwrap() as u16;
    let (home, project, ghost) = (at("Home"), at("Project"), at("Unwritten"));
    for edge in [(home, project), (project, home), (home, ghost), (project, ghost)] {
        assert!(g.edges.contains(&edge), "{edge:?}");
    }
}

#[test]
fn an_untagged_note_is_grouped_by_its_folder() {
    let mut idx = Index::new("/v".to_string());
    let mut n = parse("# Deep\n", "Deep");
    n.path = "10 Projects/Deep.md".to_string();
    idx.notes = vec![n];
    idx.reindex();
    assert_eq!(idx.graph().nodes[0].group, "10 Projects");
}

#[test]
fn search_ranks_an_exact_name_above_a_substring_and_a_tag() {
    let idx = index_of(&[
        ("Notes About Horde", "# Notes About Horde\n"),
        ("Horde", "# Horde\n"),
        ("Unrelated", "---\ntags: [horde]\n---\n\n# Unrelated\n"),
    ]);
    let hits: Vec<&str> =
        idx.search("horde").iter().map(|i| idx.note(*i).unwrap().title.as_str()).collect();
    assert_eq!(
        hits,
        vec!["Horde", "Notes About Horde", "Unrelated"],
        "exact, then substring, then tag"
    );
    let all = idx.search("  ");
    assert_eq!(all.len(), 3, "an empty query lists everything");
}

// -- refreshing ----------------------------------------------------------

/// A directory of notes, as it would be walked.
struct Dir {
    files: Vec<(String, u64, String)>,
}

impl Dir {
    fn write(&mut self, name: &str, mtime: u64, text: &str) {
        self.files.retain(|f| f.0 != name);
        self.files.push((name.to_string(), mtime, text.to_string()));
        self.files.sort();
    }

    fn found(&self) -> Vec<Found> {
        self.files
            .iter()
            .map(|(p, m, t)| Found { path: p.clone(), mtime: *m, size: t.len() as u64 })
            .collect()
    }

    fn refresh(&self, idx: &mut Index, budget: usize) -> bool {
        let found = self.found();
        let wanted = idx.wanted(&found, budget);
        let read: Vec<Option<String>> = (0..found.len())
            .map(|i| if wanted.contains(&i) { Some(self.files[i].2.clone()) } else { None })
            .collect();
        idx.refresh(&found, &read, budget)
    }
}

#[test]
fn a_note_written_edited_and_deleted_is_picked_up_each_time() {
    let mut dir = Dir { files: Vec::new() };
    dir.write("one.md", 1, "# One\n\nlinks to [[two]]\n");
    dir.write("two.md", 1, "# Two\n");

    let mut idx = Index::new("/vault".to_string());
    assert!(dir.refresh(&mut idx, 100), "the first pass finds them");
    assert_eq!(idx.len(), 2);
    let two = idx.resolve("two").unwrap();
    assert_eq!(idx.backlinks(two).len(), 1);

    dir.write("one.md", 2, "# One\n\nnothing here now, and longer\n");
    assert!(dir.refresh(&mut idx, 100));
    let two = idx.resolve("two").unwrap();
    assert!(idx.backlinks(two).is_empty(), "the backlink went with the link");

    dir.files.retain(|f| f.0 != "two.md");
    assert!(dir.refresh(&mut idx, 100));
    assert_eq!(idx.len(), 1, "a deleted note leaves the index");
    assert!(!dir.refresh(&mut idx, 100), "and a quiet vault changes nothing");
}

#[test]
fn one_budget_is_shared_by_every_vault() {
    let (mut big, mut small) = (Dir { files: Vec::new() }, Dir { files: Vec::new() });
    for i in 0..6 {
        big.write(&format!("n{i}.md"), 1, "# Note\n");
        small.write(&format!("m{i}.md"), 1, "# Note\n");
    }
    let (a, b) = (Index::new("/a".to_string()), Index::new("/b".to_string()));
    let (first, left) = a.share(&big.found(), 10);
    assert_eq!((first, left), (vec![0, 1, 2, 3, 4, 5], 4));
    let (second, left) = b.share(&small.found(), left);
    assert_eq!((second, left), (vec![0, 1, 2, 3], 0), "the rest can wait");
}

#[test]
fn a_large_vault_indexes_across_several_passes_without_dropping_a_note() {
    let mut dir = Dir { files: Vec::new() };
    for i in 0..50 {
        dir.write(&format!("n{i}.md"), 1, &format!("# Note {i}\n"));
    }
    let mut idx = Index::new("/vault".to_string());
    dir.refresh(&mut idx, 10);
    assert_eq!(idx.len(), 10, "one pass parses only its budget");
    for _ in 0..10 {
        dir.refresh(&mut idx, 10);
    }
    assert_eq!(idx.len(), 50, "and the rest arrive on later passes");
    assert!(!dir.refresh(&mut idx, 10), "with nothing left to do");
}

#[test]
fn a_note_path_cannot_climb_out_of_its_vault() {
    let root = "/vault";
    assert!(safe_join(root, "Ideas/one.md").is_ok());
    assert!(safe_join(root, "./one.md").is_ok());
    for bad in ["../escape.md", "a/../../escape.md", "/etc/passwd", "~/notes/x.md"] {
        let r = safe_join(root, bad);
        // `~` is not special to a filesystem, so it is a directory name, not an escape.
        if bad.starts_with('~') {
            assert!(r.unwrap().starts_with(root));
        } else {
            assert!(r.is_err(), "{bad} should be refused");
        }
    }
}

#[test]
fn making_a_vault_is_safe_to_repeat() {
    let first = init(false, false, false);
    assert!(first.fresh, "the first time makes one");
    assert!(first.write_marker && first.write_welcome);
    assert!(is_vault(false, true), "and it is recognisable afterwards");

    let again = init(false, true, true);
    assert!(!again.fresh, "the second time adopts it");
    assert!(!again.write_welcome, "and never overwrites what is already there");
}

#[test]
fn a_vault_horde_made_is_found_without_being_configured() {
    assert_eq!(
        locate("/p/anything", "notes", is_vault(false, true), false),
        Some("/p/anything".to_string()),
        "the marker is enough, whatever the directory is called"
    );
}

#[test]
fn an_obsidian_vault_is_adopted_and_a_plain_directory_is_not() {
    assert_eq!(locate("/p", "notes", is_vault(false, false), false), None, "nothing to find yet");
    assert_eq!(
        locate("/p", "notes", is_vault(false, false), true),
        Some("/p/notes".to_string()),
        "the configured directory"
    );
    assert_eq!(
        locate("/p/Brain", "notes", is_vault(true, false), false),
        Some("/p/Brain".to_string()),
        "but opening it directly finds it"
    );
}

#[test]
fn only_markdown_outside_hidden_directories_is_read() {
    assert_eq!(visit("note.md", false), Visit::Take);
    assert_eq!(visit("picture.png", false), Visit::Skip);
    assert_eq!(visit("Projects", true), Visit::Descend);
    assert_eq!(visit(".obsidian", true), Visit::Skip);
}

#[test]
fn paths_are_taken_apart_as_documented() {
    assert_eq!(name_in("/a/b.md").as_deref(), Some("b.md"));
    assert_eq!(name_in("/a/b/").as_deref(), Some("b"));
    assert_eq!(name_in("/a/..").as_deref(), None);
    assert_eq!(stem_in("x/archive.tar.gz").as_deref(), Some("archive.tar"));
    assert_eq!(extension_in("x/archive.tar.gz").as_deref(), Some("gz"));
    assert_eq!(extension_in(".bashrc"), None);
    assert_eq!(parent_in("/a/b").as_deref(), Some("/a"));
    assert_eq!(parent_in("/"), None);
    assert_eq!(join_paths("/a", "b"), "/a/b");
    assert_eq!(join_paths("/a", "/b"), "/b");
    assert!(same_path("/a//b/", "/a/b"));
    assert!(same_path("/a/./b", "/a/b"));
    assert!(!same_path("./a", "a"));
    assert!(!same_path("/a", "a"));
}

#[test]
fn wikilinks_and_tags_are_found_in_plain_text() {
    assert_eq!(strip_wikilinks("a [[#Module C]] b").contains('#'), false);
    assert_eq!(scan_inline_tags("one #tag and not#this, #two/deep"), vec!["tag", "two/deep"]);
    assert_eq!(scan_inline_tags("see [[#Module C]] and #review not#this #1"), vec!["review"]);
    assert_eq!(scan_inline_tags("see [[open\n#tag"), vec!["tag"], "one left open hides nothing");
    assert_eq!(scan_inline_tags("see [[open #near"), vec!["near"]);
    assert_eq!(strip_wikilinks("a [[b\nc]] d"), "a [[b\nc]] d", "a link never spans a line");
    let (tags, aliases) = parse_frontmatter("tags: [b, a]\naliases: one");
    assert!(tags.contains(&"a".to_string()) && tags.contains(&"b".to_string()));
    assert_eq!(aliases, vec!["one"]);
}
