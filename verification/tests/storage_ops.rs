use fsk::fstree::{Entry, Node};
use fsk::resolve_path;
use fsk::storage::{export_folder, list, read, remove, rename, search, write_note, FskError};

fn file(name: &str, text: &str) -> Entry {
    Entry { name: name.to_string(), node: Node::File(Some(text.to_string())) }
}

fn unreadable(name: &str) -> Entry {
    Entry { name: name.to_string(), node: Node::File(None) }
}

fn dir(name: &str, entries: Vec<Entry>) -> Entry {
    Entry { name: name.to_string(), node: Node::Dir(entries) }
}

#[test]
fn resolve_path_appends_title_and_extension() {
    assert_eq!(resolve_path("/home/u/.fsk/db", ""), "/home/u/.fsk/db");
    assert_eq!(resolve_path("/home/u/.fsk/db", "linux/kernel"), "/home/u/.fsk/db/linux/kernel.md");
    assert_eq!(resolve_path("./db", "a"), "./db/a.md");
}

#[test]
fn list_is_sorted_whatever_the_enumeration_order() {
    let base = Node::Dir(vec![
        dir("b", vec![file("d.md", "x"), file("c.md", "y")]),
        file("a.md", "z"),
    ]);
    assert_eq!(list(&base, None), vec!["a", "b/c", "b/d"]);
    let scrambled = Node::Dir(vec![
        file("a.md", "z"),
        dir("b", vec![file("c.md", "y"), file("d.md", "x")]),
    ]);
    assert_eq!(list(&scrambled, None), vec!["a", "b/c", "b/d"]);
}

#[test]
fn list_subfolder_keeps_titles_relative_to_base() {
    let base = Node::Dir(vec![
        file("a.md", "z"),
        dir("b", vec![file("c.md", "y"), file("d.md", "x")]),
    ]);
    let sub = "b".to_string();
    assert_eq!(list(&base, Some(&sub)), vec!["b/c", "b/d"]);
}

#[test]
fn list_missing_subfolder_is_empty_not_an_error() {
    let base = Node::Dir(vec![file("a.md", "z")]);
    let sub = "nope".to_string();
    assert_eq!(list(&base, Some(&sub)), Vec::<String>::new());
}

#[test]
fn list_skips_files_without_md_extension() {
    let base = Node::Dir(vec![file("a.md", "z"), file("notes.txt", "t"), file("x.MD", "u")]);
    assert_eq!(list(&base, None), vec!["a"]);
}

#[test]
fn search_title_hit_never_reads_content() {
    // The note's content cannot even be read, yet the title hit comes out.
    let base = Node::Dir(vec![unreadable("alpha.md")]);
    let hits = search(&base, "ALP");
    assert_eq!(hits.len(), 1);
    assert_eq!(hits[0].title, "alpha");
    assert!(hits[0].is_title_match);
    assert_eq!(hits[0].preview, None);
}

#[test]
fn search_content_hit_reports_first_matching_line_trimmed() {
    let base = Node::Dir(vec![file("a.md", "nothing here\n  World Foo  \nfoo again")]);
    let hits = search(&base, "FOO");
    assert_eq!(hits.len(), 1);
    assert_eq!(hits[0].title, "a");
    assert!(!hits[0].is_title_match);
    assert_eq!(hits[0].preview.as_deref(), Some("World Foo"));
}

#[test]
fn search_handles_crlf_line_endings() {
    let base = Node::Dir(vec![file("a.md", "first\r\nneedle here\r\n")]);
    let hits = search(&base, "needle");
    assert_eq!(hits[0].preview.as_deref(), Some("needle here"));
}

#[test]
fn search_without_any_match_is_empty() {
    let base = Node::Dir(vec![
        file("a.md", "Hello\nWorld"),
        dir("b", vec![file("c.md", "something else")]),
    ]);
    assert!(search(&base, "absent").is_empty());
}

#[test]
fn search_results_come_in_walk_order_not_sorted() {
    let base = Node::Dir(vec![
        dir("z", vec![file("hit1.md", "")]),
        file("hit0.md", ""),
    ]);
    let hits = search(&base, "hit");
    let titles: Vec<&str> = hits.iter().map(|h| h.title.as_str()).collect();
    assert_eq!(titles, vec!["z/hit1", "hit0"]);
}

#[test]
fn write_then_read_round_trips_the_exact_text() {
    let mut base = Node::Dir(vec![]);
    let text = "line one\nline two \n";
    assert!(write_note(&mut base, "y/x", text.to_string()).is_ok());
    assert_eq!(read(&base, "y/x").unwrap(), text);
}

#[test]
fn write_refuses_a_note_blocking_the_folder_chain() {
    let mut base = Node::Dir(vec![file("a.md", "z"), file("a", "plain")]);
    assert_eq!(write_note(&mut base, "a/b", "t".to_string()), Err(FskError::Conflict));
}

#[test]
fn read_missing_note_reports_not_found() {
    let base = Node::Dir(vec![]);
    assert_eq!(read(&base, "ghost"), Err(FskError::NotFound("ghost".to_string())));
}

#[test]
fn read_unreadable_note_reports_it() {
    let base = Node::Dir(vec![unreadable("a.md")]);
    assert_eq!(read(&base, "a"), Err(FskError::Unreadable));
}

#[test]
fn remove_prunes_the_emptied_folder_but_not_the_base() {
    let mut base = Node::Dir(vec![dir("sub", vec![file("note.md", "x")])]);
    assert!(remove(&mut base, "sub/note").is_ok());
    assert_eq!(base, Node::Dir(vec![]));
}

#[test]
fn remove_prunes_every_emptied_ancestor() {
    let mut base = Node::Dir(vec![
        file("keep.md", "k"),
        dir("a", vec![dir("b", vec![dir("c", vec![file("n.md", "x")])])]),
    ]);
    assert!(remove(&mut base, "a/b/c/n").is_ok());
    assert_eq!(base, Node::Dir(vec![file("keep.md", "k")]));
}

#[test]
fn remove_stops_pruning_at_the_first_nonempty_folder() {
    let mut base = Node::Dir(vec![dir(
        "a",
        vec![file("other.md", "o"), dir("b", vec![file("n.md", "x")])],
    )]);
    assert!(remove(&mut base, "a/b/n").is_ok());
    assert_eq!(base, Node::Dir(vec![dir("a", vec![file("other.md", "o")])]));
}

#[test]
fn remove_takes_a_whole_folder_when_no_note_matches() {
    let mut base = Node::Dir(vec![
        file("a.md", "z"),
        dir("b", vec![file("c.md", "y"), dir("d", vec![])]),
    ]);
    assert!(remove(&mut base, "b").is_ok());
    assert_eq!(base, Node::Dir(vec![file("a.md", "z")]));
}

#[test]
fn remove_missing_title_names_it_in_the_error() {
    let mut base = Node::Dir(vec![file("a.md", "z")]);
    match remove(&mut base, "ghost") {
        Err(FskError::NotFound(t)) => assert_eq!(t, "ghost"),
        other => panic!("expected NotFound, got {:?}", other),
    }
    assert_eq!(base, Node::Dir(vec![file("a.md", "z")]));
}

#[test]
fn rename_creates_the_missing_destination_folder() {
    let mut base = Node::Dir(vec![file("x.md", "body")]);
    assert!(rename(&mut base, "x", "y/x").is_ok());
    assert_eq!(read(&base, "y/x").unwrap(), "body");
    assert_eq!(list(&base, None), vec!["y/x"]);
    let sub = "y".to_string();
    assert_eq!(list(&base, Some(&sub)), vec!["y/x"]);
}

#[test]
fn rename_missing_source_reports_not_found() {
    let mut base = Node::Dir(vec![]);
    assert_eq!(rename(&mut base, "ghost", "y"), Err(FskError::NotFound("ghost".to_string())));
}

#[test]
fn rename_onto_a_folder_is_refused() {
    let mut base = Node::Dir(vec![file("x.md", "b"), dir("y.md", vec![])]);
    assert_eq!(rename(&mut base, "x", "y"), Err(FskError::Conflict));
    assert_eq!(read(&base, "x").unwrap(), "b");
}

#[test]
fn rename_overwrites_an_existing_note() {
    let mut base = Node::Dir(vec![file("x.md", "new"), file("y.md", "old")]);
    assert!(rename(&mut base, "x", "y").is_ok());
    assert_eq!(read(&base, "y").unwrap(), "new");
    assert_eq!(read(&base, "x"), Err(FskError::NotFound("x".to_string())));
}

#[test]
fn export_then_import_reproduces_the_tree() {
    let base = Node::Dir(vec![
        file("a.md", "alpha"),
        dir("b", vec![file("c.md", "gamma"), dir("empty", vec![])]),
    ]);
    let mut dest = Node::Dir(vec![]);
    assert!(export_folder(&base, "", &mut dest).is_ok());
    assert_eq!(dest, base);
    let mut fresh = Node::Dir(vec![]);
    assert!(export_folder(&dest, "", &mut fresh).is_ok());
    assert_eq!(fresh, base);
}

#[test]
fn export_one_folder_copies_its_subtree() {
    let base = Node::Dir(vec![
        file("a.md", "alpha"),
        dir("b", vec![file("c.md", "gamma")]),
    ]);
    let mut dest = Node::Dir(vec![]);
    assert!(export_folder(&base, "b", &mut dest).is_ok());
    assert_eq!(dest, Node::Dir(vec![file("c.md", "gamma")]));
}

#[test]
fn export_missing_source_names_it() {
    let base = Node::Dir(vec![]);
    let mut dest = Node::Dir(vec![]);
    match export_folder(&base, "nope", &mut dest) {
        Err(FskError::NotFound(t)) => assert_eq!(t, "nope"),
        other => panic!("expected NotFound, got {:?}", other),
    }
}

#[test]
fn export_overwrites_files_at_the_destination() {
    let base = Node::Dir(vec![file("a.md", "new")]);
    let mut dest = Node::Dir(vec![file("a.md", "old"), file("keep.md", "k")]);
    assert!(export_folder(&base, "", &mut dest).is_ok());
    assert_eq!(dest, Node::Dir(vec![file("a.md", "new"), file("keep.md", "k")]));
}

#[test]
fn export_onto_a_colliding_file_fails() {
    let base = Node::Dir(vec![dir("b", vec![file("c.md", "x")])]);
    let mut dest = Node::Dir(vec![file("b", "a plain file")]);
    assert_eq!(export_folder(&base, "", &mut dest), Err(FskError::Conflict));
}
