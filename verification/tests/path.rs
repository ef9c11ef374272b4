use org_roam_sync::path::{get_org_files, is_note, listed_title, title_or_stem};

#[test]
fn notes_are_told_by_their_names() {
    for name in ["a.org", "note.x.org", "ä.org", ".a.org", "..org", "a#.org"] {
        assert!(is_note(name), "{}", name);
    }
    for name in [
        "", "org", ".org", "a.ORG", "a.org~", "#a.org#", "#a.org", ".#a.org", "a.orgx", "a.txt", "a.org.bak",
    ] {
        assert!(!is_note(name), "{}", name);
    }
}

#[test]
fn only_the_notes_of_a_directory_are_listed() {
    let entries = vec![
        ("/n".to_string(), Some("n".to_string())),
        ("/n/a.org".to_string(), Some("a.org".to_string())),
        ("/n/.#a.org".to_string(), Some(".#a.org".to_string())),
        ("/n/\u{fffd}.org".to_string(), None),
        ("/n/sub/b.org".to_string(), Some("b.org".to_string())),
        ("/n/b.org~".to_string(), Some("b.org~".to_string())),
    ];
    assert_eq!(get_org_files(&entries), vec!["/n/a.org".to_string(), "/n/sub/b.org".to_string()]);
    assert_eq!(get_org_files(&vec![]), Vec::<String>::new());
}

#[test]
fn a_title_comes_before_the_file_name() {
    assert_eq!(title_or_stem("T", Some("s".to_string())), Some("T".to_string()));
    assert_eq!(title_or_stem("", Some("s".to_string())), Some("s".to_string()));
    assert_eq!(title_or_stem("", None), None);
    assert_eq!(title_or_stem("T", None), Some("T".to_string()));
}

#[test]
fn a_note_without_a_title_is_listed_by_its_stem() {
    for (path, stem) in [
        ("/notes/a.org", "a"),
        ("/notes/20240101-a.b.org", "20240101-a.b"),
        ("a.org", "a"),
        ("a", "a"),
        ("/x.y/.hidden", ".hidden"),
        ("/x/..foo", "."),
        ("/x/10:30.org", "10:30"),
        ("/x/a.org/", "a"),
        ("/x/a.org/.", "a"),
        ("/x/a.org/.//", "a"),
        ("./a.org", "a"),
        ("/x/...", ".."),
        ("c:/notes/a.org", "a"),
        ("a\\b/c.org", "c"),
        ("\\a/b.org", "b"),
        ("/c:", "c:"),
    ] {
        assert_eq!(listed_title(path, ""), Some(stem.to_string()), "{}", path);
    }
    assert_eq!(listed_title("/notes/a.org", "My title"), Some("My title".to_string()));
}

#[test]
fn a_path_without_a_file_name_gives_no_title() {
    for path in ["", "/", ".", "./", "..", "/x/..", "../", "././."] {
        assert_eq!(listed_title(path, ""), None, "{}", path);
    }
}
