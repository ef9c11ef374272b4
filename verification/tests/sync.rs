use std::collections::BTreeMap;

use org_roam_sync::hash::compute_hash;
use org_roam_sync::sync::{
    completion_message, load_current_files, parse_file, plan_sync, stage_file, stage_removed,
    stage_sync, DbAction, FileInfo, ParsedFile, SeenIds,
};
use rusqlite::Connection;

fn note(path: &str, content: &str) -> FileInfo {
    FileInfo::new(path.to_string(), content.to_string())
}

fn titled(id: &str, title: &str) -> String {
    format!(":PROPERTIES:\n:ID: {}\n:END:\n#+TITLE: {}\n", id, title)
}

fn rows(pairs: &[(&str, &str)]) -> Vec<(String, String)> {
    pairs.iter().map(|(a, b)| (a.to_string(), b.to_string())).collect()
}

#[test]
fn a_note_carries_the_hash_of_its_content() {
    let f = note("/n/a.org", "abc");
    assert_eq!(f.path, "/n/a.org");
    assert_eq!(f.content, "abc");
    assert_eq!(f.hash, "a9993e364706816aba3e25717850c26c9cd0d89d");
}

#[test]
fn stored_files_are_loaded_without_their_quotes() {
    let t = load_current_files(&rows(&[("\"/n/a.org\"", "\"h1\""), ("/n/b.org", "h2"), ("\"/n/a.org\"", "\"h3\"")]));
    assert_eq!(t.len(), 2);
    assert_eq!(t.get("/n/a.org"), Some("h3"));
    assert_eq!(t.get("/n/b.org"), Some("h2"));
}

#[test]
fn new_changed_and_missing_notes_are_told_apart() {
    let files = vec![note("/n/a.org", "same"), note("/n/b.org", "new text"), note("/n/c.org", "fresh")];
    let stored = load_current_files(&rows(&[
        ("\"/n/gone.org\"", "\"x\""),
        ("\"/n/a.org\"", &format!("\"{}\"", compute_hash("same"))),
        ("\"/n/b.org\"", &format!("\"{}\"", compute_hash("old text"))),
        ("\"/n/lost.org\"", "\"y\""),
    ]));
    let plan = plan_sync(&stored, &files);
    assert_eq!(plan.modified, vec![1, 2]);
    assert_eq!(plan.removed, vec!["/n/gone.org".to_string(), "/n/lost.org".to_string()]);
}

#[test]
fn a_note_is_parsed_with_the_title_it_is_listed_under() {
    let parsed = parse_file(&note("/n/a.org", &titled("x", "T"))).unwrap();
    assert_eq!(parsed.path, "/n/a.org");
    assert_eq!(parsed.hash, compute_hash(&titled("x", "T")));
    assert_eq!(parsed.title, "T");
    assert_eq!(parsed.nodes.len(), 1);
    let parsed = parse_file(&note("/n/a.b.org", "no keywords")).unwrap();
    assert_eq!(parsed.title, "a.b");
    assert!(parsed.nodes.is_empty());
    assert!(parse_file(&note("/n/..", "no keywords")).is_none());
}

#[test]
fn what_is_gone_is_deleted() {
    let actions = stage_removed(&vec!["/n/a.org".to_string(), "b\"c".to_string()]);
    let shown: Vec<String> = actions.iter().map(|a| format!("{:?}", a)).collect();
    assert_eq!(
        shown,
        vec![
            "DeleteFile { file: \"\\\"/n/a.org\\\"\" }".to_string(),
            "DeleteNodes { file: \"\\\"/n/a.org\\\"\" }".to_string(),
            "DeleteFile { file: \"\\\"b\\\\\\\"c\\\"\" }".to_string(),
            "DeleteNodes { file: \"\\\"b\\\\\\\"c\\\"\" }".to_string(),
        ]
    );
}

#[test]
fn a_note_is_written_in_order() {
    let text = format!("{}#+FILETAGS: :t:\n#+ROAM_ALIASES: al\n", titled("x", "T"));
    let mut seen = SeenIds::new();
    let actions = stage_file(&mut seen, parse_file(&note("/n/a.org", &text)).unwrap());
    assert_eq!(actions.len(), 6);
    assert!(matches!(&actions[0], DbAction::DeleteFile { file } if file == "\"/n/a.org\""));
    assert!(matches!(&actions[1], DbAction::DeleteNodes { file } if file == "\"/n/a.org\""));
    match &actions[2] {
        DbAction::InsertFile { file, title, hash, atime, mtime } => {
            assert_eq!(file, "\"/n/a.org\"");
            assert_eq!(title, "\"T\"");
            assert_eq!(hash, &format!("\"{}\"", compute_hash(&text)));
            assert_eq!(atime, "(0 0 0 0)");
            assert_eq!(mtime, "(0 0 0 0)");
        }
        other => panic!("{:?}", other),
    }
    assert!(matches!(&actions[3], DbAction::InsertNode { node, duplicate: false } if node.id == "\"x\""));
    assert!(matches!(&actions[4], DbAction::InsertTag { tag } if tag.node_id == "\"x\"" && tag.tag == "\"t\""));
    assert!(
        matches!(&actions[5], DbAction::InsertAlias { alias } if alias.node_id == "\"x\"" && alias.alias == "\"al\"")
    );
    assert_eq!(seen.duplicates(), 0);
}

#[test]
fn duplicate_ids_are_marked_and_counted() {
    let mut seen = SeenIds::new();
    let mut marks: Vec<bool> = Vec::new();
    for (path, id) in [("a", "x"), ("b", "y"), ("c", "x"), ("d", "x")] {
        let file = note(path, &titled(id, "T"));
        for action in stage_file(&mut seen, parse_file(&file).unwrap()) {
            if let DbAction::InsertNode { duplicate, .. } = action {
                marks.push(duplicate);
            }
        }
    }
    assert_eq!(marks, vec![false, false, true, true]);
    assert_eq!(seen.duplicates(), 2);
}

#[test]
fn the_report_names_duplicates_only_if_there_are_any() {
    assert_eq!(completion_message(0, 0, 0), "Rust Sync Complete using org-rs: removed 0, modified 0");
    assert_eq!(completion_message(3, 12, 0), "Rust Sync Complete using org-rs: removed 3, modified 12");
    assert_eq!(
        completion_message(1, 2, 5),
        "Rust Sync Complete using org-rs: removed 1, modified 2 (5 duplicate node id(s) replaced)"
    );
}

// A database as a sync finds it, and the statements executed on it.

const SCHEMA: &str = "
    PRAGMA foreign_keys = ON;
    CREATE TABLE files (file UNIQUE PRIMARY KEY, title, hash NOT NULL, atime NOT NULL, mtime NOT NULL);
    CREATE TABLE nodes (id NOT NULL PRIMARY KEY, file NOT NULL, level NOT NULL, pos NOT NULL, todo, priority,
        title, properties, olp, FOREIGN KEY (file) REFERENCES files (file) ON DELETE CASCADE);
    CREATE TABLE aliases (node_id NOT NULL, alias, FOREIGN KEY (node_id) REFERENCES nodes (id) ON DELETE CASCADE);
    CREATE TABLE tags (node_id NOT NULL, tag, FOREIGN KEY (node_id) REFERENCES nodes (id) ON DELETE CASCADE);
";

fn open() -> Connection {
    let conn = Connection::open_in_memory().unwrap();
    conn.execute_batch(SCHEMA).unwrap();
    conn
}

fn execute(conn: &Connection, action: &DbAction) {
    let done = match action {
        DbAction::DeleteFile { file } => conn.execute("DELETE FROM files WHERE file = ?", (file,)),
        DbAction::DeleteNodes { file } => conn.execute("DELETE FROM nodes WHERE file = ?", (file,)),
        DbAction::InsertFile { file, title, hash, atime, mtime } => {
            conn.execute("INSERT INTO files VALUES (?, ?, ?, ?, ?)", (file, title, hash, atime, mtime))
        }
        DbAction::InsertNode { node: n, .. } => conn.execute(
            "INSERT OR REPLACE INTO nodes VALUES (?, ?, ?, ?, ?, ?, ?, ?, ?)",
            (&n.id, &n.file, n.level, n.pos, &n.todo, &n.priority, &n.title, &n.properties, &n.olp),
        ),
        DbAction::InsertTag { tag } => conn.execute("INSERT INTO tags VALUES (?, ?)", (&tag.node_id, &tag.tag)),
        DbAction::InsertAlias { alias } => {
            conn.execute("INSERT INTO aliases VALUES (?, ?)", (&alias.node_id, &alias.alias))
        }
    };
    done.unwrap();
}

fn pairs(conn: &Connection, sql: &str) -> Vec<(String, String)> {
    let mut stmt = conn.prepare(sql).unwrap();
    let found = stmt.query_map([], |row| Ok((row.get(0)?, row.get(1)?))).unwrap();
    found.map(|r| r.unwrap()).collect()
}

fn sync(conn: &Connection, files: &Vec<FileInfo>) -> String {
    let stored = load_current_files(&pairs(conn, "SELECT file, hash FROM files"));
    let plan = plan_sync(&stored, files);
    let parsed: Vec<ParsedFile> = plan.modified.iter().map(|i| parse_file(&files[*i]).unwrap()).collect();
    let paths: Vec<String> = parsed.iter().map(|p| p.path.clone()).collect();
    let script = stage_sync(&plan.removed, parsed);
    for action in &script.removals {
        execute(conn, action);
    }
    assert_eq!(script.writes.iter().map(|w| w.path.clone()).collect::<Vec<String>>(), paths);
    for write in &script.writes {
        for action in &write.actions {
            execute(conn, action);
        }
    }
    script.message
}

fn expected(files: &[FileInfo]) -> BTreeMap<String, String> {
    files.iter().map(|f| (format!("\"{}\"", f.path), format!("\"{}\"", f.hash))).collect()
}

fn listed(conn: &Connection) -> BTreeMap<String, String> {
    pairs(conn, "SELECT file, hash FROM files").into_iter().collect()
}

#[test]
fn after_a_sync_the_database_lists_the_notes_on_disk() {
    let conn = open();
    let mut files = vec![
        note("/n/a.org", &titled("a", "A")),
        note("/n/b.org", &format!("{}* H :t:\n:PROPERTIES:\n:ID: h\n:END:\n", titled("b", "B"))),
        note("/n/c.org", "plain"),
    ];
    assert_eq!(sync(&conn, &files), "Rust Sync Complete using org-rs: removed 0, modified 3");
    assert_eq!(listed(&conn), expected(&files));
    assert_eq!(pairs(&conn, "SELECT node_id, tag FROM tags"), rows(&[("\"h\"", "\"t\"")]));

    files.remove(0);
    files[0] = note("/n/b.org", &titled("b", "B again"));
    files.push(note("/n/d.org", &titled("d", "D")));
    assert_eq!(sync(&conn, &files), "Rust Sync Complete using org-rs: removed 1, modified 2");
    assert_eq!(listed(&conn), expected(&files));
    assert_eq!(
        pairs(&conn, "SELECT id, title FROM nodes ORDER BY id"),
        rows(&[("\"b\"", "\"B again\""), ("\"d\"", "\"D\"")])
    );
    assert_eq!(pairs(&conn, "SELECT node_id, tag FROM tags"), rows(&[]));
}

#[test]
fn a_second_sync_has_nothing_to_do() {
    let conn = open();
    let files = vec![note("/n/a.org", &titled("a", "A")), note("/n/b.org", "plain")];
    sync(&conn, &files);
    assert_eq!(sync(&conn, &files), "Rust Sync Complete using org-rs: removed 0, modified 0");
    assert_eq!(listed(&conn), expected(&files));
}

#[test]
fn of_two_nodes_with_one_id_the_last_one_stays() {
    let conn = open();
    let files = vec![
        note("/n/a.org", &titled("x", "First")),
        note("/n/b.org", &titled("x", "Second")),
    ];
    assert_eq!(
        sync(&conn, &files),
        "Rust Sync Complete using org-rs: removed 0, modified 2 (1 duplicate node id(s) replaced)"
    );
    assert_eq!(pairs(&conn, "SELECT id, title FROM nodes"), rows(&[("\"x\"", "\"Second\"")]));
    assert_eq!(listed(&conn), expected(&files));
}

#[test]
fn a_path_with_a_quote_is_written_again_by_every_sync() {
    let conn = open();
    let files = vec![note("/n/a\"b.org", "text")];
    sync(&conn, &files);
    assert_eq!(sync(&conn, &files), "Rust Sync Complete using org-rs: removed 1, modified 1");
}

#[test]
fn the_last_writer_brings_its_tags_and_aliases() {
    let conn = open();
    let first = format!("{}#+FILETAGS: :old:\n#+ROAM_ALIASES: one\n", titled("x", "First"));
    let second = format!("{}#+FILETAGS: :new:\n", titled("x", "Second"));
    sync(&conn, &vec![note("/n/a.org", &first), note("/n/b.org", &second)]);
    assert_eq!(pairs(&conn, "SELECT node_id, tag FROM tags"), rows(&[("\"x\"", "\"new\"")]));
    assert_eq!(pairs(&conn, "SELECT node_id, alias FROM aliases"), rows(&[]));
}

#[test]
fn an_unmodified_note_keeps_its_rows() {
    let conn = open();
    let kept = format!("{}#+FILETAGS: :t:u:\n#+ROAM_ALIASES: al\n", titled("k", "Kept"));
    sync(&conn, &vec![note("/n/k.org", &kept), note("/n/b.org", &titled("b", "B"))]);
    let message = sync(&conn, &vec![note("/n/k.org", &kept), note("/n/c.org", &titled("c", "C"))]);
    assert_eq!(message, "Rust Sync Complete using org-rs: removed 1, modified 1");
    assert_eq!(
        pairs(&conn, "SELECT id, title FROM nodes ORDER BY id"),
        rows(&[("\"c\"", "\"C\""), ("\"k\"", "\"Kept\"")])
    );
    assert_eq!(
        pairs(&conn, "SELECT node_id, tag FROM tags"),
        rows(&[("\"k\"", "\"t\""), ("\"k\"", "\"u\"")])
    );
    assert_eq!(pairs(&conn, "SELECT node_id, alias FROM aliases"), rows(&[("\"k\"", "\"al\"")]));
}

#[test]
fn a_first_sync_takes_every_note() {
    let files = vec![note("/n/a.org", "a"), note("/n/b.org", "b"), note("/n/c.org", "c")];
    let plan = plan_sync(&load_current_files(&rows(&[])), &files);
    assert_eq!(plan.modified, vec![0, 1, 2]);
    assert!(plan.removed.is_empty());
}

#[test]
fn every_written_note_has_its_row() {
    let conn = open();
    sync(&conn, &vec![note("/n/a.org", &titled("a", "A \"quoted\" title")), note("/n/b.org", "plain")]);
    assert_eq!(
        pairs(&conn, "SELECT file, title FROM files ORDER BY file"),
        rows(&[("\"/n/a.org\"", "\"A \\\"quoted\\\" title\""), ("\"/n/b.org\"", "\"b\"")])
    );
    assert_eq!(
        pairs(&conn, "SELECT DISTINCT atime, mtime FROM files"),
        rows(&[("(0 0 0 0)", "(0 0 0 0)")])
    );
}

#[test]
fn duplicates_are_the_nodes_less_the_distinct_ids() {
    let conn = open();
    let twice = format!("{}* H\n:PROPERTIES:\n:ID: x\n:END:\n", titled("x", "T"));
    let files = vec![note("/n/a.org", &twice), note("/n/b.org", &titled("y", "U")), note("/n/c.org", &twice)];
    assert_eq!(
        sync(&conn, &files),
        "Rust Sync Complete using org-rs: removed 0, modified 3 (3 duplicate node id(s) replaced)"
    );
    assert_eq!(pairs(&conn, "SELECT id, file FROM nodes").len(), 2);
}
