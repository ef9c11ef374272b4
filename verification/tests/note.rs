use org_roam_sync::note::{
    index_elements, index_note, parse_org_file, try_parse_org_file, walk_ast, Node, Rows,
};
use org_roam_sync::outline::{ElementKind, FoundElement, HeadlineData, Syntax, SyntaxNode};

const NOTE: &str = ":PROPERTIES:
:ID: file-1
:ROAM_ALIASES: one two
:END:
#+TITLE: The \"note\"
#+FILETAGS: :a:b c:
#+ROAM_ALIASES: three four

* Plain heading
** Inner :x:y:
:PROPERTIES:
:ID: inner-1
:ROAM_ALIASES: five
:KEY: v
:END:
*** Leaf é
* Sibling
:PROPERTIES:
:ID: sib-1
:END:
";

fn node<'a>(nodes: &'a [Node], id: &str) -> &'a Node {
    nodes.iter().find(|n| n.id == id).unwrap()
}

#[test]
fn a_note_with_an_id_gives_a_node_at_level_zero() {
    let (nodes, _, _, title) = parse_org_file("/n/a.org", NOTE);
    assert_eq!(title, "The \"note\"");
    assert_eq!(nodes.len(), 3);
    let n = node(&nodes, "\"file-1\"");
    assert_eq!(n.file, "\"/n/a.org\"");
    assert_eq!(n.level, 0);
    assert_eq!(n.pos, 1);
    assert_eq!(n.todo, Some("nil".to_string()));
    assert_eq!(n.priority, Some("nil".to_string()));
    assert_eq!(n.title, "\"The \\\"note\\\"\"");
    assert_eq!(n.properties, "((\"ID\" . \"file-1\") (\"ROAM_ALIASES\" . \"one two\"))");
    assert_eq!(n.olp, "nil");
}

#[test]
fn headings_with_an_id_give_nodes() {
    let (nodes, _, _, _) = parse_org_file("/n/a.org", NOTE);
    let inner = node(&nodes, "\"inner-1\"");
    assert_eq!(inner.level, 2);
    assert_eq!(inner.pos, NOTE.find("** Inner").unwrap() as i64 + 1);
    assert_eq!(inner.title, "\"Inner\"");
    assert_eq!(inner.olp, "(\"Plain heading\")");
    assert_eq!(
        inner.properties,
        "((\"ID\" . \"inner-1\") (\"ROAM_ALIASES\" . \"five\") (\"KEY\" . \"v\"))"
    );
    let sibling = node(&nodes, "\"sib-1\"");
    assert_eq!(sibling.level, 1);
    assert_eq!(sibling.olp, "nil");
    assert_eq!(sibling.pos, NOTE.find("* Sibling").unwrap() as i64 + 1);
}

#[test]
fn tags_and_aliases_belong_to_nodes() {
    let (nodes, tags, aliases, _) = parse_org_file("/n/a.org", NOTE);
    let tags: Vec<(&str, &str)> = tags.iter().map(|t| (t.node_id.as_str(), t.tag.as_str())).collect();
    assert_eq!(
        tags,
        vec![
            ("\"file-1\"", "\"a\""),
            ("\"file-1\"", "\"b c\""),
            ("\"inner-1\"", "\"x\""),
            ("\"inner-1\"", "\"y\""),
        ]
    );
    let aliases: Vec<(&str, &str)> =
        aliases.iter().map(|a| (a.node_id.as_str(), a.alias.as_str())).collect();
    assert_eq!(
        aliases,
        vec![
            ("\"file-1\"", "\"one two\""),
            ("\"file-1\"", "\"three\""),
            ("\"file-1\"", "\"four\""),
            ("\"inner-1\"", "\"five\""),
        ]
    );
    for (id, _) in tags.iter().chain(aliases.iter()) {
        assert!(nodes.iter().any(|n| n.id == *id));
    }
    assert!(nodes.iter().all(|n| n.file == "\"/n/a.org\""));
}

#[test]
fn a_heading_without_an_id_does_not_take_its_siblings_drawer() {
    let text = "* One\n* Two\n:PROPERTIES:\n:ID: x\n:END:\n** Three\n";
    let (nodes, tags, aliases, title) = parse_org_file("/n/a.org", text);
    assert_eq!(nodes.len(), 1);
    assert_eq!(nodes[0].title, "\"Two\"");
    assert!(tags.is_empty() && aliases.is_empty());
    assert_eq!(title, "");
}

#[test]
fn a_drawer_below_a_heading_is_not_the_notes() {
    let text = "#+TITLE: T\n* One\n:PROPERTIES:\n:ID: x\n:END:\n";
    let (nodes, _, _, _) = parse_org_file("/n/a.org", text);
    assert_eq!(nodes.len(), 1);
    assert_eq!(nodes[0].level, 1);
}

#[test]
fn the_file_name_stands_in_for_a_missing_title() {
    let text = ":PROPERTIES:\n:ID: x\n:END:\n";
    let (nodes, _, _, title) = parse_org_file("/n/2024-my.note.org", text);
    assert_eq!(nodes[0].title, "\"2024-my.note\"");
    assert_eq!(title, "");
}

#[test]
fn a_note_without_a_title_or_file_name_is_refused() {
    let text = ":PROPERTIES:\n:ID: x\n:END:\n";
    assert!(try_parse_org_file("/n/..", text).is_none());
    assert!(try_parse_org_file("", text).is_none());
    assert!(try_parse_org_file("/n/..", "no ID\n").is_some());
    let (nodes, _, _, title) = try_parse_org_file("/n/..", &format!("{}#+TITLE: T\n", text)).unwrap();
    assert_eq!(nodes[0].title, "\"T\"");
    assert_eq!(title, "T");
}

#[test]
fn the_title_of_the_listing_is_given() {
    let text = ":PROPERTIES:\n:ID: x\n:END:\n* H\n:PROPERTIES:\n:ID: y\n:END:\n";
    let rows = index_note("f", text, &Some("shown".to_string()));
    assert_eq!(rows.nodes.len(), 2);
    assert_eq!(rows.nodes[0].title, "\"shown\"");
    assert_eq!(rows.nodes[1].title, "\"H\"");
    let rows = index_note("f", text, &None);
    assert_eq!(rows.nodes.len(), 1);
    assert_eq!(rows.nodes[0].id, "\"y\"");
}

#[test]
fn an_empty_note_gives_nothing() {
    let (nodes, tags, aliases, title) = parse_org_file("/n/a.org", "");
    assert!(nodes.is_empty() && tags.is_empty() && aliases.is_empty());
    assert_eq!(title, "");
}

#[test]
fn stars_and_a_tab_do_not_end_a_heading() {
    let text = "* A\n*\tx\n:PROPERTIES:\n:ID: i\n:END:\n";
    let data = HeadlineData { level: 1, title: "A".to_string(), tags: vec![] };
    let heading = SyntaxNode { data: Syntax::Headline(data), start: 0, children: vec![] };
    let tree = SyntaxNode { data: Syntax::OrgData, start: 0, children: vec![heading] };
    let mut olp: Vec<String> = vec![];
    let mut rows = Rows { nodes: vec![], tags: vec![], aliases: vec![] };
    walk_ast(&tree, &mut olp, &mut rows, "/r/n.org", text, &Some("n".to_string()));
    assert_eq!(rows.nodes.len(), 1);
    assert_eq!(rows.nodes[0].id, "\"i\"");
    assert_eq!(rows.nodes[0].title, "\"A\"");
    assert_eq!(rows.nodes[0].pos, 1);
    assert!(olp.is_empty());
    let (nodes, _, _, _) = parse_org_file("/r/n.org", text);
    assert_eq!(nodes.len(), 1);
    assert_eq!(nodes[0].title, "\"A\"");
}

#[test]
fn the_rows_follow_from_what_the_parser_finds() {
    let text = "* A\n:PROPERTIES:\n:ID: i\n:END:\n";
    let root = FoundElement { kind: ElementKind::Other, start: 0, count: 1, level: None, title: None, tags: None };
    let line = FoundElement {
        kind: ElementKind::Headline,
        start: 0,
        count: 0,
        level: Some(1),
        title: Some("A".to_string()),
        tags: Some(vec!["t".to_string()]),
    };
    let rows = index_elements("f", text, &None, &vec![root, line]);
    assert_eq!(rows.nodes.len(), 1);
    assert_eq!(rows.nodes[0].title, "\"A\"");
    assert_eq!(rows.tags.len(), 1);
    assert_eq!(rows.tags[0].tag, "\"t\"");
    // Without any findings the drawer is that of the note as a whole.
    let rows = index_elements("f", text, &Some("shown".to_string()), &vec![]);
    assert_eq!(rows.nodes.len(), 1);
    assert_eq!(rows.nodes[0].level, 0);
}

#[test]
fn headings_behind_a_carriage_return_do_not_share_a_drawer() {
    let text = "* A\r* B\n:PROPERTIES:\n:ID: i\n:END:\n";
    let (nodes, _, _, _) = parse_org_file("/n/a.org", text);
    assert_eq!(nodes.iter().filter(|n| n.id == "\"i\"").count(), 1);
}

#[test]
fn different_ids_give_different_nodes() {
    let text = ":PROPERTIES:\n:ID: a\n:END:\n* H\n:PROPERTIES:\n:ID: b\n:END:\n** I\n:PROPERTIES:\n:ID: c\n:END:\n";
    let (nodes, _, _, _) = parse_org_file("/n/a.org", text);
    let ids: Vec<&str> = nodes.iter().map(|n| n.id.as_str()).collect();
    assert_eq!(ids, vec!["\"a\"", "\"b\"", "\"c\""]);
}

#[test]
fn the_rows_hardly_depend_on_the_file() {
    let text = NOTE.replace("#+TITLE: The \"note\"\n", "");
    let (n1, t1, a1, s1) = parse_org_file("/n/one.org", &text);
    let (n2, t2, a2, s2) = parse_org_file("/n/two.org", &text);
    assert_eq!(format!("{:?} {:?} {}", t1, a1, s1), format!("{:?} {:?} {}", t2, a2, s2));
    assert_eq!(n1.len(), n2.len());
    for (x, y) in n1.iter().zip(n2.iter()) {
        assert_eq!((&x.id, x.level, x.pos, &x.olp), (&y.id, y.level, y.pos, &y.olp));
        assert_eq!((&x.todo, &x.priority, &x.properties), (&y.todo, &y.priority, &y.properties));
        assert_eq!((x.file.as_str(), y.file.as_str()), ("\"/n/one.org\"", "\"/n/two.org\""));
        if x.level > 0 {
            assert_eq!(x.title, y.title);
        }
    }
    assert_eq!((n1[0].title.as_str(), n2[0].title.as_str()), ("\"one\"", "\"two\""));
}

#[test]
fn prose_and_lists_do_not_hide_headings() {
    let text = "Some text. It ends here.\n- one (1)\n- two + 3\n\n* A. B - C\n:PROPERTIES:\n:ID: x\n:END:\n1. i\n   a) j\n** D\n:PROPERTIES:\n:ID: y\n:END:\n";
    let (nodes, _, _, _) = parse_org_file("/n/a.org", text);
    let found: Vec<(&str, i64, &str)> = nodes.iter().map(|n| (n.id.as_str(), n.level, n.olp.as_str())).collect();
    assert_eq!(found, vec![("\"x\"", 1, "nil"), ("\"y\"", 2, "(\"A. B - C\")")]);
}
