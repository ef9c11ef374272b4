use org_roam_sync::outline::{
    build_outline, parse_elements, parse_outline, ElementKind, FoundElement, Syntax, SyntaxNode,
};

fn show(node: &SyntaxNode) -> String {
    let below: Vec<String> = node.children.iter().map(show).collect();
    let own = match &node.data {
        Syntax::OrgData => "note".to_string(),
        Syntax::Headline(h) => format!("{}:{}@{}{:?}", h.level, h.title, node.start, h.tags),
        Syntax::Other => "other".to_string(),
    };
    if below.is_empty() {
        own
    } else {
        format!("{}({})", own, below.join(" "))
    }
}

fn element(kind: ElementKind, start: usize, count: usize) -> FoundElement {
    FoundElement { kind, start, count, level: None, title: None, tags: None }
}

fn headline(start: usize, level: i64, title: &str) -> FoundElement {
    FoundElement {
        kind: ElementKind::Headline,
        start,
        count: 0,
        level: Some(level),
        title: Some(title.to_string()),
        tags: Some(vec![]),
    }
}

fn section(start: usize, count: usize) -> FoundElement {
    element(ElementKind::Section, start, count)
}

fn other(count: usize) -> FoundElement {
    element(ElementKind::Other, 0, count)
}

fn count(node: &SyntaxNode) -> usize {
    node.children.iter().map(|c| 1 + count(c)).sum()
}

#[test]
fn sections_become_the_trees_of_their_headings() {
    let text = "* a\n** b\n** c\n* d\n";
    let found = vec![
        other(3),
        other(1),
        other(0),
        section(0, 4),
        headline(0, 1, "a"),
        other(0),
        section(4, 1),
        headline(4, 2, "b"),
        section(9, 1),
        headline(9, 2, "c"),
        section(14, 1),
        headline(14, 1, "d"),
    ];
    let tree = build_outline(&found, text);
    assert_eq!(show(&tree), "note(1:a@0[](2:b@4[] 2:c@9[]) 1:d@14[])");
    assert_eq!(count(&tree), 4);
    assert_eq!(show(&build_outline(&vec![], text)), "note");
    assert_eq!(show(&build_outline(&vec![other(0)], text)), "note");
}

#[test]
fn what_is_no_headline_gives_way_to_what_lies_below_it() {
    let text = "*\tx\n** b\n";
    let found = vec![
        other(1),
        section(0, 2),
        headline(0, 1, "x"),
        section(4, 1),
        headline(4, 2, "b"),
    ];
    assert_eq!(show(&build_outline(&found, text)), "note(2:b@4[])");
}

#[test]
fn a_heading_outside_of_a_section_stays() {
    let found = vec![other(1), headline(0, 1, "a")];
    assert_eq!(show(&build_outline(&found, "* a\n")), "note(1:a@0[])");
    assert_eq!(show(&build_outline(&found, "x a\n")), "note");
    assert_eq!(show(&build_outline(&found, "")), "note");
}

#[test]
fn more_elements_than_were_counted_are_kept() {
    let found = vec![other(0), headline(0, 1, "a"), section(4, 9), headline(4, 1, "b")];
    assert_eq!(show(&build_outline(&found, "* a\n* b\n")), "note(1:a@0[] 1:b@4[])");
}

#[test]
fn what_the_parser_does_not_find_is_zero_or_empty() {
    let found = vec![other(1), element(ElementKind::Headline, 0, 0)];
    assert_eq!(show(&build_outline(&found, "* \n")), "note(0:@0[])");
}

#[test]
fn the_parser_gives_each_element_before_those_below_it() {
    let found = parse_elements("intro\n* a :t:\nbody\n** b\n");
    let mut open: Vec<usize> = vec![1];
    for e in &found {
        while open.last() == Some(&0) {
            open.pop();
        }
        *open.last_mut().unwrap() -= 1;
        open.push(e.count);
    }
    assert!(open.iter().all(|n| *n == 0));
    let lines: Vec<(usize, Option<i64>)> = found
        .iter()
        .filter(|e| matches!(e.kind, ElementKind::Headline))
        .map(|e| (e.start, e.level))
        .collect();
    assert_eq!(lines, vec![(6, Some(1)), (19, Some(2))]);
    assert_eq!(found.iter().filter(|e| matches!(e.kind, ElementKind::Section)).count(), 2);
}

#[test]
fn only_stars_and_a_space_make_a_headline() {
    for text in ["*\u{2003} x\n", "*\u{a0} x\n", "*\tx\n", "*\u{85} x\n", "*x\n", " * x\n", "*\n", "a\r* x\n"] {
        assert_eq!(show(&parse_outline(text)), "note", "{:?}", text);
    }
    assert_eq!(show(&parse_outline("* \u{2003}x\n")).matches('@').count(), 1);
}

#[test]
fn a_note_is_read_into_its_outline() {
    let text = "intro\n* First :x:y:\nbody\n** Second é\n*** Third\n* Last\n";
    assert_eq!(
        show(&parse_outline(text)),
        "note(1:First@6[\"x\", \"y\"](2:Second é@25[](3:Third@38[])) 1:Last@48[])"
    );
    assert_eq!(show(&parse_outline("")), "note");
    assert_eq!(show(&parse_outline("no headline\n")), "note");
}

fn check(node: &SyntaxNode, text: &str) {
    for child in &node.children {
        if let Syntax::Headline(h) = &child.data {
            assert!(text.is_char_boundary(child.start), "{:?}", text);
            let stars = text[child.start..].chars().take_while(|c| *c == '*').count();
            assert_eq!(stars as i64, h.level, "{:?} {}", text, child.start);
            assert!(text[child.start + stars..].starts_with(' '), "{:?} {}", text, child.start);
            assert!(child.start == 0 || text[..child.start].ends_with('\n'), "{:?} {}", text, child.start);
        }
        check(child, text);
    }
}

#[test]
fn every_headline_starts_with_its_stars() {
    let pieces = [
        "\n", "\n", "* ", "** ", "*** ", "*", " ", "\t", "a", "é b", ":t:u:", "TODO ", "[#A] ", ":PROPERTIES:\n",
        ":ID: x\n", ":END:\n", "#+TITLE: t\n", "#+BEGIN_SRC\n", "#+END_SRC\n", "| x |\n", "- i\n", "\r", "\u{2028}",
        "[[l][d]]", "/i/ ", "<2024-01-01>", "[fn:1] ", "€", "\0", "*\u{2003} ", "\n  - i\n", "\n\n", "1. ",
    ];
    let mut state: u64 = 7;
    for _ in 0..400 {
        let mut text = String::new();
        for _ in 0..25 {
            state = state.wrapping_mul(6364136223846793005).wrapping_add(1442695040888963407);
            text.push_str(pieces[(state >> 33) as usize % pieces.len()]);
        }
        check(&parse_outline(&text), &text);
    }
}
