use org_roam_sync::keyword::{
    aliases_from_line, collect_properties, end_of_section, extract_aliases, extract_properties,
    extract_tags, extract_title, keep_nonblank, starts_headline, tags_from_line, title_from_line,
};
use org_roam_sync::table::StringTable;

fn pairs(t: &StringTable) -> Vec<(String, String)> {
    (0..t.len()).map(|i| (t.key_at(i).to_string(), t.value_at(i).to_string())).collect()
}

fn owned(parts: &[(&str, &str)]) -> Vec<(String, String)> {
    parts.iter().map(|(k, v)| (k.to_string(), v.to_string())).collect()
}

fn strings(parts: &[&str]) -> Vec<String> {
    parts.iter().map(|s| s.to_string()).collect()
}

#[test]
fn the_title_line_gives_the_title() {
    assert_eq!(extract_title("#+TITLE: My note\n"), "My note");
    assert_eq!(extract_title("x\n \t#+title:\t  My note \r\n#+TITLE: other"), "My note");
    assert_eq!(extract_title("#+TiTlE:a:b"), "a:b");
    assert_eq!(extract_title("#+TITLE:\nnext"), "");
    assert_eq!(extract_title("x #+TITLE: no"), "");
    assert_eq!(extract_title(""), "");
}

#[test]
fn a_captured_line_gives_title_tags_and_aliases() {
    assert_eq!(title_from_line(None), "");
    assert_eq!(title_from_line(Some(" a b ".to_string())), "a b");
    assert_eq!(tags_from_line(None), strings(&[]));
    assert_eq!(tags_from_line(Some(":a: b :: c:".to_string())), strings(&["a", "b", "c"]));
    assert_eq!(aliases_from_line(None), strings(&[]));
    assert_eq!(aliases_from_line(Some(" one  \"two three\" ".to_string())), strings(&["one", "\"two", "three\""]));
    assert_eq!(keep_nonblank(strings(&[" a", " ", "", "b\t"])), strings(&["a", "b"]));
}

#[test]
fn tag_lines_have_two_names() {
    assert_eq!(extract_tags("#+FILETAGS: :a:b:\n"), strings(&["a", "b"]));
    assert_eq!(extract_tags("#+roam_tags: one two:three\n#+FILETAGS: :x:"), strings(&["one two", "three"]));
    assert_eq!(extract_tags("#+FILETAGS:\n"), strings(&[]));
    assert_eq!(extract_tags("#+TAGS: :a:"), strings(&[]));
}

#[test]
fn alias_lines_hold_words() {
    assert_eq!(extract_aliases("#+ROAM_ALIASES: one two\n"), strings(&["one", "two"]));
    assert_eq!(extract_aliases("  #+roam_aliases:\tone\n"), strings(&["one"]));
    assert_eq!(extract_aliases("#+ROAM_ALIAS: one\n"), strings(&[]));
}

#[test]
fn the_first_drawer_gives_the_properties() {
    let text = "intro\n  :properties:  \n:ID:  abc \n:Roam_Aliases: x y\nno property\n:a b: c\n:ID+: d\n:CAT_$-9:\n  :END: tail\n:PROPERTIES:\n:ID: late\n:END:\n";
    assert_eq!(
        pairs(&extract_properties(text)),
        owned(&[("ID", "abc "), ("ROAM_ALIASES", "x y"), ("CAT_$-9", "")])
    );
}

#[test]
fn a_later_property_replaces_an_earlier_one() {
    let text = ":PROPERTIES:\n:id: one\n:Key: k\n:ID: two\n:END:\n";
    assert_eq!(pairs(&extract_properties(text)), owned(&[("ID", "two"), ("KEY", "k")]));
}

#[test]
fn a_drawer_needs_a_line_inside_and_an_end() {
    assert_eq!(pairs(&extract_properties("")), owned(&[]));
    assert_eq!(pairs(&extract_properties(":PROPERTIES:\n:END:\n")), owned(&[]));
    assert_eq!(pairs(&extract_properties(":PROPERTIES:\n:ID: a\n")), owned(&[]));
    assert_eq!(pairs(&extract_properties(":PROPERTIES: x\n:ID: a\n:END:\n")), owned(&[]));
    assert_eq!(pairs(&extract_properties(":PROPERTIES:\r\n:ID: a\r\n:END:\r\n")), owned(&[]));
    // The line that would close an empty drawer is taken as its content.
    assert_eq!(
        pairs(&extract_properties(":PROPERTIES:\n:END:\n:ID: a\n:END:")),
        owned(&[("END", ""), ("ID", "a")])
    );
    assert_eq!(pairs(&extract_properties(":PROPERTIES:\n:ID: a\n:END:x")), owned(&[("ID", "a")]));
}

#[test]
fn letters_that_fold_to_ascii_count() {
    assert_eq!(extract_tags("#+FILETAG\u{17f}: :a:"), strings(&["a"]));
    assert_eq!(
        pairs(&extract_properties(":PROPERTIE\u{17f}:\n:\u{212a}ey: v\n:\u{17f}: w\n:END:")),
        owned(&[("\u{212a}EY", "v"), ("S", "w")])
    );
}

#[test]
fn property_names_are_put_in_upper_case() {
    let t = collect_properties(owned(&[("straße", "1"), ("id", "2"), ("A_b-9$", "3")]));
    assert_eq!(pairs(&t), owned(&[("STRASSE", "1"), ("ID", "2"), ("A_B-9$", "3")]));
}

#[test]
fn a_section_ends_at_the_next_headline_of_any_level() {
    let text = "* A\nbody\n** B\n*bold*\n*\tno\n* C\n";
    assert_eq!(end_of_section(text, 0), 9);
    assert_eq!(end_of_section(text, 9), 26);
    assert_eq!(end_of_section(text, 26), 30);
    assert_eq!(end_of_section("", 0), 0);
    assert_eq!(end_of_section("* A", 0), 3);
    assert_eq!(end_of_section("* A\n* B", 0), 4);
    assert_eq!(end_of_section("* é\nx\n***\n** B", 0), 11);
}

#[test]
fn headlines_start_with_stars_and_a_space() {
    let text = "* A\nx* B\n** C\n***\n*\tD\n*\u{2003} E";
    let starts: Vec<usize> = (0..text.len() + 2).filter(|at| starts_headline(text.as_bytes(), *at)).collect();
    assert_eq!(starts, vec![0, 9]);
}

#[test]
fn sections_do_not_overlap() {
    let text = "* A\nx\n** B\n* C";
    let starts: Vec<usize> = (0..text.len()).filter(|at| starts_headline(text.as_bytes(), *at)).collect();
    assert_eq!(starts, vec![0, 6, 11]);
    for pair in starts.windows(2) {
        assert_eq!(end_of_section(text, pair[0]), pair[1]);
    }
}

// What follows reads the same things off a text line by line, without patterns,
// and compares.

fn unindented(s: &str) -> &str {
    s.trim_start_matches([' ', '\t'])
}

fn folds_to(c: char, upper: char) -> bool {
    c == upper
        || c.to_ascii_uppercase() == upper
        || (upper == 'S' && c == '\u{17f}')
        || (upper == 'K' && c == '\u{212a}')
}

fn value_behind(line: &str, keyword: &str) -> Option<String> {
    let mut rest = unindented(line).chars();
    for k in keyword.chars() {
        if !folds_to(rest.next()?, k) {
            return None;
        }
    }
    Some(unindented(rest.as_str()).to_string())
}

fn first_value(text: &str, keywords: &[&str]) -> Option<String> {
    for line in text.split('\n') {
        for k in keywords {
            if let Some(v) = value_behind(line, k) {
                return Some(v);
            }
        }
    }
    None
}

fn drawer(text: &str) -> Option<Vec<&str>> {
    let lines: Vec<&str> = text.split('\n').collect();
    for from in 0..lines.len() {
        if value_behind(lines[from], ":PROPERTIES:") == Some(String::new()) {
            for end in from + 2..lines.len() {
                if value_behind(lines[end], ":END:").is_some() {
                    return Some(lines[from + 1..end].to_vec());
                }
            }
        }
    }
    None
}

fn property_on(line: &str) -> Option<(String, String)> {
    let s = unindented(line).strip_prefix(':')?;
    let colon = s.find(':')?;
    let is_name = |c: char| c.is_ascii_alphanumeric() || "_$-\u{17f}\u{212a}".contains(c);
    if colon == 0 || !s[..colon].chars().all(is_name) {
        return None;
    }
    Some((s[..colon].to_string(), unindented(&s[colon + 1..]).to_string()))
}

fn properties(text: &str) -> Vec<(String, String)> {
    let mut found: Vec<(String, String)> = Vec::new();
    for line in drawer(text).unwrap_or_default() {
        if let Some((name, value)) = property_on(line) {
            let name = name.to_uppercase();
            match found.iter_mut().find(|p| p.0 == name) {
                Some(p) => p.1 = value,
                None => found.push((name, value)),
            }
        }
    }
    found
}

fn section_end(text: &str, start: usize) -> usize {
    let mut at = start;
    for (i, line) in text[start..].split_inclusive('\n').enumerate() {
        let rest = line.trim_start_matches('*');
        if i > 0 && rest.len() < line.len() && rest.starts_with(' ') {
            return at;
        }
        at += line.len();
    }
    text.len()
}

fn text_from(state: &mut u64, pieces: &[&str], len: usize) -> String {
    let mut text = String::new();
    for _ in 0..len {
        *state = state.wrapping_mul(6364136223846793005).wrapping_add(1442695040888963407);
        text.push_str(pieces[(*state >> 33) as usize % pieces.len()]);
    }
    text
}

#[test]
fn keyword_lines_agree_with_a_line_by_line_reading() {
    let pieces = [
        "\n", "\n", "\n", " ", "\t", "\r", "#+TITLE:", "#+title:", "#+FILETAGS:", "#+FiletagS:",
        "#+FILETAG\u{17f}:", "#+ROAM_TAGS:", "#+ROAM_ALIASES:", "#+roam_aliase\u{17f}:", "#+", "a", "b c", ":",
        "é", "\u{2028}", "\u{85}", "\u{b}",
    ];
    let mut state = 1;
    for _ in 0..500 {
        let text = text_from(&mut state, &pieces, 12);
        let title = first_value(&text, &["#+TITLE:"]);
        assert_eq!(extract_title(&text), title_from_line(title), "{:?}", text);
        let tags = first_value(&text, &["#+FILETAGS:", "#+ROAM_TAGS:"]);
        assert_eq!(extract_tags(&text), tags_from_line(tags), "{:?}", text);
        let aliases = first_value(&text, &["#+ROAM_ALIASES:"]);
        assert_eq!(extract_aliases(&text), aliases_from_line(aliases), "{:?}", text);
    }
}

fn compare_drawers(seed: u64, len: usize) {
    let pieces = [
        "\n", "\n", "\n", "\n", " ", "\t", "\r", ":PROPERTIES:\n", ":properties:", ":PROPERTIE\u{17f}:\n", ":END:",
        ":end:", ":ID:", ":id:", ":A_$-9:", ":\u{212a}:", "::", ":", "v w", "é", "\u{2028}",
    ];
    let mut state = seed;
    for _ in 0..60 {
        let text = text_from(&mut state, &pieces, len);
        assert_eq!(pairs(&extract_properties(&text)), properties(&text), "{:?}", text);
    }
}

#[test]
fn short_drawers_agree_with_a_line_by_line_reading() {
    compare_drawers(2, 10);
}

#[test]
fn drawers_agree_with_a_line_by_line_reading() {
    compare_drawers(4, 24);
}

#[test]
fn long_drawers_agree_with_a_line_by_line_reading() {
    compare_drawers(5, 60);
}

#[test]
fn sections_agree_with_a_line_by_line_reading() {
    let pieces = ["\n", "\n", "*", "*", " ", "\t", "* ", "** ", "a", "é", "\r", "\u{2028}"];
    let mut state = 3;
    for _ in 0..500 {
        let text = text_from(&mut state, &pieces, 14);
        for start in 0..=text.len() {
            if text.is_char_boundary(start) {
                assert_eq!(end_of_section(&text, start), section_end(&text, start), "{:?} {}", text, start);
            }
        }
    }
}
