use org_roam_sync::lisp::{format_olp, format_properties, lisp_str, print_list, quote, unquote};
use org_roam_sync::table::StringTable;

#[test]
fn strings_are_quoted_and_escaped() {
    assert_eq!(lisp_str(""), "\"\"");
    assert_eq!(lisp_str("abc"), "\"abc\"");
    assert_eq!(lisp_str("a \"b\" \\ c"), "\"a \\\"b\\\" \\\\ c\"");
    assert_eq!(lisp_str("tab\tline\n"), "\"tab\\tline\\n\"");
    assert_eq!(lisp_str("it's é"), "\"it\\'s é\"");
    assert_eq!(lisp_str("\u{7}"), "\"\\u{7}\"");
    assert_eq!(lisp_str("/notes/a.org"), "\"/notes/a.org\"");
}

#[test]
fn of_printable_ascii_only_quotes_and_backslashes_are_escaped() {
    for n in 0x20..=0x7eu8 {
        let c = n as char;
        let s = c.to_string();
        if c == '"' || c == '\'' || c == '\\' {
            assert_eq!(lisp_str(&s), format!("\"\\{}\"", c));
        } else {
            assert_eq!(lisp_str(&s), quote(&s));
        }
    }
    assert_eq!(lisp_str("/n/a-b_1.org"), quote("/n/a-b_1.org"));
}

#[test]
fn control_characters_are_escaped() {
    for n in (0..0x20u8).chain([0x7f]) {
        let escape = match n {
            0 => "\\0".to_string(),
            9 => "\\t".to_string(),
            10 => "\\n".to_string(),
            13 => "\\r".to_string(),
            _ => format!("\\u{{{:x}}}", n),
        };
        assert_eq!(lisp_str(&(n as char).to_string()), format!("\"{}\"", escape));
    }
    assert_eq!(lisp_str("a\u{1b}[0m\u{7f}"), "\"a\\u{1b}[0m\\u{7f}\"");
    let all: String = (0..0x80u8).map(|n| n as char).collect();
    assert!(lisp_str(&all).chars().all(|c| (' '..='~').contains(&c)));
}

#[test]
fn different_strings_are_printed_differently() {
    let mut strings: Vec<String> = vec![String::new()];
    let pieces = ["a", "\"", "\\", "'", "\n", "n", "u{301}", "\u{301}", "\u{200b}", "\0", "0", "é", " "];
    for a in pieces {
        strings.push(a.to_string());
        for b in pieces {
            strings.push(format!("{}{}", a, b));
            for c in pieces {
                strings.push(format!("{}{}{}", a, b, c));
            }
        }
    }
    strings.sort();
    strings.dedup();
    let mut printed: Vec<String> = strings.iter().map(|s| lisp_str(s)).collect();
    for p in &printed {
        // The first double quote without a backslash is the last character.
        let mut chars = p.chars().skip(1);
        let mut read = 1;
        while let Some(c) = chars.next() {
            read += 1;
            if c == '\\' {
                chars.next();
                read += 1;
            } else if c == '"' {
                break;
            }
        }
        assert_eq!(read, p.chars().count(), "{}", p);
    }
    printed.sort();
    printed.dedup();
    assert_eq!(printed.len(), strings.len());
}

#[test]
fn outline_paths_are_told_apart() {
    let paths = [
        vec![],
        vec![""],
        vec!["nil"],
        vec!["a b"],
        vec!["a", "b"],
        vec!["a\" \"b"],
        vec!["a", "", "b"],
        vec!["(\"a\")"],
    ];
    let mut printed: Vec<String> = paths
        .iter()
        .map(|p| format_olp(&p.iter().map(|s| s.to_string()).collect::<Vec<String>>()))
        .collect();
    printed.sort();
    printed.dedup();
    assert_eq!(printed.len(), paths.len());
}

#[test]
fn properties_are_told_apart() {
    let maps = [
        vec![],
        vec![("A", "b")],
        vec![("A", "b\") (\"C\" . \"d")],
        vec![("A", "b"), ("C", "d")],
        vec![("A\" . \"b", "")],
        vec![("A", "")],
    ];
    let mut printed: Vec<String> = maps
        .iter()
        .map(|m| {
            let mut t = StringTable::new();
            for (k, v) in m {
                t.insert(k.to_string(), v.to_string());
            }
            format_properties(&t)
        })
        .collect();
    printed.sort();
    printed.dedup();
    assert_eq!(printed.len(), maps.len());
}

#[test]
fn an_outline_path_is_a_list_of_strings() {
    assert_eq!(format_olp(&[]), "nil");
    assert_eq!(format_olp(&["A".to_string()]), "(\"A\")");
    assert_eq!(format_olp(&["A b".to_string(), "\"c\"".to_string()]), "(\"A b\" \"\\\"c\\\"\")");
}

#[test]
fn properties_are_an_association_list() {
    let mut t = StringTable::new();
    assert_eq!(format_properties(&t), "nil");
    t.insert("ID".to_string(), "x1".to_string());
    assert_eq!(format_properties(&t), "((\"ID\" . \"x1\"))");
    t.insert("NOTE".to_string(), "a\"b".to_string());
    assert_eq!(format_properties(&t), "((\"ID\" . \"x1\") (\"NOTE\" . \"a\\\"b\"))");
}

#[test]
fn lists_are_printed_between_parentheses() {
    assert_eq!(print_list(&vec!["1".to_string(), "2".to_string()]), "(1 2)");
}

#[test]
fn unquoting_takes_one_pair_of_quotes_away() {
    assert_eq!(unquote("\"abc\""), "abc");
    assert_eq!(unquote("\"\""), "");
    assert_eq!(unquote("abc"), "abc");
    assert_eq!(unquote("\"abc"), "\"abc");
    assert_eq!(unquote("abc\""), "abc\"");
    assert_eq!(unquote(""), "");
    assert_eq!(unquote("\"\"a\"\""), "\"a\"");
}

#[test]
fn unquoting_a_printed_string_gives_its_escaped_form() {
    for s in ["", "abc", "/notes/a b.org", "é", "a\"b", "tab\t"] {
        assert_eq!(unquote(&lisp_str(s)), format!("{}", s.escape_debug()));
    }
}
