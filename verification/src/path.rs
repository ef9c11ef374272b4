//! File names and paths of notes.

use std::path::Path;

use vstd::prelude::*;

use crate::text;

verus! {

/// The part of a path behind its last slash.
pub open spec fn base_name(path: Seq<char>) -> Seq<char>
    decreases path.len(),
{
    if path.len() == 0 || path.last() == '/' {
        seq![]
    } else {
        base_name(path.drop_last()).push(path.last())
    }
}

/// The position of the last dot in a file name, or -1.
pub open spec fn last_dot(name: Seq<char>) -> int
    decreases name.len(),
{
    if name.len() == 0 {
        -1
    } else if name.last() == '.' {
        name.len() - 1
    } else {
        last_dot(name.drop_last())
    }
}

/// A file name without its extension. A dot at the very start does not begin
/// an extension.
pub open spec fn name_stem(name: Seq<char>) -> Seq<char> {
    if last_dot(name) > 0 {
        name.take(last_dot(name))
    } else {
        name
    }
}

/// `path` without the slashes and the `.` components at its end.
pub open spec fn stripped(path: Seq<char>) -> Seq<char>
    decreases path.len(),
{
    let n = path.len();
    if n >= 1 && path[n - 1] == '/' {
        stripped(path.drop_last())
    } else if n >= 2 && path[n - 1] == '.' && path[n - 2] == '/' {
        stripped(path.drop_last())
    } else {
        path
    }
}

/// The file name in `path` without its extension. A path that ends in `..`, or
/// that has no components but `.`, names no file.
pub open spec fn stem(path: Seq<char>) -> Option<Seq<char>> {
    let name = base_name(stripped(path));
    if name.len() == 0 || name == seq!['.'] || name == seq!['.', '.'] {
        None
    } else {
        Some(name_stem(name))
    }
}

/// Tells whether `c` separates the components of a path on some platform.
pub open spec fn is_separator(c: char) -> bool {
    c == '/' || c == '\\'
}

/// Tells whether `path` starts with a drive letter and a colon.
pub open spec fn begins_with_drive(path: Seq<char>) -> bool {
    path.len() >= 2 && path[1] == ':' && ('a' <= path[0] <= 'z' || 'A' <= path[0] <= 'Z')
}

/// Tells whether `path` ends in the same component on every platform: no
/// backslash stands in its last component, it does not start with two
/// separators, and what stands behind its last slash cannot be a drive.
pub open spec fn is_portable(path: Seq<char>) -> bool {
    &&& !base_name(stripped(path)).contains('\\')
    &&& !(path.len() >= 2 && is_separator(path[0]) && is_separator(path[1]))
    &&& !(base_name(stripped(path)) == stripped(path) && begins_with_drive(path))
}

/// Calls `std::path::Path::file_stem`: the last component of the path, up to
/// the last dot in it unless that dot comes first. Nothing is said of a path
/// that is not portable, since its last component depends on the platform.
#[verifier::external_body]
fn file_stem(path: &str) -> (r: Option<String>)
    ensures
        is_portable(path@) ==> r.deep_view() == stem(path@),
{
    Path::new(path).file_stem().map(|s| s.to_string_lossy().to_string())
}

/// The title under which a note is listed: its own, or else the stem of its
/// file name. A note without either cannot be listed.
pub open spec fn shown_title(title: Seq<char>, stem: Option<Seq<char>>) -> Option<Seq<char>> {
    if title.len() > 0 {
        Some(title)
    } else {
        stem
    }
}

/// Picks the title under which a note is listed.
pub fn title_or_stem(title: &str, stem: Option<String>) -> (r: Option<String>)
    ensures
        r.deep_view() == shown_title(title@, stem.deep_view()),
{
    if title.is_empty() {
        stem
    } else {
        Some(title.to_owned())
    }
}

/// Tells whether the note at `path` may be listed under `shown`. That leaves a
/// choice only where the note has no title of its own and its path is not
/// portable.
pub open spec fn is_listed_as(path: Seq<char>, title: Seq<char>, shown: Option<Seq<char>>) -> bool {
    title.len() > 0 || is_portable(path) ==> shown == shown_title(title, stem(path))
}

/// The title under which the note at `file_path` is listed, if it can be.
pub fn listed_title(file_path: &str, file_title: &str) -> (r: Option<String>)
    ensures
        is_listed_as(file_path@, file_title@, r.deep_view()),
{
    title_or_stem(file_title, file_stem(file_path))
}

/// Tells whether `name` starts with `prefix`.
pub open spec fn begins(name: Seq<char>, prefix: Seq<char>) -> bool {
    prefix.len() <= name.len() && name.take(prefix.len() as int) == prefix
}

/// Tells whether `name` ends with `suffix`.
pub open spec fn ends(name: Seq<char>, suffix: Seq<char>) -> bool {
    suffix.len() <= name.len() && name.skip(name.len() - suffix.len()) == suffix
}

/// Tells whether a file name is that of a note: its extension is `org`, and it
/// is not one of Emacs's transient files, that is an auto-save file (`#name#`),
/// a lock file (`.#name`) or a backup (`name~`).
pub open spec fn is_note_name(name: Seq<char>) -> bool {
    &&& name.len() > 4
    &&& ends(name, seq!['.', 'o', 'r', 'g'])
    &&& !begins(name, seq!['#'])
    &&& !begins(name, seq!['.', '#'])
    &&& !ends(name, seq!['~'])
}

/// Tells whether a file name is that of a note.
pub fn is_note(name: &str) -> (r: bool)
    ensures
        r == is_note_name(name@),
{
    let c = text::char_vec(name);
    let n: usize = c.len();
    proof {
        let s = name@;
        if n > 4 {
            let tail = s.skip(n - 4);
            assert(ends(s, seq!['.', 'o', 'r', 'g']) <==> (s[n - 4] == '.' && s[n - 3] == 'o' && s[n
                - 2] == 'r' && s[n - 1] == 'g')) by {
                assert(tail[0] == s[n - 4] && tail[1] == s[n - 3] && tail[2] == s[n - 2] && tail[3]
                    == s[n - 1]);
                if s[n - 4] == '.' && s[n - 3] == 'o' && s[n - 2] == 'r' && s[n - 1] == 'g' {
                    assert(tail =~= seq!['.', 'o', 'r', 'g']);
                }
            }
            assert(begins(s, seq!['#']) <==> s[0] == '#') by {
                assert(s.take(1)[0] == s[0]);
                if s[0] == '#' {
                    assert(s.take(1) =~= seq!['#']);
                }
            }
            assert(begins(s, seq!['.', '#']) <==> (s[0] == '.' && s[1] == '#')) by {
                assert(s.take(2)[0] == s[0] && s.take(2)[1] == s[1]);
                if s[0] == '.' && s[1] == '#' {
                    assert(s.take(2) =~= seq!['.', '#']);
                }
            }
            assert(ends(s, seq!['~']) <==> s[n - 1] == '~') by {
                assert(s.skip(n - 1)[0] == s[n - 1]);
                if s[n - 1] == '~' {
                    assert(s.skip(n - 1) =~= seq!['~']);
                }
            }
        }
    }
    n > 4 && c[n - 4] == '.' && c[n - 3] == 'o' && c[n - 2] == 'r' && c[n - 1] == 'g' && c[0] != '#'
        && !(c[0] == '.' && c[1] == '#') && c[n - 1] != '~'
}

/// The paths of the notes among directory entries, each given by its path and,
/// where it has a readable one, its file name.
pub open spec fn note_paths(entries: Seq<(Seq<char>, Option<Seq<char>>)>) -> Seq<Seq<char>>
    decreases entries.len(),
{
    if entries.len() == 0 {
        seq![]
    } else {
        let before = note_paths(entries.drop_last());
        match entries.last().1 {
            Some(name) if is_note_name(name) => before.push(entries.last().0),
            _ => before,
        }
    }
}

/// Picks the paths of the notes among the entries of a directory tree, in their
/// order.
pub fn get_org_files(entries: &Vec<(String, Option<String>)>) -> (r: Vec<String>)
    ensures
        r.deep_view() == note_paths(entries.deep_view()),
{
    let n: usize = entries.len();
    let ghost all = entries.deep_view();
    let mut r: Vec<String> = Vec::new();
    let mut i: usize = 0;
    assert(all.take(0).len() == 0);
    assert(r.deep_view() =~= seq![]);
    while i < n
        invariant
            n == entries@.len(),
            all == entries.deep_view(),
            i <= n,
            r.deep_view() == note_paths(all.take(i as int)),
        decreases n - i,
    {
        assert(all.take(i + 1).drop_last() =~= all.take(i as int));
        assert(all.take(i + 1).last() == entries@[i as int].deep_view());
        match &entries[i].1 {
            Some(name) => {
                if is_note(name.as_str()) {
                    let ghost before = r.deep_view();
                    r.push(entries[i].0.clone());
                    assert(r.deep_view() =~= before.push(entries@[i as int].0@));
                }
            },
            None => {},
        }
        i = i + 1;
    }
    assert(all.take(n as int) =~= all);
    r
}

/// Every name with the extension `org` is that of a note, but for the names of
/// transient files: whatever the stem, unless it is empty or starts as theirs.
pub proof fn law_every_org_file_is_a_note(stem: Seq<char>)
    ensures
        is_note_name(stem + seq!['.', 'o', 'r', 'g']) <==> stem.len() > 0 && stem[0] != '#' && !(
        stem.len() > 1 && stem[0] == '.' && stem[1] == '#'),
{
    let ext = seq!['.', 'o', 'r', 'g'];
    let name = stem + ext;
    let n = name.len() as int;
    assert(name.skip(n - 4) =~= ext);
    assert(name.skip(n - 1)[0] == 'g');
    assert(name.take(1)[0] == name[0]);
    assert(name.take(2)[0] == name[0] && name.take(2)[1] == name[1]);
    if stem.len() > 0 {
        assert(name[0] == stem[0]);
        if stem[0] == '#' {
            assert(name.take(1) =~= seq!['#']);
        }
        if stem.len() > 1 {
            assert(name[1] == stem[1]);
            if stem[0] == '.' && stem[1] == '#' {
                assert(name.take(2) =~= seq!['.', '#']);
            }
        } else {
            assert(name[1] == '.');
        }
    }
}

/// Nothing but a name with the extension `org` is that of a note.
pub proof fn law_every_note_is_an_org_file(name: Seq<char>)
    requires
        is_note_name(name),
    ensures
        name.len() > 4,
        name == name.take(name.len() - 4) + seq!['.', 'o', 'r', 'g'],
{
    assert(name =~= name.take(name.len() - 4) + name.skip(name.len() - 4));
}

/// A directory entry is listed, under its path, exactly if it has a readable
/// name and that is the name of a note; the entries keep their order.
pub proof fn law_listing_picks_the_notes(
    a: Seq<(Seq<char>, Option<Seq<char>>)>,
    b: Seq<(Seq<char>, Option<Seq<char>>)>,
)
    ensures
        note_paths(a + b) == note_paths(a) + note_paths(b),
        a.len() == 1 && a[0].1 is Some && is_note_name(a[0].1->0) ==> note_paths(a) == seq![a[0].0],
        a.len() == 1 && (a[0].1 is None || !is_note_name(a[0].1->0)) ==> note_paths(a).len() == 0,
        a.len() == 0 ==> note_paths(a).len() == 0,
    decreases b.len(),
{
    if a.len() == 1 {
        assert(note_paths(a.drop_last()) =~= seq![]);
        if a[0].1 is Some && is_note_name(a[0].1->0) {
            assert(note_paths(a) =~= seq![a[0].0]);
        }
    }
    if b.len() == 0 {
        assert(a + b =~= a);
        assert(note_paths(a) + note_paths(b) =~= note_paths(a));
    } else {
        assert((a + b).drop_last() =~= a + b.drop_last());
        law_listing_picks_the_notes(a, b.drop_last());
        assert(note_paths(a + b) =~= note_paths(a) + note_paths(b));
    }
}

/// The stem of a path is its last component up to the last dot in it, unless
/// that dot comes first; without a dot it is the whole component. What stands
/// before the last slash does not matter.
pub proof fn law_stem_is_the_name_up_to_the_last_dot(
    dir: Seq<char>,
    name: Seq<char>,
    ext: Seq<char>,
)
    requires
        name.len() > 0,
        !name.contains('/'),
        !ext.contains('/'),
        !ext.contains('.'),
        name + seq!['.'] + ext != seq!['.', '.'],
    ensures
        stem(dir + seq!['/'] + (name + seq!['.'] + ext)) == Some(name),
        stem(name + seq!['.'] + ext) == Some(name),
        !name.contains('.') ==> stem(dir + seq!['/'] + name) == Some(name),
        !name.contains('.') ==> stem(name) == Some(name),
        !name.contains('.') ==> stem(dir + seq!['/', '.'] + name) == Some(seq!['.'] + name),
{
    let full = name + seq!['.'] + ext;
    let n = name.len() as int;
    assert forall|k: int| 0 <= k < full.len() implies full[k] != '/' by {
        if k < n {
            assert(name.contains(name[k]));
        } else if k > n {
            assert(ext.contains(ext[k - n - 1]));
        }
    }
    assert forall|k: int| n < k < full.len() implies full[k] != '.' by {
        assert(ext.contains(ext[k - n - 1]));
    }
    lemma_last_dot(full, n);
    assert(full.take(n) =~= name);
    lemma_last_component(dir, full);
    if !name.contains('.') {
        assert forall|k: int| 0 <= k < name.len() implies name[k] != '/' && name[k] != '.' by {
            assert(name.contains(name[k]));
        }
        lemma_last_dot(name, -1);
        lemma_last_component(dir, name);
        let hidden = seq!['.'] + name;
        assert forall|k: int| 0 < k < hidden.len() implies hidden[k] != '/' && hidden[k]
            != '.' by {
            assert(hidden[k] == name[k - 1]);
        }
        lemma_last_dot(hidden, 0);
        assert(hidden[1] == name[0]);
        lemma_last_component(dir, hidden);
        assert(dir + seq!['/', '.'] + name =~= dir + seq!['/'] + hidden);
    }
}

proof fn lemma_last_dot(name: Seq<char>, at: int)
    requires
        -1 <= at < name.len(),
        at >= 0 ==> name[at] == '.',
        forall|k: int| at < k < name.len() ==> name[k] != '.',
    ensures
        last_dot(name) == at,
    decreases name.len(),
{
    if name.len() > 0 && at < name.len() - 1 {
        lemma_last_dot(name.drop_last(), at);
    }
}

/// A name behind a slash, or alone, is the last component of its path.
proof fn lemma_last_component(dir: Seq<char>, name: Seq<char>)
    requires
        name.len() > 0,
        forall|k: int| 0 <= k < name.len() ==> name[k] != '/',
        name != seq!['.'],
        name != seq!['.', '.'],
    ensures
        stem(dir + seq!['/'] + name) == Some(name_stem(name)),
        stem(name) == Some(name_stem(name)),
{
    let path = dir + seq!['/'] + name;
    let n = path.len() as int;
    let m = name.len() as int;
    assert(path[n - 1] == name[m - 1]);
    if m == 1 {
        if name[0] == '.' {
            assert(name =~= seq!['.']);
        }
    } else {
        assert(path[n - 2] == name[m - 2]);
    }
    assert(stripped(path) == path);
    assert(stripped(name) == name);
    lemma_base_name(dir + seq!['/'], name);
    assert(seq![] + name =~= name);
    lemma_base_name(seq![], name);
}

proof fn lemma_base_name(front: Seq<char>, name: Seq<char>)
    requires
        front.len() == 0 || front.last() == '/',
        forall|k: int| 0 <= k < name.len() ==> name[k] != '/',
    ensures
        base_name(front + name) == name,
    decreases name.len(),
{
    let path = front + name;
    if name.len() == 0 {
        assert(path =~= front);
        assert(base_name(path) =~= name);
    } else {
        assert(path.drop_last() =~= front + name.drop_last());
        lemma_base_name(front, name.drop_last());
        assert(base_name(path) =~= name);
    }
}

/// A note with a title is listed under it; a note without one is listed by the
/// stem of its path, wherever that ends in the same component on every
/// platform. That is so of every path without a backslash that starts neither
/// with two slashes nor with a drive.
pub proof fn law_listed_title_is_settled(
    path: Seq<char>,
    title: Seq<char>,
    shown: Option<Seq<char>>,
)
    requires
        is_listed_as(path, title, shown),
    ensures
        title.len() > 0 ==> shown == Some(title),
        title.len() == 0 && !path.contains('\\') && !(path.len() >= 2 && path[0] == '/' && path[1]
            == '/') && !(path.len() >= 2 && path[1] == ':') ==> shown == stem(path),
{
    if !path.contains('\\') {
        lemma_base_name_is_a_part(path);
        let name = base_name(stripped(path));
        if name.contains('\\') {
            let k = choose|k: int| 0 <= k < name.len() && name[k] == '\\';
            lemma_stripped_is_a_part(path);
            lemma_base_name_is_a_part(stripped(path));
            assert(stripped(path).contains(name[k]));
            assert(path.contains(name[k]));
        }
        assert(path.len() > 0 ==> path.contains(path[0]));
        assert(path.len() > 1 ==> path.contains(path[1]));
    }
}

proof fn lemma_stripped_is_a_part(path: Seq<char>)
    ensures
        forall|c: char| #[trigger] stripped(path).contains(c) ==> path.contains(c),
    decreases path.len(),
{
    let n = path.len();
    if (n >= 1 && path[n - 1] == '/') || (n >= 2 && path[n - 1] == '.' && path[n - 2] == '/') {
        let front = path.drop_last();
        lemma_stripped_is_a_part(front);
        assert forall|c: char| #[trigger] stripped(path).contains(c) implies path.contains(c) by {
            assert(stripped(front).contains(c));
            let k = choose|k: int| 0 <= k < front.len() && front[k] == c;
            assert(path[k] == c);
        }
    }
}

proof fn lemma_base_name_is_a_part(path: Seq<char>)
    ensures
        forall|k: int|
            0 <= k < base_name(path).len() ==> path.contains(#[trigger] base_name(path)[k]),
    decreases path.len(),
{
    if path.len() > 0 && path.last() != '/' {
        let front = path.drop_last();
        lemma_base_name_is_a_part(front);
        assert forall|k: int| 0 <= k < base_name(path).len() implies path.contains(
            #[trigger] base_name(path)[k],
        ) by {
            if k < base_name(front).len() {
                assert(front.contains(base_name(front)[k]));
                let j = choose|j: int| 0 <= j < front.len() && front[j] == base_name(front)[k];
                assert(path[j] == base_name(path)[k]);
            } else {
                assert(path[path.len() - 1] == base_name(path)[k]);
            }
        }
    }
}

} // verus!
