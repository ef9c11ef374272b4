//! What a sync decides: which notes are new, changed or gone, and what is
//! written to the database about them.

use vstd::hash_set::StringHashSet;
use vstd::prelude::*;
use vstd::utf8::*;

use crate::hash;
use crate::keyword;
use crate::lisp;
use crate::lisp::{lisp_str, unquote};
use crate::note;
use crate::note::{Alias, AliasView, Node, NodeView, RowsView, Tag, TagView};
use crate::outline;
use crate::outline::ElementView;
use crate::path;
use crate::table;
use crate::table::StringTable;
use crate::text;

verus! {

/// A note as it was read from disk, with its hash.
#[derive(Debug)]
pub struct FileInfo {
    pub path: String,
    pub hash: String,
    pub content: String,
}

/// The model of `FileInfo`.
pub struct FileView {
    pub path: Seq<char>,
    pub hash: Seq<char>,
    pub content: Seq<char>,
}

impl View for FileInfo {
    type V = FileView;

    open spec fn view(&self) -> FileView {
        FileView { path: self.path@, hash: self.hash@, content: self.content@ }
    }
}

impl FileInfo {
    /// Hashes the content of the note at `path`.
    pub fn new(path: String, content: String) -> (r: FileInfo)
        ensures
            r@ == (FileView { path: path@, hash: hash::hash_of(content@), content: content@ }),
    {
        let hash = hash::compute_hash(content.as_str());
        FileInfo { path, hash, content }
    }
}

/// The models of several notes.
pub open spec fn file_views(files: Seq<FileInfo>) -> Seq<FileView> {
    files.map_values(|f: FileInfo| f@)
}

/// The paths and hashes that the rows of the database hold, without the quotes
/// in which they are stored.
pub open spec fn stored_files(rows: Seq<(Seq<char>, Seq<char>)>) -> Seq<(Seq<char>, Seq<char>)>
    decreases rows.len(),
{
    if rows.len() == 0 {
        seq![]
    } else {
        table::put(
            stored_files(rows.drop_last()),
            lisp::unquoted(rows.last().0),
            lisp::unquoted(rows.last().1),
        )
    }
}

/// Tells whether a cell can be read: it is not a single double quote.
pub open spec fn is_readable(cell: Seq<char>) -> bool {
    cell != seq!['"']
}

/// Collects the paths and hashes that the database knows.
pub fn load_current_files(rows: &Vec<(String, String)>) -> (r: StringTable)
    requires
        forall|i: int|
            0 <= i < rows@.len() ==> is_readable((#[trigger] rows@[i]).0@) && is_readable(
                rows@[i].1@,
            ),
    ensures
        r.wf(),
        r@ == stored_files(rows.deep_view()),
{
    let n: usize = rows.len();
    let ghost all = rows.deep_view();
    let mut current = StringTable::new();
    let mut i: usize = 0;
    assert(all.take(0).len() == 0);
    while i < n
        invariant
            n == rows@.len(),
            all == rows.deep_view(),
            forall|i: int|
                0 <= i < rows@.len() ==> is_readable((#[trigger] rows@[i]).0@) && is_readable(
                    rows@[i].1@,
                ),
            i <= n,
            current.wf(),
            current@ == stored_files(all.take(i as int)),
        decreases n - i,
    {
        assert(all.take(i + 1).drop_last() =~= all.take(i as int));
        assert(all.take(i + 1).last() == rows@[i as int].deep_view());
        current.insert(unquote(rows[i].0.as_str()), unquote(rows[i].1.as_str()));
        i = i + 1;
    }
    assert(all.take(n as int) =~= all);
    current
}

/// Tells whether the database knows a note as it is.
pub open spec fn is_current(current: Seq<(Seq<char>, Seq<char>)>, file: FileView) -> bool {
    table::lookup(current, file.path) == Some(file.hash)
}

/// The positions of the notes that the database does not know as they are.
pub open spec fn modified_in(
    current: Seq<(Seq<char>, Seq<char>)>,
    files: Seq<FileView>,
) -> Seq<usize>
    decreases files.len(),
{
    if files.len() == 0 {
        seq![]
    } else {
        let before = modified_in(current, files.drop_last());
        if is_current(current, files.last()) {
            before
        } else {
            before.push((files.len() - 1) as usize)
        }
    }
}

/// Tells whether a note lies at `path`.
pub open spec fn has_path(files: Seq<FileView>, path: Seq<char>) -> bool {
    exists|i: int| 0 <= i < files.len() && (#[trigger] files[i]).path == path
}

/// The paths that the database knows and at which no note lies any more.
pub open spec fn removed_from(
    current: Seq<(Seq<char>, Seq<char>)>,
    files: Seq<FileView>,
) -> Seq<Seq<char>>
    decreases current.len(),
{
    if current.len() == 0 {
        seq![]
    } else {
        let before = removed_from(current.drop_last(), files);
        if has_path(files, current.last().0) {
            before
        } else {
            before.push(current.last().0)
        }
    }
}

/// What a sync has to do: the positions of the new and changed notes, in their
/// order, and the paths of the notes that are gone.
#[derive(Debug)]
pub struct SyncPlan {
    pub modified: Vec<usize>,
    pub removed: Vec<String>,
}

/// Collects the paths of the notes.
fn collect_paths(files: &Vec<FileInfo>) -> (r: StringHashSet)
    ensures
        forall|p: Seq<char>| r@.contains(p) <==> has_path(file_views(files@), p),
{
    let n: usize = files.len();
    let ghost all = file_views(files@);
    let mut paths = StringHashSet::new();
    let mut i: usize = 0;
    while i < n
        invariant
            n == files@.len(),
            all == file_views(files@),
            i <= n,
            forall|p: Seq<char>| paths@.contains(p) <==> has_path(all.take(i as int), p),
        decreases n - i,
    {
        let ghost before = paths@;
        paths.insert(files[i].path.clone());
        proof {
            let now = all.take(i + 1);
            let old_files = all.take(i as int);
            assert forall|p: Seq<char>| paths@.contains(p) <==> has_path(now, p) by {
                if has_path(old_files, p) {
                    let k = choose|k: int|
                        0 <= k < old_files.len() && (#[trigger] old_files[k]).path == p;
                    assert(now[k].path == p);
                }
                if has_path(now, p) {
                    let k = choose|k: int| 0 <= k < now.len() && (#[trigger] now[k]).path == p;
                    if k < i {
                        assert(old_files[k].path == p);
                    }
                }
                if p == all[i as int].path {
                    assert(now[i as int].path == p);
                }
            }
        }
        i = i + 1;
    }
    assert(all.take(n as int) =~= all);
    paths
}

/// Compares the notes on disk with what the database knows of them.
pub fn plan_sync(current_files: &StringTable, files: &Vec<FileInfo>) -> (r: SyncPlan)
    requires
        current_files.wf(),
    ensures
        r.modified@ == modified_in(current_files@, file_views(files@)),
        r.removed.deep_view() == removed_from(current_files@, file_views(files@)),
{
    let paths = collect_paths(files);
    let ghost all = file_views(files@);
    let n: usize = files.len();
    let mut modified: Vec<usize> = Vec::new();
    let mut i: usize = 0;
    assert(all.take(0).len() == 0);
    while i < n
        invariant
            n == files@.len(),
            all == file_views(files@),
            current_files.wf(),
            i <= n,
            modified@ == modified_in(current_files@, all.take(i as int)),
        decreases n - i,
    {
        assert(all.take(i + 1).drop_last() =~= all.take(i as int));
        let mut is_modified = true;
        match current_files.get(files[i].path.as_str()) {
            Some(db_hash) => {
                if db_hash.to_owned() == files[i].hash {
                    is_modified = false;
                }
            },
            None => {},
        }
        if is_modified {
            modified.push(i);
        }
        i = i + 1;
    }
    assert(all.take(n as int) =~= all);

    let m: usize = current_files.len();
    let ghost known = current_files@;
    let mut removed: Vec<String> = Vec::new();
    let mut j: usize = 0;
    assert(known.take(0).len() == 0);
    assert(removed.deep_view() =~= seq![]);
    while j < m
        invariant
            m == current_files@.len(),
            known == current_files@,
            all == file_views(files@),
            forall|p: Seq<char>| paths@.contains(p) <==> has_path(all, p),
            j <= m,
            removed.deep_view() == removed_from(known.take(j as int), all),
        decreases m - j,
    {
        assert(known.take(j + 1).drop_last() =~= known.take(j as int));
        let key = current_files.key_at(j);
        if !paths.contains(key) {
            let ghost before = removed.deep_view();
            removed.push(key.to_owned());
            assert(removed.deep_view() =~= before.push(key@));
        }
        j = j + 1;
    }
    assert(known.take(m as int) =~= known);
    SyncPlan { modified, removed }
}

/// A note with the rows that it contributes and the title under which it is
/// listed.
#[derive(Debug)]
pub struct ParsedFile {
    pub path: String,
    pub hash: String,
    pub title: String,
    pub nodes: Vec<Node>,
    pub tags: Vec<Tag>,
    pub aliases: Vec<Alias>,
}

/// The model of `ParsedFile`.
pub struct ParsedView {
    pub path: Seq<char>,
    pub hash: Seq<char>,
    pub title: Seq<char>,
    pub rows: RowsView,
}

impl View for ParsedFile {
    type V = ParsedView;

    open spec fn view(&self) -> ParsedView {
        ParsedView {
            path: self.path@,
            hash: self.hash@,
            title: self.title@,
            rows: RowsView {
                nodes: note::node_views(self.nodes@),
                tags: note::tag_views(self.tags@),
                aliases: note::alias_views(self.aliases@),
            },
        }
    }
}

/// What is written about a note that is listed under `title` and in which the
/// parser finds `found`.
pub open spec fn parsed_as(
    file: FileView,
    title: Seq<char>,
    found: Seq<ElementView>,
) -> ParsedView {
    ParsedView {
        path: file.path,
        hash: file.hash,
        title,
        rows: note::note_rows(file.path, file.content, Some(title), found),
    }
}

/// Parses a note for the database. A note that is too long for the parser, or
/// that has no title to be listed under, cannot be written there.
pub fn parse_file(file: &FileInfo) -> (r: Option<ParsedFile>)
    ensures
        exists|shown: Option<Seq<char>>, found: Seq<ElementView>|
            {
                &&& #[trigger] note::may_be_read(file@.path, file@.content, shown, found)
                &&& r is Some <==> encode_utf8(file@.content).len() <= u32::MAX && shown is Some
                &&& r matches Some(parsed) ==> parsed@ == parsed_as(file@, shown->0, found)
            },
{
    let n = text::byte_len(file.content.as_str());
    let file_title = keyword::extract_title(file.content.as_str());
    let shown = path::listed_title(file.path.as_str(), file_title.as_str());
    let ghost listed = shown.deep_view();
    if n as u64 > u32::MAX as u64 {
        assert(note::may_be_read(
            file@.path,
            file@.content,
            listed,
            outline::elements_of(file@.content),
        ));
        return None;
    }
    let found = outline::parse_elements(file.content.as_str());
    assert(note::may_be_read(
        file@.path,
        file@.content,
        listed,
        outline::element_views(found@),
    ));
    let rows = note::index_elements(
        file.path.as_str(),
        file.content.as_str(),
        &shown,
        &found,
    );
    match shown {
        Some(title) => {
            let parsed = ParsedFile {
                path: file.path.clone(),
                hash: file.hash.clone(),
                title,
                nodes: rows.nodes,
                tags: rows.tags,
                aliases: rows.aliases,
            };
            assert(parsed@.rows =~= rows@);
            Some(parsed)
        },
        None => None,
    }
}

/// One statement for the database. The strings are printed Lisp data.
#[derive(Debug)]
pub enum DbAction {
    /// Deletes the row of a file.
    DeleteFile { file: String },
    /// Deletes the nodes of a file.
    DeleteNodes { file: String },
    /// Inserts the row of a file.
    InsertFile { file: String, title: String, hash: String, atime: String, mtime: String },
    /// Inserts a node in place of any other with its ID; `duplicate` tells
    /// whether the sync has inserted one with that ID before.
    InsertNode { node: Node, duplicate: bool },
    /// Inserts a tag.
    InsertTag { tag: Tag },
    /// Inserts an alias.
    InsertAlias { alias: Alias },
}

/// The model of `DbAction`.
pub enum ActionView {
    DeleteFile { file: Seq<char> },
    DeleteNodes { file: Seq<char> },
    InsertFile {
        file: Seq<char>,
        title: Seq<char>,
        hash: Seq<char>,
        atime: Seq<char>,
        mtime: Seq<char>,
    },
    InsertNode { node: NodeView, duplicate: bool },
    InsertTag { tag: TagView },
    InsertAlias { alias: AliasView },
}

impl View for DbAction {
    type V = ActionView;

    open spec fn view(&self) -> ActionView {
        match self {
            DbAction::DeleteFile { file } => ActionView::DeleteFile { file: file@ },
            DbAction::DeleteNodes { file } => ActionView::DeleteNodes { file: file@ },
            DbAction::InsertFile { file, title, hash, atime, mtime } => ActionView::InsertFile {
                file: file@,
                title: title@,
                hash: hash@,
                atime: atime@,
                mtime: mtime@,
            },
            DbAction::InsertNode { node, duplicate } => ActionView::InsertNode {
                node: node@,
                duplicate: *duplicate,
            },
            DbAction::InsertTag { tag } => ActionView::InsertTag { tag: tag@ },
            DbAction::InsertAlias { alias } => ActionView::InsertAlias { alias: alias@ },
        }
    }
}

/// The models of several statements.
pub open spec fn action_views(actions: Seq<DbAction>) -> Seq<ActionView> {
    actions.map_values(|a: DbAction| a@)
}

/// The statements that delete what is stored about a file.
pub open spec fn delete_actions(path: Seq<char>) -> Seq<ActionView> {
    seq![
        ActionView::DeleteFile { file: lisp::lisp_form(path) },
        ActionView::DeleteNodes { file: lisp::lisp_form(path) },
    ]
}

/// The statements that delete what is stored about files that are gone.
pub open spec fn removal_actions(removed: Seq<Seq<char>>) -> Seq<ActionView>
    decreases removed.len(),
{
    if removed.len() == 0 {
        seq![]
    } else {
        removal_actions(removed.drop_last()) + delete_actions(removed.last())
    }
}

/// The IDs that are known after nodes have been inserted.
pub open spec fn ids_after(seen: Set<Seq<char>>, nodes: Seq<NodeView>) -> Set<Seq<char>>
    decreases nodes.len(),
{
    if nodes.len() == 0 {
        seen
    } else {
        ids_after(seen, nodes.drop_last()).insert(nodes.last().id)
    }
}

/// The statements that insert nodes, each marked if its ID is already known.
pub open spec fn node_actions(seen: Set<Seq<char>>, nodes: Seq<NodeView>) -> Seq<ActionView>
    decreases nodes.len(),
{
    if nodes.len() == 0 {
        seq![]
    } else {
        node_actions(seen, nodes.drop_last()).push(
            ActionView::InsertNode {
                node: nodes.last(),
                duplicate: ids_after(seen, nodes.drop_last()).contains(nodes.last().id),
            },
        )
    }
}

/// The number of nodes whose ID is already known when they are inserted.
pub open spec fn duplicate_count(seen: Set<Seq<char>>, nodes: Seq<NodeView>) -> nat
    decreases nodes.len(),
{
    if nodes.len() == 0 {
        0
    } else {
        let before = duplicate_count(seen, nodes.drop_last());
        if ids_after(seen, nodes.drop_last()).contains(nodes.last().id) {
            before + 1
        } else {
            before
        }
    }
}

/// The statements that insert tags.
pub open spec fn tag_actions(tags: Seq<TagView>) -> Seq<ActionView> {
    tags.map_values(|t: TagView| ActionView::InsertTag { tag: t })
}

/// The statements that insert aliases.
pub open spec fn alias_actions(aliases: Seq<AliasView>) -> Seq<ActionView> {
    aliases.map_values(|a: AliasView| ActionView::InsertAlias { alias: a })
}

/// The statement that inserts the row of a file. Access and modification times
/// are not kept.
pub open spec fn insert_file_action(file: ParsedView) -> ActionView {
    ActionView::InsertFile {
        file: lisp::lisp_form(file.path),
        title: lisp::lisp_form(file.title),
        hash: lisp::lisp_form(file.hash),
        atime: "(0 0 0 0)"@,
        mtime: "(0 0 0 0)"@,
    }
}

/// The statements that write a note: whatever is stored about it goes, then
/// come its row, its nodes, its tags and its aliases.
pub open spec fn file_actions(seen: Set<Seq<char>>, file: ParsedView) -> Seq<ActionView> {
    delete_actions(file.path).push(insert_file_action(file)) + node_actions(seen, file.rows.nodes)
        + tag_actions(file.rows.tags) + alias_actions(file.rows.aliases)
}

/// Adds the statements that delete what is stored about a file.
fn push_deletes(actions: &mut Vec<DbAction>, path: &str)
    ensures
        action_views(final(actions)@) == action_views(old(actions)@) + delete_actions(path@),
{
    let ghost before = action_views(actions@);
    actions.push(DbAction::DeleteFile { file: lisp_str(path) });
    actions.push(DbAction::DeleteNodes { file: lisp_str(path) });
    assert(action_views(actions@) =~= before + delete_actions(path@));
}

/// Lists the statements that delete what is stored about files that are gone.
pub fn stage_removed(removed: &Vec<String>) -> (r: Vec<DbAction>)
    ensures
        action_views(r@) == removal_actions(removed.deep_view()),
{
    let n: usize = removed.len();
    let ghost all = removed.deep_view();
    let mut actions: Vec<DbAction> = Vec::new();
    let mut i: usize = 0;
    assert(all.take(0).len() == 0);
    assert(action_views(actions@) =~= seq![]);
    while i < n
        invariant
            n == removed@.len(),
            all == removed.deep_view(),
            i <= n,
            action_views(actions@) == removal_actions(all.take(i as int)),
        decreases n - i,
    {
        assert(all.take(i + 1).drop_last() =~= all.take(i as int));
        push_deletes(&mut actions, removed[i].as_str());
        i = i + 1;
    }
    assert(all.take(n as int) =~= all);
    actions
}

/// The IDs of the nodes that a sync has inserted, and how many of the nodes had
/// an ID that was already there.
pub struct SeenIds {
    ids: StringHashSet,
    duplicates: usize,
}

impl SeenIds {
    /// The IDs.
    pub closed spec fn ids(&self) -> Set<Seq<char>> {
        self.ids@
    }

    /// The number of duplicates.
    pub closed spec fn count(&self) -> nat {
        self.duplicates as nat
    }

    /// No IDs yet.
    pub fn new() -> (r: SeenIds)
        ensures
            r.ids() == Set::<Seq<char>>::empty(),
            r.count() == 0,
    {
        SeenIds { ids: StringHashSet::new(), duplicates: 0 }
    }

    /// The number of duplicates so far.
    pub fn duplicates(&self) -> (r: usize)
        ensures
            r == self.count(),
    {
        self.duplicates
    }

    /// Notes an ID and tells whether it was already there.
    fn insert(&mut self, id: &str) -> (r: bool)
        requires
            old(self).count() < usize::MAX,
        ensures
            final(self).ids() == old(self).ids().insert(id@),
            r == old(self).ids().contains(id@),
            final(self).count() == old(self).count() + (if r {
                1int
            } else {
                0int
            }),
    {
        if self.ids.insert(id.to_owned()) {
            false
        } else {
            self.duplicates = self.duplicates + 1;
            true
        }
    }
}

/// Adds the statements that insert the nodes of a note.
fn push_nodes(actions: &mut Vec<DbAction>, seen: &mut SeenIds, nodes: Vec<Node>)
    requires
        old(seen).count() + nodes@.len() <= usize::MAX,
    ensures
        action_views(final(actions)@) == action_views(old(actions)@) + node_actions(
            old(seen).ids(),
            note::node_views(nodes@),
        ),
        final(seen).ids() == ids_after(old(seen).ids(), note::node_views(nodes@)),
        final(seen).count() == old(seen).count() + duplicate_count(
            old(seen).ids(),
            note::node_views(nodes@),
        ),
{
    let ghost before = action_views(actions@);
    let ghost ids = seen.ids();
    let ghost start = seen.count();
    let ghost all = note::node_views(nodes@);
    let ghost given = nodes@;
    assert(all.take(0).len() == 0);
    assert(before + node_actions(ids, all.take(0)) =~= before);
    for node in it: nodes
        invariant
            it.seq() == given,
            all == note::node_views(given),
            start + given.len() <= usize::MAX,
            seen.ids() == ids_after(ids, all.take(it.index())),
            seen.count() == start + duplicate_count(ids, all.take(it.index())),
            seen.count() <= start + it.index(),
            action_views(actions@) == before + node_actions(ids, all.take(it.index())),
    {
        let ghost i = it.index();
        assert(all.take(i + 1).drop_last() =~= all.take(i));
        let duplicate = seen.insert(node.id.as_str());
        let ghost last = node@;
        let ghost so_far = actions@;
        actions.push(DbAction::InsertNode { node, duplicate });
        proof {
            assert(all.take(i + 1).last() == last);
            assert(action_views(actions@) =~= action_views(so_far).push(
                ActionView::InsertNode { node: last, duplicate },
            ));
            assert(action_views(actions@) =~= before + node_actions(ids, all.take(i + 1)));
        }
    }
    assert(all.take(all.len() as int) =~= all);
}

/// Adds the statements that insert the tags of a note.
fn push_tags(actions: &mut Vec<DbAction>, tags: Vec<Tag>)
    ensures
        action_views(final(actions)@) == action_views(old(actions)@) + tag_actions(
            note::tag_views(tags@),
        ),
{
    let ghost before = action_views(actions@);
    let ghost given = tags@;
    let ghost added = tag_actions(note::tag_views(given));
    assert(before + added.take(0) =~= before);
    for tag in it: tags
        invariant
            it.seq() == given,
            added == tag_actions(note::tag_views(given)),
            action_views(actions@) == before + added.take(it.index()),
    {
        let ghost i = it.index();
        let ghost so_far = actions@;
        let ghost last = tag@;
        actions.push(DbAction::InsertTag { tag });
        proof {
            assert(action_views(actions@) =~= action_views(so_far).push(
                ActionView::InsertTag { tag: last },
            ));
            assert(added[i] == ActionView::InsertTag { tag: last });
            assert(before + added.take(i + 1) =~= (before + added.take(i)).push(added[i]));
        }
    }
    assert(added.take(added.len() as int) =~= added);
}

/// Adds the statements that insert the aliases of a note.
fn push_aliases(actions: &mut Vec<DbAction>, aliases: Vec<Alias>)
    ensures
        action_views(final(actions)@) == action_views(old(actions)@) + alias_actions(
            note::alias_views(aliases@),
        ),
{
    let ghost before = action_views(actions@);
    let ghost given = aliases@;
    let ghost added = alias_actions(note::alias_views(given));
    assert(before + added.take(0) =~= before);
    for alias in it: aliases
        invariant
            it.seq() == given,
            added == alias_actions(note::alias_views(given)),
            action_views(actions@) == before + added.take(it.index()),
    {
        let ghost i = it.index();
        let ghost so_far = actions@;
        let ghost last = alias@;
        actions.push(DbAction::InsertAlias { alias });
        proof {
            assert(action_views(actions@) =~= action_views(so_far).push(
                ActionView::InsertAlias { alias: last },
            ));
            assert(added[i] == ActionView::InsertAlias { alias: last });
            assert(before + added.take(i + 1) =~= (before + added.take(i)).push(added[i]));
        }
    }
    assert(added.take(added.len() as int) =~= added);
}

/// Lists the statements that write a note.
pub fn stage_file(seen: &mut SeenIds, file: ParsedFile) -> (r: Vec<DbAction>)
    requires
        old(seen).count() + file.nodes@.len() <= usize::MAX,
    ensures
        action_views(r@) == file_actions(old(seen).ids(), file@),
        final(seen).ids() == ids_after(old(seen).ids(), file@.rows.nodes),
        final(seen).count() == old(seen).count() + duplicate_count(
            old(seen).ids(),
            file@.rows.nodes,
        ),
{
    let ghost view = file@;
    let mut actions: Vec<DbAction> = Vec::new();
    push_deletes(&mut actions, file.path.as_str());
    let ghost so_far = actions@;
    actions.push(
        DbAction::InsertFile {
            file: lisp_str(file.path.as_str()),
            title: lisp_str(file.title.as_str()),
            hash: lisp_str(file.hash.as_str()),
            atime: "(0 0 0 0)".to_owned(),
            mtime: "(0 0 0 0)".to_owned(),
        },
    );
    proof {
        assert(action_views(actions@) =~= action_views(so_far).push(insert_file_action(view)));
        assert(action_views(actions@) =~= delete_actions(view.path).push(insert_file_action(view)));
    }
    push_nodes(&mut actions, seen, file.nodes);
    push_tags(&mut actions, file.tags);
    push_aliases(&mut actions, file.aliases);
    actions
}

/// The models of several parsed notes.
pub open spec fn parsed_views(parsed: Seq<ParsedFile>) -> Seq<ParsedView> {
    parsed.map_values(|f: ParsedFile| f@)
}

/// The IDs that are known after several notes have been written.
pub open spec fn ids_after_all(seen: Set<Seq<char>>, parsed: Seq<ParsedView>) -> Set<Seq<char>>
    decreases parsed.len(),
{
    if parsed.len() == 0 {
        seen
    } else {
        ids_after(ids_after_all(seen, parsed.drop_last()), parsed.last().rows.nodes)
    }
}

/// The statements that write several notes, one after the other.
pub open spec fn write_actions(seen: Set<Seq<char>>, parsed: Seq<ParsedView>) -> Seq<ActionView>
    decreases parsed.len(),
{
    if parsed.len() == 0 {
        seq![]
    } else {
        write_actions(seen, parsed.drop_last()) + file_actions(
            ids_after_all(seen, parsed.drop_last()),
            parsed.last(),
        )
    }
}

/// The number of duplicates among the nodes of several notes.
pub open spec fn duplicates_in(seen: Set<Seq<char>>, parsed: Seq<ParsedView>) -> nat
    decreases parsed.len(),
{
    if parsed.len() == 0 {
        0
    } else {
        duplicates_in(seen, parsed.drop_last()) + duplicate_count(
            ids_after_all(seen, parsed.drop_last()),
            parsed.last().rows.nodes,
        )
    }
}

/// The number of nodes of several notes.
pub open spec fn node_total(parsed: Seq<ParsedView>) -> nat
    decreases parsed.len(),
{
    if parsed.len() == 0 {
        0
    } else {
        node_total(parsed.drop_last()) + parsed.last().rows.nodes.len()
    }
}

/// The statements of a sync: those about the notes that are gone, then those
/// that write the new and changed ones.
pub open spec fn sync_actions(removed: Seq<Seq<char>>, parsed: Seq<ParsedView>) -> Seq<ActionView> {
    removal_actions(removed) + write_actions(Set::empty(), parsed)
}

/// The statements that write one note.
#[derive(Debug)]
pub struct FileScript {
    pub path: String,
    pub actions: Vec<DbAction>,
}

/// The statements that write the notes of a list of scripts, in order.
pub open spec fn script_actions(writes: Seq<FileScript>) -> Seq<ActionView>
    decreases writes.len(),
{
    if writes.len() == 0 {
        seq![]
    } else {
        script_actions(writes.drop_last()) + action_views(writes.last().actions@)
    }
}

/// Everything that a sync does to the database, and how it is reported.
#[derive(Debug)]
pub struct SyncScript {
    pub removals: Vec<DbAction>,
    pub writes: Vec<FileScript>,
    pub message: String,
}

impl SyncScript {
    /// The statements, in the order in which they are executed.
    pub open spec fn actions(&self) -> Seq<ActionView> {
        action_views(self.removals@) + script_actions(self.writes@)
    }
}

/// There are no more duplicates than nodes.
proof fn lemma_duplicate_count(seen: Set<Seq<char>>, nodes: Seq<NodeView>)
    ensures
        duplicate_count(seen, nodes) <= nodes.len(),
    decreases nodes.len(),
{
    if nodes.len() > 0 {
        lemma_duplicate_count(seen, nodes.drop_last());
    }
}

/// The first notes have no more nodes than all.
proof fn lemma_node_total(parsed: Seq<ParsedView>, n: int)
    requires
        0 <= n <= parsed.len(),
    ensures
        node_total(parsed.take(n)) <= node_total(parsed),
    decreases parsed.len() - n,
{
    if n < parsed.len() {
        lemma_node_total(parsed, n + 1);
        assert(parsed.take(n + 1).drop_last() =~= parsed.take(n));
    } else {
        assert(parsed.take(n) =~= parsed);
    }
}

/// Lists what a sync does to the database, given the paths that are gone and
/// the notes that are new or changed, and reports it.
pub fn stage_sync(removed: &Vec<String>, parsed: Vec<ParsedFile>) -> (r: SyncScript)
    requires
        node_total(parsed_views(parsed@)) <= usize::MAX,
    ensures
        r.actions() == sync_actions(removed.deep_view(), parsed_views(parsed@)),
        action_views(r.removals@) == removal_actions(removed.deep_view()),
        r.writes@.len() == parsed@.len(),
        forall|k: int|
            0 <= k < parsed@.len() ==> (#[trigger] r.writes@[k]).path@ == parsed@[k].path@
                && action_views(r.writes@[k].actions@) == file_actions(
                ids_after_all(Set::empty(), parsed_views(parsed@).take(k)),
                parsed@[k]@,
            ),
        r.message@ == completion_form(
            removed@.len(),
            parsed@.len(),
            duplicates_in(Set::empty(), parsed_views(parsed@)),
        ),
{
    let removals = stage_removed(removed);
    let modified: usize = parsed.len();
    let ghost given = parsed@;
    let ghost all = parsed_views(given);
    let ghost none = Set::<Seq<char>>::empty();
    let mut seen = SeenIds::new();
    let mut writes: Vec<FileScript> = Vec::new();
    assert(all.take(0).len() == 0);
    for file in it: parsed
        invariant
            it.seq() == given,
            all == parsed_views(given),
            node_total(all) <= usize::MAX,
            none == Set::<Seq<char>>::empty(),
            seen.ids() == ids_after_all(none, all.take(it.index())),
            seen.count() == duplicates_in(none, all.take(it.index())),
            seen.count() <= node_total(all.take(it.index())),
            writes@.len() == it.index(),
            script_actions(writes@) == write_actions(none, all.take(it.index())),
            forall|k: int|
                0 <= k < writes@.len() ==> (#[trigger] writes@[k]).path@ == given[k].path@
                    && action_views(writes@[k].actions@) == file_actions(
                    ids_after_all(none, all.take(k)),
                    given[k]@,
                ),
    {
        let ghost i = it.index();
        let ghost view = file@;
        let ghost so_far = writes@;
        proof {
            assert(all.take(i + 1).drop_last() =~= all.take(i));
            assert(all.take(i + 1).last() == view);
            lemma_node_total(all, i + 1);
            lemma_duplicate_count(seen.ids(), view.rows.nodes);
        }
        let path = file.path.clone();
        let actions = stage_file(&mut seen, file);
        writes.push(FileScript { path, actions });
        assert(writes@.drop_last() =~= so_far);
    }
    assert(all.take(all.len() as int) =~= all);
    let message = completion_message(removed.len(), modified, seen.duplicates());
    SyncScript { removals, writes, message }
}

/// The message that reports a finished sync.
pub open spec fn completion_form(removed: nat, modified: nat, duplicates: nat) -> Seq<char> {
    let base = "Rust Sync Complete using org-rs: removed "@ + text::decimal(removed)
        + ", modified "@ + text::decimal(modified);
    if duplicates > 0 {
        base + " ("@ + text::decimal(duplicates) + " duplicate node id(s) replaced)"@
    } else {
        base
    }
}

/// Reports a finished sync: how many notes were removed and modified, and how
/// many duplicate IDs there were, if any.
pub fn completion_message(removed: usize, modified: usize, duplicates: usize) -> (r: String)
    ensures
        r@ == completion_form(removed as nat, modified as nat, duplicates as nat),
{
    let mut r = "Rust Sync Complete using org-rs: removed ".to_owned();
    r.append(text::decimal_string(removed).as_str());
    r.append(", modified ");
    r.append(text::decimal_string(modified).as_str());
    if duplicates > 0 {
        r.append(" (");
        r.append(text::decimal_string(duplicates).as_str());
        r.append(" duplicate node id(s) replaced)");
    }
    r
}

/// The database knows a path with the hash on the last row about it.
pub proof fn law_last_row_about_a_path_counts(rows: Seq<(Seq<char>, Seq<char>)>, i: int)
    requires
        0 <= i < rows.len(),
        forall|j: int|
            i < j < rows.len() ==> lisp::unquoted((#[trigger] rows[j]).0) != lisp::unquoted(
                rows[i].0,
            ),
    ensures
        table::lookup(stored_files(rows), lisp::unquoted(rows[i].0)) == Some(
            lisp::unquoted(rows[i].1),
        ),
    decreases rows.len(),
{
    let front = rows.drop_last();
    let n = rows.len() - 1;
    lemma_stored_keys(front);
    table::law_put_then_lookup(
        stored_files(front),
        lisp::unquoted(rows.last().0),
        lisp::unquoted(rows.last().1),
        lisp::unquoted(rows[i].0),
    );
    if i < n {
        assert(lisp::unquoted(rows[n].0) != lisp::unquoted(rows[i].0));
        law_last_row_about_a_path_counts(front, i);
    }
}

/// The database knows no path that no row is about.
pub proof fn law_no_path_without_a_row(rows: Seq<(Seq<char>, Seq<char>)>, path: Seq<char>)
    requires
        forall|j: int| 0 <= j < rows.len() ==> lisp::unquoted((#[trigger] rows[j]).0) != path,
    ensures
        table::lookup(stored_files(rows), path) is None,
    decreases rows.len(),
{
    if rows.len() > 0 {
        let front = rows.drop_last();
        let n = rows.len() - 1;
        lemma_stored_keys(front);
        assert(lisp::unquoted(rows[n].0) != path);
        assert forall|j: int| 0 <= j < front.len() implies lisp::unquoted((#[trigger] front[j]).0)
            != path by {
            assert(front[j] == rows[j]);
        }
        law_no_path_without_a_row(front, path);
        table::law_put_then_lookup(
            stored_files(front),
            lisp::unquoted(rows.last().0),
            lisp::unquoted(rows.last().1),
            path,
        );
    }
}

proof fn lemma_stored_keys(rows: Seq<(Seq<char>, Seq<char>)>)
    ensures
        table::distinct_keys(stored_files(rows)),
    decreases rows.len(),
{
    if rows.len() > 0 {
        lemma_stored_keys(rows.drop_last());
        table::law_put_then_lookup(
            stored_files(rows.drop_last()),
            lisp::unquoted(rows.last().0),
            lisp::unquoted(rows.last().1),
            seq![],
        );
    }
}

/// For each note that is gone, its row is deleted and then its nodes are, and
/// nothing else is done.
pub proof fn law_gone_notes_are_deleted(removed: Seq<Seq<char>>, i: int)
    requires
        0 <= i < removed.len(),
    ensures
        removal_actions(removed).len() == 2 * removed.len(),
        removal_actions(removed)[2 * i] == (ActionView::DeleteFile {
            file: lisp::lisp_form(removed[i]),
        }),
        removal_actions(removed)[2 * i + 1] == (ActionView::DeleteNodes {
            file: lisp::lisp_form(removed[i]),
        }),
    decreases removed.len(),
{
    let front = removed.drop_last();
    if front.len() > 0 {
        law_gone_notes_are_deleted(front, 0);
    }
    assert(removal_actions(front).len() == 2 * front.len());
    if i < front.len() {
        law_gone_notes_are_deleted(front, i);
    }
}

/// Each node is inserted as it is, and marked if its ID is already known or an
/// earlier node has it.
proof fn lemma_node_is_inserted(seen: Set<Seq<char>>, nodes: Seq<NodeView>, i: int)
    requires
        0 <= i < nodes.len(),
    ensures
        node_actions(seen, nodes).len() == nodes.len(),
        node_actions(seen, nodes)[i] == (ActionView::InsertNode {
            node: nodes[i],
            duplicate: seen.contains(nodes[i].id) || exists|j: int|
                0 <= j < i && (#[trigger] nodes[j]).id == nodes[i].id,
        }),
    decreases nodes.len(),
{
    let front = nodes.drop_last();
    let n = nodes.len() - 1;
    if front.len() > 0 {
        lemma_node_is_inserted(seen, front, 0);
    }
    assert(node_actions(seen, front).len() == front.len());
    if i < n {
        lemma_node_is_inserted(seen, front, i);
        assert((exists|j: int| 0 <= j < i && (#[trigger] front[j]).id == front[i].id) == (exists|
            j: int,
        |
            0 <= j < i && (#[trigger] nodes[j]).id == nodes[i].id)) by {
            if exists|j: int| 0 <= j < i && (#[trigger] nodes[j]).id == nodes[i].id {
                let j = choose|j: int| 0 <= j < i && (#[trigger] nodes[j]).id == nodes[i].id;
                assert(front[j].id == front[i].id);
            }
            if exists|j: int| 0 <= j < i && (#[trigger] front[j]).id == front[i].id {
                let j = choose|j: int| 0 <= j < i && (#[trigger] front[j]).id == front[i].id;
                assert(nodes[j].id == nodes[i].id);
            }
        }
    } else {
        lemma_known_ids(seen, front, nodes[i].id);
        if exists|j: int| 0 <= j < i && (#[trigger] nodes[j]).id == nodes[i].id {
            let j = choose|j: int| 0 <= j < i && (#[trigger] nodes[j]).id == nodes[i].id;
            assert(front[j].id == nodes[i].id);
        }
        if exists|j: int| 0 <= j < front.len() && (#[trigger] front[j]).id == nodes[i].id {
            let j = choose|j: int| 0 <= j < front.len() && (#[trigger] front[j]).id == nodes[i].id;
            assert(nodes[j].id == nodes[i].id);
        }
    }
}

proof fn lemma_known_ids(seen: Set<Seq<char>>, nodes: Seq<NodeView>, id: Seq<char>)
    ensures
        ids_after(seen, nodes).contains(id) <==> seen.contains(id) || exists|j: int|
            0 <= j < nodes.len() && (#[trigger] nodes[j]).id == id,
    decreases nodes.len(),
{
    if nodes.len() > 0 {
        let front = nodes.drop_last();
        let n = nodes.len() - 1;
        lemma_known_ids(seen, front, id);
        if exists|j: int| 0 <= j < front.len() && (#[trigger] front[j]).id == id {
            let j = choose|j: int| 0 <= j < front.len() && (#[trigger] front[j]).id == id;
            assert(nodes[j].id == id);
        }
        if exists|j: int| 0 <= j < nodes.len() && (#[trigger] nodes[j]).id == id {
            let j = choose|j: int| 0 <= j < nodes.len() && (#[trigger] nodes[j]).id == id;
            if j < n {
                assert(front[j].id == id);
            }
        }
        if nodes.last().id == id {
            assert(nodes[n].id == id);
        }
    }
}

/// A note is written as a whole: what is stored about it is deleted, its row is
/// inserted, and then come all of its nodes, all of its tags and all of its
/// aliases, each once and in order. A node is marked as a duplicate if its ID is
/// already known or an earlier node of the note has it.
pub proof fn law_note_is_written_as_a_whole(seen: Set<Seq<char>>, file: ParsedView, i: int)
    ensures
        ({
            let actions = file_actions(seen, file);
            let path = lisp::lisp_form(file.path);
            let nodes = file.rows.nodes;
            let tags = file.rows.tags;
            let aliases = file.rows.aliases;
            let n = nodes.len();
            &&& actions.len() == 3 + n + tags.len() + aliases.len()
            &&& actions[0] == (ActionView::DeleteFile { file: path })
            &&& actions[1] == (ActionView::DeleteNodes { file: path })
            &&& actions[2] == (ActionView::InsertFile {
                file: path,
                title: lisp::lisp_form(file.title),
                hash: lisp::lisp_form(file.hash),
                atime: "(0 0 0 0)"@,
                mtime: "(0 0 0 0)"@,
            })
            &&& 0 <= i < n ==> actions[3 + i] == (ActionView::InsertNode {
                node: nodes[i],
                duplicate: seen.contains(nodes[i].id) || exists|j: int|
                    0 <= j < i && (#[trigger] nodes[j]).id == nodes[i].id,
            })
            &&& 0 <= i < tags.len() ==> actions[3 + n + i] == (ActionView::InsertTag {
                tag: tags[i],
            })
            &&& 0 <= i < aliases.len() ==> actions[3 + n + tags.len() + i] == (
            ActionView::InsertAlias { alias: aliases[i] })
        }),
{
    if file.rows.nodes.len() > 0 {
        lemma_node_is_inserted(seen, file.rows.nodes, 0);
    }
    if 0 <= i < file.rows.nodes.len() {
        lemma_node_is_inserted(seen, file.rows.nodes, i);
    }
}

/// Notes are written one after the other. What is known after the first ones
/// counts for the others.
pub proof fn law_notes_are_written_one_after_the_other(
    seen: Set<Seq<char>>,
    a: Seq<ParsedView>,
    b: Seq<ParsedView>,
)
    ensures
        ids_after_all(seen, a + b) == ids_after_all(ids_after_all(seen, a), b),
        write_actions(seen, a + b) == write_actions(seen, a) + write_actions(
            ids_after_all(seen, a),
            b,
        ),
        duplicates_in(seen, a + b) == duplicates_in(seen, a) + duplicates_in(
            ids_after_all(seen, a),
            b,
        ),
    decreases b.len(),
{
    if b.len() == 0 {
        assert(a + b =~= a);
    } else {
        assert((a + b).drop_last() =~= a + b.drop_last());
        law_notes_are_written_one_after_the_other(seen, a, b.drop_last());
    }
}

/// One note is written with its own statements, its IDs are known from then on,
/// and its duplicates are counted.
pub proof fn law_one_note_is_written(seen: Set<Seq<char>>, file: ParsedView, id: Seq<char>)
    ensures
        write_actions(seen, seq![file]) == file_actions(seen, file),
        duplicates_in(seen, seq![file]) == duplicate_count(seen, file.rows.nodes),
        ids_after_all(seen, seq![file]).contains(id) <==> seen.contains(id) || exists|j: int|
            0 <= j < file.rows.nodes.len() && (#[trigger] file.rows.nodes[j]).id == id,
        write_actions(seen, seq![]).len() == 0,
        duplicates_in(seen, seq![]) == 0,
{
    let one = seq![file];
    assert(one.drop_last() =~= seq![]);
    assert(write_actions(seen, one.drop_last()).len() == 0);
    assert(duplicates_in(seen, one.drop_last()) == 0);
    assert(ids_after_all(seen, one.drop_last()) == seen);
    lemma_known_ids(seen, file.rows.nodes, id);
}

/// A node counts as a duplicate if its ID is already known, and only then.
pub proof fn law_duplicates_are_counted_one_by_one(
    seen: Set<Seq<char>>,
    nodes: Seq<NodeView>,
    node: NodeView,
)
    ensures
        duplicate_count(seen, seq![]) == 0,
        (seen.contains(node.id) || exists|j: int|
            0 <= j < nodes.len() && (#[trigger] nodes[j]).id == node.id) ==> duplicate_count(
            seen,
            nodes.push(node),
        ) == duplicate_count(seen, nodes) + 1,
        !(seen.contains(node.id) || exists|j: int|
            0 <= j < nodes.len() && (#[trigger] nodes[j]).id == node.id) ==> duplicate_count(
            seen,
            nodes.push(node),
        ) == duplicate_count(seen, nodes),
{
    assert(nodes.push(node).drop_last() =~= nodes);
    lemma_known_ids(seen, nodes, node.id);
}

/// A sync first deletes what is gone, then writes what is new or changed.
pub proof fn law_sync_deletes_before_it_writes(removed: Seq<Seq<char>>, parsed: Seq<ParsedView>)
    ensures
        sync_actions(removed, seq![]) == removal_actions(removed),
        sync_actions(seq![], parsed) == write_actions(Set::empty(), parsed),
        sync_actions(removed, parsed) == sync_actions(removed, seq![]) + sync_actions(
            seq![],
            parsed,
        ),
{
    assert(removal_actions(seq![]).len() == 0);
    assert(write_actions(Set::empty(), seq![]).len() == 0);
    assert(sync_actions(removed, seq![]) =~= removal_actions(removed));
    assert(sync_actions(seq![], parsed) =~= write_actions(Set::empty(), parsed));
}

/// What is written about a note is its path, its hash, the title under which it
/// is listed, and the rows that its content gives under that title.
pub proof fn law_parsed_note_is_that_note(
    file: FileView,
    title: Seq<char>,
    found: Seq<ElementView>,
)
    ensures
        parsed_as(file, title, found).path == file.path,
        parsed_as(file, title, found).hash == file.hash,
        parsed_as(file, title, found).title == title,
        parsed_as(file, title, found).rows == note::note_rows(
            file.path,
            file.content,
            Some(title),
            found,
        ),
{
}

/// The report says how many notes were removed and modified; duplicates are
/// reported behind that, if there are any.
pub proof fn law_report_counts_everything(removed: nat, modified: nat, duplicates: nat)
    ensures
        completion_form(removed, modified, 0) == "Rust Sync Complete using org-rs: removed "@
            + text::decimal(removed) + ", modified "@ + text::decimal(modified),
        duplicates > 0 ==> completion_form(removed, modified, duplicates) == completion_form(
            removed,
            modified,
            0,
        ) + (" ("@ + text::decimal(duplicates) + " duplicate node id(s) replaced)"@),
{
    let base = completion_form(removed, modified, 0);
    assert(base + " ("@ + text::decimal(duplicates) + " duplicate node id(s) replaced)"@ =~= base
        + (" ("@ + text::decimal(duplicates) + " duplicate node id(s) replaced)"@));
}

} // verus!
