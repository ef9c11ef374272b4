//! What the statements of a sync do to the database, and what a sync achieves.

use vstd::prelude::*;

use crate::lisp;
use crate::note;
use crate::note::{AliasView, NodeView, RowsView, TagView};
use crate::outline::ElementView;
use crate::sync;
use crate::sync::{ActionView, FileView, ParsedView};
use crate::table;

verus! {

/// What the database holds about one ID: the node, and its tags and aliases in
/// the order in which they were inserted.
#[verifier::ext_equal]
pub struct StoredNode {
    pub node: NodeView,
    pub tags: Seq<Seq<char>>,
    pub aliases: Seq<Seq<char>>,
}

/// The row of a file, without the file itself.
pub struct FileRow {
    pub title: Seq<char>,
    pub hash: Seq<char>,
    pub atime: Seq<char>,
    pub mtime: Seq<char>,
}

/// What the database holds: the row of each file, and each node under its ID,
/// with its tags and aliases. A tag or an alias cannot be there without its
/// node, and goes with it.
#[verifier::ext_equal]
pub struct DbView {
    pub files: Map<Seq<char>, FileRow>,
    pub nodes: Map<Seq<char>, StoredNode>,
}

/// The nodes that do not belong to `file`.
pub open spec fn without_file(
    nodes: Map<Seq<char>, StoredNode>,
    file: Seq<char>,
) -> Map<Seq<char>, StoredNode> {
    nodes.restrict(nodes.dom().filter(|id: Seq<char>| nodes[id].node.file != file))
}

/// The database after a statement. The nodes of a file go with its row, and the
/// tags and aliases of a node go with it, also where another node takes its
/// place. What refers to a row that is not there is refused.
pub open spec fn apply(db: DbView, action: ActionView) -> DbView {
    match action {
        ActionView::DeleteFile { file } => DbView {
            files: db.files.remove(file),
            nodes: without_file(db.nodes, file),
        },
        ActionView::DeleteNodes { file } => DbView { nodes: without_file(db.nodes, file), ..db },
        ActionView::InsertFile { file, title, hash, atime, mtime } => DbView {
            files: db.files.insert(file, FileRow { title, hash, atime, mtime }),
            ..db
        },
        ActionView::InsertNode { node, duplicate } => if db.files.contains_key(node.file) {
            let entry = StoredNode { node, tags: seq![], aliases: seq![] };
            DbView { nodes: db.nodes.insert(node.id, entry), ..db }
        } else {
            db
        },
        ActionView::InsertTag { tag } => if db.nodes.contains_key(tag.node_id) {
            let entry = db.nodes[tag.node_id];
            let after = StoredNode { tags: entry.tags.push(tag.tag), ..entry };
            DbView { nodes: db.nodes.insert(tag.node_id, after), ..db }
        } else {
            db
        },
        ActionView::InsertAlias { alias } => if db.nodes.contains_key(alias.node_id) {
            let entry = db.nodes[alias.node_id];
            let after = StoredNode { aliases: entry.aliases.push(alias.alias), ..entry };
            DbView { nodes: db.nodes.insert(alias.node_id, after), ..db }
        } else {
            db
        },
    }
}

/// The database after a list of statements.
pub open spec fn apply_all(db: DbView, actions: Seq<ActionView>) -> DbView
    decreases actions.len(),
{
    if actions.len() == 0 {
        db
    } else {
        apply(apply_all(db, actions.drop_last()), actions.last())
    }
}

proof fn lemma_apply_sum(db: DbView, a: Seq<ActionView>, b: Seq<ActionView>)
    ensures
        apply_all(db, a + b) == apply_all(apply_all(db, a), b),
    decreases b.len(),
{
    if b.len() == 0 {
        assert(a + b =~= a);
    } else {
        assert((a + b).drop_last() =~= a + b.drop_last());
        lemma_apply_sum(db, a, b.drop_last());
    }
}

/// What the database holds about `id`, if anything.
pub open spec fn entry(db: DbView, id: Seq<char>) -> Option<StoredNode> {
    if db.nodes.contains_key(id) {
        Some(db.nodes[id])
    } else {
        None
    }
}

/// The last node with the printed ID `id`.
pub open spec fn last_node(nodes: Seq<NodeView>, id: Seq<char>) -> Option<NodeView>
    decreases nodes.len(),
{
    if nodes.len() == 0 {
        None
    } else if nodes.last().id == id {
        Some(nodes.last())
    } else {
        last_node(nodes.drop_last(), id)
    }
}

/// The tags that belong to `id`, in order.
pub open spec fn tags_with(tags: Seq<TagView>, id: Seq<char>) -> Seq<Seq<char>>
    decreases tags.len(),
{
    if tags.len() == 0 {
        seq![]
    } else if tags.last().node_id == id {
        tags_with(tags.drop_last(), id).push(tags.last().tag)
    } else {
        tags_with(tags.drop_last(), id)
    }
}

/// The aliases that belong to `id`, in order.
pub open spec fn aliases_with(aliases: Seq<AliasView>, id: Seq<char>) -> Seq<Seq<char>>
    decreases aliases.len(),
{
    if aliases.len() == 0 {
        seq![]
    } else if aliases.last().node_id == id {
        aliases_with(aliases.drop_last(), id).push(aliases.last().alias)
    } else {
        aliases_with(aliases.drop_last(), id)
    }
}

/// What a note has to say about `id`: its last node with that ID, and the tags
/// and aliases that it gives that ID.
pub open spec fn said_about(rows: RowsView, id: Seq<char>) -> Option<StoredNode> {
    match last_node(rows.nodes, id) {
        Some(node) => Some(
            StoredNode {
                node,
                tags: tags_with(rows.tags, id),
                aliases: aliases_with(rows.aliases, id),
            },
        ),
        None => None,
    }
}

/// What becomes of the entry of an ID when a note is written: what the note
/// says takes its place, and an entry of the note's file goes.
pub open spec fn entry_after(
    before: Option<StoredNode>,
    file: ParsedView,
    id: Seq<char>,
) -> Option<StoredNode> {
    match said_about(file.rows, id) {
        Some(said) => Some(said),
        None => match before {
            Some(e) if e.node.file != lisp::lisp_form(file.path) => Some(e),
            _ => None,
        },
    }
}

/// What becomes of the entry of an ID when several notes are written.
pub open spec fn entry_after_all(
    before: Option<StoredNode>,
    parsed: Seq<ParsedView>,
    id: Seq<char>,
) -> Option<StoredNode>
    decreases parsed.len(),
{
    if parsed.len() == 0 {
        before
    } else {
        entry_after(entry_after_all(before, parsed.drop_last(), id), parsed.last(), id)
    }
}

/// The last node with an ID is one of the nodes.
proof fn lemma_last_node(nodes: Seq<NodeView>, id: Seq<char>)
    ensures
        last_node(nodes, id) is Some <==> note::has_node(nodes, id),
        last_node(nodes, id) matches Some(n) ==> n.id == id && nodes.contains(n),
    decreases nodes.len(),
{
    if nodes.len() > 0 {
        let front = nodes.drop_last();
        let n = front.len() as int;
        lemma_last_node(front, id);
        assert(nodes[n] == nodes.last());
        if note::has_node(front, id) {
            let k = choose|k: int| 0 <= k < front.len() && (#[trigger] front[k]).id == id;
            assert(nodes[k].id == id);
        }
        if note::has_node(nodes, id) {
            let k = choose|k: int| 0 <= k < nodes.len() && (#[trigger] nodes[k]).id == id;
            if k < n {
                assert(front[k].id == id);
            }
        }
        if let Some(found) = last_node(front, id) {
            let k = choose|k: int| 0 <= k < front.len() && front[k] == found;
            assert(nodes[k] == found);
        }
    }
}

/// Nodes leave the last one with an ID, without tags and aliases.
proof fn lemma_node_actions(db: DbView, seen: Set<Seq<char>>, nodes: Seq<NodeView>, id: Seq<char>)
    requires
        forall|i: int| 0 <= i < nodes.len() ==> db.files.contains_key((#[trigger] nodes[i]).file),
    ensures
        apply_all(db, sync::node_actions(seen, nodes)).files == db.files,
        entry(apply_all(db, sync::node_actions(seen, nodes)), id) == match last_node(nodes, id) {
            Some(node) => Some(StoredNode { node, tags: seq![], aliases: seq![] }),
            None => entry(db, id),
        },
    decreases nodes.len(),
{
    if nodes.len() > 0 {
        let front = nodes.drop_last();
        let actions = sync::node_actions(seen, nodes);
        assert(actions.drop_last() =~= sync::node_actions(seen, front));
        assert forall|i: int| 0 <= i < front.len() implies db.files.contains_key(
            (#[trigger] front[i]).file,
        ) by {
            assert(front[i] == nodes[i]);
        }
        lemma_node_actions(db, seen, front, id);
        assert(db.files.contains_key(nodes[nodes.len() - 1].file));
    }
}

/// Tags are added to the entries of their IDs.
proof fn lemma_tag_actions(db: DbView, tags: Seq<TagView>, id: Seq<char>)
    ensures
        entry(apply_all(db, sync::tag_actions(tags)), id) == match entry(db, id) {
            Some(e) => Some(StoredNode { tags: e.tags + tags_with(tags, id), ..e }),
            None => None,
        },
    decreases tags.len(),
{
    let actions = sync::tag_actions(tags);
    if tags.len() == 0 {
        if let Some(e) = entry(db, id) {
            assert(e.tags + tags_with(tags, id) =~= e.tags);
        }
    } else {
        let front = tags.drop_last();
        lemma_tag_actions(db, front, id);
        assert(actions.drop_last() =~= sync::tag_actions(front));
        assert(actions.last() == ActionView::InsertTag { tag: tags.last() });
        if let Some(e) = entry(db, id) {
            if tags.last().node_id == id {
                assert((e.tags + tags_with(front, id)).push(tags.last().tag) =~= e.tags
                    + tags_with(tags, id));
            }
        }
    }
}

/// Aliases are added to the entries of their IDs.
proof fn lemma_alias_actions(db: DbView, aliases: Seq<AliasView>, id: Seq<char>)
    ensures
        entry(apply_all(db, sync::alias_actions(aliases)), id) == match entry(db, id) {
            Some(e) => Some(StoredNode { aliases: e.aliases + aliases_with(aliases, id), ..e }),
            None => None,
        },
    decreases aliases.len(),
{
    let actions = sync::alias_actions(aliases);
    if aliases.len() == 0 {
        if let Some(e) = entry(db, id) {
            assert(e.aliases + aliases_with(aliases, id) =~= e.aliases);
        }
    } else {
        let front = aliases.drop_last();
        lemma_alias_actions(db, front, id);
        assert(actions.drop_last() =~= sync::alias_actions(front));
        assert(actions.last() == ActionView::InsertAlias { alias: aliases.last() });
        if let Some(e) = entry(db, id) {
            if aliases.last().node_id == id {
                assert((e.aliases + aliases_with(front, id)).push(aliases.last().alias)
                    =~= e.aliases + aliases_with(aliases, id));
            }
        }
    }
}

/// Without a node for them, coherent rows hold no tags and aliases of an ID.
proof fn lemma_no_labels(
    nodes: Seq<NodeView>,
    tags: Seq<TagView>,
    aliases: Seq<AliasView>,
    id: Seq<char>,
)
    requires
        !note::has_node(nodes, id),
        forall|i: int| 0 <= i < tags.len() ==> note::has_node(nodes, (#[trigger] tags[i]).node_id),
        forall|i: int|
            0 <= i < aliases.len() ==> note::has_node(nodes, (#[trigger] aliases[i]).node_id),
    ensures
        tags_with(tags, id).len() == 0,
        aliases_with(aliases, id).len() == 0,
    decreases tags.len() + aliases.len(),
{
    if tags.len() > 0 {
        let front = tags.drop_last();
        assert(note::has_node(nodes, tags[tags.len() - 1].node_id));
        assert forall|i: int| 0 <= i < front.len() implies note::has_node(
            nodes,
            (#[trigger] front[i]).node_id,
        ) by {
            assert(front[i] == tags[i]);
        }
        lemma_no_labels(nodes, front, aliases, id);
    } else if aliases.len() > 0 {
        let front = aliases.drop_last();
        assert(note::has_node(nodes, aliases[aliases.len() - 1].node_id));
        assert forall|i: int| 0 <= i < front.len() implies note::has_node(
            nodes,
            (#[trigger] front[i]).node_id,
        ) by {
            assert(front[i] == aliases[i]);
        }
        lemma_no_labels(nodes, tags, front, id);
    }
}

/// What deleting a file leaves: the rows of the other files and their nodes.
proof fn lemma_deletes(db: DbView, path: Seq<char>)
    ensures
        apply_all(db, sync::delete_actions(path)).files == db.files.remove(lisp::lisp_form(path)),
        apply_all(db, sync::delete_actions(path)).nodes == without_file(
            db.nodes,
            lisp::lisp_form(path),
        ),
{
    let actions = sync::delete_actions(path);
    let file = lisp::lisp_form(path);
    assert(actions.drop_last() =~= seq![actions[0]]);
    assert(actions.drop_last().drop_last() =~= seq![]);
    assert(apply_all(db, actions.drop_last().drop_last()) == db);
    assert(apply_all(db, actions.drop_last()) == apply(db, actions[0]));
    assert(without_file(without_file(db.nodes, file), file) =~= without_file(db.nodes, file));
}

/// Writing a note settles every ID: an ID that the note uses has what the note
/// says, with the note's tags and aliases and no others; another ID that
/// belonged to the note's file is gone; the rest is as it was.
pub proof fn law_note_replaces_its_nodes(
    db: DbView,
    seen: Set<Seq<char>>,
    file: ParsedView,
    id: Seq<char>,
)
    requires
        note::is_coherent(file.rows, file.path),
    ensures
        entry(apply_all(db, sync::file_actions(seen, file)), id) == entry_after(
            entry(db, id),
            file,
            id,
        ),
{
    let rows = file.rows;
    let deletes = sync::delete_actions(file.path);
    let head = deletes.push(sync::insert_file_action(file));
    let nodes = sync::node_actions(seen, rows.nodes);
    let tags = sync::tag_actions(rows.tags);
    let aliases = sync::alias_actions(rows.aliases);
    let a = apply_all(db, head);
    let b = apply_all(a, nodes);
    let c = apply_all(b, tags);
    assert(sync::file_actions(seen, file) =~= ((head + nodes) + tags) + aliases);
    lemma_apply_sum(db, (head + nodes) + tags, aliases);
    lemma_apply_sum(db, head + nodes, tags);
    lemma_apply_sum(db, head, nodes);
    lemma_deletes(db, file.path);
    assert(head.drop_last() =~= deletes);
    assert forall|i: int| 0 <= i < rows.nodes.len() implies a.files.contains_key(
        (#[trigger] rows.nodes[i]).file,
    ) by {
        assert(rows.nodes[i].file == lisp::lisp_form(file.path));
    }
    lemma_node_actions(a, seen, rows.nodes, id);
    lemma_tag_actions(b, rows.tags, id);
    lemma_alias_actions(c, rows.aliases, id);
    lemma_last_node(rows.nodes, id);
    let none = Seq::<Seq<char>>::empty();
    assert(none + tags_with(rows.tags, id) =~= tags_with(rows.tags, id));
    assert(none + aliases_with(rows.aliases, id) =~= aliases_with(rows.aliases, id));
    if !note::has_node(rows.nodes, id) {
        lemma_no_labels(rows.nodes, rows.tags, rows.aliases, id);
        if let Some(e) = entry(a, id) {
            assert(e.tags + tags_with(rows.tags, id) =~= e.tags);
            assert(e.aliases + aliases_with(rows.aliases, id) =~= e.aliases);
        }
    }
}

/// Tells whether each of the notes holds rows about its own file, and no two of
/// them are about one file.
pub open spec fn are_coherent(parsed: Seq<ParsedView>) -> bool {
    &&& forall|i: int|
        0 <= i < parsed.len() ==> note::is_coherent((#[trigger] parsed[i]).rows, parsed[i].path)
    &&& forall|i: int, j: int|
        0 <= i < j < parsed.len() ==> lisp::lisp_form((#[trigger] parsed[i]).path)
            != lisp::lisp_form((#[trigger] parsed[j]).path)
}

proof fn lemma_coherent_front(parsed: Seq<ParsedView>)
    requires
        are_coherent(parsed),
        parsed.len() > 0,
    ensures
        are_coherent(parsed.drop_last()),
        note::is_coherent(parsed.last().rows, parsed.last().path),
{
    let front = parsed.drop_last();
    assert forall|i: int| 0 <= i < front.len() implies note::is_coherent(
        (#[trigger] front[i]).rows,
        front[i].path,
    ) by {
        assert(front[i] == parsed[i]);
    }
    assert forall|i: int, j: int| 0 <= i < j < front.len() implies lisp::lisp_form(
        (#[trigger] front[i]).path,
    ) != lisp::lisp_form((#[trigger] front[j]).path) by {
        assert(front[i] == parsed[i] && front[j] == parsed[j]);
    }
    assert(parsed[parsed.len() - 1] == parsed.last());
}

proof fn lemma_write_entries(
    db: DbView,
    seen: Set<Seq<char>>,
    parsed: Seq<ParsedView>,
    id: Seq<char>,
)
    requires
        are_coherent(parsed),
    ensures
        entry(apply_all(db, sync::write_actions(seen, parsed)), id) == entry_after_all(
            entry(db, id),
            parsed,
            id,
        ),
    decreases parsed.len(),
{
    if parsed.len() > 0 {
        let front = parsed.drop_last();
        let ids = sync::ids_after_all(seen, front);
        lemma_coherent_front(parsed);
        lemma_write_entries(db, seen, front, id);
        lemma_apply_sum(
            db,
            sync::write_actions(seen, front),
            sync::file_actions(ids, parsed.last()),
        );
        law_note_replaces_its_nodes(
            apply_all(db, sync::write_actions(seen, front)),
            ids,
            parsed.last(),
            id,
        );
    }
}

/// Tells whether one of the paths is printed as `key`.
pub open spec fn has_printed(paths: Seq<Seq<char>>, key: Seq<char>) -> bool {
    exists|i: int| 0 <= i < paths.len() && lisp::lisp_form(#[trigger] paths[i]) == key
}

/// What removals leave of an entry.
pub open spec fn entry_kept(before: Option<StoredNode>, removed: Seq<Seq<char>>) -> Option<
    StoredNode,
> {
    match before {
        Some(e) if !has_printed(removed, e.node.file) => Some(e),
        _ => None,
    }
}

proof fn lemma_removal_entries(db: DbView, removed: Seq<Seq<char>>, id: Seq<char>)
    ensures
        entry(apply_all(db, sync::removal_actions(removed)), id) == entry_kept(
            entry(db, id),
            removed,
        ),
    decreases removed.len(),
{
    if removed.len() > 0 {
        let front = removed.drop_last();
        let n = front.len() as int;
        lemma_removal_entries(db, front, id);
        lemma_apply_sum(db, sync::removal_actions(front), sync::delete_actions(removed.last()));
        lemma_deletes(apply_all(db, sync::removal_actions(front)), removed.last());
        if let Some(e) = entry(db, id) {
            let file = e.node.file;
            if has_printed(front, file) {
                let i = choose|i: int|
                    0 <= i < front.len() && lisp::lisp_form(#[trigger] front[i]) == file;
                assert(lisp::lisp_form(removed[i]) == file);
            }
            if has_printed(removed, file) {
                let i = choose|i: int|
                    0 <= i < removed.len() && lisp::lisp_form(#[trigger] removed[i]) == file;
                if i < n {
                    assert(lisp::lisp_form(front[i]) == file);
                }
            }
            if lisp::lisp_form(removed.last()) == file {
                assert(lisp::lisp_form(removed[n]) == file);
            }
        }
    }
}

/// A sync settles every ID: first the entries of removed notes go, then each
/// note is written in turn.
pub proof fn law_sync_settles_every_id(
    db: DbView,
    removed: Seq<Seq<char>>,
    parsed: Seq<ParsedView>,
    id: Seq<char>,
)
    requires
        are_coherent(parsed),
    ensures
        entry(apply_all(db, sync::sync_actions(removed, parsed)), id) == entry_after_all(
            entry_kept(entry(db, id), removed),
            parsed,
            id,
        ),
{
    lemma_apply_sum(
        db,
        sync::removal_actions(removed),
        sync::write_actions(Set::empty(), parsed),
    );
    lemma_removal_entries(db, removed, id);
    lemma_write_entries(
        apply_all(db, sync::removal_actions(removed)),
        Set::empty(),
        parsed,
        id,
    );
}

/// The last note with an ID has the last word about it.
proof fn lemma_last_note(
    before: Option<StoredNode>,
    parsed: Seq<ParsedView>,
    k: int,
    id: Seq<char>,
)
    requires
        are_coherent(parsed),
        0 <= k < parsed.len(),
        note::has_node(parsed[k].rows.nodes, id),
        forall|j: int|
            k < j < parsed.len() ==> !note::has_node((#[trigger] parsed[j]).rows.nodes, id),
    ensures
        entry_after_all(before, parsed, id) == said_about(parsed[k].rows, id),
        said_about(parsed[k].rows, id) is Some,
    decreases parsed.len(),
{
    let front = parsed.drop_last();
    let n = front.len() as int;
    lemma_coherent_front(parsed);
    lemma_last_node(parsed[k].rows.nodes, id);
    if k < n {
        assert forall|j: int| k < j < front.len() implies !note::has_node(
            (#[trigger] front[j]).rows.nodes,
            id,
        ) by {
            assert(front[j] == parsed[j]);
        }
        lemma_last_note(before, front, k, id);
        lemma_last_node(parsed.last().rows.nodes, id);
        assert(!note::has_node(parsed[n].rows.nodes, id));
        let nodes = parsed[k].rows.nodes;
        let node = last_node(nodes, id)->0;
        let l = choose|l: int| 0 <= l < nodes.len() && nodes[l] == node;
        assert(nodes[l].file == lisp::lisp_form(parsed[k].path));
        assert(lisp::lisp_form(parsed[k].path) != lisp::lisp_form(parsed[n].path));
    }
}

/// The last writer wins: where notes share an ID, the database holds afterwards
/// what the last of them says about it, with its tags and aliases and no
/// others; within that note the last node counts.
pub proof fn law_last_writer_wins(
    db: DbView,
    removed: Seq<Seq<char>>,
    parsed: Seq<ParsedView>,
    k: int,
    id: Seq<char>,
)
    requires
        are_coherent(parsed),
        0 <= k < parsed.len(),
        note::has_node(parsed[k].rows.nodes, id),
        forall|j: int|
            k < j < parsed.len() ==> !note::has_node((#[trigger] parsed[j]).rows.nodes, id),
    ensures
        entry(apply_all(db, sync::sync_actions(removed, parsed)), id) == said_about(
            parsed[k].rows,
            id,
        ),
        said_about(parsed[k].rows, id) is Some,
{
    law_sync_settles_every_id(db, removed, parsed, id);
    lemma_last_note(entry_kept(entry(db, id), removed), parsed, k, id);
}

/// The last node of a list with its ID is the one that counts.
pub proof fn law_last_node_counts(nodes: Seq<NodeView>, i: int)
    requires
        0 <= i < nodes.len(),
        forall|j: int| i < j < nodes.len() ==> (#[trigger] nodes[j]).id != nodes[i].id,
    ensures
        last_node(nodes, nodes[i].id) == Some(nodes[i]),
    decreases nodes.len(),
{
    let front = nodes.drop_last();
    if i < front.len() {
        assert(nodes[front.len() as int].id != nodes[i].id);
        assert forall|j: int| i < j < front.len() implies (#[trigger] front[j]).id
            != front[i].id by {
            assert(nodes[j].id != nodes[i].id);
        }
        law_last_node_counts(front, i);
    }
}

/// Tells whether one of the notes is printed under the path `key`.
pub open spec fn is_written(parsed: Seq<ParsedView>, key: Seq<char>) -> bool {
    exists|i: int| 0 <= i < parsed.len() && lisp::lisp_form((#[trigger] parsed[i]).path) == key
}

/// Tells whether one of the notes uses the printed ID `id`.
pub open spec fn is_used(parsed: Seq<ParsedView>, id: Seq<char>) -> bool {
    exists|i: int| 0 <= i < parsed.len() && note::has_node((#[trigger] parsed[i]).rows.nodes, id)
}

/// An ID that no note uses keeps its entry unless its file is written.
proof fn lemma_unused(before: Option<StoredNode>, parsed: Seq<ParsedView>, id: Seq<char>)
    requires
        !is_used(parsed, id),
    ensures
        entry_after_all(before, parsed, id) == match before {
            Some(e) if !is_written(parsed, e.node.file) => Some(e),
            _ => None,
        },
    decreases parsed.len(),
{
    if parsed.len() > 0 {
        let front = parsed.drop_last();
        let n = front.len() as int;
        if is_used(front, id) {
            let i = choose|i: int|
                0 <= i < front.len() && note::has_node((#[trigger] front[i]).rows.nodes, id);
            assert(note::has_node(parsed[i].rows.nodes, id));
        }
        lemma_unused(before, front, id);
        assert(!note::has_node(parsed[n].rows.nodes, id));
        lemma_last_node(parsed.last().rows.nodes, id);
        if let Some(e) = before {
            let file = e.node.file;
            if is_written(front, file) {
                let i = choose|i: int|
                    0 <= i < front.len() && lisp::lisp_form((#[trigger] front[i]).path) == file;
                assert(lisp::lisp_form(parsed[i].path) == file);
            }
            if is_written(parsed, file) {
                let i = choose|i: int|
                    0 <= i < parsed.len() && lisp::lisp_form((#[trigger] parsed[i]).path) == file;
                if i < n {
                    assert(lisp::lisp_form(front[i].path) == file);
                }
            }
            if lisp::lisp_form(parsed.last().path) == file {
                assert(lisp::lisp_form(parsed[n].path) == file);
            }
        }
    }
}

/// An ID that no written note uses keeps its node, tags and aliases through a
/// sync, unless its file is removed or written; then they go.
pub proof fn law_unused_ids_stay_with_their_file(
    db: DbView,
    removed: Seq<Seq<char>>,
    parsed: Seq<ParsedView>,
    id: Seq<char>,
)
    requires
        are_coherent(parsed),
        !is_used(parsed, id),
    ensures
        entry(apply_all(db, sync::sync_actions(removed, parsed)), id) == match entry(db, id) {
            Some(e) if !has_printed(removed, e.node.file) && !is_written(
                parsed,
                e.node.file,
            ) => Some(e),
            _ => None,
        },
{
    law_sync_settles_every_id(db, removed, parsed, id);
    lemma_unused(entry_kept(entry(db, id), removed), parsed, id);
}

/// Where notes use an ID, there is a last one that does.
proof fn lemma_last_user(parsed: Seq<ParsedView>, id: Seq<char>) -> (k: int)
    requires
        is_used(parsed, id),
    ensures
        0 <= k < parsed.len(),
        note::has_node(parsed[k].rows.nodes, id),
        forall|j: int|
            k < j < parsed.len() ==> !note::has_node((#[trigger] parsed[j]).rows.nodes, id),
    decreases parsed.len(),
{
    let front = parsed.drop_last();
    let n = front.len() as int;
    let i = choose|i: int|
        0 <= i < parsed.len() && note::has_node((#[trigger] parsed[i]).rows.nodes, id);
    if note::has_node(parsed[n].rows.nodes, id) {
        n
    } else {
        assert(note::has_node(front[i].rows.nodes, id));
        let k = lemma_last_user(front, id);
        assert forall|j: int| k < j < parsed.len() implies !note::has_node(
            (#[trigger] parsed[j]).rows.nodes,
            id,
        ) by {
            if j < n {
                assert(front[j] == parsed[j]);
            }
        }
        k
    }
}

/// A sync leaves nothing stale: what is in the database afterwards about an ID
/// either comes from a note that was written, or was there before and belongs to
/// a file that was neither removed nor written.
pub proof fn law_sync_leaves_nothing_stale(
    db: DbView,
    removed: Seq<Seq<char>>,
    parsed: Seq<ParsedView>,
    id: Seq<char>,
)
    requires
        are_coherent(parsed),
        entry(apply_all(db, sync::sync_actions(removed, parsed)), id) is Some,
    ensures
        ({
            let e = entry(apply_all(db, sync::sync_actions(removed, parsed)), id);
            ||| exists|k: int|
                0 <= k < parsed.len() && said_about((#[trigger] parsed[k]).rows, id) == e
            ||| entry(db, id) == e && !has_printed(removed, e->0.node.file) && !is_written(
                parsed,
                e->0.node.file,
            )
        }),
{
    if is_used(parsed, id) {
        let k = lemma_last_user(parsed, id);
        law_last_writer_wins(db, removed, parsed, k, id);
        assert(said_about(parsed[k].rows, id) is Some);
    } else {
        law_unused_ids_stay_with_their_file(db, removed, parsed, id);
    }
}

/// Every inserted node either brings a new ID or is counted as a duplicate.
pub proof fn law_duplicates_are_counted(seen: Set<Seq<char>>, nodes: Seq<NodeView>)
    requires
        seen.finite(),
    ensures
        sync::ids_after(seen, nodes).finite(),
        sync::ids_after(seen, nodes).len() + sync::duplicate_count(seen, nodes) == seen.len()
            + nodes.len(),
    decreases nodes.len(),
{
    if nodes.len() > 0 {
        law_duplicates_are_counted(seen, nodes.drop_last());
    }
}

/// The IDs that are known after notes have been written are those that were
/// known before and those that the notes use.
pub proof fn law_ids_of_a_sync_are_known(
    seen: Set<Seq<char>>,
    parsed: Seq<ParsedView>,
    id: Seq<char>,
)
    ensures
        sync::ids_after_all(seen, parsed).contains(id) <==> seen.contains(id) || is_used(
            parsed,
            id,
        ),
    decreases parsed.len(),
{
    if parsed.len() > 0 {
        let front = parsed.drop_last();
        let n = front.len() as int;
        law_ids_of_a_sync_are_known(seen, front, id);
        lemma_ids_after(sync::ids_after_all(seen, front), parsed.last().rows.nodes, id);
        if is_used(front, id) {
            let i = choose|i: int|
                0 <= i < front.len() && note::has_node((#[trigger] front[i]).rows.nodes, id);
            assert(note::has_node(parsed[i].rows.nodes, id));
        }
        if is_used(parsed, id) {
            let i = choose|i: int|
                0 <= i < parsed.len() && note::has_node((#[trigger] parsed[i]).rows.nodes, id);
            if i < n {
                assert(note::has_node(front[i].rows.nodes, id));
            }
        }
        if note::has_node(parsed.last().rows.nodes, id) {
            assert(note::has_node(parsed[n].rows.nodes, id));
        }
    }
}

/// Over a whole sync, the duplicates are the nodes less the distinct IDs.
pub proof fn law_duplicates_of_a_sync_are_counted(seen: Set<Seq<char>>, parsed: Seq<ParsedView>)
    requires
        seen.finite(),
    ensures
        sync::ids_after_all(seen, parsed).finite(),
        sync::ids_after_all(seen, parsed).len() + sync::duplicates_in(seen, parsed) == seen.len()
            + sync::node_total(parsed),
    decreases parsed.len(),
{
    if parsed.len() > 0 {
        law_duplicates_of_a_sync_are_counted(seen, parsed.drop_last());
        law_duplicates_are_counted(
            sync::ids_after_all(seen, parsed.drop_last()),
            parsed.last().rows.nodes,
        );
    }
}

/// A node is marked as a duplicate exactly if its ID was known before or a node
/// before it has the same ID.
pub proof fn law_duplicate_mark(seen: Set<Seq<char>>, nodes: Seq<NodeView>, i: int)
    requires
        0 <= i < nodes.len(),
    ensures
        sync::node_actions(seen, nodes).len() == nodes.len(),
        sync::node_actions(seen, nodes)[i] == (ActionView::InsertNode {
            node: nodes[i],
            duplicate: seen.contains(nodes[i].id) || note::has_node(nodes.take(i), nodes[i].id),
        }),
    decreases nodes.len(),
{
    let front = nodes.drop_last();
    lemma_node_actions_len(seen, front);
    if i < front.len() {
        law_duplicate_mark(seen, front, i);
        assert(front.take(i) =~= nodes.take(i));
    } else {
        lemma_ids_after(seen, front, nodes[i].id);
        assert(front =~= nodes.take(i));
    }
}

proof fn lemma_node_actions_len(seen: Set<Seq<char>>, nodes: Seq<NodeView>)
    ensures
        sync::node_actions(seen, nodes).len() == nodes.len(),
    decreases nodes.len(),
{
    if nodes.len() > 0 {
        lemma_node_actions_len(seen, nodes.drop_last());
    }
}

proof fn lemma_ids_after(seen: Set<Seq<char>>, nodes: Seq<NodeView>, id: Seq<char>)
    ensures
        sync::ids_after(seen, nodes).contains(id) <==> seen.contains(id) || note::has_node(
            nodes,
            id,
        ),
    decreases nodes.len(),
{
    if nodes.len() > 0 {
        let front = nodes.drop_last();
        let n = front.len() as int;
        lemma_ids_after(seen, front, id);
        if note::has_node(front, id) {
            let k = choose|k: int| 0 <= k < front.len() && (#[trigger] front[k]).id == id;
            assert(nodes[k].id == id);
        }
        if note::has_node(nodes, id) {
            let k = choose|k: int| 0 <= k < nodes.len() && (#[trigger] nodes[k]).id == id;
            if k < n {
                assert(front[k].id == id);
            }
        }
        if nodes.last().id == id {
            assert(nodes[n].id == id);
        }
    }
}

/// The row that is stored about a note, as the database is read: its path and
/// its hash, both printed.
pub open spec fn row_of(file: FileView) -> (Seq<char>, Seq<char>) {
    (lisp::lisp_form(file.path), lisp::lisp_form(file.hash))
}

/// Tells whether a sync has written a row, about a path and a hash that are
/// printed without escapes.
pub open spec fn is_plain_row(row: (Seq<char>, Seq<char>)) -> bool {
    let path = lisp::unquoted(row.0);
    let hash = lisp::unquoted(row.1);
    &&& lisp::escaped(path) == path
    &&& lisp::escaped(hash) == hash
    &&& row == (lisp::lisp_form(path), lisp::lisp_form(hash))
}

/// Tells whether `rows` lists the files of the database with their hashes.
pub open spec fn lists(rows: Seq<(Seq<char>, Seq<char>)>, files: Map<Seq<char>, FileRow>) -> bool {
    &&& forall|key: Seq<char>| #[trigger] files.contains_key(key) <==> table::has_key(rows, key)
    &&& forall|i: int|
        0 <= i < rows.len() ==> files[(#[trigger] rows[i]).0].hash == rows[i].1
}

/// The row of a file that is written about a note. The times are not kept.
pub open spec fn written_row(file: ParsedView) -> FileRow {
    FileRow {
        title: lisp::lisp_form(file.title),
        hash: lisp::lisp_form(file.hash),
        atime: "(0 0 0 0)"@,
        mtime: "(0 0 0 0)"@,
    }
}

/// The keys of the loaded table are distinct, and each entry comes from a row.
proof fn lemma_stored_files(rows: Seq<(Seq<char>, Seq<char>)>, key: Seq<char>)
    ensures
        table::distinct_keys(sync::stored_files(rows)),
        table::lookup(sync::stored_files(rows), key) matches Some(v) ==> exists|i: int|
            0 <= i < rows.len() && lisp::unquoted((#[trigger] rows[i]).0) == key && lisp::unquoted(
                rows[i].1,
            ) == v,
        table::lookup(sync::stored_files(rows), key) is None ==> forall|i: int|
            0 <= i < rows.len() ==> lisp::unquoted((#[trigger] rows[i]).0) != key,
    decreases rows.len(),
{
    if rows.len() > 0 {
        let front = rows.drop_last();
        let n = front.len() as int;
        let last_key = lisp::unquoted(rows.last().0);
        let last_value = lisp::unquoted(rows.last().1);
        lemma_stored_files(front, key);
        table::law_put_then_lookup(sync::stored_files(front), last_key, last_value, key);
        if key == last_key {
            assert(lisp::unquoted(rows[n].0) == key && lisp::unquoted(rows[n].1) == last_value);
        } else {
            if let Some(v) = table::lookup(sync::stored_files(front), key) {
                let i = choose|i: int|
                    0 <= i < front.len() && lisp::unquoted((#[trigger] front[i]).0) == key
                        && lisp::unquoted(front[i].1) == v;
                assert(lisp::unquoted(rows[i].0) == key && lisp::unquoted(rows[i].1) == v);
            } else {
                assert forall|i: int| 0 <= i < rows.len() implies lisp::unquoted(
                    (#[trigger] rows[i]).0,
                ) != key by {
                    if i < n {
                        assert(lisp::unquoted(front[i].0) != key);
                    }
                }
            }
        }
    }
}

/// The positions of the modified notes are increasing, and they are those of
/// the notes that are not current.
pub proof fn law_modified_notes_are_found(
    current: Seq<(Seq<char>, Seq<char>)>,
    files: Seq<FileView>,
)
    requires
        files.len() <= usize::MAX,
    ensures
        forall|k: int|
            0 <= k < sync::modified_in(current, files).len() ==> (#[trigger] sync::modified_in(
                current,
                files,
            )[k]) < files.len() && !sync::is_current(
                current,
                files[sync::modified_in(current, files)[k] as int],
            ),
        forall|k: int, l: int|
            0 <= k < l < sync::modified_in(current, files).len() ==> (#[trigger] sync::modified_in(
                current,
                files,
            )[k]) < (#[trigger] sync::modified_in(current, files)[l]),
        forall|i: int|
            0 <= i < files.len() && !sync::is_current(current, #[trigger] files[i])
                ==> sync::modified_in(current, files).contains(i as usize),
    decreases files.len(),
{
    let all = sync::modified_in(current, files);
    if files.len() > 0 {
        let front = files.drop_last();
        let n = front.len() as int;
        let before = sync::modified_in(current, front);
        law_modified_notes_are_found(current, front);
        assert forall|k: int| 0 <= k < all.len() implies (#[trigger] all[k]) < files.len()
            && !sync::is_current(current, files[all[k] as int]) by {
            if k < before.len() {
                assert(all[k] == before[k]);
                assert(files[before[k] as int] == front[before[k] as int]);
            }
        }
        assert forall|k: int, l: int| 0 <= k < l < all.len() implies (#[trigger] all[k]) < (
        #[trigger] all[l]) by {
            assert(all[k] == before[k]);
            if l < before.len() {
                assert(all[l] == before[l]);
            }
        }
        assert forall|i: int|
            0 <= i < files.len() && !sync::is_current(
                current,
                #[trigger] files[i],
            ) implies all.contains(i as usize) by {
            if i < n {
                assert(front[i] == files[i]);
                let k = choose|k: int| 0 <= k < before.len() && before[k] == i as usize;
                assert(all[k] == i as usize);
            } else {
                assert(all[before.len() as int] == i as usize);
            }
        }
    }
}

/// The removed paths are those that are known and at which no note lies.
pub proof fn law_removed_paths_are_found(
    current: Seq<(Seq<char>, Seq<char>)>,
    files: Seq<FileView>,
    path: Seq<char>,
)
    ensures
        sync::removed_from(current, files).contains(path) <==> table::has_key(current, path)
            && !sync::has_path(files, path),
    decreases current.len(),
{
    let all = sync::removed_from(current, files);
    if current.len() > 0 {
        let front = current.drop_last();
        let n = front.len() as int;
        let before = sync::removed_from(front, files);
        law_removed_paths_are_found(front, files, path);
        if table::has_key(front, path) {
            let i = choose|i: int| 0 <= i < front.len() && #[trigger] front[i].0 == path;
            assert(current[i].0 == path);
        }
        if table::has_key(current, path) {
            let i = choose|i: int| 0 <= i < current.len() && #[trigger] current[i].0 == path;
            if i < n {
                assert(front[i].0 == path);
            }
        }
        if current.last().0 == path {
            assert(current[n].0 == path);
        }
        if before.contains(path) {
            let k = choose|k: int| 0 <= k < before.len() && before[k] == path;
            assert(all[k] == path);
        }
        if all.contains(path) {
            let k = choose|k: int| 0 <= k < all.len() && all[k] == path;
            if k < before.len() {
                assert(before[k] == path);
            }
        }
        if !sync::has_path(files, current.last().0) {
            assert(all[before.len() as int] == current.last().0);
        }
    }
}

/// A sync that finds every note stored as it is, and nothing else stored, has
/// nothing to do.
pub proof fn law_unchanged_notes_need_no_work(
    rows: Seq<(Seq<char>, Seq<char>)>,
    files: Seq<FileView>,
)
    requires
        files.len() <= usize::MAX,
        forall|i: int|
            0 <= i < files.len() ==> lisp::escaped((#[trigger] files[i]).path) == files[i].path
                && lisp::escaped(files[i].hash) == files[i].hash,
        forall|i: int, j: int|
            0 <= i < j < files.len() ==> (#[trigger] files[i]).path != (#[trigger] files[j]).path,
        forall|i: int|
            0 <= i < rows.len() ==> exists|j: int|
                0 <= j < files.len() && #[trigger] rows[i] == row_of(#[trigger] files[j]),
        forall|j: int|
            0 <= j < files.len() ==> exists|i: int|
                0 <= i < rows.len() && #[trigger] rows[i] == row_of(#[trigger] files[j]),
    ensures
        sync::modified_in(sync::stored_files(rows), files).len() == 0,
        sync::removed_from(sync::stored_files(rows), files).len() == 0,
{
    let current = sync::stored_files(rows);
    assert forall|j: int| 0 <= j < files.len() implies sync::is_current(
        current,
        #[trigger] files[j],
    ) by {
        let path = files[j].path;
        lemma_stored_files(rows, path);
        let i = choose|i: int| 0 <= i < rows.len() && #[trigger] rows[i] == row_of(files[j]);
        lisp::law_unquote_printed(path);
        lisp::law_unquote_printed(files[j].hash);
        assert(lisp::unquoted(rows[i].0) == path);
        let v = table::lookup(current, path)->0;
        let k = choose|k: int|
            0 <= k < rows.len() && lisp::unquoted((#[trigger] rows[k]).0) == path && lisp::unquoted(
                rows[k].1,
            ) == v;
        let l = choose|l: int|
            0 <= l < files.len() && rows[k] == row_of(#[trigger] files[l]);
        lisp::law_unquote_printed(files[l].path);
        lisp::law_unquote_printed(files[l].hash);
        assert(files[l].path == path);
        assert(l == j) by {
            if l < j {
                assert(files[l].path != files[j].path);
            } else if j < l {
                assert(files[j].path != files[l].path);
            }
        }
    }
    law_modified_notes_are_found(current, files);
    let modified = sync::modified_in(current, files);
    if modified.len() > 0 {
        assert(!sync::is_current(current, files[modified[0] as int]));
    }
    let removed = sync::removed_from(current, files);
    if removed.len() > 0 {
        let path = removed[0];
        law_removed_paths_are_found(current, files, path);
        lemma_stored_files(rows, path);
        table::lemma_lookup(current, path);
        let v = table::lookup(current, path)->0;
        let k = choose|k: int|
            0 <= k < rows.len() && lisp::unquoted((#[trigger] rows[k]).0) == path && lisp::unquoted(
                rows[k].1,
            ) == v;
        let l = choose|l: int| 0 <= l < files.len() && rows[k] == row_of(#[trigger] files[l]);
        lisp::law_unquote_printed(files[l].path);
        assert(files[l].path == path);
        assert(sync::has_path(files, path));
    }
}

/// Where the database lists no files, as after it was deleted, a sync removes
/// nothing and takes every note.
pub proof fn law_first_sync_takes_every_note(files: Seq<FileView>)
    requires
        files.len() <= usize::MAX,
    ensures
        sync::removed_from(sync::stored_files(seq![]), files).len() == 0,
        sync::modified_in(sync::stored_files(seq![]), files) == Seq::new(
            files.len(),
            |i: int| i as usize,
        ),
    decreases files.len(),
{
    if files.len() > 0 {
        let front = files.drop_last();
        law_first_sync_takes_every_note(front);
        assert(Seq::new(files.len(), |i: int| i as usize) =~= Seq::new(
            front.len(),
            |i: int| i as usize,
        ).push(front.len() as usize));
    }
}

/// Inserting nodes, tags and aliases does not touch the rows of the files.
proof fn lemma_inserts_keep_files(db: DbView, actions: Seq<ActionView>)
    requires
        forall|i: int|
            0 <= i < actions.len() ==> (#[trigger] actions[i]) is InsertNode || actions[i]
                is InsertTag || actions[i] is InsertAlias,
    ensures
        apply_all(db, actions).files == db.files,
    decreases actions.len(),
{
    if actions.len() > 0 {
        let front = actions.drop_last();
        assert forall|i: int| 0 <= i < front.len() implies (#[trigger] front[i]) is InsertNode
            || front[i] is InsertTag || front[i] is InsertAlias by {
            assert(front[i] == actions[i]);
        }
        assert(actions[actions.len() - 1] is InsertNode || actions[actions.len() - 1] is InsertTag
            || actions[actions.len() - 1] is InsertAlias);
        lemma_inserts_keep_files(db, front);
    }
}

proof fn lemma_node_actions_insert(seen: Set<Seq<char>>, nodes: Seq<NodeView>)
    ensures
        forall|i: int|
            0 <= i < sync::node_actions(seen, nodes).len() ==> (#[trigger] sync::node_actions(
                seen,
                nodes,
            )[i]) is InsertNode,
    decreases nodes.len(),
{
    if nodes.len() > 0 {
        lemma_node_actions_insert(seen, nodes.drop_last());
    }
}

/// Writing a note sets the row of its file.
proof fn lemma_file_actions(db: DbView, seen: Set<Seq<char>>, file: ParsedView)
    ensures
        apply_all(db, sync::file_actions(seen, file)).files == db.files.insert(
            lisp::lisp_form(file.path),
            written_row(file),
        ),
{
    let deletes = sync::delete_actions(file.path);
    let head = deletes.push(sync::insert_file_action(file));
    let inserts = sync::node_actions(seen, file.rows.nodes) + sync::tag_actions(file.rows.tags)
        + sync::alias_actions(file.rows.aliases);
    assert(sync::file_actions(seen, file) =~= head + inserts);
    lemma_apply_sum(db, head, inserts);
    lemma_node_actions_insert(seen, file.rows.nodes);
    assert forall|i: int| 0 <= i < inserts.len() implies (#[trigger] inserts[i]) is InsertNode
        || inserts[i] is InsertTag || inserts[i] is InsertAlias by {
        let nodes = sync::node_actions(seen, file.rows.nodes);
        let tags = sync::tag_actions(file.rows.tags);
        let aliases = sync::alias_actions(file.rows.aliases);
        if i < nodes.len() {
            assert(inserts[i] == nodes[i]);
        } else if i < nodes.len() + tags.len() {
            assert(inserts[i] == tags[i - nodes.len()]);
        } else {
            assert(inserts[i] == aliases[i - nodes.len() - tags.len()]);
        }
    }
    lemma_inserts_keep_files(apply_all(db, head), inserts);
    lemma_deletes(db, file.path);
    assert(head.drop_last() =~= deletes);
    assert(apply_all(db, head).files =~= db.files.insert(
        lisp::lisp_form(file.path),
        written_row(file),
    ));
}

/// Deleting what is stored about paths takes their rows away and no others.
proof fn lemma_removal_actions(db: DbView, removed: Seq<Seq<char>>, key: Seq<char>)
    ensures
        apply_all(db, sync::removal_actions(removed)).files.contains_key(key)
            <==> db.files.contains_key(key) && !has_printed(removed, key),
        apply_all(db, sync::removal_actions(removed)).files.contains_key(key) ==> apply_all(
            db,
            sync::removal_actions(removed),
        ).files[key] == db.files[key],
    decreases removed.len(),
{
    if removed.len() > 0 {
        let front = removed.drop_last();
        let n = front.len() as int;
        lemma_removal_actions(db, front, key);
        lemma_apply_sum(db, sync::removal_actions(front), sync::delete_actions(removed.last()));
        lemma_deletes(apply_all(db, sync::removal_actions(front)), removed.last());
        if has_printed(front, key) {
            let i = choose|i: int|
                0 <= i < front.len() && lisp::lisp_form(#[trigger] front[i]) == key;
            assert(lisp::lisp_form(removed[i]) == key);
        }
        if has_printed(removed, key) {
            let i = choose|i: int|
                0 <= i < removed.len() && lisp::lisp_form(#[trigger] removed[i]) == key;
            if i < n {
                assert(lisp::lisp_form(front[i]) == key);
            }
        }
        if lisp::lisp_form(removed.last()) == key {
            assert(lisp::lisp_form(removed[n]) == key);
        }
    }
}

/// Writing notes sets the rows of their files and of no others.
proof fn lemma_write_actions(
    db: DbView,
    seen: Set<Seq<char>>,
    parsed: Seq<ParsedView>,
    key: Seq<char>,
)
    ensures
        apply_all(db, sync::write_actions(seen, parsed)).files.contains_key(key)
            <==> db.files.contains_key(key) || is_written(parsed, key),
        !is_written(parsed, key) && db.files.contains_key(key) ==> apply_all(
            db,
            sync::write_actions(seen, parsed),
        ).files[key] == db.files[key],
        is_written(parsed, key) ==> exists|i: int|
            0 <= i < parsed.len() && lisp::lisp_form((#[trigger] parsed[i]).path) == key
                && apply_all(db, sync::write_actions(seen, parsed)).files[key] == written_row(
                parsed[i],
            ),
    decreases parsed.len(),
{
    if parsed.len() > 0 {
        let front = parsed.drop_last();
        let n = front.len() as int;
        let last = parsed.last();
        let mid = apply_all(db, sync::write_actions(seen, front));
        lemma_write_actions(db, seen, front, key);
        lemma_apply_sum(
            db,
            sync::write_actions(seen, front),
            sync::file_actions(sync::ids_after_all(seen, front), last),
        );
        lemma_file_actions(mid, sync::ids_after_all(seen, front), last);
        if is_written(front, key) {
            let i = choose|i: int|
                0 <= i < front.len() && lisp::lisp_form((#[trigger] front[i]).path) == key
                    && mid.files[key] == written_row(front[i]);
            assert(lisp::lisp_form(parsed[i].path) == key);
            assert(parsed[i] == front[i]);
        }
        if is_written(parsed, key) {
            let i = choose|i: int|
                0 <= i < parsed.len() && lisp::lisp_form((#[trigger] parsed[i]).path) == key;
            if i < n {
                assert(lisp::lisp_form(front[i].path) == key);
            }
        }
        if lisp::lisp_form(last.path) == key {
            assert(lisp::lisp_form(parsed[n].path) == key);
        }
    }
}

/// Tells whether `parsed` are the notes among `files` that are new or changed
/// against the stored `rows`. The rows were written by earlier syncs about
/// paths that need no escapes, and no two notes are printed under one path.
pub open spec fn follows_plan(
    rows: Seq<(Seq<char>, Seq<char>)>,
    files: Seq<FileView>,
    parsed: Seq<ParsedView>,
) -> bool {
    let modified = sync::modified_in(sync::stored_files(rows), files);
    &&& files.len() <= usize::MAX
    &&& table::distinct_keys(rows)
    &&& forall|i: int| 0 <= i < rows.len() ==> is_plain_row(#[trigger] rows[i])
    &&& forall|i: int, j: int|
        0 <= i < j < files.len() ==> lisp::lisp_form((#[trigger] files[i]).path)
            != lisp::lisp_form((#[trigger] files[j]).path)
    &&& parsed.len() == modified.len()
    &&& forall|k: int|
        0 <= k < parsed.len() ==> (#[trigger] parsed[k]).path == files[modified[k] as int].path
            && parsed[k].hash == files[modified[k] as int].hash
}

/// A note that is stored as it is, is neither removed nor written.
proof fn lemma_current_is_left(
    stored: Map<Seq<char>, FileRow>,
    rows: Seq<(Seq<char>, Seq<char>)>,
    files: Seq<FileView>,
    parsed: Seq<ParsedView>,
    i: int,
)
    requires
        lists(rows, stored),
        follows_plan(rows, files, parsed),
        0 <= i < files.len(),
        sync::is_current(sync::stored_files(rows), files[i]),
    ensures
        ({
            let key = lisp::lisp_form(files[i].path);
            &&& !has_printed(sync::removed_from(sync::stored_files(rows), files), key)
            &&& !is_written(parsed, key)
            &&& stored.contains_key(key)
            &&& stored[key].hash == lisp::lisp_form(files[i].hash)
        }),
{
    let current = sync::stored_files(rows);
    let modified = sync::modified_in(current, files);
    let removed = sync::removed_from(current, files);
    let path = files[i].path;
    let key = lisp::lisp_form(path);
    law_modified_notes_are_found(current, files);
    if is_written(parsed, key) {
        let k = choose|k: int|
            0 <= k < parsed.len() && lisp::lisp_form((#[trigger] parsed[k]).path) == key;
        let j = modified[k] as int;
        assert(lisp::lisp_form(files[j].path) == key);
        if i < j {
            assert(lisp::lisp_form(files[i].path) != lisp::lisp_form(files[j].path));
        } else if j < i {
            assert(lisp::lisp_form(files[j].path) != lisp::lisp_form(files[i].path));
        }
    }
    lemma_stored_files(rows, path);
    let r = choose|r: int|
        0 <= r < rows.len() && lisp::unquoted((#[trigger] rows[r]).0) == path && lisp::unquoted(
            rows[r].1,
        ) == files[i].hash;
    assert(is_plain_row(rows[r]));
    assert(rows[r] == row_of(files[i]));
    assert(rows[r].0 == key);
    assert(table::has_key(rows, key));
    if has_printed(removed, key) {
        let q = choose|q: int|
            0 <= q < removed.len() && lisp::lisp_form(#[trigger] removed[q]) == key;
        let gone = removed[q];
        assert(removed.contains(gone));
        law_removed_paths_are_found(current, files, gone);
        lemma_plain_key(rows, gone);
        lisp::law_unquote_printed(gone);
        lisp::law_unquote_printed(path);
        assert(lisp::escaped(path) == path);
        assert(gone == path);
        assert(sync::has_path(files, gone));
    }
}

/// After a sync the database lists exactly the notes on disk, each with its
/// hash.
pub proof fn law_sync_mirrors_the_notes(
    db: DbView,
    rows: Seq<(Seq<char>, Seq<char>)>,
    files: Seq<FileView>,
    parsed: Seq<ParsedView>,
    key: Seq<char>,
)
    requires
        lists(rows, db.files),
        follows_plan(rows, files, parsed),
    ensures
        ({
            let removed = sync::removed_from(sync::stored_files(rows), files);
            let after = apply_all(db, sync::sync_actions(removed, parsed)).files;
            &&& after.contains_key(key) <==> exists|i: int|
                0 <= i < files.len() && lisp::lisp_form((#[trigger] files[i]).path) == key
            &&& forall|i: int|
                0 <= i < files.len() && lisp::lisp_form((#[trigger] files[i]).path) == key
                    ==> after[key].hash == lisp::lisp_form(files[i].hash)
        }),
{
    let current = sync::stored_files(rows);
    let modified = sync::modified_in(current, files);
    let removed = sync::removed_from(current, files);
    let mid = apply_all(db, sync::removal_actions(removed));
    let after = apply_all(db, sync::sync_actions(removed, parsed));
    lemma_apply_sum(
        db,
        sync::removal_actions(removed),
        sync::write_actions(Set::empty(), parsed),
    );
    lemma_removal_actions(db, removed, key);
    lemma_write_actions(mid, Set::empty(), parsed, key);
    law_modified_notes_are_found(current, files);

    // A note under the key: it is either written anew or stored as it is.
    assert forall|i: int|
        0 <= i < files.len() && lisp::lisp_form(
            (#[trigger] files[i]).path,
        ) == key implies after.files.contains_key(key) && after.files[key].hash == lisp::lisp_form(
        files[i].hash,
    ) by {
        if sync::is_current(current, files[i]) {
            lemma_current_is_left(db.files, rows, files, parsed, i);
        } else {
            let l = choose|l: int| 0 <= l < modified.len() && modified[l] == i as usize;
            assert(parsed[l].path == files[i].path);
            assert(is_written(parsed, key));
            let k = choose|k: int|
                0 <= k < parsed.len() && lisp::lisp_form((#[trigger] parsed[k]).path) == key
                    && after.files[key] == written_row(parsed[k]);
            let j = modified[k] as int;
            assert(lisp::lisp_form(files[j].path) == key);
            assert(i == j) by {
                if i < j {
                    assert(lisp::lisp_form(files[i].path) != lisp::lisp_form(files[j].path));
                } else if j < i {
                    assert(lisp::lisp_form(files[j].path) != lisp::lisp_form(files[i].path));
                }
            }
        }
    }

    // A key without a note: if it was stored, it is gone.
    if after.files.contains_key(key) {
        if is_written(parsed, key) {
            let k = choose|k: int|
                0 <= k < parsed.len() && lisp::lisp_form((#[trigger] parsed[k]).path) == key;
            assert(lisp::lisp_form(files[modified[k] as int].path) == key);
        } else {
            assert(table::has_key(rows, key));
            let t = choose|t: int| 0 <= t < rows.len() && #[trigger] rows[t].0 == key;
            assert(is_plain_row(rows[t]));
            let path = lisp::unquoted(rows[t].0);
            lemma_stored_files(rows, path);
            table::lemma_lookup(current, path);
            law_removed_paths_are_found(current, files, path);
            if !sync::has_path(files, path) {
                let q = choose|q: int| 0 <= q < removed.len() && removed[q] == path;
                assert(lisp::lisp_form(removed[q]) == key);
                assert(has_printed(removed, key));
            }
            let i = choose|i: int| 0 <= i < files.len() && (#[trigger] files[i]).path == path;
            assert(lisp::lisp_form(files[i].path) == key);
        }
    }
}

/// A note that is not modified keeps its row through a sync, and its nodes with
/// their tags and aliases, but for IDs that a written note uses.
pub proof fn law_unmodified_notes_stay(
    db: DbView,
    rows: Seq<(Seq<char>, Seq<char>)>,
    files: Seq<FileView>,
    parsed: Seq<ParsedView>,
    i: int,
    id: Seq<char>,
)
    requires
        lists(rows, db.files),
        follows_plan(rows, files, parsed),
        are_coherent(parsed),
        0 <= i < files.len(),
        sync::is_current(sync::stored_files(rows), files[i]),
    ensures
        ({
                    let removed = sync::removed_from(sync::stored_files(rows), files);
            let after = apply_all(db, sync::sync_actions(removed, parsed));
            let key = lisp::lisp_form(files[i].path);
            &&& after.files.contains_key(key)
            &&& after.files[key] == db.files[key]
            &&& entry(db, id) is Some && entry(db, id)->0.node.file == key && !is_used(parsed, id)
                ==> entry(after, id) == entry(db, id)
        }),
{
    let removed = sync::removed_from(sync::stored_files(rows), files);
    let key = lisp::lisp_form(files[i].path);
    lemma_current_is_left(db.files, rows, files, parsed, i);
    lemma_apply_sum(
        db,
        sync::removal_actions(removed),
        sync::write_actions(Set::empty(), parsed),
    );
    lemma_removal_actions(db, removed, key);
    lemma_write_actions(
        apply_all(db, sync::removal_actions(removed)),
        Set::empty(),
        parsed,
        key,
    );
    if !is_used(parsed, id) {
        law_unused_ids_stay_with_their_file(db, removed, parsed, id);
    }
}

/// Every note that is written ends up with a row of its own title and hash.
pub proof fn law_written_notes_have_their_rows(
    db: DbView,
    removed: Seq<Seq<char>>,
    parsed: Seq<ParsedView>,
    k: int,
)
    requires
        are_coherent(parsed),
        0 <= k < parsed.len(),
    ensures
        ({
            let after = apply_all(db, sync::sync_actions(removed, parsed)).files;
            let key = lisp::lisp_form(parsed[k].path);
            after.contains_key(key) && after[key] == written_row(parsed[k])
        }),
{
    let mid = apply_all(db, sync::removal_actions(removed));
    let after = apply_all(db, sync::sync_actions(removed, parsed)).files;
    let key = lisp::lisp_form(parsed[k].path);
    lemma_apply_sum(
        db,
        sync::removal_actions(removed),
        sync::write_actions(Set::empty(), parsed),
    );
    lemma_write_actions(mid, Set::empty(), parsed, key);
    assert(is_written(parsed, key));
    let i = choose|i: int|
        0 <= i < parsed.len() && lisp::lisp_form((#[trigger] parsed[i]).path) == key && after[key]
            == written_row(parsed[i]);
    assert(i == k) by {
        if i < k {
            assert(lisp::lisp_form(parsed[i].path) != lisp::lisp_form(parsed[k].path));
        } else if k < i {
            assert(lisp::lisp_form(parsed[k].path) != lisp::lisp_form(parsed[i].path));
        }
    }
}

/// Whenever a node of a note is inserted, the row of its file is there, and
/// whenever a tag or an alias is inserted, the node that it belongs to.
pub proof fn law_rows_find_what_they_refer_to(
    db: DbView,
    seen: Set<Seq<char>>,
    file: FileView,
    title: Seq<char>,
    found: Seq<ElementView>,
    k: int,
)
    requires
        0 <= k < sync::file_actions(seen, sync::parsed_as(file, title, found)).len(),
    ensures
        ({
            let actions = sync::file_actions(seen, sync::parsed_as(file, title, found));
            let before = apply_all(db, actions.take(k));
            &&& actions[k] matches ActionView::InsertNode { node, duplicate }
                ==> before.files.contains_key(node.file)
            &&& actions[k] matches ActionView::InsertTag { tag } ==> before.nodes.contains_key(
                tag.node_id,
            )
            &&& actions[k] matches ActionView::InsertAlias { alias } ==> before.nodes.contains_key(
                alias.node_id,
            )
        }),
{
    let parsed = sync::parsed_as(file, title, found);
    let rows = parsed.rows;
    let actions = sync::file_actions(seen, parsed);
    let head = sync::delete_actions(file.path).push(sync::insert_file_action(parsed));
    let nodes = sync::node_actions(seen, rows.nodes);
    let tags = sync::tag_actions(rows.tags);
    let aliases = sync::alias_actions(rows.aliases);
    let a = apply_all(db, head);
    let b = apply_all(a, nodes);
    note::law_note_rows_are_coherent(file.path, file.content, Some(title), found);
    lemma_node_actions_insert(seen, rows.nodes);
    lemma_node_actions_len(seen, rows.nodes);
    assert(head.drop_last() =~= sync::delete_actions(file.path));
    lemma_apply_sum(db, head, nodes);
    assert forall|i: int| 0 <= i < rows.nodes.len() implies a.files.contains_key(
        (#[trigger] rows.nodes[i]).file,
    ) by {
        assert(rows.nodes[i].file == lisp::lisp_form(file.path));
    }
    let from_nodes = k - head.len();
    let from_tags = from_nodes - nodes.len();
    let from_aliases = from_tags - tags.len();
    if from_nodes < 0 {
        assert(actions[k] == head[k]);
    } else if from_tags < 0 {
        assert(actions[k] == nodes[from_nodes]);
        law_duplicate_mark(seen, rows.nodes, from_nodes);
        let some_nodes = nodes.take(from_nodes);
        assert(actions.take(k) =~= head + some_nodes);
        lemma_apply_sum(db, head, some_nodes);
        lemma_inserts_keep_files(a, some_nodes);
    } else if from_aliases < 0 {
        let id = rows.tags[from_tags].node_id;
        let some_tags = rows.tags.take(from_tags);
        assert(actions[k] == tags[from_tags]);
        assert(tags[from_tags] == ActionView::InsertTag { tag: rows.tags[from_tags] });
        assert(actions.take(k) =~= (head + nodes) + sync::tag_actions(some_tags));
        lemma_apply_sum(db, head + nodes, sync::tag_actions(some_tags));
        lemma_node_actions(a, seen, rows.nodes, id);
        lemma_last_node(rows.nodes, id);
        lemma_tag_actions(b, some_tags, id);
    } else {
        let id = rows.aliases[from_aliases].node_id;
        let some_aliases = rows.aliases.take(from_aliases);
        assert(actions[k] == aliases[from_aliases]);
        assert(aliases[from_aliases] == ActionView::InsertAlias {
            alias: rows.aliases[from_aliases],
        });
        assert(actions.take(k) =~= ((head + nodes) + tags) + sync::alias_actions(some_aliases));
        lemma_apply_sum(db, (head + nodes) + tags, sync::alias_actions(some_aliases));
        lemma_apply_sum(db, head + nodes, tags);
        lemma_node_actions(a, seen, rows.nodes, id);
        lemma_last_node(rows.nodes, id);
        lemma_tag_actions(b, rows.tags, id);
        lemma_alias_actions(apply_all(b, tags), some_aliases, id);
    }
}

/// A path that was loaded from plain rows is printed without escapes.
proof fn lemma_plain_key(rows: Seq<(Seq<char>, Seq<char>)>, path: Seq<char>)
    requires
        forall|i: int| 0 <= i < rows.len() ==> is_plain_row(#[trigger] rows[i]),
        table::has_key(sync::stored_files(rows), path),
    ensures
        lisp::escaped(path) == path,
{
    lemma_stored_files(rows, path);
    table::lemma_lookup(sync::stored_files(rows), path);
    let v = table::lookup(sync::stored_files(rows), path)->0;
    let i = choose|i: int|
        0 <= i < rows.len() && lisp::unquoted((#[trigger] rows[i]).0) == path && lisp::unquoted(
            rows[i].1,
        ) == v;
    assert(is_plain_row(rows[i]));
}

/// A note has to be written unless the database knows its path with just its
/// hash.
pub proof fn law_note_is_written_unless_known_as_it_is(
    current: Seq<(Seq<char>, Seq<char>)>,
    files: Seq<FileView>,
    i: int,
)
    requires
        0 <= i < files.len() <= usize::MAX,
    ensures
        sync::modified_in(current, files).contains(i as usize) <==> table::lookup(
            current,
            files[i].path,
        ) != Some(files[i].hash),
{
    let all = sync::modified_in(current, files);
    law_modified_notes_are_found(current, files);
    if all.contains(i as usize) {
        let k = choose|k: int| 0 <= k < all.len() && all[k] == i as usize;
        assert(!sync::is_current(current, files[all[k] as int]));
    }
    assert(!sync::is_current(current, files[i]) ==> all.contains(i as usize));
}

/// A path is deleted if the database knows it and no note lies there, and only
/// then; no path is deleted twice.
pub proof fn law_path_is_deleted_if_no_note_lies_there(
    current: Seq<(Seq<char>, Seq<char>)>,
    files: Seq<FileView>,
    path: Seq<char>,
)
    ensures
        sync::removed_from(current, files).contains(path) <==> table::lookup(current, path) is Some
            && forall|i: int| 0 <= i < files.len() ==> (#[trigger] files[i]).path != path,
        table::distinct_keys(current) ==> sync::removed_from(current, files).no_duplicates(),
    decreases current.len(),
{
    table::lemma_lookup(current, path);
    law_removed_paths_are_found(current, files, path);
    if sync::has_path(files, path) {
        let i = choose|i: int| 0 <= i < files.len() && (#[trigger] files[i]).path == path;
        assert(files[i].path == path);
    }
    if current.len() > 0 && table::distinct_keys(current) {
        let front = current.drop_last();
        let key = current.last().0;
        let before = sync::removed_from(front, files);
        law_path_is_deleted_if_no_note_lies_there(front, files, path);
        assert(!before.contains(key)) by {
            law_removed_paths_are_found(front, files, key);
            if table::has_key(front, key) {
                let i = choose|i: int| 0 <= i < front.len() && #[trigger] front[i].0 == key;
                assert(current[i].0 != current[current.len() - 1].0);
            }
        }
    }
}

} // verus!
