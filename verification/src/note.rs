//! The rows that a note contributes to the database: its nodes, their tags and
//! their aliases.

use vstd::prelude::*;
use vstd::utf8::*;

use crate::keyword;
use crate::lisp;
use crate::lisp::{format_olp, format_properties, lisp_str};
use crate::outline;
use crate::outline::{
    ElementView, FoundElement, HeadlineData, HeadlineView, Syntax, SyntaxNode, SyntaxView, TreeView,
};
use crate::path;
use crate::table;
use crate::table::StringTable;
use crate::text;

verus! {

/// A row about a node: a note, or a heading in one, that has an ID. The strings
/// are printed Lisp data.
#[derive(Debug)]
pub struct Node {
    pub id: String,
    pub file: String,
    pub level: i64,
    pub pos: i64,
    pub todo: Option<String>,
    pub priority: Option<String>,
    pub title: String,
    pub properties: String,
    pub olp: String,
}

/// A row that gives a node a tag.
#[derive(Debug)]
pub struct Tag {
    pub node_id: String,
    pub tag: String,
}

/// A row that gives a node an alias.
#[derive(Debug)]
pub struct Alias {
    pub node_id: String,
    pub alias: String,
}

/// The rows about one note.
#[derive(Debug)]
pub struct Rows {
    pub nodes: Vec<Node>,
    pub tags: Vec<Tag>,
    pub aliases: Vec<Alias>,
}

/// The model of `Node`.
pub struct NodeView {
    pub id: Seq<char>,
    pub file: Seq<char>,
    pub level: int,
    pub pos: int,
    pub todo: Option<Seq<char>>,
    pub priority: Option<Seq<char>>,
    pub title: Seq<char>,
    pub properties: Seq<char>,
    pub olp: Seq<char>,
}

/// The model of `Tag`.
pub struct TagView {
    pub node_id: Seq<char>,
    pub tag: Seq<char>,
}

/// The model of `Alias`.
pub struct AliasView {
    pub node_id: Seq<char>,
    pub alias: Seq<char>,
}

/// The model of `Rows`.
#[verifier::ext_equal]
pub struct RowsView {
    pub nodes: Seq<NodeView>,
    pub tags: Seq<TagView>,
    pub aliases: Seq<AliasView>,
}

impl View for Node {
    type V = NodeView;

    open spec fn view(&self) -> NodeView {
        NodeView {
            id: self.id@,
            file: self.file@,
            level: self.level as int,
            pos: self.pos as int,
            todo: self.todo.deep_view(),
            priority: self.priority.deep_view(),
            title: self.title@,
            properties: self.properties@,
            olp: self.olp@,
        }
    }
}

impl View for Tag {
    type V = TagView;

    open spec fn view(&self) -> TagView {
        TagView { node_id: self.node_id@, tag: self.tag@ }
    }
}

impl View for Alias {
    type V = AliasView;

    open spec fn view(&self) -> AliasView {
        AliasView { node_id: self.node_id@, alias: self.alias@ }
    }
}

/// The models of several nodes.
pub open spec fn node_views(nodes: Seq<Node>) -> Seq<NodeView> {
    nodes.map_values(|n: Node| n@)
}

/// The models of several tags.
pub open spec fn tag_views(tags: Seq<Tag>) -> Seq<TagView> {
    tags.map_values(|t: Tag| t@)
}

/// The models of several aliases.
pub open spec fn alias_views(aliases: Seq<Alias>) -> Seq<AliasView> {
    aliases.map_values(|a: Alias| a@)
}

impl View for Rows {
    type V = RowsView;

    open spec fn view(&self) -> RowsView {
        RowsView {
            nodes: node_views(self.nodes@),
            tags: tag_views(self.tags@),
            aliases: alias_views(self.aliases@),
        }
    }
}

impl RowsView {
    /// No rows.
    pub open spec fn none() -> RowsView {
        RowsView { nodes: seq![], tags: seq![], aliases: seq![] }
    }

    /// These rows, and those of `other` behind them.
    pub open spec fn and(self, other: RowsView) -> RowsView {
        RowsView {
            nodes: self.nodes + other.nodes,
            tags: self.tags + other.tags,
            aliases: self.aliases + other.aliases,
        }
    }
}

/// The tags of the node with the ID `id`.
pub open spec fn tag_rows(id: Seq<char>, tags: Seq<Seq<char>>) -> Seq<TagView> {
    tags.map_values(
        |t: Seq<char>| TagView { node_id: lisp::lisp_form(id), tag: lisp::lisp_form(t) },
    )
}

/// The aliases of the node with the ID `id`.
pub open spec fn alias_rows(id: Seq<char>, aliases: Seq<Seq<char>>) -> Seq<AliasView> {
    aliases.map_values(
        |a: Seq<char>| AliasView { node_id: lisp::lisp_form(id), alias: lisp::lisp_form(a) },
    )
}

/// The alias that the properties of a node give it: the value of
/// `ROAM_ALIASES`, as a whole.
pub open spec fn property_aliases(props: Seq<(Seq<char>, Seq<char>)>) -> Seq<Seq<char>> {
    match table::lookup(props, "ROAM_ALIASES"@) {
        Some(alias) => seq![alias],
        None => seq![],
    }
}

/// The rows about a note as a whole: one node at level 0, provided that the
/// note has an ID, with the note's tags, and with the alias among its
/// properties before those on its alias line.
pub open spec fn file_rows(
    file: Seq<char>,
    title: Seq<char>,
    props: Seq<(Seq<char>, Seq<char>)>,
    aliases: Seq<Seq<char>>,
    tags: Seq<Seq<char>>,
) -> RowsView {
    match table::lookup(props, "ID"@) {
        Some(id) => RowsView {
            nodes: seq![
                NodeView {
                    id: lisp::lisp_form(id),
                    file: lisp::lisp_form(file),
                    level: 0,
                    pos: 1,
                    todo: Some("nil"@),
                    priority: Some("nil"@),
                    title: lisp::lisp_form(title),
                    properties: lisp::properties_form(props),
                    olp: "nil"@,
                },
            ],
            tags: tag_rows(id, tags),
            aliases: alias_rows(id, property_aliases(props) + aliases),
        },
        None => RowsView::none(),
    }
}

/// The rows about a heading that starts at the byte offset `start` below the
/// headings titled `above`: one node, provided that the heading has an ID.
pub open spec fn headline_rows(
    file: Seq<char>,
    start: int,
    data: HeadlineView,
    above: Seq<Seq<char>>,
    props: Seq<(Seq<char>, Seq<char>)>,
) -> RowsView {
    match table::lookup(props, "ID"@) {
        Some(id) => RowsView {
            nodes: seq![
                NodeView {
                    id: lisp::lisp_form(id),
                    file: lisp::lisp_form(file),
                    level: data.level,
                    pos: start + 1,
                    todo: Some("nil"@),
                    priority: Some("nil"@),
                    title: lisp::lisp_form(data.title),
                    properties: lisp::properties_form(props),
                    olp: lisp::olp_form(above),
                },
            ],
            tags: tag_rows(id, data.tags),
            aliases: alias_rows(id, property_aliases(props)),
        },
        None => RowsView::none(),
    }
}

/// Adds tags of the node with the ID `id`.
fn push_tags(rows: &mut Vec<Tag>, id: &str, tags: &Vec<String>)
    ensures
        tag_views(final(rows)@) == tag_views(old(rows)@) + tag_rows(id@, tags.deep_view()),
{
    let n: usize = tags.len();
    let ghost before = tag_views(rows@);
    let ghost added = tag_rows(id@, tags.deep_view());
    let mut i: usize = 0;
    assert(before + added.take(0) =~= before);
    while i < n
        invariant
            n == tags@.len(),
            added == tag_rows(id@, tags.deep_view()),
            i <= n,
            tag_views(rows@) == before + added.take(i as int),
        decreases n - i,
    {
        let row = Tag { node_id: lisp_str(id), tag: lisp_str(tags[i].as_str()) };
        let ghost so_far = rows@;
        let ghost last = row@;
        rows.push(row);
        proof {
            assert(tag_views(rows@) =~= tag_views(so_far).push(last));
            assert(added[i as int] == last);
            assert(before + added.take(i + 1) =~= (before + added.take(i as int)).push(last));
        }
        i = i + 1;
    }
    assert(added.take(n as int) =~= added);
}

/// Adds aliases of the node with the ID `id`.
fn push_aliases(rows: &mut Vec<Alias>, id: &str, aliases: &Vec<String>)
    ensures
        alias_views(final(rows)@) == alias_views(old(rows)@) + alias_rows(id@, aliases.deep_view()),
{
    let n: usize = aliases.len();
    let ghost before = alias_views(rows@);
    let ghost added = alias_rows(id@, aliases.deep_view());
    let mut i: usize = 0;
    assert(before + added.take(0) =~= before);
    while i < n
        invariant
            n == aliases@.len(),
            added == alias_rows(id@, aliases.deep_view()),
            i <= n,
            alias_views(rows@) == before + added.take(i as int),
        decreases n - i,
    {
        let row = Alias { node_id: lisp_str(id), alias: lisp_str(aliases[i].as_str()) };
        let ghost so_far = rows@;
        let ghost last = row@;
        rows.push(row);
        proof {
            assert(alias_views(rows@) =~= alias_views(so_far).push(last));
            assert(added[i as int] == last);
            assert(before + added.take(i + 1) =~= (before + added.take(i as int)).push(last));
        }
        i = i + 1;
    }
    assert(added.take(n as int) =~= added);
}

/// Adds the alias that the properties of the node with the ID `id` give it.
fn push_property_aliases(rows: &mut Vec<Alias>, id: &str, props: &StringTable)
    requires
        props.wf(),
    ensures
        alias_views(final(rows)@) == alias_views(old(rows)@) + alias_rows(
            id@,
            property_aliases(props@),
        ),
{
    let mut aliases: Vec<String> = Vec::new();
    match props.get("ROAM_ALIASES") {
        Some(alias) => {
            aliases.push(alias.to_owned());
        },
        None => {},
    }
    assert(aliases.deep_view() =~= property_aliases(props@));
    push_aliases(rows, id, &aliases);
}

/// Adds the rows about a note as a whole.
pub fn push_file_rows(
    rows: &mut Rows,
    file_path: &str,
    title: &str,
    props: &StringTable,
    aliases: &Vec<String>,
    tags: &Vec<String>,
)
    requires
        props.wf(),
    ensures
        final(rows)@ == old(rows)@.and(
            file_rows(file_path@, title@, props@, aliases.deep_view(), tags.deep_view()),
        ),
{
    let ghost before = rows@;
    let ghost added = file_rows(file_path@, title@, props@, aliases.deep_view(), tags.deep_view());
    match props.get("ID") {
        Some(id) => {
            let node = Node {
                id: lisp_str(id),
                file: lisp_str(file_path),
                level: 0,
                pos: 1,
                todo: Some("nil".to_owned()),
                priority: Some("nil".to_owned()),
                title: lisp_str(title),
                properties: format_properties(props),
                olp: "nil".to_owned(),
            };
            let ghost so_far = rows.nodes@;
            let ghost last = node@;
            rows.nodes.push(node);
            push_property_aliases(&mut rows.aliases, id, props);
            push_aliases(&mut rows.aliases, id, aliases);
            push_tags(&mut rows.tags, id, tags);
            proof {
                assert(node_views(rows.nodes@) =~= node_views(so_far).push(last));
                assert(alias_rows(id@, property_aliases(props@)) + alias_rows(
                    id@,
                    aliases.deep_view(),
                ) =~= added.aliases);
                assert(last == added.nodes[0]);
                assert(rows@.nodes =~= before.nodes + added.nodes);
                assert(rows@.aliases =~= before.aliases + added.aliases);
                assert(rows@.tags =~= before.tags + added.tags);
            }
        },
        None => {
            assert(rows@ =~= before.and(RowsView::none()));
        },
    }
}

/// Adds the rows about a heading.
pub fn push_headline_rows(
    rows: &mut Rows,
    file_path: &str,
    start: usize,
    data: &HeadlineData,
    above: &Vec<String>,
    props: &StringTable,
)
    requires
        props.wf(),
        start < i64::MAX,
    ensures
        final(rows)@ == old(rows)@.and(
            headline_rows(file_path@, start as int, data.view(), above.deep_view(), props@),
        ),
{
    let ghost before = rows@;
    let ghost added = headline_rows(
        file_path@,
        start as int,
        data.view(),
        above.deep_view(),
        props@,
    );
    match props.get("ID") {
        Some(id) => {
            let node = Node {
                id: lisp_str(id),
                file: lisp_str(file_path),
                level: data.level,
                pos: start as i64 + 1,
                todo: Some("nil".to_owned()),
                priority: Some("nil".to_owned()),
                title: lisp_str(data.title.as_str()),
                properties: format_properties(props),
                olp: format_olp(above.as_slice()),
            };
            let ghost so_far = rows.nodes@;
            let ghost last = node@;
            rows.nodes.push(node);
            push_property_aliases(&mut rows.aliases, id, props);
            push_tags(&mut rows.tags, id, &data.tags);
            proof {
                assert(node_views(rows.nodes@) =~= node_views(so_far).push(last));
                assert(last == added.nodes[0]);
                assert(rows@.nodes =~= before.nodes + added.nodes);
                assert(rows@.aliases =~= before.aliases + added.aliases);
                assert(rows@.tags =~= before.tags + added.tags);
            }
        },
        None => {
            assert(rows@ =~= before.and(RowsView::none()));
        },
    }
}

/// Where the first headline among the elements of a note starts; without one,
/// the end of the note.
pub open spec fn intro_end(children: Seq<TreeView>, end: int) -> int
    decreases children.len(),
{
    if children.len() == 0 {
        end
    } else if children[0].data is Headline {
        children[0].start
    } else {
        intro_end(children.drop_first(), end)
    }
}

/// The text of a note before its first headline.
pub open spec fn intro(tree: TreeView, content: Seq<char>) -> Seq<char> {
    text::byte_slice(content, 0, intro_end(tree.children, encode_utf8(content).len() as int))
}

/// The text of the heading at `start`: from its own line to the next headline.
pub open spec fn section(content: Seq<char>, start: int) -> Seq<char> {
    text::byte_slice(content, start, keyword::section_end(content, start))
}

/// The rows about an element itself, without those below it. Only the note as a
/// whole, if it is listed under a title, and headings have any.
pub open spec fn own_rows(
    tree: TreeView,
    above: Seq<Seq<char>>,
    file: Seq<char>,
    content: Seq<char>,
    shown: Option<Seq<char>>,
) -> RowsView {
    match tree.data {
        SyntaxView::OrgData => match shown {
            Some(title) => file_rows(
                file,
                title,
                keyword::properties_of(intro(tree, content)),
                keyword::aliases_of_line(keyword::aliases_line(intro(tree, content))),
                keyword::tags_of_line(keyword::filetags_line(intro(tree, content))),
            ),
            None => RowsView::none(),
        },
        SyntaxView::Headline(data) => headline_rows(
            file,
            tree.start,
            data,
            above,
            keyword::properties_of(section(content, tree.start)),
        ),
        SyntaxView::Other => RowsView::none(),
    }
}

/// The titles of the headings above the elements below an element.
pub open spec fn titles_below(tree: TreeView, above: Seq<Seq<char>>) -> Seq<Seq<char>> {
    match tree.data {
        SyntaxView::Headline(data) => above.push(data.title),
        _ => above,
    }
}

/// The rows about an element and all elements below it, from top to bottom.
pub open spec fn tree_rows(
    tree: TreeView,
    above: Seq<Seq<char>>,
    file: Seq<char>,
    content: Seq<char>,
    shown: Option<Seq<char>>,
) -> RowsView
    decreases tree, tree.children.len() + 1,
{
    own_rows(tree, above, file, content, shown).and(
        rows_below(
            tree,
            tree.children.len(),
            titles_below(tree, above),
            file,
            content,
            shown,
        ),
    )
}

/// The rows about the first `n` elements below an element and all below those.
pub open spec fn rows_below(
    tree: TreeView,
    n: nat,
    above: Seq<Seq<char>>,
    file: Seq<char>,
    content: Seq<char>,
    shown: Option<Seq<char>>,
) -> RowsView
    decreases tree, n,
{
    if n == 0 || n > tree.children.len() {
        RowsView::none()
    } else {
        rows_below(tree, (n - 1) as nat, above, file, content, shown).and(
            tree_rows(tree.children[n - 1], above, file, content, shown),
        )
    }
}

/// The intro ends at a boundary.
proof fn lemma_intro_end(children: Seq<TreeView>, content: Seq<char>)
    requires
        forall|i: int|
            0 <= i < children.len() ==> outline::fits(#[trigger] children[i], content),
    ensures
        text::is_boundary(content, intro_end(children, encode_utf8(content).len() as int)),
    decreases children.len(),
{
    text::lemma_ends(content);
    if children.len() > 0 {
        assert(outline::fits(children[0], content));
        if !(children[0].data is Headline) {
            let rest = children.drop_first();
            assert forall|i: int| 0 <= i < rest.len() implies outline::fits(
                #[trigger] rest[i],
                content,
            ) by {
                assert(rest[i] == children[i + 1]);
            }
            lemma_intro_end(rest, content);
        }
    }
}

/// Finds where the text of a note before its first headline ends.
fn find_intro_end(node: &SyntaxNode, content: &str) -> (r: usize)
    ensures
        r == intro_end(node.view().children, encode_utf8(content@).len() as int),
{
    let end = text::byte_len(content);
    let n: usize = node.children.len();
    let ghost all = node.view().children;
    let mut i: usize = 0;
    assert(all.skip(0) =~= all);
    while i < n
        invariant
            n == node.children@.len(),
            all == node.view().children,
            end == encode_utf8(content@).len(),
            i <= n,
            intro_end(all, end as int) == intro_end(all.skip(i as int), end as int),
        decreases n - i,
    {
        proof {
            assert(all.skip(i as int)[0] == node.children@[i as int].view());
            assert(all.skip(i as int).drop_first() =~= all.skip(i + 1));
        }
        match &node.children[i].data {
            Syntax::Headline(_) => {
                return node.children[i].start;
            },
            _ => {},
        }
        i = i + 1;
    }
    end
}

/// Adds the rows about an element of a note and about all elements below it.
/// `current_olp` holds the titles of the headings above the element, outermost
/// first, and is the same afterwards; `shown` is the title under which the note
/// is listed.
pub fn walk_ast(
    node: &SyntaxNode,
    current_olp: &mut Vec<String>,
    rows: &mut Rows,
    file_path: &str,
    content: &str,
    shown: &Option<String>,
)
    requires
        encode_utf8(content@).len() < i64::MAX,
        outline::fits(node.view(), content@),
    ensures
        final(current_olp).deep_view() == old(current_olp).deep_view(),
        final(rows)@ == old(rows)@.and(
            tree_rows(
                node.view(),
                old(current_olp).deep_view(),
                file_path@,
                content@,
                shown.deep_view(),
            ),
        ),
    decreases node,
{
    let ghost tree = node.view();
    let ghost above = current_olp.deep_view();
    let ghost before = rows@;
    let mut pushed_olp = false;

    match &node.data {
        Syntax::OrgData => {
            let first_headline_start = find_intro_end(node, content);
            proof {
                text::lemma_ends(content@);
                lemma_intro_end(tree.children, content@);
                text::lemma_within(content@, first_headline_start as int);
            }
            let text_to_scan = text::slice_bytes(content, 0, first_headline_start);
            let props = keyword::extract_properties(text_to_scan);
            let aliases = keyword::extract_aliases(text_to_scan);
            let tags = keyword::extract_tags(text_to_scan);
            match shown {
                Some(title) => {
                    push_file_rows(rows, file_path, title.as_str(), &props, &aliases, &tags);
                },
                None => {
                    assert(before.and(RowsView::none()) =~= before);
                },
            }
        },
        Syntax::Headline(data) => {
            let start = node.start;
            proof {
                text::lemma_within(content@, start as int);
            }
            let scan_end = keyword::end_of_section(content, start);
            let text_to_scan = text::slice_bytes(content, start, scan_end);
            let props = keyword::extract_properties(text_to_scan);
            push_headline_rows(rows, file_path, start, data, current_olp, &props);
            current_olp.push(data.title.clone());
            pushed_olp = true;
        },
        Syntax::Other => {
            assert(before.and(RowsView::none()) =~= before);
        },
    }

    let ghost own = own_rows(tree, above, file_path@, content@, shown.deep_view());
    let ghost below = titles_below(tree, above);
    assert(current_olp.deep_view() =~= below);
    assert(rows@ == before.and(own));
    let n: usize = node.children.len();
    let mut i: usize = 0;
    assert(rows@ =~= before.and(own).and(
        rows_below(tree, 0, below, file_path@, content@, shown.deep_view()),
    ));
    while i < n
        invariant
            n == node.children@.len(),
            tree == node.view(),
            encode_utf8(content@).len() < i64::MAX,
            outline::fits(tree, content@),
            i <= n,
            current_olp.deep_view() == below,
            rows@ == before.and(own).and(
                rows_below(tree, i as nat, below, file_path@, content@, shown.deep_view()),
            ),
        decreases n - i,
    {
        proof {
            assert(tree.children[i as int] == node.children@[i as int].view());
        }
        walk_ast(&node.children[i], current_olp, rows, file_path, content, shown);
        assert(rows@ =~= before.and(own).and(
            rows_below(tree, (i + 1) as nat, below, file_path@, content@, shown.deep_view()),
        ));
        i = i + 1;
    }
    assert(rows@ =~= before.and(tree_rows(tree, above, file_path@, content@, shown.deep_view())));

    if pushed_olp {
        let ghost full = current_olp.deep_view();
        current_olp.pop();
        assert(current_olp.deep_view() =~= full.drop_last());
        assert(full.drop_last() =~= above);
    }
}

/// Tells whether a note as a whole has an ID, where the parser finds `found` in
/// it.
pub open spec fn has_file_id(content: Seq<char>, found: Seq<ElementView>) -> bool {
    table::lookup(
        keyword::properties_of(intro(outline::outline(found, encode_utf8(content)), content)),
        "ID"@,
    ) is Some
}

/// The rows about a note that is listed under `shown`, where the parser finds
/// `found` in it.
pub open spec fn note_rows(
    file: Seq<char>,
    content: Seq<char>,
    shown: Option<Seq<char>>,
    found: Seq<ElementView>,
) -> RowsView {
    tree_rows(outline::outline(found, encode_utf8(content)), seq![], file, content, shown)
}

/// Reads the rows about a note off its text, given what the parser finds in it
/// and the title under which it is listed. Without a title to be listed under,
/// the note as a whole has no node.
pub fn index_elements(
    file: &str,
    content: &str,
    shown: &Option<String>,
    found: &Vec<FoundElement>,
) -> (r: Rows)
    requires
        encode_utf8(content@).len() < i64::MAX,
    ensures
        r@ == note_rows(file@, content@, shown.deep_view(), outline::element_views(found@)),
{
    let ast = outline::build_outline(found, content);
    let mut current_olp: Vec<String> = Vec::new();
    let mut rows = Rows { nodes: Vec::new(), tags: Vec::new(), aliases: Vec::new() };
    assert(current_olp.deep_view() =~= seq![]);
    assert(rows@ =~= RowsView::none());
    walk_ast(&ast, &mut current_olp, &mut rows, file, content, shown);
    assert(rows@ =~= note_rows(
        file@,
        content@,
        shown.deep_view(),
        outline::element_views(found@),
    ));
    rows
}

/// Reads the rows about a note off its text, given the title under which it is
/// listed.
pub fn index_note(file: &str, content: &str, shown: &Option<String>) -> (r: Rows)
    requires
        encode_utf8(content@).len() <= u32::MAX,
    ensures
        exists|found: Seq<ElementView>| #[trigger]
            outline::may_find(content@, found) && r@ == note_rows(
                file@,
                content@,
                shown.deep_view(),
                found,
            ),
{
    let found = outline::parse_elements(content);
    index_elements(file, content, shown, &found)
}

/// Tells whether a note can be indexed: its offsets fit the parser, and the
/// note is listed under a title if it has an ID as a whole.
pub open spec fn is_indexable(
    content: Seq<char>,
    shown: Option<Seq<char>>,
    found: Seq<ElementView>,
) -> bool {
    &&& encode_utf8(content).len() <= u32::MAX
    &&& has_file_id(content, found) ==> shown is Some
}

/// Tells whether the note at `file` may be listed under `shown` and the parser
/// may find `found` in it.
pub open spec fn may_be_read(
    file: Seq<char>,
    content: Seq<char>,
    shown: Option<Seq<char>>,
    found: Seq<ElementView>,
) -> bool {
    path::is_listed_as(file, keyword::title_of(content), shown) && outline::may_find(content, found)
}

/// Reads the rows about a note off its text, and its title.
pub fn parse_org_file(file: &str, content: &str) -> (r: (
    Vec<Node>,
    Vec<Tag>,
    Vec<Alias>,
    String,
))
    requires
        exists|shown: Option<Seq<char>>, found: Seq<ElementView>| #[trigger]
            may_be_read(file@, content@, shown, found) && is_indexable(content@, shown, found),
    ensures
        exists|shown: Option<Seq<char>>, found: Seq<ElementView>| #[trigger]
            may_be_read(file@, content@, shown, found) && rows_of(r) == note_rows(
                file@,
                content@,
                shown,
                found,
            ),
        r.3@ == keyword::title_of(content@),
{
    let file_title = keyword::extract_title(content);
    let shown = path::listed_title(file, file_title.as_str());
    let found = outline::parse_elements(content);
    let rows = index_elements(file, content, &shown, &found);
    let r = (rows.nodes, rows.tags, rows.aliases, file_title);
    proof {
        let listed = shown.deep_view();
        let elements = outline::element_views(found@);
        assert(may_be_read(file@, content@, listed, elements));
        assert(rows_of(r) =~= note_rows(file@, content@, listed, elements));
    }
    r
}

/// The rows among what is read off a note.
pub open spec fn rows_of(found: (Vec<Node>, Vec<Tag>, Vec<Alias>, String)) -> RowsView {
    RowsView {
        nodes: node_views(found.0@),
        tags: tag_views(found.1@),
        aliases: alias_views(found.2@),
    }
}

/// Reads the rows about a note off its text, and its title, if the note can be
/// indexed.
pub fn try_parse_org_file(file: &str, content: &str) -> (r: Option<
    (Vec<Node>, Vec<Tag>, Vec<Alias>, String),
>)
    ensures
        exists|shown: Option<Seq<char>>, found: Seq<ElementView>|
            {
                &&& #[trigger] may_be_read(file@, content@, shown, found)
                &&& r is Some <==> is_indexable(content@, shown, found)
                &&& r matches Some(parsed) ==> rows_of(parsed) == note_rows(
                    file@,
                    content@,
                    shown,
                    found,
                ) && parsed.3@ == keyword::title_of(content@)
            },
{
    let n = text::byte_len(content);
    let file_title = keyword::extract_title(content);
    if n as u64 > u32::MAX as u64 {
        proof {
            let shown = path::shown_title(file_title@, path::stem(file@));
            let elements = outline::elements_of(content@);
            assert(may_be_read(file@, content@, shown, elements));
            assert(!is_indexable(content@, shown, elements));
        }
        return None;
    }
    if !file_title.as_str().is_empty() {
        proof {
            let elements = outline::elements_of(content@);
            assert(may_be_read(file@, content@, Some(file_title@), elements));
            assert(is_indexable(content@, Some(file_title@), elements));
        }
        return Some(parse_org_file(file, content));
    }
    let shown = path::listed_title(file, file_title.as_str());
    let found = outline::parse_elements(content);
    let ghost listed = shown.deep_view();
    let ghost elements = outline::element_views(found@);
    assert(may_be_read(file@, content@, listed, elements));
    if shown.is_none() {
        let ast = outline::build_outline(&found, content);
        let end = find_intro_end(&ast, content);
        proof {
            text::lemma_ends(content@);
            lemma_intro_end(ast.view().children, content@);
            text::lemma_within(content@, end as int);
        }
        let props = keyword::extract_properties(text::slice_bytes(content, 0, end));
        if props.get("ID").is_some() {
            assert(!is_indexable(content@, listed, elements));
            return None;
        }
    }
    assert(is_indexable(content@, listed, elements));
    let rows = index_elements(file, content, &shown, &found);
    let parsed = (rows.nodes, rows.tags, rows.aliases, file_title);
    assert(rows_of(parsed) =~= note_rows(file@, content@, listed, elements));
    Some(parsed)
}

/// Tells whether every tag and every alias among `rows` belongs to a node among
/// them, and every node to the note at `file`.
pub open spec fn is_coherent(rows: RowsView, file: Seq<char>) -> bool {
    &&& forall|i: int|
        0 <= i < rows.nodes.len() ==> (#[trigger] rows.nodes[i]).file == lisp::lisp_form(file)
    &&& forall|i: int|
        0 <= i < rows.tags.len() ==> has_node(rows.nodes, (#[trigger] rows.tags[i]).node_id)
    &&& forall|i: int|
        0 <= i < rows.aliases.len() ==> has_node(rows.nodes, (#[trigger] rows.aliases[i]).node_id)
}

/// Tells whether one of the nodes has the printed ID `id`.
pub open spec fn has_node(nodes: Seq<NodeView>, id: Seq<char>) -> bool {
    exists|k: int| 0 <= k < nodes.len() && (#[trigger] nodes[k]).id == id
}

proof fn lemma_has_node_in_sum(a: Seq<NodeView>, b: Seq<NodeView>, id: Seq<char>)
    requires
        has_node(a, id) || has_node(b, id),
    ensures
        has_node(a + b, id),
{
    if has_node(a, id) {
        let k = choose|k: int| 0 <= k < a.len() && (#[trigger] a[k]).id == id;
        assert((a + b)[k].id == id);
    } else {
        let k = choose|k: int| 0 <= k < b.len() && (#[trigger] b[k]).id == id;
        assert((a + b)[a.len() + k].id == id);
    }
}

proof fn lemma_coherent_sum(a: RowsView, b: RowsView, file: Seq<char>)
    requires
        is_coherent(a, file),
        is_coherent(b, file),
    ensures
        is_coherent(a.and(b), file),
{
    let sum = a.and(b);
    assert forall|i: int| 0 <= i < sum.nodes.len() implies (#[trigger] sum.nodes[i]).file
        == lisp::lisp_form(file) by {
        if i < a.nodes.len() {
            assert(sum.nodes[i] == a.nodes[i]);
        } else {
            assert(sum.nodes[i] == b.nodes[i - a.nodes.len()]);
        }
    }
    assert forall|i: int| 0 <= i < sum.tags.len() implies has_node(
        sum.nodes,
        (#[trigger] sum.tags[i]).node_id,
    ) by {
        if i < a.tags.len() {
            assert(sum.tags[i] == a.tags[i]);
        } else {
            assert(sum.tags[i] == b.tags[i - a.tags.len()]);
        }
        lemma_has_node_in_sum(a.nodes, b.nodes, sum.tags[i].node_id);
    }
    assert forall|i: int| 0 <= i < sum.aliases.len() implies has_node(
        sum.nodes,
        (#[trigger] sum.aliases[i]).node_id,
    ) by {
        if i < a.aliases.len() {
            assert(sum.aliases[i] == a.aliases[i]);
        } else {
            assert(sum.aliases[i] == b.aliases[i - a.aliases.len()]);
        }
        lemma_has_node_in_sum(a.nodes, b.nodes, sum.aliases[i].node_id);
    }
}

proof fn lemma_own_rows_coherent(
    tree: TreeView,
    above: Seq<Seq<char>>,
    file: Seq<char>,
    content: Seq<char>,
    shown: Option<Seq<char>>,
)
    ensures
        is_coherent(own_rows(tree, above, file, content, shown), file),
        own_rows(tree, above, file, content, shown).nodes.len() <= 1,
{
    let rows = own_rows(tree, above, file, content, shown);
    if rows.nodes.len() > 0 {
        let id = rows.nodes[0].id;
        assert(has_node(rows.nodes, id));
        assert forall|i: int| 0 <= i < rows.tags.len() implies has_node(
            rows.nodes,
            (#[trigger] rows.tags[i]).node_id,
        ) by {
            assert(rows.tags[i].node_id == id);
        }
        assert forall|i: int| 0 <= i < rows.aliases.len() implies has_node(
            rows.nodes,
            (#[trigger] rows.aliases[i]).node_id,
        ) by {
            assert(rows.aliases[i].node_id == id);
        }
    }
}

proof fn lemma_tree_rows_coherent(
    tree: TreeView,
    above: Seq<Seq<char>>,
    file: Seq<char>,
    content: Seq<char>,
    shown: Option<Seq<char>>,
)
    ensures
        is_coherent(tree_rows(tree, above, file, content, shown), file),
    decreases tree, tree.children.len() + 1,
{
    let below = titles_below(tree, above);
    lemma_own_rows_coherent(tree, above, file, content, shown);
    lemma_rows_below_coherent(tree, tree.children.len(), below, file, content, shown);
    lemma_coherent_sum(
        own_rows(tree, above, file, content, shown),
        rows_below(tree, tree.children.len(), below, file, content, shown),
        file,
    );
}

proof fn lemma_rows_below_coherent(
    tree: TreeView,
    n: nat,
    above: Seq<Seq<char>>,
    file: Seq<char>,
    content: Seq<char>,
    shown: Option<Seq<char>>,
)
    requires
        n <= tree.children.len(),
    ensures
        is_coherent(rows_below(tree, n, above, file, content, shown), file),
    decreases tree, n,
{
    if n > 0 {
        lemma_rows_below_coherent(tree, (n - 1) as nat, above, file, content, shown);
        lemma_tree_rows_coherent(tree.children[n - 1], above, file, content, shown);
        lemma_coherent_sum(
            rows_below(tree, (n - 1) as nat, above, file, content, shown),
            tree_rows(tree.children[n - 1], above, file, content, shown),
            file,
        );
    }
}

/// Every node of a note names the note's file, and every tag and alias belongs
/// to one of the note's nodes.
pub proof fn law_note_rows_are_coherent(
    file: Seq<char>,
    content: Seq<char>,
    shown: Option<Seq<char>>,
    found: Seq<ElementView>,
)
    ensures
        is_coherent(note_rows(file, content, shown, found), file),
{
    lemma_tree_rows_coherent(
        outline::outline(found, encode_utf8(content)),
        seq![],
        file,
        content,
        shown,
    );
}

/// What tells a node from the others of a note: its ID, its level, its position
/// and its title, as far as they are printed.
pub open spec fn node_keys(nodes: Seq<NodeView>) -> Seq<(Seq<char>, int, int, Seq<char>)> {
    nodes.map_values(|n: NodeView| (n.id, n.level, n.pos, n.title))
}

/// The node that a heading contributes, if its own text gives it an ID.
pub open spec fn heading_key(headline: (int, HeadlineView), content: Seq<char>) -> Seq<
    (Seq<char>, int, int, Seq<char>),
> {
    match table::lookup(keyword::properties_of(section(content, headline.0)), "ID"@) {
        Some(id) => seq![
            (
                lisp::lisp_form(id),
                headline.1.level,
                headline.0 + 1,
                lisp::lisp_form(headline.1.title),
            ),
        ],
        None => seq![],
    }
}

/// The nodes that headings contribute, in order.
pub open spec fn heading_keys(headlines: Seq<(int, HeadlineView)>, content: Seq<char>) -> Seq<
    (Seq<char>, int, int, Seq<char>),
>
    decreases headlines.len(),
{
    if headlines.len() == 0 {
        seq![]
    } else {
        heading_keys(headlines.drop_last(), content) + heading_key(headlines.last(), content)
    }
}

proof fn lemma_heading_keys_sum(
    a: Seq<(int, HeadlineView)>,
    b: Seq<(int, HeadlineView)>,
    content: Seq<char>,
)
    ensures
        heading_keys(a + b, content) == heading_keys(a, content) + heading_keys(b, content),
    decreases b.len(),
{
    if b.len() == 0 {
        assert(a + b =~= a);
        assert(heading_keys(b, content) =~= seq![]);
    } else {
        assert((a + b).drop_last() =~= a + b.drop_last());
        lemma_heading_keys_sum(a, b.drop_last(), content);
        assert(heading_keys(a + b, content) =~= heading_keys(a, content) + heading_keys(
            b,
            content,
        ));
    }
}

/// Tells whether a tree consists of headings of the text `bytes`.
pub open spec fn is_heading_tree(tree: TreeView, bytes: Seq<u8>) -> bool
    decreases tree,
{
    &&& tree.data is Headline
    &&& keyword::is_headline_at(bytes, tree.start)
    &&& forall|i: int|
        0 <= i < tree.children.len() ==> is_heading_tree(#[trigger] tree.children[i], bytes)
}

/// Tells whether trees consist of headings of the text `bytes`.
pub open spec fn are_heading_trees(trees: Seq<TreeView>, bytes: Seq<u8>) -> bool {
    forall|i: int| 0 <= i < trees.len() ==> is_heading_tree(#[trigger] trees[i], bytes)
}

proof fn lemma_heading_trees_sum(a: Seq<TreeView>, b: Seq<TreeView>, bytes: Seq<u8>)
    requires
        are_heading_trees(a, bytes),
        are_heading_trees(b, bytes),
    ensures
        are_heading_trees(a + b, bytes),
{
    assert forall|i: int| 0 <= i < (a + b).len() implies is_heading_tree(
        #[trigger] (a + b)[i],
        bytes,
    ) by {
        if i < a.len() {
            assert((a + b)[i] == a[i]);
        } else {
            assert((a + b)[i] == b[i - a.len()]);
        }
    }
}

proof fn lemma_element_of_headings(found: Seq<ElementView>, at: int, bytes: Seq<u8>)
    ensures
        are_heading_trees(outline::element_trees(found, at, bytes).0, bytes),
    decreases found.len() - at, 0int,
{
    if 0 <= at < found.len() {
        if outline::is_heading(found[at], bytes) {
            lemma_forest_of_headings(found, at + 1, found[at].count, bytes);
        } else if outline::opens_section(found, at, bytes) {
            let (own, mid) = outline::forest(found, at + 2, found[at + 1].count, bytes);
            lemma_forest_of_headings(found, at + 2, found[at + 1].count, bytes);
            if at + 2 <= mid <= found.len() {
                let n = (found[at].count - 1) as nat;
                lemma_forest_of_headings(found, mid, n, bytes);
                lemma_heading_trees_sum(own, outline::forest(found, mid, n, bytes).0, bytes);
            }
        } else {
            lemma_forest_of_headings(found, at + 1, found[at].count, bytes);
        }
    }
}

proof fn lemma_forest_of_headings(found: Seq<ElementView>, at: int, n: nat, bytes: Seq<u8>)
    ensures
        are_heading_trees(outline::forest(found, at, n, bytes).0, bytes),
    decreases found.len() - at, 1int,
{
    if n > 0 && 0 <= at < found.len() {
        let (first, next) = outline::element_trees(found, at, bytes);
        lemma_element_of_headings(found, at, bytes);
        if at < next <= found.len() {
            let others = outline::forest(found, next, (n - 1) as nat, bytes).0;
            lemma_forest_of_headings(found, next, (n - 1) as nat, bytes);
            lemma_heading_trees_sum(first, others, bytes);
        }
    }
}

proof fn lemma_tree_keys(
    tree: TreeView,
    above: Seq<Seq<char>>,
    file: Seq<char>,
    content: Seq<char>,
    shown: Option<Seq<char>>,
)
    requires
        is_heading_tree(tree, encode_utf8(content)),
    ensures
        node_keys(tree_rows(tree, above, file, content, shown).nodes) == heading_keys(
            outline::headlines_in(tree),
            content,
        ),
    decreases tree, tree.children.len() + 1,
{
    let own = (tree.start, tree.data->Headline_0);
    let below = titles_below(tree, above);
    let n = tree.children.len();
    lemma_below_keys(tree, n, below, file, content, shown);
    lemma_heading_keys_sum(seq![own], outline::headlines_below(tree, n), content);
    assert(seq![own].drop_last() =~= seq![]);
    assert(heading_keys(seq![own].drop_last(), content) =~= seq![]);
    assert(heading_keys(seq![own], content) =~= heading_key(own, content));
    let own_nodes = own_rows(tree, above, file, content, shown).nodes;
    let below_nodes = rows_below(tree, n, below, file, content, shown).nodes;
    assert(node_keys(own_nodes) =~= heading_key(own, content));
    assert(node_keys(own_nodes + below_nodes) =~= node_keys(own_nodes) + node_keys(below_nodes));
}

proof fn lemma_below_keys(
    tree: TreeView,
    n: nat,
    above: Seq<Seq<char>>,
    file: Seq<char>,
    content: Seq<char>,
    shown: Option<Seq<char>>,
)
    requires
        n <= tree.children.len(),
        are_heading_trees(tree.children, encode_utf8(content)),
    ensures
        node_keys(rows_below(tree, n, above, file, content, shown).nodes) == heading_keys(
            outline::headlines_below(tree, n),
            content,
        ),
    decreases tree, n,
{
    if n == 0 {
        assert(node_keys(rows_below(tree, n, above, file, content, shown).nodes) =~= seq![]);
        assert(heading_keys(outline::headlines_below(tree, n), content) =~= seq![]);
    } else {
        let m = (n - 1) as nat;
        let last = tree.children[m as int];
        lemma_below_keys(tree, m, above, file, content, shown);
        lemma_tree_keys(last, above, file, content, shown);
        lemma_heading_keys_sum(
            outline::headlines_below(tree, m),
            outline::headlines_in(last),
            content,
        );
        let a = rows_below(tree, m, above, file, content, shown).nodes;
        let b = tree_rows(last, above, file, content, shown).nodes;
        assert(node_keys(a + b) =~= node_keys(a) + node_keys(b));
    }
}

/// Wherever it stands in the outline, a heading whose own text gives it an ID
/// contributes exactly one node, and no other heading contributes any. The
/// nodes of the headings follow that of the note as a whole, from top to bottom.
pub proof fn law_headings_with_an_id_are_nodes(
    file: Seq<char>,
    content: Seq<char>,
    shown: Option<Seq<char>>,
    found: Seq<ElementView>,
)
    ensures
        node_keys(note_rows(file, content, shown, found).nodes) == node_keys(
            own_rows(
                outline::outline(found, encode_utf8(content)),
                seq![],
                file,
                content,
                shown,
            ).nodes,
        ) + heading_keys(
            outline::headings(found, 1, found.len() as int, encode_utf8(content)),
            content,
        ),
{
    let bytes = encode_utf8(content);
    let tree = outline::outline(found, bytes);
    let n = tree.children.len();
    let own = own_rows(tree, seq![], file, content, shown).nodes;
    let below = rows_below(tree, n, seq![], file, content, shown).nodes;
    outline::law_outline_keeps_headings(found, bytes);
    assert(outline::headlines_in(tree) =~= outline::headlines_below(tree, n));
    lemma_forest_of_headings(found, 1, found.len(), bytes);
    lemma_below_keys(tree, n, seq![], file, content, shown);
    assert(node_keys(own + below) =~= node_keys(own) + node_keys(below));
}

/// The text of a note before its first heading ends where that heading starts;
/// without headings it is the whole note.
pub proof fn law_intro_ends_at_the_first_heading(content: Seq<char>, found: Seq<ElementView>)
    ensures
        ({
            let bytes = encode_utf8(content);
            let headings = outline::headings(found, 1, found.len() as int, bytes);
            intro_end(outline::outline(found, bytes).children, bytes.len() as int) == (
            if headings.len() > 0 {
                headings[0].0
            } else {
                bytes.len() as int
            })
        }),
{
    let bytes = encode_utf8(content);
    let tree = outline::outline(found, bytes);
    let n = tree.children.len();
    outline::law_outline_keeps_headings(found, bytes);
    outline::lemma_headlines_below(tree, n);
    assert(tree.children.take(n as int) =~= tree.children);
    lemma_forest_of_headings(found, 1, found.len(), bytes);
    if n > 0 {
        assert(is_heading_tree(tree.children[0], bytes));
        assert(outline::headlines_in(tree.children[0])[0].0 == tree.children[0].start);
    }
}

/// The IDs that headings are given by their own texts, in order.
pub open spec fn heading_ids(headlines: Seq<(int, HeadlineView)>, content: Seq<char>) -> Seq<
    Seq<char>,
>
    decreases headlines.len(),
{
    if headlines.len() == 0 {
        seq![]
    } else {
        let before = heading_ids(headlines.drop_last(), content);
        let props = keyword::properties_of(section(content, headlines.last().0));
        match table::lookup(props, "ID"@) {
            Some(id) => before.push(id),
            None => before,
        }
    }
}

/// The IDs in a note: that of the note as a whole, if it is listed under a
/// title, then those of its headings.
pub open spec fn note_ids(
    content: Seq<char>,
    shown: Option<Seq<char>>,
    found: Seq<ElementView>,
) -> Seq<Seq<char>> {
    let bytes = encode_utf8(content);
    let props = keyword::properties_of(intro(outline::outline(found, bytes), content));
    let own = match table::lookup(props, "ID"@) {
        Some(id) if shown is Some => seq![id],
        _ => seq![],
    };
    own + heading_ids(outline::headings(found, 1, found.len() as int, bytes), content)
}

proof fn lemma_heading_ids(headlines: Seq<(int, HeadlineView)>, content: Seq<char>)
    ensures
        heading_keys(headlines, content).len() == heading_ids(headlines, content).len(),
        forall|k: int|
            0 <= k < heading_ids(headlines, content).len() ==> (#[trigger] heading_keys(
                headlines,
                content,
            )[k]).0 == lisp::lisp_form(heading_ids(headlines, content)[k]),
    decreases headlines.len(),
{
    if headlines.len() > 0 {
        lemma_heading_ids(headlines.drop_last(), content);
    }
}

/// The nodes of a note have the IDs in the note, printed, one for one.
pub proof fn law_nodes_have_the_ids_of_the_note(
    file: Seq<char>,
    content: Seq<char>,
    shown: Option<Seq<char>>,
    found: Seq<ElementView>,
    k: int,
)
    requires
        0 <= k < note_rows(file, content, shown, found).nodes.len(),
    ensures
        note_rows(file, content, shown, found).nodes.len() == note_ids(content, shown, found).len(),
        note_rows(file, content, shown, found).nodes[k].id == lisp::lisp_form(
            note_ids(content, shown, found)[k],
        ),
{
    let bytes = encode_utf8(content);
    let headlines = outline::headings(found, 1, found.len() as int, bytes);
    let nodes = note_rows(file, content, shown, found).nodes;
    let own = own_rows(outline::outline(found, bytes), seq![], file, content, shown).nodes;
    law_headings_with_an_id_are_nodes(file, content, shown, found);
    lemma_heading_ids(headlines, content);
    assert(node_keys(nodes).len() == own.len() + heading_keys(headlines, content).len());
    assert(node_keys(nodes)[k].0 == nodes[k].id);
    if k < own.len() {
        assert(node_keys(nodes)[k] == node_keys(own)[k]);
    } else {
        assert(node_keys(nodes)[k] == heading_keys(headlines, content)[k - own.len()]);
    }
}

/// Where the IDs in a note differ, so do those of its nodes.
pub proof fn law_node_ids_differ_as_in_the_note(
    file: Seq<char>,
    content: Seq<char>,
    shown: Option<Seq<char>>,
    found: Seq<ElementView>,
    i: int,
    j: int,
)
    requires
        0 <= i < note_rows(file, content, shown, found).nodes.len(),
        0 <= j < note_rows(file, content, shown, found).nodes.len(),
        note_ids(content, shown, found)[i] != note_ids(content, shown, found)[j],
        lisp::is_told_apart(note_ids(content, shown, found)[i]) || (is_ascii_chars(
            note_ids(content, shown, found)[i],
        ) && is_ascii_chars(note_ids(content, shown, found)[j])),
    ensures
        note_rows(file, content, shown, found).nodes[i].id != note_rows(
            file,
            content,
            shown,
            found,
        ).nodes[j].id,
{
    law_nodes_have_the_ids_of_the_note(file, content, shown, found, i);
    law_nodes_have_the_ids_of_the_note(file, content, shown, found, j);
    lisp::law_different_strings_are_printed_differently(
        note_ids(content, shown, found)[i],
        note_ids(content, shown, found)[j],
    );
}

/// Every heading that the parser finds is a headline of the text.
proof fn lemma_headings_are_headlines(
    found: Seq<ElementView>,
    from: int,
    to: int,
    bytes: Seq<u8>,
    h: int,
)
    requires
        0 <= h < outline::headings(found, from, to, bytes).len(),
    ensures
        keyword::is_headline_at(bytes, outline::headings(found, from, to, bytes)[h].0),
    decreases to - from,
{
    let before = outline::headings(found, from, to - 1, bytes);
    if h < before.len() {
        lemma_headings_are_headlines(found, from, to - 1, bytes, h);
    }
}

/// More headings have no fewer IDs.
proof fn lemma_more_heading_ids(
    headlines: Seq<(int, HeadlineView)>,
    content: Seq<char>,
    a: int,
    b: int,
)
    requires
        0 <= a <= b <= headlines.len(),
    ensures
        heading_ids(headlines.take(a), content).len() <= heading_ids(
            headlines.take(b),
            content,
        ).len(),
    decreases b - a,
{
    if a < b {
        lemma_more_heading_ids(headlines, content, a, b - 1);
        assert(headlines.take(b).drop_last() =~= headlines.take(b - 1));
    }
}

/// The heading that an ID of a heading comes from.
proof fn lemma_id_has_a_heading(
    headlines: Seq<(int, HeadlineView)>,
    content: Seq<char>,
    k: int,
) -> (h: int)
    requires
        0 <= k < heading_ids(headlines, content).len(),
    ensures
        0 <= h < headlines.len(),
        heading_ids(headlines.take(h), content).len() == k,
        heading_ids(headlines.take(h + 1), content).len() == k + 1,
        table::lookup(keyword::properties_of(section(content, headlines[h].0)), "ID"@) == Some(
            heading_ids(headlines, content)[k],
        ),
    decreases headlines.len(),
{
    let front = headlines.drop_last();
    if k < heading_ids(front, content).len() {
        let h = lemma_id_has_a_heading(front, content, k);
        assert(front.take(h) =~= headlines.take(h));
        assert(front.take(h + 1) =~= headlines.take(h + 1));
        h
    } else {
        let h = front.len() as int;
        assert(headlines.take(h) =~= front);
        assert(headlines.take(h + 1) =~= headlines);
        h
    }
}

/// The ID of a heading stands on a line between the heading and its end.
proof fn lemma_heading_id_line(content: Seq<char>, start: int, id: Seq<char>) -> (p: int)
    requires
        keyword::is_headline_at(encode_utf8(content), start),
        table::lookup(keyword::properties_of(section(content, start)), "ID"@) == Some(id),
    ensures
        keyword::has_id_line(content, p, id),
        text::chars_before(content, start) <= p < text::chars_before(
            content,
            keyword::section_end(content, start),
        ),
{
    let bytes = encode_utf8(content);
    let end = keyword::section_end(content, start);
    keyword::lemma_section_end(content, start);
    text::lemma_slice_is_a_part(content, start, end);
    let i = text::chars_before(content, start);
    let j = text::chars_before(content, end);
    if start > 0 {
        text::lemma_behind_line_feed(content, start);
    } else {
        text::lemma_slice_is_a_part(content, 0, end);
    }
    if end < bytes.len() {
        text::lemma_behind_line_feed(content, end);
    }
    let q = keyword::law_id_stands_on_a_line(section(content, start), id);
    if end < bytes.len() && j == i {
        assert(section(content, start).len() == 0);
        text::lemma_slice_bytes(content, start, end);
    }
    keyword::lemma_id_line_of_part(content, i, j, q, id);
    i + q
}

/// The ID of a note as a whole stands on a line before its first heading.
proof fn lemma_file_id_line(content: Seq<char>, found: Seq<ElementView>, id: Seq<char>) -> (p: int)
    requires
        table::lookup(
            keyword::properties_of(intro(outline::outline(found, encode_utf8(content)), content)),
            "ID"@,
        ) == Some(id),
    ensures
        keyword::has_id_line(content, p, id),
        ({
            let headings = outline::headings(found, 1, found.len() as int, encode_utf8(content));
            headings.len() > 0 ==> p < text::chars_before(content, headings[0].0)
        }),
{
    let bytes = encode_utf8(content);
    let headings = outline::headings(found, 1, found.len() as int, bytes);
    let part = intro(outline::outline(found, bytes), content);
    law_intro_ends_at_the_first_heading(content, found);
    text::lemma_ends(content);
    let q = keyword::law_id_stands_on_a_line(part, id);
    if headings.len() > 0 {
        let end = headings[0].0;
        lemma_headings_are_headlines(found, 1, found.len() as int, bytes, 0);
        text::lemma_ascii_is_boundary(content, end);
        text::lemma_slice_is_a_part(content, 0, end);
        let j = text::chars_before(content, end);
        if end > 0 {
            text::lemma_behind_line_feed(content, end);
            keyword::lemma_id_line_of_part(content, 0, j, q, id);
        } else {
            assert(part =~= seq![]);
            assert(content.subrange(0, 0) =~= seq![]);
            keyword::lemma_no_id_in_nothing(q, id);
        }
    } else {
        text::lemma_slice_is_a_part(content, 0, bytes.len() as int);
        keyword::lemma_id_line_of_part(content, 0, content.len() as int, q, id);
    }
    q
}

/// Where no two lines of a note give the same ID, its IDs differ: no line serves
/// two headings, or a heading and the note as a whole. The headings stand in the
/// order of the text.
pub proof fn law_different_id_lines_give_different_ids(
    content: Seq<char>,
    shown: Option<Seq<char>>,
    found: Seq<ElementView>,
    i: int,
    j: int,
)
    requires
        0 <= i < j < note_ids(content, shown, found).len(),
        ({
            let headings = outline::headings(found, 1, found.len() as int, encode_utf8(content));
            forall|a: int, b: int|
                0 <= a < b < headings.len() ==> (#[trigger] headings[a]).0 < (
                #[trigger] headings[b]).0
        }),
        forall|p: int, q: int, id: Seq<char>|
            p != q ==> !(#[trigger] keyword::has_id_line(content, p, id)
                && #[trigger] keyword::has_id_line(content, q, id)),
    ensures
        note_ids(content, shown, found)[i] != note_ids(content, shown, found)[j],
{
    let bytes = encode_utf8(content);
    let headings = outline::headings(found, 1, found.len() as int, bytes);
    let ids = note_ids(content, shown, found);
    let below = heading_ids(headings, content);
    let own = ids.len() - below.len();
    let b = lemma_id_has_a_heading(headings, content, j - own);
    let start = headings[b].0;
    lemma_headings_are_headlines(found, 1, found.len() as int, bytes, b);
    assert(ids[j] == below[j - own]);
    let q = lemma_heading_id_line(content, start, ids[j]);
    if i < own {
        let p = lemma_file_id_line(content, found, ids[i]);
        lemma_headings_are_headlines(found, 1, found.len() as int, bytes, 0);
        text::lemma_ascii_is_boundary(content, headings[0].0);
        text::lemma_ascii_is_boundary(content, start);
        text::lemma_slice_is_a_part(content, headings[0].0, start);
        assert(p < q);
    } else {
        let a = lemma_id_has_a_heading(headings, content, i - own);
        lemma_headings_are_headlines(found, 1, found.len() as int, bytes, a);
        assert(ids[i] == below[i - own]);
        if a >= b {
            lemma_more_heading_ids(headings, content, b + 1, a + 1);
        }
        let end = keyword::section_end(content, headings[a].0);
        let p = lemma_heading_id_line(content, headings[a].0, ids[i]);
        keyword::law_sections_do_not_overlap(content, headings[a].0, start);
        keyword::lemma_section_end(content, headings[a].0);
        text::lemma_ascii_is_boundary(content, start);
        text::lemma_slice_is_a_part(content, end, start);
        assert(p < q);
    }
}

/// Rows with another file in the place of their own.
pub open spec fn refiled(rows: RowsView, file: Seq<char>) -> RowsView {
    RowsView {
        nodes: rows.nodes.map_values(
            |n: NodeView| NodeView { file: lisp::lisp_form(file), ..n },
        ),
        tags: rows.tags,
        aliases: rows.aliases,
    }
}

proof fn lemma_refiled_sum(a: RowsView, b: RowsView, file: Seq<char>)
    ensures
        refiled(a.and(b), file) == refiled(a, file).and(refiled(b, file)),
{
    assert(refiled(a.and(b), file).nodes =~= refiled(a, file).nodes + refiled(b, file).nodes);
}

proof fn lemma_tree_refiled(
    tree: TreeView,
    above: Seq<Seq<char>>,
    files: (Seq<char>, Seq<char>),
    content: Seq<char>,
    shown: (Option<Seq<char>>, Option<Seq<char>>),
)
    requires
        is_heading_tree(tree, encode_utf8(content)),
    ensures
        tree_rows(tree, above, files.1, content, shown.1) == refiled(
            tree_rows(tree, above, files.0, content, shown.0),
            files.1,
        ),
    decreases tree, tree.children.len() + 1,
{
    let n = tree.children.len();
    let below = titles_below(tree, above);
    let own = own_rows(tree, above, files.0, content, shown.0);
    lemma_below_refiled(tree, n, below, files, content, shown);
    lemma_refiled_sum(
        own,
        rows_below(tree, n, below, files.0, content, shown.0),
        files.1,
    );
    assert(own_rows(tree, above, files.1, content, shown.1).nodes =~= refiled(
        own,
        files.1,
    ).nodes);
}

proof fn lemma_below_refiled(
    tree: TreeView,
    n: nat,
    above: Seq<Seq<char>>,
    files: (Seq<char>, Seq<char>),
    content: Seq<char>,
    shown: (Option<Seq<char>>, Option<Seq<char>>),
)
    requires
        n <= tree.children.len(),
        are_heading_trees(tree.children, encode_utf8(content)),
    ensures
        rows_below(tree, n, above, files.1, content, shown.1) == refiled(
            rows_below(tree, n, above, files.0, content, shown.0),
            files.1,
        ),
    decreases tree, n,
{
    if n == 0 {
        assert(refiled(RowsView::none(), files.1).nodes =~= RowsView::none().nodes);
    } else {
        let m = (n - 1) as nat;
        let last = tree.children[m as int];
        lemma_below_refiled(tree, m, above, files, content, shown);
        lemma_tree_refiled(last, above, files, content, shown);
        lemma_refiled_sum(
            rows_below(tree, m, above, files.0, content, shown.0),
            tree_rows(last, above, files.0, content, shown.0),
            files.1,
        );
    }
}

/// The rows of a text hardly depend on its file: under another file name the
/// tags and aliases are the same, and so are the nodes but for the file that
/// they name and, at the note as a whole, the title under which it is listed.
pub proof fn law_rows_hardly_depend_on_the_file(
    files: (Seq<char>, Seq<char>),
    content: Seq<char>,
    shown: (Option<Seq<char>>, Option<Seq<char>>),
    found: Seq<ElementView>,
    i: int,
)
    requires
        shown.0 is Some <==> shown.1 is Some,
    ensures
        ({
            let a = note_rows(files.0, content, shown.0, found);
            let b = note_rows(files.1, content, shown.1, found);
            &&& b.tags == a.tags
            &&& b.aliases == a.aliases
            &&& b.nodes.len() == a.nodes.len()
            &&& 0 <= i < a.nodes.len() ==> b.nodes[i] == (NodeView {
                file: lisp::lisp_form(files.1),
                title: b.nodes[i].title,
                ..a.nodes[i]
            })
            &&& 0 <= i < a.nodes.len() && b.nodes[i].title != a.nodes[i].title ==> i == 0
                && shown.0 != shown.1 && has_file_id(content, found)
        }),
{
    let bytes = encode_utf8(content);
    let tree = outline::outline(found, bytes);
    let n = tree.children.len();
    let above = Seq::<Seq<char>>::empty();
    lemma_forest_of_headings(found, 1, found.len(), bytes);
    lemma_below_refiled(tree, n, above, files, content, shown);
    let own_a = own_rows(tree, above, files.0, content, shown.0);
    let own_b = own_rows(tree, above, files.1, content, shown.1);
    let below_a = rows_below(tree, n, above, files.0, content, shown.0);
    let below_b = rows_below(tree, n, above, files.1, content, shown.1);
    let a = note_rows(files.0, content, shown.0, found);
    let b = note_rows(files.1, content, shown.1, found);
    assert(a == own_a.and(below_a));
    assert(b == own_b.and(below_b));
    assert(own_a.nodes.len() == own_b.nodes.len());
    assert(own_a.tags =~= own_b.tags);
    assert(own_a.aliases =~= own_b.aliases);
    if own_a.nodes.len() <= i < a.nodes.len() {
        let k = i - own_a.nodes.len();
        assert(a.nodes[i] == below_a.nodes[k]);
        assert(b.nodes[i] == below_b.nodes[k]);
    } else if 0 <= i < own_a.nodes.len() {
        assert(a.nodes[i] == own_a.nodes[i]);
        assert(b.nodes[i] == own_b.nodes[i]);
    }
}

/// The rows of a note as a whole: with an ID exactly one node, at level 0 and
/// position 1; one tag row for each tag; and one alias row for each alias, behind
/// that for the `ROAM_ALIASES` property if there is one. Without an ID there are
/// no rows.
pub proof fn law_rows_of_a_note_as_a_whole(
    file: Seq<char>,
    title: Seq<char>,
    props: Seq<(Seq<char>, Seq<char>)>,
    aliases: Seq<Seq<char>>,
    tags: Seq<Seq<char>>,
    i: int,
)
    ensures
        ({
            let rows = file_rows(file, title, props, aliases, tags);
            let id = table::lookup(props, "ID"@);
            let own = table::lookup(props, "ROAM_ALIASES"@);
            let n: int = if own is Some {
                1
            } else {
                0
            };
            &&& id is None ==> rows.nodes.len() == 0 && rows.tags.len() == 0 && rows.aliases.len()
                == 0
            &&& id is Some ==> {
                let printed = lisp::lisp_form(id->0);
                &&& rows.nodes.len() == 1
                &&& rows.nodes[0].id == printed
                &&& rows.nodes[0].file == lisp::lisp_form(file)
                &&& rows.nodes[0].level == 0
                &&& rows.nodes[0].pos == 1
                &&& rows.nodes[0].todo == Some("nil"@)
                &&& rows.nodes[0].priority == Some("nil"@)
                &&& rows.nodes[0].title == lisp::lisp_form(title)
                &&& rows.nodes[0].properties == lisp::properties_form(props)
                &&& rows.nodes[0].olp == "nil"@
                &&& rows.tags.len() == tags.len()
                &&& 0 <= i < tags.len() ==> rows.tags[i].node_id == printed && rows.tags[i].tag
                    == lisp::lisp_form(tags[i])
                &&& rows.aliases.len() == aliases.len() + n
                &&& own is Some ==> rows.aliases[0].node_id == printed && rows.aliases[0].alias
                    == lisp::lisp_form(own->0)
                &&& 0 <= i < aliases.len() ==> rows.aliases[i + n].node_id == printed
                    && rows.aliases[i + n].alias == lisp::lisp_form(aliases[i])
            }
        }),
{
}

/// The rows of a heading: with an ID exactly one node, at the heading's level
/// and position, with its title and with all titles above it as its outline
/// path; one tag row for each of its tags; and one alias row if it has the
/// `ROAM_ALIASES` property. Without an ID there are no rows.
pub proof fn law_rows_of_a_heading(
    file: Seq<char>,
    start: int,
    data: HeadlineView,
    above: Seq<Seq<char>>,
    props: Seq<(Seq<char>, Seq<char>)>,
    i: int,
)
    ensures
        ({
            let rows = headline_rows(file, start, data, above, props);
            let id = table::lookup(props, "ID"@);
            let own = table::lookup(props, "ROAM_ALIASES"@);
            &&& id is None ==> rows.nodes.len() == 0 && rows.tags.len() == 0 && rows.aliases.len()
                == 0
            &&& id is Some ==> {
                let printed = lisp::lisp_form(id->0);
                &&& rows.nodes.len() == 1
                &&& rows.nodes[0].id == printed
                &&& rows.nodes[0].file == lisp::lisp_form(file)
                &&& rows.nodes[0].level == data.level
                &&& rows.nodes[0].pos == start + 1
                &&& rows.nodes[0].todo == Some("nil"@)
                &&& rows.nodes[0].priority == Some("nil"@)
                &&& rows.nodes[0].title == lisp::lisp_form(data.title)
                &&& rows.nodes[0].properties == lisp::properties_form(props)
                &&& rows.nodes[0].olp == lisp::olp_form(above)
                &&& rows.tags.len() == data.tags.len()
                &&& 0 <= i < data.tags.len() ==> rows.tags[i].node_id == printed && rows.tags[i].tag
                    == lisp::lisp_form(data.tags[i])
                &&& own is Some ==> rows.aliases.len() == 1 && rows.aliases[0].node_id == printed
                    && rows.aliases[0].alias == lisp::lisp_form(own->0)
                &&& own is None ==> rows.aliases.len() == 0
            }
        }),
{
}

/// The text of a heading is what stands from the heading on up to where it ends,
/// and the text before the first heading is what stands from the start of the
/// note on up to that heading.
pub proof fn law_parts_of_a_note_are_whole(content: Seq<char>, start: int, found: Seq<ElementView>)
    ensures
        keyword::is_headline_at(encode_utf8(content), start) ==> encode_utf8(
            section(content, start),
        ) == encode_utf8(content).subrange(start, keyword::section_end(content, start)),
        ({
            let bytes = encode_utf8(content);
            let headings = outline::headings(found, 1, found.len() as int, bytes);
            let end = if headings.len() > 0 {
                headings[0].0
            } else {
                bytes.len() as int
            };
            encode_utf8(intro(outline::outline(found, bytes), content)) == bytes.subrange(0, end)
        }),
{
    let bytes = encode_utf8(content);
    let headings = outline::headings(found, 1, found.len() as int, bytes);
    if keyword::is_headline_at(bytes, start) {
        keyword::lemma_section_end(content, start);
        text::lemma_slice_bytes(content, start, keyword::section_end(content, start));
    }
    law_intro_ends_at_the_first_heading(content, found);
    text::lemma_ends(content);
    if headings.len() > 0 {
        lemma_headings_are_headlines(found, 1, found.len() as int, bytes, 0);
        text::lemma_ascii_is_boundary(content, headings[0].0);
        text::lemma_slice_bytes(content, 0, headings[0].0);
    } else {
        text::lemma_slice_bytes(content, 0, bytes.len() as int);
    }
}

/// The rows of several trees, one after the other.
pub open spec fn forest_rows(
    trees: Seq<TreeView>,
    above: Seq<Seq<char>>,
    file: Seq<char>,
    content: Seq<char>,
    shown: Option<Seq<char>>,
) -> RowsView
    decreases trees.len(),
{
    if trees.len() == 0 {
        RowsView::none()
    } else {
        forest_rows(trees.drop_last(), above, file, content, shown).and(
            tree_rows(trees.last(), above, file, content, shown),
        )
    }
}

proof fn lemma_rows_below_are_forest_rows(
    tree: TreeView,
    n: nat,
    above: Seq<Seq<char>>,
    file: Seq<char>,
    content: Seq<char>,
    shown: Option<Seq<char>>,
)
    requires
        n <= tree.children.len(),
    ensures
        rows_below(tree, n, above, file, content, shown) == forest_rows(
            tree.children.take(n as int),
            above,
            file,
            content,
            shown,
        ),
    decreases n,
{
    if n > 0 {
        let part = tree.children.take(n as int);
        assert(part.drop_last() =~= tree.children.take(n - 1));
        assert(part.last() == tree.children[n - 1]);
        lemma_rows_below_are_forest_rows(tree, (n - 1) as nat, above, file, content, shown);
    }
}

/// An element comes with everything below it: its own rows, then those of the
/// elements below, from first to last, under the titles above it and, below a
/// heading, that heading's title.
pub proof fn law_rows_of_an_element_and_all_below(
    tree: TreeView,
    above: Seq<Seq<char>>,
    file: Seq<char>,
    content: Seq<char>,
    shown: Option<Seq<char>>,
)
    ensures
        ({
            let rows = tree_rows(tree, above, file, content, shown);
            &&& tree.data matches SyntaxView::Headline(data) ==> rows == headline_rows(
                file,
                tree.start,
                data,
                above,
                keyword::properties_of(section(content, tree.start)),
            ).and(forest_rows(tree.children, above.push(data.title), file, content, shown))
            &&& tree.data is OrgData && shown is Some ==> rows == file_rows(
                file,
                shown->0,
                keyword::properties_of(intro(tree, content)),
                keyword::aliases_of_line(keyword::aliases_line(intro(tree, content))),
                keyword::tags_of_line(keyword::filetags_line(intro(tree, content))),
            ).and(forest_rows(tree.children, above, file, content, shown))
            &&& tree.data is Other || (tree.data is OrgData && shown is None) ==> rows
                == forest_rows(tree.children, above, file, content, shown)
        }),
{
    let n = tree.children.len();
    lemma_rows_below_are_forest_rows(
        tree,
        n,
        titles_below(tree, above),
        file,
        content,
        shown,
    );
    assert(tree.children.take(n as int) =~= tree.children);
    let below = forest_rows(tree.children, titles_below(tree, above), file, content, shown);
    assert(RowsView::none().and(below) =~= below);
}

proof fn lemma_and_is_associative(a: RowsView, b: RowsView, c: RowsView)
    ensures
        a.and(b).and(c) == a.and(b.and(c)),
        RowsView::none().and(a) == a,
        a.and(RowsView::none()) == a,
{
    assert(a.and(b).and(c) =~= a.and(b.and(c)));
    assert(RowsView::none().and(a) =~= a);
    assert(a.and(RowsView::none()) =~= a);
}

proof fn lemma_forest_rows_sum(
    a: Seq<TreeView>,
    b: Seq<TreeView>,
    above: Seq<Seq<char>>,
    file: Seq<char>,
    content: Seq<char>,
    shown: Option<Seq<char>>,
)
    ensures
        forest_rows(a + b, above, file, content, shown) == forest_rows(
            a,
            above,
            file,
            content,
            shown,
        ).and(forest_rows(b, above, file, content, shown)),
    decreases b.len(),
{
    let ra = forest_rows(a, above, file, content, shown);
    if b.len() == 0 {
        assert(a + b =~= a);
        lemma_and_is_associative(ra, ra, ra);
    } else {
        assert((a + b).drop_last() =~= a + b.drop_last());
        lemma_forest_rows_sum(a, b.drop_last(), above, file, content, shown);
        lemma_and_is_associative(
            ra,
            forest_rows(b.drop_last(), above, file, content, shown),
            tree_rows(b.last(), above, file, content, shown),
        );
    }
}

/// The rows of the heading at `y`, if there is one, below the titles `above` and
/// those that the elements from `from` on put above it.
pub open spec fn rows_at(
    found: Seq<ElementView>,
    from: int,
    y: int,
    above: Seq<Seq<char>>,
    file: Seq<char>,
    content: Seq<char>,
) -> RowsView {
    let bytes = encode_utf8(content);
    if outline::is_heading(found[y], bytes) {
        headline_rows(
            file,
            found[y].start,
            outline::headline_of(found[y]),
            above + outline::titles_over(found, from, y, bytes),
            keyword::properties_of(section(content, found[y].start)),
        )
    } else {
        RowsView::none()
    }
}

/// The rows of the headings from `lo` up to `hi`, one after the other.
pub open spec fn rows_between(
    found: Seq<ElementView>,
    from: int,
    lo: int,
    hi: int,
    above: Seq<Seq<char>>,
    file: Seq<char>,
    content: Seq<char>,
) -> RowsView
    decreases hi - lo,
{
    if lo >= hi {
        RowsView::none()
    } else {
        rows_between(found, from, lo, hi - 1, above, file, content).and(
            rows_at(found, from, hi - 1, above, file, content),
        )
    }
}

proof fn lemma_rows_between_sum(
    found: Seq<ElementView>,
    from: int,
    lo: int,
    mid: int,
    hi: int,
    above: Seq<Seq<char>>,
    file: Seq<char>,
    content: Seq<char>,
)
    requires
        lo <= mid <= hi,
    ensures
        rows_between(found, from, lo, hi, above, file, content) == rows_between(
            found,
            from,
            lo,
            mid,
            above,
            file,
            content,
        ).and(rows_between(found, from, mid, hi, above, file, content)),
    decreases hi - mid,
{
    let a = rows_between(found, from, lo, mid, above, file, content);
    if mid < hi {
        lemma_rows_between_sum(found, from, lo, mid, hi - 1, above, file, content);
        lemma_and_is_associative(
            a,
            rows_between(found, from, mid, hi - 1, above, file, content),
            rows_at(found, from, hi - 1, above, file, content),
        );
    } else {
        lemma_and_is_associative(a, a, a);
    }
}

/// Where the titles above each heading are the same, so are the rows.
proof fn lemma_rows_between_shift(
    found: Seq<ElementView>,
    from: (int, int),
    lo: int,
    hi: int,
    above: (Seq<Seq<char>>, Seq<Seq<char>>),
    file: Seq<char>,
    content: Seq<char>,
)
    requires
        forall|y: int|
            lo <= y < hi ==> above.0 + (#[trigger] outline::titles_over(
                found,
                from.0,
                y,
                encode_utf8(content),
            )) == above.1 + outline::titles_over(found, from.1, y, encode_utf8(content)),
    ensures
        rows_between(found, from.0, lo, hi, above.0, file, content) == rows_between(
            found,
            from.1,
            lo,
            hi,
            above.1,
            file,
            content,
        ),
    decreases hi - lo,
{
    if lo < hi {
        lemma_rows_between_shift(found, from, lo, hi - 1, above, file, content);
        assert(above.0 + outline::titles_over(found, from.0, hi - 1, encode_utf8(content))
            == above.1 + outline::titles_over(found, from.1, hi - 1, encode_utf8(content)));
    }
}

/// Tells whether the element at `at` is not the heading of the section before
/// it.
spec fn is_free(found: Seq<ElementView>, at: int, bytes: Seq<u8>) -> bool {
    at <= 1 || !outline::opens_section(found, at - 1, bytes)
}

/// What follows some elements and all below them is free.
proof fn lemma_next_is_free(found: Seq<ElementView>, at: int, n: nat, bytes: Seq<u8>)
    requires
        0 <= at <= found.len(),
        is_free(found, at, bytes),
    ensures
        is_free(found, outline::behind_elements(found, at, n), bytes),
{
    let end = outline::behind_elements(found, at, n);
    outline::lemma_behind_elements(found, at, n);
    if end > at && outline::opens_section(found, end - 1, bytes) {
        outline::lemma_subtrees_nest(found, at, n, end - 1);
        outline::lemma_behind_elements(found, end, found[end - 1].count);
    }
}

/// Some elements and all below them end before what stands behind them.
proof fn lemma_ended(found: Seq<ElementView>, at: int, n: nat, y: int)
    requires
        0 <= at <= found.len(),
        outline::behind_elements(found, at, n) <= y,
    ensures
        forall|a: int|
            at <= a < outline::behind_elements(found, at, n) ==> #[trigger] outline::subtree_end(
                found,
                a,
            ) <= y,
{
    outline::lemma_behind_elements(found, at, n);
    assert forall|a: int|
        at <= a < outline::behind_elements(
            found,
            at,
            n,
        ) implies #[trigger] outline::subtree_end(found, a) <= y by {
        outline::lemma_subtrees_nest(found, at, n, a);
    }
}

proof fn lemma_element_rows(
    found: Seq<ElementView>,
    at: int,
    above: Seq<Seq<char>>,
    file: Seq<char>,
    content: Seq<char>,
    shown: Option<Seq<char>>,
)
    requires
        1 <= at < found.len(),
        is_free(found, at, encode_utf8(content)),
    ensures
        forest_rows(
            outline::element_trees(found, at, encode_utf8(content)).0,
            above,
            file,
            content,
            shown,
        ) == rows_between(
            found,
            at,
            at,
            outline::subtree_end(found, at),
            above,
            file,
            content,
        ),
    decreases found.len() - at, 0int,
{
    let bytes = encode_utf8(content);
    let next = outline::subtree_end(found, at);
    let none = Seq::<Seq<char>>::empty();
    outline::lemma_trees_end(found, at, 1, bytes);
    outline::lemma_behind_elements(found, at + 1, found[at].count);
    assert(rows_between(found, at, at, at, above, file, content) == RowsView::none());
    let first = rows_at(found, at, at, above, file, content);
    lemma_and_is_associative(first, first, first);
    lemma_rows_between_sum(found, at, at, at + 1, next, above, file, content);
    assert(rows_between(found, at, at, at + 1, above, file, content) == first);
    assert(above + outline::titles_over(found, at, at, bytes) =~= above);
    if outline::is_heading(found[at], bytes) {
        let below = outline::forest(found, at + 1, found[at].count, bytes).0;
        let tree = outline::heading_tree(found[at], below);
        let title = outline::headline_of(found[at]).title;
        lemma_one_tree(tree, above, file, content, shown);
        lemma_forest_rows_of(
            found,
            at + 1,
            found[at].count,
            above.push(title),
            file,
            content,
            shown,
        );
        assert forall|y: int| at + 1 <= y < next implies above + (
        #[trigger] outline::titles_over(found, at, y, bytes)) == above.push(title)
            + outline::titles_over(found, at + 1, y, bytes) by {
            assert(outline::title_over(found, at, y, bytes) =~= seq![title]);
            assert(above + (seq![title] + outline::titles_over(found, at + 1, y, bytes))
                =~= above.push(title) + outline::titles_over(found, at + 1, y, bytes));
        }
        lemma_rows_between_shift(
            found,
            (at, at + 1),
            at + 1,
            next,
            (above, above.push(title)),
            file,
            content,
        );
    } else if outline::opens_section(found, at, bytes) {
        let head = found[at + 1];
        let title = outline::headline_of(head).title;
        let (own, mid) = outline::forest(found, at + 2, head.count, bytes);
        let n = (found[at].count - 1) as nat;
        let others = outline::forest(found, mid, n, bytes).0;
        let tree = outline::heading_tree(head, own + others);
        outline::lemma_trees_end(found, at + 2, head.count, bytes);
        outline::lemma_behind_elements(found, at + 2, head.count);
        outline::lemma_trees_end(found, mid, n, bytes);
        outline::lemma_behind_elements(found, mid, n);
        assert(next == outline::behind_elements(found, mid, n));
        lemma_next_is_free(found, at + 2, head.count, bytes);
        lemma_one_tree(tree, above, file, content, shown);
        lemma_forest_rows_sum(own, others, above.push(title), file, content, shown);
        lemma_forest_rows_of(found, at + 2, head.count, above.push(title), file, content, shown);
        lemma_forest_rows_of(found, mid, n, above.push(title), file, content, shown);
        // The heading itself.
        assert(first == RowsView::none());
        assert(outline::titles_over(found, at, at + 1, bytes) =~= none) by {
            assert(outline::title_over(found, at, at + 1, bytes) =~= none);
            assert(outline::titles_over(found, at + 1, at + 1, bytes) =~= none);
        }
        assert(above + outline::titles_over(found, at, at + 1, bytes) =~= above);
        let second = rows_at(found, at, at + 1, above, file, content);
        lemma_and_is_associative(second, second, second);
        lemma_rows_between_sum(found, at, at + 1, at + 2, next, above, file, content);
        assert(rows_between(found, at, at + 1, at + 1, above, file, content) == RowsView::none());
        assert(rows_between(found, at, at + 1, at + 2, above, file, content) == second);
        lemma_rows_between_sum(found, at, at + 2, mid, next, above, file, content);
        // What else lies in the section.
        assert forall|y: int| at + 2 <= y < next implies above + (
        #[trigger] outline::titles_over(found, at, y, bytes)) == above.push(title)
            + outline::titles_over(found, at + 2, y, bytes) by {
            assert(outline::title_over(found, at, y, bytes) =~= seq![title]);
            assert(outline::title_over(found, at + 1, y, bytes) =~= none);
            assert(outline::titles_over(found, at + 1, y, bytes) =~= outline::titles_over(
                found,
                at + 2,
                y,
                bytes,
            ));
            assert(above + (seq![title] + outline::titles_over(found, at + 2, y, bytes))
                =~= above.push(title) + outline::titles_over(found, at + 2, y, bytes));
        }
        lemma_rows_between_shift(
            found,
            (at, at + 2),
            at + 2,
            mid,
            (above, above.push(title)),
            file,
            content,
        );
        assert forall|y: int| mid <= y < next implies above + (
        #[trigger] outline::titles_over(found, at, y, bytes)) == above.push(title)
            + outline::titles_over(found, mid, y, bytes) by {
            lemma_ended(found, at + 2, head.count, y);
            outline::lemma_titles_over(found, at + 2, mid, y, bytes);
            assert(above + outline::titles_over(found, at, y, bytes) == above.push(title)
                + outline::titles_over(found, at + 2, y, bytes));
        }
        lemma_rows_between_shift(
            found,
            (at, mid),
            mid,
            next,
            (above, above.push(title)),
            file,
            content,
        );
    } else {
        lemma_forest_rows_of(found, at + 1, found[at].count, above, file, content, shown);
        assert forall|y: int| at + 1 <= y < next implies above + (
        #[trigger] outline::titles_over(found, at, y, bytes)) == above + outline::titles_over(
            found,
            at + 1,
            y,
            bytes,
        ) by {
            assert(outline::title_over(found, at, y, bytes) =~= none);
            assert(outline::titles_over(found, at, y, bytes) =~= outline::titles_over(
                found,
                at + 1,
                y,
                bytes,
            ));
        }
        lemma_rows_between_shift(
            found,
            (at, at + 1),
            at + 1,
            next,
            (above, above),
            file,
            content,
        );
        lemma_and_is_associative(
            rows_between(found, at, at + 1, next, above, file, content),
            first,
            first,
        );
    }
}

/// The rows of one tree alone.
proof fn lemma_one_tree(
    tree: TreeView,
    above: Seq<Seq<char>>,
    file: Seq<char>,
    content: Seq<char>,
    shown: Option<Seq<char>>,
)
    ensures
        forest_rows(seq![tree], above, file, content, shown) == tree_rows(
            tree,
            above,
            file,
            content,
            shown,
        ),
        tree.data matches SyntaxView::Headline(data) ==> tree_rows(
            tree,
            above,
            file,
            content,
            shown,
        ) == headline_rows(
            file,
            tree.start,
            data,
            above,
            keyword::properties_of(section(content, tree.start)),
        ).and(forest_rows(tree.children, above.push(data.title), file, content, shown)),
{
    let rows = tree_rows(tree, above, file, content, shown);
    assert(seq![tree].drop_last() =~= seq![]);
    assert(forest_rows(seq![tree].drop_last(), above, file, content, shown) == RowsView::none());
    lemma_and_is_associative(rows, rows, rows);
    law_rows_of_an_element_and_all_below(tree, above, file, content, shown);
}

proof fn lemma_forest_rows_of(
    found: Seq<ElementView>,
    at: int,
    n: nat,
    above: Seq<Seq<char>>,
    file: Seq<char>,
    content: Seq<char>,
    shown: Option<Seq<char>>,
)
    requires
        1 <= at <= found.len(),
        is_free(found, at, encode_utf8(content)),
    ensures
        forest_rows(
            outline::forest(found, at, n, encode_utf8(content)).0,
            above,
            file,
            content,
            shown,
        ) == rows_between(
            found,
            at,
            at,
            outline::behind_elements(found, at, n),
            above,
            file,
            content,
        ),
    decreases found.len() - at, 1int,
{
    let bytes = encode_utf8(content);
    if n > 0 && at < found.len() {
        let m = (n - 1) as nat;
        let next = outline::subtree_end(found, at);
        let end = outline::behind_elements(found, at, n);
        let first = outline::element_trees(found, at, bytes).0;
        let others = outline::forest(found, next, m, bytes).0;
        outline::lemma_trees_end(found, at, n, bytes);
        outline::lemma_behind_elements(found, at + 1, found[at].count);
        outline::lemma_behind_elements(found, next, m);
        assert(outline::behind_elements(found, next, 0) == next);
        assert(outline::behind_elements(found, at, 1) == next);
        lemma_next_is_free(found, at, 1, bytes);
        lemma_element_rows(found, at, above, file, content, shown);
        lemma_forest_rows_of(found, next, m, above, file, content, shown);
        lemma_forest_rows_sum(first, others, above, file, content, shown);
        lemma_rows_between_sum(found, at, at, next, end, above, file, content);
        assert forall|y: int| next <= y < end implies above + (
        #[trigger] outline::titles_over(found, at, y, bytes)) == above + outline::titles_over(
            found,
            next,
            y,
            bytes,
        ) by {
            lemma_ended(found, at, 1, y);
            outline::lemma_titles_over(found, at, next, y, bytes);
        }
        lemma_rows_between_shift(found, (at, next), next, end, (above, above), file, content);
    }
}

/// The rows of a note are those of the note as a whole, if it is listed under a
/// title, and then those of its headings, one after the other as the parser
/// finds them. A heading's outline path holds the titles of all headings whose
/// sections it lies in, outermost first.
pub proof fn law_note_rows_go_by_what_is_found(
    file: Seq<char>,
    content: Seq<char>,
    shown: Option<Seq<char>>,
    found: Seq<ElementView>,
)
    ensures
        ({
            let text = intro(outline::outline(found, encode_utf8(content)), content);
            let headings = rows_between(
                found,
                1,
                1,
                found.len() as int,
                seq![],
                file,
                content,
            );
            &&& shown is Some ==> note_rows(file, content, shown, found) == file_rows(
                file,
                shown->0,
                keyword::properties_of(text),
                keyword::aliases_of_line(keyword::aliases_line(text)),
                keyword::tags_of_line(keyword::filetags_line(text)),
            ).and(headings)
            &&& shown is None ==> note_rows(file, content, shown, found) == headings
        }),
{
    let bytes = encode_utf8(content);
    let tree = outline::outline(found, bytes);
    law_rows_of_an_element_and_all_below(tree, seq![], file, content, shown);
    if found.len() > 0 {
        outline::lemma_behind_elements(found, 1, found.len());
        lemma_forest_rows_of(found, 1, found.len(), seq![], file, content, shown);
    }
}

/// A heading with an ID gives a node, wherever it stands: with its level, its
/// position, its title and, as its outline path, the printed list of the titles
/// of all headings whose sections it lies in, outermost first. Its tags and the
/// alias among its properties are there too. The result tells where.
pub proof fn law_heading_with_an_id_gives_a_node(
    file: Seq<char>,
    content: Seq<char>,
    shown: Option<Seq<char>>,
    found: Seq<ElementView>,
    y: int,
) -> (r: (int, int, int))
    requires
        1 <= y < found.len(),
        outline::is_heading(found[y], encode_utf8(content)),
        table::lookup(keyword::properties_of(section(content, found[y].start)), "ID"@) is Some,
    ensures
        ({
            let rows = note_rows(file, content, shown, found);
            let props = keyword::properties_of(section(content, found[y].start));
            let id = lisp::lisp_form(table::lookup(props, "ID"@)->0);
            let data = outline::headline_of(found[y]);
            let node = rows.nodes[r.0];
            &&& 0 <= r.0 < rows.nodes.len()
            &&& node.id == id
            &&& node.file == lisp::lisp_form(file)
            &&& node.level == data.level
            &&& node.pos == found[y].start + 1
            &&& node.title == lisp::lisp_form(data.title)
            &&& node.properties == lisp::properties_form(props)
            &&& node.olp == lisp::olp_form(
                outline::titles_over(found, 1, y, encode_utf8(content)),
            )
            &&& 0 <= r.1 && r.1 + data.tags.len() <= rows.tags.len()
            &&& forall|i: int|
                0 <= i < data.tags.len() ==> (#[trigger] rows.tags[r.1 + i]).node_id == id
                    && rows.tags[r.1 + i].tag == lisp::lisp_form(data.tags[i])
            &&& table::lookup(props, "ROAM_ALIASES"@) matches Some(alias) ==> 0 <= r.2
                < rows.aliases.len() && rows.aliases[r.2].node_id == id && rows.aliases[r.2].alias
                == lisp::lisp_form(alias)
        }),
{
    let bytes = encode_utf8(content);
    let n = found.len() as int;
    let none = Seq::<Seq<char>>::empty();
    let all = rows_between(found, 1, 1, n, none, file, content);
    let before = rows_between(found, 1, 1, y, none, file, content);
    let own = rows_at(found, 1, y, none, file, content);
    let behind = rows_between(found, 1, y + 1, n, none, file, content);
    law_note_rows_go_by_what_is_found(file, content, shown, found);
    lemma_rows_between_sum(found, 1, 1, y, n, none, file, content);
    lemma_rows_between_sum(found, 1, y, y + 1, n, none, file, content);
    assert(rows_between(found, 1, y, y, none, file, content) == RowsView::none());
    lemma_and_is_associative(own, own, own);
    assert(all == before.and(own.and(behind)));
    assert(none + outline::titles_over(found, 1, y, bytes) =~= outline::titles_over(
        found,
        1,
        y,
        bytes,
    ));
    let text = intro(outline::outline(found, bytes), content);
    let whole = if shown is Some {
        file_rows(
            file,
            shown->0,
            keyword::properties_of(text),
            keyword::aliases_of_line(keyword::aliases_line(text)),
            keyword::tags_of_line(keyword::filetags_line(text)),
        )
    } else {
        RowsView::none()
    };
    lemma_and_is_associative(all, all, all);
    let rows = note_rows(file, content, shown, found);
    assert(rows == whole.and(all));
    let k = whole.nodes.len() + before.nodes.len();
    let t = whole.tags.len() + before.tags.len();
    let a = whole.aliases.len() + before.aliases.len();
    assert(rows.nodes[k as int] == own.nodes[0]);
    let data = outline::headline_of(found[y]);
    assert forall|i: int| 0 <= i < data.tags.len() implies (#[trigger] rows.tags[t + i])
        == own.tags[i] by {}
    if table::lookup(
        keyword::properties_of(section(content, found[y].start)),
        "ROAM_ALIASES"@,
    ) is Some {
        assert(own.aliases.len() == 1);
        assert(rows.aliases[a as int] == own.aliases[0]);
    }
    (k as int, t as int, a as int)
}

/// A note with an ID that is listed under a title gives a node at level 0,
/// before all others, and its tags and aliases come before all others too: the
/// alias among its properties, whether or not there is an alias line, and then
/// those on the alias line.
pub proof fn law_note_with_an_id_gives_a_node(
    file: Seq<char>,
    content: Seq<char>,
    title: Seq<char>,
    found: Seq<ElementView>,
    i: int,
)
    requires
        has_file_id(content, found),
    ensures
        ({
            let rows = note_rows(file, content, Some(title), found);
            let text = intro(outline::outline(found, encode_utf8(content)), content);
            let props = keyword::properties_of(text);
            let tags = keyword::tags_of_line(keyword::filetags_line(text));
            let aliases = keyword::aliases_of_line(keyword::aliases_line(text));
            let id = lisp::lisp_form(table::lookup(props, "ID"@)->0);
            let own = table::lookup(props, "ROAM_ALIASES"@);
            let n: int = if own is Some {
                1
            } else {
                0
            };
            &&& rows.nodes.len() > 0
            &&& rows.nodes[0].id == id
            &&& rows.nodes[0].file == lisp::lisp_form(file)
            &&& rows.nodes[0].level == 0
            &&& rows.nodes[0].pos == 1
            &&& rows.nodes[0].title == lisp::lisp_form(title)
            &&& rows.nodes[0].properties == lisp::properties_form(props)
            &&& rows.nodes[0].olp == "nil"@
            &&& rows.tags.len() >= tags.len()
            &&& 0 <= i < tags.len() ==> rows.tags[i].node_id == id && rows.tags[i].tag
                == lisp::lisp_form(tags[i])
            &&& rows.aliases.len() >= aliases.len() + n
            &&& own is Some ==> rows.aliases[0].node_id == id && rows.aliases[0].alias
                == lisp::lisp_form(own->0)
            &&& 0 <= i < aliases.len() ==> rows.aliases[i + n].node_id == id
                && rows.aliases[i + n].alias == lisp::lisp_form(aliases[i])
        }),
{
    let text = intro(outline::outline(found, encode_utf8(content)), content);
    law_note_rows_go_by_what_is_found(file, content, Some(title), found);
    law_rows_of_a_note_as_a_whole(
        file,
        title,
        keyword::properties_of(text),
        keyword::aliases_of_line(keyword::aliases_line(text)),
        keyword::tags_of_line(keyword::filetags_line(text)),
        i,
    );
}

/// The text before the first heading, at `y`, is what stands from the start of
/// the note on up to that heading; without a heading it is the whole note.
pub proof fn law_text_before_the_first_heading(
    content: Seq<char>,
    found: Seq<ElementView>,
    y: int,
)
    requires
        1 <= y <= found.len(),
        forall|a: int|
            1 <= a < y ==> !outline::is_heading(#[trigger] found[a], encode_utf8(content)),
        y < found.len() ==> outline::is_heading(found[y], encode_utf8(content)),
    ensures
        ({
            let bytes = encode_utf8(content);
            let text = intro(outline::outline(found, bytes), content);
            &&& y < found.len() ==> encode_utf8(text) == bytes.subrange(0, found[y].start)
            &&& y == found.len() ==> text == content
        }),
{
    let bytes = encode_utf8(content);
    let n = found.len() as int;
    law_parts_of_a_note_are_whole(content, 0, found);
    outline::lemma_first_heading(found, y, n, bytes);
    if y == n {
        assert(bytes.subrange(0, bytes.len() as int) =~= bytes);
        encode_utf8_decode_utf8(content);
        encode_utf8_decode_utf8(intro(outline::outline(found, bytes), content));
    }
}

/// Rows are added behind those that are there.
pub proof fn law_rows_are_appended(a: RowsView, b: RowsView)
    ensures
        a.and(b).nodes == a.nodes + b.nodes,
        a.and(b).tags == a.tags + b.tags,
        a.and(b).aliases == a.aliases + b.aliases,
{
}

/// A note whose offsets fit the parser can be indexed if it is listed under a
/// title or has no ID as a whole, and only then.
pub proof fn law_notes_that_can_be_indexed(
    content: Seq<char>,
    shown: Option<Seq<char>>,
    found: Seq<ElementView>,
)
    ensures
        is_indexable(content, shown, found) <==> encode_utf8(content).len() <= u32::MAX && (shown
            is Some || table::lookup(
            keyword::properties_of(intro(outline::outline(found, encode_utf8(content)), content)),
            "ID"@,
        ) is None),
{
}

} // verus!
