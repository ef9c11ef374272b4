//! The outline of a note: its headlines and how they nest.

use org_element::traversal::NodeExt;
use org_element::{Element, Parser};
use vstd::prelude::*;
use vstd::utf8::*;

use crate::keyword;
use crate::keyword::starts_headline;
use crate::text;

verus! {

/// What a headline says: its level, which is the number of its stars, its
/// title and its tags.
pub struct HeadlineData {
    pub level: i64,
    pub title: String,
    pub tags: Vec<String>,
}

/// The kind of an element of a note.
pub enum Syntax {
    /// The note as a whole.
    OrgData,
    /// A headline; the elements below it lie in its subtree.
    Headline(HeadlineData),
    /// Any other element.
    Other,
}

/// An element of a note, where it starts (as a byte offset) and the elements
/// below it.
pub struct SyntaxNode {
    pub data: Syntax,
    pub start: usize,
    pub children: Vec<SyntaxNode>,
}

/// The model of `HeadlineData`.
pub struct HeadlineView {
    pub level: int,
    pub title: Seq<char>,
    pub tags: Seq<Seq<char>>,
}

/// The model of `Syntax`.
pub enum SyntaxView {
    OrgData,
    Headline(HeadlineView),
    Other,
}

/// The model of `SyntaxNode`.
pub struct TreeView {
    pub data: SyntaxView,
    pub start: int,
    pub children: Seq<TreeView>,
}

impl HeadlineData {
    pub open spec fn view(&self) -> HeadlineView {
        HeadlineView { level: self.level as int, title: self.title@, tags: self.tags.deep_view() }
    }
}

impl Syntax {
    pub open spec fn view(&self) -> SyntaxView {
        match self {
            Syntax::OrgData => SyntaxView::OrgData,
            Syntax::Headline(data) => SyntaxView::Headline(data.view()),
            Syntax::Other => SyntaxView::Other,
        }
    }
}

impl SyntaxNode {
    pub open spec fn view(&self) -> TreeView
        decreases self,
    {
        TreeView {
            data: self.data.view(),
            start: self.start as int,
            children: Seq::new(
                self.children@.len(),
                |i: int|
                    if 0 <= i < self.children@.len() {
                        self.children@[i].view()
                    } else {
                        arbitrary()
                    },
            ),
        }
    }
}

/// The models of several nodes.
pub open spec fn tree_views(nodes: Seq<SyntaxNode>) -> Seq<TreeView> {
    nodes.map_values(|n: SyntaxNode| n.view())
}

/// The kind of an element that the parser finds.
#[derive(Debug)]
pub enum ElementKind {
    /// A headline with everything below it.
    Section,
    /// The line of a headline.
    Headline,
    /// Any other element.
    Other,
}

/// An element that the parser finds: its kind, where it starts (as a byte
/// offset) and how many elements lie directly below it; of a headline, its
/// level, title and tags as far as it has them.
#[derive(Debug)]
pub struct FoundElement {
    pub kind: ElementKind,
    pub start: usize,
    pub count: usize,
    pub level: Option<i64>,
    pub title: Option<String>,
    pub tags: Option<Vec<String>>,
}

/// The model of `FoundElement`.
pub struct ElementView {
    pub kind: ElementKind,
    pub start: int,
    pub count: nat,
    pub level: Option<i64>,
    pub title: Option<Seq<char>>,
    pub tags: Option<Seq<Seq<char>>>,
}

impl View for FoundElement {
    type V = ElementView;

    open spec fn view(&self) -> ElementView {
        ElementView {
            kind: self.kind,
            start: self.start as int,
            count: self.count as nat,
            level: self.level,
            title: self.title.deep_view(),
            tags: self.tags.deep_view(),
        }
    }
}

/// The models of several elements.
pub open spec fn element_views(found: Seq<FoundElement>) -> Seq<ElementView> {
    found.map_values(|e: FoundElement| e@)
}

/// Tells whether `c` is white space in every locale. A locale may add control
/// characters and characters beyond ASCII, but none that is graphic in ASCII.
pub open spec fn is_ascii_space(c: char) -> bool {
    c == ' ' || '\t' <= c <= '\r'
}

/// Tells whether `c` can be the end of a bullet or of the stars of a headline.
pub open spec fn ends_bullet(c: char) -> bool {
    c == '*' || c == '-' || c == '+' || c == '.' || c == ')'
}

/// The columns that the blanks from `at` on take up; a tab counts as eight.
pub open spec fn indentation(s: Seq<char>, at: int) -> nat
    decreases s.len() - at,
{
    if at < 0 || at >= s.len() {
        0
    } else if s[at] == ' ' {
        1 + indentation(s, at + 1)
    } else if s[at] == '\t' {
        8 + indentation(s, at + 1)
    } else {
        0
    }
}

/// Tells whether the parser finds the same in `s` in every locale and on every
/// machine. That is so where every locale agrees on whether white space stands
/// behind what may be a bullet or the stars of a headline, and where seven bits
/// hold every indentation and every number of stars.
pub open spec fn is_settled(s: Seq<char>) -> bool {
    &&& forall|i: int|
        0 < i < s.len() && ends_bullet(s[i - 1]) ==> is_ascii_space(#[trigger] s[i]) || '!' <= s[i]
            <= '~'
    &&& forall|i: int| 0 <= i < s.len() ==> #[trigger] indentation(s, i) < 128
    &&& forall|i: int| 0 <= i <= s.len() - 128 ==> !#[trigger] has_stars(s, i, 128)
}

/// Tells whether `n` stars stand in a row from `from` on.
pub open spec fn has_stars(s: Seq<char>, from: int, n: int) -> bool {
    forall|i: int| from <= i < from + n ==> #[trigger] s[i] == '*'
}

/// The elements that the parser finds in a settled text: each element before
/// those below it, in the order of the text.
pub uninterp spec fn elements_of(content: Seq<char>) -> Seq<ElementView>;

/// Calls `org_element::Parser::parse` and goes through its result with
/// `org_element::traversal::NodeExt::iter_descendants`, which gives each element
/// before those below it. Parsing always succeeds: the parser has its language,
/// and nothing interrupts it. What is found in a settled text is only given a
/// name. Nothing is said of other texts: the parser asks the C library whether
/// white space stands behind a bullet or the stars of a headline, which depends
/// on the locale, and keeps indentations and numbers of stars in C characters,
/// which depend on the machine. The parser counts bytes in 32 bits, and its
/// stack grows with the nesting of the text.
#[verifier::external_body]
fn find_elements(content: &str) -> (r: Option<Vec<FoundElement>>)
    requires
        encode_utf8(content@).len() <= u32::MAX,
    ensures
        r is Some,
        is_settled(content@) ==> element_views(r->0@) == elements_of(content@),
{
    let ast = Parser::new().ok()?.parse(content).ok()?;
    Some(ast.iter_descendants().map(|node| {
        let node = node.borrow();
        let kind = match node.as_element() {
            Some(Element::Section) => ElementKind::Section,
            Some(Element::Headline) => ElementKind::Headline,
            _ => ElementKind::Other,
        };
        let level = node.properties.get_integer("level");
        let title = node.properties.get_string("title").map(|t| t.to_string());
        let tags = node.properties.get_string_list("tags").map(|t| t.to_vec());
        FoundElement { kind, start: node.begin(), count: node.children().len(), level, title, tags }
    }).collect())
}

/// Tells whether the parser may find `found` in `content`. That leaves a choice
/// only where the text is not settled.
pub open spec fn may_find(content: Seq<char>, found: Seq<ElementView>) -> bool {
    is_settled(content) ==> found == elements_of(content)
}

/// Tells whether an element is the line of a headline: stars at the start of a
/// line, then a space. The parser also takes other white space behind the stars
/// and other line breaks before them.
pub open spec fn is_heading(e: ElementView, bytes: Seq<u8>) -> bool {
    e.kind is Headline && keyword::is_headline_at(bytes, e.start)
}

/// What a headline says: what the parser does not have is zero or empty.
pub open spec fn headline_of(e: ElementView) -> HeadlineView {
    let level = match e.level {
        Some(level) => level as int,
        None => 0,
    };
    let title = match e.title {
        Some(title) => title,
        None => seq![],
    };
    let tags = match e.tags {
        Some(tags) => tags,
        None => seq![],
    };
    HeadlineView { level, title, tags }
}

/// The tree of a heading.
pub open spec fn heading_tree(e: ElementView, children: Seq<TreeView>) -> TreeView {
    TreeView { data: SyntaxView::Headline(headline_of(e)), start: e.start, children }
}

/// Tells whether the element at `at` is a section that begins with a heading.
pub open spec fn opens_section(found: Seq<ElementView>, at: int, bytes: Seq<u8>) -> bool {
    &&& found[at].kind is Section
    &&& found[at].count > 0
    &&& at + 1 < found.len()
    &&& is_heading(found[at + 1], bytes)
}

/// The trees that the element at `at` and those below it form, and where the
/// next element stands. A section becomes the tree of its heading; what has no
/// heading gives way to the trees below it.
pub open spec fn element_trees(found: Seq<ElementView>, at: int, bytes: Seq<u8>) -> (
    Seq<TreeView>,
    int,
)
    decreases found.len() - at, 0int,
{
    if at < 0 || at >= found.len() {
        (seq![], at)
    } else if is_heading(found[at], bytes) {
        let (below, next) = forest(found, at + 1, found[at].count, bytes);
        (seq![heading_tree(found[at], below)], next)
    } else if opens_section(found, at, bytes) {
        let (own, mid) = forest(found, at + 2, found[at + 1].count, bytes);
        if at + 2 <= mid <= found.len() {
            let (others, next) = forest(found, mid, (found[at].count - 1) as nat, bytes);
            (seq![heading_tree(found[at + 1], own + others)], next)
        } else {
            (seq![], at)
        }
    } else {
        forest(found, at + 1, found[at].count, bytes)
    }
}

/// The trees that `n` elements from `at` on and those below them form, and where
/// the next element stands.
pub open spec fn forest(found: Seq<ElementView>, at: int, n: nat, bytes: Seq<u8>) -> (
    Seq<TreeView>,
    int,
)
    decreases found.len() - at, 1int,
{
    if n == 0 || at < 0 || at >= found.len() {
        (seq![], at)
    } else {
        let (first, next) = element_trees(found, at, bytes);
        if at < next <= found.len() {
            let (others, end) = forest(found, next, (n - 1) as nat, bytes);
            (first + others, end)
        } else {
            (seq![], at)
        }
    }
}

/// The tree of a note in which the parser finds `found`; the first element is
/// the note as a whole.
pub open spec fn outline(found: Seq<ElementView>, bytes: Seq<u8>) -> TreeView {
    TreeView {
        data: SyntaxView::OrgData,
        start: 0,
        children: forest(found, 1, found.len(), bytes).0,
    }
}

/// Reading elements gets further, and never beyond the end.
proof fn lemma_element_end(found: Seq<ElementView>, at: int, bytes: Seq<u8>)
    requires
        0 <= at < found.len(),
    ensures
        at < element_trees(found, at, bytes).1 <= found.len(),
    decreases found.len() - at, 0int,
{
    if is_heading(found[at], bytes) {
        lemma_forest_end(found, at + 1, found[at].count, bytes);
    } else if opens_section(found, at, bytes) {
        lemma_forest_end(found, at + 2, found[at + 1].count, bytes);
        let mid = forest(found, at + 2, found[at + 1].count, bytes).1;
        lemma_forest_end(found, mid, (found[at].count - 1) as nat, bytes);
    } else {
        lemma_forest_end(found, at + 1, found[at].count, bytes);
    }
}

proof fn lemma_forest_end(found: Seq<ElementView>, at: int, n: nat, bytes: Seq<u8>)
    requires
        0 <= at <= found.len(),
    ensures
        at <= forest(found, at, n, bytes).1 <= found.len(),
        n >= found.len() - at ==> forest(found, at, n, bytes).1 == found.len(),
    decreases found.len() - at, 1int,
{
    if n > 0 && at < found.len() {
        lemma_element_end(found, at, bytes);
        let next = element_trees(found, at, bytes).1;
        lemma_forest_end(found, next, (n - 1) as nat, bytes);
    }
}

/// A copy of `tags`.
fn copy_strings(tags: &Vec<String>) -> (r: Vec<String>)
    ensures
        r.deep_view() == tags.deep_view(),
{
    let n: usize = tags.len();
    let mut r: Vec<String> = Vec::new();
    let mut i: usize = 0;
    while i < n
        invariant
            n == tags@.len(),
            i <= n,
            r@.len() == i,
            forall|j: int| 0 <= j < i ==> (#[trigger] r@[j])@ == tags@[j]@,
        decreases n - i,
    {
        r.push(tags[i].clone());
        i = i + 1;
    }
    assert(r.deep_view() =~= tags.deep_view());
    r
}

/// Reads what a headline says off what the parser finds.
fn read_headline(e: &FoundElement) -> (r: HeadlineData)
    ensures
        r.view() == headline_of(e@),
{
    let level: i64 = match e.level {
        Some(level) => level,
        None => 0,
    };
    let title = match &e.title {
        Some(title) => title.clone(),
        None => String::new(),
    };
    let tags = match &e.tags {
        Some(tags) => copy_strings(tags),
        None => Vec::new(),
    };
    proof {
        assert(e@.title is None ==> title@ =~= seq![]);
        assert(e@.tags is None ==> tags.deep_view() =~= seq![]);
    }
    HeadlineData { level, title, tags }
}

/// Tells whether an element is the line of a headline.
fn check_heading(e: &FoundElement, bytes: &[u8]) -> (r: bool)
    ensures
        r == is_heading(e@, bytes@),
{
    match e.kind {
        ElementKind::Headline => starts_headline(bytes, e.start),
        _ => false,
    }
}

/// Makes the tree of a heading.
fn make_heading(e: &FoundElement, children: Vec<SyntaxNode>) -> (r: SyntaxNode)
    ensures
        r.view() == heading_tree(e@, tree_views(children@)),
{
    let ghost below = tree_views(children@);
    let r = SyntaxNode { data: Syntax::Headline(read_headline(e)), start: e.start, children };
    assert(r.view().children =~= below);
    r
}

/// Builds the trees of the element at `at` and those below it, and tells where
/// the next element stands.
fn build_element(found: &Vec<FoundElement>, at: usize, bytes: &[u8]) -> (r: (
    Vec<SyntaxNode>,
    usize,
))
    requires
        at < found@.len(),
    ensures
        tree_views(r.0@) == element_trees(element_views(found@), at as int, bytes@).0,
        r.1 == element_trees(element_views(found@), at as int, bytes@).1,
        at < r.1 <= found@.len(),
    decreases found@.len() - at, 0int,
{
    let len: usize = found.len();
    let ghost all = element_views(found@);
    proof {
        lemma_element_end(all, at as int, bytes@);
    }
    if check_heading(&found[at], bytes) {
        let (below, next) = build_forest(found, at + 1, found[at].count, bytes);
        let node = make_heading(&found[at], below);
        let ghost tree = node.view();
        let trees = vec![node];
        assert(tree_views(trees@) =~= seq![tree]);
        return (trees, next);
    }
    let is_section = match found[at].kind {
        ElementKind::Section => true,
        _ => false,
    };
    if is_section && found[at].count > 0 && at + 1 < len && check_heading(&found[at + 1], bytes) {
        assert(opens_section(all, at as int, bytes@));
        let (own, mid) = build_forest(found, at + 2, found[at + 1].count, bytes);
        let (mut others, next) = build_forest(found, mid, found[at].count - 1, bytes);
        let mut below = own;
        let ghost trees = tree_views(below@) + tree_views(others@);
        below.append(&mut others);
        assert(tree_views(below@) =~= trees);
        let node = make_heading(&found[at + 1], below);
        let ghost tree = node.view();
        let trees = vec![node];
        assert(tree_views(trees@) =~= seq![tree]);
        (trees, next)
    } else {
        assert(!opens_section(all, at as int, bytes@));
        build_forest(found, at + 1, found[at].count, bytes)
    }
}

/// Builds the trees of `n` elements from `at` on and those below them, and tells
/// where the next element stands.
fn build_forest(found: &Vec<FoundElement>, at: usize, n: usize, bytes: &[u8]) -> (r: (
    Vec<SyntaxNode>,
    usize,
))
    requires
        at <= found@.len(),
    ensures
        tree_views(r.0@) == forest(element_views(found@), at as int, n as nat, bytes@).0,
        r.1 == forest(element_views(found@), at as int, n as nat, bytes@).1,
        at <= r.1 <= found@.len(),
    decreases found@.len() - at, 1int,
{
    let ghost all = element_views(found@);
    let ghost goal = forest(all, at as int, n as nat, bytes@);
    let mut trees: Vec<SyntaxNode> = Vec::new();
    let mut next: usize = at;
    let mut i: usize = 0;
    assert(tree_views(trees@) =~= seq![]);
    assert(goal.0 =~= tree_views(trees@) + forest(all, next as int, n as nat, bytes@).0);
    while i < n && next < found.len()
        invariant
            all == element_views(found@),
            at <= next <= found@.len(),
            i <= n,
            goal.0 == tree_views(trees@) + forest(all, next as int, (n - i) as nat, bytes@).0,
            goal.1 == forest(all, next as int, (n - i) as nat, bytes@).1,
        decreases found@.len() - next,
    {
        let (mut first, end) = build_element(found, next, bytes);
        let ghost before = tree_views(trees@);
        let ghost rest = forest(all, end as int, (n - i - 1) as nat, bytes@).0;
        assert(goal.0 =~= before + (tree_views(first@) + rest));
        let ghost added = tree_views(first@);
        trees.append(&mut first);
        assert(tree_views(trees@) =~= before + added);
        assert(goal.0 =~= tree_views(trees@) + rest);
        next = end;
        i = i + 1;
    }
    assert(goal.0 =~= tree_views(trees@));
    (trees, next)
}

/// Builds the tree of a note from what the parser finds.
pub fn build_outline(found: &Vec<FoundElement>, content: &str) -> (r: SyntaxNode)
    ensures
        r.view() == outline(element_views(found@), encode_utf8(content@)),
        fits(r.view(), content@),
{
    let bytes = content.as_bytes();
    let n: usize = found.len();
    let children = if n == 0 {
        Vec::new()
    } else {
        build_forest(found, 1, n, bytes).0
    };
    let ghost below = tree_views(children@);
    let r = SyntaxNode { data: Syntax::OrgData, start: 0, children };
    proof {
        let all = element_views(found@);
        assert(below =~= forest(all, 1, n as nat, bytes@).0);
        assert(r.view().children =~= below);
        lemma_forest_fits(all, 1, n as nat, content@);
    }
    r
}

/// Tells whether every headline in a tree starts between two characters of
/// `content`.
pub open spec fn fits(tree: TreeView, content: Seq<char>) -> bool
    decreases tree,
{
    &&& tree.data is Headline ==> text::is_boundary(content, tree.start)
    &&& forall|i: int|
        0 <= i < tree.children.len() ==> fits(#[trigger] tree.children[i], content)
}

/// Tells whether all of the trees fit `content`.
pub open spec fn all_fit(trees: Seq<TreeView>, content: Seq<char>) -> bool {
    forall|i: int| 0 <= i < trees.len() ==> fits(#[trigger] trees[i], content)
}

proof fn lemma_all_fit_sum(a: Seq<TreeView>, b: Seq<TreeView>, content: Seq<char>)
    requires
        all_fit(a, content),
        all_fit(b, content),
    ensures
        all_fit(a + b, content),
{
    assert forall|i: int| 0 <= i < (a + b).len() implies fits(#[trigger] (a + b)[i], content) by {
        if i < a.len() {
            assert((a + b)[i] == a[i]);
        } else {
            assert((a + b)[i] == b[i - a.len()]);
        }
    }
}

proof fn lemma_heading_fits(e: ElementView, below: Seq<TreeView>, content: Seq<char>)
    requires
        is_heading(e, encode_utf8(content)),
        all_fit(below, content),
    ensures
        all_fit(seq![heading_tree(e, below)], content),
{
    let tree = heading_tree(e, below);
    text::lemma_ascii_is_boundary(content, e.start);
    assert forall|i: int| 0 <= i < tree.children.len() implies fits(
        #[trigger] tree.children[i],
        content,
    ) by {
        assert(fits(below[i], content));
    }
    assert(fits(tree, content));
}

proof fn lemma_element_fits(found: Seq<ElementView>, at: int, content: Seq<char>)
    ensures
        all_fit(element_trees(found, at, encode_utf8(content)).0, content),
    decreases found.len() - at, 0int,
{
    let bytes = encode_utf8(content);
    if 0 <= at < found.len() {
        if is_heading(found[at], bytes) {
            lemma_forest_fits(found, at + 1, found[at].count, content);
            lemma_heading_fits(
                found[at],
                forest(found, at + 1, found[at].count, bytes).0,
                content,
            );
        } else if opens_section(found, at, bytes) {
            let (own, mid) = forest(found, at + 2, found[at + 1].count, bytes);
            lemma_forest_fits(found, at + 2, found[at + 1].count, content);
            if at + 2 <= mid <= found.len() {
                let n = (found[at].count - 1) as nat;
                let others = forest(found, mid, n, bytes).0;
                lemma_forest_fits(found, mid, n, content);
                lemma_all_fit_sum(own, others, content);
                lemma_heading_fits(found[at + 1], own + others, content);
            }
        } else {
            lemma_forest_fits(found, at + 1, found[at].count, content);
        }
    }
}

proof fn lemma_forest_fits(found: Seq<ElementView>, at: int, n: nat, content: Seq<char>)
    ensures
        all_fit(forest(found, at, n, encode_utf8(content)).0, content),
    decreases found.len() - at, 1int,
{
    let bytes = encode_utf8(content);
    if n > 0 && 0 <= at < found.len() {
        let (first, next) = element_trees(found, at, bytes);
        lemma_element_fits(found, at, content);
        if at < next <= found.len() {
            lemma_forest_fits(found, next, (n - 1) as nat, content);
            lemma_all_fit_sum(first, forest(found, next, (n - 1) as nat, bytes).0, content);
        }
    }
}

/// Has the parser go through a note.
pub fn parse_elements(content: &str) -> (r: Vec<FoundElement>)
    requires
        encode_utf8(content@).len() <= u32::MAX,
    ensures
        may_find(content@, element_views(r@)),
{
    match find_elements(content) {
        Some(found) => found,
        None => unreached(),
    }
}

/// Reads the outline of a note.
pub fn parse_outline(content: &str) -> (r: SyntaxNode)
    requires
        encode_utf8(content@).len() <= u32::MAX,
    ensures
        exists|found: Seq<ElementView>| #[trigger]
            may_find(content@, found) && r.view() == outline(found, encode_utf8(content@)),
        fits(r.view(), content@),
{
    let found = parse_elements(content);
    build_outline(&found, content)
}

/// The headlines in a tree, in the order of the note.
pub open spec fn headlines_in(tree: TreeView) -> Seq<(int, HeadlineView)>
    decreases tree, tree.children.len() + 1,
{
    let own = match tree.data {
        SyntaxView::Headline(data) => seq![(tree.start, data)],
        _ => seq![],
    };
    own + headlines_below(tree, tree.children.len())
}

/// The headlines in the first `n` trees below a tree.
pub open spec fn headlines_below(tree: TreeView, n: nat) -> Seq<(int, HeadlineView)>
    decreases tree, n,
{
    if n == 0 || n > tree.children.len() {
        seq![]
    } else {
        headlines_below(tree, (n - 1) as nat) + headlines_in(tree.children[n - 1])
    }
}

/// The headlines in several trees.
pub open spec fn headlines_in_all(trees: Seq<TreeView>) -> Seq<(int, HeadlineView)>
    decreases trees.len(),
{
    if trees.len() == 0 {
        seq![]
    } else {
        headlines_in(trees[0]) + headlines_in_all(trees.drop_first())
    }
}

/// Going through the trees below from the last one backwards gives the same
/// headlines as going through them forwards.
pub proof fn lemma_headlines_below(tree: TreeView, n: nat)
    requires
        n <= tree.children.len(),
    ensures
        headlines_below(tree, n) == headlines_in_all(tree.children.take(n as int)),
    decreases n,
{
    let front = tree.children.take(n as int);
    if n > 0 {
        lemma_headlines_below(tree, (n - 1) as nat);
        assert(front.drop_last() =~= tree.children.take(n - 1));
        lemma_headlines_in_all_push(tree.children.take(n - 1), tree.children[n - 1]);
        assert(front =~= tree.children.take(n - 1).push(tree.children[n - 1]));
    }
}

proof fn lemma_headlines_in_all_push(trees: Seq<TreeView>, last: TreeView)
    ensures
        headlines_in_all(trees.push(last)) == headlines_in_all(trees) + headlines_in(last),
    decreases trees.len(),
{
    if trees.len() == 0 {
        assert(trees.push(last).drop_first() =~= trees);
        assert(trees.push(last)[0] == last);
        assert(headlines_in_all(trees) =~= seq![]);
        assert(headlines_in_all(trees.push(last)) =~= headlines_in(last));
    } else {
        assert(trees.push(last).drop_first() =~= trees.drop_first().push(last));
        lemma_headlines_in_all_push(trees.drop_first(), last);
        assert(headlines_in_all(trees.push(last)) =~= headlines_in_all(trees) + headlines_in(last));
    }
}

proof fn lemma_headlines_in_sum(a: Seq<TreeView>, b: Seq<TreeView>)
    ensures
        headlines_in_all(a + b) == headlines_in_all(a) + headlines_in_all(b),
    decreases a.len(),
{
    if a.len() == 0 {
        assert(a + b =~= b);
        assert(headlines_in_all(a + b) =~= headlines_in_all(a) + headlines_in_all(b));
    } else {
        assert((a + b).drop_first() =~= a.drop_first() + b);
        lemma_headlines_in_sum(a.drop_first(), b);
        assert(headlines_in_all(a + b) =~= headlines_in_all(a) + headlines_in_all(b));
    }
}

/// The headings among the elements from `from` up to `to`, in order.
pub open spec fn headings(found: Seq<ElementView>, from: int, to: int, bytes: Seq<u8>) -> Seq<
    (int, HeadlineView),
>
    decreases to - from,
{
    if from >= to {
        seq![]
    } else {
        let before = headings(found, from, to - 1, bytes);
        if is_heading(found[to - 1], bytes) {
            before.push((found[to - 1].start, headline_of(found[to - 1])))
        } else {
            before
        }
    }
}

proof fn lemma_headings_sum(found: Seq<ElementView>, a: int, b: int, c: int, bytes: Seq<u8>)
    requires
        a <= b <= c,
    ensures
        headings(found, a, c, bytes) == headings(found, a, b, bytes) + headings(
            found,
            b,
            c,
            bytes,
        ),
    decreases c - b,
{
    if b < c {
        lemma_headings_sum(found, a, b, c - 1, bytes);
    }
    assert(headings(found, a, c, bytes) =~= headings(found, a, b, bytes) + headings(
        found,
        b,
        c,
        bytes,
    ));
}

/// A tree of a heading holds the heading and the headlines below it.
proof fn lemma_heading_tree(e: ElementView, below: Seq<TreeView>)
    ensures
        headlines_in_all(seq![heading_tree(e, below)]) == seq![(e.start, headline_of(e))]
            + headlines_in_all(below),
{
    let tree = heading_tree(e, below);
    lemma_headlines_below(tree, below.len());
    assert(below.take(below.len() as int) =~= below);
    assert(seq![tree].drop_first() =~= seq![]);
    assert(headlines_in_all(seq![tree].drop_first()) =~= seq![]);
    assert(headlines_in_all(seq![tree]) =~= headlines_in(tree));
}

proof fn lemma_element_headings(found: Seq<ElementView>, at: int, bytes: Seq<u8>)
    requires
        0 <= at < found.len(),
    ensures
        headlines_in_all(element_trees(found, at, bytes).0) == headings(
            found,
            at,
            element_trees(found, at, bytes).1,
            bytes,
        ),
    decreases found.len() - at, 0int,
{
    let next = element_trees(found, at, bytes).1;
    lemma_element_end(found, at, bytes);
    lemma_headings_sum(found, at, at + 1, next, bytes);
    assert(headings(found, at, at, bytes) =~= seq![]);
    if is_heading(found[at], bytes) {
        let below = forest(found, at + 1, found[at].count, bytes).0;
        lemma_forest_headings(found, at + 1, found[at].count, bytes);
        lemma_heading_tree(found[at], below);
        assert(headings(found, at, at + 1, bytes) =~= seq![
            (found[at].start, headline_of(found[at])),
        ]);
    } else if opens_section(found, at, bytes) {
        let (own, mid) = forest(found, at + 2, found[at + 1].count, bytes);
        let others = forest(found, mid, (found[at].count - 1) as nat, bytes).0;
        lemma_forest_end(found, at + 2, found[at + 1].count, bytes);
        lemma_forest_end(found, mid, (found[at].count - 1) as nat, bytes);
        lemma_forest_headings(found, at + 2, found[at + 1].count, bytes);
        lemma_forest_headings(found, mid, (found[at].count - 1) as nat, bytes);
        lemma_headlines_in_sum(own, others);
        lemma_heading_tree(found[at + 1], own + others);
        lemma_headings_sum(found, at + 1, at + 2, next, bytes);
        lemma_headings_sum(found, at + 2, mid, next, bytes);
        assert(headings(found, at + 1, at + 1, bytes) =~= seq![]);
        assert(headings(found, at + 1, at + 2, bytes) =~= seq![
            (found[at + 1].start, headline_of(found[at + 1])),
        ]);
        assert(headings(found, at, at + 1, bytes) =~= seq![]);
        assert(headlines_in_all(element_trees(found, at, bytes).0) =~= headings(
            found,
            at,
            next,
            bytes,
        ));
    } else {
        lemma_forest_headings(found, at + 1, found[at].count, bytes);
        assert(headings(found, at, at + 1, bytes) =~= seq![]);
        assert(headings(found, at, next, bytes) =~= headings(found, at + 1, next, bytes));
    }
}

proof fn lemma_forest_headings(found: Seq<ElementView>, at: int, n: nat, bytes: Seq<u8>)
    requires
        0 <= at <= found.len(),
    ensures
        headlines_in_all(forest(found, at, n, bytes).0) == headings(
            found,
            at,
            forest(found, at, n, bytes).1,
            bytes,
        ),
    decreases found.len() - at, 1int,
{
    if n > 0 && at < found.len() {
        let (first, next) = element_trees(found, at, bytes);
        lemma_element_end(found, at, bytes);
        lemma_element_headings(found, at, bytes);
        let (others, end) = forest(found, next, (n - 1) as nat, bytes);
        lemma_forest_end(found, next, (n - 1) as nat, bytes);
        lemma_forest_headings(found, next, (n - 1) as nat, bytes);
        lemma_headlines_in_sum(first, others);
        lemma_headings_sum(found, at, next, end, bytes);
    } else {
        assert(headlines_in_all(forest(found, at, n, bytes).0) =~= seq![]);
        assert(headings(found, at, at, bytes) =~= seq![]);
    }
}

/// The outline of a note holds every heading that the parser finds, in order,
/// and no others.
pub proof fn law_outline_keeps_headings(found: Seq<ElementView>, bytes: Seq<u8>)
    ensures
        headlines_in(outline(found, bytes)) == headings(found, 1, found.len() as int, bytes),
{
    let tree = outline(found, bytes);
    let n = tree.children.len();
    lemma_headlines_below(tree, n);
    assert(tree.children.take(n as int) =~= tree.children);
    if found.len() > 0 {
        lemma_forest_headings(found, 1, found.len(), bytes);
        lemma_forest_end(found, 1, found.len(), bytes);
    } else {
        assert(headlines_in_all(tree.children) =~= seq![]);
    }
    assert(headlines_in(tree) =~= headings(found, 1, found.len() as int, bytes));
}

/// A headline says what the parser finds of it; what the parser does not find is
/// zero or empty.
pub proof fn law_headline_says_what_is_found(e: ElementView)
    ensures
        e.level is Some ==> headline_of(e).level == e.level->0,
        e.level is None ==> headline_of(e).level == 0,
        e.title is Some ==> headline_of(e).title == e.title->0,
        e.title is None ==> headline_of(e).title.len() == 0,
        e.tags is Some ==> headline_of(e).tags == e.tags->0,
        e.tags is None ==> headline_of(e).tags.len() == 0,
{
}

/// A heading of a note is what the parser takes for the line of a headline and
/// what consists, from the start of a line on, of stars and then a space.
pub proof fn law_headings_are_found_and_start_with_stars(e: ElementView, bytes: Seq<u8>)
    ensures
        is_heading(e, bytes) <==> e.kind is Headline && 0 <= e.start && (e.start == 0 || (e.start
            <= bytes.len() && bytes[e.start - 1] == 10)) && exists|n: int|
            0 < n && e.start + n < bytes.len() && bytes[e.start + n] == 32
                && #[trigger] keyword::are_stars(bytes, e.start, e.start + n),
{
    keyword::law_headline_is_stars_and_a_space(bytes, e.start);
}

/// What is found in a text is settled where every character behind a star, a
/// dash, a plus, a period or a closing parenthesis is standard white space or
/// graphic ASCII, no blanks are 128 columns wide, and no 128 stars stand in a
/// row.
pub proof fn law_findings_are_settled(s: Seq<char>, found: Seq<ElementView>)
    requires
        may_find(s, found),
        forall|i: int|
            0 < i < s.len() && (s[i - 1] == '*' || s[i - 1] == '-' || s[i - 1] == '+' || s[i - 1]
                == '.' || s[i - 1] == ')') ==> #[trigger] s[i] == ' ' || '\t' <= s[i] <= '\r' || '!'
                <= s[i] <= '~',
        forall|i: int| 0 <= i < s.len() ==> #[trigger] indentation(s, i) < 128,
        forall|i: int| 0 <= i <= s.len() - 128 ==> !#[trigger] has_stars(s, i, 128),
    ensures
        found == elements_of(s),
{
}

/// Blanks are as wide as a space and a tab are: one column and eight.
pub proof fn law_indentation_adds_up(s: Seq<char>, at: int)
    requires
        0 <= at < s.len(),
    ensures
        s[at] == ' ' ==> indentation(s, at) == indentation(s, at + 1) + 1,
        s[at] == '\t' ==> indentation(s, at) == indentation(s, at + 1) + 8,
        s[at] != ' ' && s[at] != '\t' ==> indentation(s, at) == 0,
        indentation(s, s.len() as int) == 0,
{
}

/// Where the next element stands behind `n` elements from `at` on and all below
/// them.
pub open spec fn behind_elements(found: Seq<ElementView>, at: int, n: nat) -> int
    decreases found.len() - at,
{
    if n == 0 || at < 0 || at >= found.len() {
        at
    } else {
        let next = behind_elements(found, at + 1, found[at].count);
        if at < next <= found.len() {
            behind_elements(found, next, (n - 1) as nat)
        } else {
            at
        }
    }
}

/// Where the elements below the element at `at` end.
pub open spec fn subtree_end(found: Seq<ElementView>, at: int) -> int {
    behind_elements(found, at + 1, found[at].count)
}

pub proof fn lemma_behind_elements(found: Seq<ElementView>, at: int, n: nat)
    requires
        0 <= at <= found.len(),
    ensures
        at <= behind_elements(found, at, n) <= found.len(),
        n > 0 && at < found.len() ==> behind_elements(found, at, n) > at,
        n >= found.len() - at ==> behind_elements(found, at, n) == found.len(),
    decreases found.len() - at,
{
    if n > 0 && at < found.len() {
        lemma_behind_elements(found, at + 1, found[at].count);
        let next = behind_elements(found, at + 1, found[at].count);
        lemma_behind_elements(found, next, (n - 1) as nat);
    }
}

/// The elements below an element end before those that hold it do.
pub proof fn lemma_subtrees_nest(found: Seq<ElementView>, at: int, n: nat, a: int)
    requires
        0 <= at <= a < behind_elements(found, at, n) <= found.len(),
    ensures
        a < subtree_end(found, a) <= behind_elements(found, at, n),
    decreases found.len() - at,
{
    let next = behind_elements(found, at + 1, found[at].count);
    lemma_behind_elements(found, at + 1, found[at].count);
    lemma_behind_elements(found, next, (n - 1) as nat);
    if at < a {
        if a < next {
            lemma_subtrees_nest(found, at + 1, found[at].count, a);
        } else {
            lemma_subtrees_nest(found, next, (n - 1) as nat, a);
        }
    }
}

/// Trees are read off just the elements that they hold.
pub proof fn lemma_trees_end(found: Seq<ElementView>, at: int, n: nat, bytes: Seq<u8>)
    requires
        0 <= at <= found.len(),
    ensures
        forest(found, at, n, bytes).1 == behind_elements(found, at, n),
        at < found.len() ==> element_trees(found, at, bytes).1 == subtree_end(found, at),
    decreases found.len() - at, n,
{
    if at < found.len() {
        lemma_element_end(found, at, bytes);
        if opens_section(found, at, bytes) && !is_heading(found[at], bytes) {
            lemma_trees_end(found, at + 2, found[at + 1].count, bytes);
            lemma_behind_elements(found, at + 2, found[at + 1].count);
            let mid = behind_elements(found, at + 2, found[at + 1].count);
            lemma_trees_end(found, mid, (found[at].count - 1) as nat, bytes);
        } else {
            lemma_trees_end(found, at + 1, found[at].count, bytes);
        }
        if n > 0 {
            let next = subtree_end(found, at);
            lemma_trees_end(found, next, (n - 1) as nat, bytes);
        }
    }
}

/// Tells whether the element at `at` is the heading of the section before it.
pub open spec fn heads_section(found: Seq<ElementView>, at: int, bytes: Seq<u8>) -> bool {
    &&& at < found.len()
    &&& found[at - 1].kind is Section
    &&& found[at - 1].count > 0
    &&& is_heading(found[at], bytes)
}

/// The title that the element at `a` puts above the element at `y`: that of a
/// section's heading above what else lies in the section, and that of a heading
/// outside of a section above what lies below it.
pub open spec fn title_over(found: Seq<ElementView>, a: int, y: int, bytes: Seq<u8>) -> Seq<
    Seq<char>,
> {
    if heads_section(found, a + 1, bytes) && a + 1 < y < subtree_end(found, a) {
        seq![headline_of(found[a + 1]).title]
    } else if is_heading(found[a], bytes) && !(a > 1 && heads_section(found, a, bytes)) && a < y
        < subtree_end(found, a) {
        seq![headline_of(found[a]).title]
    } else {
        seq![]
    }
}

/// The titles that the elements from `from` on put above the element at `y`,
/// outermost first.
pub open spec fn titles_over(found: Seq<ElementView>, from: int, y: int, bytes: Seq<u8>) -> Seq<
    Seq<char>,
>
    decreases y - from,
{
    if from >= y {
        seq![]
    } else {
        title_over(found, from, y, bytes) + titles_over(found, from + 1, y, bytes)
    }
}

/// What ends before an element puts no title above it.
pub proof fn lemma_titles_over(
    found: Seq<ElementView>,
    from: int,
    mid: int,
    y: int,
    bytes: Seq<u8>,
)
    requires
        from <= mid <= y,
        forall|a: int| from <= a < mid ==> #[trigger] subtree_end(found, a) <= y,
    ensures
        titles_over(found, from, y, bytes) == titles_over(found, mid, y, bytes),
    decreases mid - from,
{
    if from < mid {
        lemma_titles_over(found, from + 1, mid, y, bytes);
        assert(subtree_end(found, from) <= y);
        assert(title_over(found, from, y, bytes) =~= seq![]);
        assert(titles_over(found, from, y, bytes) =~= titles_over(found, from + 1, y, bytes));
    }
}

/// The elements before `a` put the same titles above what lies below `a` as
/// above its heading.
proof fn lemma_same_titles(
    found: Seq<ElementView>,
    from: int,
    a: int,
    p: int,
    y: int,
    bytes: Seq<u8>,
)
    requires
        1 <= from <= a <= p < y < subtree_end(found, a) <= found.len(),
        p == a || (p == a + 1 && heads_section(found, p, bytes)),
        p == a ==> is_heading(found[a], bytes) && !(a > 1 && heads_section(found, a, bytes)),
        forall|b: int| a < b < y ==> (#[trigger] title_over(found, b, y, bytes)).len() == 0,
    ensures
        titles_over(found, from, y, bytes) == titles_over(found, from, p, bytes).push(
            headline_of(found[p]).title,
        ),
    decreases a - from,
{
    let title = headline_of(found[p]).title;
    if from < a {
        lemma_same_titles(found, from + 1, a, p, y, bytes);
        if a < subtree_end(found, from) && from + 1 <= found.len() {
            lemma_behind_elements(found, from + 1, found[from].count);
            lemma_subtrees_nest(found, from + 1, found[from].count, a);
        }
        lemma_behind_elements(found, a + 1, found[a].count);
        assert(title_over(found, from, y, bytes) == title_over(found, from, p, bytes));
        let rest = titles_over(found, from + 1, p, bytes);
        assert((title_over(found, from, p, bytes) + rest).push(title) =~= title_over(
            found,
            from,
            p,
            bytes,
        ) + rest.push(title));
    } else {
        lemma_no_titles(found, a + 1, y, bytes);
        assert(title_over(found, a, y, bytes) =~= seq![title]);
        assert(titles_over(found, a, y, bytes) =~= seq![title]);
        assert(titles_over(found, a, p, bytes) =~= seq![]) by {
            if p == a + 1 {
                assert(title_over(found, a, p, bytes) =~= seq![]);
                assert(titles_over(found, a + 1, p, bytes) =~= seq![]);
            }
        }
    }
}

proof fn lemma_no_titles(found: Seq<ElementView>, from: int, y: int, bytes: Seq<u8>)
    requires
        forall|b: int| from <= b < y ==> (#[trigger] title_over(found, b, y, bytes)).len() == 0,
    ensures
        titles_over(found, from, y, bytes).len() == 0,
    decreases y - from,
{
    if from < y {
        lemma_no_titles(found, from + 1, y, bytes);
        assert(title_over(found, from, y, bytes).len() == 0);
    }
}

/// What lies right below a heading has the titles above that heading and then
/// the heading's own title above it. The heading `p` stands at `a`, or it heads
/// the section at `a`; nothing between them puts a title above what lies at
/// `y`.
pub proof fn law_path_goes_through_the_parent(
    found: Seq<ElementView>,
    a: int,
    p: int,
    y: int,
    bytes: Seq<u8>,
)
    requires
        1 <= a <= p < y < subtree_end(found, a),
        subtree_end(found, a) <= found.len(),
        p == a || (p == a + 1 && heads_section(found, p, bytes)),
        p == a ==> is_heading(found[a], bytes) && !(a > 1 && heads_section(found, a, bytes)),
        forall|b: int| a < b < y ==> (#[trigger] title_over(found, b, y, bytes)).len() == 0,
    ensures
        titles_over(found, 1, y, bytes) == titles_over(found, 1, p, bytes).push(
            headline_of(found[p]).title,
        ),
        titles_over(found, 1, y, bytes).len() == titles_over(found, 1, p, bytes).len() + 1,
{
    lemma_same_titles(found, 1, a, p, y, bytes);
}

/// What lies below no heading has no titles above it.
pub proof fn law_outermost_headings_have_no_path(found: Seq<ElementView>, y: int, bytes: Seq<u8>)
    requires
        forall|b: int| 1 <= b < y ==> (#[trigger] title_over(found, b, y, bytes)).len() == 0,
    ensures
        titles_over(found, 1, y, bytes).len() == 0,
{
    lemma_no_titles(found, 1, y, bytes);
}

/// The first heading comes first among the headings.
pub proof fn lemma_first_heading(found: Seq<ElementView>, y: int, to: int, bytes: Seq<u8>)
    requires
        1 <= y <= to <= found.len(),
        forall|a: int| 1 <= a < y ==> !is_heading(#[trigger] found[a], bytes),
        y < found.len() ==> is_heading(found[y], bytes),
    ensures
        y == to ==> headings(found, 1, to, bytes).len() == 0,
        y < to ==> headings(found, 1, to, bytes).len() > 0 && headings(found, 1, to, bytes)[0].0
            == found[y].start,
    decreases to,
{
    if to > 1 {
        if y < to {
            lemma_first_heading(found, y, to - 1, bytes);
        } else {
            lemma_no_headings(found, to, bytes);
        }
    }
}

proof fn lemma_no_headings(found: Seq<ElementView>, to: int, bytes: Seq<u8>)
    requires
        forall|a: int| 1 <= a < to ==> !is_heading(#[trigger] found[a], bytes),
    ensures
        headings(found, 1, to, bytes).len() == 0,
    decreases to,
{
    if to > 1 {
        lemma_no_headings(found, to - 1, bytes);
        assert(!is_heading(found[to - 1], bytes));
    }
}

} // verus!
