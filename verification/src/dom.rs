//! The document tree and the parser that builds it.

pub mod laws;
pub mod round_trip;

use crate::arena::{
    arena_well_formed, building, forest, lemma_attached, lemma_attached_linked, lemma_closed,
    lemma_closed_linked, lemma_finished_arena, lemma_forest_next, lemma_nothing_built,
    lemma_open_in_range, lemma_opened, lemma_opened_linked, linked, open_subtrees, subtree,
};
use crate::lexer::{scan_of, scan_tail, tokens_of, TokenView};
use crate::string_map::{put, Pairs, StringMap};
use crate::text::{
    blank, first_occurrence, is_blank, lowercase, occurs, same_text, split_once, split_whitespace,
    substring, texts, to_chars, words,
};
use vstd::prelude::*;

verus! {

/// An element's name and attributes.
pub struct Tag {
    pub tag: String,
    pub attributes: StringMap,
}

/// What a node holds: an element or a run of text.
pub enum Element {
    Tag(Tag),
    Text(String),
}

/// The mathematical value of an [`Element`].
pub ghost enum ElementView {
    Tag { name: Seq<char>, attributes: Pairs },
    Text(Seq<char>),
}

impl View for Element {
    type V = ElementView;

    open spec fn view(&self) -> ElementView {
        match self {
            Element::Tag(t) => ElementView::Tag { name: t.tag@, attributes: t.attributes@ },
            Element::Text(s) => ElementView::Text(s@),
        }
    }
}

/// The mathematical value of a node with all that hangs below it.
#[verifier::ext_equal]
pub ghost struct NodeView {
    pub value: ElementView,
    pub children: Seq<NodeView>,
}

/// A node of the tree. Nodes live in one arena and name each other by
/// their index in it.
pub struct TreeNode {
    pub value: Element,
    pub children: Vec<usize>,
    pub parent: Option<usize>,
}

impl TreeNode {
    /// A node without children.
    pub fn new(value: Element, parent: Option<usize>) -> (node: Self)
        ensures
            node.value == value,
            node.children@ == Seq::<usize>::empty(),
            node.parent == parent,
    {
        TreeNode { value, children: Vec::new(), parent }
    }

    /// Makes the node with the index `child` the last child.
    pub fn add_child(&mut self, child: usize)
        ensures
            final(self).children@ == old(self).children@.push(child),
            final(self).value == old(self).value,
            final(self).parent == old(self).parent,
    {
        self.children.push(child);
    }
}

/// A node without children.
pub open spec fn leaf(value: ElementView) -> NodeView {
    NodeView { value, children: Seq::empty() }
}

/// A finished document tree: an arena of nodes whose root is node 0.
pub struct Tree {
    nodes: Vec<TreeNode>,
}

impl View for Tree {
    type V = NodeView;

    closed spec fn view(&self) -> NodeView {
        subtree(self.nodes@, 0)
    }
}

impl Tree {
    /// The arena.
    pub closed spec fn nodes(&self) -> Seq<TreeNode> {
        self.nodes@
    }

    #[verifier::type_invariant]
    spec fn inv(&self) -> bool {
        arena_well_formed(self.nodes@)
    }

    /// The index of the root.
    pub fn root(&self) -> (r: usize)
        ensures
            r == 0,
            r < self.nodes().len(),
            arena_well_formed(self.nodes()),
            self@ == subtree(self.nodes(), 0),
    {
        proof {
            use_type_invariant(self);
        }
        0
    }

    /// The number of nodes.
    pub fn len(&self) -> (n: usize)
        ensures
            n == self.nodes().len(),
            n > 0,
    {
        proof {
            use_type_invariant(self);
        }
        self.nodes.len()
    }

    /// The tree as an outline: one line for each node, indented by one tab
    /// for each level of depth.
    pub fn to_string(&self) -> (text: String)
        ensures
            text@ == printed(self@, 0),
    {
        let mut text = String::new();
        proof {
            use_type_invariant(self);
        }
        print_tree(self, 0, 0, &mut text);
        assert(text@ =~= printed(self@, 0));
        text
    }

    /// The node with the index `i`.
    pub fn node(&self, i: usize) -> (node: &TreeNode)
        requires
            i < self.nodes().len(),
        ensures
            *node == self.nodes()[i as int],
            arena_well_formed(self.nodes()),
    {
        proof {
            use_type_invariant(self);
        }
        &self.nodes[i]
    }
}

/// The root that a document gets where its markup opens none before its
/// first content: an `html` element without attributes.
pub open spec fn implicit_root() -> NodeView {
    leaf(ElementView::Tag { name: "html"@, attributes: Seq::empty() })
}

/// The open elements, with an implicit root where there is none.
pub open spec fn rooted(stack: Seq<NodeView>) -> Seq<NodeView> {
    if stack.len() == 0 {
        seq![implicit_root()]
    } else {
        stack
    }
}

/// The open elements after `child` has become the last child of the
/// innermost one.
pub open spec fn child_appended(stack: Seq<NodeView>, child: NodeView) -> Seq<NodeView> {
    stack.update(
        stack.len() - 1,
        NodeView { value: stack.last().value, children: stack.last().children.push(child) },
    )
}

/// The open elements after the innermost one has been closed: it becomes the
/// last child of the one around it.
pub open spec fn top_closed(stack: Seq<NodeView>) -> Seq<NodeView> {
    child_appended(stack.drop_last(), stack.last())
}

/// The open elements after a run of text: blank text is dropped, other text
/// becomes a leaf of the innermost open element.
pub open spec fn text_added(stack: Seq<NodeView>, text: Seq<char>) -> Seq<NodeView> {
    if is_blank(text) {
        stack
    } else {
        child_appended(rooted(stack), leaf(ElementView::Text(text)))
    }
}

/// The names of the elements that never have content.
pub open spec fn is_void(name: Seq<char>) -> bool {
    ||| name == "area"@
    ||| name == "base"@
    ||| name == "br"@
    ||| name == "col"@
    ||| name == "embed"@
    ||| name == "hr"@
    ||| name == "img"@
    ||| name == "input"@
    ||| name == "link"@
    ||| name == "meta"@
    ||| name == "param"@
    ||| name == "source"@
    ||| name == "track"@
    ||| name == "wbr"@
}

/// The open elements after a tag with the name `name`, already in lower
/// case, and the attributes `attributes`.
///
/// A blank name, a comment or a declaration (`!`) changes nothing. A closing
/// tag (`/`) closes the innermost open element, whatever its name, unless it
/// is the only one. A void element becomes a leaf of the innermost open
/// element. Any other element is opened.
pub open spec fn element_added(stack: Seq<NodeView>, name: Seq<char>, attributes: Pairs) -> Seq<
    NodeView,
> {
    if is_blank(name) {
        stack
    } else if name[0] == '!' {
        stack
    } else if name[0] == '/' {
        if stack.len() <= 1 {
            stack
        } else {
            top_closed(stack)
        }
    } else if is_void(name) {
        child_appended(rooted(stack), leaf(ElementView::Tag { name, attributes }))
    } else {
        stack.push(leaf(ElementView::Tag { name, attributes }))
    }
}

/// An attribute value without the pair of equal quotes around it, if it is
/// longer than two characters and has one.
pub open spec fn unquoted(value: Seq<char>) -> Seq<char> {
    if value.len() > 2 && (value[0] == '\'' || value[0] == '"') && value.last() == value[0] {
        value.subrange(1, value.len() - 1)
    } else {
        value
    }
}

/// The attributes after one more token: `key=value` binds the key, in lower
/// case, to the unquoted value; a token without an equals sign is a flag,
/// bound to the empty string.
pub open spec fn attribute_added(attributes: Pairs, token: Seq<char>) -> Pairs {
    if occurs(token, "="@) {
        let at = first_occurrence(token, "="@);
        put(attributes, lowercase(token.take(at)), unquoted(token.skip(at + 1)))
    } else {
        put(attributes, lowercase(token), Seq::empty())
    }
}

/// The attributes that a run of tokens gives.
pub open spec fn attributes_of(tokens: Seq<Seq<char>>) -> Pairs
    decreases tokens.len(),
{
    if tokens.len() == 0 {
        Seq::empty()
    } else {
        attribute_added(attributes_of(tokens.drop_last()), tokens.last())
    }
}

/// The name of the tag whose text is `text`: its first word in lower case,
/// or nothing where it has no word.
pub open spec fn tag_name_of(text: Seq<char>) -> Seq<char> {
    if words(text).len() == 0 {
        Seq::empty()
    } else {
        lowercase(words(text)[0])
    }
}

/// The attributes of the tag whose text is `text`: what its words after the
/// first give.
pub open spec fn tag_attributes_of(text: Seq<char>) -> Pairs {
    if words(text).len() == 0 {
        Seq::empty()
    } else {
        attributes_of(words(text).skip(1))
    }
}

/// The open elements after the tag whose text is `text`.
pub open spec fn tag_added(stack: Seq<NodeView>, text: Seq<char>) -> Seq<NodeView> {
    element_added(stack, tag_name_of(text), tag_attributes_of(text))
}

/// The open elements after one more token.
pub open spec fn token_added(stack: Seq<NodeView>, token: TokenView) -> Seq<NodeView> {
    match token {
        TokenView::Text(text) => text_added(stack, text),
        TokenView::Tag(text) => tag_added(stack, text),
    }
}

/// The open elements after a run of tokens.
pub open spec fn built(tokens: Seq<TokenView>) -> Seq<NodeView>
    decreases tokens.len(),
{
    if tokens.len() == 0 {
        Seq::empty()
    } else {
        token_added(built(tokens.drop_last()), tokens.last())
    }
}

/// The tree that is left when every open element has been closed, innermost
/// first; the implicit root where none was open.
pub open spec fn finished(stack: Seq<NodeView>) -> NodeView
    decreases stack.len(),
{
    if stack.len() == 0 {
        implicit_root()
    } else if stack.len() == 1 {
        stack[0]
    } else {
        finished(top_closed(stack))
    }
}

/// The tree of the document `body`.
pub open spec fn document_of(body: Seq<char>) -> NodeView {
    finished(built(tokens_of(body)))
}

/// A parser for one document.
pub struct HTMLParser {
    body: String,
    nodes: Vec<TreeNode>,
    unfinished: Vec<usize>,
}

impl HTMLParser {
    /// The document that is parsed.
    pub closed spec fn body(&self) -> Seq<char> {
        self.body@
    }

    /// The open elements, from the root inwards, each with what hangs below
    /// it so far.
    pub closed spec fn open_elements(&self) -> Seq<NodeView> {
        open_subtrees(self.nodes@, self.unfinished@)
    }

    /// The parser's arena and its list of open elements fit together.
    pub closed spec fn well_formed(&self) -> bool {
        &&& building(self.nodes@, self.unfinished@)
        &&& linked(self.nodes@, self.unfinished@)
    }

    /// A parser for the document `body`.
    pub fn new(body: String) -> (parser: Self)
        ensures
            parser.well_formed(),
            parser.body() == body@,
            parser.open_elements() == Seq::<NodeView>::empty(),
    {
        let parser = HTMLParser { body, nodes: Vec::new(), unfinished: Vec::new() };
        proof {
            lemma_nothing_built();
            assert(parser.nodes@ =~= Seq::<TreeNode>::empty());
            assert(parser.unfinished@ =~= Seq::<usize>::empty());
            assert(parser.open_elements() =~= Seq::<NodeView>::empty());
        }
        parser
    }

    /// Opens an element inside the innermost open one.
    fn open_node(&mut self, tag: Tag)
        requires
            old(self).well_formed(),
        ensures
            final(self).well_formed(),
            final(self).body() == old(self).body(),
            final(self).open_elements() == old(self).open_elements().push(
                leaf(Element::Tag(tag)@),
            ),
    {
        proof {
            lemma_open_in_range(self.nodes@, self.unfinished@);
        }
        let parent = if self.unfinished.len() > 0 {
            Some(self.unfinished[self.unfinished.len() - 1])
        } else {
            None
        };
        let index: usize = self.nodes.len();
        let ghost nodes0 = self.nodes@;
        let ghost stack0 = self.unfinished@;
        self.nodes.push(TreeNode::new(Element::Tag(tag), parent));
        self.unfinished.push(index);
        proof {
            lemma_opened(nodes0, stack0, self.nodes@, index);
            lemma_opened_linked(nodes0, stack0, self.nodes@, index);
        }
    }

    /// Makes a new node with the value `value` the last child of the
    /// innermost open element.
    fn attach_leaf(&mut self, value: Element)
        requires
            old(self).well_formed(),
            old(self).open_elements().len() > 0,
            value matches Element::Text(s) ==> !is_blank(s@),
        ensures
            final(self).well_formed(),
            final(self).body() == old(self).body(),
            final(self).open_elements() == child_appended(old(self).open_elements(), leaf(value@)),
    {
        proof {
            lemma_open_in_range(self.nodes@, self.unfinished@);
        }
        let top: usize = self.unfinished[self.unfinished.len() - 1];
        let index: usize = self.nodes.len();
        let ghost nodes0 = self.nodes@;
        self.nodes.push(TreeNode::new(value, Some(top)));
        let ghost nodes1 = self.nodes@;
        self.nodes[top].add_child(index);
        proof {
            lemma_attached(nodes0, self.unfinished@, nodes1, self.nodes@, index);
            lemma_attached_linked(nodes0, self.unfinished@, nodes1, self.nodes@, index);
        }
    }

    /// Closes the innermost open element: it becomes the last child of the
    /// one around it.
    fn close_top(&mut self)
        requires
            old(self).well_formed(),
            old(self).open_elements().len() >= 2,
        ensures
            final(self).well_formed(),
            final(self).body() == old(self).body(),
            final(self).open_elements() == top_closed(old(self).open_elements()),
    {
        proof {
            lemma_open_in_range(self.nodes@, self.unfinished@);
        }
        let ghost nodes0 = self.nodes@;
        let ghost stack0 = self.unfinished@;
        let child: usize = self.unfinished[self.unfinished.len() - 1];
        self.unfinished.pop();
        let parent: usize = self.unfinished[self.unfinished.len() - 1];
        self.nodes[parent].add_child(child);
        proof {
            assert(self.unfinished@ =~= stack0.drop_last());
            lemma_closed(nodes0, stack0, self.nodes@);
            lemma_closed_linked(nodes0, stack0, self.nodes@);
        }
    }

    /// Opens the implicit root if no element is open.
    fn ensure_root(&mut self)
        requires
            old(self).well_formed(),
        ensures
            final(self).well_formed(),
            final(self).body() == old(self).body(),
            final(self).open_elements() == rooted(old(self).open_elements()),
    {
        if self.unfinished.len() == 0 {
            let tag = Tag { tag: "html".to_owned(), attributes: StringMap::new() };
            self.open_node(tag);
            assert(self.open_elements() =~= seq![implicit_root()]);
        }
    }

    /// Adds a run of text to the tree: blank text is dropped, other text
    /// becomes the last child of the innermost open element.
    pub fn add_text(&mut self, text: String)
        requires
            old(self).well_formed(),
        ensures
            final(self).well_formed(),
            final(self).body() == old(self).body(),
            final(self).open_elements() == text_added(old(self).open_elements(), text@),
    {
        if blank(text.as_str()) {
            return ;
        }
        self.ensure_root();
        self.attach_leaf(Element::Text(text));
    }

    /// Adds the tag with the name `tag`, which is in lower case already, and
    /// the attributes `attributes` to the tree.
    pub fn add_element(&mut self, tag: String, attributes: StringMap)
        requires
            old(self).well_formed(),
        ensures
            final(self).well_formed(),
            final(self).body() == old(self).body(),
            final(self).open_elements() == element_added(
                old(self).open_elements(),
                tag@,
                attributes@,
            ),
    {
        if blank(tag.as_str()) {
            return ;
        }
        assert(tag@.len() > 0) by {
            if tag@.len() == 0 {
                assert(is_blank(tag@));
            }
        }
        let first = tag.as_str().get_char(0);
        if first == '!' {
            return ;
        }
        if first == '/' {
            if self.unfinished.len() > 1 {
                self.close_top();
            }
            return ;
        }
        if is_void_name(tag.as_str()) {
            self.ensure_root();
            self.attach_leaf(Element::Tag(Tag { tag, attributes }));
        } else {
            self.open_node(Tag { tag, attributes });
        }
    }

    /// The name and the attributes of the tag whose text is `text`.
    pub fn get_attributes(&self, text: String) -> (r: (String, StringMap))
        ensures
            r.0@ == tag_name_of(text@),
            r.1@ == tag_attributes_of(text@),
    {
        let parts = split_whitespace(text.as_str());
        let mut attributes = StringMap::new();
        if parts.len() == 0 {
            return (String::new(), attributes);
        }
        let tag = parts[0].as_str().to_lowercase();
        let ghost all = words(text@);
        assert(all[0] == parts@[0]@);
        assert(all.skip(1).take(0) =~= Seq::empty());
        let mut i: usize = 1;
        while i < parts.len()
            invariant
                1 <= i <= parts.len(),
                texts(parts@) == all,
                attributes@ == attributes_of(all.skip(1).take(i - 1)),
            decreases parts.len() - i,
        {
            assert(all.skip(1).take(i as int).drop_last() =~= all.skip(1).take(i - 1));
            assert(all.skip(1).take(i as int).last() == parts@[i as int]@);
            add_attribute(&mut attributes, parts[i].as_str());
            i += 1;
        }
        assert(all.skip(1).take(parts.len() - 1) =~= all.skip(1));
        (tag, attributes)
    }

    /// Adds a tag to the tree, given what stood between its angle brackets.
    pub fn add_tag(&mut self, text: String)
        requires
            old(self).well_formed(),
        ensures
            final(self).well_formed(),
            final(self).body() == old(self).body(),
            final(self).open_elements() == tag_added(old(self).open_elements(), text@),
    {
        let (tag, attributes) = self.get_attributes(text);
        self.add_element(tag, attributes);
    }

    /// Closes every element that is still open and hands out the tree. The
    /// parser is left as new.
    pub fn finish(&mut self) -> (tree: Tree)
        requires
            old(self).well_formed(),
        ensures
            tree@ == finished(old(self).open_elements()),
            arena_well_formed(tree.nodes()),
            final(self).well_formed(),
            final(self).body() == old(self).body(),
            final(self).open_elements() == Seq::<NodeView>::empty(),
    {
        while self.unfinished.len() > 1
            invariant
                self.well_formed(),
                self.body() == old(self).body(),
                finished(self.open_elements()) == finished(old(self).open_elements()),
            decreases self.unfinished.len(),
        {
            self.close_top();
        }
        assert(self.open_elements().len() == self.unfinished@.len());
        let ghost closed = self.open_elements();
        self.ensure_root();
        proof {
            assert(self.open_elements().len() == self.unfinished@.len());
            assert(finished(closed) == finished(rooted(closed)));
            lemma_finished_arena(self.nodes@, self.unfinished@);
            assert(self.open_elements()[0] == subtree(self.nodes@, 0));
        }
        let mut nodes: Vec<TreeNode> = Vec::new();
        core::mem::swap(&mut self.nodes, &mut nodes);
        self.unfinished.clear();
        proof {
            lemma_nothing_built();
            assert(self.nodes@ =~= Seq::<TreeNode>::empty());
            assert(self.unfinished@ =~= Seq::<usize>::empty());
            assert(self.open_elements() =~= Seq::<NodeView>::empty());
        }
        Tree { nodes }
    }

    /// Parses the document and hands out its tree.
    pub fn parse(&mut self) -> (tree: Tree)
        ensures
            tree@ == document_of(old(self).body()),
            arena_well_formed(tree.nodes()),
            final(self).well_formed(),
            final(self).body() == old(self).body(),
            final(self).open_elements() == Seq::<NodeView>::empty(),
    {
        broadcast use vstd::string::group_string_axioms;

        self.nodes = Vec::new();
        self.unfinished = Vec::new();
        proof {
            lemma_nothing_built();
            assert(self.nodes@ =~= Seq::<TreeNode>::empty());
            assert(self.unfinished@ =~= Seq::<usize>::empty());
            assert(self.open_elements() =~= Seq::<NodeView>::empty());
        }
        let body = self.body.clone();
        let mut buffer = String::new();
        let mut in_tag = false;
        for c in it: body.as_str().chars()
            invariant
                it.seq() == body@,
                self.well_formed(),
                self.body() == body@,
                buffer@ == scan_of(body@.take(it.index())).buffer,
                in_tag == scan_of(body@.take(it.index())).in_tag,
                self.open_elements() == built(scan_of(body@.take(it.index())).tokens),
        {
            let ghost before = scan_of(body@.take(it.index()));
            assert(body@.take(it.index() + 1).drop_last() =~= body@.take(it.index()));
            if c == '<' {
                in_tag = true;
                if !buffer.as_str().is_empty() {
                    proof {
                        lemma_built_push(before.tokens, TokenView::Text(buffer@));
                    }
                    self.add_text(buffer);
                }
                buffer = String::new();
            } else if c == '>' {
                in_tag = false;
                proof {
                    lemma_built_push(before.tokens, TokenView::Tag(buffer@));
                }
                self.add_tag(buffer);
                buffer = String::new();
            } else {
                buffer.push(c);
            }
        }
        assert(body@.take(body@.len() as int) == body@);
        let ghost scan = scan_of(body@);
        if !in_tag && !buffer.as_str().is_empty() {
            proof {
                lemma_built_push(scan.tokens, TokenView::Text(buffer@));
                assert(scan.tokens + scan_tail(scan) =~= scan.tokens.push(TokenView::Text(buffer@)));
            }
            self.add_text(buffer);
        } else {
            assert(scan.tokens + scan_tail(scan) =~= scan.tokens);
        }
        self.finish()
    }
}

/// What one more token adds to what a run of tokens built.
proof fn lemma_built_push(tokens: Seq<TokenView>, token: TokenView)
    ensures
        built(tokens.push(token)) == token_added(built(tokens), token),
{
    assert(tokens.push(token).drop_last() =~= tokens);
}

/// Whether `name` names an element that never has content.
pub fn is_void_name(name: &str) -> (r: bool)
    ensures
        r == is_void(name@),
{
    same_text(name, "area") || same_text(name, "base") || same_text(name, "br") || same_text(
        name,
        "col",
    ) || same_text(name, "embed") || same_text(name, "hr") || same_text(name, "img") || same_text(
        name,
        "input",
    ) || same_text(name, "link") || same_text(name, "meta") || same_text(name, "param")
        || same_text(name, "source") || same_text(name, "track") || same_text(name, "wbr")
}

/// Adds the attribute that `token` spells to `attributes`.
pub fn add_attribute(attributes: &mut StringMap, token: &str)
    ensures
        final(attributes)@ == attribute_added(old(attributes)@, token@),
{
    proof {
        reveal_strlit("=");
    }
    match split_once(&to_chars(token), "=") {
        Some((key, value)) => {
            let chars = to_chars(value.as_str());
            let n: usize = chars.len();
            let text = if n > 2 && (chars[0] == '\'' || chars[0] == '"') && chars[n - 1]
                == chars[0] {
                substring(&chars, 1, n - 1)
            } else {
                value
            };
            attributes.insert(key.as_str().to_lowercase(), text);
        },
        None => {
            attributes.insert(token.to_lowercase(), String::new());
        },
    }
}

/// `count` tab characters.
pub open spec fn tabs(count: nat) -> Seq<char>
    decreases count,
{
    if count == 0 {
        Seq::empty()
    } else {
        tabs((count - 1) as nat).push('\t')
    }
}

/// The line that shows a node: a tag's name in angle brackets, a text as it
/// stands.
pub open spec fn label(value: ElementView) -> Seq<char> {
    match value {
        ElementView::Tag { name, .. } => "<"@ + name + ">"@,
        ElementView::Text(text) => text,
    }
}

/// The subtree `node` as an outline: one line for each node, indented by
/// one tab for each level below `indent`.
pub open spec fn printed(node: NodeView, indent: u32) -> Seq<char>
    decreases node,
{
    tabs(indent as nat) + label(node.value) + "\n"@ + all_printed(
        node.children,
        indent.saturating_add(1),
    )
}

/// The outlines of the subtrees `nodes`, one after the other.
pub open spec fn all_printed(nodes: Seq<NodeView>, indent: u32) -> Seq<char>
    decreases nodes,
{
    if nodes.len() == 0 {
        Seq::empty()
    } else {
        all_printed(nodes.drop_last(), indent) + printed(nodes.last(), indent)
    }
}

/// Appends the outline of the subtree of the node `index` to `out`.
pub fn print_tree(tree: &Tree, index: usize, indent: u32, out: &mut String)
    requires
        index < tree.nodes().len(),
    ensures
        final(out)@ == old(out)@ + printed(subtree(tree.nodes(), index as int), indent),
    decreases tree.nodes().len() - index,
{
    let node = tree.node(index);
    let ghost nodes = tree.nodes();
    let ghost start = out@;
    let mut i: u32 = 0;
    while i < indent
        invariant
            i <= indent,
            out@ == start + tabs(i as nat),
        decreases indent - i,
    {
        out.push('\t');
        i += 1;
        assert(out@ =~= start + tabs(i as nat));
    }
    match &node.value {
        Element::Tag(tag) => {
            out.append("<");
            out.append(tag.tag.as_str());
            out.append(">");
        },
        Element::Text(text) => {
            out.append(text.as_str());
        },
    }
    out.append("\n");
    let ghost head = out@;
    assert(head =~= start + (tabs(indent as nat) + label(nodes[index as int].value@) + "\n"@));
    let ghost kids = node.children@;
    let inner: u32 = indent.saturating_add(1);
    assert(kids.take(0) =~= Seq::empty());
    let mut j: usize = 0;
    while j < node.children.len()
        invariant
            j <= node.children.len(),
            index < nodes.len(),
            nodes == tree.nodes(),
            arena_well_formed(nodes),
            *node == nodes[index as int],
            kids == node.children@,
            out@ == head + all_printed(forest(nodes, kids.take(j as int), index as int), inner),
        decreases node.children.len() - j,
    {
        let child: usize = node.children[j];
        proof {
            lemma_forest_next(nodes, index as int, j as int);
        }
        print_tree(tree, child, inner, out);
        assert(out@ =~= head + all_printed(
            forest(nodes, kids.take(j + 1), index as int),
            inner,
        ));
        j += 1;
    }
    assert(kids.take(kids.len() as int) =~= kids);
    assert(out@ =~= start + printed(subtree(nodes, index as int), indent));
}

} // verus!
