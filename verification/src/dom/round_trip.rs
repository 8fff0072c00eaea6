//! Writing a tree as markup and parsing it again.

use crate::dom::laws::{bracket_free, lemma_scan_gathers, lemma_tag_is_a_token, with_tag};
use crate::dom::{
    built, child_appended, document_of, is_void, leaf, token_added, top_closed, ElementView,
    NodeView,
};
use crate::lexer::{scan_of, tokens_of, TokenView};
use crate::text::{is_blank, is_space, is_word, lemma_word_alone, lowercase, words};
use vstd::prelude::*;

verus! {

/// The text of the tag that closes an element of the name `name`.
pub open spec fn closing(name: Seq<char>) -> Seq<char> {
    seq!['/'] + name
}

/// The subtree `node` as markup: a text as it stands; an element as its
/// name in angle brackets, its children, and its closing tag.
pub open spec fn written(node: NodeView) -> Seq<char>
    decreases node,
{
    match node.value {
        ElementView::Text(text) => text,
        ElementView::Tag { name, .. } => with_tag(
            with_tag(Seq::empty(), name) + all_written(node.children),
            closing(name),
        ),
    }
}

/// The subtrees `nodes` as markup, one after the other.
pub open spec fn all_written(nodes: Seq<NodeView>) -> Seq<char>
    decreases nodes,
{
    if nodes.len() == 0 {
        Seq::empty()
    } else {
        all_written(nodes.drop_last()) + written(nodes.last())
    }
}

/// A name that a tag can be written with and read back: one word without
/// an angle bracket that starts with neither `!` nor `/`, names no void
/// element, and is in lower case already, as is its closing form.
pub open spec fn plain_name(name: Seq<char>) -> bool {
    &&& is_word(name)
    &&& bracket_free(name)
    &&& name[0] != '!'
    &&& name[0] != '/'
    &&& !is_void(name)
    &&& lowercase(name) == name
    &&& lowercase(closing(name)) == closing(name)
}

/// A well-nested tree: its texts are leaves, not blank and without an angle
/// bracket; its elements have plain names and no attributes; and no two
/// texts are neighbours.
pub open spec fn plain(node: NodeView) -> bool
    decreases node,
{
    match node.value {
        ElementView::Text(text) => !is_blank(text) && bracket_free(text) && node.children.len()
            == 0,
        ElementView::Tag { name, attributes } => {
            &&& plain_name(name)
            &&& attributes.len() == 0
            &&& forall|i: int|
                0 <= i < node.children.len() ==> plain(#[trigger] node.children[i])
            &&& apart(node.children)
        },
    }
}

/// No two texts are neighbours in `nodes`.
pub open spec fn apart(nodes: Seq<NodeView>) -> bool {
    forall|i: int|
        0 < i < nodes.len() ==> !((#[trigger] nodes[i]).value is Text && nodes[i - 1].value is Text)
}

/// The tokens of the subtree `node` as markup.
pub open spec fn tokens_written(node: NodeView) -> Seq<TokenView>
    decreases node,
{
    match node.value {
        ElementView::Text(text) => seq![TokenView::Text(text)],
        ElementView::Tag { name, .. } => (seq![TokenView::Tag(name)] + all_tokens_written(
            node.children,
        )).push(TokenView::Tag(closing(name))),
    }
}

/// The tokens of the subtrees `nodes` as markup.
pub open spec fn all_tokens_written(nodes: Seq<NodeView>) -> Seq<TokenView>
    decreases nodes,
{
    if nodes.len() == 0 {
        Seq::empty()
    } else {
        all_tokens_written(nodes.drop_last()) + tokens_written(nodes.last())
    }
}

/// The scanner cuts the markup of a plain subtree, written behind `before`,
/// into the subtree's tokens.
proof fn lemma_scan_written(before: Seq<char>, node: NodeView)
    requires
        plain(node),
        !scan_of(before).in_tag,
        node.value is Text ==> scan_of(before).buffer.len() == 0,
    ensures
        !scan_of(before + written(node)).in_tag,
        tokens_of(before + written(node)) == tokens_of(before) + tokens_written(node),
        node.value is Tag ==> scan_of(before + written(node)).buffer.len() == 0,
    decreases node, 1int,
{
    match node.value {
        ElementView::Text(text) => {
            lemma_scan_gathers(before, text);
            assert(text.len() > 0) by {
                if text.len() == 0 {
                    assert(is_blank(text));
                }
            }
            assert(scan_of(before).buffer + text =~= text);
            assert(tokens_of(before) =~= scan_of(before).tokens);
            assert(tokens_of(before + text) =~= tokens_of(before) + seq![TokenView::Text(text)]);
        },
        ElementView::Tag { name, .. } => {
            lemma_tag_is_a_token(before, name);
            let opened = with_tag(before, name);
            lemma_all_scan_written(opened, node.children);
            let inside = opened + all_written(node.children);
            assert(bracket_free(closing(name))) by {
                assert forall|i: int| 0 <= i < closing(name).len() implies closing(name)[i] != '<'
                    && closing(name)[i] != '>' by {
                    if i > 0 {
                        assert(closing(name)[i] == name[i - 1]);
                    }
                }
            }
            lemma_tag_is_a_token(inside, closing(name));
            assert(before + written(node) =~= with_tag(inside, closing(name)));
            assert(tokens_of(before + written(node)) =~= tokens_of(before) + tokens_written(node));
        },
    }
}

/// The same of a run of plain subtrees of which no two texts are neighbours.
proof fn lemma_all_scan_written(before: Seq<char>, nodes: Seq<NodeView>)
    requires
        forall|i: int| 0 <= i < nodes.len() ==> plain(#[trigger] nodes[i]),
        apart(nodes),
        !scan_of(before).in_tag,
        scan_of(before).buffer.len() == 0,
    ensures
        !scan_of(before + all_written(nodes)).in_tag,
        tokens_of(before + all_written(nodes)) == tokens_of(before) + all_tokens_written(nodes),
        nodes.len() == 0 || nodes.last().value is Tag ==> scan_of(
            before + all_written(nodes),
        ).buffer.len() == 0,
    decreases nodes, 0int,
{
    if nodes.len() == 0 {
        assert(before + all_written(nodes) =~= before);
        assert(tokens_of(before) + all_tokens_written(nodes) =~= tokens_of(before));
    } else {
        let front = nodes.drop_last();
        let last = nodes.last();
        let n = nodes.len() - 1;
        assert forall|i: int| 0 <= i < front.len() implies plain(#[trigger] front[i]) by {
            assert(front[i] == nodes[i]);
        }
        assert forall|i: int| 0 < i < front.len() implies !((#[trigger] front[i]).value is Text
            && front[i - 1].value is Text) by {
            assert(front[i] == nodes[i]);
            assert(front[i - 1] == nodes[i - 1]);
        }
        lemma_all_scan_written(before, front);
        let middle = before + all_written(front);
        assert(plain(nodes[n]));
        if last.value is Text && front.len() > 0 {
            assert(!(nodes[n].value is Text && nodes[n - 1].value is Text));
            assert(front.last() == nodes[n - 1]);
        }
        lemma_scan_written(middle, last);
        assert(before + all_written(nodes) =~= middle + written(last));
        assert(tokens_of(before) + all_tokens_written(nodes) =~= (tokens_of(before)
            + all_tokens_written(front)) + tokens_written(last));
    }
}

/// What one more token adds to what the tokens before it built.
proof fn lemma_built_next(tokens: Seq<TokenView>, token: TokenView)
    ensures
        built(tokens.push(token)) == token_added(built(tokens), token),
{
    assert(tokens.push(token).drop_last() =~= tokens);
}

/// The open elements after `nodes` have become the last children of the
/// innermost one.
pub open spec fn children_appended(stack: Seq<NodeView>, nodes: Seq<NodeView>) -> Seq<NodeView> {
    stack.update(
        stack.len() - 1,
        NodeView { value: stack.last().value, children: stack.last().children + nodes },
    )
}

/// The tokens of a plain subtree make the subtree the last child of the
/// innermost open element.
proof fn lemma_built_written(tokens: Seq<TokenView>, node: NodeView)
    requires
        plain(node),
        built(tokens).len() > 0,
    ensures
        built(tokens + tokens_written(node)) == child_appended(built(tokens), node),
    decreases node, 1int,
{
    let stack = built(tokens);
    match node.value {
        ElementView::Text(text) => {
            assert(tokens + tokens_written(node) =~= tokens.push(TokenView::Text(text)));
            lemma_built_next(tokens, TokenView::Text(text));
            assert(node =~~= leaf(ElementView::Text(text)));
        },
        ElementView::Tag { name, attributes } => {
            let opened = tokens.push(TokenView::Tag(name));
            lemma_opening(stack, node);
            lemma_built_next(tokens, TokenView::Tag(name));
            lemma_all_built_written(opened, node.children);
            let inside = opened + all_tokens_written(node.children);
            lemma_built_next(inside, TokenView::Tag(closing(name)));
            lemma_closing(built(inside), name);
            assert(tokens + tokens_written(node) =~= inside.push(TokenView::Tag(closing(name))));
            let frame = leaf(node.value);
            assert(frame.children + node.children =~= node.children);
            assert(children_appended(stack.push(frame), node.children) =~= stack.push(node));
            assert(stack.push(node).drop_last() =~= stack);
        },
    }
}

/// The same of a run of plain subtrees.
proof fn lemma_all_built_written(tokens: Seq<TokenView>, nodes: Seq<NodeView>)
    requires
        forall|i: int| 0 <= i < nodes.len() ==> plain(#[trigger] nodes[i]),
        built(tokens).len() > 0,
    ensures
        built(tokens + all_tokens_written(nodes)) == children_appended(built(tokens), nodes),
    decreases nodes, 0int,
{
    let stack = built(tokens);
    if nodes.len() == 0 {
        assert(tokens + all_tokens_written(nodes) =~= tokens);
        assert(stack.last().children + nodes =~= stack.last().children);
        assert(children_appended(stack, nodes) =~= stack);
    } else {
        let front = nodes.drop_last();
        let last = nodes.last();
        assert forall|i: int| 0 <= i < front.len() implies plain(#[trigger] front[i]) by {
            assert(front[i] == nodes[i]);
        }
        assert(plain(nodes[nodes.len() - 1]));
        lemma_all_built_written(tokens, front);
        let middle = tokens + all_tokens_written(front);
        lemma_built_written(middle, last);
        assert(tokens + all_tokens_written(nodes) =~= middle + tokens_written(last));
        assert((stack.last().children + front).push(last) =~= stack.last().children + nodes);
        assert(child_appended(children_appended(stack, front), last) =~= children_appended(
            stack,
            nodes,
        ));
    }
}

/// The opening tag of a plain element opens the element.
proof fn lemma_opening(stack: Seq<NodeView>, node: NodeView)
    requires
        plain(node),
        node.value is Tag,
    ensures
        token_added(stack, TokenView::Tag(node.value->name)) == stack.push(leaf(node.value)),
{
    let name = node.value->name;
    lemma_word_alone(name);
    assert(words(name)[0] == name);
    assert(words(name).skip(1) =~= Seq::empty());
    assert(!is_blank(name)) by {
        assert(!is_space(name[0]));
    }
    assert(node.value->attributes =~= Seq::empty());
}

/// The closing tag of a plain name closes the innermost open element, if
/// it is not the only one, and changes nothing else.
proof fn lemma_closing(stack: Seq<NodeView>, name: Seq<char>)
    requires
        plain_name(name),
    ensures
        token_added(stack, TokenView::Tag(closing(name))) == (if stack.len() <= 1 {
            stack
        } else {
            top_closed(stack)
        }),
{
    let text = closing(name);
    assert(is_word(text)) by {
        assert forall|i: int| 0 <= i < text.len() implies !is_space(text[i]) by {
            if i > 0 {
                assert(text[i] == name[i - 1]);
            }
        }
    }
    lemma_word_alone(text);
    assert(words(text)[0] == text);
    assert(!is_blank(text)) by {
        assert(!is_space(text[0]));
    }
}

/// Tree round trip. A well-nested tree whose root is an element, written
/// as markup and parsed, is the tree again: the names, the nesting, the
/// texts and the order of the children are those that were written.
pub proof fn lemma_round_trip(tree: NodeView)
    ensures
        plain(tree) && tree.value is Tag ==> document_of(written(tree)) == tree,
{
    if plain(tree) && tree.value is Tag {
        let name = tree.value->name;
        let none = Seq::<char>::empty();
        lemma_scan_written(none, tree);
        assert(none + written(tree) =~= written(tree));
        assert(tokens_of(none) =~= Seq::<TokenView>::empty());
        assert(tokens_of(none) + tokens_written(tree) =~= tokens_written(tree));
        let first = seq![TokenView::Tag(name)];
        assert(first =~= Seq::<TokenView>::empty().push(TokenView::Tag(name)));
        lemma_built_next(Seq::empty(), TokenView::Tag(name));
        lemma_opening(Seq::empty(), tree);
        let frame = leaf(tree.value);
        assert(built(first) =~= seq![frame]);
        lemma_all_built_written(first, tree.children);
        let inside = first + all_tokens_written(tree.children);
        lemma_built_next(inside, TokenView::Tag(closing(name)));
        lemma_closing(built(inside), name);
        assert(tokens_written(tree) =~= inside.push(TokenView::Tag(closing(name))));
        assert(frame.children + tree.children =~= tree.children);
        assert(children_appended(seq![frame], tree.children) =~= seq![tree]);
    }
}

} // verus!
