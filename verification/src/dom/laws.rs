//! What holds of every tree that the parser builds.

use crate::dom::{
    attributes_of, built, child_appended, document_of, finished, implicit_root, is_void, leaf,
    rooted, tag_attributes_of, tag_name_of, token_added, top_closed, unquoted, ElementView,
    NodeView,
};
use crate::lexer::{scan_of, tokens_of, Scan, TokenView};
use crate::string_map::{distinct_keys, has_key, position, put, Pairs};
use crate::text::{first_occurrence, is_blank, is_space, lowercase, occurs, words};
use vstd::prelude::*;

verus! {

/// `s` is the lower-case form of some text.
pub open spec fn is_lowercased(s: Seq<char>) -> bool {
    exists|t: Seq<char>| s == lowercase(t)
}

/// No key occurs twice, and every key is in lower case.
pub open spec fn proper_attributes(attributes: Pairs) -> bool {
    &&& distinct_keys(attributes)
    &&& forall|i: int| 0 <= i < attributes.len() ==> is_lowercased(#[trigger] attributes[i].0)
}

/// Neither `<` nor `>` stands in `s`.
pub open spec fn bracket_free(s: Seq<char>) -> bool {
    forall|i: int| 0 <= i < s.len() ==> s[i] != '<' && s[i] != '>'
}

/// A text is not blank and holds no angle bracket. A tag has a name that is
/// not blank, starts with neither `!` nor `/` and is in lower case, unless
/// it is the implicit root; and its attributes are proper.
pub open spec fn proper_value(value: ElementView) -> bool {
    match value {
        ElementView::Text(text) => !is_blank(text) && bracket_free(text),
        ElementView::Tag { name, attributes } => {
            &&& !is_blank(name)
            &&& name[0] != '!'
            &&& name[0] != '/'
            &&& is_lowercased(name) || value == implicit_root().value
            &&& proper_attributes(attributes)
        },
    }
}

/// What can have children: a tag that is no void element.
pub open spec fn is_container(value: ElementView) -> bool {
    value matches ElementView::Tag { name, .. } && !is_void(name)
}

/// Every node of the subtree `node` has a proper value, and its texts and
/// void elements are leaves.
pub open spec fn proper(node: NodeView) -> bool
    decreases node,
{
    &&& proper_value(node.value)
    &&& !is_container(node.value) ==> node.children.len() == 0
    &&& forall|i: int| 0 <= i < node.children.len() ==> proper(#[trigger] node.children[i])
}

/// The open elements can have children, and all that hangs below them is
/// proper.
pub open spec fn proper_stack(stack: Seq<NodeView>) -> bool {
    forall|k: int|
        0 <= k < stack.len() ==> proper(#[trigger] stack[k]) && is_container(stack[k].value)
}

/// The text of a token.
pub open spec fn text_of(token: TokenView) -> Seq<char> {
    match token {
        TokenView::Text(text) => text,
        TokenView::Tag(text) => text,
    }
}

/// No token holds an angle bracket.
pub open spec fn all_bracket_free(tokens: Seq<TokenView>) -> bool {
    forall|i: int| 0 <= i < tokens.len() ==> bracket_free(text_of(#[trigger] tokens[i]))
}

/// The scanner cuts a document at its angle brackets: no token holds one.
pub proof fn lemma_tokens_bracket_free(body: Seq<char>)
    ensures
        all_bracket_free(scan_of(body).tokens),
        bracket_free(scan_of(body).buffer),
        all_bracket_free(tokens_of(body)),
    decreases body.len(),
{
    if body.len() > 0 {
        lemma_tokens_bracket_free(body.drop_last());
        let before = scan_of(body.drop_last());
        let after = scan_of(body);
        assert forall|i: int| 0 <= i < after.tokens.len() implies bracket_free(
            text_of(#[trigger] after.tokens[i]),
        ) by {
            if i < before.tokens.len() {
                assert(after.tokens[i] == before.tokens[i]);
            }
        }
    }
    let scan = scan_of(body);
    assert forall|i: int| 0 <= i < tokens_of(body).len() implies bracket_free(
        text_of(#[trigger] tokens_of(body)[i]),
    ) by {
        if i < scan.tokens.len() {
            assert(tokens_of(body)[i] == scan.tokens[i]);
        }
    }
}

/// The implicit root is a proper tag that can have children.
proof fn lemma_implicit_root_proper()
    ensures
        proper(implicit_root()),
        is_container(implicit_root().value),
{
    reveal_strlit("html");
    reveal_strlit("area");
    reveal_strlit("base");
    reveal_strlit("br");
    reveal_strlit("col");
    reveal_strlit("embed");
    reveal_strlit("hr");
    reveal_strlit("img");
    reveal_strlit("input");
    reveal_strlit("link");
    reveal_strlit("meta");
    reveal_strlit("param");
    reveal_strlit("source");
    reveal_strlit("track");
    reveal_strlit("wbr");
    let html = "html"@;
    assert(!is_space(html[0]));
    assert(html.len() == 4 && html[0] == 'h');
    assert("area"@[0] == 'a' && "base"@[0] == 'b' && "link"@[0] == 'l' && "meta"@[0] == 'm');
    assert(!is_void(html));
}

/// Binding a key in lower case keeps attributes proper.
proof fn lemma_put_proper(attributes: Pairs, key: Seq<char>, value: Seq<char>)
    requires
        proper_attributes(attributes),
        is_lowercased(key),
    ensures
        proper_attributes(put(attributes, key, value)),
{
    let after = put(attributes, key, value);
    if has_key(attributes, key) {
        let at = position(attributes, key);
        assert forall|i: int, j: int| 0 <= i < j < after.len() implies after[i].0 != after[j].0 by {
            assert(after[i].0 == attributes[i].0);
            assert(after[j].0 == attributes[j].0);
        }
        assert forall|i: int| 0 <= i < after.len() implies is_lowercased(#[trigger] after[i].0) by {
            assert(after[i].0 == attributes[i].0);
        }
    } else {
        assert forall|i: int, j: int| 0 <= i < j < after.len() implies after[i].0 != after[j].0 by {
            if j == attributes.len() {
                assert(attributes[i].0 != key);
            }
        }
        assert forall|i: int| 0 <= i < after.len() implies is_lowercased(#[trigger] after[i].0) by {
            if i < attributes.len() {
                assert(after[i].0 == attributes[i].0);
            }
        }
    }
}

/// The attributes of a tag have distinct keys in lower case.
pub proof fn lemma_attributes_proper(tokens: Seq<Seq<char>>)
    ensures
        proper_attributes(attributes_of(tokens)),
    decreases tokens.len(),
{
    if tokens.len() > 0 {
        lemma_attributes_proper(tokens.drop_last());
        let before = attributes_of(tokens.drop_last());
        let token = tokens.last();
        if occurs(token, "="@) {
            let at = first_occurrence(token, "="@);
            assert(is_lowercased(lowercase(token.take(at))));
            lemma_put_proper(before, lowercase(token.take(at)), unquoted(token.skip(at + 1)));
        } else {
            assert(is_lowercased(lowercase(token)));
            lemma_put_proper(before, lowercase(token), Seq::empty());
        }
    }
}

/// A proper child keeps the open elements proper.
proof fn lemma_child_appended_proper(stack: Seq<NodeView>, child: NodeView)
    requires
        proper_stack(stack),
        stack.len() > 0,
        proper(child),
    ensures
        proper_stack(child_appended(stack, child)),
{
    let after = child_appended(stack, child);
    let last = stack.len() - 1;
    assert forall|k: int| 0 <= k < after.len() implies proper(#[trigger] after[k])
        && is_container(after[k].value) by {
        if k == last {
            assert(proper(stack[last]));
            let kids = stack[last].children;
            assert forall|i: int| 0 <= i < after[k].children.len() implies proper(
                #[trigger] after[k].children[i],
            ) by {
                if i < kids.len() {
                    assert(after[k].children[i] == kids[i]);
                }
            }
        } else {
            assert(after[k] == stack[k]);
        }
    }
}

/// The implicit root keeps the open elements proper.
proof fn lemma_rooted_proper(stack: Seq<NodeView>)
    requires
        proper_stack(stack),
    ensures
        proper_stack(rooted(stack)),
        rooted(stack).len() > 0,
{
    lemma_implicit_root_proper();
}

/// Closing the innermost element keeps the open elements proper.
proof fn lemma_top_closed_proper(stack: Seq<NodeView>)
    requires
        proper_stack(stack),
        stack.len() >= 2,
    ensures
        proper_stack(top_closed(stack)),
        top_closed(stack).len() == stack.len() - 1,
{
    let rest = stack.drop_last();
    assert forall|k: int| 0 <= k < rest.len() implies proper(#[trigger] rest[k])
        && is_container(rest[k].value) by {
        assert(rest[k] == stack[k]);
    }
    assert(proper(stack[stack.len() - 1]));
    lemma_child_appended_proper(rest, stack.last());
}

/// Every token keeps the open elements proper.
proof fn lemma_token_added_proper(stack: Seq<NodeView>, token: TokenView)
    requires
        proper_stack(stack),
        bracket_free(text_of(token)),
    ensures
        proper_stack(token_added(stack, token)),
{
    match token {
        TokenView::Text(text) => {
            if !is_blank(text) {
                lemma_rooted_proper(stack);
                lemma_child_appended_proper(rooted(stack), leaf(ElementView::Text(text)));
            }
        },
        TokenView::Tag(text) => {
            let name = tag_name_of(text);
            let attributes = tag_attributes_of(text);
            let node = leaf(ElementView::Tag { name, attributes });
            if !is_blank(name) && name[0] != '!' && name[0] != '/' {
                let all = words(text);
                assert(all.len() > 0) by {
                    if all.len() == 0 {
                        assert(is_blank(name));
                    }
                }
                assert(is_lowercased(lowercase(all[0])));
                lemma_attributes_proper(all.skip(1));
                assert(proper(node));
                if is_void(name) {
                    lemma_rooted_proper(stack);
                    lemma_child_appended_proper(rooted(stack), node);
                } else {
                    let after = stack.push(node);
                    assert forall|k: int| 0 <= k < after.len() implies proper(#[trigger] after[k])
                        && is_container(after[k].value) by {
                        if k < stack.len() {
                            assert(after[k] == stack[k]);
                        }
                    }
                }
            } else if !is_blank(name) && name[0] == '/' && stack.len() > 1 {
                lemma_top_closed_proper(stack);
            }
        },
    }
}

/// What a run of tokens builds is proper.
proof fn lemma_built_proper(tokens: Seq<TokenView>)
    requires
        all_bracket_free(tokens),
    ensures
        proper_stack(built(tokens)),
    decreases tokens.len(),
{
    if tokens.len() > 0 {
        let front = tokens.drop_last();
        assert forall|i: int| 0 <= i < front.len() implies bracket_free(
            text_of(#[trigger] front[i]),
        ) by {
            assert(front[i] == tokens[i]);
        }
        assert(tokens.last() == tokens[tokens.len() - 1]);
        lemma_built_proper(tokens.drop_last());
        lemma_token_added_proper(built(tokens.drop_last()), tokens.last());
    }
}

/// Closing what is open leaves a proper tree, whose root is a tag.
proof fn lemma_finished_proper(stack: Seq<NodeView>)
    requires
        proper_stack(stack),
    ensures
        proper(finished(stack)),
        is_container(finished(stack).value),
    decreases stack.len(),
{
    if stack.len() == 0 {
        lemma_implicit_root_proper();
    } else if stack.len() == 1 {
        assert(proper(stack[0]));
    } else {
        lemma_top_closed_proper(stack);
        lemma_finished_proper(top_closed(stack));
    }
}

/// The tree of every document is proper: its root is a tag that is no
/// void element; no text in it is blank, holds an angle bracket or has
/// children; no void element has children; every tag's name is in lower
/// case, except that the implicit root is called `html`, and neither blank
/// nor a comment's or a closing tag's; and every tag's attributes have
/// distinct keys in lower case.
pub proof fn lemma_document_is_proper(body: Seq<char>)
    ensures
        proper(document_of(body)),
        is_container(document_of(body).value),
{
    lemma_tokens_bracket_free(body);
    lemma_built_proper(tokens_of(body));
    lemma_finished_proper(built(tokens_of(body)));
}

/// The number of levels of the subtree `node`.
pub open spec fn height(node: NodeView) -> nat
    decreases node,
{
    1 + tallest(node.children)
}

/// The number of levels of the tallest of the subtrees `nodes`.
pub open spec fn tallest(nodes: Seq<NodeView>) -> nat
    decreases nodes,
{
    if nodes.len() == 0 {
        0
    } else if tallest(nodes.drop_last()) >= height(nodes.last()) {
        tallest(nodes.drop_last())
    } else {
        height(nodes.last())
    }
}

/// The greatest number of elements that are open at once while the tokens
/// `tokens` are read.
pub open spec fn deepest(tokens: Seq<TokenView>) -> nat
    decreases tokens.len(),
{
    if tokens.len() == 0 {
        0
    } else if deepest(tokens.drop_last()) >= built(tokens).len() {
        deepest(tokens.drop_last())
    } else {
        built(tokens).len()
    }
}

/// Each open element, with what hangs below it, reaches no deeper than
/// `depth` levels below the root.
pub open spec fn within(stack: Seq<NodeView>, depth: nat) -> bool {
    forall|k: int| 0 <= k < stack.len() ==> height(#[trigger] stack[k]) + k <= depth
}

/// A child that fits below the innermost open element keeps the open
/// elements within the depth.
proof fn lemma_child_appended_within(stack: Seq<NodeView>, child: NodeView, depth: nat)
    requires
        within(stack, depth),
        stack.len() > 0,
        height(child) + stack.len() <= depth,
    ensures
        within(child_appended(stack, child), depth),
{
    let after = child_appended(stack, child);
    let last = stack.len() - 1;
    assert forall|k: int| 0 <= k < after.len() implies height(#[trigger] after[k]) + k
        <= depth by {
        if k == last {
            assert(height(stack[last]) + last <= depth);
            assert(after[k].children.drop_last() =~= stack[last].children);
        } else {
            assert(after[k] == stack[k]);
        }
    }
}

/// Closing the innermost element keeps the open elements within the depth.
proof fn lemma_top_closed_within(stack: Seq<NodeView>, depth: nat)
    requires
        within(stack, depth),
        stack.len() >= 2,
    ensures
        within(top_closed(stack), depth),
{
    let rest = stack.drop_last();
    assert forall|k: int| 0 <= k < rest.len() implies height(#[trigger] rest[k]) + k <= depth by {
        assert(rest[k] == stack[k]);
    }
    assert(height(stack[stack.len() - 1]) + (stack.len() - 1) <= depth);
    lemma_child_appended_within(rest, stack.last(), depth);
}

/// A token keeps the open elements within a depth that it leaves room for.
proof fn lemma_token_added_within(stack: Seq<NodeView>, token: TokenView, depth: nat)
    requires
        within(stack, depth),
        token_added(stack, token).len() < depth,
    ensures
        within(token_added(stack, token), depth),
{
    let after = token_added(stack, token);
    assert(tallest(Seq::<NodeView>::empty()) == 0);
    if after != stack {
        match token {
            TokenView::Text(text) => {
                let node = leaf(ElementView::Text(text));
                assert(height(node) == 1);
                assert(height(implicit_root()) == 1);
                lemma_child_appended_within(rooted(stack), node, depth);
            },
            TokenView::Tag(text) => {
                let name = tag_name_of(text);
                let node = leaf(ElementView::Tag { name, attributes: tag_attributes_of(text) });
                assert(height(node) == 1);
                assert(height(implicit_root()) == 1);
                if name[0] == '/' {
                    lemma_top_closed_within(stack, depth);
                } else if is_void(name) {
                    lemma_child_appended_within(rooted(stack), node, depth);
                } else {
                    assert forall|k: int| 0 <= k < after.len() implies height(#[trigger] after[k])
                        + k <= depth by {
                        if k < stack.len() {
                            assert(after[k] == stack[k]);
                        }
                    }
                }
            },
        }
    }
}

/// What a run of tokens builds is within one level more than were open at
/// once.
proof fn lemma_built_within(tokens: Seq<TokenView>)
    ensures
        within(built(tokens), deepest(tokens) + 1),
        built(tokens).len() <= deepest(tokens),
    decreases tokens.len(),
{
    if tokens.len() > 0 {
        let front = tokens.drop_last();
        lemma_built_within(front);
        let depth = deepest(tokens) + 1;
        assert forall|k: int| 0 <= k < built(front).len() implies height(
            #[trigger] built(front)[k],
        ) + k <= depth by {}
        lemma_token_added_within(built(front), tokens.last(), depth);
    }
}

/// Closing what is open leaves a tree within the depth.
proof fn lemma_finished_within(stack: Seq<NodeView>, depth: nat)
    requires
        within(stack, depth),
        depth >= 1,
    ensures
        height(finished(stack)) <= depth,
    decreases stack.len(),
{
    if stack.len() == 0 {
        assert(tallest(Seq::<NodeView>::empty()) == 0);
    } else if stack.len() == 1 {
        assert(height(stack[0]) + 0 <= depth);
    } else {
        lemma_top_closed_within(stack, depth);
        lemma_finished_within(top_closed(stack), depth);
    }
}

/// The tree of a document is no deeper than its markup nests: it has at
/// most one level more than elements were open at once.
pub proof fn lemma_depth_bounded(body: Seq<char>)
    ensures
        height(document_of(body)) <= deepest(tokens_of(body)) + 1,
{
    lemma_built_within(tokens_of(body));
    lemma_finished_within(built(tokens_of(body)), deepest(tokens_of(body)) + 1);
}

/// The text of a closing tag: its name is not blank and starts with `/`.
pub open spec fn is_closing(text: Seq<char>) -> bool {
    !is_blank(tag_name_of(text)) && tag_name_of(text)[0] == '/'
}

/// `body` with the tag whose text is `text` behind it.
pub open spec fn with_tag(body: Seq<char>, text: Seq<char>) -> Seq<char> {
    body + seq!['<'] + text + seq!['>']
}

/// `body` with the tags whose texts are `texts` behind it, in order.
pub open spec fn with_tags(body: Seq<char>, texts: Seq<Seq<char>>) -> Seq<char>
    decreases texts.len(),
{
    if texts.len() == 0 {
        body
    } else {
        with_tag(with_tags(body, texts.drop_last()), texts.last())
    }
}

/// The scanner gathers what holds no angle bracket.
pub proof fn lemma_scan_gathers(body: Seq<char>, text: Seq<char>)
    requires
        bracket_free(text),
    ensures
        scan_of(body + text) == (Scan {
            tokens: scan_of(body).tokens,
            buffer: scan_of(body).buffer + text,
            in_tag: scan_of(body).in_tag,
        }),
    decreases text.len(),
{
    if text.len() == 0 {
        assert(body + text =~= body);
        assert(scan_of(body).buffer + text =~= scan_of(body).buffer);
    } else {
        let front = text.drop_last();
        assert forall|i: int| 0 <= i < front.len() implies front[i] != '<' && front[i] != '>' by {
            assert(front[i] == text[i]);
        }
        lemma_scan_gathers(body, front);
        assert((body + text).drop_last() =~= body + front);
        assert((body + text).last() == text[text.len() - 1]);
        assert(scan_of(body).buffer + front.push(text.last()) =~= scan_of(body).buffer + text);
        assert((scan_of(body).buffer + front).push(text.last()) =~= scan_of(body).buffer + text);
    }
}

/// A tag behind a document that does not end inside a tag is one more token.
pub proof fn lemma_tag_is_a_token(body: Seq<char>, text: Seq<char>)
    requires
        !scan_of(body).in_tag,
        bracket_free(text),
    ensures
        tokens_of(with_tag(body, text)) == tokens_of(body).push(TokenView::Tag(text)),
        !scan_of(with_tag(body, text)).in_tag,
        scan_of(with_tag(body, text)).buffer.len() == 0,
{
    let opened = body.push('<');
    assert(opened.drop_last() =~= body);
    assert(scan_of(opened).tokens =~= tokens_of(body));
    lemma_scan_gathers(opened, text);
    let inside = opened + text;
    assert(scan_of(opened).buffer + text =~= text);
    let closed = inside.push('>');
    assert(closed.drop_last() =~= inside);
    assert(closed =~= with_tag(body, text));
    assert(tokens_of(closed) =~= tokens_of(body).push(TokenView::Tag(text)));
}

/// Implicit closing. Closing tags at the end of a document that does not
/// end inside a tag change nothing about its tree: the elements that they
/// close are closed in the end anyway. So a document without its trailing
/// closing tags has the tree of the document with them.
pub proof fn lemma_trailing_closing_tags(body: Seq<char>, texts: Seq<Seq<char>>)
    requires
        !scan_of(body).in_tag,
        forall|i: int| 0 <= i < texts.len() ==> bracket_free(#[trigger] texts[i]),
    ensures
        !scan_of(with_tags(body, texts)).in_tag,
        (forall|i: int| 0 <= i < texts.len() ==> is_closing(#[trigger] texts[i])) ==> document_of(
            with_tags(body, texts),
        ) == document_of(body),
    decreases texts.len(),
{
    if texts.len() > 0 {
        let front = texts.drop_last();
        let text = texts.last();
        assert forall|i: int| 0 <= i < front.len() implies bracket_free(#[trigger] front[i]) by {
            assert(front[i] == texts[i]);
        }
        lemma_trailing_closing_tags(body, front);
        let before = with_tags(body, front);
        assert(bracket_free(texts[texts.len() - 1]));
        lemma_tag_is_a_token(before, text);
        if forall|i: int| 0 <= i < texts.len() ==> is_closing(#[trigger] texts[i]) {
            assert forall|i: int| 0 <= i < front.len() implies is_closing(#[trigger] front[i]) by {
                assert(front[i] == texts[i]);
            }
            assert(is_closing(texts[texts.len() - 1]));
            let tokens = tokens_of(before);
            assert(tokens.push(TokenView::Tag(text)).drop_last() =~= tokens);
            let stack = built(tokens);
            assert(built(tokens.push(TokenView::Tag(text))) == token_added(
                stack,
                TokenView::Tag(text),
            ));
        }
    }
}

} // verus!
