//! The scanner that cuts a document into text and tag tokens.

use vstd::prelude::*;

verus! {

/// A run of characters outside angle brackets.
pub struct Text {
    pub text: String,
}

/// What stood between `<` and `>`.
pub struct Tag {
    pub tag: String,
}

/// A piece of a document: a text or a tag.
pub enum Token {
    Text(Text),
    Tag(Tag),
}

/// The mathematical value of a [`Token`].
pub ghost enum TokenView {
    Text(Seq<char>),
    Tag(Seq<char>),
}

impl View for Token {
    type V = TokenView;

    open spec fn view(&self) -> TokenView {
        match self {
            Token::Text(t) => TokenView::Text(t.text@),
            Token::Tag(t) => TokenView::Tag(t.tag@),
        }
    }
}

/// The views of a run of tokens.
pub open spec fn token_views(tokens: Seq<Token>) -> Seq<TokenView> {
    Seq::new(tokens.len(), |i: int| tokens[i]@)
}

/// Where the scanner stands: the tokens it has cut, the characters gathered
/// since the last bracket, and whether the last bracket was a `<`.
pub ghost struct Scan {
    pub tokens: Seq<TokenView>,
    pub buffer: Seq<char>,
    pub in_tag: bool,
}

/// The scanner after one more character. `<` ends a text (an empty one
/// yields no token) and enters a tag; `>` ends a tag, whether or not one was
/// entered; every other character is gathered.
pub open spec fn scan_step(scan: Scan, c: char) -> Scan {
    if c == '<' {
        Scan {
            tokens: if scan.buffer.len() > 0 {
                scan.tokens.push(TokenView::Text(scan.buffer))
            } else {
                scan.tokens
            },
            buffer: Seq::empty(),
            in_tag: true,
        }
    } else if c == '>' {
        Scan {
            tokens: scan.tokens.push(TokenView::Tag(scan.buffer)),
            buffer: Seq::empty(),
            in_tag: false,
        }
    } else {
        Scan { tokens: scan.tokens, buffer: scan.buffer.push(c), in_tag: scan.in_tag }
    }
}

/// The scanner after all of `body`.
pub open spec fn scan_of(body: Seq<char>) -> Scan
    decreases body.len(),
{
    if body.len() == 0 {
        Scan { tokens: Seq::empty(), buffer: Seq::empty(), in_tag: false }
    } else {
        scan_step(scan_of(body.drop_last()), body.last())
    }
}

/// What is left over at the end of the input: text outside a tag is a last
/// token, an unterminated tag is dropped.
pub open spec fn scan_tail(scan: Scan) -> Seq<TokenView> {
    if !scan.in_tag && scan.buffer.len() > 0 {
        seq![TokenView::Text(scan.buffer)]
    } else {
        Seq::empty()
    }
}

/// The tokens of `body`.
pub open spec fn tokens_of(body: Seq<char>) -> Seq<TokenView> {
    scan_of(body).tokens + scan_tail(scan_of(body))
}

/// Cuts `body` into its tokens.
pub fn lex(body: String) -> (output: Vec<Token>)
    ensures
        token_views(output@) == tokens_of(body@),
{
    broadcast use vstd::string::group_string_axioms;

    let mut output: Vec<Token> = Vec::new();
    let mut buffer = String::new();
    let mut in_tag = false;
    assert(token_views(output@) =~= Seq::empty());
    for c in it: body.as_str().chars()
        invariant
            it.seq() == body@,
            scan_of(body@.take(it.index())) == (Scan {
                tokens: token_views(output@),
                buffer: buffer@,
                in_tag,
            }),
    {
        assert(body@.take(it.index() + 1).drop_last() =~= body@.take(it.index()));
        let ghost before = token_views(output@);
        if c == '<' {
            in_tag = true;
            if !buffer.as_str().is_empty() {
                output.push(Token::Text(Text { text: buffer }));
                assert(token_views(output@) =~= before.push(output@.last()@));
            }
            buffer = String::new();
        } else if c == '>' {
            in_tag = false;
            output.push(Token::Tag(Tag { tag: buffer }));
            assert(token_views(output@) =~= before.push(output@.last()@));
            buffer = String::new();
        } else {
            buffer.push(c);
        }
    }
    assert(body@.take(body@.len() as int) == body@);
    let ghost before = token_views(output@);
    if !in_tag && !buffer.as_str().is_empty() {
        output.push(Token::Text(Text { text: buffer }));
        assert(token_views(output@) =~= before.push(output@.last()@));
    } else {
        assert(token_views(output@) =~= before + Seq::empty());
    }
    output
}

} // verus!
