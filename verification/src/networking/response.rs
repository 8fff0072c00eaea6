//! What comes back: the head of an HTTP response is checked and taken off,
//! and the body is handed on.

use crate::text::{
    first_occurrence, is_space, is_whitespace, lowercase, occurs, same_text, split_once,
    substring, texts, to_chars,
};
use vstd::prelude::*;

verus! {

/// `s` without the white space at its start.
pub open spec fn trimmed_start(s: Seq<char>) -> Seq<char>
    decreases s.len(),
{
    if s.len() > 0 && is_space(s[0]) {
        trimmed_start(s.skip(1))
    } else {
        s
    }
}

/// `s` without the white space at its end.
pub open spec fn trimmed_end(s: Seq<char>) -> Seq<char>
    decreases s.len(),
{
    if s.len() > 0 && is_space(s.last()) {
        trimmed_end(s.drop_last())
    } else {
        s
    }
}

/// `s` without the white space at its start and at its end.
pub open spec fn trimmed(s: Seq<char>) -> Seq<char> {
    trimmed_end(trimmed_start(s))
}

/// Trimming the start skips the white space that `s` starts with.
proof fn lemma_trimmed_start(s: Seq<char>, n: int)
    requires
        0 <= n <= s.len(),
        forall|i: int| 0 <= i < n ==> is_space(s[i]),
        n < s.len() ==> !is_space(s[n]),
    ensures
        trimmed_start(s) == s.skip(n),
    decreases n,
{
    if n == 0 {
        assert(s.skip(0) =~= s);
    } else {
        let rest = s.skip(1);
        assert forall|i: int| 0 <= i < n - 1 implies is_space(rest[i]) by {
            assert(rest[i] == s[i + 1]);
        }
        lemma_trimmed_start(rest, n - 1);
        assert(rest.skip(n - 1) =~= s.skip(n));
    }
}

/// Trimming the end takes off the white space that `s` ends with.
proof fn lemma_trimmed_end(s: Seq<char>, n: int)
    requires
        0 <= n <= s.len(),
        forall|i: int| n <= i < s.len() ==> is_space(s[i]),
        n > 0 ==> !is_space(s[n - 1]),
    ensures
        trimmed_end(s) == s.take(n),
    decreases s.len() - n,
{
    if n == s.len() {
        assert(s.take(n) =~= s);
    } else {
        let rest = s.drop_last();
        assert(is_space(s[s.len() - 1]));
        assert forall|i: int| n <= i < rest.len() implies is_space(rest[i]) by {
            assert(rest[i] == s[i]);
        }
        lemma_trimmed_end(rest, n);
        assert(rest.take(n) =~= s.take(n));
    }
}

/// `s` without the white space at its start and at its end.
pub fn trim(s: &str) -> (r: String)
    ensures
        r@ == trimmed(s@),
{
    let chars = to_chars(s);
    let mut from: usize = 0;
    while from < chars.len() && is_whitespace(chars[from])
        invariant
            from <= chars.len(),
            forall|i: int| 0 <= i < from ==> is_space(chars@[i]),
        decreases chars.len() - from,
    {
        from += 1;
    }
    let ghost rest = chars@.skip(from as int);
    let mut to: usize = chars.len();
    while to > from && is_whitespace(chars[to - 1])
        invariant
            from <= to <= chars.len(),
            rest == chars@.skip(from as int),
            forall|i: int| to - from <= i < rest.len() ==> is_space(rest[i]),
        decreases to,
    {
        to -= 1;
    }
    proof {
        lemma_trimmed_start(chars@, from as int);
        lemma_trimmed_end(rest, to - from);
        assert(rest.take(to - from) =~= chars@.subrange(from as int, to as int));
    }
    substring(&chars, from, to)
}

/// The header lines in `rest`, which is what follows a line end: the lines
/// up to the first empty one, or up to the end.
pub open spec fn header_lines_in(rest: Seq<char>) -> Seq<Seq<char>>
    decreases rest.len(),
{
    if rest.len() == 0 {
        Seq::empty()
    } else if !occurs(rest, "\r\n"@) {
        seq![rest]
    } else {
        let end = first_occurrence(rest, "\r\n"@);
        if 0 < end && end + 2 <= rest.len() {
            seq![rest.take(end)] + header_lines_in(rest.skip(end + 2))
        } else {
            Seq::empty()
        }
    }
}

/// The header lines of the response `text`: its lines after the first, up
/// to the first empty one.
pub open spec fn header_lines(text: Seq<char>) -> Seq<Seq<char>> {
    if occurs(text, "\r\n"@) {
        header_lines_in(text.skip(first_occurrence(text, "\r\n"@) + 2))
    } else {
        Seq::empty()
    }
}

/// The name of the header field that `line` sets: what stands before the
/// first colon, without the white space around it, in lower case.
pub open spec fn field_name(line: Seq<char>) -> Seq<char> {
    lowercase(trimmed(line.take(first_occurrence(line, ":"@))))
}

/// Whether a field of this name says that the body is encoded.
pub open spec fn names_encoding(name: Seq<char>) -> bool {
    name == "transfer-encoding"@ || name == "content-encoding"@
}

/// Whether a field of the name `name`, which is in lower case already, says
/// that the body is encoded.
pub fn is_encoding_name(name: &str) -> (r: bool)
    ensures
        r == names_encoding(name@),
{
    same_text(name, "transfer-encoding") || same_text(name, "content-encoding")
}

/// Some line of `lines` holds no colon.
pub open spec fn any_without_colon(lines: Seq<Seq<char>>) -> bool {
    exists|i: int| 0 <= i < lines.len() && !occurs(#[trigger] lines[i], ":"@)
}

/// Some line of `lines` sets a field that says that the body is encoded.
pub open spec fn any_encoding(lines: Seq<Seq<char>>) -> bool {
    exists|i: int| 0 <= i < lines.len() && names_encoding(field_name(#[trigger] lines[i]))
}

/// What is handed on in place of a body that is encoded.
pub open spec fn encoding_refused() -> Seq<char> {
    "Error encoding not supported"@
}

/// The body of the response `text`, if it has one: nothing where a header
/// line holds no colon; else a message where a header says that the body
/// is encoded; else what follows the first empty line, and nothing where
/// there is none.
pub open spec fn body_of(text: Seq<char>) -> Option<Seq<char>> {
    if any_without_colon(header_lines(text)) {
        None
    } else if any_encoding(header_lines(text)) {
        Some(encoding_refused())
    } else if occurs(text, "\r\n\r\n"@) {
        Some(text.skip(first_occurrence(text, "\r\n\r\n"@) + 4))
    } else {
        None
    }
}

/// The header lines in `rest`, which is what follows a line end.
fn read_header_lines(text: String) -> (lines: Vec<String>)
    ensures
        texts(lines@) == header_lines_in(text@),
{
    proof {
        reveal_strlit("\r\n");
    }
    let ghost all = text@;
    let mut lines: Vec<String> = Vec::new();
    let mut rest = text;
    assert(texts(lines@) =~= Seq::empty());
    loop
        invariant
            "\r\n"@.len() == 2,
            all == text@,
            header_lines_in(all) == texts(lines@) + header_lines_in(rest@),
        decreases rest@.len(),
    {
        if rest.as_str().is_empty() {
            assert(texts(lines@) + Seq::empty() =~= texts(lines@));
            return lines;
        }
        let ghost before = texts(lines@);
        let ghost remaining = rest@;
        match split_once(&to_chars(rest.as_str()), "\r\n") {
            None => {
                lines.push(rest);
                assert(texts(lines@) =~= before + seq![remaining]);
                return lines;
            },
            Some((line, tail)) => {
                if line.as_str().is_empty() {
                    assert(before + Seq::empty() =~= before);
                    return lines;
                }
                lines.push(line);
                assert(texts(lines@) =~= before + seq![
                    remaining.take(first_occurrence(remaining, "\r\n"@)),
                ]);
                assert(before + (seq![remaining.take(first_occurrence(remaining, "\r\n"@))]
                    + header_lines_in(tail@)) =~= texts(lines@) + header_lines_in(
                    tail@,
                ));
                rest = tail;
            },
        }
    }
}

/// The body of the response `text`, if it has one.
pub fn response_body(text: &str) -> (r: Option<String>)
    ensures
        match r {
            Some(body) => body_of(text@) == Some(body@),
            None => body_of(text@) is None,
        },
{
    proof {
        reveal_strlit("\r\n");
        reveal_strlit("\r\n\r\n");
    }
    let chars = to_chars(text);
    let lines = match split_once(&chars, "\r\n") {
        Some((_, rest)) => read_header_lines(rest),
        None => Vec::new(),
    };
    assert(texts(lines@) =~= header_lines(text@));
    let ghost all = header_lines(text@);
    let mut encoded = false;
    let mut i: usize = 0;
    while i < lines.len()
        invariant
            i <= lines.len(),
            texts(lines@) == all,
            all == header_lines(text@),
            forall|k: int| 0 <= k < i ==> occurs(#[trigger] all[k], ":"@),
            encoded <==> exists|k: int| 0 <= k < i && names_encoding(field_name(#[trigger] all[k])),
        decreases lines.len() - i,
    {
        assert(all[i as int] == lines@[i as int]@);
        match split_once(&to_chars(lines[i].as_str()), ":") {
            None => {
                assert(!occurs(all[i as int], ":"@));
                return None;
            },
            Some((name, _)) => {
                let name = trim(name.as_str()).as_str().to_lowercase();
                if is_encoding_name(name.as_str()) {
                    encoded = true;
                }
            },
        }
        i += 1;
    }
    assert(!any_without_colon(all));
    assert(encoded == any_encoding(all));
    if encoded {
        return Some("Error encoding not supported".to_owned());
    }
    match split_once(&chars, "\r\n\r\n") {
        Some((_, body)) => Some(body),
        None => None,
    }
}

} // verus!
