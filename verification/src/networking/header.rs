//! The head of an HTTP/1.0 `GET` request.

use crate::string_map::{put, without, Pairs, StringMap};
use vstd::prelude::*;

verus! {

/// A request head: the path and the host, and further header fields in the
/// order in which their names were first added.
pub struct Header {
    path: String,
    host: String,
    map: StringMap,
}

/// The mathematical value of a [`Header`].
pub ghost struct HeaderView {
    pub path: Seq<char>,
    pub host: Seq<char>,
    pub fields: Pairs,
}

impl View for Header {
    type V = HeaderView;

    closed spec fn view(&self) -> HeaderView {
        HeaderView { path: self.path@, host: self.host@, fields: self.map@ }
    }
}

/// The lines of the header fields `fields`: each name, a colon and a space,
/// the value, and a line end.
pub open spec fn field_lines(fields: Pairs) -> Seq<char>
    decreases fields.len(),
{
    if fields.len() == 0 {
        Seq::empty()
    } else {
        field_lines(fields.drop_last()) + fields.last().0 + ": "@ + fields.last().1 + "\r\n"@
    }
}

/// The text of the request: the request line, the `Host` line, the other
/// fields, and an empty line.
pub open spec fn request_text(header: HeaderView) -> Seq<char> {
    "GET "@ + header.path + " HTTP/1.0\r\nHost: "@ + header.host + "\r\n"@ + field_lines(
        header.fields,
    ) + "\r\n"@
}

impl Header {
    /// The head of a request for `path` on `host`, without further fields.
    pub fn new(path: &str, host: &str) -> (header: Header)
        ensures
            header@ == (HeaderView { path: path@, host: host@, fields: Seq::empty() }),
    {
        Header { path: path.to_owned(), host: host.to_owned(), map: StringMap::new() }
    }

    /// The header with the field `key` set to `value`. A field that is set
    /// already keeps its place and takes the new value.
    pub fn add(self, key: &str, value: &str) -> (header: Header)
        ensures
            header@ == (HeaderView { fields: put(self@.fields, key@, value@), ..self@ }),
    {
        let mut header = self;
        header.map.insert(key.to_owned(), value.to_owned());
        header
    }

    /// The header without the field `key`.
    pub fn remove(self, key: &str) -> (header: Header)
        ensures
            header@ == (HeaderView { fields: without(self@.fields, key@), ..self@ }),
    {
        let mut header = self;
        header.map.remove(key);
        header
    }

    /// The request as it is sent.
    pub fn to_string(&self) -> (text: String)
        ensures
            text@ == request_text(self@),
    {
        let mut text = String::new();
        text.append("GET ");
        text.append(self.path.as_str());
        text.append(" HTTP/1.0\r\nHost: ");
        text.append(self.host.as_str());
        text.append("\r\n");
        let ghost head = text@;
        assert(head =~= "GET "@ + self.path@ + " HTTP/1.0\r\nHost: "@ + self.host@ + "\r\n"@);
        let n: usize = self.map.len();
        let ghost fields = self.map@;
        assert(fields.take(0) =~= Seq::empty());
        let mut i: usize = 0;
        while i < n
            invariant
                i <= n,
                n == fields.len(),
                fields == self.map@,
                text@ == head + field_lines(fields.take(i as int)),
            decreases n - i,
        {
            let (key, value) = self.map.entry(i);
            let ghost before = text@;
            text.append(key.as_str());
            text.append(": ");
            text.append(value.as_str());
            text.append("\r\n");
            proof {
                assert(fields.take(i + 1).drop_last() =~= fields.take(i as int));
                assert(fields.take(i + 1).last() == fields[i as int]);
                assert(text@ =~= head + field_lines(fields.take(i + 1)));
            }
            i += 1;
        }
        assert(fields.take(n as int) =~= fields);
        text.append("\r\n");
        text
    }
}

} // verus!
