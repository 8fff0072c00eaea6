//! Characters and strings: white space, words, searching and splitting, and
//! the two conversions that are left to other code.

use vstd::prelude::*;
use vstd::std_specs::iter::IteratorSpec;

verus! {

/// The Unicode `White_Space` code points.
pub open spec fn is_space(c: char) -> bool {
    let n = c as u32;
    ||| 0x09 <= n <= 0x0D
    ||| n == 0x20
    ||| n == 0x85
    ||| n == 0xA0
    ||| n == 0x1680
    ||| 0x2000 <= n <= 0x200A
    ||| n == 0x2028
    ||| n == 0x2029
    ||| n == 0x202F
    ||| n == 0x205F
    ||| n == 0x3000
}

/// Whether `c` is white space.
pub fn is_whitespace(c: char) -> (b: bool)
    ensures
        b == is_space(c),
{
    let n: u32 = c as u32;
    (0x09 <= n && n <= 0x0D) || n == 0x20 || n == 0x85 || n == 0xA0 || n == 0x1680 || (0x2000 <= n
        && n <= 0x200A) || n == 0x2028 || n == 0x2029 || n == 0x202F || n == 0x205F || n == 0x3000
}

/// `String::push` appends the character to the end of the string.
pub assume_specification[ String::push ](s: &mut String, c: char)
    ensures
        final(s)@ == old(s)@.push(c),
;

/// The characters of `s`.
pub fn to_chars(s: &str) -> (v: Vec<char>)
    ensures
        v@ == s@,
{
    let mut v: Vec<char> = Vec::new();
    broadcast use vstd::string::group_string_axioms;

    for c in it: s.chars()
        invariant
            it.seq() == s@,
            v@ == s@.take(it.index()),
    {
        v.push(c);
    }
    assert(s@.take(s@.len() as int) == s@);
    v
}

/// Whether two strings hold the same characters.
pub fn same_text(a: &str, b: &str) -> (r: bool)
    ensures
        r == (a@ == b@),
{
    broadcast use vstd::string::group_string_axioms;

    let mut ia = a.chars();
    let mut ib = b.chars();
    let ghost mut n: int = 0;
    loop
        invariant
            0 <= n <= a@.len(),
            n <= b@.len(),
            a@.take(n) == b@.take(n),
            ia.remaining() == a@.skip(n),
            ib.remaining() == b@.skip(n),
            ia.obeys_prophetic_iter_laws(),
            ib.obeys_prophetic_iter_laws(),
        decreases a@.len() - n,
    {
        let x = ia.next();
        let y = ib.next();
        match (x, y) {
            (Some(c), Some(d)) => {
                if c != d {
                    assert(a@[n] != b@[n]);
                    return false;
                }
                proof {
                    assert(a@.take(n + 1) == a@.take(n).push(a@[n]));
                    assert(b@.take(n + 1) == b@.take(n).push(b@[n]));
                    assert(a@.skip(n).drop_first() == a@.skip(n + 1));
                    assert(b@.skip(n).drop_first() == b@.skip(n + 1));
                    n = n + 1;
                }
            },
            (None, None) => {
                assert(a@.take(n) == a@);
                assert(b@.take(n) == b@);
                return true;
            },
            _ => {
                assert(a@.len() != b@.len());
                return false;
            },
        }
    }
}

/// The string made of the characters of `v` from `from` up to `to`.
pub fn substring(v: &Vec<char>, from: usize, to: usize) -> (s: String)
    requires
        from <= to <= v.len(),
    ensures
        s@ == v@.subrange(from as int, to as int),
{
    let mut s = String::new();
    let mut i: usize = from;
    while i < to
        invariant
            from <= i <= to <= v.len(),
            s@ == v@.subrange(from as int, i as int),
        decreases to - i,
    {
        s.push(v[i]);
        assert(v@.subrange(from as int, i + 1) =~= v@.subrange(from as int, i as int).push(
            v@[i as int],
        ));
        i += 1;
    }
    s
}

/// Whether `pattern` stands in `s` at the position `i`.
#[verifier::opaque]
pub open spec fn occurs_at(s: Seq<char>, pattern: Seq<char>, i: int) -> bool {
    0 <= i && i + pattern.len() <= s.len() && s.subrange(i, i + pattern.len()) == pattern
}

/// Whether `pattern` stands somewhere in `s`.
pub open spec fn occurs(s: Seq<char>, pattern: Seq<char>) -> bool {
    exists|i: int| occurs_at(s, pattern, i)
}

/// The first position at which `pattern` stands in `s`.
pub open spec fn first_occurrence(s: Seq<char>, pattern: Seq<char>) -> int {
    choose|i: int| occurs_at(s, pattern, i) && forall|j: int| 0 <= j < i ==> !occurs_at(s, pattern, j)
}

/// `i` is the first position at which `pattern` stands in `s`.
proof fn lemma_first_occurrence(s: Seq<char>, pattern: Seq<char>, i: int)
    requires
        occurs_at(s, pattern, i),
        forall|j: int| 0 <= j < i ==> !occurs_at(s, pattern, j),
    ensures
        occurs(s, pattern),
        first_occurrence(s, pattern) == i,
{
    reveal(occurs_at);
    let f = first_occurrence(s, pattern);
    if f < i {
        assert(!occurs_at(s, pattern, f));
    }
    if i < f {
        assert(!occurs_at(s, pattern, i));
    }
}

/// Whether `pattern` stands in `s` at the position `i`.
fn stands_at(s: &Vec<char>, pattern: &Vec<char>, i: usize) -> (r: bool)
    requires
        i + pattern.len() <= s.len(),
    ensures
        r == occurs_at(s@, pattern@, i as int),
{
    reveal(occurs_at);
    let mut k: usize = 0;
    while k < pattern.len()
        invariant
            k <= pattern.len(),
            i + pattern.len() <= s.len(),
            forall|m: int| 0 <= m < k ==> s@[i + m] == pattern@[m],
        decreases pattern.len() - k,
    {
        if s[i + k] != pattern[k] {
            reveal(occurs_at);
            assert(s@.subrange(i as int, i + pattern.len())[k as int] != pattern@[k as int]);
            return false;
        }
        k += 1;
    }
    reveal(occurs_at);
    assert(s@.subrange(i as int, i + pattern.len()) =~= pattern@);
    true
}

/// The first position at which `pattern` stands in `s`.
fn find(s: &Vec<char>, pattern: &Vec<char>) -> (r: Option<usize>)
    ensures
        match r {
            Some(i) => occurs(s@, pattern@) && first_occurrence(s@, pattern@) == i && i
                + pattern.len() <= s.len(),
            None => !occurs(s@, pattern@),
        },
{
    if pattern.len() > s.len() {
        assert(!occurs(s@, pattern@)) by {
            reveal(occurs_at);
        }
        return None;
    }
    let last: usize = s.len() - pattern.len();
    let mut i: usize = 0;
    loop
        invariant
            i <= last,
            last + pattern.len() == s.len(),
            forall|j: int| 0 <= j < i ==> !occurs_at(s@, pattern@, j),
        decreases last - i,
    {
        if stands_at(s, pattern, i) {
            proof {
                lemma_first_occurrence(s@, pattern@, i as int);
            }
            return Some(i);
        }
        if i == last {
            assert(!occurs(s@, pattern@)) by {
                reveal(occurs_at);
            }
            return None;
        }
        i += 1;
    }
}

/// What stands before and after the first `pattern` in `s`.
pub fn split_once(s: &Vec<char>, pattern: &str) -> (r: Option<(String, String)>)
    ensures
        match r {
            Some((before, after)) => occurs(s@, pattern@) && 0 <= first_occurrence(
                s@,
                pattern@,
            ) && first_occurrence(s@, pattern@) + pattern@.len() <= s@.len() && before@
                == s@.take(first_occurrence(s@, pattern@)) && after@ == s@.skip(
                first_occurrence(s@, pattern@) + pattern@.len(),
            ),
            None => !occurs(s@, pattern@),
        },
{
    let pattern = to_chars(pattern);
    match find(s, &pattern) {
        Some(at) => {
            assert(s@.subrange(0, at as int) =~= s@.take(at as int));
            assert(s@.subrange(at + pattern.len(), s@.len() as int) =~= s@.skip(
                at + pattern@.len(),
            ));
            Some((substring(s, 0, at), substring(s, at + pattern.len(), s.len())))
        },
        None => None,
    }
}

/// The views of a run of strings.
pub open spec fn texts(strings: Seq<String>) -> Seq<Seq<char>> {
    Seq::new(strings.len(), |i: int| strings[i]@)
}

/// Every character is white space (so the empty string is blank).
pub open spec fn is_blank(s: Seq<char>) -> bool {
    forall|i: int| 0 <= i < s.len() ==> is_space(s[i])
}

/// Whether `s` is empty or white space only.
pub fn blank(s: &str) -> (b: bool)
    ensures
        b == is_blank(s@),
{
    broadcast use vstd::string::group_string_axioms;

    for c in it: s.chars()
        invariant
            it.seq() == s@,
            is_blank(s@.take(it.index())),
    {
        if !is_whitespace(c) {
            assert(!is_space(s@[it.index()]));
            return false;
        }
        assert(s@.take(it.index() + 1) =~= s@.take(it.index()).push(c));
    }
    assert(s@.take(s@.len() as int) == s@);
    true
}

/// Where the splitting of a text into words stands: the words that are
/// complete, and the one that is being read.
pub ghost struct Split {
    pub done: Seq<Seq<char>>,
    pub current: Seq<char>,
}

/// `state` with the word that is being read, if any, moved to the complete ones.
pub open spec fn split_closed(state: Split) -> Split {
    if state.current.len() > 0 {
        Split { done: state.done.push(state.current), current: Seq::empty() }
    } else {
        state
    }
}

/// The splitting after one more character: white space ends a word, any
/// other character extends it.
pub open spec fn split_step(state: Split, c: char) -> Split {
    if is_space(c) {
        split_closed(state)
    } else {
        Split { done: state.done, current: state.current.push(c) }
    }
}

/// The splitting after all of `s` has been read.
pub open spec fn split_of(s: Seq<char>) -> Split
    decreases s.len(),
{
    if s.len() == 0 {
        Split { done: Seq::empty(), current: Seq::empty() }
    } else {
        split_step(split_of(s.drop_last()), s.last())
    }
}

/// The words of `s`: its maximal runs of characters that are not white
/// space, in order.
pub open spec fn words(s: Seq<char>) -> Seq<Seq<char>> {
    split_closed(split_of(s)).done
}

/// A word is a non-empty run without white space.
pub open spec fn is_word(w: Seq<char>) -> bool {
    &&& w.len() > 0
    &&& forall|i: int| 0 <= i < w.len() ==> !is_space(w[i])
}

/// While a text is split, the complete words are words, the one that is
/// being read holds no white space, and there is neither exactly if the
/// text is blank.
proof fn lemma_split_of_words(s: Seq<char>)
    ensures
        forall|k: int| 0 <= k < split_of(s).done.len() ==> is_word(#[trigger] split_of(s).done[k]),
        forall|i: int| 0 <= i < split_of(s).current.len() ==> !is_space(split_of(s).current[i]),
        is_blank(s) <==> split_of(s).done.len() == 0 && split_of(s).current.len() == 0,
    decreases s.len(),
{
    if s.len() > 0 {
        let front = s.drop_last();
        lemma_split_of_words(front);
        if is_blank(s) {
            assert forall|i: int| 0 <= i < front.len() implies is_space(front[i]) by {
                assert(front[i] == s[i]);
            }
            assert(is_space(s[s.len() - 1]));
        }
        if is_blank(front) && is_space(s.last()) {
            assert forall|i: int| 0 <= i < s.len() implies is_space(s[i]) by {
                if i < front.len() {
                    assert(front[i] == s[i]);
                }
            }
        }
        if !is_space(s.last()) {
            assert(!is_space(s[s.len() - 1]));
        }
    }
}

/// Every word of a text is non-empty and free of white space, and a text has
/// no words exactly if it is blank.
pub proof fn lemma_words(s: Seq<char>)
    ensures
        forall|k: int| 0 <= k < words(s).len() ==> is_word(#[trigger] words(s)[k]),
        is_blank(s) <==> words(s).len() == 0,
{
    lemma_split_of_words(s);
}

/// A text without white space is split into nothing but itself.
proof fn lemma_split_of_word(w: Seq<char>)
    requires
        forall|i: int| 0 <= i < w.len() ==> !is_space(w[i]),
    ensures
        split_of(w) == (Split { done: Seq::empty(), current: w }),
    decreases w.len(),
{
    if w.len() == 0 {
        assert(w =~= Seq::empty());
    } else {
        let front = w.drop_last();
        assert forall|i: int| 0 <= i < front.len() implies !is_space(front[i]) by {
            assert(front[i] == w[i]);
        }
        lemma_split_of_word(front);
        assert(!is_space(w[w.len() - 1]));
        assert(front.push(w.last()) =~= w);
    }
}

/// A word is the one word of itself.
pub proof fn lemma_word_alone(w: Seq<char>)
    requires
        is_word(w),
    ensures
        words(w) == seq![w],
{
    lemma_split_of_word(w);
    assert(Seq::<Seq<char>>::empty().push(w) =~= seq![w]);
}

/// Splits `s` at white space into its words.
pub fn split_whitespace(s: &str) -> (r: Vec<String>)
    ensures
        texts(r@) == words(s@),
{
    broadcast use vstd::string::group_string_axioms;

    let mut done: Vec<String> = Vec::new();
    let mut current = String::new();
    assert(texts(done@) =~= Seq::empty());
    for c in it: s.chars()
        invariant
            it.seq() == s@,
            split_of(s@.take(it.index())) == (Split { done: texts(done@), current: current@ }),
    {
        assert(s@.take(it.index() + 1).drop_last() =~= s@.take(it.index()));
        if is_whitespace(c) {
            if !current.as_str().is_empty() {
                let ghost before = texts(done@);
                done.push(current);
                current = String::new();
                assert(texts(done@) =~= before.push(done@.last()@));
            }
        } else {
            current.push(c);
        }
    }
    assert(s@.take(s@.len() as int) == s@);
    if !current.as_str().is_empty() {
        let ghost before = texts(done@);
        done.push(current);
        assert(texts(done@) =~= before.push(done@.last()@));
    }
    done
}

/// The lower-case form of a text, as `str::to_lowercase` computes it.
pub uninterp spec fn lowercase(s: Seq<char>) -> Seq<char>;

/// `str::to_lowercase` returns the lower-case equivalent of the string, by
/// the Unicode property `Lowercase`: a function of the text alone, which
/// [`lowercase`] names.
pub assume_specification[ str::to_lowercase ](s: &str) -> (r: String)
    ensures
        r@ == lowercase(s@),
;

/// The text with its HTML character references resolved, as
/// `html_escape::decode_html_entities` computes it.
pub uninterp spec fn decoded_entities(text: Seq<char>) -> Seq<char>;

/// `html_escape::decode_html_entities` replaces every exact named or
/// numeric character reference that ends in `;` by what it stands for, and
/// copies everything else, references to code points that no document may
/// hold among it: a function of the text alone, which [`decoded_entities`]
/// names.
#[verifier::external_body]
pub(crate) fn decode_entities(text: &str) -> (r: String)
    ensures
        r@ == decoded_entities(text@),
{
    html_escape::decode_html_entities(text).into_owned()
}

} // verus!
