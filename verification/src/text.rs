//! Character-level helpers shared by the parsers and formatters of the crate.
use vstd::prelude::*;

verus! {

/// Whether `c` is one of the ASCII hexadecimal digits `0-9`, `a-f`, `A-F`.
pub open spec fn is_hex_digit(c: char) -> bool {
    ('0' <= c && c <= '9') || ('a' <= c && c <= 'f') || ('A' <= c && c <= 'F')
}

/// The value (0 to 15) of the hexadecimal digit `c`.
pub open spec fn hex_value(c: char) -> int
    recommends
        is_hex_digit(c),
{
    if '0' <= c && c <= '9' {
        c as int - '0' as int
    } else if 'a' <= c && c <= 'f' {
        c as int - 'a' as int + 10
    } else {
        c as int - 'A' as int + 10
    }
}

/// Checks whether `c` is an ASCII hexadecimal digit.
pub(crate) fn hex_digit(c: char) -> (res: bool)
    ensures
        res == is_hex_digit(c),
{
    ('0' <= c && c <= '9') || ('a' <= c && c <= 'f') || ('A' <= c && c <= 'F')
}

/// The value of the hexadecimal digit `c`.
pub(crate) fn hex_digit_value(c: char) -> (v: u8)
    requires
        is_hex_digit(c),
    ensures
        v == hex_value(c),
        v < 16,
{
    let code = c as u32;
    if '0' <= c && c <= '9' {
        (code - ('0' as u32)) as u8
    } else if 'a' <= c && c <= 'f' {
        (code - ('a' as u32) + 10) as u8
    } else {
        (code - ('A' as u32) + 10) as u8
    }
}

/// The upper-case form of an ASCII letter; every other character is left as it is.
pub open spec fn ascii_upper(c: char) -> char {
    if 'a' <= c && c <= 'z' {
        (c as int - 32) as char
    } else {
        c
    }
}

/// `s` with every ASCII lower-case letter replaced by its upper-case form.
pub open spec fn ascii_uppercase(s: Seq<char>) -> Seq<char> {
    s.map_values(|c: char| ascii_upper(c))
}

/// Upper-cases one character as `ascii_upper` describes.
pub(crate) fn upper_char(c: char) -> (res: char)
    ensures
        res == ascii_upper(c),
{
    if 'a' <= c && c <= 'z' {
        ((c as u8) - 32) as char
    } else {
        c
    }
}

/// The characters of `s`, in order.
pub(crate) fn chars_of(s: &str) -> (res: Vec<char>)
    ensures
        res@ == s@,
{
    let mut res: Vec<char> = Vec::new();
    for c in it: s.chars()
        invariant
            res@ == it.seq().take(it.index() as int),
            it.seq() == s@,
    {
        res.push(c);
    }
    res
}

/// Appends `c` to `s`.
///
/// Calls `String::push`, which the standard library documents as appending the
/// given character to the end of the string; that is all this contract claims.
#[verifier::external_body]
pub(crate) fn push_char(s: &mut String, c: char)
    ensures
        final(s)@ == old(s)@.push(c),
{
    s.push(c);
}

/// Whether `cs[from..from + word.len()]` spells `word`.
pub(crate) fn chars_match_at(cs: &Vec<char>, from: usize, word: &Vec<char>) -> (res: bool)
    requires
        from <= cs@.len(),
    ensures
        res == (from + word@.len() <= cs@.len() && cs@.subrange(
            from as int,
            from + word@.len(),
        ) == word@),
{
    if word.len() > cs.len() - from {
        return false;
    }
    let mut j: usize = 0;
    while j < word.len()
        invariant
            from + word@.len() <= cs.len(),
            j <= word@.len(),
            forall|k: int| 0 <= k < j ==> cs@[from + k] == word@[k],
        decreases word@.len() - j,
    {
        if cs[from + j] != word[j] {
            assert(cs@.subrange(from as int, from + word@.len())[j as int] != word@[j as int]);
            return false;
        }
        j = j + 1;
    }
    assert(cs@.subrange(from as int, from + word@.len()) =~= word@);
    true
}

/// Whether `needle` occurs as a run of consecutive characters somewhere in `hay`.
pub open spec fn occurs_in(needle: Seq<char>, hay: Seq<char>) -> bool {
    exists|i: int|
        0 <= i && i + needle.len() <= hay.len() && #[trigger] hay.subrange(i, i + needle.len())
            == needle
}

/// Checks whether `needle` occurs in `hay`.
pub(crate) fn contains_chars(hay: &Vec<char>, needle: &Vec<char>) -> (res: bool)
    ensures
        res == occurs_in(needle@, hay@),
{
    if needle.len() > hay.len() {
        return false;
    }
    let last = hay.len() - needle.len();
    let mut i: usize = 0;
    while i < last
        invariant
            i <= last,
            last + needle@.len() == hay@.len(),
            forall|k: int|
                0 <= k < i ==> !(k + needle@.len() <= hay@.len() && #[trigger] hay@.subrange(
                    k,
                    k + needle@.len(),
                ) == needle@),
        decreases last - i,
    {
        if chars_match_at(hay, i, needle) {
            return true;
        }
        i = i + 1;
    }
    if chars_match_at(hay, last, needle) {
        return true;
    }
    assert forall|k: int|
        0 <= k && k + needle@.len() <= hay@.len() implies #[trigger] hay@.subrange(
            k,
            k + needle@.len(),
        ) != needle@ by {
        if k == last {
        }
    }
    false
}

/// The lower-case form of an ASCII letter; every other character is left as it is.
pub open spec fn ascii_lower(c: char) -> char {
    if 'A' <= c && c <= 'Z' {
        (c as int + 32) as char
    } else {
        c
    }
}

/// `s` with every ASCII upper-case letter replaced by its lower-case form.
pub open spec fn ascii_lowercase(s: Seq<char>) -> Seq<char> {
    s.map_values(|c: char| ascii_lower(c))
}

/// Whether `a` comes strictly before `b` in dictionary order of code points, the
/// order in which Rust compares strings.
pub open spec fn text_less(a: Seq<char>, b: Seq<char>) -> bool
    decreases a.len(),
{
    if b.len() == 0 {
        false
    } else if a.len() == 0 {
        true
    } else if a[0] != b[0] {
        a[0] < b[0]
    } else {
        text_less(a.skip(1), b.skip(1))
    }
}

/// `text_less` is a strict total order.
pub proof fn lemma_text_less_order(a: Seq<char>, b: Seq<char>, c: Seq<char>)
    ensures
        !text_less(a, a),
        text_less(a, b) ==> !text_less(b, a),
        a != b ==> text_less(a, b) || text_less(b, a),
        text_less(a, b) && text_less(b, c) ==> text_less(a, c),
    decreases a.len(),
{
    if a.len() > 0 && b.len() > 0 {
        let rest_c = if c.len() > 0 {
            c.skip(1)
        } else {
            c
        };
        lemma_text_less_order(a.skip(1), b.skip(1), rest_c);
    }
    if a.len() > 0 {
        lemma_text_less_order(a.skip(1), a.skip(1), a.skip(1));
    }
    if a.len() > 0 && b.len() > 0 && a[0] == b[0] && a != b {
        assert(a.skip(1) != b.skip(1)) by {
            if a.skip(1) == b.skip(1) {
                assert(a =~= seq![a[0]] + a.skip(1));
                assert(b =~= seq![b[0]] + b.skip(1));
            }
        }
    }
    if a.len() == 0 && b.len() == 0 {
        assert(a =~= b);
    }
}

/// Whether `a` comes strictly before `b`, as `text_less` orders them.
pub(crate) fn chars_less(a: &Vec<char>, b: &Vec<char>) -> (res: bool)
    ensures
        res == text_less(a@, b@),
{
    let mut i: usize = 0;
    assert(a@.skip(0) =~= a@ && b@.skip(0) =~= b@);
    while i < a.len() && i < b.len() && a[i] == b[i]
        invariant
            i <= a@.len(),
            i <= b@.len(),
            text_less(a@, b@) == text_less(a@.skip(i as int), b@.skip(i as int)),
        decreases a@.len() - i,
    {
        assert(a@.skip(i as int).skip(1) =~= a@.skip(i + 1));
        assert(b@.skip(i as int).skip(1) =~= b@.skip(i + 1));
        i = i + 1;
    }
    if i == b.len() {
        false
    } else if i == a.len() {
        true
    } else {
        a[i] < b[i]
    }
}

} // verus!
