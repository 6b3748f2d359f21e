use vstd::prelude::*;

verus! {

/// An ASCII letter.
pub open spec fn ascii_letter(c: char) -> bool {
    ('a' <= c && c <= 'z') || ('A' <= c && c <= 'Z')
}

/// An ASCII decimal digit.
pub open spec fn ascii_digit(c: char) -> bool {
    '0' <= c && c <= '9'
}

/// An ASCII letter or digit.
pub open spec fn ascii_alnum(c: char) -> bool {
    ascii_letter(c) || ascii_digit(c)
}

/// White space: the characters with the Unicode property White_Space.
pub open spec fn white_space(c: char) -> bool {
    ||| '\u{9}' <= c && c <= '\u{d}'
    ||| c == ' '
    ||| c == '\u{85}'
    ||| c == '\u{a0}'
    ||| c == '\u{1680}'
    ||| '\u{2000}' <= c && c <= '\u{200a}'
    ||| c == '\u{2028}'
    ||| c == '\u{2029}'
    ||| c == '\u{202f}'
    ||| c == '\u{205f}'
    ||| c == '\u{3000}'
}

/// The characters that make up literals: ASCII letters and digits, `_` and `.`.
pub open spec fn literal_char(c: char) -> bool {
    ascii_alnum(c) || c == '_' || c == '.'
}

/// An identifier: letters, digits and underscores only, in which the first
/// character that is not an underscore is a letter.
pub open spec fn ident_text(s: Seq<char>) -> bool {
    &&& forall|i: int| 0 <= i < s.len() ==> ascii_alnum(#[trigger] s[i]) || s[i] == '_'
    &&& exists|k: int| first_letter_at(s, k)
}

/// Position `k` holds a letter and only underscores come before it.
pub open spec fn first_letter_at(s: Seq<char>, k: int) -> bool {
    &&& 0 <= k < s.len()
    &&& ascii_letter(s[k])
    &&& forall|j: int| 0 <= j < k ==> #[trigger] s[j] == '_'
}

/// Whether two texts hold the same characters. They do if and only if
/// their UTF-8 encodings agree byte for byte.
pub fn str_eq(a: &str, b: &str) -> (r: bool)
    ensures
        r == (a@ == b@),
{
    let x = a.as_bytes();
    let y = b.as_bytes();
    proof {
        vstd::utf8::encode_utf8_decode_utf8(a@);
        vstd::utf8::encode_utf8_decode_utf8(b@);
    }
    if x.len() != y.len() {
        return false;
    }
    let mut i: usize = 0;
    while i < x.len()
        invariant
            i <= x.len(),
            x.len() == y.len(),
            forall|j: int| 0 <= j < i ==> x@[j] == y@[j],
            x@ == vstd::utf8::encode_utf8(a@),
            y@ == vstd::utf8::encode_utf8(b@),
            vstd::utf8::decode_utf8(x@) == a@,
            vstd::utf8::decode_utf8(y@) == b@,
        decreases x.len() - i,
    {
        if x[i] != y[i] {
            return false;
        }
        i = i + 1;
    }
    assert(x@ =~= y@);
    true
}

/// `String::push`: appends one character to the end of the text.
#[verifier::external_body]
pub(crate) fn push_char(s: &mut String, c: char)
    ensures
        final(s)@ == old(s)@.push(c),
{
    s.push(c);
}

/// Whether the character is an ASCII letter.
pub fn is_ascii_letter(c: char) -> (r: bool)
    ensures
        r == ascii_letter(c),
{
    ('a' <= c && c <= 'z') || ('A' <= c && c <= 'Z')
}

/// Whether the character is an ASCII letter or digit.
pub fn is_ascii_alnum(c: char) -> (r: bool)
    ensures
        r == ascii_alnum(c),
{
    is_ascii_letter(c) || ('0' <= c && c <= '9')
}

/// Whether the character is white space.
pub fn is_whitespace(c: char) -> (r: bool)
    ensures
        r == white_space(c),
{
    ('\u{9}' <= c && c <= '\u{d}') || c == ' ' || c == '\u{85}' || c == '\u{a0}' || c == '\u{1680}'
        || ('\u{2000}' <= c && c <= '\u{200a}') || c == '\u{2028}' || c == '\u{2029}' || c
        == '\u{202f}' || c == '\u{205f}' || c == '\u{3000}'
}

/// Whether the character can stand in a literal.
pub fn is_literalchar(c: char) -> (r: bool)
    ensures
        r == literal_char(c),
{
    is_ascii_alnum(c) || c == '_' || c == '.'
}

/// Whether the text is an identifier.
pub fn is_identstr(s: &str) -> (r: bool)
    ensures
        r == ident_text(s@),
{
    let mut shape_ok = true;
    let mut seen = false;
    let mut starts_with_letter = false;
    let ghost mut first: int = 0;
    for c in it: s.chars()
        invariant
            it.seq() == s@,
            shape_ok == (forall|i: int|
                0 <= i < it.index() ==> ascii_alnum(#[trigger] s@[i]) || s@[i] == '_'),
            !seen ==> forall|j: int| 0 <= j < it.index() ==> !ascii_alnum(#[trigger] s@[j]),
            seen ==> 0 <= first < it.index() && ascii_alnum(s@[first]) && starts_with_letter
                == ascii_letter(s@[first]) && forall|j: int|
                0 <= j < first ==> !ascii_alnum(#[trigger] s@[j]),
    {
        let alnum = is_ascii_alnum(c);
        if !(alnum || c == '_') {
            shape_ok = false;
        }
        if alnum && !seen {
            seen = true;
            starts_with_letter = is_ascii_letter(c);
            proof {
                first = it.index() as int;
            }
        }
    }
    proof {
        let t = s@;
        if shape_ok && seen && starts_with_letter {
            assert forall|j: int| 0 <= j < first implies #[trigger] t[j] == '_' by {
                assert(ascii_alnum(t[j]) || t[j] == '_');
            }
            assert(first_letter_at(t, first));
        }
        if ident_text(t) {
            let k = choose|k: int| first_letter_at(t, k);
            assert(ascii_alnum(t[k]));
            if seen {
                if k < first {
                    assert(!ascii_alnum(t[k]));
                }
                if first < k {
                    assert(t[first] == '_');
                }
            }
        }
    }
    shape_ok && seen && starts_with_letter
}

} // verus!
