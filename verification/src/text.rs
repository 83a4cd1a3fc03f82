//! Text primitives the task logic is built on: what `trim`, `to_lowercase`,
//! `contains`, equality and ordering of strings, and decimal rendering mean,
//! stated over the character sequences that strings view as.
use vstd::prelude::*;
use vstd::utf8::encode_utf8;

verus! {

/// The Unicode `White_Space` property, which `char::is_whitespace` and
/// `str::trim` go by.
pub open spec fn is_white_space(c: char) -> bool {
    let u = c as u32;
    ||| 0x09 <= u && u <= 0x0D
    ||| u == 0x20
    ||| u == 0x85
    ||| u == 0xA0
    ||| u == 0x1680
    ||| 0x2000 <= u && u <= 0x200A
    ||| u == 0x2028
    ||| u == 0x2029
    ||| u == 0x202F
    ||| u == 0x205F
    ||| u == 0x3000
}

/// `s` without its leading white space.
pub open spec fn trim_start(s: Seq<char>) -> Seq<char>
    decreases s.len(),
{
    if s.len() > 0 && is_white_space(s[0]) {
        trim_start(s.drop_first())
    } else {
        s
    }
}

/// `s` without its trailing white space.
pub open spec fn trim_end(s: Seq<char>) -> Seq<char>
    decreases s.len(),
{
    if s.len() > 0 && is_white_space(s.last()) {
        trim_end(s.drop_last())
    } else {
        s
    }
}

/// `s` without leading and trailing white space.
pub open spec fn trimmed(s: Seq<char>) -> Seq<char> {
    trim_end(trim_start(s))
}

/// Text that holds nothing but white space (or nothing at all).
pub open spec fn is_blank(s: Seq<char>) -> bool {
    trimmed(s).len() == 0
}

/// `needle` occurs in `hay` as a contiguous run (the empty needle occurs everywhere).
pub open spec fn has_substring(hay: Seq<char>, needle: Seq<char>) -> bool {
    exists|i: int|
        0 <= i && i + needle.len() <= hay.len() && #[trigger] hay.subrange(i, i + needle.len())
            == needle
}

/// Lexicographic order on byte strings: a proper prefix comes first.
pub open spec fn bytes_less(a: Seq<u8>, b: Seq<u8>) -> bool
    decreases a.len(),
{
    if a.len() == 0 {
        b.len() > 0
    } else if b.len() == 0 {
        false
    } else if a[0] != b[0] {
        a[0] < b[0]
    } else {
        bytes_less(a.drop_first(), b.drop_first())
    }
}

/// The order of `str` values: their UTF-8 encodings compared byte by byte.
pub open spec fn text_less(a: Seq<char>, b: Seq<char>) -> bool {
    bytes_less(encode_utf8(a), encode_utf8(b))
}

/// The decimal digit for `d < 10`.
pub open spec fn digit_char(d: nat) -> char {
    ((d + 48) as u32) as char
}

/// Decimal rendering of a natural number, without leading zeros.
pub open spec fn nat_decimal(n: nat) -> Seq<char>
    decreases n,
{
    if n < 10 {
        seq![digit_char(n)]
    } else {
        nat_decimal(n / 10).push(digit_char(n % 10))
    }
}

/// Decimal rendering of an integer, with a leading `-` when it is negative.
pub open spec fn int_decimal(i: int) -> Seq<char> {
    if i < 0 {
        seq!['-'] + nat_decimal((-i) as nat)
    } else {
        nat_decimal(i as nat)
    }
}

/// The lowercase mapping of `str::to_lowercase` (Unicode `Lowercase`
/// property, with its context rules); a function of the text alone.
pub uninterp spec fn lowercase(s: Seq<char>) -> Seq<char>;

/// `str::trim`: the slice without leading and trailing characters that have
/// the Unicode `White_Space` property.
#[verifier::external_body]
pub(crate) fn trim_str(s: &str) -> (r: &str)
    ensures
        r@ == trimmed(s@),
{
    s.trim()
}

/// `str::to_lowercase`: the claim is only that the result is the named
/// lowercase mapping of the argument; the mapping itself is left unsaid.
#[verifier::external_body]
pub(crate) fn to_lowercase(s: &str) -> (r: String)
    ensures
        r@ == lowercase(s@),
{
    s.to_lowercase()
}

/// `str::contains` with a `&str` pattern: whether the pattern occurs as a
/// contiguous run of characters.
#[verifier::external_body]
pub(crate) fn contains_str(hay: &str, needle: &str) -> (r: bool)
    ensures
        r == has_substring(hay@, needle@),
{
    hay.contains(needle)
}

/// `==` on `str`: equal exactly when the characters are equal.
#[verifier::external_body]
pub(crate) fn str_eq(a: &str, b: &str) -> (r: bool)
    ensures
        r == (a@ == b@),
{
    a == b
}

/// `<` on `str`: strings are ordered lexicographically by their bytes.
#[verifier::external_body]
pub(crate) fn str_less(a: &str, b: &str) -> (r: bool)
    ensures
        r == text_less(a@, b@),
{
    a < b
}

/// `i64::to_string`: the decimal rendering of the value.
#[verifier::external_body]
pub(crate) fn i64_decimal(x: i64) -> (r: String)
    ensures
        r@ == int_decimal(x as int),
{
    x.to_string()
}

/// No byte string comes before itself.
pub proof fn lemma_bytes_less_irreflexive(a: Seq<u8>)
    ensures
        !bytes_less(a, a),
    decreases a.len(),
{
    if a.len() > 0 {
        lemma_bytes_less_irreflexive(a.drop_first());
    }
}

/// The byte order is transitive.
pub proof fn lemma_bytes_less_transitive(a: Seq<u8>, b: Seq<u8>, c: Seq<u8>)
    requires
        bytes_less(a, b),
        bytes_less(b, c),
    ensures
        bytes_less(a, c),
    decreases a.len(),
{
    if a.len() > 0 && b.len() > 0 && c.len() > 0 && a[0] == b[0] && b[0] == c[0] {
        lemma_bytes_less_transitive(a.drop_first(), b.drop_first(), c.drop_first());
    }
}

/// Of two different byte strings, one comes first.
pub proof fn lemma_bytes_less_total(a: Seq<u8>, b: Seq<u8>)
    requires
        a != b,
    ensures
        bytes_less(a, b) || bytes_less(b, a),
    decreases a.len(),
{
    if a.len() > 0 && b.len() > 0 && a[0] == b[0] {
        if a.drop_first() == b.drop_first() {
            assert(a =~= seq![a[0]] + a.drop_first());
            assert(b =~= seq![b[0]] + b.drop_first());
        }
        lemma_bytes_less_total(a.drop_first(), b.drop_first());
    } else if a.len() == 0 && b.len() == 0 {
        assert(a =~= b);
    }
}

/// Never both `a < b` and `b < a`.
pub proof fn lemma_bytes_less_asymmetric(a: Seq<u8>, b: Seq<u8>)
    requires
        bytes_less(a, b),
    ensures
        !bytes_less(b, a),
{
    if bytes_less(b, a) {
        lemma_bytes_less_transitive(a, b, a);
        lemma_bytes_less_irreflexive(a);
    }
}

proof fn lemma_trim_start_empty(s: Seq<char>)
    ensures
        trim_start(s).len() == 0 <==> forall|i: int| 0 <= i < s.len() ==> is_white_space(#[trigger] s[i]),
        trim_start(s).len() > 0 ==> !is_white_space(trim_start(s)[0]),
    decreases s.len(),
{
    if s.len() > 0 && is_white_space(s[0]) {
        lemma_trim_start_empty(s.drop_first());
        if trim_start(s).len() == 0 {
            assert forall|i: int| 0 <= i < s.len() implies is_white_space(#[trigger] s[i]) by {
                if i > 0 {
                    assert(s[i] == s.drop_first()[i - 1]);
                }
            }
        }
    } else if s.len() > 0 {
        assert(!is_white_space(s[0]));
    }
}

proof fn lemma_trim_end_empty(s: Seq<char>)
    ensures
        trim_end(s).len() == 0 <==> forall|i: int| 0 <= i < s.len() ==> is_white_space(#[trigger] s[i]),
    decreases s.len(),
{
    if s.len() > 0 && is_white_space(s.last()) {
        lemma_trim_end_empty(s.drop_last());
        if trim_end(s).len() == 0 {
            assert forall|i: int| 0 <= i < s.len() implies is_white_space(#[trigger] s[i]) by {
                if i < s.len() - 1 {
                    assert(s[i] == s.drop_last()[i]);
                }
            }
        }
    } else if s.len() > 0 {
        assert(!is_white_space(s[s.len() - 1]));
    }
}

/// A text is blank exactly when every character of it is white space.
pub proof fn lemma_blank_iff_all_white_space(s: Seq<char>)
    ensures
        is_blank(s) <==> forall|i: int| 0 <= i < s.len() ==> is_white_space(#[trigger] s[i]),
{
    lemma_trim_start_empty(s);
    lemma_trim_end_empty(trim_start(s));
    let t = trim_start(s);
    if t.len() > 0 {
        assert(!is_white_space(t[0]));
    }
}

} // verus!
