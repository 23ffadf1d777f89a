//! Text helpers shared by the parsers and report builders: decimal and hex
//! rendering, string comparison, and a few thin wrappers around `std` string
//! functions that vstd does not specify.
use vstd::prelude::*;
use vstd::string::*;
use vstd::utf8::*;

verus! {

broadcast use vstd::utf8::encode_utf8_decode_utf8;

/// The ASCII digit character for a value below ten.
pub open spec fn digit_char(d: nat) -> char {
    ((d % 10) + 48) as char
}

/// Decimal rendering of a natural number, most significant digit first, with
/// no sign and no leading zeros (zero renders as `"0"`).
pub open spec fn decimal(n: nat) -> Seq<char>
    decreases n,
{
    if n < 10 {
        seq![digit_char(n)]
    } else {
        decimal(n / 10).push(digit_char(n % 10))
    }
}

/// Lowercase hexadecimal digit for a value below sixteen.
pub open spec fn hex_digit(d: nat) -> char {
    if d % 16 < 10 {
        ((d % 16) + 48) as char
    } else {
        ((d % 16) - 10 + 97) as char
    }
}

/// Two-digit lowercase hexadecimal rendering of a byte (`{:02x}`).
pub open spec fn hex2(b: u8) -> Seq<char> {
    seq![hex_digit((b / 16) as nat), hex_digit((b % 16) as nat)]
}

/// Joins the pieces with `sep` between consecutive pieces.
pub open spec fn join(pieces: Seq<Seq<char>>, sep: Seq<char>) -> Seq<char>
    decreases pieces.len(),
{
    if pieces.len() == 0 {
        Seq::empty()
    } else if pieces.len() == 1 {
        pieces[0]
    } else {
        join(pieces.drop_last(), sep) + sep + pieces.last()
    }
}

/// `[` + pieces joined by `", "` + `]`: the shape `{:?}` gives a slice.
pub open spec fn bracket_list(pieces: Seq<Seq<char>>) -> Seq<char> {
    seq!['['] + join(pieces, seq![',', ' ']) + seq![']']
}

/// What `format!("{:?}", s)` renders for a string slice: the quoted,
/// escaped form.
pub uninterp spec fn debug_quoted(s: Seq<char>) -> Seq<char>;

/// `format!("{:?}", s)` for a string slice.
///
/// Trusted: calls `std`'s `Debug` formatting for `str`. The contract names
/// the result `debug_quoted(s@)`; what the escaping does to each character
/// is left unsaid.
#[verifier::external_body]
pub fn debug_str(s: &str) -> (r: String)
    ensures
        r@ == debug_quoted(s@),
{
    format!("{:?}", s)
}

/// `String::push`.
///
/// Trusted: `std` documents that `push` appends the character at the end.
#[verifier::external_body]
pub fn push_char(s: &mut String, c: char)
    ensures
        final(s)@ == old(s)@.push(c),
{
    s.push(c)
}

/// `std::str::from_utf8`, returning the decoded string when the bytes are
/// well-formed UTF-8.
///
/// Trusted: `std` documents that `from_utf8` succeeds exactly on valid
/// UTF-8 and that the resulting `str` has exactly those bytes.
#[verifier::external_body]
pub fn utf8_str(bytes: &[u8]) -> (r: Option<&str>)
    ensures
        r is Some <==> valid_utf8(bytes@),
        r matches Some(s) ==> s.spec_bytes() == bytes@,
{
    std::str::from_utf8(bytes).ok()
}

/// What `String::from_utf8_lossy` makes of `b`.
pub uninterp spec fn lossy_utf8(b: Seq<u8>) -> Seq<char>;

/// `String::from_utf8_lossy(bytes)`, as an owned string.
///
/// Trusted: the result is `lossy_utf8(bytes)`, and `std` documents that on
/// well-formed UTF-8 the result is the decoded text unchanged (only
/// ill-formed sequences become U+FFFD).
#[verifier::external_body]
pub fn utf8_lossy(bytes: &[u8]) -> (r: String)
    ensures
        r@ == lossy_utf8(bytes@),
        valid_utf8(bytes@) ==> r@ == decode_utf8(bytes@),
{
    String::from_utf8_lossy(bytes).to_string()
}

/// The characters of a string slice, in order (`s.chars().collect()`).
///
/// Trusted: `std` documents that `chars` yields the string's characters in
/// order.
#[verifier::external_body]
pub fn str_chars(s: &str) -> (r: Vec<char>)
    ensures
        r@ == s@,
{
    s.chars().collect()
}

/// Decodes UTF-8 bytes into characters, or `None` when they are not
/// well-formed UTF-8.
pub fn decode_utf8_chars(bytes: &[u8]) -> (r: Option<Vec<char>>)
    ensures
        r is Some <==> valid_utf8(bytes@),
        r matches Some(cs) ==> cs@ == decode_utf8(bytes@),
{
    match utf8_str(bytes) {
        None => None,
        Some(s) => {
            let cs = str_chars(s);
            proof {
                vstd::utf8::encode_utf8_decode_utf8(s@);
            }
            Some(cs)
        },
    }
}

/// Builds a `String` holding exactly the given characters.
pub fn string_from_chars(cs: &[char]) -> (r: String)
    ensures
        r@ == cs@,
{
    let mut out = String::new();
    let mut i: usize = 0;
    while i < cs.len()
        invariant
            i <= cs@.len(),
            out@ == cs@.subrange(0, i as int),
        decreases cs@.len() - i,
    {
        push_char(&mut out, cs[i]);
        proof {
            assert(cs@.subrange(0, i + 1) == cs@.subrange(0, i as int).push(cs@[i as int]));
        }
        i += 1;
    }
    proof {
        assert(cs@.subrange(0, cs@.len() as int) == cs@);
    }
    out
}

/// A string holding a copy of the literal.
pub fn lit(s: &str) -> (r: String)
    ensures
        r@ == s@,
{
    String::from_str(s)
}

/// Appends `b` to `a`.
pub fn append_str(a: &mut String, b: &str)
    ensures
        final(a)@ == old(a)@ + b@,
{
    a.append(b)
}

/// True exactly when the two string slices hold the same characters.
pub fn str_eq(a: &str, b: &str) -> (r: bool)
    ensures
        r == (a@ == b@),
{
    let ab = a.as_bytes();
    let bb = b.as_bytes();
    proof {
        vstd::utf8::encode_utf8_decode_utf8(a@);
        vstd::utf8::encode_utf8_decode_utf8(b@);
    }
    if ab.len() != bb.len() {
        proof {
            assert(ab@ != bb@);
        }
        return false;
    }
    let mut i: usize = 0;
    while i < ab.len()
        invariant
            ab@.len() == bb@.len(),
            ab@ == a.spec_bytes(),
            bb@ == b.spec_bytes(),
            i <= ab@.len(),
            forall|j: int| 0 <= j < i ==> ab@[j] == bb@[j],
        decreases ab@.len() - i,
    {
        if ab[i] != bb[i] {
            proof {
                assert(ab@ != bb@);
            }
            return false;
        }
        i += 1;
    }
    proof {
        assert(ab@ == bb@);
    }
    true
}

/// True exactly when `s` occurs among `items`.
pub fn contains_str(items: &Vec<String>, s: &str) -> (r: bool)
    ensures
        r == exists|i: int| 0 <= i < items@.len() && #[trigger] items@[i]@ == s@,
{
    let mut i: usize = 0;
    while i < items.len()
        invariant
            i <= items@.len(),
            forall|j: int| 0 <= j < i ==> #[trigger] items@[j]@ != s@,
        decreases items@.len() - i,
    {
        if str_eq(items[i].as_str(), s) {
            return true;
        }
        i += 1;
    }
    false
}

/// Decimal rendering of an unsigned integer (`format!("{n}")`).
pub fn decimal_string(n: u64) -> (r: String)
    ensures
        r@ == decimal(n as nat),
    decreases n,
{
    let d = (n % 10) as u8;
    let c = (d + 48u8) as char;
    proof {
        assert(c == digit_char(n as nat)) by {
            assert((n % 10) as nat == (n as nat) % 10);
        }
        assert(c == digit_char((n % 10) as nat));
    }
    if n < 10 {
        let mut s = String::new();
        push_char(&mut s, c);
        s
    } else {
        let mut s = decimal_string(n / 10);
        push_char(&mut s, c);
        s
    }
}

/// The views of a sequence of strings.
pub open spec fn strs_view(v: Seq<String>) -> Seq<Seq<char>> {
    v.map_values(|s: String| s@)
}

proof fn lemma_join_push(pieces: Seq<Seq<char>>, x: Seq<char>, sep: Seq<char>)
    ensures
        join(pieces.push(x), sep) == if pieces.len() == 0 {
            x
        } else {
            join(pieces, sep) + sep + x
        },
{
    assert(pieces.push(x).drop_last() == pieces);
    assert(pieces.push(x).last() == x);
    if pieces.len() == 0 {
        assert(pieces.push(x) == seq![x]);
    }
}

/// The pieces joined with `sep` between consecutive pieces.
pub fn join_strings(pieces: &Vec<String>, sep: &str) -> (r: String)
    ensures
        r@ == join(strs_view(pieces@), sep@),
{
    let mut out = String::new();
    let mut i: usize = 0;
    while i < pieces.len()
        invariant
            i <= pieces@.len(),
            out@ == join(strs_view(pieces@.subrange(0, i as int)), sep@),
        decreases pieces@.len() - i,
    {
        let ghost prev = strs_view(pieces@.subrange(0, i as int));
        proof {
            assert(strs_view(pieces@.subrange(0, i + 1)) == prev.push(pieces@[i as int]@));
            lemma_join_push(prev, pieces@[i as int]@, sep@);
        }
        if i > 0 {
            append_str(&mut out, sep);
        }
        append_str(&mut out, pieces[i].as_str());
        proof {
            if i == 0 {
                assert(prev.len() == 0);
                assert(out@ == pieces@[0]@);
            }
        }
        i += 1;
    }
    proof {
        assert(pieces@.subrange(0, pieces@.len() as int) == pieces@);
    }
    out
}

/// `[` + the pieces joined by `", "` + `]`.
pub fn bracket_join(pieces: &Vec<String>) -> (r: String)
    ensures
        r@ == bracket_list(strs_view(pieces@)),
{
    let mut out = String::new();
    push_char(&mut out, '[');
    let inner = join_strings(pieces, ", ");
    proof {
        reveal_strlit(", ");
        assert(", "@ == seq![',', ' ']);
    }
    append_str(&mut out, inner.as_str());
    push_char(&mut out, ']');
    assert(out@ == seq!['['] + inner@ + seq![']']);
    out
}

/// Appends the decimal rendering of `x`.
pub fn push_decimal(s: &mut String, x: u64)
    ensures
        final(s)@ == old(s)@ + decimal(x as nat),
{
    let d = decimal_string(x);
    append_str(s, d.as_str());
}

/// Appends the `{:?}` rendering of `t`.
pub fn push_debug(s: &mut String, t: &str)
    ensures
        final(s)@ == old(s)@ + debug_quoted(t@),
{
    let d = debug_str(t);
    append_str(s, d.as_str());
}

/// Two lowercase hex digits for a byte.
pub fn hex2_string(b: u8) -> (r: String)
    ensures
        r@ == hex2(b),
{
    let hi = b / 16;
    let lo = b % 16;
    let ch = if hi < 10 { (hi + 48) as char } else { (hi - 10 + 97) as char };
    let cl = if lo < 10 { (lo + 48) as char } else { (lo - 10 + 97) as char };
    let mut s = String::new();
    push_char(&mut s, ch);
    push_char(&mut s, cl);
    assert(s@ =~= hex2(b));
    s
}

/// Pushing a string pushes its view.
pub proof fn lemma_strs_view_push(v: Seq<String>, s: String)
    ensures
        strs_view(v.push(s)) == strs_view(v).push(s@),
{
    assert(strs_view(v.push(s)) =~= strs_view(v).push(s@));
}

} // verus!
