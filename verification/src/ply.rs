//! Inria-style 3DGS PLY: header grammar, vertex layout and body bounds.
//!
//! [`parse_header`] reads the text header line by line, exactly as a
//! line reader followed by whitespace splitting would; [`read_ply_layout`]
//! then locates the `vertex` element, checks the Gaussian-splat fields, and
//! (for binary files) computes the per-record field offsets and the byte
//! range of the body. Turning the scalars of each record into floating-point
//! splats happens outside this module.
use vstd::prelude::*;
use vstd::string::*;
use vstd::utf8::*;
use crate::text::{decode_utf8_chars, str_chars, string_from_chars, lit, append_str, str_eq, push_decimal, decimal};
use crate::detect::{is_unicode_whitespace, is_whitespace, has_prefix_at, starts_with};

verus! {

broadcast use vstd::utf8::encode_utf8_decode_utf8;

/// All errors produced by PLY ingest.
#[derive(Debug)]
pub enum PlyError {
    /// Underlying read failed.
    Io(String),
    /// File did not begin with the `ply` magic header.
    NotAPly,
    /// Big-endian PLYs are not supported.
    UnsupportedEndian,
    /// Header could not be parsed.
    MalformedHeader(String),
    /// A required Gaussian-splat field (e.g. `x`, `rot_0`, `f_dc_0`) was absent.
    MissingRequiredField(String),
    /// The body ended before all declared splats could be read.
    TruncatedPayload,
    /// An ASCII value could not be parsed as a float.
    InvalidAsciiFloat(String),
}

/// What went wrong, as a value the contracts can compare.
pub enum PlyFault {
    Io(Seq<char>),
    NotAPly,
    UnsupportedEndian,
    MalformedHeader(Seq<char>),
    MissingRequiredField(Seq<char>),
    TruncatedPayload,
    InvalidAsciiFloat(Seq<char>),
}

/// The fault an error reports.
pub open spec fn fault_of(e: PlyError) -> PlyFault {
    match e {
        PlyError::Io(m) => PlyFault::Io(m@),
        PlyError::NotAPly => PlyFault::NotAPly,
        PlyError::UnsupportedEndian => PlyFault::UnsupportedEndian,
        PlyError::MalformedHeader(m) => PlyFault::MalformedHeader(m@),
        PlyError::MissingRequiredField(m) => PlyFault::MissingRequiredField(m@),
        PlyError::TruncatedPayload => PlyFault::TruncatedPayload,
        PlyError::InvalidAsciiFloat(m) => PlyFault::InvalidAsciiFloat(m@),
    }
}

/// The human-readable message of an error.
pub open spec fn ply_message(e: PlyError) -> Seq<char> {
    match e {
        PlyError::Io(m) => "io error: "@ + m@,
        PlyError::NotAPly => "not a PLY file (missing 'ply' magic)"@,
        PlyError::UnsupportedEndian => "unsupported_endian: big-endian PLYs are not supported"@,
        PlyError::MalformedHeader(m) => "malformed header: "@ + m@,
        PlyError::MissingRequiredField(m) => "missing_required_field: "@ + m@,
        PlyError::TruncatedPayload => "truncated_payload: input ended mid-record"@,
        PlyError::InvalidAsciiFloat(m) => "invalid ascii float: "@ + m@,
    }
}

impl PlyError {
    /// The human-readable message of the error.
    pub fn message(&self) -> (r: String)
        ensures
            r@ == ply_message(*self),
    {
        let (head, tail): (&str, Option<&String>) = match self {
            PlyError::Io(m) => ("io error: ", Some(m)),
            PlyError::NotAPly => ("not a PLY file (missing 'ply' magic)", None),
            PlyError::UnsupportedEndian => ("unsupported_endian: big-endian PLYs are not supported", None),
            PlyError::MalformedHeader(m) => ("malformed header: ", Some(m)),
            PlyError::MissingRequiredField(m) => ("missing_required_field: ", Some(m)),
            PlyError::TruncatedPayload => ("truncated_payload: input ended mid-record", None),
            PlyError::InvalidAsciiFloat(m) => ("invalid ascii float: ", Some(m)),
        };
        let mut out = lit(head);
        match tail {
            Some(m) => append_str(&mut out, m.as_str()),
            None => {},
        }
        out
    }
}

/// PLY storage format.
#[derive(Debug, Clone, Copy, PartialEq, Eq, Structural)]
pub enum Format {
    BinaryLE,
    Ascii,
}

/// Scalar type of a property.
#[derive(Debug, Clone, Copy, PartialEq, Eq, Structural)]
pub enum ScalarTy {
    F32,
    F64,
    I32,
    U32,
    I16,
    U16,
    I8,
    U8,
}

/// The scalar type a PLY type keyword names.
pub open spec fn scalar_ty_of(s: Seq<char>) -> Option<ScalarTy> {
    if s == "float"@ || s == "float32"@ {
        Some(ScalarTy::F32)
    } else if s == "double"@ || s == "float64"@ {
        Some(ScalarTy::F64)
    } else if s == "int"@ || s == "int32"@ {
        Some(ScalarTy::I32)
    } else if s == "uint"@ || s == "uint32"@ {
        Some(ScalarTy::U32)
    } else if s == "short"@ || s == "int16"@ {
        Some(ScalarTy::I16)
    } else if s == "ushort"@ || s == "uint16"@ {
        Some(ScalarTy::U16)
    } else if s == "char"@ || s == "int8"@ {
        Some(ScalarTy::I8)
    } else if s == "uchar"@ || s == "uint8"@ {
        Some(ScalarTy::U8)
    } else {
        None
    }
}

/// Size in bytes of a scalar type.
pub open spec fn scalar_size(t: ScalarTy) -> nat {
    match t {
        ScalarTy::F32 | ScalarTy::I32 | ScalarTy::U32 => 4,
        ScalarTy::F64 => 8,
        ScalarTy::I16 | ScalarTy::U16 => 2,
        ScalarTy::I8 | ScalarTy::U8 => 1,
    }
}

impl ScalarTy {
    /// Parses a PLY type keyword (`float`, `uchar`, `int16`, ...).
    pub fn parse(s: &str) -> (r: Option<Self>)
        ensures
            r == scalar_ty_of(s@),
    {
        if str_eq(s, "float") || str_eq(s, "float32") {
            Some(ScalarTy::F32)
        } else if str_eq(s, "double") || str_eq(s, "float64") {
            Some(ScalarTy::F64)
        } else if str_eq(s, "int") || str_eq(s, "int32") {
            Some(ScalarTy::I32)
        } else if str_eq(s, "uint") || str_eq(s, "uint32") {
            Some(ScalarTy::U32)
        } else if str_eq(s, "short") || str_eq(s, "int16") {
            Some(ScalarTy::I16)
        } else if str_eq(s, "ushort") || str_eq(s, "uint16") {
            Some(ScalarTy::U16)
        } else if str_eq(s, "char") || str_eq(s, "int8") {
            Some(ScalarTy::I8)
        } else if str_eq(s, "uchar") || str_eq(s, "uint8") {
            Some(ScalarTy::U8)
        } else {
            None
        }
    }

    /// Size in bytes.
    pub fn size(&self) -> (r: usize)
        ensures
            r == scalar_size(*self),
    {
        match self {
            ScalarTy::F32 | ScalarTy::I32 | ScalarTy::U32 => 4,
            ScalarTy::F64 => 8,
            ScalarTy::I16 | ScalarTy::U16 => 2,
            ScalarTy::I8 | ScalarTy::U8 => 1,
        }
    }
}

/// One scalar property of an element.
#[derive(Debug, Clone)]
pub struct Property {
    pub name: String,
    pub ty: ScalarTy,
}

/// One element of the header (`element <name> <count>` and its properties).
#[derive(Debug, Clone)]
pub struct Element {
    pub name: String,
    pub count: usize,
    pub properties: Vec<Property>,
}

/// The parsed header.
#[derive(Debug)]
pub struct Header {
    pub format: Format,
    pub elements: Vec<Element>,
    /// Byte offset of the first body byte (right after `end_header`'s line).
    pub body_offset: usize,
}

/// An element as the contracts see it.
pub struct ElementModel {
    pub name: Seq<char>,
    pub count: usize,
    pub props: Seq<(Seq<char>, ScalarTy)>,
}

/// A header as the contracts see it.
pub struct HeaderModel {
    pub format: Format,
    pub elements: Seq<ElementModel>,
    pub body_offset: int,
}

pub open spec fn props_model(ps: Seq<Property>) -> Seq<(Seq<char>, ScalarTy)> {
    ps.map_values(|p: Property| (p.name@, p.ty))
}

pub open spec fn element_model(e: Element) -> ElementModel {
    ElementModel { name: e.name@, count: e.count, props: props_model(e.properties@) }
}

pub open spec fn elements_model(es: Seq<Element>) -> Seq<ElementModel> {
    es.map_values(|e: Element| element_model(e))
}

pub open spec fn header_model(h: Header) -> HeaderModel {
    HeaderModel {
        format: h.format,
        elements: elements_model(h.elements@),
        body_offset: h.body_offset as int,
    }
}

// ---------- words of a line ----------

/// Index of the first whitespace character at or after `i` (or the end).
pub open spec fn word_end(cs: Seq<char>, i: int) -> int
    decreases cs.len() - i,
{
    if 0 <= i < cs.len() && !is_unicode_whitespace(cs[i]) {
        word_end(cs, i + 1)
    } else {
        i
    }
}

/// Index of the first non-whitespace character at or after `i` (or the end).
pub open spec fn ws_end(cs: Seq<char>, i: int) -> int
    decreases cs.len() - i,
{
    if 0 <= i < cs.len() && is_unicode_whitespace(cs[i]) {
        ws_end(cs, i + 1)
    } else {
        i
    }
}

/// The whitespace-separated words of `cs[i..]`, in order.
pub open spec fn words_from(cs: Seq<char>, i: int) -> Seq<Seq<char>>
    decreases cs.len() - i,
{
    if i < 0 || i >= cs.len() {
        Seq::empty()
    } else {
        let s = ws_end(cs, i);
        if s >= cs.len() {
            Seq::empty()
        } else {
            let e = word_end(cs, s);
            if e <= s {
                Seq::empty()
            } else {
                proof {
                    lemma_ws_end_bounds(cs, i);
                    lemma_word_end_bounds(cs, s);
                }
                seq![cs.subrange(s, e)] + words_from(cs, e)
            }
        }
    }
}

/// `str::split_whitespace`.
pub open spec fn split_ws(cs: Seq<char>) -> Seq<Seq<char>> {
    words_from(cs, 0)
}

/// Length of `cs` once trailing whitespace is dropped.
pub open spec fn trimmed_len(cs: Seq<char>, n: int) -> int
    decreases n,
{
    if n > 0 && is_unicode_whitespace(cs[n - 1]) {
        trimmed_len(cs, n - 1)
    } else {
        n
    }
}

/// `str::trim_end`.
pub open spec fn trim_end(cs: Seq<char>) -> Seq<char> {
    cs.subrange(0, trimmed_len(cs, cs.len() as int))
}

/// Skipping whitespace moves forward and stays within the string.
pub proof fn lemma_ws_end_bounds(cs: Seq<char>, i: int)
    requires
        0 <= i,
    ensures
        i <= ws_end(cs, i),
        i <= cs.len() ==> ws_end(cs, i) <= cs.len(),
    decreases cs.len() - i,
{
    if 0 <= i < cs.len() && is_unicode_whitespace(cs[i]) {
        lemma_ws_end_bounds(cs, i + 1);
    }
}

proof fn lemma_ws_end_stop(cs: Seq<char>, i: int)
    requires
        0 <= i,
        ws_end(cs, i) < cs.len(),
    ensures
        !is_unicode_whitespace(cs[ws_end(cs, i)]),
    decreases cs.len() - i,
{
    if 0 <= i < cs.len() && is_unicode_whitespace(cs[i]) {
        lemma_ws_end_stop(cs, i + 1);
    }
}

/// Skipping a word moves forward and stays within the string.
pub proof fn lemma_word_end_bounds(cs: Seq<char>, i: int)
    requires
        0 <= i,
    ensures
        i <= word_end(cs, i),
        i <= cs.len() ==> word_end(cs, i) <= cs.len(),
    decreases cs.len() - i,
{
    if 0 <= i < cs.len() && !is_unicode_whitespace(cs[i]) {
        lemma_word_end_bounds(cs, i + 1);
    }
}

fn ws_end_exec(cs: &Vec<char>, i: usize) -> (r: usize)
    requires
        i <= cs@.len(),
    ensures
        r == ws_end(cs@, i as int),
        i <= r <= cs@.len(),
{
    let mut j = i;
    while j < cs.len() && is_whitespace(cs[j])
        invariant
            i <= j <= cs@.len(),
            ws_end(cs@, j as int) == ws_end(cs@, i as int),
        decreases cs@.len() - j,
    {
        j += 1;
    }
    j
}

fn word_end_exec(cs: &Vec<char>, i: usize) -> (r: usize)
    requires
        i <= cs@.len(),
    ensures
        r == word_end(cs@, i as int),
        i <= r <= cs@.len(),
{
    let mut j = i;
    while j < cs.len() && !is_whitespace(cs[j])
        invariant
            i <= j <= cs@.len(),
            word_end(cs@, j as int) == word_end(cs@, i as int),
        decreases cs@.len() - j,
    {
        j += 1;
    }
    j
}

fn sub_chars(cs: &Vec<char>, s: usize, e: usize) -> (r: Vec<char>)
    requires
        s <= e <= cs@.len(),
    ensures
        r@ == cs@.subrange(s as int, e as int),
{
    let mut out: Vec<char> = Vec::new();
    let mut i = s;
    while i < e
        invariant
            s <= i <= e <= cs@.len(),
            out@ == cs@.subrange(s as int, i as int),
        decreases e - i,
    {
        out.push(cs[i]);
        assert(out@ =~= cs@.subrange(s as int, i + 1));
        i += 1;
    }
    out
}

/// The whitespace-separated words of `cs`.
pub fn split_whitespace(cs: &Vec<char>) -> (r: Vec<Vec<char>>)
    ensures
        r@.map_values(|w: Vec<char>| w@) == split_ws(cs@),
{
    let mut out: Vec<Vec<char>> = Vec::new();
    let mut i: usize = 0;
    while i < cs.len()
        invariant
            i <= cs@.len(),
            out@.map_values(|w: Vec<char>| w@) + words_from(cs@, i as int) == split_ws(cs@),
        decreases cs@.len() - i,
    {
        let s = ws_end_exec(cs, i);
        if s >= cs.len() {
            proof {
                assert(words_from(cs@, i as int) =~= Seq::<Seq<char>>::empty());
                assert(words_from(cs@, s as int) =~= Seq::<Seq<char>>::empty());
            }
            i = s;
        } else {
            let e = word_end_exec(cs, s);
            proof {
                lemma_ws_end_stop(cs@, i as int);
                lemma_word_end_bounds(cs@, s + 1);
                assert(e > s);
            }
            let w = sub_chars(cs, s, e);
            let ghost before = out@.map_values(|w: Vec<char>| w@);
            out.push(w);
            proof {
                assert(out@.map_values(|w: Vec<char>| w@) =~= before.push(cs@.subrange(
                    s as int,
                    e as int,
                )));
                assert(words_from(cs@, i as int) == seq![cs@.subrange(s as int, e as int)]
                    + words_from(cs@, e as int));
                assert(before + words_from(cs@, i as int) =~= before.push(
                    cs@.subrange(s as int, e as int),
                ) + words_from(cs@, e as int));
            }
            i = e;
        }
    }
    proof {
        assert(words_from(cs@, i as int) =~= Seq::<Seq<char>>::empty());
        assert(out@.map_values(|w: Vec<char>| w@) + Seq::<Seq<char>>::empty() =~= out@.map_values(
            |w: Vec<char>| w@,
        ));
    }
    out
}

/// `cs` without its trailing whitespace.
pub fn trim_end_chars(cs: &Vec<char>) -> (r: Vec<char>)
    ensures
        r@ == trim_end(cs@),
{
    let mut n = cs.len();
    while n > 0 && is_whitespace(cs[n - 1])
        invariant
            n <= cs@.len(),
            trimmed_len(cs@, n as int) == trimmed_len(cs@, cs@.len() as int),
        decreases n,
    {
        n -= 1;
    }
    sub_chars(cs, 0, n)
}

/// True exactly when the characters spell `s`.
pub fn chars_is(w: &[char], s: &str) -> (r: bool)
    ensures
        r == (w@ == s@),
{
    let t = str_chars(s);
    if w.len() != t.len() {
        return false;
    }
    let mut i: usize = 0;
    while i < w.len()
        invariant
            w@.len() == t@.len(),
            t@ == s@,
            i <= w@.len(),
            forall|k: int| 0 <= k < i ==> w@[k] == t@[k],
        decreases w@.len() - i,
    {
        if w[i] != t[i] {
            return false;
        }
        i += 1;
    }
    assert(w@ =~= t@);
    true
}

// ---------- unsigned integers ----------

/// Value of a string of ASCII digits.
pub open spec fn digits_value(s: Seq<char>) -> nat
    decreases s.len(),
{
    if s.len() == 0 {
        0
    } else {
        10 * digits_value(s.drop_last()) + ((s.last() as nat) - 48) as nat
    }
}

/// Every character is an ASCII digit.
pub open spec fn all_digits(s: Seq<char>) -> bool {
    forall|i: int| 0 <= i < s.len() ==> '0' <= #[trigger] s[i] && s[i] <= '9'
}

/// `usize::from_str`: an optional `+` then at least one ASCII digit, with a
/// value that fits.
pub open spec fn parse_usize(s: Seq<char>) -> Option<usize> {
    let d = if s.len() > 0 && s[0] == '+' {
        s.subrange(1, s.len() as int)
    } else {
        s
    };
    if d.len() == 0 || !all_digits(d) || digits_value(d) > usize::MAX {
        None
    } else {
        Some(digits_value(d) as usize)
    }
}

/// Parses a decimal `usize` the way `str::parse::<usize>` does.
pub fn parse_usize_exec(s: &Vec<char>) -> (r: Option<usize>)
    ensures
        r == parse_usize(s@),
{
    let start: usize = if s.len() > 0 && s[0] == '+' {
        1
    } else {
        0
    };
    let ghost d = if s@.len() > 0 && s@[0] == '+' {
        s@.subrange(1, s@.len() as int)
    } else {
        s@
    };
    assert(d == s@.subrange(start as int, s@.len() as int));
    if start >= s.len() {
        return None;
    }
    let mut v: usize = 0;
    let mut i = start;
    while i < s.len()
        invariant
            start <= i <= s@.len(),
            d == s@.subrange(start as int, s@.len() as int),
            d == (if s@.len() > 0 && s@[0] == '+' {
                s@.subrange(1, s@.len() as int)
            } else {
                s@
            }),
            all_digits(s@.subrange(start as int, i as int)),
            v == digits_value(s@.subrange(start as int, i as int)),
        decreases s@.len() - i,
    {
        let c = s[i];
        let ghost pre = s@.subrange(start as int, i as int);
        let ghost nxt = s@.subrange(start as int, i + 1);
        proof {
            assert(nxt.drop_last() == pre);
            assert(nxt.last() == c);
        }
        if c < '0' || c > '9' {
            proof {
                assert(d[i - start] == c);
                assert(!all_digits(d));
            }
            return None;
        }
        let digit = (c as u32 - 48) as usize;
        if v > (usize::MAX - digit) / 10 {
            proof {
                assert(digits_value(nxt) == 10 * v + digit);
                assert(10 * v + digit > usize::MAX) by (nonlinear_arith)
                    requires
                        v > (usize::MAX - digit) / 10,
                        digit <= 9,
                ;
                lemma_digits_grow(d, i - start + 1);
                assert(nxt =~= d.subrange(0, i - start + 1));
                assert(all_digits(d) ==> digits_value(d) > usize::MAX);
            }
            return None;
        }
        v = v * 10 + digit;
        proof {
            assert(all_digits(nxt));
        }
        i += 1;
    }
    proof {
        assert(s@.subrange(start as int, i as int) == d);
    }
    Some(v)
}

proof fn lemma_digits_grow(d: Seq<char>, k: int)
    requires
        0 <= k <= d.len(),
    ensures
        all_digits(d) ==> digits_value(d.subrange(0, k)) <= digits_value(d),
    decreases d.len() - k,
{
    if all_digits(d) {
        if k < d.len() {
            lemma_digits_grow(d, k + 1);
            let a = d.subrange(0, k);
            let b = d.subrange(0, k + 1);
            assert(b.drop_last() == a);
            assert(b.last() == d[k]);
            assert('0' <= b.last() && b.last() <= '9');
            assert(digits_value(b) == 10 * digits_value(a) + ((b.last() as nat) - 48) as nat);
        } else {
            assert(d.subrange(0, k) =~= d);
        }
    }
}

// ---------- header grammar ----------

/// Index just past the line starting at `pos`: past its `\n`, or the end of
/// the input when there is none.
pub open spec fn line_end(b: Seq<u8>, pos: int) -> int
    decreases b.len() - pos,
{
    if pos < 0 || pos >= b.len() {
        pos
    } else if b[pos] == 10u8 {
        pos + 1
    } else {
        line_end(b, pos + 1)
    }
}

/// The text of the line starting at `pos` (its `\n` included), when those
/// bytes are UTF-8.
pub open spec fn line_text(b: Seq<u8>, pos: int) -> Option<Seq<char>> {
    let l = b.subrange(pos, line_end(b, pos));
    if valid_utf8(l) {
        Some(decode_utf8(l))
    } else {
        None
    }
}

/// What a line reader reports for bytes that are not UTF-8.
pub open spec fn utf8_error() -> Seq<char> {
    "stream did not contain valid UTF-8"@
}

/// The parse state between header lines.
pub struct HeaderState {
    pub format: Option<Format>,
    pub elements: Seq<ElementModel>,
    pub current: Option<ElementModel>,
}

/// The finished elements plus the one still open.
pub open spec fn all_elements(st: HeaderState) -> Seq<ElementModel> {
    match st.current {
        Some(c) => st.elements.push(c),
        None => st.elements,
    }
}

/// The effect of one header line, given its words.
pub open spec fn header_step(st: HeaderState, w: Seq<Seq<char>>) -> Result<HeaderState, PlyFault> {
    if w.len() == 3 && w[0] == "format"@ {
        if w[1] == "binary_little_endian"@ {
            Ok(HeaderState { format: Some(Format::BinaryLE), elements: st.elements, current: st.current })
        } else if w[1] == "ascii"@ {
            Ok(HeaderState { format: Some(Format::Ascii), elements: st.elements, current: st.current })
        } else if w[1] == "binary_big_endian"@ {
            Err(PlyFault::UnsupportedEndian)
        } else {
            Err(PlyFault::MalformedHeader("unknown format: "@ + w[1]))
        }
    } else if w.len() >= 1 && w[0] == "comment"@ {
        Ok(st)
    } else if w.len() == 3 && w[0] == "element"@ {
        match parse_usize(w[2]) {
            None => Err(PlyFault::MalformedHeader("bad element count"@)),
            Some(n) => Ok(
                HeaderState {
                    format: st.format,
                    elements: all_elements(st),
                    current: Some(ElementModel { name: w[1], count: n, props: Seq::empty() }),
                },
            ),
        }
    } else if w.len() >= 2 && w[0] == "property"@ && w[1] == "list"@ {
        Err(PlyFault::MalformedHeader("list properties not supported"@))
    } else if w.len() == 3 && w[0] == "property"@ {
        match scalar_ty_of(w[1]) {
            None => Err(PlyFault::MalformedHeader("bad property type "@ + w[1])),
            Some(t) => match st.current {
                None => Err(PlyFault::MalformedHeader("property outside element"@)),
                Some(c) => Ok(
                    HeaderState {
                        format: st.format,
                        elements: st.elements,
                        current: Some(
                            ElementModel { name: c.name, count: c.count, props: c.props.push((w[2], t)) },
                        ),
                    },
                ),
            },
        }
    } else {
        Ok(st)
    }
}

/// A line ends strictly after where it starts, and within the input.
pub proof fn lemma_line_end_bounds(b: Seq<u8>, pos: int)
    requires
        0 <= pos < b.len(),
    ensures
        pos < line_end(b, pos) <= b.len(),
    decreases b.len() - pos,
{
    if b[pos] != 10u8 {
        if pos + 1 < b.len() {
            lemma_line_end_bounds(b, pos + 1);
        } else {
            assert(line_end(b, pos + 1) == pos + 1);
        }
    }
}

/// Reads header lines from `pos` on until `end_header`.
pub open spec fn header_lines(b: Seq<u8>, pos: int, st: HeaderState) -> Result<HeaderModel, PlyFault>
    decreases b.len() - pos,
{
    if pos < 0 || pos >= b.len() {
        Err(PlyFault::MalformedHeader("unexpected eof"@))
    } else {
        match line_text(b, pos) {
            None => Err(PlyFault::Io(utf8_error())),
            Some(t) => if trim_end(t) == "end_header"@ {
                match st.format {
                    None => Err(PlyFault::MalformedHeader("no format line"@)),
                    Some(f) => Ok(
                        HeaderModel { format: f, elements: all_elements(st), body_offset: line_end(b, pos) },
                    ),
                }
            } else {
                match header_step(st, split_ws(t)) {
                    Err(f) => Err(f),
                    Ok(st2) => {
                        proof {
                            lemma_line_end_bounds(b, pos);
                        }
                        header_lines(b, line_end(b, pos), st2)
                    },
                }
            },
        }
    }
}

/// The header of a PLY file: a first line reading `ply`, then directive
/// lines up to `end_header`.
pub open spec fn header_of(b: Seq<u8>) -> Result<HeaderModel, PlyFault> {
    match line_text(b, 0) {
        None => Err(PlyFault::Io(utf8_error())),
        Some(t) => if trim_end(t) != "ply"@ {
            Err(PlyFault::NotAPly)
        } else {
            header_lines(
                b,
                line_end(b, 0),
                HeaderState { format: None, elements: Seq::empty(), current: None },
            )
        },
    }
}

fn line_end_exec(bytes: &[u8], pos: usize) -> (r: usize)
    requires
        pos <= bytes@.len(),
    ensures
        r == line_end(bytes@, pos as int),
        pos <= r <= bytes@.len(),
{
    let mut i = pos;
    while i < bytes.len() && bytes[i] != 10u8
        invariant
            pos <= i <= bytes@.len(),
            line_end(bytes@, i as int) == line_end(bytes@, pos as int),
        decreases bytes@.len() - i,
    {
        i += 1;
    }
    if i < bytes.len() {
        i + 1
    } else {
        i
    }
}

fn line_chars(bytes: &[u8], pos: usize, end: usize) -> (r: Result<Vec<char>, PlyError>)
    requires
        pos <= end <= bytes@.len(),
    ensures
        match r {
            Ok(cs) => valid_utf8(bytes@.subrange(pos as int, end as int)) && cs@ == decode_utf8(
                bytes@.subrange(pos as int, end as int),
            ),
            Err(e) => !valid_utf8(bytes@.subrange(pos as int, end as int)) && fault_of(e)
                == PlyFault::Io(utf8_error()),
        },
{
    match decode_utf8_chars(&bytes[pos..end]) {
        Some(cs) => Ok(cs),
        None => Err(PlyError::Io(lit("stream did not contain valid UTF-8"))),
    }
}

/// The mutable parse state.
struct ParseState {
    format: Option<Format>,
    elements: Vec<Element>,
    current: Option<Element>,
}

spec fn state_model(s: ParseState) -> HeaderState {
    HeaderState {
        format: s.format,
        elements: elements_model(s.elements@),
        current: match s.current {
            Some(c) => Some(element_model(c)),
            None => None,
        },
    }
}

proof fn lemma_elements_push(es: Seq<Element>, e: Element)
    ensures
        elements_model(es.push(e)) == elements_model(es).push(element_model(e)),
{
    assert(elements_model(es.push(e)) =~= elements_model(es).push(element_model(e)));
}

proof fn lemma_props_push(ps: Seq<Property>, p: Property)
    ensures
        props_model(ps.push(p)) == props_model(ps).push((p.name@, p.ty)),
{
    assert(props_model(ps.push(p)) =~= props_model(ps).push((p.name@, p.ty)));
}

fn close_current(st: &mut ParseState)
    ensures
        elements_model(final(st).elements@) == all_elements(state_model(*old(st))),
        final(st).current is None,
        final(st).format == old(st).format,
{
    match st.current.take() {
        Some(c) => {
            proof {
                lemma_elements_push(st.elements@, c);
            }
            st.elements.push(c);
        },
        None => {},
    }
}

fn malformed(prefix: &str, tail: &Vec<char>) -> (e: PlyError)
    ensures
        fault_of(e) == PlyFault::MalformedHeader(prefix@ + tail@),
{
    let mut m = lit(prefix);
    let t = string_from_chars(tail.as_slice());
    append_str(&mut m, t.as_str());
    PlyError::MalformedHeader(m)
}

fn apply_line(st: &mut ParseState, w: &Vec<Vec<char>>) -> (r: Result<(), PlyError>)
    ensures
        match header_step(state_model(*old(st)), w@.map_values(|x: Vec<char>| x@)) {
            Ok(s2) => r is Ok && state_model(*final(st)) == s2,
            Err(f) => r matches Err(e) && fault_of(e) == f,
        },
{
    let ghost ws = w@.map_values(|x: Vec<char>| x@);
    proof {
        assert(ws.len() == w@.len());
        assert forall|i: int| 0 <= i < w@.len() implies ws[i] == (#[trigger] w@[i])@ by {}
    }
    let n = w.len();
    if n == 3 && chars_is(w[0].as_slice(), "format") {
        if chars_is(w[1].as_slice(), "binary_little_endian") {
            st.format = Some(Format::BinaryLE);
            return Ok(());
        } else if chars_is(w[1].as_slice(), "ascii") {
            st.format = Some(Format::Ascii);
            return Ok(());
        } else if chars_is(w[1].as_slice(), "binary_big_endian") {
            return Err(PlyError::UnsupportedEndian);
        } else {
            return Err(malformed("unknown format: ", &w[1]));
        }
    }
    if n >= 1 && chars_is(w[0].as_slice(), "comment") {
        return Ok(());
    }
    if n == 3 && chars_is(w[0].as_slice(), "element") {
        match parse_usize_exec(&w[2]) {
            None => {
                return Err(PlyError::MalformedHeader(lit("bad element count")));
            },
            Some(count) => {
                close_current(st);
                let name = string_from_chars(w[1].as_slice());
                st.current = Some(Element { name, count, properties: Vec::new() });
                proof {
                    assert(props_model(Seq::<Property>::empty()) =~= Seq::<(Seq<char>, ScalarTy)>::empty());
                }
                return Ok(());
            },
        }
    }
    if n >= 2 && chars_is(w[0].as_slice(), "property") && chars_is(w[1].as_slice(), "list") {
        return Err(PlyError::MalformedHeader(lit("list properties not supported")));
    }
    if n == 3 && chars_is(w[0].as_slice(), "property") {
        let ts = string_from_chars(w[1].as_slice());
        match ScalarTy::parse(ts.as_str()) {
            None => {
                return Err(malformed("bad property type ", &w[1]));
            },
            Some(ty) => {
                match st.current.take() {
                    None => {
                        return Err(PlyError::MalformedHeader(lit("property outside element")));
                    },
                    Some(mut c) => {
                        let name = string_from_chars(w[2].as_slice());
                        proof {
                            lemma_props_push(c.properties@, Property { name, ty });
                        }
                        c.properties.push(Property { name, ty });
                        st.current = Some(c);
                        return Ok(());
                    },
                }
            },
        }
    }
    Ok(())
}

/// Every element of the state (finished or open) has at most `n / 8`
/// properties.
pub open spec fn props_bounded(st: HeaderState, n: int) -> bool {
    &&& forall|i: int| 0 <= i < st.elements.len() ==> 8 * (#[trigger] st.elements[i]).props.len() <= n
    &&& (st.current matches Some(c) ==> 8 * c.props.len() <= n)
}

proof fn lemma_decode_len(b: Seq<u8>)
    requires
        valid_utf8(b),
    ensures
        decode_utf8(b).len() <= b.len(),
    decreases b.len(),
{
    if b.len() > 0 {
        let k = length_of_first_scalar(b);
        assert(1 <= k <= b.len());
        let rest = pop_first_scalar(b);
        assert(rest.len() == b.len() - k);
        lemma_decode_len(rest);
    }
}

proof fn lemma_words_from_len(cs: Seq<char>, i: int)
    ensures
        forall|k: int| 0 <= k < words_from(cs, i).len() ==> (#[trigger] words_from(cs, i)[k]).len() <= cs.len(),
    decreases cs.len() - i,
{
    if 0 <= i < cs.len() {
        let s = ws_end(cs, i);
        if s < cs.len() {
            let e = word_end(cs, s);
            if e > s {
                lemma_ws_end_bounds(cs, i);
                lemma_word_end_bounds(cs, s);
                lemma_words_from_len(cs, e);
                let w = words_from(cs, i);
                assert forall|k: int| 0 <= k < w.len() implies (#[trigger] w[k]).len() <= cs.len() by {
                    if k > 0 {
                        assert(w[k] == words_from(cs, e)[k - 1]);
                    }
                }
            }
        }
    }
}

proof fn lemma_step_bounded(st: HeaderState, ws: Seq<Seq<char>>, n: int, m: int)
    requires
        props_bounded(st, n),
        0 <= n <= m,
        ws.len() >= 1 ==> n + ws[0].len() <= m,
        header_step(st, ws) is Ok,
    ensures
        props_bounded(header_step(st, ws)->Ok_0, m),
{
    reveal_strlit("property");
    reveal_strlit("format");
    reveal_strlit("comment");
    reveal_strlit("element");
    reveal_strlit("list");
    let st2 = header_step(st, ws)->Ok_0;
    let ae = all_elements(st);
    assert forall|i: int| 0 <= i < ae.len() implies 8 * (#[trigger] ae[i]).props.len() <= n by {
        if i < st.elements.len() {
            assert(ae[i] == st.elements[i]);
        }
    }
    assert("element"@[0] == 'e' && "comment"@[0] == 'c' && "format"@[0] == 'f');
    assert("property"@[0] == 'p');
    if ws.len() == 3 && ws[0] == "element"@ {
        assert(ws[0][0] != "comment"@[0]);
        assert(st2.elements == ae);
        assert(props_bounded(st2, m));
    } else if ws.len() == 3 && ws[0] == "property"@ && !(ws[1] == "list"@) {
        assert(ws[0][0] != "comment"@[0]);
        assert(ws[0][0] != "element"@[0]);
        assert(ws[0][0] != "format"@[0]);
        assert(ws[0].len() == 8);
        assert(st2.elements == st.elements);
        let c = st.current->0;
        assert(st2.current->0.props == c.props.push((ws[2], scalar_ty_of(ws[1])->0)));
        assert(props_bounded(st2, m));
    } else {
        assert(st2.elements == st.elements);
        assert(st2.current == st.current);
        assert(props_bounded(st2, m));
    }
}

/// Parses the text header of a PLY file.
pub fn parse_header(bytes: &[u8]) -> (r: Result<Header, PlyError>)
    ensures
        match r {
            Ok(h) => header_of(bytes@) == Ok::<HeaderModel, PlyFault>(header_model(h)),
            Err(e) => header_of(bytes@) == Err::<HeaderModel, PlyFault>(fault_of(e)),
        },
        r matches Ok(h) ==> forall|i: int|
            0 <= i < h.elements@.len() ==> 8 * (#[trigger] h.elements@[i]).properties@.len()
                <= bytes@.len(),
{
    let ghost b = bytes@;
    let e0 = line_end_exec(bytes, 0);
    let first = match line_chars(bytes, 0, e0) {
        Ok(cs) => cs,
        Err(e) => {
            return Err(e);
        },
    };
    let t0 = trim_end_chars(&first);
    if !chars_is(t0.as_slice(), "ply") {
        return Err(PlyError::NotAPly);
    }
    let mut st = ParseState { format: None, elements: Vec::new(), current: None };
    proof {
        assert(elements_model(st.elements@) =~= Seq::<ElementModel>::empty());
        assert(state_model(st) == HeaderState { format: None, elements: Seq::empty(), current: None });
    }
    let mut pos = e0;
    loop
        invariant
            b == bytes@,
            pos <= b.len(),
            header_of(b) == header_lines(b, pos as int, state_model(st)),
            props_bounded(state_model(st), pos as int),
        decreases b.len() - pos,
    {
        if pos >= bytes.len() {
            return Err(PlyError::MalformedHeader(lit("unexpected eof")));
        }
        let e = line_end_exec(bytes, pos);
        let line = match line_chars(bytes, pos, e) {
            Ok(cs) => cs,
            Err(err) => {
                return Err(err);
            },
        };
        let t = trim_end_chars(&line);
        if chars_is(t.as_slice(), "end_header") {
            match st.format {
                None => {
                    return Err(PlyError::MalformedHeader(lit("no format line")));
                },
                Some(f) => {
                    let ghost before = state_model(st);
                    close_current(&mut st);
                    let h = Header { format: f, elements: st.elements, body_offset: e };
                    proof {
                        let em = elements_model(h.elements@);
                        assert(em == all_elements(before));
                        assert forall|i: int| 0 <= i < h.elements@.len() implies 8 * (#[trigger] h.elements@[i]).properties@.len() <= bytes@.len() by {
                            assert(em[i] == element_model(h.elements@[i]));
                            assert(element_model(h.elements@[i]).props.len() == h.elements@[i].properties@.len());
                            if i < before.elements.len() {
                                assert(em[i] == before.elements[i]);
                            } else {
                                assert(em[i] == before.current->0);
                            }
                        }
                    }
                    return Ok(h);
                },
            }
        }
        let words = split_whitespace(&line);
        let ghost st_before = state_model(st);
        match apply_line(&mut st, &words) {
            Ok(()) => {},
            Err(err) => {
                return Err(err);
            },
        }
        proof {
            lemma_line_end_bounds(b, pos as int);
            lemma_words_from_len(line@, 0);
            lemma_decode_len(b.subrange(pos as int, e as int));
            let ws = words@.map_values(|x: Vec<char>| x@);
            if ws.len() >= 1 {
                assert(ws[0].len() <= line@.len());
            }
            lemma_step_bounded(st_before, ws, pos as int, e as int);
        }
        pos = e;
    }
}

// ---------- the vertex element ----------

/// Index of the first element named `name` at or after `i`.
pub open spec fn first_named(es: Seq<ElementModel>, name: Seq<char>, i: int) -> Option<int>
    decreases es.len() - i,
{
    if i < 0 || i >= es.len() {
        None
    } else if es[i].name == name {
        Some(i)
    } else {
        first_named(es, name, i + 1)
    }
}

/// Index of the first `vertex` element.
pub open spec fn vertex_index(es: Seq<ElementModel>) -> Option<int> {
    first_named(es, "vertex"@, 0)
}

/// Position of the first `vertex` element among the header's elements.
pub fn vertex_position(h: &Header) -> (r: Result<usize, PlyError>)
    ensures
        match vertex_index(elements_model(h.elements@)) {
            Some(i) => r == Ok::<usize, PlyError>(i as usize),
            None => r matches Err(e) && fault_of(e) == PlyFault::MalformedHeader(
                "no 'vertex' element"@,
            ),
        },
{
    let ghost es = elements_model(h.elements@);
    let mut i: usize = 0;
    while i < h.elements.len()
        invariant
            i <= h.elements@.len(),
            es == elements_model(h.elements@),
            vertex_index(es) == first_named(es, "vertex"@, i as int),
        decreases h.elements@.len() - i,
    {
        if str_eq(h.elements[i].name.as_str(), "vertex") {
            return Ok(i);
        }
        i += 1;
    }
    Err(PlyError::MalformedHeader(lit("no 'vertex' element")))
}

/// The first `vertex` element of the header.
pub fn parse_vertex_element(h: &Header) -> (r: Result<&Element, PlyError>)
    ensures
        match vertex_index(elements_model(h.elements@)) {
            Some(i) => r matches Ok(e) && *e == h.elements@[i],
            None => r matches Err(e) && fault_of(e) == PlyFault::MalformedHeader(
                "no 'vertex' element"@,
            ),
        },
{
    match vertex_position(h) {
        Ok(i) => {
            proof {
                lemma_first_named_bounds(elements_model(h.elements@), "vertex"@, 0);
                assert(elements_model(h.elements@).len() == h.elements@.len());
                assert(h.elements@.len() == h.elements.len());
                let k = vertex_index(elements_model(h.elements@))->0;
                assert(k as usize == i);
                assert(k == i as int);
            }
            Ok(&h.elements[i])
        },
        Err(e) => Err(e),
    }
}

proof fn lemma_first_named_bounds(es: Seq<ElementModel>, name: Seq<char>, i: int)
    ensures
        first_named(es, name, i) matches Some(k) ==> 0 <= i <= k < es.len() && es[k].name == name,
    decreases es.len() - i,
{
    if 0 <= i < es.len() && es[i].name != name {
        lemma_first_named_bounds(es, name, i + 1);
    }
}

/// Fields every Inria-style 3DGS vertex must carry, in the order they are
/// checked.
pub open spec fn required_fields() -> Seq<Seq<char>> {
    seq![
        "x"@,
        "y"@,
        "z"@,
        "scale_0"@,
        "scale_1"@,
        "scale_2"@,
        "rot_0"@,
        "rot_1"@,
        "rot_2"@,
        "rot_3"@,
        "opacity"@,
        "f_dc_0"@,
        "f_dc_1"@,
        "f_dc_2"@,
    ]
}

/// Some property of the element is named `name`.
pub open spec fn has_prop(props: Seq<(Seq<char>, ScalarTy)>, name: Seq<char>) -> bool {
    exists|i: int| 0 <= i < props.len() && #[trigger] props[i].0 == name
}

/// The first required field, from index `k` on, that the element lacks.
pub open spec fn first_missing(props: Seq<(Seq<char>, ScalarTy)>, k: int) -> Option<Seq<char>>
    decreases required_fields().len() - k,
{
    if k < 0 || k >= required_fields().len() {
        None
    } else if !has_prop(props, required_fields()[k]) {
        Some(required_fields()[k])
    } else {
        first_missing(props, k + 1)
    }
}

/// The message for a missing required field.
pub open spec fn missing_message(name: Seq<char>) -> Seq<char> {
    if name.len() >= 4 && name.subrange(0, 4) == "rot_"@ {
        "missing required rotation fields ("@ + name + ")"@
    } else {
        "missing required field "@ + name
    }
}

proof fn lemma_required_rot(k: int)
    requires
        0 <= k < 14,
    ensures
        missing_message(required_fields()[k]) == if 6 <= k <= 9 {
            "missing required rotation fields ("@ + required_fields()[k] + ")"@
        } else {
            "missing required field "@ + required_fields()[k]
        },
{
    reveal_strlit("x");
    reveal_strlit("y");
    reveal_strlit("z");
    reveal_strlit("scale_0");
    reveal_strlit("scale_1");
    reveal_strlit("scale_2");
    reveal_strlit("rot_0");
    reveal_strlit("rot_1");
    reveal_strlit("rot_2");
    reveal_strlit("rot_3");
    reveal_strlit("opacity");
    reveal_strlit("f_dc_0");
    reveal_strlit("f_dc_1");
    reveal_strlit("f_dc_2");
    reveal_strlit("rot_");
    let n = required_fields()[k];
    if 6 <= k <= 9 {
        assert(n.subrange(0, 4) =~= "rot_"@);
    } else if n.len() >= 4 {
        assert(n.subrange(0, 4)[0] != 'r' || n.subrange(0, 4)[1] != 'o');
        assert(n.subrange(0, 4) != "rot_"@);
    }
}

fn has_property(props: &Vec<Property>, name: &str) -> (r: bool)
    ensures
        r == has_prop(props_model(props@), name@),
{
    let ghost pm = props_model(props@);
    let mut i: usize = 0;
    while i < props.len()
        invariant
            i <= props@.len(),
            pm == props_model(props@),
            forall|j: int| 0 <= j < i ==> #[trigger] pm[j].0 != name@,
        decreases props@.len() - i,
    {
        if str_eq(props[i].name.as_str(), name) {
            assert(pm[i as int].0 == name@);
            return true;
        }
        i += 1;
    }
    false
}

/// Checks that the vertex element carries every required Gaussian-splat
/// field; reports the first one missing.
pub fn check_required(elem: &Element) -> (r: Result<(), PlyError>)
    ensures
        match first_missing(props_model(elem.properties@), 0) {
            None => r is Ok,
            Some(name) => r matches Err(e) && fault_of(e) == PlyFault::MissingRequiredField(
                missing_message(name),
            ),
        },
{
    let req: [&str; 14] = [
        "x",
        "y",
        "z",
        "scale_0",
        "scale_1",
        "scale_2",
        "rot_0",
        "rot_1",
        "rot_2",
        "rot_3",
        "opacity",
        "f_dc_0",
        "f_dc_1",
        "f_dc_2",
    ];
    proof {
        assert forall|k: int| 0 <= k < 14 implies (#[trigger] req@[k])@ == required_fields()[k] by {}
    }
    let ghost pm = props_model(elem.properties@);
    let mut k: usize = 0;
    while k < 14
        invariant
            k <= 14,
            pm == props_model(elem.properties@),
            forall|j: int| 0 <= j < 14 ==> (#[trigger] req@[j])@ == required_fields()[j],
            first_missing(pm, 0) == first_missing(pm, k as int),
        decreases 14 - k,
    {
        let name = req[k];
        if !has_property(&elem.properties, name) {
            let is_rot = 6 <= k && k <= 9;
            proof {
                lemma_required_rot(k as int);
            }
            let mut m = if is_rot {
                lit("missing required rotation fields (")
            } else {
                lit("missing required field ")
            };
            append_str(&mut m, name);
            if is_rot {
                append_str(&mut m, ")");
            }
            return Err(PlyError::MissingRequiredField(m));
        }
        k += 1;
    }
    Ok(())
}

// ---------- vertex record layout ----------

/// Byte offset of property `i` within a record: the sizes of the properties
/// before it, summed.
pub open spec fn prop_offset(props: Seq<(Seq<char>, ScalarTy)>, i: int) -> int
    decreases i,
{
    if i <= 0 {
        0
    } else {
        prop_offset(props, i - 1) + scalar_size(props[i - 1].1)
    }
}

/// Index of the first property named `name` at or after `i`.
pub open spec fn first_prop(props: Seq<(Seq<char>, ScalarTy)>, name: Seq<char>, i: int) -> Option<int>
    decreases props.len() - i,
{
    if i < 0 || i >= props.len() {
        None
    } else if props[i].0 == name {
        Some(i)
    } else {
        first_prop(props, name, i + 1)
    }
}

/// Location of one scalar field within a vertex record.
#[derive(Debug, Clone, Copy, PartialEq, Eq, Structural)]
pub struct FieldLoc {
    /// Byte offset within a single vertex record.
    pub offset: usize,
    /// Storage type on disk.
    pub ty: ScalarTy,
}

/// Where the first property named `name` sits (meaningful when it exists).
pub open spec fn loc(props: Seq<(Seq<char>, ScalarTy)>, name: Seq<char>) -> FieldLoc {
    let i = first_prop(props, name, 0)->0;
    FieldLoc { offset: prop_offset(props, i) as usize, ty: props[i].1 }
}

/// A name of the form `f_rest_*`.
pub open spec fn is_f_rest(name: Seq<char>) -> bool {
    starts_with(name, "f_rest_"@)
}

/// Locations of the `f_rest_*` properties among the first `n`, in order.
pub open spec fn f_rest_locs(props: Seq<(Seq<char>, ScalarTy)>, n: int) -> Seq<FieldLoc>
    decreases n,
{
    if n <= 0 {
        Seq::empty()
    } else if is_f_rest(props[n - 1].0) {
        f_rest_locs(props, n - 1).push(FieldLoc { offset: prop_offset(props, n - 1) as usize, ty: props[n - 1].1 })
    } else {
        f_rest_locs(props, n - 1)
    }
}

/// The fields the layout resolves, in the order it looks them up.
pub open spec fn layout_fields() -> Seq<Seq<char>> {
    seq![
        "x"@,
        "y"@,
        "z"@,
        "rot_0"@,
        "rot_1"@,
        "rot_2"@,
        "rot_3"@,
        "scale_0"@,
        "scale_1"@,
        "scale_2"@,
        "opacity"@,
        "f_dc_0"@,
        "f_dc_1"@,
        "f_dc_2"@,
    ]
}

/// The first layout field, from index `k` on, that is absent.
pub open spec fn first_unfound(props: Seq<(Seq<char>, ScalarTy)>, k: int) -> Option<Seq<char>>
    decreases layout_fields().len() - k,
{
    if k < 0 || k >= layout_fields().len() {
        None
    } else if first_prop(props, layout_fields()[k], 0) is None {
        Some(layout_fields()[k])
    } else {
        first_unfound(props, k + 1)
    }
}

/// Addressing table for an Inria vertex element.
#[derive(Debug, Clone)]
pub struct VertexLayout {
    /// Bytes per vertex record.
    pub stride: usize,
    /// x, y, z.
    pub pos: [FieldLoc; 3],
    /// rot_0 (w), rot_1 (x), rot_2 (y), rot_3 (z).
    pub rot: [FieldLoc; 4],
    /// scale_0..2 (log space).
    pub scale: [FieldLoc; 3],
    /// opacity (logit space).
    pub opacity: FieldLoc,
    /// f_dc_0..2.
    pub dc: [FieldLoc; 3],
    /// f_rest_* in property order.
    pub f_rest: Vec<FieldLoc>,
}

/// `l` is the layout of a vertex with properties `pm`.
pub open spec fn layout_of(pm: Seq<(Seq<char>, ScalarTy)>, l: VertexLayout) -> bool {
    &&& l.stride == prop_offset(pm, pm.len() as int)
    &&& l.pos@ == seq![loc(pm, "x"@), loc(pm, "y"@), loc(pm, "z"@)]
    &&& l.rot@ == seq![loc(pm, "rot_0"@), loc(pm, "rot_1"@), loc(pm, "rot_2"@), loc(pm, "rot_3"@)]
    &&& l.scale@ == seq![loc(pm, "scale_0"@), loc(pm, "scale_1"@), loc(pm, "scale_2"@)]
    &&& l.opacity == loc(pm, "opacity"@)
    &&& l.dc@ == seq![loc(pm, "f_dc_0"@), loc(pm, "f_dc_1"@), loc(pm, "f_dc_2"@)]
    &&& l.f_rest@ == f_rest_locs(pm, pm.len() as int)
}

proof fn lemma_prop_offset_bound(pm: Seq<(Seq<char>, ScalarTy)>, i: int)
    requires
        0 <= i,
    ensures
        0 <= prop_offset(pm, i) <= 8 * i,
    decreases i,
{
    if i > 0 {
        lemma_prop_offset_bound(pm, i - 1);
    }
}

proof fn lemma_prop_offset_mono(pm: Seq<(Seq<char>, ScalarTy)>, i: int, j: int)
    requires
        0 <= i <= j,
    ensures
        prop_offset(pm, i) <= prop_offset(pm, j),
    decreases j - i,
{
    if i < j {
        lemma_prop_offset_mono(pm, i, j - 1);
    }
}

fn find_loc(props: &Vec<Property>, offsets: &Vec<usize>, name: &str) -> (r: Option<FieldLoc>)
    requires
        offsets@.len() == props@.len(),
        forall|i: int| 0 <= i < offsets@.len() ==> #[trigger] offsets@[i] == prop_offset(props_model(props@), i),
    ensures
        match first_prop(props_model(props@), name@, 0) {
            None => r is None,
            Some(_) => r == Some(loc(props_model(props@), name@)),
        },
{
    let ghost pm = props_model(props@);
    let mut i: usize = 0;
    while i < props.len()
        invariant
            i <= props@.len(),
            pm == props_model(props@),
            offsets@.len() == props@.len(),
            forall|j: int| 0 <= j < offsets@.len() ==> #[trigger] offsets@[j] == prop_offset(pm, j),
            first_prop(pm, name@, 0) == first_prop(pm, name@, i as int),
        decreases props@.len() - i,
    {
        if str_eq(props[i].name.as_str(), name) {
            return Some(FieldLoc { offset: offsets[i], ty: props[i].ty });
        }
        i += 1;
    }
    None
}

fn name_is_f_rest(name: &str) -> (r: bool)
    ensures
        r == is_f_rest(name@),
{
    let cs = str_chars(name);
    let pre = str_chars("f_rest_");
    let r = has_prefix_at(&cs, 0, pre.as_slice());
    proof {
        assert(cs@.subrange(0, cs@.len() as int) =~= cs@);
    }
    r
}

impl VertexLayout {
    /// Resolves every field of the vertex element to its byte offset within
    /// a record; reports the first required field that is absent.
    pub fn build(vertex: &Element) -> (r: Result<VertexLayout, PlyError>)
        requires
            8 * vertex.properties@.len() <= usize::MAX,
        ensures
            match first_unfound(props_model(vertex.properties@), 0) {
                Some(name) => r matches Err(e) && fault_of(e) == PlyFault::MissingRequiredField(name),
                None => r matches Ok(l) && layout_of(props_model(vertex.properties@), l),
            },
    {
        let props = &vertex.properties;
        let ghost pm = props_model(props@);
        let mut offsets: Vec<usize> = Vec::new();
        let mut acc: usize = 0;
        let mut i: usize = 0;
        while i < props.len()
            invariant
                i <= props@.len(),
                8 * props@.len() <= usize::MAX,
                pm == props_model(props@),
                offsets@.len() == i,
                acc == prop_offset(pm, i as int),
                forall|j: int| 0 <= j < i ==> #[trigger] offsets@[j] == prop_offset(pm, j),
            decreases props@.len() - i,
        {
            proof {
                lemma_prop_offset_bound(pm, i + 1);
            }
            offsets.push(acc);
            acc = acc + props[i].ty.size();
            i += 1;
        }
        let stride = acc;
        let names: [&str; 14] = [
            "x",
            "y",
            "z",
            "rot_0",
            "rot_1",
            "rot_2",
            "rot_3",
            "scale_0",
            "scale_1",
            "scale_2",
            "opacity",
            "f_dc_0",
            "f_dc_1",
            "f_dc_2",
        ];
        proof {
            assert forall|k: int| 0 <= k < 14 implies (#[trigger] names@[k])@ == layout_fields()[k] by {}
        }
        let mut found: Vec<FieldLoc> = Vec::new();
        let mut k: usize = 0;
        while k < 14
            invariant
                k <= 14,
                pm == props_model(props@),
                pm == props_model(vertex.properties@),
                offsets@.len() == props@.len(),
                forall|j: int| 0 <= j < offsets@.len() ==> #[trigger] offsets@[j] == prop_offset(pm, j),
                forall|j: int| 0 <= j < 14 ==> (#[trigger] names@[j])@ == layout_fields()[j],
                first_unfound(pm, 0) == first_unfound(pm, k as int),
                found@.len() == k,
                forall|j: int| 0 <= j < k ==> #[trigger] found@[j] == loc(pm, layout_fields()[j]),
            decreases 14 - k,
        {
            match find_loc(props, &offsets, names[k]) {
                None => {
                    proof {
                        assert(names@[k as int]@ == layout_fields()[k as int]);
                        assert(first_prop(pm, layout_fields()[k as int], 0) is None);
                        assert(first_unfound(pm, k as int) == Some(layout_fields()[k as int]));
                    }
                    return Err(PlyError::MissingRequiredField(lit(names[k])));
                },
                Some(l) => {
                    found.push(l);
                },
            }
            k += 1;
        }
        let mut f_rest: Vec<FieldLoc> = Vec::new();
        let mut i: usize = 0;
        while i < props.len()
            invariant
                i <= props@.len(),
                pm == props_model(props@),
                offsets@.len() == props@.len(),
                forall|j: int| 0 <= j < offsets@.len() ==> #[trigger] offsets@[j] == prop_offset(pm, j),
                f_rest@ == f_rest_locs(pm, i as int),
            decreases props@.len() - i,
        {
            if name_is_f_rest(props[i].name.as_str()) {
                f_rest.push(FieldLoc { offset: offsets[i], ty: props[i].ty });
            }
            i += 1;
        }
        let l = VertexLayout {
            stride,
            pos: [found[0], found[1], found[2]],
            rot: [found[3], found[4], found[5], found[6]],
            scale: [found[7], found[8], found[9]],
            opacity: found[10],
            dc: [found[11], found[12], found[13]],
            f_rest,
        };
        proof {
            assert(l.pos@ =~= seq![loc(pm, "x"@), loc(pm, "y"@), loc(pm, "z"@)]);
            assert(l.rot@ =~= seq![loc(pm, "rot_0"@), loc(pm, "rot_1"@), loc(pm, "rot_2"@), loc(pm, "rot_3"@)]);
            assert(l.scale@ =~= seq![loc(pm, "scale_0"@), loc(pm, "scale_1"@), loc(pm, "scale_2"@)]);
            assert(l.dc@ =~= seq![loc(pm, "f_dc_0"@), loc(pm, "f_dc_1"@), loc(pm, "f_dc_2"@)]);
        }
        Ok(l)
    }
}

// ---------- planning the read ----------

/// SH degree implied by the number of `f_rest_*` fields: `(n / 3 + 1)`
/// coefficients per channel give degree 0, 1, 2 or 3 for 1, 4, 9 or 16,
/// and 0 otherwise.
pub open spec fn sh_degree_for(n_rest: nat) -> u8 {
    let total = n_rest / 3 + 1;
    if total == 4 {
        1
    } else if total == 9 {
        2
    } else if total == 16 {
        3
    } else {
        0
    }
}

/// The SH degree implied by `n_rest` `f_rest_*` fields.
pub fn sh_degree_for_rest(n_rest: usize) -> (r: u8)
    ensures
        r == sh_degree_for(n_rest as nat),
{
    let total = n_rest / 3 + 1;
    if total == 4 {
        1
    } else if total == 9 {
        2
    } else if total == 16 {
        3
    } else {
        0
    }
}

/// Where the records of a binary body sit and how to decode them.
#[derive(Debug, Clone)]
pub struct BinaryBody {
    /// Field addressing within a record.
    pub layout: VertexLayout,
    /// Number of records.
    pub count: usize,
    /// First byte of the first record.
    pub body_start: usize,
    /// One past the last byte of the last record.
    pub body_end: usize,
    /// SH degree of every splat with `f_rest_*` fields.
    pub sh_degree: u8,
    /// Coefficients per color channel (DC included).
    pub total_coeffs_per_channel: usize,
}

/// What is known about a PLY before its records are decoded.
#[derive(Debug)]
pub enum PlyPlan {
    /// Binary little-endian records, already bounds-checked.
    Binary { header: Header, vertex_idx: usize, body: BinaryBody },
    /// ASCII records, one per line after the header.
    Ascii { header: Header, vertex_idx: usize },
}

proof fn lemma_has_prop_found(props: Seq<(Seq<char>, ScalarTy)>, name: Seq<char>, i: int)
    requires
        0 <= i,
        exists|j: int| i <= j < props.len() && #[trigger] props[j].0 == name,
    ensures
        first_prop(props, name, i) is Some,
    decreases props.len() - i,
{
    if props[i].0 != name {
        assert(exists|j: int| i + 1 <= j < props.len() && #[trigger] props[j].0 == name);
        lemma_has_prop_found(props, name, i + 1);
    }
}

proof fn lemma_missing_none(props: Seq<(Seq<char>, ScalarTy)>, k: int)
    requires
        0 <= k <= 14,
        first_missing(props, k) is None,
    ensures
        forall|j: int| k <= j < 14 ==> has_prop(props, #[trigger] required_fields()[j]),
    decreases 14 - k,
{
    if k < 14 {
        lemma_missing_none(props, k + 1);
    }
}

proof fn lemma_required_found(props: Seq<(Seq<char>, ScalarTy)>)
    requires
        first_missing(props, 0) is None,
    ensures
        first_unfound(props, 0) is None,
{
    lemma_missing_none(props, 0);
    assert forall|k: int| 0 <= k < 14 implies first_prop(props, #[trigger] layout_fields()[k], 0) is Some by {
        let name = layout_fields()[k];
        let j = if k < 3 {
            k
        } else if k < 7 {
            k + 3
        } else if k < 10 {
            k - 4
        } else {
            k
        };
        assert(required_fields()[j] == name);
        assert(has_prop(props, name));
        lemma_has_prop_found(props, name, 0);
    }
    lemma_unfound_none(props, 0);
}

proof fn lemma_unfound_none(props: Seq<(Seq<char>, ScalarTy)>, k: int)
    requires
        0 <= k <= 14,
        forall|j: int| 0 <= j < 14 ==> first_prop(props, #[trigger] layout_fields()[j], 0) is Some,
    ensures
        first_unfound(props, k) is None,
    decreases 14 - k,
{
    if k < 14 {
        lemma_unfound_none(props, k + 1);
    }
}

/// Reads a PLY's header, finds its `vertex` element, checks the required
/// Gaussian-splat fields and, for a binary body, resolves the record layout
/// and checks that every declared record is present.
pub fn read_ply_layout(bytes: &[u8]) -> (r: Result<PlyPlan, PlyError>)
    ensures
        match header_of(bytes@) {
            Err(f) => r matches Err(e) && fault_of(e) == f,
            Ok(hm) => match vertex_index(hm.elements) {
                None => r matches Err(e) && fault_of(e) == PlyFault::MalformedHeader(
                    "no 'vertex' element"@,
                ),
                Some(i) => {
                    let v = hm.elements[i];
                    match first_missing(v.props, 0) {
                        Some(name) => r matches Err(e) && fault_of(e)
                            == PlyFault::MissingRequiredField(missing_message(name)),
                        None => match hm.format {
                            Format::Ascii => r matches Ok(PlyPlan::Ascii { header, vertex_idx })
                                && header_model(header) == hm && vertex_idx == i,
                            Format::BinaryLE => {
                                let stride = prop_offset(v.props, v.props.len() as int);
                                if hm.body_offset + stride * v.count > bytes@.len() {
                                    r matches Err(e) && fault_of(e) == PlyFault::TruncatedPayload
                                } else {
                                    r matches Ok(PlyPlan::Binary { header, vertex_idx, body })
                                        && header_model(header) == hm && vertex_idx == i
                                        && layout_of(v.props, body.layout) && body.count == v.count
                                        && body.body_start == hm.body_offset && body.body_end
                                        == hm.body_offset + stride * v.count
                                        && body.total_coeffs_per_channel == body.layout.f_rest@.len()
                                        / 3 + 1 && body.sh_degree == sh_degree_for(
                                        body.layout.f_rest@.len(),
                                    )
                                }
                            },
                        },
                    }
                },
            },
        },
{
    let header = match parse_header(bytes) {
        Ok(h) => h,
        Err(e) => {
            return Err(e);
        },
    };
    let ghost hm = header_model(header);
    let vertex_idx = match vertex_position(&header) {
        Ok(i) => i,
        Err(e) => {
            return Err(e);
        },
    };
    proof {
        lemma_first_named_bounds(hm.elements, "vertex"@, 0);
        assert(hm.elements.len() == header.elements@.len());
        assert(header.elements@.len() == header.elements.len());
        let k = vertex_index(hm.elements)->0;
        assert(k as usize == vertex_idx);
        assert(k == vertex_idx as int);
    }
    let vertex = &header.elements[vertex_idx];
    let ghost pm = props_model(vertex.properties@);
    proof {
        assert(hm.elements[vertex_idx as int] == element_model(*vertex));
    }
    match check_required(vertex) {
        Ok(()) => {},
        Err(e) => {
            return Err(e);
        },
    }
    match header.format {
        Format::Ascii => Ok(PlyPlan::Ascii { header, vertex_idx }),
        Format::BinaryLE => {
            proof {
                lemma_required_found(pm);
                assert(8 * vertex.properties@.len() <= bytes@.len());
                assert(bytes@.len() == bytes.len());
            }
            let layout = match VertexLayout::build(vertex) {
                Ok(l) => l,
                Err(e) => {
                    return Err(e);
                },
            };
            let stride = layout.stride;
            let count = vertex.count;
            let need = match stride.checked_mul(count) {
                Some(x) => x,
                None => {
                    proof {
                        assert(stride * count > usize::MAX);
                        assert(header.body_offset + stride * count > bytes@.len());
                    }
                    return Err(PlyError::TruncatedPayload);
                },
            };
            let body_end = match header.body_offset.checked_add(need) {
                Some(x) => x,
                None => {
                    return Err(PlyError::TruncatedPayload);
                },
            };
            if bytes.len() < body_end {
                return Err(PlyError::TruncatedPayload);
            }
            let rest = layout.f_rest.len();
            let sh_degree = sh_degree_for_rest(rest);
            let body_start = header.body_offset;
            let body = BinaryBody {
                layout,
                count,
                body_start,
                body_end,
                sh_degree,
                total_coeffs_per_channel: rest / 3 + 1,
            };
            Ok(PlyPlan::Binary { header, vertex_idx, body })
        },
    }
}

// ---------- writing ----------

/// The property names the writer declares, in order: position, normal,
/// DC color, the 45 `f_rest_*` coefficients, opacity, scale, rotation.
pub open spec fn writer_props() -> Seq<Seq<char>> {
    seq!["x"@, "y"@, "z"@, "nx"@, "ny"@, "nz"@, "f_dc_0"@, "f_dc_1"@, "f_dc_2"@] + Seq::new(
        45,
        |i: int| "f_rest_"@ + decimal(i as nat),
    ) + seq![
        "opacity"@,
        "scale_0"@,
        "scale_1"@,
        "scale_2"@,
        "rot_0"@,
        "rot_1"@,
        "rot_2"@,
        "rot_3"@,
    ]
}

/// `property float <name>\n` for each name, concatenated.
pub open spec fn property_lines(names: Seq<Seq<char>>) -> Seq<char>
    decreases names.len(),
{
    if names.len() == 0 {
        Seq::empty()
    } else {
        property_lines(names.drop_last()) + "property float "@ + names.last() + "\n"@
    }
}

/// The header the writer emits for `n` splats.
pub open spec fn writer_header(n: nat) -> Seq<char> {
    "ply\nformat binary_little_endian 1.0\nelement vertex "@ + decimal(n) + "\n"@ + property_lines(
        writer_props(),
    ) + "end_header\n"@
}

fn push_property(out: &mut String, name: &str)
    ensures
        final(out)@ == old(out)@ + "property float "@ + name@ + "\n"@,
{
    append_str(out, "property float ");
    append_str(out, name);
    append_str(out, "\n");
}

proof fn lemma_property_lines_push(names: Seq<Seq<char>>, x: Seq<char>)
    ensures
        property_lines(names.push(x)) == property_lines(names) + "property float "@ + x + "\n"@,
{
    assert(names.push(x).drop_last() == names);
}

/// The text header of a binary little-endian Inria-3DGS PLY with `n`
/// splats, every property a `float`.
pub fn write_ply_header(n: usize) -> (r: String)
    ensures
        r@ == writer_header(n as nat),
{
    let mut h = lit("ply\nformat binary_little_endian 1.0\nelement vertex ");
    push_decimal(&mut h, n as u64);
    append_str(&mut h, "\n");
    let ghost head = h@;
    let first: [&str; 9] = ["x", "y", "z", "nx", "ny", "nz", "f_dc_0", "f_dc_1", "f_dc_2"];
    let last: [&str; 8] = ["opacity", "scale_0", "scale_1", "scale_2", "rot_0", "rot_1", "rot_2", "rot_3"];
    let ghost names = writer_props();
    proof {
        assert forall|k: int| 0 <= k < 9 implies (#[trigger] first@[k])@ == names[k] by {}
        assert forall|k: int| 0 <= k < 8 implies (#[trigger] last@[k])@ == names[54 + k] by {}
    }
    let mut k: usize = 0;
    while k < 9
        invariant
            k <= 9,
            names == writer_props(),
            forall|j: int| 0 <= j < 9 ==> (#[trigger] first@[j])@ == names[j],
            h@ == head + property_lines(names.subrange(0, k as int)),
        decreases 9 - k,
    {
        push_property(&mut h, first[k]);
        proof {
            assert(names.subrange(0, k + 1) == names.subrange(0, k as int).push(names[k as int]));
            lemma_property_lines_push(names.subrange(0, k as int), names[k as int]);
        }
        k += 1;
    }
    let mut i: usize = 0;
    while i < 45
        invariant
            i <= 45,
            names == writer_props(),
            h@ == head + property_lines(names.subrange(0, 9 + i)),
        decreases 45 - i,
    {
        let mut nm = lit("f_rest_");
        push_decimal(&mut nm, i as u64);
        proof {
            assert(names[9 + i] == "f_rest_"@ + decimal(i as nat));
        }
        push_property(&mut h, nm.as_str());
        proof {
            assert(names.subrange(0, 9 + i + 1) == names.subrange(0, 9 + i).push(names[9 + i]));
            lemma_property_lines_push(names.subrange(0, 9 + i), names[9 + i]);
        }
        i += 1;
    }
    let mut k: usize = 0;
    while k < 8
        invariant
            k <= 8,
            names == writer_props(),
            forall|j: int| 0 <= j < 8 ==> (#[trigger] last@[j])@ == names[54 + j],
            h@ == head + property_lines(names.subrange(0, 54 + k)),
        decreases 8 - k,
    {
        push_property(&mut h, last[k]);
        proof {
            assert(names.subrange(0, 54 + k + 1) == names.subrange(0, 54 + k).push(names[54 + k]));
            lemma_property_lines_push(names.subrange(0, 54 + k), names[54 + k]);
        }
        k += 1;
    }
    append_str(&mut h, "end_header\n");
    proof {
        assert(names.subrange(0, 62) == names);
    }
    h
}

} // verus!
