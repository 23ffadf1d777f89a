//! Recognizing a splat file's format, from its name or from its first bytes.
use vstd::prelude::*;
use vstd::string::*;
use vstd::utf8::*;
use crate::text::{decode_utf8_chars, str_chars, str_eq, string_from_chars};

verus! {

broadcast use vstd::utf8::encode_utf8_decode_utf8;

// ---------- file name and extension (`/`-separated paths) ----------

/// Index of the last `/` in `p[..end]`, or -1.
pub open spec fn last_slash(p: Seq<char>, end: int) -> int
    decreases end,
{
    if end <= 0 {
        -1
    } else if p[end - 1] == '/' {
        end - 1
    } else {
        last_slash(p, end - 1)
    }
}

/// The range of the file name within `p[..end]`: the last `/`-separated
/// segment that is neither empty nor `.`; none when there is no such
/// segment or when it is `..`.
pub open spec fn name_range(p: Seq<char>, end: int) -> Option<(int, int)>
    decreases end,
{
    if end <= 0 {
        None
    } else {
        let s = last_slash(p, end) + 1;
        if end - s == 0 || (end - s == 1 && p[s] == '.') {
            if s == 0 {
                None
            } else {
                name_range(p, s - 1)
            }
        } else if end - s == 2 && p[s] == '.' && p[s + 1] == '.' {
            None
        } else {
            Some((s, end))
        }
    }
}

/// Index of the last `.` in `p[start..end]`, or -1.
pub open spec fn last_dot(p: Seq<char>, start: int, end: int) -> int
    decreases end - start,
{
    if end <= start {
        -1
    } else if p[end - 1] == '.' {
        end - 1
    } else {
        last_dot(p, start, end - 1)
    }
}

/// The extension of a path: what follows the last `.` of its file name,
/// when that `.` is not the name's first character.
pub open spec fn extension_of(p: Seq<char>) -> Option<Seq<char>> {
    match name_range(p, p.len() as int) {
        None => None,
        Some((s, e)) => {
            let k = last_dot(p, s, e);
            if k < 0 || k == s {
                None
            } else {
                Some(p.subrange(k + 1, e))
            }
        },
    }
}

/// ASCII lowercase of one character.
pub open spec fn ascii_lower(c: char) -> char {
    if 'A' <= c && c <= 'Z' {
        ((c as u32) + 32) as char
    } else {
        c
    }
}

/// ASCII lowercase of a string.
pub open spec fn ascii_lower_seq(s: Seq<char>) -> Seq<char> {
    Seq::new(s.len(), |i: int| ascii_lower(s[i]))
}

/// The format named by a lowercase extension.
pub open spec fn format_for_ext(e: Seq<char>) -> Option<Seq<char>> {
    if e == "ply"@ {
        Some("ply"@)
    } else if e == "spz"@ {
        Some("spz"@)
    } else if e == "gltf"@ {
        Some("gltf"@)
    } else if e == "glb"@ {
        Some("glb"@)
    } else if e == "usda"@ {
        Some("usda"@)
    } else if e == "usdc"@ {
        Some("usdc"@)
    } else {
        None
    }
}

/// The format a path's extension names (case-insensitively).
pub open spec fn format_of_path(p: Seq<char>) -> Option<Seq<char>> {
    match extension_of(p) {
        None => None,
        Some(e) => format_for_ext(ascii_lower_seq(e)),
    }
}

/// The view of an optional static string.
pub open spec fn opt_view(r: Option<&'static str>) -> Option<Seq<char>> {
    match r {
        Some(s) => Some(s@),
        None => None,
    }
}

fn slash_after(p: &Vec<char>, end: usize) -> (r: usize)
    requires
        end <= p@.len(),
    ensures
        r == last_slash(p@, end as int) + 1,
    decreases end,
{
    if end == 0 {
        0
    } else if p[end - 1] == '/' {
        end
    } else {
        slash_after(p, end - 1)
    }
}

proof fn lemma_last_slash_bounds(p: Seq<char>, end: int)
    ensures
        -1 <= last_slash(p, end) < end || (end <= 0 && last_slash(p, end) == -1),
    decreases end,
{
    if end > 0 && p[end - 1] != '/' {
        lemma_last_slash_bounds(p, end - 1);
    }
}

pub(crate) fn name_range_exec(p: &Vec<char>, end: usize) -> (r: Option<(usize, usize)>)
    requires
        end <= p@.len(),
    ensures
        match r {
            Some((s, e)) => name_range(p@, end as int) == Some((s as int, e as int)) && s <= e
                <= end,
            None => name_range(p@, end as int) is None,
        },
    decreases end,
{
    if end == 0 {
        return None;
    }
    proof {
        lemma_last_slash_bounds(p@, end as int);
    }
    let s = slash_after(p, end);
    if end - s == 0 || (end - s == 1 && p[s] == '.') {
        if s == 0 {
            None
        } else {
            name_range_exec(p, s - 1)
        }
    } else if end - s == 2 && p[s] == '.' && p[s + 1] == '.' {
        None
    } else {
        Some((s, end))
    }
}

pub(crate) fn dot_after(p: &Vec<char>, start: usize, end: usize) -> (r: usize)
    requires
        start <= end <= p@.len(),
    ensures
        r == last_dot(p@, start as int, end as int) + 1,
        r == 0 || start < r <= end,
    decreases end - start,
{
    if end <= start {
        0
    } else if p[end - 1] == '.' {
        end
    } else {
        dot_after(p, start, end - 1)
    }
}

fn lower_chars(s: &[char]) -> (r: Vec<char>)
    ensures
        r@ == ascii_lower_seq(s@),
{
    let mut out: Vec<char> = Vec::new();
    let mut i: usize = 0;
    while i < s.len()
        invariant
            i <= s@.len(),
            out@ == ascii_lower_seq(s@.subrange(0, i as int)),
        decreases s@.len() - i,
    {
        let c = s[i];
        let l = if 'A' <= c && c <= 'Z' {
            ((c as u8) + 32u8) as char
        } else {
            c
        };
        out.push(l);
        assert(out@ =~= ascii_lower_seq(s@.subrange(0, i + 1)));
        i += 1;
    }
    assert(s@.subrange(0, s@.len() as int) == s@);
    out
}

/// The format a lowercase extension names.
fn format_for_ext_exec(e: &str) -> (r: Option<&'static str>)
    ensures
        opt_view(r) == format_for_ext(e@),
{
    if str_eq(e, "ply") {
        Some("ply")
    } else if str_eq(e, "spz") {
        Some("spz")
    } else if str_eq(e, "gltf") {
        Some("gltf")
    } else if str_eq(e, "glb") {
        Some("glb")
    } else if str_eq(e, "usda") {
        Some("usda")
    } else if str_eq(e, "usdc") {
        Some("usdc")
    } else {
        None
    }
}

/// Detects a supported splat format from a path's extension, ignoring
/// case: one of `"ply"`, `"spz"`, `"gltf"`, `"glb"`, `"usda"`, `"usdc"`, or
/// `None` when the extension is missing or unrecognized.
pub fn format_from_extension(path: &str) -> (r: Option<&'static str>)
    ensures
        opt_view(r) == format_of_path(path@),
{
    let p = str_chars(path);
    match name_range_exec(&p, p.len()) {
        None => None,
        Some((s, e)) => {
            let k1 = dot_after(&p, s, e);
            if k1 == 0 || k1 == s + 1 {
                None
            } else {
                let ku = k1 - 1;
                let mut ext: Vec<char> = Vec::new();
                let mut i: usize = ku + 1;
                while i < e
                    invariant
                        ku + 1 <= i <= e <= p@.len(),
                        ext@ == p@.subrange(ku + 1, i as int),
                    decreases e - i,
                {
                    ext.push(p[i]);
                    assert(ext@ =~= p@.subrange(ku + 1, i + 1));
                    i += 1;
                }
                let lowered = lower_chars(ext.as_slice());
                let ls = string_from_chars(lowered.as_slice());
                format_for_ext_exec(ls.as_str())
            }
        },
    }
}

// ---------- magic bytes ----------

/// Rust's `char::is_whitespace`: the Unicode `White_Space` property.
pub open spec fn is_unicode_whitespace(c: char) -> bool {
    ||| ('\u{9}' <= c && c <= '\u{d}')
    ||| c == ' '
    ||| c == '\u{85}'
    ||| c == '\u{a0}'
    ||| c == '\u{1680}'
    ||| ('\u{2000}' <= c && c <= '\u{200a}')
    ||| c == '\u{2028}'
    ||| c == '\u{2029}'
    ||| c == '\u{202f}'
    ||| c == '\u{205f}'
    ||| c == '\u{3000}'
}

/// `char::is_whitespace`.
pub fn is_whitespace(c: char) -> (r: bool)
    ensures
        r == is_unicode_whitespace(c),
{
    ('\u{9}' <= c && c <= '\u{d}') || c == ' ' || c == '\u{85}' || c == '\u{a0}' || c == '\u{1680}'
        || ('\u{2000}' <= c && c <= '\u{200a}') || c == '\u{2028}' || c == '\u{2029}' || c
        == '\u{202f}' || c == '\u{205f}' || c == '\u{3000}'
}

/// Index of the first non-whitespace character at or after `i`.
pub open spec fn skip_ws(cs: Seq<char>, i: int) -> int
    decreases cs.len() - i,
{
    if 0 <= i < cs.len() && is_unicode_whitespace(cs[i]) {
        skip_ws(cs, i + 1)
    } else {
        i
    }
}

/// `s` begins with `pre`.
pub open spec fn starts_with(s: Seq<char>, pre: Seq<char>) -> bool {
    pre.len() <= s.len() && s.subrange(0, pre.len() as int) == pre
}

/// `needle` occurs somewhere in `s`.
pub open spec fn contains_seq(s: Seq<char>, needle: Seq<char>) -> bool {
    exists|i: int| 0 <= i && i + needle.len() <= s.len() && #[trigger] s.subrange(i, i + needle.len()) == needle
}

/// The text of the first (at most) 64 bytes, or nothing when those bytes are
/// not well-formed UTF-8.
pub open spec fn head_text(b: Seq<u8>) -> Seq<char> {
    let h = b.subrange(0, if b.len() < 64 { b.len() as int } else { 64 });
    if valid_utf8(h) {
        decode_utf8(h)
    } else {
        Seq::empty()
    }
}

/// The format the first bytes of a file announce.
pub open spec fn format_of_magic(b: Seq<u8>) -> Option<Seq<char>> {
    if b.len() < 4 {
        None
    } else if b.subrange(0, 4) == seq![0x67u8, 0x6Cu8, 0x54u8, 0x46u8] {
        Some("glb"@)
    } else if b.subrange(0, 4) == seq![0x70u8, 0x6Cu8, 0x79u8, 0x0Au8] || b.subrange(0, 4) == seq![
        0x70u8,
        0x6Cu8,
        0x79u8,
        0x0Du8,
    ] {
        Some("ply"@)
    } else if b.subrange(0, 4) == seq![0x47u8, 0x4Eu8, 0x53u8, 0x50u8] {
        Some("spz"@)
    } else if b.len() >= 8 && b.subrange(0, 8) == seq![
        0x50u8,
        0x58u8,
        0x52u8,
        0x2Du8,
        0x55u8,
        0x53u8,
        0x44u8,
        0x43u8,
    ] {
        Some("usdc"@)
    } else {
        let t = head_text(b);
        let rest = t.subrange(skip_ws(t, 0), t.len() as int);
        if starts_with(rest, seq!['#', 'u', 's', 'd', 'a']) {
            Some("usda"@)
        } else if starts_with(rest, seq!['{']) && contains_seq(
            t,
            seq!['"', 'a', 's', 's', 'e', 't', '"'],
        ) {
            Some("gltf"@)
        } else {
            None
        }
    }
}

fn skip_ws_exec(cs: &Vec<char>) -> (r: usize)
    ensures
        r == skip_ws(cs@, 0),
        r <= cs@.len(),
{
    let mut i: usize = 0;
    while i < cs.len() && is_whitespace(cs[i])
        invariant
            i <= cs@.len(),
            skip_ws(cs@, i as int) == skip_ws(cs@, 0),
        decreases cs@.len() - i,
    {
        i += 1;
    }
    i
}

/// True exactly when `cs[at..]` begins with `pre`.
pub fn has_prefix_at(cs: &Vec<char>, at: usize, pre: &[char]) -> (r: bool)
    requires
        at <= cs@.len(),
    ensures
        r == starts_with(cs@.subrange(at as int, cs@.len() as int), pre@),
{
    if cs.len() - at < pre.len() {
        return false;
    }
    let mut j: usize = 0;
    assert(cs@.len() == cs.len());
    while j < pre.len()
        invariant
            cs@.len() == cs.len(),
            at + pre@.len() <= cs@.len(),
            j <= pre@.len(),
            forall|k: int| 0 <= k < j ==> cs@[at + k] == pre@[k],
        decreases pre@.len() - j,
    {
        if cs[at + j] != pre[j] {
            proof {
                let rest = cs@.subrange(at as int, cs@.len() as int);
                assert(rest.subrange(0, pre@.len() as int)[j as int] != pre@[j as int]);
            }
            return false;
        }
        j += 1;
    }
    proof {
        let rest = cs@.subrange(at as int, cs@.len() as int);
        assert(rest.subrange(0, pre@.len() as int) =~= pre@);
    }
    true
}

fn contains_chars(cs: &Vec<char>, needle: &[char]) -> (r: bool)
    ensures
        r == contains_seq(cs@, needle@),
{
    if needle.len() > cs.len() {
        return false;
    }
    let last = cs.len() - needle.len();
    let mut i: usize = 0;
    while i <= last
        invariant
            last + needle@.len() == cs@.len(),
            i <= last + 1,
            forall|k: int|
                0 <= k < i ==> #[trigger] cs@.subrange(k, k + needle@.len()) != needle@,
        decreases last + 1 - i,
    {
        if has_prefix_at(cs, i, needle) {
            proof {
                let rest = cs@.subrange(i as int, cs@.len() as int);
                assert(rest.subrange(0, needle@.len() as int) =~= cs@.subrange(
                    i as int,
                    i + needle@.len(),
                ));
            }
            return true;
        }
        proof {
            let rest = cs@.subrange(i as int, cs@.len() as int);
            assert(rest.subrange(0, needle@.len() as int) =~= cs@.subrange(
                i as int,
                i + needle@.len(),
            ));
        }
        if i == last {
            return false;
        }
        i += 1;
    }
    false
}

/// Detects a supported splat format by sniffing the first bytes of a file:
/// `glTF` (GLB), `ply\n` or `ply\r` (PLY), the SPZ magic, `PXR-USDC`,
/// text starting with `#usda` after leading whitespace, or a JSON object
/// whose first 64 bytes mention `"asset"` (glTF).
pub fn format_from_magic(bytes: &[u8]) -> (r: Option<&'static str>)
    ensures
        opt_view(r) == format_of_magic(bytes@),
{
    if bytes.len() < 4 {
        return None;
    }
    let b0 = bytes[0];
    let b1 = bytes[1];
    let b2 = bytes[2];
    let b3 = bytes[3];
    proof {
        assert(bytes@.subrange(0, 4) =~= seq![b0, b1, b2, b3]);
    }
    if b0 == 0x67u8 && b1 == 0x6Cu8 && b2 == 0x54u8 && b3 == 0x46u8 {
        return Some("glb");
    }
    if b0 == 0x70u8 && b1 == 0x6Cu8 && b2 == 0x79u8 && (b3 == 0x0Au8 || b3 == 0x0Du8) {
        return Some("ply");
    }
    if b0 == 0x47u8 && b1 == 0x4Eu8 && b2 == 0x53u8 && b3 == 0x50u8 {
        return Some("spz");
    }
    if bytes.len() >= 8 {
        let u = [0x50u8, 0x58u8, 0x52u8, 0x2Du8, 0x55u8, 0x53u8, 0x44u8, 0x43u8];
        let mut same = true;
        let mut j: usize = 0;
        while j < 8
            invariant
                j <= 8,
                bytes@.len() >= 8,
                same == (forall|k: int| 0 <= k < j ==> bytes@[k] == u@[k]),
            decreases 8 - j,
        {
            if bytes[j] != u[j] {
                same = false;
            }
            j += 1;
        }
        proof {
            if same {
                assert(bytes@.subrange(0, 8) =~= u@);
            } else {
                assert(bytes@.subrange(0, 8) != u@) by {
                    let k = choose|k: int| 0 <= k < 8 && bytes@[k] != u@[k];
                    assert(bytes@.subrange(0, 8)[k] != u@[k]);
                }
            }
            assert(u@ =~= seq![0x50u8, 0x58u8, 0x52u8, 0x2Du8, 0x55u8, 0x53u8, 0x44u8, 0x43u8]);
        }
        if same {
            return Some("usdc");
        }
    }
    let n = if bytes.len() < 64 {
        bytes.len()
    } else {
        64
    };
    let head = &bytes[0..n];
    let cs = match decode_utf8_chars(head) {
        Some(cs) => cs,
        None => Vec::new(),
    };
    proof {
        assert(cs@ == head_text(bytes@));
    }
    let start = skip_ws_exec(&cs);
    let usda = ['#', 'u', 's', 'd', 'a'];
    proof {
        assert(usda@ =~= seq!['#', 'u', 's', 'd', 'a']);
    }
    if has_prefix_at(&cs, start, &usda) {
        return Some("usda");
    }
    let brace = ['{'];
    let asset = ['"', 'a', 's', 's', 'e', 't', '"'];
    proof {
        assert(brace@ =~= seq!['{']);
        assert(asset@ =~= seq!['"', 'a', 's', 's', 'e', 't', '"']);
    }
    if has_prefix_at(&cs, start, &brace) && contains_chars(&cs, &asset) {
        return Some("gltf");
    }
    None
}


/// The format names a path can map to.
pub open spec fn known_format(f: Seq<char>) -> bool {
    f == "ply"@ || f == "spz"@ || f == "gltf"@ || f == "glb"@ || f == "usda"@ || f == "usdc"@
}

/// A path maps to one of the known format names or to none, and it maps
/// to `f` exactly when its extension, ASCII-lower-cased, is the known
/// format name `f`.
pub proof fn lemma_format_of_path(p: Seq<char>, f: Seq<char>)
    ensures
        format_of_path(p) matches Some(g) ==> known_format(g),
        (format_of_path(p) == Some(f)) <==> (extension_of(p) matches Some(e) && ascii_lower_seq(e) == f
            && known_format(f)),
{
}
} // verus!
