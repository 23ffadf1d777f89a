//! Reading back what the PLY writer writes: the header `write_ply_header`
//! emits parses, with any body after it, to one `vertex` element of the
//! written count holding the writer's float properties in order.
use vstd::prelude::*;
use vstd::utf8::*;
use crate::detect::is_unicode_whitespace;
use crate::ply::{
    line_end, line_text, trim_end, trimmed_len, split_ws, words_from, word_end, ws_end, header_lines,
    header_of, header_step, HeaderState, HeaderModel, ElementModel, Format, ScalarTy, PlyFault,
    writer_props, property_lines, writer_header, parse_usize, digits_value, all_digits, scalar_ty_of,
    vertex_index, first_missing, has_prop, required_fields, prop_offset, scalar_size, loc, first_prop,
};
use crate::text::{decimal, digit_char};
use crate::detect::format_of_magic;
use crate::spz::{spz_header_bytes, SpzHeader};

verus! {

/// Every character is ASCII.
pub open spec fn ascii(s: Seq<char>) -> bool {
    forall|i: int| 0 <= i < s.len() ==> (#[trigger] s[i] as u32) < 128
}

/// The one-byte encodings of ASCII characters.
pub open spec fn ascii_bytes(s: Seq<char>) -> Seq<u8> {
    Seq::new(s.len(), |i: int| (s[i] as u32) as u8)
}

/// UTF-8 encoding distributes over concatenation.
pub proof fn lemma_encode_concat(a: Seq<char>, b: Seq<char>)
    ensures
        encode_utf8(a + b) == encode_utf8(a) + encode_utf8(b),
    decreases a.len(),
{
    if a.len() == 0 {
        assert(a + b =~= b);
        assert(encode_utf8(a) =~= Seq::<u8>::empty());
        assert(encode_utf8(a) + encode_utf8(b) =~= encode_utf8(b));
    } else {
        assert((a + b)[0] == a[0]);
        assert((a + b).drop_first() =~= a.drop_first() + b);
        lemma_encode_concat(a.drop_first(), b);
        assert(encode_utf8(a) + encode_utf8(b) =~= encode_scalar(a[0] as u32) + (encode_utf8(a.drop_first())
            + encode_utf8(b)));
    }
}

/// ASCII text encodes to one byte per character, the character's code.
pub proof fn lemma_encode_ascii(s: Seq<char>)
    requires
        ascii(s),
    ensures
        encode_utf8(s) == ascii_bytes(s),
    decreases s.len(),
{
    if s.len() == 0 {
        assert(encode_utf8(s) =~= ascii_bytes(s));
    } else {
        let c = s[0] as u32;
        assert(c < 128);
        assert((c & 0x7F) as u8 == c as u8) by (bit_vector)
            requires
                c < 128,
        ;
        let rest = s.drop_first();
        assert forall|i: int| 0 <= i < rest.len() implies (#[trigger] rest[i] as u32) < 128 by {
            assert(rest[i] == s[i + 1]);
        }
        lemma_encode_ascii(rest);
        assert(encode_utf8(s) =~= ascii_bytes(s));
    }
}

/// An ASCII line whose only newline is its last character.
pub open spec fn good_line(l: Seq<char>) -> bool {
    &&& ascii(l)
    &&& l.len() > 0
    &&& l.last() == '\n'
    &&& forall|j: int| 0 <= j < l.len() - 1 ==> l[j] != '\n'
}

/// Scanning for a newline skips bytes that are not one.
proof fn lemma_line_end_scan(b: Seq<u8>, pos: int, k: int)
    requires
        0 <= pos <= k < b.len(),
        forall|j: int| pos <= j < k ==> b[j] != 10u8,
    ensures
        line_end(b, pos) == line_end(b, k),
    decreases k - pos,
{
    if pos < k {
        lemma_line_end_scan(b, pos + 1, k);
    }
}

/// A line stored at `pos` ends where its newline is and reads back as
/// itself.
pub proof fn lemma_line_step(b: Seq<u8>, pos: int, l: Seq<char>, rest: Seq<u8>)
    requires
        0 <= pos <= b.len(),
        b.subrange(pos, b.len() as int) == encode_utf8(l) + rest,
        good_line(l),
    ensures
        pos + l.len() <= b.len(),
        line_end(b, pos) == pos + l.len(),
        line_text(b, pos) == Some(l),
        b.subrange(pos + l.len(), b.len() as int) == rest,
{
    broadcast use encode_utf8_valid_utf8, encode_utf8_decode_utf8, char_u32_cast;

    lemma_encode_ascii(l);
    let n = l.len() as int;
    let tail = b.subrange(pos, b.len() as int);
    assert(tail.len() == n + rest.len());
    assert forall|j: int| 0 <= j < n implies #[trigger] b[pos + j] == (l[j] as u32) as u8 by {
        assert(b[pos + j] == tail[j]);
        assert(tail[j] == ascii_bytes(l)[j]);
    }
    assert forall|j: int| pos <= j < pos + n - 1 implies b[j] != 10u8 by {
        let c = l[j - pos];
        assert(b[pos + (j - pos)] == (c as u32) as u8);
        assert((c as u32) < 128);
        if (c as u32) == 10 {
            char_u32_cast(c, 10u32);
            char_u32_cast('\n', 10u32);
            assert(c == '\n');
        }
    }
    assert(b[pos + n - 1] == 10u8) by {
        assert(b[pos + (n - 1)] == (l[n - 1] as u32) as u8);
        assert(l[n - 1] == '\n');
    }
    lemma_line_end_scan(b, pos, pos + n - 1);
    assert(line_end(b, pos + n - 1) == pos + n);
    assert(b.subrange(pos, pos + n) =~= encode_utf8(l));
    assert forall|k: int| 0 <= k < rest.len() implies #[trigger] b.subrange(pos + n, b.len() as int)[k] == rest[k] by {
        assert(b[pos + n + k] == tail[n + k]);
        assert(tail[n + k] == (encode_utf8(l) + rest)[n + k]);
    }
    assert(b.subrange(pos + n, b.len() as int) =~= rest);
}

/// No character is whitespace.
pub open spec fn no_ws(s: Seq<char>) -> bool {
    forall|j: int| 0 <= j < s.len() ==> !is_unicode_whitespace(#[trigger] s[j])
}

/// A run of `k` non-whitespace characters from `i`, followed by
/// whitespace or the end, is one word.
proof fn lemma_word_end_run(cs: Seq<char>, i: int, k: int)
    requires
        0 <= i,
        0 <= k,
        i + k <= cs.len(),
        forall|j: int| i <= j < i + k ==> !is_unicode_whitespace(#[trigger] cs[j]),
        i + k == cs.len() || is_unicode_whitespace(cs[i + k]),
    ensures
        word_end(cs, i) == i + k,
    decreases k,
{
    if k > 0 {
        lemma_word_end_run(cs, i + 1, k - 1);
    }
}

/// A run of `k` whitespace characters from `i`, followed by a
/// non-whitespace character or the end, is skipped whole.
proof fn lemma_ws_end_run(cs: Seq<char>, i: int, k: int)
    requires
        0 <= i,
        0 <= k,
        i + k <= cs.len(),
        forall|j: int| i <= j < i + k ==> is_unicode_whitespace(#[trigger] cs[j]),
        i + k == cs.len() || !is_unicode_whitespace(cs[i + k]),
    ensures
        ws_end(cs, i) == i + k,
    decreases k,
{
    if k > 0 {
        lemma_ws_end_run(cs, i + 1, k - 1);
    }
}

/// `a b c\n` splits into its three words.
pub proof fn lemma_split3(a: Seq<char>, b: Seq<char>, c: Seq<char>)
    requires
        a.len() > 0,
        b.len() > 0,
        c.len() > 0,
        no_ws(a),
        no_ws(b),
        no_ws(c),
    ensures
        split_ws(a + seq![' '] + b + seq![' '] + c + seq!['\n']) == seq![a, b, c],
{
    let cs = a + seq![' '] + b + seq![' '] + c + seq!['\n'];
    let la = a.len() as int;
    let lb = b.len() as int;
    let lc = c.len() as int;
    let n = cs.len() as int;
    assert(n == la + lb + lc + 3);
    assert forall|j: int| 0 <= j < la implies !is_unicode_whitespace(#[trigger] cs[j]) by {
        assert(cs[j] == a[j]);
    }
    assert forall|j: int| la + 1 <= j < la + 1 + lb implies !is_unicode_whitespace(#[trigger] cs[j]) by {
        assert(cs[j] == b[j - la - 1]);
    }
    assert forall|j: int| la + lb + 2 <= j < la + lb + 2 + lc implies !is_unicode_whitespace(#[trigger] cs[j]) by {
        assert(cs[j] == c[j - la - lb - 2]);
    }
    assert(cs[la] == ' ');
    assert(cs[la + 1 + lb] == ' ');
    assert(cs[n - 1] == '\n');
    lemma_ws_end_run(cs, 0, 0);
    lemma_word_end_run(cs, 0, la);
    lemma_ws_end_run(cs, la, 1);
    lemma_word_end_run(cs, la + 1, lb);
    lemma_ws_end_run(cs, la + 1 + lb, 1);
    lemma_word_end_run(cs, la + lb + 2, lc);
    lemma_ws_end_run(cs, n - 1, 1);
    assert(words_from(cs, n - 1) == Seq::<Seq<char>>::empty());
    assert(cs.subrange(la + lb + 2, la + lb + 2 + lc) =~= c);
    assert(words_from(cs, la + lb + 2 - 1) == seq![c] + words_from(cs, n - 1));
    assert(cs.subrange(la + 1, la + 1 + lb) =~= b);
    assert(words_from(cs, la) == seq![b] + words_from(cs, la + 1 + lb));
    assert(cs.subrange(0, la) =~= a);
    assert(words_from(cs, 0) == seq![a] + words_from(cs, la));
    assert(split_ws(cs) =~= seq![a, b, c]);
}

/// `w` followed by a newline trims back to `w` when `w` ends in a
/// non-whitespace character.
pub proof fn lemma_trim_newline(w: Seq<char>)
    requires
        w.len() > 0,
        !is_unicode_whitespace(w.last()),
    ensures
        trim_end(w + seq!['\n']) == w,
{
    let cs = w + seq!['\n'];
    let n = cs.len() as int;
    assert(cs[n - 1] == '\n');
    assert(cs[n - 2] == w.last());
    assert(trimmed_len(cs, n - 1) == n - 1);
    assert(trimmed_len(cs, n) == n - 1);
    assert(cs.subrange(0, n - 1) =~= w);
}

/// The decimal digits of `n`: at least one, all ASCII digits, reading back
/// as `n`.
pub proof fn lemma_decimal_digits(n: nat)
    ensures
        decimal(n).len() > 0,
        all_digits(decimal(n)),
        ascii(decimal(n)),
        no_ws(decimal(n)),
        digits_value(decimal(n)) == n,
    decreases n,
{
    let d = decimal(n);
    let c = digit_char(n);
    assert(48 <= (n % 10) + 48 < 58);
    assert((c as nat) == (n % 10) + 48);
    if n < 10 {
        assert(d == seq![c]);
        assert(d.drop_last() =~= Seq::<char>::empty());
        assert(digits_value(d.drop_last()) == 0);
    } else {
        lemma_decimal_digits(n / 10);
        let p = decimal(n / 10);
        assert(d == p.push(c));
        assert(d.drop_last() =~= p);
        assert forall|i: int| 0 <= i < d.len() implies '0' <= #[trigger] d[i] && d[i] <= '9' by {
            if i < p.len() {
                assert(d[i] == p[i]);
            }
        }
        assert forall|i: int| 0 <= i < d.len() implies (#[trigger] d[i] as u32) < 128 by {
            if i < p.len() {
                assert(d[i] == p[i]);
            }
        }
        assert(n == 10 * (n / 10) + n % 10);
    }
    assert forall|i: int| 0 <= i < d.len() implies !is_unicode_whitespace(#[trigger] d[i]) by {
        assert('0' <= d[i] && d[i] <= '9');
    }
}

/// The line the writer emits for property `name`.
pub open spec fn prop_line(name: Seq<char>) -> Seq<char> {
    "property float "@ + name + "\n"@
}

/// The property lines, read from the front.
pub proof fn lemma_property_lines_front(names: Seq<Seq<char>>)
    requires
        names.len() > 0,
    ensures
        property_lines(names) == prop_line(names[0]) + property_lines(names.drop_first()),
    decreases names.len(),
{
    if names.len() == 1 {
        assert(names.drop_last() =~= Seq::<Seq<char>>::empty());
        assert(names.drop_first() =~= Seq::<Seq<char>>::empty());
        assert(property_lines(names.drop_first()) == Seq::<char>::empty());
        assert(property_lines(names.drop_last()) == Seq::<char>::empty());
        assert(property_lines(names) =~= prop_line(names[0]));
    } else {
        let init = names.drop_last();
        lemma_property_lines_front(init);
        assert(init[0] == names[0]);
        assert(init.drop_first() =~= names.drop_first().drop_last());
        assert(names.drop_first().last() == names.last());
        assert(property_lines(names) =~= prop_line(names[0]) + property_lines(names.drop_first()));
    }
}

/// A property name the writer can declare: non-empty ASCII without
/// whitespace.
pub open spec fn good_name(name: Seq<char>) -> bool {
    name.len() > 0 && ascii(name) && no_ws(name)
}

/// A property line splits into `property`, `float` and the name, and
/// trims to something other than `end_header`.
pub proof fn lemma_prop_line(name: Seq<char>)
    requires
        good_name(name),
    ensures
        good_line(prop_line(name)),
        split_ws(prop_line(name)) == seq!["property"@, "float"@, name],
        trim_end(prop_line(name)) != "end_header"@,
{
    reveal_strlit("property float ");
    reveal_strlit("property");
    reveal_strlit("float");
    reveal_strlit("\n");
    reveal_strlit("end_header");
    let l = prop_line(name);
    assert(l =~= "property"@ + seq![' '] + "float"@ + seq![' '] + name + seq!['\n']);
    assert(no_ws("property"@));
    assert(no_ws("float"@));
    lemma_split3("property"@, "float"@, name);
    assert(l =~= ("property float "@ + name) + seq!['\n']);
    let w = "property float "@ + name;
    assert(w.last() == name.last());
    lemma_trim_newline(w);
    assert(trim_end(l).len() != "end_header"@.len());
    assert forall|i: int| 0 <= i < l.len() implies (#[trigger] l[i] as u32) < 128 by {
        if 15 <= i < 15 + name.len() {
            assert(l[i] == name[i - 15]);
        }
    }
    assert forall|j: int| 0 <= j < l.len() - 1 implies l[j] != '\n' by {
        if 15 <= j < 15 + name.len() {
            assert(l[j] == name[j - 15]);
            assert(!is_unicode_whitespace(name[j - 15]));
        }
    }
}

/// Every name the writer declares is a good name.
pub proof fn lemma_writer_names()
    ensures
        forall|i: int| 0 <= i < writer_props().len() ==> good_name(#[trigger] writer_props()[i]),
{
    reveal_strlit("x");
    reveal_strlit("y");
    reveal_strlit("z");
    reveal_strlit("nx");
    reveal_strlit("ny");
    reveal_strlit("nz");
    reveal_strlit("f_dc_0");
    reveal_strlit("f_dc_1");
    reveal_strlit("f_dc_2");
    reveal_strlit("f_rest_");
    reveal_strlit("opacity");
    reveal_strlit("scale_0");
    reveal_strlit("scale_1");
    reveal_strlit("scale_2");
    reveal_strlit("rot_0");
    reveal_strlit("rot_1");
    reveal_strlit("rot_2");
    reveal_strlit("rot_3");
    let ps = writer_props();
    assert forall|i: int| 0 <= i < ps.len() implies good_name(#[trigger] ps[i]) by {
        if 9 <= i < 54 {
            let k = (i - 9) as nat;
            lemma_decimal_digits(k);
            let nm = "f_rest_"@ + decimal(k);
            assert(ps[i] == nm);
            assert forall|j: int| 0 <= j < nm.len() implies (#[trigger] nm[j] as u32) < 128 by {
                if j >= 7 {
                    assert(nm[j] == decimal(k)[j - 7]);
                }
            }
            assert forall|j: int| 0 <= j < nm.len() implies !is_unicode_whitespace(#[trigger] nm[j]) by {
                if j >= 7 {
                    assert(nm[j] == decimal(k)[j - 7]);
                }
            }
        }
    }
}

/// Each name declared as a `float` property.
pub open spec fn float_props(names: Seq<Seq<char>>) -> Seq<(Seq<char>, ScalarTy)> {
    names.map_values(|nm: Seq<char>| (nm, ScalarTy::F32))
}

/// The parse state inside the writer's `vertex` element of `n` splats,
/// with `props` declared so far.
pub open spec fn vertex_state(n: usize, props: Seq<(Seq<char>, ScalarTy)>) -> HeaderState {
    HeaderState {
        format: Some(Format::BinaryLE),
        elements: Seq::empty(),
        current: Some(ElementModel { name: "vertex"@, count: n, props }),
    }
}

/// The header model of a single `vertex` element with the given
/// properties, whose body starts at `offset`.
pub open spec fn vertex_header(n: usize, props: Seq<(Seq<char>, ScalarTy)>, offset: int) -> HeaderModel {
    HeaderModel {
        format: Format::BinaryLE,
        elements: seq![ElementModel { name: "vertex"@, count: n, props }],
        body_offset: offset,
    }
}

/// Reading the writer's property lines and `end_header` declares each
/// name as a float property, in order, and ends the header there.
proof fn lemma_props_parse(
    b: Seq<u8>,
    pos: int,
    names: Seq<Seq<char>>,
    n: usize,
    done: Seq<(Seq<char>, ScalarTy)>,
    body: Seq<u8>,
)
    requires
        0 <= pos <= b.len(),
        b.subrange(pos, b.len() as int) == encode_utf8(property_lines(names) + "end_header\n"@) + body,
        forall|i: int| 0 <= i < names.len() ==> good_name(#[trigger] names[i]),
    ensures
        header_lines(b, pos, vertex_state(n, done)) == Ok::<HeaderModel, PlyFault>(
            vertex_header(n, done + float_props(names), b.len() - body.len()),
        ),
    decreases names.len(),
{
    reveal_strlit("end_header\n");
    reveal_strlit("end_header");
    reveal_strlit("format");
    reveal_strlit("comment");
    reveal_strlit("element");
    reveal_strlit("property");
    reveal_strlit("list");
    reveal_strlit("float");
    if names.len() == 0 {
        let l = "end_header\n"@;
        assert(property_lines(names) == Seq::<char>::empty());
        assert(property_lines(names) + l =~= l);
        assert(l =~= "end_header"@ + seq!['\n']);
        assert(good_line(l));
        lemma_line_step(b, pos, l, body);
        lemma_trim_newline("end_header"@);
        assert(done + float_props(names) =~= done);
    } else {
        let n0 = names[0];
        let rest = names.drop_first();
        let l = prop_line(n0);
        lemma_property_lines_front(names);
        let x = property_lines(rest) + "end_header\n"@;
        assert(property_lines(names) + "end_header\n"@ =~= l + x);
        lemma_encode_concat(l, x);
        lemma_prop_line(n0);
        assert(encode_utf8(l + x) + body =~= encode_utf8(l) + (encode_utf8(x) + body));
        lemma_line_step(b, pos, l, encode_utf8(x) + body);
        let w = split_ws(l);
        let st = vertex_state(n, done);
        assert(w.len() == 3 && w[0] == "property"@ && w[1] == "float"@ && w[2] == n0);
        assert("property"@.len() == 8);
        assert("format"@.len() == 6);
        assert("comment"@.len() == 7);
        assert(w[0] != "format"@);
        assert(w[0] != "comment"@);
        assert(w[0] != "element"@);
        assert("float"@.len() == 5);
        assert("list"@.len() == 4);
        assert(w[1] != "list"@);
        assert(scalar_ty_of(w[1]) == Some(ScalarTy::F32));
        assert(header_step(st, w) == Ok::<HeaderState, PlyFault>(vertex_state(n, done.push((n0, ScalarTy::F32)))));
        assert forall|i: int| 0 <= i < rest.len() implies good_name(#[trigger] rest[i]) by {
            assert(rest[i] == names[i + 1]);
        }
        lemma_props_parse(b, pos + l.len(), rest, n, done.push((n0, ScalarTy::F32)), body);
        assert(done.push((n0, ScalarTy::F32)) + float_props(rest) =~= done + float_props(names));
    }
}

/// The header the writer emits for `n` splats, followed by any body, reads
/// back as one `vertex` element of `n` splats declaring the writer's
/// properties, in order, all `float`, in binary little-endian format, with
/// the body starting right after the header.
pub proof fn lemma_writer_header_parses(n: usize, body: Seq<u8>)
    ensures
        header_of(encode_utf8(writer_header(n as nat)) + body) == Ok::<HeaderModel, PlyFault>(
            vertex_header(n, float_props(writer_props()), encode_utf8(writer_header(n as nat)).len() as int),
        ),
{
    reveal_strlit("ply\nformat binary_little_endian 1.0\nelement vertex ");
    reveal_strlit("ply\n");
    reveal_strlit("ply");
    reveal_strlit("format binary_little_endian 1.0\n");
    reveal_strlit("format binary_little_endian 1.0");
    reveal_strlit("format");
    reveal_strlit("binary_little_endian");
    reveal_strlit("1.0");
    reveal_strlit("element vertex ");
    reveal_strlit("element");
    reveal_strlit("vertex");
    reveal_strlit("\n");
    reveal_strlit("end_header");
    reveal_strlit("comment");
    let h = writer_header(n as nat);
    let b = encode_utf8(h) + body;
    let d = decimal(n as nat);
    let l0 = "ply\n"@;
    let l1 = "format binary_little_endian 1.0\n"@;
    let l2 = "element vertex "@ + d + "\n"@;
    let t3 = property_lines(writer_props()) + "end_header\n"@;
    let t2 = l2 + t3;
    let t1 = l1 + t2;
    assert(h =~= l0 + t1);
    lemma_encode_concat(l0, t1);
    lemma_encode_concat(l1, t2);
    lemma_encode_concat(l2, t3);
    // the `ply` line
    assert(l0 =~= "ply"@ + seq!['\n']);
    assert(good_line(l0));
    assert(b.subrange(0, b.len() as int) =~= encode_utf8(l0) + (encode_utf8(t1) + body));
    lemma_line_step(b, 0, l0, encode_utf8(t1) + body);
    lemma_trim_newline("ply"@);
    let p1 = l0.len() as int;
    // the format line
    assert(l1 =~= "format"@ + seq![' '] + "binary_little_endian"@ + seq![' '] + "1.0"@ + seq!['\n']);
    assert(good_line(l1));
    assert(no_ws("format"@) && no_ws("binary_little_endian"@) && no_ws("1.0"@));
    lemma_split3("format"@, "binary_little_endian"@, "1.0"@);
    assert(encode_utf8(t1) + body =~= encode_utf8(l1) + (encode_utf8(t2) + body));
    lemma_line_step(b, p1, l1, encode_utf8(t2) + body);
    lemma_trim_newline("format binary_little_endian 1.0"@);
    assert(l1 =~= "format binary_little_endian 1.0"@ + seq!['\n']);
    assert(trim_end(l1) != "end_header"@);
    let s0 = HeaderState { format: None, elements: Seq::empty(), current: None };
    let s1 = HeaderState { format: Some(Format::BinaryLE), elements: Seq::empty(), current: None };
    assert(header_step(s0, split_ws(l1)) == Ok::<HeaderState, PlyFault>(s1));
    let p2 = p1 + l1.len();
    // the element line
    lemma_decimal_digits(n as nat);
    assert(l2 =~= "element"@ + seq![' '] + "vertex"@ + seq![' '] + d + seq!['\n']);
    assert(no_ws("element"@) && no_ws("vertex"@));
    lemma_split3("element"@, "vertex"@, d);
    assert forall|i: int| 0 <= i < l2.len() implies (#[trigger] l2[i] as u32) < 128 by {
        if 15 <= i < 15 + d.len() {
            assert(l2[i] == d[i - 15]);
        }
    }
    assert forall|j: int| 0 <= j < l2.len() - 1 implies l2[j] != '\n' by {
        if 15 <= j < 15 + d.len() {
            assert(l2[j] == d[j - 15]);
            assert(!is_unicode_whitespace(d[j - 15]));
        }
    }
    assert(good_line(l2));
    assert(encode_utf8(t2) + body =~= encode_utf8(l2) + (encode_utf8(t3) + body));
    lemma_line_step(b, p2, l2, encode_utf8(t3) + body);
    let w2 = "element vertex "@ + d;
    assert(l2 =~= w2 + seq!['\n']);
    assert(w2.last() == d.last());
    lemma_trim_newline(w2);
    assert(trim_end(l2).len() != "end_header"@.len());
    assert(!(d.len() > 0 && d[0] == '+'));
    assert(parse_usize(d) == Some(n));
    assert(header_step(s1, split_ws(l2)) == Ok::<HeaderState, PlyFault>(vertex_state(n, Seq::empty())));
    let p3 = p2 + l2.len();
    // the property lines and `end_header`
    lemma_writer_names();
    lemma_props_parse(b, p3, writer_props(), n, Seq::empty(), body);
    assert(Seq::<(Seq<char>, ScalarTy)>::empty() + float_props(writer_props()) =~= float_props(writer_props()));
    assert(b.len() - body.len() == encode_utf8(h).len());
    assert(trim_end(l0) == "ply"@);
    assert(line_end(b, 0) == p1);
    assert(header_of(b) == header_lines(b, p1, s0));
    assert(header_lines(b, p1, s0) == header_lines(b, p2, s1));
    assert(header_lines(b, p2, s1) == header_lines(b, p3, vertex_state(n, Seq::empty())));
}

/// Every property of the writer's header is a 4-byte float, so property
/// `i` starts at byte `4 * i` of a record.
proof fn lemma_float_offsets(names: Seq<Seq<char>>, i: int)
    requires
        0 <= i <= names.len(),
    ensures
        prop_offset(float_props(names), i) == 4 * i,
    decreases i,
{
    if i > 0 {
        lemma_float_offsets(names, i - 1);
        assert(float_props(names)[i - 1].1 == ScalarTy::F32);
    }
}

/// The header the writer emits describes records the reader accepts as
/// binary Gaussian splats: its `vertex` element is the first element,
/// carries every required field, and its records are 248 bytes long.
pub proof fn lemma_writer_layout(n: usize, body: Seq<u8>)
    ensures
        ({
            let hm = vertex_header(n, float_props(writer_props()), encode_utf8(writer_header(n as nat)).len() as int);
            &&& header_of(encode_utf8(writer_header(n as nat)) + body) == Ok::<HeaderModel, PlyFault>(hm)
            &&& vertex_index(hm.elements) == Some(0int)
            &&& first_missing(hm.elements[0].props, 0) is None
            &&& prop_offset(hm.elements[0].props, hm.elements[0].props.len() as int) == 248
            &&& hm.elements[0].count == n
            &&& hm.format == Format::BinaryLE
        }),
{
    lemma_writer_header_parses(n, body);
    let props = float_props(writer_props());
    let hm = vertex_header(n, props, encode_utf8(writer_header(n as nat)).len() as int);
    assert(hm.elements[0].name == "vertex"@);
    lemma_float_offsets(writer_props(), 62);
    let ps = writer_props();
    let rf = required_fields();
    assert(props[0].0 == ps[0] && props[1].0 == ps[1] && props[2].0 == ps[2]);
    assert(rf[0] == ps[0] && rf[1] == ps[1] && rf[2] == ps[2]);
    assert(props[55].0 == ps[55] && props[56].0 == ps[56] && props[57].0 == ps[57]);
    assert(rf[3] == ps[55] && rf[4] == ps[56] && rf[5] == ps[57]);
    assert(props[58].0 == ps[58] && props[59].0 == ps[59] && props[60].0 == ps[60] && props[61].0 == ps[61]);
    assert(rf[6] == ps[58] && rf[7] == ps[59] && rf[8] == ps[60] && rf[9] == ps[61]);
    assert(props[54].0 == ps[54]);
    assert(rf[10] == ps[54]);
    assert(props[6].0 == ps[6] && props[7].0 == ps[7] && props[8].0 == ps[8]);
    assert(rf[11] == ps[6] && rf[12] == ps[7] && rf[13] == ps[8]);
    assert(has_prop(props, rf[0]));
    assert(has_prop(props, rf[1]));
    assert(has_prop(props, rf[2]));
    assert(has_prop(props, rf[3]));
    assert(has_prop(props, rf[4]));
    assert(has_prop(props, rf[5]));
    assert(has_prop(props, rf[6]));
    assert(has_prop(props, rf[7]));
    assert(has_prop(props, rf[8]));
    assert(has_prop(props, rf[9]));
    assert(has_prop(props, rf[10]));
    assert(has_prop(props, rf[11]));
    assert(has_prop(props, rf[12]));
    assert(has_prop(props, rf[13]));
    assert(first_missing(props, 14) is None);
    assert(first_missing(props, 13) is None);
    assert(first_missing(props, 12) is None);
    assert(first_missing(props, 11) is None);
    assert(first_missing(props, 10) is None);
    assert(first_missing(props, 9) is None);
    assert(first_missing(props, 8) is None);
    assert(first_missing(props, 7) is None);
    assert(first_missing(props, 6) is None);
    assert(first_missing(props, 5) is None);
    assert(first_missing(props, 4) is None);
    assert(first_missing(props, 3) is None);
    assert(first_missing(props, 2) is None);
    assert(first_missing(props, 1) is None);
    assert(first_missing(props, 0) is None);
}


/// What the writers write is recognised by its first bytes: an SPZ file
/// (its header, then anything) is detected as `spz`, and a PLY file (the
/// writer's header, then any body) as `ply`.
pub proof fn lemma_writers_detected(h: SpzHeader, payload: Seq<u8>, n: nat, body: Seq<u8>)
    ensures
        format_of_magic(spz_header_bytes(h) + payload) == Some("spz"@),
        format_of_magic(encode_utf8(writer_header(n)) + body) == Some("ply"@),
{
    let b = spz_header_bytes(h) + payload;
    assert(b.subrange(0, 4) =~= seq![0x47u8, 0x4Eu8, 0x53u8, 0x50u8]);
    assert(b.subrange(0, 4) != seq![0x67u8, 0x6Cu8, 0x54u8, 0x46u8]) by {
        assert(b.subrange(0, 4)[0] != seq![0x67u8, 0x6Cu8, 0x54u8, 0x46u8][0]);
    }
    assert(b.subrange(0, 4) != seq![0x70u8, 0x6Cu8, 0x79u8, 0x0Au8]) by {
        assert(b.subrange(0, 4)[0] != seq![0x70u8, 0x6Cu8, 0x79u8, 0x0Au8][0]);
    }
    assert(b.subrange(0, 4) != seq![0x70u8, 0x6Cu8, 0x79u8, 0x0Du8]) by {
        assert(b.subrange(0, 4)[0] != seq![0x70u8, 0x6Cu8, 0x79u8, 0x0Du8][0]);
    }
    let w = writer_header(n);
    reveal_strlit("ply\nformat binary_little_endian 1.0\nelement vertex ");
    let a = w.subrange(0, 4);
    let r = w.subrange(4, w.len() as int);
    assert(a[0] == 'p' && a[1] == 'l' && a[2] == 'y' && a[3] == '\n');
    assert(a =~= seq!['p', 'l', 'y', '\n']);
    assert(w =~= a + r);
    lemma_encode_concat(a, r);
    assert forall|i: int| 0 <= i < a.len() implies (#[trigger] a[i] as u32) < 128 by {
        if i == 0 {
        } else if i == 1 {
        } else if i == 2 {
        } else {
        }
    }
    lemma_encode_ascii(a);
    let e = encode_utf8(w) + body;
    assert(ascii_bytes(a) =~= seq![0x70u8, 0x6Cu8, 0x79u8, 0x0Au8]);
    assert(e.subrange(0, 4) =~= seq![0x70u8, 0x6Cu8, 0x79u8, 0x0Au8]);
    assert(e.subrange(0, 4) != seq![0x67u8, 0x6Cu8, 0x54u8, 0x46u8]) by {
        assert(e.subrange(0, 4)[0] != seq![0x67u8, 0x6Cu8, 0x54u8, 0x46u8][0]);
    }
}

proof fn lemma_first_prop_at(props: Seq<(Seq<char>, ScalarTy)>, name: Seq<char>, i: int, k: int)
    requires
        0 <= i <= k < props.len(),
        props[k].0 == name,
        forall|j: int| i <= j < k ==> (#[trigger] props[j]).0 != name,
    ensures
        first_prop(props, name, i) == Some(k),
    decreases k - i,
{
    if i < k {
        lemma_first_prop_at(props, name, i + 1, k);
    }
}

/// The writer's property names at fixed positions, and the `f_rest_*`
/// names between them, which are all longer than seven characters.
proof fn lemma_writer_prop_names()
    ensures
        writer_props().len() == 62,
        writer_props()[0] == "x"@,
        writer_props()[1] == "y"@,
        writer_props()[2] == "z"@,
        writer_props()[3] == "nx"@,
        writer_props()[4] == "ny"@,
        writer_props()[5] == "nz"@,
        writer_props()[6] == "f_dc_0"@,
        writer_props()[7] == "f_dc_1"@,
        writer_props()[8] == "f_dc_2"@,
        writer_props()[54] == "opacity"@,
        writer_props()[55] == "scale_0"@,
        writer_props()[56] == "scale_1"@,
        writer_props()[57] == "scale_2"@,
        writer_props()[58] == "rot_0"@,
        writer_props()[59] == "rot_1"@,
        writer_props()[60] == "rot_2"@,
        writer_props()[61] == "rot_3"@,
        forall|j: int| 9 <= j < 54 ==> (#[trigger] writer_props()[j]).len() >= 8,
{
    reveal_strlit("f_rest_");
    let a = seq!["x"@, "y"@, "z"@, "nx"@, "ny"@, "nz"@, "f_dc_0"@, "f_dc_1"@, "f_dc_2"@];
    let m = Seq::new(45, |i: int| "f_rest_"@ + decimal(i as nat));
    let c = seq!["opacity"@, "scale_0"@, "scale_1"@, "scale_2"@, "rot_0"@, "rot_1"@, "rot_2"@, "rot_3"@];
    assert(writer_props() == a + m + c);
    assert forall|j: int| 9 <= j < 54 implies (#[trigger] writer_props()[j]).len() >= 8 by {
        assert(writer_props()[j] == m[j - 9]);
        assert(decimal((j - 9) as nat).len() >= 1);
    }
}

/// The header the PLY writer emits names each column after the value the
/// body writer stores there: read back, the position fields sit at byte
/// offsets 0, 4, 8 of a record, the DC color at 24, 28, 32, the opacity at
/// 216 (column 54), the scales at 220, 224, 228 and the rotation at 232 to
/// 244 (columns 55 to 61).
pub proof fn lemma_writer_columns(n: usize, body: Seq<u8>)
    ensures
        ({
            let hm = vertex_header(n, float_props(writer_props()), encode_utf8(writer_header(n as nat)).len() as int);
            let pm = hm.elements[0].props;
            &&& header_of(encode_utf8(writer_header(n as nat)) + body) == Ok::<HeaderModel, PlyFault>(hm)
            &&& loc(pm, "x"@).offset == 0
            &&& loc(pm, "y"@).offset == 4
            &&& loc(pm, "z"@).offset == 8
            &&& loc(pm, "f_dc_0"@).offset == 24
            &&& loc(pm, "f_dc_1"@).offset == 28
            &&& loc(pm, "f_dc_2"@).offset == 32
            &&& loc(pm, "opacity"@).offset == 216
            &&& loc(pm, "scale_0"@).offset == 220
            &&& loc(pm, "scale_1"@).offset == 224
            &&& loc(pm, "scale_2"@).offset == 228
            &&& loc(pm, "rot_0"@).offset == 232
            &&& loc(pm, "rot_1"@).offset == 236
            &&& loc(pm, "rot_2"@).offset == 240
            &&& loc(pm, "rot_3"@).offset == 244
        }),
{
    lemma_writer_layout(n, body);
    lemma_writer_prop_names();
    let pm = float_props(writer_props());
    let ps = writer_props();
    lemma_float_offsets(ps, 62);
    reveal_strlit("f_dc_0");
    reveal_strlit("f_dc_1");
    reveal_strlit("f_dc_2");
    reveal_strlit("nx");
    reveal_strlit("ny");
    reveal_strlit("nz");
    reveal_strlit("opacity");
    reveal_strlit("rot_0");
    reveal_strlit("rot_1");
    reveal_strlit("rot_2");
    reveal_strlit("rot_3");
    reveal_strlit("scale_0");
    reveal_strlit("scale_1");
    reveal_strlit("scale_2");
    reveal_strlit("x");
    reveal_strlit("y");
    reveal_strlit("z");
    assert forall|j: int| 0 <= j < 0 implies (#[trigger] pm[j]).0 != "x"@ by {
        assert(pm[j].0 == ps[j]);
    }
    lemma_first_prop_at(pm, "x"@, 0, 0);
    lemma_float_offsets(ps, 0);
    assert forall|j: int| 0 <= j < 1 implies (#[trigger] pm[j]).0 != "y"@ by {
        assert(pm[j].0 == ps[j]);
        if j == 0 {
            assert(ps[0][0] != "y"@[0]);
        }
    }
    lemma_first_prop_at(pm, "y"@, 0, 1);
    lemma_float_offsets(ps, 1);
    assert forall|j: int| 0 <= j < 2 implies (#[trigger] pm[j]).0 != "z"@ by {
        assert(pm[j].0 == ps[j]);
        if j == 0 {
            assert(ps[0][0] != "z"@[0]);
        }
        if j == 1 {
            assert(ps[1][0] != "z"@[0]);
        }
    }
    lemma_first_prop_at(pm, "z"@, 0, 2);
    lemma_float_offsets(ps, 2);
    assert forall|j: int| 0 <= j < 6 implies (#[trigger] pm[j]).0 != "f_dc_0"@ by {
        assert(pm[j].0 == ps[j]);
    }
    lemma_first_prop_at(pm, "f_dc_0"@, 0, 6);
    lemma_float_offsets(ps, 6);
    assert forall|j: int| 0 <= j < 7 implies (#[trigger] pm[j]).0 != "f_dc_1"@ by {
        assert(pm[j].0 == ps[j]);
        if j == 6 {
            assert(ps[6][5] != "f_dc_1"@[5]);
        }
    }
    lemma_first_prop_at(pm, "f_dc_1"@, 0, 7);
    lemma_float_offsets(ps, 7);
    assert forall|j: int| 0 <= j < 8 implies (#[trigger] pm[j]).0 != "f_dc_2"@ by {
        assert(pm[j].0 == ps[j]);
        if j == 6 {
            assert(ps[6][5] != "f_dc_2"@[5]);
        }
        if j == 7 {
            assert(ps[7][5] != "f_dc_2"@[5]);
        }
    }
    lemma_first_prop_at(pm, "f_dc_2"@, 0, 8);
    lemma_float_offsets(ps, 8);
    assert forall|j: int| 0 <= j < 54 implies (#[trigger] pm[j]).0 != "opacity"@ by {
        assert(pm[j].0 == ps[j]);
    }
    lemma_first_prop_at(pm, "opacity"@, 0, 54);
    lemma_float_offsets(ps, 54);
    assert forall|j: int| 0 <= j < 55 implies (#[trigger] pm[j]).0 != "scale_0"@ by {
        assert(pm[j].0 == ps[j]);
        if j == 54 {
            assert(ps[54][0] != "scale_0"@[0]);
        }
    }
    lemma_first_prop_at(pm, "scale_0"@, 0, 55);
    lemma_float_offsets(ps, 55);
    assert forall|j: int| 0 <= j < 56 implies (#[trigger] pm[j]).0 != "scale_1"@ by {
        assert(pm[j].0 == ps[j]);
        if j == 54 {
            assert(ps[54][0] != "scale_1"@[0]);
        }
        if j == 55 {
            assert(ps[55][6] != "scale_1"@[6]);
        }
    }
    lemma_first_prop_at(pm, "scale_1"@, 0, 56);
    lemma_float_offsets(ps, 56);
    assert forall|j: int| 0 <= j < 57 implies (#[trigger] pm[j]).0 != "scale_2"@ by {
        assert(pm[j].0 == ps[j]);
        if j == 54 {
            assert(ps[54][0] != "scale_2"@[0]);
        }
        if j == 55 {
            assert(ps[55][6] != "scale_2"@[6]);
        }
        if j == 56 {
            assert(ps[56][6] != "scale_2"@[6]);
        }
    }
    lemma_first_prop_at(pm, "scale_2"@, 0, 57);
    lemma_float_offsets(ps, 57);
    assert forall|j: int| 0 <= j < 58 implies (#[trigger] pm[j]).0 != "rot_0"@ by {
        assert(pm[j].0 == ps[j]);
    }
    lemma_first_prop_at(pm, "rot_0"@, 0, 58);
    lemma_float_offsets(ps, 58);
    assert forall|j: int| 0 <= j < 59 implies (#[trigger] pm[j]).0 != "rot_1"@ by {
        assert(pm[j].0 == ps[j]);
        if j == 58 {
            assert(ps[58][4] != "rot_1"@[4]);
        }
    }
    lemma_first_prop_at(pm, "rot_1"@, 0, 59);
    lemma_float_offsets(ps, 59);
    assert forall|j: int| 0 <= j < 60 implies (#[trigger] pm[j]).0 != "rot_2"@ by {
        assert(pm[j].0 == ps[j]);
        if j == 58 {
            assert(ps[58][4] != "rot_2"@[4]);
        }
        if j == 59 {
            assert(ps[59][4] != "rot_2"@[4]);
        }
    }
    lemma_first_prop_at(pm, "rot_2"@, 0, 60);
    lemma_float_offsets(ps, 60);
    assert forall|j: int| 0 <= j < 61 implies (#[trigger] pm[j]).0 != "rot_3"@ by {
        assert(pm[j].0 == ps[j]);
        if j == 58 {
            assert(ps[58][4] != "rot_3"@[4]);
        }
        if j == 59 {
            assert(ps[59][4] != "rot_3"@[4]);
        }
        if j == 60 {
            assert(ps[60][4] != "rot_3"@[4]);
        }
    }
    lemma_first_prop_at(pm, "rot_3"@, 0, 61);
    lemma_float_offsets(ps, 61);
}
} // verus!
