//! Keys as paths: components, and their form in the file system.
use crate::text::{chars_of, join2, join3, owned, string_of};
use vstd::prelude::*;

verus! {

use crate::text::{first_char, lemma_first_char, lemma_first_char_unique};
use vstd::utf8::{
    char_u32_cast, decode_utf8, encode_scalar, encode_utf8, encode_utf8_decode_utf8,
    encode_utf8_first_scalar, encode_utf8_valid_utf8, has_width_1_encoding, valid_utf8,
};

/// Whether a piece between slashes is a component: it is not empty, and a dot counts only at the
/// start.
pub open spec fn is_name(name: Seq<char>, at_start: bool) -> bool {
    name.len() > 0 && (at_start || name != seq!['.'])
}

/// The components of a path but for its root.
pub open spec fn names_in(s: Seq<char>, at_start: bool) -> Seq<Seq<char>>
    decreases s.len(),
{
    let i = first_char(s, '/');
    let name = s.take(i);
    let rest = if 0 <= i < s.len() {
        names_in(s.skip(i + 1), false)
    } else {
        Seq::empty()
    };
    if is_name(name, at_start) {
        seq![name] + rest
    } else {
        rest
    }
}

/// The components of a path: its root, if it has one, and its names.
pub open spec fn components_of(path: Seq<char>) -> Seq<Seq<char>> {
    (if path.len() > 0 && path[0] == '/' {
        seq![seq!['/']]
    } else {
        Seq::empty()
    }) + names_in(path, true)
}

/// The views of strings.
pub open spec fn views(v: Seq<String>) -> Seq<Seq<char>> {
    Seq::new(v.len(), |i: int| v[i]@)
}

/// The components of a path: repeated and trailing slashes count as nothing, and so does a dot that
/// does not stand at the start. Keys are the same on every system, so the slash alone separates.
pub fn components(path: &str) -> (r: Vec<String>)
    ensures
        views(r@) == components_of(path@),
{
    let v = chars_of(path);
    let mut r: Vec<String> = Vec::new();
    if v.len() > 0 && v[0] == '/' {
        r.push(owned("/"));
        proof {
            reveal_strlit("/");
        }
        assert(r@[0]@ =~= seq!['/']);
    }
    let ghost root = views(r@);
    assert(root =~= if path@.len() > 0 && path@[0] == '/' {
        seq![seq!['/']]
    } else {
        Seq::empty()
    });
    let mut pos: usize = 0;
    let mut at_start: bool = true;
    let mut done: bool = false;
    assert(path@.skip(0) =~= path@);
    while !done
        invariant
            v@ == path@,
            pos <= v@.len(),
            !done ==> views(r@) + names_in(path@.skip(pos as int), at_start) == root + names_in(
                path@,
                true,
            ),
            done ==> views(r@) == root + names_in(path@, true),
        decreases (!done) as int, v.len() - pos,
    {
        let ghost rest = path@.skip(pos as int);
        let ghost before = views(r@);
        let mut end: usize = pos;
        while end < v.len() && v[end] != '/'
            invariant
                v@ == path@,
                pos <= end <= v@.len(),
                forall|j: int| pos <= j < end ==> v@[j] != '/',
            decreases v.len() - end,
        {
            end += 1;
        }
        let ghost i = end - pos;
        proof {
            assert(forall|j: int| 0 <= j < i ==> rest.take(i)[j] == path@[pos + j]);
            if rest.take(i).contains('/') {
                let j = choose|j: int| 0 <= j < i && rest.take(i)[j] == '/';
                assert(path@[pos + j] != '/');
            }
            lemma_first_char_unique(rest, '/', i);
        }
        let piece: &[char] = &v.as_slice()[pos..end];
        assert(piece@ =~= rest.take(i));
        let dot: bool = piece.len() == 1 && piece[0] == '.';
        assert(dot == (piece@ =~= seq!['.']));
        if piece.len() > 0 && (at_start || !dot) {
            r.push(string_of(piece));
            assert(views(r@) =~= before.push(piece@));
        }
        if end < v.len() {
            assert(rest.skip(i + 1) =~= path@.skip(end + 1));
            assert(views(r@) + names_in(path@.skip(end + 1), false) =~= before + names_in(
                rest,
                at_start,
            ));
            pos = end + 1;
            at_start = false;
        } else {
            assert(views(r@) =~= before + names_in(rest, at_start));
            done = true;
        }
    }
    r
}

/// A path with one more component: an absolute one takes the place of the path.
pub open spec fn pushed(path: Seq<char>, component: Seq<char>) -> Seq<char> {
    if component.len() > 0 && component[0] == '/' {
        component
    } else if path.len() == 0 || path.last() == '/' {
        path + component
    } else {
        path + seq!['/'] + component
    }
}

/// The path that components make.
pub open spec fn joined(components: Seq<Seq<char>>) -> Seq<char>
    decreases components.len(),
{
    if components.len() == 0 {
        Seq::empty()
    } else {
        pushed(joined(components.drop_last()), components.last())
    }
}

/// A path with one more component. The slash separates, on every system.
pub fn join_path(path: &str, component: &str) -> (r: String)
    ensures
        r@ == pushed(path@, component@),
{
    let p = chars_of(path);
    let c = chars_of(component);
    if c.len() > 0 && c[0] == '/' {
        owned(component)
    } else if p.len() == 0 || p[p.len() - 1] == '/' {
        join2(path, component)
    } else {
        proof {
            reveal_strlit("/");
        }
        let r = join3(path, "/", component);
        assert(r@ =~= path@ + seq!['/'] + component@);
        r
    }
}

/// The upper-case hexadecimal digit of `d`, for `d` below sixteen.
pub open spec fn upper_hex(d: u8) -> u8 {
    if d < 10 {
        (48 + d) as u8
    } else {
        (55 + d) as u8
    }
}

/// The percent-encoding of a byte.
pub open spec fn percent_byte(b: u8) -> Seq<u8> {
    seq![37u8, upper_hex(b / 16), upper_hex(b % 16)]
}

/// Bytes with the dots and the bytes outside of ASCII percent-encoded.
pub open spec fn percent_encoded(bytes: Seq<u8>) -> Seq<u8>
    decreases bytes.len(),
{
    if bytes.len() == 0 {
        Seq::empty()
    } else {
        (if bytes[0] >= 128 || bytes[0] == 46 {
            percent_byte(bytes[0])
        } else {
            seq![bytes[0]]
        }) + percent_encoded(bytes.drop_first())
    }
}

/// The value of a byte as a hexadecimal digit, if it is one.
pub open spec fn hex_digit_of(b: u8) -> Option<u8> {
    if 48 <= b <= 57 {
        Some((b - 48) as u8)
    } else if 65 <= b <= 70 {
        Some((b - 55) as u8)
    } else if 97 <= b <= 102 {
        Some((b - 87) as u8)
    } else {
        None
    }
}

/// Bytes with each percent sign that two hexadecimal digits follow decoded.
pub open spec fn percent_decoded(bytes: Seq<u8>) -> Seq<u8>
    decreases bytes.len(),
{
    if bytes.len() == 0 {
        Seq::empty()
    } else if bytes[0] == 37 && bytes.len() >= 3 && hex_digit_of(bytes[1]) is Some && hex_digit_of(
        bytes[2],
    ) is Some {
        seq![(hex_digit_of(bytes[1]).unwrap() * 16 + hex_digit_of(bytes[2]).unwrap()) as u8]
            + percent_decoded(bytes.skip(3))
    } else {
        seq![bytes[0]] + percent_decoded(bytes.drop_first())
    }
}

/// The characters of ASCII bytes.
pub open spec fn ascii_text(bytes: Seq<u8>) -> Seq<char> {
    Seq::new(bytes.len(), |i: int| bytes[i] as char)
}

/// `percent_encoding::percent_encode_byte`: a percent sign and the two upper-case hexadecimal digits
/// of the byte.
#[verifier::external_body]
fn encode_byte(b: u8) -> (r: String)
    ensures
        r@ == ascii_text(percent_byte(b)),
{
    percent_encoding::percent_encode_byte(b).to_string()
}

/// `percent_encoding::percent_decode_str` and then `decode_utf8`: each percent sign that two
/// hexadecimal digits follow is decoded, and the bytes that come out are taken as UTF-8. If they are
/// none, there is no result.
#[verifier::external_body]
fn decode_percent(text: &str) -> (r: Option<String>)
    ensures
        r is Some == valid_utf8(percent_decoded(encode_utf8(text@))),
        r matches Some(t) ==> t@ == decode_utf8(percent_decoded(encode_utf8(text@))),
{
    let decoded = percent_encoding::percent_decode_str(text).decode_utf8().ok()?;
    Some(decoded.into_owned())
}

/// The form of a component in the file system.
pub open spec fn clean_component_of(component: Seq<char>) -> Seq<char> {
    ascii_text(percent_encoded(encode_utf8(component)))
}

fn clean_component(component: &str) -> (r: String)
    ensures
        r@ == clean_component_of(component@),
{
    let bytes = component.as_bytes_vec();
    let mut r: String = String::new();
    let mut i: usize = 0;
    assert(bytes@.skip(0) =~= bytes@);
    assert(r@ + ascii_text(percent_encoded(bytes@)) =~= ascii_text(percent_encoded(bytes@)));
    while i < bytes.len()
        invariant
            i <= bytes@.len(),
            r@ + ascii_text(percent_encoded(bytes@.skip(i as int))) == ascii_text(
                percent_encoded(bytes@),
            ),
        decreases bytes.len() - i,
    {
        let ghost before = r@;
        let ghost rest = bytes@.skip(i as int);
        let b: u8 = bytes[i];
        assert(rest[0] == b);
        assert(rest.drop_first() =~= bytes@.skip(i + 1));
        let ghost tail = percent_encoded(rest.drop_first());
        if b >= 128 || b == 46 {
            r.append(encode_byte(b).as_str());
            assert(r@ + ascii_text(tail) =~= before + ascii_text(percent_byte(b) + tail));
        } else {
            r.push(b as char);
            assert(r@ + ascii_text(tail) =~= before + ascii_text(seq![b] + tail));
        }
        i += 1;
    }
    assert(r@ + ascii_text(percent_encoded(bytes@.skip(i as int))) =~= r@);
    r
}

/// The form of the components of a key in the file system.
pub open spec fn clean_components_of(components: Seq<Seq<char>>) -> Seq<Seq<char>> {
    Seq::new(components.len(), |i: int| clean_component_of(components[i]))
}

/// The form of a key in the file system: each component with its dots and what is not ASCII
/// percent-encoded, so that no component is a dot or two dots and no file name has a suffix of ours.
pub open spec fn clean_key_of(key: Seq<char>) -> Seq<char> {
    joined(clean_components_of(components_of(key)))
}

/// The form of a key in the file system.
pub fn clean_key(key: &str) -> (r: String)
    ensures
        r@ == clean_key_of(key@),
{
    let parts = components(key);
    let ghost all = clean_components_of(components_of(key@));
    let mut r: String = String::new();
    let mut i: usize = 0;
    assert(all.take(0) =~= Seq::empty());
    while i < parts.len()
        invariant
            i <= parts@.len() == all.len(),
            views(parts@) == components_of(key@),
            all == clean_components_of(components_of(key@)),
            r@ == joined(all.take(i as int)),
        decreases parts.len() - i,
    {
        let part = clean_component(parts[i].as_str());
        assert(views(parts@)[i as int] == parts@[i as int]@);
        r = join_path(r.as_str(), part.as_str());
        assert(all.take(i + 1).drop_last() =~= all.take(i as int));
        i += 1;
    }
    assert(all.take(all.len() as int) =~= all);
    r
}

/// The component that a name in the file system stands for, if it is one.
pub open spec fn unclean_component_of(name: Seq<char>) -> Option<Seq<char>> {
    let bytes = percent_decoded(encode_utf8(name));
    if valid_utf8(bytes) {
        Some(decode_utf8(bytes))
    } else {
        None
    }
}

/// The path that names in the file system stand for, if they stand for components.
pub open spec fn unclean_joined(names: Seq<Seq<char>>) -> Option<Seq<char>>
    decreases names.len(),
{
    if names.len() == 0 {
        Some(Seq::empty())
    } else {
        match (unclean_joined(names.drop_last()), unclean_component_of(names.last())) {
            (Some(path), Some(component)) => Some(pushed(path, component)),
            _ => None,
        }
    }
}

/// The key that a path in the file system stands for, if any.
pub open spec fn unclean_key_of(path: Seq<char>) -> Option<Seq<char>> {
    unclean_joined(components_of(path))
}

proof fn lemma_unclean_prefix(names: Seq<Seq<char>>, n: int)
    requires
        0 <= n <= names.len(),
        unclean_joined(names.take(n)) is None,
    ensures
        unclean_joined(names) is None,
    decreases names.len(),
{
    if n == names.len() {
        assert(names.take(n) =~= names);
    } else {
        assert(names.drop_last().take(n) =~= names.take(n));
        lemma_unclean_prefix(names.drop_last(), n);
    }
}

/// The key that a path in the file system stands for, if any.
pub fn unclean_key(path: &str) -> (r: Option<String>)
    ensures
        r is Some <==> unclean_key_of(path@) is Some,
        r matches Some(key) ==> Some(key@) == unclean_key_of(path@),
{
    let parts = components(path);
    let ghost names = components_of(path@);
    let mut out: String = String::new();
    let mut i: usize = 0;
    assert(names.take(0) =~= Seq::empty());
    while i < parts.len()
        invariant
            i <= parts@.len() == names.len(),
            views(parts@) == names,
            names == components_of(path@),
            unclean_joined(names.take(i as int)) == Some(out@),
        decreases parts.len() - i,
    {
        assert(names.take(i + 1).drop_last() =~= names.take(i as int));
        assert(views(parts@)[i as int] == parts@[i as int]@);
        match decode_percent(parts[i].as_str()) {
            Some(component) => {
                out = join_path(out.as_str(), component.as_str());
            },
            None => {
                proof {
                    lemma_unclean_prefix(names, i + 1);
                }
                return None;
            },
        }
        i += 1;
    }
    assert(names.take(names.len() as int) =~= names);
    Some(out)
}

proof fn lemma_ascii_scalar(c: char)
    requires
        (c as u32) < 128,
    ensures
        encode_scalar(c as u32) == seq![(c as u32) as u8],
{
    let s = c as u32;
    assert((s & 0x7F) as u8 == s as u8) by (bit_vector)
        requires
            s < 128,
    ;
    assert(has_width_1_encoding(s));
    assert(encode_scalar(s) =~= seq![s as u8]);
}

/// The UTF-8 form of ASCII text is its bytes.
proof fn lemma_ascii_utf8(bytes: Seq<u8>)
    requires
        forall|i: int| 0 <= i < bytes.len() ==> #[trigger] bytes[i] < 128,
    ensures
        encode_utf8(ascii_text(bytes)) == bytes,
    decreases bytes.len(),
{
    let text = ascii_text(bytes);
    if bytes.len() > 0 {
        assert(text.drop_first() =~= ascii_text(bytes.drop_first()));
        lemma_ascii_utf8(bytes.drop_first());
        assert(bytes[0] < 128);
        lemma_ascii_scalar(text[0]);
        assert(encode_utf8(text) =~= seq![bytes[0]] + bytes.drop_first());
        assert(seq![bytes[0]] + bytes.drop_first() =~= bytes);
    } else {
        assert(encode_utf8(text) =~= bytes);
    }
}

proof fn lemma_upper_hex(d: u8)
    requires
        d < 16,
    ensures
        hex_digit_of(upper_hex(d)) == Some(d),
        48 <= upper_hex(d) <= 70,
{
}

/// What is percent-encoded is ASCII without a dot, and without a slash where there was none.
proof fn lemma_percent_encoded(bytes: Seq<u8>)
    ensures
        forall|i: int|
            0 <= i < percent_encoded(bytes).len() ==> (#[trigger] percent_encoded(bytes)[i]) < 128
                && percent_encoded(bytes)[i] != 46 && (percent_encoded(bytes)[i] == 47
                ==> bytes.contains(47)),
        bytes.len() > 0 ==> percent_encoded(bytes).len() > 0,
    decreases bytes.len(),
{
    if bytes.len() > 0 {
        let b = bytes[0];
        let rest = bytes.drop_first();
        lemma_percent_encoded(rest);
        lemma_upper_hex(b / 16);
        lemma_upper_hex(b % 16);
        let head = if b >= 128 || b == 46 {
            percent_byte(b)
        } else {
            seq![b]
        };
        let all = percent_encoded(bytes);
        assert(all == head + percent_encoded(rest));
        assert forall|i: int| 0 <= i < all.len() implies (#[trigger] all[i]) < 128 && all[i] != 46
            && (all[i] == 47 ==> bytes.contains(47)) by {
            if i < head.len() {
                assert(all[i] == head[i]);
                if head.len() == 3 {
                    assert(upper_hex(b / 16) != 46 && upper_hex(b / 16) != 47);
                } else {
                    assert(bytes[0] == all[i]);
                }
            } else {
                assert(all[i] == percent_encoded(rest)[i - head.len()]);
                if all[i] == 47 {
                    let j = choose|j: int| 0 <= j < rest.len() && rest[j] == 47;
                    assert(bytes[j + 1] == 47);
                }
            }
        }
    }
}

/// Decoding undoes encoding where there was no percent sign.
proof fn lemma_percent_decoded(bytes: Seq<u8>)
    requires
        !bytes.contains(37),
    ensures
        percent_decoded(percent_encoded(bytes)) == bytes,
    decreases bytes.len(),
{
    if bytes.len() > 0 {
        let b = bytes[0];
        let rest = bytes.drop_first();
        assert(!rest.contains(37)) by {
            if rest.contains(37) {
                let j = choose|j: int| 0 <= j < rest.len() && rest[j] == 37;
                assert(bytes[j + 1] == 37);
            }
        }
        lemma_percent_decoded(rest);
        let all = percent_encoded(bytes);
        let tail = percent_encoded(rest);
        assert(b != 37);
        if b >= 128 || b == 46 {
            lemma_upper_hex(b / 16);
            lemma_upper_hex(b % 16);
            assert(all =~= percent_byte(b) + tail);
            assert(all.skip(3) =~= tail);
            assert((b / 16) * 16 + b % 16 == b);
            assert(percent_decoded(all) =~= seq![b] + rest);
        } else {
            assert(all =~= seq![b] + tail);
            assert(all.drop_first() =~= tail);
            assert(percent_decoded(all) =~= seq![b] + rest);
        }
        assert(seq![b] + rest =~= bytes);
    }
}

proof fn lemma_scalar_bytes(s: u32)
    requires
        s >= 128,
    ensures
        forall|i: int| 0 <= i < encode_scalar(s).len() ==> #[trigger] encode_scalar(s)[i] >= 128,
{
    let a = ((s >> 6) & 0x1F) as u8;
    let b = ((s >> 12) & 0x0F) as u8;
    let c = ((s >> 18) & 0x7) as u8;
    let d = (s & 0x3F) as u8;
    let e = ((s >> 6) & 0x3F) as u8;
    let f = ((s >> 12) & 0x3F) as u8;
    assert((0xC0u8 | a) >= 128) by (bit_vector);
    assert((0xE0u8 | b) >= 128) by (bit_vector);
    assert((0xF0u8 | c) >= 128) by (bit_vector);
    assert((0x80u8 | d) >= 128) by (bit_vector);
    assert((0x80u8 | e) >= 128) by (bit_vector);
    assert((0x80u8 | f) >= 128) by (bit_vector);
}

/// An ASCII byte in the UTF-8 form of a text is a character of the text.
proof fn lemma_ascii_byte(text: Seq<char>, b: u8)
    requires
        b < 128,
        encode_utf8(text).contains(b),
    ensures
        text.contains(b as char),
    decreases text.len(),
{
    let bytes = encode_utf8(text);
    let j = choose|j: int| 0 <= j < bytes.len() && bytes[j] == b;
    let first = encode_scalar(text[0] as u32);
    assert(bytes == first + encode_utf8(text.drop_first()));
    if j < first.len() {
        assert(first[j] == b);
        if (text[0] as u32) < 128 {
            lemma_ascii_scalar(text[0]);
            let c = text[0];
            let u = c as u32;
            char_u32_cast(c, u);
            assert(j == 0 && b == u as u8);
            assert(b as char == u as char);
        } else {
            lemma_scalar_bytes(text[0] as u32);
        }
    } else {
        assert(encode_utf8(text.drop_first())[j - first.len()] == b);
        lemma_ascii_byte(text.drop_first(), b);
        let m = choose|m: int|
            0 <= m < text.drop_first().len() && text.drop_first()[m] == b as char;
        assert(text[m + 1] == b as char);
    }
}

/// A component without percent sign is found again, and its form has neither dot nor slash.
proof fn lemma_clean_component(component: Seq<char>)
    requires
        !component.contains('/'),
    ensures
        !component.contains('%') ==> unclean_component_of(clean_component_of(component)) == Some(
            component,
        ),
        !clean_component_of(component).contains('/'),
        !clean_component_of(component).contains('.'),
        component.len() > 0 ==> clean_component_of(component).len() > 0,
{
    let bytes = encode_utf8(component);
    let clean = percent_encoded(bytes);
    let text = clean_component_of(component);
    lemma_percent_encoded(bytes);
    lemma_ascii_utf8(clean);
    if component.len() > 0 {
        encode_utf8_first_scalar(component);
        assert(bytes.len() > 0);
    }
    if text.contains('/') {
        let i = choose|i: int| 0 <= i < text.len() && text[i] == '/';
        assert(clean[i] == 47);
        assert(bytes.contains(47));
        lemma_ascii_byte(component, 47);
    }
    if text.contains('.') {
        let i = choose|i: int| 0 <= i < text.len() && text[i] == '.';
        assert(clean[i] == 46);
    }
    if !component.contains('%') {
        if bytes.contains(37) {
            lemma_ascii_byte(component, 37);
        }
        lemma_percent_decoded(bytes);
        encode_utf8_valid_utf8(component);
        encode_utf8_decode_utf8(component);
    }
}

/// A name that can stand anywhere in a path.
spec fn is_plain(name: Seq<char>) -> bool {
    name.len() > 0 && !name.contains('/') && name != seq!['.']
}

proof fn lemma_names_in_plain(name: Seq<char>, at_start: bool)
    requires
        is_plain(name),
    ensures
        names_in(name, at_start) == seq![name],
{
    let n = name.len() as int;
    assert(name.take(n) =~= name);
    lemma_first_char_unique(name, '/', n);
    assert(names_in(name, at_start) =~= seq![name]);
}

/// A plain name behind a slash is one more name of the path.
proof fn lemma_names_pushed(path: Seq<char>, name: Seq<char>, at_start: bool)
    requires
        is_plain(name),
    ensures
        names_in(path + seq!['/'] + name, at_start) == names_in(path, at_start).push(name),
    decreases path.len(),
{
    let all = path + seq!['/'] + name;
    let i = first_char(path, '/');
    lemma_first_char(path, '/');
    assert(all.take(i) =~= path.take(i));
    if i < path.len() {
        assert(all[i] == '/');
        lemma_first_char_unique(all, '/', i);
        let rest = path.skip(i + 1);
        assert(all.skip(i + 1) =~= rest + seq!['/'] + name);
        lemma_names_pushed(rest, name, false);
        assert(names_in(all, at_start) =~= names_in(path, at_start).push(name));
    } else {
        assert(path.take(i) =~= path);
        assert(all[i] == '/');
        lemma_first_char_unique(all, '/', i);
        assert(all.skip(i + 1) =~= name);
        lemma_names_in_plain(name, false);
        assert(names_in(all, at_start) =~= names_in(path, at_start).push(name));
    }
}

/// Whether components are a root or none, and then plain names.
spec fn are_plain(components: Seq<Seq<char>>) -> bool {
    forall|i: int|
        0 <= i < components.len() ==> is_plain(#[trigger] components[i]) || (i == 0
            && components[i] == seq!['/'])
}

/// The components of the path that plain components make are those components.
proof fn lemma_components_of_joined(components: Seq<Seq<char>>)
    requires
        are_plain(components),
    ensures
        components_of(joined(components)) == components,
        components.len() > 0 ==> joined(components).len() > 0,
        components.len() > 1 ==> joined(components).last() != '/',
        components.len() == 1 && is_plain(components[0]) ==> joined(components).last() != '/',
    decreases components.len(),
{
    let path = joined(components);
    if components.len() == 0 {
        assert(path.take(0) =~= path);
        lemma_first_char_unique(path, '/', 0);
        assert(names_in(path, true) =~= Seq::empty());
        assert(components_of(path) =~= components);
    } else {
        let init = components.drop_last();
        let name = components.last();
        assert forall|i: int| 0 <= i < init.len() implies is_plain(#[trigger] init[i]) || (i == 0
            && init[i] == seq!['/']) by {
            assert(init[i] == components[i]);
        }
        lemma_components_of_joined(init);
        let before = joined(init);
        assert(components[components.len() - 1] == name);
        if !is_plain(name) {
            // The root alone.
            assert(path =~= seq!['/']);
            assert(path.take(0) =~= Seq::empty());
            lemma_first_char_unique(path, '/', 0);
            assert(path.skip(1) =~= Seq::empty());
            let none = Seq::<char>::empty();
            assert(none.take(0) =~= none);
            lemma_first_char_unique(none, '/', 0);
            assert(names_in(none, false) =~= Seq::empty());
            assert(names_in(path, true) =~= Seq::empty());
            assert(components_of(path) =~= components);
        } else {
            if name[0] == '/' {
                assert(name.contains('/'));
            }
            if name.last() == '/' {
                assert(name.contains('/'));
            }
            if init.len() == 0 {
                assert(path =~= name);
                lemma_names_in_plain(name, true);
                assert(components_of(path) =~= components);
            } else if init.len() == 1 && !is_plain(init[0]) {
                assert(init[0] == seq!['/']);
                assert(init.drop_last() =~= Seq::empty());
                assert(before =~= seq!['/']);
                assert(path =~= Seq::<char>::empty() + seq!['/'] + name);
                lemma_names_pushed(Seq::empty(), name, true);
                let none = Seq::<char>::empty();
                assert(none.take(0) =~= none);
                lemma_first_char_unique(none, '/', 0);
                assert(names_in(none, true) =~= Seq::empty());
                assert(components_of(path) =~= components);
            } else {
                assert(before.last() != '/');
                assert(path == before + seq!['/'] + name);
                lemma_names_pushed(before, name, true);
                assert(path[0] == before[0]);
                assert(components_of(path) =~= components_of(before).push(name));
                assert(components_of(path) =~= components);
            }
            assert(path.last() == name.last());
        }
    }
}

proof fn lemma_names_have_no_slash(s: Seq<char>, at_start: bool)
    ensures
        forall|i: int|
            0 <= i < names_in(s, at_start).len() ==> (#[trigger] names_in(s, at_start)[i]).len() > 0
                && !names_in(s, at_start)[i].contains('/') && (forall|c: char|
                names_in(s, at_start)[i].contains(c) ==> s.contains(c)),
    decreases s.len(),
{
    let i = first_char(s, '/');
    lemma_first_char(s, '/');
    let name = s.take(i);
    assert forall|c: char| name.contains(c) implies s.contains(c) by {
        let j = choose|j: int| 0 <= j < name.len() && name[j] == c;
        assert(s[j] == c);
    }
    if i < s.len() {
        let rest = s.skip(i + 1);
        lemma_names_have_no_slash(rest, false);
        let more = names_in(rest, false);
        let all = names_in(s, at_start);
        let shift: int = if is_name(name, at_start) {
            1
        } else {
            0
        };
        assert forall|n: int| 0 <= n < all.len() implies (#[trigger] all[n]).len() > 0
            && !all[n].contains('/') && (forall|c: char| all[n].contains(c) ==> s.contains(c)) by {
            if n >= shift {
                assert(all[n] == more[n - shift]);
                assert forall|c: char| all[n].contains(c) implies s.contains(c) by {
                    assert(rest.contains(c));
                    let j = choose|j: int| 0 <= j < rest.len() && rest[j] == c;
                    assert(s[i + 1 + j] == c);
                }
            } else {
                assert(all[n] == name);
            }
        }
    }
}

/// What cleaning makes of the components of a key: a root stays, and a name becomes a plain one.
proof fn lemma_clean_components(key: Seq<char>)
    ensures
        are_plain(clean_components_of(components_of(key))),
        forall|i: int|
            0 <= i < components_of(key).len() ==> (!key.contains('%') ==> unclean_component_of(
                #[trigger] clean_components_of(components_of(key))[i],
            ) == Some(components_of(key)[i])),
        forall|i: int|
            0 <= i < components_of(key).len() ==> !(#[trigger] clean_components_of(
                components_of(key),
            )[i]).contains('.'),
{
    let parts = components_of(key);
    let clean = clean_components_of(parts);
    let names = names_in(key, true);
    lemma_names_have_no_slash(key, true);
    let absolute = key.len() > 0 && key[0] == '/';
    let shift: int = if absolute {
        1
    } else {
        0
    };
    assert forall|i: int| 0 <= i < parts.len() implies {
        &&& is_plain(#[trigger] clean[i]) || (i == 0 && clean[i] == seq!['/'])
        &&& !key.contains('%') ==> unclean_component_of(clean[i]) == Some(parts[i])
        &&& !clean[i].contains('.')
    } by {
        assert(clean[i] == clean_component_of(parts[i]));
        if i < shift {
            assert(parts[i] == seq!['/']);
            lemma_root_stays();
        } else {
            assert(parts[i] == names[i - shift]);
            lemma_clean_component(parts[i]);
            if clean[i] == seq!['.'] {
                assert(clean[i][0] == '.');
                assert(clean[i].contains('.'));
            }
        }
    }
}

proof fn lemma_root_stays()
    ensures
        clean_component_of(seq!['/']) == seq!['/'],
        unclean_component_of(seq!['/']) == Some(seq!['/']),
{
    let root = seq!['/'];
    lemma_ascii_scalar('/');
    assert(root.drop_first() =~= Seq::empty());
    assert(encode_utf8(root.drop_first()) =~= Seq::empty());
    assert(encode_utf8(root) =~= seq![47u8]);
    let bytes = seq![47u8];
    assert(bytes.drop_first() =~= Seq::empty());
    assert(percent_encoded(bytes.drop_first()) =~= Seq::empty());
    assert(percent_encoded(bytes) =~= bytes);
    assert(clean_component_of(root) =~= root);
    assert(percent_decoded(bytes.drop_first()) =~= Seq::empty());
    assert(percent_decoded(bytes) =~= bytes);
    encode_utf8_valid_utf8(root);
    encode_utf8_decode_utf8(root);
}

proof fn lemma_unclean_joined(names: Seq<Seq<char>>, parts: Seq<Seq<char>>)
    requires
        names.len() == parts.len(),
        forall|i: int|
            0 <= i < names.len() ==> unclean_component_of(#[trigger] names[i]) == Some(parts[i]),
    ensures
        unclean_joined(names) == Some(joined(parts)),
    decreases names.len(),
{
    if names.len() > 0 {
        let n = names.drop_last();
        let p = parts.drop_last();
        assert forall|i: int| 0 <= i < n.len() implies unclean_component_of(#[trigger] n[i])
            == Some(p[i]) by {
            assert(n[i] == names[i]);
        }
        lemma_unclean_joined(n, p);
        assert(unclean_component_of(names[names.len() - 1]) == Some(parts[parts.len() - 1]));
    }
}

/// A key without percent sign is found again from its form in the file system, but for slashes and
/// dots that count as nothing.
pub proof fn law_key_is_found_again(key: Seq<char>)
    requires
        !key.contains('%'),
    ensures
        unclean_key_of(clean_key_of(key)) == Some(joined(components_of(key))),
{
    let parts = components_of(key);
    let clean = clean_components_of(parts);
    lemma_clean_components(key);
    lemma_components_of_joined(clean);
    lemma_unclean_joined(clean, parts);
}

/// No component of the form of a key in the file system has a dot: none leads to another directory,
/// and none ends like a deletion mark.
pub proof fn law_clean_key_has_no_dots(key: Seq<char>, i: int)
    requires
        0 <= i < components_of(clean_key_of(key)).len(),
    ensures
        !components_of(clean_key_of(key))[i].contains('.'),
{
    let clean = clean_components_of(components_of(key));
    lemma_clean_components(key);
    lemma_components_of_joined(clean);
    assert(components_of(clean_key_of(key))[i] == clean[i]);
}

} // verus!
