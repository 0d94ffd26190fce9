//! Character-level helpers on strings, each stated over the sequence of characters.
use vstd::prelude::*;

verus! {

use vstd::utf8::encode_utf8;

/// `String::push` appends the character to the end of the string.
pub assume_specification[ String::push ](s: &mut String, c: char)
    ensures
        final(s)@ == old(s)@.push(c),
;

/// The characters of `s`, in order.
pub fn chars_of(s: &str) -> (v: Vec<char>)
    ensures
        v@ == s@,
{
    let mut v: Vec<char> = Vec::new();
    for c in it: s.chars()
        invariant
            v@ == it.seq().take(it.index() as int),
            it.seq() == s@,
    {
        v.push(c);
    }
    v
}

/// The string made of the characters of `v`.
pub fn string_of(v: &[char]) -> (s: String)
    ensures
        s@ == v@,
{
    let mut s = String::new();
    let mut i: usize = 0;
    while i < v.len()
        invariant
            i <= v.len(),
            s@ == v@.take(i as int),
        decreases v.len() - i,
    {
        s.push(v[i]);
        i += 1;
    }
    s
}

/// The text of a byte string, with what is not UTF-8 replaced.
pub uninterp spec fn lossy_text(bytes: Seq<u8>) -> Seq<char>;

/// Calls `String::from_utf8_lossy`. The result is named `lossy_text`; UTF-8 is taken as it is.
#[verifier::external_body]
pub(crate) fn text_of_bytes(bytes: &[u8]) -> (r: String)
    ensures
        r@ == lossy_text(bytes@),
        forall|s: Seq<char>| bytes@ == #[trigger] encode_utf8(s) ==> r@ == s,
{
    String::from_utf8_lossy(bytes).into_owned()
}

/// The text of an object's characters in lower case.
pub uninterp spec fn lowercase(s: Seq<char>) -> Seq<char>;

/// Calls `str::to_lowercase`. The result is named `lowercase`.
#[verifier::external_body]
pub(crate) fn to_lowercase(s: &str) -> (r: String)
    ensures
        r@ == lowercase(s@),
{
    s.to_lowercase()
}

/// The digit character of `d`, for `d` below ten.
pub open spec fn digit_char(d: nat) -> char {
    (48 + d) as char
}

/// The decimal digits of `n`, without leading zeros.
pub open spec fn decimal(n: nat) -> Seq<char>
    decreases n,
{
    if n < 10 {
        seq![digit_char(n)]
    } else {
        decimal(n / 10).push(digit_char(n % 10))
    }
}

/// The lower-case hexadecimal digit of `d`, for `d` below sixteen.
pub open spec fn hex_char(d: nat) -> char {
    if d < 10 {
        (48 + d) as char
    } else {
        (87 + d) as char
    }
}

/// The lower-case hexadecimal digits of `n`, without leading zeros.
pub open spec fn hex(n: nat) -> Seq<char>
    decreases n,
{
    if n < 16 {
        seq![hex_char(n)]
    } else {
        hex(n / 16).push(hex_char(n % 16))
    }
}

/// `s` with zeros put in front until it has at least `width` characters.
pub open spec fn zero_padded(s: Seq<char>, width: nat) -> Seq<char> {
    if s.len() >= width {
        s
    } else {
        Seq::new((width - s.len()) as nat, |i: int| '0') + s
    }
}

/// The value of `c` as a digit in base `radix`, if it is one.
pub open spec fn digit_value(c: char, radix: nat) -> Option<nat> {
    let v: nat = if '0' <= c <= '9' {
        (c as nat - 48) as nat
    } else if 'a' <= c <= 'z' {
        (c as nat - 87) as nat
    } else if 'A' <= c <= 'Z' {
        (c as nat - 55) as nat
    } else {
        radix
    };
    if v < radix {
        Some(v)
    } else {
        None
    }
}

/// The number that the digits `s` write in base `radix`, if all of them are digits.
pub open spec fn digits_value(s: Seq<char>, radix: nat) -> Option<nat>
    decreases s.len(),
{
    if s.len() == 0 {
        Some(0)
    } else {
        match (digits_value(s.drop_last(), radix), digit_value(s.last(), radix)) {
            (Some(v), Some(d)) => Some(v * radix + d),
            _ => None,
        }
    }
}

/// What reading `s` as an unsigned 64-bit number in base `radix` gives: an optional plus sign,
/// then at least one digit, and a value in range.
pub open spec fn parsed(s: Seq<char>, radix: nat) -> Option<u64> {
    let digits = if s.len() > 0 && s[0] == '+' {
        s.drop_first()
    } else {
        s
    };
    match digits_value(digits, radix) {
        Some(v) if digits.len() > 0 && v <= u64::MAX => Some(v as u64),
        _ => None,
    }
}

fn digit_to_char(d: u8) -> (c: char)
    requires
        d < 16,
    ensures
        c == hex_char(d as nat),
        d < 10 ==> c == digit_char(d as nat),
{
    if d < 10 {
        (48 + d) as char
    } else {
        (87 + d) as char
    }
}

fn reversed_string(v: &Vec<char>) -> (s: String)
    ensures
        s@ == v@.reverse(),
{
    let mut s = String::new();
    let mut i: usize = v.len();
    while i > 0
        invariant
            i <= v.len(),
            s@ == v@.subrange(i as int, v@.len() as int).reverse(),
        decreases i,
    {
        i -= 1;
        s.push(v[i]);
        assert(s@ =~= v@.subrange(i as int, v@.len() as int).reverse());
    }
    assert(v@.subrange(0, v@.len() as int) =~= v@);
    s
}

/// `n` in decimal.
pub fn decimal_string(n: u128) -> (s: String)
    ensures
        s@ == decimal(n as nat),
{
    let mut rest: u128 = n;
    let mut digits: Vec<char> = Vec::new();
    while rest >= 10
        invariant
            decimal(n as nat) == decimal(rest as nat) + digits@.reverse(),
        decreases rest,
    {
        let d: u8 = (rest % 10) as u8;
        let ghost before = digits@;
        digits.push(digit_to_char(d));
        proof {
            assert(digits@.reverse() =~= seq![digit_char(d as nat)] + before.reverse());
            assert(decimal(rest as nat) + before.reverse() =~= decimal((rest / 10) as nat)
                + digits@.reverse());
        }
        rest = rest / 10;
    }
    let ghost before = digits@;
    digits.push(digit_to_char(rest as u8));
    proof {
        assert(digits@.reverse() =~= seq![digit_char(rest as nat)] + before.reverse());
    }
    reversed_string(&digits)
}

/// `n` in lower-case hexadecimal.
pub fn hex_string(n: u128) -> (s: String)
    ensures
        s@ == hex(n as nat),
{
    let mut rest: u128 = n;
    let mut digits: Vec<char> = Vec::new();
    while rest >= 16
        invariant
            hex(n as nat) == hex(rest as nat) + digits@.reverse(),
        decreases rest,
    {
        let d: u8 = (rest % 16) as u8;
        let ghost before = digits@;
        digits.push(digit_to_char(d));
        proof {
            assert(digits@.reverse() =~= seq![hex_char(d as nat)] + before.reverse());
            assert(hex(rest as nat) + before.reverse() =~= hex((rest / 16) as nat)
                + digits@.reverse());
        }
        rest = rest / 16;
    }
    let ghost before = digits@;
    digits.push(digit_to_char(rest as u8));
    proof {
        assert(digits@.reverse() =~= seq![hex_char(rest as nat)] + before.reverse());
    }
    reversed_string(&digits)
}

/// `n` in decimal, with zeros in front up to `width` characters.
pub fn padded_decimal_string(n: u64, width: usize) -> (s: String)
    ensures
        s@ == zero_padded(decimal(n as nat), width as nat),
{
    let digits = chars_of(decimal_string(n as u128).as_str());
    let mut s = String::new();
    if digits.len() < width {
        let pad: usize = width - digits.len();
        let mut i: usize = 0;
        while i < pad
            invariant
                i <= pad,
                s@ == Seq::new(i as nat, |i: int| '0'),
            decreases pad - i,
        {
            s.push('0');
            i += 1;
            assert(s@ =~= Seq::new(i as nat, |i: int| '0'));
        }
    }
    s.append(string_of(digits.as_slice()).as_str());
    assert(s@ =~= zero_padded(decimal(n as nat), width as nat));
    s
}

fn char_digit(c: char, radix: u32) -> (d: Option<u32>)
    requires
        2 <= radix <= 36,
    ensures
        d is Some <==> digit_value(c, radix as nat) is Some,
        d matches Some(v) ==> digit_value(c, radix as nat) == Some(v as nat),
{
    let u: u32 = c as u32;
    let v: u32 = if 48 <= u && u <= 57 {
        u - 48
    } else if 97 <= u && u <= 122 {
        u - 87
    } else if 65 <= u && u <= 90 {
        u - 55
    } else {
        radix
    };
    if v < radix {
        Some(v)
    } else {
        None
    }
}

proof fn lemma_digits_prefix(s: Seq<char>, i: int, radix: nat)
    requires
        0 <= i <= s.len(),
        radix >= 2,
        digits_value(s, radix) is Some,
    ensures
        digits_value(s.take(i), radix) is Some,
        digits_value(s.take(i), radix).unwrap() <= digits_value(s, radix).unwrap(),
    decreases s.len(),
{
    if i < s.len() {
        lemma_digits_prefix(s.drop_last(), i, radix);
        assert(s.drop_last().take(i) =~= s.take(i));
        let v = digits_value(s.drop_last(), radix).unwrap();
        assert(v * radix >= v) by (nonlinear_arith)
            requires
                radix >= 2,
                v >= 0,
        ;
    } else {
        assert(s.take(i) =~= s);
    }
}

/// Read the digits of `v` from `from` on as a number in base `radix`.
pub fn parse_chars(v: &[char], radix: u32) -> (r: Option<u64>)
    requires
        2 <= radix <= 36,
    ensures
        r == parsed(v@, radix as nat),
{
    let from: usize = if v.len() > 0 && v[0] == '+' {
        1
    } else {
        0
    };
    let ghost digits = v@.subrange(from as int, v@.len() as int);
    proof {
        if v@.len() > 0 && v@[0] == '+' {
            assert(digits =~= v@.drop_first());
        } else {
            assert(digits =~= v@);
        }
    }
    if from == v.len() {
        return None;
    }
    let mut acc: u64 = 0;
    let mut i: usize = from;
    assert(digits.take(0) =~= Seq::<char>::empty());
    while i < v.len()
        invariant
            from <= i <= v.len(),
            2 <= radix <= 36,
            digits == v@.subrange(from as int, v@.len() as int),
            digits.len() > 0,
            digits_value(digits.take(i - from), radix as nat) == Some(acc as nat),
            parsed(v@, radix as nat) == (match digits_value(digits, radix as nat) {
                Some(n) if n <= u64::MAX => Some(n as u64),
                _ => None,
            }),
        decreases v.len() - i,
    {
        let ghost next = digits.take(i - from + 1);
        proof {
            assert(next.drop_last() =~= digits.take(i - from));
            assert(next.last() == v@[i as int]);
            if digits_value(digits, radix as nat) is Some {
                lemma_digits_prefix(digits, i - from + 1, radix as nat);
            }
        }
        match char_digit(v[i], radix) {
            None => {
                return None;
            },
            Some(d) => {
                assert(0 <= acc as u128 * radix as u128 <= 0xffff_ffff_ffff_ffff * 36)
                    by (nonlinear_arith)
                    requires
                        0 <= acc <= 0xffff_ffff_ffff_ffff,
                        0 <= radix <= 36,
                ;
                let wide: u128 = acc as u128 * radix as u128 + d as u128;
                proof {
                    assert(digits_value(next, radix as nat) == Some(wide as nat));
                }
                if wide > u64::MAX as u128 {
                    return None;
                }
                acc = wide as u64;
            },
        }
        i += 1;
    }
    assert(digits.take(digits.len() as int) =~= digits);
    Some(acc)
}

/// Read `s` as an unsigned 64-bit decimal number.
pub fn parse_u64(s: &str) -> (r: Option<u64>)
    ensures
        r == parsed(s@, 10),
{
    let v = chars_of(s);
    parse_chars(v.as_slice(), 10)
}

/// Whether `p` stands in `s` at position `i`.
pub open spec fn occurs_at(s: Seq<char>, p: Seq<char>, i: int) -> bool {
    0 <= i && i + p.len() <= s.len() && s.subrange(i, i + p.len()) == p
}

/// Whether `p` stands somewhere in `s`.
pub open spec fn occurs(s: Seq<char>, p: Seq<char>) -> bool {
    exists|i: int| occurs_at(s, p, i)
}

/// Whether `a` comes before `b` in the order of their characters.
pub open spec fn text_lt(a: Seq<char>, b: Seq<char>) -> bool
    decreases a.len(),
{
    if b.len() == 0 {
        false
    } else if a.len() == 0 {
        true
    } else if a[0] == b[0] {
        text_lt(a.drop_first(), b.drop_first())
    } else {
        a[0] < b[0]
    }
}

/// The white space characters of Unicode.
pub open spec fn is_white(c: char) -> bool {
    let u = c as u32;
    0x9 <= u <= 0xd || u == 0x20 || u == 0x85 || u == 0xa0 || u == 0x1680 || 0x2000 <= u <= 0x200a
        || u == 0x2028 || u == 0x2029 || u == 0x202f || u == 0x205f || u == 0x3000
}

/// `s` without the white space at its start.
pub open spec fn trimmed_start(s: Seq<char>) -> Seq<char>
    decreases s.len(),
{
    if s.len() > 0 && is_white(s[0]) {
        trimmed_start(s.drop_first())
    } else {
        s
    }
}

/// `s` without the white space at its end.
pub open spec fn trimmed_end(s: Seq<char>) -> Seq<char>
    decreases s.len(),
{
    if s.len() > 0 && is_white(s.last()) {
        trimmed_end(s.drop_last())
    } else {
        s
    }
}

/// `s` without the white space at its start and end.
pub open spec fn trimmed(s: Seq<char>) -> Seq<char> {
    trimmed_end(trimmed_start(s))
}

/// Whether `p` stands in `s` at position `i`.
pub fn chars_at(s: &[char], p: &[char], i: usize) -> (r: bool)
    ensures
        r == occurs_at(s@, p@, i as int),
{
    if i > s.len() || p.len() > s.len() - i {
        return false;
    }
    let mut j: usize = 0;
    while j < p.len()
        invariant
            j <= p.len(),
            i + p.len() <= s.len(),
            s@.subrange(i as int, i + j) == p@.take(j as int),
        decreases p.len() - j,
    {
        if s[i + j] != p[j] {
            assert(s@.subrange(i as int, i + p@.len())[j as int] != p@[j as int]);
            return false;
        }
        j += 1;
        assert(s@.subrange(i as int, i + j) =~= p@.take(j as int));
    }
    assert(p@.take(p@.len() as int) =~= p@);
    true
}

/// Whether `s` starts with `p`.
pub fn starts_with(s: &str, p: &str) -> (r: bool)
    ensures
        r == p@.is_prefix_of(s@),
{
    chars_at(chars_of(s).as_slice(), chars_of(p).as_slice(), 0)
}

/// Whether `s` ends with `p`.
pub fn ends_with(s: &str, p: &str) -> (r: bool)
    ensures
        r == p@.is_suffix_of(s@),
{
    let sv = chars_of(s);
    let pv = chars_of(p);
    if pv.len() > sv.len() {
        return false;
    }
    chars_at(sv.as_slice(), pv.as_slice(), sv.len() - pv.len())
}

/// Whether `p` stands somewhere in `s`.
pub fn contains_text(s: &str, p: &str) -> (r: bool)
    ensures
        r == occurs(s@, p@),
{
    find_text(chars_of(s).as_slice(), chars_of(p).as_slice(), 0).is_some()
}

/// The first position from `from` on at which `p` stands in `s`.
pub fn find_text(s: &[char], p: &[char], from: usize) -> (r: Option<usize>)
    ensures
        r matches Some(i) ==> from <= i && occurs_at(s@, p@, i as int) && forall|j: int|
            from <= j < i ==> !occurs_at(s@, p@, j),
        r is None ==> forall|j: int| from <= j ==> !occurs_at(s@, p@, j),
{
    let mut i: usize = from;
    while i < s.len()
        invariant
            from <= i,
            i <= s.len() || i == from,
            forall|j: int| from <= j < i ==> !occurs_at(s@, p@, j),
        decreases s.len() - i,
    {
        if chars_at(s, p, i) {
            return Some(i);
        }
        i += 1;
    }
    if chars_at(s, p, i) {
        Some(i)
    } else {
        None
    }
}

fn char_before(x: char, y: char) -> (r: bool)
    ensures
        r == (x < y),
{
    (x as u32) < (y as u32)
}

/// Compare two strings in the order of their characters.
pub fn text_before(a: &str, b: &str) -> (r: bool)
    ensures
        r == text_lt(a@, b@),
{
    let av = chars_of(a);
    let bv = chars_of(b);
    let mut i: usize = 0;
    assert(av@.skip(0) =~= av@);
    assert(bv@.skip(0) =~= bv@);
    while i < av.len() && i < bv.len()
        invariant
            i <= av.len(),
            i <= bv.len(),
            text_lt(a@, b@) == text_lt(av@.skip(i as int), bv@.skip(i as int)),
        decreases av.len() - i,
    {
        assert(av@.skip(i as int).drop_first() =~= av@.skip(i + 1));
        assert(bv@.skip(i as int).drop_first() =~= bv@.skip(i + 1));
        let x: char = av[i];
        let y: char = bv[i];
        if x != y {
            return char_before(x, y);
        }
        i += 1;
    }
    i < bv.len()
}

fn white(c: char) -> (r: bool)
    ensures
        r == is_white(c),
{
    let u: u32 = c as u32;
    (0x9 <= u && u <= 0xd) || u == 0x20 || u == 0x85 || u == 0xa0 || u == 0x1680 || (0x2000 <= u
        && u <= 0x200a) || u == 0x2028 || u == 0x2029 || u == 0x202f || u == 0x205f || u == 0x3000
}

/// `s` without the white space at its start and end.
pub fn trim(s: &str) -> (r: String)
    ensures
        r@ == trimmed(s@),
{
    let v = chars_of(s);
    let mut i: usize = 0;
    assert(v@.skip(0) =~= v@);
    while i < v.len() && white(v[i])
        invariant
            i <= v.len(),
            trimmed_start(v@) == trimmed_start(v@.skip(i as int)),
        decreases v.len() - i,
    {
        assert(v@.skip(i as int).drop_first() =~= v@.skip(i + 1));
        i += 1;
    }
    let mut j: usize = v.len();
    assert(v@.subrange(i as int, j as int) =~= v@.skip(i as int));
    while j > i && white(v[j - 1])
        invariant
            i <= j <= v.len(),
            trimmed(v@) == trimmed_end(v@.subrange(i as int, j as int)),
        decreases j,
    {
        assert(v@.subrange(i as int, j as int).drop_last() =~= v@.subrange(i as int, j - 1));
        j -= 1;
    }
    string_of(&v.as_slice()[i..j])
}

/// `s` without its first `from` characters.
pub fn text_from(s: &str, from: usize) -> (r: String)
    requires
        from <= s@.len(),
    ensures
        r@ == s@.skip(from as int),
{
    let v = chars_of(s);
    let r = string_of(&v.as_slice()[from..v.len()]);
    assert(r@ =~= s@.skip(from as int));
    r
}

/// The first `to` characters of `s`.
pub fn text_up_to(s: &str, to: usize) -> (r: String)
    requires
        to <= s@.len(),
    ensures
        r@ == s@.take(to as int),
{
    let v = chars_of(s);
    let r = string_of(&v.as_slice()[0..to]);
    assert(r@ =~= s@.take(to as int));
    r
}

/// `s` without the prefix `p`, if it has it.
pub fn strip_prefix(s: &str, p: &str) -> (r: Option<String>)
    ensures
        r is Some <==> p@.is_prefix_of(s@),
        r matches Some(t) ==> t@ == s@.skip(p@.len() as int),
{
    if starts_with(s, p) {
        let n: usize = p.unicode_len();
        Some(text_from(s, n))
    } else {
        None
    }
}

/// The position of the first `c` in `s`.
pub fn find_char(s: &[char], c: char) -> (r: Option<usize>)
    ensures
        r matches Some(i) ==> i < s@.len() && s@[i as int] == c && !s@.take(i as int).contains(c),
        r is None ==> !s@.contains(c),
{
    let mut i: usize = 0;
    while i < s.len()
        invariant
            i <= s.len(),
            !s@.take(i as int).contains(c),
        decreases s.len() - i,
    {
        if s[i] == c {
            return Some(i);
        }
        i += 1;
        assert(forall|j: int| 0 <= j < i ==> s@.take(i as int)[j] == s@[j]);
        assert(!s@.take(i as int).contains(c)) by {
            if s@.take(i as int).contains(c) {
                let j = choose|j: int| 0 <= j < i && s@.take(i as int)[j] == c;
                assert(s@.take(i - 1)[j] == c);
            }
        }
    }
    assert(s@.take(s@.len() as int) =~= s@);
    None
}

/// The position of the last `c` in `s`.
pub fn rfind_char(s: &[char], c: char) -> (r: Option<usize>)
    ensures
        r matches Some(i) ==> i < s@.len() && s@[i as int] == c && !s@.skip(i + 1).contains(c),
        r is None ==> !s@.contains(c),
{
    let mut i: usize = s.len();
    while i > 0
        invariant
            i <= s.len(),
            !s@.skip(i as int).contains(c),
        decreases i,
    {
        if s[i - 1] == c {
            return Some(i - 1);
        }
        i -= 1;
        assert(!s@.skip(i as int).contains(c)) by {
            if s@.skip(i as int).contains(c) {
                let j = choose|j: int| 0 <= j < s@.len() - i && s@.skip(i as int)[j] == c;
                assert(s@.skip(i + 1)[j - 1] == c);
            }
        }
    }
    assert(s@.skip(0) =~= s@);
    None
}

/// The concatenation of two strings.
pub fn join2(a: &str, b: &str) -> (r: String)
    ensures
        r@ == a@ + b@,
{
    let mut r = String::new();
    r.append(a);
    r.append(b);
    assert(r@ =~= a@ + b@);
    r
}

/// The concatenation of three strings.
pub fn join3(a: &str, b: &str, c: &str) -> (r: String)
    ensures
        r@ == a@ + b@ + c@,
{
    let mut r = join2(a, b);
    r.append(c);
    r
}

/// A copy of a string slice.
pub fn owned(s: &str) -> (r: String)
    ensures
        r@ == s@,
{
    let r = s.to_owned();
    r
}

/// Whether two strings hold the same characters.
pub fn same_text(a: &str, b: &str) -> (r: bool)
    ensures
        r == (a@ == b@),
{
    let av = chars_of(a);
    let bv = chars_of(b);
    if av.len() != bv.len() {
        return false;
    }
    let r = chars_at(av.as_slice(), bv.as_slice(), 0);
    assert(a@.subrange(0, b@.len() as int) =~= a@);
    r
}

pub proof fn lemma_text_lt_irreflexive(a: Seq<char>)
    ensures
        !text_lt(a, a),
    decreases a.len(),
{
    if a.len() > 0 {
        lemma_text_lt_irreflexive(a.drop_first());
    }
}

pub proof fn lemma_text_lt_transitive(a: Seq<char>, b: Seq<char>, c: Seq<char>)
    requires
        text_lt(a, b),
        text_lt(b, c),
    ensures
        text_lt(a, c),
    decreases a.len(),
{
    if a.len() > 0 && b.len() > 0 && c.len() > 0 && a[0] == b[0] && b[0] == c[0] {
        lemma_text_lt_transitive(a.drop_first(), b.drop_first(), c.drop_first());
    }
}

pub proof fn lemma_text_lt_total(a: Seq<char>, b: Seq<char>)
    ensures
        text_lt(a, b) || a == b || text_lt(b, a),
    decreases a.len(),
{
    if a.len() == 0 && b.len() == 0 {
        assert(a =~= b);
    } else if a.len() > 0 && b.len() > 0 && a[0] == b[0] {
        lemma_text_lt_total(a.drop_first(), b.drop_first());
        assert(a =~= seq![a[0]] + a.drop_first());
        assert(b =~= seq![b[0]] + b.drop_first());
    }
}

/// The position of the first `c` in `s`, or the length of `s`.
pub open spec fn first_char(s: Seq<char>, c: char) -> int
    decreases s.len(),
{
    if s.len() == 0 || s[0] == c {
        0
    } else {
        1 + first_char(s.drop_first(), c)
    }
}

pub proof fn lemma_first_char(s: Seq<char>, c: char)
    ensures
        0 <= first_char(s, c) <= s.len(),
        first_char(s, c) < s.len() ==> s[first_char(s, c)] == c,
        !s.take(first_char(s, c)).contains(c),
    decreases s.len(),
{
    if s.len() > 0 && s[0] != c {
        let rest = s.drop_first();
        lemma_first_char(rest, c);
        let i = first_char(rest, c);
        if s.take(i + 1).contains(c) {
            let head = s.take(i + 1);
            let j = choose|j: int| 0 <= j < head.len() && head[j] == c;
            assert(j > 0);
            assert(rest.take(i)[j - 1] == c);
        }
    }
}

pub proof fn lemma_first_char_unique(s: Seq<char>, c: char, i: int)
    requires
        0 <= i <= s.len(),
        i < s.len() ==> s[i] == c,
        !s.take(i).contains(c),
    ensures
        first_char(s, c) == i,
{
    lemma_first_char(s, c);
    let f = first_char(s, c);
    if f < i {
        assert(s.take(i)[f] == c);
    } else if i < f {
        assert(s.take(f)[i] == c);
    }
}

/// Texts stand in the order of their characters: a text comes before every longer one that starts
/// with it, where two texts differ first the lower character decides, and no text comes both before
/// and behind another.
pub proof fn law_texts_are_ordered_by_their_characters(
    head: Seq<char>,
    a: Seq<char>,
    b: Seq<char>,
)
    ensures
        a.len() > 0 ==> text_lt(head, head + a) && !text_lt(head + a, head),
        a.len() > 0 && b.len() > 0 && a[0] < b[0] ==> text_lt(head + a, head + b) && !text_lt(
            head + b,
            head + a,
        ),
        !text_lt(head, head),
    decreases head.len(),
{
    if head.len() == 0 {
        assert(head + a =~= a);
        assert(head + b =~= b);
    } else {
        law_texts_are_ordered_by_their_characters(head.drop_first(), a, b);
        assert((head + a).drop_first() =~= head.drop_first() + a);
        assert((head + b).drop_first() =~= head.drop_first() + b);
    }
}

/// Reading hexadecimal digits gives the number that was written, so that no two numbers have the
/// same digits.
pub proof fn law_hex_is_read_back(n: nat)
    ensures
        hex(n).len() > 0,
        digits_value(hex(n), 16) == Some(n),
    decreases n,
{
    assert forall|d: nat| d < 16 implies digit_value(#[trigger] hex_char(d), 16) == Some(d) by {}
    let s = hex(n);
    if n < 16 {
        assert(s.drop_last() =~= Seq::empty());
        assert(s.last() == hex_char(n));
        assert(digits_value(s.drop_last(), 16) == Some(0nat));
    } else {
        law_hex_is_read_back(n / 16);
        assert(s.drop_last() =~= hex(n / 16));
        assert(s.last() == hex_char(n % 16));
    }
}

/// What stands in a text stands in every text that holds it.
pub proof fn lemma_occurs_within(before: Seq<char>, s: Seq<char>, after: Seq<char>, p: Seq<char>)
    requires
        occurs(s, p),
    ensures
        occurs(before + s + after, p),
{
    let i = choose|i: int| occurs_at(s, p, i);
    let at = before.len() + i;
    assert((before + s + after).subrange(at, at + p.len()) =~= s.subrange(i, i + p.len()));
    assert(occurs_at(before + s + after, p, at));
}

/// A number is read from digits only: a text with any other character, but for a plus sign at its
/// start, is none, and neither is the empty text.
pub proof fn law_only_digits_are_read_as_a_number(s: Seq<char>, i: int)
    requires
        parsed(s, 10) is Some,
        0 <= i < s.len(),
    ensures
        '0' <= s[i] <= '9' || (i == 0 && s[i] == '+'),
        s.len() > 0,
{
    let digits = if s[0] == '+' {
        s.drop_first()
    } else {
        s
    };
    if s[0] == '+' {
        if i > 0 {
            lemma_all_digits(digits, i - 1);
            assert(digits[i - 1] == s[i]);
        }
    } else {
        lemma_all_digits(digits, i);
    }
}

proof fn lemma_all_digits(s: Seq<char>, i: int)
    requires
        digits_value(s, 10) is Some,
        0 <= i < s.len(),
    ensures
        '0' <= s[i] <= '9',
    decreases s.len(),
{
    if i < s.len() - 1 {
        lemma_all_digits(s.drop_last(), i);
    }
}

} // verus!
