//! Text helpers: decimal numerals, percent-encoding of path segments and query
//! components, and normalisation of base URLs.
use vstd::prelude::*;
use vstd::string::{StrSliceExecFns, StringExecFns, StringSliceAdditionalSpecFns};

verus! {

/// Appends one character to a string.
/// Trusted: `String::push`, which std documents as appending the given
/// `char` to the end of the string.
#[verifier::external_body]
fn push_char(s: &mut String, c: char)
    ensures
        final(s)@ == old(s)@.push(c),
{
    s.push(c);
}

/// The ASCII digit for `d < 10`.
pub open spec fn digit_char(d: nat) -> char {
    ((48 + d) as u8) as char
}

/// The decimal numeral of `n`, without sign or leading zeros.
pub open spec fn decimal(n: nat) -> Seq<char>
    decreases n,
{
    if n < 10 {
        seq![digit_char(n)]
    } else {
        decimal(n / 10).push(digit_char(n % 10))
    }
}

/// The value of a string of decimal digits.
pub open spec fn decimal_value(s: Seq<char>) -> int
    decreases s.len(),
{
    if s.len() == 0 {
        0
    } else {
        decimal_value(s.drop_last()) * 10 + (s.last() as u32 - 48)
    }
}

/// The numeral of `n` is made of ASCII digits, has `n` as its value, and
/// starts with `0` only when it is `0` itself.
pub proof fn lemma_decimal(n: nat)
    ensures
        decimal(n).len() > 0,
        forall|i: int| 0 <= i < decimal(n).len() ==> 48 <= (#[trigger] decimal(n)[i]) as u32 <= 57,
        decimal_value(decimal(n)) == n,
        n > 0 ==> decimal(n)[0] != '0',
    decreases n,
{
    if n >= 10 {
        let m = n / 10;
        lemma_decimal(m);
        let d = decimal(m);
        let c = digit_char(n % 10);
        assert(decimal(n) == d.push(c));
        assert((c as u32) == 48 + n % 10);
        assert(d.push(c).drop_last() =~= d);
        assert(m * 10 + n % 10 == n);
        assert(decimal_value(d.push(c)) == decimal_value(d) * 10 + (c as u32 - 48));
        assert(decimal(n)[0] == d[0]);
        assert forall|i: int| 0 <= i < decimal(n).len() implies 48 <= (#[trigger] decimal(n)[i]) as u32
            <= 57 by {
            if i < d.len() {
                assert(decimal(n)[i] == d[i]);
            }
        }
    } else {
        assert((digit_char(n) as u32) == 48 + n);
        assert(seq![digit_char(n)].drop_last() =~= Seq::<char>::empty());
        assert(decimal_value(Seq::<char>::empty()) == 0);
        assert(decimal_value(seq![digit_char(n)]) == decimal_value(Seq::<char>::empty()) * 10 + (
        digit_char(n) as u32 - 48));
    }
}

/// Appends the decimal numeral of `n` to `s`.
pub fn push_decimal(s: &mut String, n: usize)
    ensures
        final(s)@ == old(s)@ + decimal(n as nat),
    decreases n,
{
    if n >= 10 {
        push_decimal(s, n / 10);
    }
    let d: u8 = (n % 10) as u8;
    push_char(s, (48u8 + d) as char);
    proof {
        assert(old(s)@ + decimal(n as nat) =~= (if n >= 10 {
            old(s)@ + decimal((n / 10) as nat)
        } else {
            old(s)@
        }).push(digit_char((n % 10) as nat)));
    }
}

/// The bytes that percent-encoding leaves as they are: ASCII letters and
/// digits and `-`, `_`, `.`, `~`.
pub open spec fn is_unreserved(b: u8) -> bool {
    (65 <= b <= 90) || (97 <= b <= 122) || (48 <= b <= 57) || b == 45 || b == 95 || b == 46
        || b == 126
}

/// The upper-case hexadecimal digit for `d < 16`.
pub open spec fn hex_char(d: u8) -> char {
    if d < 10 {
        ((48 + d) as u8) as char
    } else {
        ((55 + d) as u8) as char
    }
}

/// The characters that stand for one byte: the byte itself when it is
/// unreserved, `+` for a space where `plus_for_space` is set, and `%XY`
/// otherwise.
pub open spec fn encode_byte(b: u8, plus_for_space: bool) -> Seq<char> {
    if is_unreserved(b) {
        seq![b as char]
    } else if plus_for_space && b == 32 {
        seq!['+']
    } else {
        seq!['%', hex_char(b / 16), hex_char(b % 16)]
    }
}

/// Percent-encoding of a byte string, byte by byte.
pub open spec fn percent_encoded(bs: Seq<u8>, plus_for_space: bool) -> Seq<char>
    decreases bs.len(),
{
    if bs.len() == 0 {
        seq![]
    } else {
        percent_encoded(bs.drop_last(), plus_for_space) + encode_byte(bs.last(), plus_for_space)
    }
}

fn hex_digit(d: u8) -> (c: char)
    requires
        d < 16,
    ensures
        c == hex_char(d),
{
    if d < 10 {
        (48u8 + d) as char
    } else {
        (55u8 + d) as char
    }
}

fn percent_encode(input: &str, plus_for_space: bool) -> (out: String)
    ensures
        out@ == percent_encoded(input.spec_bytes(), plus_for_space),
{
    let bytes = input.as_bytes();
    let mut out = String::new();
    let mut i: usize = 0;
    while i < bytes.len()
        invariant
            i <= bytes@.len(),
            bytes@ == input.spec_bytes(),
            out@ == percent_encoded(bytes@.take(i as int), plus_for_space),
        decreases bytes@.len() - i,
    {
        let b = bytes[i];
        proof {
            assert(bytes@.take(i + 1).drop_last() =~= bytes@.take(i as int));
            assert(bytes@.take(i + 1).last() == b);
        }
        if (65 <= b && b <= 90) || (97 <= b && b <= 122) || (48 <= b && b <= 57) || b == 45 || b
            == 95 || b == 46 || b == 126 {
            push_char(&mut out, b as char);
        } else if plus_for_space && b == 32 {
            push_char(&mut out, '+');
        } else {
            push_char(&mut out, '%');
            push_char(&mut out, hex_digit(b / 16));
            push_char(&mut out, hex_digit(b % 16));
        }
        proof {
            assert(out@ =~= percent_encoded(bytes@.take(i + 1), plus_for_space));
        }
        i = i + 1;
    }
    proof {
        assert(bytes@.take(bytes@.len() as int) =~= bytes@);
    }
    out
}

/// Percent-encodes a string for use as one URL path segment.
pub fn encode_path_segment(input: &str) -> (out: String)
    ensures
        out@ == percent_encoded(input.spec_bytes(), false),
{
    percent_encode(input, false)
}

/// Percent-encodes a string for use in a URL query, with `+` for a space.
pub fn encode_query_component(input: &str) -> (out: String)
    ensures
        out@ == percent_encoded(input.spec_bytes(), true),
{
    percent_encode(input, true)
}

/// The value of an upper-case hexadecimal digit.
pub open spec fn hex_value(c: char) -> int {
    let n = c as u32;
    if 48 <= n <= 57 {
        n - 48
    } else {
        n - 55
    }
}

/// Percent-decoding, read from the front: `%XY` is the byte `XY`, `+` a
/// space where `plus_for_space` is set, any other character its own code.
pub open spec fn percent_decoded(cs: Seq<char>, plus_for_space: bool) -> Seq<u8>
    decreases cs.len(),
{
    if cs.len() == 0 {
        Seq::empty()
    } else if cs[0] == '%' && cs.len() >= 3 {
        seq![(hex_value(cs[1]) * 16 + hex_value(cs[2])) as u8] + percent_decoded(
            cs.skip(3),
            plus_for_space,
        )
    } else if cs[0] == '+' && plus_for_space {
        seq![32u8] + percent_decoded(cs.skip(1), plus_for_space)
    } else {
        seq![cs[0] as u8] + percent_decoded(cs.skip(1), plus_for_space)
    }
}

/// The characters percent-encoding writes: unreserved ones, `%` and `+`.
pub open spec fn encoded_char(c: char) -> bool {
    let n = c as u32;
    (65 <= n <= 90) || (97 <= n <= 122) || (48 <= n <= 57) || n == 45 || n == 95 || n == 46
        || n == 126 || n == 37 || n == 43
}

proof fn lemma_encode_append(a: Seq<u8>, b: Seq<u8>, p: bool)
    ensures
        percent_encoded(a + b, p) == percent_encoded(a, p) + percent_encoded(b, p),
    decreases b.len(),
{
    if b.len() == 0 {
        assert(a + b =~= a);
        assert(percent_encoded(a, p) + percent_encoded(b, p) =~= percent_encoded(a, p));
    } else {
        lemma_encode_append(a, b.drop_last(), p);
        assert((a + b).drop_last() =~= a + b.drop_last());
        assert((a + b).last() == b.last());
        assert(percent_encoded(a + b, p) =~= percent_encoded(a, p) + percent_encoded(b, p));
    }
}

proof fn lemma_hex_value(d: u8)
    requires
        d < 16,
    ensures
        hex_value(hex_char(d)) == d,
        encoded_char(hex_char(d)),
        hex_char(d) != '%',
{
}

proof fn lemma_decode_byte(b: u8, rest: Seq<char>, p: bool)
    ensures
        percent_decoded(encode_byte(b, p) + rest, p) == seq![b] + percent_decoded(rest, p),
{
    let e = encode_byte(b, p);
    let cs = e + rest;
    if is_unreserved(b) {
        assert(cs[0] == b as char);
        assert(cs.skip(1) =~= rest);
    } else if p && b == 32 {
        assert(cs.skip(1) =~= rest);
    } else {
        lemma_hex_value(b / 16);
        lemma_hex_value(b % 16);
        assert(cs[1] == hex_char(b / 16));
        assert(cs[2] == hex_char(b % 16));
        assert(cs.skip(3) =~= rest);
        assert((b / 16) * 16 + b % 16 == b);
    }
}

/// Decoding percent-encoding gives back the bytes encoded.
pub proof fn lemma_percent_decode_encode(bs: Seq<u8>, plus_for_space: bool)
    ensures
        percent_decoded(percent_encoded(bs, plus_for_space), plus_for_space) == bs,
    decreases bs.len(),
{
    if bs.len() > 0 {
        let head = bs.take(1);
        let tail = bs.skip(1);
        assert(bs =~= head + tail);
        lemma_encode_append(head, tail, plus_for_space);
        assert(head.drop_last() =~= Seq::<u8>::empty());
        assert(percent_encoded(head.drop_last(), plus_for_space) =~= Seq::<char>::empty());
        assert(head.last() == bs[0]);
        assert(percent_encoded(head, plus_for_space) =~= encode_byte(bs[0], plus_for_space));
        lemma_decode_byte(bs[0], percent_encoded(tail, plus_for_space), plus_for_space);
        lemma_percent_decode_encode(tail, plus_for_space);
        assert(seq![bs[0]] + tail =~= bs);
    }
}

/// Percent-encoding is one-to-one: different byte strings encode
/// differently.
pub proof fn lemma_percent_encoding_injective(a: Seq<u8>, b: Seq<u8>, plus_for_space: bool)
    requires
        percent_encoded(a, plus_for_space) == percent_encoded(b, plus_for_space),
    ensures
        a == b,
{
    lemma_percent_decode_encode(a, plus_for_space);
    lemma_percent_decode_encode(b, plus_for_space);
}

/// Percent-encoding writes only unreserved characters, `%` and `+`, so no
/// `/`, `?`, `#`, `&`, `=` or space: an encoded key stays one path segment or
/// one query value.
pub proof fn lemma_percent_encoded_chars(bs: Seq<u8>, plus_for_space: bool)
    ensures
        forall|i: int|
            0 <= i < percent_encoded(bs, plus_for_space).len() ==> encoded_char(
                #[trigger] percent_encoded(bs, plus_for_space)[i],
            ),
        !percent_encoded(bs, plus_for_space).contains('/'),
        !percent_encoded(bs, plus_for_space).contains('?'),
        !percent_encoded(bs, plus_for_space).contains('#'),
        !percent_encoded(bs, plus_for_space).contains('&'),
        !percent_encoded(bs, plus_for_space).contains('='),
        !percent_encoded(bs, plus_for_space).contains(' '),
    decreases bs.len(),
{
    let e = percent_encoded(bs, plus_for_space);
    if bs.len() > 0 {
        lemma_percent_encoded_chars(bs.drop_last(), plus_for_space);
        let prev = percent_encoded(bs.drop_last(), plus_for_space);
        let last = encode_byte(bs.last(), plus_for_space);
        lemma_hex_value(bs.last() / 16);
        lemma_hex_value(bs.last() % 16);
        assert forall|i: int| 0 <= i < e.len() implies encoded_char(#[trigger] e[i]) by {
            if i < prev.len() {
                assert(e[i] == prev[i]);
            } else {
                assert(e[i] == last[i - prev.len()]);
            }
        }
    }
    assert forall|c: char| e.contains(c) implies encoded_char(c) by {
        let i = choose|i: int| 0 <= i < e.len() && e[i] == c;
        assert(encoded_char(e[i]));
    }
}

/// A string with its trailing `/` characters removed.
pub open spec fn trim_trailing_slashes(s: Seq<char>) -> Seq<char>
    decreases s.len(),
{
    if s.len() > 0 && s.last() == '/' {
        trim_trailing_slashes(s.drop_last())
    } else {
        s
    }
}

/// Trimming trailing slashes keeps a prefix of the string that does not end
/// with `/`, and drops only `/` characters.
pub proof fn lemma_trim_trailing_slashes(s: Seq<char>)
    ensures
        trim_trailing_slashes(s).is_prefix_of(s),
        trim_trailing_slashes(s).len() == 0 || trim_trailing_slashes(s).last() != '/',
        forall|i: int| trim_trailing_slashes(s).len() <= i < s.len() ==> #[trigger] s[i] == '/',
    decreases s.len(),
{
    if s.len() > 0 && s.last() == '/' {
        let t = s.drop_last();
        lemma_trim_trailing_slashes(t);
        let r = trim_trailing_slashes(t);
        assert forall|i: int| r.len() <= i < s.len() implies #[trigger] s[i] == '/' by {
            if i < t.len() {
                assert(t[i] == s[i]);
            }
        }
        assert(r.is_prefix_of(s)) by {
            assert forall|i: int| 0 <= i < r.len() implies r[i] == s[i] by {
                assert(t[i] == s[i]);
            }
        }
    } else {
        assert(s.is_prefix_of(s));
    }
}

pub open spec fn http_prefix() -> Seq<char> {
    seq!['h', 't', 't', 'p', ':', '/', '/']
}

pub open spec fn https_prefix() -> Seq<char> {
    seq!['h', 't', 't', 'p', 's', ':', '/', '/']
}

/// The base URL that a user's address stands for: trailing slashes dropped,
/// and `http://` put in front unless it names `http://` or `https://`.
pub open spec fn normalized_base_url(s: Seq<char>) -> Seq<char> {
    let t = trim_trailing_slashes(s);
    if http_prefix().is_prefix_of(t) || https_prefix().is_prefix_of(t) {
        t
    } else {
        http_prefix() + t
    }
}

/// The prefix of `s` left after dropping trailing `/` characters.
pub fn trim_end_slashes(s: &str) -> (r: &str)
    ensures
        r@ == trim_trailing_slashes(s@),
{
    let mut n = s.unicode_len();
    proof {
        assert(s@.subrange(0, n as int) =~= s@);
    }
    while n > 0 && s.get_char(n - 1) == '/'
        invariant
            n <= s@.len(),
            trim_trailing_slashes(s@.subrange(0, n as int)) == trim_trailing_slashes(s@),
        decreases n,
    {
        proof {
            assert(s@.subrange(0, n as int).drop_last() =~= s@.subrange(0, n - 1));
        }
        n = n - 1;
    }
    s.substring_char(0, n)
}

fn has_char_prefix(s: &str, p: &str) -> (r: bool)
    ensures
        r == p@.is_prefix_of(s@),
{
    let pn = p.unicode_len();
    let sn = s.unicode_len();
    if pn > sn {
        return false;
    }
    let mut i: usize = 0;
    while i < pn
        invariant
            pn == p@.len(),
            sn == s@.len(),
            pn <= sn,
            i <= pn,
            forall|j: int| 0 <= j < i ==> p@[j] == s@[j],
        decreases pn - i,
    {
        if p.get_char(i) != s.get_char(i) {
            proof {
                assert(s@.subrange(0, pn as int)[i as int] == s@[i as int]);
            }
            return false;
        }
        i = i + 1;
    }
    proof {
        assert(p@ =~= s@.subrange(0, pn as int));
    }
    true
}

/// Normalises a volume address to a base URL.
pub fn normalize_base_url(input: &str) -> (out: String)
    ensures
        out@ == normalized_base_url(input@),
{
    let trimmed = trim_end_slashes(input);
    proof {
        reveal_strlit("http://");
        reveal_strlit("https://");
    }
    if has_char_prefix(trimmed, "http://") || has_char_prefix(trimmed, "https://") {
        trimmed.to_owned()
    } else {
        let mut out = "http://".to_owned();
        out.append(trimmed);
        out
    }
}

/// `base` without trailing slashes, followed by `path`.
pub open spec fn endpoint(base: Seq<char>, path: Seq<char>) -> Seq<char> {
    trim_trailing_slashes(base) + path
}

/// Joins a base URL and a path that begins with `/`.
pub fn endpoint_url(base: &str, path: &str) -> (out: String)
    ensures
        out@ == endpoint(base@, path@),
{
    let mut out = trim_end_slashes(base).to_owned();
    out.append(path);
    out
}

/// The URL of a key on a volume's local API.
pub open spec fn replica_url_spec(addr: Seq<char>, key: Seq<char>) -> Seq<char> {
    http_prefix() + addr + seq!['/', 'l', 'o', 'c', 'a', 'l', '/'] + percent_encoded(
        encode_utf8_of(key),
        false,
    )
}

/// The UTF-8 bytes of a character string.
pub open spec fn encode_utf8_of(s: Seq<char>) -> Seq<u8> {
    vstd::utf8::encode_utf8(s)
}

/// `http://{addr}/local/{key}`, the key percent-encoded as a path segment.
pub fn replica_url(addr: &str, key: &str) -> (out: String)
    ensures
        out@ == replica_url_spec(addr@, key@),
{
    proof {
        reveal_strlit("http://");
        reveal_strlit("/local/");
    }
    let mut out = "http://".to_owned();
    out.append(addr);
    out.append("/local/");
    let seg = encode_path_segment(key);
    out.append(seg.as_str());
    out
}

} // verus!
