//! The manifest's wire form: UTF-8 JSON text holding an object with an
//! `argv` array of strings and an `env` object of string-to-string members.
//!
//! Everything here works on the byte level. A string value appears between
//! double quotes with the bytes `"` and `\` and every control byte escaped;
//! the writer emits the compact form with `argv` first, and the reader also
//! accepts surrounding whitespace and the two keys in either order.

use vstd::prelude::*;
use vstd::utf8::{decode_utf8, encode_utf8, is_ascii_chars, valid_utf8};

use crate::ManifestView;

verus! {

// Byte values are written as hex literals: 0x22 is `"`, 0x5c is `\`,
// 0x7b/0x7d are `{`/`}`, 0x5b/0x5d are `[`/`]`, 0x2c is `,`, 0x3a is `:`.
/// The character sequence of the `argv` key.
pub open spec fn argv_key() -> Seq<char> {
    seq!['a', 'r', 'g', 'v']
}

/// The character sequence of the `env` key.
pub open spec fn env_key() -> Seq<char> {
    seq!['e', 'n', 'v']
}

/// The byte sequence of the `argv` key.
pub open spec fn argv_key_bytes() -> Seq<u8> {
    seq![0x61u8, 0x72u8, 0x67u8, 0x76u8]
}

/// The byte sequence of the `env` key.
pub open spec fn env_key_bytes() -> Seq<u8> {
    seq![0x65u8, 0x6eu8, 0x76u8]
}

/// The ASCII digit or lowercase letter for a hex value below 16.
pub open spec fn hex_digit(n: u8) -> u8 {
    if n < 10 {
        (0x30 + n) as u8
    } else {
        (0x57 + n) as u8
    }
}

/// How one byte of string content appears on the wire: `"` and `\` behind a
/// backslash, the five control bytes with short escapes by their JSON
/// letters, every other control byte as `\u00` and two hex digits, and any
/// other byte as itself.
pub open spec fn escape_byte(b: u8) -> Seq<u8> {
    if b == 0x22 {
        seq![0x5cu8, 0x22u8]
    } else if b == 0x5c {
        seq![0x5cu8, 0x5cu8]
    } else if b == 0x08 {
        seq![0x5cu8, 0x62u8]
    } else if b == 0x09 {
        seq![0x5cu8, 0x74u8]
    } else if b == 0x0a {
        seq![0x5cu8, 0x6eu8]
    } else if b == 0x0c {
        seq![0x5cu8, 0x66u8]
    } else if b == 0x0d {
        seq![0x5cu8, 0x72u8]
    } else if b < 0x20 {
        seq![0x5cu8, 0x75u8, 0x30u8, 0x30u8, hex_digit(b / 16), hex_digit(b % 16)]
    } else {
        seq![b]
    }
}

/// The escaped form of a whole byte sequence.
pub open spec fn escape_bytes(s: Seq<u8>) -> Seq<u8>
    decreases s.len(),
{
    if s.len() == 0 {
        Seq::empty()
    } else {
        escape_byte(s[0]) + escape_bytes(s.drop_first())
    }
}

/// The wire image of one string: its UTF-8 bytes, escaped, between quotes.
pub open spec fn string_image(s: Seq<char>) -> Seq<u8> {
    seq![0x22u8] + escape_bytes(encode_utf8(s)) + seq![0x22u8]
}

/// The wire image of every argv element after the first, each behind a
/// comma.
pub open spec fn argv_rest_image(l: Seq<Seq<char>>) -> Seq<u8>
    decreases l.len(),
{
    if l.len() == 0 {
        Seq::empty()
    } else {
        seq![0x2cu8] + string_image(l[0]) + argv_rest_image(l.drop_first())
    }
}

/// The wire image of the argv list: its strings separated by commas.
pub open spec fn argv_image(l: Seq<Seq<char>>) -> Seq<u8> {
    if l.len() == 0 {
        Seq::empty()
    } else {
        string_image(l[0]) + argv_rest_image(l.drop_first())
    }
}

/// The wire image of one env member: key, colon, value.
pub open spec fn env_entry_image(kv: (Seq<char>, Seq<char>)) -> Seq<u8> {
    string_image(kv.0) + seq![0x3au8] + string_image(kv.1)
}

/// The wire image of every env member after the first, each behind a comma.
pub open spec fn env_rest_image(l: Seq<(Seq<char>, Seq<char>)>) -> Seq<u8>
    decreases l.len(),
{
    if l.len() == 0 {
        Seq::empty()
    } else {
        seq![0x2cu8] + env_entry_image(l[0]) + env_rest_image(l.drop_first())
    }
}

/// The wire image of the env mapping: its members separated by commas.
pub open spec fn env_image(l: Seq<(Seq<char>, Seq<char>)>) -> Seq<u8> {
    if l.len() == 0 {
        Seq::empty()
    } else {
        env_entry_image(l[0]) + env_rest_image(l.drop_first())
    }
}

/// The wire image of a whole manifest, as the writer emits it:
/// `{"argv":[...],"env":{...}}` with no whitespace.
pub open spec fn manifest_image(m: ManifestView) -> Seq<u8> {
    seq![0x7bu8] + string_image(argv_key()) + seq![0x3au8, 0x5bu8] + argv_image(m.argv) + seq![
        0x5du8,
        0x2cu8,
    ] + string_image(env_key()) + seq![0x3au8, 0x7bu8] + env_image(m.env) + seq![0x7du8, 0x7du8]
}

// ---------------------------------------------------------------------------
// The reader's grammar, as spec functions from a position in the input to
// the parsed value and the position after it.
/// True of the four JSON whitespace bytes.
pub open spec fn is_ws(b: u8) -> bool {
    b == 0x20 || b == 0x09 || b == 0x0a || b == 0x0d
}

/// The first position at or after `i` holding no whitespace.
pub open spec fn skip_ws(s: Seq<u8>, i: int) -> int
    decreases s.len() - i,
{
    if 0 <= i < s.len() && is_ws(s[i]) {
        skip_ws(s, i + 1)
    } else {
        i
    }
}

/// The content byte named by a short escape letter, if the letter is one.
pub open spec fn unescape_short(e: u8) -> Option<u8> {
    if e == 0x22 {
        Some(0x22u8)
    } else if e == 0x5c {
        Some(0x5cu8)
    } else if e == 0x2f {
        Some(0x2fu8)
    } else if e == 0x62 {
        Some(0x08u8)
    } else if e == 0x74 {
        Some(0x09u8)
    } else if e == 0x6e {
        Some(0x0au8)
    } else if e == 0x66 {
        Some(0x0cu8)
    } else if e == 0x72 {
        Some(0x0du8)
    } else {
        None
    }
}

/// The value of an ASCII hex digit, upper or lower case.
pub open spec fn hex_val(b: u8) -> Option<u8> {
    if 0x30 <= b <= 0x39 {
        Some((b - 0x30) as u8)
    } else if 0x61 <= b <= 0x66 {
        Some((b - 0x61 + 10) as u8)
    } else if 0x41 <= b <= 0x46 {
        Some((b - 0x41 + 10) as u8)
    } else {
        None
    }
}

/// Parses string content from position `i` (just after the opening quote)
/// to the closing quote: the content bytes and the position after the
/// closing quote. Only `\u00` escapes below 0x80 are understood; a raw
/// control byte or an unfinished or unknown escape fails.
pub open spec fn parse_string_body(s: Seq<u8>, i: int) -> Option<(Seq<u8>, int)>
    decreases s.len() - i,
{
    if i < 0 || i >= s.len() {
        None
    } else if s[i] == 0x22 {
        Some((Seq::empty(), i + 1))
    } else if s[i] == 0x5c {
        if s.len() - i < 2 {
            None
        } else if s[i + 1] == 0x75 {
            if s.len() - i < 6 {
                None
            } else if s[i + 2] == 0x30 && s[i + 3] == 0x30 && hex_val(s[i + 4]) is Some && hex_val(
                s[i + 5],
            ) is Some {
                let b = (hex_val(s[i + 4])->Some_0 * 16 + hex_val(s[i + 5])->Some_0) as u8;
                if b < 0x80 {
                    match parse_string_body(s, i + 6) {
                        Some((rest, j)) => Some((seq![b] + rest, j)),
                        None => None,
                    }
                } else {
                    None
                }
            } else {
                None
            }
        } else {
            match unescape_short(s[i + 1]) {
                Some(b) => match parse_string_body(s, i + 2) {
                    Some((rest, j)) => Some((seq![b] + rest, j)),
                    None => None,
                },
                None => None,
            }
        }
    } else if s[i] < 0x20 {
        None
    } else {
        match parse_string_body(s, i + 1) {
            Some((rest, j)) => Some((seq![s[i]] + rest, j)),
            None => None,
        }
    }
}

/// Parses a quoted string at position `i`: its content bytes and the
/// position after the closing quote.
pub open spec fn parse_string(s: Seq<u8>, i: int) -> Option<(Seq<u8>, int)> {
    if 0 <= i < s.len() && s[i] == 0x22 {
        parse_string_body(s, i + 1)
    } else {
        None
    }
}

/// Parses the members of a non-empty string array from position `i` (after
/// the `[` or after a comma) through the closing `]`.
pub open spec fn parse_array_items(s: Seq<u8>, i: int) -> Option<(Seq<Seq<u8>>, int)>
    decreases s.len() - i,
{
    let i0 = skip_ws(s, i);
    match parse_string(s, i0) {
        None => None,
        Some((item, j)) => {
            let j0 = skip_ws(s, j);
            if j0 < 0 || j0 >= s.len() {
                None
            } else if s[j0] == 0x5d {
                Some((seq![item], j0 + 1))
            } else if s[j0] == 0x2c && j0 + 1 > i {
                match parse_array_items(s, j0 + 1) {
                    Some((rest, k)) => Some((seq![item] + rest, k)),
                    None => None,
                }
            } else {
                None
            }
        },
    }
}

/// Parses a string array at position `i`: its members and the position
/// after the closing `]`.
pub open spec fn parse_array(s: Seq<u8>, i: int) -> Option<(Seq<Seq<u8>>, int)> {
    let i0 = skip_ws(s, i);
    if 0 <= i0 < s.len() && s[i0] == 0x5b {
        let i1 = skip_ws(s, i0 + 1);
        if 0 <= i1 < s.len() && s[i1] == 0x5d {
            Some((Seq::empty(), i1 + 1))
        } else {
            parse_array_items(s, i0 + 1)
        }
    } else {
        None
    }
}

/// Parses one `"key":"value"` member from position `i`: the pair and the
/// position after the value.
pub open spec fn parse_member(s: Seq<u8>, i: int) -> Option<((Seq<u8>, Seq<u8>), int)> {
    let i0 = skip_ws(s, i);
    match parse_string(s, i0) {
        None => None,
        Some((key, j)) => {
            let j0 = skip_ws(s, j);
            if 0 <= j0 < s.len() && s[j0] == 0x3a {
                match parse_string(s, skip_ws(s, j0 + 1)) {
                    None => None,
                    Some((value, k)) => Some(((key, value), k)),
                }
            } else {
                None
            }
        },
    }
}

/// Parses the members of a non-empty string-to-string object from position
/// `i` (after the `{` or after a comma) through the closing `}`.
pub open spec fn parse_object_items(s: Seq<u8>, i: int) -> Option<
    (Seq<(Seq<u8>, Seq<u8>)>, int),
>
    decreases s.len() - i,
{
    match parse_member(s, i) {
        None => None,
        Some((kv, j)) => {
            let j0 = skip_ws(s, j);
            if j0 < 0 || j0 >= s.len() {
                None
            } else if s[j0] == 0x7d {
                Some((seq![kv], j0 + 1))
            } else if s[j0] == 0x2c && j0 + 1 > i {
                match parse_object_items(s, j0 + 1) {
                    Some((rest, k)) => Some((seq![kv] + rest, k)),
                    None => None,
                }
            } else {
                None
            }
        },
    }
}

/// Parses a string-to-string object at position `i`: its members in wire
/// order and the position after the closing `}`.
pub open spec fn parse_object(s: Seq<u8>, i: int) -> Option<(Seq<(Seq<u8>, Seq<u8>)>, int)> {
    let i0 = skip_ws(s, i);
    if 0 <= i0 < s.len() && s[i0] == 0x7b {
        let i1 = skip_ws(s, i0 + 1);
        if 0 <= i1 < s.len() && s[i1] == 0x7d {
            Some((Seq::empty(), i1 + 1))
        } else {
            parse_object_items(s, i0 + 1)
        }
    } else {
        None
    }
}

/// Parses a whole manifest document: an object whose two members are the
/// `argv` array and the `env` object, in either order, with nothing but
/// whitespace after it. Yields the raw argv strings and env pairs.
pub open spec fn parse_manifest_raw(s: Seq<u8>) -> Option<
    (Seq<Seq<u8>>, Seq<(Seq<u8>, Seq<u8>)>),
> {
    let i0 = skip_ws(s, 0);
    if !(0 <= i0 < s.len() && s[i0] == 0x7b) {
        None
    } else {
        match parse_string(s, skip_ws(s, i0 + 1)) {
            None => None,
            Some((k1, j1)) => {
                let j2 = skip_ws(s, j1);
                if !(0 <= j2 < s.len() && s[j2] == 0x3a) {
                    None
                } else if k1 == argv_key_bytes() {
                    match parse_array(s, j2 + 1) {
                        None => None,
                        Some((argv, j3)) => match parse_env_tail(s, j3) {
                            None => None,
                            Some(env) => Some((argv, env)),
                        },
                    }
                } else if k1 == env_key_bytes() {
                    match parse_object(s, j2 + 1) {
                        None => None,
                        Some((env, j3)) => match parse_argv_tail(s, j3) {
                            None => None,
                            Some(argv) => Some((argv, env)),
                        },
                    }
                } else {
                    None
                }
            },
        }
    }
}

/// Parses `,"env":{...}}` and trailing whitespace from position `i` to the
/// end of the document.
pub open spec fn parse_env_tail(s: Seq<u8>, i: int) -> Option<Seq<(Seq<u8>, Seq<u8>)>> {
    let i0 = skip_ws(s, i);
    if !(0 <= i0 < s.len() && s[i0] == 0x2c) {
        None
    } else {
        match parse_string(s, skip_ws(s, i0 + 1)) {
            None => None,
            Some((k2, j1)) => {
                let j2 = skip_ws(s, j1);
                if !(k2 == env_key_bytes() && 0 <= j2 < s.len() && s[j2] == 0x3a) {
                    None
                } else {
                    match parse_object(s, j2 + 1) {
                        None => None,
                        Some((env, j3)) => {
                            if parse_document_end(s, j3) {
                                Some(env)
                            } else {
                                None
                            }
                        },
                    }
                }
            },
        }
    }
}

/// Parses `,"argv":[...]}` and trailing whitespace from position `i` to the
/// end of the document.
pub open spec fn parse_argv_tail(s: Seq<u8>, i: int) -> Option<Seq<Seq<u8>>> {
    let i0 = skip_ws(s, i);
    if !(0 <= i0 < s.len() && s[i0] == 0x2c) {
        None
    } else {
        match parse_string(s, skip_ws(s, i0 + 1)) {
            None => None,
            Some((k2, j1)) => {
                let j2 = skip_ws(s, j1);
                if !(k2 == argv_key_bytes() && 0 <= j2 < s.len() && s[j2] == 0x3a) {
                    None
                } else {
                    match parse_array(s, j2 + 1) {
                        None => None,
                        Some((argv, j3)) => {
                            if parse_document_end(s, j3) {
                                Some(argv)
                            } else {
                                None
                            }
                        },
                    }
                }
            },
        }
    }
}

/// True when position `i` holds the closing `}` of the document, followed
/// by nothing but whitespace.
pub open spec fn parse_document_end(s: Seq<u8>, i: int) -> bool {
    let i0 = skip_ws(s, i);
    &&& 0 <= i0 < s.len()
    &&& s[i0] == 0x7d
    &&& skip_ws(s, i0 + 1) == s.len()
}

/// True when every parsed string is valid UTF-8.
pub open spec fn all_valid_utf8(l: Seq<Seq<u8>>) -> bool {
    forall|k: int| 0 <= k < l.len() ==> valid_utf8(#[trigger] l[k])
}

/// True when both halves of every parsed pair are valid UTF-8.
pub open spec fn all_valid_utf8_pairs(l: Seq<(Seq<u8>, Seq<u8>)>) -> bool {
    forall|k: int| 0 <= k < l.len() ==> valid_utf8((#[trigger] l[k]).0) && valid_utf8(l[k].1)
}

/// True when no two parsed members share a key.
pub open spec fn distinct_keys(l: Seq<(Seq<u8>, Seq<u8>)>) -> bool {
    forall|i: int, j: int| 0 <= i < j < l.len() ==> (#[trigger] l[i]).0 != (#[trigger] l[j]).0
}

/// What a manifest document means: the parsed argv strings and env pairs,
/// decoded from UTF-8, provided every string is valid UTF-8 and the env
/// keys are distinct. Anything else is not a manifest.
pub open spec fn parsed_manifest(s: Seq<u8>) -> Option<ManifestView> {
    match parse_manifest_raw(s) {
        None => None,
        Some((argv, env)) => {
            if all_valid_utf8(argv) && all_valid_utf8_pairs(env) && distinct_keys(env) {
                Some(
                    ManifestView {
                        argv: argv.map_values(|b: Seq<u8>| decode_utf8(b)),
                        env: env.map_values(
                            |kv: (Seq<u8>, Seq<u8>)| (decode_utf8(kv.0), decode_utf8(kv.1)),
                        ),
                    },
                )
            } else {
                None
            }
        },
    }
}

// ---------------------------------------------------------------------------
// The writer.
/// Escaping distributes over concatenation.
pub proof fn lemma_escape_bytes_concat(a: Seq<u8>, b: Seq<u8>)
    ensures
        escape_bytes(a + b) == escape_bytes(a) + escape_bytes(b),
    decreases a.len(),
{
    if a.len() == 0 {
        assert(a + b =~= b);
        assert(escape_bytes(a) + escape_bytes(b) =~= escape_bytes(b));
    } else {
        assert((a + b).drop_first() =~= a.drop_first() + b);
        lemma_escape_bytes_concat(a.drop_first(), b);
        assert(escape_byte(a[0]) + (escape_bytes(a.drop_first()) + escape_bytes(b)) =~= (
        escape_byte(a[0]) + escape_bytes(a.drop_first())) + escape_bytes(b));
    }
}

/// The escaped form of a single byte is that byte's escape unit.
pub proof fn lemma_escape_bytes_one(b: u8)
    ensures
        escape_bytes(seq![b]) == escape_byte(b),
{
    assert(seq![b].drop_first() =~= Seq::<u8>::empty());
    assert(escape_bytes(seq![b]) =~= escape_byte(b) + escape_bytes(Seq::<u8>::empty()));
    assert(escape_byte(b) + Seq::<u8>::empty() =~= escape_byte(b));
}

/// Appending one element extends the comma-separated argv tail image.
pub proof fn lemma_argv_rest_push(a: Seq<Seq<char>>, x: Seq<char>)
    ensures
        argv_rest_image(a.push(x)) == argv_rest_image(a) + seq![0x2cu8] + string_image(x),
    decreases a.len(),
{
    if a.len() == 0 {
        assert(a.push(x).drop_first() =~= Seq::<Seq<char>>::empty());
        assert(a.push(x)[0] == x);
        assert(argv_rest_image(a.push(x).drop_first()) == Seq::<u8>::empty());
        assert(argv_rest_image(a.push(x)) == seq![0x2cu8] + string_image(x) + Seq::<u8>::empty());
        assert(argv_rest_image(a) == Seq::<u8>::empty());
        assert(argv_rest_image(a.push(x)) =~= argv_rest_image(a) + seq![0x2cu8] + string_image(x));
    } else {
        assert(a.push(x).drop_first() =~= a.drop_first().push(x));
        assert(a.push(x)[0] == a[0]);
        lemma_argv_rest_push(a.drop_first(), x);
        assert(argv_rest_image(a.push(x)) == seq![0x2cu8] + string_image(a[0]) + (argv_rest_image(
            a.drop_first(),
        ) + seq![0x2cu8] + string_image(x)));
        assert(argv_rest_image(a) == seq![0x2cu8] + string_image(a[0]) + argv_rest_image(
            a.drop_first(),
        ));
        assert(argv_rest_image(a.push(x)) =~= argv_rest_image(a) + seq![0x2cu8] + string_image(x));
    }
}

/// Appending one member extends the comma-separated env tail image.
pub proof fn lemma_env_rest_push(a: Seq<(Seq<char>, Seq<char>)>, x: (Seq<char>, Seq<char>))
    ensures
        env_rest_image(a.push(x)) == env_rest_image(a) + seq![0x2cu8] + env_entry_image(x),
    decreases a.len(),
{
    if a.len() == 0 {
        assert(a.push(x).drop_first() =~= Seq::<(Seq<char>, Seq<char>)>::empty());
        assert(a.push(x)[0] == x);
        assert(env_rest_image(a.push(x).drop_first()) == Seq::<u8>::empty());
        assert(env_rest_image(a.push(x)) == seq![0x2cu8] + env_entry_image(x) + Seq::<u8>::empty());
        assert(env_rest_image(a) == Seq::<u8>::empty());
        assert(env_rest_image(a.push(x)) =~= env_rest_image(a) + seq![0x2cu8] + env_entry_image(
            x,
        ));
    } else {
        assert(a.push(x).drop_first() =~= a.drop_first().push(x));
        assert(a.push(x)[0] == a[0]);
        lemma_env_rest_push(a.drop_first(), x);
        assert(env_rest_image(a.push(x)) == seq![0x2cu8] + env_entry_image(a[0]) + (env_rest_image(
            a.drop_first(),
        ) + seq![0x2cu8] + env_entry_image(x)));
        assert(env_rest_image(a) == seq![0x2cu8] + env_entry_image(a[0]) + env_rest_image(
            a.drop_first(),
        ));
        assert(env_rest_image(a.push(x)) =~= env_rest_image(a) + seq![0x2cu8] + env_entry_image(
            x,
        ));
    }
}

/// The ASCII digit or lowercase letter for a hex value below 16.
fn hex_digit_exec(n: u8) -> (r: u8)
    requires
        n < 16,
    ensures
        r == hex_digit(n),
{
    if n < 10 {
        0x30 + n
    } else {
        0x57 + n
    }
}

/// Appends the escaped form of `bytes` to `out`.
fn push_escaped(out: &mut Vec<u8>, bytes: &[u8])
    ensures
        final(out)@ == old(out)@ + escape_bytes(bytes@),
{
    let n = bytes.len();
    let mut k: usize = 0;
    while k < n
        invariant
            k <= n,
            n == bytes@.len(),
            out@ == old(out)@ + escape_bytes(bytes@.subrange(0, k as int)),
        decreases n - k,
    {
        let b = *vstd::slice::slice_index_get(bytes, k);
        let ghost before = out@;
        if b == 0x22 {
            out.push(0x5c);
            out.push(0x22);
        } else if b == 0x5c {
            out.push(0x5c);
            out.push(0x5c);
        } else if b == 0x08 {
            out.push(0x5c);
            out.push(0x62);
        } else if b == 0x09 {
            out.push(0x5c);
            out.push(0x74);
        } else if b == 0x0a {
            out.push(0x5c);
            out.push(0x6e);
        } else if b == 0x0c {
            out.push(0x5c);
            out.push(0x66);
        } else if b == 0x0d {
            out.push(0x5c);
            out.push(0x72);
        } else if b < 0x20 {
            out.push(0x5c);
            out.push(0x75);
            out.push(0x30);
            out.push(0x30);
            out.push(hex_digit_exec(b / 16));
            out.push(hex_digit_exec(b % 16));
        } else {
            out.push(b);
        }
        proof {
            assert(out@ =~= before + escape_byte(b));
            lemma_escape_bytes_one(b);
            lemma_escape_bytes_concat(bytes@.subrange(0, k as int), seq![b]);
            assert(bytes@.subrange(0, k as int) + seq![b] =~= bytes@.subrange(0, k as int + 1));
            assert(out@ =~= old(out)@ + escape_bytes(bytes@.subrange(0, k as int + 1)));
        }
        k += 1;
    }
    proof {
        assert(bytes@.subrange(0, n as int) =~= bytes@);
    }
}

/// Appends the quoted, escaped image of `s` to `out`.
fn push_string_image(out: &mut Vec<u8>, s: &str)
    ensures
        final(out)@ == old(out)@ + string_image(s@),
{
    out.push(0x22);
    push_escaped(out, s.as_bytes());
    out.push(0x22);
    proof {
        assert(out@ =~= old(out)@ + string_image(s@));
    }
}

/// Serializes a manifest to its wire form, `{"argv":[...],"env":{...}}`.
pub fn encode_manifest(m: &crate::Manifest) -> (r: Vec<u8>)
    ensures
        r@ == manifest_image(m@),
{
    let mut out: Vec<u8> = Vec::new();
    out.push(0x7b);
    push_string_image(&mut out, "argv");
    out.push(0x3a);
    out.push(0x5b);
    proof {
        reveal_strlit("argv");
        assert("argv"@ =~= argv_key());
        assert(out@ =~= seq![0x7bu8] + string_image(argv_key()) + seq![0x3au8, 0x5bu8]);
    }
    let ghost argv_base = out@;
    let n = m.argv.len();
    let mut k: usize = 0;
    while k < n
        invariant
            k <= n,
            n == m.argv@.len(),
            m@.argv.len() == n,
            out@ == argv_base + argv_image(m@.argv.subrange(0, k as int)),
        decreases n - k,
    {
        let ghost before = out@;
        if k > 0 {
            out.push(0x2c);
        }
        push_string_image(&mut out, m.argv[k].as_str());
        proof {
            let p = m@.argv.subrange(0, k as int);
            let q = m@.argv.subrange(0, k as int + 1);
            assert(m@.argv[k as int] == m.argv@[k as int]@);
            if k == 0 {
                assert(q.drop_first() =~= Seq::<Seq<char>>::empty());
                assert(out@ =~= argv_base + argv_image(q));
            } else {
                assert(q[0] == p[0]);
                assert(q.drop_first() =~= p.drop_first().push(m@.argv[k as int]));
                lemma_argv_rest_push(p.drop_first(), m@.argv[k as int]);
                assert(out@ =~= argv_base + argv_image(q));
            }
        }
        k += 1;
    }
    proof {
        assert(m@.argv.subrange(0, n as int) =~= m@.argv);
    }
    out.push(0x5d);
    out.push(0x2c);
    push_string_image(&mut out, "env");
    out.push(0x3a);
    out.push(0x7b);
    proof {
        reveal_strlit("env");
        assert("env"@ =~= env_key());
        assert(out@ =~= argv_base + argv_image(m@.argv) + seq![0x5du8, 0x2cu8] + string_image(
            env_key(),
        ) + seq![0x3au8, 0x7bu8]);
    }
    let ghost env_base = out@;
    let en = m.env.len();
    let mut j: usize = 0;
    while j < en
        invariant
            j <= en,
            en == m.env@.len(),
            m@.env.len() == en,
            out@ == env_base + env_image(m@.env.subrange(0, j as int)),
        decreases en - j,
    {
        if j > 0 {
            out.push(0x2c);
        }
        push_string_image(&mut out, m.env[j].0.as_str());
        out.push(0x3a);
        push_string_image(&mut out, m.env[j].1.as_str());
        proof {
            let p = m@.env.subrange(0, j as int);
            let q = m@.env.subrange(0, j as int + 1);
            assert(m@.env[j as int] == (m.env@[j as int].0@, m.env@[j as int].1@));
            if j == 0 {
                assert(q.drop_first() =~= Seq::<(Seq<char>, Seq<char>)>::empty());
                assert(out@ =~= env_base + env_image(q));
            } else {
                assert(q[0] == p[0]);
                assert(q.drop_first() =~= p.drop_first().push(m@.env[j as int]));
                lemma_env_rest_push(p.drop_first(), m@.env[j as int]);
                assert(out@ =~= env_base + env_image(q));
            }
        }
        j += 1;
    }
    proof {
        assert(m@.env.subrange(0, en as int) =~= m@.env);
    }
    out.push(0x7d);
    out.push(0x7d);
    proof {
        assert(out@ =~= manifest_image(m@));
    }
    out
}

// ---------------------------------------------------------------------------
// The reader.
/// The views of a list of parsed byte strings.
pub open spec fn byte_views(v: Seq<Vec<u8>>) -> Seq<Seq<u8>> {
    v.map_values(|x: Vec<u8>| x@)
}

/// The views of a list of parsed key-value byte pairs.
pub open spec fn pair_views(v: Seq<(Vec<u8>, Vec<u8>)>) -> Seq<(Seq<u8>, Seq<u8>)> {
    v.map_values(|x: (Vec<u8>, Vec<u8>)| (x.0@, x.1@))
}

/// Finds the first position at or after `start` holding no whitespace.
fn skip_ws_exec(data: &[u8], start: usize) -> (r: usize)
    requires
        start <= data@.len(),
    ensures
        r as int == skip_ws(data@, start as int),
        start <= r <= data@.len(),
{
    let n = data.len();
    let mut i = start;
    loop
        invariant
            n == data@.len(),
            start <= i <= n,
            skip_ws(data@, start as int) == skip_ws(data@, i as int),
        decreases n - i,
    {
        if i >= n {
            return i;
        }
        let b = *vstd::slice::slice_index_get(data, i);
        if !(b == 0x20 || b == 0x09 || b == 0x0a || b == 0x0d) {
            return i;
        }
        i += 1;
    }
}

/// The value of an ASCII hex digit, upper or lower case.
fn hex_value(b: u8) -> (r: Option<u8>)
    ensures
        r == hex_val(b),
        r matches Some(v) ==> v < 16,
{
    if 0x30 <= b && b <= 0x39 {
        Some(b - 0x30)
    } else if 0x61 <= b && b <= 0x66 {
        Some(b - 0x61 + 10)
    } else if 0x41 <= b && b <= 0x46 {
        Some(b - 0x41 + 10)
    } else {
        None
    }
}

/// The content byte named by a short escape letter, if the letter is one.
fn unescape_short_exec(e: u8) -> (r: Option<u8>)
    ensures
        r == unescape_short(e),
{
    if e == 0x22 {
        Some(0x22)
    } else if e == 0x5c {
        Some(0x5c)
    } else if e == 0x2f {
        Some(0x2f)
    } else if e == 0x62 {
        Some(0x08)
    } else if e == 0x74 {
        Some(0x09)
    } else if e == 0x6e {
        Some(0x0a)
    } else if e == 0x66 {
        Some(0x0c)
    } else if e == 0x72 {
        Some(0x0d)
    } else {
        None
    }
}

/// Scans string content from `start` (just after the opening quote) to the
/// closing quote, undoing escapes.
fn scan_string_body(data: &[u8], start: usize) -> (r: Option<(Vec<u8>, usize)>)
    ensures
        match r {
            Some(p) => {
                &&& parse_string_body(data@, start as int) == Some((p.0@, p.1 as int))
                &&& start < p.1 <= data@.len()
            },
            None => parse_string_body(data@, start as int) is None,
        },
{
    let n = data.len();
    let mut i = start;
    let mut acc: Vec<u8> = Vec::new();
    loop
        invariant
            n == data@.len(),
            start <= i,
            parse_string_body(data@, start as int) == (match parse_string_body(data@, i as int) {
                Some((c, j)) => Some((acc@ + c, j)),
                None => None::<(Seq<u8>, int)>,
            }),
        decreases n - i,
    {
        if i >= n {
            return None;
        }
        let b = *vstd::slice::slice_index_get(data, i);
        if b == 0x22 {
            proof {
                assert(acc@ + Seq::<u8>::empty() =~= acc@);
            }
            return Some((acc, i + 1));
        } else if b == 0x5c {
            if n - i < 2 {
                return None;
            }
            let e = *vstd::slice::slice_index_get(data, i + 1);
            if e == 0x75 {
                if n - i < 6 {
                    return None;
                }
                let h0 = *vstd::slice::slice_index_get(data, i + 2);
                let h1 = *vstd::slice::slice_index_get(data, i + 3);
                let hv2 = hex_value(*vstd::slice::slice_index_get(data, i + 4));
                let hv3 = hex_value(*vstd::slice::slice_index_get(data, i + 5));
                if h0 == 0x30 && h1 == 0x30 && hv2.is_some() && hv3.is_some() {
                    let v = hv2.unwrap() * 16 + hv3.unwrap();
                    if v < 0x80 {
                        let ghost acc_before = acc@;
                        acc.push(v);
                        proof {
                            let r_next = parse_string_body(data@, i as int + 6);
                            if r_next is Some {
                                let c = r_next->Some_0.0;
                                assert(acc_before + (seq![v] + c) =~= (acc_before + seq![v]) + c);
                                assert(acc@ =~= acc_before + seq![v]);
                            }
                        }
                        i += 6;
                    } else {
                        return None;
                    }
                } else {
                    return None;
                }
            } else {
                match unescape_short_exec(e) {
                    Some(u) => {
                        let ghost acc_before = acc@;
                        acc.push(u);
                        proof {
                            let r_next = parse_string_body(data@, i as int + 2);
                            if r_next is Some {
                                let c = r_next->Some_0.0;
                                assert(acc_before + (seq![u] + c) =~= (acc_before + seq![u]) + c);
                                assert(acc@ =~= acc_before + seq![u]);
                            }
                        }
                        i += 2;
                    },
                    None => {
                        return None;
                    },
                }
            }
        } else if b < 0x20 {
            return None;
        } else {
            let ghost acc_before = acc@;
            acc.push(b);
            proof {
                let r_next = parse_string_body(data@, i as int + 1);
                if r_next is Some {
                    let c = r_next->Some_0.0;
                    assert(acc_before + (seq![b] + c) =~= (acc_before + seq![b]) + c);
                    assert(acc@ =~= acc_before + seq![b]);
                }
            }
            i += 1;
        }
    }
}

/// Scans a quoted string at position `i`.
fn scan_string(data: &[u8], i: usize) -> (r: Option<(Vec<u8>, usize)>)
    requires
        i <= data@.len(),
    ensures
        match r {
            Some(p) => {
                &&& parse_string(data@, i as int) == Some((p.0@, p.1 as int))
                &&& i < p.1 <= data@.len()
            },
            None => parse_string(data@, i as int) is None,
        },
{
    if i < data.len() && *vstd::slice::slice_index_get(data, i) == 0x22 {
        scan_string_body(data, i + 1)
    } else {
        None
    }
}

/// Scans the members of a non-empty string array from `start` through the
/// closing `]`.
fn scan_array_items(data: &[u8], start: usize) -> (r: Option<(Vec<Vec<u8>>, usize)>)
    requires
        start <= data@.len(),
    ensures
        match r {
            Some(p) => {
                &&& parse_array_items(data@, start as int) == Some(
                    (byte_views(p.0@), p.1 as int),
                )
                &&& start < p.1 <= data@.len()
            },
            None => parse_array_items(data@, start as int) is None,
        },
    decreases data@.len() - start,
{
    let i0 = skip_ws_exec(data, start);
    match scan_string(data, i0) {
        None => None,
        Some((item, j)) => {
            let j0 = skip_ws_exec(data, j);
            if j0 >= data.len() {
                return None;
            }
            let b = *vstd::slice::slice_index_get(data, j0);
            if b == 0x5d {
                let mut out: Vec<Vec<u8>> = Vec::new();
                out.push(item);
                proof {
                    assert(byte_views(out@) =~= seq![out@[0]@]);
                }
                Some((out, j0 + 1))
            } else if b == 0x2c {
                match scan_array_items(data, j0 + 1) {
                    None => None,
                    Some((mut rest, k)) => {
                        let ghost rest_before = rest@;
                        rest.insert(0, item);
                        proof {
                            assert(byte_views(rest@) =~= seq![rest@[0]@] + byte_views(
                                rest_before,
                            ));
                        }
                        Some((rest, k))
                    },
                }
            } else {
                None
            }
        },
    }
}

/// Scans a string array at position `i`.
fn scan_array(data: &[u8], i: usize) -> (r: Option<(Vec<Vec<u8>>, usize)>)
    requires
        i <= data@.len(),
    ensures
        match r {
            Some(p) => {
                &&& parse_array(data@, i as int) == Some((byte_views(p.0@), p.1 as int))
                &&& i < p.1 <= data@.len()
            },
            None => parse_array(data@, i as int) is None,
        },
{
    let i0 = skip_ws_exec(data, i);
    if i0 < data.len() && *vstd::slice::slice_index_get(data, i0) == 0x5b {
        let i1 = skip_ws_exec(data, i0 + 1);
        if i1 < data.len() && *vstd::slice::slice_index_get(data, i1) == 0x5d {
            let out: Vec<Vec<u8>> = Vec::new();
            proof {
                assert(byte_views(out@) =~= Seq::<Seq<u8>>::empty());
            }
            Some((out, i1 + 1))
        } else {
            scan_array_items(data, i0 + 1)
        }
    } else {
        None
    }
}

/// Scans one `"key":"value"` member at position `i`.
fn scan_member(data: &[u8], i: usize) -> (r: Option<(Vec<u8>, Vec<u8>, usize)>)
    requires
        i <= data@.len(),
    ensures
        match r {
            Some(p) => {
                &&& parse_member(data@, i as int) == Some(((p.0@, p.1@), p.2 as int))
                &&& i < p.2 <= data@.len()
            },
            None => parse_member(data@, i as int) is None,
        },
{
    let i0 = skip_ws_exec(data, i);
    match scan_string(data, i0) {
        None => None,
        Some((key, j)) => {
            let j0 = skip_ws_exec(data, j);
            if j0 < data.len() && *vstd::slice::slice_index_get(data, j0) == 0x3a {
                let j1 = skip_ws_exec(data, j0 + 1);
                match scan_string(data, j1) {
                    None => None,
                    Some((value, k)) => Some((key, value, k)),
                }
            } else {
                None
            }
        },
    }
}

/// Scans the members of a non-empty string-to-string object from `start`
/// through the closing `}`.
fn scan_object_items(data: &[u8], start: usize) -> (r: Option<(Vec<(Vec<u8>, Vec<u8>)>, usize)>)
    requires
        start <= data@.len(),
    ensures
        match r {
            Some(p) => {
                &&& parse_object_items(data@, start as int) == Some(
                    (pair_views(p.0@), p.1 as int),
                )
                &&& start < p.1 <= data@.len()
            },
            None => parse_object_items(data@, start as int) is None,
        },
    decreases data@.len() - start,
{
    match scan_member(data, start) {
        None => None,
        Some((key, value, j)) => {
            let j0 = skip_ws_exec(data, j);
            if j0 >= data.len() {
                return None;
            }
            let b = *vstd::slice::slice_index_get(data, j0);
            if b == 0x7d {
                let mut out: Vec<(Vec<u8>, Vec<u8>)> = Vec::new();
                out.push((key, value));
                proof {
                    assert(pair_views(out@) =~= seq![(out@[0].0@, out@[0].1@)]);
                }
                Some((out, j0 + 1))
            } else if b == 0x2c {
                match scan_object_items(data, j0 + 1) {
                    None => None,
                    Some((mut rest, k)) => {
                        let ghost rest_before = rest@;
                        rest.insert(0, (key, value));
                        proof {
                            assert(pair_views(rest@) =~= seq![(rest@[0].0@, rest@[0].1@)]
                                + pair_views(rest_before));
                        }
                        Some((rest, k))
                    },
                }
            } else {
                None
            }
        },
    }
}

/// Scans a string-to-string object at position `i`.
fn scan_object(data: &[u8], i: usize) -> (r: Option<(Vec<(Vec<u8>, Vec<u8>)>, usize)>)
    requires
        i <= data@.len(),
    ensures
        match r {
            Some(p) => {
                &&& parse_object(data@, i as int) == Some((pair_views(p.0@), p.1 as int))
                &&& i < p.1 <= data@.len()
            },
            None => parse_object(data@, i as int) is None,
        },
{
    let i0 = skip_ws_exec(data, i);
    if i0 < data.len() && *vstd::slice::slice_index_get(data, i0) == 0x7b {
        let i1 = skip_ws_exec(data, i0 + 1);
        if i1 < data.len() && *vstd::slice::slice_index_get(data, i1) == 0x7d {
            let out: Vec<(Vec<u8>, Vec<u8>)> = Vec::new();
            proof {
                assert(pair_views(out@) =~= Seq::<(Seq<u8>, Seq<u8>)>::empty());
            }
            Some((out, i1 + 1))
        } else {
            scan_object_items(data, i0 + 1)
        }
    } else {
        None
    }
}

/// True when `key` holds exactly the bytes of the `argv` key.
fn is_argv_key(key: &Vec<u8>) -> (r: bool)
    ensures
        r == (key@ == argv_key_bytes()),
{
    let r = key.len() == 4 && key[0] == 0x61 && key[1] == 0x72 && key[2] == 0x67 && key[3] == 0x76;
    proof {
        if r {
            assert(key@ =~= argv_key_bytes());
        }
    }
    r
}

/// True when `key` holds exactly the bytes of the `env` key.
fn is_env_key(key: &Vec<u8>) -> (r: bool)
    ensures
        r == (key@ == env_key_bytes()),
{
    let r = key.len() == 3 && key[0] == 0x65 && key[1] == 0x6e && key[2] == 0x76;
    proof {
        if r {
            assert(key@ =~= env_key_bytes());
        }
    }
    r
}

/// True when position `i` holds the closing `}` of the document followed by
/// nothing but whitespace.
fn scan_document_end(data: &[u8], i: usize) -> (r: bool)
    requires
        i <= data@.len(),
    ensures
        r == parse_document_end(data@, i as int),
{
    let i0 = skip_ws_exec(data, i);
    if i0 < data.len() && *vstd::slice::slice_index_get(data, i0) == 0x7d {
        let i1 = skip_ws_exec(data, i0 + 1);
        i1 == data.len()
    } else {
        false
    }
}

/// Scans a whole manifest document into its raw argv strings and env pairs.
fn scan_manifest_raw(data: &[u8]) -> (r: Option<(Vec<Vec<u8>>, Vec<(Vec<u8>, Vec<u8>)>)>)
    ensures
        match r {
            Some(p) => parse_manifest_raw(data@) == Some((byte_views(p.0@), pair_views(p.1@))),
            None => parse_manifest_raw(data@) is None,
        },
{
    let i0 = skip_ws_exec(data, 0);
    if !(i0 < data.len() && *vstd::slice::slice_index_get(data, i0) == 0x7b) {
        return None;
    }
    let j = skip_ws_exec(data, i0 + 1);
    match scan_string(data, j) {
        None => None,
        Some((k1, j1)) => {
            let j2 = skip_ws_exec(data, j1);
            if !(j2 < data.len() && *vstd::slice::slice_index_get(data, j2) == 0x3a) {
                return None;
            }
            if is_argv_key(&k1) {
                match scan_array(data, j2 + 1) {
                    None => None,
                    Some((argv, j3)) => match scan_env_tail(data, j3) {
                        None => None,
                        Some(env) => Some((argv, env)),
                    },
                }
            } else if is_env_key(&k1) {
                match scan_object(data, j2 + 1) {
                    None => None,
                    Some((env, j3)) => match scan_argv_tail(data, j3) {
                        None => None,
                        Some(argv) => Some((argv, env)),
                    },
                }
            } else {
                None
            }
        },
    }
}

/// Scans `,"env":{...}}` and trailing whitespace from `i` to the end.
fn scan_env_tail(data: &[u8], i: usize) -> (r: Option<Vec<(Vec<u8>, Vec<u8>)>>)
    requires
        i <= data@.len(),
    ensures
        match r {
            Some(env) => parse_env_tail(data@, i as int) == Some(pair_views(env@)),
            None => parse_env_tail(data@, i as int) is None,
        },
{
    let i0 = skip_ws_exec(data, i);
    if !(i0 < data.len() && *vstd::slice::slice_index_get(data, i0) == 0x2c) {
        return None;
    }
    let j = skip_ws_exec(data, i0 + 1);
    match scan_string(data, j) {
        None => None,
        Some((k2, j1)) => {
            let j2 = skip_ws_exec(data, j1);
            if !(is_env_key(&k2) && j2 < data.len() && *vstd::slice::slice_index_get(data, j2)
                == 0x3a) {
                return None;
            }
            match scan_object(data, j2 + 1) {
                None => None,
                Some((env, j3)) => {
                    if scan_document_end(data, j3) {
                        Some(env)
                    } else {
                        None
                    }
                },
            }
        },
    }
}

/// Scans `,"argv":[...]}` and trailing whitespace from `i` to the end.
fn scan_argv_tail(data: &[u8], i: usize) -> (r: Option<Vec<Vec<u8>>>)
    requires
        i <= data@.len(),
    ensures
        match r {
            Some(argv) => parse_argv_tail(data@, i as int) == Some(byte_views(argv@)),
            None => parse_argv_tail(data@, i as int) is None,
        },
{
    let i0 = skip_ws_exec(data, i);
    if !(i0 < data.len() && *vstd::slice::slice_index_get(data, i0) == 0x2c) {
        return None;
    }
    let j = skip_ws_exec(data, i0 + 1);
    match scan_string(data, j) {
        None => None,
        Some((k2, j1)) => {
            let j2 = skip_ws_exec(data, j1);
            if !(is_argv_key(&k2) && j2 < data.len() && *vstd::slice::slice_index_get(data, j2)
                == 0x3a) {
                return None;
            }
            match scan_array(data, j2 + 1) {
                None => None,
                Some((argv, j3)) => {
                    if scan_document_end(data, j3) {
                        Some(argv)
                    } else {
                        None
                    }
                },
            }
        },
    }
}

/// Deserializes a manifest document. Yields the manifest exactly when the
/// bytes parse as one whose strings are all valid UTF-8 and whose env keys
/// are distinct; the result's env keys are then distinct as well.
#[verifier::loop_isolation(false)]
pub fn decode_manifest(data: &[u8]) -> (r: Option<crate::Manifest>)
    ensures
        match r {
            Some(m) => parsed_manifest(data@) == Some(m@) && m@.wf(),
            None => parsed_manifest(data@) is None,
        },
{
    let (argv_raw, env_raw) = match scan_manifest_raw(data) {
        None => {
            return None;
        },
        Some(p) => p,
    };
    let en = env_raw.len();
    let mut i: usize = 0;
    while i < en
        invariant
            en == env_raw@.len(),
            i <= en,
            forall|a: int, b: int|
                0 <= a < b < en && a < i ==> (#[trigger] pair_views(env_raw@)[a]).0 != (
                #[trigger] pair_views(env_raw@)[b]).0,
        decreases en - i,
    {
        let mut j = i + 1;
        while j < en
            invariant
                en == env_raw@.len(),
                i < j <= en || (i + 1 == j && j <= en),
                i < en,
                forall|b: int|
                    i < b < j ==> (#[trigger] pair_views(env_raw@)[b]).0 != pair_views(
                        env_raw@,
                    )[i as int].0,
            decreases en - j,
        {
            if crate::text::bytes_eq(env_raw[i].0.as_slice(), env_raw[j].0.as_slice()) {
                proof {
                    assert(pair_views(env_raw@)[i as int].0 == pair_views(env_raw@)[j as int].0);
                    assert(!distinct_keys(pair_views(env_raw@)));
                }
                return None;
            }
            j += 1;
        }
        i += 1;
    }
    proof {
        assert(distinct_keys(pair_views(env_raw@)));
    }
    let an = argv_raw.len();
    let mut argv: Vec<String> = Vec::new();
    let mut k: usize = 0;
    while k < an
        invariant
            an == argv_raw@.len(),
            k <= an,
            argv@.len() == k,
            forall|t: int|
                0 <= t < k ==> valid_utf8(#[trigger] byte_views(argv_raw@)[t]) && argv@[t]@
                    == decode_utf8(byte_views(argv_raw@)[t]),
        decreases an - k,
    {
        match crate::text::bytes_to_string(argv_raw[k].as_slice()) {
            None => {
                proof {
                    assert(!valid_utf8(byte_views(argv_raw@)[k as int]));
                    assert(!all_valid_utf8(byte_views(argv_raw@)));
                }
                return None;
            },
            Some(s) => {
                argv.push(s);
            },
        }
        k += 1;
    }
    let mut env: Vec<(String, String)> = Vec::new();
    let mut q: usize = 0;
    while q < en
        invariant
            en == env_raw@.len(),
            q <= en,
            env@.len() == q,
            forall|t: int|
                0 <= t < q ==> valid_utf8((#[trigger] pair_views(env_raw@)[t]).0) && valid_utf8(
                    pair_views(env_raw@)[t].1,
                ) && env@[t].0@ == decode_utf8(pair_views(env_raw@)[t].0) && env@[t].1@
                    == decode_utf8(pair_views(env_raw@)[t].1),
        decreases en - q,
    {
        let key = match crate::text::bytes_to_string(env_raw[q].0.as_slice()) {
            None => {
                proof {
                    assert(!valid_utf8((pair_views(env_raw@)[q as int]).0));
                    assert(!all_valid_utf8_pairs(pair_views(env_raw@)));
                }
                return None;
            },
            Some(s) => s,
        };
        let value = match crate::text::bytes_to_string(env_raw[q].1.as_slice()) {
            None => {
                proof {
                    assert(!valid_utf8((pair_views(env_raw@)[q as int]).1));
                    assert(!all_valid_utf8_pairs(pair_views(env_raw@)));
                }
                return None;
            },
            Some(s) => s,
        };
        env.push((key, value));
        q += 1;
    }
    let m = crate::Manifest { argv, env };
    proof {
        assert(all_valid_utf8(byte_views(argv_raw@)));
        assert(all_valid_utf8_pairs(pair_views(env_raw@)));
        assert(m@.argv =~= byte_views(argv_raw@).map_values(|b: Seq<u8>| decode_utf8(b)));
        assert(m@.env =~= pair_views(env_raw@).map_values(
            |kv: (Seq<u8>, Seq<u8>)| (decode_utf8(kv.0), decode_utf8(kv.1)),
        ));
        broadcast use vstd::utf8::decode_utf8_encode_utf8;

        assert forall|a: int, b: int| 0 <= a < b < m@.env.len() implies (#[trigger] m@.env[a]).0
            != (#[trigger] m@.env[b]).0 by {
            let ka = pair_views(env_raw@)[a].0;
            let kb = pair_views(env_raw@)[b].0;
            assert(valid_utf8(ka) && valid_utf8(kb));
            if decode_utf8(ka) == decode_utf8(kb) {
                assert(encode_utf8(decode_utf8(ka)) == ka);
                assert(encode_utf8(decode_utf8(kb)) == kb);
                assert(ka == kb);
                assert(false);
            }
        }
    }
    Some(m)
}

// ---------------------------------------------------------------------------
// The reader undoes the writer: parsing an image yields what was written.
/// An element of a subrange known to equal `e` is the matching element of
/// the enclosing sequence.
proof fn lemma_subrange_index(s: Seq<u8>, i: int, e: Seq<u8>, t: int)
    requires
        0 <= i,
        i + e.len() <= s.len(),
        s.subrange(i, i + e.len()) == e,
        0 <= t < e.len(),
    ensures
        s[i + t] == e[t],
{
    assert(s.subrange(i, i + e.len())[t] == s[i + t]);
}

/// A subrange known to equal a concatenation splits into the two halves.
proof fn lemma_subrange_split(s: Seq<u8>, i: int, a: Seq<u8>, b: Seq<u8>)
    requires
        0 <= i,
        i + a.len() + b.len() <= s.len(),
        s.subrange(i, i + a.len() + b.len()) == a + b,
    ensures
        s.subrange(i, i + a.len()) == a,
        s.subrange(i + a.len(), i + a.len() + b.len()) == b,
{
    assert forall|t: int| 0 <= t < a.len() implies s.subrange(i, i + a.len())[t] == a[t] by {
        lemma_subrange_index(s, i, a + b, t);
        assert((a + b)[t] == a[t]);
    }
    assert(s.subrange(i, i + a.len()) =~= a);
    assert forall|t: int|
        0 <= t < b.len() implies s.subrange(i + a.len(), i + a.len() + b.len())[t] == b[t] by {
        lemma_subrange_index(s, i, a + b, a.len() + t);
        assert((a + b)[a.len() + t] == b[t]);
    }
    assert(s.subrange(i + a.len(), i + a.len() + b.len()) =~= b);
}

/// Reading back an emitted hex digit yields the value it was made from.
pub proof fn lemma_hex_digit_val(n: u8)
    requires
        n < 16,
    ensures
        hex_val(hex_digit(n)) == Some(n),
        hex_digit(n) != 0x22,
        hex_digit(n) != 0x5c,
{
}

/// Parsing string content that was emitted by the escaper, up to a closing
/// quote, yields exactly the bytes that were escaped.
pub proof fn lemma_parse_escaped(s: Seq<u8>, i: int, b: Seq<u8>)
    requires
        0 <= i,
        i + escape_bytes(b).len() + 1 <= s.len(),
        s.subrange(i, i + escape_bytes(b).len()) == escape_bytes(b),
        s[i + escape_bytes(b).len()] == 0x22,
    ensures
        parse_string_body(s, i) == Some((b, i + escape_bytes(b).len() + 1)),
    decreases b.len(),
{
    if b.len() == 0 {
        assert(escape_bytes(b) =~= Seq::<u8>::empty());
        assert(s[i] == 0x22);
        assert(parse_string_body(s, i) == Some((Seq::<u8>::empty(), i + 1)));
        assert(Seq::<u8>::empty() =~= b);
    } else {
        let b0 = b[0];
        let u = escape_byte(b0);
        let eb = escape_bytes(b);
        let ebr = escape_bytes(b.drop_first());
        assert(eb == u + ebr);
        assert(1 <= u.len() <= 6);
        lemma_subrange_split(s, i, u, ebr);
        assert(s[i + u.len() + ebr.len()] == 0x22);
        lemma_parse_escaped(s, i + u.len(), b.drop_first());
        let j_end = i + eb.len() + 1;
        assert(parse_string_body(s, i + u.len()) == Some((b.drop_first(), j_end)));
        if b0 == 0x22 || b0 == 0x5c || b0 == 0x08 || b0 == 0x09 || b0 == 0x0a || b0 == 0x0c || b0
            == 0x0d {
            assert(u.len() == 2 && u[0] == 0x5c && u[1] != 0x75);
            lemma_subrange_index(s, i, u, 0);
            lemma_subrange_index(s, i, u, 1);
            assert(s[i] == 0x5c && s[i + 1] == u[1]);
            assert(unescape_short(u[1]) == Some(b0));
            assert(parse_string_body(s, i) == Some((seq![b0] + b.drop_first(), j_end)));
        } else if b0 < 0x20 {
            assert(u == seq![0x5cu8, 0x75u8, 0x30u8, 0x30u8, hex_digit(b0 / 16), hex_digit(
                b0 % 16,
            )]);
            lemma_hex_digit_val(b0 / 16);
            lemma_hex_digit_val(b0 % 16);
            lemma_subrange_index(s, i, u, 0);
            lemma_subrange_index(s, i, u, 1);
            lemma_subrange_index(s, i, u, 2);
            lemma_subrange_index(s, i, u, 3);
            lemma_subrange_index(s, i, u, 4);
            lemma_subrange_index(s, i, u, 5);
            assert(s[i] == 0x5c && s[i + 1] == 0x75 && s[i + 2] == 0x30 && s[i + 3] == 0x30);
            assert(s[i + 4] == hex_digit(b0 / 16) && s[i + 5] == hex_digit(b0 % 16));
            assert(hex_val(s[i + 4]) == Some(b0 / 16) && hex_val(s[i + 5]) == Some(b0 % 16));
            assert(b0 / 16 * 16 + b0 % 16 == b0);
            assert(s.len() - i >= 6);
            assert(parse_string_body(s, i) == Some((seq![b0] + b.drop_first(), j_end)));
        } else {
            assert(u == seq![b0]);
            lemma_subrange_index(s, i, u, 0);
            assert(s[i] == b0);
            assert(b0 != 0x22 && b0 != 0x5c && !(b0 < 0x20));
            assert(parse_string_body(s, i) == Some((seq![b0] + b.drop_first(), j_end)));
        }
        assert(seq![b0] + b.drop_first() =~= b);
    }
}

/// Parsing an emitted string image yields the UTF-8 bytes of the string
/// that was written.
pub proof fn lemma_parse_string_image(s: Seq<u8>, i: int, t: Seq<char>)
    requires
        0 <= i,
        i + string_image(t).len() <= s.len(),
        s.subrange(i, i + string_image(t).len()) == string_image(t),
    ensures
        parse_string(s, i) == Some((encode_utf8(t), i + string_image(t).len())),
{
    let q = seq![0x22u8];
    let eb = escape_bytes(encode_utf8(t));
    let li = string_image(t).len();
    assert(li == eb.len() + 2);
    assert(string_image(t) == q + (eb + q)) by {
        assert(string_image(t) =~= q + (eb + q));
    }
    lemma_subrange_split(s, i, q, eb + q);
    lemma_subrange_split(s, i + 1, eb, q);
    lemma_subrange_index(s, i, q, 0);
    assert(s[i] == 0x22);
    lemma_subrange_index(s, i + 1 + eb.len(), q, 0);
    assert(s[i + 1 + eb.len()] == 0x22);
    lemma_parse_escaped(s, i + 1, encode_utf8(t));
    assert(parse_string(s, i) == parse_string_body(s, i + 1));
}

/// Parsing the emitted members of a non-empty argv list, up to a closing
/// `]`, yields the UTF-8 bytes of the strings that were written.
pub proof fn lemma_parse_array_items_image(s: Seq<u8>, i: int, l: Seq<Seq<char>>)
    requires
        l.len() >= 1,
        0 <= i,
        i + argv_image(l).len() + 1 <= s.len(),
        s.subrange(i, i + argv_image(l).len()) == argv_image(l),
        s[i + argv_image(l).len()] == 0x5d,
    ensures
        parse_array_items(s, i) == Some(
            (l.map_values(|t: Seq<char>| encode_utf8(t)), i + argv_image(l).len() + 1),
        ),
    decreases l.len(),
{
    let si = string_image(l[0]);
    let rest = argv_rest_image(l.drop_first());
    assert(argv_image(l) == si + rest);
    lemma_subrange_split(s, i, si, rest);
    lemma_subrange_index(s, i, si, 0);
    assert(si[0] == 0x22);
    assert(s[i] == 0x22);
    assert(skip_ws(s, i) == i);
    lemma_parse_string_image(s, i, l[0]);
    let j = i + si.len();
    if l.len() == 1 {
        assert(rest =~= Seq::<u8>::empty());
        assert(j == i + argv_image(l).len());
        assert(s[j] == 0x5d);
        assert(skip_ws(s, j) == j);
        assert(parse_array_items(s, i) == Some((seq![encode_utf8(l[0])], j + 1)));
        assert(l.map_values(|t: Seq<char>| encode_utf8(t)) =~= seq![encode_utf8(l[0])]);
    } else {
        let lr = l.drop_first();
        assert(lr.len() >= 1);
        assert(rest == seq![0x2cu8] + argv_image(lr)) by {
            assert(rest == seq![0x2cu8] + string_image(lr[0]) + argv_rest_image(lr.drop_first()));
            assert(argv_image(lr) == string_image(lr[0]) + argv_rest_image(lr.drop_first()));
            assert(rest =~= seq![0x2cu8] + argv_image(lr));
        }
        lemma_subrange_split(s, j, seq![0x2cu8], argv_image(lr));
        lemma_subrange_index(s, j, seq![0x2cu8], 0);
        assert(s[j] == 0x2c);
        assert(skip_ws(s, j) == j);
        assert(j + 1 + argv_image(lr).len() == i + argv_image(l).len());
        lemma_parse_array_items_image(s, j + 1, lr);
        assert(parse_array_items(s, i) == Some(
            (
                seq![encode_utf8(l[0])] + lr.map_values(|t: Seq<char>| encode_utf8(t)),
                i + argv_image(l).len() + 1,
            ),
        ));
        assert(seq![encode_utf8(l[0])] + lr.map_values(|t: Seq<char>| encode_utf8(t)) =~= l
            .map_values(|t: Seq<char>| encode_utf8(t)));
    }
}

/// Parsing an emitted env member yields the UTF-8 bytes of the key and
/// value that were written.
pub proof fn lemma_parse_member_image(s: Seq<u8>, i: int, kv: (Seq<char>, Seq<char>))
    requires
        0 <= i,
        i + env_entry_image(kv).len() <= s.len(),
        s.subrange(i, i + env_entry_image(kv).len()) == env_entry_image(kv),
    ensures
        parse_member(s, i) == Some(
            ((encode_utf8(kv.0), encode_utf8(kv.1)), i + env_entry_image(kv).len()),
        ),
{
    let sk = string_image(kv.0);
    let sv = string_image(kv.1);
    let c = seq![0x3au8];
    assert(env_entry_image(kv) == sk + (c + sv)) by {
        assert(env_entry_image(kv) =~= sk + (c + sv));
    }
    lemma_subrange_split(s, i, sk, c + sv);
    lemma_subrange_split(s, i + sk.len(), c, sv);
    lemma_subrange_index(s, i, sk, 0);
    assert(sk[0] == 0x22);
    assert(s[i] == 0x22);
    assert(skip_ws(s, i) == i);
    lemma_parse_string_image(s, i, kv.0);
    let j = i + sk.len();
    lemma_subrange_index(s, j, c, 0);
    assert(s[j] == 0x3a);
    assert(skip_ws(s, j) == j);
    lemma_subrange_index(s, j + 1, sv, 0);
    assert(sv[0] == 0x22);
    assert(s[j + 1] == 0x22);
    assert(skip_ws(s, j + 1) == j + 1);
    lemma_parse_string_image(s, j + 1, kv.1);
}

/// Parsing the emitted members of a non-empty env mapping, up to a closing
/// `}`, yields the UTF-8 bytes of the pairs that were written.
pub proof fn lemma_parse_object_items_image(s: Seq<u8>, i: int, l: Seq<(Seq<char>, Seq<char>)>)
    requires
        l.len() >= 1,
        0 <= i,
        i + env_image(l).len() + 1 <= s.len(),
        s.subrange(i, i + env_image(l).len()) == env_image(l),
        s[i + env_image(l).len()] == 0x7d,
    ensures
        parse_object_items(s, i) == Some(
            (
                l.map_values(|kv: (Seq<char>, Seq<char>)| (encode_utf8(kv.0), encode_utf8(kv.1))),
                i + env_image(l).len() + 1,
            ),
        ),
    decreases l.len(),
{
    let me = env_entry_image(l[0]);
    let rest = env_rest_image(l.drop_first());
    assert(env_image(l) == me + rest);
    lemma_subrange_split(s, i, me, rest);
    lemma_parse_member_image(s, i, l[0]);
    let j = i + me.len();
    if l.len() == 1 {
        assert(rest =~= Seq::<u8>::empty());
        assert(j == i + env_image(l).len());
        assert(s[j] == 0x7d);
        assert(skip_ws(s, j) == j);
        assert(parse_object_items(s, i) == Some(
            (seq![(encode_utf8(l[0].0), encode_utf8(l[0].1))], j + 1),
        ));
        assert(l.map_values(|kv: (Seq<char>, Seq<char>)| (encode_utf8(kv.0), encode_utf8(kv.1)))
            =~= seq![(encode_utf8(l[0].0), encode_utf8(l[0].1))]);
    } else {
        let lr = l.drop_first();
        assert(lr.len() >= 1);
        assert(rest == seq![0x2cu8] + env_image(lr)) by {
            assert(rest == seq![0x2cu8] + env_entry_image(lr[0]) + env_rest_image(lr.drop_first()));
            assert(env_image(lr) == env_entry_image(lr[0]) + env_rest_image(lr.drop_first()));
            assert(rest =~= seq![0x2cu8] + env_image(lr));
        }
        lemma_subrange_split(s, j, seq![0x2cu8], env_image(lr));
        lemma_subrange_index(s, j, seq![0x2cu8], 0);
        assert(s[j] == 0x2c);
        assert(skip_ws(s, j) == j);
        assert(j + 1 + env_image(lr).len() == i + env_image(l).len());
        lemma_parse_object_items_image(s, j + 1, lr);
        assert(parse_object_items(s, i) == Some(
            (
                seq![(encode_utf8(l[0].0), encode_utf8(l[0].1))] + lr.map_values(
                    |kv: (Seq<char>, Seq<char>)| (encode_utf8(kv.0), encode_utf8(kv.1)),
                ),
                i + env_image(l).len() + 1,
            ),
        ));
        assert(seq![(encode_utf8(l[0].0), encode_utf8(l[0].1))] + lr.map_values(
            |kv: (Seq<char>, Seq<char>)| (encode_utf8(kv.0), encode_utf8(kv.1)),
        ) =~= l.map_values(|kv: (Seq<char>, Seq<char>)| (encode_utf8(kv.0), encode_utf8(kv.1))));
    }
}

/// The wire bytes of each argv element.
pub open spec fn argv_wire(m: ManifestView) -> Seq<Seq<u8>> {
    m.argv.map_values(|t: Seq<char>| encode_utf8(t))
}

/// The wire bytes of each env member.
pub open spec fn env_wire(m: ManifestView) -> Seq<(Seq<u8>, Seq<u8>)> {
    m.env.map_values(|kv: (Seq<char>, Seq<char>)| (encode_utf8(kv.0), encode_utf8(kv.1)))
}

/// The two member keys encode to their wire bytes.
pub proof fn lemma_keys_wire()
    ensures
        encode_utf8(argv_key()) == argv_key_bytes(),
        encode_utf8(env_key()) == env_key_bytes(),
{
    assert(is_ascii_chars(argv_key())) by {
        assert(argv_key()[0] == 'a' && argv_key()[1] == 'r' && argv_key()[2] == 'g' && argv_key()[3]
            == 'v');
    }
    vstd::utf8::is_ascii_chars_encode_utf8(argv_key());
    assert(encode_utf8(argv_key()) =~= argv_key_bytes());
    assert(is_ascii_chars(env_key())) by {
        assert(env_key()[0] == 'e' && env_key()[1] == 'n' && env_key()[2] == 'v');
    }
    vstd::utf8::is_ascii_chars_encode_utf8(env_key());
    assert(encode_utf8(env_key()) =~= env_key_bytes());
}

/// Parsing an emitted array image (the `[`, the member images, the `]`)
/// yields the wire bytes of the written strings.
pub proof fn lemma_parse_array_image(s: Seq<u8>, i: int, l: Seq<Seq<char>>)
    requires
        0 <= i,
        i + 1 + argv_image(l).len() + 1 <= s.len(),
        s[i] == 0x5b,
        s.subrange(i + 1, i + 1 + argv_image(l).len()) == argv_image(l),
        s[i + 1 + argv_image(l).len()] == 0x5d,
    ensures
        parse_array(s, i) == Some(
            (l.map_values(|t: Seq<char>| encode_utf8(t)), i + argv_image(l).len() + 2),
        ),
{
    assert(skip_ws(s, i) == i);
    if l.len() == 0 {
        assert(argv_image(l) =~= Seq::<u8>::empty());
        assert(s[i + 1] == 0x5d);
        assert(skip_ws(s, i + 1) == i + 1);
        assert(parse_array(s, i) == Some((Seq::<Seq<u8>>::empty(), i + 2)));
        assert(l.map_values(|t: Seq<char>| encode_utf8(t)) =~= Seq::<Seq<u8>>::empty());
    } else {
        assert(argv_image(l)[0] == 0x22) by {
            assert(argv_image(l) == string_image(l[0]) + argv_rest_image(l.drop_first()));
            assert(string_image(l[0])[0] == 0x22);
        }
        lemma_subrange_index(s, i + 1, argv_image(l), 0);
        assert(s[i + 1] == 0x22);
        assert(skip_ws(s, i + 1) == i + 1);
        lemma_parse_array_items_image(s, i + 1, l);
    }
}

/// Parsing an emitted object image (the `{`, the member images, the `}`)
/// yields the wire bytes of the written pairs.
pub proof fn lemma_parse_object_image(s: Seq<u8>, i: int, l: Seq<(Seq<char>, Seq<char>)>)
    requires
        0 <= i,
        i + 1 + env_image(l).len() + 1 <= s.len(),
        s[i] == 0x7b,
        s.subrange(i + 1, i + 1 + env_image(l).len()) == env_image(l),
        s[i + 1 + env_image(l).len()] == 0x7d,
    ensures
        parse_object(s, i) == Some(
            (
                l.map_values(|kv: (Seq<char>, Seq<char>)| (encode_utf8(kv.0), encode_utf8(kv.1))),
                i + env_image(l).len() + 2,
            ),
        ),
{
    assert(skip_ws(s, i) == i);
    if l.len() == 0 {
        assert(env_image(l) =~= Seq::<u8>::empty());
        assert(s[i + 1] == 0x7d);
        assert(skip_ws(s, i + 1) == i + 1);
        assert(parse_object(s, i) == Some((Seq::<(Seq<u8>, Seq<u8>)>::empty(), i + 2)));
        assert(l.map_values(|kv: (Seq<char>, Seq<char>)| (encode_utf8(kv.0), encode_utf8(kv.1)))
            =~= Seq::<(Seq<u8>, Seq<u8>)>::empty());
    } else {
        assert(env_image(l)[0] == 0x22) by {
            assert(env_image(l) == env_entry_image(l[0]) + env_rest_image(l.drop_first()));
            assert(env_entry_image(l[0])[0] == string_image(l[0].0)[0]);
            assert(string_image(l[0].0)[0] == 0x22);
        }
        lemma_subrange_index(s, i + 1, env_image(l), 0);
        assert(s[i + 1] == 0x22);
        assert(skip_ws(s, i + 1) == i + 1);
        lemma_parse_object_items_image(s, i + 1, l);
    }
}

/// Where each of nine concatenated parts lies within the whole.
#[verifier::rlimit(100)]
proof fn lemma_concat9_layout(
    s: Seq<u8>,
    c1: Seq<u8>,
    c2: Seq<u8>,
    c3: Seq<u8>,
    c4: Seq<u8>,
    c5: Seq<u8>,
    c6: Seq<u8>,
    c7: Seq<u8>,
    c8: Seq<u8>,
    c9: Seq<u8>,
)
    requires
        s == c1 + c2 + c3 + c4 + c5 + c6 + c7 + c8 + c9,
    ensures
        s.len() == c1.len() + c2.len() + c3.len() + c4.len() + c5.len() + c6.len() + c7.len() + c8.len() + c9.len(),
        s.subrange(0, (c1.len()) as int) == c1,
        s.subrange((c1.len()) as int, (c1.len() + c2.len()) as int) == c2,
        s.subrange((c1.len() + c2.len()) as int, (c1.len() + c2.len() + c3.len()) as int) == c3,
        s.subrange((c1.len() + c2.len() + c3.len()) as int, (c1.len() + c2.len() + c3.len() + c4.len()) as int) == c4,
        s.subrange((c1.len() + c2.len() + c3.len() + c4.len()) as int, (c1.len() + c2.len() + c3.len() + c4.len() + c5.len()) as int) == c5,
        s.subrange((c1.len() + c2.len() + c3.len() + c4.len() + c5.len()) as int, (c1.len() + c2.len() + c3.len() + c4.len() + c5.len() + c6.len()) as int) == c6,
        s.subrange((c1.len() + c2.len() + c3.len() + c4.len() + c5.len() + c6.len()) as int, (c1.len() + c2.len() + c3.len() + c4.len() + c5.len() + c6.len() + c7.len()) as int) == c7,
        s.subrange((c1.len() + c2.len() + c3.len() + c4.len() + c5.len() + c6.len() + c7.len()) as int, (c1.len() + c2.len() + c3.len() + c4.len() + c5.len() + c6.len() + c7.len() + c8.len()) as int) == c8,
        s.subrange((c1.len() + c2.len() + c3.len() + c4.len() + c5.len() + c6.len() + c7.len() + c8.len()) as int, s.len() as int) == c9,
{
    assert(s.subrange(0, (c1.len()) as int) =~= c1);
    assert(s.subrange((c1.len()) as int, (c1.len() + c2.len()) as int) =~= c2);
    assert(s.subrange((c1.len() + c2.len()) as int, (c1.len() + c2.len() + c3.len()) as int) =~= c3);
    assert(s.subrange((c1.len() + c2.len() + c3.len()) as int, (c1.len() + c2.len() + c3.len() + c4.len()) as int) =~= c4);
    assert(s.subrange((c1.len() + c2.len() + c3.len() + c4.len()) as int, (c1.len() + c2.len() + c3.len() + c4.len() + c5.len()) as int) =~= c5);
    assert(s.subrange((c1.len() + c2.len() + c3.len() + c4.len() + c5.len()) as int, (c1.len() + c2.len() + c3.len() + c4.len() + c5.len() + c6.len()) as int) =~= c6);
    assert(s.subrange((c1.len() + c2.len() + c3.len() + c4.len() + c5.len() + c6.len()) as int, (c1.len() + c2.len() + c3.len() + c4.len() + c5.len() + c6.len() + c7.len()) as int) =~= c7);
    assert(s.subrange((c1.len() + c2.len() + c3.len() + c4.len() + c5.len() + c6.len() + c7.len()) as int, (c1.len() + c2.len() + c3.len() + c4.len() + c5.len() + c6.len() + c7.len() + c8.len()) as int) =~= c8);
    assert(s.subrange((c1.len() + c2.len() + c3.len() + c4.len() + c5.len() + c6.len() + c7.len() + c8.len()) as int, s.len() as int) =~= c9);
}

/// The position just after the emitted `argv` key's closing quote.
pub open spec fn key1_end() -> int {
    1 + string_image(argv_key()).len() as int
}

/// The position of the emitted `]` closing the argv array.
pub open spec fn argv_end(m: ManifestView) -> int {
    key1_end() + 2 + argv_image(m.argv).len() as int
}

/// Parsing the head of an emitted manifest image finds the `argv` key and
/// the wire bytes of the argv elements.
#[verifier::rlimit(100)]
proof fn lemma_parse_raw_argv(m: ManifestView)
    ensures
        manifest_image(m).len() >= argv_end(m) + 2,
        skip_ws(manifest_image(m), 0) == 0,
        manifest_image(m)[0] == 0x7b,
        skip_ws(manifest_image(m), 1) == 1,
        parse_string(manifest_image(m), 1) == Some((argv_key_bytes(), key1_end())),
        skip_ws(manifest_image(m), key1_end()) == key1_end(),
        manifest_image(m)[key1_end()] == 0x3a,
        parse_array(manifest_image(m), key1_end() + 1) == Some((argv_wire(m), argv_end(m) + 1)),
{
    let s = manifest_image(m);
    let h1 = seq![0x7bu8];
    let k1 = string_image(argv_key());
    let h2 = seq![0x3au8, 0x5bu8];
    let av = argv_image(m.argv);
    let h3 = seq![0x5du8, 0x2cu8];
    let k2 = string_image(env_key());
    let h4 = seq![0x3au8, 0x7bu8];
    let ev = env_image(m.env);
    let h5 = seq![0x7du8, 0x7du8];
    lemma_concat9_layout(s, h1, k1, h2, av, h3, k2, h4, ev, h5);
    let p1 = 1int;
    let p2 = p1 + k1.len();
    let p3 = p2 + 2;
    let p4 = p3 + av.len();
    lemma_subrange_index(s, 0, h1, 0);
    lemma_subrange_index(s, p2, h2, 0);
    lemma_subrange_index(s, p2, h2, 1);
    lemma_subrange_index(s, p4, h3, 0);
    assert(s[0] == 0x7b && s[p2] == 0x3a && s[p2 + 1] == 0x5b && s[p4] == 0x5d);
    assert(k1[0] == 0x22);
    lemma_subrange_index(s, p1, k1, 0);
    assert(s[p1] == 0x22);
    assert(skip_ws(s, 0) == 0);
    assert(skip_ws(s, p1) == p1);
    lemma_parse_string_image(s, p1, argv_key());
    lemma_keys_wire();
    assert(parse_string(s, p1) == Some((argv_key_bytes(), p2)));
    assert(skip_ws(s, p2) == p2);
    lemma_parse_array_image(s, p2 + 1, m.argv);
    assert(parse_array(s, p2 + 1) == Some((argv_wire(m), p4 + 1)));
}

/// Parsing the tail of an emitted manifest image finds the `env` key, the
/// wire bytes of the env members, and the end of the document.
#[verifier::rlimit(100)]
proof fn lemma_parse_raw_env(m: ManifestView)
    ensures
        parse_env_tail(manifest_image(m), argv_end(m) + 1) == Some(env_wire(m)),
{
    let s = manifest_image(m);
    let h1 = seq![0x7bu8];
    let k1 = string_image(argv_key());
    let h2 = seq![0x3au8, 0x5bu8];
    let av = argv_image(m.argv);
    let h3 = seq![0x5du8, 0x2cu8];
    let k2 = string_image(env_key());
    let h4 = seq![0x3au8, 0x7bu8];
    let ev = env_image(m.env);
    let h5 = seq![0x7du8, 0x7du8];
    lemma_concat9_layout(s, h1, k1, h2, av, h3, k2, h4, ev, h5);
    let p4 = argv_end(m);
    let p5 = p4 + 2;
    let p6 = p5 + k2.len();
    let p7 = p6 + 2;
    let p8 = p7 + ev.len();
    assert(s.len() == p8 + 2);
    lemma_subrange_index(s, p4, h3, 0);
    lemma_subrange_index(s, p4, h3, 1);
    lemma_subrange_index(s, p6, h4, 0);
    lemma_subrange_index(s, p6, h4, 1);
    lemma_subrange_index(s, p8, h5, 0);
    lemma_subrange_index(s, p8, h5, 1);
    assert(s[p4 + 1] == 0x2c && s[p6] == 0x3a && s[p6 + 1] == 0x7b && s[p8] == 0x7d && s[p8 + 1]
        == 0x7d);
    assert(skip_ws(s, p4 + 1) == p4 + 1);
    assert(k2[0] == 0x22);
    lemma_subrange_index(s, p5, k2, 0);
    assert(s[p5] == 0x22);
    assert(skip_ws(s, p4 + 2) == p5);
    lemma_parse_string_image(s, p5, env_key());
    lemma_keys_wire();
    assert(parse_string(s, p5) == Some((env_key_bytes(), p6)));
    assert(skip_ws(s, p6) == p6);
    lemma_parse_object_image(s, p6 + 1, m.env);
    assert(parse_object(s, p6 + 1) == Some((env_wire(m), p8 + 1)));
    assert(skip_ws(s, p8 + 1) == p8 + 1);
    assert(skip_ws(s, p8 + 2) == s.len());
    assert(parse_document_end(s, p8 + 1));
    assert(parse_env_tail(s, p4 + 1) == Some(env_wire(m)));
}

/// Parsing an emitted manifest image yields the wire bytes of the argv
/// elements and env members that were written.
#[verifier::rlimit(100)]
pub proof fn lemma_parse_raw_image(m: ManifestView)
    ensures
        parse_manifest_raw(manifest_image(m)) == Some((argv_wire(m), env_wire(m))),
{
    let s = manifest_image(m);
    lemma_parse_raw_argv(m);
    lemma_parse_raw_env(m);
    assert(argv_key_bytes() != env_key_bytes());
    assert(parse_manifest_raw(s) == Some((argv_wire(m), env_wire(m))));
}

/// Law: deserializing an emitted manifest document yields the manifest that
/// was written. For every manifest whose env keys are distinct, parsing
/// `manifest_image(m)` succeeds and yields `m` exactly.
pub proof fn lemma_manifest_round_trip(m: ManifestView)
    requires
        m.wf(),
    ensures
        parsed_manifest(manifest_image(m)) == Some(m),
{
    let s = manifest_image(m);
    lemma_parse_raw_image(m);
    let argv_bytes = argv_wire(m);
    let env_bytes = env_wire(m);
    broadcast use vstd::utf8::encode_utf8_valid_utf8, vstd::utf8::encode_utf8_decode_utf8;

    assert forall|k: int| 0 <= k < argv_bytes.len() implies valid_utf8(
        #[trigger] argv_bytes[k],
    ) by {
        assert(argv_bytes[k] == encode_utf8(m.argv[k]));
    }
    assert forall|k: int|
        0 <= k < env_bytes.len() implies valid_utf8((#[trigger] env_bytes[k]).0) && valid_utf8(
        env_bytes[k].1,
    ) by {
        assert(env_bytes[k] == (encode_utf8(m.env[k].0), encode_utf8(m.env[k].1)));
    }
    assert(all_valid_utf8(argv_bytes));
    assert(all_valid_utf8_pairs(env_bytes));
    assert forall|a: int, b: int| 0 <= a < b < env_bytes.len() implies (#[trigger] env_bytes[a]).0
        != (#[trigger] env_bytes[b]).0 by {
        assert(env_bytes[a].0 == encode_utf8(m.env[a].0));
        assert(env_bytes[b].0 == encode_utf8(m.env[b].0));
        if env_bytes[a].0 == env_bytes[b].0 {
            assert(decode_utf8(encode_utf8(m.env[a].0)) == m.env[a].0);
            assert(decode_utf8(encode_utf8(m.env[b].0)) == m.env[b].0);
            assert(m.env[a].0 == m.env[b].0);
            assert(false);
        }
    }
    assert(distinct_keys(env_bytes));
    let v = ManifestView {
        argv: argv_bytes.map_values(|b: Seq<u8>| decode_utf8(b)),
        env: env_bytes.map_values(|kv: (Seq<u8>, Seq<u8>)| (decode_utf8(kv.0), decode_utf8(kv.1))),
    };
    assert(parsed_manifest(s) == Some(v));
    assert forall|k: int| 0 <= k < v.argv.len() implies #[trigger] v.argv[k] == m.argv[k] by {
        assert(v.argv[k] == decode_utf8(argv_bytes[k]));
        assert(argv_bytes[k] == encode_utf8(m.argv[k]));
    }
    assert forall|k: int| 0 <= k < v.env.len() implies #[trigger] v.env[k] == m.env[k] by {
        assert(v.env[k] == (decode_utf8(env_bytes[k].0), decode_utf8(env_bytes[k].1)));
        assert(env_bytes[k] == (encode_utf8(m.env[k].0), encode_utf8(m.env[k].1)));
    }
    assert(v.argv =~= m.argv);
    assert(v.env =~= m.env);
    assert(v =~= m);
}

} // verus!
