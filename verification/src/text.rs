//! Text forms of labels: UTF-8 decoding, hexadecimal, and dot-joined names.
use vstd::prelude::*;
use vstd::string::StringSliceAdditionalSpecFns;
use vstd::utf8::{decode_utf8, encode_utf8, valid_utf8};

verus! {

/// The lowercase hexadecimal digits, by value.
pub open spec fn hex_digits() -> Seq<char> {
    seq!['0', '1', '2', '3', '4', '5', '6', '7', '8', '9', 'a', 'b', 'c', 'd', 'e', 'f']
}

/// Each byte as two lowercase hexadecimal digits, the high half first.
pub open spec fn hex_lower(bytes: Seq<u8>) -> Seq<char>
    decreases bytes.len(),
{
    if bytes.len() == 0 {
        seq![]
    } else {
        seq![hex_digits()[bytes[0] as int / 16], hex_digits()[bytes[0] as int % 16]] + hex_lower(
            bytes.drop_first(),
        )
    }
}

/// The parts, joined by `.`.
pub open spec fn join_dot(parts: Seq<Seq<char>>) -> Seq<char>
    decreases parts.len(),
{
    if parts.len() == 0 {
        seq![]
    } else if parts.len() == 1 {
        parts[0]
    } else {
        join_dot(parts.drop_last()) + seq!['.'] + parts.last()
    }
}

/// A label as shown for debugging: its text if it is UTF-8, else `<0x..>` with its
/// bytes in hexadecimal.
pub open spec fn debug_label(label: Seq<u8>) -> Seq<char> {
    if valid_utf8(label) {
        decode_utf8(label)
    } else {
        seq!['<', '0', 'x'] + hex_lower(label) + seq!['>']
    }
}

/// The labels as text (meaningful where they are all UTF-8).
pub open spec fn label_texts(labels: Seq<Seq<u8>>) -> Seq<Seq<char>> {
    labels.map_values(|l: Seq<u8>| decode_utf8(l))
}

/// The labels as shown for debugging.
pub open spec fn debug_labels(labels: Seq<Seq<u8>>) -> Seq<Seq<char>> {
    labels.map_values(|l: Seq<u8>| debug_label(l))
}

/// The bytes as text, if they are UTF-8.
///
/// Calls `std::str::from_utf8`, which is documented to succeed exactly when the
/// bytes are valid UTF-8, and then to give a `str` made of those same bytes.
#[verifier::external_body]
pub(crate) fn utf8_text(bytes: &[u8]) -> (res: Option<&str>)
    ensures
        res is Some <==> valid_utf8(bytes@),
        res matches Some(s) ==> s.spec_bytes() == bytes@,
{
    std::str::from_utf8(bytes).ok()
}

/// The bytes in lowercase hexadecimal.
///
/// Calls `hex::encode`, whose source maps each byte to two characters of the table
/// `0123456789abcdef`, the high four bits first.
#[verifier::external_body]
pub(crate) fn hex_encode(bytes: &[u8]) -> (res: String)
    ensures
        res@ == hex_lower(bytes@),
{
    hex::encode(bytes)
}

/// Decoding what `utf8_text` gave back yields the text of the bytes.
pub proof fn lemma_utf8_text(bytes: Seq<u8>, chars: Seq<char>)
    requires
        encode_utf8(chars) == bytes,
    ensures
        valid_utf8(bytes),
        chars == decode_utf8(bytes),
{
    vstd::utf8::encode_utf8_valid_utf8(chars);
    vstd::utf8::encode_utf8_decode_utf8(chars);
}


/// The labels joined by the byte `.`.
pub open spec fn join_bytes(labels: Seq<Seq<u8>>) -> Seq<u8>
    decreases labels.len(),
{
    if labels.len() == 0 {
        seq![]
    } else if labels.len() == 1 {
        labels[0]
    } else {
        join_bytes(labels.drop_last()) + seq![0x2eu8] + labels.last()
    }
}

/// Whether the character is a lowercase hexadecimal digit.
pub open spec fn is_lower_hex_digit(c: char) -> bool {
    (48 <= c as u32 <= 57) || (97 <= c as u32 <= 102)
}

/// The value of a lowercase hexadecimal digit.
pub open spec fn hex_digit_value(c: char) -> int {
    if c as u32 <= 57 {
        c as u32 - 48
    } else {
        c as u32 - 87
    }
}

proof fn lemma_hex_digit(n: int)
    requires
        0 <= n < 16,
    ensures
        is_lower_hex_digit(hex_digits()[n]),
        hex_digit_value(hex_digits()[n]) == n,
{
    let d = hex_digits();
    assert(d[0] == '0' && d[1] == '1' && d[2] == '2' && d[3] == '3');
    assert(d[4] == '4' && d[5] == '5' && d[6] == '6' && d[7] == '7');
    assert(d[8] == '8' && d[9] == '9' && d[10] == 'a' && d[11] == 'b');
    assert(d[12] == 'c' && d[13] == 'd' && d[14] == 'e' && d[15] == 'f');
}

/// The two characters of `hex` for byte `i` of `bytes` are lowercase hexadecimal
/// digits whose values, the high one first, make that byte.
pub open spec fn hex_pair_encodes(hex: Seq<char>, bytes: Seq<u8>, i: int) -> bool {
    &&& is_lower_hex_digit(hex[2 * i])
    &&& is_lower_hex_digit(hex[2 * i + 1])
    &&& 16 * hex_digit_value(hex[2 * i]) + hex_digit_value(hex[2 * i + 1]) == bytes[i]
}

/// The hexadecimal form has two lowercase digits per byte, whose values, the high
/// one first, give back the byte.
pub proof fn law_hex_lower(bytes: Seq<u8>)
    ensures
        hex_lower(bytes).len() == 2 * bytes.len(),
        forall|i: int| 0 <= i < bytes.len() ==> #[trigger] hex_pair_encodes(hex_lower(bytes), bytes, i),
    decreases bytes.len(),
{
    if bytes.len() > 0 {
        let b = bytes[0];
        let rest = bytes.drop_first();
        law_hex_lower(rest);
        lemma_hex_digit(b as int / 16);
        lemma_hex_digit(b as int % 16);
        let h = hex_lower(bytes);
        assert forall|i: int| 0 <= i < bytes.len() implies #[trigger] hex_pair_encodes(h, bytes, i) by {
            if i > 0 {
                assert(hex_pair_encodes(hex_lower(rest), rest, i - 1));
                assert(bytes[i] == rest[i - 1]);
                assert(h[2 * i] == hex_lower(rest)[2 * (i - 1)]);
                assert(h[2 * i + 1] == hex_lower(rest)[2 * (i - 1) + 1]);
            } else {
                assert(h[0] == hex_digits()[b as int / 16]);
                assert(h[1] == hex_digits()[b as int % 16]);
            }
        }
    }
}

/// The UTF-8 encoding of a concatenation is the concatenation of the encodings.
pub proof fn lemma_encode_utf8_concat(a: Seq<char>, b: Seq<char>)
    ensures
        encode_utf8(a + b) == encode_utf8(a) + encode_utf8(b),
    decreases a.len(),
{
    if a.len() == 0 {
        assert(a + b =~= b);
        assert(encode_utf8(a) + encode_utf8(b) =~= encode_utf8(b));
    } else {
        lemma_encode_utf8_concat(a.drop_first(), b);
        assert((a + b).drop_first() =~= a.drop_first() + b);
        assert((a + b)[0] == a[0]);
        assert(encode_utf8(a + b) =~= encode_utf8(a) + encode_utf8(b));
    }
}

proof fn lemma_encode_dot()
    ensures
        encode_utf8(seq!['.']) == seq![0x2eu8],
{
    let dot = seq!['.'];
    assert(vstd::utf8::is_ascii_chars(dot));
    vstd::utf8::is_ascii_chars_encode_utf8(dot);
    assert(encode_utf8(dot) =~= seq![0x2eu8]);
}

/// Parts whose UTF-8 forms are the labels, joined by `.`, are the labels joined by
/// the byte `.` in UTF-8 form.
proof fn lemma_join_dot_bytes(parts: Seq<Seq<char>>, labels: Seq<Seq<u8>>)
    requires
        parts.len() == labels.len(),
        forall|i: int| 0 <= i < parts.len() ==> encode_utf8(#[trigger] parts[i]) == labels[i],
    ensures
        encode_utf8(join_dot(parts)) == join_bytes(labels),
    decreases parts.len(),
{
    if parts.len() > 1 {
        let n = parts.len() - 1;
        lemma_join_dot_bytes(parts.drop_last(), labels.drop_last());
        lemma_encode_utf8_concat(join_dot(parts.drop_last()), seq!['.']);
        lemma_encode_utf8_concat(join_dot(parts.drop_last()) + seq!['.'], parts.last());
        lemma_encode_dot();
        assert(encode_utf8(parts[n]) == labels[n]);
    } else if parts.len() == 1 {
        assert(encode_utf8(parts[0]) == labels[0]);
    }
}

/// The text form of UTF-8 labels is, in UTF-8, exactly the labels joined by `.`:
/// each label in full, in order, none left out.
pub proof fn law_text_form(labels: Seq<Seq<u8>>)
    requires
        forall|i: int| 0 <= i < labels.len() ==> valid_utf8(#[trigger] labels[i]),
    ensures
        encode_utf8(join_dot(label_texts(labels))) == join_bytes(labels),
{
    let parts = label_texts(labels);
    assert forall|i: int| 0 <= i < parts.len() implies encode_utf8(#[trigger] parts[i])
        == labels[i] by {
        assert(valid_utf8(labels[i]));
        vstd::utf8::decode_utf8_encode_utf8(labels[i]);
    }
    lemma_join_dot_bytes(parts, labels);
}

/// A label is shown as itself when it is UTF-8, and as `<0x..>` around its
/// hexadecimal form only when it is not.
pub proof fn law_debug_label(label: Seq<u8>)
    ensures
        valid_utf8(label) ==> encode_utf8(debug_label(label)) == label,
        !valid_utf8(label) ==> debug_label(label) == seq!['<', '0', 'x'] + hex_lower(label)
            + seq!['>'],
{
    if valid_utf8(label) {
        vstd::utf8::decode_utf8_encode_utf8(label);
    }
}

/// The debugging form of UTF-8 labels is, in UTF-8, exactly the labels joined by `.`.
pub proof fn law_debug_form_utf8(labels: Seq<Seq<u8>>)
    requires
        forall|i: int| 0 <= i < labels.len() ==> valid_utf8(#[trigger] labels[i]),
    ensures
        encode_utf8(join_dot(debug_labels(labels))) == join_bytes(labels),
{
    let parts = debug_labels(labels);
    assert forall|i: int| 0 <= i < parts.len() implies encode_utf8(#[trigger] parts[i])
        == labels[i] by {
        law_debug_label(labels[i]);
    }
    lemma_join_dot_bytes(parts, labels);
}

} // verus!
