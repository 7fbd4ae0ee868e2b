use vstd::prelude::*;
use sha1::Digest;

verus! {

/// The SHA-1 digest of a byte sequence.
pub uninterp spec fn sha1_of(b: Seq<u8>) -> Seq<u8>;

/// The text that a byte sequence encodes as UTF-8, or none where it is not valid UTF-8.
pub uninterp spec fn utf8_text(b: Seq<u8>) -> Option<Seq<char>>;

/// Whether every byte is below 128.
pub open spec fn all_ascii(b: Seq<u8>) -> bool {
    forall|i: int| 0 <= i < b.len() ==> #[trigger] b[i] < 128
}

/// The characters whose codes are the given ASCII bytes.
pub open spec fn ascii_chars(b: Seq<u8>) -> Seq<char> {
    b.map_values(|c: u8| c as char)
}

/// Relies on sha1::Sha1::digest: the 20-byte SHA-1 digest of the input, a function
/// of the input alone.
#[verifier::external_body]
pub(crate) fn sha1_digest(bytes: &[u8]) -> (r: Vec<u8>)
    ensures
        r@ == sha1_of(bytes@),
        r@.len() == 20,
{
    sha1::Sha1::digest(bytes).to_vec()
}

/// Relies on std::str::from_utf8: the text of valid UTF-8 bytes, or none; bytes that
/// are all ASCII are valid and encode the characters of the same codes.
#[verifier::external_body]
pub(crate) fn text_from_utf8(bytes: &[u8]) -> (r: Option<String>)
    ensures
        match r {
            Some(s) => utf8_text(bytes@) == Some(s@),
            None => utf8_text(bytes@) is None,
        },
        all_ascii(bytes@) ==> r is Some && r->0@ == ascii_chars(bytes@),
{
    std::str::from_utf8(bytes).ok().map(|s| s.to_string())
}

/// The lowercase hexadecimal digit of a value below 16, as an ASCII code.
pub open spec fn hex_digit(n: int) -> u8 {
    if n < 10 {
        (48 + n) as u8
    } else {
        (87 + n) as u8
    }
}

/// Two lowercase hexadecimal digits per byte, as ASCII codes, no separators.
pub open spec fn hex_bytes(b: Seq<u8>) -> Seq<u8>
    decreases b.len(),
{
    if b.len() == 0 {
        Seq::empty()
    } else {
        hex_bytes(b.drop_last()).push(hex_digit(b.last() as int / 16)).push(
            hex_digit(b.last() as int % 16),
        )
    }
}

fn hex_digit_byte(n: u8) -> (r: u8)
    requires
        n < 16,
    ensures
        r == hex_digit(n as int),
        r < 128,
{
    if n < 10 {
        48 + n
    } else {
        87 + n
    }
}

/// The lowercase hexadecimal form of `bytes`: two digits per byte, no separators.
pub fn get_sha1_hexdigest(bytes: &[u8]) -> (r: String)
    ensures
        r@ == ascii_chars(hex_bytes(bytes@)),
{
    let mut digits: Vec<u8> = Vec::new();
    let mut i: usize = 0;
    while i < bytes.len()
        invariant
            i <= bytes.len(),
            digits@ == hex_bytes(bytes@.subrange(0, i as int)),
            all_ascii(digits@),
        decreases bytes.len() - i,
    {
        let b = bytes[i];
        digits.push(hex_digit_byte(b / 16));
        digits.push(hex_digit_byte(b % 16));
        proof {
            let p = bytes@.subrange(0, i + 1);
            assert(p.drop_last() =~= bytes@.subrange(0, i as int));
        }
        i = i + 1;
    }
    proof {
        assert(bytes@.subrange(0, bytes@.len() as int) =~= bytes@);
    }
    match text_from_utf8(digits.as_slice()) {
        Some(text) => text,
        None => String::new(),
    }
}

/// The SHA-1 digest of `bytes[start..end]`.
pub fn digest_of_range(bytes: &[u8], start: usize, end: usize) -> (r: Vec<u8>)
    requires
        start <= end <= bytes@.len(),
    ensures
        r@ == sha1_of(bytes@.subrange(start as int, end as int)),
        r@.len() == 20,
{
    let mut range: Vec<u8> = Vec::new();
    let mut i = start;
    while i < end
        invariant
            start <= i <= end,
            end <= bytes@.len(),
            range@ == bytes@.subrange(start as int, i as int),
        decreases end - i,
    {
        range.push(bytes[i]);
        proof {
            assert(range@ =~= bytes@.subrange(start as int, i + 1));
        }
        i = i + 1;
    }
    sha1_digest(range.as_slice())
}

/// The SHA-1 digest of the byte range that a dictionary token occupies in its input.
pub fn calculate_info_hash(info: &crate::bencode::BencodeDictionary, bytes: &[u8]) -> (r: Vec<u8>)
    requires
        info.start_position <= info.continuation_position <= bytes@.len(),
    ensures
        r@ == sha1_of(bytes@.subrange(info.start_position as int, info.continuation_position as int)),
        r@.len() == 20,
{
    digest_of_range(bytes, info.start_position, info.continuation_position)
}

} // verus!
