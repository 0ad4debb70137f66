//! Everything the library believes without proof about code that is not its
//! own: text validation of std, identifiers, base64, checksums and inodes.
use vstd::prelude::*;
use vstd::utf8::{decode_utf8, valid_utf8};
use base64::engine::general_purpose::{GeneralPurpose, GeneralPurposeConfig, STANDARD, URL_SAFE_NO_PAD};
use base64::engine::DecodePaddingMode;
use base64::Engine;
use crate::ident::{is_version_4, ulid_text, uuid_text};

verus! {

// ---------------------------------------------------------------------------
// std
// ---------------------------------------------------------------------------

/// `String::from_utf8` of std: succeeds exactly on well-formed UTF-8, and the
/// string then holds the characters that the bytes encode.
#[verifier::external_body]
pub(crate) fn utf8_text(buf: Vec<u8>) -> (r: Option<String>)
    ensures
        r is Some <==> valid_utf8(buf@),
        r matches Some(s) ==> s@ == decode_utf8(buf@),
{
    String::from_utf8(buf).ok()
}

// ---------------------------------------------------------------------------
// uuid
// ---------------------------------------------------------------------------

/// The 128 bits of the UUID that a text denotes, where `uuid::Uuid::parse_str`
/// reads it as one.
pub uninterp spec fn uuid_parsed(text: Seq<char>) -> Option<u128>;

/// `uuid::Uuid::parse_str`: reads a UUID in any of the forms that the crate
/// writes (simple, hyphenated, URN, braced) and in either letter case. Which
/// texts those are is left to the name `uuid_parsed`.
#[verifier::external_body]
pub(crate) fn parse_uuid(s: &str) -> (r: Option<u128>)
    ensures
        r == uuid_parsed(s@),
{
    uuid::Uuid::parse_str(s).ok().map(|u| u.as_u128())
}

/// `Display` of `uuid::Uuid`: the hyphenated lower-case form. `parse_str`
/// reads that form back as the same UUID.
#[verifier::external_body]
pub(crate) fn format_uuid(bits: u128) -> (r: String)
    ensures
        r@ == uuid_text(bits),
        uuid_parsed(r@) == Some(bits),
{
    uuid::Uuid::from_u128(bits).to_string()
}

/// `uuid::Uuid::new_v4`: a UUID of version 4 in the variant of RFC 9562,
/// whatever the random bits are. Of those nothing is claimed.
#[verifier::external_body]
pub(crate) fn random_uuid() -> (r: u128)
    ensures
        is_version_4(r),
{
    uuid::Uuid::new_v4().as_u128()
}

// ---------------------------------------------------------------------------
// ulid
// ---------------------------------------------------------------------------

/// The 128 bits of the ULID that a text denotes, where
/// `ulid::Ulid::from_string` reads it as one.
pub uninterp spec fn ulid_parsed(text: Seq<char>) -> Option<u128>;

/// `ulid::Ulid::from_string`: reads 26 base-32 digits in either letter case.
/// Which texts those are is left to the name `ulid_parsed`.
#[verifier::external_body]
pub(crate) fn parse_ulid(s: &str) -> (r: Option<u128>)
    ensures
        r == ulid_parsed(s@),
{
    ulid::Ulid::from_string(s).ok().map(|u| u.0)
}

/// `ulid::Ulid::to_string`: 26 upper-case digits in Crockford's base 32.
/// `from_string` reads that form back as the same ULID.
#[verifier::external_body]
pub(crate) fn format_ulid(bits: u128) -> (r: String)
    ensures
        r@ == ulid_text(bits),
        ulid_parsed(r@) == Some(bits),
{
    ulid::Ulid(bits).to_string()
}

/// `ulid::Ulid::timestamp_ms`: the upper 48 of the 128 bits.
#[verifier::external_body]
pub(crate) fn ulid_time(bits: u128) -> (r: u64)
    ensures
        r == bits as nat / 0x1_0000_0000_0000_0000_0000,
        r < 0x1_0000_0000_0000,
{
    ulid::Ulid(bits).timestamp_ms()
}

/// `ulid::Ulid::new`: a ULID of the current time and random bits, of which
/// nothing is claimed.
#[verifier::external_body]
pub(crate) fn fresh_ulid() -> (r: u128) {
    ulid::Ulid::new().0
}

// ---------------------------------------------------------------------------
// base64
// ---------------------------------------------------------------------------

/// A text that `base64` takes as an alphabet: 64 printable ASCII characters,
/// no two alike, and not the padding sign.
pub open spec fn is_alphabet(a: Seq<char>) -> bool {
    &&& a.len() == 64
    &&& forall|i: int| 0 <= i < 64 ==> 32 <= (#[trigger] a[i]) as u32 <= 126 && a[i] != '='
    &&& forall|i: int, j: int| 0 <= i < j < 64 ==> #[trigger] a[i] != #[trigger] a[j]
}

/// The symbols of base64's standard alphabet, with the padding sign.
pub open spec fn standard_symbol(c: char) -> bool {
    ('A' <= c && c <= 'Z') || ('a' <= c && c <= 'z') || ('0' <= c && c <= '9') || c == '+' || c == '/' || c == '='
}

/// The symbols of base64's URL-safe alphabet.
pub open spec fn url_symbol(c: char) -> bool {
    ('A' <= c && c <= 'Z') || ('a' <= c && c <= 'z') || ('0' <= c && c <= '9') || c == '-' || c == '_'
}

/// What `base64` writes for some bytes over an alphabet, unpadded.
pub uninterp spec fn name_base64(alphabet: Seq<char>, bytes: Seq<u8>) -> Seq<char>;

/// The bytes that `base64` reads from a text over an alphabet without padding;
/// `None` where it refuses the text.
pub uninterp spec fn name_base64_decoded(alphabet: Seq<char>, text: Seq<char>) -> Option<Seq<u8>>;

/// `base64::Engine::encode` over the given alphabet without padding: the text
/// consists of symbols of the alphabet, and decoding it gives the bytes back.
/// `base64::alphabet::Alphabet::new` refuses what is not an alphabet.
#[verifier::external_body]
pub(crate) fn encode_name(alphabet: &str, bytes: &[u8]) -> (r: String)
    requires
        is_alphabet(alphabet@),
    ensures
        r@ == name_base64(alphabet@, bytes@),
        forall|i: int| 0 <= i < r@.len() ==> alphabet@.contains(#[trigger] r@[i]),
        name_base64_decoded(alphabet@, r@) == Some(bytes@),
{
    let symbols = base64::alphabet::Alphabet::new(alphabet).unwrap();
    let config = GeneralPurposeConfig::new().with_encode_padding(false);
    GeneralPurpose::new(&symbols, config).encode(bytes)
}

/// `base64::Engine::decode` over the given alphabet, refusing padding.
/// `base64::alphabet::Alphabet::new` refuses what is not an alphabet.
#[verifier::external_body]
pub(crate) fn decode_name(alphabet: &str, text: &str) -> (r: Option<Vec<u8>>)
    requires
        is_alphabet(alphabet@),
    ensures
        r is Some <==> name_base64_decoded(alphabet@, text@) is Some,
        r matches Some(b) ==> name_base64_decoded(alphabet@, text@) == Some(b@),
{
    let symbols = base64::alphabet::Alphabet::new(alphabet).unwrap();
    let config = GeneralPurposeConfig::new().with_decode_padding_mode(DecodePaddingMode::RequireNone);
    GeneralPurpose::new(&symbols, config).decode(text).ok()
}

/// What `base64` writes for some bytes with its `STANDARD` engine.
pub uninterp spec fn std_base64(bytes: Seq<u8>) -> Seq<char>;

/// The bytes that `base64` reads with its `STANDARD` engine; `None` where it
/// refuses the text.
pub uninterp spec fn std_base64_decoded(text: Seq<char>) -> Option<Seq<u8>>;

/// `STANDARD.encode` of base64: the text consists of the symbols of the
/// standard alphabet and padding, and decoding it gives the bytes back.
#[verifier::external_body]
pub(crate) fn encode_std(bytes: &[u8]) -> (r: String)
    ensures
        r@ == std_base64(bytes@),
        forall|i: int| 0 <= i < r@.len() ==> standard_symbol(#[trigger] r@[i]),
        std_base64_decoded(r@) == Some(bytes@),
{
    STANDARD.encode(bytes)
}

/// `STANDARD.decode` of base64.
#[verifier::external_body]
pub(crate) fn decode_std(text: &str) -> (r: Option<Vec<u8>>)
    ensures
        r is Some <==> std_base64_decoded(text@) is Some,
        r matches Some(b) ==> std_base64_decoded(text@) == Some(b@),
{
    STANDARD.decode(text).ok()
}

/// What `base64` writes for some bytes with its `URL_SAFE_NO_PAD` engine.
pub uninterp spec fn url_base64(bytes: Seq<u8>) -> Seq<char>;

/// The bytes that `base64` reads with its `URL_SAFE_NO_PAD` engine; `None`
/// where it refuses the text.
pub uninterp spec fn url_base64_decoded(text: Seq<char>) -> Option<Seq<u8>>;

/// `URL_SAFE_NO_PAD.encode` of base64: the text consists of the symbols of the
/// URL-safe alphabet, it is empty only for no bytes, and decoding it gives the
/// bytes back.
#[verifier::external_body]
pub(crate) fn encode_url(bytes: &[u8]) -> (r: String)
    ensures
        r@ == url_base64(bytes@),
        bytes.len() > 0 ==> r@.len() > 0,
        forall|i: int| 0 <= i < r@.len() ==> url_symbol(#[trigger] r@[i]),
        url_base64_decoded(r@) == Some(bytes@),
{
    URL_SAFE_NO_PAD.encode(bytes)
}

/// `URL_SAFE_NO_PAD.decode` of base64.
#[verifier::external_body]
pub(crate) fn decode_url(text: &str) -> (r: Option<Vec<u8>>)
    ensures
        r is Some <==> url_base64_decoded(text@) is Some,
        r matches Some(b) ==> url_base64_decoded(text@) == Some(b@),
{
    URL_SAFE_NO_PAD.decode(text).ok()
}

// ---------------------------------------------------------------------------
// crc64fast
// ---------------------------------------------------------------------------

/// The CRC-64 that `crc64fast` computes of some bytes.
pub uninterp spec fn crc64_of(bytes: Seq<u8>) -> u64;

/// `crc64fast::Digest` fed with `bytes` once, and its `sum64`.
#[verifier::external_body]
pub(crate) fn crc64(bytes: &[u8]) -> (r: u64)
    ensures
        r == crc64_of(bytes@),
{
    let mut c = crc64fast::Digest::new();
    c.write(bytes);
    c.sum64()
}

// ---------------------------------------------------------------------------
// hyperfile
// ---------------------------------------------------------------------------

/// Mode and link count of the inode that `hyperfile::ondisk::InodeRaw` reads
/// from its 160 stored bytes. hyperfile stores the fields as they stand in
/// memory, so the name is for machines of one byte order.
pub uninterp spec fn inode_fields(bytes: Seq<u8>) -> (u32, u64);

/// `hyperfile::ondisk::InodeRaw::from_u8_slice`, and its fields `i_mode` and
/// `i_nlink`. It panics on any other number of bytes.
#[verifier::external_body]
pub(crate) fn read_inode(bytes: &[u8]) -> (r: (u32, u64))
    requires
        bytes.len() == 160,
    ensures
        r == inode_fields(bytes@),
{
    let raw = hyperfile::ondisk::InodeRaw::from_u8_slice(bytes);
    (raw.i_mode, raw.i_nlink)
}

/// `hyperfile::ondisk::InodeRaw` read from its 160 stored bytes, with another
/// `i_nlink`, and stored again by `as_u8_slice`. The link count takes up the
/// eight bytes from the 64th on; all others stay.
#[verifier::external_body]
pub(crate) fn write_inode_links(bytes: &[u8], nlink: u64) -> (r: Vec<u8>)
    requires
        bytes.len() == 160,
    ensures
        r.len() == 160,
        forall|i: int| 0 <= i < 160 && !(64 <= i < 72) ==> r@[i] == bytes@[i],
        inode_fields(r@) == (inode_fields(bytes@).0, nlink),
{
    let mut raw = hyperfile::ondisk::InodeRaw::from_u8_slice(bytes);
    raw.i_nlink = nlink;
    raw.as_u8_slice().to_vec()
}

} // verus!
