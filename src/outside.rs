//! The calls that the library makes into std and into outside crates, each with the contract
//! that the called function's documentation gives it.

use crate::headers::{IsoPart, NamedCharset};
use vstd::prelude::*;
use vstd::utf8::{decode_utf8, is_ascii_chars, valid_utf8};

verus! {

/// Relies on `String::from_utf8`: it accepts exactly the valid UTF-8 byte sequences and
/// returns the text they encode.
#[verifier::external_body]
pub(crate) fn string_from_utf8(bytes: Vec<u8>) -> (r: Option<String>)
    ensures
        match r {
            Some(s) => valid_utf8(bytes@) && s@ == decode_utf8(bytes@),
            None => !valid_utf8(bytes@),
        },
{
    String::from_utf8(bytes).ok()
}


/// What the header parser, given room for 64 headers, makes of a header block: its message where
/// it reports malformed bytes or more than 64 headers, `None` where the block is incomplete, else
/// the headers' names and raw values in order.
pub uninterp spec fn header_block(raw: Seq<u8>) -> Result<Option<Seq<(Seq<char>, Seq<u8>)>>, Seq<char>>;

/// The views of parsed headers.
pub open spec fn header_views(v: Seq<(String, Vec<u8>)>) -> Seq<(Seq<char>, Seq<u8>)> {
    v.map_values(|h: (String, Vec<u8>)| (h.0@, h.1@))
}

/// Relies on `httparse::parse_headers`: parses a block of header lines that ends in a blank
/// line into the headers' names and values, reports a block that is not complete, or fails
/// with a message on malformed bytes. The outcome depends on the bytes alone.
#[verifier::external_body]
pub(crate) fn parse_header_block(raw: &[u8]) -> (r: Result<Option<Vec<(String, Vec<u8>)>>, String>)
    ensures
        match r {
            Ok(Some(v)) => header_block(raw@) == Ok::<_, Seq<char>>(Some(header_views(v@))),
            Ok(None) => header_block(raw@) == Ok::<_, Seq<char>>(None::<Seq<(Seq<char>, Seq<u8>)>>),
            Err(m) => header_block(raw@) == Err::<Option<Seq<(Seq<char>, Seq<u8>)>>, _>(m@),
        },
{
    let mut slots = [httparse::EMPTY_HEADER; 64];
    match httparse::parse_headers(raw, &mut slots) {
        Ok(httparse::Status::Complete((_, hs))) => {
            Ok(Some(hs.iter().map(|h| (h.name.to_string(), h.value.to_vec())).collect()))
        },
        Ok(httparse::Status::Partial) => Ok(None),
        Err(e) => Err(e.to_string()),
    }
}

/// What the media type parser makes of a content type: its top level and sub level in lower
/// case and its parameters in order, or `None` where it is not a media type.
pub uninterp spec fn media_type(s: Seq<char>) -> Option<(Seq<char>, Seq<char>, Seq<(Seq<char>, Seq<char>)>)>;

/// The views of media type parameters.
pub open spec fn param_views(v: Seq<(String, String)>) -> Seq<(Seq<char>, Seq<char>)> {
    v.map_values(|p: (String, String)| (p.0@, p.1@))
}

/// Relies on `mime::Mime`'s `FromStr`: splits a content type into its top level, its sub level
/// and its parameters, or fails where the text is no media type. The outcome depends on the
/// text alone. The parser slices its input at character counts, so it is only called on ASCII
/// text, where those are byte offsets.
#[verifier::external_body]
pub(crate) fn parse_media_type(s: &str) -> (r: Option<(String, String, Vec<(String, String)>)>)
    requires
        is_ascii_chars(s@),
    ensures
        match r {
            Some(m) => media_type(s@) == Some((m.0@, m.1@, param_views(m.2@))),
            None => media_type(s@) is None,
        },
{
    match s.parse::<mime::Mime>() {
        Ok(m) => Some((
            m.0.to_string(),
            m.1.to_string(),
            m.2.iter().map(|p| (p.0.to_string(), p.1.to_string())).collect(),
        )),
        Err(_) => None,
    }
}


/// The text that an ISO-8859 character set makes of some bytes, or the decoder's message where
/// the bytes are not valid in it.
pub uninterp spec fn iso_8859_text(part: IsoPart, bytes: Seq<u8>) -> Result<Seq<char>, Seq<char>>;

/// Relies on `Encoding::decode` with a strict trap for `encoding::all::ISO_8859_1` to `_8` and
/// `_10`: it fails with a message on bytes that are not valid in the set. The outcome depends on
/// the arguments alone.
#[verifier::external_body]
pub(crate) fn decode_iso_8859(part: IsoPart, bytes: &[u8]) -> (r: Result<String, String>)
    ensures
        match r {
            Ok(t) => iso_8859_text(part, bytes@) == Ok::<Seq<char>, Seq<char>>(t@),
            Err(m) => iso_8859_text(part, bytes@) == Err::<Seq<char>, Seq<char>>(m@),
        },
{
    let set: encoding::EncodingRef = match part {
        IsoPart::P1 => encoding::all::ISO_8859_1,
        IsoPart::P2 => encoding::all::ISO_8859_2,
        IsoPart::P3 => encoding::all::ISO_8859_3,
        IsoPart::P4 => encoding::all::ISO_8859_4,
        IsoPart::P5 => encoding::all::ISO_8859_5,
        IsoPart::P6 => encoding::all::ISO_8859_6,
        IsoPart::P7 => encoding::all::ISO_8859_7,
        IsoPart::P8 => encoding::all::ISO_8859_8,
        IsoPart::P10 => encoding::all::ISO_8859_10,
    };
    set.decode(bytes, encoding::DecoderTrap::Strict).map_err(|m| m.into_owned())
}

/// The text that one of the other decoded character sets makes of some bytes, or the decoder's
/// message where the bytes are not valid in it.
pub uninterp spec fn named_charset_text(set: NamedCharset, bytes: Seq<u8>) -> Result<Seq<char>, Seq<char>>;

/// Relies on `Encoding::decode` with a strict trap for `encoding::all::ASCII`, `EUC_JP`,
/// `ISO_2022_JP`, `BIG5_2003`, `KOI8_R` and `UTF_8`: it fails with a message on bytes that are
/// not valid in the set. The outcome depends on the arguments alone.
#[verifier::external_body]
pub(crate) fn decode_named_charset(set: NamedCharset, bytes: &[u8]) -> (r: Result<String, String>)
    ensures
        match r {
            Ok(t) => named_charset_text(set, bytes@) == Ok::<Seq<char>, Seq<char>>(t@),
            Err(m) => named_charset_text(set, bytes@) == Err::<Seq<char>, Seq<char>>(m@),
        },
{
    let decoder: encoding::EncodingRef = match set {
        NamedCharset::UsAscii => encoding::all::ASCII,
        NamedCharset::EucJp => encoding::all::EUC_JP,
        NamedCharset::Iso2022Jp => encoding::all::ISO_2022_JP,
        NamedCharset::Big5 => encoding::all::BIG5_2003,
        NamedCharset::Koi8R => encoding::all::KOI8_R,
        NamedCharset::Utf8 => encoding::all::UTF_8,
    };
    decoder.decode(bytes, encoding::DecoderTrap::Strict).map_err(|m| m.into_owned())
}

/// The unescaped bytes of an extended parameter value `charset'language'escaped`, or `None`
/// where it is malformed.
pub uninterp spec fn extended_value(v: Seq<char>) -> Option<Seq<u8>>;

/// Relies on `hyper::header::parsing::parse_extended_value`: it splits the value at its first two
/// single quotes, checks the character set and the language tag (which rejects a tag with
/// characters other than ASCII letters, digits and `-` before it slices one), and
/// percent-decodes the rest, passing a malformed escape through. The outcome depends on the text
/// alone.
#[verifier::external_body]
pub(crate) fn parse_extended_value(v: &str) -> (r: Option<Vec<u8>>)
    ensures
        match r {
            Some(b) => extended_value(v@) == Some(b@),
            None => extended_value(v@) is None,
        },
{
    match hyper::header::parsing::parse_extended_value(v) {
        Ok(e) => Some(e.value),
        Err(_) => None,
    }
}

} // verus!
