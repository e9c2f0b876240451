//! What the library takes on trust from the ASN.1 codec: the types of the codec that it
//! holds, and for each function of the codec that it calls a contract that says what the
//! source of the codec shows. Nothing in this file is proved.

use vstd::prelude::*;
use vstd::utf8::is_ascii_chars;
use asn1::SimpleAsn1Readable;

verus! {

/// `asn1::IA5String`, a borrowed string that holds ASCII characters only.
#[verifier::external_type_specification]
#[verifier::external_body]
pub struct ExIA5String<'a>(asn1::IA5String<'a>);

/// The characters held by an `asn1::IA5String`: what `asn1::IA5String::as_str` hands out.
pub uninterp spec fn ia5_text(s: asn1::IA5String) -> Seq<char>;

/// `asn1::IA5String::new`: accepts exactly the strings made of ASCII characters and
/// keeps the accepted string unchanged.
#[verifier::external_body]
pub(crate) fn ia5_new<'a>(s: &'a str) -> (r: Option<asn1::IA5String<'a>>)
    ensures
        r is Some <==> is_ascii_chars(s@),
        r matches Some(v) ==> ia5_text(v) == s@,
{
    asn1::IA5String::new(s)
}

/// `asn1::IA5String::as_str`: the string slice that the value was made from.
#[verifier::external_body]
pub(crate) fn ia5_as_str<'a>(s: &asn1::IA5String<'a>) -> (r: &'a str)
    ensures
        r@ == ia5_text(*s),
{
    s.as_str()
}

/// `asn1::ObjectIdentifier`, which can be compared and copied and nothing else.
#[verifier::external_type_specification]
#[verifier::external_body]
pub struct ExObjectIdentifier(asn1::ObjectIdentifier);

/// `==` of `asn1::ObjectIdentifier`, which compares the stored encodings: two object
/// identifiers are equal exactly when they are the same value.
#[verifier::external_body]
pub(crate) fn oid_eq(a: &asn1::ObjectIdentifier, b: &asn1::ObjectIdentifier) -> (r: bool)
    ensures
        r == (*a == *b),
{
    a == b
}

/// `clone` of `asn1::ObjectIdentifier`: a copy of the stored encoding, so the same value.
pub assume_specification[ <asn1::ObjectIdentifier as Clone>::clone ](
    a: &asn1::ObjectIdentifier,
) -> (r: asn1::ObjectIdentifier)
    ensures
        r == *a,
;

/// `asn1::ParseError`, the error of the codec, which is handed on as it is.
#[verifier::external_type_specification]
#[verifier::external_body]
pub struct ExParseError(asn1::ParseError);

/// `asn1::BitString`, the borrowed octets of a DER `BIT STRING`.
#[verifier::external_type_specification]
#[verifier::external_body]
pub struct ExBitString<'a>(asn1::BitString<'a>);

/// `clone` of `asn1::BitString`: a copy of the reference to the octets and of the number of
/// unused bits, so the same value.
pub assume_specification<'a>[ <asn1::BitString<'a> as Clone>::clone ](
    b: &asn1::BitString<'a>,
) -> (r: asn1::BitString<'a>)
    ensures
        r == *b,
;

/// The octets held by an `asn1::BitString`: what `asn1::BitString::as_bytes` hands out.
pub uninterp spec fn bit_string_bytes(b: asn1::BitString) -> Seq<u8>;

/// The contents of a DER `BIT STRING`: a first octet that counts the unused bits of the
/// last octet, at most seven and zero where no octet follows, and then the octets, in the
/// last of which the unused bits are zero.
pub open spec fn is_bit_string_contents(data: Seq<u8>) -> bool {
    &&& data.len() >= 1
    &&& data[0] <= 7
    &&& data.len() == 1 ==> data[0] == 0
    &&& data[0] > 0 ==> data[data.len() - 1] & (((1u8 << data[0]) - 1) as u8) == 0
}

/// Whether bit `n` is set in `bytes`, bit 0 being the most significant bit of the first
/// octet. A bit after the last octet is not set.
pub open spec fn is_bit_set(bytes: Seq<u8>, n: int) -> bool {
    n / 8 < bytes.len() && bytes[n / 8] & (1u8 << ((7 - n % 8) as u8)) != 0
}

/// `parse_data` of `asn1::BitString`: accepts exactly the contents of a DER `BIT STRING`
/// and keeps the octets after the first.
#[verifier::external_body]
pub(crate) fn bit_string_parse_data<'a>(data: &'a [u8]) -> (r: Result<
    asn1::BitString<'a>,
    asn1::ParseError,
>)
    ensures
        r is Ok <==> is_bit_string_contents(data@),
        r matches Ok(b) ==> bit_string_bytes(b) == data@.skip(1),
{
    asn1::BitString::parse_data(data)
}

/// `asn1::BitString::as_bytes`: the octets of the bit string.
#[verifier::external_body]
pub(crate) fn bit_string_as_bytes<'a>(b: &asn1::BitString<'a>) -> (r: &'a [u8])
    ensures
        r@ == bit_string_bytes(*b),
{
    b.as_bytes()
}

/// `asn1::BitString::has_bit_set`: whether bit `n` is set, counted from the most
/// significant bit of the first octet; no bit is set after the last octet.
#[verifier::external_body]
pub(crate) fn bit_string_has_bit_set(b: &asn1::BitString, n: usize) -> (r: bool)
    ensures
        r == is_bit_set(bit_string_bytes(*b), n as int),
{
    b.has_bit_set(n)
}

} // verus!
