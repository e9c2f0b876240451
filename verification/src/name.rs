//! General names.

use vstd::prelude::*;

verus! {

/// A name of one of the kinds that a certificate can carry for its subject or in a
/// constraint. The texts and octets are held as they were sent, unchecked.
pub enum GeneralName<'a> {
    OtherName(&'a [u8]),
    RFC822Name(&'a str),
    DNSName(&'a str),
    X400Address(&'a [u8]),
    DirectoryName(&'a [u8]),
    EDIPartyName(&'a [u8]),
    UniformResourceIdentifier(&'a str),
    IPAddress(&'a [u8]),
    RegisteredID(asn1::ObjectIdentifier),
}

} // verus!
