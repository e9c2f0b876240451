//! Names, addresses and extensions of X.509 certificates, and the rules by which the
//! name constraints of an issuer allow or refuse the names of a certificate.
//!
//! `types` holds DNS names and patterns, IP addresses and ranges; `extensions` the list of
//! extensions of a certificate and the bodies of some of them; `name` the general names;
//! `name_constraints` the evaluation of name constraints; `codec` the contracts of the
//! ASN.1 codec that the others rest on.

pub mod codec;
pub mod extensions;
pub mod name;
pub mod name_constraints;
pub mod types;
