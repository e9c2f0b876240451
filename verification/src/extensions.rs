//! The extensions of a certificate: the list without repeated object identifiers, and
//! the bodies of the extensions that the validation of names looks at.

use vstd::prelude::*;
use vstd::std_specs::iter::IteratorSpec;
use crate::name::GeneralName;
use crate::codec::{
    bit_string_as_bytes, bit_string_bytes, bit_string_has_bit_set, bit_string_parse_data,
    is_bit_set, is_bit_string_contents, oid_eq,
};

verus! {

/// One extension of a certificate: the object identifier that names it, whether it is
/// critical, and its value as the DER octets that it was sent with.
#[derive(Clone, PartialEq, Eq, Hash)]
pub struct Extension<'a> {
    pub extn_id: asn1::ObjectIdentifier,
    pub critical: bool,
    pub extn_value: &'a [u8],
}

impl<'a> Extension<'a> {
    /// The value of the extension read as a `T`, by `asn1::parse_single`: a single DER
    /// element with nothing after it. An error of the codec is handed on as it is. Nothing
    /// is stated of the result, which depends on how `T` reads itself.
    #[verifier::external_body]
    pub fn value<T: asn1::Asn1Readable<'a>>(&'a self) -> Result<T, asn1::ParseError> {
        asn1::parse_single(self.extn_value)
    }
}

/// The extensions of a certificate in the order in which they were sent.
pub type RawExtensions<'a> = Vec<Extension<'a>>;

/// The records of a list of extensions that may be absent: none where it is absent.
pub open spec fn records<'a>(raw: Option<&RawExtensions<'a>>) -> Seq<Extension<'a>> {
    match raw {
        Some(list) => list@,
        None => Seq::empty(),
    }
}

/// No two records have the same object identifier.
pub open spec fn distinct_oids(s: Seq<Extension>) -> bool {
    forall|i: int, j: int|
        0 <= i < j < s.len() ==> (#[trigger] s[i]).extn_id != (#[trigger] s[j]).extn_id
}

/// The object identifier of record `j` is that of an earlier record.
pub open spec fn repeats_earlier(s: Seq<Extension>, j: int) -> bool {
    exists|i: int| 0 <= i < j && (#[trigger] s[i]).extn_id == s[j].extn_id
}

/// Record `j` is the first whose object identifier an earlier record has.
pub open spec fn first_repeat(s: Seq<Extension>, j: int) -> bool {
    &&& 0 <= j < s.len()
    &&& repeats_earlier(s, j)
    &&& forall|k: int| 0 <= k < j ==> !repeats_earlier(s, k)
}

/// The first record of `s` with the object identifier `oid`, or `None` where no record
/// has it.
pub open spec fn lookup<'a>(s: Seq<Extension<'a>>, oid: asn1::ObjectIdentifier) -> Option<
    Extension<'a>,
>
    decreases s.len(),
{
    if s.len() == 0 {
        None
    } else if s[0].extn_id == oid {
        Some(s[0])
    } else {
        lookup(s.drop_first(), oid)
    }
}

/// A list of extensions in which no object identifier occurs twice.
pub struct Extensions<'a, 'b>(Option<&'b RawExtensions<'a>>);

impl<'a, 'b> View for Extensions<'a, 'b> {
    type V = Seq<Extension<'a>>;

    closed spec fn view(&self) -> Seq<Extension<'a>> {
        records(self.0)
    }
}

impl<'a, 'b> Extensions<'a, 'b> {
    /// What holds of every `Extensions`: no object identifier occurs twice in it.
    #[verifier::type_invariant]
    pub open spec fn well_formed(&self) -> bool {
        distinct_oids(self@)
    }

    /// The list that `self` was made from.
    pub closed spec fn raw(&self) -> Option<&'b RawExtensions<'a>> {
        self.0
    }

    /// Makes an `Extensions` of `raw`. Where an object identifier occurs twice, the result
    /// is an error with the object identifier of the first record that repeats an earlier
    /// one.
    pub fn from_raw_extensions(raw: Option<&'b RawExtensions<'a>>) -> (r: Result<
        Self,
        asn1::ObjectIdentifier,
    >)
        ensures
            r is Ok <==> distinct_oids(records(raw)),
            match r {
                Ok(exts) => exts.raw() == raw && exts@ == records(raw),
                Err(oid) => exists|j: int|
                    first_repeat(records(raw), j) && oid == (#[trigger] records(raw)[j]).extn_id,
            },
    {
        match raw {
            Some(raw_exts) => {
                let n = raw_exts.len();
                let mut j: usize = 0;
                while j < n
                    invariant
                        raw == Some(raw_exts),
                        n == raw_exts@.len(),
                        j <= n,
                        forall|k: int| 0 <= k < j ==> !repeats_earlier(raw_exts@, k),
                    decreases n - j,
                {
                    let mut i: usize = 0;
                    while i < j
                        invariant
                            raw == Some(raw_exts),
                            n == raw_exts@.len(),
                            j < n,
                            i <= j,
                            forall|k: int| 0 <= k < j ==> !repeats_earlier(raw_exts@, k),
                            forall|k: int|
                                0 <= k < i ==> (#[trigger] raw_exts@[k]).extn_id
                                    != raw_exts@[j as int].extn_id,
                        decreases j - i,
                    {
                        if oid_eq(&raw_exts[i].extn_id, &raw_exts[j].extn_id) {
                            assert(repeats_earlier(raw_exts@, j as int));
                            let oid = raw_exts[j].extn_id.clone();
                            assert(first_repeat(records(raw), j as int) && oid == records(
                                raw,
                            )[j as int].extn_id);
                            return Err(oid);
                        }
                        i += 1;
                    }
                    j += 1;
                }
                assert forall|i: int, j: int| 0 <= i < j < raw_exts@.len() implies (#[trigger] raw_exts@[i]).extn_id
                    != (#[trigger] raw_exts@[j]).extn_id by {
                    assert(!repeats_earlier(raw_exts@, j));
                }
                Ok(Extensions(Some(raw_exts)))
            },
            None => Ok(Extensions(None)),
        }
    }

    /// The extension with the object identifier `oid`, or `None` where there is none.
    pub fn get_extension(&self, oid: &asn1::ObjectIdentifier) -> (r: Option<Extension<'a>>)
        ensures
            r == lookup(self@, *oid),
    {
        match self.0 {
            Some(list) => {
                let n = list.len();
                let mut i: usize = 0;
                assert(list@.skip(0) == list@);
                while i < n
                    invariant
                        self.0 == Some(list),
                        n == list@.len(),
                        i <= n,
                        lookup(self@, *oid) == lookup(list@.skip(i as int), *oid),
                    decreases n - i,
                {
                    let ext = &list[i];
                    assert(list@.skip(i as int).drop_first() == list@.skip(i + 1));
                    if oid_eq(&ext.extn_id, oid) {
                        return Some(
                            Extension {
                                extn_id: ext.extn_id.clone(),
                                critical: ext.critical,
                                extn_value: ext.extn_value,
                            },
                        );
                    }
                    i += 1;
                }
                None
            },
            None => None,
        }
    }

    /// An iterator over the extensions, in the order of the list that `self` was made
    /// from. Each call starts at the first extension.
    pub fn iter(&self) -> (r: core::slice::Iter<'b, Extension<'a>>)
        ensures
            r.remaining().unref() == self@,
    {
        match self.0 {
            Some(list) => list.as_slice().iter(),
            None => {
                let none: &'b [Extension<'a>] = &[];
                none.iter()
            },
        }
    }

    /// The list that `self` was made from.
    pub fn as_raw(&self) -> (r: Option<&'b RawExtensions<'a>>)
        ensures
            r == self.raw(),
            records(r) == self@,
    {
        self.0
    }
}

/// The body of the policy constraints extension.
pub struct PolicyConstraints {
    pub require_explicit_policy: Option<u64>,
    pub inhibit_policy_mapping: Option<u64>,
}

/// The body of the basic constraints extension: whether the subject is a certificate
/// authority, and how many intermediate certificates may follow it.
pub struct BasicConstraints {
    pub ca: bool,
    pub path_length: Option<u64>,
}

/// The body of the key usage extension: a string of bits, each of which allows one use
/// of the key.
#[derive(Hash, PartialEq, Clone)]
pub struct KeyUsage<'a>(asn1::BitString<'a>);

impl<'a> View for KeyUsage<'a> {
    type V = Seq<u8>;

    closed spec fn view(&self) -> Seq<u8> {
        bit_string_bytes(self.0)
    }
}

impl<'a> KeyUsage<'a> {
    /// Whether bit `n` of the extension is set. Bits after the last octet are not set.
    pub open spec fn has_bit(&self, n: int) -> bool {
        is_bit_set(self@, n)
    }

    /// Reads the extension from the contents of a DER `BIT STRING`.
    pub fn parse_data(data: &'a [u8]) -> (r: Result<Self, asn1::ParseError>)
        ensures
            r is Ok <==> is_bit_string_contents(data@),
            r matches Ok(usage) ==> usage@ == data@.skip(1),
    {
        match bit_string_parse_data(data) {
            Ok(bits) => Ok(KeyUsage(bits)),
            Err(e) => Err(e),
        }
    }

    /// Whether no bit is set.
    pub fn zeroed(&self) -> (r: bool)
        ensures
            r <==> forall|i: int| 0 <= i < self@.len() ==> self@[i] == 0,
    {
        let bytes = bit_string_as_bytes(&self.0);
        let n = bytes.len();
        let mut i: usize = 0;
        while i < n
            invariant
                bytes@ == self@,
                n == bytes@.len(),
                i <= n,
                forall|k: int| 0 <= k < i ==> bytes@[k] == 0,
            decreases n - i,
        {
            if bytes[i] != 0 {
                return false;
            }
            i += 1;
        }
        true
    }

    /// Whether the key may be used to check digital signatures: bit 0.
    pub fn digital_signature(&self) -> (r: bool)
        ensures
            r == self.has_bit(0),
    {
        bit_string_has_bit_set(&self.0, 0)
    }

    /// Whether the key may be used for content commitment: bit 1.
    pub fn content_comitment(&self) -> (r: bool)
        ensures
            r == self.has_bit(1),
    {
        bit_string_has_bit_set(&self.0, 1)
    }

    /// Whether the key may be used to encipher keys: bit 2.
    pub fn key_encipherment(&self) -> (r: bool)
        ensures
            r == self.has_bit(2),
    {
        bit_string_has_bit_set(&self.0, 2)
    }

    /// Whether the key may be used to encipher data: bit 3.
    pub fn data_encipherment(&self) -> (r: bool)
        ensures
            r == self.has_bit(3),
    {
        bit_string_has_bit_set(&self.0, 3)
    }

    /// Whether the key may be used for key agreement: bit 4.
    pub fn key_agreement(&self) -> (r: bool)
        ensures
            r == self.has_bit(4),
    {
        bit_string_has_bit_set(&self.0, 4)
    }

    /// Whether the key may be used to check signatures on certificates: bit 5.
    pub fn key_cert_sign(&self) -> (r: bool)
        ensures
            r == self.has_bit(5),
    {
        bit_string_has_bit_set(&self.0, 5)
    }

    /// Whether the key may be used to check signatures on revocation lists: bit 6.
    pub fn crl_sign(&self) -> (r: bool)
        ensures
            r == self.has_bit(6),
    {
        bit_string_has_bit_set(&self.0, 6)
    }

    /// Whether a key for key agreement may be used to encipher only: bit 7.
    pub fn encipher_only(&self) -> (r: bool)
        ensures
            r == self.has_bit(7),
    {
        bit_string_has_bit_set(&self.0, 7)
    }

    /// Whether a key for key agreement may be used to decipher only: bit 8.
    pub fn decipher_only(&self) -> (r: bool)
        ensures
            r == self.has_bit(8),
    {
        bit_string_has_bit_set(&self.0, 8)
    }
}

/// One entry of a list of name constraints: the name that spans the subtree, and the
/// distances that were sent with it. The distances are kept and not looked at.
pub struct GeneralSubtree<'a> {
    pub base: GeneralName<'a>,
    pub minimum: u64,
    pub maximum: Option<u64>,
}

/// A list of subtrees as a certificate carries it.
pub type SequenceOfSubtrees<'a> = Vec<GeneralSubtree<'a>>;

/// The body of the name constraints extension: the subtrees that names must lie in, and
/// the subtrees that names must not lie in.
pub struct NameConstraints<'a> {
    pub permitted_subtrees: Option<SequenceOfSubtrees<'a>>,
    pub excluded_subtrees: Option<SequenceOfSubtrees<'a>>,
}

/// What a lookup finds is a record of the list with the object identifier asked for, and
/// a lookup finds nothing only where no record has it.
pub proof fn lemma_lookup(s: Seq<Extension>, oid: asn1::ObjectIdentifier)
    ensures
        match lookup(s, oid) {
            Some(ext) => ext.extn_id == oid && s.contains(ext),
            None => forall|i: int| 0 <= i < s.len() ==> (#[trigger] s[i]).extn_id != oid,
        },
    decreases s.len(),
{
    if s.len() == 0 {
    } else if s[0].extn_id == oid {
        assert(s.contains(s[0]));
    } else {
        let rest = s.drop_first();
        lemma_lookup(rest, oid);
        match lookup(rest, oid) {
            Some(ext) => {
                let i = choose|i: int| 0 <= i < rest.len() && rest[i] == ext;
                assert(s[i + 1] == ext);
            },
            None => {
                assert forall|i: int| 0 <= i < s.len() implies (#[trigger] s[i]).extn_id != oid by {
                    if i > 0 {
                        assert(s[i] == rest[i - 1]);
                    }
                }
            },
        }
    }
}

/// In a list without repeated object identifiers, looking up the object identifier of a
/// record finds that record.
pub proof fn lemma_lookup_finds_each(s: Seq<Extension>, i: int)
    requires
        distinct_oids(s),
        0 <= i < s.len(),
    ensures
        lookup(s, s[i].extn_id) == Some(s[i]),
    decreases s.len(),
{
    if i == 0 {
    } else {
        let rest = s.drop_first();
        assert(s[0].extn_id != s[i].extn_id);
        assert forall|a: int, b: int| 0 <= a < b < rest.len() implies (#[trigger] rest[a]).extn_id
            != (#[trigger] rest[b]).extn_id by {
            assert(s[a + 1].extn_id != s[b + 1].extn_id);
        }
        assert(rest[i - 1] == s[i]);
        lemma_lookup_finds_each(rest, i - 1);
    }
}

/// Two iterators that start at the first extension of one `Extensions` hand out the
/// same extensions in the same order.
pub proof fn lemma_iteration_repeats<'a, 'b>(
    exts: Extensions<'a, 'b>,
    first: core::slice::Iter<'b, Extension<'a>>,
    second: core::slice::Iter<'b, Extension<'a>>,
)
    requires
        first.remaining().unref() == exts@,
        second.remaining().unref() == exts@,
    ensures
        first.remaining().unref() == second.remaining().unref(),
{
}

} // verus!
