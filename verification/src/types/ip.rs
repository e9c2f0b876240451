//! IP addresses as octets in network order, network masks and address ranges.

use vstd::prelude::*;
use vstd::std_specs::cmp::PartialEqSpecImpl;

verus! {

broadcast use vstd::array::group_array_axioms;

/// Bit `b` of an octet, counted from the most significant bit, which is bit 0.
pub open spec fn octet_bit(o: u8, b: int) -> bool {
    (o >> ((7 - b) as u8)) & 1u8 == 1u8
}

/// Bit `i` of an octet string in network order: bit 0 is the most significant bit of the
/// first octet.
pub open spec fn bit(octets: Seq<u8>, i: int) -> bool {
    octet_bit(octets[i / 8], i % 8)
}

/// The octet `o` with its first `keep` bits left as they are and the others set to zero.
pub open spec fn keep_high_bits(o: u8, keep: int) -> u8 {
    if keep >= 8 {
        o
    } else if keep <= 0 {
        0u8
    } else {
        o & !(0xffu8 >> (keep as u8))
    }
}

/// The octet string with its first `prefix` bits left as they are and the others set to
/// zero.
pub open spec fn masked(octets: Seq<u8>, prefix: int) -> Seq<u8> {
    Seq::new(octets.len(), |j: int| keep_high_bits(octets[j], prefix - 8 * j))
}

/// The octet string is the network mask of prefix length `p`: its first `p` bits are one
/// and all others are zero.
pub open spec fn is_prefix_mask(mask: Seq<u8>, p: int) -> bool {
    forall|i: int| 0 <= i < 8 * mask.len() ==> (#[trigger] bit(mask, i) <==> i < p)
}

/// The octet string is a well-formed network mask: its one bits are contiguous and start
/// at the most significant bit.
pub open spec fn has_prefix(mask: Seq<u8>) -> bool {
    exists|p: int| 0 <= p <= 8 * mask.len() && is_prefix_mask(mask, p)
}

/// The prefix length of a well-formed network mask.
pub open spec fn prefix_of(mask: Seq<u8>) -> int {
    choose|p: int| 0 <= p <= 8 * mask.len() && is_prefix_mask(mask, p)
}

proof fn lemma_keep_high_bits_octet(o: u8, k: u8, b: u8)
    by (bit_vector)
    requires
        0 < k < 8,
        b < 8,
    ensures
        (((o & !(0xffu8 >> k)) >> ((7 - b) as u8)) & 1u8 == 1u8) == (b < k && ((o >> ((7 - b) as u8))
            & 1u8 == 1u8)),
{
}

proof fn lemma_zero_octet(b: u8)
    by (bit_vector)
    requires
        b < 8,
    ensures
        (0u8 >> ((7 - b) as u8)) & 1u8 != 1u8,
{
}

proof fn lemma_ones_octet(b: u8)
    by (bit_vector)
    requires
        b < 8,
    ensures
        (0xffu8 >> ((7 - b) as u8)) & 1u8 == 1u8,
{
}

proof fn lemma_octet_from_bits(x: u8, y: u8)
    by (bit_vector)
    requires
        ((x >> 7u8) & 1u8 == 1u8) == ((y >> 7u8) & 1u8 == 1u8),
        ((x >> 6u8) & 1u8 == 1u8) == ((y >> 6u8) & 1u8 == 1u8),
        ((x >> 5u8) & 1u8 == 1u8) == ((y >> 5u8) & 1u8 == 1u8),
        ((x >> 4u8) & 1u8 == 1u8) == ((y >> 4u8) & 1u8 == 1u8),
        ((x >> 3u8) & 1u8 == 1u8) == ((y >> 3u8) & 1u8 == 1u8),
        ((x >> 2u8) & 1u8 == 1u8) == ((y >> 2u8) & 1u8 == 1u8),
        ((x >> 1u8) & 1u8 == 1u8) == ((y >> 1u8) & 1u8 == 1u8),
        ((x >> 0u8) & 1u8 == 1u8) == ((y >> 0u8) & 1u8 == 1u8),
    ensures
        x == y,
{
}

/// Which bits of an octet are left after `keep_high_bits`.
pub proof fn lemma_keep_high_bits(o: u8, keep: int, b: int)
    requires
        0 <= b < 8,
    ensures
        octet_bit(keep_high_bits(o, keep), b) <==> b < keep && octet_bit(o, b),
{
    if keep >= 8 {
    } else if keep <= 0 {
        lemma_zero_octet(b as u8);
    } else {
        lemma_keep_high_bits_octet(o, keep as u8, b as u8);
    }
}

/// Two octets with the same eight bits are the same octet.
pub proof fn lemma_octet_bits_equal(x: u8, y: u8)
    requires
        forall|b: int| 0 <= b < 8 ==> octet_bit(x, b) == octet_bit(y, b),
    ensures
        x == y,
{
    assert(octet_bit(x, 0) == octet_bit(y, 0));
    assert(octet_bit(x, 1) == octet_bit(y, 1));
    assert(octet_bit(x, 2) == octet_bit(y, 2));
    assert(octet_bit(x, 3) == octet_bit(y, 3));
    assert(octet_bit(x, 4) == octet_bit(y, 4));
    assert(octet_bit(x, 5) == octet_bit(y, 5));
    assert(octet_bit(x, 6) == octet_bit(y, 6));
    assert(octet_bit(x, 7) == octet_bit(y, 7));
    lemma_octet_from_bits(x, y);
}

/// Masking keeps the bits before the prefix length and clears the others.
pub proof fn lemma_masked_bits(octets: Seq<u8>, prefix: int)
    ensures
        masked(octets, prefix).len() == octets.len(),
        forall|i: int|
            0 <= i < 8 * octets.len() ==> (#[trigger] bit(masked(octets, prefix), i) <==> i < prefix
                && bit(octets, i)),
{
    assert forall|i: int| 0 <= i < 8 * octets.len() implies (#[trigger] bit(
        masked(octets, prefix),
        i,
    ) <==> i < prefix && bit(octets, i)) by {
        let j = i / 8;
        let b = i % 8;
        lemma_keep_high_bits(octets[j], prefix - 8 * j, b);
    }
}

/// Two octet strings of one length with the same bits are equal.
pub proof fn lemma_bits_equal(x: Seq<u8>, y: Seq<u8>)
    requires
        x.len() == y.len(),
        forall|i: int| 0 <= i < 8 * x.len() ==> bit(x, i) == bit(y, i),
    ensures
        x == y,
{
    assert forall|j: int| 0 <= j < x.len() implies x[j] == y[j] by {
        assert forall|b: int| 0 <= b < 8 implies octet_bit(x[j], b) == octet_bit(y[j], b) by {
            let i = 8 * j + b;
            assert(i / 8 == j && i % 8 == b);
            assert(bit(x, i) == bit(y, i));
        }
        lemma_octet_bits_equal(x[j], y[j]);
    }
    assert(x =~= y);
}

proof fn lemma_mask_octet_values(k: u8)
    by (bit_vector)
    requires
        0 < k < 8,
    ensures
        k == 1 ==> 0xffu8 & !(0xffu8 >> k) == 0x80u8,
        k == 2 ==> 0xffu8 & !(0xffu8 >> k) == 0xc0u8,
        k == 3 ==> 0xffu8 & !(0xffu8 >> k) == 0xe0u8,
        k == 4 ==> 0xffu8 & !(0xffu8 >> k) == 0xf0u8,
        k == 5 ==> 0xffu8 & !(0xffu8 >> k) == 0xf8u8,
        k == 6 ==> 0xffu8 & !(0xffu8 >> k) == 0xfcu8,
        k == 7 ==> 0xffu8 & !(0xffu8 >> k) == 0xfeu8,
{
}

/// The number of leading one bits of an octet whose one bits all come first; `None` for
/// any other octet.
fn mask_octet_len(o: u8) -> (r: Option<u8>)
    ensures
        r matches Some(k) ==> k <= 8 && o == keep_high_bits(0xffu8, k as int),
        r is None ==> forall|k: int| o != #[trigger] keep_high_bits(0xffu8, k),
{
    proof {
        lemma_mask_octet_values(1);
        lemma_mask_octet_values(2);
        lemma_mask_octet_values(3);
        lemma_mask_octet_values(4);
        lemma_mask_octet_values(5);
        lemma_mask_octet_values(6);
        lemma_mask_octet_values(7);
    }
    if o == 0x00 {
        Some(0)
    } else if o == 0x80 {
        Some(1)
    } else if o == 0xc0 {
        Some(2)
    } else if o == 0xe0 {
        Some(3)
    } else if o == 0xf0 {
        Some(4)
    } else if o == 0xf8 {
        Some(5)
    } else if o == 0xfc {
        Some(6)
    } else if o == 0xfe {
        Some(7)
    } else if o == 0xff {
        Some(8)
    } else {
        assert forall|k: int| o != #[trigger] keep_high_bits(0xffu8, k) by {
            if 0 < k < 8 {
                assert(keep_high_bits(0xffu8, k) == 0xffu8 & !(0xffu8 >> (k as u8)));
            }
        }
        None
    }
}

/// A mask of prefix length `p` is the all-ones string masked to `p` bits, octet by octet.
pub proof fn lemma_prefix_mask_octets(mask: Seq<u8>, p: int)
    ensures
        is_prefix_mask(mask, p) <==> forall|j: int|
            0 <= j < mask.len() ==> #[trigger] mask[j] == keep_high_bits(0xffu8, p - 8 * j),
{
    let octetwise = forall|j: int|
        0 <= j < mask.len() ==> #[trigger] mask[j] == keep_high_bits(0xffu8, p - 8 * j);
    if is_prefix_mask(mask, p) {
        assert forall|j: int| 0 <= j < mask.len() implies #[trigger] mask[j] == keep_high_bits(
            0xffu8,
            p - 8 * j,
        ) by {
            let want = keep_high_bits(0xffu8, p - 8 * j);
            assert forall|b: int| 0 <= b < 8 implies octet_bit(mask[j], b) == octet_bit(want, b) by {
                let i = 8 * j + b;
                assert(i / 8 == j && i % 8 == b);
                assert(bit(mask, i) <==> i < p);
                lemma_keep_high_bits(0xffu8, p - 8 * j, b);
                lemma_ones_octet(b as u8);
            }
            lemma_octet_bits_equal(mask[j], want);
        }
    }
    if octetwise {
        assert forall|i: int| 0 <= i < 8 * mask.len() implies (#[trigger] bit(mask, i) <==> i
            < p) by {
            let j = i / 8;
            let b = i % 8;
            assert(mask[j] == keep_high_bits(0xffu8, p - 8 * j));
            lemma_keep_high_bits(0xffu8, p - 8 * j, b);
            lemma_ones_octet(b as u8);
        }
    }
}

/// A well-formed mask has one prefix length only.
pub proof fn lemma_prefix_unique(mask: Seq<u8>, p: int, q: int)
    requires
        0 <= p <= 8 * mask.len(),
        0 <= q <= 8 * mask.len(),
        is_prefix_mask(mask, p),
        is_prefix_mask(mask, q),
    ensures
        p == q,
{
    if p < q {
        assert(bit(mask, p) <==> p < p);
        assert(bit(mask, p) <==> p < q);
    } else if q < p {
        assert(bit(mask, q) <==> q < q);
        assert(bit(mask, q) <==> q < p);
    }
}

/// The prefix length of the mask held in `octets`, where it is a well-formed mask.
fn mask_prefix(octets: &[u8]) -> (r: Option<u8>)
    requires
        octets@.len() <= 16,
    ensures
        r is Some <==> has_prefix(octets@),
        r matches Some(p) ==> p == prefix_of(octets@) && p <= 8 * octets@.len() && is_prefix_mask(
            octets@,
            p as int,
        ),
{
    let n = octets.len();
    let mut prefix: u8 = 0;
    let mut ones = true;
    let mut j: usize = 0;
    while j < n
        invariant
            n == octets@.len(),
            n <= 16,
            j <= n,
            ones ==> prefix == 8 * j,
            !ones ==> prefix < 8 * j,
            forall|i: int|
                0 <= i < j ==> #[trigger] octets@[i] == keep_high_bits(0xffu8, prefix - 8 * i),
        decreases n - j,
    {
        let o = octets[j];
        if ones {
            match mask_octet_len(o) {
                Some(k) => {
                    prefix = prefix + k;
                    if k < 8 {
                        ones = false;
                    }
                },
                None => {
                    proof {
                        assert forall|p: int| 0 <= p <= 8 * octets@.len() implies !is_prefix_mask(
                            octets@,
                            p,
                        ) by {
                            lemma_prefix_mask_octets(octets@, p);
                            assert(octets@[j as int] != keep_high_bits(0xffu8, p - 8 * j));
                        }
                    }
                    return None;
                },
            }
        } else if o != 0 {
            proof {
                assert forall|p: int| 0 <= p <= 8 * octets@.len() implies !is_prefix_mask(
                    octets@,
                    p,
                ) by {
                    lemma_prefix_mask_octets(octets@, p);
                    if is_prefix_mask(octets@, p) {
                        let last = (prefix / 8) as int;
                        assert(octets@[last] == keep_high_bits(0xffu8, prefix - 8 * last));
                        assert(octets@[last] == keep_high_bits(0xffu8, p - 8 * last));
                        lemma_partial_octet(prefix - 8 * last, p - 8 * last);
                        assert(octets@[j as int] == keep_high_bits(0xffu8, p - 8 * j));
                    }
                }
            }
            return None;
        }
        j += 1;
    }
    proof {
        lemma_prefix_mask_octets(octets@, prefix as int);
        let q = prefix_of(octets@);
        lemma_prefix_unique(octets@, prefix as int, q);
    }
    Some(prefix)
}

/// An octet that keeps fewer than eight bits of the all-ones octet is not all ones.
proof fn lemma_partial_octet(a: int, b: int)
    requires
        a < 8,
        keep_high_bits(0xffu8, a) == keep_high_bits(0xffu8, b),
    ensures
        b < 8,
{
    if 0 < a {
        lemma_mask_octet_values(a as u8);
    }
}

fn mask_octet(o: u8, keep: usize) -> (r: u8)
    ensures
        r == keep_high_bits(o, keep as int),
{
    if keep >= 8 {
        o
    } else if keep == 0 {
        0
    } else {
        o & !(0xffu8 >> keep)
    }
}

fn octets_from_slice<const N: usize>(b: &[u8]) -> (r: [u8; N])
    requires
        b@.len() == N,
    ensures
        r@ == b@,
{
    let mut r = [0u8;N];
    let mut j: usize = 0;
    while j < N
        invariant
            b@.len() == N,
            j <= N,
            forall|i: int| 0 <= i < j ==> r@[i] == b@[i],
        decreases N - j,
    {
        r[j] = b[j];
        j += 1;
    }
    assert(r@ =~= b@);
    r
}

fn octets_equal<const N: usize>(a: &[u8; N], b: &[u8; N]) -> (r: bool)
    ensures
        r == (a@ == b@),
{
    let mut j: usize = 0;
    while j < N
        invariant
            j <= N,
            forall|i: int| 0 <= i < j ==> a@[i] == b@[i],
        decreases N - j,
    {
        if a[j] != b[j] {
            return false;
        }
        j += 1;
    }
    assert(a@ =~= b@);
    true
}

fn octets_masked<const N: usize>(a: &[u8; N], prefix: u8) -> (r: [u8; N])
    requires
        N <= 16,
    ensures
        r@ == masked(a@, prefix as int),
{
    let mut r = [0u8;N];
    let mut j: usize = 0;
    while j < N
        invariant
            N <= 16,
            j <= N,
            forall|i: int| 0 <= i < j ==> r@[i] == keep_high_bits(a@[i], prefix - 8 * i),
        decreases N - j,
    {
        let keep: usize = if prefix as usize > 8 * j {
            prefix as usize - 8 * j
        } else {
            0
        };
        r[j] = mask_octet(a[j], keep);
        j += 1;
    }
    assert(r@ =~= masked(a@, prefix as int));
    r
}

/// A network address: the four octets of an IPv4 address or the sixteen octets of an
/// IPv6 address, in network order.
#[derive(Debug)]
pub enum IPAddress {
    V4([u8; 4]),
    V6([u8; 16]),
}

impl View for IPAddress {
    type V = Seq<u8>;

    open spec fn view(&self) -> Seq<u8> {
        match self {
            IPAddress::V4(octets) => octets@,
            IPAddress::V6(octets) => octets@,
        }
    }
}

impl IPAddress {
    /// The address made of the given octets: four octets make an IPv4 address, sixteen an
    /// IPv6 address, and any other number none.
    pub fn from_bytes(b: &[u8]) -> (r: Option<Self>)
        ensures
            r is Some <==> b@.len() == 4 || b@.len() == 16,
            r matches Some(addr) ==> addr@ == b@,
    {
        let n = b.len();
        if n == 4 {
            Some(IPAddress::V4(octets_from_slice::<4>(b)))
        } else if n == 16 {
            Some(IPAddress::V6(octets_from_slice::<16>(b)))
        } else {
            None
        }
    }

    /// Reads the octets of the address as a network mask. Where the one bits of the mask
    /// are contiguous and start at the most significant bit, their number is returned.
    pub fn as_prefix(&self) -> (r: Option<u8>)
        ensures
            r is Some <==> has_prefix(self@),
            r matches Some(p) ==> p == prefix_of(self@) && p <= 8 * self@.len() && is_prefix_mask(
                self@,
                p as int,
            ),
    {
        match self {
            IPAddress::V4(octets) => mask_prefix(octets.as_slice()),
            IPAddress::V6(octets) => mask_prefix(octets.as_slice()),
        }
    }

    /// The address of the same family with all bits after the first `prefix` bits set to
    /// zero. A prefix that is as long as the address or longer leaves it unchanged.
    pub fn mask(&self, prefix: u8) -> (r: Self)
        ensures
            r@ == masked(self@, prefix as int),
            r is V4 <==> self is V4,
            forall|i: int|
                0 <= i < 8 * self@.len() ==> (#[trigger] bit(r@, i) <==> i < prefix && bit(self@, i)),
    {
        proof {
            lemma_masked_bits(self@, prefix as int);
        }
        match self {
            IPAddress::V4(octets) => IPAddress::V4(octets_masked::<4>(octets, prefix)),
            IPAddress::V6(octets) => IPAddress::V6(octets_masked::<16>(octets, prefix)),
        }
    }
}

impl PartialEq for IPAddress {
    /// Two addresses are equal when they are of one family and hold the same octets.
    fn eq(&self, other: &Self) -> (r: bool) {
        match (self, other) {
            (IPAddress::V4(a), IPAddress::V4(b)) => octets_equal::<4>(a, b),
            (IPAddress::V6(a), IPAddress::V6(b)) => octets_equal::<16>(a, b),
            _ => {
                assert(self@.len() != other@.len());
                false
            },
        }
    }
}

impl PartialEqSpecImpl for IPAddress {
    open spec fn obeys_eq_spec() -> bool {
        true
    }

    open spec fn eq_spec(&self, other: &Self) -> bool {
        self@ == other@
    }
}

/// What an `IPRange` stands for: a network address and the number of its leading bits
/// that are significant.
pub struct Cidr {
    pub address: Seq<u8>,
    pub prefix: int,
}

/// Whether `b` holds a range: an address followed by a well-formed network mask of the
/// same length, four octets each or sixteen octets each.
pub open spec fn is_range_encoding(b: Seq<u8>) -> bool {
    &&& b.len() == 8 || b.len() == 32
    &&& has_prefix(b.skip(b.len() as int / 2))
}

/// The range that `b` holds: the prefix length is that of the mask, and the address is
/// the first half of `b` masked to it.
pub open spec fn range_of(b: Seq<u8>) -> Cidr {
    let half = b.len() as int / 2;
    Cidr { address: masked(b.take(half), prefix_of(b.skip(half))), prefix: prefix_of(b.skip(half)) }
}

/// Whether the address with the octets `addr` lies in `range`: masked to the prefix of
/// the range it is the address of the range.
pub open spec fn cidr_contains(range: Cidr, addr: Seq<u8>) -> bool {
    range.address == masked(addr, range.prefix)
}

/// A block of addresses: all those that share the first `prefix` bits of `address`.
#[derive(Debug)]
pub struct IPRange {
    address: IPAddress,
    prefix: u8,
}

impl View for IPRange {
    type V = Cidr;

    closed spec fn view(&self) -> Cidr {
        Cidr { address: self.address@, prefix: self.prefix as int }
    }
}

impl IPRange {
    /// What holds of every range: it is an IPv4 or IPv6 block, the prefix is no longer than
    /// the address, and the address has no bit set after the prefix.
    #[verifier::type_invariant]
    pub open spec fn well_formed(&self) -> bool {
        &&& self@.address.len() == 4 || self@.address.len() == 16
        &&& 0 <= self@.prefix <= 8 * self@.address.len()
        &&& masked(self@.address, self@.prefix) == self@.address
    }

    /// Reads a range from an address followed by a network mask of the same length: eight
    /// octets for IPv4, thirty-two for IPv6. The mask must be well formed. Bits of the
    /// address after the prefix are dropped.
    pub fn from_bytes(b: &[u8]) -> (r: Option<Self>)
        ensures
            r is Some <==> is_range_encoding(b@),
            r matches Some(range) ==> range.well_formed() && range@ == range_of(b@),
    {
        let n = b.len();
        let slice_idx: usize = if n == 8 {
            4
        } else if n == 32 {
            16
        } else {
            return None;
        };
        let mask_half = vstd::slice::slice_subrange(b, slice_idx, n);
        let address_half = vstd::slice::slice_subrange(b, 0, slice_idx);
        assert(mask_half@ == b@.skip(b@.len() as int / 2));
        assert(address_half@ == b@.take(b@.len() as int / 2));
        let prefix = match IPAddress::from_bytes(mask_half) {
            Some(mask) => match mask.as_prefix() {
                Some(prefix) => prefix,
                None => {
                    return None;
                },
            },
            None => {
                return None;
            },
        };
        match IPAddress::from_bytes(address_half) {
            Some(address) => {
                let address = address.mask(prefix);
                proof {
                    lemma_masked_idempotent(address_half@, prefix as int);
                }
                Some(IPRange { address, prefix })
            },
            None => None,
        }
    }

    /// Whether `addr` lies in the range: it is of the same family, and masked to the
    /// prefix of the range it is the address of the range.
    pub fn matches(&self, addr: &IPAddress) -> (r: bool)
        ensures
            r == cidr_contains(self@, addr@),
    {
        self.address.eq(&addr.mask(self.prefix))
    }
}

impl PartialEq for IPRange {
    /// Two ranges are equal when they have the same address and the same prefix length.
    fn eq(&self, other: &Self) -> (r: bool) {
        self.address.eq(&other.address) && self.prefix == other.prefix
    }
}

impl PartialEqSpecImpl for IPRange {
    open spec fn obeys_eq_spec() -> bool {
        true
    }

    open spec fn eq_spec(&self, other: &Self) -> bool {
        self@ == other@
    }
}

/// Masking twice to the same prefix is masking once.
pub proof fn lemma_masked_idempotent(octets: Seq<u8>, prefix: int)
    ensures
        masked(masked(octets, prefix), prefix) == masked(octets, prefix),
{
    let once = masked(octets, prefix);
    lemma_masked_bits(octets, prefix);
    lemma_masked_bits(once, prefix);
    lemma_bits_equal(masked(once, prefix), once);
}

/// Bits of the address after the prefix do not tell ranges apart: two encodings with the
/// same mask, whose addresses agree in the bits before the prefix, hold the same range.
pub proof fn lemma_range_drops_host_bits(a: Seq<u8>, b: Seq<u8>)
    requires
        is_range_encoding(a),
        b.len() == a.len(),
        b.skip(b.len() as int / 2) == a.skip(a.len() as int / 2),
        forall|i: int|
            0 <= i < prefix_of(a.skip(a.len() as int / 2)) && i < 4 * a.len() ==> #[trigger] bit(
                a.take(a.len() as int / 2),
                i,
            ) == bit(b.take(b.len() as int / 2), i),
    ensures
        is_range_encoding(b),
        range_of(a) == range_of(b),
{
    let half = a.len() as int / 2;
    let p = prefix_of(a.skip(half));
    let x = a.take(half);
    let y = b.take(half);
    lemma_masked_bits(x, p);
    lemma_masked_bits(y, p);
    lemma_bits_equal(masked(x, p), masked(y, p));
}

/// An address lies in a range exactly when it is of the same family and has the bits of
/// the range before the prefix.
pub proof fn lemma_contains_by_prefix_bits(range: Cidr, addr: Seq<u8>)
    requires
        masked(range.address, range.prefix) == range.address,
    ensures
        cidr_contains(range, addr) <==> addr.len() == range.address.len() && forall|i: int|
            0 <= i < range.prefix && i < 8 * addr.len() ==> #[trigger] bit(addr, i) == bit(
                range.address,
                i,
            ),
{
    let p = range.prefix;
    lemma_masked_bits(addr, p);
    lemma_masked_bits(range.address, p);
    if addr.len() == range.address.len() && (forall|i: int|
        0 <= i < range.prefix && i < 8 * addr.len() ==> #[trigger] bit(addr, i) == bit(
            range.address,
            i,
        )) {
        lemma_bits_equal(masked(addr, p), masked(range.address, p));
    }
}


/// A range whose address has no bit set after the prefix contains its own address.
pub proof fn lemma_range_contains_its_address(range: Cidr)
    requires
        masked(range.address, range.prefix) == range.address,
    ensures
        cidr_contains(range, range.address),
{
}

} // verus!
