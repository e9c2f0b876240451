//! DNS names in the preferred name syntax, and patterns that match them.

use vstd::prelude::*;
use vstd::string::{StrSliceExecFns, StringSliceAdditionalSpecFns};
use vstd::string::is_ascii_spec_bytes;
use vstd::utf8::is_ascii_chars;
use vstd::std_specs::cmp::PartialEqSpecImpl;
use crate::codec::{ia5_text, ia5_new, ia5_as_str};

verus! {

/// A character that may occur inside a label: an ASCII letter, an ASCII digit or a hyphen.
pub open spec fn is_label_char(c: char) -> bool {
    ||| 'a' <= c <= 'z'
    ||| 'A' <= c <= 'Z'
    ||| '0' <= c <= '9'
    ||| c == '-'
}

/// A label is 1 to 63 label characters and neither starts nor ends with a hyphen.
pub open spec fn valid_label(l: Seq<char>) -> bool {
    &&& 1 <= l.len() <= 63
    &&& l[0] != '-'
    &&& l[l.len() - 1] != '-'
    &&& forall|i: int| 0 <= i < l.len() ==> is_label_char(#[trigger] l[i])
}

/// The index of the first dot of `s`, or `s.len()` where `s` holds no dot.
pub open spec fn first_dot(s: Seq<char>) -> int
    decreases s.len(),
{
    if s.len() == 0 || s[0] == '.' {
        0
    } else {
        1 + first_dot(s.drop_first())
    }
}

/// The dot-separated pieces of `s`, in order. A string without a dot is one piece, and
/// so is the empty string.
pub open spec fn labels(s: Seq<char>) -> Seq<Seq<char>>
    decreases s.len(),
{
    let k = first_dot(s);
    if 0 <= k < s.len() {
        seq![s.take(k)] + labels(s.skip(k + 1))
    } else {
        seq![s]
    }
}

/// Every dot-separated piece of `s` is a valid label.
pub open spec fn all_labels_valid(s: Seq<char>) -> bool {
    forall|i: int| 0 <= i < labels(s).len() ==> valid_label(#[trigger] labels(s)[i])
}

/// The preferred name syntax: at most 253 characters, made of valid labels joined by dots.
pub open spec fn valid_dns_name(s: Seq<char>) -> bool {
    &&& 0 < s.len() <= 253
    &&& all_labels_valid(s)
}

/// `first_dot` is the least index that holds a dot, and the length where there is none.
pub proof fn lemma_first_dot(s: Seq<char>)
    ensures
        0 <= first_dot(s) <= s.len(),
        first_dot(s) < s.len() ==> s[first_dot(s)] == '.',
        forall|j: int| 0 <= j < first_dot(s) ==> s[j] != '.',
    decreases s.len(),
{
    if s.len() == 0 || s[0] == '.' {
    } else {
        let t = s.drop_first();
        lemma_first_dot(t);
        assert forall|j: int| 0 <= j < first_dot(s) implies s[j] != '.' by {
            if j > 0 {
                assert(s[j] == t[j - 1]);
            }
        }
        if first_dot(s) < s.len() {
            assert(s[first_dot(s)] == t[first_dot(t)]);
        }
    }
}

/// An index with no dot before it, which holds a dot or is the length, is `first_dot`.
pub proof fn lemma_first_dot_is(s: Seq<char>, k: int)
    requires
        0 <= k <= s.len(),
        forall|j: int| 0 <= j < k ==> s[j] != '.',
        k < s.len() ==> s[k] == '.',
    ensures
        first_dot(s) == k,
{
    lemma_first_dot(s);
    let f = first_dot(s);
    if f < k {
        assert(s[f] == '.');
    } else if f > k {
        assert(s[k] != '.');
    }
}

/// How validity of the labels of `s` splits at the first dot.
pub proof fn lemma_labels_split(s: Seq<char>)
    ensures
        first_dot(s) < s.len() ==> (all_labels_valid(s) <==> valid_label(s.take(first_dot(s)))
            && all_labels_valid(s.skip(first_dot(s) + 1))),
        first_dot(s) >= s.len() ==> (all_labels_valid(s) <==> valid_label(s)),
        labels(s).len() >= 1,
{
    lemma_first_dot(s);
    let k = first_dot(s);
    if k < s.len() {
        let head = s.take(k);
        let rest = labels(s.skip(k + 1));
        assert(labels(s) == seq![head] + rest);
        assert(labels(s)[0] == head);
        assert forall|i: int| 0 <= i < rest.len() implies rest[i] == labels(s)[i + 1] by {}
        if all_labels_valid(s) {
            assert(valid_label(labels(s)[0]));
            assert forall|i: int| 0 <= i < rest.len() implies valid_label(#[trigger] rest[i]) by {
                assert(valid_label(labels(s)[i + 1]));
            }
        }
        if valid_label(head) && all_labels_valid(s.skip(k + 1)) {
            assert forall|i: int| 0 <= i < labels(s).len() implies valid_label(
                #[trigger] labels(s)[i],
            ) by {
                if i > 0 {
                    assert(labels(s)[i] == rest[i - 1]);
                }
            }
        }
    } else {
        assert(labels(s) == seq![s]);
        assert(labels(s)[0] == s);
    }
}

/// A string whose labels are all valid holds only label characters and dots, and is not
/// empty.
pub proof fn lemma_valid_labels_chars(s: Seq<char>)
    requires
        all_labels_valid(s),
    ensures
        s.len() > 0,
        forall|j: int| 0 <= j < s.len() ==> (#[trigger] s[j]) == '.' || is_label_char(s[j]),
        is_ascii_chars(s),
    decreases s.len(),
{
    lemma_first_dot(s);
    lemma_labels_split(s);
    let k = first_dot(s);
    if k < s.len() {
        let head = s.take(k);
        let rest = s.skip(k + 1);
        lemma_valid_labels_chars(rest);
        assert forall|j: int| 0 <= j < s.len() implies (#[trigger] s[j]) == '.' || is_label_char(
            s[j],
        ) by {
            if j < k {
                assert(s[j] == head[j]);
            } else if j > k {
                assert(s[j] == rest[j - k - 1]);
            }
        }
    } else {
        assert(s.take(k) == s);
    }
}

/// The lower-case form of an ASCII letter; any other character is left as it is.
pub open spec fn ascii_lower(c: char) -> char {
    if 'A' <= c <= 'Z' {
        ((c as u32) + 32) as char
    } else {
        c
    }
}

/// Equality of two strings up to the case of their ASCII letters.
pub open spec fn eq_ignore_ascii_case(a: Seq<char>, b: Seq<char>) -> bool {
    &&& a.len() == b.len()
    &&& forall|i: int| 0 <= i < a.len() ==> ascii_lower(#[trigger] a[i]) == ascii_lower(b[i])
}

const DOT: u8 = 46;

const HYPHEN: u8 = 45;

const ASTERISK: u8 = 42;

const DIGIT_0: u8 = 48;

const DIGIT_9: u8 = 57;

const UPPER_A: u8 = 65;

const UPPER_Z: u8 = 90;

const LOWER_A: u8 = 97;

const LOWER_Z: u8 = 122;

fn is_label_byte(b: u8) -> (r: bool)
    ensures
        r == is_label_char(b as char),
{
    (LOWER_A <= b && b <= LOWER_Z) || (UPPER_A <= b && b <= UPPER_Z) || (DIGIT_0 <= b && b <= DIGIT_9)
        || b == HYPHEN
}

fn lower_byte(b: u8) -> (r: u8)
    requires
        b < 128,
    ensures
        r < 128,
        r as char == ascii_lower(b as char),
{
    if UPPER_A <= b && b <= UPPER_Z {
        b + 32
    } else {
        b
    }
}

/// An ASCII string has as many bytes as characters.
proof fn lemma_ascii_len(s: &str)
    requires
        s.is_ascii(),
    ensures
        s.spec_bytes().len() == s@.len(),
{
    is_ascii_spec_bytes(s);
}

/// The end of the label that starts at `start`: the index of the next dot, or the length.
fn label_end(s: &str, start: usize) -> (end: usize)
    requires
        s.is_ascii(),
        start <= s@.len(),
    ensures
        start <= end <= s@.len(),
        end - start == first_dot(s@.skip(start as int)),
{
    proof {
        lemma_ascii_len(s);
    }
    let n = s.as_bytes().len();
    let mut end = start;
    while end < n && s.get_ascii(end) != DOT
        invariant
            s.is_ascii(),
            n == s@.len(),
            start <= end <= n,
            forall|j: int| start <= j < end ==> s@[j] != '.',
        decreases n - end,
    {
        end += 1;
    }
    proof {
        lemma_first_dot_is(s@.skip(start as int), end - start);
    }
    end
}

fn check_label(s: &str, start: usize, end: usize) -> (r: bool)
    requires
        s.is_ascii(),
        start <= end <= s@.len(),
    ensures
        r == valid_label(s@.subrange(start as int, end as int)),
{
    let ghost label = s@.subrange(start as int, end as int);
    if end == start || end - start > 63 {
        return false;
    }
    if s.get_ascii(start) == HYPHEN || s.get_ascii(end - 1) == HYPHEN {
        assert(label[0] == s@[start as int]);
        assert(label[label.len() - 1] == s@[end - 1]);
        return false;
    }
    let mut i = start;
    while i < end
        invariant
            s.is_ascii(),
            start <= i <= end <= s@.len(),
            label == s@.subrange(start as int, end as int),
            forall|j: int| start <= j < i ==> is_label_char(#[trigger] s@[j]),
        decreases end - i,
    {
        if !is_label_byte(s.get_ascii(i)) {
            assert(label[i - start] == s@[i as int]);
            return false;
        }
        i += 1;
    }
    assert(label[0] == s@[start as int]);
    assert(label[label.len() - 1] == s@[end - 1]);
    true
}

/// A DNS host name in the preferred name syntax. Names that are not plain ASCII must be
/// given in their ASCII-compatible encoding. Two names are equal when they differ at most
/// in the case of their letters.
#[derive(Debug)]
pub struct DNSName<'a>(asn1::IA5String<'a>);

impl<'a> View for DNSName<'a> {
    type V = Seq<char>;

    closed spec fn view(&self) -> Seq<char> {
        ia5_text(self.0)
    }
}

impl<'a> DNSName<'a> {
    /// What holds of every name: its text is a valid DNS name.
    #[verifier::type_invariant]
    pub open spec fn well_formed(&self) -> bool {
        valid_dns_name(self@)
    }

    /// Makes a name of `value`, which is kept as it is, if it is a valid DNS name.
    pub fn new(value: &'a str) -> (r: Option<Self>)
        ensures
            r is Some <==> valid_dns_name(value@),
            r matches Some(name) ==> name@ == value@ && name.well_formed(),
    {
        let n = value.as_bytes().len();
        if value.is_empty() || n > 253 || !value.is_ascii() {
            proof {
                if all_labels_valid(value@) {
                    lemma_valid_labels_chars(value@);
                    lemma_ascii_len(value);
                }
            }
            return None;
        }
        proof {
            lemma_ascii_len(value);
            assert(value@.skip(0) == value@);
        }
        let mut start: usize = 0;
        let mut done = false;
        while !done
            invariant
                value.is_ascii(),
                n == value@.len(),
                start <= n,
                all_labels_valid(value@) <==> all_labels_valid(value@.skip(start as int)),
                done ==> all_labels_valid(value@),
            decreases n - start + (if done { 0int } else { 1int }),
        {
            let ghost rest = value@.skip(start as int);
            let end = label_end(value, start);
            proof {
                lemma_labels_split(rest);
                assert(rest.take(end - start) == value@.subrange(start as int, end as int));
                if end < n {
                    assert(rest.skip(end - start + 1) == value@.skip(end + 1));
                }
            }
            if !check_label(value, start, end) {
                return None;
            }
            if end == n {
                done = true;
            } else {
                start = end + 1;
            }
        }
        match ia5_new(value) {
            Some(text) => Some(DNSName(text)),
            None => None,
        }
    }

    /// The text that the name was made from, with the case of its letters unchanged.
    pub fn as_str(&self) -> (r: &'a str)
        ensures
            r@ == self@,
    {
        ia5_as_str(&self.0)
    }

    /// The name without its first label, or `None` where the name is a single label.
    pub fn parent(&self) -> (r: Option<Self>)
        ensures
            r is Some <==> first_dot(self@) < self@.len(),
            r matches Some(p) ==> p@ == self@.skip(first_dot(self@) + 1) && p.well_formed(),
    {
        let s = self.as_str();
        proof {
            use_type_invariant(self);
            lemma_valid_labels_chars(s@);
            lemma_labels_split(s@);
            lemma_ascii_len(s);
        }
        let n = s.as_bytes().len();
        let end = label_end(s, 0);
        assert(s@.skip(0) == s@);
        if end == n {
            None
        } else {
            let rest = s.substring_ascii(end + 1, n);
            assert(rest@ == s@.skip(end + 1));
            proof {
                lemma_valid_labels_chars(rest@);
            }
            Self::new(rest)
        }
    }
}

impl<'a> PartialEq for DNSName<'a> {
    /// Names are compared without regard to the case of their letters.
    fn eq(&self, other: &Self) -> (r: bool) {
        let a = self.as_str();
        let b = other.as_str();
        proof {
            use_type_invariant(self);
            use_type_invariant(other);
            lemma_valid_labels_chars(a@);
            lemma_valid_labels_chars(b@);
            lemma_ascii_len(a);
            lemma_ascii_len(b);
        }
        let n = a.as_bytes().len();
        if b.as_bytes().len() != n {
            return false;
        }
        let mut i: usize = 0;
        while i < n
            invariant
                a.is_ascii(),
                b.is_ascii(),
                a@ == self@,
                b@ == other@,
                n == a@.len(),
                n == b@.len(),
                i <= n,
                forall|j: int| 0 <= j < i ==> ascii_lower(#[trigger] a@[j]) == ascii_lower(b@[j]),
            decreases n - i,
        {
            let x = lower_byte(a.get_ascii(i));
            let y = lower_byte(b.get_ascii(i));
            assert(a@[i as int] as u8 as char == a@[i as int]);
            assert(b@[i as int] as u8 as char == b@[i as int]);
            if x != y {
                assert(ascii_lower(a@[i as int]) != ascii_lower(b@[i as int]));
                return false;
            }
            i += 1;
        }
        true
    }
}

impl<'a> PartialEqSpecImpl for DNSName<'a> {
    open spec fn obeys_eq_spec() -> bool {
        true
    }

    open spec fn eq_spec(&self, other: &Self) -> bool {
        eq_ignore_ascii_case(self@, other@)
    }
}

/// Whether `name` is one label below `base`: it has a dot, and what follows its first dot
/// is `base` up to case.
pub open spec fn is_child_of(name: Seq<char>, base: Seq<char>) -> bool {
    &&& first_dot(name) < name.len()
    &&& eq_ignore_ascii_case(base, name.skip(first_dot(name) + 1))
}

/// Whether `s` begins with the two characters `*.`.
pub open spec fn has_wildcard_prefix(s: Seq<char>) -> bool {
    s.len() >= 2 && s[0] == '*' && s[1] == '.'
}

/// A pattern for DNS names: an exact name, or a wildcard that stands for one whole label
/// in the left-most position, followed by the name that the variant holds.
#[derive(Debug)]
pub enum DNSPattern<'a> {
    Exact(DNSName<'a>),
    Wildcard(DNSName<'a>),
}

impl<'a> DNSPattern<'a> {
    /// The name that the pattern holds: the whole pattern for an exact one, and what
    /// follows `*.` for a wildcard.
    pub open spec fn base(&self) -> DNSName<'a> {
        match self {
            DNSPattern::Exact(name) => *name,
            DNSPattern::Wildcard(name) => *name,
        }
    }

    /// What holds of every pattern made by `new` or from names made by `DNSName::new`.
    pub open spec fn well_formed(&self) -> bool {
        self.base().well_formed()
    }

    /// Whether the pattern matches a name with the text `name`: an exact pattern matches
    /// the names equal to it, a wildcard the names that have a parent equal to its base.
    pub open spec fn matches_text(&self, name: Seq<char>) -> bool {
        match self {
            DNSPattern::Exact(pat) => eq_ignore_ascii_case(pat@, name),
            DNSPattern::Wildcard(pat) => is_child_of(name, pat@),
        }
    }

    /// Reads a pattern: after a leading `*.` the rest must be a valid name and the result
    /// is a wildcard; without it the whole must be a valid name and the result is exact.
    pub fn new(pat: &'a str) -> (r: Option<Self>)
        ensures
            has_wildcard_prefix(pat@) ==> (r is Some <==> valid_dns_name(pat@.skip(2))),
            !has_wildcard_prefix(pat@) ==> (r is Some <==> valid_dns_name(pat@)),
            r matches Some(p) ==> p.well_formed() && if has_wildcard_prefix(pat@) {
                p is Wildcard && p.base()@ == pat@.skip(2)
            } else {
                p is Exact && p.base()@ == pat@
            },
    {
        if !pat.is_ascii() {
            proof {
                if all_labels_valid(pat@) {
                    lemma_valid_labels_chars(pat@);
                }
                if has_wildcard_prefix(pat@) && all_labels_valid(pat@.skip(2)) {
                    lemma_valid_labels_chars(pat@.skip(2));
                    assert forall|i: int| 0 <= i < pat@.len() implies '\0' <= #[trigger] pat@[i]
                        <= '\u{7f}' by {
                        if i >= 2 {
                            assert(pat@[i] == pat@.skip(2)[i - 2]);
                        }
                    }
                }
            }
            return None;
        }
        proof {
            lemma_ascii_len(pat);
        }
        let n = pat.as_bytes().len();
        if n >= 2 && pat.get_ascii(0) == ASTERISK && pat.get_ascii(1) == DOT {
            let rest = pat.substring_ascii(2, n);
            assert(rest@ == pat@.skip(2));
            match DNSName::new(rest) {
                Some(name) => Some(DNSPattern::Wildcard(name)),
                None => None,
            }
        } else {
            match DNSName::new(pat) {
                Some(name) => Some(DNSPattern::Exact(name)),
                None => None,
            }
        }
    }

    /// Whether the pattern matches `name`.
    pub fn matches(&self, name: &DNSName) -> (r: bool)
        ensures
            r == self.matches_text(name@),
    {
        match self {
            DNSPattern::Exact(pat) => pat.eq(name),
            DNSPattern::Wildcard(pat) => match name.parent() {
                Some(ref parent) => pat.eq(parent),
                // A single label has no parent, and a wildcard does not match it.
                None => false,
            },
        }
    }
}

impl<'a> PartialEq for DNSPattern<'a> {
    /// Two patterns are equal when they are of the same kind and hold equal names.
    fn eq(&self, other: &Self) -> (r: bool) {
        match (self, other) {
            (DNSPattern::Exact(a), DNSPattern::Exact(b)) => a.eq(b),
            (DNSPattern::Wildcard(a), DNSPattern::Wildcard(b)) => a.eq(b),
            _ => false,
        }
    }
}

impl<'a> PartialEqSpecImpl for DNSPattern<'a> {
    open spec fn obeys_eq_spec() -> bool {
        true
    }

    open spec fn eq_spec(&self, other: &Self) -> bool {
        match (self, other) {
            (DNSPattern::Exact(a), DNSPattern::Exact(b)) => eq_ignore_ascii_case(a@, b@),
            (DNSPattern::Wildcard(a), DNSPattern::Wildcard(b)) => eq_ignore_ascii_case(a@, b@),
            _ => false,
        }
    }
}

/// The two characters are one ASCII letter, once in upper and once in lower case.
pub open spec fn is_case_pair(x: char, y: char) -> bool {
    ||| 'A' <= x <= 'Z' && y as int == x as int + 32
    ||| 'A' <= y <= 'Z' && x as int == y as int + 32
}

/// The two strings differ at most in the case of ASCII letters.
pub open spec fn differ_only_in_case(a: Seq<char>, b: Seq<char>) -> bool {
    &&& a.len() == b.len()
    &&& forall|i: int| 0 <= i < a.len() ==> (#[trigger] a[i]) == b[i] || is_case_pair(a[i], b[i])
}

/// Names that differ only in the case of their letters are equal.
pub proof fn lemma_case_variants_are_equal(a: DNSName, b: DNSName)
    requires
        a.well_formed(),
        b.well_formed(),
        differ_only_in_case(a@, b@),
    ensures
        eq_ignore_ascii_case(a@, b@),
{
    assert forall|i: int| 0 <= i < a@.len() implies ascii_lower(#[trigger] a@[i]) == ascii_lower(
        b@[i],
    ) by {
        assert(a@[i] == b@[i] || is_case_pair(a@[i], b@[i]));
    }
}

/// Equality up to case, which is the equality of names, is reflexive, symmetric and
/// transitive.
pub proof fn lemma_name_equality_is_equivalence(a: Seq<char>, b: Seq<char>, c: Seq<char>)
    ensures
        eq_ignore_ascii_case(a, a),
        eq_ignore_ascii_case(a, b) ==> eq_ignore_ascii_case(b, a),
        eq_ignore_ascii_case(a, b) && eq_ignore_ascii_case(b, c) ==> eq_ignore_ascii_case(a, c),
{
    if eq_ignore_ascii_case(a, b) {
        assert forall|i: int| 0 <= i < b.len() implies ascii_lower(#[trigger] b[i]) == ascii_lower(
            a[i],
        ) by {
            assert(ascii_lower(a[i]) == ascii_lower(b[i]));
        }
        if eq_ignore_ascii_case(b, c) {
            assert forall|i: int| 0 <= i < a.len() implies ascii_lower(#[trigger] a[i])
                == ascii_lower(c[i]) by {
                assert(ascii_lower(a[i]) == ascii_lower(b[i]));
                assert(ascii_lower(b[i]) == ascii_lower(c[i]));
            }
        }
    }
}

/// A string has one label exactly when it holds no dot. Otherwise its labels are the
/// piece before the first dot and then the labels of what follows that dot, so what
/// follows the first dot of a valid name is a valid name.
pub proof fn lemma_parent_labels(s: Seq<char>)
    ensures
        labels(s).len() == 1 <==> first_dot(s) >= s.len(),
        first_dot(s) < s.len() ==> labels(s.skip(first_dot(s) + 1)) == labels(s).skip(1),
        first_dot(s) < s.len() && valid_dns_name(s) ==> valid_dns_name(s.skip(first_dot(s) + 1)),
{
    lemma_first_dot(s);
    lemma_labels_split(s);
    let k = first_dot(s);
    if k < s.len() {
        let rest = s.skip(k + 1);
        lemma_labels_split(rest);
        assert(labels(s) == seq![s.take(k)] + labels(rest));
        assert(labels(s).skip(1) == labels(rest));
        if valid_dns_name(s) {
            lemma_valid_labels_chars(rest);
        }
    }
}

/// Strings that are equal up to case have their dots in the same places, and so the same
/// number of labels.
pub proof fn lemma_equal_names_have_equal_depth(a: Seq<char>, b: Seq<char>)
    requires
        eq_ignore_ascii_case(a, b),
    ensures
        first_dot(a) == first_dot(b),
        labels(a).len() == labels(b).len(),
    decreases a.len(),
{
    lemma_first_dot(a);
    lemma_first_dot(b);
    assert forall|i: int| 0 <= i < a.len() implies (a[i] == '.' <==> b[i] == '.') by {
        assert(ascii_lower(a[i]) == ascii_lower(b[i]));
    }
    lemma_first_dot_is(b, first_dot(a));
    let k = first_dot(a);
    if k < a.len() {
        let ra = a.skip(k + 1);
        let rb = b.skip(k + 1);
        assert forall|i: int| 0 <= i < ra.len() implies ascii_lower(#[trigger] ra[i])
            == ascii_lower(rb[i]) by {
            assert(ascii_lower(a[i + k + 1]) == ascii_lower(b[i + k + 1]));
        }
        lemma_equal_names_have_equal_depth(ra, rb);
    }
}

/// A wildcard stands for one whole label: a name that it matches has one label more
/// than the base of the wildcard. So a wildcard matches no single label, not its own base,
/// and no name that lies deeper than one label below its base.
pub proof fn lemma_wildcard_matches_one_label(pattern: DNSPattern, name: DNSName)
    requires
        pattern is Wildcard,
        pattern.matches_text(name@),
    ensures
        labels(name@).len() == labels(pattern.base()@).len() + 1,
{
    let parent = name@.skip(first_dot(name@) + 1);
    lemma_parent_labels(name@);
    lemma_equal_names_have_equal_depth(pattern.base()@, parent);
}

/// A wildcard over a single label matches no name but those one label below that label.
pub proof fn lemma_wildcard_over_single_label(pattern: DNSPattern, name: DNSName)
    requires
        pattern is Wildcard,
        labels(pattern.base()@).len() == 1,
        !is_child_of(name@, pattern.base()@),
    ensures
        !pattern.matches_text(name@),
{
}

} // verus!
