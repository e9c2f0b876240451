//! The evaluation of name constraints: whether the permitted and excluded subtrees of an
//! issuer allow the names of a certificate.

use vstd::prelude::*;
use crate::extensions::{GeneralSubtree, NameConstraints, SequenceOfSubtrees};
use crate::name::GeneralName;
use crate::types::dns::{
    eq_ignore_ascii_case, first_dot, lemma_first_dot, valid_dns_name, DNSName,
};
use crate::types::ip::{cidr_contains, is_range_encoding, range_of, IPAddress, IPRange};

verus! {

/// Whether the name with the text `name` lies in the subtree that `base` spans: it is
/// equal to `base`, or its parent lies in that subtree.
pub open spec fn within_domain(name: Seq<char>, base: Seq<char>) -> bool
    decreases name.len(),
{
    ||| eq_ignore_ascii_case(name, base)
    ||| 0 <= first_dot(name) < name.len() && within_domain(name.skip(first_dot(name) + 1), base)
}

/// Whether `name` is `base` or a subdomain of it, at any depth.
pub fn dns_within(name: &DNSName, base: &DNSName) -> (r: bool)
    ensures
        r == within_domain(name@, base@),
{
    if name.eq(base) {
        return true;
    }
    proof {
        lemma_first_dot(name@);
    }
    let mut current = name.parent();
    loop
        invariant_except_break
            match current {
                Some(ancestor) => within_domain(name@, base@) == within_domain(ancestor@, base@),
                None => !within_domain(name@, base@),
            },
        ensures
            !within_domain(name@, base@),
        decreases
            match current {
                Some(ancestor) => ancestor@.len() + 1,
                None => 0,
            },
    {
        match current {
            Some(ancestor) => {
                if ancestor.eq(base) {
                    return true;
                }
                proof {
                    lemma_first_dot(ancestor@);
                }
                current = ancestor.parent();
            },
            None => {
                break;
            },
        }
    }
    false
}

/// Whether `base` is `name` or what is left of `name` after one of its dots, up to case.
pub open spec fn is_label_suffix(name: Seq<char>, base: Seq<char>) -> bool {
    ||| eq_ignore_ascii_case(name, base)
    ||| exists|k: int|
        0 < k <= name.len() && name[k - 1] == '.' && eq_ignore_ascii_case(
            #[trigger] name.skip(k),
            base,
        )
}

/// A name lies in the subtree of `base` exactly when `base` is the name or follows one
/// of its dots: the subtree is told by whole labels, never by a part of a label.
pub proof fn lemma_within_domain_is_label_suffix(name: Seq<char>, base: Seq<char>)
    ensures
        within_domain(name, base) <==> is_label_suffix(name, base),
    decreases name.len(),
{
    lemma_first_dot(name);
    let d = first_dot(name);
    if !eq_ignore_ascii_case(name, base) {
        if d < name.len() {
            let rest = name.skip(d + 1);
            lemma_within_domain_is_label_suffix(rest, base);
            if within_domain(rest, base) {
                if eq_ignore_ascii_case(rest, base) {
                    assert(eq_ignore_ascii_case(name.skip(d + 1), base));
                } else {
                    let k = choose|k: int|
                        0 < k <= rest.len() && rest[k - 1] == '.' && eq_ignore_ascii_case(
                            #[trigger] rest.skip(k),
                            base,
                        );
                    assert(rest.skip(k) == name.skip(d + 1 + k));
                    assert(name[d + 1 + k - 1] == '.');
                }
            }
        }
        if is_label_suffix(name, base) {
            let k = choose|k: int|
                0 < k <= name.len() && name[k - 1] == '.' && eq_ignore_ascii_case(
                    #[trigger] name.skip(k),
                    base,
                );
            assert(d <= k - 1);
            let rest = name.skip(d + 1);
            if d < k - 1 {
                let j = k - d - 1;
                assert(rest.skip(j) == name.skip(k));
                assert(rest[j - 1] == '.');
                assert(is_label_suffix(rest, base));
            }
        }
    }
}

/// What comes of holding one identifier against the base of one subtree.
#[derive(Debug, Clone, Copy, PartialEq, Eq, Structural)]
pub enum Outcome {
    /// The two are of different kinds, or of a kind that is not constrained here.
    Skipped,
    /// The two are of one kind, and one of them is not well formed.
    Malformed,
    /// The identifier lies in the subtree.
    Match,
    /// The identifier does not lie in the subtree.
    NoMatch,
}

/// The outcome for the base `constraint` of a subtree and the identifier `identifier`: DNS
/// names are held against DNS names and addresses against address ranges.
pub open spec fn outcome_of(constraint: GeneralName, identifier: GeneralName) -> Outcome {
    match (constraint, identifier) {
        (GeneralName::DNSName(base), GeneralName::DNSName(name)) => {
            if !valid_dns_name(base@) || !valid_dns_name(name@) {
                Outcome::Malformed
            } else if within_domain(name@, base@) {
                Outcome::Match
            } else {
                Outcome::NoMatch
            }
        },
        (GeneralName::IPAddress(range), GeneralName::IPAddress(addr)) => {
            if !is_range_encoding(range@) || !(addr@.len() == 4 || addr@.len() == 16) {
                Outcome::Malformed
            } else if cidr_contains(range_of(range@), addr@) {
                Outcome::Match
            } else {
                Outcome::NoMatch
            }
        },
        _ => Outcome::Skipped,
    }
}

/// Holds one identifier against the base of one subtree.
pub fn apply_constraint(constraint: &GeneralName, identifier: &GeneralName) -> (r: Outcome)
    ensures
        r == outcome_of(*constraint, *identifier),
{
    match (constraint, identifier) {
        (GeneralName::DNSName(base), GeneralName::DNSName(name)) => {
            match (DNSName::new(base), DNSName::new(name)) {
                (Some(base), Some(name)) => {
                    if dns_within(&name, &base) {
                        Outcome::Match
                    } else {
                        Outcome::NoMatch
                    }
                },
                _ => Outcome::Malformed,
            }
        },
        (GeneralName::IPAddress(range), GeneralName::IPAddress(addr)) => {
            match (IPRange::from_bytes(range), IPAddress::from_bytes(addr)) {
                (Some(range), Some(addr)) => {
                    if range.matches(&addr) {
                        Outcome::Match
                    } else {
                        Outcome::NoMatch
                    }
                },
                _ => Outcome::Malformed,
            }
        },
        _ => Outcome::Skipped,
    }
}

/// The subtrees of a list that may be absent: none where it is absent.
pub open spec fn subtrees<'a>(list: Option<SequenceOfSubtrees<'a>>) -> Seq<GeneralSubtree<'a>> {
    match list {
        Some(list) => list@,
        None => Seq::empty(),
    }
}

/// Some subtree of `list` gives the outcome `outcome` for `identifier`.
pub open spec fn some_outcome(
    list: Seq<GeneralSubtree>,
    identifier: GeneralName,
    outcome: Outcome,
) -> bool {
    exists|i: int| 0 <= i < list.len() && outcome_of((#[trigger] list[i]).base, identifier) == outcome
}

/// Whether the constraints allow one identifier: neither it nor a subtree of its kind is
/// malformed, no excluded subtree holds it, and where a permitted subtree of its kind
/// exists, a permitted subtree holds it.
pub open spec fn allows(constraints: NameConstraints, identifier: GeneralName) -> bool {
    let permitted = subtrees(constraints.permitted_subtrees);
    let excluded = subtrees(constraints.excluded_subtrees);
    &&& !some_outcome(excluded, identifier, Outcome::Malformed)
    &&& !some_outcome(excluded, identifier, Outcome::Match)
    &&& !some_outcome(permitted, identifier, Outcome::Malformed)
    &&& some_outcome(permitted, identifier, Outcome::NoMatch) ==> some_outcome(
        permitted,
        identifier,
        Outcome::Match,
    )
}

/// Whether the constraints allow every identifier of a list.
pub open spec fn allows_all(constraints: NameConstraints, identifiers: Seq<GeneralName>) -> bool {
    forall|k: int| 0 <= k < identifiers.len() ==> allows(constraints, #[trigger] identifiers[k])
}

/// The verdict on the identifiers of a certificate.
#[derive(Debug, Clone, Copy, PartialEq, Eq, Structural)]
pub enum Verdict {
    Accept,
    Reject,
}

/// What holding one identifier against every subtree of a list has come to.
struct Tally {
    malformed: bool,
    matched: bool,
    unmatched: bool,
}

fn tally(list: &Option<SequenceOfSubtrees>, identifier: &GeneralName) -> (r: Tally)
    ensures
        r.malformed == some_outcome(subtrees(*list), *identifier, Outcome::Malformed),
        r.matched == some_outcome(subtrees(*list), *identifier, Outcome::Match),
        r.unmatched == some_outcome(subtrees(*list), *identifier, Outcome::NoMatch),
{
    let mut r = Tally { malformed: false, matched: false, unmatched: false };
    match list {
        Some(entries) => {
            let n = entries.len();
            let mut i: usize = 0;
            while i < n
                invariant
                    *list == Some(*entries),
                    n == entries@.len(),
                    i <= n,
                    r.malformed == some_outcome(
                        entries@.take(i as int),
                        *identifier,
                        Outcome::Malformed,
                    ),
                    r.matched == some_outcome(entries@.take(i as int), *identifier, Outcome::Match),
                    r.unmatched == some_outcome(
                        entries@.take(i as int),
                        *identifier,
                        Outcome::NoMatch,
                    ),
                decreases n - i,
            {
                let outcome = apply_constraint(&entries[i].base, identifier);
                proof {
                    lemma_some_outcome_step(entries@, i as int, *identifier, Outcome::Malformed);
                    lemma_some_outcome_step(entries@, i as int, *identifier, Outcome::Match);
                    lemma_some_outcome_step(entries@, i as int, *identifier, Outcome::NoMatch);
                }
                match outcome {
                    Outcome::Malformed => {
                        r.malformed = true;
                    },
                    Outcome::Match => {
                        r.matched = true;
                    },
                    Outcome::NoMatch => {
                        r.unmatched = true;
                    },
                    Outcome::Skipped => {},
                }
                i += 1;
            }
            assert(entries@.take(n as int) == entries@);
        },
        None => {},
    }
    r
}

/// An outcome occurs among the first `i + 1` subtrees when it occurs among the first `i`
/// or is the outcome of subtree `i`.
proof fn lemma_some_outcome_step(
    list: Seq<GeneralSubtree>,
    i: int,
    identifier: GeneralName,
    outcome: Outcome,
)
    requires
        0 <= i < list.len(),
    ensures
        some_outcome(list.take(i + 1), identifier, outcome) <==> some_outcome(
            list.take(i),
            identifier,
            outcome,
        ) || outcome_of(list[i].base, identifier) == outcome,
{
    let shorter = list.take(i);
    let longer = list.take(i + 1);
    if some_outcome(longer, identifier, outcome) {
        let k = choose|k: int|
            0 <= k < longer.len() && outcome_of((#[trigger] longer[k]).base, identifier) == outcome;
        if k < i {
            assert(shorter[k] == longer[k]);
        }
    }
    if some_outcome(shorter, identifier, outcome) {
        let k = choose|k: int|
            0 <= k < shorter.len() && outcome_of((#[trigger] shorter[k]).base, identifier)
                == outcome;
        assert(longer[k] == shorter[k]);
    }
    if outcome_of(list[i].base, identifier) == outcome {
        assert(longer[i] == list[i]);
    }
}

impl<'a> NameConstraints<'a> {
    /// Whether the constraints allow the identifier.
    pub fn allows_identifier(&self, identifier: &GeneralName) -> (r: bool)
        ensures
            r == allows(*self, *identifier),
    {
        let excluded = tally(&self.excluded_subtrees, identifier);
        if excluded.malformed || excluded.matched {
            return false;
        }
        let permitted = tally(&self.permitted_subtrees, identifier);
        if permitted.malformed {
            return false;
        }
        permitted.matched || !permitted.unmatched
    }

    /// The verdict on the identifiers of a certificate: accepted when the constraints
    /// allow each of them.
    pub fn evaluate(&self, identifiers: &[GeneralName]) -> (r: Verdict)
        ensures
            r is Accept <==> allows_all(*self, identifiers@),
    {
        let n = identifiers.len();
        let mut k: usize = 0;
        while k < n
            invariant
                n == identifiers@.len(),
                k <= n,
                forall|i: int| 0 <= i < k ==> allows(*self, #[trigger] identifiers@[i]),
            decreases n - k,
        {
            if !self.allows_identifier(&identifiers[k]) {
                return Verdict::Reject;
            }
            k += 1;
        }
        Verdict::Accept
    }
}


/// Names that are neither DNS names nor IP addresses are not constrained: whatever the
/// subtrees are, such a name is allowed.
pub proof fn lemma_other_kinds_are_allowed(constraints: NameConstraints, identifier: GeneralName)
    requires
        !(identifier is DNSName),
        !(identifier is IPAddress),
    ensures
        allows(constraints, identifier),
{
    assert forall|base: GeneralName| outcome_of(base, identifier) == Outcome::Skipped by {}
}

/// A name is held against the subtrees of its own kind only. Where no subtree gives it
/// another outcome than `Skipped`, as where there is no subtree at all, it is allowed.
pub proof fn lemma_unconstrained_names_are_allowed(
    constraints: NameConstraints,
    identifier: GeneralName,
)
    requires
        forall|i: int|
            0 <= i < subtrees(constraints.permitted_subtrees).len() ==> outcome_of(
                (#[trigger] subtrees(constraints.permitted_subtrees)[i]).base,
                identifier,
            ) == Outcome::Skipped,
        forall|i: int|
            0 <= i < subtrees(constraints.excluded_subtrees).len() ==> outcome_of(
                (#[trigger] subtrees(constraints.excluded_subtrees)[i]).base,
                identifier,
            ) == Outcome::Skipped,
    ensures
        allows(constraints, identifier),
{
}

/// A name that lies in an excluded subtree is refused, whatever is permitted.
pub proof fn lemma_excluded_names_are_refused(
    constraints: NameConstraints,
    identifier: GeneralName,
    i: int,
)
    requires
        0 <= i < subtrees(constraints.excluded_subtrees).len(),
        outcome_of(subtrees(constraints.excluded_subtrees)[i].base, identifier) == Outcome::Match,
    ensures
        !allows(constraints, identifier),
{
}

} // verus!
