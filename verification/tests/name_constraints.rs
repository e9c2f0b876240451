use cryptography_x509::extensions::{GeneralSubtree, NameConstraints};
use cryptography_x509::name::GeneralName;
use cryptography_x509::name_constraints::{apply_constraint, dns_within, Outcome, Verdict};
use cryptography_x509::types::DNSName;

fn within(name: &str, base: &str) -> bool {
    dns_within(&DNSName::new(name).unwrap(), &DNSName::new(base).unwrap())
}

#[test]
fn dns_subtree_holds_the_base_and_what_lies_below_it() {
    assert!(within("example.com", "example.com"));
    assert!(within("EXAMPLE.com", "example.COM"));
    assert!(within("foo.example.com", "example.com"));
    assert!(within("a.b.c.example.com", "example.com"));
    assert!(within("Foo.Bar.Example.Com", "bar.example.com"));
    assert!(within("foo.com", "com"));
}

#[test]
fn dns_subtree_holds_nothing_else() {
    // Not below the base.
    assert!(!within("example.org", "example.com"));
    assert!(!within("com", "example.com"));
    assert!(!within("example.com", "foo.example.com"));
    // The base is the end of the text and not of the labels.
    assert!(!within("fooexample.com", "example.com"));
    assert!(!within("foo.myexample.com", "example.com"));
    // The base comes first and not last.
    assert!(!within("example.com.evil.net", "example.com"));
}

fn subtree(base: GeneralName<'_>) -> GeneralSubtree<'_> {
    GeneralSubtree {
        base,
        minimum: 0,
        maximum: None,
    }
}

const NET_10: [u8; 8] = [10, 0, 0, 0, 255, 0, 0, 0];
const NET_192_168: [u8; 8] = [192, 168, 0, 0, 255, 255, 0, 0];

#[test]
fn outcome_for_names_of_one_kind() {
    assert_eq!(
        apply_constraint(
            &GeneralName::DNSName("example.com"),
            &GeneralName::DNSName("www.example.com")
        ),
        Outcome::Match
    );
    assert_eq!(
        apply_constraint(
            &GeneralName::DNSName("example.com"),
            &GeneralName::DNSName("www.example.org")
        ),
        Outcome::NoMatch
    );
    assert_eq!(
        apply_constraint(
            &GeneralName::IPAddress(&NET_192_168),
            &GeneralName::IPAddress(&[192, 168, 0, 50])
        ),
        Outcome::Match
    );
    assert_eq!(
        apply_constraint(
            &GeneralName::IPAddress(&NET_192_168),
            &GeneralName::IPAddress(&[192, 169, 0, 50])
        ),
        Outcome::NoMatch
    );
    // An IPv6 address is not in an IPv4 range.
    assert_eq!(
        apply_constraint(
            &GeneralName::IPAddress(&NET_192_168),
            &GeneralName::IPAddress(&[0; 16])
        ),
        Outcome::NoMatch
    );
}

#[test]
fn outcome_for_malformed_names() {
    assert_eq!(
        apply_constraint(
            &GeneralName::DNSName("example.com"),
            &GeneralName::DNSName("*.example.com")
        ),
        Outcome::Malformed
    );
    assert_eq!(
        apply_constraint(
            &GeneralName::DNSName(".example.com"),
            &GeneralName::DNSName("www.example.com")
        ),
        Outcome::Malformed
    );
    assert_eq!(
        apply_constraint(&GeneralName::DNSName(""), &GeneralName::DNSName("")),
        Outcome::Malformed
    );
    // A mask with a hole.
    assert_eq!(
        apply_constraint(
            &GeneralName::IPAddress(&[192, 168, 0, 0, 255, 0, 255, 0]),
            &GeneralName::IPAddress(&[192, 168, 0, 50])
        ),
        Outcome::Malformed
    );
    // An address where a range is due.
    assert_eq!(
        apply_constraint(
            &GeneralName::IPAddress(&[192, 168, 0, 0]),
            &GeneralName::IPAddress(&[192, 168, 0, 50])
        ),
        Outcome::Malformed
    );
    // An address of five octets.
    assert_eq!(
        apply_constraint(
            &GeneralName::IPAddress(&NET_192_168),
            &GeneralName::IPAddress(&[192, 168, 0, 50, 1])
        ),
        Outcome::Malformed
    );
}

#[test]
fn outcome_for_names_of_different_kinds() {
    assert_eq!(
        apply_constraint(
            &GeneralName::DNSName("example.com"),
            &GeneralName::IPAddress(&[192, 168, 0, 50])
        ),
        Outcome::Skipped
    );
    assert_eq!(
        apply_constraint(
            &GeneralName::IPAddress(&NET_192_168),
            &GeneralName::DNSName("example.com")
        ),
        Outcome::Skipped
    );
    // Kinds that are not constrained here, with texts that would match as DNS names.
    assert_eq!(
        apply_constraint(
            &GeneralName::RFC822Name("example.com"),
            &GeneralName::RFC822Name("example.com")
        ),
        Outcome::Skipped
    );
    assert_eq!(
        apply_constraint(
            &GeneralName::UniformResourceIdentifier("example.com"),
            &GeneralName::DNSName("example.com")
        ),
        Outcome::Skipped
    );
    assert_eq!(
        apply_constraint(
            &GeneralName::DirectoryName(&[0x30, 0x00]),
            &GeneralName::DirectoryName(&[0x30, 0x00])
        ),
        Outcome::Skipped
    );
    let oid = asn1::ObjectIdentifier::from_string("1.2.3").unwrap();
    assert_eq!(
        apply_constraint(
            &GeneralName::RegisteredID(oid.clone()),
            &GeneralName::RegisteredID(oid)
        ),
        Outcome::Skipped
    );
    // Malformed names of different kinds are not looked at.
    assert_eq!(
        apply_constraint(&GeneralName::DNSName("!"), &GeneralName::IPAddress(&[1])),
        Outcome::Skipped
    );
}

#[test]
fn no_constraints_accept_everything() {
    let constraints = NameConstraints {
        permitted_subtrees: None,
        excluded_subtrees: None,
    };
    assert_eq!(constraints.evaluate(&[]), Verdict::Accept);
    assert_eq!(
        constraints.evaluate(&[
            GeneralName::DNSName("www.example.com"),
            GeneralName::IPAddress(&[192, 168, 0, 50]),
            GeneralName::RFC822Name("someone@example.com"),
            // Without a subtree of its kind a name is not looked at.
            GeneralName::DNSName("*.example.com"),
            GeneralName::IPAddress(&[1, 2, 3]),
        ]),
        Verdict::Accept
    );
    let empty = NameConstraints {
        permitted_subtrees: Some(vec![]),
        excluded_subtrees: Some(vec![]),
    };
    assert_eq!(
        empty.evaluate(&[GeneralName::DNSName("www.example.com")]),
        Verdict::Accept
    );
}

#[test]
fn permitted_dns_subtrees() {
    let constraints = NameConstraints {
        permitted_subtrees: Some(vec![
            subtree(GeneralName::DNSName("example.com")),
            subtree(GeneralName::DNSName("example.net")),
        ]),
        excluded_subtrees: None,
    };
    assert_eq!(
        constraints.evaluate(&[GeneralName::DNSName("www.example.com")]),
        Verdict::Accept
    );
    assert_eq!(
        constraints.evaluate(&[GeneralName::DNSName("EXAMPLE.NET")]),
        Verdict::Accept
    );
    assert_eq!(
        constraints.evaluate(&[GeneralName::DNSName("www.example.org")]),
        Verdict::Reject
    );
    // One name outside the permitted subtrees rejects the whole list.
    assert_eq!(
        constraints.evaluate(&[
            GeneralName::DNSName("www.example.com"),
            GeneralName::DNSName("www.example.org"),
        ]),
        Verdict::Reject
    );
    assert!(!constraints.allows_identifier(&GeneralName::DNSName("www.example.org")));
    assert!(constraints.allows_identifier(&GeneralName::DNSName("www.example.com")));
    // Names of kinds without a permitted subtree are not constrained.
    assert_eq!(
        constraints.evaluate(&[
            GeneralName::DNSName("www.example.com"),
            GeneralName::IPAddress(&[192, 168, 0, 50]),
            GeneralName::UniformResourceIdentifier("https://example.org/"),
        ]),
        Verdict::Accept
    );
}

#[test]
fn excluded_dns_subtrees() {
    let constraints = NameConstraints {
        permitted_subtrees: None,
        excluded_subtrees: Some(vec![subtree(GeneralName::DNSName("bad.example.com"))]),
    };
    assert_eq!(
        constraints.evaluate(&[GeneralName::DNSName("www.example.com")]),
        Verdict::Accept
    );
    assert_eq!(
        constraints.evaluate(&[GeneralName::DNSName("bad.example.com")]),
        Verdict::Reject
    );
    assert_eq!(
        constraints.evaluate(&[GeneralName::DNSName("very.BAD.example.com")]),
        Verdict::Reject
    );
    assert_eq!(
        constraints.evaluate(&[
            GeneralName::DNSName("www.example.com"),
            GeneralName::DNSName("x.bad.example.com"),
        ]),
        Verdict::Reject
    );
}

#[test]
fn exclusion_wins_over_permission() {
    let constraints = NameConstraints {
        permitted_subtrees: Some(vec![subtree(GeneralName::DNSName("example.com"))]),
        excluded_subtrees: Some(vec![subtree(GeneralName::DNSName("bad.example.com"))]),
    };
    assert_eq!(
        constraints.evaluate(&[GeneralName::DNSName("good.example.com")]),
        Verdict::Accept
    );
    assert_eq!(
        constraints.evaluate(&[GeneralName::DNSName("x.bad.example.com")]),
        Verdict::Reject
    );
    assert_eq!(
        constraints.evaluate(&[GeneralName::DNSName("example.org")]),
        Verdict::Reject
    );
}

#[test]
fn permitted_and_excluded_ip_subtrees() {
    let constraints = NameConstraints {
        permitted_subtrees: Some(vec![subtree(GeneralName::IPAddress(&NET_10))]),
        excluded_subtrees: Some(vec![subtree(GeneralName::IPAddress(&[
            10, 1, 0, 0, 255, 255, 0, 0,
        ]))]),
    };
    assert_eq!(
        constraints.evaluate(&[GeneralName::IPAddress(&[10, 2, 3, 4])]),
        Verdict::Accept
    );
    assert_eq!(
        constraints.evaluate(&[GeneralName::IPAddress(&[10, 1, 3, 4])]),
        Verdict::Reject
    );
    assert_eq!(
        constraints.evaluate(&[GeneralName::IPAddress(&[11, 2, 3, 4])]),
        Verdict::Reject
    );
    // An IPv6 address is held against the IPv4 subtree and is not in it.
    assert_eq!(
        constraints.evaluate(&[GeneralName::IPAddress(&[0; 16])]),
        Verdict::Reject
    );
    // DNS names are not constrained by subtrees of addresses.
    assert_eq!(
        constraints.evaluate(&[GeneralName::DNSName("anything.example")]),
        Verdict::Accept
    );
}

#[test]
fn malformed_names_are_rejected_and_not_passed() {
    let constraints = NameConstraints {
        permitted_subtrees: Some(vec![subtree(GeneralName::DNSName("example.com"))]),
        excluded_subtrees: None,
    };
    assert_eq!(
        constraints.evaluate(&[GeneralName::DNSName("*.example.com")]),
        Verdict::Reject
    );
    assert_eq!(
        constraints.evaluate(&[GeneralName::DNSName("")]),
        Verdict::Reject
    );

    // A malformed subtree rejects every name of its kind, also one that another
    // subtree permits.
    let constraints = NameConstraints {
        permitted_subtrees: Some(vec![
            subtree(GeneralName::DNSName("example.com")),
            subtree(GeneralName::DNSName("-bad-.example.com")),
        ]),
        excluded_subtrees: None,
    };
    assert_eq!(
        constraints.evaluate(&[GeneralName::DNSName("www.example.com")]),
        Verdict::Reject
    );
    assert_eq!(
        constraints.evaluate(&[GeneralName::IPAddress(&[10, 0, 0, 1])]),
        Verdict::Accept
    );

    let constraints = NameConstraints {
        permitted_subtrees: None,
        excluded_subtrees: Some(vec![subtree(GeneralName::IPAddress(&[
            10, 0, 0, 0, 255, 0, 255, 0,
        ]))]),
    };
    assert_eq!(
        constraints.evaluate(&[GeneralName::IPAddress(&[192, 168, 0, 1])]),
        Verdict::Reject
    );
    assert_eq!(
        constraints.evaluate(&[GeneralName::DNSName("www.example.com")]),
        Verdict::Accept
    );
}

#[test]
fn distances_of_a_subtree_are_not_looked_at() {
    let constraints = NameConstraints {
        permitted_subtrees: Some(vec![GeneralSubtree {
            base: GeneralName::DNSName("example.com"),
            minimum: 3,
            maximum: Some(1),
        }]),
        excluded_subtrees: None,
    };
    assert_eq!(constraints.permitted_subtrees.as_ref().unwrap()[0].minimum, 3);
    assert_eq!(
        constraints.permitted_subtrees.as_ref().unwrap()[0].maximum,
        Some(1)
    );
    assert_eq!(
        constraints.evaluate(&[GeneralName::DNSName("www.example.com")]),
        Verdict::Accept
    );
    assert_eq!(
        constraints.evaluate(&[GeneralName::DNSName("a.b.c.d.example.com")]),
        Verdict::Accept
    );
}
