use kanidm_proto::codec::{deserialize, serialize};
use kanidm_proto::errors::OperationError;
use kanidm_proto::filter::{canonicalize, contains_self_uuid, filter_cmp, Filter};

fn eq(a: &str, v: &str) -> Filter {
    Filter::Eq(a.to_string(), v.to_string())
}

#[test]
fn test_protofilter_simple() {
    let pf: Filter = Filter::Pres("class".to_string());

    let text = String::from_utf8(serialize(&pf)).expect("utf8 text");
    println!("{:?}", text);
    assert_eq!(text, "Pres(\"class\")");
}

#[test]
fn test_canon_idempotent() {
    let f1 = Filter::And(vec![
        eq("b", "2"),
        Filter::Or(vec![eq("c", "3"), eq("a", "1")]),
        eq("a", "1"),
    ]);
    let f2 = Filter::And(vec![
        eq("b", "2"),
        Filter::Or(vec![eq("c", "3"), eq("a", "1")]),
        eq("a", "1"),
    ]);
    let once = canonicalize(&f1).expect("within depth");
    let twice = canonicalize(&canonicalize(&f2).expect("within depth")).expect("within depth");
    assert_eq!(once, twice);
}

#[test]
fn test_canon_order_insensitive() {
    let f1 = Filter::Or(vec![eq("a", "1"), eq("b", "2"), eq("c", "3")]);
    let f2 = Filter::Or(vec![eq("c", "3"), eq("a", "1"), eq("b", "2")]);
    assert_eq!(
        canonicalize(&f1).expect("within depth"),
        canonicalize(&f2).expect("within depth")
    );
}

#[test]
fn test_canon_dedup_exact_duplicates() {
    // Dedup removes exact duplicate children only; the pair collapses to
    // a single-child And, not to the bare child.
    let f = Filter::And(vec![eq("a", "1"), eq("a", "1")]);
    let c = canonicalize(&f).expect("within depth");
    assert_eq!(c, Filter::And(vec![eq("a", "1")]));
}

#[test]
fn test_canon_does_not_merge_shapes() {
    // Semantically equal but differently shaped children stay distinct:
    // only exact duplicates are removed, and only same-kind nesting is
    // flattened.
    let f = Filter::Or(vec![eq("a", "1"), Filter::And(vec![eq("a", "1")])]);
    let c = canonicalize(&f).expect("within depth");
    assert_eq!(c, Filter::Or(vec![eq("a", "1"), Filter::And(vec![eq("a", "1")])]));
}

#[test]
fn test_canon_flattens_nested_same_kind() {
    let f = Filter::Or(vec![Filter::Or(vec![eq("b", "2"), eq("a", "1")]), eq("c", "3")]);
    let c = canonicalize(&f).expect("within depth");
    assert_eq!(c, Filter::Or(vec![eq("a", "1"), eq("b", "2"), eq("c", "3")]));
}

#[test]
fn test_canon_empty_sentinels() {
    // And([]) denotes always-true, Or([]) always-false; each is its own
    // canonical sentinel form.
    let c_or = canonicalize(&Filter::Or(vec![])).expect("within depth");
    assert_eq!(c_or, Filter::Or(vec![]));
    let c_and = canonicalize(&Filter::And(vec![])).expect("within depth");
    assert_eq!(c_and, Filter::And(vec![]));
}

#[test]
fn test_canon_depth_rejected() {
    let mut f = Filter::Pres("a".to_string());
    for _ in 0..40 {
        f = Filter::AndNot(Box::new(f));
    }
    assert_eq!(canonicalize(&f), Err(OperationError::FilterGeneration));
}

#[test]
fn test_filter_cmp_total_order() {
    // Variant rank first: Eq < Sub < Pres < Or < And < AndNot < SelfUUID.
    assert!(filter_cmp(&eq("a", "1"), &Filter::Sub("a".to_string(), "1".to_string())) < 0);
    assert!(filter_cmp(&Filter::Pres("a".to_string()), &Filter::Or(vec![])) < 0);
    assert!(filter_cmp(&Filter::Or(vec![]), &Filter::And(vec![])) < 0);
    assert!(
        filter_cmp(
            &Filter::AndNot(Box::new(Filter::SelfUUID)),
            &Filter::SelfUUID
        ) < 0
    );
    // Then attribute, then value.
    assert!(filter_cmp(&eq("a", "2"), &eq("b", "1")) < 0);
    assert!(filter_cmp(&eq("a", "1"), &eq("a", "2")) < 0);
    assert_eq!(filter_cmp(&eq("a", "1"), &eq("a", "1")), 0);
    assert!(filter_cmp(&eq("b", "1"), &eq("a", "2")) > 0);
}

#[test]
fn test_round_trip_all_variants() {
    let cases: Vec<Filter> = vec![
        eq("name", "alice"),
        Filter::Sub("mail".to_string(), "@example".to_string()),
        Filter::Pres("class".to_string()),
        Filter::Or(vec![]),
        Filter::And(vec![]),
        Filter::Or(vec![eq("a", "1"), Filter::And(vec![eq("b", "2"), Filter::SelfUUID])]),
        Filter::And(vec![Filter::Or(vec![eq("a", "1")]), eq("b", "2")]),
        Filter::AndNot(Box::new(Filter::Or(vec![eq("a", "1")]))),
        Filter::SelfUUID,
    ];
    for f in cases {
        let bytes = serialize(&f);
        let back = deserialize(&bytes).expect("round trip");
        assert_eq!(back, f);
    }
}

#[test]
fn test_round_trip_escaped_strings() {
    let f = eq("desc", "say \"hi\" \\ there");
    let bytes = serialize(&f);
    let back = deserialize(&bytes).expect("round trip");
    assert_eq!(back, f);
}

#[test]
fn test_self_uuid_serialized_as_self_tag() {
    let bytes = serialize(&Filter::SelfUUID);
    assert_eq!(String::from_utf8(bytes).unwrap(), "Self");
}

#[test]
fn test_deserialize_rejects_garbage() {
    let bytes: Vec<u8> = b"Nonsense(".to_vec();
    assert_eq!(
        deserialize(&bytes),
        Err(OperationError::InvalidRequestState)
    );
    let trailing: Vec<u8> = b"SelfSelf".to_vec();
    assert!(deserialize(&trailing).is_err());
}

#[test]
fn test_contains_self_uuid() {
    assert!(contains_self_uuid(&Filter::SelfUUID));
    assert!(contains_self_uuid(&Filter::And(vec![
        eq("a", "1"),
        Filter::Or(vec![Filter::AndNot(Box::new(Filter::SelfUUID))])
    ])));
    assert!(!contains_self_uuid(&Filter::And(vec![eq("a", "1")])));
}
