use kanidm_proto::errors::{
    consistency_failure, schema_violation, ConsistencyError, OperationError, SchemaError,
};

#[test]
fn test_schema_violation_wraps_schema_error() {
    let e = schema_violation(SchemaError::MissingMustAttribute("uuid".to_string()));
    assert_eq!(
        e,
        OperationError::SchemaViolation(SchemaError::MissingMustAttribute("uuid".to_string()))
    );
}

#[test]
fn test_consistency_failure_carries_every_check() {
    // One consistency pass reports several simultaneous faults.
    let results = vec![
        Ok(()),
        Err(ConsistencyError::UuidNotUnique("dup".to_string())),
        Err(ConsistencyError::RefintNotUpheld(7)),
    ];
    let e = consistency_failure(results);
    match e {
        OperationError::ConsistencyError(rs) => {
            assert_eq!(rs.len(), 3);
            assert_eq!(rs[0], Ok(()));
            assert_eq!(
                rs[1],
                Err(ConsistencyError::UuidNotUnique("dup".to_string()))
            );
        },
        other => panic!("expected a consistency failure, got {:?}", other),
    }
}
