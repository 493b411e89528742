use miratope_core::cd::{CdError, Edge, EdgeRef, NodeRef};
use miratope_core::factorial;

#[test]
fn edge_values() {
    assert!(Edge::rational(5, 2, 0).is_ok());
    assert!(Edge::integer(3, 0).is_ok());
    assert_eq!(Edge::rational(1, 0, 3), Err(CdError::InvalidEdge { num: 1, den: 0, pos: 3 }));
    assert_eq!(Edge::rational(5, 5, 1), Err(CdError::InvalidEdge { num: 5, den: 5, pos: 1 }));
    assert_eq!(Edge::integer(1, 7), Err(CdError::InvalidEdge { num: 1, den: 1, pos: 7 }));
    assert!(Edge::integer(2, 0).unwrap().eq_two());
    assert!(Edge::rational(4, 2, 0).unwrap().eq_two());
    assert!(!Edge::integer(3, 0).unwrap().eq_two());
    assert!(!Edge::rational(5, 2, 0).unwrap().eq_two());
}

#[test]
fn node_references() {
    assert_eq!(NodeRef::new(false, 2), NodeRef::Absolute(2));
    assert_eq!(NodeRef::new(true, 2), NodeRef::Negative(2));
    assert_eq!(NodeRef::Absolute(2).index(5), 2);
    assert_eq!(NodeRef::Negative(0).index(5), 4);
    assert_eq!(NodeRef::Negative(2).index(5), 2);
    let e = EdgeRef::new(NodeRef::Absolute(1), NodeRef::Negative(1), Edge::integer(3, 0).unwrap());
    assert_eq!(e.indices(6), [1, 4]);
}

#[test]
fn factorials() {
    assert_eq!(factorial(0), 1);
    assert_eq!(factorial(1), 1);
    assert_eq!(factorial(5), 120);
    assert_eq!(factorial(12), 479001600);
}
