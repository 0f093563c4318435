use skel::topology::{Simplex, SimplexError};
use std::cmp::Ordering;
use std::collections::hash_map::DefaultHasher;
use std::collections::HashMap;
use std::hash::{Hash, Hasher};

fn hash_of(s: &Simplex) -> u64 {
    let mut hasher = DefaultHasher::new();
    s.hash(&mut hasher);
    hasher.finish()
}

#[test]
fn simplex_rejects_empty() {
    assert_eq!(
        Simplex::new_checked(vec![]).unwrap_err(),
        SimplexError::Empty
    );
    assert_eq!(
        Simplex::new_canonical(vec![]).unwrap_err(),
        SimplexError::Empty
    );
}

#[test]
fn simplex_rejects_duplicates() {
    assert_eq!(
        Simplex::new_canonical(vec![2, 1, 2]).unwrap_err(),
        SimplexError::DuplicateVertex(2)
    );
}

#[test]
fn boundary_cardinality() {
    let s = Simplex::new_canonical(vec![0, 2, 5]).unwrap();
    let bd = s.boundary();
    assert_eq!(bd.len(), 3);
    for (_sign, face) in bd {
        assert_eq!(face.dim(), 1);
    }
}

#[test]
fn checked_keeps_input_unmodified() {
    let s = Simplex::new_checked(vec![0, 2, 5]).unwrap();
    assert_eq!(s.vertices().to_vec(), vec![0, 2, 5]);
    assert_eq!(s.dim(), 2);
}

#[test]
fn checked_rejects_adjacent_duplicate() {
    assert_eq!(
        Simplex::new_checked(vec![1, 2, 2]).unwrap_err(),
        SimplexError::DuplicateVertex(2)
    );
}

#[test]
fn canonical_sorts_distinct_input() {
    let s = Simplex::new_canonical(vec![5, 3, 9]).unwrap();
    assert_eq!(s.vertices().to_vec(), vec![3, 5, 9]);
    assert_eq!(s.dim(), 2);
}

#[test]
fn canonical_reports_smallest_duplicate() {
    assert_eq!(
        Simplex::new_canonical(vec![5, 5, 3, 3]).unwrap_err(),
        SimplexError::DuplicateVertex(3)
    );
}

#[test]
fn boundary_face_content() {
    let s = Simplex::new_canonical(vec![0, 2, 5]).unwrap();
    let bd = s.boundary();
    let expected = vec![
        (1, Simplex::new_checked(vec![2, 5]).unwrap()),
        (-1, Simplex::new_checked(vec![0, 5]).unwrap()),
        (1, Simplex::new_checked(vec![0, 2]).unwrap()),
    ];
    assert_eq!(bd, expected);
}

#[test]
fn zero_dimensional_boundary() {
    let s = Simplex::new_canonical(vec![7]).unwrap();
    assert_eq!(s.dim(), 0);
    assert!(s.boundary().is_empty());
}

#[test]
fn double_boundary_cancels() {
    let s = Simplex::new_canonical(vec![0, 1, 2, 3]).unwrap();
    let mut coefficients: HashMap<Vec<usize>, i32> = HashMap::new();
    for (sign, face) in s.boundary() {
        for (inner_sign, inner_face) in face.boundary() {
            *coefficients
                .entry(inner_face.vertices().to_vec())
                .or_insert(0) += sign * inner_sign;
        }
    }
    assert_eq!(coefficients.len(), 6);
    for (_face, coefficient) in coefficients {
        assert_eq!(coefficient, 0);
    }
}

#[test]
fn structural_equality_of_permutations() {
    let a = Simplex::new_canonical(vec![3, 1, 2]).unwrap();
    let b = Simplex::new_canonical(vec![2, 3, 1]).unwrap();
    assert_eq!(a, b);
    assert_eq!(hash_of(&a), hash_of(&b));
    assert_eq!(a.cmp(&b), Ordering::Equal);
    assert!(!(a < b) && !(b < a));
}
