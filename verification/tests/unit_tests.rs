use multidiff::{Cfgs, Error, ProvenanceSet};

#[test]
fn provenance_starts_with_one_index() {
    let p = ProvenanceSet::new(4);
    assert_eq!(p.card(), 1);
    assert_eq!(p.get(0), 4);
    assert!(p.contains(4));
    assert!(!p.contains(0));
}

#[test]
fn provenance_appends_in_order() {
    let mut p = ProvenanceSet::new(0);
    p.add(2);
    p.add(5);
    assert_eq!(p.card(), 3);
    assert_eq!(p.get(0), 0);
    assert_eq!(p.get(1), 2);
    assert_eq!(p.get(2), 5);
    assert!(p.contains(2));
    assert!(!p.contains(3));
}

#[test]
fn provenance_copies_are_independent() {
    let p = ProvenanceSet::new(1);
    let mut q = p.duplicate();
    q.add(2);
    assert_eq!(p.card(), 1);
    assert_eq!(q.card(), 2);
    let r = p.appended(9);
    assert_eq!(r.card(), 2);
    assert_eq!(r.get(1), 9);
    assert_eq!(p.card(), 1);
}

#[test]
fn cfgs_keeps_its_name() {
    let c = Cfgs::new("feature_x");
    assert_eq!(c.name(), "feature_x");
}

#[test]
fn error_keeps_its_message() {
    let e = Error::new("differing shebangs");
    assert_eq!(e.message(), "differing shebangs");
    let f = e.clone();
    assert_eq!(e, f);
}
