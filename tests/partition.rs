use fd_miner::partition::{Partitions, StrippedPartition};
use fd_miner::table::{Attribute, Table};
use std::collections::BTreeSet;

fn build(names: &[&str], rows: &[&[&str]]) -> Table {
    let attrs: Vec<Attribute> = names
        .iter()
        .enumerate()
        .map(|(i, n)| Attribute::new(i, n.to_string()))
        .collect();
    let mut t = Table::new("t".to_string(), attrs);
    for r in rows {
        t.add_entry(r.iter().map(|s| s.to_string()).collect());
    }
    t
}

fn classes(p: &StrippedPartition) -> BTreeSet<BTreeSet<usize>> {
    p.classes().iter().map(|c| c.iter().copied().collect()).collect()
}

fn set(v: &[&[usize]]) -> BTreeSet<BTreeSet<usize>> {
    v.iter().map(|c| c.iter().copied().collect()).collect()
}

fn sample() -> Table {
    build(
        &["A", "B", "C"],
        &[
            &["1", "x", "p"],
            &["1", "x", "q"],
            &["1", "y", "p"],
            &["2", "y", "p"],
            &["2", "y", "q"],
            &["3", "z", "r"],
        ],
    )
}

#[test]
fn identity_holds_every_row() {
    let p = StrippedPartition::new(4);
    assert_eq!(classes(&p), set(&[&[0, 1, 2, 3]]));
    assert_eq!(p.get_error(), 3);
    assert_eq!(p.rows(), 4);
    let empty = StrippedPartition::new(0);
    assert!(empty.classes().is_empty());
    assert_eq!(empty.get_error(), 0);
}

#[test]
fn column_partition_drops_singletons() {
    let t = sample();
    let a = StrippedPartition::from_column(&t, 0);
    assert_eq!(classes(&a), set(&[&[0, 1, 2], &[3, 4]]));
    assert_eq!(a.get_error(), 3);
    let b = StrippedPartition::from_column(&t, 1);
    assert_eq!(classes(&b), set(&[&[0, 1], &[2, 3, 4]]));
    assert_eq!(b.get_error(), 3);
}

#[test]
fn partitions_cover_every_attribute() {
    let t = sample();
    let ps = Partitions::new(&t);
    assert_eq!(ps.0.len(), 3);
    assert_eq!(classes(&ps.0[2]), set(&[&[0, 2, 3], &[1, 4]]));
    assert_eq!(ps.0[2].get_error(), 3);
}

#[test]
fn product_refines_both() {
    let t = sample();
    let a = StrippedPartition::from_column(&t, 0);
    let b = StrippedPartition::from_column(&t, 1);
    let ab = a.product(&b);
    assert_eq!(classes(&ab), set(&[&[0, 1], &[3, 4]]));
    assert_eq!(ab.get_error(), 2);
}

#[test]
fn product_commutes_and_associates() {
    let t = sample();
    let a = StrippedPartition::from_column(&t, 0);
    let b = StrippedPartition::from_column(&t, 1);
    let c = StrippedPartition::from_column(&t, 2);
    assert_eq!(classes(&a.product(&b)), classes(&b.product(&a)));
    let left = a.product(&b).product(&c);
    let right = a.product(&b.product(&c));
    assert_eq!(classes(&left), classes(&right));
    assert!(left.classes().is_empty());
}

#[test]
fn product_with_identity_is_unchanged() {
    let t = sample();
    let b = StrippedPartition::from_column(&t, 1);
    let id = StrippedPartition::new(6);
    assert_eq!(classes(&id.product(&b)), classes(&b));
    assert_eq!(classes(&b.product(&id)), classes(&b));
}

#[test]
fn error_never_grows_with_more_attributes() {
    let t = sample();
    let a = StrippedPartition::from_column(&t, 0);
    let c = StrippedPartition::from_column(&t, 2);
    let ac = a.product(&c);
    assert!(ac.get_error() <= a.get_error());
    assert!(ac.get_error() <= c.get_error());
    assert_eq!(ac.get_error(), 1);
}

#[test]
fn equal_error_means_dependency() {
    let t = build(
        &["A", "B"],
        &[&["1", "x"], &["1", "x"], &["2", "y"], &["3", "y"]],
    );
    let a = StrippedPartition::from_column(&t, 0);
    let b = StrippedPartition::from_column(&t, 1);
    let ab = a.product(&b);
    assert_eq!(ab.get_error(), a.get_error());
    assert_ne!(ab.get_error(), b.get_error());
}

#[test]
fn zero_error_means_key() {
    let t = build(&["A", "B"], &[&["1", "x"], &["1", "y"], &["2", "x"]]);
    let a = StrippedPartition::from_column(&t, 0);
    let b = StrippedPartition::from_column(&t, 1);
    assert_eq!(a.product(&b).get_error(), 0);
    assert!(a.get_error() > 0);
}
