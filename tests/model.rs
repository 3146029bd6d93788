use fd_miner::fd::{sort_by_rank, FDs, FunctionalDependency};
use fd_miner::table::{Attribute, Entry, Table};
use std::rc::Rc;

fn schema() -> Vec<Attribute> {
    vec![
        Attribute::new(0, "id".to_string()),
        Attribute::new(1, "name".to_string()),
        Attribute::new(2, "city".to_string()),
    ]
}

#[test]
fn attribute_keeps_rank_and_name() {
    let a = Attribute::new(3, "zip".to_string());
    assert_eq!(a.rank, 3);
    assert_eq!(a.value, "zip");
}

#[test]
fn table_rows_share_the_schema() {
    let mut t = Table::new("people".to_string(), schema());
    t.add_entry(vec!["1".to_string(), "ann".to_string(), "oslo".to_string()]);
    t.add_entry(vec!["2".to_string(), "bob".to_string(), "rome".to_string()]);
    assert_eq!(t.table_name, "people");
    assert_eq!(t.entries.len(), 2);
    assert_eq!(t.entries[1].data[1], "bob");
    assert!(Rc::ptr_eq(&t.attributes, &t.entries[0].attr_ref));
    assert_eq!(t.entries[0].attr_ref.len(), 3);
}

#[test]
fn sub_table_picks_rows_in_order() {
    let mut t = Table::new("people".to_string(), schema());
    for i in 0..4 {
        t.add_entry(vec![i.to_string(), format!("n{}", i), "x".to_string()]);
    }
    let s = t.sub_table(&vec![3, 1]);
    assert_eq!(s.entries.len(), 2);
    assert_eq!(s.entries[0].data[0], "3");
    assert_eq!(s.entries[1].data[1], "n1");
    assert_eq!(s.table_name, "people");
    assert_eq!(s.attributes.len(), 3);
    assert_eq!(s.attributes[2].value, "city");
}

#[test]
fn entry_looks_up_by_attribute_name() {
    let e = Entry::new(
        Rc::new(schema()),
        vec!["7".to_string(), "eve".to_string(), "lima".to_string()],
    );
    assert_eq!(e.get_data_from_metadata(&"city".to_string()), Some(&"lima".to_string()));
    assert_eq!(e.get_data_from_metadata(&"id".to_string()), Some(&"7".to_string()));
    assert_eq!(e.get_data_from_metadata(&"age".to_string()), None);
}

#[test]
fn dependency_from_list_sorts_determinant() {
    let fd = FunctionalDependency::new_from_vec(vec![
        Attribute::new(2, "c".to_string()),
        Attribute::new(0, "a".to_string()),
        Attribute::new(1, "b".to_string()),
    ]);
    assert_eq!(fd.dependant.rank, 1);
    let ranks: Vec<usize> = fd.determinant.iter().map(|a| a.rank).collect();
    assert_eq!(ranks, vec![0, 2]);
}

#[test]
fn dependency_from_empty_list() {
    let fd = FunctionalDependency::new_from_vec(Vec::new());
    assert_eq!(fd.dependant.rank, 0);
    assert_eq!(fd.dependant.value, "");
    assert!(fd.determinant.is_empty());
}

#[test]
fn sort_by_rank_orders_and_keeps_all() {
    let v = sort_by_rank(vec![
        Attribute::new(5, "e".to_string()),
        Attribute::new(1, "a".to_string()),
        Attribute::new(3, "c".to_string()),
        Attribute::new(1, "b".to_string()),
    ]);
    let ranks: Vec<usize> = v.iter().map(|a| a.rank).collect();
    assert_eq!(ranks, vec![1, 1, 3, 5]);
    assert_eq!(v.len(), 4);
    assert_eq!(v[0].value, "a");
    assert_eq!(v[1].value, "b");
}

#[test]
fn sort_by_rank_breaks_ties_by_name() {
    let v = sort_by_rank(vec![
        Attribute::new(2, "zeta".to_string()),
        Attribute::new(2, "alpha".to_string()),
        Attribute::new(2, "al".to_string()),
        Attribute::new(0, "omega".to_string()),
    ]);
    let names: Vec<&str> = v.iter().map(|a| a.value.as_str()).collect();
    assert_eq!(names, vec!["omega", "al", "alpha", "zeta"]);
}

#[test]
fn sink_adds_by_index() {
    let t = Table::new("people".to_string(), schema());
    let mut fds = FDs::new(&t);
    assert!(fds.fds().is_empty());
    fds.add_from_index(&vec![2, 0], 1);
    assert_eq!(fds.fds().len(), 1);
    let fd = &fds.fds()[0];
    let names: Vec<&str> = fd.determinant.iter().map(|a| a.value.as_str()).collect();
    assert_eq!(names, vec!["id", "city"]);
    assert_eq!(fd.dependant.value, "name");
    fds.add(FunctionalDependency::new_from_vec(vec![Attribute::new(0, "id".to_string())]));
    assert_eq!(fds.fds().len(), 2);
    assert_eq!(fds.table_name(), "people");
}
