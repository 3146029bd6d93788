use fd_miner::fd::FDs;
use fd_miner::table::{Attribute, Table};
use fd_miner::tane::{Algorithm, Tane};
use std::collections::BTreeSet;

fn build(names: &[&str], rows: &[&[&str]]) -> Table {
    let attrs: Vec<Attribute> = names
        .iter()
        .enumerate()
        .map(|(i, n)| Attribute::new(i, n.to_string()))
        .collect();
    let mut t = Table::new("t".to_string(), attrs);
    for r in rows {
        t.add_entry(r.iter().map(|s| s.to_string()).collect());
    }
    t
}

fn found(res: &FDs) -> BTreeSet<(Vec<usize>, usize)> {
    res.fds()
        .iter()
        .map(|f| (f.determinant.iter().map(|a| a.rank).collect(), f.dependant.rank))
        .collect()
}

fn holds(t: &Table, x: &[usize], a: usize) -> bool {
    let n = t.entries.len();
    for i in 0..n {
        for j in 0..n {
            let agree = x.iter().all(|&b| t.entries[i].data[b] == t.entries[j].data[b]);
            if agree && t.entries[i].data[a] != t.entries[j].data[a] {
                return false;
            }
        }
    }
    true
}

fn proper_subsets(x: &[usize]) -> Vec<Vec<usize>> {
    let mut out = Vec::new();
    let k = x.len();
    for mask in 0..(1usize << k) {
        if mask == (1usize << k) - 1 {
            continue;
        }
        out.push((0..k).filter(|i| mask & (1 << i) != 0).map(|i| x[i]).collect());
    }
    out
}

fn run(t: &Table) -> BTreeSet<(Vec<usize>, usize)> {
    let mut tane = Tane::new();
    found(&tane.execute(t))
}

#[test]
fn scenario_a_two_way_dependency() {
    let t = build(
        &["A", "B", "C"],
        &[&["1", "1", "1"], &["1", "1", "2"], &["2", "2", "1"], &["2", "2", "2"]],
    );
    let fds = run(&t);
    let expected: BTreeSet<(Vec<usize>, usize)> = [(vec![0], 1), (vec![1], 0)].into_iter().collect();
    assert_eq!(fds, expected);
}

#[test]
fn scenario_b_key_determines_the_rest() {
    let t = build(
        &["K", "X", "Y"],
        &[&["1", "a", "x"], &["2", "a", "y"], &["3", "b", "x"]],
    );
    let fds = run(&t);
    assert!(fds.contains(&(vec![0], 1)));
    assert!(fds.contains(&(vec![0], 2)));
    for (x, a) in &fds {
        if x.contains(&0) {
            assert_eq!(x.len(), 1, "a superset of the key emitted {:?} -> {}", x, a);
        }
    }
    assert_eq!(fds.iter().filter(|(_, a)| *a == 1 || *a == 2).count(), 2);
}

#[test]
fn scenario_c_no_dependency() {
    let single = build(&["A"], &[&["1"], &["2"], &["3"]]);
    assert!(run(&single).is_empty());
    let t = build(
        &["A", "B"],
        &[&["1", "1"], &["1", "2"], &["2", "1"], &["2", "2"]],
    );
    assert!(run(&t).is_empty());
}

#[test]
fn scenario_c_distinct_columns_are_keys() {
    let t = build(&["A", "B"], &[&["1", "4"], &["2", "5"], &["3", "6"]]);
    let expected: BTreeSet<(Vec<usize>, usize)> = [(vec![0], 1), (vec![1], 0)].into_iter().collect();
    assert_eq!(run(&t), expected);
}

#[test]
fn scenario_d_identical_rows() {
    let t = build(&["A", "B", "C"], &[&["1", "2", "3"], &["1", "2", "3"]]);
    let fds = run(&t);
    let expected: BTreeSet<(Vec<usize>, usize)> =
        [(vec![], 0), (vec![], 1), (vec![], 2)].into_iter().collect();
    assert_eq!(fds, expected);
    for a in 0..3 {
        for b in 0..3 {
            assert!(holds(&t, &[a], b));
        }
    }
}

#[test]
fn degenerate_tables_give_nothing() {
    let no_rows = build(&["A", "B"], &[]);
    assert!(run(&no_rows).is_empty());
    let no_attrs = build(&[], &[&[], &[]]);
    assert!(run(&no_attrs).is_empty());
}

#[test]
fn single_row_makes_every_attribute_constant() {
    let t = build(&["A", "B"], &[&["x", "y"]]);
    let expected: BTreeSet<(Vec<usize>, usize)> = [(vec![], 0), (vec![], 1)].into_iter().collect();
    assert_eq!(run(&t), expected);
}

#[test]
fn emitted_dependencies_hold_and_are_minimal() {
    let tables = vec![
        build(
            &["A", "B", "C", "D"],
            &[
                &["1", "a", "x", "p"],
                &["1", "a", "y", "p"],
                &["2", "b", "x", "q"],
                &["2", "c", "y", "q"],
                &["3", "c", "x", "q"],
            ],
        ),
        build(
            &["A", "B", "C"],
            &[&["1", "1", "1"], &["1", "2", "2"], &["2", "1", "2"], &["2", "2", "1"]],
        ),
    ];
    for t in &tables {
        let fds = run(t);
        assert!(!fds.is_empty());
        for (x, a) in &fds {
            assert!(!x.contains(a));
            assert!(holds(t, x, *a), "{:?} -> {} does not hold", x, a);
            for sub in proper_subsets(x) {
                assert!(!holds(t, &sub, *a), "{:?} -> {} is not minimal", x, a);
            }
        }
    }
}

#[test]
fn xor_table_needs_two_attributes() {
    let t = build(
        &["A", "B", "C"],
        &[&["0", "0", "0"], &["0", "1", "1"], &["1", "0", "1"], &["1", "1", "0"]],
    );
    let expected: BTreeSet<(Vec<usize>, usize)> =
        [(vec![0, 1], 2), (vec![0, 2], 1), (vec![1, 2], 0)].into_iter().collect();
    assert_eq!(run(&t), expected);
}

#[test]
fn two_runs_agree() {
    let t = build(
        &["A", "B", "C", "D"],
        &[
            &["1", "a", "x", "p"],
            &["1", "a", "y", "p"],
            &["2", "b", "x", "q"],
            &["2", "c", "y", "q"],
        ],
    );
    let mut tane = Tane::new();
    let first = found(&tane.execute(&t));
    let second = found(&tane.execute(&t));
    assert_eq!(first, second);
}

#[test]
fn sink_keeps_the_schema_and_name() {
    let t = build(&["A", "B"], &[&["1", "1"], &["2", "1"]]);
    let mut tane = Tane::new();
    let res = tane.execute(&t);
    assert_eq!(res.table_name(), "t");
    assert_eq!(res.attributes().len(), 2);
    assert_eq!(res.attributes()[1].value, "B");
    let fds = found(&res);
    let expected: BTreeSet<(Vec<usize>, usize)> = [(vec![], 1)].into_iter().collect();
    assert_eq!(fds, expected);
}

#[test]
fn random_tables_give_valid_minimal_dependencies() {
    let mut seed: u64 = 12345;
    let mut next = move || {
        seed = seed.wrapping_mul(6364136223846793005).wrapping_add(1442695040888963407);
        (seed >> 33) as usize
    };
    let names = ["A", "B", "C", "D", "E", "F"];
    for round in 0..300 {
        let width = 2 + round % 5;
        let height = 2 + next() % 8;
        let values = 2 + next() % 2;
        let cells: Vec<Vec<String>> = (0..height)
            .map(|_| (0..width).map(|_| (next() % values).to_string()).collect())
            .collect();
        let rows: Vec<Vec<&str>> = cells.iter().map(|r| r.iter().map(|s| s.as_str()).collect()).collect();
        let row_refs: Vec<&[&str]> = rows.iter().map(|r| r.as_slice()).collect();
        let t = build(&names[..width], &row_refs);
        let fds = run(&t);
        for (x, a) in &fds {
            assert!(!x.contains(a));
            assert!(holds(&t, x, *a), "{:?} -> {} does not hold in {:?}", x, a, cells);
            for sub in proper_subsets(x) {
                assert!(!holds(&t, &sub, *a), "{:?} -> {} is not minimal in {:?}", x, a, cells);
            }
        }
    }
}

#[test]
fn random_tables_give_every_minimal_dependency() {
    let mut seed: u64 = 987654321;
    let mut next = move || {
        seed = seed.wrapping_mul(6364136223846793005).wrapping_add(1442695040888963407);
        (seed >> 33) as usize
    };
    let names = ["A", "B", "C", "D", "E", "F"];
    for round in 0..300 {
        let width = 2 + round % 5;
        let height = 2 + next() % 8;
        let values = 2 + next() % 2;
        let cells: Vec<Vec<String>> = (0..height)
            .map(|_| (0..width).map(|_| (next() % values).to_string()).collect())
            .collect();
        let rows: Vec<Vec<&str>> = cells.iter().map(|r| r.iter().map(|s| s.as_str()).collect()).collect();
        let row_refs: Vec<&[&str]> = rows.iter().map(|r| r.as_slice()).collect();
        let t = build(&names[..width], &row_refs);
        let fds = run(&t);
        for a in 0..width {
            let others: Vec<usize> = (0..width).filter(|&b| b != a).collect();
            for x in proper_subsets(&others).into_iter().chain(std::iter::once(others.clone())) {
                let minimal = holds(&t, &x, a) && proper_subsets(&x).iter().all(|s| !holds(&t, s, a));
                if minimal {
                    assert!(fds.contains(&(x.clone(), a)), "{:?} -> {} is missing in {:?}", x, a, cells);
                }
            }
        }
    }
}
