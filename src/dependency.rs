//! What a functional dependency means on a table, and how the error of a
//! stripped partition decides it.
use vstd::prelude::*;
use vstd::set_lib::{lemma_len_subset, lemma_set_disjoint_lens};
use crate::partition::{
    agree, classes_wf, error_of, identity_classes, is_product, partition_of, related, together, total_size,
};
use crate::table::Table;

verus! {

/// Rows that agree on `x` agree on `a`.
pub open spec fn fd_holds(t: &Table, x: Set<usize>, a: usize) -> bool {
    forall|i: usize, j: usize|
        i < t.height() && j < t.height() && #[trigger] agree(t, i as int, j as int, x) ==> t.cell(
            i as int,
            a as int,
        ) == t.cell(j as int, a as int)
}

/// No two rows agree on `x`.
pub open spec fn distinguishes(t: &Table, x: Set<usize>) -> bool {
    forall|i: usize, j: usize|
        i < t.height() && j < t.height() && i != j ==> !#[trigger] agree(t, i as int, j as int, x)
}

/// Rows that agree on `x` with some earlier row.
pub open spec fn repeated_rows(t: &Table, x: Set<usize>) -> Set<usize> {
    Set::new(|i: usize| i < t.height() && exists|j: usize| j < i && #[trigger] agree(t, i as int, j as int, x))
}

/// Some row of `c` is below `r`.
pub open spec fn has_smaller(c: Seq<usize>, r: usize) -> bool {
    exists|s: usize| s < r && #[trigger] c.contains(s)
}

/// The rows of the first `k` classes that are not the least of their class.
pub open spec fn non_leading(cs: Seq<Seq<usize>>, k: int) -> Set<usize> {
    Set::new(|r: usize| exists|k1: int| 0 <= k1 < k && #[trigger] cs[k1].contains(r) && has_smaller(cs[k1], r))
}

/// The least value at which `p` holds, given one at which it does.
proof fn lemma_least(p: spec_fn(usize) -> bool, w: usize) -> (m: usize)
    requires
        p(w),
    ensures
        p(m),
        m <= w,
        forall|s: usize| s < m ==> !#[trigger] p(s),
    decreases w,
{
    if exists|s: usize| s < w && #[trigger] p(s) {
        let s = choose|s: usize| s < w && #[trigger] p(s);
        lemma_least(p, s)
    } else {
        w
    }
}

proof fn lemma_non_leading_size(cs: Seq<Seq<usize>>, n: nat, k: int)
    requires
        classes_wf(cs, n),
        0 <= k <= cs.len(),
    ensures
        non_leading(cs, k).finite(),
        non_leading(cs, k).len() == total_size(cs.subrange(0, k)) - k,
    decreases k,
{
    if k == 0 {
        assert(non_leading(cs, k) =~= Set::empty());
    } else {
        lemma_non_leading_size(cs, n, k - 1);
        let c = cs[k - 1];
        let m = lemma_least(|r: usize| c.contains(r), c[0]);
        assert forall|s: usize| s < m implies !#[trigger] c.contains(s) by {
            assert(!(|r: usize| c.contains(r))(s));
        }
        assert(c.contains(m));
        let own = c.to_set().remove(m);
        c.unique_seq_to_set();
        assert forall|r: usize| #[trigger] own.contains(r) <==> (c.contains(r) && has_smaller(c, r)) by {
            if c.contains(r) && r != m {
                assert(!(r < m));
                assert(has_smaller(c, r));
            }
            if r == m && has_smaller(c, r) {
                let s = choose|s: usize| s < r && #[trigger] c.contains(s);
            }
        }
        assert(non_leading(cs, k) =~= non_leading(cs, k - 1) + own);
        assert(non_leading(cs, k - 1).disjoint(own));
        lemma_set_disjoint_lens(non_leading(cs, k - 1), own);
        assert(cs.subrange(0, k).drop_last() =~= cs.subrange(0, k - 1));
    }
}

/// The error of the stripped partition of `x` counts the rows that agree on
/// `x` with an earlier row.
pub proof fn lemma_error_counts_repeated_rows(cs: Seq<Seq<usize>>, t: &Table, x: Set<usize>)
    requires
        partition_of(cs, t, x),
    ensures
        error_of(cs) == repeated_rows(t, x).len(),
        repeated_rows(t, x).finite(),
{
    lemma_non_leading_size(cs, t.height(), cs.len() as int);
    assert(cs.subrange(0, cs.len() as int) =~= cs);
    let nl = non_leading(cs, cs.len() as int);
    assert forall|r: usize| #[trigger] nl.contains(r) <==> repeated_rows(t, x).contains(r) by {
        if nl.contains(r) {
            let k = choose|k: int| 0 <= k < cs.len() && #[trigger] cs[k].contains(r) && has_smaller(cs[k], r);
            let s = choose|s: usize| s < r && #[trigger] cs[k].contains(s);
            let p = cs[k].index_of(r);
            assert(cs[k][p] < t.height());
            let q = cs[k].index_of(s);
            assert(cs[k][q] < t.height());
            assert(together(cs, r, s));
            assert(related(cs, r, s));
        }
        if repeated_rows(t, x).contains(r) {
            let j = choose|j: usize| j < r && #[trigger] agree(t, r as int, j as int, x);
            assert(related(cs, r, j));
            let k = choose|k: int| 0 <= k < cs.len() && #[trigger] cs[k].contains(r) && cs[k].contains(j);
            assert(has_smaller(cs[k], r));
        }
    }
    assert(nl =~= repeated_rows(t, x));
}

/// Adding an attribute to a set never raises the error of its stripped
/// partition.
pub proof fn lemma_error_monotone(
    t: &Table,
    x: Set<usize>,
    a: usize,
    with_a: Seq<Seq<usize>>,
    without_a: Seq<Seq<usize>>,
)
    requires
        partition_of(with_a, t, x.insert(a)),
        partition_of(without_a, t, x),
    ensures
        error_of(with_a) <= error_of(without_a),
{
    lemma_error_counts_repeated_rows(with_a, t, x.insert(a));
    lemma_error_counts_repeated_rows(without_a, t, x);
    assert forall|r: usize| #[trigger] repeated_rows(t, x.insert(a)).contains(r) implies repeated_rows(
        t,
        x,
    ).contains(r) by {
        let j = choose|j: usize| j < r && #[trigger] agree(t, r as int, j as int, x.insert(a));
        assert forall|b: usize| #[trigger] x.contains(b) implies t.cell(r as int, b as int) == t.cell(
            j as int,
            b as int,
        ) by {
            assert(x.insert(a).contains(b));
        }
        assert(agree(t, r as int, j as int, x));
    }
    lemma_len_subset(repeated_rows(t, x.insert(a)), repeated_rows(t, x));
}

/// Agreement on `x` is transitive.
proof fn lemma_agree_trans(t: &Table, i: int, j: int, k: int, x: Set<usize>)
    requires
        agree(t, i, j, x),
        agree(t, j, k, x),
    ensures
        agree(t, i, k, x),
        agree(t, k, i, x),
{
    assert forall|b: usize| #[trigger] x.contains(b) implies t.cell(i, b as int) == t.cell(k, b as int) by {
        assert(t.cell(i, b as int) == t.cell(j, b as int));
    }
}

/// `x \ {a} → a` holds exactly when dropping `a` from `x` leaves the error
/// of the stripped partition unchanged.
pub proof fn lemma_fd_iff_same_error(
    t: &Table,
    x: Set<usize>,
    a: usize,
    with_a: Seq<Seq<usize>>,
    without_a: Seq<Seq<usize>>,
)
    requires
        x.contains(a),
        partition_of(with_a, t, x),
        partition_of(without_a, t, x.remove(a)),
    ensures
        fd_holds(t, x.remove(a), a) <==> error_of(with_a) == error_of(without_a),
{
    let y = x.remove(a);
    assert(y.insert(a) =~= x);
    lemma_error_monotone(t, y, a, with_a, without_a);
    lemma_error_counts_repeated_rows(with_a, t, x);
    lemma_error_counts_repeated_rows(without_a, t, y);
    let rx = repeated_rows(t, x);
    let ry = repeated_rows(t, y);
    assert forall|r: usize| #[trigger] rx.contains(r) implies ry.contains(r) by {
        let j = choose|j: usize| j < r && #[trigger] agree(t, r as int, j as int, x);
        assert forall|b: usize| #[trigger] y.contains(b) implies t.cell(r as int, b as int) == t.cell(
            j as int,
            b as int,
        ) by {
            assert(x.contains(b));
        }
        assert(agree(t, r as int, j as int, y));
    }
    if fd_holds(t, y, a) {
        assert forall|r: usize| #[trigger] ry.contains(r) implies rx.contains(r) by {
            let j = choose|j: usize| j < r && #[trigger] agree(t, r as int, j as int, y);
            assert(t.cell(r as int, a as int) == t.cell(j as int, a as int));
            assert forall|b: usize| #[trigger] x.contains(b) implies t.cell(r as int, b as int) == t.cell(
                j as int,
                b as int,
            ) by {
                if b != a {
                    assert(y.contains(b));
                }
            }
            assert(agree(t, r as int, j as int, x));
        }
        assert(rx =~= ry);
    } else {
        let (i, j) = choose|i: usize, j: usize|
            i < t.height() && j < t.height() && #[trigger] agree(t, i as int, j as int, y) && t.cell(
                i as int,
                a as int,
            ) != t.cell(j as int, a as int);
        let h = t.height();
        let p0 = |s: usize| s < h && agree(t, s as int, i as int, y);
        assert(agree(t, i as int, i as int, y));
        assert(p0(i));
        let m0 = lemma_least(p0, i);
        let v0 = t.cell(m0 as int, a as int);
        let w1: usize = if t.cell(i as int, a as int) != v0 { i } else { j };
        lemma_agree_trans(t, m0 as int, i as int, j as int, y);
        assert(agree(t, w1 as int, m0 as int, y));
        let p1 = |s: usize| s < h && agree(t, s as int, m0 as int, y) && t.cell(s as int, a as int) != v0;
        assert(p1(w1));
        let m1 = lemma_least(p1, w1);
        lemma_agree_trans(t, m1 as int, m0 as int, i as int, y);
        assert(p0(m1));
        assert(m0 < m1);
        assert(agree(t, m1 as int, m0 as int, y));
        assert(ry.contains(m1));
        assert(!rx.contains(m1)) by {
            if rx.contains(m1) {
                let s = choose|s: usize| s < m1 && #[trigger] agree(t, m1 as int, s as int, x);
                assert(agree(t, m1 as int, s as int, y)) by {
                    assert forall|b: usize| #[trigger] y.contains(b) implies t.cell(m1 as int, b as int) == t.cell(
                        s as int,
                        b as int,
                    ) by {
                        assert(x.contains(b));
                    }
                }
                assert(x.contains(a));
                assert(t.cell(m1 as int, a as int) == t.cell(s as int, a as int));
                lemma_agree_trans(t, s as int, m1 as int, m0 as int, y);
                assert(p1(s));
            }
        }
        assert(rx.subset_of(ry.remove(m1)));
        lemma_len_subset(rx, ry.remove(m1));
    }
}

/// The error of the stripped partition of `x` is zero exactly when no two
/// rows agree on `x`.
pub proof fn lemma_zero_error_iff_key(cs: Seq<Seq<usize>>, t: &Table, x: Set<usize>)
    requires
        partition_of(cs, t, x),
    ensures
        error_of(cs) == 0 <==> distinguishes(t, x),
{
    lemma_error_counts_repeated_rows(cs, t, x);
    let rs = repeated_rows(t, x);
    if distinguishes(t, x) {
        assert forall|r: usize| !#[trigger] rs.contains(r) by {
            if rs.contains(r) {
                let j = choose|j: usize| j < r && #[trigger] agree(t, r as int, j as int, x);
            }
        }
        assert(rs =~= Set::empty());
    }
    if error_of(cs) == 0 {
        assert forall|i: usize, j: usize|
            i < t.height() && j < t.height() && i != j implies !#[trigger] agree(t, i as int, j as int, x) by {
            if agree(t, i as int, j as int, x) {
                if j < i {
                    assert(rs.contains(i));
                } else {
                    lemma_agree_trans(t, i as int, j as int, j as int, x);
                    assert(agree(t, j as int, i as int, x));
                    assert(rs.contains(j));
                }
            }
        }
    }
}

/// A set of attributes that no two rows agree on determines every attribute.
pub proof fn lemma_key_determines_all(t: &Table, x: Set<usize>, a: usize)
    requires
        distinguishes(t, x),
    ensures
        fd_holds(t, x, a),
{
}

/// The product relates the same rows whichever partition comes first.
pub proof fn lemma_product_commutes(
    a: Seq<Seq<usize>>,
    b: Seq<Seq<usize>>,
    ab: Seq<Seq<usize>>,
    ba: Seq<Seq<usize>>,
    n: nat,
)
    requires
        is_product(ab, a, b, n),
        is_product(ba, b, a, n),
    ensures
        forall|i: usize, j: usize| i < n && j < n ==> (related(ab, i, j) <==> related(ba, i, j)),
{
    assert forall|i: usize, j: usize| i < n && j < n implies (related(ab, i, j) <==> related(ba, i, j)) by {
        assert(related(ab, i, j) <==> (related(a, i, j) && related(b, i, j)));
        assert(related(ba, i, j) <==> (related(b, i, j) && related(a, i, j)));
    }
}

/// Refining by `b` then `c` relates the same rows as refining by the
/// product of `b` and `c`.
pub proof fn lemma_product_associates(
    a: Seq<Seq<usize>>,
    b: Seq<Seq<usize>>,
    c: Seq<Seq<usize>>,
    ab: Seq<Seq<usize>>,
    bc: Seq<Seq<usize>>,
    ab_c: Seq<Seq<usize>>,
    a_bc: Seq<Seq<usize>>,
    n: nat,
)
    requires
        is_product(ab, a, b, n),
        is_product(bc, b, c, n),
        is_product(ab_c, ab, c, n),
        is_product(a_bc, a, bc, n),
    ensures
        forall|i: usize, j: usize| i < n && j < n ==> (related(ab_c, i, j) <==> related(a_bc, i, j)),
{
    assert forall|i: usize, j: usize| i < n && j < n implies (related(ab_c, i, j) <==> related(a_bc, i, j)) by {
        assert(related(ab_c, i, j) <==> (related(ab, i, j) && related(c, i, j)));
        assert(related(ab, i, j) <==> (related(a, i, j) && related(b, i, j)));
        assert(related(a_bc, i, j) <==> (related(a, i, j) && related(bc, i, j)));
        assert(related(bc, i, j) <==> (related(b, i, j) && related(c, i, j)));
    }
}

/// Refining the one-class partition by `b` relates the rows that `b` relates.
pub proof fn lemma_product_identity(b: Seq<Seq<usize>>, r: Seq<Seq<usize>>, n: nat)
    requires
        is_product(r, identity_classes(n), b, n),
    ensures
        forall|i: usize, j: usize| i < n && j < n ==> (related(r, i, j) <==> related(b, i, j)),
{
    let id = identity_classes(n);
    assert forall|i: usize, j: usize| i < n && j < n implies (related(r, i, j) <==> related(b, i, j)) by {
        assert(related(r, i, j) <==> (related(id, i, j) && related(b, i, j)));
        if i != j {
            assert(id[0][i as int] == i && id[0][j as int] == j);
            assert(id[0].contains(i) && id[0].contains(j));
            assert(together(id, i, j));
        }
    }
}

} // verus!
