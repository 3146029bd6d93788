//! Stripped partitions: the classes of rows that agree on a set of attributes,
//! with the classes of one row left out.
use vstd::prelude::*;
use vstd::set_lib::lemma_set_disjoint_lens;
use crate::table::Table;

verus! {

/// Each class is a non-empty list of distinct rows below `n`, and no row is in
/// two classes.
pub open spec fn classes_wf(cs: Seq<Seq<usize>>, n: nat) -> bool {
    &&& forall|k: int| 0 <= k < cs.len() ==> (#[trigger] cs[k]).len() >= 1 && cs[k].no_duplicates()
    &&& forall|k: int, i: int| 0 <= k < cs.len() && 0 <= i < cs[k].len() ==> #[trigger] cs[k][i] < n
    &&& forall|k1: int, k2: int, r: usize|
        0 <= k1 < cs.len() && 0 <= k2 < cs.len() && #[trigger] cs[k1].contains(r)
            && #[trigger] cs[k2].contains(r) ==> k1 == k2
}

/// Every class has at least two rows.
pub open spec fn stripped(cs: Seq<Seq<usize>>) -> bool {
    forall|k: int| 0 <= k < cs.len() ==> (#[trigger] cs[k]).len() >= 2
}

/// The number of rows over all classes.
pub open spec fn total_size(cs: Seq<Seq<usize>>) -> nat
    decreases cs.len(),
{
    if cs.len() == 0 {
        0
    } else {
        total_size(cs.drop_last()) + cs.last().len()
    }
}

/// The error of a partition: the rows in its classes less the classes.
pub open spec fn error_of(cs: Seq<Seq<usize>>) -> int {
    total_size(cs) - cs.len()
}

/// Rows `i` and `j` stand in one class.
pub open spec fn together(cs: Seq<Seq<usize>>, i: usize, j: usize) -> bool {
    exists|k: int| 0 <= k < cs.len() && #[trigger] cs[k].contains(i) && cs[k].contains(j)
}

/// The equivalence that the partition induces on rows: equal, or in one class.
pub open spec fn related(cs: Seq<Seq<usize>>, i: usize, j: usize) -> bool {
    i == j || together(cs, i, j)
}

/// Rows `i` and `j` of `t` hold the same value at every attribute of `x`.
pub open spec fn agree(t: &Table, i: int, j: int, x: Set<usize>) -> bool {
    forall|a: usize| #[trigger] x.contains(a) ==> t.cell(i, a as int) == t.cell(j, a as int)
}

/// `cs`, over the rows of `t`, is the stripped partition of attribute set `x`.
pub open spec fn partition_of(cs: Seq<Seq<usize>>, t: &Table, x: Set<usize>) -> bool {
    &&& classes_wf(cs, t.height())
    &&& forall|i: usize, j: usize|
        i < t.height() && j < t.height() ==> (#[trigger] related(cs, i, j) <==> agree(
            t,
            i as int,
            j as int,
            x,
        ))
}

/// Row `q` stands in some class.
pub open spec fn in_some_class(cs: Seq<Seq<usize>>, q: usize) -> bool {
    exists|g: int| 0 <= g < cs.len() && #[trigger] cs[g].contains(q)
}

/// The one-class partition of all `n` rows.
pub open spec fn identity_classes(n: nat) -> Seq<Seq<usize>> {
    if n == 0 {
        Seq::empty()
    } else {
        seq![Seq::new(n, |i: int| i as usize)]
    }
}

/// The rows in the first `k` classes.
pub open spec fn covered(cs: Seq<Seq<usize>>, k: int) -> Set<usize> {
    Set::new(|r: usize| exists|k1: int| 0 <= k1 < k && #[trigger] cs[k1].contains(r))
}

/// The rows below `n`.
pub open spec fn rows_below(n: nat) -> Set<usize> {
    Set::new(|r: usize| r < n)
}

pub(crate) proof fn lemma_rows_below(n: nat)
    requires
        n <= usize::MAX + 1,
    ensures
        rows_below(n).finite(),
        rows_below(n).len() == n,
    decreases n,
{
    if n == 0 {
        assert(rows_below(n) =~= Set::empty());
    } else {
        lemma_rows_below((n - 1) as nat);
        assert(rows_below(n) =~= rows_below((n - 1) as nat).insert((n - 1) as usize));
    }
}

/// The first `k` classes hold `total_size` distinct rows.
proof fn lemma_covered_size(cs: Seq<Seq<usize>>, n: nat, k: int)
    requires
        classes_wf(cs, n),
        0 <= k <= cs.len(),
    ensures
        covered(cs, k).finite(),
        covered(cs, k).len() == total_size(cs.subrange(0, k)),
        covered(cs, k).subset_of(rows_below(n)),
    decreases k,
{
    if k == 0 {
        assert(covered(cs, k) =~= Set::empty());
    } else {
        lemma_covered_size(cs, n, k - 1);
        let last = cs[k - 1];
        last.unique_seq_to_set();
        assert(covered(cs, k) =~= covered(cs, k - 1) + last.to_set());
        assert(covered(cs, k - 1).disjoint(last.to_set()));
        lemma_set_disjoint_lens(covered(cs, k - 1), last.to_set());
        assert(cs.subrange(0, k).drop_last() =~= cs.subrange(0, k - 1));
    }
}

/// The classes of a well-formed partition hold at most `n` rows together.
pub proof fn lemma_total_size_bound(cs: Seq<Seq<usize>>, n: nat)
    requires
        classes_wf(cs, n),
        n <= usize::MAX + 1,
    ensures
        cs.len() <= total_size(cs) <= n,
{
    lemma_covered_size(cs, n, cs.len() as int);
    assert(cs.subrange(0, cs.len() as int) =~= cs);
    lemma_rows_below(n);
    vstd::set_lib::lemma_len_subset(covered(cs, cs.len() as int), rows_below(n));
    lemma_total_at_least_len(cs);
}

proof fn lemma_total_at_least_len(cs: Seq<Seq<usize>>)
    requires
        forall|k: int| 0 <= k < cs.len() ==> (#[trigger] cs[k]).len() >= 1,
    ensures
        cs.len() <= total_size(cs),
    decreases cs.len(),
{
    if cs.len() > 0 {
        lemma_total_at_least_len(cs.drop_last());
    }
}

/// A stripped partition of the rows `0..rows`.
pub struct StrippedPartition {
    classes: Vec<Vec<usize>>,
    rows: usize,
}

impl View for StrippedPartition {
    type V = Seq<Seq<usize>>;

    closed spec fn view(&self) -> Seq<Seq<usize>> {
        self.classes@.map_values(|c: Vec<usize>| c@)
    }
}

impl StrippedPartition {
    /// The number of rows the partition is over.
    pub closed spec fn height(&self) -> nat {
        self.rows as nat
    }

    #[verifier::type_invariant]
    closed spec fn inv(&self) -> bool {
        &&& classes_wf(self@, self.rows as nat)
        &&& self.rows <= i64::MAX
    }

    /// The partition of `num` rows that no attribute tells apart: one class
    /// holding every row (none at all when there is no row).
    pub fn new(num: usize) -> (r: StrippedPartition)
        requires
            num <= i64::MAX,
        ensures
            r.height() == num,
            classes_wf(r@, r.height()),
            r@ == identity_classes(num as nat),
    {
        let mut classes: Vec<Vec<usize>> = Vec::new();
        if num > 0 {
            let mut all: Vec<usize> = Vec::new();
            let mut i: usize = 0;
            while i < num
                invariant
                    i <= num,
                    all@ == Seq::new(i as nat, |k: int| k as usize),
                decreases num - i,
            {
                all.push(i);
                i = i + 1;
            }
            classes.push(all);
        }
        let r = StrippedPartition { classes, rows: num };
        proof {
            use_type_invariant(&r);
        }
        assert(r@ =~= seq![Seq::new(num as nat, |i: int| i as usize)] || num == 0);
        r
    }

    /// `Σ|class| − |classes|`.
    pub fn get_error(&self) -> (r: i64)
        ensures
            r == error_of(self@),
            r >= 0,
    {
        proof {
            use_type_invariant(self);
            lemma_total_size_bound(self@, self.height());
        }
        let mut element_cnt: usize = 0;
        let mut k: usize = 0;
        while k < self.classes.len()
            invariant
                k <= self.classes@.len(),
                element_cnt == total_size(self@.subrange(0, k as int)),
                total_size(self@) <= self.height() <= i64::MAX,
                self@.len() == self.classes@.len(),
                forall|j: int| 0 <= j < self@.len() ==> #[trigger] self@[j] == self.classes@[j]@,
            decreases self.classes@.len() - k,
        {
            proof {
                assert(self@.subrange(0, k + 1).drop_last() =~= self@.subrange(0, k as int));
                lemma_total_prefix_bound(self@, k + 1);
            }
            element_cnt = element_cnt + self.classes[k].len();
            k = k + 1;
        }
        proof {
            assert(self@.subrange(0, k as int) =~= self@);
        }
        element_cnt as i64 - self.classes.len() as i64
    }
}

/// A prefix of the classes holds no more rows than all of them.
proof fn lemma_total_prefix_bound(cs: Seq<Seq<usize>>, k: int)
    requires
        0 <= k <= cs.len(),
    ensures
        total_size(cs.subrange(0, k)) <= total_size(cs),
    decreases cs.len() - k,
{
    if k < cs.len() {
        lemma_total_prefix_bound(cs, k + 1);
        assert(cs.subrange(0, k + 1).drop_last() =~= cs.subrange(0, k));
    } else {
        assert(cs.subrange(0, k) =~= cs);
    }
}


/// The classes held in a list of vectors.
pub open spec fn class_views(v: Seq<Vec<usize>>) -> Seq<Seq<usize>> {
    v.map_values(|c: Vec<usize>| c@)
}

/// The classes of `groups` with at least two rows, in their order.
fn strip_singletons(groups: &Vec<Vec<usize>>, Ghost(n): Ghost<nat>) -> (r: Vec<Vec<usize>>)
    requires
        classes_wf(class_views(groups@), n),
    ensures
        classes_wf(class_views(r@), n),
        stripped(class_views(r@)),
        forall|i: usize, j: usize|
            i != j ==> (together(class_views(r@), i, j) <==> together(
                class_views(groups@),
                i,
                j,
            )),
{
    let ghost gs = class_views(groups@);
    let mut out: Vec<Vec<usize>> = Vec::new();
    let ghost mut idx: Seq<int> = Seq::empty();
    let mut k: usize = 0;
    while k < groups.len()
        invariant
            gs == class_views(groups@),
            classes_wf(gs, n),
            k <= groups@.len(),
            idx.len() == out@.len(),
            forall|m: int| 0 <= m < idx.len() ==> 0 <= #[trigger] idx[m] < k,
            forall|m1: int, m2: int| 0 <= m1 < m2 < idx.len() ==> idx[m1] < idx[m2],
            forall|m: int| 0 <= m < idx.len() ==> (#[trigger] out@[m])@ == gs[idx[m]],
            forall|m: int| 0 <= m < idx.len() ==> gs[#[trigger] idx[m]].len() >= 2,
            forall|g: int|
                0 <= g < k && (#[trigger] gs[g]).len() >= 2 ==> exists|m: int|
                    0 <= m < idx.len() && idx[m] == g,
        decreases groups@.len() - k,
    {
        if groups[k].len() >= 2 {
            let c = groups[k].clone();
            assert(c@ =~= gs[k as int]);
            let ghost old_idx = idx;
            proof {
                idx = idx.push(k as int);
            }
            out.push(c);
            assert forall|g: int| 0 <= g < k + 1 && (#[trigger] gs[g]).len() >= 2 implies exists|
                m: int,
            | 0 <= m < idx.len() && idx[m] == g by {
                if g == k {
                    assert(idx[idx.len() - 1] == g);
                } else {
                    let m = choose|m: int| 0 <= m < old_idx.len() && old_idx[m] == g;
                    assert(idx[m] == g);
                }
            }
        }
        k = k + 1;
    }
    let ghost os = class_views(out@);
    assert forall|m: int| 0 <= m < os.len() implies os[m] == gs[idx[m]] by {
        assert(os[m] == out@[m]@);
    }
    assert forall|m1: int, m2: int, r: usize|
        0 <= m1 < os.len() && 0 <= m2 < os.len() && #[trigger] os[m1].contains(r)
            && #[trigger] os[m2].contains(r) implies m1 == m2 by {
        if m1 < m2 {
            assert(idx[m1] < idx[m2]);
        } else if m2 < m1 {
            assert(idx[m2] < idx[m1]);
        }
    }
    assert forall|i: usize, j: usize|
        i != j && together(gs, i, j) implies together(os, i, j) by {
        let g = choose|g: int| 0 <= g < gs.len() && #[trigger] gs[g].contains(i) && gs[g].contains(j);
        let p = gs[g].index_of(i);
        let q = gs[g].index_of(j);
        assert(gs[g].len() >= 2);
        let m = choose|m: int| 0 <= m < idx.len() && idx[m] == g;
        assert(os[m].contains(i));
    }
    assert forall|i: usize, j: usize|
        i != j && together(os, i, j) implies together(gs, i, j) by {
        let m = choose|m: int| 0 <= m < os.len() && #[trigger] os[m].contains(i) && os[m].contains(j);
        assert(gs[idx[m]].contains(i));
    }
    out
}

/// The first class whose first row holds the same value as row `r` at `col`.
fn find_group(t: &Table, col: usize, groups: &Vec<Vec<usize>>, r: usize) -> (res: Option<usize>)
    requires
        t.wf(),
        col < t.width(),
        r < t.height(),
        forall|g: int|
            0 <= g < groups@.len() ==> (#[trigger] groups@[g])@.len() >= 1 && groups@[g]@[0]
                < t.height(),
    ensures
        res matches Some(g) ==> g < groups@.len() && t.cell(groups@[g as int]@[0] as int, col as int)
            == t.cell(r as int, col as int),
        res is None ==> forall|g: int|
            0 <= g < groups@.len() ==> t.cell((#[trigger] groups@[g])@[0] as int, col as int)
                != t.cell(r as int, col as int),
{
    let mut g: usize = 0;
    while g < groups.len()
        invariant
            t.wf(),
            col < t.width(),
            r < t.height(),
            g <= groups@.len(),
            forall|h: int|
                0 <= h < groups@.len() ==> (#[trigger] groups@[h])@.len() >= 1 && groups@[h]@[0]
                    < t.height(),
            forall|h: int|
                0 <= h < g ==> t.cell((#[trigger] groups@[h])@[0] as int, col as int) != t.cell(
                    r as int,
                    col as int,
                ),
        decreases groups@.len() - g,
    {
        let first = groups[g][0];
        assert(t.entries@[first as int].data@.len() == t.width());
        assert(t.entries@[r as int].data@.len() == t.width());
        if t.entries[first].data[col] == t.entries[r].data[col] {
            return Some(g);
        }
        g = g + 1;
    }
    None
}

impl StrippedPartition {
    /// The stripped partition of one attribute: rows that hold equal values at
    /// position `col` form a class.
    pub fn from_column(table: &Table, col: usize) -> (r: StrippedPartition)
        requires
            table.wf(),
            col < table.width(),
            table.height() <= i64::MAX,
        ensures
            r.height() == table.height(),
            stripped(r@),
            partition_of(r@, table, set![col]),
    {
        let n = table.entries.len();
        let mut groups: Vec<Vec<usize>> = Vec::new();
        let mut r: usize = 0;
        while r < n
            invariant
                table.wf(),
                col < table.width(),
                n == table.height(),
                r <= n,
                classes_wf(class_views(groups@), r as nat),
                forall|g: int, i: int|
                    0 <= g < groups@.len() && 0 <= i < class_views(groups@)[g].len() ==> table.cell(
                        #[trigger] class_views(groups@)[g][i] as int,
                        col as int,
                    ) == table.cell(class_views(groups@)[g][0] as int, col as int),
                forall|g1: int, g2: int|
                    0 <= g1 < groups@.len() && 0 <= g2 < groups@.len() && g1 != g2 ==> table.cell(
                        (#[trigger] class_views(groups@)[g1])[0] as int,
                        col as int,
                    ) != table.cell((#[trigger] class_views(groups@)[g2])[0] as int, col as int),
                forall|q: usize| q < r ==> #[trigger] in_some_class(class_views(groups@), q),
            decreases n - r,
        {
            let ghost old_cv = class_views(groups@);
            proof {
                assert forall|g: int| 0 <= g < groups@.len() implies (#[trigger] groups@[g])@.len()
                    >= 1 && groups@[g]@[0] < table.height() by {
                    assert(old_cv[g] == groups@[g]@);
                }
            }
            match find_group(table, col, &groups, r) {
                Some(g) => {
                    proof {
                        assert(old_cv[g as int] == groups@[g as int]@);
                    }
                    groups[g].push(r);
                    let ghost cv = class_views(groups@);
                    proof {
                        assert(cv =~= old_cv.update(g as int, old_cv[g as int].push(r)));
                        assert(!old_cv[g as int].contains(r));
                        assert forall|k: int, q: usize|
                            0 <= k < cv.len() && k != g && #[trigger] cv[k].contains(q) implies q < r by {
                            let i = cv[k].index_of(q);
                            assert(old_cv[k][i] < r);
                        }
                        assert forall|q: usize|
                            q < r + 1 implies #[trigger] in_some_class(cv, q) by {
                            if q == r {
                                assert(cv[g as int].last() == r);
                                assert(cv[g as int].contains(r));
                            } else {
                                assert(in_some_class(old_cv, q));
                                let h = choose|h: int| 0 <= h < old_cv.len() && #[trigger] old_cv[h].contains(q);
                                let i = old_cv[h].index_of(q);
                                if h == g {
                                    assert(cv[h][i] == q);
                                } else {
                                    assert(cv[h] == old_cv[h]);
                                }
                                assert(cv[h].contains(q));
                            }
                        }
                        assert forall|k1: int, k2: int, q: usize|
                            0 <= k1 < cv.len() && 0 <= k2 < cv.len() && #[trigger] cv[k1].contains(q)
                                && #[trigger] cv[k2].contains(q) implies k1 == k2 by {
                            if q == r {
                            } else if k1 != g && k2 != g {
                                assert(old_cv[k1].contains(q) && old_cv[k2].contains(q));
                            } else if k1 == g && k2 != g {
                                let i = cv[k1].index_of(q);
                                assert(old_cv[k1][i] == q);
                            } else if k2 == g && k1 != g {
                                let i = cv[k2].index_of(q);
                                assert(old_cv[k2][i] == q);
                            }
                        }
                        assert forall|k: int, i: int|
                            0 <= k < cv.len() && 0 <= i < cv[k].len() implies #[trigger] cv[k][i]
                                < r + 1 by {
                            if k == g && i == cv[k].len() - 1 {
                            } else {
                                assert(cv[k][i] == old_cv[k][i]);
                            }
                        }
                        assert forall|h: int, i: int|
                            0 <= h < groups@.len() && 0 <= i < cv[h].len() implies table.cell(
                                #[trigger] cv[h][i] as int,
                                col as int,
                            ) == table.cell(cv[h][0] as int, col as int) by {
                            if h == g && i == cv[h].len() - 1 {
                            } else {
                                assert(cv[h][i] == old_cv[h][i]);
                            }
                        }
                    }
                },
                None => {
                    let mut fresh: Vec<usize> = Vec::new();
                    fresh.push(r);
                    groups.push(fresh);
                    let ghost cv = class_views(groups@);
                    proof {
                        assert(cv =~= old_cv.push(seq![r]));
                        assert forall|k: int, q: usize|
                            0 <= k < old_cv.len() && #[trigger] cv[k].contains(q) implies q < r by {
                            let i = cv[k].index_of(q);
                            assert(old_cv[k][i] < r);
                        }
                        assert forall|q: usize|
                            q < r + 1 implies #[trigger] in_some_class(cv, q) by {
                            if q == r {
                                assert(cv[old_cv.len() as int][0] == r);
                                assert(cv[old_cv.len() as int].contains(r));
                            } else {
                                assert(in_some_class(old_cv, q));
                                let h = choose|h: int| 0 <= h < old_cv.len() && #[trigger] old_cv[h].contains(q);
                                assert(cv[h] == old_cv[h]);
                                assert(cv[h].contains(q));
                            }
                        }
                        assert forall|k1: int, k2: int, q: usize|
                            0 <= k1 < cv.len() && 0 <= k2 < cv.len() && #[trigger] cv[k1].contains(q)
                                && #[trigger] cv[k2].contains(q) implies k1 == k2 by {
                            if k1 < old_cv.len() && k2 < old_cv.len() {
                                assert(old_cv[k1].contains(q) && old_cv[k2].contains(q));
                            }
                        }
                        assert forall|g1: int, g2: int|
                            0 <= g1 < groups@.len() && 0 <= g2 < groups@.len() && g1 != g2 implies table.cell(
                                (#[trigger] cv[g1])[0] as int,
                                col as int,
                            ) != table.cell((#[trigger] cv[g2])[0] as int, col as int) by {
                            if g1 < old_cv.len() && g2 < old_cv.len() {
                                assert(cv[g1] == old_cv[g1] && cv[g2] == old_cv[g2]);
                            } else if g1 < old_cv.len() {
                                assert(cv[g1] == old_cv[g1] && old_cv[g1] == groups@[g1]@);
                            } else {
                                assert(cv[g2] == old_cv[g2] && old_cv[g2] == groups@[g2]@);
                            }
                        }
                    }
                },
            }
            r = r + 1;
        }
        let ghost gs = class_views(groups@);
        proof {
            assert forall|i: usize, j: usize|
                i < n && j < n implies (#[trigger] related(gs, i, j) <==> agree(
                    table,
                    i as int,
                    j as int,
                    set![col],
                )) by {
                if i != j {
                    if together(gs, i, j) {
                        let g = choose|g: int|
                            0 <= g < gs.len() && #[trigger] gs[g].contains(i) && gs[g].contains(j);
                        let p = gs[g].index_of(i);
                        let q = gs[g].index_of(j);
                        assert(table.cell(gs[g][p] as int, col as int) == table.cell(gs[g][0] as int, col as int));
                        assert(table.cell(gs[g][q] as int, col as int) == table.cell(gs[g][0] as int, col as int));
                        assert forall|a: usize| #[trigger] set![col].contains(a) implies table.cell(i as int, a as int)
                            == table.cell(j as int, a as int) by {}
                    }
                    if agree(table, i as int, j as int, set![col]) {
                        assert(set![col].contains(col));
                        assert(in_some_class(gs, i) && in_some_class(gs, j));
                        let g1 = choose|g: int| 0 <= g < groups@.len() && #[trigger] gs[g].contains(i);
                        let g2 = choose|g: int| 0 <= g < groups@.len() && #[trigger] gs[g].contains(j);
                        let p = gs[g1].index_of(i);
                        let q = gs[g2].index_of(j);
                        assert(table.cell(gs[g1][p] as int, col as int) == table.cell(gs[g1][0] as int, col as int));
                        assert(table.cell(gs[g2][q] as int, col as int) == table.cell(gs[g2][0] as int, col as int));
                        assert(g1 == g2);
                    }
                }
            }
        }
        let classes = strip_singletons(&groups, Ghost(n as nat));
        let ghost cs = class_views(classes@);
        let p = StrippedPartition { classes, rows: n };
        assert(p@ == cs);
        assert forall|i: usize, j: usize|
            i < n && j < n implies (#[trigger] related(cs, i, j) <==> related(gs, i, j)) by {}
        p
    }
}


/// `label` names for each row below `n` the class of `cs` that holds it, and
/// `cs.len()` for a row in none.
pub open spec fn labels_of(label: Seq<usize>, cs: Seq<Seq<usize>>, n: nat) -> bool {
    &&& label.len() == n
    &&& forall|r: int|
        0 <= r < n && #[trigger] label[r] < cs.len() ==> cs[label[r] as int].contains(r as usize)
    &&& forall|r: int| 0 <= r < n && #[trigger] label[r] >= cs.len() ==> label[r] == cs.len()
    &&& forall|k: int, i: int| 0 <= k < cs.len() && 0 <= i < cs[k].len() ==> label[#[trigger] cs[k][i] as int] == k
}

/// Rows of class `cb` met so far that carry label `ka`.
pub open spec fn bucket_ok(b: Seq<usize>, cb: Seq<usize>, upto: int, label: Seq<usize>, ka: int) -> bool {
    &&& b.no_duplicates()
    &&& forall|r: usize| #[trigger] b.contains(r) <==> (cb.subrange(0, upto).contains(r) && label[r as int] == ka)
}

impl StrippedPartition {
    /// For each row, the index of the class that holds it (the number of
    /// classes for a row in none).
    fn label_rows(&self) -> (label: Vec<usize>)
        ensures
            labels_of(label@, self@, self.height()),
    {
        proof {
            use_type_invariant(self);
        }
        let n = self.rows;
        let na = self.classes.len();
        let mut label: Vec<usize> = Vec::new();
        let mut r: usize = 0;
        while r < n
            invariant
                r <= n,
                label@ == Seq::new(r as nat, |q: int| na),
            decreases n - r,
        {
            label.push(na);
            r = r + 1;
        }
        let ghost cs = self@;
        let mut ka: usize = 0;
        while ka < na
            invariant
                cs == self@,
                classes_wf(cs, n as nat),
                na == cs.len(),
                ka <= na,
                label@.len() == n,
                forall|q: int|
                    0 <= q < n && #[trigger] label@[q] < na ==> label@[q] < ka && cs[label@[q] as int].contains(q as usize),
                forall|q: int| 0 <= q < n && #[trigger] label@[q] >= na ==> label@[q] == na,
                forall|k: int, i: int| 0 <= k < ka && 0 <= i < cs[k].len() ==> label@[#[trigger] cs[k][i] as int] == k,
            decreases na - ka,
        {
            let class = &self.classes[ka];
            assert(class@ == cs[ka as int]);
            let mut i: usize = 0;
            while i < class.len()
                invariant
                    cs == self@,
                    classes_wf(cs, n as nat),
                    na == cs.len(),
                    ka < na,
                    class@ == cs[ka as int],
                    i <= class@.len(),
                    label@.len() == n,
                    forall|q: int|
                        0 <= q < n && #[trigger] label@[q] < na ==> label@[q] <= ka && cs[label@[q] as int].contains(q as usize),
                    forall|q: int| 0 <= q < n && #[trigger] label@[q] >= na ==> label@[q] == na,
                    forall|k: int, j: int| 0 <= k < ka && 0 <= j < cs[k].len() ==> label@[#[trigger] cs[k][j] as int] == k,
                    forall|j: int| 0 <= j < i ==> label@[#[trigger] cs[ka as int][j] as int] == ka,
                decreases class@.len() - i,
            {
                let q = class[i];
                assert(cs[ka as int][i as int] == q);
                label.set(q, ka);
                proof {
                    assert forall|k: int, j: int| 0 <= k < ka && 0 <= j < cs[k].len() implies label@[#[trigger] cs[k][j] as int] == k by {
                        if cs[k][j] == q {
                            assert(cs[k].contains(q) && cs[ka as int].contains(q));
                        }
                    }
                    assert forall|j: int| 0 <= j < i + 1 implies label@[#[trigger] cs[ka as int][j] as int] == ka by {
                        if j < i {
                            assert(cs[ka as int][j] != cs[ka as int][i as int]);
                        }
                    }
                }
                i = i + 1;
            }
            ka = ka + 1;
        }
        label
    }
}


/// Below row `n`, `r` relates the rows that both `a` and `b` relate.
pub open spec fn is_product(r: Seq<Seq<usize>>, a: Seq<Seq<usize>>, b: Seq<Seq<usize>>, n: nat) -> bool {
    forall|i: usize, j: usize|
        i < n && j < n ==> (#[trigger] related(r, i, j) <==> (related(a, i, j) && related(b, i, j)))
}

/// Every class of `rs` lies in class `ta[m]` of `a` (by its labels) and in class
/// `tb[m]` of `b`.
pub open spec fn classes_tagged(
    rs: Seq<Seq<usize>>,
    label: Seq<usize>,
    b: Seq<Seq<usize>>,
    ta: Seq<int>,
    tb: Seq<int>,
) -> bool {
    &&& ta.len() == rs.len()
    &&& tb.len() == rs.len()
    &&& forall|m: int| 0 <= m < rs.len() ==> 0 <= #[trigger] tb[m] < b.len()
    &&& forall|m: int, x: usize|
        0 <= m < rs.len() && #[trigger] rs[m].contains(x) ==> label[x as int] == ta[m]
            && b[tb[m]].contains(x)
}

pub(crate) proof fn lemma_push_contains(s: Seq<usize>, v: usize, x: usize)
    ensures
        s.push(v).contains(x) <==> (s.contains(x) || x == v),
{
    if s.contains(x) {
        let p = s.index_of(x);
        assert(s.push(v)[p] == x);
    }
    if s.push(v).contains(x) && x != v {
        let p = s.push(v).index_of(x);
        assert(s[p] == x);
    }
    assert(s.push(v)[s.len() as int] == v);
}

/// Adding classes at the end keeps every pair that stood together.
proof fn lemma_together_grow(rs: Seq<Seq<usize>>, ext: Seq<Seq<usize>>)
    requires
        rs.len() <= ext.len(),
        forall|m: int| 0 <= m < rs.len() ==> ext[m] == rs[m],
    ensures
        forall|i: usize, j: usize| #[trigger] together(rs, i, j) ==> together(ext, i, j),
{
    assert forall|i: usize, j: usize| #[trigger] together(rs, i, j) implies together(ext, i, j) by {
        let k = choose|k: int| 0 <= k < rs.len() && #[trigger] rs[k].contains(i) && rs[k].contains(j);
        assert(ext[k].contains(i));
    }
}

impl StrippedPartition {
    /// The refinement of this partition by `other`: rows stand together in the
    /// result when they stand together in both.
    pub fn product(&self, other: &StrippedPartition) -> (r: StrippedPartition)
        requires
            self.height() == other.height(),
        ensures
            r.height() == self.height(),
            classes_wf(r@, r.height()),
            stripped(r@),
            is_product(r@, self@, other@, r.height()),
    {
        proof {
            use_type_invariant(self);
            use_type_invariant(other);
        }
        let ghost a = self@;
        let ghost b = other@;
        let n = self.rows;
        let label = self.label_rows();
        let ghost lab = label@;
        let na = self.classes.len();
        let nb = other.classes.len();
        let mut buckets: Vec<Vec<usize>> = Vec::new();
        let mut k: usize = 0;
        while k < na
            invariant
                k <= na,
                buckets@.len() == k,
                forall|h: int| 0 <= h < k ==> (#[trigger] buckets@[h])@.len() == 0,
            decreases na - k,
        {
            buckets.push(Vec::new());
            k = k + 1;
        }
        let mut res: Vec<Vec<usize>> = Vec::new();
        let ghost mut ta: Seq<int> = Seq::empty();
        let ghost mut tb: Seq<int> = Seq::empty();
        let mut kb: usize = 0;
        while kb < nb
            invariant
                a == self@,
                b == other@,
                lab == label@,
                n == self.height(),
                n == other.height(),
                na == a.len(),
                nb == b.len(),
                classes_wf(a, n as nat),
                classes_wf(b, n as nat),
                labels_of(lab, a, n as nat),
                kb <= nb,
                buckets@.len() == na,
                forall|h: int| 0 <= h < na ==> (#[trigger] buckets@[h])@.len() == 0,
                classes_wf(class_views(res@), n as nat),
                stripped(class_views(res@)),
                classes_tagged(class_views(res@), lab, b, ta, tb),
                forall|m: int| 0 <= m < ta.len() ==> 0 <= #[trigger] ta[m] < na,
                forall|m: int| 0 <= m < tb.len() ==> #[trigger] tb[m] < kb,
                forall|i: usize, j: usize|
                    i < n && j < n && i != j && lab[i as int] == lab[j as int] && lab[i as int] < na
                        && #[trigger] together(b.subrange(0, kb as int), i, j) ==> together(
                        class_views(res@),
                        i,
                        j,
                    ),
            decreases nb - kb,
        {
            let cb = &other.classes[kb];
            assert(cb@ == b[kb as int]);
            let mut touched: Vec<usize> = Vec::new();
            let mut i: usize = 0;
            while i < cb.len()
                invariant
                    lab == label@,
                    labels_of(lab, a, n as nat),
                    classes_wf(b, n as nat),
                    na == a.len(),
                    kb < b.len(),
                    cb@ == b[kb as int],
                    i <= cb@.len(),
                    buckets@.len() == na,
                    forall|h: int| 0 <= h < na ==> bucket_ok((#[trigger] buckets@[h])@, cb@, i as int, lab, h),
                    forall|h: int| 0 <= h < na && (#[trigger] buckets@[h])@.len() > 0 ==> touched@.contains(h as usize),
                    forall|t: int| 0 <= t < touched@.len() ==> #[trigger] touched@[t] < na,
                decreases cb@.len() - i,
            {
                let q = cb[i];
                assert(q < n);
                let ka = label[q];
                let ghost old_b = buckets@;
                let ghost old_t = touched@;
                assert(cb@.subrange(0, i + 1) =~= cb@.subrange(0, i as int).push(q));
                assert(!cb@.subrange(0, i as int).contains(q)) by {
                    if cb@.subrange(0, i as int).contains(q) {
                        let p = cb@.subrange(0, i as int).index_of(q);
                        assert(cb@[p] == cb@[i as int]);
                    }
                }
                if ka < na {
                    buckets[ka].push(q);
                    touched.push(ka);
                    proof {
                        assert forall|h: int| 0 <= h < na implies bucket_ok((#[trigger] buckets@[h])@, cb@, i + 1, lab, h) by {
                            if h == ka {
                                assert(buckets@[h]@ == old_b[h]@.push(q));
                                assert(!old_b[h]@.contains(q));
                                assert forall|x: usize| #[trigger] buckets@[h]@.contains(x) <==> (cb@.subrange(0, i + 1).contains(x) && lab[x as int] == h) by {
                                    lemma_push_contains(old_b[h]@, q, x);
                                    lemma_push_contains(cb@.subrange(0, i as int), q, x);
                                }
                            } else {
                                assert(buckets@[h] == old_b[h]);
                            }
                        }
                        assert forall|h: int| 0 <= h < na && (#[trigger] buckets@[h])@.len() > 0 implies touched@.contains(h as usize) by {
                            if h == ka {
                                assert(touched@.last() == ka);
                            } else {
                                assert(buckets@[h] == old_b[h]);
                                assert(old_t.contains(h as usize));
                                let p = old_t.index_of(h as usize);
                                assert(touched@[p] == h);
                            }
                        }
                    }
                } else {
                    assert forall|h: int| 0 <= h < na implies bucket_ok((#[trigger] buckets@[h])@, cb@, i + 1, lab, h) by {
                        assert forall|x: usize| #[trigger] buckets@[h]@.contains(x) <==> (cb@.subrange(0, i + 1).contains(x) && lab[x as int] == h) by {
                            lemma_push_contains(cb@.subrange(0, i as int), q, x);
                        }
                    }
                }
                i = i + 1;
            }
            assert(cb@.subrange(0, cb@.len() as int) =~= cb@);
            let ghost fill = buckets@.map_values(|c: Vec<usize>| c@);
            let ghost start = res@.len();
            let ghost mut home: Seq<int> = Seq::new(na as nat, |h: int| -1);
            let mut ti: usize = 0;
            while ti < touched.len()
                invariant
                    a == self@,
                    b == other@,
                    lab == label@,
                    labels_of(lab, a, n as nat),
                    classes_wf(a, n as nat),
                    classes_wf(b, n as nat),
                    n == self.height(),
                    na == a.len(),
                    kb < b.len(),
                    cb@ == b[kb as int],
                    ti <= touched@.len(),
                    fill.len() == na,
                    forall|t: int| 0 <= t < touched@.len() ==> #[trigger] touched@[t] < na,
                    forall|h: int| 0 <= h < na ==> bucket_ok(#[trigger] fill[h], cb@, cb@.len() as int, lab, h),
                    forall|h: int| 0 <= h < na && (#[trigger] fill[h]).len() > 0 ==> touched@.contains(h as usize),
                    buckets@.len() == na,
                    forall|h: int| 0 <= h < na ==> (#[trigger] buckets@[h])@.len() == 0 || buckets@[h]@ == fill[h],
                    forall|t: int| 0 <= t < ti ==> buckets@[#[trigger] touched@[t] as int]@.len() == 0,
                    start <= res@.len(),
                    classes_wf(class_views(res@), n as nat),
                    stripped(class_views(res@)),
                    classes_tagged(class_views(res@), lab, b, ta, tb),
                    forall|m: int| 0 <= m < ta.len() ==> 0 <= #[trigger] ta[m] < na,
                    forall|m: int| 0 <= m < start ==> #[trigger] tb[m] < kb,
                    forall|m: int| start <= m < tb.len() ==> #[trigger] tb[m] == kb,
                    forall|m: int| start <= m < ta.len() ==> buckets@[#[trigger] ta[m]]@.len() == 0,
                    home.len() == na,
                    forall|h: int|
                        0 <= h < na && (#[trigger] buckets@[h])@.len() == 0 && fill[h].len() >= 2 ==> 0 <= home[h]
                            < res@.len() && class_views(res@)[home[h]] == fill[h],
                    forall|i: usize, j: usize|
                        i < n && j < n && i != j && lab[i as int] == lab[j as int] && lab[i as int] < na
                            && #[trigger] together(b.subrange(0, kb as int), i, j) ==> together(
                            class_views(res@),
                            i,
                            j,
                        ),
                decreases touched@.len() - ti,
            {
                let t = touched[ti];
                let ghost old_res = class_views(res@);
                let ghost old_buckets = buckets@;
                if buckets[t].len() > 1 {
                    let c = buckets[t].clone();
                    assert(c@ =~= fill[t as int]);
                    res.push(c);
                    proof {
                        let rs = class_views(res@);
                        assert(rs =~= old_res.push(fill[t as int]));
                        home = home.update(t as int, old_res.len() as int);
                        ta = ta.push(t as int);
                        tb = tb.push(kb as int);
                        lemma_together_grow(old_res, rs);
                        assert forall|m: int, x: usize|
                            0 <= m < rs.len() && #[trigger] rs[m].contains(x) implies lab[x as int] == ta[m]
                                && b[tb[m]].contains(x) by {
                            if m == old_res.len() {
                                assert(fill[t as int].contains(x));
                            } else {
                                assert(old_res[m] == rs[m]);
                            }
                        }
                        assert forall|k1: int, k2: int, x: usize|
                            0 <= k1 < rs.len() && 0 <= k2 < rs.len() && #[trigger] rs[k1].contains(x)
                                && #[trigger] rs[k2].contains(x) implies k1 == k2 by {
                            if k1 != k2 {
                                if k1 < old_res.len() && k2 < old_res.len() {
                                    assert(old_res[k1].contains(x) && old_res[k2].contains(x));
                                } else {
                                    let m = if k1 < old_res.len() { k1 } else { k2 };
                                    assert(old_res[m].contains(x));
                                    assert(fill[t as int].contains(x));
                                    if m < start {
                                        assert(b[tb[m]].contains(x) && b[kb as int].contains(x));
                                    } else {
                                        assert(lab[x as int] == ta[m]);
                                    }
                                }
                            }
                        }
                        assert forall|k: int, j: int|
                            0 <= k < rs.len() && 0 <= j < rs[k].len() implies #[trigger] rs[k][j] < n by {
                            if k == old_res.len() {
                                assert(fill[t as int].contains(rs[k][j]));
                                assert(cb@.contains(rs[k][j]));
                            } else {
                                assert(rs[k][j] == old_res[k][j]);
                            }
                        }
                    }
                }
                buckets.set(t, Vec::new());
                proof {
                    assert forall|m: int| start <= m < ta.len() implies buckets@[#[trigger] ta[m]]@.len() == 0 by {
                        if ta[m] != t {
                            assert(buckets@[ta[m]] == old_buckets[ta[m]]);
                        }
                    }
                    assert forall|tt: int| 0 <= tt < ti + 1 implies buckets@[#[trigger] touched@[tt] as int]@.len() == 0 by {
                        if touched@[tt] != t {
                            assert(buckets@[touched@[tt] as int] == old_buckets[touched@[tt] as int]);
                        }
                    }
                    assert forall|h: int|
                        0 <= h < na && (#[trigger] buckets@[h])@.len() == 0 && fill[h].len() >= 2 implies 0 <= home[h]
                            < res@.len() && class_views(res@)[home[h]] == fill[h] by {
                        if h != t {
                            assert(buckets@[h] == old_buckets[h]);
                            assert(class_views(res@)[home[h]] == old_res[home[h]]);
                        }
                    }
                }
                ti = ti + 1;
            }
            proof {
                let rs = class_views(res@);
                assert forall|h: int| 0 <= h < na implies (#[trigger] buckets@[h])@.len() == 0 by {
                    if buckets@[h]@.len() > 0 {
                        assert(fill[h].len() > 0);
                        let p = touched@.index_of(h as usize);
                        assert(buckets@[touched@[p] as int]@.len() == 0);
                    }
                }
                assert forall|i: usize, j: usize|
                    i < n && j < n && i != j && lab[i as int] == lab[j as int] && lab[i as int] < na
                        && #[trigger] together(b.subrange(0, kb + 1), i, j) implies together(rs, i, j) by {
                    let k = choose|k: int| 0 <= k < kb + 1 && #[trigger] b.subrange(0, kb + 1)[k].contains(i) && b.subrange(0, kb + 1)[k].contains(j);
                    if k < kb {
                        assert(b.subrange(0, kb as int)[k] == b[k]);
                        assert(together(b.subrange(0, kb as int), i, j));
                    } else {
                        let h = lab[i as int] as int;
                        assert(fill[h].contains(i) && fill[h].contains(j));
                        let p = fill[h].index_of(i);
                        let q = fill[h].index_of(j);
                        assert(fill[h].len() >= 2);
                        assert(rs[home[h]].contains(i) && rs[home[h]].contains(j));
                    }
                }
            }
            kb = kb + 1;
        }
        let ghost rs = class_views(res@);
        let p = StrippedPartition { classes: res, rows: n };
        assert(p@ == rs);
        proof {
            use_type_invariant(&p);
        }
        assert(b.subrange(0, nb as int) =~= b);
        assert forall|i: usize, j: usize|
            i < n && j < n implies (#[trigger] related(rs, i, j) <==> (related(a, i, j) && related(b, i, j))) by {
            if i != j {
                if together(rs, i, j) {
                    let m = choose|m: int| 0 <= m < rs.len() && #[trigger] rs[m].contains(i) && rs[m].contains(j);
                    assert(a[lab[i as int] as int].contains(i) && a[lab[j as int] as int].contains(j));
                    assert(b[tb[m]].contains(i) && b[tb[m]].contains(j));
                }
                if together(a, i, j) && together(b, i, j) {
                    let k = choose|k: int| 0 <= k < a.len() && #[trigger] a[k].contains(i) && a[k].contains(j);
                    let p = a[k].index_of(i);
                    let q = a[k].index_of(j);
                    assert(lab[a[k][p] as int] == k && lab[a[k][q] as int] == k);
                }
            }
        }
        p
    }
}

/// The stripped partition of each attribute, by position.
pub struct Partitions(pub Vec<StrippedPartition>);

impl Partitions {
    pub fn new(table: &Table) -> (r: Partitions)
        requires
            table.wf(),
            table.height() <= i64::MAX,
        ensures
            r.0@.len() == table.width(),
            forall|a: int|
                0 <= a < table.width() ==> (#[trigger] r.0@[a]).height() == table.height()
                    && stripped(r.0@[a]@) && partition_of(r.0@[a]@, table, set![a as usize]),
    {
        let mut parts: Vec<StrippedPartition> = Vec::new();
        let w = table.attributes.len();
        let mut a: usize = 0;
        while a < w
            invariant
                table.wf(),
                table.height() <= i64::MAX,
                w == table.width(),
                a <= w,
                parts@.len() == a,
                forall|b: int|
                    0 <= b < a ==> (#[trigger] parts@[b]).height() == table.height() && stripped(parts@[b]@)
                        && partition_of(parts@[b]@, table, set![b as usize]),
            decreases w - a,
        {
            parts.push(StrippedPartition::from_column(table, a));
            a = a + 1;
        }
        Partitions(parts)
    }
}

impl StrippedPartition {
    /// The classes, each a list of rows.
    pub fn classes(&self) -> (r: &Vec<Vec<usize>>)
        ensures
            class_views(r@) == self@,
    {
        &self.classes
    }

    /// The number of rows the partition is over.
    pub fn rows(&self) -> (r: usize)
        ensures
            r == self.height(),
    {
        self.rows
    }
}

} // verus!
