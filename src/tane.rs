//! The level-wise search for minimal functional dependencies.
use vstd::prelude::*;
use crate::bits::{AttrSet, members};
use crate::dependency::{
    distinguishes, fd_holds, lemma_fd_iff_same_error, lemma_key_determines_all,
    lemma_zero_error_iff_key,
};
use crate::fd::FDs;
use crate::partition::{agree, error_of, identity_classes, partition_of, Partitions, StrippedPartition};
use crate::table::Table;

verus! {

/// The positions below `w`.
pub open spec fn positions_below(w: nat) -> Set<usize> {
    Set::new(|b: usize| b < w)
}

/// Every dependency in `res` holds in `t`: its determinant and dependant are
/// attributes of `t`, the dependant lies outside the determinant, and rows
/// that agree on the determinant agree on the dependant.
pub open spec fn sound_for(res: &FDs, t: &Table) -> bool {
    &&& res.schema() == t.attributes@
    &&& res.name() == t.table_name@
    &&& forall|k: int|
        0 <= k < res.found().len() ==> {
            let (x, a) = #[trigger] res.found()[k];
            &&& a < t.width()
            &&& x.subset_of(positions_below(t.width()))
            &&& !x.contains(a)
            &&& fd_holds(t, x, a)
        }
}

/// Every attribute that holds one value over all rows is reported with an
/// empty determinant.
pub open spec fn constants_found(res: &FDs, t: &Table) -> bool {
    forall|a: usize|
        a < t.width() && #[trigger] fd_holds(t, Set::<usize>::empty(), a) ==> res.found().contains(
            (Set::<usize>::empty(), a),
        )
}

/// Every attribute that tells all rows apart is reported as determining each
/// attribute that is not constant.
pub open spec fn single_keys_found(res: &FDs, t: &Table) -> bool {
    forall|k: usize, a: usize|
        k < t.width() && a < t.width() && k != a && distinguishes(t, set![k]) && !fd_holds(
            t,
            Set::<usize>::empty(),
            a,
        ) ==> #[trigger] res.found().contains((set![k], a))
}

/// A node of the lattice: an attribute set, its candidate dependants, and
/// its stripped partition while the node is valid.
struct Combination {
    attrs: AttrSet,
    rhs: AttrSet,
    partition: StrippedPartition,
    valid: bool,
}

impl Combination {
    spec fn ok(&self, t: &Table) -> bool {
        &&& members(self.attrs).subset_of(positions_below(t.width()))
        &&& members(self.rhs).subset_of(positions_below(t.width()))
        &&& self.valid ==> self.partition.height() == t.height() && partition_of(
            self.partition@,
            t,
            members(self.attrs),
        )
    }

    fn kill(&mut self)
        ensures
            !final(self).valid,
            final(self).attrs == old(self).attrs,
            final(self).rhs == old(self).rhs,
            final(self).partition == old(self).partition,
    {
        self.valid = false;
    }

    fn is_valid(&self) -> (r: bool)
        ensures
            r == self.valid,
    {
        self.valid
    }
}

spec fn level_ok(level: Seq<Combination>, t: &Table) -> bool {
    forall|k: int| 0 <= k < level.len() ==> (#[trigger] level[k]).ok(t)
}

/// Some node of `level` has attribute set `s`.
spec fn has_node(level: Seq<Combination>, s: Set<usize>) -> bool {
    exists|k: int| 0 <= k < level.len() && members(#[trigger] level[k].attrs) == s
}

/// Dropping any one attribute from a node of `upper` gives a node of `lower`.
spec fn parents_present(lower: Seq<Combination>, upper: Seq<Combination>) -> bool {
    forall|k: int, a: usize|
        0 <= k < upper.len() && #[trigger] members(upper[k].attrs).contains(a) ==> has_node(
            lower,
            members(upper[k].attrs).remove(a),
        )
}

/// Every node of `level` one attribute smaller than `x` holds `a` among its
/// candidates.
spec fn parents_hold(level: Seq<Combination>, x: Set<usize>, a: usize) -> bool {
    forall|p: int, c: usize|
        0 <= p < level.len() && #[trigger] x.contains(c) && members(#[trigger] level[p].attrs)
            == x.remove(c) ==> members(level[p].rhs).contains(a)
}

/// Every node of `level` with attribute set `s` is valid.
spec fn all_valid(level: Seq<Combination>, s: Set<usize>) -> bool {
    forall|p: int| 0 <= p < level.len() && members(#[trigger] level[p].attrs) == s ==> level[p].valid
}

/// No attribute of `x` is determined by the others.
spec fn no_inner_fd(t: &Table, x: Set<usize>) -> bool {
    forall|b: usize| #[trigger] x.contains(b) ==> !fd_holds(t, x.remove(b), b)
}

/// `found` keeps everything `before` held, in place.
spec fn extends(before: Seq<(Set<usize>, usize)>, found: Seq<(Set<usize>, usize)>) -> bool {
    &&& before.len() <= found.len()
    &&& forall|i: int| 0 <= i < before.len() ==> #[trigger] found[i] == before[i]
}

/// The node of `level` whose attribute set equals `key`.
fn find_node(level: &Vec<Combination>, key: &AttrSet) -> (r: Option<usize>)
    ensures
        r matches Some(k) ==> k < level@.len() && members(level@[k as int].attrs) == members(*key),
        r is None ==> !has_node(level@, members(*key)),
{
    let mut k: usize = 0;
    while k < level.len()
        invariant
            k <= level@.len(),
            forall|j: int| 0 <= j < k ==> members(#[trigger] level@[j].attrs) != members(*key),
        decreases level@.len() - k,
    {
        if level[k].attrs.same_members(key) {
            return Some(k);
        }
        k = k + 1;
    }
    None
}

/// The set of all positions below `w`.
fn all_positions(w: usize) -> (r: AttrSet)
    requires
        w < usize::MAX,
    ensures
        members(r) == positions_below(w as nat),
{
    let mut r = AttrSet::new();
    let mut b: usize = 0;
    while b < w
        invariant
            b <= w < usize::MAX,
            members(r) == positions_below(b as nat),
        decreases w - b,
    {
        r.insert(b);
        b = b + 1;
        assert(members(r) =~= positions_below(b as nat));
    }
    r
}

/// With each rank equal to its position, resolving positions through the
/// schema gives back the same set.
proof fn lemma_ranks_are_positions(t: &Table, v: Seq<usize>)
    requires
        t.wf(),
        forall|k: int| 0 <= k < v.len() ==> #[trigger] v[k] < t.width(),
    ensures
        v.to_set().map(|i: usize| t.attributes@[i as int].rank) == v.to_set(),
{
    let m = v.to_set().map(|i: usize| t.attributes@[i as int].rank);
    assert forall|r: usize| #[trigger] m.contains(r) <==> v.to_set().contains(r) by {
        if v.to_set().contains(r) {
            let k = v.index_of(r);
            assert(t.attributes@[r as int].rank == r);
        }
        if m.contains(r) {
            let i = choose|i: usize| v.to_set().contains(i) && t.attributes@[i as int].rank == r;
            let k = v.index_of(i);
            assert(t.attributes@[i as int].rank == i);
        }
    }
    assert(m =~= v.to_set());
}

/// Adds the dependency `x → a` to the sink, given that it holds.
fn emit(res: &mut FDs, t: &Table, x: &AttrSet, a: usize)
    requires
        t.wf(),
        sound_for(old(res), t),
        a < t.width(),
        members(*x).subset_of(positions_below(t.width())),
        !members(*x).contains(a),
        fd_holds(t, members(*x), a),
    ensures
        sound_for(final(res), t),
        final(res).found() == old(res).found().push((members(*x), a)),
{
    let v = x.to_vec();
    proof {
        assert forall|k: int| 0 <= k < v@.len() implies #[trigger] v@[k] < t.width() by {
            assert(v@.to_set().contains(v@[k]));
        }
        lemma_ranks_are_positions(t, v@);
        assert(t.attributes@[a as int].rank == a);
    }
    res.add_from_index(&v, a);
    proof {
        let f = res.found();
        assert forall|k: int| 0 <= k < f.len() implies {
            let (y, b) = #[trigger] f[k];
            &&& b < t.width()
            &&& y.subset_of(positions_below(t.width()))
            &&& !y.contains(b)
            &&& fd_holds(t, y, b)
        } by {
            if k < old(res).found().len() {
                assert(f[k] == old(res).found()[k]);
            }
        }
    }
}

/// The candidates a node with attribute set `x` starts from: those every
/// parent holds, none for the empty set.
spec fn closure_of(level0: Seq<Combination>, x: Set<usize>, w: nat) -> Set<usize> {
    Set::new(|a: usize| a < w && x != Set::<usize>::empty() && parents_hold(level0, x, a))
}

/// Validation emits `x \ {a} → a` from node `n`: `n` is valid, `a` is in its
/// attribute set and among its starting candidates, and the parent without
/// `a` is valid with the same partition error.
spec fn emits(level0: Seq<Combination>, n: Combination, w: nat, a: usize) -> bool {
    &&& n.valid
    &&& members(n.attrs).contains(a)
    &&& closure_of(level0, members(n.attrs), w).contains(a)
    &&& exists|p: int|
        0 <= p < level0.len() && members(#[trigger] level0[p].attrs) == members(n.attrs).remove(a) && level0[p].valid
            && error_of(n.partition@) == error_of(level0[p].partition@)
}

/// The dependants validation emits from `n`.
spec fn emitted(level0: Seq<Combination>, n: Combination, w: nat) -> Set<usize> {
    Set::new(|a: usize| emits(level0, n, w, a))
}

/// The candidates of `n` after validation: the starting candidates when
/// nothing was emitted, else those within the attribute set less the
/// dependants emitted.
spec fn rhs_after(level0: Seq<Combination>, n: Combination, w: nat, e: Set<usize>) -> Set<usize> {
    if e == Set::<usize>::empty() {
        closure_of(level0, members(n.attrs), w)
    } else {
        closure_of(level0, members(n.attrs), w).intersect(members(n.attrs)).difference(e)
    }
}

/// `f` is a dependency that validation emits from some node of `lv`.
spec fn from_validation(level0: Seq<Combination>, lv: Seq<Combination>, w: nat, f: (Set<usize>, usize)) -> bool {
    exists|j: int, a: usize| 0 <= j < lv.len() && #[trigger] emits(level0, lv[j], w, a) && f == (members(lv[j].attrs).remove(a), a)
}

/// Narrows each node's candidates to those of all its parents, then emits
/// `X \ {A} → A` for every candidate `A` of a valid node `X` whose partition
/// error equals that of its parent without `A`.
fn compute_dependencies(level0: &Vec<Combination>, level1: &mut Vec<Combination>, t: &Table, res: &mut FDs)
    requires
        t.wf(),
        t.width() < usize::MAX,
        level_ok(level0@, t),
        level_ok(old(level1)@, t),
        parents_present(level0@, old(level1)@),
        keys_unique(level0@),
        keys_unique(old(level1)@),
        sound_for(old(res), t),
    ensures
        final(res).found().subrange(old(res).found().len() as int, final(res).found().len() as int).no_duplicates(),
        level_ok(final(level1)@, t),
        final(level1)@.len() == old(level1)@.len(),
        forall|j: int|
            0 <= j < old(level1)@.len() ==> members(#[trigger] final(level1)@[j].rhs) == rhs_after(
                level0@,
                old(level1)@[j],
                t.width() as nat,
                emitted(level0@, old(level1)@[j], t.width() as nat),
            ),
        forall|e: int|
            old(res).found().len() <= e < final(res).found().len() ==> from_validation(
                level0@,
                old(level1)@,
                t.width() as nat,
                #[trigger] final(res).found()[e],
            ),
        forall|j: int, a: usize|
            0 <= j < old(level1)@.len() && #[trigger] emits(level0@, old(level1)@[j], t.width() as nat, a)
                ==> final(res).found().contains((members(old(level1)@[j].attrs).remove(a), a)),
        forall|j: int|
            0 <= j < old(level1)@.len() ==> members(#[trigger] final(level1)@[j].attrs) == members(
                old(level1)@[j].attrs,
            ),
        sound_for(final(res), t),
        extends(old(res).found(), final(res).found()),
        forall|j: int, a: usize|
            0 <= j < old(level1)@.len() && #[trigger] members(old(level1)@[j].attrs).contains(a)
                && old(level1)@[j].valid && parents_hold(level0@, members(old(level1)@[j].attrs), a)
                && all_valid(level0@, members(old(level1)@[j].attrs).remove(a)) && fd_holds(
                t,
                members(old(level1)@[j].attrs).remove(a),
                a,
            ) ==> final(res).found().contains((members(old(level1)@[j].attrs).remove(a), a)),
        forall|j: int| 0 <= j < old(level1)@.len() ==> (#[trigger] final(level1)@[j]).valid == old(level1)@[j].valid
            && final(level1)@[j].partition == old(level1)@[j].partition,
        forall|j: int, a: usize|
            0 <= j < old(level1)@.len() && a < t.width() && parents_hold(level0@, members(old(level1)@[j].attrs), a)
                && members(old(level1)@[j].attrs) != Set::<usize>::empty() && no_inner_fd(
                t,
                members(old(level1)@[j].attrs),
            ) ==> #[trigger] members(
                final(level1)@[j].rhs,
            ).contains(a),
{
    let w = t.attributes.len();
    let ghost orig = level1@;
    let ghost start = res.found();
    let ghost mut origins: Seq<(usize, usize)> = Seq::empty();
    let mut k: usize = 0;
    while k < level1.len()
        invariant
            t.wf(),
            w == t.width() < usize::MAX,
            level_ok(level0@, t),
            level_ok(level1@, t),
            level1@.len() == orig.len(),
            forall|j: int| 0 <= j < orig.len() ==> members(#[trigger] level1@[j].attrs) == members(orig[j].attrs),
            forall|j: int| k <= j < orig.len() ==> #[trigger] level1@[j].valid == orig[j].valid,
            forall|j: int| 0 <= j < orig.len() ==> (#[trigger] level1@[j]).valid == orig[j].valid
                && level1@[j].partition == orig[j].partition,
            forall|j: int, a: usize|
                0 <= j < k && a < w && parents_hold(level0@, members(orig[j].attrs), a) && members(orig[j].attrs)
                    != Set::<usize>::empty() && no_inner_fd(t, members(orig[j].attrs)) ==> #[trigger] members(
                    level1@[j].rhs,
                ).contains(a),
            parents_present(level0@, orig),
            keys_unique(level0@),
            forall|j: int| 0 <= j < k ==> members(#[trigger] level1@[j].rhs) == rhs_after(level0@, orig[j], w as nat, emitted(level0@, orig[j], w as nat)),
            forall|e: int| start.len() <= e < res.found().len() ==> from_validation(level0@, orig, w as nat, #[trigger] res.found()[e]),
            forall|j: int, a: usize| 0 <= j < k && #[trigger] emits(level0@, orig[j], w as nat, a) ==> res.found().contains((members(orig[j].attrs).remove(a), a)),
            sound_for(res, t),
            extends(start, res.found()),
            k <= level1@.len(),
            keys_unique(orig),
            res.found().len() == start.len() + origins.len(),
            forall|m: int| 0 <= m < origins.len() ==> (#[trigger] origins[m]).0 < k && members(orig[origins[m].0 as int].attrs).contains(origins[m].1)
                && res.found()[start.len() + m] == (members(orig[origins[m].0 as int].attrs).remove(origins[m].1), origins[m].1),
            forall|m1: int, m2: int| 0 <= m1 < m2 < origins.len() ==> lex_lt(#[trigger] origins[m1], #[trigger] origins[m2]),
            forall|j: int, a: usize|
                0 <= j < k && #[trigger] members(orig[j].attrs).contains(a) && orig[j].valid
                    && parents_hold(level0@, members(orig[j].attrs), a) && all_valid(
                    level0@,
                    members(orig[j].attrs).remove(a),
                ) && fd_holds(t, members(orig[j].attrs).remove(a), a) ==> res.found().contains(
                    (members(orig[j].attrs).remove(a), a),
                ),
        decreases level1@.len() - k,
    {
        let ghost f_iter = res.found();
        let ghost lv_iter = level1@;
        let x = level1[k].attrs.duplicate();
        let xs = x.to_vec();
        assert(members(x) == members(orig[k as int].attrs));
        let mut c = AttrSet::new();
        if xs.len() > 0 {
            c = all_positions(w);
            let mut i: usize = 0;
            while i < xs.len()
                invariant
                    members(c).subset_of(positions_below(w as nat)),
                    i <= xs@.len(),
                    level_ok(level0@, t),
                    parents_present(level0@, orig),
                    k < orig.len(),
                    members(x) == members(orig[k as int].attrs),
                    xs@.to_set() == members(x),
                    keys_unique(level0@),
                    forall|a: usize|
                        #[trigger] members(c).contains(a) <==> (a < w && (forall|i2: int, p: int|
                            0 <= i2 < i && 0 <= p < level0@.len() && members(#[trigger] level0@[p].attrs)
                                == members(x).remove(#[trigger] xs@[i2]) ==> members(level0@[p].rhs).contains(a))),
                decreases xs@.len() - i,
            {
                let mut key = x.duplicate();
                key.remove(xs[i]);
                assert(xs@.to_set().contains(xs@[i as int]));
                assert(has_node(level0@, members(orig[k as int].attrs).remove(xs@[i as int])));
                let ghost c0 = members(c);
                match find_node(level0, &key) {
                    Some(p) => {
                        c.intersect_with(&level0[p].rhs);
                        assert forall|a: usize|
                            #[trigger] members(c).contains(a) <==> (a < w && (forall|i2: int, p2: int|
                                0 <= i2 < i + 1 && 0 <= p2 < level0@.len() && members(#[trigger] level0@[p2].attrs)
                                    == members(x).remove(#[trigger] xs@[i2]) ==> members(level0@[p2].rhs).contains(a))) by {
                            if members(c).contains(a) {
                                assert forall|i2: int, p2: int|
                                    0 <= i2 < i + 1 && 0 <= p2 < level0@.len() && members(#[trigger] level0@[p2].attrs)
                                        == members(x).remove(#[trigger] xs@[i2]) implies members(level0@[p2].rhs).contains(a) by {
                                    if i2 == i && p2 != p {
                                        assert(members(level0@[p2].attrs) != members(level0@[p as int].attrs));
                                    }
                                }
                            }
                        }
                    },
                    None => assert(false),
                }
                i = i + 1;
            }
        }
        level1[k].rhs = c;
        assert(level1@[k as int].ok(t));
        let ghost cands = members(c);
        proof {
            assert forall|a: usize|
                a < w && parents_hold(level0@, members(x), a) && members(x) != Set::<usize>::empty() implies cands.contains(a) by {
                assert forall|i2: int, p: int|
                    0 <= i2 < xs@.len() && 0 <= p < level0@.len() && members(#[trigger] level0@[p].attrs)
                        == members(x).remove(#[trigger] xs@[i2]) implies members(level0@[p].rhs).contains(a) by {
                    assert(xs@.to_set().contains(xs@[i2]));
                }
                assert(xs@.len() > 0) by {
                    if xs@.len() == 0 {
                        assert(xs@.to_set() =~= Set::<usize>::empty());
                    }
                }
            }
            assert forall|a: usize| #[trigger] cands.contains(a) implies closure_of(level0@, members(x), w as nat).contains(a) by {
                if xs@.len() == 0 {
                    assert(members(c).contains(a));
                }
                assert(xs@.len() > 0);
                assert(members(x).contains(xs@[0]));
                assert forall|p: int, c2: usize|
                    0 <= p < level0@.len() && #[trigger] members(x).contains(c2) && members(#[trigger] level0@[p].attrs)
                        == members(x).remove(c2) implies members(level0@[p].rhs).contains(a) by {
                    assert(xs@.to_set().contains(c2));
                    let i2 = xs@.index_of(c2);
                    assert(members(level0@[p].attrs) == members(x).remove(xs@[i2]));
                }
            }
            assert(cands =~= closure_of(level0@, members(x), w as nat));
        }
        let node_valid = level1[k].is_valid();
        assert(node_valid == orig[k as int].valid);
        if node_valid {
            let err_x = level1[k].partition.get_error();
            let mut inter = x.duplicate();
            inter.intersect_with(&level1[k].rhs);
            let ghost before = res.found();
            assert(Set::new(|a: usize| emits(level0@, orig[k as int], w as nat, a) && xs@.subrange(0, 0).contains(a))
                =~= Set::<usize>::empty());
            let mut i: usize = 0;
            while i < xs.len()
                invariant
                    t.wf(),
                    w == t.width() < usize::MAX,
                    level_ok(level0@, t),
                    level_ok(level1@, t),
                    level1@.len() == orig.len(),
                    forall|j: int| 0 <= j < orig.len() ==> members(#[trigger] level1@[j].attrs) == members(orig[j].attrs),
                    forall|j: int| k < j < orig.len() ==> #[trigger] level1@[j].valid == orig[j].valid,
                    forall|j: int| 0 <= j < orig.len() ==> (#[trigger] level1@[j]).valid == orig[j].valid
                        && level1@[j].partition == orig[j].partition,
                    forall|j: int| 0 <= j < orig.len() && j != k ==> #[trigger] level1@[j] == lv_iter[j],
                    no_inner_fd(t, members(x)) ==> members(level1@[k as int].rhs) == cands,
                    keys_unique(level0@),
                    cands == closure_of(level0@, members(x), w as nat),
                    orig[k as int].valid,
                    members(level1@[k as int].rhs) == rhs_after(level0@, orig[k as int], w as nat,
                        Set::new(|a: usize| emits(level0@, orig[k as int], w as nat, a) && xs@.subrange(0, i as int).contains(a))),
                    forall|e: int| start.len() <= e < res.found().len() ==> from_validation(level0@, orig, w as nat, #[trigger] res.found()[e]),
                    forall|i2: int| 0 <= i2 < i && #[trigger] emits(level0@, orig[k as int], w as nat, xs@[i2])
                        ==> res.found().contains((members(x).remove(xs@[i2]), xs@[i2])),
                    parents_present(level0@, orig),
                    sound_for(res, t),
                    extends(before, res.found()),
                    extends(start, before),
                    keys_unique(orig),
                    forall|i1: int, i2: int| 0 <= i1 < i2 < xs@.len() ==> xs@[i1] < xs@[i2],
                    res.found().len() == start.len() + origins.len(),
                    forall|m: int| 0 <= m < origins.len() ==> ((#[trigger] origins[m]).0 < k || (origins[m].0 == k
                        && exists|i2: int| 0 <= i2 < i && origins[m].1 == #[trigger] xs@[i2]))
                        && members(orig[origins[m].0 as int].attrs).contains(origins[m].1)
                        && res.found()[start.len() + m] == (members(orig[origins[m].0 as int].attrs).remove(origins[m].1), origins[m].1),
                    forall|m1: int, m2: int| 0 <= m1 < m2 < origins.len() ==> lex_lt(#[trigger] origins[m1], #[trigger] origins[m2]),
                    k < level1@.len(),
                    level1@[k as int].valid,
                    members(x) == members(orig[k as int].attrs),
                    xs@.to_set() == members(x),
                    members(inter) == members(x).intersect(cands),
                    err_x == error_of(level1@[k as int].partition@),
                    partition_of(level1@[k as int].partition@, t, members(x)),
                    i <= xs@.len(),
                    forall|i2: int|
                        0 <= i2 < i && cands.contains(#[trigger] xs@[i2]) && all_valid(
                            level0@,
                            members(x).remove(xs@[i2]),
                        ) && fd_holds(t, members(x).remove(xs@[i2]), xs@[i2]) ==> res.found().contains(
                            (members(x).remove(xs@[i2]), xs@[i2]),
                        ),
                decreases xs@.len() - i,
            {
                let a = xs[i];
                assert(xs@.to_set().contains(xs@[i as int]));
                let ghost found_before = res.found();
                let ghost rhs0 = members(level1@[k as int].rhs);
                let ghost lv1 = level1@;
                let ghost mut did = false;
                if inter.contains(a) {
                    let mut key = x.duplicate();
                    key.remove(a);
                    assert(has_node(level0@, members(orig[k as int].attrs).remove(a)));
                    match find_node(level0, &key) {
                        Some(p) => {
                            assert(level0@[p as int].ok(t));
                            if level0[p].is_valid() && err_x == level0[p].partition.get_error() {
                                proof {
                                    lemma_fd_iff_same_error(
                                        t,
                                        members(x),
                                        a,
                                        level1@[k as int].partition@,
                                        level0@[p as int].partition@,
                                    );
                                }
                                assert(emits(level0@, orig[k as int], w as nat, a));
                                emit(res, t, &key, a);
                                level1[k].rhs.remove(a);
                                level1[k].rhs.intersect_with(&x);
                                assert(level1@[k as int].ok(t));
                                assert(res.found()[found_before.len() as int] == (members(x).remove(a), a));
                                proof {
                                    let o0 = origins;
                                    origins = origins.push((k, a));
                                    assert(members(x).contains(a));
                                    assert forall|m: int| 0 <= m < origins.len() implies ((#[trigger] origins[m]).0 < k || (origins[m].0 == k
                                        && exists|i2: int| 0 <= i2 < i + 1 && origins[m].1 == #[trigger] xs@[i2]))
                                        && members(orig[origins[m].0 as int].attrs).contains(origins[m].1)
                                        && res.found()[start.len() + m] == (members(orig[origins[m].0 as int].attrs).remove(origins[m].1), origins[m].1) by {
                                        if m < o0.len() {
                                            assert(origins[m] == o0[m]);
                                            assert(res.found()[start.len() + m] == found_before[start.len() + m]);
                                            if origins[m].0 == k {
                                                let i2 = choose|i2: int| 0 <= i2 < i && o0[m].1 == #[trigger] xs@[i2];
                                                assert(origins[m].1 == xs@[i2]);
                                            }
                                        } else {
                                            assert(origins[m].1 == xs@[i as int]);
                                        }
                                    }
                                    assert forall|m1: int, m2: int| 0 <= m1 < m2 < origins.len() implies lex_lt(#[trigger] origins[m1], #[trigger] origins[m2]) by {
                                        if m2 == o0.len() {
                                            assert(origins[m1] == o0[m1]);
                                            if o0[m1].0 == k {
                                                let i2 = choose|i2: int| 0 <= i2 < i && o0[m1].1 == #[trigger] xs@[i2];
                                                assert(xs@[i2] < xs@[i as int]);
                                            }
                                        } else {
                                            assert(origins[m1] == o0[m1] && origins[m2] == o0[m2]);
                                        }
                                    }
                                    did = true;
                                    assert(from_validation(level0@, orig, w as nat, res.found()[found_before.len() as int]));
                                }
                            } else {
                                proof {
                                    assert forall|p2: int| 0 <= p2 < level0@.len() && members(#[trigger] level0@[p2].attrs) == members(orig[k as int].attrs).remove(a)
                                        implies !(level0@[p2].valid && error_of(orig[k as int].partition@) == error_of(level0@[p2].partition@)) by {
                                        if p2 != p {
                                            assert(members(level0@[p2].attrs) != members(level0@[p as int].attrs));
                                        }
                                    }
                                    assert(!emits(level0@, orig[k as int], w as nat, a));
                                    if all_valid(level0@, members(x).remove(a)) && fd_holds(t, members(x).remove(a), a) {
                                        lemma_fd_iff_same_error(
                                            t,
                                            members(x),
                                            a,
                                            level1@[k as int].partition@,
                                            level0@[p as int].partition@,
                                        );
                                    }
                                }
                            }
                        },
                        None => assert(false),
                    }
                } else {
                    assert(!members(inter).contains(a));
                    assert(!emits(level0@, orig[k as int], w as nat, a));
                }
                proof {
                    if !did {
                        assert forall|m: int| 0 <= m < origins.len() implies ((#[trigger] origins[m]).0 < k || (origins[m].0 == k
                            && exists|i2: int| 0 <= i2 < i + 1 && origins[m].1 == #[trigger] xs@[i2])) by {
                            if origins[m].0 == k {
                                let i2 = choose|i2: int| 0 <= i2 < i && origins[m].1 == #[trigger] xs@[i2];
                                assert(origins[m].1 == xs@[i2]);
                            }
                        }
                    }
                    let e0 = Set::new(|a2: usize| emits(level0@, orig[k as int], w as nat, a2) && xs@.subrange(0, i as int).contains(a2));
                    let e1 = Set::new(|a2: usize| emits(level0@, orig[k as int], w as nat, a2) && xs@.subrange(0, i + 1).contains(a2));
                    assert(xs@.subrange(0, i + 1) =~= xs@.subrange(0, i as int).push(a));
                    assert forall|a2: usize| xs@.subrange(0, i + 1).contains(a2) <==> (xs@.subrange(0, i as int).contains(a2) || a2 == a) by {
                        crate::partition::lemma_push_contains(xs@.subrange(0, i as int), a, a2);
                    }
                    let cl = closure_of(level0@, members(orig[k as int].attrs), w as nat);
                    if did {
                        assert(e1 =~= e0.insert(a));
                        assert(members(level1@[k as int].rhs) =~= rhs0.remove(a).intersect(members(x)));
                        if e0 == Set::<usize>::empty() {
                            assert(members(level1@[k as int].rhs) =~= cl.intersect(members(orig[k as int].attrs)).difference(e1));
                        } else {
                            assert(members(level1@[k as int].rhs) =~= cl.intersect(members(orig[k as int].attrs)).difference(e1));
                        }
                        assert(e1 != Set::<usize>::empty()) by {
                            assert(e1.contains(a));
                        }
                    } else {
                        assert(e1 =~= e0);
                        assert(res.found() == found_before);
                        assert(level1@ == lv1);
                    }
                    assert forall|i2: int| 0 <= i2 < i + 1 && #[trigger] emits(level0@, orig[k as int], w as nat, xs@[i2])
                        implies res.found().contains((members(x).remove(xs@[i2]), xs@[i2])) by {
                        if i2 < i {
                            let q = choose|q: int| 0 <= q < found_before.len() && found_before[q] == (members(x).remove(xs@[i2]), xs@[i2]);
                            assert(res.found()[q] == found_before[q]);
                        } else {
                            assert(did);
                            assert(res.found()[found_before.len() as int] == (members(x).remove(a), a));
                        }
                    }
                    assert forall|e: int| start.len() <= e < res.found().len() implies from_validation(level0@, orig, w as nat, #[trigger] res.found()[e]) by {
                        if e < found_before.len() {
                            assert(res.found()[e] == found_before[e]);
                        }
                    }
                }
                proof {
                    assert forall|i2: int|
                        0 <= i2 < i + 1 && cands.contains(#[trigger] xs@[i2]) && all_valid(
                            level0@,
                            members(x).remove(xs@[i2]),
                        ) && fd_holds(t, members(x).remove(xs@[i2]), xs@[i2]) implies res.found().contains(
                            (members(x).remove(xs@[i2]), xs@[i2]),
                        ) by {
                        if i2 < i {
                            let q = choose|q: int| 0 <= q < found_before.len() && found_before[q] == (members(x).remove(xs@[i2]), xs@[i2]);
                            assert(res.found()[q] == found_before[q]);
                        } else {
                            assert(members(inter).contains(a));
                            if res.found().len() == found_before.len() {
                                assert(false);
                            }
                        }
                    }
                }
                i = i + 1;
            }
            proof {
                assert forall|a: usize|
                    #[trigger] members(orig[k as int].attrs).contains(a) && orig[k as int].valid
                        && parents_hold(level0@, members(orig[k as int].attrs), a) && all_valid(
                        level0@,
                        members(orig[k as int].attrs).remove(a),
                    ) && fd_holds(t, members(orig[k as int].attrs).remove(a), a) implies res.found().contains(
                        (members(orig[k as int].attrs).remove(a), a),
                    ) by {
                    assert(xs@.to_set().contains(a));
                    let i2 = xs@.index_of(a);
                    assert(cands.contains(xs@[i2]));
                }
            }
        }
        assert(extends(f_iter, res.found()));
        proof {
            assert forall|m: int| 0 <= m < origins.len() implies (#[trigger] origins[m]).0 < k + 1 by {}
            if node_valid {
                assert(xs@.subrange(0, xs@.len() as int) =~= xs@);
                assert forall|a: usize| emits(level0@, orig[k as int], w as nat, a) implies xs@.contains(a) by {
                    assert(xs@.to_set().contains(a));
                }
                assert(Set::new(|a: usize| emits(level0@, orig[k as int], w as nat, a) && xs@.subrange(0, xs@.len() as int).contains(a))
                    =~= emitted(level0@, orig[k as int], w as nat));
            } else {
                assert(emitted(level0@, orig[k as int], w as nat) =~= Set::<usize>::empty());
            }
            assert forall|j: int| 0 <= j < k + 1 implies members(#[trigger] level1@[j].rhs) == rhs_after(level0@, orig[j], w as nat, emitted(level0@, orig[j], w as nat)) by {
                if j < k {
                    assert(level1@[j] == lv_iter[j]);
                }
            }
            assert forall|j: int, a: usize|
                0 <= j < k + 1 && a < w && parents_hold(level0@, members(orig[j].attrs), a) && members(orig[j].attrs)
                    != Set::<usize>::empty() && no_inner_fd(t, members(orig[j].attrs)) implies #[trigger] members(
                    level1@[j].rhs,
                ).contains(a) by {
                if j < k {
                    assert(level1@[j] == lv_iter[j]);
                } else {
                    assert(members(level1@[j].rhs) == cands);
                }
            }
            assert forall|j: int, a: usize|
                0 <= j < k + 1 && #[trigger] members(orig[j].attrs).contains(a) && orig[j].valid
                    && parents_hold(level0@, members(orig[j].attrs), a) && all_valid(
                    level0@,
                    members(orig[j].attrs).remove(a),
                ) && fd_holds(t, members(orig[j].attrs).remove(a), a) implies res.found().contains(
                    (members(orig[j].attrs).remove(a), a),
                ) by {
                if j < k {
                    let q = choose|q: int| 0 <= q < f_iter.len() && f_iter[q] == (members(orig[j].attrs).remove(a), a);
                    assert(res.found()[q] == f_iter[q]);
                }
            }
        }
        k = k + 1;
    }
    proof {
        let added = res.found().subrange(start.len() as int, res.found().len() as int);
        assert forall|e1: int, e2: int| 0 <= e1 < added.len() && 0 <= e2 < added.len() && e1 != e2 implies added[e1] != added[e2] by {
            assert(added[e1] == res.found()[start.len() + e1]);
            assert(added[e2] == res.found()[start.len() + e2]);
            let (j1, a1) = origins[e1];
            let (j2, a2) = origins[e2];
            if e1 < e2 {
                assert(lex_lt(origins[e1], origins[e2]));
            } else {
                assert(lex_lt(origins[e2], origins[e1]));
            }
            if a1 == a2 && j1 != j2 && added[e1] == added[e2] {
                let x1 = members(orig[j1 as int].attrs);
                let x2 = members(orig[j2 as int].attrs);
                assert(x1 =~= x1.remove(a1).insert(a1));
                assert(x2 =~= x2.remove(a2).insert(a2));
                assert(x1 != x2);
            }
        }
        assert(added.no_duplicates());
    }
}

/// Some node of `level` has attribute set `s`, and every such node holds `a`
/// among its candidates.
spec fn sibling_holds(level: Seq<Combination>, s: Set<usize>, a: usize) -> bool {
    &&& has_node(level, s)
    &&& forall|p: int|
        0 <= p < level.len() && members(#[trigger] level[p].attrs) == s ==> members(level[p].rhs).contains(a)
}

/// Every sibling `(x ∪ {a}) \ {b}`, `b ∈ x`, holds `a` among its candidates.
spec fn siblings_hold(level: Seq<Combination>, x: Set<usize>, a: usize) -> bool {
    forall|b: usize| #[trigger] x.contains(b) ==> sibling_holds(level, x.insert(a).remove(b), a)
}

/// Node `j` of `level` is a valid key, `a` is one of its candidates outside
/// it, and every sibling through `a` holds `a`.
spec fn key_prunes(level: Seq<Combination>, j: int, a: usize) -> bool {
    &&& level[j].valid
    &&& error_of(level[j].partition@) == 0
    &&& members(level[j].rhs).contains(a)
    &&& !members(level[j].attrs).contains(a)
    &&& siblings_hold(level, members(level[j].attrs), a)
}

proof fn lemma_extends_contains(before: Seq<(Set<usize>, usize)>, after: Seq<(Set<usize>, usize)>, x: (Set<usize>, usize))
    requires
        extends(before, after),
        before.contains(x),
    ensures
        after.contains(x),
{
    let q = choose|q: int| 0 <= q < before.len() && before[q] == x;
    assert(after[q] == before[q]);
}

proof fn lemma_push_keeps(s: Seq<(usize, usize)>, v: (usize, usize), x: (usize, usize))
    requires
        s.contains(x),
    ensures
        s.push(v).contains(x),
{
    let q = choose|q: int| 0 <= q < s.len() && s[q] == x;
    assert(s.push(v)[q] == x);
}

/// The dependants that key pruning emits from node `j`.
spec fn pruned_from(level: Seq<Combination>, j: int) -> Set<usize> {
    Set::new(|a: usize| key_prunes(level, j, a))
}

/// `p` comes before `q`: by node, then by attribute.
spec fn lex_lt(p: (usize, usize), q: (usize, usize)) -> bool {
    p.0 < q.0 || (p.0 == q.0 && p.1 < q.1)
}

/// `f` is a dependency that key pruning emits from some node of `level`.
spec fn from_key_pruning(level: Seq<Combination>, f: (Set<usize>, usize)) -> bool {
    exists|j: int, a: usize| 0 <= j < level.len() && #[trigger] key_prunes(level, j, a) && f == (members(level[j].attrs), a)
}

/// `out` holds, in order, the nodes of `level` at the increasing positions
/// `idx`: exactly those whose candidates were not empty.
spec fn kept_in_order(level: Seq<Combination>, out: Seq<Combination>, idx: Seq<int>) -> bool {
    &&& idx.len() == out.len()
    &&& forall|m: int| 0 <= m < idx.len() ==> 0 <= #[trigger] idx[m] < level.len()
    &&& forall|m1: int, m2: int| 0 <= m1 < m2 < idx.len() ==> idx[m1] < idx[m2]
    &&& forall|m: int| 0 <= m < idx.len() ==> members(level[#[trigger] idx[m]].rhs) != Set::<usize>::empty()
    &&& forall|j: int|
        0 <= j < level.len() && members(#[trigger] level[j].rhs) != Set::<usize>::empty() ==> exists|m: int|
            0 <= m < idx.len() && idx[m] == j
}

/// Key pruning. A first pass only reads the level: it marks the nodes with no
/// candidate left, and for each valid node `X` that is a key it finds the
/// candidates `a` outside `X` that every sibling `(X ∪ {a}) \ {b}`, `b ∈ X`,
/// still holds. A second pass emits `X → a` for those, drops `a` from `X`'s
/// candidates and marks `X` invalid, then removes the marked nodes.
#[verifier::rlimit(100)]
fn prune(level1: Vec<Combination>, t: &Table, res: &mut FDs) -> (r: Vec<Combination>)
    requires
        t.wf(),
        t.width() < usize::MAX,
        level_ok(level1@, t),
        keys_unique(level1@),
        sound_for(old(res), t),
    ensures
        level_ok(r@, t),
        sound_for(final(res), t),
        extends(old(res).found(), final(res).found()),
        final(res).found().subrange(old(res).found().len() as int, final(res).found().len() as int).no_duplicates(),
        forall|j: int, a: usize|
            0 <= j < level1@.len() && #[trigger] key_prunes(level1@, j, a) ==> final(res).found().contains(
                (members(level1@[j].attrs), a),
            ),
        forall|e: int|
            old(res).found().len() <= e < final(res).found().len() ==> from_key_pruning(
                level1@,
                #[trigger] final(res).found()[e],
            ),
        exists|idx: Seq<int>| {
            &&& #[trigger] kept_in_order(level1@, r@, idx)
            &&& forall|m: int|
                0 <= m < idx.len() ==> {
                    let (n, o) = (#[trigger] r@[m], level1@[idx[m]]);
                    &&& members(n.attrs) == members(o.attrs)
                    &&& n.partition == o.partition
                    &&& members(n.rhs) == members(o.rhs).difference(pruned_from(level1@, idx[m]))
                    &&& n.valid == (o.valid && pruned_from(level1@, idx[m]) == Set::<usize>::empty())
                }
        },
{
    let w = t.attributes.len();
    let ghost start = res.found();
    let ghost orig = level1@;
    let mut level1 = level1;
    let mut dead: Vec<bool> = Vec::new();
    let mut found: Vec<(usize, usize)> = Vec::new();
    let mut k: usize = 0;
    while k < level1.len()
        invariant
            t.wf(),
            w == t.width() < usize::MAX,
            level1@ == orig,
            level_ok(level1@, t),
            keys_unique(orig),
            k <= level1@.len(),
            dead@.len() == k,
            forall|j: int| 0 <= j < k ==> #[trigger] dead@[j] == (members(orig[j].rhs) == Set::<usize>::empty()),
            forall|d: int|
                0 <= d < found@.len() ==> {
                    let (j, a) = #[trigger] found@[d];
                    &&& j < k
                    &&& key_prunes(orig, j as int, a)
                    &&& a < w
                    &&& fd_holds(t, members(level1@[j as int].attrs), a)
                },
            forall|j: int, a: usize| 0 <= j < k && #[trigger] key_prunes(orig, j, a) ==> found@.contains((j as usize, a)),
            forall|d1: int, d2: int| 0 <= d1 < d2 < found@.len() ==> lex_lt(#[trigger] found@[d1], #[trigger] found@[d2]),
            forall|d: int| 0 <= d < found@.len() ==> (#[trigger] found@[d]).0 < k,
        decreases level1@.len() - k,
    {
        let node = &level1[k];
        assert(node.ok(t));
        if node.rhs.is_empty() {
            dead.push(true);
            assert forall|j: int, a: usize| 0 <= j < k + 1 && #[trigger] key_prunes(orig, j, a) implies found@.contains(
                (j as usize, a),
            ) by {
                if j == k {
                    assert(members(node.rhs).contains(a));
                }
            }
        } else {
            dead.push(false);
            if node.is_valid() && node.partition.get_error() == 0 {
                proof {
                    lemma_zero_error_iff_key(node.partition@, t, members(node.attrs));
                }
                let mut cand = node.rhs.duplicate();
                cand.difference_with(&node.attrs);
                let cs = cand.to_vec();
                let xs = node.attrs.to_vec();
                let ghost found_k = found@;
                let mut i: usize = 0;
                while i < cs.len()
                    invariant
                        t.wf(),
                        w == t.width() < usize::MAX,
                        level1@ == orig,
                        level_ok(level1@, t),
                        keys_unique(orig),
                        k < level1@.len(),
                        node == &level1@[k as int],
                        node.valid,
                        error_of(node.partition@) == 0,
                        distinguishes(t, members(node.attrs)),
                        cs@.to_set() == members(cand),
                        xs@.to_set() == members(node.attrs),
                        members(cand) == members(node.rhs).difference(members(node.attrs)),
                        i <= cs@.len(),
                        forall|d: int|
                            0 <= d < found@.len() ==> {
                                let (j, a) = #[trigger] found@[d];
                                &&& j <= k
                                &&& key_prunes(orig, j as int, a)
                                &&& a < w
                                &&& fd_holds(t, members(level1@[j as int].attrs), a)
                            },
                        forall|j: int, a: usize| 0 <= j < k && #[trigger] key_prunes(orig, j, a) ==> found@.contains((j as usize, a)),
                        forall|d1: int, d2: int| 0 <= d1 < d2 < found@.len() ==> lex_lt(#[trigger] found@[d1], #[trigger] found@[d2]),
                        forall|d: int| 0 <= d < found@.len() ==> (#[trigger] found@[d]).0 < k || (found@[d].0 == k && exists|i2: int| 0 <= i2 < i && found@[d].1 == #[trigger] cs@[i2]),
                        forall|i1: int, i2: int| 0 <= i1 < i2 < cs@.len() ==> cs@[i1] < cs@[i2],
                        forall|i2: int| 0 <= i2 < i && key_prunes(orig, k as int, #[trigger] cs@[i2]) ==> found@.contains((k, cs@[i2])),
                    decreases cs@.len() - i,
                {
                    let a = cs[i];
                    assert(cs@.to_set().contains(cs@[i as int]));
                    let mut intersect = all_positions(w);
                    let mut xa = node.attrs.duplicate();
                    xa.insert(a);
                    let mut missing = false;
                    let mut j: usize = 0;
                    while j < xs.len() && !missing
                        invariant
                            level1@ == orig,
                            keys_unique(orig),
                            k < level1@.len(),
                            node == &level1@[k as int],
                            xs@.to_set() == members(node.attrs),
                            members(xa) == members(node.attrs).insert(a),
                            a < w,
                            j <= xs@.len(),
                            siblings_hold(orig, members(node.attrs), a) ==> !missing && members(intersect).contains(a),
                            !missing ==> forall|j2: int| 0 <= j2 < j ==> exists|p: int|
                                0 <= p < orig.len() && members(orig[p].attrs) == members(xa).remove(#[trigger] xs@[j2])
                                    && members(intersect).subset_of(members(orig[p].rhs)),
                        decreases xs@.len() - j,
                    {
                        let mut sibling = xa.duplicate();
                        sibling.remove(xs[j]);
                        assert(xs@.to_set().contains(xs@[j as int]));
                        let ghost old_int = members(intersect);
                        match find_node(&level1, &sibling) {
                            Some(p) => {
                                intersect.intersect_with(&level1[p].rhs);
                                assert forall|j2: int| 0 <= j2 < j + 1 && !missing implies exists|p2: int|
                                    0 <= p2 < orig.len() && members(orig[p2].attrs) == members(xa).remove(#[trigger] xs@[j2])
                                        && members(intersect).subset_of(members(orig[p2].rhs)) by {
                                    if j2 < j {
                                        let p2 = choose|p2: int| 0 <= p2 < orig.len() && members(orig[p2].attrs) == members(xa).remove(xs@[j2])
                                            && old_int.subset_of(members(orig[p2].rhs));
                                        assert(members(intersect).subset_of(members(orig[p2].rhs)));
                                    } else {
                                        assert(members(intersect).subset_of(members(orig[p as int].rhs)));
                                    }
                                }
                            },
                            None => missing = true,
                        }
                        j = j + 1;
                    }
                    let ghost found_before = found@;
                    if !missing && intersect.contains(a) {
                        proof {
                            lemma_key_determines_all(t, members(node.attrs), a);
                            assert forall|b2: usize| #[trigger] members(node.attrs).contains(b2) implies sibling_holds(
                                orig, members(node.attrs).insert(a).remove(b2), a) by {
                                assert(xs@.to_set().contains(b2));
                                let j2 = xs@.index_of(b2);
                                let p = choose|p: int| 0 <= p < orig.len() && members(orig[p].attrs) == members(xa).remove(xs@[j2])
                                    && members(intersect).subset_of(members(orig[p].rhs));
                                assert(has_node(orig, members(orig[p].attrs)));
                                assert forall|p2: int| 0 <= p2 < orig.len() && members(#[trigger] orig[p2].attrs)
                                    == members(node.attrs).insert(a).remove(b2) implies members(orig[p2].rhs).contains(a) by {
                                    if p2 != p {
                                        assert(members(orig[p2].attrs) != members(orig[p].attrs));
                                    }
                                }
                            }
                            assert(key_prunes(orig, k as int, a));
                        }
                        found.push((k, a));
                        proof {
                            assert(found@.last() == (k, a));
                            assert(found@.contains((k, a)));
                            assert forall|d1: int, d2: int| 0 <= d1 < d2 < found@.len() implies lex_lt(#[trigger] found@[d1], #[trigger] found@[d2]) by {
                                if d2 == found@.len() - 1 {
                                    assert(found@[d1] == found_before[d1]);
                                    if found@[d1].0 == k {
                                        let i2 = choose|i2: int| 0 <= i2 < i && found_before[d1].1 == #[trigger] cs@[i2];
                                        assert(cs@[i2] < cs@[i as int]);
                                    }
                                } else {
                                    assert(found@[d1] == found_before[d1] && found@[d2] == found_before[d2]);
                                }
                            }
                        }
                    }
                    proof {
                        assert forall|j2: int, a2: usize| 0 <= j2 < k && #[trigger] key_prunes(orig, j2, a2) implies found@.contains((j2 as usize, a2)) by {
                            if found@.len() > found_before.len() {
                                lemma_push_keeps(found_before, (k, a), (j2 as usize, a2));
                            }
                        }
                        assert forall|i2: int| 0 <= i2 < i + 1 && key_prunes(orig, k as int, #[trigger] cs@[i2]) implies found@.contains((k, cs@[i2])) by {
                            if i2 < i && found@.len() > found_before.len() {
                                lemma_push_keeps(found_before, (k, a), (k, cs@[i2]));
                            }
                        }
                        assert forall|d: int| 0 <= d < found@.len() implies (#[trigger] found@[d]).0 < k || (found@[d].0 == k && exists|i2: int| 0 <= i2 < i + 1 && found@[d].1 == #[trigger] cs@[i2]) by {
                            if d < found_before.len() {
                                assert(found@[d] == found_before[d]);
                                if found@[d].0 == k {
                                    let i2 = choose|i2: int| 0 <= i2 < i && found_before[d].1 == #[trigger] cs@[i2];
                                    assert(found@[d].1 == cs@[i2]);
                                }
                            } else {
                                assert(found@[d].1 == cs@[i as int]);
                            }
                        }
                        assert forall|d: int| 0 <= d < found@.len() implies {
                            let (j2, a2) = #[trigger] found@[d];
                            &&& j2 <= k
                            &&& key_prunes(orig, j2 as int, a2)
                            &&& a2 < w
                            &&& fd_holds(t, members(level1@[j2 as int].attrs), a2)
                        } by {
                            if d < found_before.len() {
                                assert(found@[d] == found_before[d]);
                            }
                        }
                    }
                    i = i + 1;
                }
                assert forall|j: int, a: usize| 0 <= j < k + 1 && #[trigger] key_prunes(orig, j, a) implies found@.contains(
                    (j as usize, a),
                ) by {
                    if j == k {
                        assert(members(cand).contains(a));
                        let i2 = cs@.index_of(a);
                    }
                }
            } else {
                assert forall|j: int, a: usize| 0 <= j < k + 1 && #[trigger] key_prunes(orig, j, a) implies found@.contains(
                    (j as usize, a),
                ) by {
                    if j == k {
                        assert(node.valid && error_of(node.partition@) == 0);
                    }
                }
            }
        }
        k = k + 1;
    }
    assert(orig.len() == level1.len());
    let mut d: usize = 0;
    while d < found.len()
        invariant
            orig.len() <= usize::MAX,
            t.wf(),
            w == t.width() < usize::MAX,
            level_ok(level1@, t),
            sound_for(res, t),
            extends(start, res.found()),
            res.found().len() == start.len() + d,
            level1@.len() == orig.len(),
            dead@.len() == orig.len(),
            forall|j: int| 0 <= j < orig.len() ==> #[trigger] dead@[j] == (members(orig[j].rhs) == Set::<usize>::empty()),
            forall|j: int|
                0 <= j < orig.len() ==> {
                    let n = #[trigger] level1@[j];
                    &&& members(n.attrs) == members(orig[j].attrs)
                    &&& n.partition == orig[j].partition
                    &&& members(n.rhs) == members(orig[j].rhs).difference(
                        Set::new(|a: usize| exists|e: int| 0 <= e < d && #[trigger] found@[e] == (j as usize, a)),
                    )
                    &&& n.valid == (orig[j].valid && !exists|e: int| 0 <= e < d && (#[trigger] found@[e]).0 == j)
                },
            forall|e: int|
                0 <= e < found@.len() ==> {
                    let (j, a) = #[trigger] found@[e];
                    &&& j < orig.len()
                    &&& key_prunes(orig, j as int, a)
                    &&& a < w
                    &&& fd_holds(t, members(orig[j as int].attrs), a)
                },
            forall|e: int| 0 <= e < d ==> #[trigger] res.found()[start.len() + e] == (members(orig[found@[e].0 as int].attrs), found@[e].1),
            forall|d1: int, d2: int| 0 <= d1 < d2 < found@.len() ==> lex_lt(#[trigger] found@[d1], #[trigger] found@[d2]),
            keys_unique(orig),
            d <= found@.len(),
        decreases found@.len() - d,
    {
        let ghost f0 = res.found();
        let ghost lv0 = level1@;
        let (j, a) = found[d];
        let x = level1[j].attrs.duplicate();
        assert(level1@[j as int].ok(t));
        assert(key_prunes(orig, j as int, a));
        emit(res, t, &x, a);
        level1[j].rhs.remove(a);
        level1[j].kill();
        proof {
            assert(level1@[j as int].ok(t));
            assert forall|q: int| 0 <= q < level1@.len() implies (#[trigger] level1@[q]).ok(t) by {
                if q != j {
                    assert(level1@[q] == lv0[q]);
                }
            }
            assert forall|i: int| 0 <= i < start.len() implies #[trigger] res.found()[i] == start[i] by {
                assert(res.found()[i] == f0[i]);
            }
            assert forall|e: int| 0 <= e < d + 1 implies #[trigger] res.found()[start.len() + e] == (members(orig[found@[e].0 as int].attrs), found@[e].1) by {
                if e < d {
                    assert(res.found()[start.len() + e] == f0[start.len() + e]);
                }
            }
            assert forall|q: int| 0 <= q < orig.len() implies {
                let n = #[trigger] level1@[q];
                &&& members(n.attrs) == members(orig[q].attrs)
                &&& n.partition == orig[q].partition
                &&& members(n.rhs) == members(orig[q].rhs).difference(
                    Set::new(|a2: usize| exists|e: int| 0 <= e < d + 1 && #[trigger] found@[e] == (q as usize, a2)),
                )
                &&& n.valid == (orig[q].valid && !exists|e: int| 0 <= e < d + 1 && (#[trigger] found@[e]).0 == q)
            } by {
                let olds = Set::new(|a2: usize| exists|e: int| 0 <= e < d && #[trigger] found@[e] == (q as usize, a2));
                let news = Set::new(|a2: usize| exists|e: int| 0 <= e < d + 1 && #[trigger] found@[e] == (q as usize, a2));
                if q != j {
                    assert(level1@[q] == lv0[q]);
                    assert(found@[d as int] == (j, a));
                    assert forall|a2: usize| news.contains(a2) implies olds.contains(a2) by {
                        assert(exists|e: int| 0 <= e < d + 1 && #[trigger] found@[e] == (q as usize, a2));
                        let e = choose|e: int| 0 <= e < d + 1 && #[trigger] found@[e] == (q as usize, a2);
                        if e == d {
                            assert(found@[e] == (j, a));
                            assert(j == q as usize);
                        }
                        assert(0 <= e < d && found@[e] == (q as usize, a2));
                    }
                    assert(olds =~= news);
                    assert((exists|e: int| 0 <= e < d && (#[trigger] found@[e]).0 == q) == (exists|e: int| 0 <= e < d + 1 && (#[trigger] found@[e]).0 == q));
                } else {
                    assert(news =~= olds.insert(a));
                    assert(members(level1@[q].rhs) =~= members(orig[q].rhs).difference(news));
                    assert(found@[d as int].0 == q);
                }
            }
        }
        d = d + 1;
    }
    let ghost mid = level1@;
    proof {
        assert forall|j: int| 0 <= j < orig.len() implies #[trigger] pruned_from(orig, j)
            == Set::new(|a: usize| exists|e: int| 0 <= e < found@.len() && #[trigger] found@[e] == (j as usize, a)) by {
            assert forall|a: usize| pruned_from(orig, j).contains(a) <==> exists|e: int| 0 <= e < found@.len() && #[trigger] found@[e] == (j as usize, a) by {
                if key_prunes(orig, j, a) {
                    assert(found@.contains((j as usize, a)));
                }
                if exists|e: int| 0 <= e < found@.len() && #[trigger] found@[e] == (j as usize, a) {
                    let e = choose|e: int| 0 <= e < found@.len() && #[trigger] found@[e] == (j as usize, a);
                    assert(key_prunes(orig, j, a));
                }
            }
            assert(pruned_from(orig, j) =~= Set::new(|a: usize| exists|e: int| 0 <= e < found@.len() && #[trigger] found@[e] == (j as usize, a)));
        }
        assert forall|j: int| 0 <= j < orig.len() implies (pruned_from(orig, j) == Set::<usize>::empty())
            == !exists|e: int| 0 <= e < found@.len() && (#[trigger] found@[e]).0 == j by {
            if exists|e: int| 0 <= e < found@.len() && (#[trigger] found@[e]).0 == j {
                let e = choose|e: int| 0 <= e < found@.len() && (#[trigger] found@[e]).0 == j;
                let a = found@[e].1;
                assert(found@[e] == (j as usize, a));
                assert(pruned_from(orig, j).contains(a));
            }
            if pruned_from(orig, j) != Set::<usize>::empty() {
                assert(exists|a: usize| pruned_from(orig, j).contains(a)) by {
                    if !(exists|a: usize| pruned_from(orig, j).contains(a)) {
                        assert(pruned_from(orig, j) =~= Set::<usize>::empty());
                    }
                }
                let a = choose|a: usize| pruned_from(orig, j).contains(a);
                assert(found@.contains((j as usize, a)));
                let e = choose|e: int| 0 <= e < found@.len() && found@[e] == (j as usize, a);
                assert(found@[e].0 == j);
            }
        }
        assert forall|j: int, a: usize| 0 <= j < orig.len() && #[trigger] key_prunes(orig, j, a) implies res.found().contains(
            (members(orig[j].attrs), a),
        ) by {
            assert(found@.contains((j as usize, a)));
            let e = choose|e: int| 0 <= e < found@.len() && found@[e] == (j as usize, a);
            assert(res.found()[start.len() + e] == (members(orig[j].attrs), a));
        }
        let added = res.found().subrange(start.len() as int, res.found().len() as int);
        assert forall|e1: int, e2: int| 0 <= e1 < added.len() && 0 <= e2 < added.len() && e1 != e2 implies added[e1] != added[e2] by {
            assert(added[e1] == res.found()[start.len() + e1]);
            assert(added[e2] == res.found()[start.len() + e2]);
            let (j1, a1) = found@[e1];
            let (j2, a2) = found@[e2];
            if e1 < e2 {
                assert(lex_lt(found@[e1], found@[e2]));
            } else {
                assert(lex_lt(found@[e2], found@[e1]));
            }
            if j1 != j2 && a1 == a2 {
                assert(members(orig[j1 as int].attrs) != members(orig[j2 as int].attrs));
            }
        }
        assert(added.no_duplicates());
        assert forall|e: int| start.len() <= e < res.found().len() implies from_key_pruning(orig, #[trigger] res.found()[e]) by {
            let e2 = e - start.len();
            assert(res.found()[start.len() + e2] == (members(orig[found@[e2].0 as int].attrs), found@[e2].1));
            assert(key_prunes(orig, found@[e2].0 as int, found@[e2].1));
        }
    }
    let mut out: Vec<Combination> = Vec::new();
    let ghost mut idx: Seq<int> = Seq::empty();
    let mut k: usize = 0;
    while k < level1.len()
        invariant
            level1@.len() == mid.len(),
            mid.len() == orig.len(),
            k <= mid.len(),
            dead@.len() == orig.len(),
            level_ok(mid, t),
            level_ok(out@, t),
            forall|j: int| 0 <= j < orig.len() ==> #[trigger] dead@[j] == (members(orig[j].rhs) == Set::<usize>::empty()),
            forall|j: int| k <= j < mid.len() ==> #[trigger] level1@[j] == mid[j],
            idx.len() == out@.len(),
            forall|m: int| 0 <= m < idx.len() ==> 0 <= #[trigger] idx[m] < k,
            forall|m1: int, m2: int| 0 <= m1 < m2 < idx.len() ==> idx[m1] < idx[m2],
            forall|m: int| 0 <= m < idx.len() ==> members(orig[#[trigger] idx[m]].rhs) != Set::<usize>::empty(),
            forall|m: int| 0 <= m < idx.len() ==> #[trigger] out@[m] == mid[idx[m]],
            forall|j: int|
                0 <= j < k && members(#[trigger] orig[j].rhs) != Set::<usize>::empty() ==> exists|m: int|
                    0 <= m < idx.len() && idx[m] == j,
        decreases mid.len() - k,
    {
        if !dead[k] {
            let mut slot = Combination {
                attrs: AttrSet::new(),
                rhs: AttrSet::new(),
                partition: StrippedPartition::new(0),
                valid: false,
            };
            let ghost lv0 = level1@;
            std::mem::swap(&mut level1[k], &mut slot);
            assert(slot == mid[k as int]);
            let ghost idx0 = idx;
            proof {
                idx = idx.push(k as int);
            }
            let ghost out0 = out@;
            out.push(slot);
            proof {
                assert forall|j: int| k + 1 <= j < mid.len() implies #[trigger] level1@[j] == mid[j] by {
                    assert(level1@[j] == lv0[j]);
                }
                assert forall|m: int| 0 <= m < out@.len() implies (#[trigger] out@[m]).ok(t) && out@[m] == mid[idx[m]] by {
                    if m < out0.len() {
                        assert(out@[m] == out0[m]);
                    }
                }
                assert forall|j: int|
                    0 <= j < k + 1 && members(#[trigger] orig[j].rhs) != Set::<usize>::empty() implies exists|m: int|
                        0 <= m < idx.len() && idx[m] == j by {
                    if j < k {
                        let m = choose|m: int| 0 <= m < idx0.len() && idx0[m] == j;
                        assert(idx[m] == j);
                    } else {
                        assert(idx[idx.len() - 1] == j);
                    }
                }
            }
        }
        k = k + 1;
    }
    proof {
        assert(kept_in_order(orig, out@, idx));
        assert forall|m: int| 0 <= m < idx.len() implies {
            let (n, o) = (#[trigger] out@[m], orig[idx[m]]);
            &&& members(n.attrs) == members(o.attrs)
            &&& n.partition == o.partition
            &&& members(n.rhs) == members(o.rhs).difference(pruned_from(orig, idx[m]))
            &&& n.valid == (o.valid && pruned_from(orig, idx[m]) == Set::<usize>::empty())
        } by {
            let j = idx[m];
            assert(out@[m] == mid[j]);
            assert(pruned_from(orig, j) == Set::new(|a: usize| exists|e: int| 0 <= e < found@.len() && #[trigger] found@[e] == (j as usize, a)));
        }
    }
    out
}

/// Rows agree on a union exactly when they agree on both parts.
proof fn lemma_agree_union(t: &Table, i: int, j: int, x1: Set<usize>, x2: Set<usize>)
    ensures
        agree(t, i, j, x1.union(x2)) <==> (agree(t, i, j, x1) && agree(t, i, j, x2)),
{
    if agree(t, i, j, x1) && agree(t, i, j, x2) {
        assert forall|b: usize| #[trigger] x1.union(x2).contains(b) implies t.cell(i, b as int) == t.cell(j, b as int) by {
            if x1.contains(b) {
                assert(t.cell(i, b as int) == t.cell(j, b as int));
            } else {
                assert(x2.contains(b));
            }
        }
    }
    if agree(t, i, j, x1.union(x2)) {
        assert forall|b: usize| #[trigger] x1.contains(b) implies t.cell(i, b as int) == t.cell(j, b as int) by {
            assert(x1.union(x2).contains(b));
        }
        assert forall|b: usize| #[trigger] x2.contains(b) implies t.cell(i, b as int) == t.cell(j, b as int) by {
            assert(x1.union(x2).contains(b));
        }
    }
}

/// The greatest member of a finite non-empty set.
spec fn set_max(s: Set<usize>) -> usize {
    choose|m: usize| s.contains(m) && forall|z: usize| #[trigger] s.contains(z) ==> z <= m
}

proof fn lemma_set_max(s: Set<usize>)
    requires
        s.finite(),
        s.len() > 0,
    ensures
        s.contains(set_max(s)),
        forall|z: usize| #[trigger] s.contains(z) ==> z <= set_max(s),
    decreases s.len(),
{
    let a = s.choose();
    assert(s.contains(a));
    let w: usize = if s.len() == 1 {
        assert(s.remove(a).len() == 0);
        assert forall|z: usize| #[trigger] s.contains(z) implies z <= a by {
            if z != a {
                assert(s.remove(a).contains(z));
            }
        }
        a
    } else {
        lemma_set_max(s.remove(a));
        let m = set_max(s.remove(a));
        let w = if m < a { a } else { m };
        assert forall|z: usize| #[trigger] s.contains(z) implies z <= w by {
            if z != a {
                assert(s.remove(a).contains(z));
            }
        }
        w
    };
    assert(s.contains(w) && forall|z: usize| #[trigger] s.contains(z) ==> z <= w);
}

/// The greatest member of a finite set is its last in increasing order.
proof fn lemma_last_is_max(v: Seq<usize>, s: Set<usize>)
    requires
        v.to_set() == s,
        v.len() > 0,
        forall|i: int, j: int| 0 <= i < j < v.len() ==> v[i] < v[j],
    ensures
        v.last() == set_max(s),
{
    assert(s.finite());
    assert(s.contains(v.last()));
    lemma_set_max(s);
    let m = set_max(s);
    let i = v.index_of(m);
    assert(m >= v.last());
    if i < v.len() - 1 {
        assert(v[i] < v.last());
    }
}

/// A node's attribute set less its greatest attribute.
spec fn prefix_of(x: Set<usize>) -> Set<usize> {
    x.remove(set_max(x))
}

/// No two nodes of the level have the same attribute set.
spec fn keys_unique(level: Seq<Combination>) -> bool {
    forall|i: int, j: int|
        0 <= i < level.len() && 0 <= j < level.len() && i != j ==> members(#[trigger] level[i].attrs)
            != members(#[trigger] level[j].attrs)
}

/// Every node of the level has `l` attributes.
spec fn keys_sized(level: Seq<Combination>, l: nat) -> bool {
    forall|i: int| 0 <= i < level.len() ==> members(#[trigger] level[i].attrs).finite() && members(level[i].attrs).len() == l
}

/// Dropping any one attribute of `x` gives the attribute set of a node.
spec fn all_subsets_present(level: Seq<Combination>, x: Set<usize>) -> bool {
    forall|c: usize| #[trigger] x.contains(c) ==> has_node(level, x.remove(c))
}

/// The nodes of `level` from which a node with attribute set `x` is built:
/// `x` less its greatest attribute and `x` less its second greatest.
spec fn built_from(level: Seq<Combination>, x: Set<usize>, p: int, q: int) -> bool {
    &&& 0 <= p < level.len()
    &&& 0 <= q < level.len()
    &&& members(level[p].attrs) == x.remove(set_max(x))
    &&& members(level[q].attrs) == x.remove(set_max(x.remove(set_max(x))))
}

/// A node of the next level is built from the nodes of `level` that
/// `built_from` names: it is valid exactly when both are, and then its
/// partition is their product with no class of one row; otherwise it has
/// no class.
spec fn built_right(level: Seq<Combination>, n: Combination, h: nat) -> bool {
    exists|p: int, q: int| {
        &&& #[trigger] built_from(level, members(n.attrs), p, q)
        &&& n.valid == (level[p].valid && level[q].valid)
        &&& n.valid ==> crate::partition::is_product(n.partition@, level[p].partition@, level[q].partition@, h)
        &&& n.valid ==> crate::partition::stripped(n.partition@)
        &&& !n.valid ==> n.partition@ == Seq::<Seq<usize>>::empty()
    }
}

/// The next level so far: well-formed nodes of `l + 1` attributes, each once,
/// each with its subsets in `lv`, no candidates yet, and built from its two
/// greatest subsets.
#[verifier::opaque]
spec fn next_ok(lv: Seq<Combination>, nl: Seq<Combination>, t: &Table, l: nat) -> bool {
    &&& level_ok(nl, t)
    &&& parents_present(lv, nl)
    &&& keys_unique(nl)
    &&& keys_sized(nl, l + 1)
    &&& forall|k2: int| 0 <= k2 < nl.len() ==> members(#[trigger] nl[k2].rhs) == Set::<usize>::empty()
    &&& forall|k2: int| 0 <= k2 < nl.len() ==> built_right(lv, #[trigger] nl[k2], t.height())
}

proof fn lemma_next_push(lv: Seq<Combination>, nl: Seq<Combination>, node: Combination, t: &Table, l: nat)
    requires
        next_ok(lv, nl, t, l),
        node.ok(t),
        members(node.rhs) == Set::<usize>::empty(),
        members(node.attrs).finite(),
        members(node.attrs).len() == l + 1,
        all_subsets_present(lv, members(node.attrs)),
        built_right(lv, node, t.height()),
        !has_node(nl, members(node.attrs)),
    ensures
        next_ok(lv, nl.push(node), t, l),
        has_node(nl.push(node), members(node.attrs)),
        forall|s2: Set<usize>| has_node(nl, s2) ==> #[trigger] has_node(nl.push(node), s2),
{
    reveal(next_ok);
    let n2 = nl.push(node);
    assert forall|q2: int| 0 <= q2 < n2.len() implies (#[trigger] n2[q2]).ok(t)
        && members(n2[q2].rhs) == Set::<usize>::empty() && built_right(lv, n2[q2], t.height())
        && members(n2[q2].attrs).finite() && members(n2[q2].attrs).len() == l + 1 by {
        if q2 < nl.len() {
            assert(n2[q2] == nl[q2]);
        }
    }
    assert forall|i2: int, j2: int|
        0 <= i2 < n2.len() && 0 <= j2 < n2.len() && i2 != j2 implies members(#[trigger] n2[i2].attrs)
            != members(#[trigger] n2[j2].attrs) by {
        if i2 < nl.len() && j2 < nl.len() {
            assert(n2[i2] == nl[i2] && n2[j2] == nl[j2]);
        } else if i2 < nl.len() {
            assert(n2[i2] == nl[i2]);
            assert(has_node(nl, members(nl[i2].attrs)));
        } else {
            assert(n2[j2] == nl[j2]);
            assert(has_node(nl, members(nl[j2].attrs)));
        }
    }
    assert forall|q2: int, a: usize|
        0 <= q2 < n2.len() && #[trigger] members(n2[q2].attrs).contains(a) implies has_node(
            lv,
            members(n2[q2].attrs).remove(a),
        ) by {
        if q2 < nl.len() {
            assert(n2[q2] == nl[q2]);
        }
    }
    assert forall|s2: Set<usize>| has_node(nl, s2) implies #[trigger] has_node(n2, s2) by {
        lemma_has_node_push(nl, node, s2);
    }
    assert(n2[nl.len() as int] == node);
}

/// The join of two nodes of one prefix group has one attribute more, and is
/// built from exactly those two nodes.
proof fn lemma_join(u: Set<usize>, v: Set<usize>, l: nat)
    requires
        u.finite(),
        v.finite(),
        u.len() == l,
        v.len() == l,
        l >= 1,
        u != v,
        prefix_of(u) == prefix_of(v),
    ensures
        u.union(v).finite(),
        u.union(v).len() == l + 1,
        ({
            let x = u.union(v);
            let top = set_max(x);
            ||| x.remove(top) == u && x.remove(set_max(x.remove(top))) == v
            ||| x.remove(top) == v && x.remove(set_max(x.remove(top))) == u
        }),
{
    lemma_set_max(u);
    lemma_set_max(v);
    let mu = set_max(u);
    let mv = set_max(v);
    let p = prefix_of(u);
    assert(u =~= p.insert(mu));
    assert(v =~= p.insert(mv));
    assert(mu != mv);
    assert(!u.contains(mv));
    assert(!v.contains(mu));
    let x = u.union(v);
    assert(x =~= u.insert(mv));
    assert(x =~= v.insert(mu));
    lemma_set_max(x);
    let top = set_max(x);
    if mu < mv {
        assert forall|z: usize| #[trigger] x.contains(z) implies z <= mv by {
            if z != mu {
                assert(v.contains(z));
            }
        }
        assert(x.contains(top) && x.contains(mv));
        assert(top <= mv && mv <= top);
        assert(x.remove(top) =~= u);
        assert(x.remove(set_max(x.remove(top))) =~= v);
    } else {
        assert forall|z: usize| #[trigger] x.contains(z) implies z <= mu by {
            if z != mv {
                assert(u.contains(z));
            }
        }
        assert(x.contains(top) && x.contains(mu));
        assert(top <= mu && mu <= top);
        assert(x.remove(top) =~= v);
        assert(x.remove(set_max(x.remove(top))) =~= u);
    }
}

proof fn lemma_has_node_push(level: Seq<Combination>, n: Combination, s: Set<usize>)
    requires
        has_node(level, s),
    ensures
        has_node(level.push(n), s),
{
    let k = choose|k: int| 0 <= k < level.len() && members(#[trigger] level[k].attrs) == s;
    assert(level.push(n)[k] == level[k]);
}

/// Node index `k` stands in one of the prefix groups.
spec fn in_blocks(blocks: Seq<Vec<usize>>, k: int) -> bool {
    exists|b: int, i: int| 0 <= b < blocks.len() && 0 <= i < blocks[b]@.len() && #[trigger] blocks[b]@[i] == k
}

/// The attribute set formed from positions `i` and `j` of group `b`.
spec fn join_of(level: Seq<Combination>, blocks: Seq<Vec<usize>>, b: int, i: int, j: int) -> Set<usize> {
    members(level[blocks[b]@[i] as int].attrs).union(members(level[blocks[b]@[j] as int].attrs))
}

/// Joins nodes `ia` and `ib` of one prefix group: when every subset of the
/// join one attribute smaller is in the level and the join is not yet in the
/// next level, adds it there.
#[verifier::rlimit(100)]
fn add_join(
    level1: &Vec<Combination>,
    ia: usize,
    ib: usize,
    new_level: &mut Vec<Combination>,
    t: &Table,
    Ghost(l): Ghost<nat>,
)
    requires
        t.wf(),
        t.width() < usize::MAX,
        l >= 1,
        level_ok(level1@, t),
        keys_unique(level1@),
        keys_sized(level1@, l),
        ia < level1@.len(),
        ib < level1@.len(),
        ia != ib,
        prefix_of(members(level1@[ia as int].attrs)) == prefix_of(members(level1@[ib as int].attrs)),
        next_ok(level1@, old(new_level)@, t, l),
    ensures
        next_ok(level1@, final(new_level)@, t, l),
        forall|s2: Set<usize>| has_node(old(new_level)@, s2) ==> #[trigger] has_node(final(new_level)@, s2),
        all_subsets_present(level1@, members(level1@[ia as int].attrs).union(members(level1@[ib as int].attrs)))
            ==> has_node(final(new_level)@, members(level1@[ia as int].attrs).union(members(level1@[ib as int].attrs))),
{
    let ghost lv = level1@;
    let na = &level1[ia];
    let nb = &level1[ib];
    assert(na.ok(t) && nb.ok(t));
    let ghost xj = members(level1@[ia as int].attrs).union(members(level1@[ib as int].attrs));
    let mut x = na.attrs.duplicate();
    x.union_with(&nb.attrs);
    assert(members(x) == xj);
    let xs = x.to_vec();
    let mut ok = true;
    let mut m: usize = 0;
    while m < xs.len() && ok
        invariant
            m <= xs@.len(),
            xs@.to_set() == members(x),
            ok ==> forall|m2: int| 0 <= m2 < m ==> has_node(level1@, members(x).remove(#[trigger] xs@[m2])),
            !ok ==> !all_subsets_present(level1@, members(x)),
        decreases xs@.len() - m,
    {
        let mut key = x.duplicate();
        key.remove(xs[m]);
        if find_node(&level1, &key).is_none() {
            assert(xs@.to_set().contains(xs@[m as int]));
            ok = false;
        }
        m = m + 1;
    }
    proof {
        if ok {
            assert forall|c: usize| #[trigger] members(x).contains(c) implies has_node(lv, members(x).remove(c)) by {
                assert(xs@.to_set().contains(c));
                let m2 = xs@.index_of(c);
            }
        }
    }
    if ok && find_node(&new_level, &x).is_none() {
        proof {
            assert(ia != ib);
            assert(members(lv[ia as int].attrs) != members(lv[ib as int].attrs));
            lemma_join(members(lv[ia as int].attrs), members(lv[ib as int].attrs), l);
        }
        let node = if na.is_valid() && nb.is_valid() {
            let partition = na.partition.product(&nb.partition);
            proof {
                let ma = members(na.attrs);
                let mb = members(nb.attrs);
                assert forall|r1: usize, r2: usize|
                    r1 < t.height() && r2 < t.height() implies (#[trigger] crate::partition::related(
                        partition@,
                        r1,
                        r2,
                    ) <==> agree(t, r1 as int, r2 as int, members(x))) by {
                    lemma_agree_union(t, r1 as int, r2 as int, ma, mb);
                    assert(crate::partition::related(na.partition@, r1, r2) <==> agree(t, r1 as int, r2 as int, ma));
                    assert(crate::partition::related(nb.partition@, r1, r2) <==> agree(t, r1 as int, r2 as int, mb));
                }
            }
            Combination { attrs: x, rhs: AttrSet::new(), partition, valid: true }
        } else {
            Combination { attrs: x, rhs: AttrSet::new(), partition: StrippedPartition::new(0), valid: false }
        };
        let ghost before = new_level@;
        proof {
            let xx = members(node.attrs);
            assert(xx == xj);
            assert(members(node.rhs) =~= Set::<usize>::empty());
            assert(node.ok(t));
            let (p, q) = if xx.remove(set_max(xx)) == members(lv[ia as int].attrs) {
                (ia as int, ib as int)
            } else {
                (ib as int, ia as int)
            };
            assert(built_from(lv, xx, p, q));
            if node.valid {
                assert forall|r1: usize, r2: usize| r1 < t.height() && r2 < t.height() implies (#[trigger] crate::partition::related(
                    node.partition@, r1, r2) <==> (crate::partition::related(lv[p].partition@, r1, r2) && crate::partition::related(lv[q].partition@, r1, r2))) by {
                    assert(crate::partition::related(node.partition@, r1, r2) <==> (crate::partition::related(lv[ia as int].partition@, r1, r2) && crate::partition::related(lv[ib as int].partition@, r1, r2)));
                }
            }
            assert(built_right(lv, node, t.height()));
            lemma_next_push(lv, before, node, t, l);
        }
        new_level.push(node);
        assert(has_node(new_level@, xj));
    }
}

/// Groups the nodes of the level by prefix (their set less its greatest
/// attribute) and joins every two nodes of one group into a node of the next
/// level, kept only when each of its subsets one attribute smaller is in the
/// level. The join of two valid nodes is valid, with the product of their
/// partitions; otherwise it is created invalid. The next level so holds each
/// attribute set of `l + 1` attributes whose subsets of `l` attributes are all
/// in the level, once, with no candidates yet.
#[verifier::rlimit(100)]
fn generate_next_level(level1: Vec<Combination>, t: &Table, Ghost(l): Ghost<nat>) -> (r: (Vec<Combination>, Vec<Combination>))
    requires
        t.wf(),
        t.width() < usize::MAX,
        l >= 1,
        level_ok(level1@, t),
        keys_unique(level1@),
        keys_sized(level1@, l),
    ensures
        r.0@ == level1@,
        level_ok(r.1@, t),
        parents_present(r.0@, r.1@),
        keys_unique(r.1@),
        keys_sized(r.1@, l + 1),
        forall|x: Set<usize>|
            #[trigger] has_node(r.1@, x) <==> (x.finite() && x.len() == l + 1 && all_subsets_present(level1@, x)),
        forall|k: int| 0 <= k < r.1@.len() ==> members(#[trigger] r.1@[k].rhs) == Set::<usize>::empty(),
        forall|k: int| 0 <= k < r.1@.len() ==> built_right(level1@, #[trigger] r.1@[k], t.height()),
{
    let ghost lv = level1@;
    let mut prefixes: Vec<AttrSet> = Vec::new();
    let mut blocks: Vec<Vec<usize>> = Vec::new();
    let mut k: usize = 0;
    while k < level1.len()
        invariant
            lv == level1@,
            keys_sized(lv, l),
            l >= 1,
            k <= lv.len(),
            blocks@.len() == prefixes@.len(),
            forall|b2: int, i1: int, i2: int|
                0 <= b2 < blocks@.len() && 0 <= i1 < i2 < blocks@[b2]@.len() ==> #[trigger] blocks@[b2]@[i1] < #[trigger] blocks@[b2]@[i2],
            forall|b: int, i: int|
                0 <= b < blocks@.len() && 0 <= i < blocks@[b]@.len() ==> #[trigger] blocks@[b]@[i] < k,
            forall|b: int, i: int|
                0 <= b < blocks@.len() && 0 <= i < blocks@[b]@.len() ==> members(prefixes@[b])
                    == prefix_of(members(lv[#[trigger] blocks@[b]@[i] as int].attrs)),
            forall|b1: int, b2: int|
                0 <= b1 < blocks@.len() && 0 <= b2 < blocks@.len() && b1 != b2 ==> members(#[trigger] prefixes@[b1])
                    != members(#[trigger] prefixes@[b2]),
            forall|k2: int|
                0 <= k2 < k ==> #[trigger] in_blocks(blocks@, k2),
        decreases lv.len() - k,
    {
        let xs = level1[k].attrs.to_vec();
        let mut prefix = level1[k].attrs.duplicate();
        proof {
            assert(members(level1@[k as int].attrs).len() == l);
            if xs@.len() == 0 {
                assert(xs@.to_set() =~= Set::<usize>::empty());
            }
        }
        if xs.len() > 0 {
            proof {
                lemma_last_is_max(xs@, members(level1@[k as int].attrs));
            }
            prefix.remove(xs[xs.len() - 1]);
        }
        assert(members(prefix) == prefix_of(members(lv[k as int].attrs)));
        let mut b: usize = 0;
        let mut placed = false;
        while b < prefixes.len() && !placed
            invariant
                lv == level1@,
                k < lv.len(),
                blocks@.len() == prefixes@.len(),
                forall|b2: int, i1: int, i2: int|
                    0 <= b2 < blocks@.len() && 0 <= i1 < i2 < blocks@[b2]@.len() ==> #[trigger] blocks@[b2]@[i1] < #[trigger] blocks@[b2]@[i2],
            forall|b2: int, i1: int, i2: int|
                0 <= b2 < blocks@.len() && 0 <= i1 < i2 < blocks@[b2]@.len() ==> #[trigger] blocks@[b2]@[i1] < #[trigger] blocks@[b2]@[i2],
                b <= prefixes@.len(),
                members(prefix) == prefix_of(members(lv[k as int].attrs)),
                forall|b2: int, i: int|
                    0 <= b2 < blocks@.len() && 0 <= i < blocks@[b2]@.len() ==> #[trigger] blocks@[b2]@[i] < k + 1,
                !placed ==> forall|b2: int, i: int|
                    0 <= b2 < blocks@.len() && 0 <= i < blocks@[b2]@.len() ==> #[trigger] blocks@[b2]@[i] < k,
                forall|b2: int, i: int|
                    0 <= b2 < blocks@.len() && 0 <= i < blocks@[b2]@.len() ==> members(prefixes@[b2])
                        == prefix_of(members(lv[#[trigger] blocks@[b2]@[i] as int].attrs)),
                forall|b1: int, b2: int|
                    0 <= b1 < blocks@.len() && 0 <= b2 < blocks@.len() && b1 != b2 ==> members(#[trigger] prefixes@[b1])
                        != members(#[trigger] prefixes@[b2]),
                forall|k2: int|
                    0 <= k2 < k ==> #[trigger] in_blocks(blocks@, k2),
                placed ==> #[trigger] in_blocks(blocks@, k as int),
                !placed ==> forall|b2: int| 0 <= b2 < b ==> members(#[trigger] prefixes@[b2]) != members(prefix),
            decreases prefixes@.len() - b,
        {
            if prefixes[b].same_members(&prefix) {
                let ghost before = blocks@;
                blocks[b].push(k);
                proof {
                    assert forall|b2: int| 0 <= b2 < blocks@.len() && b2 != b implies #[trigger] blocks@[b2] == before[b2] by {}
                    assert(blocks@[b as int]@ == before[b as int]@.push(k));
                    assert forall|b2: int, i: int|
                        0 <= b2 < blocks@.len() && 0 <= i < blocks@[b2]@.len() implies #[trigger] blocks@[b2]@[i] < k + 1
                            && members(prefixes@[b2]) == prefix_of(members(lv[blocks@[b2]@[i] as int].attrs)) by {
                        if b2 != b || i < before[b2]@.len() {
                            assert(blocks@[b2]@[i] == before[b2]@[i]);
                        }
                    }
                    assert forall|b2: int, i1: int, i2: int|
                        0 <= b2 < blocks@.len() && 0 <= i1 < i2 < blocks@[b2]@.len() implies #[trigger] blocks@[b2]@[i1] < #[trigger] blocks@[b2]@[i2] by {
                        if b2 != b {
                            assert(blocks@[b2] == before[b2]);
                        } else {
                            assert(blocks@[b2]@[i1] == before[b2]@[i1]);
                            if i2 < before[b2]@.len() {
                                assert(blocks@[b2]@[i2] == before[b2]@[i2]);
                            }
                        }
                    }
                    assert forall|k2: int| 0 <= k2 < k implies #[trigger] in_blocks(blocks@, k2) by {
                        assert(in_blocks(before, k2));
                        let (b3, i) = choose|b3: int, i: int|
                            0 <= b3 < before.len() && 0 <= i < before[b3]@.len() && #[trigger] before[b3]@[i] == k2;
                        assert(blocks@[b3]@[i] == before[b3]@[i]);
                    }
                    assert(blocks@[b as int]@[before[b as int]@.len() as int] == k);
                }
                placed = true;
            }
            b = b + 1;
        }
        if !placed {
            let mut fresh: Vec<usize> = Vec::new();
            fresh.push(k);
            let ghost before = blocks@;
            let ghost pbefore = prefixes@;
            prefixes.push(prefix);
            blocks.push(fresh);
            proof {
                assert forall|b2: int| 0 <= b2 < before.len() implies #[trigger] blocks@[b2] == before[b2] by {}
                assert(blocks@[before.len() as int]@ == seq![k]);
                assert forall|b2: int, i: int|
                    0 <= b2 < blocks@.len() && 0 <= i < blocks@[b2]@.len() implies #[trigger] blocks@[b2]@[i] < k + 1
                        && members(prefixes@[b2]) == prefix_of(members(lv[blocks@[b2]@[i] as int].attrs)) by {
                    if b2 < before.len() {
                        assert(blocks@[b2] == before[b2]);
                        assert(prefixes@[b2] == pbefore[b2]);
                    }
                }
                assert forall|b1: int, b2: int|
                    0 <= b1 < blocks@.len() && 0 <= b2 < blocks@.len() && b1 != b2 implies members(#[trigger] prefixes@[b1])
                        != members(#[trigger] prefixes@[b2]) by {
                    if b1 < pbefore.len() && b2 < pbefore.len() {
                        assert(prefixes@[b1] == pbefore[b1] && prefixes@[b2] == pbefore[b2]);
                    } else if b1 < pbefore.len() {
                        assert(prefixes@[b1] == pbefore[b1]);
                    } else {
                        assert(prefixes@[b2] == pbefore[b2]);
                    }
                }
                assert forall|k2: int| 0 <= k2 < k implies #[trigger] in_blocks(blocks@, k2) by {
                    assert(in_blocks(before, k2));
                    let (b3, i) = choose|b3: int, i: int|
                        0 <= b3 < before.len() && 0 <= i < before[b3]@.len() && #[trigger] before[b3]@[i] == k2;
                    assert(blocks@[b3]@[i] == before[b3]@[i]);
                }
                assert(blocks@[before.len() as int]@[0] == k);
            }
        }
        k = k + 1;
    }
    let mut new_level: Vec<Combination> = Vec::new();
    proof {
        reveal(next_ok);
    }
    let mut b: usize = 0;
    while b < blocks.len()
        invariant
            t.wf(),
            t.width() < usize::MAX,
            lv == level1@,
            l >= 1,
            level_ok(lv, t),
            keys_unique(lv),
            keys_sized(lv, l),
            next_ok(lv, new_level@, t, l),
            b <= blocks@.len(),
            blocks@.len() == prefixes@.len(),
            forall|b2: int, i1: int, i2: int|
                0 <= b2 < blocks@.len() && 0 <= i1 < i2 < blocks@[b2]@.len() ==> #[trigger] blocks@[b2]@[i1] < #[trigger] blocks@[b2]@[i2],
            forall|b1: int, b2: int|
                0 <= b1 < blocks@.len() && 0 <= b2 < blocks@.len() && b1 != b2 ==> members(#[trigger] prefixes@[b1])
                    != members(#[trigger] prefixes@[b2]),
            forall|k2: int|
                0 <= k2 < lv.len() ==> #[trigger] in_blocks(blocks@, k2),
            forall|b2: int, i: int|
                0 <= b2 < blocks@.len() && 0 <= i < blocks@[b2]@.len() ==> #[trigger] blocks@[b2]@[i] < lv.len(),
            forall|b2: int, i: int|
                0 <= b2 < blocks@.len() && 0 <= i < blocks@[b2]@.len() ==> members(prefixes@[b2])
                    == prefix_of(members(lv[#[trigger] blocks@[b2]@[i] as int].attrs)),
            forall|b2: int, i: int, j: int|
                0 <= b2 < b && 0 <= i < j < blocks@[b2]@.len() && all_subsets_present(lv, #[trigger] join_of(lv, blocks@, b2, i, j))
                    ==> has_node(new_level@, join_of(lv, blocks@, b2, i, j)),
        decreases blocks@.len() - b,
    {
        let block = &blocks[b];
        let mut i: usize = 0;
        while i < block.len()
            invariant
                t.wf(),
                t.width() < usize::MAX,
                lv == level1@,
                l >= 1,
                level_ok(lv, t),
                keys_unique(lv),
                keys_sized(lv, l),
                next_ok(lv, new_level@, t, l),
                b < blocks@.len(),
                block == &blocks@[b as int],
                forall|b2: int, i1: int, i2: int|
                    0 <= b2 < blocks@.len() && 0 <= i1 < i2 < blocks@[b2]@.len() ==> #[trigger] blocks@[b2]@[i1] < #[trigger] blocks@[b2]@[i2],
                i <= block@.len(),
                forall|b2: int, i2: int|
                    0 <= b2 < blocks@.len() && 0 <= i2 < blocks@[b2]@.len() ==> #[trigger] blocks@[b2]@[i2] < lv.len(),
                forall|b2: int, i2: int|
                    0 <= b2 < blocks@.len() && 0 <= i2 < blocks@[b2]@.len() ==> members(prefixes@[b2])
                        == prefix_of(members(lv[#[trigger] blocks@[b2]@[i2] as int].attrs)),
                forall|b2: int, i2: int, j: int|
                    0 <= b2 < b && 0 <= i2 < j < blocks@[b2]@.len() && all_subsets_present(lv, #[trigger] join_of(lv, blocks@, b2, i2, j))
                        ==> has_node(new_level@, join_of(lv, blocks@, b2, i2, j)),
                forall|i2: int, j: int|
                    0 <= i2 < i && i2 < j < blocks@[b as int]@.len() && all_subsets_present(lv, #[trigger] join_of(lv, blocks@, b as int, i2, j))
                        ==> has_node(new_level@, join_of(lv, blocks@, b as int, i2, j)),
            decreases block@.len() - i,
        {
            let mut j: usize = i + 1;
            while j < block.len()
                invariant
                    t.wf(),
                    t.width() < usize::MAX,
                    lv == level1@,
                    l >= 1,
                    level_ok(lv, t),
                    keys_unique(lv),
                    keys_sized(lv, l),
                    next_ok(lv, new_level@, t, l),
                    b < blocks@.len(),
                    block == &blocks@[b as int],
                    forall|b2: int, i1: int, i2: int|
                        0 <= b2 < blocks@.len() && 0 <= i1 < i2 < blocks@[b2]@.len() ==> #[trigger] blocks@[b2]@[i1] < #[trigger] blocks@[b2]@[i2],
                forall|b2: int, i1: int, i2: int|
                    0 <= b2 < blocks@.len() && 0 <= i1 < i2 < blocks@[b2]@.len() ==> #[trigger] blocks@[b2]@[i1] < #[trigger] blocks@[b2]@[i2],
                    i < block@.len(),
                    i < j <= block@.len(),
                    forall|b2: int, i2: int|
                        0 <= b2 < blocks@.len() && 0 <= i2 < blocks@[b2]@.len() ==> #[trigger] blocks@[b2]@[i2] < lv.len(),
                    forall|b2: int, i2: int|
                        0 <= b2 < blocks@.len() && 0 <= i2 < blocks@[b2]@.len() ==> members(prefixes@[b2])
                            == prefix_of(members(lv[#[trigger] blocks@[b2]@[i2] as int].attrs)),
                    forall|b2: int, i2: int, j2: int|
                        0 <= b2 < b && 0 <= i2 < j2 < blocks@[b2]@.len() && all_subsets_present(lv, #[trigger] join_of(lv, blocks@, b2, i2, j2))
                            ==> has_node(new_level@, join_of(lv, blocks@, b2, i2, j2)),
                    forall|i2: int, j2: int|
                        0 <= i2 < i && i2 < j2 < blocks@[b as int]@.len() && all_subsets_present(lv, #[trigger] join_of(lv, blocks@, b as int, i2, j2))
                            ==> has_node(new_level@, join_of(lv, blocks@, b as int, i2, j2)),
                    forall|j2: int|
                        i < j2 < j && all_subsets_present(lv, #[trigger] join_of(lv, blocks@, b as int, i as int, j2))
                            ==> has_node(new_level@, join_of(lv, blocks@, b as int, i as int, j2)),
                decreases block@.len() - j,
            {
                let ia = block[i];
                let ib = block[j];
                assert(blocks@[b as int]@[i as int] < blocks@[b as int]@[j as int]);
                let ghost before = new_level@;
                add_join(&level1, ia, ib, &mut new_level, t, Ghost(l));
                proof {
                    assert forall|s2: Set<usize>| has_node(before, s2) implies #[trigger] has_node(new_level@, s2) by {}
                }
                j = j + 1;
            }
            i = i + 1;
        }
        b = b + 1;
    }
    proof {
        reveal(next_ok);
        let nl = new_level@;
        assert forall|x: Set<usize>|
            #[trigger] has_node(nl, x) <==> (x.finite() && x.len() == l + 1 && all_subsets_present(lv, x)) by {
            if has_node(nl, x) {
                let k2 = choose|k2: int| 0 <= k2 < nl.len() && members(#[trigger] nl[k2].attrs) == x;
                assert forall|c: usize| #[trigger] x.contains(c) implies has_node(lv, x.remove(c)) by {
                    assert(members(nl[k2].attrs).contains(c));
                }
            }
            if x.finite() && x.len() == l + 1 && all_subsets_present(lv, x) {
                lemma_set_max(x);
                let y = set_max(x);
                let u = x.remove(y);
                assert(u.len() == l);
                lemma_set_max(u);
                let xm = set_max(u);
                let v = x.remove(xm);
                assert(has_node(lv, u));
                assert(has_node(lv, v));
                let iu = choose|k2: int| 0 <= k2 < lv.len() && members(#[trigger] lv[k2].attrs) == u;
                let iv = choose|k2: int| 0 <= k2 < lv.len() && members(#[trigger] lv[k2].attrs) == v;
                assert(xm != y);
                assert(v.contains(y));
                assert forall|z: usize| #[trigger] v.contains(z) implies z <= y by {
                    assert(x.contains(z));
                }
                lemma_set_max(v);
                assert(set_max(v) == y);
                assert(prefix_of(u) =~= prefix_of(v));
                assert(iu != iv);
                assert(in_blocks(blocks@, iu) && in_blocks(blocks@, iv));
                let (bu, pu) = choose|b3: int, i3: int| 0 <= b3 < blocks@.len() && 0 <= i3 < blocks@[b3]@.len() && #[trigger] blocks@[b3]@[i3] == iu;
                let (bv, pv) = choose|b3: int, i3: int| 0 <= b3 < blocks@.len() && 0 <= i3 < blocks@[b3]@.len() && #[trigger] blocks@[b3]@[i3] == iv;
                assert(members(prefixes@[bu]) == prefix_of(u));
                assert(members(prefixes@[bv]) == prefix_of(v));
                assert(bu == bv);
                assert(u.union(v) =~= x);
                if pu < pv {
                    assert(join_of(lv, blocks@, bu, pu, pv) == x);
                } else {
                    assert(pu != pv);
                    assert(join_of(lv, blocks@, bu, pv, pu) =~= x);
                }
            }
        }
    }
    (level1, new_level)
}

proof fn lemma_nodup_append(before: Seq<(Set<usize>, usize)>, after: Seq<(Set<usize>, usize)>)
    requires
        extends(before, after),
        before.no_duplicates(),
        after.subrange(before.len() as int, after.len() as int).no_duplicates(),
        forall|i: int, j: int| 0 <= i < before.len() <= j < after.len() ==> before[i] != after[j],
    ensures
        after.no_duplicates(),
{
    let added = after.subrange(before.len() as int, after.len() as int);
    assert forall|i: int, j: int| 0 <= i < after.len() && 0 <= j < after.len() && i != j implies after[i] != after[j] by {
        if i < before.len() && j < before.len() {
            assert(after[i] == before[i] && after[j] == before[j]);
        } else if i < before.len() {
            assert(after[i] == before[i]);
        } else if j < before.len() {
            assert(after[j] == before[j]);
        } else {
            assert(after[i] == added[i - before.len()] && after[j] == added[j - before.len()]);
        }
    }
}

/// In every node, no attribute that is both in its set and among its
/// candidates is determined by the rest of the set.
spec fn level_fd_free(level: Seq<Combination>, t: &Table) -> bool {
    forall|p: int, a: usize|
        0 <= p < level.len() && #[trigger] members(level[p].attrs).contains(a) && members(level[p].rhs).contains(a)
            ==> !fd_holds(t, members(level[p].attrs).remove(a), a)
}

/// Dropping some attribute of `x` leaves a set no two rows agree on.
spec fn near_key(t: &Table, x: Set<usize>) -> bool {
    exists|b: usize| x.contains(b) && #[trigger] distinguishes(t, x.remove(b))
}

/// Every invalid node holds a key one attribute smaller than itself.
spec fn invalid_near_key(level: Seq<Combination>, t: &Table) -> bool {
    forall|p: int| 0 <= p < level.len() && !(#[trigger] level[p]).valid ==> near_key(t, members(level[p].attrs))
}

/// Every invalid node is a key.
spec fn invalid_is_key(level: Seq<Combination>, t: &Table) -> bool {
    forall|p: int| 0 <= p < level.len() && !(#[trigger] level[p]).valid ==> distinguishes(t, members(level[p].attrs))
}

/// Key pruning has run on the level: a key that is valid, or that holds no
/// smaller key, keeps no candidate outside itself that all its siblings hold.
spec fn keys_pruned(level: Seq<Combination>, t: &Table) -> bool {
    forall|p: int, a: usize|
        0 <= p < level.len() && distinguishes(t, members(level[p].attrs)) && (level[p].valid || !near_key(
            t,
            members(level[p].attrs),
        )) && #[trigger] members(level[p].rhs).contains(a) && !members(level[p].attrs).contains(a) ==> !siblings_hold(
            level,
            members(level[p].attrs),
            a,
        )
}

/// No proper subset of a reported determinant, one attribute smaller,
/// determines the dependant.
spec fn found_minimal(found: Seq<(Set<usize>, usize)>, t: &Table) -> bool {
    forall|e: int, b: usize|
        0 <= e < found.len() && #[trigger] found[e].0.contains(b) ==> !fd_holds(t, found[e].0.remove(b), found[e].1)
}

proof fn lemma_key_superset(t: &Table, x: Set<usize>, y: Set<usize>)
    requires
        distinguishes(t, x),
        x.subset_of(y),
    ensures
        distinguishes(t, y),
{
    assert forall|i: usize, j: usize| i < t.height() && j < t.height() && i != j implies !#[trigger] agree(t, i as int, j as int, y) by {
        if agree(t, i as int, j as int, y) {
            assert forall|b: usize| #[trigger] x.contains(b) implies t.cell(i as int, b as int) == t.cell(j as int, b as int) by {
                assert(y.contains(b));
            }
            assert(agree(t, i as int, j as int, x));
        }
    }
}

/// A set that determines `a` and grows into a key with `a` is a key already.
proof fn lemma_fd_key(t: &Table, x: Set<usize>, a: usize, k: Set<usize>)
    requires
        fd_holds(t, x, a),
        distinguishes(t, k),
        k.subset_of(x.insert(a)),
    ensures
        distinguishes(t, x),
{
    assert forall|i: usize, j: usize| i < t.height() && j < t.height() && i != j implies !#[trigger] agree(t, i as int, j as int, x) by {
        if agree(t, i as int, j as int, x) {
            assert(t.cell(i as int, a as int) == t.cell(j as int, a as int));
            assert forall|b: usize| #[trigger] k.contains(b) implies t.cell(i as int, b as int) == t.cell(j as int, b as int) by {
                if b != a {
                    assert(x.contains(b));
                }
            }
            assert(agree(t, i as int, j as int, k));
        }
    }
}

/// Candidates after validation are among the starting ones, and none was
/// emitted.
proof fn lemma_rhs_after_in_closure(level0: Seq<Combination>, n: Combination, w: nat, a: usize)
    requires
        rhs_after(level0, n, w, emitted(level0, n, w)).contains(a),
    ensures
        closure_of(level0, members(n.attrs), w).contains(a),
        !emits(level0, n, w, a),
{
    if emitted(level0, n, w) != Set::<usize>::empty() {
        assert(!emitted(level0, n, w).contains(a));
    } else {
        if emits(level0, n, w, a) {
            assert(emitted(level0, n, w).contains(a));
        }
    }
}

/// After validation no node keeps an attribute of its set, among its
/// candidates, that the rest of the set determines.
proof fn lemma_fd_free_after(
    level0: Seq<Combination>,
    before: Seq<Combination>,
    after: Seq<Combination>,
    t: &Table,
    w: nat,
)
    requires
        t.wf(),
        level_ok(level0, t),
        level_ok(before, t),
        keys_unique(level0),
        parents_present(level0, before),
        after.len() == before.len(),
        forall|j: int| 0 <= j < before.len() ==> members(#[trigger] after[j].attrs) == members(before[j].attrs)
            && members(after[j].rhs) == rhs_after(level0, before[j], w, emitted(level0, before[j], w)),
        level_fd_free(level0, t),
        invalid_is_key(level0, t),
        invalid_near_key(before, t),
        keys_pruned(level0, t) || ((forall|j: int| 0 <= j < before.len() ==> #[trigger] before[j].valid)
            && (forall|p: int| 0 <= p < level0.len() ==> #[trigger] level0[p].valid)),
    ensures
        level_fd_free(after, t),
{
    assert forall|j: int, a: usize|
        0 <= j < after.len() && #[trigger] members(after[j].attrs).contains(a) && members(after[j].rhs).contains(a)
            implies !fd_holds(t, members(after[j].attrs).remove(a), a) by {
        let x = members(before[j].attrs);
        lemma_rhs_after_in_closure(level0, before[j], w, a);
        assert(parents_hold(level0, x, a));
        if fd_holds(t, x.remove(a), a) {
            assert(has_node(level0, x.remove(a)));
            let pa = choose|k: int| 0 <= k < level0.len() && members(#[trigger] level0[k].attrs) == x.remove(a);
            assert(level0[pa].ok(t) && before[j].ok(t));
            if before[j].valid && level0[pa].valid {
                crate::dependency::lemma_fd_iff_same_error(t, x, a, before[j].partition@, level0[pa].partition@);
                assert(emits(level0, before[j], w, a));
            } else if distinguishes(t, x.remove(a)) {
                if near_key(t, x.remove(a)) {
                    let b = choose|b: usize| x.remove(a).contains(b) && #[trigger] distinguishes(t, x.remove(a).remove(b));
                    assert(has_node(level0, x.remove(b)));
                    let q = choose|k: int| 0 <= k < level0.len() && members(#[trigger] level0[k].attrs) == x.remove(b);
                    assert(x.contains(b));
                    assert(members(level0[q].rhs).contains(a));
                    assert(members(level0[q].attrs).contains(a));
                    assert(x.remove(b).remove(a) =~= x.remove(a).remove(b));
                    crate::dependency::lemma_key_determines_all(t, x.remove(a).remove(b), a);
                } else {
                    assert(members(level0[pa].rhs).contains(a));
                    assert forall|b: usize| #[trigger] x.remove(a).contains(b) implies sibling_holds(level0, x.remove(a).insert(a).remove(b), a) by {
                        assert(x.remove(a).insert(a).remove(b) =~= x.remove(b));
                        assert(x.contains(b));
                        assert(has_node(level0, x.remove(b)));
                    }
                    assert(siblings_hold(level0, x.remove(a), a));
                    assert(!keys_pruned(level0, t) ==> level0[pa].valid);
                }
            } else {
                if !level0[pa].valid {
                    assert(distinguishes(t, members(level0[pa].attrs)));
                }
                assert(!before[j].valid);
                assert(near_key(t, x));
                let b = choose|b: usize| x.contains(b) && #[trigger] distinguishes(t, x.remove(b));
                if b != a {
                    assert(x.remove(b).subset_of(x.remove(a).insert(a)));
                    lemma_fd_key(t, x.remove(a), a, x.remove(b));
                }
            }
        }
    }
}

/// A determinant none of whose one-smaller subsets determines the dependant
/// has no proper subset that does.
proof fn lemma_minimal_all_subsets(t: &Table, y: Set<usize>, a: usize, z: Set<usize>)
    requires
        forall|b: usize| #[trigger] y.contains(b) ==> !fd_holds(t, y.remove(b), a),
        z.subset_of(y),
        z != y,
    ensures
        !fd_holds(t, z, a),
{
    let b = choose|b: usize| y.contains(b) && !z.contains(b);
    if !(exists|b: usize| y.contains(b) && !z.contains(b)) {
        assert(z =~= y);
    }
    if fd_holds(t, z, a) {
        assert forall|i: usize, j: usize|
            i < t.height() && j < t.height() && #[trigger] agree(t, i as int, j as int, y.remove(b)) implies t.cell(i as int, a as int)
                == t.cell(j as int, a as int) by {
            assert forall|c: usize| #[trigger] z.contains(c) implies t.cell(i as int, c as int) == t.cell(j as int, c as int) by {
                assert(y.remove(b).contains(c));
            }
            assert(agree(t, i as int, j as int, z));
        }
        assert(y.contains(b));
    }
}

/// What pruning leaves keeps the level's invariants for the next step.
proof fn lemma_pruned_invariants(after: Seq<Combination>, pruned: Seq<Combination>, idx: Seq<int>, t: &Table)
    requires
        t.wf(),
        level_ok(after, t),
        keys_unique(after),
        level_fd_free(after, t),
        invalid_near_key(after, t),
        kept_in_order(after, pruned, idx),
        forall|m: int|
            0 <= m < idx.len() ==> {
                let (n, o) = (#[trigger] pruned[m], after[idx[m]]);
                &&& members(n.attrs) == members(o.attrs)
                &&& n.partition == o.partition
                &&& members(n.rhs) == members(o.rhs).difference(pruned_from(after, idx[m]))
                &&& n.valid == (o.valid && pruned_from(after, idx[m]) == Set::<usize>::empty())
            },
    ensures
        level_fd_free(pruned, t),
        invalid_is_key(pruned, t),
        keys_pruned(pruned, t),
{
    assert forall|m: int, a: usize|
        0 <= m < pruned.len() && #[trigger] members(pruned[m].attrs).contains(a) && members(pruned[m].rhs).contains(a)
            implies !fd_holds(t, members(pruned[m].attrs).remove(a), a) by {
        assert(members(after[idx[m]].attrs).contains(a));
        assert(members(after[idx[m]].rhs).contains(a));
    }
    assert forall|m: int| 0 <= m < pruned.len() && !(#[trigger] pruned[m]).valid implies distinguishes(t, members(pruned[m].attrs)) by {
        let j = idx[m];
        let x = members(after[j].attrs);
        assert(after[j].ok(t));
        if !after[j].valid {
            assert(near_key(t, x));
            let b = choose|b: usize| x.contains(b) && #[trigger] distinguishes(t, x.remove(b));
            lemma_key_superset(t, x.remove(b), x);
        } else {
            assert(pruned_from(after, j) != Set::<usize>::empty());
            assert(exists|a: usize| pruned_from(after, j).contains(a)) by {
                if !(exists|a: usize| pruned_from(after, j).contains(a)) {
                    assert(pruned_from(after, j) =~= Set::<usize>::empty());
                }
            }
            let a = choose|a: usize| pruned_from(after, j).contains(a);
            assert(key_prunes(after, j, a));
            crate::dependency::lemma_zero_error_iff_key(after[j].partition@, t, x);
        }
    }
    assert forall|m: int, a: usize|
        0 <= m < pruned.len() && distinguishes(t, members(pruned[m].attrs)) && (pruned[m].valid || !near_key(
            t,
            members(pruned[m].attrs),
        )) && #[trigger] members(pruned[m].rhs).contains(a) && !members(pruned[m].attrs).contains(a) implies !siblings_hold(
            pruned,
            members(pruned[m].attrs),
            a,
        ) by {
        let j = idx[m];
        let x = members(after[j].attrs);
        if siblings_hold(pruned, x, a) {
            assert(after[j].ok(t));
            assert(after[j].valid);
            crate::dependency::lemma_zero_error_iff_key(after[j].partition@, t, x);
            assert forall|b: usize| #[trigger] x.contains(b) implies sibling_holds(after, x.insert(a).remove(b), a) by {
                let sb = x.insert(a).remove(b);
                assert(sibling_holds(pruned, sb, a));
                let m2 = choose|k: int| 0 <= k < pruned.len() && members(#[trigger] pruned[k].attrs) == sb;
                assert(members(after[idx[m2]].attrs) == sb);
                assert(has_node(after, sb));
                assert forall|p: int| 0 <= p < after.len() && members(#[trigger] after[p].attrs) == sb implies members(after[p].rhs).contains(a) by {
                    if p != idx[m2] {
                        assert(members(after[p].attrs) != members(after[idx[m2]].attrs));
                    }
                    assert(members(pruned[m2].rhs).contains(a));
                }
            }
            assert(key_prunes(after, j, a));
            assert(pruned_from(after, j).contains(a));
        }
    }
}

/// Every invalid node of the next level holds a key one attribute smaller.
proof fn lemma_next_near_key(pruned: Seq<Combination>, next: Seq<Combination>, t: &Table, l: nat)
    requires
        invalid_is_key(pruned, t),
        l >= 1,
        keys_sized(next, l + 1),
        forall|k: int| 0 <= k < next.len() ==> built_right(pruned, #[trigger] next[k], t.height()),
    ensures
        invalid_near_key(next, t),
{
    assert forall|k: int| 0 <= k < next.len() && !(#[trigger] next[k]).valid implies near_key(t, members(next[k].attrs)) by {
        let x = members(next[k].attrs);
        assert(built_right(pruned, next[k], t.height()));
        let (p, q) = choose|p: int, q: int| #[trigger] built_from(pruned, x, p, q) && next[k].valid == (pruned[p].valid && pruned[q].valid)
            && (next[k].valid ==> crate::partition::is_product(next[k].partition@, pruned[p].partition@, pruned[q].partition@, t.height()))
            && (next[k].valid ==> crate::partition::stripped(next[k].partition@))
            && (!next[k].valid ==> next[k].partition@ == Seq::<Seq<usize>>::empty());
        lemma_set_max(x);
        let top = set_max(x);
        assert(x.remove(top).len() == l);
        lemma_set_max(x.remove(top));
        let second = set_max(x.remove(top));
        if !pruned[p].valid {
            assert(distinguishes(t, x.remove(top)));
        } else {
            assert(!pruned[q].valid);
            assert(distinguishes(t, x.remove(second)));
            assert(x.contains(second));
        }
    }
}

/// The dependencies validation emits are minimal.
proof fn lemma_validation_minimal(level0: Seq<Combination>, before: Seq<Combination>, t: &Table, w: nat, f: (Set<usize>, usize))
    requires
        parents_present(level0, before),
        level_fd_free(level0, t),
        from_validation(level0, before, w, f),
    ensures
        forall|b: usize| #[trigger] f.0.contains(b) ==> !fd_holds(t, f.0.remove(b), f.1),
{
    let (j, a) = choose|j: int, a: usize| 0 <= j < before.len() && #[trigger] emits(level0, before[j], w, a)
        && f == (members(before[j].attrs).remove(a), a);
    let x = members(before[j].attrs);
    assert(parents_hold(level0, x, a));
    assert forall|b: usize| #[trigger] f.0.contains(b) implies !fd_holds(t, f.0.remove(b), f.1) by {
        assert(x.contains(b));
        assert(has_node(level0, x.remove(b)));
        let q = choose|k: int| 0 <= k < level0.len() && members(#[trigger] level0[k].attrs) == x.remove(b);
        assert(members(level0[q].rhs).contains(a));
        assert(members(level0[q].attrs).contains(a));
        assert(x.remove(b).remove(a) =~= x.remove(a).remove(b));
    }
}

/// The dependencies key pruning emits are minimal.
proof fn lemma_key_pruning_minimal(after: Seq<Combination>, t: &Table, f: (Set<usize>, usize))
    requires
        level_fd_free(after, t),
        from_key_pruning(after, f),
    ensures
        forall|b: usize| #[trigger] f.0.contains(b) ==> !fd_holds(t, f.0.remove(b), f.1),
{
    let (j, a) = choose|j: int, a: usize| 0 <= j < after.len() && #[trigger] key_prunes(after, j, a)
        && f == (members(after[j].attrs), a);
    let x = members(after[j].attrs);
    assert forall|b: usize| #[trigger] f.0.contains(b) implies !fd_holds(t, f.0.remove(b), f.1) by {
        let sb = x.insert(a).remove(b);
        assert(sibling_holds(after, sb, a));
        let q = choose|k: int| 0 <= k < after.len() && members(#[trigger] after[k].attrs) == sb;
        assert(members(after[q].rhs).contains(a));
        assert(sb.contains(a));
        assert(sb.remove(a) =~= x.remove(b));
    }
}

/// `y → a` is a minimal dependency over the attributes below `w`.
spec fn mfd(t: &Table, w: nat, y: Set<usize>, a: usize) -> bool {
    &&& y.finite()
    &&& y.subset_of(positions_below(w))
    &&& a < w
    &&& !y.contains(a)
    &&& fd_holds(t, y, a)
    &&& forall|b: usize| #[trigger] y.contains(b) ==> !fd_holds(t, y.remove(b), a)
}

/// `y` is a non-empty key: key pruning reports the dependencies it determines.
spec fn key_k(t: &Table, y: Set<usize>) -> bool {
    distinguishes(t, y) && y != Set::<usize>::empty()
}

/// Node set `v` is in the level and all its nodes hold `a`, unless `v` is
/// `y` and `y → a` is already found.
spec fn holds_below(level: Seq<Combination>, found: Seq<(Set<usize>, usize)>, t: &Table, y: Set<usize>, a: usize, v: Set<usize>) -> bool {
    (v == y && key_k(t, y) && found.contains((y, a))) || (has_node(level, v) && forall|p: int|
        0 <= p < level.len() && members(#[trigger] level[p].attrs) == v ==> members(level[p].rhs).contains(a))
}

/// Each proper subset of `y ∪ {a}` with `n` attributes, for a minimal
/// `y → a`, is in the level with `a` among its candidates.
spec fn below_inv(level: Seq<Combination>, found: Seq<(Set<usize>, usize)>, t: &Table, w: nat, n: nat) -> bool {
    forall|y: Set<usize>, a: usize, v: Set<usize>|
        #[trigger] mfd(t, w, y, a) && #[trigger] v.subset_of(y.insert(a)) && v != y.insert(a) && v.finite() && v.len() == n
            ==> holds_below(level, found, t, y, a, v)
}

/// Each subset of `y ∪ {a}` with `n` attributes, for a minimal `y → a`, is a
/// node of the level (`y ∪ {a}` itself only when `y` is no non-empty key).
spec fn level_inv(level: Seq<Combination>, t: &Table, w: nat, n: nat) -> bool {
    forall|y: Set<usize>, a: usize, v: Set<usize>|
        #[trigger] mfd(t, w, y, a) && #[trigger] v.subset_of(y.insert(a)) && (v != y.insert(a) || !key_k(t, y)) && v.finite()
            && v.len() == n ==> has_node(level, v)
}

/// Every minimal dependency whose level is behind `l` is found.
spec fn found_inv(found: Seq<(Set<usize>, usize)>, t: &Table, w: nat, l: nat) -> bool {
    forall|y: Set<usize>, a: usize|
        #[trigger] mfd(t, w, y, a) && (y.len() + 1 < l || (y.len() + 1 == l && key_k(t, y))) ==> found.contains((y, a))
}

/// A set that determines one of its members determines the rest too: a
/// dependency inside `v ⊆ y` would make `y` less one attribute determine `a`.
proof fn lemma_inner_fd(t: &Table, y: Set<usize>, a: usize, v: Set<usize>, b: usize)
    requires
        fd_holds(t, y, a),
        v.subset_of(y),
        v.contains(b),
        fd_holds(t, v.remove(b), b),
    ensures
        fd_holds(t, y.remove(b), a),
{
    assert forall|i: usize, j: usize|
        i < t.height() && j < t.height() && #[trigger] agree(t, i as int, j as int, y.remove(b)) implies t.cell(i as int, a as int)
            == t.cell(j as int, a as int) by {
        assert forall|c: usize| #[trigger] v.remove(b).contains(c) implies t.cell(i as int, c as int) == t.cell(j as int, c as int) by {
            assert(y.remove(b).contains(c));
        }
        assert(agree(t, i as int, j as int, v.remove(b)));
        assert forall|c: usize| #[trigger] y.contains(c) implies t.cell(i as int, c as int) == t.cell(j as int, c as int) by {
            if c != b {
                assert(y.remove(b).contains(c));
            }
        }
        assert(agree(t, i as int, j as int, y));
    }
}

/// A set with at least `n` members has a subset of exactly `n`, proper when
/// `n` is smaller.
proof fn lemma_subset_of_size(s: Set<usize>, n: nat) -> (r: Set<usize>)
    requires
        s.finite(),
        n <= s.len(),
    ensures
        r.subset_of(s),
        r.finite(),
        r.len() == n,
        n < s.len() ==> r != s,
    decreases s.len() - n,
{
    if n == s.len() {
        s
    } else {
        let x = s.choose();
        assert(s.len() > 0);
        assert(s.contains(x)) by {
            if !s.contains(x) {
                assert(s =~= Set::<usize>::empty());
            }
        }
        let r = lemma_subset_of_size(s.remove(x), n);
        assert(!r.contains(x));
        r
    }
}

/// The sets of `y ∪ {a}` one attribute smaller than a proper subset `v` are
/// never `y` itself.
proof fn lemma_parent_not_y(y: Set<usize>, a: usize, v: Set<usize>, c: usize)
    requires
        !y.contains(a),
        v.subset_of(y.insert(a)),
        v != y.insert(a),
        v.contains(c),
    ensures
        v.remove(c) != y,
        v.remove(c).subset_of(y.insert(a)),
        v.remove(c) != y.insert(a),
{
    if v.remove(c) == y {
        assert(!y.contains(c));
        assert(c == a);
        assert(v =~= y.insert(a));
    }
    assert(!v.remove(c).contains(c));
}

/// After validation, every proper subset of `y ∪ {a}` at this level is a node
/// holding `a`, and every minimal dependency whose determinant is one level
/// down and no non-empty key is found.
proof fn lemma_complete_compute(
    level0: Seq<Combination>,
    before: Seq<Combination>,
    after: Seq<Combination>,
    t: &Table,
    w: nat,
    l: nat,
    f_s: Seq<(Set<usize>, usize)>,
    mid: Seq<(Set<usize>, usize)>,
)
    requires
        t.wf(),
        l >= 1,
        level_ok(level0, t),
        level_ok(before, t),
        keys_unique(level0),
        keys_unique(before),
        parents_present(level0, before),
        after.len() == before.len(),
        forall|j: int| 0 <= j < before.len() ==> members(#[trigger] after[j].attrs) == members(before[j].attrs)
            && members(after[j].rhs) == rhs_after(level0, before[j], w, emitted(level0, before[j], w)),
        forall|j: int, a: usize| 0 <= j < before.len() && #[trigger] emits(level0, before[j], w, a)
            ==> mid.contains((members(before[j].attrs).remove(a), a)),
        extends(f_s, mid),
        below_inv(level0, f_s, t, w, (l - 1) as nat),
        level_inv(before, t, w, l),
        invalid_is_key(level0, t),
        invalid_near_key(before, t),
        l == 1 ==> (forall|j: int| 0 <= j < before.len() ==> #[trigger] before[j].valid)
            && (forall|p: int| 0 <= p < level0.len() ==> #[trigger] level0[p].valid),
    ensures
        forall|y: Set<usize>, a: usize| #[trigger] mfd(t, w, y, a) && y.len() + 1 == l && !key_k(t, y) ==> mid.contains((y, a)),
        forall|y: Set<usize>, a: usize, v: Set<usize>|
            #[trigger] mfd(t, w, y, a) && #[trigger] v.subset_of(y.insert(a)) && v != y.insert(a) && v.finite() && v.len() == l
                ==> has_node(after, v) && forall|p: int|
                0 <= p < after.len() && members(#[trigger] after[p].attrs) == v ==> members(after[p].rhs).contains(a),
{
    assert forall|y: Set<usize>, a: usize, v: Set<usize>|
        #[trigger] mfd(t, w, y, a) && #[trigger] v.subset_of(y.insert(a)) && v != y.insert(a) && v.finite() && v.len() == l
            implies has_node(after, v) && forall|p: int|
            0 <= p < after.len() && members(#[trigger] after[p].attrs) == v ==> members(after[p].rhs).contains(a) by {
        assert(has_node(before, v));
        let j = choose|k: int| 0 <= k < before.len() && members(#[trigger] before[k].attrs) == v;
        assert(members(after[j].attrs) == v);
        assert(has_node(after, v));
        assert(v != Set::<usize>::empty()) by {
            if v == Set::<usize>::empty() {
                assert(v.len() == 0);
            }
        }
        assert forall|q: int, c: usize|
            0 <= q < level0.len() && #[trigger] v.contains(c) && members(#[trigger] level0[q].attrs) == v.remove(c)
                implies members(level0[q].rhs).contains(a) by {
            lemma_parent_not_y(y, a, v, c);
            assert(v.remove(c).len() == l - 1);
            assert(v.remove(c).subset_of(y.insert(a)));
            assert(holds_below(level0, f_s, t, y, a, v.remove(c)));
        }
        assert(parents_hold(level0, v, a));
        assert(closure_of(level0, v, w).contains(a));
        let e = emitted(level0, before[j], w);
        if e != Set::<usize>::empty() {
            assert(exists|b: usize| e.contains(b)) by {
                if !(exists|b: usize| e.contains(b)) {
                    assert(e =~= Set::<usize>::empty());
                }
            }
            let b = choose|b: usize| e.contains(b);
            assert(emits(level0, before[j], w, b));
            let pb = choose|p: int| 0 <= p < level0.len() && members(#[trigger] level0[p].attrs) == v.remove(b) && level0[p].valid
                && error_of(before[j].partition@) == error_of(level0[p].partition@);
            assert(before[j].ok(t) && level0[pb].ok(t));
            crate::dependency::lemma_fd_iff_same_error(t, v, b, before[j].partition@, level0[pb].partition@);
            if !v.contains(a) {
                assert(v.subset_of(y)) by {
                    assert forall|c: usize| v.contains(c) implies y.contains(c) by {
                        assert(y.insert(a).contains(c));
                    }
                }
                lemma_inner_fd(t, y, a, v, b);
                assert(y.contains(b));
            } else {
                if e.contains(a) {
                    let pa = choose|p: int| 0 <= p < level0.len() && members(#[trigger] level0[p].attrs) == v.remove(a) && level0[p].valid
                        && error_of(before[j].partition@) == error_of(level0[p].partition@);
                    assert(level0[pa].ok(t));
                    crate::dependency::lemma_fd_iff_same_error(t, v, a, before[j].partition@, level0[pa].partition@);
                    assert(v.remove(a).subset_of(y));
                    assert(v.remove(a) != y) by {
                        if v.remove(a) == y {
                            assert(v =~= y.insert(a));
                        }
                    }
                    lemma_minimal_all_subsets(t, y, a, v.remove(a));
                }
            }
        }
        assert forall|p: int| 0 <= p < after.len() && members(#[trigger] after[p].attrs) == v implies members(after[p].rhs).contains(a) by {
            if p != j {
                assert(members(before[p].attrs) == v);
                assert(members(before[p].attrs) != members(before[j].attrs));
            }
        }
    }
    assert forall|y: Set<usize>, a: usize| #[trigger] mfd(t, w, y, a) && y.len() + 1 == l && !key_k(t, y) implies mid.contains((y, a)) by {
        let u = y.insert(a);
        assert(u.subset_of(y.insert(a)));
        assert(u.finite() && u.len() == l);
        assert(has_node(before, u));
        let j = choose|k: int| 0 <= k < before.len() && members(#[trigger] before[k].attrs) == u;
        assert(u.remove(a) =~= y);
        assert(has_node(level0, y));
        let py = choose|k: int| 0 <= k < level0.len() && members(#[trigger] level0[k].attrs) == y;
        assert forall|q: int, c: usize|
            0 <= q < level0.len() && #[trigger] u.contains(c) && members(#[trigger] level0[q].attrs) == u.remove(c)
                implies members(level0[q].rhs).contains(a) by {
            assert(u.remove(c).len() == l - 1);
            assert(u.remove(c).subset_of(y.insert(a)));
            assert(u.remove(c) != y.insert(a));
            assert(holds_below(level0, f_s, t, y, a, u.remove(c)));
        }
        assert(parents_hold(level0, u, a));
        assert(u.contains(a));
        assert(u != Set::<usize>::empty());
        assert(closure_of(level0, u, w).contains(a));
        assert(before[j].valid) by {
            if !before[j].valid && l != 1 {
                assert(near_key(t, u));
                let b = choose|b: usize| u.contains(b) && #[trigger] distinguishes(t, u.remove(b));
                lemma_key_superset(t, u.remove(b), u);
                assert(u.subset_of(y.insert(a)));
                lemma_fd_key(t, y, a, u);
                assert(y != Set::<usize>::empty()) by {
                    assert(y.len() == l - 1);
                }
            }
        }
        assert(level0[py].valid) by {
            if !level0[py].valid && l != 1 {
                assert(distinguishes(t, y));
                assert(y != Set::<usize>::empty()) by {
                    assert(y.len() == l - 1);
                }
            }
        }
        assert(before[j].ok(t) && level0[py].ok(t));
        crate::dependency::lemma_fd_iff_same_error(t, u, a, before[j].partition@, level0[py].partition@);
        assert(emits(level0, before[j], w, a));
    }
}

/// After key pruning, the proper subsets of `y ∪ {a}` at this level still hold
/// `a` (or `y → a` was just found), and every minimal dependency whose
/// determinant is a non-empty key at this level is found.
proof fn lemma_complete_prune(
    before: Seq<Combination>,
    after: Seq<Combination>,
    pruned: Seq<Combination>,
    idx: Seq<int>,
    t: &Table,
    w: nat,
    l: nat,
    found: Seq<(Set<usize>, usize)>,
)
    requires
        t.wf(),
        l >= 1,
        level_ok(after, t),
        keys_unique(after),
        invalid_near_key(after, t),
        forall|y: Set<usize>, a: usize, v: Set<usize>|
            #[trigger] mfd(t, w, y, a) && #[trigger] v.subset_of(y.insert(a)) && v != y.insert(a) && v.finite() && v.len() == l
                ==> has_node(after, v) && forall|p: int|
                0 <= p < after.len() && members(#[trigger] after[p].attrs) == v ==> members(after[p].rhs).contains(a),
        forall|j: int, a: usize| 0 <= j < after.len() && #[trigger] key_prunes(after, j, a) ==> found.contains(
            (members(after[j].attrs), a),
        ),
        kept_in_order(after, pruned, idx),
        forall|m: int|
            0 <= m < idx.len() ==> {
                let (n, o) = (#[trigger] pruned[m], after[idx[m]]);
                &&& members(n.attrs) == members(o.attrs)
                &&& n.partition == o.partition
                &&& members(n.rhs) == members(o.rhs).difference(pruned_from(after, idx[m]))
                &&& n.valid == (o.valid && pruned_from(after, idx[m]) == Set::<usize>::empty())
            },
        keys_unique(pruned),
    ensures
        forall|y: Set<usize>, a: usize| #[trigger] mfd(t, w, y, a) && y.len() == l && key_k(t, y) ==> found.contains((y, a)),
        below_inv(pruned, found, t, w, l),
{
    assert forall|y: Set<usize>, a: usize, v: Set<usize>|
        #[trigger] mfd(t, w, y, a) && #[trigger] v.subset_of(y.insert(a)) && v != y.insert(a) && v.finite() && v.len() == l
            implies holds_below(pruned, found, t, y, a, v) by {
        let j = choose|k: int| 0 <= k < after.len() && members(#[trigger] after[k].attrs) == v;
        assert(members(after[j].rhs).contains(a));
        assert(members(after[j].rhs) != Set::<usize>::empty());
        let m = choose|m: int| 0 <= m < idx.len() && idx[m] == j;
        assert(members(pruned[m].attrs) == v);
        if pruned_from(after, j).contains(a) {
            assert(key_prunes(after, j, a));
            assert(after[j].ok(t));
            crate::dependency::lemma_zero_error_iff_key(after[j].partition@, t, v);
            assert(v.subset_of(y)) by {
                assert forall|c: usize| v.contains(c) implies y.contains(c) by {
                    assert(y.insert(a).contains(c));
                }
            }
            if v != y {
                lemma_minimal_all_subsets(t, y, a, v);
                crate::dependency::lemma_key_determines_all(t, v, a);
            } else {
                assert(v != Set::<usize>::empty()) by {
                    if v == Set::<usize>::empty() {
                        assert(v.len() == 0);
                    }
                }
                assert(found.contains((members(after[j].attrs), a)));
            }
        } else {
            assert(members(pruned[m].rhs).contains(a));
            assert(has_node(pruned, v));
            assert forall|p: int| 0 <= p < pruned.len() && members(#[trigger] pruned[p].attrs) == v implies members(pruned[p].rhs).contains(a) by {
                if p != m {
                    assert(members(pruned[p].attrs) != members(pruned[m].attrs));
                }
            }
        }
    }
    assert forall|y: Set<usize>, a: usize| #[trigger] mfd(t, w, y, a) && y.len() == l && key_k(t, y) implies found.contains((y, a)) by {
        assert(y.subset_of(y.insert(a)));
        assert(y != y.insert(a)) by {
            assert(y.insert(a).contains(a));
        }
        assert(has_node(after, y));
        let j = choose|k: int| 0 <= k < after.len() && members(#[trigger] after[k].attrs) == y;
        assert(after[j].ok(t));
        assert(after[j].valid) by {
            if !after[j].valid {
                assert(near_key(t, y));
                let b = choose|b: usize| y.contains(b) && #[trigger] distinguishes(t, y.remove(b));
                crate::dependency::lemma_key_determines_all(t, y.remove(b), a);
            }
        }
        crate::dependency::lemma_zero_error_iff_key(after[j].partition@, t, y);
        assert forall|b: usize| #[trigger] y.contains(b) implies sibling_holds(after, y.insert(a).remove(b), a) by {
            let sb = y.insert(a).remove(b);
            assert(sb.subset_of(y.insert(a)));
            assert(sb != y.insert(a)) by {
                assert(y.insert(a).contains(b));
            }
            assert(sb.len() == l);
        }
        assert(key_prunes(after, j, a));
    }
}

/// The next level holds every subset of `y ∪ {a}` one attribute larger.
proof fn lemma_complete_generate(
    pruned: Seq<Combination>,
    next: Seq<Combination>,
    t: &Table,
    w: nat,
    l: nat,
    found: Seq<(Set<usize>, usize)>,
)
    requires
        below_inv(pruned, found, t, w, l),
        forall|x: Set<usize>| #[trigger] has_node(next, x) <==> (x.finite() && x.len() == l + 1 && all_subsets_present(pruned, x)),
    ensures
        level_inv(next, t, w, l + 1),
{
    assert forall|y: Set<usize>, a: usize, v: Set<usize>|
        #[trigger] mfd(t, w, y, a) && #[trigger] v.subset_of(y.insert(a)) && (v != y.insert(a) || !key_k(t, y)) && v.finite()
            && v.len() == l + 1 implies has_node(next, v) by {
        assert forall|c: usize| #[trigger] v.contains(c) implies has_node(pruned, v.remove(c)) by {
            assert(v.remove(c).subset_of(y.insert(a)));
            assert(v.remove(c) != y.insert(a)) by {
                assert(y.insert(a).contains(c));
            }
            assert(v.remove(c).len() == l);
            assert(holds_below(pruned, found, t, y, a, v.remove(c)));
            if v.remove(c) == y && key_k(t, y) {
                assert(v =~= y.insert(a)) by {
                    assert(!y.contains(c));
                    assert(c == a);
                }
            }
        }
    }
}

/// At the end of the search every minimal dependency is found.
proof fn lemma_complete_exit(level1: Seq<Combination>, t: &Table, w: nat, l: nat, found: Seq<(Set<usize>, usize)>)
    requires
        l >= 1,
        w <= usize::MAX,
        found_inv(found, t, w, l),
        level_inv(level1, t, w, l),
        level1.len() == 0 || l > w,
    ensures
        forall|y: Set<usize>, a: usize| #[trigger] mfd(t, w, y, a) ==> found.contains((y, a)),
{
    assert forall|y: Set<usize>, a: usize| #[trigger] mfd(t, w, y, a) implies found.contains((y, a)) by {
        let u = y.insert(a);
        assert(y.subset_of(positions_below(w).remove(a))) by {
            assert forall|c: usize| y.contains(c) implies positions_below(w).remove(a).contains(c) by {}
        }
        lemma_positions_finite(w);
        assert(positions_below(w).contains(a));
        vstd::set_lib::lemma_len_subset(y, positions_below(w).remove(a));
        assert(y.len() + 1 <= w);
        if !(y.len() + 1 < l || (y.len() + 1 == l && key_k(t, y))) {
            assert(level1.len() == 0);
            assert(u.finite() && u.len() == y.len() + 1);
            if y.len() + 1 == l {
                assert(u.subset_of(y.insert(a)));
                assert(has_node(level1, u));
            } else {
                let v = lemma_subset_of_size(u, l);
                assert(has_node(level1, v));
            }
        }
    }
}

proof fn lemma_empty_len(s: Set<usize>)
    requires
        s.finite(),
        s.len() == 0,
    ensures
        s == Set::<usize>::empty(),
{
    if exists|x: usize| s.contains(x) {
        let x = choose|x: usize| s.contains(x);
        assert(s.remove(x).len() + 1 == s.len());
    }
    assert(s =~= Set::<usize>::empty());
}

proof fn lemma_single(s: Set<usize>) -> (b: usize)
    requires
        s.finite(),
        s.len() == 1,
    ensures
        s == set![b],
{
    assert(exists|x: usize| s.contains(x)) by {
        if !(exists|x: usize| s.contains(x)) {
            assert(s =~= Set::<usize>::empty());
        }
    }
    let b = choose|x: usize| s.contains(x);
    lemma_empty_len(s.remove(b));
    assert(s =~= set![b]) by {
        assert forall|x: usize| s.contains(x) implies x == b by {
            if x != b {
                assert(s.remove(b).contains(x));
            }
        }
    }
    b
}

proof fn lemma_positions_finite(w: nat)
    requires
        w <= usize::MAX,
    ensures
        positions_below(w).finite(),
        positions_below(w).len() == w,
{
    crate::partition::lemma_rows_below(w);
    assert(positions_below(w) =~= crate::partition::rows_below(w));
}

/// A search for functional dependencies over a table.
pub trait Algorithm {
    /// The dependencies found in `table`: over a table with rows, exactly its
    /// minimal dependencies, each once. Every one holds in the table, no proper
    /// subset of its determinant determines its dependant, and a table with no
    /// attribute or no row yields none.
    fn execute(&mut self, table: &Table) -> (r: FDs)
        requires
            table.wf(),
            table.height() <= i64::MAX,
            table.width() < usize::MAX,
        ensures
            sound_for(&r, table),
            table.width() == 0 || table.height() == 0 ==> r.found().len() == 0,
            table.height() > 0 ==> constants_found(&r, table),
            table.height() > 1 ==> single_keys_found(&r, table),
            r.found().no_duplicates(),
            table.height() > 0 ==> forall|y: Set<usize>, a: usize|
                a < table.width() && y.subset_of(positions_below(table.width())) && !y.contains(a) && fd_holds(table, y, a)
                    && (forall|z: Set<usize>| #[trigger] z.subset_of(y) && z != y ==> !fd_holds(table, z, a)) ==> #[trigger] r.found().contains(
                    (y, a),
                ),
            forall|k: int, y: Set<usize>|
                0 <= k < r.found().len() && #[trigger] y.subset_of(r.found()[k].0) && y != r.found()[k].0 ==> !fd_holds(
                    table,
                    y,
                    r.found()[k].1,
                ),
    ;
}

/// The level-wise lattice search.
pub struct Tane;

impl Tane {
    pub fn new() -> (r: Tane) {
        Tane
    }
}

impl Algorithm for Tane {
    fn execute(&mut self, table: &Table) -> (r: FDs) {
        let mut res = FDs::new(table);
        let w = table.attributes.len();
        let n = table.entries.len();
        if w == 0 || n == 0 {
            return res;
        }
        let root = StrippedPartition::new(n);
        proof {
            let id = identity_classes(n as nat);
            assert forall|i: usize, j: usize|
                i < n && j < n implies (#[trigger] crate::partition::related(root@, i, j) <==> agree(
                    table,
                    i as int,
                    j as int,
                    Set::<usize>::empty(),
                )) by {
                if i != j {
                    assert(id[0][i as int] == i && id[0][j as int] == j);
                    assert(id[0].contains(i) && id[0].contains(j));
                }
            }
        }
        let mut level0: Vec<Combination> = Vec::new();
        level0.push(Combination { attrs: AttrSet::new(), rhs: all_positions(w), partition: root, valid: true });
        let Partitions(mut parts) = Partitions::new(table);
        let ghost all_parts = parts@;
        let mut level1: Vec<Combination> = Vec::new();
        let mut a: usize = 0;
        while a < w
            invariant
                table.wf(),
                w == table.width() < usize::MAX,
                a <= w,
                all_parts.len() == w,
                parts@ == all_parts.subrange(a as int, w as int),
                forall|b: int|
                    0 <= b < w ==> (#[trigger] all_parts[b]).height() == table.height()
                        && partition_of(all_parts[b]@, table, set![b as usize]),
                level_ok(level1@, table),
                level1@.len() == a,
                forall|q: int| 0 <= q < a ==> members(#[trigger] level1@[q].attrs) == set![q as usize],
                forall|q: int| 0 <= q < a ==> #[trigger] level1@[q].valid,
            decreases w - a,
        {
            let mut key = AttrSet::new();
            key.insert(a);
            assert(members(key) =~= set![a]);
            let partition = parts.remove(0);
            assert(partition == all_parts[a as int]);
            let ghost before = level1@;
            level1.push(Combination { attrs: key, rhs: all_positions(w), partition, valid: true });
            proof {
                assert forall|q: int| 0 <= q < level1@.len() implies (#[trigger] level1@[q]).ok(table) by {
                    if q < before.len() {
                        assert(level1@[q] == before[q]);
                    }
                }
                assert forall|q: int| 0 <= q < a + 1 implies members(#[trigger] level1@[q].attrs) == set![q as usize] by {
                    if q < before.len() {
                        assert(level1@[q] == before[q]);
                    }
                }
                assert forall|q: int| 0 <= q < a + 1 implies #[trigger] level1@[q].valid by {
                    if q < before.len() {
                        assert(level1@[q] == before[q]);
                    }
                }
            }
            assert(parts@ =~= all_parts.subrange(a + 1, w as int));
            a = a + 1;
        }
        proof {
            assert forall|k: int, b: usize|
                0 <= k < level1@.len() && #[trigger] members(level1@[k].attrs).contains(b) implies has_node(
                    level0@,
                    members(level1@[k].attrs).remove(b),
                ) by {
                assert(members(level1@[k].attrs).remove(b) =~= Set::<usize>::empty());
                assert(members(level0@[0].attrs) == Set::<usize>::empty());
            }
            assert(level0@[0].ok(table));
        }
        proof {
            assert forall|i: int, j: int|
                0 <= i < level1@.len() && 0 <= j < level1@.len() && i != j implies members(#[trigger] level1@[i].attrs)
                    != members(#[trigger] level1@[j].attrs) by {
                assert(set![i as usize].contains(i as usize));
            }
            assert forall|i: int| 0 <= i < level1@.len() implies members(#[trigger] level1@[i].attrs).finite()
                && members(level1@[i].attrs).len() == 1 by {
                assert(members(level1@[i].attrs) == set![i as usize]);
                assert(set![i as usize] =~= Set::<usize>::empty().insert(i as usize));
            }
        }
        proof {
            assert forall|y: Set<usize>, a: usize, v: Set<usize>|
                #[trigger] mfd(table, w as nat, y, a) && #[trigger] v.subset_of(y.insert(a)) && v != y.insert(a) && v.finite() && v.len() == 0
                    implies holds_below(level0@, res.found(), table, y, a, v) by {
                lemma_empty_len(v);
                assert(members(level0@[0].attrs) == v);
                assert(has_node(level0@, v));
                assert forall|p: int| 0 <= p < level0@.len() && members(#[trigger] level0@[p].attrs) == v implies members(level0@[p].rhs).contains(a) by {
                    assert(p == 0);
                }
            }
            assert forall|y: Set<usize>, a: usize, v: Set<usize>|
                #[trigger] mfd(table, w as nat, y, a) && #[trigger] v.subset_of(y.insert(a)) && (v != y.insert(a) || !key_k(table, y))
                    && v.finite() && v.len() == 1 implies has_node(level1@, v) by {
                let b = lemma_single(v);
                assert(y.insert(a).contains(b));
                assert(b < w);
                assert(members(level1@[b as int].attrs) == set![b]);
            }
            assert forall|y: Set<usize>, a: usize|
                #[trigger] mfd(table, w as nat, y, a) && (y.len() + 1 < 1 || (y.len() + 1 == 1 && key_k(table, y))) implies res.found().contains((y, a)) by {
                lemma_empty_len(y);
            }
        }
        let mut l: usize = 1;
        while level1.len() > 0 && l <= w
            invariant
                table.wf(),
                w == table.width() < usize::MAX,
                1 <= l <= w + 1,
                level_ok(level0@, table),
                level_ok(level1@, table),
                parents_present(level0@, level1@),
                keys_unique(level0@),
                keys_unique(level1@),
                keys_sized(level1@, l as nat),
                sound_for(&res, table),
                l == 1 ==> {
                    &&& level0@.len() == 1
                    &&& members(level0@[0].attrs) == Set::<usize>::empty()
                    &&& level0@[0].valid
                    &&& members(level0@[0].rhs) == positions_below(w as nat)
                    &&& level1@.len() == w
                    &&& forall|q: int| 0 <= q < w ==> members(#[trigger] level1@[q].attrs) == set![q as usize]
                    &&& forall|q: int| 0 <= q < w ==> #[trigger] level1@[q].valid
                },
                l > 1 ==> constants_found(&res, table),
                l > 1 && table.height() > 1 ==> single_keys_found(&res, table),
                res.found().no_duplicates(),
                found_minimal(res.found(), table),
                level_fd_free(level0@, table),
                invalid_is_key(level0@, table),
                invalid_near_key(level1@, table),
                l == 1 || keys_pruned(level0@, table),
                below_inv(level0@, res.found(), table, w as nat, (l - 1) as nat),
                level_inv(level1@, table, w as nat, l as nat),
                found_inv(res.found(), table, w as nat, l as nat),
                forall|e: int| 0 <= e < res.found().len() ==> (#[trigger] res.found()[e]).0.finite() && res.found()[e].0.len() < l,
                forall|e: int, p: int|
                    0 <= e < res.found().len() && (#[trigger] res.found()[e]).0.len() + 1 == l && 0 <= p < level0@.len()
                        && members(#[trigger] level0@[p].attrs) == res.found()[e].0 ==> !level0@[p].valid,
            decreases w + 1 - l,
        {
            let ghost first = l == 1;
            let ghost before = level1@;
            let ghost f_s = res.found();
            compute_dependencies(&level0, &mut level1, table, &mut res);
            proof {
                if first {
                    assert forall|a: usize|
                        a < table.width() && #[trigger] fd_holds(table, Set::<usize>::empty(), a) implies res.found().contains(
                            (Set::<usize>::empty(), a),
                        ) by {
                        let j = a as int;
                        assert(members(before[j].attrs) == set![a]);
                        assert(members(before[j].attrs).contains(a));
                        assert(members(before[j].attrs).remove(a) =~= Set::<usize>::empty());
                        assert(before[j].valid);
                        assert forall|p: int, c: usize|
                            0 <= p < level0@.len() && #[trigger] members(before[j].attrs).contains(c)
                                && members(#[trigger] level0@[p].attrs) == members(before[j].attrs).remove(c)
                                implies members(level0@[p].rhs).contains(a) by {
                            assert(p == 0);
                        }
                        assert(parents_hold(level0@, members(before[j].attrs), a));
                        assert(all_valid(level0@, members(before[j].attrs).remove(a)));
                    }
                }
            }
            let ghost mid = res.found();
            let ghost after = level1@;
            assert forall|i: int, j: int|
                0 <= i < after.len() && 0 <= j < after.len() && i != j implies members(#[trigger] after[i].attrs)
                    != members(#[trigger] after[j].attrs) by {
                assert(members(after[i].attrs) == members(before[i].attrs));
                assert(members(after[j].attrs) == members(before[j].attrs));
            }
            assert forall|i: int| 0 <= i < after.len() implies members(#[trigger] after[i].attrs).finite()
                && members(after[i].attrs).len() == l as nat by {
                assert(members(after[i].attrs) == members(before[i].attrs));
            }
            proof {
                if first {
                    assert forall|q: int| 0 <= q < w implies parents_hold(level0@, members(before[q].attrs), q as usize) && (forall|a: usize| a < w ==> parents_hold(level0@, members(before[q].attrs), a)) by {
                        assert forall|a: usize| a < w implies parents_hold(level0@, members(before[q].attrs), a) by {
                            assert forall|p: int, c: usize|
                                0 <= p < level0@.len() && #[trigger] members(before[q].attrs).contains(c)
                                    && members(#[trigger] level0@[p].attrs) == members(before[q].attrs).remove(c)
                                    implies members(level0@[p].rhs).contains(a) by {
                                assert(p == 0);
                            }
                        }
                    }
                }
            }
            proof {
                assert forall|q: int| 0 <= q < after.len() && !(#[trigger] after[q]).valid implies near_key(table, members(after[q].attrs)) by {
                    assert(!before[q].valid);
                    assert(members(after[q].attrs) == members(before[q].attrs));
                }
                if first {
                    assert forall|j: int| 0 <= j < before.len() implies #[trigger] before[j].valid by {}
                    assert forall|p: int| 0 <= p < level0@.len() implies #[trigger] level0@[p].valid by {}
                }
                lemma_fd_free_after(level0@, before, after, table, w as nat);
                lemma_complete_compute(level0@, before, after, table, w as nat, l as nat, f_s, mid);
                assert forall|e: int, b: usize|
                    0 <= e < mid.len() && #[trigger] mid[e].0.contains(b) implies !fd_holds(table, mid[e].0.remove(b), mid[e].1) by {
                    if e < f_s.len() {
                        assert(mid[e] == f_s[e]);
                    } else {
                        lemma_validation_minimal(level0@, before, table, w as nat, mid[e]);
                    }
                }
            }
            proof {
                assert forall|i: int, j: int| 0 <= i < f_s.len() <= j < mid.len() implies f_s[i] != mid[j] by {
                    assert(from_validation(level0@, before, w as nat, mid[j]));
                    let (jj, a) = choose|jj: int, a: usize| 0 <= jj < before.len() && #[trigger] emits(level0@, before[jj], w as nat, a)
                        && mid[j] == (members(before[jj].attrs).remove(a), a);
                    let p = choose|p: int| 0 <= p < level0@.len() && members(#[trigger] level0@[p].attrs) == members(before[jj].attrs).remove(a)
                        && level0@[p].valid && error_of(before[jj].partition@) == error_of(level0@[p].partition@);
                    assert(members(before[jj].attrs).len() == l);
                    assert(members(before[jj].attrs).remove(a).len() + 1 == l);
                    if f_s[i] == mid[j] {
                        assert(f_s[i].0.len() + 1 == l);
                        assert(!level0@[p].valid);
                    }
                }
                lemma_nodup_append(f_s, mid);
                assert forall|e: int| 0 <= e < mid.len() implies (#[trigger] mid[e]).0.finite() && mid[e].0.len() + 1 <= l by {
                    if e < f_s.len() {
                        assert(mid[e] == f_s[e]);
                    } else {
                        assert(from_validation(level0@, before, w as nat, mid[e]));
                        let (jj, a) = choose|jj: int, a: usize| 0 <= jj < before.len() && #[trigger] emits(level0@, before[jj], w as nat, a)
                            && mid[e] == (members(before[jj].attrs).remove(a), a);
                        assert(members(before[jj].attrs).len() == l);
                    }
                }
            }
            let pruned = prune(level1, table, &mut res);
            proof {
                assert forall|i: int, j: int| 0 <= i < mid.len() <= j < res.found().len() implies mid[i] != res.found()[j] by {
                    assert(from_key_pruning(after, res.found()[j]));
                    let (jj, a) = choose|jj: int, a: usize| 0 <= jj < after.len() && #[trigger] key_prunes(after, jj, a)
                        && res.found()[j] == (members(after[jj].attrs), a);
                    assert(members(after[jj].attrs).len() == l);
                }
                lemma_nodup_append(mid, res.found());
                assert forall|e: int, b: usize|
                    0 <= e < res.found().len() && #[trigger] res.found()[e].0.contains(b) implies !fd_holds(table, res.found()[e].0.remove(b), res.found()[e].1) by {
                    if e < mid.len() {
                        assert(res.found()[e] == mid[e]);
                    } else {
                        lemma_key_pruning_minimal(after, table, res.found()[e]);
                    }
                }
                assert forall|e: int| 0 <= e < res.found().len() implies (#[trigger] res.found()[e]).0.finite() && res.found()[e].0.len() < l + 1 by {
                    if e < mid.len() {
                        assert(res.found()[e] == mid[e]);
                    } else {
                        assert(from_key_pruning(after, res.found()[e]));
                        let (jj, a) = choose|jj: int, a: usize| 0 <= jj < after.len() && #[trigger] key_prunes(after, jj, a)
                            && res.found()[e] == (members(after[jj].attrs), a);
                        assert(members(after[jj].attrs).len() == l);
                    }
                }
            }
            proof {
                assert forall|a: usize|
                    a < table.width() && #[trigger] fd_holds(table, Set::<usize>::empty(), a) implies res.found().contains(
                        (Set::<usize>::empty(), a),
                    ) by {
                    if !first {
                        assert(f_s.contains((Set::<usize>::empty(), a)));
                        let q = choose|q: int| 0 <= q < f_s.len() && f_s[q] == (Set::<usize>::empty(), a);
                        assert(mid[q] == f_s[q]);
                    }
                    if first || l > 1 {
                        assert(mid.contains((Set::<usize>::empty(), a)));
                        let q = choose|q: int| 0 <= q < mid.len() && mid[q] == (Set::<usize>::empty(), a);
                        assert(res.found()[q] == mid[q]);
                    }
                }
            }
            proof {
                if first && table.height() > 1 {
                    assert forall|k: usize, a: usize|
                        k < table.width() && a < table.width() && k != a && distinguishes(table, set![k]) && !fd_holds(
                            table,
                            Set::<usize>::empty(),
                            a,
                        ) implies #[trigger] res.found().contains((set![k], a)) by {
                        let kk = k as int;
                        let ka = a as int;
                        assert(members(before[kk].attrs) == set![k]);
                        assert(members(before[ka].attrs) == set![a]);
                        assert(set![k].remove(k) =~= Set::<usize>::empty());
                        assert(set![a].remove(a) =~= Set::<usize>::empty());
                        assert(!fd_holds(table, Set::<usize>::empty(), k)) by {
                            assert(!agree(table, 0, 1, set![k]));
                            assert(set![k].contains(k));
                            assert(agree(table, 0, 1, Set::<usize>::empty()));
                        }
                        assert(no_inner_fd(table, set![k]));
                        assert(no_inner_fd(table, set![a]));
                        assert(set![k] != Set::<usize>::empty()) by {
                            assert(set![k].contains(k));
                        }
                        assert(set![a] != Set::<usize>::empty()) by {
                            assert(set![a].contains(a));
                        }
                        assert(members(after[kk].rhs).contains(a));
                        assert(members(after[ka].rhs).contains(a));
                        assert(before[kk].ok(table));
                        lemma_zero_error_iff_key(after[kk].partition@, table, set![k]);
                        assert(set![k].insert(a).remove(k) =~= set![a]);
                        assert forall|b: usize| #[trigger] set![k].contains(b) implies sibling_holds(after, set![k].insert(a).remove(b), a) by {
                            assert(b == k);
                            assert(members(after[ka].attrs) == set![a]);
                            assert(has_node(after, set![a]));
                            assert forall|p: int| 0 <= p < after.len() && members(#[trigger] after[p].attrs) == set![a] implies members(after[p].rhs).contains(a) by {
                                assert(members(after[p].attrs) == set![p as usize]);
                                assert(set![p as usize].contains(p as usize));
                                assert(p == ka);
                            }
                        }
                        assert(key_prunes(after, kk, a));
                    }
                }
                if !first && table.height() > 1 {
                    assert forall|k: usize, a: usize|
                        k < table.width() && a < table.width() && k != a && distinguishes(table, set![k]) && !fd_holds(
                            table,
                            Set::<usize>::empty(),
                            a,
                        ) implies #[trigger] res.found().contains((set![k], a)) by {
                        assert(f_s.contains((set![k], a)));
                        lemma_extends_contains(f_s, mid, (set![k], a));
                        lemma_extends_contains(mid, res.found(), (set![k], a));
                    }
                }
            }
            proof {
                let idx = choose|idx: Seq<int>| {
                    &&& #[trigger] kept_in_order(after, pruned@, idx)
                    &&& forall|m: int|
                        0 <= m < idx.len() ==> {
                            let (n, o) = (#[trigger] pruned@[m], after[idx[m]]);
                            &&& members(n.attrs) == members(o.attrs)
                            &&& n.partition == o.partition
                            &&& members(n.rhs) == members(o.rhs).difference(pruned_from(after, idx[m]))
                            &&& n.valid == (o.valid && pruned_from(after, idx[m]) == Set::<usize>::empty())
                        }
                };
                assert forall|i: int, j: int|
                    0 <= i < pruned@.len() && 0 <= j < pruned@.len() && i != j implies members(#[trigger] pruned@[i].attrs)
                        != members(#[trigger] pruned@[j].attrs) by {
                    assert(members(pruned@[i].attrs) == members(after[idx[i]].attrs));
                    assert(members(pruned@[j].attrs) == members(after[idx[j]].attrs));
                    if i < j {
                        assert(idx[i] < idx[j]);
                    } else {
                        assert(idx[j] < idx[i]);
                    }
                }
                assert forall|i: int| 0 <= i < pruned@.len() implies members(#[trigger] pruned@[i].attrs).finite()
                    && members(pruned@[i].attrs).len() == l as nat by {
                    assert(members(pruned@[i].attrs) == members(after[idx[i]].attrs));
                }
                lemma_pruned_invariants(after, pruned@, idx, table);
                lemma_complete_prune(before, after, pruned@, idx, table, w as nat, l as nat, res.found());
                assert forall|y: Set<usize>, a: usize|
                    #[trigger] mfd(table, w as nat, y, a) && (y.len() + 1 < l + 1 || (y.len() + 1 == l + 1 && key_k(table, y)))
                        implies res.found().contains((y, a)) by {
                    if y.len() + 1 < l || (y.len() + 1 == l && key_k(table, y)) {
                        lemma_extends_contains(f_s, mid, (y, a));
                        lemma_extends_contains(mid, res.found(), (y, a));
                    } else if y.len() + 1 == l {
                        lemma_extends_contains(mid, res.found(), (y, a));
                    }
                }
                assert forall|e: int, p: int|
                    0 <= e < res.found().len() && (#[trigger] res.found()[e]).0.len() == l && 0 <= p < pruned@.len()
                        && members(#[trigger] pruned@[p].attrs) == res.found()[e].0 implies !pruned@[p].valid by {
                    if e < mid.len() {
                        assert(res.found()[e] == mid[e]);
                    } else {
                        assert(from_key_pruning(after, res.found()[e]));
                        let (jj, a) = choose|jj: int, a: usize| 0 <= jj < after.len() && #[trigger] key_prunes(after, jj, a)
                            && res.found()[e] == (members(after[jj].attrs), a);
                        assert(members(after[jj].rhs) != Set::<usize>::empty()) by {
                            assert(members(after[jj].rhs).contains(a));
                        }
                        let m = choose|m: int| 0 <= m < idx.len() && idx[m] == jj;
                        assert(pruned_from(after, jj).contains(a));
                        assert(!pruned@[m].valid);
                        assert(members(pruned@[m].attrs) == members(after[jj].attrs));
                        if p != m {
                            assert(members(pruned@[p].attrs) != members(pruned@[m].attrs));
                        }
                    }
                }
            }
            let (prev, next) = generate_next_level(pruned, table, Ghost(l as nat));
            proof {
                lemma_next_near_key(prev@, next@, table, l as nat);
                lemma_complete_generate(prev@, next@, table, w as nat, l as nat, res.found());
            }
            level0 = prev;
            level1 = next;
            l = l + 1;
        }
        proof {
            lemma_complete_exit(level1@, table, w as nat, l as nat, res.found());
            assert forall|y: Set<usize>, a: usize|
                a < table.width() && y.subset_of(positions_below(table.width())) && !y.contains(a) && fd_holds(table, y, a)
                    && (forall|z: Set<usize>| #[trigger] z.subset_of(y) && z != y ==> !fd_holds(table, z, a)) implies #[trigger] res.found().contains(
                    (y, a),
                ) by {
                lemma_positions_finite(w as nat);
                vstd::set_lib::lemma_len_subset(y, positions_below(w as nat));
                assert forall|b: usize| #[trigger] y.contains(b) implies !fd_holds(table, y.remove(b), a) by {
                    assert(y.remove(b).subset_of(y));
                    assert(y.remove(b) != y);
                }
                assert(mfd(table, w as nat, y, a));
            }
            assert forall|k: int, y: Set<usize>|
                0 <= k < res.found().len() && #[trigger] y.subset_of(res.found()[k].0) && y != res.found()[k].0 implies !fd_holds(
                    table,
                    y,
                    res.found()[k].1,
                ) by {
                assert forall|b: usize| #[trigger] res.found()[k].0.contains(b) implies !fd_holds(table, res.found()[k].0.remove(b), res.found()[k].1) by {}
                lemma_minimal_all_subsets(table, res.found()[k].0, res.found()[k].1, y);
            }
        }
        res
    }
}

} // verus!
