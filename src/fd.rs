//! Functional dependencies over a schema, and the sink that collects them.
use std::rc::Rc;
use vstd::prelude::*;
use crate::table::{Attribute, Table, share_schema};
use vstd::string::StrSliceExecFns;

verus! {

broadcast use vstd::seq_lib::group_to_multiset_ensures;

/// The ranks of a list of attributes.
pub open spec fn ranks(attrs: Seq<Attribute>) -> Set<usize> {
    Set::new(|r: usize| exists|i: int| 0 <= i < attrs.len() && #[trigger] attrs[i].rank == r)
}

/// `x` comes no later than `y` in code point order.
pub open spec fn name_le(x: Seq<char>, y: Seq<char>) -> bool
    decreases x.len(),
{
    if x.len() == 0 {
        true
    } else if y.len() == 0 {
        false
    } else if x[0] != y[0] {
        x[0] < y[0]
    } else {
        name_le(x.drop_first(), y.drop_first())
    }
}

/// Attributes are ordered by rank, then by name.
pub open spec fn attr_le(a: Attribute, b: Attribute) -> bool {
    a.rank < b.rank || (a.rank == b.rank && name_le(a.value@, b.value@))
}

/// The list is ordered by rank, then by name.
pub open spec fn sorted_by_rank(attrs: Seq<Attribute>) -> bool {
    forall|i: int, j: int| 0 <= i < j < attrs.len() ==> attr_le(attrs[i], attrs[j])
}

proof fn lemma_name_le_total(x: Seq<char>, y: Seq<char>)
    ensures
        name_le(x, y) || name_le(y, x),
    decreases x.len(),
{
    if x.len() > 0 && y.len() > 0 && x[0] == y[0] {
        lemma_name_le_total(x.drop_first(), y.drop_first());
    }
}

proof fn lemma_name_le_trans(x: Seq<char>, y: Seq<char>, z: Seq<char>)
    requires
        name_le(x, y),
        name_le(y, z),
    ensures
        name_le(x, z),
    decreases x.len(),
{
    if x.len() > 0 && y.len() > 0 && z.len() > 0 && x[0] == y[0] && y[0] == z[0] {
        lemma_name_le_trans(x.drop_first(), y.drop_first(), z.drop_first());
    }
}

/// Whether `a` comes no later than `b`: by rank, then by name.
fn attr_comes_first(a: &Attribute, b: &Attribute) -> (r: bool)
    ensures
        r == attr_le(*a, *b),
{
    if a.rank != b.rank {
        return a.rank < b.rank;
    }
    let x = a.value.as_str();
    let y = b.value.as_str();
    let nx = x.unicode_len();
    let ny = y.unicode_len();
    assert(x@.subrange(0, nx as int) =~= x@);
    assert(y@.subrange(0, ny as int) =~= y@);
    let mut i: usize = 0;
    while i < nx && i < ny
        invariant
            a.rank == b.rank,
            x@ == a.value@,
            y@ == b.value@,
            nx == x@.len(),
            ny == y@.len(),
            i <= nx,
            i <= ny,
            x@.subrange(0, i as int) == y@.subrange(0, i as int),
            name_le(x@, y@) == name_le(x@.subrange(i as int, nx as int), y@.subrange(i as int, ny as int)),
        decreases nx - i,
    {
        let cx = x.get_char(i);
        let cy = y.get_char(i);
        assert(x@.subrange(i as int, nx as int)[0] == cx);
        assert(y@.subrange(i as int, ny as int)[0] == cy);
        let ghost sx = x@.subrange(i as int, nx as int);
        let ghost sy = y@.subrange(i as int, ny as int);
        assert(sx.len() > 0 && sy.len() > 0);
        if cx != cy {
            assert(name_le(sx, sy) == (cx < cy));
            return cx < cy;
        }
        assert(name_le(sx, sy) == name_le(sx.drop_first(), sy.drop_first()));
        assert(x@.subrange(i as int, nx as int).drop_first() =~= x@.subrange(i + 1, nx as int));
        assert(y@.subrange(i as int, ny as int).drop_first() =~= y@.subrange(i + 1, ny as int));
        assert(x@.subrange(0, i + 1) =~= x@.subrange(0, i as int).push(cx));
        assert(y@.subrange(0, i + 1) =~= y@.subrange(0, i as int).push(cy));
        i = i + 1;
    }
    i == nx
}

/// A copy of an attribute, field by field.
pub(crate) fn copy_attribute(a: &Attribute) -> (r: Attribute)
    ensures
        r == *a,
{
    Attribute { rank: a.rank, value: a.value.clone() }
}

/// The attributes reordered by rank, and by name among equal ranks.
pub fn sort_by_rank(attrs: Vec<Attribute>) -> (r: Vec<Attribute>)
    ensures
        r@.to_multiset() == attrs@.to_multiset(),
        sorted_by_rank(r@),
{
    let ghost orig = attrs@;
    let mut rest = attrs;
    let mut out: Vec<Attribute> = Vec::new();
    while rest.len() > 0
        invariant
            out@.to_multiset().add(rest@.to_multiset()) == orig.to_multiset(),
            sorted_by_rank(out@),
            forall|i: int, j: int|
                0 <= i < out@.len() && 0 <= j < rest@.len() ==> attr_le(out@[i], rest@[j]),
        decreases rest@.len(),
    {
        let mut m: usize = 0;
        let mut k: usize = 1;
        proof {
            lemma_name_le_total(rest@[0].value@, rest@[0].value@);
        }
        while k < rest.len()
            invariant
                0 < rest@.len(),
                m < rest@.len(),
                m < k <= rest@.len(),
                forall|j: int| 0 <= j < k ==> attr_le(rest@[m as int], rest@[j]),
            decreases rest@.len() - k,
        {
            if !attr_comes_first(&rest[m], &rest[k]) {
                proof {
                    lemma_name_le_total(rest@[m as int].value@, rest@[k as int].value@);
                    assert forall|j: int| 0 <= j < k + 1 implies attr_le(rest@[k as int], rest@[j]) by {
                        if j < k {
                            if rest@[k as int].rank == rest@[m as int].rank && rest@[m as int].rank == rest@[j].rank {
                                lemma_name_le_trans(rest@[k as int].value@, rest@[m as int].value@, rest@[j].value@);
                            }
                        } else {
                            lemma_name_le_total(rest@[k as int].value@, rest@[k as int].value@);
                        }
                    }
                }
                m = k;
            } else {
                proof {
                    assert(attr_le(rest@[m as int], rest@[k as int]));
                }
            }
            k = k + 1;
        }
        let ghost before = rest@;
        let ghost out_before = out@;
        let x = rest.remove(m);
        out.push(x);
        proof {
            assert(before.remove(m as int).to_multiset() =~= before.to_multiset().remove(x));
            assert(out@.to_multiset() =~= out_before.to_multiset().insert(x));
            assert(out@.to_multiset().add(rest@.to_multiset()) =~= orig.to_multiset());
            assert forall|i: int, j: int|
                0 <= i < out@.len() && 0 <= j < rest@.len() implies attr_le(out@[i], rest@[j]) by {
                if j < m {
                    assert(rest@[j] == before[j]);
                } else {
                    assert(rest@[j] == before[j + 1]);
                }
            }
        }
    }
    out
}

/// A dependency: the determinant's values fix the dependant's value.
pub struct FunctionalDependency {
    pub determinant: Vec<Attribute>,
    pub dependant: Attribute,
}

impl FunctionalDependency {
    /// The ranks of the determinant.
    pub open spec fn lhs(&self) -> Set<usize> {
        ranks(self.determinant@)
    }

    /// The rank of the dependant.
    pub open spec fn rhs(&self) -> usize {
        self.dependant.rank
    }

    /// The last attribute is the dependant and the others, ordered by rank,
    /// the determinant. An empty list gives an unnamed dependant of rank 0
    /// and an empty determinant.
    pub fn new_from_vec(attr_vec: Vec<Attribute>) -> (r: FunctionalDependency)
        ensures
            attr_vec@.len() > 0 ==> r.dependant == attr_vec@.last()
                && r.determinant@.to_multiset() == attr_vec@.drop_last().to_multiset(),
            attr_vec@.len() == 0 ==> r.dependant.rank == 0 && r.dependant.value@.len() == 0
                && r.determinant@.len() == 0,
            sorted_by_rank(r.determinant@),
    {
        let mut group = attr_vec;
        let dependant = match group.pop() {
            Some(last) => last,
            None => Attribute { rank: 0, value: String::new() },
        };
        let ghost rest = group@;
        let determinant = sort_by_rank(group);
        assert(determinant@.to_multiset().len() == determinant@.len());
        assert(rest.to_multiset().len() == rest.len());
        assert(attr_vec@.len() > 0 ==> rest == attr_vec@.drop_last());
        FunctionalDependency { determinant, dependant }
    }
}

/// The dependencies found in one table, with the table's name and schema.
pub struct FDs {
    fds: Vec<FunctionalDependency>,
    table_name: String,
    attributes: Rc<Vec<Attribute>>,
}

impl FDs {
    /// The dependencies, in the order they were added, as (determinant ranks,
    /// dependant rank).
    pub closed spec fn found(&self) -> Seq<(Set<usize>, usize)> {
        self.fds@.map_values(|f: FunctionalDependency| (f.lhs(), f.rhs()))
    }

    /// The dependencies, in the order they were added.
    pub closed spec fn stored(&self) -> Seq<FunctionalDependency> {
        self.fds@
    }

    /// The schema the dependencies are stated over.
    pub closed spec fn schema(&self) -> Seq<Attribute> {
        self.attributes@
    }

    /// The name of the table.
    pub closed spec fn name(&self) -> Seq<char> {
        self.table_name@
    }

    pub fn new(table: &Table) -> (r: FDs)
        ensures
            r.found().len() == 0,
            r.stored().len() == 0,
            r.schema() == table.attributes@,
            r.name() == table.table_name@,
    {
        FDs {
            fds: Vec::new(),
            table_name: table.table_name.clone(),
            attributes: share_schema(&table.attributes),
        }
    }

    pub fn add(&mut self, fd: FunctionalDependency)
        ensures
            final(self).stored() == old(self).stored().push(fd),
            final(self).found() == old(self).found().push((fd.lhs(), fd.rhs())),
            final(self).schema() == old(self).schema(),
            final(self).name() == old(self).name(),
    {
        self.fds.push(fd);
        assert(self.found() =~= old(self).found().push((fd.lhs(), fd.rhs())));
    }

    /// Adds the dependency from the attributes at positions `x` to the one
    /// at position `a`, resolved through the schema.
    pub fn add_from_index(&mut self, x: &Vec<usize>, a: usize)
        requires
            a < old(self).schema().len(),
            forall|k: int| 0 <= k < x@.len() ==> #[trigger] x@[k] < old(self).schema().len(),
        ensures
            final(self).found() == old(self).found().push(
                (x@.to_set().map(|i: usize| old(self).schema()[i as int].rank), old(self).schema()[a as int].rank),
            ),
            final(self).stored().len() == old(self).stored().len() + 1,
            forall|i: int| 0 <= i < old(self).stored().len() ==> #[trigger] final(self).stored()[i] == old(self).stored()[i],
            final(self).stored().last().dependant == old(self).schema()[a as int],
            final(self).stored().last().determinant@.to_multiset() == x@.map_values(
                |i: usize| old(self).schema()[i as int],
            ).to_multiset(),
            sorted_by_rank(final(self).stored().last().determinant@),
            final(self).schema() == old(self).schema(),
            final(self).name() == old(self).name(),
    {
        let schema: &Vec<Attribute> = &self.attributes;
        let mut determinant: Vec<Attribute> = Vec::new();
        let mut k: usize = 0;
        while k < x.len()
            invariant
                schema@ == old(self).schema(),
                k <= x@.len(),
                determinant@.len() == k,
                forall|j: int| 0 <= j < x@.len() ==> #[trigger] x@[j] < schema@.len(),
                forall|j: int| 0 <= j < k ==> #[trigger] determinant@[j] == schema@[x@[j] as int],
            decreases x@.len() - k,
        {
            determinant.push(copy_attribute(&schema[x[k]]));
            k = k + 1;
        }
        let ghost unsorted = determinant@;
        assert(unsorted =~= x@.map_values(|i: usize| schema@[i as int]));
        let determinant = sort_by_rank(determinant);
        let dependant = copy_attribute(&schema[a]);
        let fd = FunctionalDependency { determinant, dependant };
        proof {
            let want = x@.to_set().map(|i: usize| schema@[i as int].rank);
            assert forall|r: usize| #[trigger] fd.lhs().contains(r) <==> want.contains(r) by {
                if fd.lhs().contains(r) {
                    let i = choose|i: int| 0 <= i < fd.determinant@.len() && #[trigger] fd.determinant@[i].rank == r;
                    assert(fd.determinant@.to_multiset().count(fd.determinant@[i]) > 0);
                    assert(unsorted.contains(fd.determinant@[i]));
                    let j = unsorted.index_of(fd.determinant@[i]);
                    assert(x@.to_set().contains(x@[j]));
                }
                if want.contains(r) {
                    let i = choose|i: usize| x@.to_set().contains(i) && schema@[i as int].rank == r;
                    let j = x@.index_of(i);
                    assert(unsorted[j] == schema@[i as int]);
                    assert(unsorted.to_multiset().count(unsorted[j]) > 0);
                    assert(fd.determinant@.contains(unsorted[j]));
                    let p = fd.determinant@.index_of(unsorted[j]);
                    assert(fd.determinant@[p].rank == r);
                }
            }
            assert(fd.lhs() =~= want);
        }
        self.add(fd);
    }
}

impl FDs {
    /// The dependencies, in the order they were added.
    pub fn fds(&self) -> (r: &Vec<FunctionalDependency>)
        ensures
            r@ == self.stored(),
            r@.map_values(|f: FunctionalDependency| (f.lhs(), f.rhs())) == self.found(),
    {
        &self.fds
    }

    pub fn table_name(&self) -> (r: &String)
        ensures
            r@ == self.name(),
    {
        &self.table_name
    }

    pub fn attributes(&self) -> (r: &Vec<Attribute>)
        ensures
            r@ == self.schema(),
    {
        &self.attributes
    }
}

} // verus!
