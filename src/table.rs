//! The table: an ordered schema of attributes and ordered rows of cell values.
use std::rc::Rc;
use vstd::prelude::*;

verus! {

/// A column of the schema: its ordinal position and its name.
#[derive(Clone, Debug, PartialEq, Eq, Hash)]
pub struct Attribute {
    pub rank: usize,
    pub value: String,
}

impl Attribute {
    pub fn new(rank: usize, value: String) -> (r: Attribute)
        ensures
            r.rank == rank,
            r.value@ == value@,
    {
        Attribute { rank, value }
    }
}

/// Relies on `Rc::clone`: the new handle points at the same value.
#[verifier::external_body]
pub(crate) fn share_schema(schema: &Rc<Vec<Attribute>>) -> (r: Rc<Vec<Attribute>>)
    ensures
        r@ == schema@,
{
    Rc::clone(schema)
}

/// A row: its cell values, with a handle on the schema they belong to.
#[derive(Debug)]
pub struct Entry {
    pub attr_ref: Rc<Vec<Attribute>>,
    pub data: Vec<String>,
}

impl Entry {
    pub fn new(attr_ref: Rc<Vec<Attribute>>, data: Vec<String>) -> (r: Entry)
        ensures
            r.attr_ref@ == attr_ref@,
            r.data@ == data@,
    {
        Entry { attr_ref, data }
    }

    /// The cell of the first attribute named `metadata`, if the schema has one.
    pub fn get_data_from_metadata(&self, metadata: &String) -> (r: Option<&String>)
        requires
            self.attr_ref@.len() <= self.data@.len(),
        ensures
            r is None <==> (forall|i: int|
                0 <= i < self.attr_ref@.len() ==> self.attr_ref@[i].value@ != metadata@),
            r matches Some(d) ==> exists|i: int|
                0 <= i < self.attr_ref@.len() && self.attr_ref@[i].value@ == metadata@ && d
                    == self.data@[i] && (forall|k: int|
                    0 <= k < i ==> self.attr_ref@[k].value@ != metadata@),
    {
        let attributes: &Vec<Attribute> = &self.attr_ref;
        let mut cnt: usize = 0;
        while cnt < attributes.len()
            invariant
                attributes@ == self.attr_ref@,
                self.attr_ref@.len() <= self.data@.len(),
                cnt <= attributes@.len(),
                forall|k: int| 0 <= k < cnt ==> attributes@[k].value@ != metadata@,
            decreases attributes@.len() - cnt,
        {
            if attributes[cnt].value == *metadata {
                return Some(&self.data[cnt]);
            }
            cnt = cnt + 1;
        }
        None
    }
}

/// A named table: the schema, shared by every row, and the rows.
#[derive(Debug)]
pub struct Table {
    pub table_name: String,
    pub attributes: Rc<Vec<Attribute>>,
    pub entries: Vec<Entry>,
}

impl Table {
    /// Every row has one cell per attribute, and each attribute's rank is its
    /// position in the schema.
    pub open spec fn wf(&self) -> bool {
        &&& forall|i: int|
            0 <= i < self.entries@.len() ==> #[trigger] self.entries@[i].data@.len()
                == self.attributes@.len()
        &&& forall|a: int|
            0 <= a < self.attributes@.len() ==> #[trigger] self.attributes@[a].rank == a
    }

    /// The number of attributes.
    pub open spec fn width(&self) -> nat {
        self.attributes@.len()
    }

    /// The number of rows.
    pub open spec fn height(&self) -> nat {
        self.entries@.len()
    }

    /// The value of row `i` at attribute `a`.
    pub open spec fn cell(&self, i: int, a: int) -> Seq<char> {
        self.entries@[i].data@[a]@
    }

    pub fn new(table_name: String, metadata: Vec<Attribute>) -> (r: Table)
        ensures
            r.table_name@ == table_name@,
            r.attributes@ == metadata@,
            r.entries@.len() == 0,
    {
        Table { table_name, attributes: Rc::new(metadata), entries: Vec::new() }
    }

    /// Appends a row, which holds one value per attribute.
    pub fn add_entry(&mut self, data: Vec<String>)
        requires
            data@.len() == old(self).attributes@.len(),
        ensures
            final(self).table_name@ == old(self).table_name@,
            final(self).attributes@ == old(self).attributes@,
            final(self).entries@.len() == old(self).entries@.len() + 1,
            forall|i: int|
                0 <= i < old(self).entries@.len() ==> #[trigger] final(self).entries@[i]
                    == old(self).entries@[i],
            final(self).entries@.last().data@ == data@,
            final(self).entries@.last().attr_ref@ == old(self).attributes@,
            old(self).wf() ==> final(self).wf(),
    {
        let entry = Entry::new(share_schema(&self.attributes), data);
        self.entries.push(entry);
    }

    /// The table made of the rows at the given positions, in that order, over
    /// the same schema.
    pub fn sub_table(&self, node: &Vec<usize>) -> (r: Table)
        requires
            forall|k: int| 0 <= k < node@.len() ==> #[trigger] node@[k] < self.entries@.len(),
        ensures
            r.table_name@ == self.table_name@,
            r.attributes@ == self.attributes@,
            r.entries@.len() == node@.len(),
            forall|k: int|
                0 <= k < node@.len() ==> (#[trigger] r.entries@[k]).data@
                    == self.entries@[node@[k] as int].data@ && r.entries@[k].attr_ref@
                    == self.entries@[node@[k] as int].attr_ref@,
            self.wf() ==> r.wf(),
    {
        let mut entries: Vec<Entry> = Vec::new();
        let mut k: usize = 0;
        while k < node.len()
            invariant
                k <= node@.len(),
                entries@.len() == k,
                forall|j: int| 0 <= j < node@.len() ==> #[trigger] node@[j] < self.entries@.len(),
                forall|j: int|
                    0 <= j < k ==> (#[trigger] entries@[j]).data@
                        == self.entries@[node@[j] as int].data@ && entries@[j].attr_ref@
                        == self.entries@[node@[j] as int].attr_ref@,
            decreases node@.len() - k,
        {
            let entry = &self.entries[node[k]];
            let data = copy_row(&entry.data);
            entries.push(Entry { attr_ref: share_schema(&entry.attr_ref), data });
            k = k + 1;
        }
        Table {
            table_name: self.table_name.clone(),
            attributes: share_schema(&self.attributes),
            entries,
        }
    }
}

/// A copy of a row's cells, value by value.
fn copy_row(data: &Vec<String>) -> (r: Vec<String>)
    ensures
        r@ == data@,
{
    let mut r: Vec<String> = Vec::new();
    let mut i: usize = 0;
    while i < data.len()
        invariant
            i <= data@.len(),
            r@ == data@.subrange(0, i as int),
        decreases data@.len() - i,
    {
        r.push(data[i].clone());
        i = i + 1;
    }
    r
}

} // verus!
