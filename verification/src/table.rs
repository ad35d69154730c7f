//! A map from names to values that keeps the order of first insertion.

use vstd::prelude::*;

use crate::text::same;

verus! {

/// Values filed under names, each name once.
pub struct Table<V> {
    entries: Vec<(String, V)>,
}

/// The map that a list of entries makes, later entries over earlier ones.
pub open spec fn map_of<V>(rows: Seq<(Seq<char>, V)>) -> Map<Seq<char>, V>
    decreases rows.len(),
{
    if rows.len() == 0 {
        Map::empty()
    } else {
        map_of(rows.drop_last()).insert(rows.last().0, rows.last().1)
    }
}

/// Whether no name stands twice.
pub open spec fn names_differ<V>(rows: Seq<(Seq<char>, V)>) -> bool {
    forall|i: int, j: int| 0 <= i < j < rows.len() ==> (#[trigger] rows[i]).0 != (#[trigger] rows[j]).0
}

/// The entries of `v` by the views of their names.
pub open spec fn rows_of<V>(v: Seq<(String, V)>) -> Seq<(Seq<char>, V)> {
    v.map_values(|e: (String, V)| (e.0@, e.1))
}

pub proof fn lemma_map_of_has<V>(rows: Seq<(Seq<char>, V)>, i: int)
    requires
        names_differ(rows),
        0 <= i < rows.len(),
    ensures
        map_of(rows).contains_key(rows[i].0),
        map_of(rows)[rows[i].0] == rows[i].1,
    decreases rows.len(),
{
    if i < rows.len() - 1 {
        let t = rows.drop_last();
        assert(names_differ(t)) by {
            assert forall|a: int, b: int| 0 <= a < b < t.len() implies (#[trigger] t[a]).0 != (
            #[trigger] t[b]).0 by {
                assert(t[a] == rows[a] && t[b] == rows[b]);
            }
        }
        lemma_map_of_has(t, i);
        assert(t[i] == rows[i]);
        assert(rows[i].0 != rows[rows.len() - 1].0);
    }
}

pub proof fn lemma_map_of_lacks<V>(rows: Seq<(Seq<char>, V)>, name: Seq<char>)
    requires
        forall|i: int| 0 <= i < rows.len() ==> (#[trigger] rows[i]).0 != name,
    ensures
        !map_of(rows).contains_key(name),
    decreases rows.len(),
{
    if rows.len() > 0 {
        let t = rows.drop_last();
        assert forall|i: int| 0 <= i < t.len() implies (#[trigger] t[i]).0 != name by {
            assert(t[i] == rows[i]);
        }
        lemma_map_of_lacks(t, name);
        assert(rows[rows.len() - 1].0 != name);
    }
}

proof fn lemma_map_of_update<V>(rows: Seq<(Seq<char>, V)>, i: int, value: V)
    requires
        names_differ(rows),
        0 <= i < rows.len(),
    ensures
        map_of(rows.update(i, (rows[i].0, value))) == map_of(rows).insert(rows[i].0, value),
    decreases rows.len(),
{
    let next = rows.update(i, (rows[i].0, value));
    let t = rows.drop_last();
    if i == rows.len() - 1 {
        assert(next.drop_last() =~= t);
        assert(map_of(next) =~= map_of(rows).insert(rows[i].0, value));
    } else {
        assert(names_differ(t)) by {
            assert forall|a: int, b: int| 0 <= a < b < t.len() implies (#[trigger] t[a]).0 != (
            #[trigger] t[b]).0 by {
                assert(t[a] == rows[a] && t[b] == rows[b]);
            }
        }
        lemma_map_of_update(t, i, value);
        assert(next.drop_last() =~= t.update(i, (rows[i].0, value)));
        assert(rows[i].0 != rows[rows.len() - 1].0);
        assert(map_of(next) =~= map_of(rows).insert(rows[i].0, value));
    }
}

impl<V> View for Table<V> {
    type V = Map<Seq<char>, V>;

    closed spec fn view(&self) -> Map<Seq<char>, V> {
        map_of(self.rows())
    }
}

impl<V> Table<V> {
    /// The entries in the order in which their names came.
    pub closed spec fn rows(&self) -> Seq<(Seq<char>, V)> {
        rows_of(self.entries@)
    }

    /// Whether each name is filed once.
    pub closed spec fn wf(&self) -> bool {
        names_differ(self.rows())
    }

    /// The map is the one that the rows make.
    pub proof fn lemma_view_is_rows(&self)
        ensures
            self@ == map_of(self.rows()),
            self.wf() == names_differ(self.rows()),
    {
    }

    /// An empty table.
    pub fn new() -> (t: Self)
        ensures
            t.wf(),
            t.rows() == Seq::<(Seq<char>, V)>::empty(),
            t@ == Map::<Seq<char>, V>::empty(),
    {
        let t = Table { entries: Vec::new() };
        assert(t.rows() =~= Seq::empty());
        t
    }

    /// How many names are filed.
    pub fn len(&self) -> (n: usize)
        ensures
            n == self.rows().len(),
    {
        self.entries.len()
    }

    /// The name at position `i`.
    pub fn name(&self, i: usize) -> (r: &str)
        requires
            i < self.rows().len(),
        ensures
            r@ == self.rows()[i as int].0,
    {
        self.entries[i].0.as_str()
    }

    /// The value at position `i`.
    pub fn value(&self, i: usize) -> (r: &V)
        requires
            i < self.rows().len(),
        ensures
            *r == self.rows()[i as int].1,
    {
        &self.entries[i].1
    }

    /// The position of `name`, or the number of names where it is not filed.
    fn position(&self, name: &str) -> (k: usize)
        ensures
            k <= self.rows().len(),
            k < self.rows().len() ==> self.rows()[k as int].0 == name@,
            forall|j: int| 0 <= j < k ==> (#[trigger] self.rows()[j]).0 != name@,
    {
        let mut k: usize = 0;
        while k < self.entries.len()
            invariant
                k <= self.entries@.len(),
                forall|j: int| 0 <= j < k ==> (#[trigger] self.rows()[j]).0 != name@,
            decreases self.entries@.len() - k,
        {
            if same(self.entries[k].0.as_str(), name) {
                return k;
            }
            k += 1;
        }
        k
    }

    /// The value filed under `name`.
    pub fn get(&self, name: &str) -> (r: Option<&V>)
        requires
            self.wf(),
        ensures
            match r {
                Some(v) => self@.contains_key(name@) && self@[name@] == *v,
                None => !self@.contains_key(name@),
            },
    {
        let k = self.position(name);
        if k < self.entries.len() {
            proof {
                lemma_map_of_has(self.rows(), k as int);
            }
            Some(&self.entries[k].1)
        } else {
            proof {
                lemma_map_of_lacks(self.rows(), name@);
            }
            None
        }
    }

    /// Files `value` under `name`, in place of what was there.
    pub fn insert(&mut self, name: &str, value: V)
        requires
            old(self).wf(),
        ensures
            final(self).wf(),
            final(self)@ == old(self)@.insert(name@, value),
    {
        let k = self.position(name);
        let ghost before = self.rows();
        if k < self.entries.len() {
            let key = name.to_owned();
            self.entries.set(k, (key, value));
            proof {
                lemma_map_of_update(before, k as int, value);
                assert(self.rows() =~= before.update(k as int, (before[k as int].0, value)));
            }
        } else {
            self.entries.push((name.to_owned(), value));
            proof {
                assert(self.rows() =~= before.push((name@, value)));
                assert(self.rows().drop_last() =~= before);
            }
        }
    }
}

} // verus!
