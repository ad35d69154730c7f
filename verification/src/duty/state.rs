//! Duty state: when each duty last ran, and where its gate stands.
//!
//! Loss is benign: a missing or unreadable document makes every duty due
//! once.

use vstd::prelude::*;

use crate::table::{map_of, names_differ, rows_of, Table};

verus! {

/// Per-duty scheduling state.
pub struct DutyState {
    last_run: Table<u64>,
    cursors: Table<String>,
}

/// The contents of a duty state as lists of entries.
pub struct DutyDocument {
    pub last_run: Vec<(String, u64)>,
    pub cursors: Vec<(String, String)>,
}

/// The texts that a table holds, by their views.
pub open spec fn text_values(m: Map<Seq<char>, String>) -> Map<Seq<char>, Seq<char>> {
    m.map_values(|s: String| s@)
}

impl DutyState {
    /// Whether each duty is filed once.
    pub closed spec fn wf(&self) -> bool {
        self.last_run.wf() && self.cursors.wf()
    }

    /// The epoch at which each duty last ran.
    pub closed spec fn runs(&self) -> Map<Seq<char>, u64> {
        self.last_run@
    }

    /// The cursor of each duty.
    pub closed spec fn marks(&self) -> Map<Seq<char>, Seq<char>> {
        text_values(self.cursors@)
    }

    /// A state in which no duty has run.
    pub fn new() -> (s: Self)
        ensures
            s.wf(),
            s.runs() == Map::<Seq<char>, u64>::empty(),
            s.marks() == Map::<Seq<char>, Seq<char>>::empty(),
    {
        let s = DutyState { last_run: Table::new(), cursors: Table::new() };
        assert(s.marks() =~= Map::empty());
        s
    }

    /// The state that a stored document holds. A missing or unreadable
    /// document (`None`) starts fresh.
    pub fn load(doc: Option<DutyDocument>) -> (s: Self)
        ensures
            s.wf(),
            match doc {
                None => s.runs() == Map::<Seq<char>, u64>::empty() && s.marks() == Map::<
                    Seq<char>,
                    Seq<char>,
                >::empty(),
                Some(d) => s.runs() == map_of(rows_of(d.last_run@)) && s.marks() == text_values(
                    map_of(rows_of(d.cursors@)),
                ),
            },
    {
        let mut s = DutyState { last_run: Table::new(), cursors: Table::new() };
        assert(s.marks() =~= Map::empty());
        match doc {
            None => {},
            Some(d) => {
                let mut i: usize = 0;
                assert(rows_of(d.last_run@).take(0) =~= Seq::empty());
                while i < d.last_run.len()
                    invariant
                        i <= d.last_run@.len(),
                        s.wf(),
                        s.last_run@ == map_of(rows_of(d.last_run@).take(i as int)),
                        s.cursors@ == Map::<Seq<char>, String>::empty(),
                    decreases d.last_run@.len() - i,
                {
                    proof {
                        let rows = rows_of(d.last_run@);
                        assert(rows.take(i + 1).drop_last() =~= rows.take(i as int));
                        assert(rows.take(i + 1).last() == rows[i as int]);
                    }
                    s.last_run.insert(d.last_run[i].0.as_str(), d.last_run[i].1);
                    i += 1;
                }
                assert(rows_of(d.last_run@).take(i as int) =~= rows_of(d.last_run@));
                let mut j: usize = 0;
                assert(rows_of(d.cursors@).take(0) =~= Seq::empty());
                while j < d.cursors.len()
                    invariant
                        j <= d.cursors@.len(),
                        s.wf(),
                        s.last_run@ == map_of(rows_of(d.last_run@)),
                        s.cursors@ == map_of(rows_of(d.cursors@).take(j as int)),
                    decreases d.cursors@.len() - j,
                {
                    proof {
                        let rows = rows_of(d.cursors@);
                        assert(rows.take(j + 1).drop_last() =~= rows.take(j as int));
                        assert(rows.take(j + 1).last() == rows[j as int]);
                    }
                    s.cursors.insert(d.cursors[j].0.as_str(), d.cursors[j].1.clone());
                    j += 1;
                }
                assert(rows_of(d.cursors@).take(j as int) =~= rows_of(d.cursors@));
            },
        }
        s
    }

    /// The document to store: each duty once, with what is filed for it.
    pub fn save(&self) -> (d: DutyDocument)
        requires
            self.wf(),
        ensures
            names_differ(rows_of(d.last_run@)),
            names_differ(rows_of(d.cursors@)),
            map_of(rows_of(d.last_run@)) == self.runs(),
            text_values(map_of(rows_of(d.cursors@))) == self.marks(),
    {
        let mut last_run: Vec<(String, u64)> = Vec::new();
        let mut i: usize = 0;
        while i < self.last_run.len()
            invariant
                i <= self.last_run.rows().len(),
                last_run@.len() == i,
                forall|k: int|
                    0 <= k < i ==> #[trigger] rows_of(last_run@)[k] == self.last_run.rows()[k],
            decreases self.last_run.rows().len() - i,
        {
            let ghost before = last_run@;
            last_run.push((self.last_run.name(i).to_owned(), *self.last_run.value(i)));
            assert forall|k: int| 0 <= k < i + 1 implies #[trigger] rows_of(last_run@)[k]
                == self.last_run.rows()[k] by {
                if k < i {
                    assert(rows_of(last_run@)[k] == rows_of(before)[k]);
                }
            }
            i += 1;
        }
        let mut cursors: Vec<(String, String)> = Vec::new();
        let mut j: usize = 0;
        while j < self.cursors.len()
            invariant
                j <= self.cursors.rows().len(),
                cursors@.len() == j,
                forall|k: int|
                    0 <= k < j ==> #[trigger] rows_of(cursors@)[k] == self.cursors.rows()[k],
            decreases self.cursors.rows().len() - j,
        {
            let ghost before = cursors@;
            cursors.push((self.cursors.name(j).to_owned(), self.cursors.value(j).clone()));
            assert forall|k: int| 0 <= k < j + 1 implies #[trigger] rows_of(cursors@)[k]
                == self.cursors.rows()[k] by {
                if k < j {
                    assert(rows_of(cursors@)[k] == rows_of(before)[k]);
                }
            }
            j += 1;
        }
        proof {
            assert(rows_of(last_run@) =~= self.last_run.rows());
            assert(rows_of(cursors@) =~= self.cursors.rows());
            self.last_run.lemma_view_is_rows();
            self.cursors.lemma_view_is_rows();
        }
        DutyDocument { last_run, cursors }
    }

    /// When `duty` last ran.
    pub fn last_run(&self, duty: &str) -> (r: Option<u64>)
        requires
            self.wf(),
        ensures
            match r {
                Some(epoch) => self.runs().contains_key(duty@) && self.runs()[duty@] == epoch,
                None => !self.runs().contains_key(duty@),
            },
    {
        match self.last_run.get(duty) {
            Some(epoch) => Some(*epoch),
            None => None,
        }
    }

    /// Records that `duty` ran at `epoch`.
    pub fn record_run(&mut self, duty: &str, epoch: u64)
        requires
            old(self).wf(),
        ensures
            final(self).wf(),
            final(self).runs() == old(self).runs().insert(duty@, epoch),
            final(self).marks() == old(self).marks(),
    {
        self.last_run.insert(duty, epoch);
    }

    /// The cursor of `duty`.
    pub fn cursor(&self, duty: &str) -> (r: Option<&str>)
        requires
            self.wf(),
        ensures
            match r {
                Some(c) => self.marks().contains_key(duty@) && self.marks()[duty@] == c@,
                None => !self.marks().contains_key(duty@),
            },
    {
        match self.cursors.get(duty) {
            Some(c) => Some(c.as_str()),
            None => None,
        }
    }

    /// Moves the cursor of `duty` to `value`.
    pub fn set_cursor(&mut self, duty: &str, value: &str)
        requires
            old(self).wf(),
        ensures
            final(self).wf(),
            final(self).marks() == old(self).marks().insert(duty@, value@),
            final(self).runs() == old(self).runs(),
    {
        let ghost before = self.cursors@;
        let text = value.to_owned();
        self.cursors.insert(duty, text);
        assert(text_values(before.insert(duty@, text)) =~= text_values(before).insert(
            duty@,
            value@,
        ));
    }
}

/// A stored document read back gives the state it was saved from.
pub proof fn saved_state_reads_back(s: DutyState, d: DutyDocument, back: DutyState)
    requires
        s.wf(),
        map_of(rows_of(d.last_run@)) == s.runs(),
        text_values(map_of(rows_of(d.cursors@))) == s.marks(),
        back.runs() == map_of(rows_of(d.last_run@)),
        back.marks() == text_values(map_of(rows_of(d.cursors@))),
    ensures
        back.runs() == s.runs(),
        back.marks() == s.marks(),
{
}

} // verus!
