//! A table of rows with a unique key and a time stamp each.
use vstd::prelude::*;

use crate::text;

verus! {

/// One row of a table.
#[derive(Debug)]
pub struct Row<V> {
    pub key: String,
    pub stamp: i64,
    pub value: V,
}

/// A table with one row for each key.
pub struct Table<V> {
    rows: Vec<Row<V>>,
}

/// Whether no two rows share a key.
pub open spec fn unique_keys<V>(rows: Seq<Row<V>>) -> bool {
    forall|i: int, j: int| 0 <= i < j < rows.len() ==> rows[i].key@ != rows[j].key@
}

/// Whether some row has the key.
pub open spec fn has_key<V>(rows: Seq<Row<V>>, key: Seq<char>) -> bool {
    exists|i: int| 0 <= i < rows.len() && #[trigger] rows[i].key@ == key
}

/// The rows by their keys: the stamp and the value of each.
pub open spec fn by_key<V: View>(rows: Seq<Row<V>>) -> Map<Seq<char>, (i64, V::V)> {
    Map::new(
        |key: Seq<char>| has_key(rows, key),
        |key: Seq<char>|
            {
                let i = choose|i: int| 0 <= i < rows.len() && #[trigger] rows[i].key@ == key;
                (rows[i].stamp, rows[i].value@)
            },
    )
}

/// The rows of a table that are newer than `cutoff`.
pub open spec fn newer<T>(m: Map<Seq<char>, (i64, T)>, cutoff: i64) -> Map<Seq<char>, (i64, T)> {
    Map::new(|key: Seq<char>| m.contains_key(key) && m[key].0 > cutoff, |key: Seq<char>| m[key])
}

/// A row is found under its key.
proof fn lemma_at<V: View>(rows: Seq<Row<V>>, i: int)
    requires
        unique_keys(rows),
        0 <= i < rows.len(),
    ensures
        by_key(rows).contains_key(rows[i].key@),
        by_key(rows)[rows[i].key@] == (rows[i].stamp, rows[i].value@),
{
    let key = rows[i].key@;
    assert(has_key(rows, key));
    let j = choose|j: int| 0 <= j < rows.len() && #[trigger] rows[j].key@ == key;
    assert(j == i);
}

/// There are as many keys as rows.
proof fn lemma_len<V: View>(rows: Seq<Row<V>>)
    requires
        unique_keys(rows),
    ensures
        by_key(rows).dom().finite(),
        by_key(rows).dom().len() == rows.len(),
{
    let keys = rows.map_values(|r: Row<V>| r.key@);
    assert(keys.no_duplicates()) by {
        assert forall|i: int, j: int| 0 <= i < keys.len() && 0 <= j < keys.len() && i != j implies keys[i]
            != keys[j] by {
            if i < j {
                assert(rows[i].key@ != rows[j].key@);
            } else {
                assert(rows[j].key@ != rows[i].key@);
            }
        }
    }
    keys.unique_seq_to_set();
    assert(keys.to_set() =~= by_key(rows).dom()) by {
        assert forall|k: Seq<char>| keys.to_set().contains(k) implies by_key(rows).dom().contains(
            k,
        ) by {
            let i = choose|i: int| 0 <= i < keys.len() && keys[i] == k;
            assert(rows[i].key@ == k);
        }
        assert forall|k: Seq<char>| by_key(rows).dom().contains(k) implies keys.to_set().contains(
            k,
        ) by {
            let i = choose|i: int| 0 <= i < rows.len() && #[trigger] rows[i].key@ == k;
            assert(keys[i] == k);
        }
    }
    vstd::seq_lib::seq_to_set_is_finite(keys);
}

/// A new row under a new key is one more entry.
proof fn lemma_push<V: View>(rows: Seq<Row<V>>, row: Row<V>)
    requires
        unique_keys(rows),
        !has_key(rows, row.key@),
    ensures
        unique_keys(rows.push(row)),
        by_key(rows.push(row)) == by_key(rows).insert(row.key@, (row.stamp, row.value@)),
{
    let more = rows.push(row);
    assert forall|i: int, j: int| 0 <= i < j < more.len() implies more[i].key@ != more[j].key@ by {
        if j == rows.len() {
            assert(rows[i].key@ != row.key@);
        }
    }
    assert forall|k: Seq<char>| has_key(more, k) <==> (has_key(rows, k) || k == row.key@) by {
        if has_key(rows, k) {
            let i = choose|i: int| 0 <= i < rows.len() && #[trigger] rows[i].key@ == k;
            assert(more[i].key@ == k);
        }
        if k == row.key@ {
            assert(more[rows.len() as int].key@ == k);
        }
        if has_key(more, k) {
            let i = choose|i: int| 0 <= i < more.len() && #[trigger] more[i].key@ == k;
            if i < rows.len() {
                assert(rows[i].key@ == k);
            }
        }
    }
    assert forall|k: Seq<char>| has_key(rows, k) implies by_key(more)[k] == by_key(rows)[k] by {
        let i = choose|i: int| 0 <= i < rows.len() && #[trigger] rows[i].key@ == k;
        lemma_at(rows, i);
        lemma_at(more, i);
        assert(more[i] == rows[i]);
    }
    lemma_at(more, rows.len() as int);
    assert(by_key(more) =~= by_key(rows).insert(row.key@, (row.stamp, row.value@)));
}

/// Without one row, its entry is gone.
proof fn lemma_remove<V: View>(rows: Seq<Row<V>>, at: int)
    requires
        unique_keys(rows),
        0 <= at < rows.len(),
    ensures
        unique_keys(rows.remove(at)),
        by_key(rows.remove(at)) == by_key(rows).remove(rows[at].key@),
{
    let less = rows.remove(at);
    let gone = rows[at].key@;
    assert forall|i: int, j: int| 0 <= i < j < less.len() implies less[i].key@ != less[j].key@ by {
        let a = if i < at {
            i
        } else {
            i + 1
        };
        let b = if j < at {
            j
        } else {
            j + 1
        };
        assert(less[i] == rows[a] && less[j] == rows[b]);
        assert(rows[a].key@ != rows[b].key@);
    }
    assert forall|k: Seq<char>| has_key(less, k) <==> (has_key(rows, k) && k != gone) by {
        if has_key(less, k) {
            let i = choose|i: int| 0 <= i < less.len() && #[trigger] less[i].key@ == k;
            let a = if i < at {
                i
            } else {
                i + 1
            };
            assert(less[i] == rows[a]);
            assert(rows[a].key@ == k);
            if k == gone {
                assert(rows[at].key@ == rows[a].key@);
            }
        }
        if has_key(rows, k) && k != gone {
            let a = choose|a: int| 0 <= a < rows.len() && #[trigger] rows[a].key@ == k;
            let i = if a < at {
                a
            } else {
                a - 1
            };
            assert(less[i] == rows[a]);
            assert(less[i].key@ == k);
        }
    }
    assert forall|k: Seq<char>| has_key(less, k) implies by_key(less)[k] == by_key(rows)[k] by {
        let i = choose|i: int| 0 <= i < less.len() && #[trigger] less[i].key@ == k;
        let a = if i < at {
            i
        } else {
            i + 1
        };
        assert(less[i] == rows[a]);
        lemma_at(less, i);
        lemma_at(rows, a);
    }
    assert(by_key(less) =~= by_key(rows).remove(gone));
}

impl<V: View> View for Table<V> {
    type V = Map<Seq<char>, (i64, V::V)>;

    closed spec fn view(&self) -> Map<Seq<char>, (i64, V::V)> {
        by_key(self.rows@)
    }
}

impl<V: View> Table<V> {
    /// Whether the keys are unique.
    pub closed spec fn wf(&self) -> bool {
        unique_keys(self.rows@)
    }

    /// A table of the given rows, unless two of them share a key.
    pub fn of_rows(rows: Vec<Row<V>>) -> (t: Option<Self>)
        ensures
            t is Some <==> unique_keys(rows@),
            t matches Some(t) ==> t.wf() && t@ == by_key(rows@),
    {
        let mut i: usize = 0;
        while i < rows.len()
            invariant
                0 <= i <= rows@.len(),
                forall|a: int, b: int| 0 <= a < b < i ==> rows@[a].key@ != rows@[b].key@,
            decreases rows@.len() - i,
        {
            let mut j: usize = 0;
            while j < i
                invariant
                    0 <= j <= i < rows@.len(),
                    forall|a: int| 0 <= a < j ==> rows@[a].key@ != rows@[i as int].key@,
                decreases i - j,
            {
                if text::same_text(rows[j].key.as_str(), rows[i].key.as_str()) {
                    return None;
                }
                j = j + 1;
            }
            i = i + 1;
        }
        Some(Table { rows })
    }

    /// Where the row of a key stands.
    fn find(&self, key: &str) -> (at: Option<usize>)
        ensures
            match at {
                Some(i) => i < self.rows@.len() && self.rows@[i as int].key@ == key@,
                None => !has_key(self.rows@, key@),
            },
    {
        let mut i: usize = 0;
        while i < self.rows.len()
            invariant
                0 <= i <= self.rows@.len(),
                forall|j: int| 0 <= j < i ==> self.rows@[j].key@ != key@,
            decreases self.rows@.len() - i,
        {
            if text::same_text(self.rows[i].key.as_str(), key) {
                return Some(i);
            }
            i = i + 1;
        }
        None
    }

    /// The row of a key.
    pub fn get(&self, key: &str) -> (row: Option<&Row<V>>)
        requires
            self.wf(),
        ensures
            match row {
                Some(r) => self@.contains_key(key@) && self@[key@] == (r.stamp, r.value@),
                None => !self@.contains_key(key@),
            },
    {
        match self.find(key) {
            Some(i) => {
                proof {
                    lemma_at(self.rows@, i as int);
                }
                Some(&self.rows[i])
            },
            None => None,
        }
    }

    /// Adds a row, unless its key is taken.
    pub fn insert(&mut self, key: &str, stamp: i64, value: V) -> (added: bool)
        requires
            old(self).wf(),
        ensures
            final(self).wf(),
            added == !old(self)@.contains_key(key@),
            final(self)@ == if added {
                old(self)@.insert(key@, (stamp, value@))
            } else {
                old(self)@
            },
    {
        match self.find(key) {
            Some(_) => false,
            None => {
                let row = Row { key: key.to_owned(), stamp, value };
                proof {
                    lemma_push(self.rows@, row);
                }
                self.rows.push(row);
                true
            },
        }
    }

    /// Takes the row of a key out of the table.
    pub fn remove(&mut self, key: &str) -> (row: Option<Row<V>>)
        requires
            old(self).wf(),
        ensures
            final(self).wf(),
            final(self)@ == old(self)@.remove(key@),
            match row {
                Some(r) => old(self)@.contains_key(key@) && old(self)@[key@] == (r.stamp, r.value@),
                None => !old(self)@.contains_key(key@),
            },
    {
        match self.find(key) {
            Some(i) => {
                proof {
                    lemma_at(self.rows@, i as int);
                    lemma_remove(self.rows@, i as int);
                }
                Some(self.rows.remove(i))
            },
            None => {
                assert(self@.remove(key@) =~= self@);
                None
            },
        }
    }

    /// Writes the row of a key, in place of one that is there.
    pub fn put(&mut self, key: &str, stamp: i64, value: V)
        requires
            old(self).wf(),
        ensures
            final(self).wf(),
            final(self)@ == old(self)@.insert(key@, (stamp, value@)),
    {
        let _ = self.remove(key);
        let _ = self.insert(key, stamp, value);
        assert(old(self)@.remove(key@).insert(key@, (stamp, value@)) =~= old(self)@.insert(
            key@,
            (stamp, value@),
        ));
    }

    /// Removes the rows that are no newer than `cutoff`, and says how many went.
    pub fn sweep(&mut self, cutoff: i64) -> (gone: usize)
        requires
            old(self).wf(),
        ensures
            final(self).wf(),
            final(self)@ == newer(old(self)@, cutoff),
            old(self)@.dom().finite(),
            gone == old(self)@.dom().len() - final(self)@.dom().len(),
    {
        let before: usize = self.rows.len();
        let ghost start = self@;
        proof {
            lemma_len(self.rows@);
        }
        let mut i: usize = 0;
        while i < self.rows.len()
            invariant
                self.wf(),
                i <= self.rows@.len() <= before,
                newer(self@, cutoff) == newer(start, cutoff),
                forall|k: Seq<char>| #[trigger]
                    self@.contains_key(k) ==> start.contains_key(k) && start[k] == self@[k],
                forall|j: int| 0 <= j < i ==> self.rows@[j].stamp > cutoff,
            decreases self.rows@.len() - i,
        {
            proof {
                lemma_at(self.rows@, i as int);
            }
            if self.rows[i].stamp <= cutoff {
                let ghost was = self@;
                let ghost key = self.rows@[i as int].key@;
                proof {
                    lemma_remove(self.rows@, i as int);
                }
                let _ = self.rows.remove(i);
                assert(newer(was.remove(key), cutoff) =~= newer(was, cutoff));
            } else {
                i = i + 1;
            }
        }
        proof {
            assert forall|k: Seq<char>| #[trigger] self@.contains_key(k) implies self@[k].0
                > cutoff by {
                let j = choose|j: int| 0 <= j < self.rows@.len() && #[trigger] self.rows@[j].key@
                    == k;
                lemma_at(self.rows@, j);
            }
            assert(newer(self@, cutoff) =~= self@);
            lemma_len(self.rows@);
        }
        before - self.rows.len()
    }
}

} // verus!
