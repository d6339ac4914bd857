//! The stop directory: stop identifier to display name, built once from the
//! bulk stop listing and searched by binary search.

use crate::error::QueryError;
use crate::keys::{
    key_views, keys_sorted, lemma_insert_sorted, lemma_sorted_distinct, locate,
};
use vstd::prelude::*;

verus! {

/// One record of the bulk stop listing, as read: either field may be absent.
#[derive(Clone, Debug)]
pub struct StopRow {
    pub stop_id: Option<String>,
    pub name: Option<String>,
}

pub open spec fn stop_row_valid(row: StopRow) -> bool {
    row.stop_id is Some && row.name is Some
}

pub open spec fn stop_rows_valid(rows: Seq<StopRow>) -> bool {
    forall|i: int| 0 <= i < rows.len() ==> stop_row_valid(#[trigger] rows[i])
}

/// The directory that a listing of valid records describes: each identifier
/// to the name of the last record that carries it.
pub open spec fn stop_index(rows: Seq<StopRow>) -> Map<Seq<char>, Seq<char>>
    decreases rows.len(),
{
    if rows.len() == 0 {
        Map::empty()
    } else {
        stop_index(rows.drop_last()).insert(
            rows.last().stop_id.unwrap()@,
            rows.last().name.unwrap()@,
        )
    }
}

proof fn lemma_valid_prefix(rows: Seq<StopRow>)
    requires
        rows.len() > 0,
        stop_rows_valid(rows),
    ensures
        stop_rows_valid(rows.drop_last()),
{
    assert forall|i: int| 0 <= i < rows.len() - 1 implies stop_row_valid(#[trigger] rows.drop_last()[i]) by {
        assert(rows.drop_last()[i] == rows[i]);
    }
}

/// In the directory that a listing of valid records describes, an identifier
/// is present exactly when some record carries it.
pub proof fn lemma_stop_index_keys(rows: Seq<StopRow>, id: Seq<char>)
    requires
        stop_rows_valid(rows),
    ensures
        stop_index(rows).contains_key(id) <==> exists|i: int|
            0 <= i < rows.len() && (#[trigger] rows[i]).stop_id.unwrap()@ == id,
    decreases rows.len(),
{
    if rows.len() > 0 {
        let init = rows.drop_last();
        lemma_valid_prefix(rows);
        lemma_stop_index_keys(init, id);
        if exists|i: int| 0 <= i < init.len() && (#[trigger] init[i]).stop_id.unwrap()@ == id {
            let i = choose|i: int| 0 <= i < init.len() && (#[trigger] init[i]).stop_id.unwrap()@ == id;
            assert(rows[i] == init[i]);
        }
        if exists|i: int| 0 <= i < rows.len() && (#[trigger] rows[i]).stop_id.unwrap()@ == id {
            let i = choose|i: int| 0 <= i < rows.len() && (#[trigger] rows[i]).stop_id.unwrap()@ == id;
            if i < rows.len() - 1 {
                assert(init[i] == rows[i]);
            }
        }
    }
}

/// In the directory that a listing of valid records describes, the
/// identifier of a record that no later record repeats maps to the name that
/// record supplies.
pub proof fn lemma_stop_index_name(rows: Seq<StopRow>, i: int)
    requires
        stop_rows_valid(rows),
        0 <= i < rows.len(),
        forall|j: int|
            i < j < rows.len() ==> (#[trigger] rows[j]).stop_id.unwrap()@ != rows[i].stop_id.unwrap()@,
    ensures
        stop_index(rows)[rows[i].stop_id.unwrap()@] == rows[i].name.unwrap()@,
    decreases rows.len(),
{
    let init = rows.drop_last();
    if i < rows.len() - 1 {
        lemma_valid_prefix(rows);
        let last = rows.len() - 1;
        assert(rows[last].stop_id.unwrap()@ != rows[i].stop_id.unwrap()@);
        assert forall|j: int| i < j < init.len() implies (#[trigger] init[j]).stop_id.unwrap()@
            != init[i].stop_id.unwrap()@ by {
            assert(init[j] == rows[j]);
        }
        lemma_stop_index_name(init, i);
    }
}

/// Stop identifier to display name, identifiers held in ascending order of
/// their UTF-8 bytes.
pub struct StopDirectory {
    ids: Vec<String>,
    names: Vec<String>,
    model: Ghost<Map<Seq<char>, Seq<char>>>,
}

impl View for StopDirectory {
    type V = Map<Seq<char>, Seq<char>>;

    closed spec fn view(&self) -> Map<Seq<char>, Seq<char>> {
        self.model@
    }
}

impl StopDirectory {
    /// Identifiers ascending and unique, names alongside, and the model holds
    /// exactly these pairs.
    pub closed spec fn wf(&self) -> bool {
        &&& self.ids@.len() == self.names@.len()
        &&& keys_sorted(key_views(self.ids@))
        &&& forall|k: Seq<char>|
            #![trigger self.model@.contains_key(k)]
            self.model@.contains_key(k) <==> exists|i: int|
                0 <= i < self.ids@.len() && #[trigger] self.ids@[i]@ == k
        &&& forall|i: int|
            0 <= i < self.ids@.len() ==> self.model@[#[trigger] self.ids@[i]@]
                == self.names@[i]@
    }

    /// A directory without stops.
    pub fn new() -> (r: StopDirectory)
        ensures
            r.wf(),
            r@ == Map::<Seq<char>, Seq<char>>::empty(),
    {
        StopDirectory { ids: Vec::new(), names: Vec::new(), model: Ghost(Map::empty()) }
    }

    /// Number of distinct stops.
    pub fn len(&self) -> (r: usize)
        requires
            self.wf(),
        ensures
            r == self@.dom().len(),
    {
        proof {
            self.lemma_dom_is_ids();
        }
        self.ids.len()
    }

    proof fn lemma_dom_is_ids(&self)
        requires
            self.wf(),
        ensures
            self@.dom() == key_views(self.ids@).to_set(),
            self@.dom().len() == self.ids@.len(),
    {
        let ks = key_views(self.ids@);
        assert(self@.dom() =~= ks.to_set()) by {
            assert forall|k: Seq<char>| self@.dom().contains(k) <==> ks.to_set().contains(k) by {
                if self@.dom().contains(k) {
                    assert(self.model@.contains_key(k));
                    let i = choose|i: int| 0 <= i < self.ids@.len() && #[trigger] self.ids@[i]@ == k;
                    assert(ks[i] == k);
                }
                if ks.to_set().contains(k) {
                    let i = choose|i: int| 0 <= i < ks.len() && ks[i] == k;
                    assert(self.ids@[i]@ == k);
                    assert(self.model@.contains_key(k));
                }
            }
        }
        assert(ks.no_duplicates()) by {
            assert forall|i: int, j: int| 0 <= i < ks.len() && 0 <= j < ks.len() && i != j
                implies ks[i] != ks[j] by {
                lemma_sorted_distinct(ks, i, j);
            }
        }
        ks.unique_seq_to_set();
    }

    /// Records `name` for `id`, replacing the name it had.
    fn put(&mut self, id: String, name: String)
        requires
            old(self).wf(),
        ensures
            final(self).wf(),
            final(self)@ == old(self)@.insert(id@, name@),
    {
        let ghost old_ids = self.ids@;
        match locate(&self.ids, id.as_str()) {
            Ok(i) => {
                self.names.set(i, name);
                self.model = Ghost(self.model@.insert(id@, name@));
                assert forall|j: int| 0 <= j < self.ids@.len() implies self.model@[#[trigger] self.ids@[j]@]
                    == self.names@[j]@ by {
                    if j != i {
                        lemma_sorted_distinct(key_views(old_ids), i as int, j);
                        assert(key_views(old_ids)[j] == old_ids[j]@);
                    }
                }
            },
            Err(p) => {
                let ghost k = id@;
                self.ids.insert(p, id);
                self.names.insert(p, name);
                self.model = Ghost(self.model@.insert(k, name@));
                assert(key_views(self.ids@) =~= key_views(old_ids).insert(p as int, k));
                proof {
                    lemma_insert_sorted(key_views(old_ids), p as int, k);
                }
                assert forall|q: Seq<char>| #![trigger self.model@.contains_key(q)]
                    self.model@.contains_key(q) <==> exists|i: int|
                        0 <= i < self.ids@.len() && #[trigger] self.ids@[i]@ == q by {
                    if q != k && self.model@.contains_key(q) {
                        let i = choose|i: int| 0 <= i < old_ids.len() && #[trigger] old_ids[i]@ == q;
                        if i < p {
                            assert(self.ids@[i]@ == q);
                        } else {
                            assert(self.ids@[i + 1]@ == q);
                        }
                    }
                    if q == k {
                        assert(self.ids@[p as int]@ == q);
                    }
                    if exists|i: int| 0 <= i < self.ids@.len() && #[trigger] self.ids@[i]@ == q {
                        let i = choose|i: int| 0 <= i < self.ids@.len() && #[trigger] self.ids@[i]@ == q;
                        if i < p {
                            assert(old_ids[i]@ == q);
                        } else if i > p {
                            assert(old_ids[i - 1]@ == q);
                        }
                    }
                }
                assert forall|j: int| 0 <= j < self.ids@.len() implies self.model@[#[trigger] self.ids@[j]@]
                    == self.names@[j]@ by {
                    if j < p {
                        assert(old_ids[j]@ != k);
                    } else if j > p {
                        assert(old_ids[j - 1]@ != k);
                    }
                }
            },
        }
    }

    /// Builds the directory from the bulk stop listing. The whole load fails
    /// on the first record that lacks its identifier or its name; where
    /// several records carry one identifier, the last one's name is kept.
    pub fn load(rows: &Vec<StopRow>) -> (r: Result<StopDirectory, QueryError>)
        ensures
            r is Ok <==> stop_rows_valid(rows@),
            r matches Ok(d) ==> d.wf() && d@ == stop_index(rows@),
            r matches Err(e) ==> e matches QueryError::MalformedRecord { index } && {
                &&& index < rows@.len()
                &&& !stop_row_valid(rows@[index as int])
                &&& forall|j: int| 0 <= j < index ==> stop_row_valid(#[trigger] rows@[j])
            },
    {
        let mut dir = StopDirectory::new();
        let mut i: usize = 0;
        while i < rows.len()
            invariant
                i <= rows@.len(),
                dir.wf(),
                stop_rows_valid(rows@.subrange(0, i as int)),
                dir@ == stop_index(rows@.subrange(0, i as int)),
            decreases rows@.len() - i,
        {
            let row = &rows[i];
            assert(rows@.subrange(0, i + 1).drop_last() =~= rows@.subrange(0, i as int));
            match (&row.stop_id, &row.name) {
                (Some(id), Some(name)) => {
                    dir.put(id.clone(), name.clone());
                },
                _ => {
                    assert forall|j: int| 0 <= j < i implies stop_row_valid(#[trigger] rows@[j]) by {
                        assert(rows@.subrange(0, i as int)[j] == rows@[j]);
                    }
                    return Err(QueryError::MalformedRecord { index: i });
                },
            }
            i = i + 1;
        }
        assert(rows@.subrange(0, i as int) =~= rows@);
        Ok(dir)
    }

    /// The display name of a stop.
    pub fn lookup(&self, stop_id: &str) -> (r: Result<String, QueryError>)
        requires
            self.wf(),
        ensures
            match r {
                Ok(name) => self@.contains_key(stop_id@) && name@ == self@[stop_id@],
                Err(e) => !self@.contains_key(stop_id@) && (e matches QueryError::UnknownStop {
                    stop_id: id,
                } && id@ == stop_id@),
            },
    {
        match locate(&self.ids, stop_id) {
            Ok(i) => Ok(self.names[i].clone()),
            Err(_) => Err(QueryError::UnknownStop { stop_id: stop_id.to_owned() }),
        }
    }
}

} // verus!
