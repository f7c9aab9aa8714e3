//! The reference store: the registered reference images the engine
//! searches against, kept as an id-ordered table keyed for upserts by
//! file path.

use crate::fingerprint::Fingerprint;
use vstd::prelude::*;

verus! {

/// A registered reference image as the store keeps it.
#[derive(Debug)]
pub struct ReferenceImage {
    /// Identity assigned by the store, unique and increasing.
    pub id: i32,
    /// Canonical location of the reference file, the upsert key.
    pub filepath: String,
    /// The image's fingerprint, as raw bytes.
    pub hash: Vec<u8>,
}

/// The mathematical value of a stored record.
pub struct RecordV {
    pub id: int,
    pub filepath: Seq<char>,
    pub hash: Seq<u8>,
}

impl View for ReferenceImage {
    type V = RecordV;

    open spec fn view(&self) -> RecordV {
        RecordV { id: self.id as int, filepath: self.filepath@, hash: self.hash@ }
    }
}

/// A row to be created: a file path and its fingerprint bytes.
#[derive(Debug)]
pub struct ReferenceImageInput {
    pub filepath: String,
    pub hash: Vec<u8>,
}

/// The views of a sequence of records.
pub open spec fn record_views(s: Seq<ReferenceImage>) -> Seq<RecordV> {
    s.map_values(|r: ReferenceImage| r@)
}

/// The views of a sequence of inputs.
pub open spec fn input_views(s: Seq<ReferenceImageInput>) -> Seq<(Seq<char>, Seq<u8>)> {
    s.map_values(|x: ReferenceImageInput| (x.filepath@, x.hash@))
}

/// Record ids are at least one and strictly increase with position.
pub open spec fn ids_ordered(recs: Seq<RecordV>) -> bool {
    &&& forall|i: int| 0 <= i < recs.len() ==> #[trigger] recs[i].id >= 1
    &&& forall|i: int, j: int| 0 <= i < j < recs.len() ==> recs[i].id < recs[j].id
}

/// The id the store hands to the next created row: one past the last id,
/// as a fresh table starts at one.
pub open spec fn next_id_of(recs: Seq<RecordV>) -> int {
    if recs.len() == 0 {
        1
    } else {
        recs.last().id + 1
    }
}

/// The records created from `ins`, with ids counted up from `start`.
pub open spec fn created_records(start: int, ins: Seq<(Seq<char>, Seq<u8>)>) -> Seq<RecordV> {
    Seq::new(ins.len(), |k: int| RecordV { id: start + k, filepath: ins[k].0, hash: ins[k].1 })
}

/// Position of the record with the given id, if any.
pub open spec fn find_id(recs: Seq<RecordV>, id: int) -> Option<int>
    decreases recs.len(),
{
    if recs.len() == 0 {
        None
    } else if recs[0].id == id {
        Some(0)
    } else {
        match find_id(recs.drop_first(), id) {
            Some(j) => Some(j + 1),
            None => None,
        }
    }
}

/// Whether a path occurs among the given paths.
pub open spec fn path_in(p: Seq<char>, paths: Seq<Seq<char>>) -> bool {
    exists|i: int| 0 <= i < paths.len() && paths[i] == p
}

/// The records whose path occurs among `paths`, in store order.
pub open spec fn matching_records(recs: Seq<RecordV>, paths: Seq<Seq<char>>) -> Seq<RecordV>
    decreases recs.len(),
{
    if recs.len() == 0 {
        recs
    } else if path_in(recs.last().filepath, paths) {
        matching_records(recs.drop_last(), paths).push(recs.last())
    } else {
        matching_records(recs.drop_last(), paths)
    }
}

fn copy_bytes(v: &Vec<u8>) -> (r: Vec<u8>)
    ensures
        r@ == v@,
{
    let mut out: Vec<u8> = Vec::new();
    let mut i: usize = 0;
    while i < v.len()
        invariant
            i <= v@.len(),
            out@ == v@.take(i as int),
        decreases v@.len() - i,
    {
        out.push(v[i]);
        i = i + 1;
        assert(v@.take(i as int) =~= v@.take(i as int - 1).push(v@[i as int - 1]));
    }
    assert(v@.take(v@.len() as int) =~= v@);
    out
}

fn record_copy(r: &ReferenceImage) -> (c: ReferenceImage)
    ensures
        c@ == r@,
{
    ReferenceImage { id: r.id, filepath: r.filepath.clone(), hash: copy_bytes(&r.hash) }
}

/// The store of registered reference images.  It models the persisted
/// table: rows ordered by their auto-assigned ids, the next id one past
/// the largest handed out so far.
pub struct ReferenceImageRepository {
    records: Vec<ReferenceImage>,
}

impl View for ReferenceImageRepository {
    type V = Seq<RecordV>;

    closed spec fn view(&self) -> Seq<RecordV> {
        record_views(self.records@)
    }
}

impl ReferenceImageRepository {
    /// The store is well formed: ids are positive and strictly increase.
    pub open spec fn wf(&self) -> bool {
        ids_ordered(self@)
    }

    /// An empty store.
    pub fn new() -> (s: ReferenceImageRepository)
        ensures
            s.wf(),
            s@ == Seq::<RecordV>::empty(),
    {
        let s = ReferenceImageRepository { records: Vec::new() };
        proof {
            assert(s@ =~= Seq::<RecordV>::empty());
        }
        s
    }

    /// The id the next created row will get.
    pub fn next_id(&self) -> (r: i64)
        ensures
            r == next_id_of(self@),
    {
        if self.records.len() == 0 {
            1
        } else {
            (self.records[self.records.len() - 1].id as i64) + 1
        }
    }

    /// All registered reference images, ordered by id.
    pub fn find_all(&self) -> (r: Vec<ReferenceImage>)
        ensures
            record_views(r@) == self@,
    {
        let mut out: Vec<ReferenceImage> = Vec::new();
        let mut i: usize = 0;
        while i < self.records.len()
            invariant
                i <= self.records@.len(),
                record_views(out@) == self@.take(i as int),
            decreases self.records@.len() - i,
        {
            let ghost before = record_views(out@);
            out.push(record_copy(&self.records[i]));
            proof {
                assert(record_views(out@) =~= before.push(self.records@[i as int]@));
                assert(self@.take(i as int + 1) =~= self@.take(i as int).push(self@[i as int]));
            }
            i = i + 1;
        }
        proof {
            assert(self@.take(self.records@.len() as int) =~= self@);
        }
        out
    }

    /// The registered images whose path is among the given ones, in id
    /// order.
    pub fn find_by_filepaths(&self, filepaths: &Vec<String>) -> (r: Vec<ReferenceImage>)
        ensures
            record_views(r@) == matching_records(self@, crate::scan::views_of(filepaths@)),
    {
        let ghost paths = crate::scan::views_of(filepaths@);
        let mut out: Vec<ReferenceImage> = Vec::new();
        let mut i: usize = 0;
        while i < self.records.len()
            invariant
                i <= self.records@.len(),
                paths == crate::scan::views_of(filepaths@),
                record_views(out@) == matching_records(self@.take(i as int), paths),
            decreases self.records@.len() - i,
        {
            proof {
                assert(self@.take(i as int + 1).drop_last() =~= self@.take(i as int));
                assert(self@.take(i as int + 1).last() == self@[i as int]);
            }
            if contains_path(filepaths, &self.records[i].filepath) {
                let ghost before = record_views(out@);
                out.push(record_copy(&self.records[i]));
                proof {
                    assert(record_views(out@) =~= before.push(self.records@[i as int]@));
                }
            }
            i = i + 1;
        }
        proof {
            assert(self@.take(self.records@.len() as int) =~= self@);
        }
        out
    }

    /// Creates one row per input, ids counted up from the next free id;
    /// the id of the last row created is returned.
    pub fn create_many(&mut self, inputs: Vec<ReferenceImageInput>) -> (last: i32)
        requires
            old(self).wf(),
            inputs@.len() >= 1,
            next_id_of(old(self)@) + inputs@.len() - 1 <= i32::MAX,
        ensures
            final(self).wf(),
            final(self)@ == old(self)@ + created_records(next_id_of(old(self)@), input_views(inputs@)),
            last == next_id_of(old(self)@) + inputs@.len() - 1,
    {
        let ghost orig = self@;
        let ghost ins = input_views(inputs@);
        let n = inputs.len();
        let start: i32 = if self.records.len() == 0 {
            1
        } else {
            self.records[self.records.len() - 1].id + 1
        };
        assert(start == next_id_of(orig));
        let mut k: usize = 0;
        while k < n
            invariant
                n == inputs@.len(),
                ins == input_views(inputs@),
                k <= n,
                start == next_id_of(orig),
                1 <= start,
                start + n - 1 <= i32::MAX,
                ids_ordered(orig),
                self@ == orig + created_records(start as int, ins.take(k as int)),
            decreases n - k,
        {
            let ghost before = self@;
            let row = ReferenceImage {
                id: start + (k as i32),
                filepath: inputs[k].filepath.clone(),
                hash: copy_bytes(&inputs[k].hash),
            };
            self.records.push(row);
            proof {
                assert(self@ =~= before.push(row@));
                assert(created_records(start as int, ins.take(k as int + 1)) =~= created_records(
                    start as int,
                    ins.take(k as int),
                ).push(RecordV { id: start + k, filepath: ins[k as int].0, hash: ins[k as int].1 }));
                assert(self@ =~= orig + created_records(start as int, ins.take(k as int + 1)));
            }
            k = k + 1;
        }
        proof {
            assert(ins.take(n as int) =~= ins);
            let fin = orig + created_records(start as int, ins);
            assert forall|i: int| 0 <= i < fin.len() implies #[trigger] fin[i].id >= 1 by {
                if i >= orig.len() {
                    assert(fin[i].id == start + (i - orig.len()));
                }
            }
            assert forall|i: int, j: int| 0 <= i < j < fin.len() implies fin[i].id < fin[j].id by {
                if j >= orig.len() {
                    if i >= orig.len() {
                    } else {
                        assert(orig.len() > 0);
                        if i < orig.len() - 1 {
                            assert(orig[i].id < orig[orig.len() - 1].id);
                        }
                        assert(fin[j].id == start + (j - orig.len()));
                    }
                }
            }
        }
        start + ((n - 1) as i32)
    }

    /// Replaces the fingerprint of the record with the given id; reports
    /// whether such a record exists.
    pub fn update(&mut self, id: i32, hash: Vec<u8>) -> (found: bool)
        ensures
            match find_id(old(self)@, id as int) {
                Some(i) => found && final(self)@ == old(self)@.update(
                    i,
                    RecordV {
                        id: id as int,
                        filepath: old(self)@[i].filepath,
                        hash: hash@,
                    },
                ),
                None => !found && final(self)@ == old(self)@,
            },
            old(self).wf() ==> final(self).wf(),
    {
        let ghost orig = self@;
        match find_index_by_id(&self.records, id) {
            Some(k) => {
                let ghost before = self.records@;
                self.records[k].hash = hash;
                proof {
                    lemma_find_id_props(orig, id as int);
                    assert(self.records@[k as int].id == before[k as int].id);
                    assert(self.records@[k as int].filepath == before[k as int].filepath);
                    assert(self.records@[k as int].hash@ == hash@);
                    assert(orig[k as int] == before[k as int]@);
                    assert(self@ =~= orig.update(
                        k as int,
                        RecordV { id: id as int, filepath: orig[k as int].filepath, hash: hash@ },
                    ));
                }
                true
            },
            None => false,
        }
    }

    /// Removes the record with the given id, returning how many rows
    /// went away: one when it existed, none otherwise.
    pub fn delete(&mut self, id: i32) -> (n: u64)
        ensures
            match find_id(old(self)@, id as int) {
                Some(i) => n == 1 && final(self)@ == old(self)@.remove(i),
                None => n == 0 && final(self)@ == old(self)@,
            },
            old(self).wf() ==> final(self).wf(),
    {
        let ghost orig = self@;
        match find_index_by_id(&self.records, id) {
            Some(k) => {
                self.records.remove(k);
                proof {
                    assert(self@ =~= orig.remove(k as int));
                    if ids_ordered(orig) {
                        lemma_ids_ordered_remove(orig, k as int);
                    }
                }
                1
            },
            None => 0,
        }
    }
}

/// Position of the record with the given id, if any.
fn find_index_by_id(records: &Vec<ReferenceImage>, id: i32) -> (r: Option<usize>)
    ensures
        match r {
            Some(k) => k < records@.len() && find_id(record_views(records@), id as int) == Some(
                k as int,
            ),
            None => find_id(record_views(records@), id as int) is None,
        },
{
    let ghost views = record_views(records@);
    let mut k: usize = 0;
    while k < records.len()
        invariant
            k <= records@.len(),
            views == record_views(records@),
            forall|j: int| 0 <= j < k ==> views[j].id != id,
        decreases records@.len() - k,
    {
        if records[k].id == id {
            proof {
                lemma_find_id_at(views, id as int, k as int);
            }
            return Some(k);
        }
        k = k + 1;
    }
    proof {
        lemma_find_id_none(views, id as int);
    }
    None
}

fn contains_path(paths: &Vec<String>, p: &String) -> (r: bool)
    ensures
        r == path_in(p@, crate::scan::views_of(paths@)),
{
    let ghost views = crate::scan::views_of(paths@);
    let mut i: usize = 0;
    while i < paths.len()
        invariant
            i <= paths@.len(),
            views == crate::scan::views_of(paths@),
            forall|j: int| 0 <= j < i ==> views[j] != p@,
        decreases paths@.len() - i,
    {
        let hit = paths[i].eq(p);
        assert(views[i as int] == paths@[i as int]@);
        if hit {
            return true;
        }
        i = i + 1;
    }
    false
}

/// What a found position means: it is in range and holds the id.
pub proof fn lemma_find_id_props(recs: Seq<RecordV>, id: int)
    ensures
        match find_id(recs, id) {
            Some(i) => 0 <= i < recs.len() && recs[i].id == id,
            None => forall|j: int| 0 <= j < recs.len() ==> recs[j].id != id,
        },
    decreases recs.len(),
{
    if recs.len() > 0 && recs[0].id != id {
        lemma_find_id_props(recs.drop_first(), id);
        match find_id(recs.drop_first(), id) {
            Some(j) => {
                assert(recs.drop_first()[j] == recs[j + 1]);
            },
            None => {
                assert forall|j: int| 0 <= j < recs.len() implies recs[j].id != id by {
                    if j > 0 {
                        assert(recs.drop_first()[j - 1] == recs[j]);
                    }
                }
            },
        }
    }
}

proof fn lemma_find_id_at(recs: Seq<RecordV>, id: int, k: int)
    requires
        0 <= k < recs.len(),
        recs[k].id == id,
        forall|j: int| 0 <= j < k ==> recs[j].id != id,
    ensures
        find_id(recs, id) == Some(k),
    decreases k,
{
    if k > 0 {
        assert(forall|j: int| 0 <= j < k - 1 ==> recs.drop_first()[j] == recs[j + 1]);
        lemma_find_id_at(recs.drop_first(), id, k - 1);
    }
}

proof fn lemma_find_id_none(recs: Seq<RecordV>, id: int)
    requires
        forall|j: int| 0 <= j < recs.len() ==> recs[j].id != id,
    ensures
        find_id(recs, id) is None,
    decreases recs.len(),
{
    if recs.len() > 0 {
        lemma_find_id_none(recs.drop_first(), id);
    }
}

/// Deleting or updating preserves order because the result is drawn from
/// an ordered sequence: removal keeps relative order, update keeps ids.
proof fn lemma_ids_ordered_remove(recs: Seq<RecordV>, i: int)
    requires
        ids_ordered(recs),
        0 <= i < recs.len(),
    ensures
        ids_ordered(recs.remove(i)),
{
}

/// The views of selected (path, fingerprint) pairs.
pub open spec fn sel_views(s: Seq<(String, Fingerprint)>) -> Seq<(Seq<char>, Seq<u8>)> {
    s.map_values(|t: (String, Fingerprint)| (t.0@, t.1@))
}

/// Position of the newest record with the given path, if any.
pub open spec fn last_match(recs: Seq<RecordV>, p: Seq<char>) -> Option<int>
    decreases recs.len(),
{
    if recs.len() == 0 {
        None
    } else if recs.last().filepath == p {
        Some(recs.len() - 1)
    } else {
        last_match(recs.drop_last(), p)
    }
}

/// The records after registration's in-place updates: each selected pair
/// whose path is already present replaces that record's fingerprint, a
/// later pair winning over an earlier one.
pub open spec fn applied_updates(
    recs: Seq<RecordV>,
    sel: Seq<(Seq<char>, Seq<u8>)>,
) -> Seq<RecordV>
    decreases sel.len(),
{
    if sel.len() == 0 {
        recs
    } else {
        let prev = applied_updates(recs, sel.drop_last());
        match last_match(recs, sel.last().0) {
            Some(i) => prev.update(
                i,
                RecordV { id: recs[i].id, filepath: recs[i].filepath, hash: sel.last().1 },
            ),
            None => prev,
        }
    }
}

/// The selected pairs whose path is not yet present: the rows staged for
/// the one batch insert, in selection order.
pub open spec fn staged_inputs(recs: Seq<RecordV>, sel: Seq<(Seq<char>, Seq<u8>)>) -> Seq<
    (Seq<char>, Seq<u8>),
>
    decreases sel.len(),
{
    if sel.len() == 0 {
        sel
    } else if last_match(recs, sel.last().0) is None {
        staged_inputs(recs, sel.drop_last()).push(sel.last())
    } else {
        staged_inputs(recs, sel.drop_last())
    }
}

/// The whole effect of registering `sel` on a store holding `recs`.
pub open spec fn registered(recs: Seq<RecordV>, sel: Seq<(Seq<char>, Seq<u8>)>) -> Seq<RecordV> {
    applied_updates(recs, sel) + created_records(next_id_of(recs), staged_inputs(recs, sel))
}

/// In-place updates keep the length and every record's id and path.
pub proof fn lemma_applied_preserves(recs: Seq<RecordV>, sel: Seq<(Seq<char>, Seq<u8>)>)
    ensures
        applied_updates(recs, sel).len() == recs.len(),
        forall|k: int| 0 <= k < recs.len() ==> #[trigger] applied_updates(recs, sel)[k].id
            == recs[k].id,
        forall|k: int| 0 <= k < recs.len() ==> #[trigger] applied_updates(recs, sel)[k].filepath
            == recs[k].filepath,
    decreases sel.len(),
{
    if sel.len() > 0 {
        lemma_applied_preserves(recs, sel.drop_last());
        lemma_last_match_props(recs, sel.last().0);
    }
}

/// What a found match means: it is in range and holds the path.
pub proof fn lemma_last_match_props(recs: Seq<RecordV>, p: Seq<char>)
    ensures
        match last_match(recs, p) {
            Some(i) => 0 <= i < recs.len() && recs[i].filepath == p,
            None => forall|j: int| 0 <= j < recs.len() ==> recs[j].filepath != p,
        },
    decreases recs.len(),
{
    if recs.len() > 0 && recs.last().filepath != p {
        lemma_last_match_props(recs.drop_last(), p);
        match last_match(recs.drop_last(), p) {
            Some(i) => {
                assert(recs.drop_last()[i] == recs[i]);
            },
            None => {
                assert forall|j: int| 0 <= j < recs.len() implies recs[j].filepath != p by {
                    if j < recs.len() - 1 {
                        assert(recs.drop_last()[j] == recs[j]);
                    }
                }
            },
        }
    }
}

/// No more rows are staged than were selected.
pub proof fn lemma_staged_le(recs: Seq<RecordV>, sel: Seq<(Seq<char>, Seq<u8>)>)
    ensures
        staged_inputs(recs, sel).len() <= sel.len(),
    decreases sel.len(),
{
    if sel.len() > 0 {
        lemma_staged_le(recs, sel.drop_last());
    }
}

/// Two sequences of records with the same paths match the same way.
proof fn lemma_last_match_congruent(r1: Seq<RecordV>, r2: Seq<RecordV>, p: Seq<char>)
    requires
        r1.len() == r2.len(),
        forall|k: int| 0 <= k < r1.len() ==> #[trigger] r1[k].filepath == r2[k].filepath,
    ensures
        last_match(r1, p) == last_match(r2, p),
    decreases r1.len(),
{
    if r1.len() > 0 {
        lemma_last_match_congruent(r1.drop_last(), r2.drop_last(), p);
    }
}

/// Position of the newest record with the given path, if any.
fn find_last_by_path(records: &Vec<ReferenceImage>, p: &String) -> (r: Option<usize>)
    ensures
        match r {
            Some(k) => k < records@.len() && last_match(record_views(records@), p@) == Some(
                k as int,
            ),
            None => last_match(record_views(records@), p@) is None,
        },
{
    let ghost views = record_views(records@);
    proof {
        assert(views.take(records@.len() as int) =~= views);
    }
    let mut k: usize = records.len();
    while k > 0
        invariant
            k <= records@.len(),
            views == record_views(records@),
            last_match(views, p@) == last_match(views.take(k as int), p@),
        decreases k,
    {
        proof {
            assert(views.take(k as int).drop_last() =~= views.take(k as int - 1));
            assert(views.take(k as int).last() == views[k as int - 1]);
        }
        if records[k - 1].filepath.eq(p) {
            return Some(k - 1);
        }
        k = k - 1;
    }
    None
}

/// Every staged row is for a path with no record in the store: a path
/// already present is updated in place and never staged.
pub proof fn lemma_staged_unmatched(recs: Seq<RecordV>, sel: Seq<(Seq<char>, Seq<u8>)>)
    ensures
        forall|i: int|
            0 <= i < staged_inputs(recs, sel).len() ==> (last_match(
                recs,
                #[trigger] staged_inputs(recs, sel)[i].0,
            ) is None),
    decreases sel.len(),
{
    if sel.len() > 0 {
        lemma_staged_unmatched(recs, sel.drop_last());
    }
}

/// Registration, over any selection: it adds exactly one row per staged
/// pair, a pair whose path the store does not hold, and none otherwise;
/// every existing row keeps its id and path; the new rows follow in
/// selection order under fresh consecutive ids.  With
/// `lemma_staged_unmatched`, a path already present gains no row.
pub proof fn lemma_register_counts(recs: Seq<RecordV>, sel: Seq<(Seq<char>, Seq<u8>)>)
    ensures
        registered(recs, sel).len() == recs.len() + staged_inputs(recs, sel).len(),
        staged_inputs(recs, sel).len() <= sel.len(),
        forall|k: int|
            0 <= k < recs.len() ==> #[trigger] registered(recs, sel)[k].id == recs[k].id
                && registered(recs, sel)[k].filepath == recs[k].filepath,
        forall|k: int|
            recs.len() <= k < registered(recs, sel).len() ==> #[trigger] registered(recs, sel)[k]
                == (RecordV {
                id: next_id_of(recs) + (k - recs.len()),
                filepath: staged_inputs(recs, sel)[k - recs.len()].0,
                hash: staged_inputs(recs, sel)[k - recs.len()].1,
            }),
{
    lemma_applied_preserves(recs, sel);
    lemma_staged_le(recs, sel);
}

/// Registering one pair whose path is already present replaces that
/// record's fingerprint in place and adds no row; one with a new path
/// appends exactly one row, under the next free id, and changes no other.
pub proof fn lemma_register_upsert(recs: Seq<RecordV>, p: Seq<char>, h: Seq<u8>)
    ensures
        match last_match(recs, p) {
            Some(i) => registered(recs, seq![(p, h)]) == recs.update(
                i,
                RecordV { id: recs[i].id, filepath: recs[i].filepath, hash: h },
            ),
            None => registered(recs, seq![(p, h)]) == recs.push(
                RecordV { id: next_id_of(recs), filepath: p, hash: h },
            ),
        },
{
    let sel = seq![(p, h)];
    let empty: Seq<(Seq<char>, Seq<u8>)> = Seq::empty();
    assert(sel.drop_last() =~= empty);
    assert(sel.last() == (p, h));
    assert(applied_updates(recs, empty) == recs);
    assert(staged_inputs(recs, empty) == empty);
    lemma_last_match_props(recs, p);
    match last_match(recs, p) {
        Some(i) => {
            assert(staged_inputs(recs, sel).len() == 0);
            assert(created_records(next_id_of(recs), staged_inputs(recs, sel)) =~= Seq::<
                RecordV,
            >::empty());
            assert(registered(recs, sel) =~= recs.update(
                i,
                RecordV { id: recs[i].id, filepath: recs[i].filepath, hash: h },
            ));
        },
        None => {
            assert(applied_updates(recs, sel) == recs);
            assert(staged_inputs(recs, sel) =~= seq![(p, h)]);
            assert(registered(recs, sel) =~= recs.push(
                RecordV { id: next_id_of(recs), filepath: p, hash: h },
            ));
        },
    }
}

/// Registers the selected files with their fingerprints: a path already
/// present has that record's fingerprint replaced in place; new paths are
/// staged and created as one batch at the end.  Empty input is a no-op.
pub fn register_reference_images(
    store: &mut ReferenceImageRepository,
    selected: &Vec<(String, Fingerprint)>,
)
    requires
        old(store).wf(),
        next_id_of(old(store)@) + selected@.len() - 1 <= i32::MAX,
    ensures
        final(store).wf(),
        final(store)@ == registered(old(store)@, sel_views(selected@)),
{
    let ghost orig = store@;
    let ghost sel = sel_views(selected@);
    let mut staged: Vec<ReferenceImageInput> = Vec::new();
    let mut i: usize = 0;
    while i < selected.len()
        invariant
            i <= selected@.len(),
            sel == sel_views(selected@),
            sel.len() == selected@.len(),
            ids_ordered(orig),
            store@ == applied_updates(orig, sel.take(i as int)),
            input_views(staged@) == staged_inputs(orig, sel.take(i as int)),
        decreases selected@.len() - i,
    {
        proof {
            lemma_applied_preserves(orig, sel.take(i as int));
            assert(sel.take(i as int + 1).drop_last() =~= sel.take(i as int));
            assert(sel.take(i as int + 1).last() == sel[i as int]);
            assert(sel[i as int] == (selected@[i as int].0@, selected@[i as int].1@));
        }
        let path = &selected[i].0;
        let fp = &selected[i].1;
        let hash = fp.to_bytes();
        let ghost current = store@;
        match find_last_by_path(&store.records, path) {
            Some(k) => {
                proof {
                    lemma_last_match_congruent(current, orig, path@);
                    lemma_last_match_props(orig, path@);
                }
                let ghost before = store@;
                store.records[k].hash = hash;
                proof {
                    assert(store.records@[k as int].hash@ == sel[i as int].1);
                    assert(before[k as int].id == orig[k as int].id);
                    assert(before[k as int].filepath == orig[k as int].filepath);
                    assert(store@[k as int] == RecordV {
                        id: orig[k as int].id,
                        filepath: orig[k as int].filepath,
                        hash: sel[i as int].1,
                    });
                    assert(forall|j: int|
                        0 <= j < store@.len() && j != k ==> store@[j] == before[j]);
                    assert(store@ =~= before.update(
                        k as int,
                        RecordV {
                            id: orig[k as int].id,
                            filepath: orig[k as int].filepath,
                            hash: sel[i as int].1,
                        },
                    ));
                    assert(store@ =~= applied_updates(orig, sel.take(i as int + 1)));
                }
            },
            None => {
                proof {
                    lemma_last_match_congruent(current, orig, path@);
                }
                let ghost staged_before = input_views(staged@);
                staged.push(ReferenceImageInput { filepath: path.clone(), hash });
                proof {
                    assert(input_views(staged@) =~= staged_before.push(sel[i as int]));
                    assert(store@ =~= applied_updates(orig, sel.take(i as int + 1)));
                }
            },
        }
        i = i + 1;
    }
    proof {
        assert(sel.take(selected@.len() as int) =~= sel);
    }
    if staged.len() > 0 {
        proof {
            lemma_applied_preserves(orig, sel);
            lemma_staged_le(orig, sel);
            assert(next_id_of(store@) == next_id_of(orig));
            assert(ids_ordered(store@)) by {
                assert forall|a: int, b: int| 0 <= a < b < store@.len() implies store@[a].id
                    < store@[b].id by {
                    assert(store@[a].id == orig[a].id);
                    assert(store@[b].id == orig[b].id);
                }
                assert forall|a: int| 0 <= a < store@.len() implies #[trigger] store@[a].id
                    >= 1 by {
                    assert(store@[a].id == orig[a].id);
                }
            }
        }
        let _ = store.create_many(staged);
    } else {
        proof {
            lemma_applied_preserves(orig, sel);
            assert(input_views(staged@) =~= Seq::<(Seq<char>, Seq<u8>)>::empty());
            assert(staged_inputs(orig, sel).len() == 0);
            assert(created_records(next_id_of(orig), staged_inputs(orig, sel)) =~= Seq::<
                RecordV,
            >::empty());
            assert(store@ =~= registered(orig, sel));
            assert(ids_ordered(store@)) by {
                assert forall|a: int, b: int| 0 <= a < b < store@.len() implies store@[a].id
                    < store@[b].id by {
                    assert(store@[a].id == orig[a].id);
                    assert(store@[b].id == orig[b].id);
                }
                assert forall|a: int| 0 <= a < store@.len() implies #[trigger] store@[a].id
                    >= 1 by {
                    assert(store@[a].id == orig[a].id);
                }
            }
        }
    }
}

} // verus!
