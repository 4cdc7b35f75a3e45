//! The three-way merge of one shard's records, matched by id.
use vstd::prelude::*;
use vstd::string::StringExecFns;
use crate::store::cache::impact::{chars_less, lemma_chars_less_irreflexive, lemma_chars_less_total, lemma_chars_less_transitive};
use super::MergeConflictKind;

verus! {

/// A canonical record: its id, its canonical JSON bytes, and the bytes by
/// which it is compared: two records hold equal JSON values exactly when
/// their keys are equal.
#[derive(Clone, Debug, PartialEq, Eq)]
pub struct Record {
    pub id: String,
    pub content: Vec<u8>,
    pub key: Vec<u8>,
}

/// A record both sides changed in ways that cannot both stand.
#[derive(Clone, Debug, PartialEq, Eq)]
pub struct MergeConflict {
    pub kind: MergeConflictKind,
    pub record_id: String,
    pub ours: Option<Record>,
    pub theirs: Option<Record>,
}

/// The result of a merge: clean, or with conflicts and the records merged
/// so far.
#[derive(Clone, Debug, PartialEq, Eq)]
pub enum MergeOutcome<T> {
    Clean { records: T },
    Conflicted { conflicts: Vec<MergeConflict>, partial: T },
}

impl<T> MergeOutcome<T> {
    /// The records of a clean merge.
    pub fn unwrap_clean(self) -> (r: T)
        requires
            self is Clean,
        ensures
            r == self->Clean_records,
    {
        match self {
            MergeOutcome::Clean { records } => records,
            MergeOutcome::Conflicted { .. } => vstd::pervasive::unreached(),
        }
    }

    /// The conflicts of a conflicted merge.
    pub fn unwrap_conflicts(self) -> (r: Vec<MergeConflict>)
        requires
            self is Conflicted,
        ensures
            r == self->Conflicted_conflicts,
    {
        match self {
            MergeOutcome::Clean { .. } => vstd::pervasive::unreached(),
            MergeOutcome::Conflicted { conflicts, .. } => conflicts,
        }
    }
}

pub struct RecordView {
    pub id: Seq<char>,
    pub content: Seq<u8>,
    pub key: Seq<u8>,
}

impl View for Record {
    type V = RecordView;

    open spec fn view(&self) -> RecordView {
        RecordView { id: self.id@, content: self.content@, key: self.key@ }
    }
}

pub open spec fn records_view(v: Seq<Record>) -> Seq<RecordView> {
    v.map_values(|r: Record| r@)
}

pub open spec fn opt_record(o: Option<Record>) -> Option<RecordView> {
    match o {
        Some(r) => Some(r@),
        None => None,
    }
}

pub struct ConflictView {
    pub kind: MergeConflictKind,
    pub record_id: Seq<char>,
    pub ours: Option<RecordView>,
    pub theirs: Option<RecordView>,
}

impl View for MergeConflict {
    type V = ConflictView;

    open spec fn view(&self) -> ConflictView {
        ConflictView {
            kind: self.kind,
            record_id: self.record_id@,
            ours: opt_record(self.ours),
            theirs: opt_record(self.theirs),
        }
    }
}

pub open spec fn conflicts_view(v: Seq<MergeConflict>) -> Seq<ConflictView> {
    v.map_values(|c: MergeConflict| c@)
}

/// No two records share an id.
pub open spec fn unique_ids(rs: Seq<RecordView>) -> bool {
    forall|i: int, j: int| 0 <= i < j < rs.len() ==> (#[trigger] rs[i]).id != (#[trigger] rs[j]).id
}

/// The (last) record with the given id.
pub open spec fn lookup(rs: Seq<RecordView>, id: Seq<char>) -> Option<RecordView>
    decreases rs.len(),
{
    if rs.len() == 0 {
        None
    } else if rs.last().id == id {
        Some(rs.last())
    } else {
        lookup(rs.drop_last(), id)
    }
}

pub proof fn lemma_lookup(rs: Seq<RecordView>, id: Seq<char>)
    ensures
        lookup(rs, id) matches Some(r) ==> r.id == id && rs.contains(r),
        lookup(rs, id) is Some <==> exists|i: int| 0 <= i < rs.len() && (#[trigger] rs[i]).id == id,
    decreases rs.len(),
{
    if rs.len() > 0 {
        lemma_lookup(rs.drop_last(), id);
        if rs.last().id != id {
            if lookup(rs, id) is Some {
                let r = lookup(rs, id)->Some_0;
                let k = choose|k: int| 0 <= k < rs.drop_last().len() && rs.drop_last()[k] == r;
                assert(rs[k] == r);
            }
            if exists|i: int| 0 <= i < rs.len() && (#[trigger] rs[i]).id == id {
                let i = choose|i: int| 0 <= i < rs.len() && (#[trigger] rs[i]).id == id;
                assert(rs.drop_last()[i].id == id);
            }
            if exists|i: int| 0 <= i < rs.drop_last().len() && (#[trigger] rs.drop_last()[i]).id == id {
                let i = choose|i: int| 0 <= i < rs.drop_last().len() && (#[trigger] rs.drop_last()[i]).id == id;
                assert(rs[i].id == id);
            }
        } else {
            assert(rs[rs.len() - 1] == rs.last());
        }
    }
}

/// Two records hold the same value: the same id and equal keys.
pub open spec fn same(a: RecordView, b: RecordView) -> bool {
    a.id == b.id && a.key == b.key
}

/// What the merge keeps of one id, given the base, our and their record.
pub open spec fn merged_record(b: Option<RecordView>, o: Option<RecordView>, t: Option<RecordView>) -> Option<RecordView> {
    match (b, o, t) {
        (None, Some(o), None) => Some(o),
        (None, None, Some(t)) => Some(t),
        (Some(_), None, None) => None,
        (Some(b), Some(o), None) => if same(o, b) { None } else { Some(o) },
        (Some(b), None, Some(t)) => if same(t, b) { None } else { Some(t) },
        (Some(b), Some(o), Some(t)) => if same(o, t) { Some(o) } else if same(o, b) { Some(t) } else { Some(o) },
        (None, Some(o), Some(_)) => Some(o),
        (None, None, None) => None,
    }
}

/// The conflict one id gives, if any.
pub open spec fn conflict_of(id: Seq<char>, b: Option<RecordView>, o: Option<RecordView>, t: Option<RecordView>) -> Option<ConflictView> {
    match (b, o, t) {
        (Some(b), Some(o), None) => if same(o, b) {
            None
        } else {
            Some(ConflictView { kind: MergeConflictKind::DeleteModify, record_id: id, ours: Some(o), theirs: None })
        },
        (Some(b), None, Some(t)) => if same(t, b) {
            None
        } else {
            Some(ConflictView { kind: MergeConflictKind::DeleteModify, record_id: id, ours: None, theirs: Some(t) })
        },
        (Some(b), Some(o), Some(t)) => if same(o, t) || same(o, b) || same(t, b) {
            None
        } else {
            Some(ConflictView { kind: MergeConflictKind::DivergentEdit, record_id: id, ours: Some(o), theirs: Some(t) })
        },
        (None, Some(o), Some(t)) => if same(o, t) {
            None
        } else {
            Some(ConflictView { kind: MergeConflictKind::DivergentEdit, record_id: id, ours: Some(o), theirs: Some(t) })
        },
        _ => None,
    }
}

/// Some side holds a record with the id.
pub open spec fn any_side(base: Seq<RecordView>, ours: Seq<RecordView>, theirs: Seq<RecordView>, id: Seq<char>) -> bool {
    lookup(base, id) is Some || lookup(ours, id) is Some || lookup(theirs, id) is Some
}

/// The ids are in increasing order.
pub open spec fn sorted_ids(ids: Seq<Seq<char>>) -> bool {
    forall|i: int, j: int| 0 <= i < j < ids.len() ==> chars_less(#[trigger] ids[i], #[trigger] ids[j])
}

/// The outcome of a three-way merge of sides with unique ids: every id of
/// any side, in increasing order, with the record the merge keeps and the
/// conflict it reports.
pub open spec fn merge_spec(
    base: Seq<RecordView>,
    ours: Seq<RecordView>,
    theirs: Seq<RecordView>,
    merged: Seq<RecordView>,
    conflicts: Seq<ConflictView>,
) -> bool {
    &&& sorted_ids(merged.map_values(|r: RecordView| r.id))
    &&& sorted_ids(conflicts.map_values(|c: ConflictView| c.record_id))
    &&& forall|r: RecordView| merged.contains(r) <==> (any_side(base, ours, theirs, r.id) && merged_record(
        lookup(base, r.id),
        lookup(ours, r.id),
        lookup(theirs, r.id),
    ) == Some(r))
    &&& forall|c: ConflictView| conflicts.contains(c) <==> (any_side(base, ours, theirs, c.record_id) && conflict_of(
        c.record_id,
        lookup(base, c.record_id),
        lookup(ours, c.record_id),
        lookup(theirs, c.record_id),
    ) == Some(c))
}

/// The records kept for the ids, in their order.
pub open spec fn picks(base: Seq<RecordView>, ours: Seq<RecordView>, theirs: Seq<RecordView>, ids: Seq<Seq<char>>) -> Seq<RecordView>
    decreases ids.len(),
{
    if ids.len() == 0 {
        seq![]
    } else {
        let id = ids.last();
        picks(base, ours, theirs, ids.drop_last()) + match merged_record(lookup(base, id), lookup(ours, id), lookup(theirs, id)) {
            Some(r) => seq![r],
            None => seq![],
        }
    }
}

/// The conflicts for the ids, in their order.
pub open spec fn conflicts_for(base: Seq<RecordView>, ours: Seq<RecordView>, theirs: Seq<RecordView>, ids: Seq<Seq<char>>) -> Seq<ConflictView>
    decreases ids.len(),
{
    if ids.len() == 0 {
        seq![]
    } else {
        let id = ids.last();
        conflicts_for(base, ours, theirs, ids.drop_last()) + match conflict_of(id, lookup(base, id), lookup(ours, id), lookup(theirs, id)) {
            Some(c) => seq![c],
            None => seq![],
        }
    }
}

/// The index of the first record whose id an earlier record already has.
pub open spec fn duplicate_at(rs: Seq<RecordView>, i: int) -> bool {
    0 <= i < rs.len() && exists|j: int| 0 <= j < i && (#[trigger] rs[j]).id == rs[i].id
}

/// The id of the first repeated record of a side, scanning in order.
pub open spec fn first_duplicate(rs: Seq<RecordView>) -> Option<Seq<char>> {
    if exists|i: int| duplicate_at(rs, i) {
        let i = choose|i: int| duplicate_at(rs, i) && forall|k: int| 0 <= k < i ==> !duplicate_at(rs, k);
        Some(rs[i].id)
    } else {
        None
    }
}

fn push_unique_sorted(ids: &mut Vec<String>, id: &String)
    requires
        sorted_ids(old(ids)@.map_values(|s: String| s@)),
    ensures
        sorted_ids(final(ids)@.map_values(|s: String| s@)),
        final(ids)@.map_values(|s: String| s@).to_set() == old(ids)@.map_values(|s: String| s@).to_set().insert(id@),
{
    let ghost v = old(ids)@.map_values(|s: String| s@);
    let (idc, _) = crate::text::decode(id.as_str());
    let mut p: usize = 0;
    let mut scanning = true;
    while scanning && p < ids.len()
        invariant
            0 <= p <= ids@.len(),
            ids@ == old(ids)@,
            v == ids@.map_values(|s: String| s@),
            idc@ == id@,
            forall|i: int| 0 <= i < p ==> chars_less(#[trigger] v[i], id@),
            !scanning ==> p < v.len() && !chars_less(v[p as int], id@),
        decreases ids@.len() - p + if scanning { 1int } else { 0int },
    {
        let (pc, _) = crate::text::decode(ids[p].as_str());
        assert(v[p as int] == ids@[p as int]@);
        if crate::store::cache::impact::chars_less_of(pc.as_slice(), idc.as_slice()) {
            p = p + 1;
        } else {
            scanning = false;
        }
    }
    if p < ids.len() {
        let (pc, _) = crate::text::decode(ids[p].as_str());
        assert(v[p as int] == ids@[p as int]@);
        if crate::text::chars_equal(pc.as_slice(), idc.as_slice()) {
            assert(v.to_set().insert(id@) =~= v.to_set()) by {
                assert(v.to_set().contains(v[p as int]));
            }
            return;
        }
    }
    proof {
        if p < v.len() {
            lemma_chars_less_total(v[p as int], id@);
            assert forall|j: int| p <= j < v.len() implies chars_less(id@, #[trigger] v[j]) by {
                if j > p {
                    lemma_chars_less_transitive(id@, v[p as int], v[j]);
                }
            }
        }
    }
    ids.insert(p, id.clone());
    proof {
        let w = ids@.map_values(|s: String| s@);
        assert(w =~= v.insert(p as int, id@));
        assert forall|i: int, j: int| 0 <= i < j < w.len() implies chars_less(#[trigger] w[i], #[trigger] w[j]) by {
            if i < p && j > p {
                lemma_chars_less_transitive(v[i], id@, v[j - 1]);
            }
        }
        assert(w.to_set() =~= v.to_set().insert(id@)) by {
            assert forall|e| w.to_set().contains(e) implies v.to_set().insert(id@).contains(e) by {
                let k = choose|k: int| 0 <= k < w.len() && w[k] == e;
                if k < p {
                    assert(v[k] == e);
                } else if k > p {
                    assert(v[k - 1] == e);
                }
            }
            assert forall|e| v.to_set().insert(id@).contains(e) implies w.to_set().contains(e) by {
                if e == id@ {
                    assert(w[p as int] == e);
                } else {
                    let k = choose|k: int| 0 <= k < v.len() && v[k] == e;
                    if k < p {
                        assert(w[k] == e);
                    } else {
                        assert(w[k + 1] == e);
                    }
                }
            }
        }
    }
}

pub open spec fn ids_of(rs: Seq<RecordView>) -> Seq<Seq<char>> {
    rs.map_values(|r: RecordView| r.id)
}

pub open spec fn strings_view(v: Seq<String>) -> Seq<Seq<char>> {
    v.map_values(|s: String| s@)
}

proof fn lemma_picks(base: Seq<RecordView>, ours: Seq<RecordView>, theirs: Seq<RecordView>, ids: Seq<Seq<char>>)
    requires
        sorted_ids(ids),
    ensures
        sorted_ids(ids_of(picks(base, ours, theirs, ids))),
        forall|r: RecordView| #[trigger] picks(base, ours, theirs, ids).contains(r) <==> (ids.contains(r.id) && merged_record(
            lookup(base, r.id),
            lookup(ours, r.id),
            lookup(theirs, r.id),
        ) == Some(r)),
        sorted_ids(conflicts_for(base, ours, theirs, ids).map_values(|c: ConflictView| c.record_id)),
        forall|c: ConflictView| #[trigger] conflicts_for(base, ours, theirs, ids).contains(c) <==> (ids.contains(c.record_id) && conflict_of(
            c.record_id,
            lookup(base, c.record_id),
            lookup(ours, c.record_id),
            lookup(theirs, c.record_id),
        ) == Some(c)),
    decreases ids.len(),
{
    if ids.len() > 0 {
        let init = ids.drop_last();
        let id = ids.last();
        assert(sorted_ids(init)) by {
            assert forall|i: int, j: int| 0 <= i < j < init.len() implies chars_less(#[trigger] init[i], #[trigger] init[j]) by {
                assert(init[i] == ids[i] && init[j] == ids[j]);
            }
        }
        lemma_picks(base, ours, theirs, init);
        lemma_lookup(base, id);
        lemma_lookup(ours, id);
        lemma_lookup(theirs, id);
        lemma_chars_less_irreflexive(id);
        assert forall|x: Seq<char>| init.contains(x) implies chars_less(x, id) && x != id by {
            let k = choose|k: int| 0 <= k < init.len() && init[k] == x;
            assert(ids[k] == x);
            assert(chars_less(ids[k], ids[ids.len() - 1]));
        }
        assert forall|x: Seq<char>| #[trigger] ids.contains(x) <==> (init.contains(x) || x == id) by {
            if ids.contains(x) {
                let k = choose|k: int| 0 <= k < ids.len() && ids[k] == x;
                if k < ids.len() - 1 {
                    assert(init[k] == x);
                }
            }
            if init.contains(x) {
                let k = choose|k: int| 0 <= k < init.len() && init[k] == x;
                assert(ids[k] == x);
            }
            if x == id {
                assert(ids[ids.len() - 1] == x);
            }
        }
        let p0 = picks(base, ours, theirs, init);
        let p1 = picks(base, ours, theirs, ids);
        let m = merged_record(lookup(base, id), lookup(ours, id), lookup(theirs, id));
        assert(m matches Some(r) ==> r.id == id);
        assert forall|r: RecordView| p1.contains(r) <==> (ids.contains(r.id) && merged_record(
            lookup(base, r.id),
            lookup(ours, r.id),
            lookup(theirs, r.id),
        ) == Some(r)) by {
            if p1.contains(r) {
                let k = choose|k: int| 0 <= k < p1.len() && p1[k] == r;
                if k < p0.len() {
                    assert(p0[k] == r);
                    assert(p0.contains(r));
                }
            }
            if ids.contains(r.id) && merged_record(lookup(base, r.id), lookup(ours, r.id), lookup(theirs, r.id)) == Some(r) {
                if r.id == id {
                    assert(p1[p1.len() - 1] == r);
                } else {
                    assert(p0.contains(r));
                    let k = choose|k: int| 0 <= k < p0.len() && p0[k] == r;
                    assert(p1[k] == r);
                }
            }
        }
        let q0 = ids_of(p0);
        let q1 = ids_of(p1);
        assert forall|i: int, j: int| 0 <= i < j < q1.len() implies chars_less(#[trigger] q1[i], #[trigger] q1[j]) by {
            if j < q0.len() {
                assert(q0[i] == q1[i] && q0[j] == q1[j]);
            } else {
                assert(p1[j] == m->Some_0);
                assert(p0.contains(p1[i])) by {
                    assert(p0[i] == p1[i]);
                }
                assert(init.contains(p1[i].id));
            }
        }
        let c0 = conflicts_for(base, ours, theirs, init);
        let c1 = conflicts_for(base, ours, theirs, ids);
        let cm = conflict_of(id, lookup(base, id), lookup(ours, id), lookup(theirs, id));
        assert(cm matches Some(c) ==> c.record_id == id);
        assert forall|c: ConflictView| c1.contains(c) <==> (ids.contains(c.record_id) && conflict_of(
            c.record_id,
            lookup(base, c.record_id),
            lookup(ours, c.record_id),
            lookup(theirs, c.record_id),
        ) == Some(c)) by {
            if c1.contains(c) {
                let k = choose|k: int| 0 <= k < c1.len() && c1[k] == c;
                if k < c0.len() {
                    assert(c0[k] == c);
                    assert(c0.contains(c));
                }
            }
            if ids.contains(c.record_id) && conflict_of(c.record_id, lookup(base, c.record_id), lookup(ours, c.record_id), lookup(theirs, c.record_id)) == Some(c) {
                if c.record_id == id {
                    assert(c1[c1.len() - 1] == c);
                } else {
                    assert(c0.contains(c));
                    let k = choose|k: int| 0 <= k < c0.len() && c0[k] == c;
                    assert(c1[k] == c);
                }
            }
        }
        let d0 = c0.map_values(|c: ConflictView| c.record_id);
        let d1 = c1.map_values(|c: ConflictView| c.record_id);
        assert forall|i: int, j: int| 0 <= i < j < d1.len() implies chars_less(#[trigger] d1[i], #[trigger] d1[j]) by {
            if j < d0.len() {
                assert(d0[i] == d1[i] && d0[j] == d1[j]);
            } else {
                assert(c1[j] == cm->Some_0);
                assert(c0.contains(c1[i])) by {
                    assert(c0[i] == c1[i]);
                }
                assert(init.contains(c1[i].record_id));
            }
        }
    }
}

fn find_duplicate(rs: &[Record]) -> (r: Option<String>)
    ensures
        match r {
            Some(id) => first_duplicate(records_view(rs@)) == Some(id@),
            None => first_duplicate(records_view(rs@)) is None,
        },
{
    let ghost v = records_view(rs@);
    let mut i: usize = 0;
    while i < rs.len()
        invariant
            0 <= i <= rs@.len(),
            v == records_view(rs@),
            forall|k: int| 0 <= k < i ==> !duplicate_at(v, k),
        decreases rs@.len() - i,
    {
        let mut j: usize = 0;
        while j < i
            invariant
                0 <= j <= i < rs@.len(),
                v == records_view(rs@),
                forall|k: int| 0 <= k < i ==> !duplicate_at(v, k),
                forall|k: int| 0 <= k < j ==> (#[trigger] v[k]).id != v[i as int].id,
            decreases i - j,
        {
            assert(v[j as int] == rs@[j as int]@ && v[i as int] == rs@[i as int]@);
            if crate::text::str_equal(rs[j].id.as_str(), rs[i].id.as_str()) {
                proof {
                    assert(duplicate_at(v, i as int));
                    let c = choose|c: int| duplicate_at(v, c) && forall|k: int| 0 <= k < c ==> !duplicate_at(v, k);
                    if c < i {
                    } else if c > i {
                        assert(!duplicate_at(v, i as int));
                    }
                }
                return Some(rs[i].id.clone());
            }
            j = j + 1;
        }
        assert(!duplicate_at(v, i as int));
        i = i + 1;
    }
    None
}

fn lookup_exec<'a>(rs: &'a [Record], id: &str) -> (r: Option<&'a Record>)
    ensures
        match r {
            Some(x) => lookup(records_view(rs@), id@) == Some(x@),
            None => lookup(records_view(rs@), id@) is None,
        },
{
    let ghost v = records_view(rs@);
    let mut i = rs.len();
    assert(v.subrange(0, i as int) =~= v);
    while i > 0
        invariant
            0 <= i <= rs@.len(),
            v == records_view(rs@),
            lookup(v, id@) == lookup(v.subrange(0, i as int), id@),
        decreases i,
    {
        proof {
            let s = v.subrange(0, i as int);
            assert(s.last() == rs@[i - 1]@);
            assert(s.drop_last() =~= v.subrange(0, i - 1));
        }
        if crate::text::str_equal(rs[i - 1].id.as_str(), id) {
            return Some(&rs[i - 1]);
        }
        i = i - 1;
    }
    None
}

fn copy_bytes(b: &Vec<u8>) -> (c: Vec<u8>)
    ensures
        c@ == b@,
{
    let mut c: Vec<u8> = Vec::new();
    let mut i: usize = 0;
    while i < b.len()
        invariant
            0 <= i <= b@.len(),
            c@ == b@.subrange(0, i as int),
        decreases b@.len() - i,
    {
        c.push(b[i]);
        i = i + 1;
        assert(c@ =~= b@.subrange(0, i as int));
    }
    assert(b@.subrange(0, b@.len() as int) =~= b@);
    c
}

fn clone_record(r: &Record) -> (c: Record)
    ensures
        c@ == r@,
{
    Record { id: r.id.clone(), content: copy_bytes(&r.content), key: copy_bytes(&r.key) }
}

fn same_record(a: &Record, b: &Record) -> (r: bool)
    ensures
        r == same(a@, b@),
{
    if !crate::text::str_equal(a.id.as_str(), b.id.as_str()) || a.key.len() != b.key.len() {
        return false;
    }
    let mut i: usize = 0;
    while i < a.key.len()
        invariant
            0 <= i <= a.key@.len(),
            a.key@.len() == b.key@.len(),
            forall|k: int| 0 <= k < i ==> a.key@[k] == b.key@[k],
        decreases a.key@.len() - i,
    {
        if a.key[i] != b.key[i] {
            return false;
        }
        i = i + 1;
    }
    assert(a.key@ =~= b.key@);
    true
}

fn opt_clone(o: Option<&Record>) -> (r: Option<Record>)
    ensures
        opt_record(r) == match o {
            Some(x) => Some(x@),
            None => None,
        },
{
    match o {
        Some(x) => Some(clone_record(x)),
        None => None,
    }
}

fn decide(id: &String, b: Option<&Record>, o: Option<&Record>, t: Option<&Record>) -> (r: (Option<Record>, Option<MergeConflict>))
    ensures
        opt_record(r.0) == merged_record(
            match b { Some(x) => Some(x@), None => None },
            match o { Some(x) => Some(x@), None => None },
            match t { Some(x) => Some(x@), None => None },
        ),
        match r.1 {
            Some(c) => conflict_of(
                id@,
                match b { Some(x) => Some(x@), None => None },
                match o { Some(x) => Some(x@), None => None },
                match t { Some(x) => Some(x@), None => None },
            ) == Some(c@),
            None => conflict_of(
                id@,
                match b { Some(x) => Some(x@), None => None },
                match o { Some(x) => Some(x@), None => None },
                match t { Some(x) => Some(x@), None => None },
            ) is None,
        },
{
    match (b, o, t) {
        (None, Some(o), None) => (Some(clone_record(o)), None),
        (None, None, Some(t)) => (Some(clone_record(t)), None),
        (Some(_), None, None) => (None, None),
        (Some(b), Some(o), None) => if same_record(o, b) {
            (None, None)
        } else {
            (Some(clone_record(o)), Some(MergeConflict {
                kind: MergeConflictKind::DeleteModify,
                record_id: id.clone(),
                ours: Some(clone_record(o)),
                theirs: None,
            }))
        },
        (Some(b), None, Some(t)) => if same_record(t, b) {
            (None, None)
        } else {
            (Some(clone_record(t)), Some(MergeConflict {
                kind: MergeConflictKind::DeleteModify,
                record_id: id.clone(),
                ours: None,
                theirs: Some(clone_record(t)),
            }))
        },
        (Some(b), Some(o), Some(t)) => if same_record(o, t) {
            (Some(clone_record(o)), None)
        } else if same_record(o, b) {
            (Some(clone_record(t)), None)
        } else if same_record(t, b) {
            (Some(clone_record(o)), None)
        } else {
            (Some(clone_record(o)), Some(MergeConflict {
                kind: MergeConflictKind::DivergentEdit,
                record_id: id.clone(),
                ours: Some(clone_record(o)),
                theirs: Some(clone_record(t)),
            }))
        },
        (None, Some(o), Some(t)) => if same_record(o, t) {
            (Some(clone_record(o)), None)
        } else {
            (Some(clone_record(o)), Some(MergeConflict {
                kind: MergeConflictKind::DivergentEdit,
                record_id: id.clone(),
                ours: Some(clone_record(o)),
                theirs: Some(clone_record(t)),
            }))
        },
        (None, None, None) => (None, None),
    }
}

/// The ids of the first `n` records.
pub open spec fn side_ids(rs: Seq<RecordView>, n: int) -> Set<Seq<char>> {
    Set::new(|id: Seq<char>| exists|i: int| 0 <= i < n && (#[trigger] rs[i]).id == id)
}

fn add_ids(ids: &mut Vec<String>, rs: &[Record])
    requires
        sorted_ids(strings_view(old(ids)@)),
    ensures
        sorted_ids(strings_view(final(ids)@)),
        strings_view(final(ids)@).to_set() == strings_view(old(ids)@).to_set().union(
            side_ids(records_view(rs@), rs@.len() as int),
        ),
{
    let ghost v = records_view(rs@);
    let ghost start = strings_view(ids@).to_set();
    let mut i: usize = 0;
    assert(side_ids(v, 0) =~= Set::<Seq<char>>::empty());
    assert(start.union(side_ids(v, 0)) =~= start);
    while i < rs.len()
        invariant
            0 <= i <= rs@.len(),
            v == records_view(rs@),
            sorted_ids(strings_view(ids@)),
            strings_view(ids@).to_set() == start.union(side_ids(v, i as int)),
        decreases rs@.len() - i,
    {
        push_unique_sorted(ids, &rs[i].id);
        proof {
            assert(v[i as int].id == rs@[i as int].id@);
            assert(side_ids(v, i + 1) =~= side_ids(v, i as int).insert(v[i as int].id)) by {
                assert forall|x| side_ids(v, i + 1).contains(x) implies side_ids(v, i as int).insert(v[i as int].id).contains(x) by {
                    let k = choose|k: int| 0 <= k < i + 1 && (#[trigger] v[k]).id == x;
                    if k < i {
                        assert(side_ids(v, i as int).contains(x));
                    }
                }
            }
            assert(strings_view(ids@).to_set() =~= start.union(side_ids(v, i + 1)));
        }
        i = i + 1;
    }
}

/// The first repeated id, checking the base, then ours, then theirs.
pub open spec fn first_duplicate_of(base: Seq<RecordView>, ours: Seq<RecordView>, theirs: Seq<RecordView>) -> Option<Seq<char>> {
    if first_duplicate(base) is Some {
        first_duplicate(base)
    } else if first_duplicate(ours) is Some {
        first_duplicate(ours)
    } else {
        first_duplicate(theirs)
    }
}

/// The kept records and the conflicts of an outcome.
pub open spec fn outcome_parts(o: MergeOutcome<Vec<Record>>) -> (Seq<RecordView>, Seq<ConflictView>) {
    match o {
        MergeOutcome::Clean { records } => (records_view(records@), seq![]),
        MergeOutcome::Conflicted { conflicts, partial } => (records_view(partial@), conflicts_view(conflicts@)),
    }
}

/// Merges three versions of a shard's records, matched by id: a change on
/// one side wins over the base, equal changes collapse, a deletion against
/// a change and two different changes are conflicts (the merge keeps the
/// changed record, ours first). The result lists records by increasing id.
/// A side with a repeated id is refused.
pub fn merge_records(base: &[Record], ours: &[Record], theirs: &[Record]) -> (r: Result<MergeOutcome<Vec<Record>>, String>)
    ensures
        match r {
            Err(m) => first_duplicate_of(records_view(base@), records_view(ours@), records_view(theirs@)) matches Some(id)
                && m@ == "duplicate record id "@ + id,
            Ok(outcome) => first_duplicate_of(records_view(base@), records_view(ours@), records_view(theirs@)) is None
                && merge_spec(
                    records_view(base@),
                    records_view(ours@),
                    records_view(theirs@),
                    outcome_parts(outcome).0,
                    outcome_parts(outcome).1,
                ) && (outcome is Clean <==> outcome_parts(outcome).1.len() == 0),
        },
{
    let ghost bv = records_view(base@);
    let ghost ov = records_view(ours@);
    let ghost tv = records_view(theirs@);
    proof {
        reveal_strlit("duplicate record id ");
    }
    if let Some(id) = find_duplicate(base) {
        let mut m = String::from_str("duplicate record id ");
        m.append(id.as_str());
        return Err(m);
    }
    if let Some(id) = find_duplicate(ours) {
        let mut m = String::from_str("duplicate record id ");
        m.append(id.as_str());
        return Err(m);
    }
    if let Some(id) = find_duplicate(theirs) {
        let mut m = String::from_str("duplicate record id ");
        m.append(id.as_str());
        return Err(m);
    }
    let mut ids: Vec<String> = Vec::new();
    proof {
        assert(strings_view(ids@) =~= Seq::<Seq<char>>::empty());
        assert(strings_view(ids@).to_set() =~= Set::<Seq<char>>::empty());
    }
    add_ids(&mut ids, base);
    add_ids(&mut ids, ours);
    add_ids(&mut ids, theirs);
    let ghost iv = strings_view(ids@);
    let mut merged: Vec<Record> = Vec::new();
    let mut conflicts: Vec<MergeConflict> = Vec::new();
    let mut k: usize = 0;
    while k < ids.len()
        invariant
            0 <= k <= ids@.len(),
            iv == strings_view(ids@),
            bv == records_view(base@),
            ov == records_view(ours@),
            tv == records_view(theirs@),
            records_view(merged@) == picks(bv, ov, tv, iv.subrange(0, k as int)),
            conflicts_view(conflicts@) == conflicts_for(bv, ov, tv, iv.subrange(0, k as int)),
        decreases ids@.len() - k,
    {
        let id = &ids[k];
        let b = lookup_exec(base, id.as_str());
        let o = lookup_exec(ours, id.as_str());
        let t = lookup_exec(theirs, id.as_str());
        let (kept, conflict) = decide(id, b, o, t);
        proof {
            let s = iv.subrange(0, k + 1);
            assert(s.drop_last() =~= iv.subrange(0, k as int));
            assert(s.last() == id@);
        }
        let ghost pm = records_view(merged@);
        let ghost pc = conflicts_view(conflicts@);
        match kept {
            Some(rec) => {
                let ghost rv = rec@;
                merged.push(rec);
                assert(records_view(merged@) =~= pm.push(rv));
            },
            None => {},
        }
        match conflict {
            Some(c) => {
                let ghost cv = c@;
                conflicts.push(c);
                assert(conflicts_view(conflicts@) =~= pc.push(cv));
            },
            None => {},
        }
        assert(records_view(merged@) =~= picks(bv, ov, tv, iv.subrange(0, k + 1)));
        assert(conflicts_view(conflicts@) =~= conflicts_for(bv, ov, tv, iv.subrange(0, k + 1)));
        k = k + 1;
    }
    proof {
        assert(iv.subrange(0, iv.len() as int) =~= iv);
        lemma_picks(bv, ov, tv, iv);
        assert forall|id: Seq<char>| #[trigger] iv.contains(id) <==> any_side(bv, ov, tv, id) by {
            lemma_lookup(bv, id);
            lemma_lookup(ov, id);
            lemma_lookup(tv, id);
            assert(iv.to_set().contains(id) == iv.contains(id));
            if exists|i: int| 0 <= i < bv.len() && (#[trigger] bv[i]).id == id {
                assert(side_ids(bv, bv.len() as int).contains(id));
            }
            if exists|i: int| 0 <= i < ov.len() && (#[trigger] ov[i]).id == id {
                assert(side_ids(ov, ov.len() as int).contains(id));
            }
            if exists|i: int| 0 <= i < tv.len() && (#[trigger] tv[i]).id == id {
                assert(side_ids(tv, tv.len() as int).contains(id));
            }
        }
        assert(conflicts_view(conflicts@).len() == conflicts@.len());
    }
    if conflicts.len() == 0 {
        proof {
            assert(conflicts_view(conflicts@) =~= Seq::<ConflictView>::empty());
        }
        Ok(MergeOutcome::Clean { records: merged })
    } else {
        Ok(MergeOutcome::Conflicted { conflicts, partial: merged })
    }
}

/// What of a record its comparison sees: its id and its key.
pub open spec fn key_of(r: RecordView) -> RecordView {
    RecordView { id: r.id, content: seq![], key: r.key }
}

/// The records as their comparison sees them, in order.
pub open spec fn keys_of(rs: Seq<RecordView>) -> Seq<RecordView> {
    rs.map_values(|r: RecordView| key_of(r))
}

proof fn lemma_key_in(rs: Seq<RecordView>, x: RecordView)
    requires
        rs.contains(x),
    ensures
        keys_of(rs).contains(key_of(x)),
{
    let i = choose|i: int| 0 <= i < rs.len() && rs[i] == x;
    assert(keys_of(rs)[i] == key_of(x));
}

proof fn lemma_key_from(rs: Seq<RecordView>, k: RecordView)
    requires
        keys_of(rs).contains(k),
    ensures
        exists|x: RecordView| rs.contains(x) && key_of(x) == k,
{
    let i = choose|i: int| 0 <= i < keys_of(rs).len() && keys_of(rs)[i] == k;
    assert(rs.contains(rs[i]));
}

/// Without a conflict, swapping the sides keeps a record of the same value,
/// or none.
proof fn lemma_merged_swap(id: Seq<char>, b: Option<RecordView>, o: Option<RecordView>, t: Option<RecordView>)
    requires
        conflict_of(id, b, o, t) is None,
    ensures
        merged_record(b, o, t) is Some <==> merged_record(b, t, o) is Some,
        merged_record(b, o, t) is Some ==> key_of(merged_record(b, o, t)->0) == key_of(merged_record(b, t, o)->0),
        conflict_of(id, b, t, o) is None,
{
}

// ---------------------------------------------------------------------------
// Laws.

proof fn lemma_lookup_unique(rs: Seq<RecordView>, r: RecordView)
    requires
        unique_ids(rs),
        rs.contains(r),
    ensures
        lookup(rs, r.id) == Some(r),
    decreases rs.len(),
{
    let k = choose|k: int| 0 <= k < rs.len() && rs[k] == r;
    if rs.last().id != r.id {
        assert(k != rs.len() - 1);
        let init = rs.drop_last();
        assert(init[k] == r);
        assert(unique_ids(init)) by {
            assert forall|i: int, j: int| 0 <= i < j < init.len() implies (#[trigger] init[i]).id != (#[trigger] init[j]).id by {
                assert(init[i] == rs[i] && init[j] == rs[j]);
            }
        }
        lemma_lookup_unique(init, r);
    } else {
        if k != rs.len() - 1 {
            assert(rs[k].id == rs[rs.len() - 1].id);
        }
    }
}

/// Equal edits collapse: when both sides hold the same records, the merge
/// reports no conflict and keeps exactly those records, whatever the base.
pub proof fn law_identical_edits_merge_cleanly(
    base: Seq<RecordView>,
    both: Seq<RecordView>,
    merged: Seq<RecordView>,
    conflicts: Seq<ConflictView>,
)
    requires
        unique_ids(both),
        merge_spec(base, both, both, merged, conflicts),
    ensures
        conflicts.len() == 0,
        forall|r: RecordView| merged.contains(r) <==> both.contains(r),
{
    if conflicts.len() > 0 {
        let c = conflicts[0];
        assert(conflicts.contains(c));
    }
    assert forall|r: RecordView| merged.contains(r) <==> both.contains(r) by {
        lemma_lookup(both, r.id);
        lemma_lookup(base, r.id);
        if both.contains(r) {
            lemma_lookup_unique(both, r);
        }
    }
}

/// A side that left the base untouched gives way: merging the base, the
/// base again and their records reports no conflict and keeps records of
/// exactly their values, their deletions included. (Where theirs holds the
/// base's value in other bytes, the base's bytes stay.)
pub proof fn law_one_sided_change_wins(
    base: Seq<RecordView>,
    theirs: Seq<RecordView>,
    merged: Seq<RecordView>,
    conflicts: Seq<ConflictView>,
)
    requires
        unique_ids(base),
        unique_ids(theirs),
        merge_spec(base, base, theirs, merged, conflicts),
    ensures
        conflicts.len() == 0,
        forall|k: RecordView| #[trigger] keys_of(merged).contains(k) <==> keys_of(theirs).contains(k),
{
    if conflicts.len() > 0 {
        let c = conflicts[0];
        assert(conflicts.contains(c));
    }
    assert forall|k: RecordView| #[trigger] keys_of(merged).contains(k) <==> keys_of(theirs).contains(k) by {
        if keys_of(merged).contains(k) {
            lemma_key_from(merged, k);
            let x = choose|x: RecordView| merged.contains(x) && key_of(x) == k;
            lemma_lookup(theirs, x.id);
            lemma_lookup(base, x.id);
            let lt = lookup(theirs, x.id);
            let lb = lookup(base, x.id);
            if lt is Some {
                lemma_key_in(theirs, lt->0);
                assert(key_of(lt->0) == k);
            }
        }
        if keys_of(theirs).contains(k) {
            lemma_key_from(theirs, k);
            let y = choose|y: RecordView| theirs.contains(y) && key_of(y) == k;
            lemma_lookup_unique(theirs, y);
            lemma_lookup(theirs, y.id);
            lemma_lookup(base, y.id);
            let lb = lookup(base, y.id);
            let kept = merged_record(lb, lb, Some(y));
            assert(kept is Some);
            assert(any_side(base, base, theirs, kept->0.id));
            assert(merged.contains(kept->0));
            lemma_key_in(merged, kept->0);
        }
    }
}

/// A side that left the base untouched gives way the other way round too:
/// merging the base, our records and the base again reports no conflict and
/// keeps exactly our records, in increasing id order.
pub proof fn law_untouched_theirs_keeps_ours(
    base: Seq<RecordView>,
    ours: Seq<RecordView>,
    merged: Seq<RecordView>,
    conflicts: Seq<ConflictView>,
)
    requires
        unique_ids(base),
        unique_ids(ours),
        merge_spec(base, ours, base, merged, conflicts),
    ensures
        conflicts.len() == 0,
        forall|r: RecordView| merged.contains(r) <==> ours.contains(r),
        sorted_ids(ids_of(merged)),
{
    if conflicts.len() > 0 {
        let c = conflicts[0];
        assert(conflicts.contains(c));
    }
    assert forall|r: RecordView| merged.contains(r) <==> ours.contains(r) by {
        lemma_lookup(ours, r.id);
        lemma_lookup(base, r.id);
        if ours.contains(r) {
            lemma_lookup_unique(ours, r);
        }
    }
}

/// Two record lists in strictly increasing id order with the same records
/// are equal.
proof fn lemma_sorted_same_records(a: Seq<RecordView>, b: Seq<RecordView>)
    requires
        sorted_ids(ids_of(a)),
        sorted_ids(ids_of(b)),
        forall|r: RecordView| a.contains(r) <==> b.contains(r),
    ensures
        a == b,
    decreases a.len() + b.len(),
{
    if a.len() == 0 {
        if b.len() > 0 {
            assert(b.contains(b[0]));
        }
        assert(a =~= b);
    } else if b.len() == 0 {
        assert(a.contains(a[0]));
    } else {
        let la = a.last();
        let lb = b.last();
        assert(a.contains(la));
        assert(b.contains(lb));
        let k = choose|k: int| 0 <= k < b.len() && b[k] == la;
        let j = choose|j: int| 0 <= j < a.len() && a[j] == lb;
        lemma_chars_less_irreflexive(la.id);
        lemma_chars_less_irreflexive(lb.id);
        if k < b.len() - 1 {
            assert(ids_of(b)[k] == la.id && ids_of(b)[b.len() - 1] == lb.id);
            assert(chars_less(la.id, lb.id));
            if j < a.len() - 1 {
                assert(ids_of(a)[j] == lb.id && ids_of(a)[a.len() - 1] == la.id);
                assert(chars_less(lb.id, la.id));
                lemma_chars_less_transitive(la.id, lb.id, la.id);
            }
        }
        assert(la == lb);
        let a0 = a.drop_last();
        let b0 = b.drop_last();
        assert(sorted_ids(ids_of(a0))) by {
            assert forall|x: int, y: int| 0 <= x < y < ids_of(a0).len() implies chars_less(
                #[trigger] ids_of(a0)[x],
                #[trigger] ids_of(a0)[y],
            ) by {
                assert(ids_of(a0)[x] == ids_of(a)[x] && ids_of(a0)[y] == ids_of(a)[y]);
            }
        }
        assert(sorted_ids(ids_of(b0))) by {
            assert forall|x: int, y: int| 0 <= x < y < ids_of(b0).len() implies chars_less(
                #[trigger] ids_of(b0)[x],
                #[trigger] ids_of(b0)[y],
            ) by {
                assert(ids_of(b0)[x] == ids_of(b)[x] && ids_of(b0)[y] == ids_of(b)[y]);
            }
        }
        assert forall|r: RecordView| a0.contains(r) <==> b0.contains(r) by {
            if a0.contains(r) {
                let x = choose|x: int| 0 <= x < a0.len() && a0[x] == r;
                assert(ids_of(a)[x] == r.id && ids_of(a)[a.len() - 1] == la.id);
                assert(a.contains(r));
                let y = choose|y: int| 0 <= y < b.len() && b[y] == r;
                if y == b.len() - 1 {
                    assert(chars_less(r.id, la.id));
                } else {
                    assert(b0[y] == r);
                }
            }
            if b0.contains(r) {
                let x = choose|x: int| 0 <= x < b0.len() && b0[x] == r;
                assert(ids_of(b)[x] == r.id && ids_of(b)[b.len() - 1] == lb.id);
                assert(b.contains(r));
                let y = choose|y: int| 0 <= y < a.len() && a[y] == r;
                if y == a.len() - 1 {
                    assert(chars_less(r.id, lb.id));
                } else {
                    assert(a0[y] == r);
                }
            }
        }
        lemma_sorted_same_records(a0, b0);
        assert(a =~= a0.push(la));
        assert(b =~= b0.push(lb));
    }
}

/// The ids of the conflicts, in order.
pub open spec fn conflict_ids(cs: Seq<ConflictView>) -> Seq<Seq<char>> {
    cs.map_values(|c: ConflictView| c.record_id)
}

/// The merge does not favour a side: swapping ours and theirs gives a
/// conflict for the same ids, and when one order merges cleanly, so does
/// the other, to records of the same ids and values. Either way the records and the
/// conflicts come in strictly increasing id order.
pub proof fn law_merge_is_symmetric(
    base: Seq<RecordView>,
    ours: Seq<RecordView>,
    theirs: Seq<RecordView>,
    merged: Seq<RecordView>,
    conflicts: Seq<ConflictView>,
    swapped: Seq<RecordView>,
    swapped_conflicts: Seq<ConflictView>,
)
    requires
        merge_spec(base, ours, theirs, merged, conflicts),
        merge_spec(base, theirs, ours, swapped, swapped_conflicts),
    ensures
        forall|id: Seq<char>| #[trigger] conflict_ids(conflicts).contains(id) <==> conflict_ids(swapped_conflicts).contains(id),
        conflicts.len() == 0 <==> swapped_conflicts.len() == 0,
        conflicts.len() == 0 ==> keys_of(merged) == keys_of(swapped),
        sorted_ids(ids_of(merged)),
        sorted_ids(conflict_ids(conflicts)),
{
    let ci = conflict_ids(conflicts);
    let si = conflict_ids(swapped_conflicts);
    assert forall|id: Seq<char>| ci.contains(id) <==> si.contains(id) by {
        if ci.contains(id) {
            let k = choose|k: int| 0 <= k < ci.len() && ci[k] == id;
            let c = conflicts[k];
            assert(conflicts.contains(c));
            let (b, o, t) = (lookup(base, id), lookup(ours, id), lookup(theirs, id));
            let sc = conflict_of(id, b, t, o)->Some_0;
            assert(conflict_of(id, b, t, o) is Some);
            assert(swapped_conflicts.contains(sc));
            let j = choose|j: int| 0 <= j < swapped_conflicts.len() && swapped_conflicts[j] == sc;
            assert(si[j] == id);
        }
        if si.contains(id) {
            let k = choose|k: int| 0 <= k < si.len() && si[k] == id;
            let c = swapped_conflicts[k];
            assert(swapped_conflicts.contains(c));
            let (b, o, t) = (lookup(base, id), lookup(ours, id), lookup(theirs, id));
            let oc = conflict_of(id, b, o, t)->Some_0;
            assert(conflict_of(id, b, o, t) is Some);
            assert(conflicts.contains(oc));
            let j = choose|j: int| 0 <= j < conflicts.len() && conflicts[j] == oc;
            assert(ci[j] == id);
        }
    }
    if conflicts.len() > 0 {
        assert(ci.contains(ci[0]));
        assert(si.len() > 0);
    }
    if swapped_conflicts.len() > 0 {
        assert(si.contains(si[0]));
        assert(ci.len() > 0);
    }
    if conflicts.len() == 0 {
        assert(swapped_conflicts.len() == 0);
        assert forall|k: RecordView| keys_of(merged).contains(k) <==> keys_of(swapped).contains(k) by {
            if keys_of(merged).contains(k) {
                lemma_key_from(merged, k);
                let x = choose|x: RecordView| merged.contains(x) && key_of(x) == k;
                let (b, o, t) = (lookup(base, x.id), lookup(ours, x.id), lookup(theirs, x.id));
                if conflict_of(x.id, b, o, t) is Some {
                    let c = conflict_of(x.id, b, o, t)->Some_0;
                    assert(conflicts.contains(c));
                }
                lemma_merged_swap(x.id, b, o, t);
                lemma_lookup(base, x.id);
                lemma_lookup(ours, x.id);
                lemma_lookup(theirs, x.id);
                let y = merged_record(b, t, o)->0;
                assert(y.id == x.id);
                assert(swapped.contains(y));
                lemma_key_in(swapped, y);
            }
            if keys_of(swapped).contains(k) {
                lemma_key_from(swapped, k);
                let y = choose|y: RecordView| swapped.contains(y) && key_of(y) == k;
                let (b, o, t) = (lookup(base, y.id), lookup(ours, y.id), lookup(theirs, y.id));
                if conflict_of(y.id, b, t, o) is Some {
                    let c = conflict_of(y.id, b, t, o)->Some_0;
                    assert(swapped_conflicts.contains(c));
                }
                lemma_merged_swap(y.id, b, t, o);
                lemma_lookup(base, y.id);
                lemma_lookup(ours, y.id);
                lemma_lookup(theirs, y.id);
                let x = merged_record(b, o, t)->0;
                assert(x.id == y.id);
                assert(merged.contains(x));
                lemma_key_in(merged, x);
            }
        }
        assert(ids_of(keys_of(merged)) =~= ids_of(merged));
        assert(ids_of(keys_of(swapped)) =~= ids_of(swapped));
        lemma_sorted_same_records(keys_of(merged), keys_of(swapped));
    }
}

} // verus!
