//! The cache schema's migrations: which of them a database still needs, in
//! order, and the statements a migration script holds.
use vstd::prelude::*;
use crate::scanner::chars::string_of;
use crate::ste100::dictionary::{kept_forms, push_kept_forms, split, split_on, texts_view};
use crate::store::cache::graph::{contains_id, ids_view};

verus! {

pub const INITIAL_MIGRATION_ID: &'static str = "001";
pub const SOURCE_REQUIREMENT_MIGRATION_ID: &'static str = "002";
pub const RESOLUTIONS_RULES_MIGRATION_ID: &'static str = "003";
pub const THREADS_MESSAGES_MIGRATION_ID: &'static str = "004";
pub const REPORT_INDEXES_MIGRATION_ID: &'static str = "005";
pub const IDEATION_OUTPUTS_MIGRATION_ID: &'static str = "006";
pub const SHAPING_SCAFFOLDING_MIGRATION_ID: &'static str = "007";
pub const RESOLUTION_SOURCE_ENRICHMENT_MIGRATION_ID: &'static str = "008";
pub const DOMAINS_SERVICES_MIGRATION_ID: &'static str = "009";
pub const SHAPING_TURN_STATE_MIGRATION_ID: &'static str = "010";
pub const COMMIT_PIN_CONFIDENCE_MIGRATION_ID: &'static str = "011";
pub const PROPOSAL_ASSERTIONS_MIGRATION_ID: &'static str = "012";
pub const ASSERTION_RECORDS_MIGRATION_ID: &'static str = "013";

/// Every migration, in the order they are applied.
pub open spec fn migration_order() -> Seq<Seq<char>> {
    seq![
        INITIAL_MIGRATION_ID@,
        SOURCE_REQUIREMENT_MIGRATION_ID@,
        RESOLUTIONS_RULES_MIGRATION_ID@,
        THREADS_MESSAGES_MIGRATION_ID@,
        REPORT_INDEXES_MIGRATION_ID@,
        IDEATION_OUTPUTS_MIGRATION_ID@,
        SHAPING_SCAFFOLDING_MIGRATION_ID@,
        RESOLUTION_SOURCE_ENRICHMENT_MIGRATION_ID@,
        DOMAINS_SERVICES_MIGRATION_ID@,
        SHAPING_TURN_STATE_MIGRATION_ID@,
        COMMIT_PIN_CONFIDENCE_MIGRATION_ID@,
        PROPOSAL_ASSERTIONS_MIGRATION_ID@,
        ASSERTION_RECORDS_MIGRATION_ID@,
    ]
}

/// Every migration, in the order they are applied.
pub fn migration_ids() -> (r: Vec<String>)
    ensures
        ids_view(r@) == migration_order(),
{
    let r = vec![
        INITIAL_MIGRATION_ID.to_owned(),
        SOURCE_REQUIREMENT_MIGRATION_ID.to_owned(),
        RESOLUTIONS_RULES_MIGRATION_ID.to_owned(),
        THREADS_MESSAGES_MIGRATION_ID.to_owned(),
        REPORT_INDEXES_MIGRATION_ID.to_owned(),
        IDEATION_OUTPUTS_MIGRATION_ID.to_owned(),
        SHAPING_SCAFFOLDING_MIGRATION_ID.to_owned(),
        RESOLUTION_SOURCE_ENRICHMENT_MIGRATION_ID.to_owned(),
        DOMAINS_SERVICES_MIGRATION_ID.to_owned(),
        SHAPING_TURN_STATE_MIGRATION_ID.to_owned(),
        COMMIT_PIN_CONFIDENCE_MIGRATION_ID.to_owned(),
        PROPOSAL_ASSERTIONS_MIGRATION_ID.to_owned(),
        ASSERTION_RECORDS_MIGRATION_ID.to_owned(),
    ];
    assert(ids_view(r@) =~= migration_order());
    r
}

/// The migrations of `ids`, in order, that are not among `applied`.
pub open spec fn pending(ids: Seq<Seq<char>>, applied: Seq<Seq<char>>) -> Seq<Seq<char>>
    decreases ids.len(),
{
    if ids.len() == 0 {
        seq![]
    } else {
        pending(ids.drop_last(), applied) + if applied.contains(ids.last()) {
            seq![]
        } else {
            seq![ids.last()]
        }
    }
}

/// The migrations a database that recorded `applied` still needs, in the
/// order they are applied.
pub fn pending_migrations(applied: &[String]) -> (r: Vec<String>)
    ensures
        ids_view(r@) == pending(migration_order(), ids_view(applied@)),
{
    let ids = migration_ids();
    let ghost iv = ids_view(ids@);
    let mut r: Vec<String> = Vec::new();
    let mut i: usize = 0;
    while i < ids.len()
        invariant
            0 <= i <= ids@.len(),
            iv == ids_view(ids@),
            iv == migration_order(),
            ids_view(r@) == pending(iv.subrange(0, i as int), ids_view(applied@)),
        decreases ids@.len() - i,
    {
        proof {
            let s = iv.subrange(0, i + 1);
            assert(s.drop_last() =~= iv.subrange(0, i as int));
            assert(s.last() == ids@[i as int]@);
        }
        if !contains_id(applied, ids[i].as_str()) {
            let ghost before = ids_view(r@);
            r.push(ids[i].clone());
            assert(ids_view(r@) =~= before.push(ids@[i as int]@));
        }
        assert(ids_view(r@) =~= pending(iv.subrange(0, i + 1), ids_view(applied@)));
        i = i + 1;
    }
    assert(iv.subrange(0, ids@.len() as int) =~= iv);
    r
}

/// The statements of a migration script: the text between `;`s, trimmed,
/// empty ones left out.
pub open spec fn statements_of(sql: Seq<char>) -> Seq<Seq<char>> {
    kept_forms(split_on(sql, seq![';']))
}

/// The statements of a migration script, in order.
pub fn sql_statements(sql: &str) -> (r: Vec<String>)
    ensures
        ids_view(r@) == statements_of(sql@),
{
    let (chars, _) = crate::text::decode(sql);
    let semicolon: Vec<char> = vec![';'];
    assert(semicolon@ =~= seq![';']);
    let pieces = split(chars.as_slice(), semicolon.as_slice());
    let mut kept: Vec<Vec<char>> = Vec::new();
    push_kept_forms(&mut kept, &pieces);
    assert(texts_view(kept@) =~= statements_of(sql@));
    let mut r: Vec<String> = Vec::new();
    let mut i: usize = 0;
    while i < kept.len()
        invariant
            0 <= i <= kept@.len(),
            texts_view(kept@) == statements_of(sql@),
            ids_view(r@) == texts_view(kept@).subrange(0, i as int),
        decreases kept@.len() - i,
    {
        let s = string_of(kept[i].as_slice());
        let ghost before = ids_view(r@);
        assert(s@ == texts_view(kept@)[i as int]);
        r.push(s);
        assert(ids_view(r@) =~= before.push(texts_view(kept@)[i as int]));
        assert(ids_view(r@) =~= texts_view(kept@).subrange(0, i + 1));
        i = i + 1;
    }
    assert(texts_view(kept@).subrange(0, kept@.len() as int) =~= texts_view(kept@));
    r
}

/// A migration already recorded is never pending again, and every listed
/// migration not yet recorded is pending.
pub proof fn law_pending_migrations_skip_the_applied(ids: Seq<Seq<char>>, applied: Seq<Seq<char>>, id: Seq<char>)
    ensures
        applied.contains(id) ==> !pending(ids, applied).contains(id),
        ids.contains(id) && !applied.contains(id) ==> pending(ids, applied).contains(id),
    decreases ids.len(),
{
    if ids.len() > 0 {
        law_pending_migrations_skip_the_applied(ids.drop_last(), applied, id);
        if ids.drop_last().contains(id) {
            let k = choose|k: int| 0 <= k < ids.drop_last().len() && ids.drop_last()[k] == id;
            assert(ids[k] == id);
        }
        if ids.contains(id) && !ids.drop_last().contains(id) {
            let k = choose|k: int| 0 <= k < ids.len() && ids[k] == id;
            if k < ids.len() - 1 {
                assert(ids.drop_last()[k] == id);
            }
            assert(ids.last() == id);
        }
        let rest = pending(ids.drop_last(), applied);
        if !applied.contains(ids.last()) {
            assert(pending(ids, applied) == rest.push(ids.last()));
            assert(pending(ids, applied)[rest.len() as int] == ids.last());
            if rest.contains(id) {
                let k = choose|k: int| 0 <= k < rest.len() && rest[k] == id;
                assert(pending(ids, applied)[k] == id);
            }
        } else {
            assert(pending(ids, applied) =~= rest);
        }
        if pending(ids, applied).contains(id) && applied.contains(id) {
            let k = choose|k: int| 0 <= k < pending(ids, applied).len() && pending(ids, applied)[k] == id;
            if k < rest.len() {
                assert(rest[k] == id);
            }
        }
    }
}

} // verus!
