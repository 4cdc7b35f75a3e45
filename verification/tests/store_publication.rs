use provenance::store::publication::{
    backup_state_dir, plan_recovery, recovery_dir_inside_cache, recovery_use_for, PublicationMarker,
    PublicationPhase, RecoveryProbes, RecoveryStep, RecoveryUse,
};

const CONTAINER: &str = "/repo/.provenance/cache/import-transactions";

fn probes(parent: Result<&str, &str>, resolved: Result<&str, &str>, is_dir: Result<bool, &str>) -> RecoveryProbes {
    RecoveryProbes {
        canonical_parent: parent.map(str::to_string).map_err(str::to_string),
        resolved: resolved.map(str::to_string).map_err(str::to_string),
        is_dir: is_dir.map_err(str::to_string),
    }
}

#[test]
fn a_real_directory_inside_the_cache_is_used_by_its_contained_path() {
    let candidate = "/repo/.provenance/cache/import-transactions/t";
    let found = probes(Ok(CONTAINER), Ok(candidate), Ok(true));
    assert_eq!(
        recovery_dir_inside_cache(CONTAINER, candidate, RecoveryUse::Touched, &found),
        Ok("/repo/.provenance/cache/import-transactions/t".to_string())
    );
}

#[test]
fn a_symlink_out_of_the_cache_is_refused() {
    let candidate = "/repo/.provenance/cache/import-transactions/t";
    let found = probes(Ok(CONTAINER), Ok("/elsewhere/leaf"), Ok(true));
    assert_eq!(
        recovery_dir_inside_cache(CONTAINER, candidate, RecoveryUse::Touched, &found),
        Err("publication marker transaction is outside the repository cache".to_string())
    );
}

#[test]
fn a_parent_that_resolves_elsewhere_is_refused() {
    let candidate = "/repo/.provenance/cache/import-transactions/../../../outside/target";
    let found = probes(Ok("/repo/outside"), Ok("/repo/outside/target"), Ok(true));
    assert_eq!(
        recovery_dir_inside_cache(CONTAINER, candidate, RecoveryUse::Touched, &found),
        Err("publication marker transaction is outside the repository cache".to_string())
    );
}

#[test]
fn a_regular_file_is_refused_by_its_kind() {
    let candidate = "/repo/.provenance/cache/import-transactions/t";
    let found = probes(Ok(CONTAINER), Ok(candidate), Ok(false));
    assert_eq!(
        recovery_dir_inside_cache(CONTAINER, candidate, RecoveryUse::Touched, &found),
        Err("publication marker transaction is not a directory".to_string())
    );
}

#[test]
fn a_gone_directory_is_only_checked_for_its_place() {
    let candidate = "/repo/.provenance/cache/import-transactions/gone";
    let found = probes(Ok(CONTAINER), Err("No such file or directory"), Err("No such file or directory"));
    assert_eq!(
        recovery_dir_inside_cache(CONTAINER, candidate, RecoveryUse::AlreadyGone, &found),
        Ok("/repo/.provenance/cache/import-transactions/gone".to_string())
    );
    assert_eq!(
        recovery_dir_inside_cache(CONTAINER, candidate, RecoveryUse::Touched, &found),
        Err("No such file or directory".to_string())
    );
}

#[test]
fn a_failed_probe_keeps_its_message() {
    let found = probes(Err("permission denied"), Ok(CONTAINER), Ok(true));
    assert_eq!(
        recovery_dir_inside_cache(CONTAINER, "/repo/x/t", RecoveryUse::Touched, &found),
        Err("permission denied".to_string())
    );
    assert_eq!(
        recovery_dir_inside_cache(CONTAINER, "/", RecoveryUse::Touched, &found),
        Err("publication marker transaction has no parent".to_string())
    );
}

fn marker(schema_version: u32, phase: PublicationPhase) -> PublicationMarker {
    PublicationMarker {
        schema_version,
        transaction_dir: "/repo/.provenance/cache/import-transactions/t".to_string(),
        phase,
    }
}

#[test]
fn a_marker_of_another_version_is_refused() {
    assert_eq!(
        recovery_use_for(&marker(2, PublicationPhase::Prepared), true),
        Err("unsupported publication marker version".to_string())
    );
}

#[test]
fn a_finished_publication_with_its_transaction_gone_is_only_located() {
    assert_eq!(
        recovery_use_for(&marker(1, PublicationPhase::Published), false),
        Ok(RecoveryUse::AlreadyGone)
    );
    assert_eq!(
        recovery_use_for(&marker(1, PublicationPhase::Published), true),
        Ok(RecoveryUse::Touched)
    );
    assert_eq!(
        recovery_use_for(&marker(1, PublicationPhase::BackupCreated), false),
        Ok(RecoveryUse::Touched)
    );
}

#[test]
fn the_backup_sits_inside_its_transaction() {
    assert_eq!(backup_state_dir("/c/t"), "/c/t/backup-state".to_string());
}

#[test]
fn recovery_puts_the_backup_back_only_when_the_state_is_missing() {
    assert_eq!(
        plan_recovery(RecoveryUse::Touched, "/c/t".to_string(), true, true),
        Ok(RecoveryStep::Recover { transaction_dir: "/c/t".to_string(), restore_backup: None })
    );
    assert_eq!(
        plan_recovery(RecoveryUse::Touched, "/c/t".to_string(), false, true),
        Ok(RecoveryStep::Recover {
            transaction_dir: "/c/t".to_string(),
            restore_backup: Some("/c/t/backup-state".to_string()),
        })
    );
    assert_eq!(
        plan_recovery(RecoveryUse::AlreadyGone, "/c/t".to_string(), false, false),
        Ok(RecoveryStep::ClearMarker)
    );
}

#[test]
fn recovery_with_neither_state_nor_backup_is_refused() {
    assert_eq!(
        plan_recovery(RecoveryUse::Touched, "/c/t".to_string(), false, false),
        Err("publication recovery found neither live state nor backup state".to_string())
    );
}
