use memory_manifest::cache::{
    apply_cachelib_overrides, caching_from_flags, CachelibOverrides, CachelibSettings, Caching,
    ONE_GIB,
};
use memory_manifest::helpers::{check_repo_dir, CreateStorage, RepoDirError, SubdirAction};
use memory_manifest::queries::{
    retryable_mysql_errno, should_attempt_again, should_retry_mysql_query, MysqlError,
};

fn no_overrides() -> CachelibOverrides {
    CachelibOverrides {
        cache_size: None,
        max_process_size_gib: None,
        min_process_size_gib: None,
        use_tupperware_shrinker: false,
        presence_cache_size: None,
        changesets_cache_size: None,
        filenodes_cache_size: None,
        filenodes_history_cache_size: None,
        idmapping_cache_size: None,
        blob_cache_size: None,
        phases_cache_size: None,
        buckets_power: None,
    }
}

#[test]
fn admission_control_errnos_are_retryable() {
    assert!(!retryable_mysql_errno(1913));
    assert!(retryable_mysql_errno(1914));
    assert!(retryable_mysql_errno(1915));
    assert!(retryable_mysql_errno(1916));
    assert!(!retryable_mysql_errno(1917));
    assert!(!retryable_mysql_errno(0));
}

#[test]
fn only_client_errors_are_retried() {
    assert!(should_retry_mysql_query(&MysqlError::ConnectionOperationError { mysql_errno: 1915 }));
    assert!(should_retry_mysql_query(&MysqlError::QueryResultError { mysql_errno: 1914 }));
    assert!(!should_retry_mysql_query(&MysqlError::QueryResultError { mysql_errno: 1045 }));
    assert!(!should_retry_mysql_query(&MysqlError::Other));
}

#[test]
fn retries_stop_after_the_last_attempt() {
    assert!(should_attempt_again(1, true, false));
    assert!(!should_attempt_again(2, true, false));
    assert!(!should_attempt_again(1, false, false));
    assert!(!should_attempt_again(1, true, true));
}

#[test]
fn default_cache_settings() {
    let s = CachelibSettings::default();
    assert_eq!(s.cache_size, 20 * ONE_GIB as u64);
    assert_eq!(s.cache_size, 21474836480);
    assert!(s.max_process_size_gib.is_none());
    assert!(!s.use_tupperware_shrinker);
    assert!(s.expected_item_size_bytes.is_none());
}

#[test]
fn caching_mode_from_flags() {
    assert_eq!(caching_from_flags(true, true, 3), Caching::Disabled);
    assert_eq!(caching_from_flags(false, true, 3), Caching::CachelibOnlyBlobstore(3));
    assert_eq!(caching_from_flags(false, false, 0), Caching::Enabled(0));
}

#[test]
fn overrides_apply_unless_caching_is_off() {
    let mut o = no_overrides();
    o.cache_size = Some(ONE_GIB as u64);
    o.max_process_size_gib = Some(7);
    o.use_tupperware_shrinker = true;
    o.blob_cache_size = Some(100);
    o.buckets_power = Some(12);
    let base = CachelibSettings::default();

    let on = apply_cachelib_overrides(base, Caching::Enabled(2), &o);
    assert_eq!(on.cache_size, ONE_GIB as u64);
    assert_eq!(on.max_process_size_gib, Some(7));
    assert_eq!(on.min_process_size_gib, None);
    assert!(on.use_tupperware_shrinker);
    assert_eq!(on.blob_cache_size, Some(100));
    assert_eq!(on.buckets_power, Some(12));

    let off = apply_cachelib_overrides(base, Caching::Disabled, &o);
    assert_eq!(off, base);

    let kept = apply_cachelib_overrides(on, Caching::CachelibOnlyBlobstore(0), &no_overrides());
    assert_eq!(kept.cache_size, ONE_GIB as u64);
    assert!(!kept.use_tupperware_shrinker);
}

#[test]
fn repo_dir_checks() {
    assert_eq!(
        check_repo_dir(false, true, true, CreateStorage::ExistingOrCreate),
        Err(RepoDirError::DataDirMissing)
    );
    assert_eq!(
        check_repo_dir(true, true, false, CreateStorage::ExistingOrCreate),
        Err(RepoDirError::SubdirNotADirectory)
    );
    assert_eq!(check_repo_dir(true, true, true, CreateStorage::ExistingOnly), Ok(SubdirAction::Keep));
    assert_eq!(
        check_repo_dir(true, false, false, CreateStorage::ExistingOnly),
        Err(RepoDirError::SubdirMissing)
    );
    assert_eq!(
        check_repo_dir(true, false, false, CreateStorage::ExistingOrCreate),
        Ok(SubdirAction::Create)
    );
}
