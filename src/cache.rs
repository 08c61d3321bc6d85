use vstd::prelude::*;

verus! {

/// One gibibyte, in bytes.
pub const ONE_GIB: usize = 1073741824;


/// How caching is set up: on, with the given number of blobstore shards; on
/// for the blobstore cache alone; or off.
#[derive(Clone, Copy, Debug, PartialEq, Eq, Structural)]
pub enum Caching {
    Enabled(usize),
    CachelibOnlyBlobstore(usize),
    Disabled,
}

/// Chooses the caching mode from the command-line flags: skipping caching
/// wins over a blobstore-only cache, which wins over full caching.
pub fn caching_from_flags(skip_caching: bool, cachelib_only_blobstore: bool, shards: usize) -> (r:
    Caching)
    ensures
        r == (if skip_caching {
            Caching::Disabled
        } else if cachelib_only_blobstore {
            Caching::CachelibOnlyBlobstore(shards)
        } else {
            Caching::Enabled(shards)
        }),
{
    if skip_caching {
        Caching::Disabled
    } else if cachelib_only_blobstore {
        Caching::CachelibOnlyBlobstore(shards)
    } else {
        Caching::Enabled(shards)
    }
}

/// Sizes and switches of the cache. The cache size is in bytes, held in 64
/// bits so that the default of twenty gibibytes fits on every target.
#[derive(Clone, Copy, Debug, PartialEq, Eq, Structural)]
pub struct CachelibSettings {
    pub cache_size: u64,
    pub max_process_size_gib: Option<u32>,
    pub min_process_size_gib: Option<u32>,
    pub buckets_power: Option<u32>,
    pub use_tupperware_shrinker: bool,
    pub presence_cache_size: Option<usize>,
    pub changesets_cache_size: Option<usize>,
    pub filenodes_cache_size: Option<usize>,
    pub filenodes_history_cache_size: Option<usize>,
    pub idmapping_cache_size: Option<usize>,
    pub blob_cache_size: Option<usize>,
    pub phases_cache_size: Option<usize>,
    pub expected_item_size_bytes: Option<usize>,
}

impl Default for CachelibSettings {
    fn default() -> (r: Self)
        ensures
            r.cache_size == 20 * ONE_GIB,
            r.max_process_size_gib is None,
            r.min_process_size_gib is None,
            r.buckets_power is None,
            !r.use_tupperware_shrinker,
            r.presence_cache_size is None,
            r.changesets_cache_size is None,
            r.filenodes_cache_size is None,
            r.filenodes_history_cache_size is None,
            r.idmapping_cache_size is None,
            r.blob_cache_size is None,
            r.phases_cache_size is None,
            r.expected_item_size_bytes is None,
    {
        CachelibSettings {
            cache_size: 20 * (ONE_GIB as u64),
            max_process_size_gib: None,
            min_process_size_gib: None,
            buckets_power: None,
            use_tupperware_shrinker: false,
            presence_cache_size: None,
            changesets_cache_size: None,
            filenodes_cache_size: None,
            filenodes_history_cache_size: None,
            idmapping_cache_size: None,
            blob_cache_size: None,
            phases_cache_size: None,
            expected_item_size_bytes: None,
        }
    }
}

/// Values given on the command line, each overriding a setting where present.
#[derive(Clone, Copy, Debug, PartialEq, Eq, Structural)]
pub struct CachelibOverrides {
    pub cache_size: Option<u64>,
    pub max_process_size_gib: Option<u32>,
    pub min_process_size_gib: Option<u32>,
    pub use_tupperware_shrinker: bool,
    pub presence_cache_size: Option<usize>,
    pub changesets_cache_size: Option<usize>,
    pub filenodes_cache_size: Option<usize>,
    pub filenodes_history_cache_size: Option<usize>,
    pub idmapping_cache_size: Option<usize>,
    pub blob_cache_size: Option<usize>,
    pub phases_cache_size: Option<usize>,
    pub buckets_power: Option<u32>,
}

/// The given value where there is one, else the current one.
pub open spec fn given_or<T>(given: Option<T>, current: T) -> T {
    match given {
        Some(v) => v,
        None => current,
    }
}

/// The given setting where there is one, else the current one.
pub open spec fn override_or<T>(given: Option<T>, current: Option<T>) -> Option<T> {
    match given {
        Some(v) => Some(v),
        None => current,
    }
}

/// The given value where there is one, else the current one.
fn pick<T>(given: Option<T>, current: T) -> (r: T)
    ensures
        r == given_or(given, current),
{
    match given {
        Some(v) => v,
        None => current,
    }
}

/// The given setting where there is one, else the current one.
fn override_opt<T>(given: Option<T>, current: Option<T>) -> (r: Option<T>)
    ensures
        r == override_or(given, current),
{
    match given {
        Some(v) => Some(v),
        None => current,
    }
}

/// The settings after the command-line values: unchanged where caching is
/// off; otherwise each given value replaces its setting, the shrinker switch
/// is taken as given, and the expected item size is kept.
pub fn apply_cachelib_overrides(settings: CachelibSettings, caching: Caching, o: &CachelibOverrides) -> (r:
    CachelibSettings)
    ensures
        caching is Disabled ==> r == settings,
        !(caching is Disabled) ==> r == (CachelibSettings {
            cache_size: given_or(o.cache_size, settings.cache_size),
            max_process_size_gib: override_or(o.max_process_size_gib, settings.max_process_size_gib),
            min_process_size_gib: override_or(o.min_process_size_gib, settings.min_process_size_gib),
            buckets_power: override_or(o.buckets_power, settings.buckets_power),
            use_tupperware_shrinker: o.use_tupperware_shrinker,
            presence_cache_size: override_or(o.presence_cache_size, settings.presence_cache_size),
            changesets_cache_size: override_or(o.changesets_cache_size, settings.changesets_cache_size),
            filenodes_cache_size: override_or(o.filenodes_cache_size, settings.filenodes_cache_size),
            filenodes_history_cache_size: override_or(
                o.filenodes_history_cache_size,
                settings.filenodes_history_cache_size,
            ),
            idmapping_cache_size: override_or(o.idmapping_cache_size, settings.idmapping_cache_size),
            blob_cache_size: override_or(o.blob_cache_size, settings.blob_cache_size),
            phases_cache_size: override_or(o.phases_cache_size, settings.phases_cache_size),
            expected_item_size_bytes: settings.expected_item_size_bytes,
        }),
{
    match caching {
        Caching::Disabled => settings,
        _ => CachelibSettings {
            cache_size: pick(o.cache_size, settings.cache_size),
            max_process_size_gib: override_opt(o.max_process_size_gib, settings.max_process_size_gib),
            min_process_size_gib: override_opt(o.min_process_size_gib, settings.min_process_size_gib),
            buckets_power: override_opt(o.buckets_power, settings.buckets_power),
            use_tupperware_shrinker: o.use_tupperware_shrinker,
            presence_cache_size: override_opt(o.presence_cache_size, settings.presence_cache_size),
            changesets_cache_size: override_opt(o.changesets_cache_size, settings.changesets_cache_size),
            filenodes_cache_size: override_opt(o.filenodes_cache_size, settings.filenodes_cache_size),
            filenodes_history_cache_size: override_opt(
                o.filenodes_history_cache_size,
                settings.filenodes_history_cache_size,
            ),
            idmapping_cache_size: override_opt(o.idmapping_cache_size, settings.idmapping_cache_size),
            blob_cache_size: override_opt(o.blob_cache_size, settings.blob_cache_size),
            phases_cache_size: override_opt(o.phases_cache_size, settings.phases_cache_size),
            expected_item_size_bytes: settings.expected_item_size_bytes,
        },
    }
}

} // verus!
