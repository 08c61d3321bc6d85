use vstd::prelude::*;

verus! {

/// Whether the storage of a repository may be created where it is missing.
#[derive(Clone, Copy, Debug, PartialEq, Eq, Structural, Hash)]
pub enum CreateStorage {
    ExistingOnly,
    ExistingOrCreate,
}

/// Why a repository directory cannot be used.
#[derive(Clone, Copy, Debug, PartialEq, Eq, Structural)]
pub enum RepoDirError {
    /// The data directory does not exist or is not a directory.
    DataDirMissing,
    /// The blob subdirectory exists and is not a directory.
    SubdirNotADirectory,
    /// The blob subdirectory is missing and may not be created.
    SubdirMissing,
}

/// What to do about the blob subdirectory of a repository directory.
#[derive(Clone, Copy, Debug, PartialEq, Eq, Structural)]
pub enum SubdirAction {
    /// It is there already.
    Keep,
    /// It must be created.
    Create,
}

/// Decides what to do with the blob subdirectory of a repository, given what
/// is on disk: the data directory must be a directory; the subdirectory, if
/// present, too; a missing one is created unless only existing storage may
/// be used.
pub fn check_repo_dir(
    data_dir_is_dir: bool,
    subdir_exists: bool,
    subdir_is_dir: bool,
    create: CreateStorage,
) -> (r: Result<SubdirAction, RepoDirError>)
    ensures
        !data_dir_is_dir ==> r == Err::<SubdirAction, RepoDirError>(RepoDirError::DataDirMissing),
        data_dir_is_dir && subdir_exists && !subdir_is_dir ==> r == Err::<SubdirAction, RepoDirError>(
            RepoDirError::SubdirNotADirectory,
        ),
        data_dir_is_dir && subdir_exists && subdir_is_dir ==> r == Ok::<SubdirAction, RepoDirError>(
            SubdirAction::Keep,
        ),
        data_dir_is_dir && !subdir_exists ==> r == (if create == CreateStorage::ExistingOnly {
            Err::<SubdirAction, RepoDirError>(RepoDirError::SubdirMissing)
        } else {
            Ok(SubdirAction::Create)
        }),
{
    if !data_dir_is_dir {
        return Err(RepoDirError::DataDirMissing);
    }
    if subdir_exists {
        if subdir_is_dir {
            Ok(SubdirAction::Keep)
        } else {
            Err(RepoDirError::SubdirNotADirectory)
        }
    } else {
        match create {
            CreateStorage::ExistingOnly => Err(RepoDirError::SubdirMissing),
            CreateStorage::ExistingOrCreate => Ok(SubdirAction::Create),
        }
    }
}

} // verus!
