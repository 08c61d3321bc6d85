use vstd::prelude::*;

verus! {

/// How many times a query is attempted in all, where its failures may be retried.
pub const RETRY_ATTEMPTS: usize = 2;

/// MySQL error numbers of admission control: the query never started, so it
/// is safe to retry, writes included.
pub open spec fn is_admission_control_errno(errno: u32) -> bool {
    1914 <= errno <= 1916
}

/// Whether a MySQL error number marks a failure worth retrying.
pub fn retryable_mysql_errno(errno: u32) -> (r: bool)
    ensures
        r == is_admission_control_errno(errno),
{
    1914 <= errno && errno <= 1916
}

/// A failure reported by the MySQL client, as far as retrying cares.
#[derive(Clone, Copy, PartialEq, Eq, Structural, Debug)]
pub enum MysqlError {
    ConnectionOperationError { mysql_errno: u32 },
    QueryResultError { mysql_errno: u32 },
    Other,
}

/// Whether a failed query should be retried: only for connection and query
/// errors whose number is retryable.
pub fn should_retry_mysql_query(err: &MysqlError) -> (r: bool)
    ensures
        r == match *err {
            MysqlError::ConnectionOperationError { mysql_errno } => is_admission_control_errno(
                mysql_errno,
            ),
            MysqlError::QueryResultError { mysql_errno } => is_admission_control_errno(mysql_errno),
            MysqlError::Other => false,
        },
{
    match err {
        MysqlError::ConnectionOperationError { mysql_errno } => retryable_mysql_errno(*mysql_errno),
        MysqlError::QueryResultError { mysql_errno } => retryable_mysql_errno(*mysql_errno),
        MysqlError::Other => false,
    }
}

/// After attempt number `attempt` (counted from one) failed, whether to make
/// another: only where automatic retries are on, the failure is retryable,
/// and attempts are left.
pub fn should_attempt_again(attempt: usize, retryable: bool, retries_disabled: bool) -> (r: bool)
    ensures
        r == (!retries_disabled && retryable && attempt < RETRY_ATTEMPTS),
{
    !retries_disabled && retryable && attempt < RETRY_ATTEMPTS
}

} // verus!
