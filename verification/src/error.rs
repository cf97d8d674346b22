//! The error type shared by every layer.

use vstd::prelude::*;
use crate::text::{decimal, joined, joined3, to_decimal};

verus! {

/// Operating-system I/O failures, carried through unread.
#[verifier::external_type_specification]
#[verifier::external_body]
pub struct ExIoError(std::io::Error);

/// Crate-wide result alias.
pub type Result<T> = std::result::Result<T, DbError>;

/// Everything that can go wrong in a store, a codec, a collection or the facade.
#[non_exhaustive]
#[derive(Debug)]
pub enum DbError {
    /// Read of a recid that was never allocated or has been deleted.
    GetVoid(u64),
    /// Record content exceeds the maximum single-record capacity.
    RecordTooLarge,
    /// Stored bytes failed a structural check.
    DataCorruption(Corruption),
    /// The allocator has no recid left to hand out.
    StoreFull,
    /// Operation attempted on a closed store.
    StoreClosed,
    /// `verify()` found an inconsistent structure.
    VerifyFailed(String),
    /// Bulk-load input was not strictly ascending.
    NotSorted,
    /// A conflicting handle already holds the open lease for this header recid.
    AlreadyOpen { header_recid: u64 },
    /// A mutating operation was attempted on a read-only store.
    ReadOnly,
    /// An unsupported operation was invoked on a healthy store.
    Unsupported(&'static str),
    /// A facade configuration or usage error.
    WrongConfiguration(String),
    /// A cached handle exists under the same name with another concrete type.
    CachedTypeMismatch(String),
    /// Another handle holds the store lock.
    Locked(String),
    /// Underlying I/O failure.
    Io(std::io::Error),
}

/// Detail payload of [`DbError::DataCorruption`].
#[derive(Debug)]
pub enum Corruption {
    /// A named structural check failed.
    Reason(&'static str),
    /// A dynamically built message.
    Msg(String),
}

/// `e` is the corruption error named `reason`.
pub open spec fn is_corrupt(e: DbError, reason: Seq<char>) -> bool {
    e matches DbError::DataCorruption(Corruption::Reason(r)) && r@ == reason
}

impl DbError {
    /// A named corruption.
    pub fn corrupt(reason: &'static str) -> (e: Self)
        ensures
            e == DbError::DataCorruption(Corruption::Reason(reason)),
    {
        DbError::DataCorruption(Corruption::Reason(reason))
    }

    /// A corruption with a message built at run time.
    pub fn corrupt_msg(msg: String) -> (e: Self)
        ensures
            e == DbError::DataCorruption(Corruption::Msg(msg)),
    {
        DbError::DataCorruption(Corruption::Msg(msg))
    }

    /// A configuration error of the facade.
    pub fn wrong_config(msg: String) -> (e: Self)
        ensures
            e == DbError::WrongConfiguration(msg),
    {
        DbError::WrongConfiguration(msg)
    }
}

/// What went wrong, in words; the part that the operating system words is left out.
pub open spec fn error_text(e: DbError) -> Seq<char> {
    match e {
        DbError::GetVoid(r) => "record does not exist (recid="@ + decimal(r as nat) + ")"@,
        DbError::RecordTooLarge => "record too large"@,
        DbError::DataCorruption(c) => "data corruption: "@ + corruption_text(c),
        DbError::StoreFull => "store full"@,
        DbError::StoreClosed => "store closed"@,
        DbError::VerifyFailed(m) => "verify failed: "@ + m@,
        DbError::NotSorted => "input not sorted"@,
        DbError::AlreadyOpen { header_recid } => "already open (header_recid="@ + decimal(
            header_recid as nat,
        ) + ")"@,
        DbError::ReadOnly => "store is read-only"@,
        DbError::Unsupported(op) => "unsupported operation: "@ + op@,
        DbError::WrongConfiguration(m) => "wrong configuration: "@ + m@,
        DbError::CachedTypeMismatch(m) => "cached type mismatch: "@ + m@,
        DbError::Locked(m) => "store is locked: "@ + m@,
        DbError::Io(_) => "io error: "@,
    }
}

pub open spec fn corruption_text(c: Corruption) -> Seq<char> {
    match c {
        Corruption::Reason(r) => r@,
        Corruption::Msg(m) => m@,
    }
}

impl Corruption {
    /// The failed check in words.
    pub fn message(&self) -> (r: String)
        ensures
            r@ == corruption_text(*self),
    {
        match self {
            Corruption::Reason(r) => String::from_str(r),
            Corruption::Msg(m) => m.clone(),
        }
    }
}

impl DbError {
    /// The error in words.
    pub fn message(&self) -> (r: String)
        ensures
            !(*self is Io) ==> r@ == error_text(*self),
            *self is Io ==> crate::text::begins(r@, error_text(*self)),
    {
        match self {
            DbError::GetVoid(r) => joined3(
                "record does not exist (recid=",
                to_decimal(*r).as_str(),
                ")",
            ),
            DbError::RecordTooLarge => String::from_str("record too large"),
            DbError::DataCorruption(c) => joined("data corruption: ", c.message().as_str()),
            DbError::StoreFull => String::from_str("store full"),
            DbError::StoreClosed => String::from_str("store closed"),
            DbError::VerifyFailed(m) => joined("verify failed: ", m.as_str()),
            DbError::NotSorted => String::from_str("input not sorted"),
            DbError::AlreadyOpen { header_recid } => joined3(
                "already open (header_recid=",
                to_decimal(*header_recid).as_str(),
                ")",
            ),
            DbError::ReadOnly => String::from_str("store is read-only"),
            DbError::Unsupported(op) => joined("unsupported operation: ", op),
            DbError::WrongConfiguration(m) => joined("wrong configuration: ", m.as_str()),
            DbError::CachedTypeMismatch(m) => joined("cached type mismatch: ", m.as_str()),
            DbError::Locked(m) => joined("store is locked: ", m.as_str()),
            DbError::Io(e) => {
                let r = joined("io error: ", io_text(e).as_str());
                assert(r@.take("io error: "@.len() as int) =~= "io error: "@);
                r
            },
        }
    }
}

/// The words of the operating system for an I/O failure, as `std::io::Error` displays
/// them. They differ between systems, so nothing is claimed of them.
#[verifier::external_body]
fn io_text(e: &std::io::Error) -> (r: String) {
    format!("{}", e)
}

impl From<std::io::Error> for DbError {
    fn from(e: std::io::Error) -> (r: Self) {
        DbError::Io(e)
    }
}

impl vstd::std_specs::convert::FromSpecImpl<std::io::Error> for DbError {
    open spec fn obeys_from_spec() -> bool {
        true
    }

    open spec fn from_spec(e: std::io::Error) -> Self {
        DbError::Io(e)
    }
}

/// The words for each error: what they say of a record gives its recid, and what they pass
/// on from elsewhere they pass on as it is.
pub proof fn law_error_words(recid: u64, m: String, w: &'static str)
    ensures
        error_text(DbError::GetVoid(recid)) == "record does not exist (recid="@ + decimal(
            recid as nat,
        ) + ")"@,
        error_text(DbError::AlreadyOpen { header_recid: recid })
            == "already open (header_recid="@ + decimal(recid as nat) + ")"@,
        error_text(DbError::DataCorruption(Corruption::Reason(w))) == "data corruption: "@ + w@,
        error_text(DbError::DataCorruption(Corruption::Msg(m))) == "data corruption: "@ + m@,
        error_text(DbError::VerifyFailed(m)) == "verify failed: "@ + m@,
        error_text(DbError::Unsupported(w)) == "unsupported operation: "@ + w@,
        error_text(DbError::WrongConfiguration(m)) == "wrong configuration: "@ + m@,
        error_text(DbError::CachedTypeMismatch(m)) == "cached type mismatch: "@ + m@,
        error_text(DbError::Locked(m)) == "store is locked: "@ + m@,
        error_text(DbError::RecordTooLarge) == "record too large"@,
        error_text(DbError::StoreFull) == "store full"@,
        error_text(DbError::StoreClosed) == "store closed"@,
        error_text(DbError::NotSorted) == "input not sorted"@,
        error_text(DbError::ReadOnly) == "store is read-only"@,
{
}

} // verus!
