//! Error taxonomy shared by the storage engines, the codec and the
//! wire protocol.

use vstd::prelude::*;

verus! {

/// The ways an engine or codec operation can fail.
///
/// `KeyNotFound` is returned by `remove` on a key with no live value.
/// `IoError` carries the text of a filesystem or network failure.
/// `CorruptLog` marks an undecodable or inconsistent log record.
/// `EngineMismatch` marks an on-disk store created by a different backend.
#[derive(Debug)]
pub enum KvError {
    KeyNotFound,
    IoError(String),
    CorruptLog(String),
    EngineMismatch,
}

/// The value of a [`KvError`]: the same taxonomy with any message as a
/// character sequence.
pub ghost enum ErrView {
    KeyNotFound,
    IoError(Seq<char>),
    CorruptLog(Seq<char>),
    EngineMismatch,
}

impl View for KvError {
    type V = ErrView;

    open spec fn view(&self) -> ErrView {
        match self {
            KvError::KeyNotFound => ErrView::KeyNotFound,
            KvError::IoError(m) => ErrView::IoError(m@),
            KvError::CorruptLog(m) => ErrView::CorruptLog(m@),
            KvError::EngineMismatch => ErrView::EngineMismatch,
        }
    }
}

impl KvError {
    /// A human-readable description of the error.
    pub fn message(&self) -> (r: String)
        ensures
            self is KeyNotFound ==> r@ == "Key not found"@,
            self is EngineMismatch ==> r@ == "Engine mismatch"@,
            self@ matches ErrView::IoError(m) ==> r@ == "IO error: "@ + m,
            self@ matches ErrView::CorruptLog(m) ==> r@ == "Corrupt log: "@ + m,
    {
        match self {
            KvError::KeyNotFound => "Key not found".to_owned(),
            KvError::IoError(err) => {
                let mut m = "IO error: ".to_owned();
                m.append(err.as_str());
                m
            },
            KvError::CorruptLog(err) => {
                let mut m = "Corrupt log: ".to_owned();
                m.append(err.as_str());
                m
            },
            KvError::EngineMismatch => "Engine mismatch".to_owned(),
        }
    }
}

} // verus!
