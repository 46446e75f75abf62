//! The command and result types carried by the log and by the wire
//! protocol, together with their mathematical views.

use vstd::prelude::*;

use crate::error::{ErrView, KvError};

verus! {

/// A request against the store: the tagged union carried both in the
/// on-disk log (`Put`, `Remove`) and over the wire (all three).
pub enum KvsCommand {
    Put(String, String),
    Remove(String),
    Get(String),
}

/// The value of a [`KvsCommand`]: its key and value as character sequences.
pub ghost enum CmdView {
    Put(Seq<char>, Seq<char>),
    Remove(Seq<char>),
    Get(Seq<char>),
}

impl View for KvsCommand {
    type V = CmdView;

    open spec fn view(&self) -> CmdView {
        match self {
            KvsCommand::Put(k, v) => CmdView::Put(k@, v@),
            KvsCommand::Remove(k) => CmdView::Remove(k@),
            KvsCommand::Get(k) => CmdView::Get(k@),
        }
    }
}

/// The response to one wire request.
pub enum KvsResult {
    Value(String),
    Absent,
    Error(KvError),
    Done,
}

/// The value of a [`KvsResult`].
pub ghost enum ResView {
    Value(Seq<char>),
    Absent,
    Error(ErrView),
    Done,
}

impl View for KvsResult {
    type V = ResView;

    open spec fn view(&self) -> ResView {
        match self {
            KvsResult::Value(v) => ResView::Value(v@),
            KvsResult::Absent => ResView::Absent,
            KvsResult::Error(e) => ResView::Error(e@),
            KvsResult::Done => ResView::Done,
        }
    }
}

} // verus!
