//! The server side of one wire exchange: the transport decodes one
//! command from its connection, hands it here, and encodes the result
//! this returns.  Engine errors travel back as data in the result;
//! they never abort the exchange.

use vstd::prelude::*;

use crate::command::{CmdView, KvsCommand, KvsResult, ResView};
use crate::engine::KvsEngine;
use crate::error::ErrView;

verus! {

/// Perform one decoded command against the engine and build the result
/// to send back.
pub fn exchange<E: KvsEngine>(store: &mut E, command: KvsCommand) -> (r: KvsResult)
    requires
        old(store).inv(),
    ensures
        final(store).inv(),
        final(store).infallible() == old(store).infallible(),
        command@ matches CmdView::Put(k, v) ==> {
            &&& (r is Done || r is Error)
            &&& (r is Done ==> final(store).kv() == old(store).kv().insert(k, v))
            &&& (r@ matches ResView::Error(e) ==> e is IoError)
            &&& (old(store).infallible() ==> r is Done)
        },
        command@ matches CmdView::Remove(k) ==> {
            &&& (r is Done || r is Error)
            &&& (r is Done ==> old(store).kv().contains_key(k) && final(store).kv() == old(store).kv().remove(k))
            &&& (r@ matches ResView::Error(e) ==> e is KeyNotFound || e is IoError)
            &&& ((r matches KvsResult::Error(e) && e is KeyNotFound) ==> !old(store).kv().contains_key(k) && final(store).kv() == old(store).kv())
            &&& (old(store).infallible() ==> (r is Done <==> old(store).kv().contains_key(k)))
            &&& (old(store).infallible() && !old(store).kv().contains_key(k) ==> r@ == ResView::Error(ErrView::KeyNotFound))
        },
        command@ matches CmdView::Get(k) ==> {
            &&& final(store).kv() == old(store).kv()
            &&& (r is Value || r is Absent || r is Error)
            &&& (r matches KvsResult::Value(v) ==> old(store).kv().contains_key(k) && v@ == old(store).kv()[k])
            &&& (r is Absent ==> !old(store).kv().contains_key(k))
            &&& (r@ matches ResView::Error(e) ==> e is IoError || e is CorruptLog)
            &&& (old(store).infallible() && old(store).kv().contains_key(k) ==> r@ == ResView::Value(old(store).kv()[k]))
            &&& (old(store).infallible() && !old(store).kv().contains_key(k) ==> r is Absent)
        },
{
    match command {
        KvsCommand::Put(key, value) => match store.set(key, value) {
            Result::Ok(_) => KvsResult::Done,
            Result::Err(e) => KvsResult::Error(e),
        },
        KvsCommand::Remove(key) => match store.remove(key) {
            Result::Ok(_) => KvsResult::Done,
            Result::Err(e) => KvsResult::Error(e),
        },
        KvsCommand::Get(key) => match store.get(key) {
            Result::Ok(opt) => match opt {
                Option::Some(v) => KvsResult::Value(v),
                Option::None => KvsResult::Absent,
            },
            Result::Err(e) => KvsResult::Error(e),
        },
    }
}

} // verus!
