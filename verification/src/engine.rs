//! The engine capability interface: the polymorphic contract both
//! storage backends satisfy.  Callers hold "some engine" and never
//! inspect which concrete backend is in use.

use vstd::prelude::*;

use crate::error::KvError;
use crate::store::KvStore;

verus! {

/// The capability set of a storage backend: `set`, `get`, `remove`,
/// each specified against the backend's abstract key-value contents.
/// Failure is constrained to the kinds each operation may surface, and
/// an infallible backend owes success outright.
pub trait KvsEngine: Sized {
    /// The backend's current key-value contents.
    spec fn kv(&self) -> Map<Seq<char>, Seq<char>>;

    /// The backend's internal invariant.
    spec fn inv(&self) -> bool;

    /// Whether this backend's operations can fail at all: true for the
    /// in-memory log engine, false where an embedded store's own I/O
    /// may intrude.
    spec fn infallible(&self) -> bool;

    /// Record the pair; on success the contents gain exactly it, and
    /// only an I/O fault excuses failure.
    fn set(&mut self, key: String, value: String) -> (r: Result<(), KvError>)
        requires
            old(self).inv(),
        ensures
            final(self).inv(),
            final(self).infallible() == old(self).infallible(),
            r is Ok ==> final(self).kv() == old(self).kv().insert(key@, value@),
            r matches Result::Err(e) ==> e is IoError,
            old(self).infallible() ==> r is Ok,
    ;

    /// Look the key up; absence is `None`, never an error, and a
    /// lookup changes nothing.
    fn get(&mut self, key: String) -> (r: Result<Option<String>, KvError>)
        requires
            old(self).inv(),
        ensures
            final(self).inv(),
            final(self).infallible() == old(self).infallible(),
            final(self).kv() == old(self).kv(),
            r matches Result::Ok(opt) ==> match opt {
                Option::Some(v) => old(self).kv().contains_key(key@) && v@ == old(self).kv()[key@],
                Option::None => !old(self).kv().contains_key(key@),
            },
            r matches Result::Err(e) ==> e is IoError || e is CorruptLog,
            old(self).infallible() ==> r is Ok,
    ;

    /// Remove a live key; `KeyNotFound` means exactly that the key was
    /// not live and nothing changed, and an infallible backend answers
    /// success precisely for live keys.
    fn remove(&mut self, key: String) -> (r: Result<(), KvError>)
        requires
            old(self).inv(),
        ensures
            final(self).inv(),
            final(self).infallible() == old(self).infallible(),
            r is Ok ==> old(self).kv().contains_key(key@) && final(self).kv() == old(self).kv().remove(key@),
            (r is Err && r->Err_0 is KeyNotFound) ==> !old(self).kv().contains_key(key@) && final(self).kv() == old(self).kv(),
            r matches Result::Err(e) ==> e is KeyNotFound || e is IoError,
            old(self).infallible() ==> (r is Ok <==> old(self).kv().contains_key(key@)),
            old(self).infallible() && r is Err ==> r->Err_0 is KeyNotFound,
    ;
}

impl KvsEngine for KvStore {
    open spec fn kv(&self) -> Map<Seq<char>, Seq<char>> {
        self@
    }

    open spec fn inv(&self) -> bool {
        self.wf()
    }

    open spec fn infallible(&self) -> bool {
        true
    }

    fn set(&mut self, key: String, value: String) -> (r: Result<(), KvError>) {
        KvStore::set(self, key, value)
    }

    fn get(&mut self, key: String) -> (r: Result<Option<String>, KvError>) {
        KvStore::get(self, key)
    }

    fn remove(&mut self, key: String) -> (r: Result<(), KvError>) {
        KvStore::remove(self, key)
    }
}

/// Law (backend parity, one step): the capability contract makes a
/// successful `get` answer a function of the abstract contents alone,
/// so two conforming backends holding equal contents agree on it.
/// Parity over a whole operation sequence follows step by step: each
/// successful mutation's effect on the contents is pinned by the same
/// contract, so equal contents stay equal.
pub proof fn lemma_backend_parity(
    m: Map<Seq<char>, Seq<char>>,
    k: Seq<char>,
    r1: Option<Seq<char>>,
    r2: Option<Seq<char>>,
)
    requires
        match r1 {
            Option::Some(v) => m.contains_key(k) && v == m[k],
            Option::None => !m.contains_key(k),
        },
        match r2 {
            Option::Some(v) => m.contains_key(k) && v == m[k],
            Option::None => !m.contains_key(k),
        },
    ensures
        r1 == r2,
{
}

} // verus!
