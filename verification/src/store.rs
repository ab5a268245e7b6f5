//! The handle on a store, and what is promised of it.

use crate::command::{parse, record_text, rm_command, set_command, Parsed};
use crate::engine::{Engine, Index};
use crate::error::KvsError;
use crate::log::{commands, entries, live_value, spans};
use crate::model::{
    appended, extends, lookup, opened, settled, COMPACTION_THRESHOLD,
};
use crate::listing::{in_order, listed};
use crate::names::canonical;
use crate::segment::{lookup_segments, Answer, Directory, DirectoryView};
use vstd::prelude::*;

verus! {

/// A handle on a store.
///
/// A handle is made by [`KvStore::open`] and is at rest between calls: its
/// whole log is replayed into the index, the log ends with its last record,
/// and it holds no more than [`COMPACTION_THRESHOLD`] records.
pub struct KvStore {
    engine: Engine,
}

impl View for KvStore {
    type V = DirectoryView;

    closed spec fn view(&self) -> DirectoryView {
        self.engine@
    }
}

impl KvStore {
    /// The store is at rest. This holds of every handle.
    #[verifier::type_invariant]
    pub closed spec fn wf(&self) -> bool {
        self.engine.wf()
    }

    /// The answer of the store for `key`.
    pub open spec fn answer(&self, key: Seq<char>) -> Answer {
        lookup(self@, key)
    }

    /// Opens a store on a directory.
    ///
    /// The files that are segments are listed by name and the log is
    /// replayed into the index; blank bytes after its last record are
    /// dropped, and it is compacted if it is due. Fails where the log holds
    /// bytes that are no record.
    pub fn open(dir: Directory) -> (r: Result<KvStore, KvsError>)
        ensures
            match r {
                Ok(store) => {
                    &&& entries(dir@.log, 0) is Some
                    &&& store.wf()
                    &&& store@ == opened(dir@)
                    &&& extends(store@.segments, listed(dir@.segments))
                    &&& canonical(dir@.segments) ==> canonical(store@.segments)
                },
                Err(e) => e is SerdeError && entries(dir@.log, 0) is None,
            },
    {
        match Engine::open(dir) {
            Ok(engine) => Ok(KvStore { engine }),
            Err(e) => Err(e),
        }
    }

    /// Gets the value of `key`: `None` where the key is unknown or removed.
    ///
    /// A key in the index is read from its byte range in the active log.
    /// Any other key is looked up in the segments, newest first, and the
    /// last record on the key in the newest segment that holds one decides.
    pub fn get(&self, key: String) -> (r: Result<Option<String>, KvsError>)
        ensures
            match self.answer(key@) {
                Answer::Found(value) => r matches Ok(Some(found)) && found@ == value,
                Answer::NotFound => r matches Ok(None),
                Answer::Corrupt => r matches Err(KvsError::SerdeError(_)),
            },
    {
        proof {
            use_type_invariant(self);
        }
        self.engine.get(key)
    }

    /// Sets `key` to `value`, overwriting any value it had.
    ///
    /// After the call the key answers with the new value, and every other
    /// key answers as before, whether or not the call compacted the log.
    /// The segments that were there are still there, unchanged; where none
    /// was added, the log has grown by the record of the `set`.
    pub fn set(&mut self, key: String, value: String) -> (r: Result<(), KvsError>)
        ensures
            r is Ok,
            final(self).wf(),
            final(self)@ == settled(appended(old(self)@, set_command(key@, value@))),
            final(self)@.segments.len() == old(self)@.segments.len()
                ==> final(self)@.log == old(self)@.log + record_text(set_command(key@, value@)),
            final(self).answer(key@) == Answer::Found(value@),
            forall|other: Seq<char>|
                other != key@ ==> #[trigger] final(self).answer(other) == old(self).answer(other),
            extends(final(self)@.segments, old(self)@.segments),
            canonical(old(self)@.segments) ==> canonical(final(self)@.segments),
    {
        proof {
            use_type_invariant(&*self);
        }
        let ghost before = self.engine;
        let ghost name = key@;
        let mut engine = Engine::idle();
        std::mem::swap(&mut engine, &mut self.engine);
        let r = engine.set(key, value);
        proof {
            assert forall|other: Seq<char>| other != name implies lookup(engine@, other) == lookup(
                before@,
                other,
            ) by {
                assert(engine.answer(other) == before.answer(other));
            }
        }
        self.engine = engine;
        r
    }

    /// Removes `key`.
    ///
    /// A key that answers with a value gets a `rm` record in the log; after
    /// that it answers with what the segments say of it. A key that answers
    /// with none is reported as not found, and a key whose answer cannot be
    /// read as failed; neither changes the store. Every other key answers
    /// as before.
    pub fn remove(&mut self, key: String) -> (r: Result<(), KvsError>)
        ensures
            final(self).wf(),
            match old(self).answer(key@) {
                Answer::Found(_) => {
                    &&& r is Ok
                    &&& final(self)@ == settled(appended(old(self)@, rm_command(key@)))
                    &&& final(self)@.segments.len() == old(self)@.segments.len()
                        ==> final(self)@.log == old(self)@.log + record_text(rm_command(key@))
                    &&& final(self).answer(key@) == lookup_segments(
                        final(self)@.segments,
                        final(self)@.segments.len() as int,
                        key@,
                    )
                },
                Answer::NotFound => r matches Err(KvsError::KeyNotFound) && final(self)@ == old(
                    self,
                )@,
                Answer::Corrupt => r matches Err(KvsError::SerdeError(_)) && final(self)@ == old(
                    self,
                )@,
            },
            forall|other: Seq<char>|
                other != key@ ==> #[trigger] final(self).answer(other) == old(self).answer(other),
            extends(final(self)@.segments, old(self)@.segments),
            canonical(old(self)@.segments) ==> canonical(final(self)@.segments),
    {
        proof {
            use_type_invariant(&*self);
        }
        let ghost before = self.engine;
        let ghost name = key@;
        let mut engine = Engine::idle();
        std::mem::swap(&mut engine, &mut self.engine);
        let r = engine.remove(key);
        proof {
            assert forall|other: Seq<char>| other != name implies lookup(engine@, other) == lookup(
                before@,
                other,
            ) by {
                assert(engine.answer(other) == before.answer(other));
            }
        }
        self.engine = engine;
        r
    }

    /// The directory as it stands, for the caller to mirror to disk.
    pub fn directory(&self) -> (dir: &Directory)
        ensures
            dir@ == self@,
    {
        self.engine.directory()
    }

    /// Gives the directory back and closes the handle.
    pub fn into_directory(self) -> (dir: Directory)
        ensures
            dir@ == self@,
    {
        self.engine.into_directory()
    }

    /// The index: the keys that the log leaves live, each with the byte
    /// range of its latest `set` record.
    pub closed spec fn index(&self) -> Map<Seq<char>, Index> {
        self.engine.index()
    }

    /// The index holds exactly the keys that the log leaves live, and the
    /// range of each, read from the log, is a `set` record of that key with
    /// the key's value.
    pub proof fn lemma_index(self, key: Seq<char>)
        requires
            self.wf(),
        ensures
            entries(self@.log, 0) matches Some(es) && (self.index().contains_key(key)
                <==> live_value(commands(es), key) is Some),
            self.index().contains_key(key) ==> {
                let at = self.index()[key];
                &&& 0 <= at.offset_begin < at.offset_end <= self@.log.len()
                &&& parse(self@.log.subrange(at.offset_begin as int, at.offset_end as int))
                    matches Parsed::Record { cmd, len }
                &&& len == at.offset_end - at.offset_begin
                &&& cmd.is_set()
                &&& cmd.key == key
                &&& self.answer(key) == Answer::Found(cmd.value)
            },
    {
        self.engine.lemma_index(key);
    }

    /// The log of a store at rest reads as a sequence of records, no more
    /// than [`COMPACTION_THRESHOLD`] of them, with no byte left over.
    pub proof fn lemma_log_bounded(self)
        requires
            self.wf(),
        ensures
            entries(self@.log, 0) matches Some(es) && es.len() <= COMPACTION_THRESHOLD && spans(
                self@.log,
                es,
            ),
    {
        self.engine.lemma_log_bounded();
    }

    /// Opening a store on the directory of a store at rest gives a store
    /// with the same directory, and so with the same answer for every key,
    /// provided that the segments stand in the order of their names.
    pub proof fn lemma_reopen(self)
        requires
            self.wf(),
            in_order(self@.segments),
        ensures
            entries(self@.log, 0) is Some,
            opened(self@) == self@,
    {
        self.engine.lemma_reopen();
    }
}

} // verus!
