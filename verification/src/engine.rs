//! The log-structured engine: an append-only log, an index of the live keys
//! of that log, and compaction into segments.
//!
//! An [`Engine`] may be between two steps of an operation, with bytes in
//! its log that are not replayed yet. The handle that callers hold, a
//! `KvStore`, is an engine at rest.

use crate::command::{
    decode_at, lemma_reads_at, lemma_set_is_not_rm, parse, reads_as, record_text, rm_command,
    set_command, Command, CommandView, Parsed,
};
use crate::error::KvsError;
use crate::log::{
    commands, covers, entries, latest, latest_pos, lemma_covers_count,
    lemma_covers_cut, lemma_covers_entries, lemma_covers_longer, lemma_covers_push,
    lemma_latest_pos_prefix, lemma_latest_pos_range, lemma_spans_entries, live_value,
    lemma_spans_push, lemma_spans_tail, records_text, shifted, spans, start_of, Entry,
};
use crate::model::{
    appended, compacted, extends, faithful, folded, lemma_appended_answers, lemma_at_rest,
    lemma_settled_segments, lookup, opened, settled, settles_faithfully, survivors,
    survives, trimmed, COMPACTION_THRESHOLD,
};
use crate::listing::{
    all_segments, in_order, lemma_listed_in_order, list_segments, listed,
};
use crate::names::{
    canonical, lemma_canonical_in_order, lemma_segment_name_is_segment, lemma_usize_fits,
    segment_file_name, segment_name,
};
use crate::segment::{
    find_in_segments, lookup_segments, segments_view, Answer, Directory, DirectoryView, Segment,
    SegmentView,
};
use vstd::hash_map::StringHashMap;
use vstd::prelude::*;
use vstd::slice::slice_subrange;

verus! {

/// Where the latest `set` record of a key lies in the active log.
#[derive(Clone, Copy)]
pub struct Index {
    pub offset_begin: u64,
    pub offset_end: u64,
}

/// The index of the record that gives `key` its value: the last command on
/// the key, if it is a `set`.
pub open spec fn live_pos(cmds: Seq<CommandView>, key: Seq<char>) -> Option<int> {
    match latest_pos(cmds, cmds.len() as int, key) {
        Some(i) => if cmds[i].is_set() {
            Some(i)
        } else {
            None
        },
        None => None,
    }
}

/// The index holds exactly the keys that the entries leave live, each with
/// the byte range of the record that gives it its value.
pub open spec fn index_agrees(index: Map<Seq<char>, Index>, es: Seq<Entry>) -> bool {
    forall|key: Seq<char>|
        #![trigger index.contains_key(key)]
        match live_pos(commands(es), key) {
            Some(i) => index.contains_key(key) && index[key].offset_begin == es[i].begin
                && index[key].offset_end == es[i].end,
            None => !index.contains_key(key),
        }
}

/// Nothing but blank bytes is left at `pos`.
pub open spec fn parse_end(bytes: Seq<u8>, pos: int) -> bool {
    parse(bytes.subrange(pos, bytes.len() as int)) == Parsed::End
}

/// The values of some commands.
pub open spec fn command_views(cmds: Seq<Command>) -> Seq<CommandView> {
    cmds.map_values(|c: Command| c@)
}

/// The index after one more record.
pub open spec fn index_after(index: Map<Seq<char>, Index>, e: Entry) -> Map<Seq<char>, Index> {
    if e.cmd.is_set() {
        index.insert(e.cmd.key, Index { offset_begin: e.begin as u64, offset_end: e.end as u64 })
    } else if e.cmd.is_rm() {
        index.remove(e.cmd.key)
    } else {
        index
    }
}

/// Replaying one more record keeps the index in step with the entries.
pub proof fn lemma_index_step(index: Map<Seq<char>, Index>, es: Seq<Entry>, e: Entry)
    requires
        index_agrees(index, es),
        0 <= e.begin <= u64::MAX,
        0 <= e.end <= u64::MAX,
    ensures
        index_agrees(index_after(index, e), es.push(e)),
{
    let more = es.push(e);
    let after = index_after(index, e);
    assert(commands(more) =~= commands(es).push(e.cmd));
    assert forall|key: Seq<char>| #![trigger after.contains_key(key)]
        match live_pos(commands(more), key) {
            Some(i) => after.contains_key(key) && after[key].offset_begin == more[i].begin
                && after[key].offset_end == more[i].end,
            None => !after.contains_key(key),
        } by {
        let n = es.len() as int;
        assert(commands(more)[n] == e.cmd);
        assert(index.contains_key(key) || !index.contains_key(key));
        if e.cmd.touches(key) {
            assert(latest_pos(commands(more), n + 1, key) == Some(n));
            assert(more[n] == e);
        } else {
            lemma_latest_pos_prefix(commands(more), commands(es), n, key);
            lemma_latest_pos_range(commands(es), n, key);
            match live_pos(commands(es), key) {
                Some(i) => {
                    assert(more[i] == es[i]);
                    assert(commands(more)[i] == commands(es)[i]);
                },
                None => {
                    match latest_pos(commands(es), n, key) {
                        Some(i) => {
                            assert(commands(more)[i] == commands(es)[i]);
                        },
                        None => {},
                    }
                },
            }
        }
    }
}

/// Picks the commands that survive a compaction: each `set` that no later
/// command on its key follows, in the order of the log.
pub fn select_survivors(cmds: &Vec<Command>) -> (chosen: Vec<Command>)
    ensures
        command_views(chosen@) == survivors(command_views(cmds@), cmds@.len() as int),
{
    let ghost cv = command_views(cmds@);
    let mut last: StringHashMap<usize> = StringHashMap::new();
    let mut i: usize = 0;
    while i < cmds.len()
        invariant
            i <= cmds@.len(),
            cv == command_views(cmds@),
            forall|key: Seq<char>|
                #![trigger last@.contains_key(key)]
                match latest_pos(cv, i as int, key) {
                    Some(j) => last@.contains_key(key) && last@[key] == j,
                    None => !last@.contains_key(key),
                },
        decreases cmds@.len() - i,
    {
        let cmd = &cmds[i];
        assert(cv[i as int] == cmd@);
        let ghost before = last@;
        if cmd.is_set() || cmd.is_rm() {
            last.insert(cmd.key.clone(), i);
        }
        assert forall|key: Seq<char>| #![trigger last@.contains_key(key)]
            match latest_pos(cv, i + 1, key) {
                Some(j) => last@.contains_key(key) && last@[key] == j,
                None => !last@.contains_key(key),
            } by {
            assert(before.contains_key(key) || !before.contains_key(key));
            if cmd@.touches(key) {
                assert(latest_pos(cv, i + 1, key) == Some(i as int));
                assert(last@ == before.insert(cmd.key@, i));
                assert(last@.contains_key(key));
            } else {
                assert(latest_pos(cv, i + 1, key) == latest_pos(cv, i as int, key));
                if cmd@.is_set() || cmd@.is_rm() {
                    assert(last@ == before.insert(cmd.key@, i));
                    assert(cmd.key@ != key);
                } else {
                    assert(last@ == before);
                }
            }
        }
        i += 1;
    }
    let mut chosen: Vec<Command> = Vec::new();
    let mut k: usize = 0;
    while k < cmds.len()
        invariant
            k <= cmds@.len(),
            cv == command_views(cmds@),
            forall|key: Seq<char>|
                #![trigger last@.contains_key(key)]
                match latest_pos(cv, cmds@.len() as int, key) {
                    Some(j) => last@.contains_key(key) && last@[key] == j,
                    None => !last@.contains_key(key),
                },
            command_views(chosen@) == survivors(cv, k as int),
        decreases cmds@.len() - k,
    {
        let cmd = &cmds[k];
        assert(cv[k as int] == cmd@);
        let mut keep = false;
        if cmd.is_set() {
            match last.get(cmd.key.as_str()) {
                Some(j) => {
                    keep = *j == k;
                },
                None => {},
            }
        }
        assert(keep == survives(cv, k as int));
        if keep {
            let copy = cmd.duplicate();
            assert(command_views(chosen@.push(copy)) =~= command_views(chosen@).push(copy@));
            chosen.push(copy);
        }
        k += 1;
    }
    chosen
}

/// The state of a store: its directory, and what was replayed from its log.
pub(crate) struct Engine {
    dir: Directory,
    index_map: StringHashMap<Index>,
    /// The replay cursor: the log before this offset is in the index.
    offset_begin: usize,
    /// The number of records replayed since the last compaction.
    item_count: u64,
    /// The records replayed so far.
    replayed: Ghost<Seq<Entry>>,
}

impl View for Engine {
    type V = DirectoryView;

    closed spec fn view(&self) -> DirectoryView {
        self.dir@
    }
}

impl Engine {
    /// The log up to the cursor is made of the replayed records, the index
    /// and the counter say what those records say, and every segment has
    /// the name of a segment.
    pub(crate) closed spec fn in_step(&self) -> bool {
        &&& covers(self.dir.log@, self.replayed@, self.offset_begin as int)
        &&& self.item_count == self.replayed@.len()
        &&& index_agrees(self.index_map@, self.replayed@)
        &&& all_segments(self@.segments)
    }

    /// The store is at rest: the whole log is replayed, it ends with its
    /// last record, and it is not due for compaction.
    pub(crate) closed spec fn wf(&self) -> bool {
        &&& self.in_step()
        &&& self.offset_begin == self.dir.log@.len()
        &&& self.replayed@.len() <= COMPACTION_THRESHOLD
    }

    /// The answer of the store for `key`.
    pub(crate) open spec fn answer(&self, key: Seq<char>) -> Answer {
        lookup(self@, key)
    }

    /// Replays the log from the cursor on: every record found is counted,
    /// a `set` enters the index and a `rm` leaves it. Blank bytes after the
    /// last record are dropped, so that the cursor ends where the log ends.
    /// Compaction follows where the counter has passed the threshold.
    fn load_index(&mut self) -> (r: Result<(), KvsError>)
        requires
            old(self).in_step(),
        ensures
            match r {
                Ok(()) => {
                    &&& entries(old(self)@.log, 0) is Some
                    &&& final(self).wf()
                    &&& final(self)@ == settled(trimmed(old(self)@))
                    &&& settles_faithfully(trimmed(old(self)@))
                },
                Err(e) => e is SerdeError && entries(old(self)@.log, 0) is None,
            },
        decreases old(self).dir.log@.len(), 2int,
    {
        let mut pos: usize = self.offset_begin;
        loop
            invariant
                self.dir == old(self).dir,
                covers(self.dir.log@, self.replayed@, pos as int),
                self.item_count == self.replayed@.len(),
                index_agrees(self.index_map@, self.replayed@),
            ensures
                parse_end(self.dir.log@, pos as int),
            decreases self.dir.log@.len() - pos,
        {
            match decode_at(self.dir.log.as_slice(), pos) {
                Err(e) => {
                    proof {
                        lemma_covers_entries(self.dir.log@, self.replayed@, pos as int, 0);
                    }
                    return Err(e);
                },
                Ok(None) => {
                    break ;
                },
                Ok(Some((cmd, end))) => {
                    let ghost e = Entry { cmd: cmd@, begin: pos as int, end: end as int };
                    proof {
                        lemma_covers_push(self.dir.log@, self.replayed@, pos as int, e);
                        lemma_covers_count(
                            self.dir.log@,
                            self.replayed@.push(e),
                            end as int,
                            self.replayed@.len() as int + 1,
                        );
                        lemma_index_step(self.index_map@, self.replayed@, e);
                    }
                    if cmd.is_set() {
                        self.index_map.insert(
                            cmd.key,
                            Index { offset_begin: pos as u64, offset_end: end as u64 },
                        );
                    } else if cmd.is_rm() {
                        if self.index_map.contains_key(cmd.key.as_str()) {
                            self.index_map.remove(cmd.key.as_str());
                        } else {
                            assert(self.index_map@.remove(cmd.key@) =~= self.index_map@);
                        }
                    }
                    self.item_count = self.item_count + 1;
                    self.replayed = Ghost(self.replayed@.push(e));
                    pos = end;
                },
            }
        }
        proof {
            lemma_covers_entries(self.dir.log@, self.replayed@, pos as int, 0);
            lemma_covers_cut(self.dir.log@, self.replayed@, pos as int);
            assert(self.replayed@ + Seq::<Entry>::empty() =~= self.replayed@);
            assert(self.replayed@.subrange(0, self.replayed@.len() as int) =~= self.replayed@);
        }
        self.dir.log.truncate(pos);
        self.offset_begin = pos;
        proof {
            lemma_spans_entries(self.dir.log@, self.replayed@);
        }
        if self.item_count > COMPACTION_THRESHOLD {
            self.compact()
        } else {
            Ok(())
        }
    }

    /// Writes the commands into a fresh segment, named by the number of
    /// segments there are, and adds it to the list.
    fn write_into_sstable(&mut self, chosen: &Vec<Command>)
        ensures
            final(self).dir.log == old(self).dir.log,
            final(self).index_map == old(self).index_map,
            final(self).offset_begin == old(self).offset_begin,
            final(self).item_count == old(self).item_count,
            final(self).replayed == old(self).replayed,
            final(self)@.segments == old(self)@.segments.push(
                SegmentView {
                    name: segment_name(old(self)@.segments.len()),
                    data: records_text(command_views(chosen@)),
                },
            ),
            faithful(command_views(chosen@)),
            all_segments(old(self)@.segments) ==> all_segments(final(self)@.segments),
    {
        let ghost cv = command_views(chosen@);
        let name = segment_file_name(self.dir.segments.len());
        proof {
            lemma_segment_name_is_segment(self.dir.segments@.len());
        }
        let mut data: Vec<u8> = Vec::new();
        let ghost mut written: Seq<Entry> = Seq::empty();
        let mut i: usize = 0;
        proof {
            assert(cv.subrange(0, 0) =~= Seq::<CommandView>::empty());
            assert(commands(written) =~= cv.subrange(0, 0));
        }
        while i < chosen.len()
            invariant
                i <= chosen@.len(),
                cv == command_views(chosen@),
                data@ == records_text(cv.subrange(0, i as int)),
                spans(data@, written),
                commands(written) == cv.subrange(0, i as int),
            decreases chosen@.len() - i,
        {
            let mut text = chosen[i].encode();
            proof {
                assert(cv[i as int] == chosen[i as int]@);
                lemma_spans_push(data@, written, text@, cv[i as int]);
                let e = Entry {
                    cmd: cv[i as int],
                    begin: data@.len() as int,
                    end: (data@.len() + text@.len()) as int,
                };
                assert(cv.subrange(0, i + 1).drop_last() =~= cv.subrange(0, i as int));
                assert(cv.subrange(0, i + 1).last() == cv[i as int]);
                assert(commands(written.push(e)) =~= cv.subrange(0, i + 1));
                written = written.push(e);
            }
            data.append(&mut text);
            i += 1;
        }
        proof {
            assert(cv.subrange(0, chosen@.len() as int) =~= cv);
            assert(segments_view(self.dir.segments@.push(Segment { name, data }))
                =~= segments_view(self.dir.segments@).push((Segment { name, data })@));
        }
        self.dir.segments.push(Segment { name, data });
    }

    /// Keeps of the log what lies after `offset`, forgets what was replayed,
    /// and replays what is left.
    fn restore_rest_file(&mut self, offset: usize) -> (r: Result<(), KvsError>)
        requires
            spans(old(self).dir.log@, old(self).replayed@),
            old(self).replayed@.len() > COMPACTION_THRESHOLD,
            offset == old(self).replayed@[COMPACTION_THRESHOLD as int - 1].end,
            all_segments(old(self)@.segments),
        ensures
            r is Ok,
            final(self).wf(),
            final(self)@ == settled(
                DirectoryView {
                    log: old(self)@.log.subrange(offset as int, old(self)@.log.len() as int),
                    segments: old(self)@.segments,
                },
            ),
            settles_faithfully(
                DirectoryView {
                    log: old(self)@.log.subrange(offset as int, old(self)@.log.len() as int),
                    segments: old(self)@.segments,
                },
            ),
        decreases old(self).dir.log@.len(), 0int,
    {
        proof {
            lemma_spans_tail(self.dir.log@, self.replayed@, COMPACTION_THRESHOLD as int);
        }
        let ghost rest = shifted(
            self.replayed@.subrange(COMPACTION_THRESHOLD as int, self.replayed@.len() as int),
            offset as int,
        );
        let tail = self.dir.log.split_off(offset);
        self.dir.log = tail;
        self.offset_begin = 0;
        self.item_count = 0;
        self.index_map.clear();
        self.replayed = Ghost(Seq::empty());
        proof {
            lemma_spans_entries(self.dir.log@, rest);
            assert(rest.len() > 0);
            assert(rest[rest.len() - 1].end == self.dir.log@.len());
            assert(self.dir.log@.subrange(0, self.dir.log@.len() as int) =~= self.dir.log@);
            assert(trimmed(self@) == self@);
        }
        if self.dir.log.len() != 0 {
            self.load_index()
        } else {
            proof {
                assert(false);
            }
            Ok(())
        }
    }

    /// Folds the first [`COMPACTION_THRESHOLD`] records of the log into a
    /// segment. The segment is written before the log is cut.
    fn compact(&mut self) -> (r: Result<(), KvsError>)
        requires
            old(self).in_step(),
            old(self).offset_begin == old(self).dir.log@.len(),
            old(self).replayed@.len() > COMPACTION_THRESHOLD,
        ensures
            r is Ok,
            final(self).wf(),
            final(self)@ == settled(old(self)@),
            settles_faithfully(old(self)@),
        decreases old(self).dir.log@.len(), 1int,
    {
        let ghost es = self.replayed@;
        let mut absorbed: Vec<Command> = Vec::new();
        let mut pos: usize = 0;
        proof {
            assert(command_views(absorbed@) =~= commands(es).subrange(0, 0));
        }
        while absorbed.len() < COMPACTION_THRESHOLD as usize
            invariant
                *self == *old(self),
                es == self.replayed@,
                spans(self.dir.log@, es),
                es.len() > COMPACTION_THRESHOLD,
                absorbed@.len() <= COMPACTION_THRESHOLD,
                pos == start_of(es, absorbed@.len() as int),
                command_views(absorbed@) == commands(es).subrange(0, absorbed@.len() as int),
            decreases COMPACTION_THRESHOLD - absorbed@.len(),
        {
            let ghost k = absorbed@.len() as int;
            proof {
                let e = es[k];
                if k > 0 {
                    assert(es[k].begin == es[k - 1].end);
                }
                lemma_reads_at(self.dir.log@, e.begin, e.end, e.cmd);
            }
            match decode_at(self.dir.log.as_slice(), pos) {
                Ok(Some((cmd, end))) => {
                    proof {
                        assert(command_views(absorbed@.push(cmd)) =~= commands(es).subrange(
                            0,
                            k + 1,
                        ));
                    }
                    absorbed.push(cmd);
                    pos = end;
                },
                Ok(None) => {
                    proof {
                        assert(false);
                    }
                    return Ok(());
                },
                Err(e) => {
                    proof {
                        assert(false);
                    }
                    return Err(e);
                },
            }
        }
        let chosen = select_survivors(&absorbed);
        proof {
            lemma_spans_entries(self.dir.log@, es);
            assert(commands(es).subrange(0, COMPACTION_THRESHOLD as int) =~= folded(es));
        }
        self.write_into_sstable(&chosen);
        self.restore_rest_file(pos)
    }

    /// Appends the record of `cmd` to the log and replays it.
    fn append(&mut self, cmd: Command) -> (r: Result<(), KvsError>)
        requires
            old(self).wf(),
        ensures
            r is Ok,
            final(self).wf(),
            final(self)@ == settled(appended(old(self)@, cmd@)),
            settles_faithfully(appended(old(self)@, cmd@)),
            reads_as(record_text(cmd@), cmd@),
    {
        let mut text = cmd.encode();
        proof {
            lemma_covers_longer(
                self.dir.log@,
                text@,
                self.replayed@,
                self.offset_begin as int,
            );
            lemma_spans_push(self.dir.log@, self.replayed@, text@, cmd@);
            let e = Entry {
                cmd: cmd@,
                begin: self.dir.log@.len() as int,
                end: (self.dir.log@.len() + text@.len()) as int,
            };
            lemma_spans_entries(self.dir.log@ + text@, self.replayed@.push(e));
            assert((self.dir.log@ + text@).subrange(0, (self.dir.log@ + text@).len() as int)
                =~= self.dir.log@ + text@);
        }
        self.dir.log.append(&mut text);
        self.load_index()
    }

    /// Opens a store on a directory.
    ///
    /// The files that are segments are listed by name and the log is
    /// replayed into the index. Fails where the log holds bytes that are no
    /// record.
    pub(crate) fn open(dir: Directory) -> (r: Result<Engine, KvsError>)
        ensures
            match r {
                Ok(store) => {
                    &&& entries(dir@.log, 0) is Some
                    &&& store.wf()
                    &&& store@ == opened(dir@)
                    &&& extends(store@.segments, listed(dir@.segments))
                    &&& canonical(dir@.segments) ==> canonical(store@.segments)
                },
                Err(e) => e is SerdeError && entries(dir@.log, 0) is None,
            },
    {
        let Directory { log, segments } = dir;
        proof {
            let d = DirectoryView { log: log@, segments: listed(segments_view(segments@)) };
            lemma_settled_segments(trimmed(d));
            if canonical(segments_view(segments@)) {
                lemma_usize_fits(segments.len());
                lemma_canonical_in_order(segments_view(segments@));
                lemma_listed_in_order(segments_view(segments@));
            }
        }
        let listing = list_segments(segments);
        let mut store = Engine {
            dir: Directory { log, segments: listing },
            index_map: StringHashMap::new(),
            offset_begin: 0,
            item_count: 0,
            replayed: Ghost(Seq::empty()),
        };
        match store.load_index() {
            Ok(()) => Ok(store),
            Err(e) => Err(e),
        }
    }

    /// Sets `key` to `value`, overwriting any value it had.
    ///
    /// After the call the key answers with the new value, and every other
    /// key answers as before, whether or not the call compacted the log.
    pub(crate) fn set(&mut self, key: String, value: String) -> (r: Result<(), KvsError>)
        requires
            old(self).wf(),
        ensures
            r is Ok,
            final(self).wf(),
            final(self)@ == settled(appended(old(self)@, set_command(key@, value@))),
            final(self)@.segments.len() == old(self)@.segments.len()
                ==> final(self)@.log == old(self)@.log + record_text(set_command(key@, value@)),
            final(self).answer(key@) == Answer::Found(value@),
            forall|other: Seq<char>|
                other != key@ ==> #[trigger] final(self).answer(other) == old(self).answer(other),
            extends(final(self)@.segments, old(self)@.segments),
            canonical(old(self)@.segments) ==> canonical(final(self)@.segments),
    {
        let ghost d = self@;
        let ghost es = self.replayed@;
        let ghost cmd = set_command(key@, value@);
        let r = self.append(Command::set(key, value));
        proof {
            lemma_settled_segments(appended(d, cmd));
            lemma_appended_answers(d, es, cmd, cmd.key);
            assert forall|other: Seq<char>| other != cmd.key implies #[trigger] self.answer(other)
                == lookup(d, other) by {
                lemma_appended_answers(d, es, cmd, other);
            }
        }
        r
    }

    /// Removes `key`.
    ///
    /// A key that answers with a value gets a `rm` record in the log; after
    /// that it answers with what the segments say of it. A key that answers
    /// with none is reported as not found. Every other key answers as
    /// before.
    pub(crate) fn remove(&mut self, key: String) -> (r: Result<(), KvsError>)
        requires
            old(self).wf(),
        ensures
            final(self).wf(),
            match old(self).answer(key@) {
                Answer::Found(_) => {
                    &&& r is Ok
                    &&& final(self)@ == settled(appended(old(self)@, rm_command(key@)))
                    &&& final(self)@.segments.len() == old(self)@.segments.len()
                        ==> final(self)@.log == old(self)@.log + record_text(rm_command(key@))
                    &&& final(self).answer(key@) == lookup_segments(
                        final(self)@.segments,
                        final(self)@.segments.len() as int,
                        key@,
                    )
                },
                Answer::NotFound => r matches Err(KvsError::KeyNotFound) && final(self)@ == old(
                    self,
                )@,
                Answer::Corrupt => r matches Err(KvsError::SerdeError(_)) && final(self)@ == old(
                    self,
                )@,
            },
            forall|other: Seq<char>|
                other != key@ ==> #[trigger] final(self).answer(other) == old(self).answer(other),
            extends(final(self)@.segments, old(self)@.segments),
            canonical(old(self)@.segments) ==> canonical(final(self)@.segments),
    {
        let ghost d = self@;
        let ghost es = self.replayed@;
        let ghost cmd = rm_command(key@);
        proof {
            lemma_spans_entries(self.dir.log@, self.replayed@);
            lemma_settled_segments(appended(d, cmd));
            assert(d.segments.subrange(0, d.segments.len() as int) =~= d.segments);
        }
        if !self.index_map.contains_key(key.as_str()) {
            match find_in_segments(&self.dir.segments, &key) {
                Err(e) => {
                    return Err(e);
                },
                Ok(None) => {
                    return Err(KvsError::KeyNotFound);
                },
                Ok(Some(_)) => {},
            }
        }
        let r = self.append(Command::rm(key));
        proof {
            lemma_set_is_not_rm(cmd);
            lemma_appended_answers(d, es, cmd, cmd.key);
            assert forall|other: Seq<char>| other != cmd.key implies #[trigger] self.answer(other)
                == lookup(d, other) by {
                lemma_appended_answers(d, es, cmd, other);
            }
        }
        r
    }

    /// Gives the directory back and closes the handle.
    pub(crate) fn into_directory(self) -> (dir: Directory)
        ensures
            dir@ == self@,
    {
        self.dir
    }

    /// The log of a store at rest reads as a sequence of records, no more
    /// than [`COMPACTION_THRESHOLD`] of them, with no byte left over.
    pub(crate) proof fn lemma_log_bounded(self)
        requires
            self.wf(),
        ensures
            entries(self@.log, 0) matches Some(es) && es.len() <= COMPACTION_THRESHOLD && spans(
                self@.log,
                es,
            ),
    {
        lemma_spans_entries(self.dir.log@, self.replayed@);
    }

    /// Opening a store on the directory of a store at rest gives a store
    /// with the same directory, and so with the same answer for every key,
    /// provided that the segments stand in the order of their names.
    pub(crate) proof fn lemma_reopen(self)
        requires
            self.wf(),
            in_order(self@.segments),
        ensures
            entries(self@.log, 0) is Some,
            opened(self@) == self@,
    {
        lemma_listed_in_order(self@.segments);
        lemma_at_rest(self@, self.replayed@);
    }

    /// The index: the keys that the log leaves live, each with the byte
    /// range of its latest `set` record.
    pub(crate) closed spec fn index(&self) -> Map<Seq<char>, Index> {
        self.index_map@
    }

    /// The index holds exactly the keys that the log leaves live, and the
    /// range of each, read from the log, is a `set` record of that key with
    /// the key's value.
    pub(crate) proof fn lemma_index(self, key: Seq<char>)
        requires
            self.wf(),
        ensures
            entries(self@.log, 0) matches Some(es) && (self.index().contains_key(key)
                <==> live_value(commands(es), key) is Some),
            self.index().contains_key(key) ==> {
                let at = self.index()[key];
                &&& 0 <= at.offset_begin < at.offset_end <= self@.log.len()
                &&& parse(self@.log.subrange(at.offset_begin as int, at.offset_end as int))
                    matches Parsed::Record { cmd, len }
                &&& len == at.offset_end - at.offset_begin
                &&& cmd.is_set()
                &&& cmd.key == key
                &&& self.answer(key) == Answer::Found(cmd.value)
            },
    {
        lemma_spans_entries(self.dir.log@, self.replayed@);
        lemma_latest_pos_range(commands(self.replayed@), self.replayed@.len() as int, key);
        if self.index_map@.contains_key(key) {
            let i = live_pos(commands(self.replayed@), key).unwrap();
            let e = self.replayed@[i];
            let record = self.dir.log@.subrange(e.begin, e.end);
            assert(record.subrange(0, record.len() as int) =~= record);
            lemma_reads_at(record, 0, record.len() as int, e.cmd);
        }
    }

    /// An engine on an empty directory.
    pub(crate) fn idle() -> (engine: Engine)
        ensures
            engine.wf(),
    {
        Engine {
            dir: Directory { log: Vec::new(), segments: Vec::new() },
            index_map: StringHashMap::new(),
            offset_begin: 0,
            item_count: 0,
            replayed: Ghost(Seq::empty()),
        }
    }

    /// The directory as it stands, for the caller to mirror to disk.
    pub(crate) fn directory(&self) -> (dir: &Directory)
        ensures
            dir@ == self@,
    {
        &self.dir
    }

    /// Gets the value of `key`: `None` where the key is unknown or removed.
    ///
    /// A key in the index is read from its byte range in the active log.
    /// Any other key is looked up in the segments, newest first.
    pub(crate) fn get(&self, key: String) -> (r: Result<Option<String>, KvsError>)
        requires
            self.wf(),
        ensures
            match self.answer(key@) {
                Answer::Found(value) => r matches Ok(Some(found)) && found@ == value,
                Answer::NotFound => r matches Ok(None),
                Answer::Corrupt => r matches Err(KvsError::SerdeError(_)),
            },
    {
        proof {
            lemma_spans_entries(self.dir.log@, self.replayed@);
        }
        match self.index_map.get(key.as_str()) {
            Some(index) => {
                let begin = index.offset_begin as usize;
                let end = index.offset_end as usize;
                proof {
                    let i = live_pos(commands(self.replayed@), key@).unwrap();
                    lemma_latest_pos_range(
                        commands(self.replayed@),
                        self.replayed@.len() as int,
                        key@,
                    );
                    let e = self.replayed@[i];
                    let record = self.dir.log@.subrange(e.begin, e.end);
                    assert(record.subrange(0, record.len() as int) =~= record);
                    lemma_reads_at(record, 0, record.len() as int, e.cmd);
                }
                let record = slice_subrange(self.dir.log.as_slice(), begin, end);
                match decode_at(record, 0) {
                    Ok(Some((cmd, _))) => Ok(Some(cmd.value)),
                    Ok(None) => {
                        proof {
                            assert(false);
                        }
                        Ok(None)
                    },
                    Err(e) => {
                        proof {
                            assert(false);
                        }
                        Err(e)
                    },
                }
            },
            None => find_in_segments(&self.dir.segments, &key),
        }
    }
}

} // verus!
