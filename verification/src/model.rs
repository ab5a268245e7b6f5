//! What a directory means: the answer it gives for a key, and how appending
//! a record and compacting the log change it.

use crate::command::{reads_as, record_text, CommandView};
use crate::log::{
    commands, entries, latest, latest_pos, lemma_latest_pos_prefix, lemma_latest_pos_range,
    lemma_spans_entries, lemma_spans_push, lemma_spans_tail, live_value, records_text, shifted,
    spans, start_of, Entry,
};
use crate::listing::listed;
use crate::names::{canonical, segment_name};
use crate::segment::{lookup_segments, Answer, DirectoryView, SegmentView};
use vstd::prelude::*;

verus! {

/// Compaction runs when the log holds more records than this, and folds
/// this many records into a segment.
pub const COMPACTION_THRESHOLD: u64 = 2000;

/// The answer of a directory for a key. A key whose last record in the log
/// is a `set` has that record's value. Any other key is looked up in the
/// segments, newest first: a `rm` in the log does not hide a segment.
pub open spec fn lookup(d: DirectoryView, key: Seq<char>) -> Answer {
    match entries(d.log, 0) {
        None => Answer::Corrupt,
        Some(es) => match live_value(commands(es), key) {
            Some(value) => Answer::Found(value),
            None => lookup_segments(d.segments, d.segments.len() as int, key),
        },
    }
}

/// The directory with one more record at the end of its log.
pub open spec fn appended(d: DirectoryView, cmd: CommandView) -> DirectoryView {
    DirectoryView { log: d.log + record_text(cmd), segments: d.segments }
}

/// The directory without the blank bytes after the last record of its log.
pub open spec fn trimmed(d: DirectoryView) -> DirectoryView {
    match entries(d.log, 0) {
        Some(es) => DirectoryView {
            log: d.log.subrange(0, start_of(es, es.len() as int)),
            segments: d.segments,
        },
        None => d,
    }
}

/// The directory that a store takes up when it is opened on `d`: the files
/// that are segments are listed by name, blank bytes at the end of the log
/// are dropped, and the log is compacted as long as it is due.
pub open spec fn opened(d: DirectoryView) -> DirectoryView {
    settled(trimmed(DirectoryView { log: d.log, segments: listed(d.segments) }))
}

/// Command `i` is a `set` that no later command on its key follows.
pub open spec fn survives(cmds: Seq<CommandView>, i: int) -> bool {
    cmds[i].is_set() && latest_pos(cmds, cmds.len() as int, cmds[i].key) == Some(i)
}

/// Those of the first `n` commands that survive a compaction of `cmds`, in
/// the order of the log.
pub open spec fn survivors(cmds: Seq<CommandView>, n: int) -> Seq<CommandView>
    decreases n,
{
    if n <= 0 {
        Seq::empty()
    } else if survives(cmds, n - 1) {
        survivors(cmds, n - 1).push(cmds[n - 1])
    } else {
        survivors(cmds, n - 1)
    }
}

/// The commands that a compaction of a log with these entries folds away.
pub open spec fn folded(es: Seq<Entry>) -> Seq<CommandView> {
    commands(es.subrange(0, COMPACTION_THRESHOLD as int))
}

/// One compaction of a directory whose log holds `es`: the survivors of the
/// first [`COMPACTION_THRESHOLD`] records become a new segment, and the log
/// keeps the rest.
pub open spec fn compacted(d: DirectoryView, es: Seq<Entry>) -> DirectoryView {
    let cut = es[COMPACTION_THRESHOLD as int - 1].end;
    DirectoryView {
        log: d.log.subrange(cut, d.log.len() as int),
        segments: d.segments.push(
            SegmentView {
                name: segment_name(d.segments.len()),
                data: records_text(survivors(folded(es), COMPACTION_THRESHOLD as int)),
            },
        ),
    }
}

/// The log is due for compaction: it holds more records than the
/// threshold. (That the first records end within the log holds of every
/// log; it is said here so that settling is seen to end.)
pub open spec fn overfull(d: DirectoryView) -> bool {
    match entries(d.log, 0) {
        Some(es) => es.len() > COMPACTION_THRESHOLD && 0 < es[COMPACTION_THRESHOLD as int
            - 1].end <= d.log.len(),
        None => false,
    }
}

/// The directory after as many compactions as it takes to bring the log
/// down to [`COMPACTION_THRESHOLD`] records or fewer.
pub open spec fn settled(d: DirectoryView) -> DirectoryView
    decreases d.log.len(),
{
    if overfull(d) {
        settled(compacted(d, entries(d.log, 0).unwrap()))
    } else {
        d
    }
}

/// The records of these commands, written one after the other, read back
/// as these commands.
pub open spec fn faithful(cmds: Seq<CommandView>) -> bool {
    exists|es: Seq<Entry>| spans(records_text(cmds), es) && #[trigger] commands(es) == cmds
}

/// Every segment that settling the directory writes reads back as the
/// commands it was written from.
pub open spec fn settles_faithfully(d: DirectoryView) -> bool
    decreases d.log.len(),
{
    if overfull(d) {
        let es = entries(d.log, 0).unwrap();
        &&& faithful(survivors(folded(es), COMPACTION_THRESHOLD as int))
        &&& settles_faithfully(compacted(d, es))
    } else {
        true
    }
}

/// Among the survivors of the first `n` commands, the last command on a key
/// is the command that gives the key its value, if that is one of the first
/// `n`.
pub proof fn lemma_survivors_latest(cmds: Seq<CommandView>, n: int, key: Seq<char>)
    requires
        0 <= n <= cmds.len(),
    ensures
        latest(survivors(cmds, n), key) == (match latest_pos(cmds, cmds.len() as int, key) {
            Some(i) => if i < n && cmds[i].is_set() {
                Some(cmds[i])
            } else {
                None
            },
            None => None,
        }),
    decreases n,
{
    let all = cmds.len() as int;
    lemma_latest_pos_range(cmds, all, key);
    if n > 0 {
        lemma_survivors_latest(cmds, n - 1, key);
        let before = survivors(cmds, n - 1);
        let c = cmds[n - 1];
        if survives(cmds, n - 1) {
            let now = before.push(c);
            assert(now[now.len() - 1] == c);
            if c.touches(key) {
                assert(latest_pos(now, now.len() as int, key) == Some(now.len() - 1));
            } else {
                lemma_latest_pos_prefix(now, before, before.len() as int, key);
                assert(latest_pos(now, now.len() as int, key) == latest_pos(
                    now,
                    before.len() as int,
                    key,
                ));
                lemma_latest_pos_range(before, before.len() as int, key);
            }
        }
    }
}

/// What a compaction writes: no more commands than it folds, each of them
/// a `set` that is the last command on its key among those folded, and no
/// two of them on the same key.
pub proof fn lemma_survivors(cmds: Seq<CommandView>, n: int)
    requires
        0 <= n <= cmds.len(),
    ensures
        survivors(cmds, n).len() <= n,
        forall|j: int|
            0 <= j < survivors(cmds, n).len() ==> {
                let kept = #[trigger] survivors(cmds, n)[j];
                kept.is_set() && latest(cmds, kept.key) == Some(kept)
            },
        forall|i: int, j: int|
            0 <= i < j < survivors(cmds, n).len() ==> (#[trigger] survivors(cmds, n)[i]).key != (
            #[trigger] survivors(cmds, n)[j]).key,
    decreases n,
{
    if n > 0 {
        lemma_survivors(cmds, n - 1);
        let before = survivors(cmds, n - 1);
        if survives(cmds, n - 1) {
            let c = cmds[n - 1];
            let now = before.push(c);
            assert forall|i: int, j: int| 0 <= i < j < now.len() implies (#[trigger] now[i]).key != (
            #[trigger] now[j]).key by {
                assert(now[i] == before[i]);
                if j == before.len() {
                    lemma_survivor_places(cmds, n - 1, i);
                } else {
                    assert(now[j] == before[j]);
                }
            }
        }
    }
}

/// Every survivor of the first `n` commands is one of them.
proof fn lemma_survivor_places(cmds: Seq<CommandView>, n: int, j: int)
    requires
        0 <= n <= cmds.len(),
        0 <= j < survivors(cmds, n).len(),
    ensures
        exists|i: int|
            0 <= i < n && survives(cmds, i) && #[trigger] cmds[i] == survivors(cmds, n)[j],
    decreases n,
{
    if n > 0 {
        let before = survivors(cmds, n - 1);
        if survives(cmds, n - 1) && j == before.len() {
            assert(cmds[n - 1] == survivors(cmds, n)[j]);
        } else {
            lemma_survivor_places(cmds, n - 1, j);
            let i = choose|i: int|
                0 <= i < n - 1 && survives(cmds, i) && #[trigger] cmds[i] == before[j];
            assert(cmds[i] == survivors(cmds, n)[j]);
        }
    }
}

/// What one more segment changes in a lookup: it decides where it sets or
/// removes the key, and else leaves the answer to the older segments.
pub proof fn lemma_lookup_newest(
    segments: Seq<SegmentView>,
    newest: SegmentView,
    es: Seq<Entry>,
    key: Seq<char>,
)
    requires
        entries(newest.data, 0) == Some(es),
    ensures
        lookup_segments(segments.push(newest), segments.len() as int + 1, key) == (match latest(
            commands(es),
            key,
        ) {
            Some(cmd) => if cmd.is_set() {
                Answer::Found(cmd.value)
            } else {
                Answer::NotFound
            },
            None => lookup_segments(segments, segments.len() as int, key),
        }),
{
    lemma_lookup_older(segments, segments.push(newest), segments.len() as int, key);
    assert(segments.push(newest)[segments.len() as int] == newest);
}

/// A lookup in the first `n` segments does not depend on the segments after
/// them.
pub proof fn lemma_lookup_older(
    segments: Seq<SegmentView>,
    more: Seq<SegmentView>,
    n: int,
    key: Seq<char>,
)
    requires
        0 <= n <= segments.len(),
        n <= more.len(),
        forall|i: int| 0 <= i < n ==> segments[i] == more[i],
    ensures
        lookup_segments(more, n, key) == lookup_segments(segments, n, key),
    decreases n,
{
    if n > 0 {
        lemma_lookup_older(segments, more, n - 1, key);
    }
}

/// The last command on a key in a log and one more command.
pub proof fn lemma_latest_push(cmds: Seq<CommandView>, cmd: CommandView, key: Seq<char>)
    ensures
        latest(cmds.push(cmd), key) == (if cmd.touches(key) {
            Some(cmd)
        } else {
            latest(cmds, key)
        }),
{
    let more = cmds.push(cmd);
    assert(more[cmds.len() as int] == cmd);
    if !cmd.touches(key) {
        lemma_latest_pos_prefix(more, cmds, cmds.len() as int, key);
        lemma_latest_pos_range(cmds, cmds.len() as int, key);
    }
}

/// `older` are the first segments of `newer`.
pub open spec fn extends(newer: Seq<SegmentView>, older: Seq<SegmentView>) -> bool {
    older.len() <= newer.len() && newer.subrange(0, older.len() as int) == older
}

/// Settling a directory leaves the segments it has as they are, and gives
/// the segments it adds the names of their numbers. Where it adds none, it
/// leaves the log as it is, too.
pub proof fn lemma_settled_segments(d: DirectoryView)
    ensures
        extends(settled(d).segments, d.segments),
        canonical(d.segments) ==> canonical(settled(d).segments),
        settled(d).segments.len() == d.segments.len() ==> settled(d) == d,
    decreases d.log.len(),
{
    if overfull(d) {
        let next = compacted(d, entries(d.log, 0).unwrap());
        lemma_settled_segments(next);
        assert(next.segments.subrange(0, d.segments.len() as int) =~= d.segments);
        assert(settled(d).segments.subrange(0, d.segments.len() as int) =~= settled(
            d,
        ).segments.subrange(0, next.segments.len() as int).subrange(0, d.segments.len() as int));
    } else {
        assert(d.segments.subrange(0, d.segments.len() as int) =~= d.segments);
    }
}

/// The last command on a key in two runs of commands, one after the other,
/// is the last one in the second run, or else the last one in the first.
pub proof fn lemma_latest_joined(first: Seq<CommandView>, second: Seq<CommandView>, key: Seq<char>)
    ensures
        latest(first + second, key) == (match latest(second, key) {
            Some(cmd) => Some(cmd),
            None => latest(first, key),
        }),
    decreases second.len(),
{
    if second.len() == 0 {
        assert(first + second =~= first);
    } else {
        let shorter = second.drop_last();
        let last = second.last();
        lemma_latest_joined(first, shorter, key);
        assert(first + second =~= (first + shorter).push(last));
        assert(second =~= shorter.push(last));
        lemma_latest_push(first + shorter, last, key);
        lemma_latest_push(shorter, last, key);
    }
}

/// Compaction does not change the answer for a key, unless the records
/// that it folds leave the key live and the records that it keeps end with
/// its removal: the segment then holds the key, and the log's `rm` does not
/// hide it.
pub proof fn lemma_compaction_keeps_answers(d: DirectoryView, es: Seq<Entry>, key: Seq<char>)
    requires
        spans(d.log, es),
        es.len() > COMPACTION_THRESHOLD,
        faithful(survivors(folded(es), COMPACTION_THRESHOLD as int)),
        !(live_value(folded(es), key) is Some && live_value(commands(es), key) is None && latest(
            commands(es.subrange(COMPACTION_THRESHOLD as int, es.len() as int)),
            key,
        ) is Some),
    ensures
        lookup(compacted(d, es), key) == lookup(d, key),
{
    let threshold = COMPACTION_THRESHOLD as int;
    let kept = survivors(folded(es), threshold);
    let cut = es[threshold - 1].end;
    let tail = es.subrange(threshold, es.len() as int);
    let rest = shifted(tail, cut);
    let after = compacted(d, es);
    lemma_spans_entries(d.log, es);
    lemma_spans_tail(d.log, es, threshold);
    lemma_spans_entries(after.log, rest);
    assert(commands(rest) =~= commands(tail));
    assert(commands(es) =~= folded(es) + commands(tail));
    lemma_latest_joined(folded(es), commands(tail), key);
    let se = choose|se: Seq<Entry>|
        spans(records_text(kept), se) && #[trigger] commands(se) == kept;
    lemma_spans_entries(records_text(kept), se);
    let newest = after.segments[d.segments.len() as int];
    assert(after.segments =~= d.segments.push(newest));
    lemma_lookup_newest(d.segments, newest, se, key);
    lemma_survivors_latest(folded(es), threshold, key);
    lemma_latest_pos_range(folded(es), threshold, key);
}

/// A directory whose log holds exactly some entries, no more than the
/// threshold, is left as it is by trimming and by settling.
pub proof fn lemma_at_rest(d: DirectoryView, es: Seq<Entry>)
    requires
        spans(d.log, es),
        es.len() <= COMPACTION_THRESHOLD,
    ensures
        entries(d.log, 0) == Some(es),
        trimmed(d) == d,
        settled(d) == d,
        settles_faithfully(d),
{
    lemma_spans_entries(d.log, es);
    assert(d.log.subrange(0, d.log.len() as int) =~= d.log);
}

/// What a directory answers after one more record, for a log that was not
/// due for compaction before: the key of a `set` has the new value, the key
/// of a `rm` has what the segments say, and every other key has the answer
/// it had, whether or not the record brought a compaction about.
pub proof fn lemma_appended_answers(
    d: DirectoryView,
    es: Seq<Entry>,
    cmd: CommandView,
    key: Seq<char>,
)
    requires
        spans(d.log, es),
        es.len() <= COMPACTION_THRESHOLD,
        reads_as(record_text(cmd), cmd),
        settles_faithfully(appended(d, cmd)),
    ensures
        lookup(settled(appended(d, cmd)), key) == (if cmd.touches(key) {
            if cmd.is_set() {
                Answer::Found(cmd.value)
            } else {
                lookup_segments(
                    settled(appended(d, cmd)).segments,
                    settled(appended(d, cmd)).segments.len() as int,
                    key,
                )
            }
        } else {
            lookup(d, key)
        }),
{
    let threshold = COMPACTION_THRESHOLD as int;
    let text = record_text(cmd);
    let d1 = appended(d, cmd);
    let e = Entry { cmd, begin: d.log.len() as int, end: (d.log.len() + text.len()) as int };
    let es1 = es.push(e);
    lemma_spans_push(d.log, es, text, cmd);
    lemma_spans_entries(d1.log, es1);
    lemma_spans_entries(d.log, es);
    assert(commands(es1) =~= commands(es).push(cmd));
    lemma_latest_push(commands(es), cmd, key);
    if es1.len() <= threshold {
        assert(settled(d1) == d1);
    } else {
        assert(es.len() == threshold);
        lemma_spans_tail(d1.log, es1, threshold);
        let cut = es1[threshold - 1].end;
        let rest = shifted(es1.subrange(threshold, es1.len() as int), cut);
        let d2 = compacted(d1, es1);
        assert(overfull(d1));
        lemma_spans_entries(d2.log, rest);
        assert(rest.len() == 1);
        assert(settled(d2) == d2);
        assert(settled(d1) == settled(d2));
        assert(commands(rest) =~= seq![cmd]);
        assert(Seq::<CommandView>::empty().push(cmd) =~= seq![cmd]);
        lemma_latest_push(Seq::empty(), cmd, key);
        assert(latest(Seq::<CommandView>::empty(), key) is None);
        assert(es1.subrange(0, threshold) =~= es);
        let kept = survivors(folded(es1), threshold);
        assert(folded(es1) == commands(es));
        assert(faithful(kept));
        let se = choose|se: Seq<Entry>|
            spans(records_text(kept), se) && #[trigger] commands(se) == kept;
        lemma_spans_entries(records_text(kept), se);
        let newest = d2.segments[d.segments.len() as int];
        lemma_lookup_newest(d.segments, newest, se, key);
        lemma_survivors_latest(commands(es), threshold, key);
        assert(d2.segments =~= d.segments.push(newest));
        assert(newest.data == records_text(kept));
        assert(live_value(commands(rest), key) == (if cmd.touches(key) && cmd.is_set() {
            Some(cmd.value)
        } else {
            None
        }));
        if !cmd.touches(key) {
            lemma_latest_pos_range(commands(es), threshold, key);
        }
    }
}

} // verus!
