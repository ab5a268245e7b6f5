//! Sequences of records: how bytes are read as commands, and what a
//! sequence of commands says about a key.

use crate::command::{lemma_reads_at, parse, reads_as, record_text, CommandView, Parsed};
use vstd::prelude::*;

verus! {

/// A record found in some bytes: its command and the byte range it takes.
pub struct Entry {
    pub cmd: CommandView,
    pub begin: int,
    pub end: int,
}

/// The records read from `bytes` one after the other, starting at `pos`.
/// `None` where bytes are met that are no record; blank bytes after the
/// last record are accepted.
pub open spec fn entries(bytes: Seq<u8>, pos: int) -> Option<Seq<Entry>>
    decreases bytes.len() - pos,
{
    if pos < 0 || pos > bytes.len() {
        None
    } else {
        match parse(bytes.subrange(pos, bytes.len() as int)) {
            Parsed::End => Some(Seq::empty()),
            Parsed::Malformed => None,
            Parsed::Record { cmd, len } => if 0 < len && pos + len <= bytes.len() {
                match entries(bytes, pos + len) {
                    Some(rest) => Some(seq![Entry { cmd, begin: pos, end: pos + len }] + rest),
                    None => None,
                }
            } else {
                None
            },
        }
    }
}

/// The commands of a sequence of entries.
pub open spec fn commands(es: Seq<Entry>) -> Seq<CommandView> {
    es.map_values(|e: Entry| e.cmd)
}

/// `first` followed by what was read after it, if that could be read.
pub open spec fn followed_by(first: Seq<Entry>, then: Option<Seq<Entry>>) -> Option<Seq<Entry>> {
    match then {
        Some(rest) => Some(first + rest),
        None => None,
    }
}

/// Where entry `i` starts if the entries lie end to end from offset 0; for
/// `i == es.len()`, where they end.
pub open spec fn start_of(es: Seq<Entry>, i: int) -> int {
    if i <= 0 {
        0
    } else {
        es[i - 1].end
    }
}

/// The entries lie end to end over `bytes[0..upto]`, and the bytes of each
/// are a record of its command.
pub open spec fn covers(bytes: Seq<u8>, es: Seq<Entry>, upto: int) -> bool {
    &&& 0 <= upto <= bytes.len()
    &&& start_of(es, es.len() as int) == upto
    &&& es.len() > 0 ==> es[0].begin == 0
    &&& forall|i: int, j: int|
        #![trigger es[i], es[j]]
        0 <= i && j == i + 1 && j < es.len() ==> es[j].begin == es[i].end
    &&& forall|i: int|
        0 <= i < es.len() ==> {
            &&& 0 <= (#[trigger] es[i]).begin < es[i].end <= upto
            &&& reads_as(bytes.subrange(es[i].begin, es[i].end), es[i].cmd)
        }
}

/// The bytes hold exactly these entries, with nothing before, between or
/// after them.
pub open spec fn spans(bytes: Seq<u8>, es: Seq<Entry>) -> bool {
    covers(bytes, es, bytes.len() as int)
}

/// The same entries, seen from `by` bytes further on.
pub open spec fn shifted(es: Seq<Entry>, by: int) -> Seq<Entry> {
    es.map_values(|e: Entry| Entry { cmd: e.cmd, begin: e.begin - by, end: e.end - by })
}

/// The index of the last of the first `n` commands that sets or removes
/// `key`.
pub open spec fn latest_pos(cmds: Seq<CommandView>, n: int, key: Seq<char>) -> Option<int>
    decreases n,
{
    if n <= 0 {
        None
    } else if cmds[n - 1].touches(key) {
        Some(n - 1)
    } else {
        latest_pos(cmds, n - 1, key)
    }
}

/// The last command that sets or removes `key`.
pub open spec fn latest(cmds: Seq<CommandView>, key: Seq<char>) -> Option<CommandView> {
    match latest_pos(cmds, cmds.len() as int, key) {
        Some(i) => Some(cmds[i]),
        None => None,
    }
}

/// The value that the commands leave under `key`: that of the last `set`,
/// unless a `rm` came after it.
pub open spec fn live_value(cmds: Seq<CommandView>, key: Seq<char>) -> Option<Seq<char>> {
    match latest(cmds, key) {
        Some(cmd) => if cmd.is_set() {
            Some(cmd.value)
        } else {
            None
        },
        None => None,
    }
}

/// The records of some commands written one after the other.
pub open spec fn records_text(cmds: Seq<CommandView>) -> Seq<u8>
    decreases cmds.len(),
{
    if cmds.len() == 0 {
        Seq::empty()
    } else {
        records_text(cmds.drop_last()) + record_text(cmds.last())
    }
}

/// The last command on a key is on that key, and no later command is.
pub proof fn lemma_latest_pos_range(cmds: Seq<CommandView>, n: int, key: Seq<char>)
    requires
        n <= cmds.len(),
    ensures
        match latest_pos(cmds, n, key) {
            Some(i) => 0 <= i < n && cmds[i].touches(key),
            None => forall|j: int| 0 <= j < n ==> !(#[trigger] cmds[j]).touches(key),
        },
    decreases n,
{
    if n > 0 && !cmds[n - 1].touches(key) {
        lemma_latest_pos_range(cmds, n - 1, key);
    }
}

/// The last of the first `n` commands on a key depends on those `n`
/// commands only.
pub proof fn lemma_latest_pos_prefix(
    cmds: Seq<CommandView>,
    other: Seq<CommandView>,
    n: int,
    key: Seq<char>,
)
    requires
        0 <= n <= cmds.len(),
        n <= other.len(),
        forall|j: int| 0 <= j < n ==> cmds[j] == other[j],
    ensures
        latest_pos(cmds, n, key) == latest_pos(other, n, key),
    decreases n,
{
    if n > 0 {
        lemma_latest_pos_prefix(cmds, other, n - 1, key);
    }
}

/// A later entry ends no earlier than a former one.
pub proof fn lemma_ends_monotone(bytes: Seq<u8>, es: Seq<Entry>, upto: int, i: int, j: int)
    requires
        covers(bytes, es, upto),
        0 <= i <= j < es.len(),
    ensures
        es[i].end <= es[j].end,
        i < j ==> es[i].end <= es[j].begin,
    decreases j - i,
{
    if i < j {
        lemma_ends_monotone(bytes, es, upto, i, j - 1);
        assert(es[j].begin == es[j - 1].end);
    }
}

/// Entries that lie end to end are what is read from their first byte on.
pub proof fn lemma_covers_entries(bytes: Seq<u8>, es: Seq<Entry>, upto: int, i: int)
    requires
        covers(bytes, es, upto),
        0 <= i <= es.len(),
    ensures
        entries(bytes, start_of(es, i)) == followed_by(
            es.subrange(i, es.len() as int),
            entries(bytes, upto),
        ),
    decreases es.len() - i,
{
    let n = es.len() as int;
    if i == n {
        assert(es.subrange(i, n) =~= Seq::<Entry>::empty());
        match entries(bytes, upto) {
            Some(rest) => {
                assert(Seq::<Entry>::empty() + rest =~= rest);
            },
            None => {},
        }
    } else {
        let e = es[i];
        if i > 0 {
            assert(es[i].begin == es[i - 1].end);
        }
        assert(e.begin == start_of(es, i));
        lemma_reads_at(bytes, e.begin, e.end, e.cmd);
        assert(start_of(es, i + 1) == e.end);
        lemma_covers_entries(bytes, es, upto, i + 1);
        match entries(bytes, upto) {
            Some(tail) => {
                assert(seq![e] + (es.subrange(i + 1, n) + tail) =~= es.subrange(i, n) + tail);
            },
            None => {},
        }
    }
}

/// Bytes that hold exactly some entries read back as those entries.
pub proof fn lemma_spans_entries(bytes: Seq<u8>, es: Seq<Entry>)
    requires
        spans(bytes, es),
    ensures
        entries(bytes, 0) == Some(es),
{
    lemma_covers_entries(bytes, es, bytes.len() as int, 0);
    assert(bytes.subrange(bytes.len() as int, bytes.len() as int) =~= Seq::<u8>::empty());
    assert(es.subrange(0, es.len() as int) =~= es);
    assert(es + Seq::<Entry>::empty() =~= es);
}

/// One more record at the end of the bytes is one more entry.
pub proof fn lemma_spans_push(bytes: Seq<u8>, es: Seq<Entry>, text: Seq<u8>, cmd: CommandView)
    requires
        spans(bytes, es),
        reads_as(text, cmd),
    ensures
        spans(
            bytes + text,
            es.push(
                Entry { cmd, begin: bytes.len() as int, end: (bytes.len() + text.len()) as int },
            ),
        ),
{
    let all = bytes + text;
    let more = es.push(
        Entry { cmd, begin: bytes.len() as int, end: (bytes.len() + text.len()) as int },
    );
    assert forall|i: int| 0 <= i < more.len() implies {
        &&& 0 <= (#[trigger] more[i]).begin < more[i].end <= all.len()
        &&& reads_as(all.subrange(more[i].begin, more[i].end), more[i].cmd)
    } by {
        if i < es.len() {
            assert(more[i] == es[i]);
            assert(all.subrange(es[i].begin, es[i].end) =~= bytes.subrange(es[i].begin, es[i].end));
        } else {
            assert(all.subrange(bytes.len() as int, all.len() as int) =~= text);
        }
    }
    assert forall|i: int, j: int|
        #![trigger more[i], more[j]]
        0 <= i && j == i + 1 && j < more.len() implies more[j].begin == more[i].end by {
        assert(more[i] == es[i]);
        if j < es.len() {
            assert(more[j] == es[j]);
        }
    }
}

/// Cutting the bytes where an entry ends leaves the entries after it.
pub proof fn lemma_spans_tail(bytes: Seq<u8>, es: Seq<Entry>, n: int)
    requires
        spans(bytes, es),
        0 < n <= es.len(),
    ensures
        0 < es[n - 1].end <= bytes.len(),
        spans(
            bytes.subrange(es[n - 1].end, bytes.len() as int),
            shifted(es.subrange(n, es.len() as int), es[n - 1].end),
        ),
{
    let cut = es[n - 1].end;
    let tail = bytes.subrange(cut, bytes.len() as int);
    let rest = shifted(es.subrange(n, es.len() as int), cut);
    assert(0 <= es[n - 1].begin < cut);
    assert forall|i: int| 0 <= i < rest.len() implies {
        &&& 0 <= (#[trigger] rest[i]).begin < rest[i].end <= tail.len()
        &&& reads_as(tail.subrange(rest[i].begin, rest[i].end), rest[i].cmd)
    } by {
        let e = es[n + i];
        assert(rest[i].begin == e.begin - cut);
        assert(rest[i].end == e.end - cut);
        lemma_ends_monotone(bytes, es, bytes.len() as int, n - 1, n + i);
        assert(tail.subrange(rest[i].begin, rest[i].end) =~= bytes.subrange(e.begin, e.end));
    }
    assert forall|i: int, j: int|
        #![trigger rest[i], rest[j]]
        0 <= i && j == i + 1 && j < rest.len() implies rest[j].begin == rest[i].end by {
        assert(es[n + j].begin == es[n + i].end);
    }
    if rest.len() > 0 {
        assert(rest[rest.len() - 1].end == es[es.len() - 1].end - cut);
        assert(es[n].begin == es[n - 1].end);
        assert(rest[0].begin == es[n].begin - cut);
    }
}

/// One more record after the entries is one more entry.
pub proof fn lemma_covers_push(bytes: Seq<u8>, es: Seq<Entry>, upto: int, e: Entry)
    requires
        covers(bytes, es, upto),
        e.begin == upto,
        upto < e.end <= bytes.len(),
        reads_as(bytes.subrange(e.begin, e.end), e.cmd),
    ensures
        covers(bytes, es.push(e), e.end),
{
    let more = es.push(e);
    assert forall|i: int| 0 <= i < more.len() implies {
        &&& 0 <= (#[trigger] more[i]).begin < more[i].end <= e.end
        &&& reads_as(bytes.subrange(more[i].begin, more[i].end), more[i].cmd)
    } by {
        if i < es.len() {
            assert(more[i] == es[i]);
        }
    }
    assert forall|i: int, j: int|
        #![trigger more[i], more[j]]
        0 <= i && j == i + 1 && j < more.len() implies more[j].begin == more[i].end by {
        assert(more[i] == es[i]);
        if j < es.len() {
            assert(more[j] == es[j]);
        }
    }
}

/// Every record takes at least one byte.
pub proof fn lemma_covers_count(bytes: Seq<u8>, es: Seq<Entry>, upto: int, n: int)
    requires
        covers(bytes, es, upto),
        0 <= n <= es.len(),
    ensures
        n <= start_of(es, n) <= upto,
    decreases n,
{
    if n > 0 {
        lemma_covers_count(bytes, es, upto, n - 1);
        if n > 1 {
            assert(es[n - 1].begin == es[n - 2].end);
        }
    }
}

/// Entries stay where they are when bytes are added at the end.
pub proof fn lemma_covers_longer(bytes: Seq<u8>, more: Seq<u8>, es: Seq<Entry>, upto: int)
    requires
        covers(bytes, es, upto),
    ensures
        covers(bytes + more, es, upto),
{
    let all = bytes + more;
    assert forall|i: int| 0 <= i < es.len() implies reads_as(
        all.subrange((#[trigger] es[i]).begin, es[i].end),
        es[i].cmd,
    ) by {
        assert(all.subrange(es[i].begin, es[i].end) =~= bytes.subrange(es[i].begin, es[i].end));
    }
}

/// The bytes up to the end of the entries hold exactly the entries.
pub proof fn lemma_covers_cut(bytes: Seq<u8>, es: Seq<Entry>, upto: int)
    requires
        covers(bytes, es, upto),
    ensures
        spans(bytes.subrange(0, upto), es),
{
    let cut = bytes.subrange(0, upto);
    assert forall|i: int| 0 <= i < es.len() implies reads_as(
        cut.subrange((#[trigger] es[i]).begin, es[i].end),
        es[i].cmd,
    ) by {
        assert(cut.subrange(es[i].begin, es[i].end) =~= bytes.subrange(es[i].begin, es[i].end));
    }
}

} // verus!
