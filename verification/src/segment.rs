//! The store directory as a value, and how keys are looked up in segments.

use crate::command::{decode_at, Command};
use crate::error::KvsError;
use crate::log::{commands, entries, followed_by, latest, lemma_latest_pos_prefix, Entry};
use vstd::prelude::*;

verus! {

/// An immutable file produced by one compaction.
#[derive(Clone, Debug)]
pub struct Segment {
    pub name: String,
    pub data: Vec<u8>,
}

/// The mathematical value of a [`Segment`].
pub struct SegmentView {
    pub name: Seq<char>,
    pub data: Seq<u8>,
}

impl View for Segment {
    type V = SegmentView;

    open spec fn view(&self) -> SegmentView {
        SegmentView { name: self.name@, data: self.data@ }
    }
}

/// What a store keeps on disk: the active log and the segments, oldest first.
#[derive(Clone, Debug)]
pub struct Directory {
    pub log: Vec<u8>,
    pub segments: Vec<Segment>,
}

/// The mathematical value of a [`Directory`].
pub struct DirectoryView {
    pub log: Seq<u8>,
    pub segments: Seq<SegmentView>,
}

/// The values of some segments.
pub open spec fn segments_view(segments: Seq<Segment>) -> Seq<SegmentView> {
    segments.map_values(|s: Segment| s@)
}

impl View for Directory {
    type V = DirectoryView;

    open spec fn view(&self) -> DirectoryView {
        DirectoryView { log: self.log@, segments: segments_view(self.segments@) }
    }
}

/// The answer to a read.
pub enum Answer {
    /// The key is live, with this value.
    Found(Seq<char>),
    /// The key is unknown or was removed.
    NotFound,
    /// Bytes were met that are no record.
    Corrupt,
}

/// What the first `n` segments say about `key`. The newest of them that
/// sets or removes the key decides, by its last such record.
pub open spec fn lookup_segments(segments: Seq<SegmentView>, n: int, key: Seq<char>) -> Answer
    decreases n,
{
    if n <= 0 {
        Answer::NotFound
    } else {
        match entries(segments[n - 1].data, 0) {
            None => Answer::Corrupt,
            Some(es) => match latest(commands(es), key) {
                Some(cmd) => if cmd.is_set() {
                    Answer::Found(cmd.value)
                } else {
                    Answer::NotFound
                },
                None => lookup_segments(segments, n - 1, key),
            },
        }
    }
}

/// Reads every record of `data` and returns the last one that sets or
/// removes `key`.
pub fn scan_segment(data: &[u8], key: &String) -> (r: Result<Option<Command>, KvsError>)
    ensures
        match entries(data@, 0) {
            None => r matches Err(KvsError::SerdeError(_)),
            Some(es) => match latest(commands(es), key@) {
                Some(cmd) => r matches Ok(Some(found)) && found@ == cmd,
                None => r matches Ok(None),
            },
        },
{
    let mut pos: usize = 0;
    let mut best: Option<Command> = None;
    let ghost mut done: Seq<Entry> = Seq::empty();
    proof {
        assert(entries(data@, 0) == followed_by(done, entries(data@, 0))) by {
            match entries(data@, 0) {
                Some(rest) => {
                    assert(done + rest =~= rest);
                },
                None => {},
            }
        }
    }
    loop
        invariant
            pos <= data@.len(),
            entries(data@, 0) == followed_by(done, entries(data@, pos as int)),
            match latest(commands(done), key@) {
                Some(cmd) => best matches Some(found) && found@ == cmd,
                None => best is None,
            },
        decreases data@.len() - pos,
    {
        match decode_at(data, pos) {
            Err(e) => {
                return Err(e);
            },
            Ok(None) => {
                proof {
                    assert(done + Seq::<Entry>::empty() =~= done);
                }
                return Ok(best);
            },
            Ok(Some((cmd, end))) => {
                proof {
                    let e = Entry { cmd: cmd@, begin: pos as int, end: end as int };
                    let more = done.push(e);
                    match entries(data@, end as int) {
                        Some(rest) => {
                            assert(done + (seq![e] + rest) =~= more + rest);
                        },
                        None => {},
                    }
                    lemma_latest_pos_prefix(
                        commands(more),
                        commands(done),
                        done.len() as int,
                        key@,
                    );
                    crate::log::lemma_latest_pos_range(commands(done), done.len() as int, key@);
                    assert(commands(more)[done.len() as int] == cmd@);
                    assert(commands(more).len() == done.len() + 1);
                    assert(forall|i: int|
                        0 <= i < done.len() ==> commands(more)[i] == commands(done)[i]);
                    done = more;
                }
                if cmd.touches(key) {
                    best = Some(cmd);
                }
                pos = end;
            },
        }
    }
}

/// Looks `key` up in the segments, newest first.
pub fn find_in_segments(segments: &Vec<Segment>, key: &String) -> (r: Result<
    Option<String>,
    KvsError,
>)
    ensures
        match lookup_segments(segments_view(segments@), segments@.len() as int, key@) {
            Answer::Found(value) => r matches Ok(Some(found)) && found@ == value,
            Answer::NotFound => r matches Ok(None),
            Answer::Corrupt => r matches Err(KvsError::SerdeError(_)),
        },
{
    let mut n: usize = segments.len();
    while n > 0
        invariant
            n <= segments@.len(),
            lookup_segments(segments_view(segments@), segments@.len() as int, key@)
                == lookup_segments(segments_view(segments@), n as int, key@),
        decreases n,
    {
        let segment = &segments[n - 1];
        assert(segments_view(segments@)[n - 1].data == segment.data@);
        match scan_segment(segment.data.as_slice(), key) {
            Err(e) => {
                return Err(e);
            },
            Ok(Some(cmd)) => {
                if cmd.is_set() {
                    return Ok(Some(cmd.value));
                } else {
                    return Ok(None);
                }
            },
            Ok(None) => {
                n -= 1;
            },
        }
    }
    Ok(None)
}

} // verus!
