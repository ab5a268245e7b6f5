//! The command record: the unit of durable information.

use crate::codec::{
    decode_object, decodes_as, encode_object, fields_view, first_object, missing_field,
    names_increase, object_text, Decoded, Fields,
};
use crate::error::KvsError;
use crate::order::{shows_lt, str_lt};
use vstd::prelude::*;
use vstd::slice::slice_subrange;
use vstd::string::StringExecFns;

verus! {

/// A command as it is written to the log and to the segments.
#[derive(Debug)]
pub struct Command {
    /// `set` or `rm`.
    pub action: String,
    pub key: String,
    /// The value of a `set`; empty for a `rm`.
    pub value: String,
}

/// The mathematical value of a [`Command`].
pub struct CommandView {
    pub action: Seq<char>,
    pub key: Seq<char>,
    pub value: Seq<char>,
}

impl View for Command {
    type V = CommandView;

    open spec fn view(&self) -> CommandView {
        CommandView { action: self.action@, key: self.key@, value: self.value@ }
    }
}

impl CommandView {
    /// The command stores a value under its key.
    pub open spec fn is_set(self) -> bool {
        self.action == "set"@
    }

    /// The command deletes its key.
    pub open spec fn is_rm(self) -> bool {
        self.action == "rm"@
    }

    /// The command sets or removes `key`.
    pub open spec fn touches(self, key: Seq<char>) -> bool {
        self.key == key && (self.is_set() || self.is_rm())
    }
}

/// The command that stores `value` under `key`.
pub open spec fn set_command(key: Seq<char>, value: Seq<char>) -> CommandView {
    CommandView { action: "set"@, key, value }
}

/// The command that deletes `key`.
pub open spec fn rm_command(key: Seq<char>) -> CommandView {
    CommandView { action: "rm"@, key, value: Seq::empty() }
}

/// The fields of the object that stands for a command, in the order in
/// which they are written.
pub open spec fn record_fields(cmd: CommandView) -> Fields {
    seq![("action"@, cmd.action), ("key"@, cmd.key), ("value"@, cmd.value)]
}

/// The bytes of a command's record.
pub open spec fn record_text(cmd: CommandView) -> Seq<u8> {
    object_text(record_fields(cmd))
}

/// The value of the first field called `name` among `fields[from..]`.
pub open spec fn field_from(fields: Fields, name: Seq<char>, from: int) -> Option<Seq<char>>
    decreases fields.len() - from,
{
    if from < 0 || from >= fields.len() {
        None
    } else if fields[from].0 == name {
        Some(fields[from].1)
    } else {
        field_from(fields, name, from + 1)
    }
}

/// The command that an object stands for: it needs the fields `action`,
/// `key` and `value`; other fields are ignored.
pub open spec fn command_of(fields: Fields) -> Option<CommandView> {
    match (
        field_from(fields, "action"@, 0),
        field_from(fields, "key"@, 0),
        field_from(fields, "value"@, 0),
    ) {
        (Some(action), Some(key), Some(value)) => Some(CommandView { action, key, value }),
        _ => None,
    }
}

/// What stands at the front of some bytes.
pub enum Parsed {
    /// No record: the input is empty or blank.
    End,
    /// Bytes that are no record.
    Malformed,
    /// A record, and the number of bytes it takes.
    Record { cmd: CommandView, len: nat },
}

/// Decodes the first record of `bytes`.
pub open spec fn parse(bytes: Seq<u8>) -> Parsed {
    if bytes.len() == 0 {
        Parsed::End
    } else {
        match first_object(bytes) {
            Decoded::End => Parsed::End,
            Decoded::Malformed => Parsed::Malformed,
            Decoded::Object { fields, consumed } => match command_of(fields) {
                Some(cmd) => Parsed::Record { cmd, len: consumed },
                None => Parsed::Malformed,
            },
        }
    }
}

/// `text` is one record of `cmd`: it is not empty, and it decodes to `cmd`,
/// read in full, whatever bytes follow it.
pub open spec fn reads_as(text: Seq<u8>, cmd: CommandView) -> bool {
    &&& text.len() > 0
    &&& reads_before_any(text, cmd)
}

/// `text` decodes to `cmd`, read in full, whatever bytes follow it.
#[verifier::opaque]
pub open spec fn reads_before_any(text: Seq<u8>, cmd: CommandView) -> bool {
    forall|rest: Seq<u8>| #[trigger]
        parse(text + rest) == (Parsed::Record { cmd, len: text.len() })
}

proof fn lemma_field_names()
    ensures
        "action"@ != "key"@,
        "action"@ != "value"@,
        "key"@ != "value"@,
        "set"@ != "rm"@,
        str_lt("action"@, "key"@),
        str_lt("action"@, "value"@),
        str_lt("key"@, "value"@),
{
    reveal_strlit("action");
    reveal_strlit("key");
    reveal_strlit("value");
    reveal_strlit("set");
    reveal_strlit("rm");
    assert("action"@.len() == 6 && "key"@.len() == 3 && "value"@.len() == 5);
    assert("set"@.len() == 3 && "rm"@.len() == 2);
    assert("action"@.subrange(0, 0) =~= "key"@.subrange(0, 0));
    assert("action"@.subrange(0, 0) =~= "value"@.subrange(0, 0));
    assert("key"@.subrange(0, 0) =~= "value"@.subrange(0, 0));
    assert(shows_lt("action"@, "key"@, 0));
    assert(shows_lt("action"@, "value"@, 0));
    assert(shows_lt("key"@, "value"@, 0));
}

/// A command cannot both set and remove.
pub proof fn lemma_set_is_not_rm(cmd: CommandView)
    ensures
        !(cmd.is_set() && cmd.is_rm()),
{
    lemma_field_names();
}

/// A command's own fields stand for that command.
pub proof fn lemma_command_of_record_fields(cmd: CommandView)
    ensures
        command_of(record_fields(cmd)) == Some(cmd),
        names_increase(record_fields(cmd)),
{
    lemma_field_names();
    let fields = record_fields(cmd);
    reveal_with_fuel(field_from, 4);
    assert(field_from(fields, "action"@, 0) == Some(cmd.action));
    assert(field_from(fields, "key"@, 0) == Some(cmd.key));
    assert(field_from(fields, "value"@, 0) == Some(cmd.value));
}

/// Bytes that decode to a command's fields are a record of that command.
pub proof fn lemma_reads_as(text: Seq<u8>, fields: Fields, cmd: CommandView)
    requires
        text.len() > 0,
        decodes_as(text, fields),
        command_of(fields) == Some(cmd),
    ensures
        reads_as(text, cmd),
{
    reveal(reads_before_any);
    assert forall|rest: Seq<u8>| #[trigger]
        parse(text + rest) == (Parsed::Record { cmd, len: text.len() }) by {
        assert(first_object(text + rest) == (Decoded::Object { fields, consumed: text.len() }));
    }
}

/// A record at `bytes[begin..end]` is what is decoded at `begin`.
pub proof fn lemma_reads_at(bytes: Seq<u8>, begin: int, end: int, cmd: CommandView)
    requires
        0 <= begin <= end <= bytes.len(),
        reads_as(bytes.subrange(begin, end), cmd),
    ensures
        begin < end,
        parse(bytes.subrange(begin, bytes.len() as int)) == (Parsed::Record {
            cmd,
            len: (end - begin) as nat,
        }),
{
    reveal(reads_before_any);
    let text = bytes.subrange(begin, end);
    let rest = bytes.subrange(end, bytes.len() as int);
    assert(bytes.subrange(begin, bytes.len() as int) =~= text + rest);
    assert(parse(text + rest) == (Parsed::Record { cmd, len: text.len() }));
}

impl Command {
    /// The command that stores `value` under `key`.
    pub fn set(key: String, value: String) -> (cmd: Command)
        ensures
            cmd@ == set_command(key@, value@),
    {
        Command { action: String::from_str("set"), key, value }
    }

    /// The command that deletes `key`.
    pub fn rm(key: String) -> (cmd: Command)
        ensures
            cmd@ == rm_command(key@),
    {
        Command { action: String::from_str("rm"), key, value: String::new() }
    }

    /// A copy of the command.
    pub fn duplicate(&self) -> (copy: Command)
        ensures
            copy@ == self@,
    {
        Command { action: self.action.clone(), key: self.key.clone(), value: self.value.clone() }
    }

    /// Whether the command stores a value.
    pub fn is_set(&self) -> (r: bool)
        ensures
            r == self@.is_set(),
    {
        self.action == String::from_str("set")
    }

    /// Whether the command deletes its key.
    pub fn is_rm(&self) -> (r: bool)
        ensures
            r == self@.is_rm(),
    {
        self.action == String::from_str("rm")
    }

    /// Whether the command sets or removes `key`.
    pub fn touches(&self, key: &String) -> (r: bool)
        ensures
            r == self@.touches(key@),
    {
        self.key == *key && (self.is_set() || self.is_rm())
    }

    /// Encodes the command as one record.
    pub fn encode(&self) -> (text: Vec<u8>)
        ensures
            text@ == record_text(self@),
            reads_as(text@, self@),
    {
        let mut fields: Vec<(String, String)> = Vec::new();
        fields.push((String::from_str("action"), self.action.clone()));
        fields.push((String::from_str("key"), self.key.clone()));
        fields.push((String::from_str("value"), self.value.clone()));
        proof {
            assert(fields_view(fields@) =~= record_fields(self@));
            lemma_command_of_record_fields(self@);
        }
        match encode_object(&fields) {
            Ok(text) => {
                proof {
                    lemma_reads_as(text@, record_fields(self@), self@);
                }
                text
            },
            Err(_) => {
                proof {
                    assert(false);
                }
                Vec::new()
            },
        }
    }
}

/// Looks a field up by name.
fn find_field(fields: &Vec<(String, String)>, name: &str) -> (r: Option<String>)
    ensures
        match field_from(fields_view(fields@), name@, 0) {
            Some(value) => r matches Some(s) && s@ == value,
            None => r is None,
        },
{
    let wanted = String::from_str(name);
    let mut i: usize = 0;
    while i < fields.len()
        invariant
            i <= fields.len(),
            wanted@ == name@,
            field_from(fields_view(fields@), name@, 0) == field_from(
                fields_view(fields@),
                name@,
                i as int,
            ),
        decreases fields.len() - i,
    {
        if fields[i].0 == wanted {
            return Some(fields[i].1.clone());
        }
        i += 1;
    }
    None
}

/// Decodes the record that starts at `pos`.
///
/// Returns `Ok(None)` where only blank bytes are left, the command and the
/// offset just past its record where one is found, and a decoding error
/// otherwise.
pub fn decode_at(bytes: &[u8], pos: usize) -> (r: Result<Option<(Command, usize)>, KvsError>)
    requires
        pos <= bytes@.len(),
    ensures
        match parse(bytes@.subrange(pos as int, bytes@.len() as int)) {
            Parsed::End => r matches Ok(None),
            Parsed::Malformed => r matches Err(KvsError::SerdeError(_)),
            Parsed::Record { cmd, len } => {
                &&& r matches Ok(Some(found))
                &&& found.0@ == cmd
                &&& found.1 == pos + len
                &&& pos < found.1 <= bytes@.len()
                &&& reads_as(bytes@.subrange(pos as int, found.1 as int), cmd)
            },
        },
{
    if pos >= bytes.len() {
        return Ok(None);
    }
    let rest = slice_subrange(bytes, pos, bytes.len());
    match decode_object(rest) {
        None => Ok(None),
        Some(Err(e)) => Err(KvsError::SerdeError(e)),
        Some(Ok((fields, consumed))) => {
            let action = find_field(&fields, "action");
            let key = find_field(&fields, "key");
            let value = find_field(&fields, "value");
            match (action, key, value) {
                (Some(action), Some(key), Some(value)) => {
                    let cmd = Command { action, key, value };
                    proof {
                        assert(rest@.subrange(0, consumed as int) =~= bytes@.subrange(
                            pos as int,
                            pos + consumed,
                        ));
                        lemma_reads_as(
                            rest@.subrange(0, consumed as int),
                            fields_view(fields@),
                            cmd@,
                        );
                    }
                    Ok(Some((cmd, pos + consumed)))
                },
                (None, _, _) => Err(KvsError::SerdeError(missing_field("action"))),
                (_, None, _) => Err(KvsError::SerdeError(missing_field("key"))),
                (_, _, None) => Err(KvsError::SerdeError(missing_field("value"))),
            }
        },
    }
}

} // verus!
