//! The wire protocol: one request per connection, its tokens separated by
//! single spaces, and the reply that answers it.

use crate::command::{rm_command, set_command};
use crate::store::KvStore;
use crate::error::KvsError;
use crate::model::{appended, settled};
use crate::segment::Answer;
use vstd::prelude::*;
use vstd::string::{StrSliceExecFns, StringExecFns};

verus! {

/// The largest request that the server reads, in bytes.
pub const FRAME_SIZE: usize = 100;

/// A frame without the NUL characters that pad its end.
pub open spec fn without_padding(frame: Seq<char>) -> Seq<char>
    decreases frame.len(),
{
    if frame.len() > 0 && frame.last() == '\0' {
        without_padding(frame.drop_last())
    } else {
        frame
    }
}

/// The tokens of the first `n` characters of a text: the stretches between
/// single spaces. Two spaces in a row hold an empty token between them, and
/// a text without a space is one token.
pub open spec fn tokens(text: Seq<char>, n: int) -> Seq<Seq<char>>
    decreases n,
{
    if n <= 0 {
        seq![Seq::empty()]
    } else {
        let before = tokens(text, n - 1);
        if text[n - 1] == ' ' {
            before.push(Seq::empty())
        } else {
            before.drop_last().push(before.last().push(text[n - 1]))
        }
    }
}

/// A request as the server understands it.
#[derive(Debug)]
pub enum Request {
    /// `set K V`.
    Store { key: String, value: String },
    /// `get K`.
    Fetch { key: String },
    /// `rm K`.
    Remove { key: String },
    /// A frame that is no command, kept for the diagnostic.
    Malformed { text: String },
}

/// The mathematical value of a [`Request`].
pub enum RequestView {
    Store { key: Seq<char>, value: Seq<char> },
    Fetch { key: Seq<char> },
    Remove { key: Seq<char> },
    Malformed { text: Seq<char> },
}

impl View for Request {
    type V = RequestView;

    open spec fn view(&self) -> RequestView {
        match self {
            Request::Store { key, value } => RequestView::Store { key: key@, value: value@ },
            Request::Fetch { key } => RequestView::Fetch { key: key@ },
            Request::Remove { key } => RequestView::Remove { key: key@ },
            Request::Malformed { text } => RequestView::Malformed { text: text@ },
        }
    }
}

/// The request that a text without padding stands for: `set K V`, `get K`
/// or `rm K`, with exactly that many tokens.
pub open spec fn request_of_text(text: Seq<char>) -> RequestView {
    let words = tokens(text, text.len() as int);
    if words[0] == "set"@ && words.len() == 3 {
        RequestView::Store { key: words[1], value: words[2] }
    } else if words[0] == "get"@ && words.len() == 2 {
        RequestView::Fetch { key: words[1] }
    } else if words[0] == "rm"@ && words.len() == 2 {
        RequestView::Remove { key: words[1] }
    } else {
        RequestView::Malformed { text }
    }
}

/// The request that a frame stands for.
pub open spec fn request_of(frame: Seq<char>) -> RequestView {
    request_of_text(without_padding(frame))
}

/// Cuts the NUL characters off the end of a frame.
pub fn trim_padding(frame: &str) -> (text: &str)
    ensures
        text@ == without_padding(frame@),
{
    let mut n: usize = frame.unicode_len();
    proof {
        assert(frame@.subrange(0, frame@.len() as int) =~= frame@);
    }
    while n > 0 && frame.get_char(n - 1) == '\0'
        invariant
            n <= frame@.len(),
            without_padding(frame@) == without_padding(frame@.subrange(0, n as int)),
        decreases n,
    {
        assert(frame@.subrange(0, n as int).drop_last() =~= frame@.subrange(0, n - 1));
        n -= 1;
    }
    frame.substring_char(0, n)
}

/// The values of some strings.
pub open spec fn texts(words: Seq<String>) -> Seq<Seq<char>> {
    words.map_values(|w: String| w@)
}

/// Splits a text on single spaces.
pub fn split_tokens(text: &str) -> (words: Vec<String>)
    ensures
        texts(words@) == tokens(text@, text@.len() as int),
        words@.len() >= 1,
{
    let len = text.unicode_len();
    let mut words: Vec<String> = Vec::new();
    let mut start: usize = 0;
    let mut i: usize = 0;
    proof {
        assert(text@.subrange(0, 0) =~= Seq::<char>::empty());
        assert(tokens(text@, 0) =~= texts(words@).push(text@.subrange(0, 0)));
    }
    while i < len
        invariant
            len == text@.len(),
            start <= i <= len,
            tokens(text@, i as int) == texts(words@).push(text@.subrange(start as int, i as int)),
        decreases len - i,
    {
        let ghost before = tokens(text@, i as int);
        let ghost word = text@.subrange(start as int, i as int);
        proof {
            assert(before.last() == word);
            assert(before.drop_last() =~= texts(words@));
        }
        if text.get_char(i) == ' ' {
            let done = String::from_str(text.substring_char(start, i));
            proof {
                assert(texts(words@.push(done)) =~= texts(words@).push(word));
                assert(text@.subrange(i + 1, i + 1) =~= Seq::<char>::empty());
            }
            words.push(done);
            start = i + 1;
        } else {
            proof {
                assert(word.push(text@[i as int]) =~= text@.subrange(start as int, i + 1));
            }
        }
        i += 1;
    }
    let last = String::from_str(text.substring_char(start, len));
    proof {
        assert(texts(words@.push(last)) =~= texts(words@).push(text@.subrange(
            start as int,
            len as int,
        )));
    }
    words.push(last);
    words
}

/// Reads a request from a frame.
pub fn parse_request(frame: &str) -> (request: Request)
    ensures
        request@ == request_of(frame@),
{
    let text = trim_padding(frame);
    let words = split_tokens(text);
    proof {
        assert(forall|i: int| 0 <= i < words@.len() ==> texts(words@)[i] == words@[i]@);
    }
    let count = words.len();
    if words[0] == String::from_str("set") && count == 3 {
        Request::Store { key: words[1].clone(), value: words[2].clone() }
    } else if words[0] == String::from_str("get") && count == 2 {
        Request::Fetch { key: words[1].clone() }
    } else if words[0] == String::from_str("rm") && count == 2 {
        Request::Remove { key: words[1].clone() }
    } else {
        Request::Malformed { text: String::from_str(text) }
    }
}

/// What the server does with a request.
#[derive(Debug)]
pub struct Response {
    /// The bytes to write to the client; empty where nothing is written.
    pub reply: String,
    /// A line for the server's own output, where there is something to
    /// report.
    pub diagnostic: Option<String>,
}

/// The reply to a read or a removal of a key that is not live.
pub open spec fn key_not_found() -> Seq<char> {
    "Key not found"@
}

/// Serves one request.
///
/// A `set` and a successful `rm` are answered with an empty reply, a `get`
/// with the value, and a miss of `get` or `rm` with `Key not found`. A
/// request that is no command, and one that the engine fails on, gets no
/// reply.
pub fn serve(store: &mut KvStore, request: Request) -> (response: Response)
    ensures
        final(store).wf(),
        match request@ {
            RequestView::Store { key, value } => {
                &&& final(store)@ == settled(appended(old(store)@, set_command(key, value)))
                &&& final(store).answer(key) == Answer::Found(value)
                &&& response.reply@.len() == 0
                &&& response.diagnostic is None
            },
            RequestView::Fetch { key } => {
                &&& final(store)@ == old(store)@
                &&& match old(store).answer(key) {
                    Answer::Found(value) => {
                        &&& response.reply@ == value
                        &&& response.diagnostic is None
                    },
                    Answer::NotFound => {
                        &&& response.reply@ == key_not_found()
                        &&& response.diagnostic matches Some(line)
                        &&& line@ == "Get Error: Key not found"@
                    },
                    Answer::Corrupt => {
                        &&& response.reply@.len() == 0
                        &&& response.diagnostic matches Some(line)
                        &&& line@ == "Get Error"@
                    },
                }
            },
            RequestView::Remove { key } => match old(store).answer(key) {
                Answer::Found(_) => {
                    &&& final(store)@ == settled(appended(old(store)@, rm_command(key)))
                    &&& response.reply@.len() == 0
                    &&& response.diagnostic is None
                },
                Answer::NotFound => {
                    &&& final(store)@ == old(store)@
                    &&& response.reply@ == key_not_found()
                    &&& response.diagnostic matches Some(line)
                    &&& line@ == "Remove Error: Key not found"@
                },
                Answer::Corrupt => {
                    &&& final(store)@ == old(store)@
                    &&& response.reply@.len() == 0
                    &&& response.diagnostic matches Some(line)
                    &&& line@ == "Remove Error"@
                },
            },
            RequestView::Malformed { text } => {
                &&& final(store)@ == old(store)@
                &&& response.reply@.len() == 0
                &&& response.diagnostic matches Some(line)
                &&& line@ == "error command "@ + text
            },
        },
{
    proof {
        use_type_invariant(&*store);
    }
    match request {
        Request::Store { key, value } => {
            match store.set(key, value) {
                Ok(()) => Response { reply: String::new(), diagnostic: None },
                Err(_) => {
                    proof {
                        assert(false);
                    }
                    Response {
                        reply: String::new(),
                        diagnostic: Some(String::from_str("Set Failed!")),
                    }
                },
            }
        },
        Request::Fetch { key } => {
            match store.get(key) {
                Ok(Some(value)) => Response { reply: value, diagnostic: None },
                Ok(None) => Response {
                    reply: String::from_str("Key not found"),
                    diagnostic: Some(String::from_str("Get Error: Key not found")),
                },
                Err(_) => Response {
                    reply: String::new(),
                    diagnostic: Some(String::from_str("Get Error")),
                },
            }
        },
        Request::Remove { key } => {
            match store.remove(key) {
                Ok(()) => Response { reply: String::new(), diagnostic: None },
                Err(KvsError::KeyNotFound) => Response {
                    reply: String::from_str("Key not found"),
                    diagnostic: Some(String::from_str("Remove Error: Key not found")),
                },
                Err(_) => Response {
                    reply: String::new(),
                    diagnostic: Some(String::from_str("Remove Error")),
                },
            }
        },
        Request::Malformed { text } => {
            let line = String::from_str("error command ").concat(text.as_str());
            Response { reply: String::new(), diagnostic: Some(line) }
        },
    }
}

/// The kind of a client's command.
#[derive(PartialEq, Eq, Structural, Clone, Copy, Debug)]
pub enum Operation {
    /// `set`.
    Store,
    /// `get`.
    Fetch,
    /// `rm`.
    Remove,
}

/// The frame of a `set`: `set`, the key and the value, joined by spaces.
pub fn set_request(key: &str, value: &str) -> (frame: String)
    ensures
        frame@ == "set "@ + key@ + " "@ + value@,
{
    String::from_str("set ").concat(key).concat(" ").concat(value)
}

/// The frame of a `get`: `get` and the key, joined by a space.
pub fn get_request(key: &str) -> (frame: String)
    ensures
        frame@ == "get "@ + key@,
{
    String::from_str("get ").concat(key)
}

/// The frame of a `rm`: `rm` and the key, joined by a space.
pub fn rm_request(key: &str) -> (frame: String)
    ensures
        frame@ == "rm "@ + key@,
{
    String::from_str("rm ").concat(key)
}

/// The text holds no space.
pub open spec fn no_space(text: Seq<char>) -> bool {
    forall|i: int| 0 <= i < text.len() ==> #[trigger] text[i] != ' '
}

/// The text does not end in a NUL character.
pub open spec fn no_padding(text: Seq<char>) -> bool {
    text.len() > 0 ==> text.last() != '\0'
}

/// Some words joined by single spaces.
pub open spec fn joined(words: Seq<Seq<char>>) -> Seq<char>
    decreases words.len(),
{
    if words.len() == 0 {
        Seq::empty()
    } else if words.len() == 1 {
        words[0]
    } else {
        joined(words.drop_last()) + seq![' '] + words.last()
    }
}

/// What the tokens of a text are: words without a space that, joined by
/// single spaces, give the text back.
pub proof fn lemma_tokens(text: Seq<char>, n: int)
    requires
        0 <= n <= text.len(),
    ensures
        tokens(text, n).len() >= 1,
        joined(tokens(text, n)) == text.subrange(0, n),
        forall|i: int| 0 <= i < tokens(text, n).len() ==> no_space(#[trigger] tokens(text, n)[i]),
    decreases n,
{
    if n == 0 {
        assert(text.subrange(0, 0) =~= Seq::<char>::empty());
    } else {
        lemma_tokens(text, n - 1);
        let before = tokens(text, n - 1);
        let now = tokens(text, n);
        let c = text[n - 1];
        assert(text.subrange(0, n) =~= text.subrange(0, n - 1).push(c));
        if c == ' ' {
            assert(now.drop_last() =~= before);
            assert(joined(now) =~= text.subrange(0, n));
            assert forall|i: int| 0 <= i < now.len() implies no_space(#[trigger] now[i]) by {
                if i < before.len() {
                    assert(now[i] == before[i]);
                }
            }
        } else {
            let word = before.last().push(c);
            assert(now.last() == word);
            assert(now.drop_last() =~= before.drop_last());
            if before.len() > 1 {
                assert(joined(now) =~= joined(before).push(c));
            }
            assert forall|i: int| 0 <= i < now.len() implies no_space(#[trigger] now[i]) by {
                if i < before.len() - 1 {
                    assert(now[i] == before[i]);
                } else {
                    assert(no_space(before[before.len() - 1]));
                }
            }
        }
    }
}

/// Characters that are no spaces lengthen the last token.
proof fn lemma_tokens_word(text: Seq<char>, start: int, n: int)
    requires
        0 <= start <= n <= text.len(),
        forall|j: int| start <= j < n ==> #[trigger] text[j] != ' ',
    ensures
        tokens(text, start).len() >= 1,
        tokens(text, n) == tokens(text, start).drop_last().push(
            tokens(text, start).last() + text.subrange(start, n),
        ),
    decreases n - start,
{
    lemma_tokens_some(text, start);
    let first = tokens(text, start);
    if start == n {
        assert(first.last() + text.subrange(start, n) =~= first.last());
        assert(first.drop_last().push(first.last()) =~= first);
    } else {
        lemma_tokens_word(text, start, n - 1);
        let before = tokens(text, n - 1);
        assert(before.last().push(text[n - 1]) =~= first.last() + text.subrange(start, n)) by {
            assert(text.subrange(start, n - 1).push(text[n - 1]) =~= text.subrange(start, n));
        }
        assert(before.drop_last() =~= first.drop_last());
    }
}

/// A text has at least one token.
proof fn lemma_tokens_some(text: Seq<char>, n: int)
    ensures
        tokens(text, n).len() >= 1,
    decreases n,
{
    if n > 0 {
        lemma_tokens_some(text, n - 1);
    }
}

/// The tokens of two words joined by a space.
proof fn lemma_tokens_pair(text: Seq<char>, first: Seq<char>, second: Seq<char>)
    requires
        text == first + seq![' '] + second,
        no_space(first),
        no_space(second),
    ensures
        tokens(text, text.len() as int) == seq![first, second],
{
    let cut = first.len() as int;
    lemma_tokens_word(text, 0, cut);
    assert(text.subrange(0, cut) =~= first);
    assert(Seq::<char>::empty() + first =~= first);
    assert(tokens(text, cut) =~= seq![first]);
    assert(text[cut] == ' ');
    assert(tokens(text, cut + 1) =~= seq![first, Seq::empty()]);
    lemma_tokens_word(text, cut + 1, text.len() as int);
    assert(text.subrange(cut + 1, text.len() as int) =~= second);
    assert(Seq::<char>::empty() + second =~= second);
    assert(tokens(text, text.len() as int) =~= seq![first, second]);
}

/// The tokens of three words joined by spaces.
proof fn lemma_tokens_triple(
    text: Seq<char>,
    first: Seq<char>,
    second: Seq<char>,
    third: Seq<char>,
)
    requires
        text == first + seq![' '] + second + seq![' '] + third,
        no_space(first),
        no_space(second),
        no_space(third),
    ensures
        tokens(text, text.len() as int) == seq![first, second, third],
{
    let head = first + seq![' '] + second;
    let cut = head.len() as int;
    lemma_tokens_pair(head, first, second);
    lemma_tokens_same(text, head, cut);
    assert(text[cut] == ' ');
    assert(tokens(text, cut + 1) =~= seq![first, second, Seq::empty()]);
    lemma_tokens_word(text, cut + 1, text.len() as int);
    assert(text.subrange(cut + 1, text.len() as int) =~= third);
    assert(Seq::<char>::empty() + third =~= third);
    assert(tokens(text, text.len() as int) =~= seq![first, second, third]);
}

/// The tokens of a prefix do not depend on what follows it.
proof fn lemma_tokens_same(a: Seq<char>, b: Seq<char>, n: int)
    requires
        0 <= n <= a.len(),
        n <= b.len(),
        forall|j: int| 0 <= j < n ==> a[j] == b[j],
    ensures
        tokens(a, n) == tokens(b, n),
    decreases n,
{
    if n > 0 {
        lemma_tokens_same(a, b, n - 1);
    }
}

/// The frame that the client writes for a `set` is read by the server as
/// that `set`, provided that neither key nor value holds a space and the
/// value does not end in a NUL character.
pub proof fn lemma_set_request_read_back(key: Seq<char>, value: Seq<char>)
    requires
        no_space(key),
        no_space(value),
        no_padding(value),
    ensures
        request_of("set "@ + key + " "@ + value) == (RequestView::Store { key, value }),
{
    reveal_strlit("set ");
    reveal_strlit("set");
    reveal_strlit(" ");
    let frame = "set "@ + key + " "@ + value;
    assert(frame =~= "set"@ + seq![' '] + key + seq![' '] + value);
    assert(frame.last() != '\0');
    assert(without_padding(frame) == frame);
    lemma_tokens_triple(frame, "set"@, key, value);
}

/// The frame that the client writes for a `get` is read by the server as
/// that `get`, provided that the key holds no space and does not end in a
/// NUL character.
pub proof fn lemma_get_request_read_back(key: Seq<char>)
    requires
        no_space(key),
        no_padding(key),
    ensures
        request_of("get "@ + key) == (RequestView::Fetch { key }),
{
    reveal_strlit("get ");
    reveal_strlit("get");
    reveal_strlit("set");
    let frame = "get "@ + key;
    assert(frame =~= "get"@ + seq![' '] + key);
    assert(frame.last() != '\0');
    assert(without_padding(frame) == frame);
    lemma_tokens_pair(frame, "get"@, key);
    assert("get"@[0] != "set"@[0]);
}

/// The frame that the client writes for a `rm` is read by the server as
/// that `rm`, provided that the key holds no space and does not end in a
/// NUL character.
pub proof fn lemma_rm_request_read_back(key: Seq<char>)
    requires
        no_space(key),
        no_padding(key),
    ensures
        request_of("rm "@ + key) == (RequestView::Remove { key }),
{
    reveal_strlit("rm ");
    reveal_strlit("rm");
    reveal_strlit("set");
    reveal_strlit("get");
    let frame = "rm "@ + key;
    assert(frame =~= "rm"@ + seq![' '] + key);
    assert(frame.last() != '\0');
    assert(without_padding(frame) == frame);
    lemma_tokens_pair(frame, "rm"@, key);
    assert("rm"@.len() != "set"@.len());
    assert("rm"@.len() != "get"@.len());
}

/// What the client does with the server's reply.
#[derive(Debug)]
pub enum Outcome {
    /// Print the reply and exit with 0.
    Print(String),
    /// Print nothing and exit with 0.
    Quiet,
    /// Print the reply to the error stream and exit with 1.
    Fail(String),
}

/// Decides what the client does with a reply: that of a `get` is printed,
/// that of a `set` is not looked at, and that of a `rm` is a failure
/// unless it is empty.
pub fn outcome(operation: Operation, reply: String) -> (r: Outcome)
    ensures
        match operation {
            Operation::Fetch => r matches Outcome::Print(text) && text@ == reply@,
            Operation::Store => r is Quiet,
            Operation::Remove => if reply@.len() == 0 {
                r is Quiet
            } else {
                r matches Outcome::Fail(text) && text@ == reply@
            },
        },
{
    match operation {
        Operation::Fetch => Outcome::Print(reply),
        Operation::Store => Outcome::Quiet,
        Operation::Remove => {
            if reply.as_str().is_empty() {
                Outcome::Quiet
            } else {
                Outcome::Fail(reply)
            }
        },
    }
}

/// The exit code that goes with an outcome.
pub fn exit_code(r: &Outcome) -> (code: i32)
    ensures
        code == (if r is Fail {
            1i32
        } else {
            0i32
        }),
{
    match r {
        Outcome::Fail(_) => 1,
        _ => 0,
    }
}

} // verus!
