//! The debug console: byte streams cut into command lines, queued replies
//! written out as the socket accepts them, command words split shell-style,
//! commands turned into actions, and the text of the replies.
use crate::grid::IVec2;
use crate::text::{clean_line, decimal, push_decimal, trim_line};
use std::collections::VecDeque;
use vstd::prelude::*;
use vstd::utf8::{decode_utf8, encode_utf8, valid_utf8};

verus! {

/// The text that `String::from_utf8_lossy` makes of `bytes`.
pub uninterp spec fn utf8_lossy(bytes: Seq<u8>) -> Seq<char>;

/// `String::from_utf8_lossy`: std decodes the bytes, putting U+FFFD in place of
/// each invalid sequence; bytes that are valid UTF-8 decode to their characters.
/// Where the bytes are invalid, only the name says what comes out.
#[verifier::external_body]
fn decode_lossy(bytes: &[u8]) -> (r: String)
    ensures
        r@ == utf8_lossy(bytes@),
        valid_utf8(bytes@) ==> r@ == decode_utf8(bytes@),
{
    String::from_utf8_lossy(bytes).into_owned()
}

/// The complete lines of `b` (without their `\n`) and the bytes after the last `\n`.
pub open spec fn split_lines(b: Seq<u8>) -> (Seq<Seq<u8>>, Seq<u8>)
    decreases b.len(),
{
    if b.len() == 0 {
        (Seq::empty(), Seq::empty())
    } else {
        let (lines, rest) = split_lines(b.drop_last());
        if b.last() == 10u8 {
            (lines.push(rest), Seq::empty())
        } else {
            (lines, rest.push(b.last()))
        }
    }
}

/// Bytes without a `\n` form no complete line and stay as they are.
proof fn lemma_split_no_newline(b: Seq<u8>)
    requires
        forall|i: int| 0 <= i < b.len() ==> b[i] != 10u8,
    ensures
        split_lines(b) == (Seq::<Seq<u8>>::empty(), b),
    decreases b.len(),
{
    if b.len() > 0 {
        lemma_split_no_newline(b.drop_last());
        assert(b.drop_last().push(b.last()) =~= b);
    }
}

/// The bytes left after the last `\n` hold no `\n`.
proof fn lemma_rest_has_no_newline(b: Seq<u8>)
    ensures
        forall|i: int| 0 <= i < split_lines(b).1.len() ==> split_lines(b).1[i] != 10u8,
    decreases b.len(),
{
    if b.len() > 0 {
        lemma_rest_has_no_newline(b.drop_last());
        let r = split_lines(b.drop_last()).1;
        if b.last() != 10u8 {
            assert forall|i: int| 0 <= i < r.push(b.last()).len() implies r.push(b.last())[i]
                != 10u8 by {
                if i < r.len() {
                    assert(r.push(b.last())[i] == r[i]);
                }
            }
        }
    }
}

/// Law: cutting lines out of `x`, then out of what is left of `x` followed by
/// `y`, gives the lines of `x + y`, and leaves the same bytes.
pub proof fn lemma_split_lines_append(x: Seq<u8>, y: Seq<u8>)
    ensures
        split_lines(x + y) == (split_lines(x).0 + split_lines(split_lines(x).1 + y).0, split_lines(
            split_lines(x).1 + y,
        ).1),
    decreases y.len(),
{
    if y.len() == 0 {
        assert(x + y =~= x);
        assert(split_lines(x).1 + y =~= split_lines(x).1);
        lemma_rest_has_no_newline(x);
        lemma_split_no_newline(split_lines(x).1);
        assert(split_lines(x).0 + Seq::<Seq<u8>>::empty() =~= split_lines(x).0);
    } else {
        let y0 = y.drop_last();
        let c = y.last();
        lemma_split_lines_append(x, y0);
        let r1 = split_lines(x).1;
        assert((x + y).drop_last() =~= x + y0);
        assert((x + y).last() == c);
        assert((r1 + y).drop_last() =~= r1 + y0);
        assert((r1 + y).last() == c);
        let l1 = split_lines(x).0;
        let l2 = split_lines(r1 + y0).0;
        let r2 = split_lines(r1 + y0).1;
        assert(l1 + l2.push(r2) =~= (l1 + l2).push(r2));
    }
}

/// The command text of one raw line: decoded, without trailing carriage
/// returns and surrounding whitespace.
pub open spec fn line_text(raw: Seq<u8>) -> Seq<char> {
    clean_line(utf8_lossy(raw))
}

/// The command lines in `b`: the text of each complete line, blank ones left out.
pub open spec fn command_lines(b: Seq<u8>) -> Seq<Seq<char>> {
    split_lines(b).0.map_values(|raw: Seq<u8>| line_text(raw)).filter(
        |t: Seq<char>| t.len() > 0,
    )
}

/// Law: the command lines of bytes received in two parts are the lines of the
/// first part followed by the lines of what it left plus the second part; so
/// how the bytes were cut into reads makes no difference to the commands, and
/// a character split across two reads is decoded whole.
pub proof fn lemma_command_lines_append(x: Seq<u8>, y: Seq<u8>)
    ensures
        command_lines(x + y) == command_lines(x) + command_lines(split_lines(x).1 + y),
{
    lemma_split_lines_append(x, y);
    let f = |raw: Seq<u8>| line_text(raw);
    let p = |t: Seq<char>| t.len() > 0;
    let a = split_lines(x).0;
    let b = split_lines(split_lines(x).1 + y).0;
    assert((a + b).map_values(f) =~= a.map_values(f) + b.map_values(f));
    Seq::filter_distributes_over_add(a.map_values(f), b.map_values(f), p);
}

/// Law: after a write of `n` bytes, the bytes sent followed by the bytes still
/// queued are exactly the bytes that were queued; nothing is dropped.
pub proof fn lemma_write_keeps_unsent(queued: Seq<u8>, n: int)
    requires
        0 <= n <= queued.len(),
    ensures
        queued.take(n) + queued.skip(n) == queued,
{
    assert(queued.take(n) + queued.skip(n) =~= queued);
}

/// The bytes that a reply adds to a client's output: the text, then a fresh prompt.
pub open spec fn reply_bytes(text: Seq<char>) -> Seq<u8> {
    encode_utf8(text) + encode_utf8("\n> "@)
}

/// Law: replies delivered one after another to a client leave in the order
/// they were delivered, each followed by its prompt.
pub proof fn lemma_replies_in_order(out: Seq<u8>, first: Seq<char>, second: Seq<char>)
    ensures
        (out + reply_bytes(first)) + reply_bytes(second) == out + (reply_bytes(first)
            + reply_bytes(second)),
{
    assert((out + reply_bytes(first)) + reply_bytes(second) =~= out + (reply_bytes(first)
        + reply_bytes(second)));
}

/// What a read from a client's socket gave.
pub enum ReadOutcome {
    /// Some bytes arrived.
    Data(Vec<u8>),
    /// The peer closed the connection (a read of 0 bytes).
    Closed,
    /// Nothing more to read for now.
    WouldBlock,
    /// The read failed.
    Failed,
}

/// What a write to a client's socket gave.
pub enum WriteOutcome {
    /// This many bytes from the front of the pending output were sent.
    Wrote(usize),
    /// The socket takes nothing more for now.
    WouldBlock,
    /// The write failed.
    Failed,
}

/// One console connection: received bytes not yet cut into lines, output not
/// yet sent, and whether the connection is dead.
pub struct ConsoleClient {
    id: usize,
    in_buf: Vec<u8>,
    out_buf: VecDeque<u8>,
    dead: bool,
}

impl ConsoleClient {
    /// The number the server gave this connection.
    pub closed spec fn client_id(&self) -> usize {
        self.id
    }

    /// The number the server gave this connection.
    pub fn id(&self) -> (r: usize)
        ensures
            r == self.client_id(),
    {
        self.id
    }

    /// Received bytes that do not yet form a complete line.
    pub closed spec fn input(&self) -> Seq<u8> {
        self.in_buf@
    }

    /// Bytes queued for sending.
    pub closed spec fn output(&self) -> Seq<u8> {
        self.out_buf@
    }

    /// The connection is closed or broken.
    pub closed spec fn is_dead(&self) -> bool {
        self.dead
    }

    /// A fresh connection with empty buffers.
    pub fn new(id: usize) -> (r: ConsoleClient)
        ensures
            r.client_id() == id,
            r.input() == Seq::<u8>::empty(),
            r.output() == Seq::<u8>::empty(),
            !r.is_dead(),
    {
        ConsoleClient { id, in_buf: Vec::new(), out_buf: VecDeque::new(), dead: false }
    }

    /// Whether the connection is closed or broken.
    pub fn dead(&self) -> (r: bool)
        ensures
            r == self.is_dead(),
    {
        self.dead
    }

    /// Takes in the outcome of one read; returns whether to read again. Bytes are
    /// kept; a closed or failed connection is dead.
    pub fn after_read(&mut self, outcome: ReadOutcome) -> (again: bool)
        ensures
            final(self).client_id() == old(self).client_id(),
            final(self).output() == old(self).output(),
            match outcome {
                ReadOutcome::Data(bytes) => {
                    &&& again
                    &&& final(self).input() == old(self).input() + bytes@
                    &&& final(self).is_dead() == old(self).is_dead()
                },
                ReadOutcome::Closed | ReadOutcome::Failed => {
                    &&& !again
                    &&& final(self).input() == old(self).input()
                    &&& final(self).is_dead()
                },
                ReadOutcome::WouldBlock => {
                    &&& !again
                    &&& final(self).input() == old(self).input()
                    &&& final(self).is_dead() == old(self).is_dead()
                },
            },
    {
        match outcome {
            ReadOutcome::Data(bytes) => {
                let mut i: usize = 0;
                while i < bytes.len()
                    invariant
                        0 <= i <= bytes@.len(),
                        self.in_buf@ == old(self).in_buf@ + bytes@.take(i as int),
                        self.out_buf@ == old(self).out_buf@,
                        self.id == old(self).id,
                        self.dead == old(self).dead,
                    decreases bytes@.len() - i,
                {
                    self.in_buf.push(bytes[i]);
                    i = i + 1;
                    assert(self.in_buf@ =~= old(self).in_buf@ + bytes@.take(i as int));
                }
                assert(bytes@.take(bytes@.len() as int) =~= bytes@);
                true
            },
            ReadOutcome::Closed | ReadOutcome::Failed => {
                self.dead = true;
                false
            },
            ReadOutcome::WouldBlock => false,
        }
    }

    /// Cuts the received bytes into lines: returns the command text of each
    /// complete non-blank line, in order, and keeps the bytes after the last `\n`.
    pub fn read_lines(&mut self) -> (lines: Vec<String>)
        ensures
            lines@.map_values(|s: String| s@) == command_lines(old(self).input()),
            forall|j: int|
                0 <= j < split_lines(old(self).input()).0.len() && valid_utf8(
                    #[trigger] split_lines(old(self).input()).0[j],
                ) ==> line_text(split_lines(old(self).input()).0[j]) == clean_line(
                    decode_utf8(split_lines(old(self).input()).0[j]),
                ),
            final(self).input() == split_lines(old(self).input()).1,
            final(self).output() == old(self).output(),
            final(self).is_dead() == old(self).is_dead(),
            final(self).client_id() == old(self).client_id(),
    {
        let mut lines: Vec<String> = Vec::new();
        let mut cur: Vec<u8> = Vec::new();
        let ghost b = self.in_buf@;
        let ghost nonblank = |t: Seq<char>| t.len() > 0;
        let ghost text = |raw: Seq<u8>| line_text(raw);
        let mut i: usize = 0;
        while i < self.in_buf.len()
            invariant
                0 <= i <= b.len(),
                self.in_buf@ == b,
                b == old(self).in_buf@,
                self.out_buf@ == old(self).out_buf@,
                self.dead == old(self).dead,
                self.id == old(self).id,
                nonblank == (|t: Seq<char>| t.len() > 0),
                text == (|raw: Seq<u8>| line_text(raw)),
                cur@ == split_lines(b.take(i as int)).1,
                lines@.map_values(|s: String| s@) == split_lines(b.take(i as int)).0.map_values(
                    text,
                ).filter(nonblank),
                forall|j: int|
                    0 <= j < split_lines(b.take(i as int)).0.len() && valid_utf8(
                        #[trigger] split_lines(b.take(i as int)).0[j],
                    ) ==> utf8_lossy(split_lines(b.take(i as int)).0[j]) == decode_utf8(
                        split_lines(b.take(i as int)).0[j],
                    ),
            decreases b.len() - i,
        {
            let c = self.in_buf[i];
            let ghost t0 = b.take(i as int);
            let ghost t1 = b.take(i + 1);
            proof {
                assert(t1.drop_last() =~= t0);
                assert(t1.last() == c);
            }
            if c == 10u8 {
                let decoded = decode_lossy(cur.as_slice());
                let line = trim_line(decoded.as_str());
                let ghost before = lines@.map_values(|s: String| s@);
                if line.unicode_len() > 0 {
                    lines.push(line);
                    assert(lines@.map_values(|s: String| s@) =~= before.push(text(cur@)));
                }
                proof {
                    let ls = split_lines(t0).0;
                    assert(split_lines(t1).0 == ls.push(cur@));
                    assert forall|j: int|
                        0 <= j < split_lines(t1).0.len() && valid_utf8(
                            #[trigger] split_lines(t1).0[j],
                        ) implies utf8_lossy(split_lines(t1).0[j]) == decode_utf8(
                        split_lines(t1).0[j],
                    ) by {
                        if j < ls.len() {
                            assert(split_lines(t1).0[j] == ls[j]);
                        }
                    }
                    assert(ls.push(cur@).map_values(text) =~= ls.map_values(text).push(text(cur@)));
                    reveal_with_fuel(Seq::<_>::filter, 1);
                    assert(ls.map_values(text).push(text(cur@)).drop_last() =~= ls.map_values(
                        text,
                    ));
                }
                cur = Vec::new();
            } else {
                cur.push(c);
                proof {
                    assert(split_lines(t1).0 == split_lines(t0).0);
                }
            }
            i = i + 1;
        }
        proof {
            assert(b.take(b.len() as int) =~= b);
        }
        self.in_buf = cur;
        lines
    }

    /// Queues `text` for sending, after what is already queued.
    pub fn queue_write(&mut self, text: &str)
        ensures
            final(self).output() == old(self).output() + encode_utf8(text@),
            final(self).input() == old(self).input(),
            final(self).is_dead() == old(self).is_dead(),
            final(self).client_id() == old(self).client_id(),
    {
        let bytes = text.as_bytes();
        let mut i: usize = 0;
        while i < bytes.len()
            invariant
                0 <= i <= bytes@.len(),
                bytes@ == encode_utf8(text@),
                self.out_buf@ == old(self).out_buf@ + bytes@.take(i as int),
                self.in_buf@ == old(self).in_buf@,
                self.id == old(self).id,
                self.dead == old(self).dead,
            decreases bytes@.len() - i,
        {
            self.out_buf.push_back(bytes[i]);
            i = i + 1;
            assert(self.out_buf@ =~= old(self).out_buf@ + bytes@.take(i as int));
        }
        assert(bytes@.take(bytes@.len() as int) =~= bytes@);
    }

    /// Whether output is waiting to be sent.
    pub fn wants_write(&self) -> (r: bool)
        ensures
            r == (self.output().len() > 0),
    {
        self.out_buf.len() > 0
    }

    /// The bytes waiting to be sent, in order.
    pub fn pending(&self) -> (r: Vec<u8>)
        ensures
            r@ == self.output(),
    {
        let mut r: Vec<u8> = Vec::new();
        let mut i: usize = 0;
        while i < self.out_buf.len()
            invariant
                0 <= i <= self.out_buf@.len(),
                r@ == self.out_buf@.take(i as int),
            decreases self.out_buf@.len() - i,
        {
            r.push(self.out_buf[i]);
            i = i + 1;
            assert(r@ =~= self.out_buf@.take(i as int));
        }
        assert(self.out_buf@.take(self.out_buf@.len() as int) =~= self.out_buf@);
        r
    }

    /// Takes in the outcome of one write; returns whether to write again. Sent
    /// bytes leave the queue; a write of nothing, or a failed one, kills the
    /// connection; what the socket could not take stays queued.
    pub fn after_write(&mut self, outcome: WriteOutcome) -> (again: bool)
        requires
            outcome matches WriteOutcome::Wrote(n) ==> n <= old(self).output().len(),
        ensures
            final(self).client_id() == old(self).client_id(),
            final(self).input() == old(self).input(),
            match outcome {
                WriteOutcome::Wrote(n) => if n == 0 {
                    &&& !again
                    &&& final(self).is_dead()
                    &&& final(self).output() == old(self).output()
                } else {
                    &&& again == (final(self).output().len() > 0)
                    &&& final(self).is_dead() == old(self).is_dead()
                    &&& final(self).output() == old(self).output().skip(n as int)
                },
                WriteOutcome::WouldBlock => {
                    &&& !again
                    &&& final(self).is_dead() == old(self).is_dead()
                    &&& final(self).output() == old(self).output()
                },
                WriteOutcome::Failed => {
                    &&& !again
                    &&& final(self).is_dead()
                    &&& final(self).output() == old(self).output()
                },
            },
    {
        match outcome {
            WriteOutcome::Wrote(n) => {
                if n == 0 {
                    self.dead = true;
                    false
                } else {
                    let rest = self.out_buf.split_off(n);
                    self.out_buf = rest;
                    assert(self.out_buf@ =~= old(self).out_buf@.skip(n as int));
                    self.out_buf.len() > 0
                }
            },
            WriteOutcome::WouldBlock => false,
            WriteOutcome::Failed => {
                self.dead = true;
                false
            },
        }
    }
}


/// The words that `shlex::split` makes of `line`, or nothing where it reports an error.
pub uninterp spec fn shell_words(line: Seq<char>) -> Option<Seq<Seq<char>>>;

/// `shlex::split`: shlex splits the line into words the way a POSIX shell
/// does, and gives nothing where the line is erroneous (an unclosed quote).
/// The words themselves are only named here.
#[verifier::external_body]
fn shlex_split(line: &str) -> (r: Option<Vec<String>>)
    ensures
        match r {
            None => shell_words(line@) is None,
            Some(v) => shell_words(line@) == Some(v@.map_values(|w: String| w@)),
        },
{
    shlex::split(line)
}

/// The reply to a line whose quotes do not balance.
pub open spec fn unbalanced_quotes_reply() -> Seq<char> {
    "error: unbalanced quotes"@
}

/// Takes the shell words of a command line; where there are none, the reply
/// that says the quotes do not balance.
pub fn words_or_reply(words: Option<Vec<String>>) -> (r: Result<Vec<String>, String>)
    ensures
        match words {
            Some(v) => r matches Ok(w) && w@ == v@,
            None => r matches Err(t) && t@ == unbalanced_quotes_reply(),
        },
{
    match words {
        Some(v) => Ok(v),
        None => Err(String::from_str("error: unbalanced quotes")),
    }
}

/// Splits a command line into words the way a POSIX shell does; where the line
/// is erroneous, the reply to send instead.
pub fn split_command(line: &str) -> (r: Result<Vec<String>, String>)
    ensures
        match shell_words(line@) {
            Some(ws) => r matches Ok(w) && w@.map_values(|s: String| s@) == ws,
            None => r matches Err(t) && t@ == unbalanced_quotes_reply(),
        },
{
    words_or_reply(shlex_split(line))
}

/// `msg` without its trailing whitespace: the reply to a command that did not parse.
pub fn parse_error_reply(msg: &str) -> (r: String)
    ensures
        r@ == crate::text::trim_end_ws(msg@),
{
    let mut end: usize = msg.unicode_len();
    assert(msg@.take(end as int) =~= msg@);
    while end > 0 && crate::text::is_whitespace(msg.get_char(end - 1))
        invariant
            end <= msg@.len(),
            crate::text::trim_end_ws(msg@) == crate::text::trim_end_ws(msg@.take(end as int)),
        decreases end,
    {
        assert(msg@.take(end - 1) =~= msg@.take(end as int).drop_last());
        end = end - 1;
    }
    assert(msg@.subrange(0, end as int) =~= msg@.take(end as int));
    String::from_str(msg.substring_char(0, end))
}

/// A console command, as parsed from its words.
pub enum ConsoleCommand {
    /// Spawn a prototype, optionally at a position.
    Spawn { id: String, x: Option<i32>, y: Option<i32> },
    /// List all entities currently in the world.
    Entities,
    /// Show info about one entity, by the number printed for it.
    Entity { id: u64 },
    /// Clear the terminal screen.
    Clear,
}

/// What the server does for a console command.
pub enum ConsoleAction {
    /// Send this text back.
    Reply(String),
    /// Spawn the prototype with this id, at the position if one is given.
    Spawn { id: String, pos: Option<IVec2> },
    /// Reply with the list of entities.
    ListEntities,
    /// Reply with the details of the entity with these bits.
    EntityInfo(u64),
}

/// The escape sequence that clears a terminal and homes its cursor.
pub open spec fn clear_screen_reply() -> Seq<char> {
    "\x1B[2J\x1B[H"@
}

/// The reply to a spawn with only one coordinate.
pub open spec fn half_position_reply() -> Seq<char> {
    "error: x and y must be given together"@
}

/// Turns a parsed command into what the server does. A spawn takes a position
/// only when both coordinates are given; with one alone it is refused.
pub fn command_action(cmd: ConsoleCommand) -> (r: ConsoleAction)
    ensures
        match cmd {
            ConsoleCommand::Clear => r matches ConsoleAction::Reply(t) && t@ == clear_screen_reply(),
            ConsoleCommand::Entities => r is ListEntities,
            ConsoleCommand::Entity { id } => r == ConsoleAction::EntityInfo(id),
            ConsoleCommand::Spawn { id, x, y } => match (x, y) {
                (Some(a), Some(b)) => r matches ConsoleAction::Spawn { id: i, pos }
                    && i@ == id@ && pos == Some(IVec2 { x: a, y: b }),
                (None, None) => r matches ConsoleAction::Spawn { id: i, pos } && i@ == id@
                    && pos is None,
                _ => r matches ConsoleAction::Reply(t) && t@ == half_position_reply(),
            },
        },
{
    match cmd {
        ConsoleCommand::Clear => ConsoleAction::Reply(String::from_str("\x1B[2J\x1B[H")),
        ConsoleCommand::Spawn { id, x, y } => {
            match (x, y) {
                (Some(a), Some(b)) => ConsoleAction::Spawn { id, pos: Some(IVec2 { x: a, y: b }) },
                (None, None) => ConsoleAction::Spawn { id, pos: None },
                _ => ConsoleAction::Reply(String::from_str("error: x and y must be given together")),
            }
        },
        ConsoleCommand::Entities => ConsoleAction::ListEntities,
        ConsoleCommand::Entity { id } => ConsoleAction::EntityInfo(id),
    }
}

/// The reply to a spawn: the new entity's debug text and bits, or that the
/// prototype is unknown.
pub open spec fn spec_spawn_reply(id: Seq<char>, spawned: Option<(Seq<char>, u64)>) -> Seq<char> {
    match spawned {
        Some((dbg, bits)) => "spawned "@ + id + " -> "@ + dbg + " (id="@ + decimal(bits as nat)
            + ")"@,
        None => "error: unknown prototype '"@ + id + "'"@,
    }
}

/// Builds the reply to a spawn of prototype `id`.
pub fn spawn_reply(id: &str, spawned: Option<(&str, u64)>) -> (r: String)
    ensures
        r@ == spec_spawn_reply(
            id@,
            match spawned {
                Some((d, b)) => Some((d@, b)),
                None => None,
            },
        ),
{
    match spawned {
        Some((dbg, bits)) => {
            let mut s = String::from_str("spawned ");
            s.append(id);
            s.append(" -> ");
            s.append(dbg);
            s.append(" (id=");
            push_decimal(&mut s, bits);
            s.append(")");
            s
        },
        None => {
            let mut s = String::from_str("error: unknown prototype '");
            s.append(id);
            s.append("'");
            s
        },
    }
}

/// What a reply owed to a console client is made of.
#[derive(Debug)]
pub enum QueryKind {
    /// This text, already known.
    Immediate(String),
    /// The list of entities, read from the world when the reply is written.
    ListEntities,
    /// The details of the entity with these bits, read from the world likewise.
    EntityInfo(u64),
}

/// One reply owed to the console client numbered `client`.
#[derive(Debug)]
pub struct ConsoleQuery {
    pub client: usize,
    pub kind: QueryKind,
}

/// The contents of a `QueryKind`, as text.
pub enum QueryKindView {
    Immediate(Seq<char>),
    ListEntities,
    EntityInfo(u64),
}

/// The contents of a `ConsoleQuery`.
pub struct QueryView {
    pub client: usize,
    pub kind: QueryKindView,
}

/// The contents of a `ConsoleQuery`, as text.
pub open spec fn query_view(q: ConsoleQuery) -> QueryView {
    QueryView {
        client: q.client,
        kind: match q.kind {
            QueryKind::Immediate(t) => QueryKindView::Immediate(t@),
            QueryKind::ListEntities => QueryKindView::ListEntities,
            QueryKind::EntityInfo(b) => QueryKindView::EntityInfo(b),
        },
    }
}

/// A reply of known text to client `client`.
pub open spec fn immediate(client: usize, text: Seq<char>) -> QueryView {
    QueryView { client, kind: QueryKindView::Immediate(text) }
}

/// What handling a parsed command comes to: one reply, or a spawn whose
/// outcome makes the reply.
pub enum CommandStep {
    Reply(ConsoleQuery),
    Spawn { id: String, pos: Option<IVec2> },
}

/// The contents of a `CommandStep`.
pub enum StepView {
    Reply(QueryView),
    Spawn(Seq<char>, Option<IVec2>),
}

/// The contents of a `CommandStep`, as text.
pub open spec fn step_view(s: CommandStep) -> StepView {
    match s {
        CommandStep::Reply(q) => StepView::Reply(query_view(q)),
        CommandStep::Spawn { id, pos } => StepView::Spawn(id@, pos),
    }
}

/// The step for client `client_id` of a command line whose words parsed to
/// `parsed`: a parse error is answered with its message, trailing whitespace
/// dropped; a command with what `command_action` decides.
pub open spec fn spec_command_step(
    client_id: usize,
    parsed: Result<ConsoleCommand, String>,
) -> StepView {
    match parsed {
        Err(msg) => StepView::Reply(immediate(client_id, crate::text::trim_end_ws(msg@))),
        Ok(cmd) => match cmd {
            ConsoleCommand::Clear => StepView::Reply(immediate(client_id, clear_screen_reply())),
            ConsoleCommand::Entities => StepView::Reply(
                QueryView { client: client_id, kind: QueryKindView::ListEntities },
            ),
            ConsoleCommand::Entity { id } => StepView::Reply(
                QueryView { client: client_id, kind: QueryKindView::EntityInfo(id) },
            ),
            ConsoleCommand::Spawn { id, x, y } => match (x, y) {
                (Some(a), Some(b)) => StepView::Spawn(id@, Some(IVec2 { x: a, y: b })),
                (None, None) => StepView::Spawn(id@, None),
                _ => StepView::Reply(immediate(client_id, half_position_reply())),
            },
        },
    }
}

/// The reply to client `client_id` after a spawn of prototype `id`.
pub open spec fn spec_spawn_query(
    client_id: usize,
    id: Seq<char>,
    spawned: Option<(Seq<char>, u64)>,
) -> QueryView {
    immediate(client_id, spec_spawn_reply(id, spawned))
}

/// Splits a command line of client `client_id` into its words; where the
/// quotes do not balance, the reply to send instead.
pub fn command_words(client_id: usize, line: &str) -> (r: Result<Vec<String>, ConsoleQuery>)
    ensures
        match shell_words(line@) {
            Some(ws) => r matches Ok(w) && w@.map_values(|s: String| s@) == ws,
            None => r matches Err(q) && query_view(q) == immediate(
                client_id,
                unbalanced_quotes_reply(),
            ),
        },
{
    match split_command(line) {
        Ok(w) => Ok(w),
        Err(t) => Err(ConsoleQuery { client: client_id, kind: QueryKind::Immediate(t) }),
    }
}

/// Handles the parse of a command line of client `client_id`.
pub fn command_step(client_id: usize, parsed: Result<ConsoleCommand, String>) -> (r: CommandStep)
    ensures
        step_view(r) == spec_command_step(client_id, parsed),
{
    match parsed {
        Err(msg) => CommandStep::Reply(
            ConsoleQuery { client: client_id, kind: QueryKind::Immediate(parse_error_reply(&msg)) },
        ),
        Ok(cmd) => {
            let ghost c = cmd;
            match command_action(cmd) {
                ConsoleAction::Reply(t) => CommandStep::Reply(
                    ConsoleQuery { client: client_id, kind: QueryKind::Immediate(t) },
                ),
                ConsoleAction::Spawn { id, pos } => CommandStep::Spawn { id, pos },
                ConsoleAction::ListEntities => CommandStep::Reply(
                    ConsoleQuery { client: client_id, kind: QueryKind::ListEntities },
                ),
                ConsoleAction::EntityInfo(b) => CommandStep::Reply(
                    ConsoleQuery { client: client_id, kind: QueryKind::EntityInfo(b) },
                ),
            }
        },
    }
}

/// The reply to client `client_id` once the spawn of prototype `id` is done:
/// `spawned` is the new entity's debug text and bits, or nothing where the
/// prototype is unknown.
pub fn spawn_step(client_id: usize, id: &str, spawned: Option<(&str, u64)>) -> (q: ConsoleQuery)
    ensures
        query_view(q) == spec_spawn_query(
            client_id,
            id@,
            match spawned {
                Some((d, b)) => Some((d@, b)),
                None => None,
            },
        ),
{
    ConsoleQuery { client: client_id, kind: QueryKind::Immediate(spawn_reply(id, spawned)) }
}

/// The replies owed for one command line of client `client_id`: `parsed` is
/// what its words parsed to and `spawned` what a spawn it asks for gave.
pub open spec fn spec_line_replies(
    client_id: usize,
    line: Seq<char>,
    parsed: Result<ConsoleCommand, String>,
    spawned: Option<(Seq<char>, u64)>,
) -> Seq<QueryView> {
    match shell_words(line) {
        None => seq![immediate(client_id, unbalanced_quotes_reply())],
        Some(_) => match spec_command_step(client_id, parsed) {
            StepView::Reply(q) => seq![q],
            StepView::Spawn(id, _) => seq![spec_spawn_query(client_id, id, spawned)],
        },
    }
}

/// Law: every command line, well-formed or not, is owed exactly one reply,
/// addressed to the client that sent it; the only other effect is one spawn,
/// asked for exactly by a spawn command whose coordinates are both given or
/// both left out.
pub proof fn lemma_one_reply_per_command(
    client_id: usize,
    line: Seq<char>,
    parsed: Result<ConsoleCommand, String>,
    spawned: Option<(Seq<char>, u64)>,
)
    ensures
        spec_line_replies(client_id, line, parsed, spawned).len() == 1,
        spec_line_replies(client_id, line, parsed, spawned)[0].client == client_id,
        spec_command_step(client_id, parsed) is Spawn <==> (parsed matches Ok(
            ConsoleCommand::Spawn { x, y, .. },
        ) && (x is Some <==> y is Some)),
{
}

/// One entity in the entity list.
pub struct EntityRow {
    /// The entity's `Name`, if it has one.
    pub name: Option<String>,
    /// The entity's bits, as printed.
    pub bits: u64,
    /// The entity's debug text.
    pub debug: String,
}

/// The line of one entity in the entity list.
pub open spec fn spec_entity_row(name: Option<String>, bits: u64, debug: Seq<char>) -> Seq<char> {
    " "@ + (match name {
        Some(n) => n@,
        None => "<unnamed>"@,
    }) + " | id="@ + decimal(bits as nat) + " | "@ + debug + "\n"@
}

/// The lines of the first `n` rows.
pub open spec fn spec_entity_rows(rows: Seq<EntityRow>, n: int) -> Seq<char>
    decreases n,
{
    if n <= 0 {
        Seq::empty()
    } else {
        spec_entity_rows(rows, n - 1) + spec_entity_row(
            rows[n - 1].name,
            rows[n - 1].bits,
            rows[n - 1].debug@,
        )
    }
}

/// The reply to `entities`: a header with the count, then one line per entity.
pub open spec fn spec_entity_list(rows: Seq<EntityRow>) -> Seq<char> {
    "=== Entities ("@ + decimal(rows.len()) + ") ===\n"@ + spec_entity_rows(rows, rows.len() as int)
}

/// Builds the reply to `entities`.
#[verifier::spinoff_prover]
pub fn entity_list_report(rows: &Vec<EntityRow>) -> (r: String)
    ensures
        r@ == spec_entity_list(rows@),
{
    let mut out = String::from_str("=== Entities (");
    push_decimal(&mut out, rows.len() as u64);
    out.append(") ===\n");
    let ghost head = out@;
    let mut i: usize = 0;
    while i < rows.len()
        invariant
            0 <= i <= rows@.len(),
            head == "=== Entities ("@ + decimal(rows@.len()) + ") ===\n"@,
            out@ == head + spec_entity_rows(rows@, i as int),
        decreases rows@.len() - i,
    {
        let row = &rows[i];
        out.append(" ");
        match &row.name {
            Some(n) => out.append(n.as_str()),
            None => out.append("<unnamed>"),
        }
        out.append(" | id=");
        push_decimal(&mut out, row.bits);
        out.append(" | ");
        out.append(row.debug.as_str());
        out.append("\n");
        i = i + 1;
        assert(out@ =~= head + spec_entity_rows(rows@, i as int));
    }
    out
}

/// What the details of one component say.
pub enum ComponentRow {
    /// The component's value, pretty-printed through reflection.
    Reflected(String),
    /// Only the component's type name: its value cannot be reflected.
    Opaque(String),
}

/// The line of one component in an entity's details.
pub open spec fn spec_component_row(c: ComponentRow) -> Seq<char> {
    match c {
        ComponentRow::Reflected(v) => "  "@ + v@ + "\n"@,
        ComponentRow::Opaque(n) => "  "@ + n@ + " (not reflected)\n"@,
    }
}

/// The lines of the first `n` components.
pub open spec fn spec_component_rows(rows: Seq<ComponentRow>, n: int) -> Seq<char>
    decreases n,
{
    if n <= 0 {
        Seq::empty()
    } else {
        spec_component_rows(rows, n - 1) + spec_component_row(rows[n - 1])
    }
}

/// The reply to `entity`: a header, the name, then one line per component.
pub open spec fn spec_entity_info(
    debug: Seq<char>,
    bits: u64,
    name: Option<String>,
    comps: Seq<ComponentRow>,
) -> Seq<char> {
    "=== Entity "@ + debug + " (id="@ + decimal(bits as nat) + ") ===\n"@ + "  name: "@ + (
    match name {
        Some(n) => n@,
        None => "<unnamed>"@,
    }) + "\n"@ + spec_component_rows(comps, comps.len() as int)
}

/// Law: the details of an entity begin with a header naming its debug text
/// and bits, then the line `  name: ` followed by the entity's name, or by
/// `<unnamed>` only for an entity without one.
pub proof fn lemma_entity_info_names(
    debug: Seq<char>,
    bits: u64,
    name: Option<String>,
    comps: Seq<ComponentRow>,
)
    ensures
        ({
            let head = "=== Entity "@ + debug + " (id="@ + decimal(bits as nat) + ") ===\n"@;
            let text = spec_entity_info(debug, bits, name, comps);
            &&& name matches Some(n) ==> (head + "  name: "@ + n@ + "\n"@).is_prefix_of(text)
            &&& name is None ==> (head + "  name: "@ + "<unnamed>"@ + "\n"@).is_prefix_of(text)
        }),
{
    let head = "=== Entity "@ + debug + " (id="@ + decimal(bits as nat) + ") ===\n"@;
    let text = spec_entity_info(debug, bits, name, comps);
    let shown = match name {
        Some(n) => n@,
        None => "<unnamed>"@,
    };
    let pre = head + "  name: "@ + shown + "\n"@;
    assert(text =~= pre + spec_component_rows(comps, comps.len() as int));
    assert(pre.is_prefix_of(text)) by {
        assert(text.subrange(0, pre.len() as int) =~= pre);
    }
}

/// Law: the line of an entity in the entity list begins with a space and the
/// entity's name, or `<unnamed>` only for an entity without one, followed by
/// ` | id=` and its bits in decimal.
pub proof fn lemma_entity_row_names(name: Option<String>, bits: u64, debug: Seq<char>)
    ensures
        ({
            let line = spec_entity_row(name, bits, debug);
            &&& name matches Some(n) ==> (" "@ + n@ + " | id="@ + decimal(bits as nat)).is_prefix_of(
                line,
            )
            &&& name is None ==> (" "@ + "<unnamed>"@ + " | id="@ + decimal(bits as nat)).is_prefix_of(
                line,
            )
        }),
{
    let shown = match name {
        Some(n) => n@,
        None => "<unnamed>"@,
    };
    let pre = " "@ + shown + " | id="@ + decimal(bits as nat);
    let line = spec_entity_row(name, bits, debug);
    assert(line =~= pre + " | "@ + debug + "\n"@);
    assert(line.subrange(0, pre.len() as int) =~= pre);
}

/// Builds the reply to `entity` for an entity that exists.
pub fn entity_info_report(
    debug: &str,
    bits: u64,
    name: &Option<String>,
    comps: &Vec<ComponentRow>,
) -> (r: String)
    ensures
        r@ == spec_entity_info(debug@, bits, *name, comps@),
{
    let mut out = String::from_str("=== Entity ");
    out.append(debug);
    out.append(" (id=");
    push_decimal(&mut out, bits);
    out.append(") ===\n");
    out.append("  name: ");
    match name {
        Some(n) => out.append(n.as_str()),
        None => out.append("<unnamed>"),
    }
    out.append("\n");
    let ghost head = out@;
    let mut i: usize = 0;
    while i < comps.len()
        invariant
            0 <= i <= comps@.len(),
            out@ == head + spec_component_rows(comps@, i as int),
        decreases comps@.len() - i,
    {
        match &comps[i] {
            ComponentRow::Reflected(v) => {
                out.append("  ");
                out.append(v.as_str());
                out.append("\n");
            },
            ComponentRow::Opaque(n) => {
                out.append("  ");
                out.append(n.as_str());
                out.append(" (not reflected)\n");
            },
        }
        i = i + 1;
        assert(out@ =~= head + spec_component_rows(comps@, i as int));
    }
    out
}

/// The reply to `entity` for bits that name no entity.
pub fn no_such_entity_reply(bits: u64) -> (r: String)
    ensures
        r@ == "error: no such entity (id="@ + decimal(bits as nat) + ")"@,
{
    let mut out = String::from_str("error: no such entity (id=");
    push_decimal(&mut out, bits);
    out.append(")");
    out
}


/// The open console connections, in the order they connected, and the number
/// the next one gets.
pub struct ConsoleRoster {
    pub clients: Vec<ConsoleClient>,
    pub next_client_id: usize,
}

/// Holds for a connection that is still alive.
pub open spec fn alive() -> spec_fn(ConsoleClient) -> bool {
    |c: ConsoleClient| !c.is_dead()
}

/// The connections' numbers are distinct, and each is below `next`.
pub open spec fn ids_fresh(clients: Seq<ConsoleClient>, next: usize) -> bool {
    &&& forall|i: int| 0 <= i < clients.len() ==> #[trigger] clients[i].client_id() < next
    &&& forall|i: int, j: int|
        0 <= i < j < clients.len() ==> #[trigger] clients[i].client_id() != #[trigger] clients[j].client_id()
}

/// `b` is `a` after one connection was accepted: it got the next number and
/// joined the end of the list with an empty input, a queued prompt, alive.
pub open spec fn is_accept_step(a: ConsoleRoster, b: ConsoleRoster) -> bool {
    &&& a.next_client_id < usize::MAX
    &&& b.next_client_id == a.next_client_id + 1
    &&& b.clients@.len() == a.clients@.len() + 1
    &&& b.clients@.drop_last() == a.clients@
    &&& b.clients@.last().client_id() == a.next_client_id
    &&& b.clients@.last().output() == encode_utf8("> "@)
    &&& b.clients@.last().input() == Seq::<u8>::empty()
    &&& !b.clients@.last().is_dead()
}

/// Law: connections accepted one after another get consecutive numbers from
/// the counter, join the end of the list in the order they were accepted, each
/// with only the prompt queued; the connections already there stay as they
/// were, and the numbers stay distinct and below the counter.
pub proof fn lemma_accepts_in_order(rs: Seq<ConsoleRoster>)
    requires
        rs.len() >= 1,
        forall|i: int| 0 <= i < rs.len() - 1 ==> is_accept_step(#[trigger] rs[i], rs[i + 1]),
    ensures
        ({
            let k = rs.len() - 1;
            let first = rs[0];
            let last = rs[rs.len() - 1];
            let l = first.clients@.len();
            &&& last.next_client_id == first.next_client_id + k
            &&& last.clients@.len() == l + k
            &&& last.clients@.take(l as int) == first.clients@
            &&& forall|i: int|
                0 <= i < k ==> {
                    let c = #[trigger] last.clients@[l + i];
                    &&& c.client_id() == first.next_client_id + i
                    &&& c.output() == encode_utf8("> "@)
                    &&& c.input() == Seq::<u8>::empty()
                    &&& !c.is_dead()
                }
            &&& ids_fresh(first.clients@, first.next_client_id) ==> ids_fresh(
                last.clients@,
                last.next_client_id,
            )
        }),
    decreases rs.len(),
{
    if rs.len() > 1 {
        let prev = rs.drop_last();
        assert forall|i: int| 0 <= i < prev.len() - 1 implies is_accept_step(
            #[trigger] prev[i],
            prev[i + 1],
        ) by {
            assert(prev[i] == rs[i] && prev[i + 1] == rs[i + 1]);
        }
        lemma_accepts_in_order(prev);
        let first = rs[0];
        let mid = rs[rs.len() - 2];
        let last = rs[rs.len() - 1];
        let l = first.clients@.len();
        let k = rs.len() - 1;
        assert(is_accept_step(rs[rs.len() - 2], rs[rs.len() - 1]));
        assert(prev[0] == first && prev[prev.len() - 1] == mid);
        assert(last.clients@.take(l as int) =~= mid.clients@.take(l as int)) by {
            assert forall|i: int| 0 <= i < l implies last.clients@[i] == mid.clients@[i] by {
                assert(last.clients@.drop_last()[i] == last.clients@[i]);
            }
        }
        assert forall|i: int| 0 <= i < k implies {
            let c = #[trigger] last.clients@[l + i];
            &&& c.client_id() == first.next_client_id + i
            &&& c.output() == encode_utf8("> "@)
            &&& c.input() == Seq::<u8>::empty()
            &&& !c.is_dead()
        } by {
            if i < k - 1 {
                assert(last.clients@.drop_last()[l + i] == last.clients@[l + i]);
                assert(mid.clients@[l + i] == last.clients@[l + i]);
            }
        }
        if ids_fresh(first.clients@, first.next_client_id) {
            assert(ids_fresh(mid.clients@, mid.next_client_id));
            assert forall|i: int, j: int|
                0 <= i < j < last.clients@.len() implies #[trigger] last.clients@[i].client_id()
                != #[trigger] last.clients@[j].client_id() by {
                assert(last.clients@.drop_last()[i] == last.clients@[i]);
                if j < last.clients@.len() - 1 {
                    assert(last.clients@.drop_last()[j] == last.clients@[j]);
                    assert(mid.clients@[i].client_id() != mid.clients@[j].client_id());
                } else {
                    assert(mid.clients@[i].client_id() < mid.next_client_id);
                }
            }
            assert forall|i: int| 0 <= i < last.clients@.len() implies #[trigger] last.clients@[i].client_id()
                < last.next_client_id by {
                if i < last.clients@.len() - 1 {
                    assert(last.clients@.drop_last()[i] == last.clients@[i]);
                    assert(mid.clients@[i].client_id() < mid.next_client_id);
                }
            }
        }
    }
}

impl ConsoleRoster {
    /// No connections; the first one gets number 0.
    pub fn new() -> (r: ConsoleRoster)
        ensures
            r.clients@ == Seq::<ConsoleClient>::empty(),
            r.next_client_id == 0,
            ids_fresh(r.clients@, r.next_client_id),
    {
        ConsoleRoster { clients: Vec::new(), next_client_id: 0 }
    }

    /// A connection arrives: it gets the next number, its prompt is queued,
    /// and it joins the end of the list. Returns its number.
    pub fn accept(&mut self) -> (id: usize)
        requires
            old(self).next_client_id < usize::MAX,
        ensures
            id == old(self).next_client_id,
            final(self).next_client_id == id + 1,
            final(self).clients@.len() == old(self).clients@.len() + 1,
            final(self).clients@.drop_last() == old(self).clients@,
            final(self).clients@.last().client_id() == id,
            final(self).clients@.last().output() == encode_utf8("> "@),
            final(self).clients@.last().input() == Seq::<u8>::empty(),
            !final(self).clients@.last().is_dead(),
            is_accept_step(*old(self), *final(self)),
            ids_fresh(old(self).clients@, old(self).next_client_id) ==> ids_fresh(
                final(self).clients@,
                final(self).next_client_id,
            ),
    {
        let id = self.next_client_id;
        self.next_client_id = self.next_client_id + 1;
        let mut client = ConsoleClient::new(id);
        client.queue_write("> ");
        self.clients.push(client);
        assert(self.clients@.drop_last() =~= old(self).clients@);
        proof {
            if ids_fresh(old(self).clients@, old(self).next_client_id) {
                assert forall|i: int, j: int|
                    0 <= i < j < self.clients@.len() implies #[trigger] self.clients@[i].client_id()
                    != #[trigger] self.clients@[j].client_id() by {
                    assert(self.clients@[i] == old(self).clients@[i]);
                    if j < old(self).clients@.len() {
                        assert(self.clients@[j] == old(self).clients@[j]);
                    }
                }
                assert forall|i: int| 0 <= i < self.clients@.len() implies #[trigger] self.clients@[i].client_id()
                    < self.next_client_id by {
                    if i < old(self).clients@.len() {
                        assert(self.clients@[i] == old(self).clients@[i]);
                    }
                }
            }
        }
        id
    }

    /// Queues `text` and a fresh prompt for the first connection numbered
    /// `client_id`; returns whether there is one.
    pub fn deliver(&mut self, client_id: usize, text: &str) -> (found: bool)
        ensures
            final(self).next_client_id == old(self).next_client_id,
            final(self).clients@.len() == old(self).clients@.len(),
            found <==> exists|i: int|
                0 <= i < old(self).clients@.len() && #[trigger] old(self).clients@[i].client_id()
                    == client_id,
            !found ==> final(self).clients@ == old(self).clients@,
            found ==> exists|i: int|
                0 <= i < old(self).clients@.len() && old(self).clients@[i].client_id() == client_id
                    && (forall|j: int| 0 <= j < i ==> #[trigger] old(self).clients@[j].client_id()
                    != client_id) && (forall|j: int|
                    0 <= j < old(self).clients@.len() && j != i ==> #[trigger] final(self).clients@[j]
                        == old(self).clients@[j]) && {
                    let c = final(self).clients@[i];
                    &&& c.client_id() == client_id
                    &&& c.output() == old(self).clients@[i].output() + reply_bytes(text@)
                    &&& c.input() == old(self).clients@[i].input()
                    &&& c.is_dead() == old(self).clients@[i].is_dead()
                },
            ids_fresh(old(self).clients@, old(self).next_client_id) ==> ids_fresh(
                final(self).clients@,
                final(self).next_client_id,
            ),
    {
        let mut i: usize = 0;
        while i < self.clients.len()
            invariant
                0 <= i <= self.clients@.len(),
                self.clients@ == old(self).clients@,
                self.next_client_id == old(self).next_client_id,
                forall|j: int| 0 <= j < i ==> #[trigger] self.clients@[j].client_id() != client_id,
            decreases self.clients@.len() - i,
        {
            if self.clients[i].id() == client_id {
                let mut c = self.clients.remove(i);
                c.queue_write(text);
                c.queue_write("\n> ");
                self.clients.insert(i, c);
                assert(forall|j: int|
                    0 <= j < old(self).clients@.len() && j != i ==> #[trigger] self.clients@[j]
                        == old(self).clients@[j]);
                assert forall|j: int| 0 <= j < self.clients@.len() implies #[trigger] self.clients@[j].client_id()
                    == old(self).clients@[j].client_id() by {
                    if j != i {
                        assert(self.clients@[j] == old(self).clients@[j]);
                    }
                }
                return true;
            }
            i = i + 1;
        }
        false
    }

    /// Drops the dead connections; the others keep their order.
    pub fn retain_alive(&mut self)
        ensures
            final(self).next_client_id == old(self).next_client_id,
            final(self).clients@ == old(self).clients@.filter(alive()),
            ids_fresh(old(self).clients@, old(self).next_client_id) ==> ids_fresh(
                final(self).clients@,
                final(self).next_client_id,
            ),
    {
        let mut kept: Vec<ConsoleClient> = Vec::new();
        let ghost all = self.clients@;
        assert(all.len() == self.clients.len());
        let mut taken: usize = 0;
        while self.clients.len() > 0
            invariant
                taken <= all.len() <= usize::MAX,
                taken + self.clients@.len() == all.len(),
                self.clients@ == all.skip(taken as int),
                kept@ == all.take(taken as int).filter(alive()),
                self.next_client_id == old(self).next_client_id,
                all == old(self).clients@,
                forall|m: int|
                    0 <= m < kept@.len() ==> exists|x: int|
                        0 <= x < taken && #[trigger] kept@[m] == all[x],
                ids_fresh(all, self.next_client_id) ==> ids_fresh(kept@, self.next_client_id),
            decreases self.clients@.len(),
        {
            let c = self.clients.remove(0);
            proof {
                assert(all.take(taken + 1).drop_last() =~= all.take(taken as int));
                assert(all.take(taken + 1).last() == c);
                reveal_with_fuel(Seq::<_>::filter, 1);
            }
            let ghost kept_before = kept@;
            if !c.dead() {
                kept.push(c);
                proof {
                    assert(kept@[kept@.len() - 1] == all[taken as int]);
                    assert forall|m: int| 0 <= m < kept_before.len() implies #[trigger] kept@[m]
                        == kept_before[m] by {}
                    if ids_fresh(all, self.next_client_id) {
                        assert forall|i: int, j: int|
                            0 <= i < j < kept@.len() implies #[trigger] kept@[i].client_id()
                            != #[trigger] kept@[j].client_id() by {
                            if j == kept@.len() - 1 {
                                assert(kept@[i] == kept_before[i]);
                                let x = choose|x: int| 0 <= x < taken && kept_before[i] == all[x];
                                assert(all[x].client_id() != all[taken as int].client_id());
                            } else {
                                assert(kept@[i] == kept_before[i] && kept@[j] == kept_before[j]);
                            }
                        }
                        assert forall|i: int| 0 <= i < kept@.len() implies #[trigger] kept@[i].client_id()
                            < self.next_client_id by {
                            if i < kept_before.len() {
                                assert(kept@[i] == kept_before[i]);
                            } else {
                                assert(all[taken as int].client_id() < self.next_client_id);
                            }
                        }
                    }
                    assert forall|m: int| 0 <= m < kept@.len() implies exists|x: int|
                        0 <= x < taken + 1 && #[trigger] kept@[m] == all[x] by {
                        if m < kept_before.len() {
                            assert(kept@[m] == kept_before[m]);
                            let x = choose|x: int| 0 <= x < taken && kept_before[m] == all[x];
                            assert(kept@[m] == all[x]);
                        } else {
                            assert(kept@[m] == all[taken as int]);
                        }
                    }
                }
            }
            taken = taken + 1;
            assert(self.clients@ =~= all.skip(taken as int));
        }
        assert(all.take(taken as int) =~= all);
        self.clients = kept;
    }
}

} // verus!
