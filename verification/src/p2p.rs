//! What a node decides: what it does with chain bytes that reach it, and
//! how it reads a console line.

use crate::block::Block;
use crate::blockchain::{block_count, spec_choose_chain, valid_bytes, Blockchain};
use crate::chain::{first_failure, law_first_failure_is_unique, lemma_failure_is_invalid};
use crate::decode::{decode_chain, spec_decode_chain};
use crate::error::{BlockError, ChainError};
use vstd::pervasive::unreached;
use vstd::prelude::*;
use vstd::slice::{slice_subrange, slice_to_vec};
use vstd::utf8::*;

verus! {

/// What travels on the node's internal channel.
#[derive(Debug)]
pub enum Event {
    /// A block was mined: the binary form of the whole chain with it.
    BlockMined(Vec<u8>),
    /// A sign of life, with nothing to act on.
    Heartbeat,
}

/// What the node does with bytes that reached it as a chain.
#[derive(Clone, Copy, Debug, PartialEq, Eq, Structural)]
pub enum Decision {
    /// Nothing was offered.
    Ignore,
    /// The bytes are not the binary form of a chain: they are text at most.
    NotAChain,
    /// The chain breaks a rule: it is dropped.
    Reject { index: usize, reason: BlockError },
    /// The chain is valid but does not beat the local one: nothing changes.
    Keep,
    /// The chain is valid and beats the local one: the chain file is
    /// overwritten with the bytes, and they are published where `publish`.
    Adopt { publish: bool },
}

/// Whether a received chain beats the local one: it is valid, and the local
/// one is not valid or is strictly shorter.
pub open spec fn beats_local(local: Seq<u8>, received: Seq<u8>, d: nat) -> bool {
    valid_bytes(received, d) && (!valid_bytes(local, d) || block_count(received) > block_count(
        local,
    ))
}

/// Whether `decision` is what chain bytes `received` call for, beside the
/// local chain file: read them, validate the chain, and adopt it only where
/// it beats the local one. An adopted chain is published where `publish`.
pub open spec fn judges(
    decision: Decision,
    local: Seq<u8>,
    received: Seq<u8>,
    d: nat,
    publish: bool,
) -> bool {
    match decision {
        Decision::Ignore => false,
        Decision::NotAChain => spec_decode_chain(received) is None,
        Decision::Reject { index, reason } => spec_decode_chain(received) is Some && first_failure(
            spec_decode_chain(received).unwrap(),
            d,
            index as int,
            reason,
        ),
        Decision::Keep => valid_bytes(received, d) && !beats_local(local, received, d),
        Decision::Adopt { publish: published } => published == publish && beats_local(
            local,
            received,
            d,
        ),
    }
}

/// A chain that beats the local one is what the longest-valid-chain rule
/// chooses; one that is valid and does not, is not, unless the two are the
/// same bytes.
pub proof fn law_adoption_follows_choice(local: Seq<u8>, received: Seq<u8>, d: nat)
    requires
        valid_bytes(received, d),
    ensures
        beats_local(local, received, d) ==> spec_choose_chain(local, received, d) == Some(received),
        !beats_local(local, received, d) ==> spec_choose_chain(local, received, d) == Some(local),
{
}

/// No two decisions are both called for by the same bytes.
pub proof fn law_judgement_is_unique(
    one: Decision,
    other: Decision,
    local: Seq<u8>,
    received: Seq<u8>,
    d: nat,
    publish: bool,
)
    requires
        judges(one, local, received, d, publish),
        judges(other, local, received, d, publish),
    ensures
        one == other,
{
    match (one, other) {
        (
            Decision::Reject { index, reason },
            Decision::Reject { index: other_index, reason: other_reason },
        ) => {
            law_first_failure_is_unique(
                spec_decode_chain(received).unwrap(),
                d,
                index as int,
                reason,
                other_index as int,
                other_reason,
            );
        },
        (Decision::Reject { index, reason }, _) => {
            lemma_failure_is_invalid(spec_decode_chain(received).unwrap(), d, index as int, reason);
        },
        (_, Decision::Reject { index, reason }) => {
            lemma_failure_is_invalid(spec_decode_chain(received).unwrap(), d, index as int, reason);
        },
        _ => {},
    }
}

/// Judges chain bytes that reached the node beside the local chain file.
/// What is adopted is to be published where `publish`.
pub fn judge(store: &Blockchain, local: &[u8], received: &[u8], publish: bool) -> (decision:
    Decision)
    ensures
        judges(decision, local@, received@, store.difficulty as nat, publish),
{
    let chain = match decode_chain(received) {
        Ok(chain) => chain,
        Err(_) => { return Decision::NotAChain; },
    };
    match Block::validate_all(&chain, store.difficulty) {
        Err(ChainError::InvalidChain { index, reason }) => {
            return Decision::Reject { index, reason };
        },
        Err(_) => unreached(),
        Ok(_) => {},
    }
    let ours = store.read(local);
    if ours.valid && ours.count >= chain.len() {
        Decision::Keep
    } else {
        Decision::Adopt { publish }
    }
}

/// What an event on the internal channel calls for. A sign of life calls for
/// nothing. A mined chain is judged as any received chain is, and published
/// where it is adopted.
pub fn on_event(store: &Blockchain, local: &[u8], event: &Event) -> (decision: Decision)
    ensures
        (match *event {
            Event::Heartbeat => decision == Decision::Ignore,
            Event::BlockMined(bytes) => judges(
                decision,
                local@,
                bytes@,
                store.difficulty as nat,
                true,
            ),
        }),
{
    match event {
        Event::Heartbeat => Decision::Ignore,
        Event::BlockMined(bytes) => judge(store, local, bytes.as_slice(), true),
    }
}

/// What a message received on the gossip topic calls for: a chain that
/// beats the local one is adopted, and is not published again.
pub fn on_gossip(store: &Blockchain, local: &[u8], payload: &[u8]) -> (decision: Decision)
    ensures
        judges(decision, local@, payload@, store.difficulty as nat, false),
{
    judge(store, local, payload, false)
}

/// The short name under which a peer's messages are shown: the last seven
/// characters of its identifier, or all of it where it has no more.
pub open spec fn spec_short_handle(peer: Seq<char>) -> Seq<char> {
    if peer.len() <= 7 {
        peer
    } else {
        peer.subrange(peer.len() - 7, peer.len() as int)
    }
}

/// The short name under which a peer's messages are shown.
pub fn short_handle(peer: &str) -> (handle: String)
    ensures
        handle@ == spec_short_handle(peer@),
{
    let n: usize = peer.unicode_len();
    if n <= 7 {
        peer.to_owned()
    } else {
        peer.substring_char(n - 7, n).to_owned()
    }
}

/// The argument that a console command lacks.
#[derive(Clone, Copy, Debug, PartialEq, Eq, Structural)]
pub enum Missing {
    Key,
    Value,
}

/// A console line, read.
#[derive(Debug)]
pub enum Command {
    /// `GET <key>`: look the record up.
    Get { key: Vec<u8> },
    /// `PUT <key> <value>`: store the record and publish it.
    Put { key: Vec<u8>, value: Vec<u8> },
    /// `PUT_PROVIDER <key>`: declare this node a provider.
    PutProvider { key: Vec<u8> },
    /// `ls_peers [<key>]`: show the peers; with a key, ask for its providers.
    ListPeers { providers_of: Option<Vec<u8>> },
    /// `ls_blocks`: show the chain.
    ListBlocks,
    /// A command without the argument it needs.
    Incomplete(Missing),
    /// Anything else: the line is published as it is.
    Publish(Vec<u8>),
}

/// What a console line says, mathematically.
pub enum CommandView {
    Get { key: Seq<u8> },
    Put { key: Seq<u8>, value: Seq<u8> },
    PutProvider { key: Seq<u8> },
    ListPeers { providers_of: Option<Seq<u8>> },
    ListBlocks,
    Incomplete(Missing),
    Publish(Seq<u8>),
}

impl View for Command {
    type V = CommandView;

    open spec fn view(&self) -> CommandView {
        match *self {
            Command::Get { key } => CommandView::Get { key: key@ },
            Command::Put { key, value } => CommandView::Put { key: key@, value: value@ },
            Command::PutProvider { key } => CommandView::PutProvider { key: key@ },
            Command::ListPeers { providers_of } => CommandView::ListPeers {
                providers_of: match providers_of {
                    Some(key) => Some(key@),
                    None => None,
                },
            },
            Command::ListBlocks => CommandView::ListBlocks,
            Command::Incomplete(missing) => CommandView::Incomplete(missing),
            Command::Publish(line) => CommandView::Publish(line@),
        }
    }
}

/// Whether a byte separates words: space, tab, line feed, form feed or
/// carriage return.
pub open spec fn is_space(b: u8) -> bool {
    b == 0x20 || b == 0x09 || b == 0x0a || b == 0x0c || b == 0x0d
}

/// The first place at or after `pos` that holds no separator.
pub open spec fn skip_spaces(line: Seq<u8>, pos: int) -> int
    decreases line.len() - pos,
{
    if 0 <= pos < line.len() && is_space(line[pos]) {
        skip_spaces(line, pos + 1)
    } else {
        pos
    }
}

/// The first place at or after `pos` that holds a separator, or the end.
pub open spec fn skip_word(line: Seq<u8>, pos: int) -> int
    decreases line.len() - pos,
{
    if 0 <= pos < line.len() && !is_space(line[pos]) {
        skip_word(line, pos + 1)
    } else {
        pos
    }
}

/// The first word at or after `pos`, with the place where it ends.
pub open spec fn word_at(line: Seq<u8>, pos: int) -> Option<(Seq<u8>, int)> {
    let start = skip_spaces(line, pos);
    let end = skip_word(line, start);
    if 0 <= start < line.len() {
        Some((line.subrange(start, end), end))
    } else {
        None
    }
}

/// The bytes of a command's name.
pub open spec fn name_bytes(name: &str) -> Seq<u8> {
    encode_utf8(name@)
}

/// What a console line says. The first word names the command, the words
/// after it are its arguments, and words beyond those are not read. A line
/// that names no command is published as it is.
pub open spec fn spec_parse_command(line: Seq<u8>) -> CommandView {
    match word_at(line, 0) {
        None => CommandView::Publish(line),
        Some((name, after_name)) => {
            let first = word_at(line, after_name);
            if name == name_bytes("GET") {
                match first {
                    Some((key, _)) => CommandView::Get { key },
                    None => CommandView::Incomplete(Missing::Key),
                }
            } else if name == name_bytes("PUT") {
                match first {
                    Some((key, after_key)) => match word_at(line, after_key) {
                        Some((value, _)) => CommandView::Put { key, value },
                        None => CommandView::Incomplete(Missing::Value),
                    },
                    None => CommandView::Incomplete(Missing::Key),
                }
            } else if name == name_bytes("PUT_PROVIDER") {
                match first {
                    Some((key, _)) => CommandView::PutProvider { key },
                    None => CommandView::Incomplete(Missing::Key),
                }
            } else if name == name_bytes("ls_peers") {
                match first {
                    Some((key, _)) => CommandView::ListPeers { providers_of: Some(key) },
                    None => CommandView::ListPeers { providers_of: None },
                }
            } else if name == name_bytes("ls_blocks") {
                CommandView::ListBlocks
            } else {
                CommandView::Publish(line)
            }
        },
    }
}

fn is_separator(b: u8) -> (r: bool)
    ensures
        r == is_space(b),
{
    b == 0x20 || b == 0x09 || b == 0x0a || b == 0x0c || b == 0x0d
}

/// Finds the first word at or after `pos`: where it starts and where it
/// ends.
fn find_word(line: &[u8], pos: usize) -> (r: Option<(usize, usize)>)
    requires
        pos <= line.len(),
    ensures
        (match r {
            Some((start, end)) => start < end <= line.len() && word_at(line@, pos as int) == Some(
                (line@.subrange(start as int, end as int), end as int),
            ),
            None => word_at(line@, pos as int) is None,
        }),
{
    let mut start: usize = pos;
    while start < line.len() && is_separator(line[start])
        invariant
            pos <= start <= line.len(),
            skip_spaces(line@, pos as int) == skip_spaces(line@, start as int),
        decreases line.len() - start,
    {
        start = start + 1;
    }
    if start >= line.len() {
        return None;
    }
    let mut end: usize = start;
    while end < line.len() && !is_separator(line[end])
        invariant
            start <= end <= line.len(),
            skip_word(line@, start as int) == skip_word(line@, end as int),
        decreases line.len() - end,
    {
        end = end + 1;
    }
    Some((start, end))
}

fn same_bytes(a: &[u8], b: &[u8]) -> (r: bool)
    ensures
        r == (a@ == b@),
{
    if a.len() != b.len() {
        return false;
    }
    let mut i: usize = 0;
    while i < a.len()
        invariant
            i <= a.len(),
            a.len() == b.len(),
            forall|j: int| 0 <= j < i ==> a@[j] == b@[j],
        decreases a.len() - i,
    {
        if a[i] != b[i] {
            return false;
        }
        i = i + 1;
    }
    assert(a@ =~= b@);
    true
}

fn names(word: &[u8], name: &str) -> (r: bool)
    ensures
        r == (word@ == name_bytes(name)),
{
    same_bytes(word, name.as_bytes())
}

/// Reads a console line.
pub fn parse_command(line: &[u8]) -> (command: Command)
    ensures
        command@ == spec_parse_command(line@),
{
    let (name_start, name_end) = match find_word(line, 0) {
        Some(found) => found,
        None => { return Command::Publish(slice_to_vec(line)); },
    };
    let name = slice_subrange(line, name_start, name_end);
    let first = find_word(line, name_end);
    if names(name, "GET") {
        match first {
            Some((start, end)) => Command::Get { key: slice_to_vec(slice_subrange(line, start, end)) },
            None => Command::Incomplete(Missing::Key),
        }
    } else if names(name, "PUT") {
        match first {
            Some((start, end)) => match find_word(line, end) {
                Some((value_start, value_end)) => Command::Put {
                    key: slice_to_vec(slice_subrange(line, start, end)),
                    value: slice_to_vec(slice_subrange(line, value_start, value_end)),
                },
                None => Command::Incomplete(Missing::Value),
            },
            None => Command::Incomplete(Missing::Key),
        }
    } else if names(name, "PUT_PROVIDER") {
        match first {
            Some((start, end)) => Command::PutProvider {
                key: slice_to_vec(slice_subrange(line, start, end)),
            },
            None => Command::Incomplete(Missing::Key),
        }
    } else if names(name, "ls_peers") {
        match first {
            Some((start, end)) => Command::ListPeers {
                providers_of: Some(slice_to_vec(slice_subrange(line, start, end))),
            },
            None => Command::ListPeers { providers_of: None },
        }
    } else if names(name, "ls_blocks") {
        Command::ListBlocks
    } else {
        Command::Publish(slice_to_vec(line))
    }
}

} // verus!
