use blockchain::blockchain::Blockchain;
use blockchain::codec::encode_chain;
use blockchain::decode::decode_chain;
use blockchain::error::BlockError;
use blockchain::p2p::{
    judge, on_event, on_gossip, parse_command, short_handle, Command, Decision, Event, Missing,
};

fn grown(store: &Blockchain, payloads: &[&str]) -> Vec<u8> {
    let mut bytes = Blockchain::ensure_genesis_at(&[], 1000).unwrap();
    for (i, payload) in payloads.iter().enumerate() {
        match store.add_block_at(&bytes, payload.to_string(), 2001 + i as u64) {
            Ok(Event::BlockMined(longer)) => bytes = longer,
            other => panic!("no block mined: {:?}", other),
        }
    }
    bytes
}

/// What the event loop does to the chain file on a decision.
fn applied(file: &[u8], received: &[u8], decision: Decision) -> Vec<u8> {
    match decision {
        Decision::Adopt { .. } => received.to_vec(),
        _ => file.to_vec(),
    }
}

#[test]
fn adopt_longer_valid_remote() {
    let store = Blockchain::new(2);
    // each node wrote its own genesis block when it started
    let file_a = Blockchain::ensure_genesis_at(&[], 999).unwrap();
    let file_b = grown(&store, &["x", "y", "z"]);
    let decision = on_gossip(&store, &file_a, &file_b);
    assert_eq!(decision, Decision::Adopt { publish: false });
    let file_a = applied(&file_a, &file_b, decision);
    assert_eq!(file_a, file_b);
    assert_eq!(decode_chain(&file_a).unwrap().len(), 4);
}

#[test]
fn reject_shorter_remote() {
    let store = Blockchain::new(2);
    let file_a = grown(&store, &["hello"]);
    let other = grown(&store, &["other"]);
    assert_eq!(decode_chain(&other).unwrap().len(), 2);
    assert_ne!(file_a, other);
    let decision = on_gossip(&store, &file_a, &other);
    assert_eq!(decision, Decision::Keep);
    assert_eq!(applied(&file_a, &other, decision), file_a);
    let shorter = Blockchain::ensure_genesis_at(&[], 1).unwrap();
    assert_eq!(on_gossip(&store, &file_a, &shorter), Decision::Keep);
}

#[test]
fn reject_invalid_remote() {
    let store = Blockchain::new(2);
    let file_a = grown(&store, &["hello"]);
    let mut chain = decode_chain(&grown(&store, &["x", "y", "z"])).unwrap();
    chain[3].previous_hash = "d1ce".to_string();
    let invalid = encode_chain(&chain).unwrap();
    let decision = on_gossip(&store, &file_a, &invalid);
    assert_eq!(decision, Decision::Reject { index: 3, reason: BlockError::PreviousHash });
    assert_eq!(applied(&file_a, &invalid, decision), file_a);
}

#[test]
fn text_on_the_topic_is_no_chain() {
    let store = Blockchain::new(2);
    let file = grown(&store, &["hello"]);
    assert_eq!(on_gossip(&store, &file, b"hello everyone"), Decision::NotAChain);
    assert_eq!(on_gossip(&store, &file, b""), Decision::NotAChain);
    assert_eq!(judge(&store, &file, &[0, 0, 0], false), Decision::NotAChain);
}

#[test]
fn a_mined_chain_is_stored_and_published() {
    let store = Blockchain::new(2);
    let file = Blockchain::ensure_genesis_at(&[], 1000).unwrap();
    let event = store.add_block_at(&file, "hello".to_string(), 2001).unwrap();
    let decision = on_event(&store, &file, &event);
    assert_eq!(decision, Decision::Adopt { publish: true });
    let mined = match event {
        Event::BlockMined(bytes) => bytes,
        Event::Heartbeat => panic!("a chain was expected"),
    };
    let file = applied(&file, &mined, decision);
    let chain = decode_chain(&file).unwrap();
    assert_eq!(chain.len(), 2);
    assert_eq!(chain[1].id, 1);
    assert_eq!(chain[1].previous_hash, chain[0].hash);
    assert!(chain[1].hash.starts_with("00"));
    assert_eq!(chain[1].data, "hello");
}

#[test]
fn a_mined_chain_that_came_late_is_kept_out() {
    let store = Blockchain::new(2);
    let genesis = Blockchain::ensure_genesis_at(&[], 1000).unwrap();
    let event = store.add_block_at(&genesis, "late".to_string(), 2001).unwrap();
    // meanwhile a longer chain was adopted from the network
    let file = grown(&store, &["x", "y"]);
    assert_eq!(on_event(&store, &file, &event), Decision::Keep);
}

#[test]
fn a_mined_chain_that_is_broken_is_dropped() {
    let store = Blockchain::new(2);
    let file = Blockchain::ensure_genesis_at(&[], 1000).unwrap();
    let mut chain = decode_chain(&grown(&store, &["x"])).unwrap();
    chain[1].nonce += 1;
    let event = Event::BlockMined(encode_chain(&chain).unwrap());
    assert_eq!(
        on_event(&store, &file, &event),
        Decision::Reject { index: 1, reason: BlockError::Hash }
    );
    assert_eq!(on_event(&store, &file, &Event::BlockMined(vec![1, 2])), Decision::NotAChain);
}

#[test]
fn a_heartbeat_is_ignored() {
    let store = Blockchain::new(2);
    let file = Blockchain::ensure_genesis_at(&[], 1000).unwrap();
    assert_eq!(on_event(&store, &file, &Event::Heartbeat), Decision::Ignore);
    assert_eq!(on_event(&store, &[], &Event::Heartbeat), Decision::Ignore);
}

#[test]
fn any_valid_chain_beats_a_broken_file() {
    let store = Blockchain::new(2);
    let remote = Blockchain::ensure_genesis_at(&[], 1000).unwrap();
    assert_eq!(judge(&store, &[], &remote, false), Decision::Adopt { publish: false });
    assert_eq!(judge(&store, &[1, 2, 3], &remote, true), Decision::Adopt { publish: true });
    assert_eq!(judge(&store, &remote, &remote, true), Decision::Keep);
}

#[test]
fn short_handle_is_the_last_seven_characters() {
    assert_eq!(short_handle("12D3KooWGzxzKZYveHXtpG6AsrUJBcWxHBFS2HsEoGTxrMLvKXtf"), "rMLvKXtf"[1..]);
    assert_eq!(short_handle("1234567"), "1234567");
    assert_eq!(short_handle("12345678"), "2345678");
    assert_eq!(short_handle("abc"), "abc");
    assert_eq!(short_handle(""), "");
    assert_eq!(short_handle("\u{e9}\u{e9}\u{e9}\u{e9}\u{e9}\u{e9}\u{e9}\u{e9}x"), "\u{e9}\u{e9}\u{e9}\u{e9}\u{e9}\u{e9}x");
}

fn command(line: &str) -> Command {
    parse_command(line.as_bytes())
}

#[test]
fn get_takes_a_key() {
    assert!(matches!(command("GET name"), Command::Get { key } if key == b"name"));
    assert!(matches!(command("  GET\t name   more"), Command::Get { key } if key == b"name"));
    assert!(matches!(command("GET"), Command::Incomplete(Missing::Key)));
    assert!(matches!(command("GET   "), Command::Incomplete(Missing::Key)));
}

#[test]
fn put_takes_a_key_and_a_value() {
    assert!(matches!(
        command("PUT name value"),
        Command::Put { key, value } if key == b"name" && value == b"value"
    ));
    assert!(matches!(
        command("PUT  k\u{e9}y   v  ignored"),
        Command::Put { key, value } if key == "k\u{e9}y".as_bytes() && value == b"v"
    ));
    assert!(matches!(command("PUT"), Command::Incomplete(Missing::Key)));
    assert!(matches!(command("PUT name"), Command::Incomplete(Missing::Value)));
    assert!(matches!(command("PUT name \r"), Command::Incomplete(Missing::Value)));
}

#[test]
fn put_provider_takes_a_key() {
    assert!(matches!(command("PUT_PROVIDER name"), Command::PutProvider { key } if key == b"name"));
    assert!(matches!(command("PUT_PROVIDER"), Command::Incomplete(Missing::Key)));
}

#[test]
fn ls_peers_takes_a_key_or_none() {
    assert!(matches!(command("ls_peers"), Command::ListPeers { providers_of: None }));
    assert!(matches!(command("ls_peers "), Command::ListPeers { providers_of: None }));
    assert!(matches!(command("ls_peers name"), Command::ListPeers { providers_of: Some(key) } if key == b"name"));
}

#[test]
fn ls_blocks_takes_nothing() {
    assert!(matches!(command("ls_blocks"), Command::ListBlocks));
    assert!(matches!(command(" ls_blocks now"), Command::ListBlocks));
}

#[test]
fn anything_else_is_published_as_it_is() {
    assert!(matches!(command("hello there"), Command::Publish(line) if line == b"hello there"));
    assert!(matches!(command("  get name "), Command::Publish(line) if line == b"  get name "));
    assert!(matches!(command("GETS name"), Command::Publish(line) if line == b"GETS name"));
    assert!(matches!(command("LS_BLOCKS"), Command::Publish(line) if line == b"LS_BLOCKS"));
    assert!(matches!(command(""), Command::Publish(line) if line.is_empty()));
    assert!(matches!(command(" \t "), Command::Publish(line) if line == b" \t "));
}
