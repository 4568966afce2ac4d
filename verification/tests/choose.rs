use blockchain::blockchain::Blockchain;
use blockchain::codec::encode_chain;
use blockchain::decode::decode_chain;
use blockchain::error::ChainError;
use blockchain::p2p::Event;

fn grown(store: &Blockchain, genesis_at: u64, payloads: &[&str]) -> Vec<u8> {
    let mut bytes = Blockchain::ensure_genesis_at(&[], genesis_at).unwrap();
    for (i, payload) in payloads.iter().enumerate() {
        match store.add_block_at(&bytes, payload.to_string(), 2001 + i as u64) {
            Ok(Event::BlockMined(longer)) => bytes = longer,
            other => panic!("no block mined: {:?}", other),
        }
    }
    bytes
}

fn broken(bytes: &[u8]) -> Vec<u8> {
    let mut chain = decode_chain(bytes).unwrap();
    let last = chain.len() - 1;
    chain[last].previous_hash = "5ca1ab1e".to_string();
    encode_chain(&chain).unwrap()
}

#[test]
fn the_longer_valid_chain_wins_either_way() {
    let store = Blockchain::new(1);
    let short = grown(&store, 1000, &["a"]);
    let long = grown(&store, 1000, &["a", "b", "c"]);
    assert_eq!(store.choose_chain(&short, &long), Ok(long.clone()));
    assert_eq!(store.choose_chain(&long, &short), Ok(long.clone()));
}

#[test]
fn a_tie_keeps_the_local_chain() {
    let store = Blockchain::new(1);
    let ours = grown(&store, 1000, &["ours"]);
    let theirs = grown(&store, 1000, &["theirs"]);
    assert_ne!(ours, theirs);
    assert_eq!(store.choose_chain(&ours, &theirs), Ok(ours.clone()));
    assert_eq!(store.choose_chain(&theirs, &ours), Ok(theirs.clone()));
}

#[test]
fn choosing_against_itself_keeps_the_chain() {
    let store = Blockchain::new(1);
    let chain = grown(&store, 1000, &["a", "b"]);
    assert_eq!(store.choose_chain(&chain, &chain), Ok(chain.clone()));
}

#[test]
fn an_invalid_remote_is_never_adopted() {
    let store = Blockchain::new(1);
    let local = grown(&store, 1000, &["a"]);
    let longer_but_broken = broken(&grown(&store, 1000, &["a", "b", "c"]));
    assert_eq!(store.choose_chain(&local, &longer_but_broken), Ok(local.clone()));
    assert_eq!(store.choose_chain(&local, &[1, 2, 3]), Ok(local.clone()));
    assert_eq!(store.choose_chain(&local, &[]), Ok(local.clone()));
    // a chain mined for a lower difficulty is not valid here
    let strict = Blockchain::new(3);
    let strict_local = grown(&strict, 1000, &["a"]);
    let easy = grown(&store, 1000, &["q", "r", "s", "t"]);
    assert_eq!(strict.choose_chain(&strict_local, &easy), Ok(strict_local.clone()));
}

#[test]
fn the_one_valid_chain_wins() {
    let store = Blockchain::new(1);
    let valid = grown(&store, 1000, &["a"]);
    let invalid = broken(&grown(&store, 1000, &["a", "b"]));
    assert_eq!(store.choose_chain(&invalid, &valid), Ok(valid.clone()));
    assert_eq!(store.choose_chain(&[7], &valid), Ok(valid.clone()));
}

#[test]
fn neither_valid_keeps_the_local_bytes() {
    let store = Blockchain::new(1);
    let ours = broken(&grown(&store, 1000, &["a", "b"]));
    let theirs = broken(&grown(&store, 1000, &["c", "d", "e"]));
    assert_eq!(store.choose_chain(&ours, &theirs), Ok(ours.clone()));
    assert_eq!(store.choose_chain(&ours, &[1]), Ok(ours.clone()));
    assert_eq!(store.choose_chain(&[1], &theirs), Ok(vec![1]));
}

#[test]
fn two_inputs_that_are_no_chains_are_refused() {
    let store = Blockchain::new(1);
    assert_eq!(store.choose_chain(&[], &[]), Err(ChainError::InvalidInput));
    assert_eq!(store.choose_chain(&[1, 2], &[0, 0, 0]), Err(ChainError::InvalidInput));
}

#[test]
fn the_chain_of_no_blocks_loses_to_any_longer_one() {
    let store = Blockchain::new(1);
    let none = encode_chain(&Vec::new()).unwrap();
    let one = Blockchain::ensure_genesis_at(&[], 1000).unwrap();
    assert_eq!(store.choose_chain(&none, &one), Ok(one.clone()));
    assert_eq!(store.choose_chain(&one, &none), Ok(one.clone()));
    assert_eq!(store.choose_chain(&none, &none), Ok(none.clone()));
}

#[test]
fn offering_a_chain_twice_changes_nothing() {
    let store = Blockchain::new(1);
    let local = grown(&store, 1000, &["a"]);
    let remote = grown(&store, 1000, &["x", "y"]);
    let once = store.choose_chain(&local, &remote).unwrap();
    let twice = store.choose_chain(&once, &remote).unwrap();
    assert_eq!(once, twice);
    assert_eq!(once, remote);
}

#[test]
fn any_order_of_offers_ends_at_the_longest() {
    let store = Blockchain::new(1);
    let local = grown(&store, 1000, &["a"]);
    let two = grown(&store, 1000, &["x", "y"]);
    let three = grown(&store, 1000, &["p", "q", "r"]);
    let one_way = store.choose_chain(&store.choose_chain(&local, &two).unwrap(), &three).unwrap();
    let other_way = store.choose_chain(&store.choose_chain(&local, &three).unwrap(), &two).unwrap();
    assert_eq!(one_way, three);
    assert_eq!(other_way, three);
}
