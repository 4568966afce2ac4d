use blockchain::block::Block;
use blockchain::blockchain::Blockchain;
use blockchain::codec::{encode_chain, text_is_encodable};
use blockchain::error::ChainError;

/// A text of `len` bytes, or `None` where the machine cannot hold it.
fn long_text(len: usize) -> Option<String> {
    let mut probe: Vec<u8> = Vec::new();
    if probe.try_reserve_exact(len).is_err() {
        return None;
    }
    drop(probe);
    String::from_utf8(vec![0u8; len]).ok()
}

#[test]
fn a_text_longer_than_its_prefix_allows_is_refused() {
    let data = match long_text(u32::MAX as usize + 1) {
        Some(data) => data,
        None => return,
    };
    assert!(!text_is_encodable(&data));
    assert!(text_is_encodable(&data[1..]));

    let store = Blockchain::new(1);
    let genesis = Blockchain::ensure_genesis_at(&[], 1000).unwrap();
    let block = Block::with_timestamp(1, "0".to_string(), data, 5);
    assert!(!block.is_hashable());
    assert!(!block.is_encodable());
    let chain = vec![Blockchain::genesis(1000), block];
    assert_eq!(encode_chain(&chain), None);
    assert_eq!(
        Block::validate_all(&chain, 0),
        Err(ChainError::InvalidChain { index: 1, reason: blockchain::error::BlockError::Hash })
    );
    let mut chain = chain;
    let data = chain.pop().unwrap().data;
    assert!(matches!(store.add_block_at(&genesis, data, 5), Err(ChainError::TooLong)));
}
