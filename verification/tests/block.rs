use blockchain::block::Block;
use blockchain::error::BlockError;
use blockchain::text::{starts_with_zeros, to_hex};

fn candidate() -> Block {
    Block::with_timestamp(1, "0".to_string(), "hello".to_string(), 1_700_000_000_000)
}

#[test]
fn new_block_is_unsealed() {
    let block = Block::new(3, "abc".to_string(), "payload".to_string());
    assert_eq!(block.id, 3);
    assert_eq!(block.previous_hash, "abc");
    assert_eq!(block.data, "payload");
    assert_eq!(block.nonce, 0);
    assert_eq!(block.hash, "");
    // the clock is past the year 2020
    assert!(block.timestamp > 1_577_836_800_000);
}

#[test]
fn with_timestamp_sets_every_field() {
    let block = candidate();
    assert_eq!(block.id, 1);
    assert_eq!(block.hash, "");
    assert_eq!(block.previous_hash, "0");
    assert_eq!(block.timestamp, 1_700_000_000_000);
    assert_eq!(block.data, "hello");
    assert_eq!(block.nonce, 0);
}

#[test]
fn hash_has_the_known_value() {
    assert_eq!(
        candidate().calculate_hash(),
        "4dd9369a204d80717e4d04016cee707887feaaf3f11f8454602b51489eb060ec"
    );
}

#[test]
fn hash_is_deterministic() {
    let block = candidate();
    assert_eq!(block.calculate_hash(), block.calculate_hash());
    assert_eq!(block.calculate_hash(), block.clone().calculate_hash());
}

#[test]
fn hash_ignores_the_hash_field() {
    let plain = candidate();
    let mut sealed = candidate();
    sealed.hash = "00ff".to_string();
    assert_eq!(plain.calculate_hash(), sealed.calculate_hash());
}

#[test]
fn hash_depends_on_every_other_field() {
    let base = candidate().calculate_hash();
    let mut b = candidate();
    b.id = 2;
    assert_ne!(b.calculate_hash(), base);
    let mut b = candidate();
    b.previous_hash = "1".to_string();
    assert_ne!(b.calculate_hash(), base);
    let mut b = candidate();
    b.timestamp += 1;
    assert_ne!(b.calculate_hash(), base);
    let mut b = candidate();
    b.data = "hellp".to_string();
    assert_ne!(b.calculate_hash(), base);
    let mut b = candidate();
    b.nonce = 1;
    assert_ne!(b.calculate_hash(), base);
}

#[test]
fn hex_is_lowercase_two_digits_per_byte() {
    assert_eq!(to_hex(&[]), "");
    assert_eq!(to_hex(&[0x00, 0x0f, 0xa0, 0xff, 0x9c]), "000fa0ff9c");
}

#[test]
fn zero_prefix_counts_characters() {
    assert!(starts_with_zeros("", 0));
    assert!(starts_with_zeros("abc", 0));
    assert!(starts_with_zeros("00ab", 2));
    assert!(!starts_with_zeros("00ab", 3));
    assert!(!starts_with_zeros("0", 2));
    assert!(!starts_with_zeros("a0", 1));
    assert!(starts_with_zeros("0000", 4));
}

#[test]
fn mining_finds_the_first_nonce() {
    let mut block = candidate();
    assert!(block.mine(2));
    assert_eq!(block.nonce, 273);
    assert_eq!(block.hash, "00de0824b2ea02de3c9e730dfcaa576eec60987d6f9d21cb01a44eea2d214e3a");
    assert_eq!(block.hash, block.calculate_hash());
    assert_eq!(block.id, 1);
    assert_eq!(block.previous_hash, "0");
    assert_eq!(block.timestamp, 1_700_000_000_000);
    assert_eq!(block.data, "hello");
}

#[test]
fn mining_at_difficulty_zero_takes_the_next_nonce() {
    let mut block = candidate();
    assert!(block.mine(0));
    assert_eq!(block.nonce, 1);
    assert_eq!(block.hash, "a42b05bd969612939c2ec8ce2c5810b4a543a700668294cf2e4ef6f0b325bd44");
    assert_eq!(block.hash, block.calculate_hash());
}

#[test]
fn mining_again_goes_on_from_the_nonce() {
    let mut block = candidate();
    assert!(block.mine(2));
    assert!(block.mine(2));
    assert_eq!(block.nonce, 387);
    assert_eq!(block.hash, "000747183db8480e202b541f7d9f775d39ff556e68cc4f7e08651fb938d963f1");
}

#[test]
fn mining_difficulty_four() {
    let mut block = candidate();
    assert!(block.mine(4));
    assert!(block.hash.starts_with("0000"));
    assert_eq!(block.nonce, 17838);
    assert_eq!(block.hash, "000070ca99a79e7f3b4413f1679c79d04a7a981430dac4a3ab42607b525ab4bd");
    assert_eq!(block.hash, block.calculate_hash());
}

#[test]
fn mining_gives_up_when_the_nonces_run_out() {
    let mut block = candidate();
    block.nonce = u64::MAX - 3;
    block.hash = "before".to_string();
    assert!(!block.mine(60));
    assert_eq!(block.nonce, u64::MAX - 3);
    assert_eq!(block.hash, "before");
    let mut last = candidate();
    last.nonce = u64::MAX;
    assert!(!last.mine(0));
    assert_eq!(last.nonce, u64::MAX);
}

#[test]
fn link_is_checked_hash_first_then_id() {
    let mut tip = Block::with_timestamp(4, "x".to_string(), "tip".to_string(), 10);
    tip.hash = "00aa".to_string();
    let good = Block::with_timestamp(5, "00aa".to_string(), "next".to_string(), 11);
    assert_eq!(good.validate(&tip), Ok(()));
    let wrong_hash = Block::with_timestamp(5, "00ab".to_string(), "next".to_string(), 11);
    assert_eq!(wrong_hash.validate(&tip), Err(BlockError::PreviousHash));
    let wrong_id = Block::with_timestamp(6, "00aa".to_string(), "next".to_string(), 11);
    assert_eq!(wrong_id.validate(&tip), Err(BlockError::Id));
    let both = Block::with_timestamp(4, "".to_string(), "next".to_string(), 11);
    assert_eq!(both.validate(&tip), Err(BlockError::PreviousHash));
}

#[test]
fn id_after_the_largest_does_not_exist() {
    let mut tip = Block::with_timestamp(u64::MAX, "x".to_string(), "tip".to_string(), 10);
    tip.hash = "00".to_string();
    let wrapped = Block::with_timestamp(0, "00".to_string(), "next".to_string(), 11);
    assert_eq!(wrapped.validate(&tip), Err(BlockError::Id));
}

#[test]
fn successor_is_checked_rule_by_rule() {
    let mut tip = Block::with_timestamp(0, "".to_string(), "Genesis".to_string(), 10);
    tip.hash = "0".to_string();
    let mut good = candidate();
    assert!(good.mine(2));
    assert_eq!(good.validate_successor(&tip, 2), Ok(()));
    assert_eq!(good.validate_successor(&tip, 3), Err(BlockError::ProofOfWork));
    assert_eq!(good.validate_successor(&tip, 0), Ok(()));

    let mut tampered = good.clone();
    tampered.data = "hullo".to_string();
    assert_eq!(tampered.validate_successor(&tip, 2), Err(BlockError::Hash));

    let mut unsealed = good.clone();
    unsealed.hash = String::new();
    assert_eq!(unsealed.validate_successor(&tip, 0), Err(BlockError::Hash));

    let mut renumbered = good.clone();
    renumbered.id = 2;
    assert_eq!(renumbered.validate_successor(&tip, 2), Err(BlockError::Id));

    let mut relinked = good.clone();
    relinked.previous_hash = "1".to_string();
    assert_eq!(relinked.validate_successor(&tip, 2), Err(BlockError::PreviousHash));
}
