use consensus_observer::subscription::{SubscriptionError, SubscriptionManager};
use consensus_observer::types::{verify_ordered_blocks, BlockInfo, BlockRecord, OrderedBlock};
use consensus_observer::wallet::{address_from_digest, public_key_address, u128_to_bytes, EthereumWallet};

fn hex(bytes: &[u8]) -> String {
    bytes.iter().map(|b| format!("{:02x}", b)).collect()
}

#[test]
fn u128_bytes_are_big_endian() {
    let v = u128_to_bytes(0x0102030405060708090a0b0c0d0e0f10);
    assert_eq!(v, (1u8..=16).collect::<Vec<u8>>());
    assert_eq!(u128_to_bytes(0), vec![0u8; 16]);
    let mut max = vec![0u8; 16];
    max[15] = 255;
    assert_eq!(u128_to_bytes(255), max);
}

#[test]
fn address_of_key_is_tail_of_keccak_digest() {
    // The point after the tag byte is empty: the digest is Keccak-256 of "".
    let address = public_key_address(&vec![4u8]);
    assert_eq!(hex(&address), "dcc703c0e500b653ca82273b7bfad8045d85a470");
    let other = public_key_address(&vec![4u8, 1, 2, 3]);
    assert_eq!(other.len(), 20);
    assert_ne!(other, address);
}

#[test]
fn address_from_digest_keeps_last_twenty_bytes() {
    let digest: Vec<u8> = (0u8..32).collect();
    assert_eq!(address_from_digest(&digest), (12u8..32).collect::<Vec<u8>>());
}

#[test]
fn wallet_carries_its_address() {
    let w = EthereumWallet::new(&vec![9u8; 32], &vec![4u8]);
    assert_eq!(hex(&w.public_address), "dcc703c0e500b653ca82273b7bfad8045d85a470");
    assert_eq!(w.secret_key, vec![9u8; 32]);
}

#[test]
fn sender_verification_names_the_expected_peer() {
    let mut m = SubscriptionManager::new(100);
    assert_eq!(m.verify_message_sender(3), Err(SubscriptionError::NoActiveSubscription));
    assert!(m.check_and_manage_subscriptions(10, Some(4)));
    assert_eq!(m.verify_message_sender(4), Ok(()));
    assert_eq!(
        m.verify_message_sender(3),
        Err(SubscriptionError::UnexpectedSender { peer: 3, expected: 4 })
    );
    assert!(!m.check_and_manage_subscriptions(110, Some(5)));
    assert!(m.check_and_manage_subscriptions(111, Some(5)));
    assert!(!m.check_and_manage_subscriptions(1000, None));
    assert_eq!(m.active_peer, None);
}

#[test]
fn ordered_blocks_must_link_and_end_at_the_proof() {
    let a = BlockInfo { epoch: 1, round: 1, id: 11 };
    let b = BlockInfo { epoch: 1, round: 2, id: 12 };
    let good = OrderedBlock {
        blocks: vec![
            BlockRecord { info: a, parent_id: 10, payload_digest: 0 },
            BlockRecord { info: b, parent_id: 11, payload_digest: 0 },
        ],
        proof: b,
    };
    assert!(verify_ordered_blocks(&good));
    let broken = OrderedBlock {
        blocks: vec![
            BlockRecord { info: a, parent_id: 10, payload_digest: 0 },
            BlockRecord { info: b, parent_id: 99, payload_digest: 0 },
        ],
        proof: b,
    };
    assert!(!verify_ordered_blocks(&broken));
    let wrong_proof = OrderedBlock { blocks: vec![BlockRecord { info: a, parent_id: 10, payload_digest: 0 }], proof: b };
    assert!(!verify_ordered_blocks(&wrong_proof));
}
