//! The call-data matcher and codec against hand-built bytes and against an
//! independent encoder of the same wire format.

use alloy_primitives::{keccak256, Address, U256};
use alloy_sol_types::SolValue;

use exocortex::abi::{encode_swap_call, match_swap_call, starts_with_selector, SwapIntent, SELECTOR};

fn w64(n: u64) -> Vec<u8> {
    let mut v = vec![0u8; 24];
    v.extend_from_slice(&n.to_be_bytes());
    v
}

fn addr(b: u8) -> Vec<u8> {
    vec![b; 20]
}

fn intent(amount_in: u64, path: Vec<Vec<u8>>, to: Vec<u8>, deadline: u64) -> SwapIntent {
    SwapIntent {
        amount_in: w64(amount_in),
        amount_out_min: w64(0),
        path,
        recipient: to,
        deadline: w64(deadline),
    }
}

#[test]
fn selector_is_the_signature_hash() {
    let sig = b"swapExactTokensForTokens(uint256,uint256,address[],address,uint256)";
    let hash = keccak256(sig);
    assert_eq!(&hash[..4], &SELECTOR[..]);
    assert_eq!(SELECTOR, [0x38, 0xed, 0x17, 0x39]);
}

#[test]
fn short_input_never_matches() {
    assert!(match_swap_call(&vec![]).is_none());
    assert!(match_swap_call(&vec![0x38]).is_none());
    assert!(match_swap_call(&vec![0x38, 0xed, 0x17]).is_none());
    assert!(!starts_with_selector(&vec![0x38, 0xed, 0x17]));
}

#[test]
fn wrong_prefix_never_matches() {
    let valid = encode_swap_call(&intent(1000, vec![addr(0xaa), addr(0xbb)], addr(0xcc), 0));
    let mut tampered = valid.clone();
    tampered[0] = 0x39;
    assert!(match_swap_call(&valid).is_some());
    assert!(match_swap_call(&tampered).is_none());
    assert!(!starts_with_selector(&tampered));
}

#[test]
fn decode_then_reencode_is_identity() {
    let call = encode_swap_call(&intent(1000, vec![addr(0xaa), addr(0xbb)], addr(0xcc), 7));
    let decoded = match_swap_call(&call).expect("valid encoding must match");
    assert_eq!(encode_swap_call(&decoded), call);
}

#[test]
fn encode_then_decode_returns_the_intent() {
    for hops in [0usize, 1, 2, 3, 7] {
        let path: Vec<Vec<u8>> = (0..hops).map(|i| addr(i as u8 + 1)).collect();
        let i = intent(123456789, path, addr(0xcc), u64::MAX);
        let decoded = match_swap_call(&encode_swap_call(&i)).expect("must match");
        assert_eq!(decoded, i);
    }
}

#[test]
fn example_call_data_decodes() {
    let call = encode_swap_call(&intent(1000, vec![addr(0xaa), addr(0xbb)], addr(0xcc), 0));
    let decoded = match_swap_call(&call).expect("must match");
    assert_eq!(decoded.amount_in, w64(1000));
    assert_eq!(decoded.amount_out_min, w64(0));
    assert_eq!(decoded.path, vec![addr(0xaa), addr(0xbb)]);
    assert_eq!(decoded.recipient, addr(0xcc));
    assert_eq!(decoded.deadline, w64(0));
}

#[test]
fn truncated_tail_never_matches() {
    let valid = encode_swap_call(&intent(1000, vec![addr(0xaa), addr(0xbb)], addr(0xcc), 0));
    // Head cut short of the deadline field: far too short to decode.
    let missing_deadline = valid[..132].to_vec();
    assert!(match_swap_call(&missing_deadline).is_none());
    // One path element lost: the length word no longer fits the buffer.
    let missing_element = valid[..valid.len() - 32].to_vec();
    assert!(match_swap_call(&missing_element).is_none());
    // A partial element: the tail is no longer word-aligned.
    let ragged = valid[..valid.len() - 1].to_vec();
    assert!(match_swap_call(&ragged).is_none());
}

#[test]
fn trailing_bytes_never_match() {
    let valid = encode_swap_call(&intent(1000, vec![addr(0xaa), addr(0xbb)], addr(0xcc), 0));
    let mut padded = valid.clone();
    padded.extend_from_slice(&[0u8; 32]);
    assert!(match_swap_call(&padded).is_none());
    let mut one_more = valid.clone();
    one_more.push(0);
    assert!(match_swap_call(&one_more).is_none());
}

#[test]
fn stray_offset_never_matches() {
    let valid = encode_swap_call(&intent(1000, vec![addr(0xaa), addr(0xbb)], addr(0xcc), 0));
    let mut tampered = valid.clone();
    tampered[99] = 0xc0;
    assert!(match_swap_call(&tampered).is_none());
}

#[test]
fn bad_address_padding_never_matches() {
    let valid = encode_swap_call(&intent(1000, vec![addr(0xaa), addr(0xbb)], addr(0xcc), 0));
    // Dirty padding of the recipient word.
    let mut bad_to = valid.clone();
    bad_to[100] = 1;
    assert!(match_swap_call(&bad_to).is_none());
    // Dirty padding of the second path element.
    let mut bad_hop = valid.clone();
    bad_hop[196 + 32 + 5] = 1;
    assert!(match_swap_call(&bad_hop).is_none());
}

#[test]
fn encoding_agrees_with_independent_encoder() {
    let ours = encode_swap_call(&intent(1000, vec![addr(0xaa), addr(0xbb)], addr(0xcc), 77));
    let args = (
        U256::from(1000u64),
        U256::ZERO,
        vec![Address::from([0xaa; 20]), Address::from([0xbb; 20])],
        Address::from([0xcc; 20]),
        U256::from(77u64),
    );
    let theirs = args.abi_encode_params();
    assert_eq!(&ours[..4], &SELECTOR[..]);
    assert_eq!(&ours[4..], &theirs[..]);
}

#[test]
fn independent_decoder_accepts_our_encoding() {
    let ours = encode_swap_call(&intent(5, vec![addr(1), addr(2), addr(3)], addr(9), 42));
    let decoded = <(U256, U256, Vec<Address>, Address, U256)>::abi_decode_params(&ours[4..])
        .expect("independent decoder must accept the encoding");
    assert_eq!(decoded.0, U256::from(5u64));
    assert_eq!(decoded.1, U256::ZERO);
    assert_eq!(decoded.2.len(), 3);
    assert_eq!(decoded.2[0], Address::from([1; 20]));
    assert_eq!(decoded.3, Address::from([9; 20]));
    assert_eq!(decoded.4, U256::from(42u64));
}

#[test]
fn amounts_encoding_agrees_with_independent_encoder() {
    let ours = exocortex::outcome::encode_amounts(&vec![w64(1000), w64(980)]);
    let theirs = vec![U256::from(1000u64), U256::from(980u64)].abi_encode();
    assert_eq!(ours, theirs);
}
