use score_codec::open_sealed;
use score_codec::seal;

#[test]
fn sealed_length_is_the_next_block_multiple() {
    let key = [5u8; 16];
    for len in [0usize, 1, 15, 16, 17, 31, 32, 100] {
        let plain: Vec<u8> = (0..len).map(|i| i as u8).collect();
        let sealed = seal(&plain, &key);
        assert_eq!(sealed.len() % 16, 0);
        assert_eq!(sealed.len(), (len / 16 + 1) * 16);
        assert!(sealed.len() >= (len + 1 + 15) / 16 * 16);
    }
}

#[test]
fn aligned_input_gains_a_full_padding_block() {
    let key = [5u8; 16];
    let plain = vec![0xabu8; 32];
    let sealed = seal(&plain, &key);
    assert_eq!(sealed.len(), 48);
    assert_eq!(open_sealed(&sealed, &key).unwrap(), plain);
}

#[test]
fn open_inverts_seal() {
    let key = [0x11u8; 16];
    for len in [0usize, 1, 5, 16, 20, 33] {
        let plain: Vec<u8> = (0..len).map(|i| (i * 7) as u8).collect();
        let sealed = seal(&plain, &key);
        assert_eq!(open_sealed(&sealed, &key).unwrap(), plain);
    }
}

#[test]
fn sealing_actually_encrypts() {
    // If block encryption handed its input back unchanged, the sealed buffer
    // would be the plaintext plus visible padding bytes.
    let key = [42u8; 16];
    let plain = vec![0u8; 10];
    let mut padded = plain.clone();
    padded.extend_from_slice(&[6u8; 6]);
    let sealed = seal(&plain, &key);
    assert_ne!(sealed, padded);
    assert_eq!(open_sealed(&sealed, &key).unwrap(), plain);
}

#[test]
fn open_rejects_an_empty_buffer() {
    let key = [1u8; 16];
    assert!(open_sealed(&Vec::new(), &key).is_err());
}

#[test]
fn identical_blocks_leak_equality() {
    // Blockwise encryption without chaining: equal plaintext blocks give
    // equal ciphertext blocks, a documented weakness of this wire format.
    let key = [8u8; 16];
    let plain = vec![0x55u8; 32];
    let sealed = seal(&plain, &key);
    assert_eq!(sealed[0..16], sealed[16..32]);
}
