use score_codec::decode;
use score_codec::encode;
use score_codec::DecodeError;
use score_codec::Enemy;
use score_codec::ScoreEvent;

fn event(time: f32, enemy: Enemy, x: f32, y: f32) -> ScoreEvent {
    ScoreEvent { time: time.to_bits(), enemy, pos: (x.to_bits(), y.to_bits()) }
}

#[test]
fn get_score_matches_the_table_exhaustively() {
    assert_eq!(event(0.0, Enemy::Cruiser, 0.0, 0.0).get_score(), 500);
    assert_eq!(event(0.0, Enemy::Spaceship, 0.0, 0.0).get_score(), 200);
    assert_eq!(event(0.0, Enemy::Asteroid, 0.0, 0.0).get_score(), 10);
}

#[test]
fn encode_produces_the_exact_canonical_bytes() {
    let ev = event(1.5, Enemy::Spaceship, -2.0, 0.25);
    let mut expected: Vec<u8> = Vec::new();
    expected.extend_from_slice(&1u32.to_le_bytes());
    expected.extend_from_slice(&1.5f32.to_bits().to_le_bytes());
    expected.push(1);
    expected.extend_from_slice(&(-2.0f32).to_bits().to_le_bytes());
    expected.extend_from_slice(&0.25f32.to_bits().to_le_bytes());
    assert_eq!(encode(&[ev]), expected);
}

#[test]
fn encode_of_empty_list_is_a_zero_count() {
    assert_eq!(encode(&[]), vec![0u8, 0, 0, 0]);
}

#[test]
fn decode_inverts_encode() {
    let events = vec![
        event(0.0, Enemy::Cruiser, 0.0, 0.0),
        event(10.75, Enemy::Asteroid, -3.5, 2.0),
    ];
    assert_eq!(decode(&encode(&events)).unwrap(), events);
}

#[test]
fn decode_rejects_a_truncated_prefix() {
    assert_eq!(decode(&vec![]), Err(DecodeError::Truncated));
    assert_eq!(decode(&vec![1u8, 0, 0]), Err(DecodeError::Truncated));
}

#[test]
fn decode_rejects_a_length_mismatch() {
    // Declares one event but carries no record.
    assert_eq!(decode(&vec![1u8, 0, 0, 0]), Err(DecodeError::LengthMismatch));
    // Declares no events but carries a trailing byte.
    assert_eq!(
        decode(&vec![0u8, 0, 0, 0, 9]),
        Err(DecodeError::LengthMismatch)
    );
}

#[test]
fn decode_rejects_an_unknown_enemy_discriminant() {
    let mut bytes = vec![1u8, 0, 0, 0];
    bytes.extend_from_slice(&[0, 0, 0, 0]);
    bytes.push(9);
    bytes.extend_from_slice(&[0, 0, 0, 0, 0, 0, 0, 0]);
    assert_eq!(decode(&bytes), Err(DecodeError::InvalidEnemy));
}
