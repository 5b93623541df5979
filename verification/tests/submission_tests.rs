use score_codec::DecodeError;
use score_codec::Enemy;
use score_codec::Error;
use score_codec::ScoreEvent;
use score_codec::ScoreSubmission;

fn event(time: f32, enemy: Enemy, x: f32, y: f32) -> ScoreEvent {
    ScoreEvent { time: time.to_bits(), enemy, pos: (x.to_bits(), y.to_bits()) }
}

#[test]
fn test_score_submission() {
    let key = [42u8; 16];
    let events = vec![
        event(0.0, Enemy::Cruiser, 0.0, 0.0),
        event(1.0, Enemy::Spaceship, 1.0, 1.0),
        event(2.0, Enemy::Asteroid, 2.0, 2.0),
    ];

    let submission = ScoreSubmission::from_data(&events, &key).unwrap();

    let data = submission.to_data(&key).unwrap();
    assert_eq!(data, events);
}

#[test]
fn empty_event_list_roundtrips_through_nonempty_buffer() {
    let key = [7u8; 16];
    let submission = ScoreSubmission::from_data(&[], &key).unwrap();
    let buffer = submission.to_buffer();
    assert!(!buffer.is_empty());
    assert_eq!(buffer.len(), 16);

    let back = ScoreSubmission::from_buffer(buffer).to_data(&key).unwrap();
    assert_eq!(back, Vec::new());
}

#[test]
fn buffer_survives_transport() {
    let key = [1u8; 16];
    let events = vec![event(3.5, Enemy::Asteroid, -1.0, 8.25)];
    let sent = ScoreSubmission::from_data(&events, &key).unwrap().to_buffer();
    let received = ScoreSubmission::from_buffer(sent.clone());
    assert_eq!(received.clone().to_buffer(), sent);
    assert_eq!(received.to_data(&key).unwrap(), events);
}

#[test]
fn wrong_key_does_not_give_the_events_back() {
    let key = [42u8; 16];
    let other = [43u8; 16];
    let events = vec![
        event(0.5, Enemy::Cruiser, 4.0, 5.0),
        event(1.5, Enemy::Spaceship, 6.0, 7.0),
    ];
    let submission = ScoreSubmission::from_data(&events, &key).unwrap();
    match submission.to_data(&other) {
        Ok(data) => assert_ne!(data, events),
        Err(_) => {}
    }
}

#[test]
fn tampered_last_block_fails_or_decodes_wrong() {
    // There is no integrity check: a corrupted buffer is NOT guaranteed to
    // be rejected. Opening it either fails or yields wrong data.
    let key = [9u8; 16];
    let events = vec![
        event(1.0, Enemy::Cruiser, 1.0, 2.0),
        event(2.0, Enemy::Spaceship, 3.0, 4.0),
    ];
    let mut buffer = ScoreSubmission::from_data(&events, &key).unwrap().to_buffer();
    let last = buffer.len() - 1;
    buffer[last] ^= 0x01;
    match ScoreSubmission::from_buffer(buffer).to_data(&key) {
        Ok(data) => assert_ne!(data, events),
        Err(e) => assert!(matches!(
            e,
            Error::InvalidPadding | Error::SerializationError(_)
        )),
    }
}

#[test]
fn empty_buffer_gives_invalid_padding() {
    let key = [0u8; 16];
    let r = ScoreSubmission::from_buffer(Vec::new()).to_data(&key);
    assert!(matches!(r, Err(Error::InvalidPadding)));
}

#[test]
fn garbage_plaintext_gives_serialization_error() {
    // A sealed buffer whose plaintext is too short for the count prefix.
    let key = [3u8; 16];
    let sealed = score_codec::seal(&vec![5u8], &key);
    let r = ScoreSubmission::from_buffer(sealed).to_data(&key);
    assert!(matches!(
        r,
        Err(Error::SerializationError(DecodeError::Truncated))
    ));
}
