use gbnet::messages::{GameState, MessageType, NetworkMessage, PlayerInfo};
use gbnet::serialize::bit_io::{BitBuffer, BitError, BitRead, BitWrite};
use gbnet::serialize::{BitDeserialize, BitSerialize};
use gbnet::serialize::byte_aligned::{ByteAlignedDeserialize, ByteAlignedSerialize, ByteReader};

fn sample_message() -> NetworkMessage {
    NetworkMessage {
        message_id: 500,
        priority: 3,
        is_urgent: true,
        players: vec![
            PlayerInfo { health: 50, energy: 10, is_active: true, nickname: Some(42) },
            PlayerInfo { health: 30, energy: 5, is_active: false, nickname: None },
        ],
        message_type: MessageType::Command { code: 42 },
        game_state: GameState { round: 100, score: 255, is_paused: false },
    }
}

#[test]
fn test_network_message_serialization() -> Result<(), BitError> {
    let packet = sample_message();
    let mut bit_buffer = BitBuffer::new();
    packet.bit_serialize(&mut bit_buffer)?;

    let bit_data = bit_buffer.into_bytes(false)?;
    let mut bit_buffer = BitBuffer::from_bytes(bit_data);
    let deserialized = NetworkMessage::bit_deserialize(&mut bit_buffer)?;

    assert_eq!(deserialized.message_id, packet.message_id);
    assert_eq!(deserialized.priority, packet.priority);
    assert_eq!(deserialized.is_urgent, packet.is_urgent);
    assert_eq!(deserialized.players.len(), packet.players.len());
    assert_eq!(deserialized.game_state, packet.game_state);
    Ok(())
}

#[test]
fn network_message_roundtrip_is_exact() -> Result<(), BitError> {
    let packet = sample_message();
    let mut buffer = BitBuffer::new();
    packet.bit_serialize(&mut buffer)?;
    let mut buffer = BitBuffer::from_bytes(buffer.into_bytes(false)?);
    assert_eq!(NetworkMessage::bit_deserialize(&mut buffer)?, packet);
    Ok(())
}

#[test]
fn network_message_layout() -> Result<(), BitError> {
    // 10 + 8 + 1 head bits, 2 count bits, two players (6 + 4 + 1 + 1 + 8 and
    // 6 + 4 + 1 + 1), a 2-bit kind with an 8-bit code: 63 bits, one zero bit up to the
    // byte boundary, then the 19 bits of the game state.
    let packet = sample_message();
    let mut buffer = BitBuffer::new();
    packet.bit_serialize(&mut buffer)?;
    assert_eq!(BitWrite::bit_pos(&buffer), 64 + 19);
    let bytes = buffer.into_bytes(false)?;
    assert_eq!(bytes.len(), 11);
    // 500 = 0b0111110100 in the first 10 bits.
    assert_eq!(bytes[0], 0b0111_1101);
    // The game state starts at byte 8: round 100 = 0b0001100100.
    assert_eq!(bytes[8], 0b0001_1001);
    Ok(())
}

#[test]
fn network_message_padding_follows_the_write_position() -> Result<(), BitError> {
    let packet = sample_message();
    let mut buffer = BitBuffer::new();
    buffer.write_bits(0b101, 3)?;
    packet.bit_serialize(&mut buffer)?;
    // The kind ends at bit 66, so the game state starts at bit 72.
    assert_eq!(BitWrite::bit_pos(&buffer), 72 + 19);
    let mut buffer = BitBuffer::from_bytes(buffer.into_bytes(false)?);
    assert_eq!(buffer.read_bits(3)?, 0b101);
    assert_eq!(NetworkMessage::bit_deserialize(&mut buffer)?, packet);
    assert_eq!(BitRead::bit_pos(&buffer), 72 + 19);
    Ok(())
}

#[test]
fn network_message_with_too_many_players_is_refused() {
    let mut packet = sample_message();
    packet.players = vec![PlayerInfo::default(); 5];
    let mut buffer = BitBuffer::new();
    assert_eq!(packet.bit_serialize(&mut buffer), Err(BitError::InvalidData));
    // Only the head fields were written.
    assert_eq!(BitWrite::bit_pos(&buffer), 19);
}

#[test]
fn network_message_with_wide_id_is_refused() {
    let mut packet = sample_message();
    packet.message_id = 1024;
    let mut buffer = BitBuffer::new();
    assert_eq!(packet.bit_serialize(&mut buffer), Err(BitError::InvalidData));
    assert_eq!(BitWrite::bit_pos(&buffer), 0);
}

#[test]
fn network_message_with_four_players_is_refused() {
    // The 2-bit count holds 0 to 3 players.
    let mut packet = sample_message();
    packet.players = vec![PlayerInfo::default(); 4];
    let mut buffer = BitBuffer::new();
    assert_eq!(packet.bit_serialize(&mut buffer), Err(BitError::InvalidData));
    assert_eq!(BitWrite::bit_pos(&buffer), 19);
}

#[test]
fn network_message_with_three_players_roundtrip() -> Result<(), BitError> {
    let mut packet = sample_message();
    packet.players = vec![PlayerInfo { health: 1, energy: 2, is_active: true, nickname: None }; 3];
    let mut buffer = BitBuffer::new();
    packet.bit_serialize(&mut buffer)?;
    let mut buffer = BitBuffer::from_bytes(buffer.into_bytes(true)?);
    assert_eq!(NetworkMessage::bit_deserialize(&mut buffer)?, packet);
    Ok(())
}

#[test]
fn network_message_truncated_is_eof() -> Result<(), BitError> {
    let packet = sample_message();
    let mut buffer = BitBuffer::new();
    packet.bit_serialize(&mut buffer)?;
    let mut bytes = buffer.into_bytes(false)?;
    bytes.truncate(9);
    let mut buffer = BitBuffer::from_bytes(bytes);
    assert_eq!(NetworkMessage::bit_deserialize(&mut buffer), Err(BitError::UnexpectedEof));
    Ok(())
}

#[test]
fn message_kinds_roundtrip() -> Result<(), BitError> {
    for kind in [
        MessageType::StatusUpdate,
        MessageType::Command { code: 255 },
        MessageType::Alert { level: 15 },
        MessageType::Sync,
    ] {
        let mut buffer = BitBuffer::new();
        kind.bit_serialize(&mut buffer)?;
        let mut buffer = BitBuffer::from_bytes(buffer.into_bytes(false)?);
        assert_eq!(MessageType::bit_deserialize(&mut buffer)?, kind);
    }
    Ok(())
}

#[test]
fn alert_level_over_four_bits_is_refused() {
    let mut buffer = BitBuffer::new();
    assert_eq!(
        MessageType::Alert { level: 16 }.bit_serialize(&mut buffer),
        Err(BitError::InvalidData)
    );
    // The 2-bit kind index was written before the level was refused.
    assert_eq!(BitWrite::bit_pos(&buffer), 2);
}

#[test]
fn player_info_roundtrip() -> Result<(), BitError> {
    let player = PlayerInfo { health: 63, energy: 15, is_active: true, nickname: Some(7) };
    let mut buffer = BitBuffer::new();
    player.bit_serialize(&mut buffer)?;
    assert_eq!(BitWrite::bit_pos(&buffer), 6 + 4 + 1 + 1 + 8);
    let mut buffer = BitBuffer::from_bytes(buffer.into_bytes(false)?);
    assert_eq!(PlayerInfo::bit_deserialize(&mut buffer)?, player);
    Ok(())
}

#[test]
fn network_message_byte_aligned_roundtrip() -> Result<(), BitError> {
    let packet = sample_message();
    let mut bytes = Vec::new();
    packet.byte_aligned_serialize(&mut bytes)?;
    // 2 + 1 + 1 head bytes, a 4-byte count, players of 5 and 4 bytes, 2 kind bytes and
    // 4 game state bytes.
    assert_eq!(bytes.len(), 4 + 4 + 5 + 4 + 2 + 4);
    assert_eq!(&bytes[0..4], &[0xF4, 0x01, 3, 1]);
    let mut reader = ByteReader::new(bytes);
    assert_eq!(NetworkMessage::byte_aligned_deserialize(&mut reader)?, packet);
    assert_eq!(reader.position(), 23);
    Ok(())
}

#[test]
fn game_state_byte_aligned_layout() -> Result<(), BitError> {
    let state = GameState { round: 100, score: 255, is_paused: false };
    let mut bytes = Vec::new();
    state.byte_aligned_serialize(&mut bytes)?;
    assert_eq!(bytes, vec![100, 0, 255, 0]);
    let mut reader = ByteReader::new(bytes);
    assert_eq!(GameState::byte_aligned_deserialize(&mut reader)?, state);
    Ok(())
}

#[test]
fn message_type_byte_aligned_forms() -> Result<(), BitError> {
    let mut bytes = Vec::new();
    MessageType::Command { code: 42 }.byte_aligned_serialize(&mut bytes)?;
    MessageType::Sync.byte_aligned_serialize(&mut bytes)?;
    assert_eq!(bytes, vec![1, 42, 3]);
    let mut reader = ByteReader::new(bytes);
    assert_eq!(MessageType::byte_aligned_deserialize(&mut reader)?, MessageType::Command { code: 42 });
    assert_eq!(MessageType::byte_aligned_deserialize(&mut reader)?, MessageType::Sync);
    let mut reader = ByteReader::new(vec![4]);
    assert_eq!(MessageType::byte_aligned_deserialize(&mut reader), Err(BitError::InvalidData));
    let mut reader = ByteReader::new(vec![2]);
    assert_eq!(MessageType::byte_aligned_deserialize(&mut reader), Err(BitError::UnexpectedEof));
    Ok(())
}
