//! The game's messages. Their fields are packed at declared widths, in declaration
//! order; a value that does not fit its width is refused as invalid data.
use vstd::prelude::*;
use vstd::arithmetic::power2::pow2;
use crate::packet::{field_ops, fits_bits, flag_value, lemma_read_value, read_then, write_field};
use crate::serialize::bit_io::{BitBuffer, BitError, BitOp, BitRead, BitState, BitWrite, ops_bits, ops_valid, value_bits};
use crate::serialize::{BitDeserialize, BitSerialize, lemma_single_op, lemma_split_bits, lemma_then};
use crate::serialize::byte_aligned::{ByteAlignedDeserialize, ByteAlignedSerialize, ByteReader};

verus! {

// ---------------------------------------------------------------------------
// Fields of a declared width.
// ---------------------------------------------------------------------------

/// A value written in exactly `N` bits, as a field declared with that width. A width of
/// 0 or more than 64 cannot be written.
#[derive(Debug, Clone, Copy, PartialEq, Eq)]
pub struct BitField<const N: usize> {
    pub value: u64,
}

impl<const N: usize> DeepView for BitField<N> {
    type V = u64;

    open spec fn deep_view(&self) -> u64 {
        self.value
    }
}

/// A width that a field can be written in.
pub open spec fn width_ok(n: nat) -> bool {
    1 <= n <= 64
}

impl<const N: usize> BitSerialize for BitField<N> {
    /// The low `N` bits of the value; nothing when it does not fit.
    open spec fn spec_bit_ops(v: u64) -> Seq<BitOp> {
        if width_ok(N as nat) {
            field_ops(v, N as nat)
        } else {
            Seq::empty()
        }
    }

    open spec fn spec_bit_ok(v: u64) -> bool {
        width_ok(N as nat) && fits_bits(v, N as nat)
    }

    proof fn lemma_bit_ops_valid(v: u64) {
        lemma_single_op(crate::serialize::empty_state(), BitOp::Bits(v, N as nat));
    }

    fn bit_serialize(&self, writer: &mut BitBuffer) -> (r: Result<(), BitError>) {
        if N == 0 || N > 64 {
            proof {
                assert(writer@.after_ops(Seq::<BitOp>::empty()) == writer@);
            }
            return Err(BitError::InvalidData);
        }
        proof {
            lemma_single_op(writer@, BitOp::Bits(self.value, N as nat));
        }
        write_field(writer, self.value, N)
    }
}

impl<const N: usize> BitDeserialize for BitField<N> {
    /// `N` bits.
    open spec fn spec_bit_read(s: BitState) -> (Result<u64, BitError>, BitState) {
        if width_ok(N as nat) {
            read_then(s, N as nat, |w: u64| w)
        } else {
            (Err(BitError::InvalidData), s)
        }
    }

    fn bit_deserialize(reader: &mut BitBuffer) -> (r: Result<BitField<N>, BitError>) {
        if N == 0 || N > 64 {
            return Err(BitError::InvalidData);
        }
        let value = reader.read_bits(N)?;
        Ok(BitField { value })
    }

    proof fn lemma_bit_roundtrip(v: u64, s: BitState) {
        lemma_single_op(s, BitOp::Bits(v, N as nat));
        lemma_read_value(s, v, N as nat);
    }
}

// ---------------------------------------------------------------------------
// The state of the game.
// ---------------------------------------------------------------------------

/// The round (10 bits), the score (8 bits) and whether the game is paused (1 bit).
#[derive(Debug, Clone, Copy, PartialEq, Eq, Structural, Default)]
pub struct GameState {
    pub round: u16,
    pub score: u8,
    pub is_paused: bool,
}

impl DeepView for GameState {
    type V = GameState;

    open spec fn deep_view(&self) -> GameState {
        *self
    }
}

/// The fields of a game state as written.
pub open spec fn game_state_fields(g: GameState) -> (u64, u64, u64) {
    (g.round as u64, g.score as u64, flag_value(g.is_paused))
}

impl BitSerialize for GameState {
    /// The round in 10 bits, the score in 8, the flag in 1; a round that does not fit
    /// stops the writing.
    open spec fn spec_bit_ops(v: GameState) -> Seq<BitOp> {
        <(BitField<10>, BitField<8>, BitField<1>)>::spec_bit_ops(game_state_fields(v))
    }

    open spec fn spec_bit_ok(v: GameState) -> bool {
        <(BitField<10>, BitField<8>, BitField<1>)>::spec_bit_ok(game_state_fields(v))
    }

    proof fn lemma_bit_ops_valid(v: GameState) {
        <(BitField<10>, BitField<8>, BitField<1>)>::lemma_bit_ops_valid(game_state_fields(v));
    }

    fn bit_serialize(&self, writer: &mut BitBuffer) -> (r: Result<(), BitError>) {
        let fields = (
            BitField::<10> { value: self.round as u64 },
            BitField::<8> { value: self.score as u64 },
            BitField::<1> { value: if self.is_paused { 1 } else { 0 } },
        );
        fields.bit_serialize(writer)
    }
}

impl BitDeserialize for GameState {
    /// The round from 10 bits, the score from 8, the flag from 1 (set unless 0).
    open spec fn spec_bit_read(s: BitState) -> (Result<GameState, BitError>, BitState) {
        let (r, t) = <(BitField<10>, BitField<8>, BitField<1>)>::spec_bit_read(s);
        match r {
            Ok(f) => (Ok(GameState { round: f.0 as u16, score: f.1 as u8, is_paused: f.2 != 0 }), t),
            Err(e) => (Err(e), t),
        }
    }

    fn bit_deserialize(reader: &mut BitBuffer) -> (r: Result<GameState, BitError>) {
        let (round, score, is_paused) = <(BitField<10>, BitField<8>, BitField<1>)>::bit_deserialize(
            reader,
        )?;
        Ok(GameState { round: round.value as u16, score: score.value as u8, is_paused: is_paused.value != 0 })
    }

    proof fn lemma_bit_roundtrip(v: GameState, s: BitState) {
        <(BitField<10>, BitField<8>, BitField<1>)>::lemma_bit_roundtrip(game_state_fields(v), s);
    }
}

// ---------------------------------------------------------------------------
// Players.
// ---------------------------------------------------------------------------

/// A player's health (6 bits), energy (4 bits), whether it is active (1 bit) and an
/// optional nickname.
#[derive(Debug, Clone, Copy, PartialEq, Eq, Structural, Default)]
pub struct PlayerInfo {
    pub health: u8,
    pub energy: u8,
    pub is_active: bool,
    pub nickname: Option<u8>,
}

impl DeepView for PlayerInfo {
    type V = PlayerInfo;

    open spec fn deep_view(&self) -> PlayerInfo {
        *self
    }
}

/// The fields of a player as written.
pub open spec fn player_fields(p: PlayerInfo) -> (u64, u64, u64, Option<u8>) {
    (p.health as u64, p.energy as u64, flag_value(p.is_active), p.nickname)
}

impl BitSerialize for PlayerInfo {
    /// Health in 6 bits, energy in 4, the flag in 1, then the nickname as an option; a
    /// value that does not fit stops the writing.
    open spec fn spec_bit_ops(v: PlayerInfo) -> Seq<BitOp> {
        <(BitField<6>, BitField<4>, BitField<1>, Option<u8>)>::spec_bit_ops(player_fields(v))
    }

    open spec fn spec_bit_ok(v: PlayerInfo) -> bool {
        <(BitField<6>, BitField<4>, BitField<1>, Option<u8>)>::spec_bit_ok(player_fields(v))
    }

    proof fn lemma_bit_ops_valid(v: PlayerInfo) {
        <(BitField<6>, BitField<4>, BitField<1>, Option<u8>)>::lemma_bit_ops_valid(player_fields(v));
    }

    fn bit_serialize(&self, writer: &mut BitBuffer) -> (r: Result<(), BitError>) {
        let fields = (
            BitField::<6> { value: self.health as u64 },
            BitField::<4> { value: self.energy as u64 },
            BitField::<1> { value: if self.is_active { 1 } else { 0 } },
            self.nickname,
        );
        fields.bit_serialize(writer)
    }
}

impl BitDeserialize for PlayerInfo {
    /// Health from 6 bits, energy from 4, the flag from 1 (set unless 0), then the
    /// nickname.
    open spec fn spec_bit_read(s: BitState) -> (Result<PlayerInfo, BitError>, BitState) {
        let (r, t) = <(BitField<6>, BitField<4>, BitField<1>, Option<u8>)>::spec_bit_read(s);
        match r {
            Ok(f) => (
                Ok(
                    PlayerInfo {
                        health: f.0 as u8,
                        energy: f.1 as u8,
                        is_active: f.2 != 0,
                        nickname: f.3,
                    },
                ),
                t,
            ),
            Err(e) => (Err(e), t),
        }
    }

    fn bit_deserialize(reader: &mut BitBuffer) -> (r: Result<PlayerInfo, BitError>) {
        let (health, energy, is_active, nickname) = <(
            BitField<6>,
            BitField<4>,
            BitField<1>,
            Option<u8>,
        )>::bit_deserialize(reader)?;
        Ok(
            PlayerInfo {
                health: health.value as u8,
                energy: energy.value as u8,
                is_active: is_active.value != 0,
                nickname,
            },
        )
    }

    proof fn lemma_bit_roundtrip(v: PlayerInfo, s: BitState) {
        <(BitField<6>, BitField<4>, BitField<1>, Option<u8>)>::lemma_bit_roundtrip(
            player_fields(v),
            s,
        );
    }
}

// ---------------------------------------------------------------------------
// Kinds of message.
// ---------------------------------------------------------------------------

/// What a message is about; its index is written in 2 bits.
#[derive(Debug, Clone, Copy, PartialEq, Eq, Structural)]
pub enum MessageType {
    StatusUpdate,
    /// `code` takes 8 bits.
    Command { code: u8 },
    /// `level` takes 4 bits.
    Alert { level: u8 },
    Sync,
}

impl DeepView for MessageType {
    type V = MessageType;

    open spec fn deep_view(&self) -> MessageType {
        *self
    }
}

/// The index written for each kind of message.
pub open spec fn message_type_index(m: MessageType) -> u64 {
    match m {
        MessageType::StatusUpdate => 0,
        MessageType::Command { .. } => 1,
        MessageType::Alert { .. } => 2,
        MessageType::Sync => 3,
    }
}

/// The writes of a kind's fields after its index.
pub open spec fn message_type_field_ops(m: MessageType) -> Seq<BitOp> {
    match m {
        MessageType::Command { code } => field_ops(code as u64, 8),
        MessageType::Alert { level } => field_ops(level as u64, 4),
        _ => Seq::empty(),
    }
}

impl BitSerialize for MessageType {
    /// A 2-bit index, then the kind's field; an alert level that does not fit in 4 bits
    /// is not written.
    open spec fn spec_bit_ops(v: MessageType) -> Seq<BitOp> {
        seq![BitOp::Bits(message_type_index(v), 2)] + message_type_field_ops(v)
    }

    open spec fn spec_bit_ok(v: MessageType) -> bool {
        match v {
            MessageType::Alert { level } => level < 16,
            _ => true,
        }
    }

    proof fn lemma_bit_ops_valid(v: MessageType) {
        let head = seq![BitOp::Bits(message_type_index(v), 2)];
        lemma_single_op(crate::serialize::empty_state(), BitOp::Bits(message_type_index(v), 2));
        assert(crate::serialize::bit_io::ops_valid(message_type_field_ops(v)));
        crate::serialize::lemma_ops_valid_append(head, message_type_field_ops(v));
    }

    fn bit_serialize(&self, writer: &mut BitBuffer) -> (r: Result<(), BitError>) {
        let ghost s0 = writer@;
        let ghost head = seq![BitOp::Bits(message_type_index(*self), 2)];
        let ghost rest = message_type_field_ops(*self);
        proof {
            lemma_single_op(s0, BitOp::Bits(message_type_index(*self), 2));
            lemma_then(s0, head, rest);
            assert(pow2(8) == 256 && pow2(4) == 16) by {
                vstd::arithmetic::power2::lemma2_to64();
            }
        }
        match self {
            MessageType::StatusUpdate => {
                writer.write_bits(0, 2)?;
            },
            MessageType::Command { code } => {
                writer.write_bits(1, 2)?;
                proof {
                    lemma_single_op(writer@, BitOp::Bits(*code as u64, 8));
                }
                write_field(writer, *code as u64, 8)?;
            },
            MessageType::Alert { level } => {
                writer.write_bits(2, 2)?;
                proof {
                    lemma_single_op(writer@, BitOp::Bits(*level as u64, 4));
                    assert(writer@.after_ops(Seq::<BitOp>::empty()) == writer@);
                }
                write_field(writer, *level as u64, 4)?;
            },
            MessageType::Sync => {
                writer.write_bits(3, 2)?;
            },
        }
        proof {
            assert(writer@.after_ops(Seq::<BitOp>::empty()) == writer@);
        }
        Ok(())
    }
}

impl BitDeserialize for MessageType {
    /// A 2-bit index, then the kind's field.
    open spec fn spec_bit_read(s: BitState) -> (Result<MessageType, BitError>, BitState) {
        let (r, t) = s.read_bits_result(2);
        match r {
            Err(e) => (Err(e), t),
            Ok(i) => if i == 0 {
                (Ok(MessageType::StatusUpdate), t)
            } else if i == 1 {
                read_then(t, 8, |w: u64| MessageType::Command { code: w as u8 })
            } else if i == 2 {
                read_then(t, 4, |w: u64| MessageType::Alert { level: w as u8 })
            } else if i == 3 {
                (Ok(MessageType::Sync), t)
            } else {
                (Err(BitError::InvalidData), t)
            },
        }
    }

    fn bit_deserialize(reader: &mut BitBuffer) -> (r: Result<MessageType, BitError>) {
        let variant_index = reader.read_bits(2)?;
        if variant_index == 0 {
            Ok(MessageType::StatusUpdate)
        } else if variant_index == 1 {
            let code = reader.read_bits(8)? as u8;
            Ok(MessageType::Command { code })
        } else if variant_index == 2 {
            let level = reader.read_bits(4)? as u8;
            Ok(MessageType::Alert { level })
        } else if variant_index == 3 {
            Ok(MessageType::Sync)
        } else {
            Err(BitError::InvalidData)
        }
    }

    proof fn lemma_bit_roundtrip(v: MessageType, s: BitState) {
        let idx = message_type_index(v);
        let head = seq![BitOp::Bits(idx, 2)];
        let rest = message_type_field_ops(v);
        let a = value_bits(idx, 2);
        let b = ops_bits(rest);
        lemma_single_op(s, BitOp::Bits(idx, 2));
        crate::serialize::bit_io::lemma_ops_bits_append(head, rest);
        assert(pow2(2) == 4 && pow2(8) == 256 && pow2(4) == 16) by {
            vstd::arithmetic::power2::lemma2_to64();
        }
        lemma_split_bits(s, a, b);
        lemma_read_value(s, idx, 2);
        let t = s.reading_at((s.read_pos + 2) as nat);
        match v {
            MessageType::Command { code } => {
                lemma_single_op(t, BitOp::Bits(code as u64, 8));
                lemma_read_value(t, code as u64, 8);
            },
            MessageType::Alert { level } => {
                lemma_single_op(t, BitOp::Bits(level as u64, 4));
                lemma_read_value(t, level as u64, 4);
            },
            _ => {
                assert(b =~= Seq::<bool>::empty());
                assert(s.reading_at(t.read_pos) == t);
            },
        }
    }
}

// ---------------------------------------------------------------------------
// Messages.
// ---------------------------------------------------------------------------

/// A message: its id (10 bits), priority (8 bits), urgency (1 bit), up to 4 players
/// after a 2-bit count, its kind, and the game state starting at a byte boundary.
#[derive(Debug, PartialEq)]
pub struct NetworkMessage {
    pub message_id: u16,
    pub priority: u8,
    pub is_urgent: bool,
    pub players: Vec<PlayerInfo>,
    pub message_type: MessageType,
    pub game_state: GameState,
}

/// What the contracts know of a message.
pub struct MessageModel {
    pub message_id: u16,
    pub priority: u8,
    pub is_urgent: bool,
    pub players: Seq<PlayerInfo>,
    pub message_type: MessageType,
    pub game_state: GameState,
}

impl View for NetworkMessage {
    type V = MessageModel;

    open spec fn view(&self) -> MessageModel {
        MessageModel {
            message_id: self.message_id,
            priority: self.priority,
            is_urgent: self.is_urgent,
            players: self.players@,
            message_type: self.message_type,
            game_state: self.game_state,
        }
    }
}

/// The most players a message carries.
pub const MAX_PLAYERS: usize = 4;

/// The width of the player count, in bits: the fewest that reach the maximum of 4.
pub const PLAYER_COUNT_BITS: usize = 2;

/// How many counts the player count's bits hold: 0 to 3.
pub const PLAYER_COUNTS: usize = 4;

/// A number of players can be written: at most the maximum, and held by the count's bits.
pub open spec fn count_fits(len: nat) -> bool {
    len <= MAX_PLAYERS && len < PLAYER_COUNTS
}

/// The fields written first: id, priority and urgency.
pub open spec fn head_fields(m: MessageModel) -> (u64, u64, u64) {
    (m.message_id as u64, m.priority as u64, flag_value(m.is_urgent))
}

/// The writes of the head fields.
pub open spec fn head_ops(m: MessageModel) -> Seq<BitOp> {
    <(BitField<10>, BitField<8>, BitField<1>)>::spec_bit_ops(head_fields(m))
}

/// The head fields fit their widths.
pub open spec fn head_ok(m: MessageModel) -> bool {
    <(BitField<10>, BitField<8>, BitField<1>)>::spec_bit_ok(head_fields(m))
}

/// The writes of the players: a 2-bit count, then each player, stopping after the first
/// that fails; nothing when the count does not fit.
pub open spec fn players_ops(players: Seq<PlayerInfo>) -> Seq<BitOp> {
    if !count_fits(players.len()) {
        Seq::empty()
    } else {
        seq![BitOp::Bits(players.len() as u64, 2)] + crate::serialize::seq_ops::<PlayerInfo>(players)
    }
}

/// The players can be written.
pub open spec fn players_ok(players: Seq<PlayerInfo>) -> bool {
    count_fits(players.len()) && crate::serialize::all_ok::<PlayerInfo>(players)
}

/// Zero bits from write position `pos` up to the next byte boundary.
pub open spec fn pad_ops(pos: nat) -> Seq<BitOp> {
    Seq::new((8 * crate::serialize::bit_io::bytes_for(pos) - pos) as nat, |i: int| BitOp::Bit(false))
}

/// The writes of the fields before the game state.
pub open spec fn before_state_ops(m: MessageModel) -> Seq<BitOp> {
    head_ops(m) + players_ops(m.players) + MessageType::spec_bit_ops(m.message_type)
}

/// The writes of serializing `m` from write position `pos`: the head fields, the
/// players, the kind, zero bits up to a byte boundary, and the game state; writing stops
/// after the first part that fails.
pub open spec fn message_ops(m: MessageModel, pos: nat) -> Seq<BitOp> {
    if !head_ok(m) {
        head_ops(m)
    } else if !players_ok(m.players) {
        head_ops(m) + players_ops(m.players)
    } else if !MessageType::spec_bit_ok(m.message_type) {
        before_state_ops(m)
    } else {
        before_state_ops(m) + pad_ops(pos + ops_bits(before_state_ops(m)).len()) + GameState::spec_bit_ops(
            m.game_state,
        )
    }
}

/// Every part of `m` can be written.
pub open spec fn message_ok(m: MessageModel) -> bool {
    &&& head_ok(m)
    &&& players_ok(m.players)
    &&& MessageType::spec_bit_ok(m.message_type)
    &&& GameState::spec_bit_ok(m.game_state)
}

/// What reading the players returns: a 2-bit count, more than 4 being invalid data,
/// then that many players.
pub open spec fn players_read(s: BitState) -> (Result<Seq<PlayerInfo>, BitError>, BitState) {
    let (r, t) = s.read_bits_result(2);
    match r {
        Ok(c) => if c > MAX_PLAYERS {
            (Err(BitError::InvalidData), t)
        } else {
            crate::serialize::read_items::<PlayerInfo>(t, c as nat)
        },
        Err(e) => (Err(e), t),
    }
}

/// The read position moved up to the next byte boundary.
pub open spec fn align_read(s: BitState) -> BitState {
    s.reading_at(8 * crate::serialize::bit_io::bytes_for(s.read_pos))
}

/// What reading a message from `s` returns, and the state after it: the head fields,
/// the players, the kind, then the game state from the next byte boundary; reading stops
/// at the first part that fails.
pub open spec fn message_read(s: BitState) -> (Result<MessageModel, BitError>, BitState) {
    let (rh, s1) = <(BitField<10>, BitField<8>, BitField<1>)>::spec_bit_read(s);
    match rh {
        Err(e) => (Err(e), s1),
        Ok(h) => {
            let (rp, s2) = players_read(s1);
            match rp {
                Err(e) => (Err(e), s2),
                Ok(players) => {
                    let (rt, s3) = MessageType::spec_bit_read(s2);
                    match rt {
                        Err(e) => (Err(e), s3),
                        Ok(t) => {
                            let (rg, s4) = GameState::spec_bit_read(align_read(s3));
                            match rg {
                                Err(e) => (Err(e), s4),
                                Ok(g) => (
                                    Ok(
                                        MessageModel {
                                            message_id: h.0 as u16,
                                            priority: h.1 as u8,
                                            is_urgent: h.2 != 0,
                                            players,
                                            message_type: t,
                                            game_state: g,
                                        },
                                    ),
                                    s4,
                                ),
                            }
                        },
                    }
                },
            }
        },
    }
}

/// `n` zero bits written one at a time.
proof fn lemma_pad_step(s: BitState, n: nat)
    requires
        s.wf(),
    ensures
        s.after_ops(Seq::new(n + 1, |i: int| BitOp::Bit(false))) == s.after_ops(
            Seq::new(n, |i: int| BitOp::Bit(false)),
        ).after_op(BitOp::Bit(false)),
        ops_bits(Seq::new(n, |i: int| BitOp::Bit(false))).len() == n,
    decreases n,
{
    let a = Seq::new(n, |i: int| BitOp::Bit(false));
    assert(Seq::new(n + 1, |i: int| BitOp::Bit(false)) =~= a + seq![BitOp::Bit(false)]);
    lemma_then(s, a, seq![BitOp::Bit(false)]);
    lemma_single_op(s.after_ops(a), BitOp::Bit(false));
    if n > 0 {
        lemma_pad_step(s, (n - 1) as nat);
        let b = Seq::new((n - 1) as nat, |i: int| BitOp::Bit(false));
        assert(a =~= b + seq![BitOp::Bit(false)]);
        crate::serialize::bit_io::lemma_ops_bits_append(b, seq![BitOp::Bit(false)]);
        lemma_single_op(s, BitOp::Bit(false));
    } else {
        assert(a =~= Seq::<BitOp>::empty());
    }
}

/// Writes the player count in 2 bits and the players; more than 4 players, or a count that
/// 2 bits do not hold, are refused as invalid data, with nothing written.
fn write_players(players: &Vec<PlayerInfo>, writer: &mut BitBuffer) -> (r: Result<(), BitError>)
    requires
        old(writer).spec_write_room(ops_bits(players_ops(players@)).len()),
    ensures
        final(writer)@ == old(writer)@.after_ops(players_ops(players@)),
        r is Ok <==> players_ok(players@),
        r matches Err(e) ==> e == BitError::InvalidData,
{
    if players.len() > MAX_PLAYERS || players.len() >= PLAYER_COUNTS {
        proof {
            assert(writer@.after_ops(Seq::<BitOp>::empty()) == writer@);
        }
        return Err(BitError::InvalidData);
    }
    let ghost s1 = writer@;
    let ghost count = seq![BitOp::Bits(players.len() as u64, 2)];
    let ghost items = crate::serialize::seq_ops::<PlayerInfo>(players@);
    proof {
        lemma_then(s1, count, items);
        lemma_single_op(s1, BitOp::Bits(players.len() as u64, 2));
    }
    writer.write_bits(players.len() as u64, PLAYER_COUNT_BITS)?;
    let slice = players.as_slice();
    proof {
        assert(slice.deep_view() =~= players@);
    }
    crate::serialize::serialize_items(slice, writer)
}

/// Writes zero bits up to the next byte boundary.
fn write_padding(writer: &mut BitBuffer) -> (r: Result<(), BitError>)
    requires
        old(writer).spec_write_room(ops_bits(pad_ops(old(writer)@.write_pos)).len()),
    ensures
        final(writer)@ == old(writer)@.after_ops(pad_ops(old(writer)@.write_pos)),
        r is Ok,
{
    let ghost s3 = writer@;
    let ghost p3 = s3.write_pos;
    proof {
        lemma_pad_step(s3, 0);
        lemma_pad_step(s3, (8 * crate::serialize::bit_io::bytes_for(p3) - p3) as nat);
        assert(Seq::new(0, |i: int| BitOp::Bit(false)) =~= Seq::<BitOp>::empty());
    }
    while BitWrite::bit_pos(writer) % 8 != 0
        invariant
            s3.wf(),
            p3 == s3.write_pos,
            p3 <= writer@.write_pos <= 8 * crate::serialize::bit_io::bytes_for(p3),
            writer@ == s3.after_ops(
                Seq::new((writer@.write_pos - p3) as nat, |i: int| BitOp::Bit(false)),
            ),
            writer@.wf(),
            8 * crate::serialize::bit_io::bytes_for(p3) <= usize::MAX,
        decreases 8 * crate::serialize::bit_io::bytes_for(p3) - writer@.write_pos,
    {
        let ghost n = (writer@.write_pos - p3) as nat;
        proof {
            lemma_pad_step(s3, n);
        }
        writer.write_bit(false)?;
    }
    proof {
        assert(Seq::new((writer@.write_pos - p3) as nat, |i: int| BitOp::Bit(false)) =~= pad_ops(
            p3,
        ));
    }
    Ok(())
}

/// Reading back the players that were written gives them back.
proof fn lemma_players_roundtrip(players: Seq<PlayerInfo>, s: BitState)
    requires
        players_ok(players),
        s.readable(),
        s.read_pos + ops_bits(players_ops(players)).len() <= s.bits.len(),
        s.bits.subrange(
            s.read_pos as int,
            (s.read_pos + ops_bits(players_ops(players)).len()) as int,
        ) == ops_bits(players_ops(players)),
    ensures
        players_read(s) == (
            Ok::<Seq<PlayerInfo>, BitError>(players),
            s.reading_at(s.read_pos + ops_bits(players_ops(players)).len()),
        ),
{
    let count = BitOp::Bits(players.len() as u64, 2);
    let items = crate::serialize::seq_ops::<PlayerInfo>(players);
    lemma_single_op(s, count);
    crate::serialize::bit_io::lemma_ops_bits_append(seq![count], items);
    lemma_split_bits(s, value_bits(players.len() as u64, 2), ops_bits(items));
    assert(pow2(2) == 4) by {
        vstd::arithmetic::power2::lemma2_to64();
    }
    lemma_read_value(s, players.len() as u64, 2);
    crate::serialize::lemma_read_items_roundtrip::<PlayerInfo>(
        players,
        s.reading_at(s.read_pos + 2),
    );
}

/// Reading back a message from the position that it was written at gives it back:
/// wherever the bits that serializing `m` from write position `p` produces stand, reading
/// them from `p` returns `m` and stops right after them.
pub proof fn lemma_message_roundtrip(m: MessageModel, s: BitState)
    requires
        message_ok(m),
        s.readable(),
        s.read_pos + ops_bits(message_ops(m, s.read_pos)).len() <= s.bits.len(),
        s.bits.subrange(
            s.read_pos as int,
            (s.read_pos + ops_bits(message_ops(m, s.read_pos)).len()) as int,
        ) == ops_bits(message_ops(m, s.read_pos)),
    ensures
        message_read(s) == (
            Ok::<MessageModel, BitError>(m),
            s.reading_at(s.read_pos + ops_bits(message_ops(m, s.read_pos)).len()),
        ),
{
    let p = s.read_pos;
    let h = head_ops(m);
    let pl = players_ops(m.players);
    let t = MessageType::spec_bit_ops(m.message_type);
    let before = h + pl + t;
    let n = (8 * crate::serialize::bit_io::bytes_for(p + ops_bits(before).len()) - (p + ops_bits(
        before,
    ).len())) as nat;
    let pad = pad_ops(p + ops_bits(before).len());
    let g = GameState::spec_bit_ops(m.game_state);
    let hb = ops_bits(h);
    let plb = ops_bits(pl);
    let tb = ops_bits(t);
    let padb = ops_bits(pad);
    let gb = ops_bits(g);
    crate::serialize::bit_io::lemma_ops_bits_append(h, pl);
    crate::serialize::bit_io::lemma_ops_bits_append(h + pl, t);
    crate::serialize::bit_io::lemma_ops_bits_append(before, pad);
    crate::serialize::bit_io::lemma_ops_bits_append(before + pad, g);
    assert(message_ops(m, p) == before + pad + g);
    assert(ops_bits(message_ops(m, p)) =~= hb + (plb + (tb + (padb + gb))));
    lemma_split_bits(s, hb, plb + (tb + (padb + gb)));
    <(BitField<10>, BitField<8>, BitField<1>)>::lemma_bit_roundtrip(head_fields(m), s);
    let s1 = s.reading_at(p + hb.len());
    lemma_split_bits(s1, plb, tb + (padb + gb));
    lemma_players_roundtrip(m.players, s1);
    let s2 = s1.reading_at(s1.read_pos + plb.len());
    lemma_split_bits(s2, tb, padb + gb);
    MessageType::lemma_bit_roundtrip(m.message_type, s2);
    let s3 = s2.reading_at(s2.read_pos + tb.len());
    lemma_pad_step(s, n);
    assert(pad == Seq::new(n, |i: int| BitOp::Bit(false)));
    assert(padb.len() == n);
    lemma_split_bits(s3, padb, gb);
    let s4 = s3.reading_at(s3.read_pos + padb.len());
    assert(align_read(s3) == s4);
    GameState::lemma_bit_roundtrip(m.game_state, s4);
    assert(m.message_id as u64 as u16 == m.message_id);
    assert(m.priority as u64 as u8 == m.priority);
}

/// Every write of serializing a message is one that the buffer accepts.
proof fn lemma_message_ops_valid(m: MessageModel, pos: nat)
    ensures
        ops_valid(message_ops(m, pos)),
{
    let h = head_ops(m);
    let pl = players_ops(m.players);
    let t = MessageType::spec_bit_ops(m.message_type);
    let g = GameState::spec_bit_ops(m.game_state);
    <(BitField<10>, BitField<8>, BitField<1>)>::lemma_bit_ops_valid(head_fields(m));
    if count_fits(m.players.len()) {
        lemma_single_op(
            crate::serialize::empty_state(),
            BitOp::Bits(m.players.len() as u64, 2),
        );
        crate::serialize::lemma_seq_ops_valid::<PlayerInfo>(m.players);
        crate::serialize::lemma_ops_valid_append(
            seq![BitOp::Bits(m.players.len() as u64, 2)],
            crate::serialize::seq_ops::<PlayerInfo>(m.players),
        );
    }
    MessageType::lemma_bit_ops_valid(m.message_type);
    GameState::lemma_bit_ops_valid(m.game_state);
    crate::serialize::lemma_ops_valid_append(h, pl);
    crate::serialize::lemma_ops_valid_append(h + pl, t);
    let pad = pad_ops(pos + ops_bits(before_state_ops(m)).len());
    assert(ops_valid(pad));
    crate::serialize::lemma_ops_valid_append(before_state_ops(m), pad);
    crate::serialize::lemma_ops_valid_append(before_state_ops(m) + pad, g);
}

/// The bits that [`BitBuffer::into_bytes`] hands over after serializing `m` into a new
/// buffer.
pub open spec fn message_bits(m: MessageModel, pad_to_byte: bool) -> Seq<bool> {
    let s = crate::serialize::empty_state().after_ops(message_ops(m, 0));
    if pad_to_byte {
        s.bits_after_pad()
    } else {
        s.bits
    }
}

/// Serializing a message into a new buffer, taking its bytes, and deserializing from a
/// buffer made of those bytes gives the message back, padded or not.
pub proof fn lemma_message_serialize_deserialize(m: MessageModel, pad_to_byte: bool)
    requires
        message_ok(m),
        ops_bits(message_ops(m, 0)).len() + 72 <= usize::MAX,
    ensures
        message_read(crate::serialize::reader_state(message_bits(m, pad_to_byte))).0 == Ok::<
            MessageModel,
            BitError,
        >(m),
{
    let ops = message_ops(m, 0);
    let enc = ops_bits(ops);
    let s0 = crate::serialize::empty_state();
    lemma_message_ops_valid(m, 0);
    assert(s0.written() =~= Seq::<bool>::empty());
    crate::serialize::bit_io::lemma_compact_after_ops(s0, ops);
    let s1 = s0.after_ops(ops);
    assert(s0.written() + enc =~= enc);
    crate::serialize::bit_io::lemma_compact_pad(s1);
    let bits = message_bits(m, pad_to_byte);
    assert(bits == s1.bits);
    let reader = crate::serialize::reader_state(bits);
    assert(reader.bits.subrange(0, enc.len() as int) =~= enc) by {
        assert forall|q: int| 0 <= q < enc.len() implies reader.bits.subrange(
            0,
            enc.len() as int,
        )[q] == enc[q] by {
            assert(s1.written()[q] == bits[q]);
        }
    }
    lemma_message_roundtrip(m, reader);
}

/// Reads the player count from 2 bits and that many players; a count over 4 is invalid
/// data.
fn read_players(reader: &mut BitBuffer) -> (r: Result<Vec<PlayerInfo>, BitError>)
    requires
        old(reader)@.readable(),
    ensures
        final(reader)@ == players_read(old(reader)@).1,
        r matches Ok(v) ==> players_read(old(reader)@).0 == Ok::<Seq<PlayerInfo>, BitError>(v@),
        r matches Err(e) ==> players_read(old(reader)@).0 == Err::<Seq<PlayerInfo>, BitError>(e),
        final(reader)@.readable(),
        final(reader)@.bits == old(reader)@.bits,
{
    let count = reader.read_bits(PLAYER_COUNT_BITS)?;
    if count > MAX_PLAYERS as u64 {
        return Err(BitError::InvalidData);
    }
    let players = crate::serialize::deserialize_items::<PlayerInfo>(reader, count as usize)?;
    proof {
        assert(players.deep_view() =~= players@);
    }
    Ok(players)
}

/// Skips bits up to the next byte boundary. A buffer always holds whole bytes, so this
/// never runs past its end.
fn skip_to_byte(reader: &mut BitBuffer)
    requires
        old(reader)@.readable(),
    ensures
        final(reader)@ == align_read(old(reader)@),
        final(reader)@.readable(),
{
    let ghost s0 = reader@;
    let ghost end = 8 * crate::serialize::bit_io::bytes_for(s0.read_pos);
    proof {
        assert(end <= s0.bits.len());
    }
    while BitRead::bit_pos(reader) % 8 != 0
        invariant
            s0.readable(),
            end == 8 * crate::serialize::bit_io::bytes_for(s0.read_pos),
            end <= s0.bits.len(),
            s0.read_pos <= reader@.read_pos <= end,
            reader@ == s0.reading_at(reader@.read_pos),
            reader@.readable(),
        decreases end - reader@.read_pos,
    {
        let _ = reader.read_bit();
    }
}

impl NetworkMessage {
    /// Writes the message from the writer's position: the id in 10 bits, the priority in
    /// 8, the urgency in 1, the player count in 2 and the players, the kind, zero bits up
    /// to a byte boundary, then the game state. A value that does not fit its width,
    /// including a player count of 4 or more, is refused as invalid data, after the parts
    /// before it.
    pub fn bit_serialize(&self, writer: &mut BitBuffer) -> (r: Result<(), BitError>)
        requires
            old(writer).spec_write_room(ops_bits(message_ops(self@, old(writer)@.write_pos)).len()),
        ensures
            final(writer)@ == old(writer)@.after_ops(message_ops(self@, old(writer)@.write_pos)),
            r is Ok <==> message_ok(self@),
            r matches Err(e) ==> e == BitError::InvalidData,
    {
        let ghost m = self@;
        let ghost s0 = writer@;
        let ghost p0 = s0.write_pos;
        let ghost h = head_ops(m);
        let ghost pl = players_ops(m.players);
        let ghost t = MessageType::spec_bit_ops(m.message_type);
        let ghost g = GameState::spec_bit_ops(m.game_state);
        proof {
            lemma_then(s0, h, pl);
            lemma_then(s0, h + pl, t);
            lemma_then(s0.after_ops(h), pl, t);
            assert(h + pl + t =~= h + (pl + t));
            if head_ok(m) && players_ok(m.players) && MessageType::spec_bit_ok(m.message_type) {
                let pad = pad_ops(p0 + ops_bits(h + pl + t).len());
                lemma_then(s0, h + pl + t, pad);
                lemma_then(s0, h + pl + t + pad, g);
                lemma_then(s0.after_ops(h + pl + t), pad, g);
                assert(h + pl + t + pad + g =~= (h + pl + t) + (pad + g));
            }
        }
        let head = (
            BitField::<10> { value: self.message_id as u64 },
            BitField::<8> { value: self.priority as u64 },
            BitField::<1> { value: if self.is_urgent { 1 } else { 0 } },
        );
        head.bit_serialize(writer)?;
        write_players(&self.players, writer)?;
        self.message_type.bit_serialize(writer)?;
        write_padding(writer)?;
        self.game_state.bit_serialize(writer)
    }
    /// Reads a message: the id from 10 bits, the priority from 8, the urgency from 1, the
    /// player count from 2 and the players, the kind, then, after skipping to a byte
    /// boundary, the game state. A count over 4 is invalid data.
    pub fn bit_deserialize(reader: &mut BitBuffer) -> (r: Result<NetworkMessage, BitError>)
        requires
            old(reader)@.readable(),
        ensures
            final(reader)@ == message_read(old(reader)@).1,
            r matches Ok(m) ==> message_read(old(reader)@).0 == Ok::<MessageModel, BitError>(m@),
            r matches Err(e) ==> message_read(old(reader)@).0 == Err::<MessageModel, BitError>(e),
            final(reader)@.readable(),
            final(reader)@.bits == old(reader)@.bits,
    {
        let (id, priority, urgent) = <(BitField<10>, BitField<8>, BitField<1>)>::bit_deserialize(
            reader,
        )?;
        let players = read_players(reader)?;
        let message_type = MessageType::bit_deserialize(reader)?;
        skip_to_byte(reader);
        let game_state = GameState::bit_deserialize(reader)?;
        let m = NetworkMessage {
            message_id: id.value as u16,
            priority: priority.value as u8,
            is_urgent: urgent.value != 0,
            players,
            message_type,
            game_state,
        };
        proof {
            assert(m@.players == players@);
        }
        Ok(m)
    }
}

// ---------------------------------------------------------------------------
// Whole-byte forms.
// ---------------------------------------------------------------------------

impl ByteAlignedSerialize for GameState {
    /// The round in 2 bytes, the score in 1, the flag in 1.
    open spec fn spec_bytes(v: GameState) -> Seq<u8> {
        <(u16, u8, bool)>::spec_bytes((v.round, v.score, v.is_paused))
    }

    open spec fn spec_byte_ok(v: GameState) -> bool {
        true
    }

    fn byte_aligned_serialize(&self, writer: &mut Vec<u8>) -> (r: Result<(), BitError>) {
        (self.round, self.score, self.is_paused).byte_aligned_serialize(writer)
    }
}

impl ByteAlignedDeserialize for GameState {
    /// The round, the score and the flag.
    open spec fn spec_byte_read(data: Seq<u8>, pos: nat) -> (Result<GameState, BitError>, nat) {
        let (r, p) = <(u16, u8, bool)>::spec_byte_read(data, pos);
        match r {
            Ok(f) => (Ok(GameState { round: f.0, score: f.1, is_paused: f.2 }), p),
            Err(e) => (Err(e), p),
        }
    }

    fn byte_aligned_deserialize(reader: &mut ByteReader) -> (r: Result<GameState, BitError>) {
        let (round, score, is_paused) = <(u16, u8, bool)>::byte_aligned_deserialize(reader)?;
        Ok(GameState { round, score, is_paused })
    }

    proof fn lemma_byte_roundtrip(v: GameState, data: Seq<u8>, pos: nat) {
        <(u16, u8, bool)>::lemma_byte_roundtrip((v.round, v.score, v.is_paused), data, pos);
    }
}

impl ByteAlignedSerialize for PlayerInfo {
    /// The health, the energy and the flag in a byte each, then the nickname.
    open spec fn spec_bytes(v: PlayerInfo) -> Seq<u8> {
        <(u8, u8, bool, Option<u8>)>::spec_bytes((v.health, v.energy, v.is_active, v.nickname))
    }

    open spec fn spec_byte_ok(v: PlayerInfo) -> bool {
        true
    }

    fn byte_aligned_serialize(&self, writer: &mut Vec<u8>) -> (r: Result<(), BitError>) {
        (self.health, self.energy, self.is_active, self.nickname).byte_aligned_serialize(writer)
    }
}

impl ByteAlignedDeserialize for PlayerInfo {
    /// The health, the energy, the flag and the nickname.
    open spec fn spec_byte_read(data: Seq<u8>, pos: nat) -> (Result<PlayerInfo, BitError>, nat) {
        let (r, p) = <(u8, u8, bool, Option<u8>)>::spec_byte_read(data, pos);
        match r {
            Ok(f) => (
                Ok(PlayerInfo { health: f.0, energy: f.1, is_active: f.2, nickname: f.3 }),
                p,
            ),
            Err(e) => (Err(e), p),
        }
    }

    fn byte_aligned_deserialize(reader: &mut ByteReader) -> (r: Result<PlayerInfo, BitError>) {
        let (health, energy, is_active, nickname) = <(
            u8,
            u8,
            bool,
            Option<u8>,
        )>::byte_aligned_deserialize(reader)?;
        Ok(PlayerInfo { health, energy, is_active, nickname })
    }

    proof fn lemma_byte_roundtrip(v: PlayerInfo, data: Seq<u8>, pos: nat) {
        <(u8, u8, bool, Option<u8>)>::lemma_byte_roundtrip(
            (v.health, v.energy, v.is_active, v.nickname),
            data,
            pos,
        );
    }
}

/// The bytes of a kind's field after its index.
pub open spec fn message_type_field_bytes(m: MessageType) -> Seq<u8> {
    match m {
        MessageType::Command { code } => seq![code],
        MessageType::Alert { level } => seq![level],
        _ => Seq::empty(),
    }
}

impl ByteAlignedSerialize for MessageType {
    /// The index in one byte, then the kind's field in one byte.
    open spec fn spec_bytes(v: MessageType) -> Seq<u8> {
        seq![message_type_index(v) as u8] + message_type_field_bytes(v)
    }

    open spec fn spec_byte_ok(v: MessageType) -> bool {
        true
    }

    fn byte_aligned_serialize(&self, writer: &mut Vec<u8>) -> (r: Result<(), BitError>) {
        match self {
            MessageType::StatusUpdate => writer.push(0),
            MessageType::Command { code } => {
                writer.push(1);
                writer.push(*code);
            },
            MessageType::Alert { level } => {
                writer.push(2);
                writer.push(*level);
            },
            MessageType::Sync => writer.push(3),
        }
        proof {
            assert(writer@ =~= old(writer)@ + Self::spec_bytes(self.deep_view()));
        }
        Ok(())
    }
}

impl ByteAlignedDeserialize for MessageType {
    /// An index byte, then the kind's field; an index past the last kind is invalid data.
    open spec fn spec_byte_read(data: Seq<u8>, pos: nat) -> (Result<MessageType, BitError>, nat) {
        let (r, p) = u8::spec_byte_read(data, pos);
        match r {
            Err(e) => (Err(e), p),
            Ok(i) => if i == 0 {
                (Ok(MessageType::StatusUpdate), p)
            } else if i == 1 {
                let (r2, p2) = u8::spec_byte_read(data, p);
                match r2 {
                    Ok(code) => (Ok(MessageType::Command { code }), p2),
                    Err(e) => (Err(e), p2),
                }
            } else if i == 2 {
                let (r2, p2) = u8::spec_byte_read(data, p);
                match r2 {
                    Ok(level) => (Ok(MessageType::Alert { level }), p2),
                    Err(e) => (Err(e), p2),
                }
            } else if i == 3 {
                (Ok(MessageType::Sync), p)
            } else {
                (Err(BitError::InvalidData), p)
            },
        }
    }

    fn byte_aligned_deserialize(reader: &mut ByteReader) -> (r: Result<MessageType, BitError>) {
        let index = u8::byte_aligned_deserialize(reader)?;
        if index == 0 {
            Ok(MessageType::StatusUpdate)
        } else if index == 1 {
            let code = u8::byte_aligned_deserialize(reader)?;
            Ok(MessageType::Command { code })
        } else if index == 2 {
            let level = u8::byte_aligned_deserialize(reader)?;
            Ok(MessageType::Alert { level })
        } else if index == 3 {
            Ok(MessageType::Sync)
        } else {
            Err(BitError::InvalidData)
        }
    }

    proof fn lemma_byte_roundtrip(v: MessageType, data: Seq<u8>, pos: nat) {
        let b = Self::spec_bytes(v);
        assert(data[pos as int] == b[0]) by {
            assert(data.subrange(pos as int, (pos + b.len()) as int)[0] == data[pos as int]);
        }
        if b.len() == 2 {
            assert(data[pos + 1int] == b[1]) by {
                assert(data.subrange(pos as int, (pos + b.len()) as int)[1] == data[pos + 1int]);
            }
        }
    }
}

/// The fields of a message in the order that its whole-byte form holds them.
pub open spec fn message_parts(m: MessageModel) -> ((u16, u8, bool), Seq<PlayerInfo>, MessageType, GameState) {
    ((m.message_id, m.priority, m.is_urgent), m.players, m.message_type, m.game_state)
}

impl DeepView for NetworkMessage {
    type V = MessageModel;

    open spec fn deep_view(&self) -> MessageModel {
        self@
    }
}

impl ByteAlignedSerialize for NetworkMessage {
    /// Each field in its whole-byte form, in order: the id in 2 bytes, the priority and
    /// the urgency in a byte each, the players after a 4-byte count, the kind and the
    /// game state.
    open spec fn spec_bytes(v: MessageModel) -> Seq<u8> {
        <((u16, u8, bool), Vec<PlayerInfo>, MessageType, GameState)>::spec_bytes(message_parts(v))
    }

    open spec fn spec_byte_ok(v: MessageModel) -> bool {
        <((u16, u8, bool), Vec<PlayerInfo>, MessageType, GameState)>::spec_byte_ok(message_parts(v))
    }

    fn byte_aligned_serialize(&self, writer: &mut Vec<u8>) -> (r: Result<(), BitError>) {
        let _ = (self.message_id, self.priority, self.is_urgent).byte_aligned_serialize(writer);
        let _ = self.players.byte_aligned_serialize(writer);
        let _ = self.message_type.byte_aligned_serialize(writer);
        let _ = self.game_state.byte_aligned_serialize(writer);
        proof {
            assert(self.players.deep_view() =~= self.players@);
            assert(writer@ =~= old(writer)@ + Self::spec_bytes(self.deep_view()));
        }
        Ok(())
    }
}

impl ByteAlignedDeserialize for NetworkMessage {
    /// The fields in order.
    open spec fn spec_byte_read(data: Seq<u8>, pos: nat) -> (Result<MessageModel, BitError>, nat) {
        let (r, p) = <((u16, u8, bool), Vec<PlayerInfo>, MessageType, GameState)>::spec_byte_read(
            data,
            pos,
        );
        match r {
            Ok(f) => (
                Ok(
                    MessageModel {
                        message_id: f.0.0,
                        priority: f.0.1,
                        is_urgent: f.0.2,
                        players: f.1,
                        message_type: f.2,
                        game_state: f.3,
                    },
                ),
                p,
            ),
            Err(e) => (Err(e), p),
        }
    }

    fn byte_aligned_deserialize(reader: &mut ByteReader) -> (r: Result<NetworkMessage, BitError>) {
        let head = <(u16, u8, bool)>::byte_aligned_deserialize(reader)?;
        let players = <Vec<PlayerInfo>>::byte_aligned_deserialize(reader)?;
        let message_type = MessageType::byte_aligned_deserialize(reader)?;
        let game_state = GameState::byte_aligned_deserialize(reader)?;
        let m = NetworkMessage {
            message_id: head.0,
            priority: head.1,
            is_urgent: head.2,
            players,
            message_type,
            game_state,
        };
        proof {
            assert(players.deep_view() =~= players@);
        }
        Ok(m)
    }

    proof fn lemma_byte_roundtrip(v: MessageModel, data: Seq<u8>, pos: nat) {
        <((u16, u8, bool), Vec<PlayerInfo>, MessageType, GameState)>::lemma_byte_roundtrip(
            message_parts(v),
            data,
            pos,
        );
    }
}

} // verus!
