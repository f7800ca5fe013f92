//! The wire format of envelopes. Integers are little-endian (`i32` in 4
//! bytes, `i64` and `u64` in 8); a `bool` is one byte 0 or 1; a string is
//! its UTF-8 byte count as `u64` and then the bytes; a list is its item
//! count as `u64` and then the items; an absent optional is byte 0, a
//! present one byte 1 and then the value. Enumerations are one byte:
//! Direction Up 0, Down 1, Left 2, Right 3; NodeRole Normal 0, Master 1,
//! Deputy 2, Viewer 3; PlayerType Human 0, Robot 1; SnakeState Alive 0,
//! Zombie 1; payloads Ping 0, Steer 1, Ack 2, State 3, Announcement 4,
//! Discover 5, Join 6, Error 7, RoleChange 8.
use vstd::prelude::*;
use vstd::bytes::{
    lemma_auto_spec_u32_to_from_le_bytes, lemma_auto_spec_u64_to_from_le_bytes, spec_u32_from_le_bytes,
    spec_u32_to_le_bytes, spec_u64_from_le_bytes, spec_u64_to_le_bytes, u32_from_le_bytes, u32_to_le_bytes,
    u64_from_le_bytes, u64_to_le_bytes,
};
use vstd::slice::{slice_subrange, slice_to_vec};
use vstd::utf8::{encode_utf8, encode_utf8_decode_utf8, encode_utf8_valid_utf8, valid_utf8};

use crate::config::GameConfig;
use crate::coord::GameState_Coord;
use crate::direction::Direction;
use crate::player::{GamePlayer, NodeRole, PlayerType};
use crate::snake::{GameState_Snake, SnakeState};
use crate::state::{GameAnnouncement, GameState};

verus! {

/// The bytes of `buf` from `pos` on start with `e`.
pub open spec fn at(buf: Seq<u8>, pos: int, e: Seq<u8>) -> bool {
    0 <= pos && pos + e.len() <= buf.len() && buf.subrange(pos, pos + e.len()) == e
}

pub broadcast proof fn lemma_at_concat(buf: Seq<u8>, pos: int, a: Seq<u8>, b: Seq<u8>)
    ensures
        #[trigger] at(buf, pos, a + b) <==> at(buf, pos, a) && at(buf, pos + a.len(), b),
{
    if at(buf, pos, a + b) {
        let whole = buf.subrange(pos, pos + a.len() + b.len());
        assert(whole == a + b);
        assert forall|i: int| 0 <= i < a.len() implies buf.subrange(pos, pos + a.len())[i] == a[i] by {
            assert(whole[i] == (a + b)[i]);
        }
        assert forall|i: int| 0 <= i < b.len() implies buf.subrange(pos + a.len(), pos + a.len() + b.len())[i] == b[i] by {
            assert(whole[a.len() + i] == (a + b)[a.len() + i]);
        }
        assert(buf.subrange(pos, pos + a.len()) =~= a);
        assert(buf.subrange(pos + a.len(), pos + a.len() + b.len()) =~= b);
    }
    if at(buf, pos, a) && at(buf, pos + a.len(), b) {
        assert forall|i: int| 0 <= i < (a + b).len() implies buf.subrange(pos, pos + (a + b).len())[i] == (a + b)[i] by {
            if i < a.len() {
                assert(buf.subrange(pos, pos + a.len())[i] == a[i]);
            } else {
                assert(buf.subrange(pos + a.len(), pos + a.len() + b.len())[i - a.len()] == b[i - a.len()]);
            }
        }
        assert(buf.subrange(pos, pos + (a + b).len()) =~= a + b);
    }
}

pub proof fn lemma_enc_lengths()
    ensures
        forall|v: u64| #[trigger] enc_u64(v).len() == 8,
        forall|v: i32| #[trigger] enc_i32(v).len() == 4,
        forall|v: i64| #[trigger] enc_i64(v).len() == 8,
{
    lemma_auto_spec_u32_to_from_le_bytes();
    lemma_auto_spec_u64_to_from_le_bytes();
}

pub open spec fn enc_u64(v: u64) -> Seq<u8> {
    spec_u64_to_le_bytes(v)
}

pub open spec fn enc_i32(v: i32) -> Seq<u8> {
    spec_u32_to_le_bytes(#[verifier::truncate] (v as u32))
}

pub open spec fn enc_i64(v: i64) -> Seq<u8> {
    spec_u64_to_le_bytes(#[verifier::truncate] (v as u64))
}

pub open spec fn enc_bool(b: bool) -> Seq<u8> {
    seq![if b { 1u8 } else { 0u8 }]
}

pub open spec fn enc_str(s: Seq<char>) -> Seq<u8> {
    enc_u64(encode_utf8(s).len() as u64) + encode_utf8(s)
}

pub open spec fn enc_opt_i32(o: Option<i32>) -> Seq<u8> {
    match o {
        None => seq![0u8],
        Some(v) => seq![1u8] + enc_i32(v),
    }
}

pub open spec fn direction_tag(d: Direction) -> u8 {
    match d {
        Direction::Up => 0,
        Direction::Down => 1,
        Direction::Left => 2,
        Direction::Right => 3,
    }
}

pub open spec fn role_tag(r: NodeRole) -> u8 {
    match r {
        NodeRole::Normal => 0,
        NodeRole::Master => 1,
        NodeRole::Deputy => 2,
        NodeRole::Viewer => 3,
    }
}

pub open spec fn player_type_tag(t: PlayerType) -> u8 {
    match t {
        PlayerType::Human => 0,
        PlayerType::Robot => 1,
    }
}

pub open spec fn snake_state_tag(s: SnakeState) -> u8 {
    match s {
        SnakeState::Alive => 0,
        SnakeState::Zombie => 1,
    }
}

pub open spec fn enc_opt_role(o: Option<NodeRole>) -> Seq<u8> {
    match o {
        None => seq![0u8],
        Some(r) => seq![1u8, role_tag(r)],
    }
}

pub open spec fn enc_coord(c: GameState_Coord) -> Seq<u8> {
    enc_i32(c.x) + enc_i32(c.y)
}

fn write_bytes(out: &mut Vec<u8>, b: &[u8])
    ensures
        final(out)@ == old(out)@ + b@,
{
    let mut i: usize = 0;
    while i < b.len()
        invariant
            i <= b.len(),
            out@ == old(out)@ + b@.subrange(0, i as int),
        decreases b.len() - i,
    {
        out.push(b[i]);
        proof {
            assert(b@.subrange(0, i + 1) =~= b@.subrange(0, i as int).push(b@[i as int]));
        }
        i += 1;
    }
    proof {
        assert(b@.subrange(0, b@.len() as int) =~= b@);
    }
}

fn write_u64(out: &mut Vec<u8>, v: u64)
    ensures
        final(out)@ == old(out)@ + enc_u64(v),
{
    let b = u64_to_le_bytes(v);
    write_bytes(out, b.as_slice());
}

fn write_i32(out: &mut Vec<u8>, v: i32)
    ensures
        final(out)@ == old(out)@ + enc_i32(v),
{
    let b = u32_to_le_bytes(#[verifier::truncate] (v as u32));
    write_bytes(out, b.as_slice());
}

fn write_i64(out: &mut Vec<u8>, v: i64)
    ensures
        final(out)@ == old(out)@ + enc_i64(v),
{
    let b = u64_to_le_bytes(#[verifier::truncate] (v as u64));
    write_bytes(out, b.as_slice());
}

fn write_byte(out: &mut Vec<u8>, v: u8)
    ensures
        final(out)@ == old(out)@ + seq![v],
{
    out.push(v);
    proof {
        assert(final(out)@ =~= old(out)@ + seq![v]);
    }
}

fn write_bool(out: &mut Vec<u8>, b: bool)
    ensures
        final(out)@ == old(out)@ + enc_bool(b),
{
    write_byte(out, if b { 1 } else { 0 });
}

fn write_str(out: &mut Vec<u8>, s: &String)
    ensures
        final(out)@ == old(out)@ + enc_str(s@),
{
    let b = s.as_str().as_bytes();
    write_u64(out, b.len() as u64);
    write_bytes(out, b);
    proof {
        assert(final(out)@ =~= old(out)@ + enc_str(s@));
    }
}

fn write_opt_i32(out: &mut Vec<u8>, o: Option<i32>)
    ensures
        final(out)@ == old(out)@ + enc_opt_i32(o),
{
    match o {
        None => write_byte(out, 0),
        Some(v) => {
            write_byte(out, 1);
            write_i32(out, v);
            proof {
                assert(final(out)@ =~= old(out)@ + enc_opt_i32(o));
            }
        },
    }
}

fn write_direction(out: &mut Vec<u8>, d: Direction)
    ensures
        final(out)@ == old(out)@ + seq![direction_tag(d)],
{
    let t: u8 = match d {
        Direction::Up => 0,
        Direction::Down => 1,
        Direction::Left => 2,
        Direction::Right => 3,
    };
    write_byte(out, t);
}

fn write_role(out: &mut Vec<u8>, r: NodeRole)
    ensures
        final(out)@ == old(out)@ + seq![role_tag(r)],
{
    let t: u8 = match r {
        NodeRole::Normal => 0,
        NodeRole::Master => 1,
        NodeRole::Deputy => 2,
        NodeRole::Viewer => 3,
    };
    write_byte(out, t);
}

fn write_player_type(out: &mut Vec<u8>, p: PlayerType)
    ensures
        final(out)@ == old(out)@ + seq![player_type_tag(p)],
{
    let t: u8 = match p {
        PlayerType::Human => 0,
        PlayerType::Robot => 1,
    };
    write_byte(out, t);
}

fn write_snake_state(out: &mut Vec<u8>, s: SnakeState)
    ensures
        final(out)@ == old(out)@ + seq![snake_state_tag(s)],
{
    let t: u8 = match s {
        SnakeState::Alive => 0,
        SnakeState::Zombie => 1,
    };
    write_byte(out, t);
}

fn write_opt_role(out: &mut Vec<u8>, o: Option<NodeRole>)
    ensures
        final(out)@ == old(out)@ + enc_opt_role(o),
{
    match o {
        None => write_byte(out, 0),
        Some(r) => {
            write_byte(out, 1);
            write_role(out, r);
            proof {
                assert(final(out)@ =~= old(out)@ + enc_opt_role(o));
            }
        },
    }
}

fn write_coord(out: &mut Vec<u8>, c: GameState_Coord)
    ensures
        final(out)@ == old(out)@ + enc_coord(c),
{
    write_i32(out, c.x);
    write_i32(out, c.y);
    proof {
        assert(final(out)@ =~= old(out)@ + enc_coord(c));
    }
}

// Readers: each one, given bytes that start at `pos` with the encoding of
// some value, returns that value and the position just after it.

fn read_byte(buf: &[u8], pos: usize) -> (r: Option<(u8, usize)>)
    ensures
        r matches Some((x, p)) ==> at(buf@, pos as int, seq![x]),
        r matches Some((_, p)) ==> p <= buf.len() && p == pos + 1,
        forall|v: u8| #[trigger] at(buf@, pos as int, seq![v]) ==> r == Some((v, (pos + 1) as usize)),
{
    if pos >= buf.len() {
        return None;
    }
    proof {
        assert forall|v: u8| #[trigger] at(buf@, pos as int, seq![v]) implies buf@[pos as int] == v by {
            assert(buf@.subrange(pos as int, pos + 1)[0] == buf@[pos as int]);
        }
        assert(buf@.subrange(pos as int, pos + 1) =~= seq![buf@[pos as int]]);
    }
    Some((buf[pos], pos + 1))
}

fn read_u64(buf: &[u8], pos: usize) -> (r: Option<(u64, usize)>)
    ensures
        r matches Some((x, p)) ==> at(buf@, pos as int, enc_u64(x)),
        r matches Some((_, p)) ==> p <= buf.len() && p == pos + 8,
        forall|v: u64| #[trigger] at(buf@, pos as int, enc_u64(v)) ==> r == Some((v, (pos + 8) as usize)),
{
    proof {
        lemma_auto_spec_u64_to_from_le_bytes();
    }
    if pos > buf.len() || buf.len() - pos < 8 {
        return None;
    }
    let v = u64_from_le_bytes(slice_subrange(buf, pos, pos + 8));
    proof {
        assert(spec_u64_to_le_bytes(spec_u64_from_le_bytes(buf@.subrange(pos as int, pos + 8))) == buf@.subrange(pos as int, pos + 8));
    }
    Some((v, pos + 8))
}

fn read_i32(buf: &[u8], pos: usize) -> (r: Option<(i32, usize)>)
    ensures
        r matches Some((x, p)) ==> at(buf@, pos as int, enc_i32(x)),
        r matches Some((_, p)) ==> p <= buf.len() && p == pos + 4,
        forall|v: i32| #[trigger] at(buf@, pos as int, enc_i32(v)) ==> r == Some((v, (pos + 4) as usize)),
{
    proof {
        lemma_auto_spec_u32_to_from_le_bytes();
    }
    if pos > buf.len() || buf.len() - pos < 4 {
        return None;
    }
    let u = u32_from_le_bytes(slice_subrange(buf, pos, pos + 4));
    proof {
        let t = #[verifier::truncate] (u as i32);
        assert((#[verifier::truncate] (t as u32)) == u) by (bit_vector)
            requires
                t == #[verifier::truncate] (u as i32),
        ;
        assert(spec_u32_to_le_bytes(spec_u32_from_le_bytes(buf@.subrange(pos as int, pos + 4))) == buf@.subrange(pos as int, pos + 4));
        assert forall|v: i32| #[trigger] at(buf@, pos as int, enc_i32(v)) implies #[verifier::truncate] (u as i32) == v by {
            let w = #[verifier::truncate] (v as u32);
            assert(u == w);
            assert((#[verifier::truncate] (w as i32)) == v) by (bit_vector)
                requires
                    w == #[verifier::truncate] (v as u32),
            ;
        }
    }
    Some((#[verifier::truncate] (u as i32), pos + 4))
}

fn read_i64(buf: &[u8], pos: usize) -> (r: Option<(i64, usize)>)
    ensures
        r matches Some((x, p)) ==> at(buf@, pos as int, enc_i64(x)),
        r matches Some((_, p)) ==> p <= buf.len() && p == pos + 8,
        forall|v: i64| #[trigger] at(buf@, pos as int, enc_i64(v)) ==> r == Some((v, (pos + 8) as usize)),
{
    proof {
        lemma_auto_spec_u64_to_from_le_bytes();
    }
    if pos > buf.len() || buf.len() - pos < 8 {
        return None;
    }
    let u = u64_from_le_bytes(slice_subrange(buf, pos, pos + 8));
    proof {
        let t = #[verifier::truncate] (u as i64);
        assert((#[verifier::truncate] (t as u64)) == u) by (bit_vector)
            requires
                t == #[verifier::truncate] (u as i64),
        ;
        assert(spec_u64_to_le_bytes(spec_u64_from_le_bytes(buf@.subrange(pos as int, pos + 8))) == buf@.subrange(pos as int, pos + 8));
        assert forall|v: i64| #[trigger] at(buf@, pos as int, enc_i64(v)) implies #[verifier::truncate] (u as i64) == v by {
            let w = #[verifier::truncate] (v as u64);
            assert(u == w);
            assert((#[verifier::truncate] (w as i64)) == v) by (bit_vector)
                requires
                    w == #[verifier::truncate] (v as u64),
            ;
        }
    }
    Some((#[verifier::truncate] (u as i64), pos + 8))
}

/// Relies on String::from_utf8: it succeeds exactly on valid UTF-8, and
/// the string it returns is the one those bytes encode.
#[verifier::external_body]
fn string_from_utf8(b: Vec<u8>) -> (r: Option<String>)
    ensures
        r is Some <==> valid_utf8(b@),
        r matches Some(s) ==> encode_utf8(s@) == b@,
{
    String::from_utf8(b).ok()
}

fn read_bool(buf: &[u8], pos: usize) -> (r: Option<(bool, usize)>)
    ensures
        r matches Some((x, p)) ==> at(buf@, pos as int, enc_bool(x)) && p == pos + 1,
        r matches Some((_, p)) ==> p <= buf.len(),
        forall|v: bool| #[trigger] at(buf@, pos as int, enc_bool(v)) ==> r == Some((v, (pos + 1) as usize)),
{
    match read_byte(buf, pos) {
        Some((0, p)) => Some((false, p)),
        Some((1, p)) => Some((true, p)),
        _ => None,
    }
}

fn read_str(buf: &[u8], pos: usize) -> (r: Option<(String, usize)>)
    ensures
        r matches Some((x, p)) ==> at(buf@, pos as int, enc_str(x@)) && p == pos + enc_str(x@).len(),
        r matches Some((_, p)) ==> p <= buf.len(),
        forall|v: Seq<char>| #[trigger] at(buf@, pos as int, enc_str(v)) ==> (r matches Some((s, p)) && s@ == v && p == pos
            + enc_str(v).len()),
{
    proof {
        lemma_enc_lengths();
        assert forall|v: Seq<char>| #[trigger] at(buf@, pos as int, enc_str(v)) implies at(buf@, pos as int, enc_u64(encode_utf8(v).len() as u64))
            && at(buf@, pos + 8, encode_utf8(v)) by {
            lemma_at_concat(buf@, pos as int, enc_u64(encode_utf8(v).len() as u64), encode_utf8(v));
        }
    }
    let (n, p) = match read_u64(buf, pos) {
        Some(x) => x,
        None => {
            return None;
        },
    };
    if ((buf.len() - p) as u64) < n {
        return None;
    }
    let end = p + n as usize;
    let bytes = slice_to_vec(slice_subrange(buf, p, end));
    let ghost b = bytes@;
    match string_from_utf8(bytes) {
        Some(s) => {
            proof {
                assert forall|v: Seq<char>| #[trigger] at(buf@, pos as int, enc_str(v)) implies s@ == v && end == pos
                    + enc_str(v).len() by {
                    assert(at(buf@, pos as int, enc_u64(encode_utf8(v).len() as u64)));
                    assert(at(buf@, pos + 8, encode_utf8(v)));
                    assert(b == encode_utf8(v));
                    encode_utf8_decode_utf8(v);
                    encode_utf8_decode_utf8(s@);
                }
                assert(buf@.subrange(p as int, end as int) == encode_utf8(s@));
                assert(encode_utf8(s@).len() as u64 == n);
                lemma_at_concat(buf@, pos as int, enc_u64(encode_utf8(s@).len() as u64), encode_utf8(s@));
            }
            Some((s, end))
        },
        None => {
            proof {
                assert forall|v: Seq<char>| !#[trigger] at(buf@, pos as int, enc_str(v)) by {
                    if at(buf@, pos as int, enc_str(v)) {
                        assert(at(buf@, pos as int, enc_u64(encode_utf8(v).len() as u64)));
                        assert(at(buf@, pos + 8, encode_utf8(v)));
                        assert(b == encode_utf8(v));
                        encode_utf8_valid_utf8(v);
                    }
                }
            }
            None
        },
    }
}

fn read_opt_i32(buf: &[u8], pos: usize) -> (r: Option<(Option<i32>, usize)>)
    ensures
        r matches Some((x, p)) ==> at(buf@, pos as int, enc_opt_i32(x)) && p == pos + enc_opt_i32(x).len(),
        r matches Some((_, p)) ==> p <= buf.len(),
        forall|v: Option<i32>| #[trigger] at(buf@, pos as int, enc_opt_i32(v)) ==> r == Some((v, (pos + enc_opt_i32(v).len()) as usize)),
{
    proof {
        lemma_enc_lengths();
    }
    let r = match read_byte(buf, pos) {
        Some((0, p)) => Some((None, p)),
        Some((1, p)) => match read_i32(buf, p) {
            Some((v, q)) => Some((Some(v), q)),
            None => None,
        },
        _ => None,
    };
    proof {
        assert forall|v: Option<i32>| #[trigger] at(buf@, pos as int, enc_opt_i32(v)) implies r == Some((v, (pos + enc_opt_i32(v).len()) as usize)) by {
            match v {
                None => {},
                Some(x) => {
                    lemma_at_concat(buf@, pos as int, seq![1u8], enc_i32(x));
                },
            }
        }
        match r {
            Some((Some(x), q)) => {
                lemma_at_concat(buf@, pos as int, seq![1u8], enc_i32(x));
            },
            _ => {},
        }
    }
    r
}

fn read_direction(buf: &[u8], pos: usize) -> (r: Option<(Direction, usize)>)
    ensures
        r matches Some((x, p)) ==> at(buf@, pos as int, seq![direction_tag(x)]) && p == pos + 1,
        r matches Some((_, p)) ==> p <= buf.len(),
        forall|v: Direction| #[trigger] at(buf@, pos as int, seq![direction_tag(v)]) ==> r == Some((v, (pos + 1) as usize)),
{
    match read_byte(buf, pos) {
        Some((0, p)) => Some((Direction::Up, p)),
        Some((1, p)) => Some((Direction::Down, p)),
        Some((2, p)) => Some((Direction::Left, p)),
        Some((3, p)) => Some((Direction::Right, p)),
        _ => None,
    }
}

fn read_role(buf: &[u8], pos: usize) -> (r: Option<(NodeRole, usize)>)
    ensures
        r matches Some((x, p)) ==> at(buf@, pos as int, seq![role_tag(x)]) && p == pos + 1,
        r matches Some((_, p)) ==> p <= buf.len(),
        forall|v: NodeRole| #[trigger] at(buf@, pos as int, seq![role_tag(v)]) ==> r == Some((v, (pos + 1) as usize)),
{
    match read_byte(buf, pos) {
        Some((0, p)) => Some((NodeRole::Normal, p)),
        Some((1, p)) => Some((NodeRole::Master, p)),
        Some((2, p)) => Some((NodeRole::Deputy, p)),
        Some((3, p)) => Some((NodeRole::Viewer, p)),
        _ => None,
    }
}

fn read_player_type(buf: &[u8], pos: usize) -> (r: Option<(PlayerType, usize)>)
    ensures
        r matches Some((x, p)) ==> at(buf@, pos as int, seq![player_type_tag(x)]) && p == pos + 1,
        r matches Some((_, p)) ==> p <= buf.len(),
        forall|v: PlayerType| #[trigger] at(buf@, pos as int, seq![player_type_tag(v)]) ==> r == Some((v, (pos + 1) as usize)),
{
    match read_byte(buf, pos) {
        Some((0, p)) => Some((PlayerType::Human, p)),
        Some((1, p)) => Some((PlayerType::Robot, p)),
        _ => None,
    }
}

fn read_snake_state(buf: &[u8], pos: usize) -> (r: Option<(SnakeState, usize)>)
    ensures
        r matches Some((x, p)) ==> at(buf@, pos as int, seq![snake_state_tag(x)]) && p == pos + 1,
        r matches Some((_, p)) ==> p <= buf.len(),
        forall|v: SnakeState| #[trigger] at(buf@, pos as int, seq![snake_state_tag(v)]) ==> r == Some((v, (pos + 1) as usize)),
{
    match read_byte(buf, pos) {
        Some((0, p)) => Some((SnakeState::Alive, p)),
        Some((1, p)) => Some((SnakeState::Zombie, p)),
        _ => None,
    }
}

fn read_opt_role(buf: &[u8], pos: usize) -> (r: Option<(Option<NodeRole>, usize)>)
    ensures
        r matches Some((x, p)) ==> at(buf@, pos as int, enc_opt_role(x)) && p == pos + enc_opt_role(x).len(),
        r matches Some((_, p)) ==> p <= buf.len(),
        forall|v: Option<NodeRole>| #[trigger] at(buf@, pos as int, enc_opt_role(v)) ==> r == Some((v, (pos + enc_opt_role(v).len()) as usize)),
{
    let r = match read_byte(buf, pos) {
        Some((0, p)) => Some((None, p)),
        Some((1, p)) => match read_role(buf, p) {
            Some((v, q)) => Some((Some(v), q)),
            None => None,
        },
        _ => None,
    };
    proof {
        assert forall|v: Option<NodeRole>| #[trigger] at(buf@, pos as int, enc_opt_role(v)) implies r == Some((v, (pos + enc_opt_role(v).len()) as usize)) by {
            match v {
                None => {},
                Some(x) => {
                    assert(seq![1u8, role_tag(x)] =~= seq![1u8] + seq![role_tag(x)]);
                    lemma_at_concat(buf@, pos as int, seq![1u8], seq![role_tag(x)]);
                },
            }
        }
        match r {
            Some((Some(x), q)) => {
                assert(seq![1u8, role_tag(x)] =~= seq![1u8] + seq![role_tag(x)]);
                lemma_at_concat(buf@, pos as int, seq![1u8], seq![role_tag(x)]);
            },
            _ => {},
        }
    }
    r
}

fn read_coord(buf: &[u8], pos: usize) -> (r: Option<(GameState_Coord, usize)>)
    ensures
        r matches Some((x, p)) ==> at(buf@, pos as int, enc_coord(x)) && p == pos + 8,
        r matches Some((_, p)) ==> p <= buf.len(),
        forall|v: GameState_Coord| #[trigger] at(buf@, pos as int, enc_coord(v)) ==> r == Some((v, (pos + 8) as usize)),
{
    proof {
        lemma_enc_lengths();
        assert forall|v: GameState_Coord| #[trigger] at(buf@, pos as int, enc_coord(v)) implies at(buf@, pos as int, enc_i32(v.x))
            && at(buf@, pos + 4, enc_i32(v.y)) by {
            lemma_at_concat(buf@, pos as int, enc_i32(v.x), enc_i32(v.y));
        }
    }
    let (x, p) = match read_i32(buf, pos) {
        Some(t) => t,
        None => {
            return None;
        },
    };
    let (y, q) = match read_i32(buf, p) {
        Some(t) => t,
        None => {
            return None;
        },
    };
    proof {
        lemma_at_concat(buf@, pos as int, enc_i32(x), enc_i32(y));
    }
    Some((GameState_Coord { x, y }, q))
}







pub open spec fn enc_coord_items(s: Seq<GameState_Coord>) -> Seq<u8>
    decreases s.len(),
{
    if s.len() == 0 {
        seq![]
    } else {
        enc_coord(s[0]) + enc_coord_items(s.drop_first())
    }
}

proof fn lemma_enc_coord_items_len(s: Seq<GameState_Coord>)
    ensures
        enc_coord_items(s).len() >= s.len(),
    decreases s.len(),
{
    lemma_enc_lengths();
    if s.len() > 0 {
        lemma_enc_coord_items_len(s.drop_first());
    }
}

proof fn lemma_enc_coord_items_push(s: Seq<GameState_Coord>, e: GameState_Coord)
    ensures
        enc_coord_items(s.push(e)) == enc_coord_items(s) + enc_coord(e),
    decreases s.len(),
{
    if s.len() == 0 {
        assert(s.push(e).drop_first() =~= s);
        assert(s.push(e)[0] == e);
        assert(enc_coord_items(s.push(e)) =~= enc_coord_items(s) + enc_coord(e));
    } else {
        assert(s.push(e).drop_first() =~= s.drop_first().push(e));
        assert(s.push(e)[0] == s[0]);
        lemma_enc_coord_items_push(s.drop_first(), e);
        assert(enc_coord_items(s.push(e)) =~= enc_coord_items(s) + enc_coord(e));
    }
}

pub open spec fn enc_coord_list(s: Seq<GameState_Coord>) -> Seq<u8> {
    enc_u64(s.len() as u64) + enc_coord_items(s)
}

pub open spec fn coord_list_view(xs: Seq<GameState_Coord>) -> Seq<GameState_Coord> {
    xs.map_values(|x: GameState_Coord| x)
}

fn write_coord_list(out: &mut Vec<u8>, xs: &Vec<GameState_Coord>)
    ensures
        final(out)@ == old(out)@ + enc_coord_list(coord_list_view(xs@)),
{
    let ghost vs = coord_list_view(xs@);
    let ghost n = xs.len() as int;
    write_u64(out, xs.len() as u64);
    let mut i: usize = 0;
    proof {
        assert(vs.subrange(0, n) =~= vs);
    }
    while i < xs.len()
        invariant
            i <= xs.len(),
            n == xs.len(),
            vs == coord_list_view(xs@),
            out@ + enc_coord_items(vs.subrange(i as int, n)) == old(out)@ + enc_coord_list(vs),
        decreases xs.len() - i,
    {
        let ghost before = out@;
        write_coord(out, xs[i]);
        proof {
            let sub = vs.subrange(i as int, n);
            assert(sub.drop_first() =~= vs.subrange(i + 1, n));
            assert(sub[0] == vs[i as int]);
            assert(out@ + enc_coord_items(vs.subrange(i + 1, n)) =~= before + enc_coord_items(sub));
        }
        i += 1;
    }
    proof {
        assert(vs.subrange(n, n).len() == 0);
        assert(out@ =~= out@ + enc_coord_items(vs.subrange(n, n)));
    }
}

fn read_coord_list(buf: &[u8], pos: usize) -> (r: Option<(Vec<GameState_Coord>, usize)>)
    ensures
        r matches Some((xs, p)) ==> at(buf@, pos as int, enc_coord_list(coord_list_view(xs@))) && p == pos + enc_coord_list(
            coord_list_view(xs@),
        ).len(),
        r matches Some((_, p)) ==> p <= buf.len(),
        forall|v: Seq<GameState_Coord>| #[trigger] at(buf@, pos as int, enc_coord_list(v)) ==> (r matches Some((xs, p)) && coord_list_view(xs@) == v
            && p == pos + enc_coord_list(v).len()),
{
    proof {
        lemma_enc_lengths();
        assert forall|v: Seq<GameState_Coord>| #[trigger] at(buf@, pos as int, enc_coord_list(v)) implies at(buf@, pos as int, enc_u64(v.len() as u64))
            && at(buf@, pos + 8, enc_coord_items(v)) by {
            lemma_at_concat(buf@, pos as int, enc_u64(v.len() as u64), enc_coord_items(v));
        }
    }
    let (n, p0) = match read_u64(buf, pos) {
        Some(t) => t,
        None => {
            return None;
        },
    };
    let mut xs: Vec<GameState_Coord> = Vec::new();
    let mut p = p0;
    let mut i: u64 = 0;
    proof {
        assert(coord_list_view(xs@) =~= Seq::<GameState_Coord>::empty());
        assert(buf@.subrange(pos + 8, pos + 8) =~= Seq::<u8>::empty());
        assert forall|v: Seq<GameState_Coord>| #[trigger] at(buf@, pos as int, enc_coord_list(v)) implies v.len() == n && v.subrange(0, v.len() as int) == v by {
            assert(v.subrange(0, v.len() as int) =~= v);
            lemma_enc_coord_items_len(v);
            assert(v.len() <= buf@.len());
            assert(v.len() as u64 == n);
        }
    }
    while i < n
        invariant
            p0 == pos + 8,
            p <= buf.len(),
            i <= n,
            xs.len() == i,
            at(buf@, pos as int, enc_u64(n)),
            p == pos + 8 + enc_coord_items(coord_list_view(xs@)).len(),
            at(buf@, pos + 8, enc_coord_items(coord_list_view(xs@))),
            forall|v: Seq<GameState_Coord>| #[trigger] at(buf@, pos as int, enc_coord_list(v)) ==> {
                &&& v.len() == n
                &&& forall|k: int| 0 <= k < i ==> #[trigger] coord_list_view(xs@)[k] == v[k]
                &&& p == pos + 8 + enc_coord_items(v).len() - enc_coord_items(v.subrange(i as int, v.len() as int)).len()
                &&& at(buf@, p as int, enc_coord_items(v.subrange(i as int, v.len() as int)))
            },
        decreases n - i,
    {
        let ghost before = xs@;
        let (x, q) = match read_coord(buf, p) {
            Some(t) => t,
            None => {
                proof {
                    assert forall|v: Seq<GameState_Coord>| !#[trigger] at(buf@, pos as int, enc_coord_list(v)) by {
                        if at(buf@, pos as int, enc_coord_list(v)) {
                            let sub = v.subrange(i as int, v.len() as int);
                            assert(sub.drop_first() =~= v.subrange(i + 1, v.len() as int));
                            lemma_at_concat(buf@, p as int, enc_coord(sub[0]), enc_coord_items(sub.drop_first()));
                        }
                    }
                }
                return None;
            },
        };
        xs.push(x);
        proof {
            lemma_enc_lengths();
            assert(coord_list_view(xs@) =~= coord_list_view(before).push(x));
            lemma_enc_coord_items_push(coord_list_view(before), x);
            lemma_at_concat(buf@, pos + 8, enc_coord_items(coord_list_view(before)), enc_coord(x));
            assert forall|v: Seq<GameState_Coord>| #[trigger] at(buf@, pos as int, enc_coord_list(v)) implies {
                &&& v.len() == n
                &&& forall|k: int| 0 <= k < i + 1 ==> #[trigger] coord_list_view(xs@)[k] == v[k]
                &&& q == pos + 8 + enc_coord_items(v).len() - enc_coord_items(v.subrange(i + 1, v.len() as int)).len()
                &&& at(buf@, q as int, enc_coord_items(v.subrange(i + 1, v.len() as int)))
            } by {
                lemma_enc_lengths();
                let sub = v.subrange(i as int, v.len() as int);
                assert(sub.drop_first() =~= v.subrange(i + 1, v.len() as int));
                assert(sub[0] == v[i as int]);
                assert(enc_coord_items(sub) == enc_coord(sub[0]) + enc_coord_items(sub.drop_first()));
                lemma_at_concat(buf@, p as int, enc_coord(sub[0]), enc_coord_items(sub.drop_first()));
                assert(at(buf@, p as int, enc_coord(v[i as int])));
                assert(x == v[i as int]);
                assert(q == p + enc_coord(v[i as int]).len());
                assert(xs@[i as int] == x);
                assert forall|k: int| 0 <= k < i + 1 implies #[trigger] coord_list_view(xs@)[k] == v[k] by {
                    if k < i {
                        assert(xs@[k] == before[k]);
                        assert(coord_list_view(before)[k] == v[k]);
                    }
                }
            }
        }
        p = q;
        i += 1;
    }
    proof {
        assert forall|v: Seq<GameState_Coord>| #[trigger] at(buf@, pos as int, enc_coord_list(v)) implies coord_list_view(xs@) == v && p == pos
            + enc_coord_list(v).len() by {
            assert(coord_list_view(xs@) =~= v);
            assert(v.subrange(v.len() as int, v.len() as int).len() == 0);
        }
        assert(coord_list_view(xs@).len() == n);
        lemma_at_concat(buf@, pos as int, enc_u64(n), enc_coord_items(coord_list_view(xs@)));
    }
    Some((xs, p))
}

pub type SnakeW = (i32, Seq<GameState_Coord>, SnakeState, Direction);

pub type PlayerW = (Seq<char>, i32, Seq<char>, i32, NodeRole, PlayerType, i32);

pub open spec fn snake_w(s: GameState_Snake) -> SnakeW {
    (s.player_id, coord_list_view(s.points@), s.state, s.head_direction)
}

pub open spec fn player_w(p: GamePlayer) -> PlayerW {
    (p.name@, p.id, p.ip_address@, p.port, p.role, p.player_type, p.score)
}

pub open spec fn enc_snake(w: SnakeW) -> Seq<u8> {
    (enc_i32(w.0) + (enc_coord_list(w.1) + (seq![snake_state_tag(w.2)] + seq![direction_tag(w.3)])))
}

fn write_snake(out: &mut Vec<u8>, x: &GameState_Snake)
    ensures
        final(out)@ == old(out)@ + enc_snake(snake_w((*x))),
{
    write_i32(out, x.player_id);
    write_coord_list(out, &x.points);
    write_snake_state(out, x.state);
    write_direction(out, x.head_direction);
    proof {
        assert(final(out)@ =~= old(out)@ + enc_snake(snake_w((*x))));
    }
}

fn read_snake(buf: &[u8], pos: usize) -> (r: Option<(GameState_Snake, usize)>)
    ensures
        r matches Some((x, p)) ==> at(buf@, pos as int, enc_snake(snake_w(x))) && p == pos + enc_snake(snake_w(x)).len(),
        r matches Some((_, p)) ==> p <= buf.len(),
        forall|w: SnakeW| #[trigger] at(buf@, pos as int, enc_snake(w)) ==> (r matches Some((x, p)) && snake_w(x) == w
            && p == pos + enc_snake(w).len()),
{
    proof {
        lemma_enc_lengths();
    }
    let (player_id, after_player_id) = match read_i32(buf, pos) {
        Some(t) => t,
        None => {
            proof {
                assert forall|w: SnakeW| !#[trigger] at(buf@, pos as int, enc_snake(w)) by {
                    if at(buf@, pos as int, enc_snake(w)) {
                        lemma_enc_lengths();
                        lemma_at_concat(buf@, pos as int, enc_i32(w.0), (enc_coord_list(w.1) + (seq![snake_state_tag(w.2)] + seq![direction_tag(w.3)])));
                    }
                }
            }
            return None;
        },
    };
    proof {
        assert forall|w: SnakeW| #[trigger] at(buf@, pos as int, enc_snake(w)) implies {
                &&& after_player_id == pos + enc_snake(w).len() - (enc_coord_list(w.1) + (seq![snake_state_tag(w.2)] + seq![direction_tag(w.3)])).len()
                &&& at(buf@, after_player_id as int, (enc_coord_list(w.1) + (seq![snake_state_tag(w.2)] + seq![direction_tag(w.3)])))
                &&& player_id == w.0
            } by {
            lemma_enc_lengths();
            lemma_at_concat(buf@, pos as int, enc_i32(w.0), (enc_coord_list(w.1) + (seq![snake_state_tag(w.2)] + seq![direction_tag(w.3)])));
        }
    }
    let (points, after_points) = match read_coord_list(buf, after_player_id) {
        Some(t) => t,
        None => {
            proof {
                assert forall|w: SnakeW| !#[trigger] at(buf@, pos as int, enc_snake(w)) by {
                    if at(buf@, pos as int, enc_snake(w)) {
                        lemma_enc_lengths();
                        lemma_at_concat(buf@, after_player_id as int, enc_coord_list(w.1), (seq![snake_state_tag(w.2)] + seq![direction_tag(w.3)]));
                    }
                }
            }
            return None;
        },
    };
    proof {
        assert forall|w: SnakeW| #[trigger] at(buf@, pos as int, enc_snake(w)) implies {
                &&& after_points == pos + enc_snake(w).len() - (seq![snake_state_tag(w.2)] + seq![direction_tag(w.3)]).len()
                &&& at(buf@, after_points as int, (seq![snake_state_tag(w.2)] + seq![direction_tag(w.3)]))
                &&& player_id == w.0
                &&& coord_list_view(points@) == w.1
            } by {
            lemma_enc_lengths();
            lemma_at_concat(buf@, after_player_id as int, enc_coord_list(w.1), (seq![snake_state_tag(w.2)] + seq![direction_tag(w.3)]));
        }
    }
    let (state, after_state) = match read_snake_state(buf, after_points) {
        Some(t) => t,
        None => {
            proof {
                assert forall|w: SnakeW| !#[trigger] at(buf@, pos as int, enc_snake(w)) by {
                    if at(buf@, pos as int, enc_snake(w)) {
                        lemma_enc_lengths();
                        lemma_at_concat(buf@, after_points as int, seq![snake_state_tag(w.2)], seq![direction_tag(w.3)]);
                    }
                }
            }
            return None;
        },
    };
    proof {
        assert forall|w: SnakeW| #[trigger] at(buf@, pos as int, enc_snake(w)) implies {
                &&& after_state == pos + enc_snake(w).len() - seq![direction_tag(w.3)].len()
                &&& at(buf@, after_state as int, seq![direction_tag(w.3)])
                &&& player_id == w.0
                &&& coord_list_view(points@) == w.1
                &&& state == w.2
            } by {
            lemma_enc_lengths();
            lemma_at_concat(buf@, after_points as int, seq![snake_state_tag(w.2)], seq![direction_tag(w.3)]);
        }
    }
    let (head_direction, after_head_direction) = match read_direction(buf, after_state) {
        Some(t) => t,
        None => {
            proof {
                assert forall|w: SnakeW| !#[trigger] at(buf@, pos as int, enc_snake(w)) by {
                    if at(buf@, pos as int, enc_snake(w)) {
                        lemma_enc_lengths();
                        
                    }
                }
            }
            return None;
        },
    };
    proof {
        assert forall|w: SnakeW| #[trigger] at(buf@, pos as int, enc_snake(w)) implies {
                &&& after_head_direction == pos + enc_snake(w).len()
                &&& player_id == w.0
                &&& coord_list_view(points@) == w.1
                &&& state == w.2
                &&& head_direction == w.3
            } by {
            lemma_enc_lengths();
            
        }
    }
    proof {
        lemma_enc_lengths();
        lemma_at_concat(buf@, after_points as int, seq![snake_state_tag(state)], seq![direction_tag(head_direction)]);
        lemma_at_concat(buf@, after_player_id as int, enc_coord_list(coord_list_view(points@)), (seq![snake_state_tag(state)] + seq![direction_tag(head_direction)]));
        lemma_at_concat(buf@, pos as int, enc_i32(player_id), (enc_coord_list(coord_list_view(points@)) + (seq![snake_state_tag(state)] + seq![direction_tag(head_direction)])));
    }
    Some((GameState_Snake { player_id, points, state, head_direction }, after_head_direction))
}

pub open spec fn enc_player(w: PlayerW) -> Seq<u8> {
    (enc_str(w.0) + (enc_i32(w.1) + (enc_str(w.2) + (enc_i32(w.3) + (seq![role_tag(w.4)] + (seq![player_type_tag(w.5)] + enc_i32(w.6)))))))
}

fn write_player(out: &mut Vec<u8>, x: &GamePlayer)
    ensures
        final(out)@ == old(out)@ + enc_player(player_w((*x))),
{
    write_str(out, &x.name);
    write_i32(out, x.id);
    write_str(out, &x.ip_address);
    write_i32(out, x.port);
    write_role(out, x.role);
    write_player_type(out, x.player_type);
    write_i32(out, x.score);
    proof {
        assert(final(out)@ =~= old(out)@ + enc_player(player_w((*x))));
    }
}

fn read_player(buf: &[u8], pos: usize) -> (r: Option<(GamePlayer, usize)>)
    ensures
        r matches Some((x, p)) ==> at(buf@, pos as int, enc_player(player_w(x))) && p == pos + enc_player(player_w(x)).len(),
        r matches Some((_, p)) ==> p <= buf.len(),
        forall|w: PlayerW| #[trigger] at(buf@, pos as int, enc_player(w)) ==> (r matches Some((x, p)) && player_w(x) == w
            && p == pos + enc_player(w).len()),
{
    proof {
        lemma_enc_lengths();
    }
    let (name, after_name) = match read_str(buf, pos) {
        Some(t) => t,
        None => {
            proof {
                assert forall|w: PlayerW| !#[trigger] at(buf@, pos as int, enc_player(w)) by {
                    if at(buf@, pos as int, enc_player(w)) {
                        lemma_enc_lengths();
                        lemma_at_concat(buf@, pos as int, enc_str(w.0), (enc_i32(w.1) + (enc_str(w.2) + (enc_i32(w.3) + (seq![role_tag(w.4)] + (seq![player_type_tag(w.5)] + enc_i32(w.6)))))));
                    }
                }
            }
            return None;
        },
    };
    proof {
        assert forall|w: PlayerW| #[trigger] at(buf@, pos as int, enc_player(w)) implies {
                &&& after_name == pos + enc_player(w).len() - (enc_i32(w.1) + (enc_str(w.2) + (enc_i32(w.3) + (seq![role_tag(w.4)] + (seq![player_type_tag(w.5)] + enc_i32(w.6)))))).len()
                &&& at(buf@, after_name as int, (enc_i32(w.1) + (enc_str(w.2) + (enc_i32(w.3) + (seq![role_tag(w.4)] + (seq![player_type_tag(w.5)] + enc_i32(w.6)))))))
                &&& name@ == w.0
            } by {
            lemma_enc_lengths();
            lemma_at_concat(buf@, pos as int, enc_str(w.0), (enc_i32(w.1) + (enc_str(w.2) + (enc_i32(w.3) + (seq![role_tag(w.4)] + (seq![player_type_tag(w.5)] + enc_i32(w.6)))))));
        }
    }
    let (id, after_id) = match read_i32(buf, after_name) {
        Some(t) => t,
        None => {
            proof {
                assert forall|w: PlayerW| !#[trigger] at(buf@, pos as int, enc_player(w)) by {
                    if at(buf@, pos as int, enc_player(w)) {
                        lemma_enc_lengths();
                        lemma_at_concat(buf@, after_name as int, enc_i32(w.1), (enc_str(w.2) + (enc_i32(w.3) + (seq![role_tag(w.4)] + (seq![player_type_tag(w.5)] + enc_i32(w.6))))));
                    }
                }
            }
            return None;
        },
    };
    proof {
        assert forall|w: PlayerW| #[trigger] at(buf@, pos as int, enc_player(w)) implies {
                &&& after_id == pos + enc_player(w).len() - (enc_str(w.2) + (enc_i32(w.3) + (seq![role_tag(w.4)] + (seq![player_type_tag(w.5)] + enc_i32(w.6))))).len()
                &&& at(buf@, after_id as int, (enc_str(w.2) + (enc_i32(w.3) + (seq![role_tag(w.4)] + (seq![player_type_tag(w.5)] + enc_i32(w.6))))))
                &&& name@ == w.0
                &&& id == w.1
            } by {
            lemma_enc_lengths();
            lemma_at_concat(buf@, after_name as int, enc_i32(w.1), (enc_str(w.2) + (enc_i32(w.3) + (seq![role_tag(w.4)] + (seq![player_type_tag(w.5)] + enc_i32(w.6))))));
        }
    }
    let (ip_address, after_ip_address) = match read_str(buf, after_id) {
        Some(t) => t,
        None => {
            proof {
                assert forall|w: PlayerW| !#[trigger] at(buf@, pos as int, enc_player(w)) by {
                    if at(buf@, pos as int, enc_player(w)) {
                        lemma_enc_lengths();
                        lemma_at_concat(buf@, after_id as int, enc_str(w.2), (enc_i32(w.3) + (seq![role_tag(w.4)] + (seq![player_type_tag(w.5)] + enc_i32(w.6)))));
                    }
                }
            }
            return None;
        },
    };
    proof {
        assert forall|w: PlayerW| #[trigger] at(buf@, pos as int, enc_player(w)) implies {
                &&& after_ip_address == pos + enc_player(w).len() - (enc_i32(w.3) + (seq![role_tag(w.4)] + (seq![player_type_tag(w.5)] + enc_i32(w.6)))).len()
                &&& at(buf@, after_ip_address as int, (enc_i32(w.3) + (seq![role_tag(w.4)] + (seq![player_type_tag(w.5)] + enc_i32(w.6)))))
                &&& name@ == w.0
                &&& id == w.1
                &&& ip_address@ == w.2
            } by {
            lemma_enc_lengths();
            lemma_at_concat(buf@, after_id as int, enc_str(w.2), (enc_i32(w.3) + (seq![role_tag(w.4)] + (seq![player_type_tag(w.5)] + enc_i32(w.6)))));
        }
    }
    let (port, after_port) = match read_i32(buf, after_ip_address) {
        Some(t) => t,
        None => {
            proof {
                assert forall|w: PlayerW| !#[trigger] at(buf@, pos as int, enc_player(w)) by {
                    if at(buf@, pos as int, enc_player(w)) {
                        lemma_enc_lengths();
                        lemma_at_concat(buf@, after_ip_address as int, enc_i32(w.3), (seq![role_tag(w.4)] + (seq![player_type_tag(w.5)] + enc_i32(w.6))));
                    }
                }
            }
            return None;
        },
    };
    proof {
        assert forall|w: PlayerW| #[trigger] at(buf@, pos as int, enc_player(w)) implies {
                &&& after_port == pos + enc_player(w).len() - (seq![role_tag(w.4)] + (seq![player_type_tag(w.5)] + enc_i32(w.6))).len()
                &&& at(buf@, after_port as int, (seq![role_tag(w.4)] + (seq![player_type_tag(w.5)] + enc_i32(w.6))))
                &&& name@ == w.0
                &&& id == w.1
                &&& ip_address@ == w.2
                &&& port == w.3
            } by {
            lemma_enc_lengths();
            lemma_at_concat(buf@, after_ip_address as int, enc_i32(w.3), (seq![role_tag(w.4)] + (seq![player_type_tag(w.5)] + enc_i32(w.6))));
        }
    }
    let (role, after_role) = match read_role(buf, after_port) {
        Some(t) => t,
        None => {
            proof {
                assert forall|w: PlayerW| !#[trigger] at(buf@, pos as int, enc_player(w)) by {
                    if at(buf@, pos as int, enc_player(w)) {
                        lemma_enc_lengths();
                        lemma_at_concat(buf@, after_port as int, seq![role_tag(w.4)], (seq![player_type_tag(w.5)] + enc_i32(w.6)));
                    }
                }
            }
            return None;
        },
    };
    proof {
        assert forall|w: PlayerW| #[trigger] at(buf@, pos as int, enc_player(w)) implies {
                &&& after_role == pos + enc_player(w).len() - (seq![player_type_tag(w.5)] + enc_i32(w.6)).len()
                &&& at(buf@, after_role as int, (seq![player_type_tag(w.5)] + enc_i32(w.6)))
                &&& name@ == w.0
                &&& id == w.1
                &&& ip_address@ == w.2
                &&& port == w.3
                &&& role == w.4
            } by {
            lemma_enc_lengths();
            lemma_at_concat(buf@, after_port as int, seq![role_tag(w.4)], (seq![player_type_tag(w.5)] + enc_i32(w.6)));
        }
    }
    let (player_type, after_player_type) = match read_player_type(buf, after_role) {
        Some(t) => t,
        None => {
            proof {
                assert forall|w: PlayerW| !#[trigger] at(buf@, pos as int, enc_player(w)) by {
                    if at(buf@, pos as int, enc_player(w)) {
                        lemma_enc_lengths();
                        lemma_at_concat(buf@, after_role as int, seq![player_type_tag(w.5)], enc_i32(w.6));
                    }
                }
            }
            return None;
        },
    };
    proof {
        assert forall|w: PlayerW| #[trigger] at(buf@, pos as int, enc_player(w)) implies {
                &&& after_player_type == pos + enc_player(w).len() - enc_i32(w.6).len()
                &&& at(buf@, after_player_type as int, enc_i32(w.6))
                &&& name@ == w.0
                &&& id == w.1
                &&& ip_address@ == w.2
                &&& port == w.3
                &&& role == w.4
                &&& player_type == w.5
            } by {
            lemma_enc_lengths();
            lemma_at_concat(buf@, after_role as int, seq![player_type_tag(w.5)], enc_i32(w.6));
        }
    }
    let (score, after_score) = match read_i32(buf, after_player_type) {
        Some(t) => t,
        None => {
            proof {
                assert forall|w: PlayerW| !#[trigger] at(buf@, pos as int, enc_player(w)) by {
                    if at(buf@, pos as int, enc_player(w)) {
                        lemma_enc_lengths();
                        
                    }
                }
            }
            return None;
        },
    };
    proof {
        assert forall|w: PlayerW| #[trigger] at(buf@, pos as int, enc_player(w)) implies {
                &&& after_score == pos + enc_player(w).len()
                &&& name@ == w.0
                &&& id == w.1
                &&& ip_address@ == w.2
                &&& port == w.3
                &&& role == w.4
                &&& player_type == w.5
                &&& score == w.6
            } by {
            lemma_enc_lengths();
            
        }
    }
    proof {
        lemma_enc_lengths();
        lemma_at_concat(buf@, after_role as int, seq![player_type_tag(player_type)], enc_i32(score));
        lemma_at_concat(buf@, after_port as int, seq![role_tag(role)], (seq![player_type_tag(player_type)] + enc_i32(score)));
        lemma_at_concat(buf@, after_ip_address as int, enc_i32(port), (seq![role_tag(role)] + (seq![player_type_tag(player_type)] + enc_i32(score))));
        lemma_at_concat(buf@, after_id as int, enc_str(ip_address@), (enc_i32(port) + (seq![role_tag(role)] + (seq![player_type_tag(player_type)] + enc_i32(score)))));
        lemma_at_concat(buf@, after_name as int, enc_i32(id), (enc_str(ip_address@) + (enc_i32(port) + (seq![role_tag(role)] + (seq![player_type_tag(player_type)] + enc_i32(score))))));
        lemma_at_concat(buf@, pos as int, enc_str(name@), (enc_i32(id) + (enc_str(ip_address@) + (enc_i32(port) + (seq![role_tag(role)] + (seq![player_type_tag(player_type)] + enc_i32(score)))))));
    }
    Some((GamePlayer { name, id, ip_address, port, role, player_type, score }, after_score))
}

pub open spec fn enc_config(w: GameConfig) -> Seq<u8> {
    (enc_i32(w.width) + (enc_i32(w.height) + (enc_i32(w.food_static) + enc_i32(w.state_delay_ms))))
}

fn write_config(out: &mut Vec<u8>, x: &GameConfig)
    ensures
        final(out)@ == old(out)@ + enc_config((*x)),
{
    write_i32(out, x.width);
    write_i32(out, x.height);
    write_i32(out, x.food_static);
    write_i32(out, x.state_delay_ms);
    proof {
        assert(final(out)@ =~= old(out)@ + enc_config((*x)));
    }
}

fn read_config(buf: &[u8], pos: usize) -> (r: Option<(GameConfig, usize)>)
    ensures
        r matches Some((x, p)) ==> at(buf@, pos as int, enc_config(x)) && p == pos + enc_config(x).len(),
        r matches Some((_, p)) ==> p <= buf.len(),
        forall|w: GameConfig| #[trigger] at(buf@, pos as int, enc_config(w)) ==> (r matches Some((x, p)) && x == w
            && p == pos + enc_config(w).len()),
{
    proof {
        lemma_enc_lengths();
    }
    let (width, after_width) = match read_i32(buf, pos) {
        Some(t) => t,
        None => {
            proof {
                assert forall|w: GameConfig| !#[trigger] at(buf@, pos as int, enc_config(w)) by {
                    if at(buf@, pos as int, enc_config(w)) {
                        lemma_enc_lengths();
                        lemma_at_concat(buf@, pos as int, enc_i32(w.width), (enc_i32(w.height) + (enc_i32(w.food_static) + enc_i32(w.state_delay_ms))));
                    }
                }
            }
            return None;
        },
    };
    proof {
        assert forall|w: GameConfig| #[trigger] at(buf@, pos as int, enc_config(w)) implies {
                &&& after_width == pos + enc_config(w).len() - (enc_i32(w.height) + (enc_i32(w.food_static) + enc_i32(w.state_delay_ms))).len()
                &&& at(buf@, after_width as int, (enc_i32(w.height) + (enc_i32(w.food_static) + enc_i32(w.state_delay_ms))))
                &&& width == w.width
            } by {
            lemma_enc_lengths();
            lemma_at_concat(buf@, pos as int, enc_i32(w.width), (enc_i32(w.height) + (enc_i32(w.food_static) + enc_i32(w.state_delay_ms))));
        }
    }
    let (height, after_height) = match read_i32(buf, after_width) {
        Some(t) => t,
        None => {
            proof {
                assert forall|w: GameConfig| !#[trigger] at(buf@, pos as int, enc_config(w)) by {
                    if at(buf@, pos as int, enc_config(w)) {
                        lemma_enc_lengths();
                        lemma_at_concat(buf@, after_width as int, enc_i32(w.height), (enc_i32(w.food_static) + enc_i32(w.state_delay_ms)));
                    }
                }
            }
            return None;
        },
    };
    proof {
        assert forall|w: GameConfig| #[trigger] at(buf@, pos as int, enc_config(w)) implies {
                &&& after_height == pos + enc_config(w).len() - (enc_i32(w.food_static) + enc_i32(w.state_delay_ms)).len()
                &&& at(buf@, after_height as int, (enc_i32(w.food_static) + enc_i32(w.state_delay_ms)))
                &&& width == w.width
                &&& height == w.height
            } by {
            lemma_enc_lengths();
            lemma_at_concat(buf@, after_width as int, enc_i32(w.height), (enc_i32(w.food_static) + enc_i32(w.state_delay_ms)));
        }
    }
    let (food_static, after_food_static) = match read_i32(buf, after_height) {
        Some(t) => t,
        None => {
            proof {
                assert forall|w: GameConfig| !#[trigger] at(buf@, pos as int, enc_config(w)) by {
                    if at(buf@, pos as int, enc_config(w)) {
                        lemma_enc_lengths();
                        lemma_at_concat(buf@, after_height as int, enc_i32(w.food_static), enc_i32(w.state_delay_ms));
                    }
                }
            }
            return None;
        },
    };
    proof {
        assert forall|w: GameConfig| #[trigger] at(buf@, pos as int, enc_config(w)) implies {
                &&& after_food_static == pos + enc_config(w).len() - enc_i32(w.state_delay_ms).len()
                &&& at(buf@, after_food_static as int, enc_i32(w.state_delay_ms))
                &&& width == w.width
                &&& height == w.height
                &&& food_static == w.food_static
            } by {
            lemma_enc_lengths();
            lemma_at_concat(buf@, after_height as int, enc_i32(w.food_static), enc_i32(w.state_delay_ms));
        }
    }
    let (state_delay_ms, after_state_delay_ms) = match read_i32(buf, after_food_static) {
        Some(t) => t,
        None => {
            proof {
                assert forall|w: GameConfig| !#[trigger] at(buf@, pos as int, enc_config(w)) by {
                    if at(buf@, pos as int, enc_config(w)) {
                        lemma_enc_lengths();
                        
                    }
                }
            }
            return None;
        },
    };
    proof {
        assert forall|w: GameConfig| #[trigger] at(buf@, pos as int, enc_config(w)) implies {
                &&& after_state_delay_ms == pos + enc_config(w).len()
                &&& width == w.width
                &&& height == w.height
                &&& food_static == w.food_static
                &&& state_delay_ms == w.state_delay_ms
            } by {
            lemma_enc_lengths();
            
        }
    }
    proof {
        lemma_enc_lengths();
        lemma_at_concat(buf@, after_height as int, enc_i32(food_static), enc_i32(state_delay_ms));
        lemma_at_concat(buf@, after_width as int, enc_i32(height), (enc_i32(food_static) + enc_i32(state_delay_ms)));
        lemma_at_concat(buf@, pos as int, enc_i32(width), (enc_i32(height) + (enc_i32(food_static) + enc_i32(state_delay_ms))));
    }
    Some((GameConfig { width, height, food_static, state_delay_ms }, after_state_delay_ms))
}

pub open spec fn enc_snake_items(s: Seq<SnakeW>) -> Seq<u8>
    decreases s.len(),
{
    if s.len() == 0 {
        seq![]
    } else {
        enc_snake(s[0]) + enc_snake_items(s.drop_first())
    }
}

proof fn lemma_enc_snake_items_len(s: Seq<SnakeW>)
    ensures
        enc_snake_items(s).len() >= s.len(),
    decreases s.len(),
{
    lemma_enc_lengths();
    if s.len() > 0 {
        lemma_enc_snake_items_len(s.drop_first());
    }
}

proof fn lemma_enc_snake_items_push(s: Seq<SnakeW>, e: SnakeW)
    ensures
        enc_snake_items(s.push(e)) == enc_snake_items(s) + enc_snake(e),
    decreases s.len(),
{
    if s.len() == 0 {
        assert(s.push(e).drop_first() =~= s);
        assert(s.push(e)[0] == e);
        assert(enc_snake_items(s.push(e)) =~= enc_snake_items(s) + enc_snake(e));
    } else {
        assert(s.push(e).drop_first() =~= s.drop_first().push(e));
        assert(s.push(e)[0] == s[0]);
        lemma_enc_snake_items_push(s.drop_first(), e);
        assert(enc_snake_items(s.push(e)) =~= enc_snake_items(s) + enc_snake(e));
    }
}

pub open spec fn enc_snake_list(s: Seq<SnakeW>) -> Seq<u8> {
    enc_u64(s.len() as u64) + enc_snake_items(s)
}

pub open spec fn snake_list_view(xs: Seq<GameState_Snake>) -> Seq<SnakeW> {
    xs.map_values(|x: GameState_Snake| snake_w(x))
}

fn write_snake_list(out: &mut Vec<u8>, xs: &Vec<GameState_Snake>)
    ensures
        final(out)@ == old(out)@ + enc_snake_list(snake_list_view(xs@)),
{
    let ghost vs = snake_list_view(xs@);
    let ghost n = xs.len() as int;
    write_u64(out, xs.len() as u64);
    let mut i: usize = 0;
    proof {
        assert(vs.subrange(0, n) =~= vs);
    }
    while i < xs.len()
        invariant
            i <= xs.len(),
            n == xs.len(),
            vs == snake_list_view(xs@),
            out@ + enc_snake_items(vs.subrange(i as int, n)) == old(out)@ + enc_snake_list(vs),
        decreases xs.len() - i,
    {
        let ghost before = out@;
        write_snake(out, &xs[i]);
        proof {
            let sub = vs.subrange(i as int, n);
            assert(sub.drop_first() =~= vs.subrange(i + 1, n));
            assert(sub[0] == vs[i as int]);
            assert(out@ + enc_snake_items(vs.subrange(i + 1, n)) =~= before + enc_snake_items(sub));
        }
        i += 1;
    }
    proof {
        assert(vs.subrange(n, n).len() == 0);
        assert(out@ =~= out@ + enc_snake_items(vs.subrange(n, n)));
    }
}

fn read_snake_list(buf: &[u8], pos: usize) -> (r: Option<(Vec<GameState_Snake>, usize)>)
    ensures
        r matches Some((xs, p)) ==> at(buf@, pos as int, enc_snake_list(snake_list_view(xs@))) && p == pos + enc_snake_list(
            snake_list_view(xs@),
        ).len(),
        r matches Some((_, p)) ==> p <= buf.len(),
        forall|v: Seq<SnakeW>| #[trigger] at(buf@, pos as int, enc_snake_list(v)) ==> (r matches Some((xs, p)) && snake_list_view(xs@) == v
            && p == pos + enc_snake_list(v).len()),
{
    proof {
        lemma_enc_lengths();
        assert forall|v: Seq<SnakeW>| #[trigger] at(buf@, pos as int, enc_snake_list(v)) implies at(buf@, pos as int, enc_u64(v.len() as u64))
            && at(buf@, pos + 8, enc_snake_items(v)) by {
            lemma_at_concat(buf@, pos as int, enc_u64(v.len() as u64), enc_snake_items(v));
        }
    }
    let (n, p0) = match read_u64(buf, pos) {
        Some(t) => t,
        None => {
            return None;
        },
    };
    let mut xs: Vec<GameState_Snake> = Vec::new();
    let mut p = p0;
    let mut i: u64 = 0;
    proof {
        assert(snake_list_view(xs@) =~= Seq::<SnakeW>::empty());
        assert(buf@.subrange(pos + 8, pos + 8) =~= Seq::<u8>::empty());
        assert forall|v: Seq<SnakeW>| #[trigger] at(buf@, pos as int, enc_snake_list(v)) implies v.len() == n && v.subrange(0, v.len() as int) == v by {
            assert(v.subrange(0, v.len() as int) =~= v);
            lemma_enc_snake_items_len(v);
            assert(v.len() <= buf@.len());
            assert(v.len() as u64 == n);
        }
    }
    while i < n
        invariant
            p0 == pos + 8,
            p <= buf.len(),
            i <= n,
            xs.len() == i,
            at(buf@, pos as int, enc_u64(n)),
            p == pos + 8 + enc_snake_items(snake_list_view(xs@)).len(),
            at(buf@, pos + 8, enc_snake_items(snake_list_view(xs@))),
            forall|v: Seq<SnakeW>| #[trigger] at(buf@, pos as int, enc_snake_list(v)) ==> {
                &&& v.len() == n
                &&& forall|k: int| 0 <= k < i ==> #[trigger] snake_list_view(xs@)[k] == v[k]
                &&& p == pos + 8 + enc_snake_items(v).len() - enc_snake_items(v.subrange(i as int, v.len() as int)).len()
                &&& at(buf@, p as int, enc_snake_items(v.subrange(i as int, v.len() as int)))
            },
        decreases n - i,
    {
        let ghost before = xs@;
        let (x, q) = match read_snake(buf, p) {
            Some(t) => t,
            None => {
                proof {
                    assert forall|v: Seq<SnakeW>| !#[trigger] at(buf@, pos as int, enc_snake_list(v)) by {
                        if at(buf@, pos as int, enc_snake_list(v)) {
                            let sub = v.subrange(i as int, v.len() as int);
                            assert(sub.drop_first() =~= v.subrange(i + 1, v.len() as int));
                            lemma_at_concat(buf@, p as int, enc_snake(sub[0]), enc_snake_items(sub.drop_first()));
                        }
                    }
                }
                return None;
            },
        };
        xs.push(x);
        proof {
            lemma_enc_lengths();
            assert(snake_list_view(xs@) =~= snake_list_view(before).push(snake_w(x)));
            lemma_enc_snake_items_push(snake_list_view(before), snake_w(x));
            lemma_at_concat(buf@, pos + 8, enc_snake_items(snake_list_view(before)), enc_snake(snake_w(x)));
            assert forall|v: Seq<SnakeW>| #[trigger] at(buf@, pos as int, enc_snake_list(v)) implies {
                &&& v.len() == n
                &&& forall|k: int| 0 <= k < i + 1 ==> #[trigger] snake_list_view(xs@)[k] == v[k]
                &&& q == pos + 8 + enc_snake_items(v).len() - enc_snake_items(v.subrange(i + 1, v.len() as int)).len()
                &&& at(buf@, q as int, enc_snake_items(v.subrange(i + 1, v.len() as int)))
            } by {
                lemma_enc_lengths();
                let sub = v.subrange(i as int, v.len() as int);
                assert(sub.drop_first() =~= v.subrange(i + 1, v.len() as int));
                assert(sub[0] == v[i as int]);
                assert(enc_snake_items(sub) == enc_snake(sub[0]) + enc_snake_items(sub.drop_first()));
                lemma_at_concat(buf@, p as int, enc_snake(sub[0]), enc_snake_items(sub.drop_first()));
                assert(at(buf@, p as int, enc_snake(v[i as int])));
                assert(snake_w(x) == v[i as int]);
                assert(q == p + enc_snake(v[i as int]).len());
                assert(xs@[i as int] == x);
                assert forall|k: int| 0 <= k < i + 1 implies #[trigger] snake_list_view(xs@)[k] == v[k] by {
                    if k < i {
                        assert(xs@[k] == before[k]);
                        assert(snake_list_view(before)[k] == v[k]);
                    }
                }
            }
        }
        p = q;
        i += 1;
    }
    proof {
        assert forall|v: Seq<SnakeW>| #[trigger] at(buf@, pos as int, enc_snake_list(v)) implies snake_list_view(xs@) == v && p == pos
            + enc_snake_list(v).len() by {
            assert(snake_list_view(xs@) =~= v);
            assert(v.subrange(v.len() as int, v.len() as int).len() == 0);
        }
        assert(snake_list_view(xs@).len() == n);
        lemma_at_concat(buf@, pos as int, enc_u64(n), enc_snake_items(snake_list_view(xs@)));
    }
    Some((xs, p))
}

pub open spec fn enc_player_items(s: Seq<PlayerW>) -> Seq<u8>
    decreases s.len(),
{
    if s.len() == 0 {
        seq![]
    } else {
        enc_player(s[0]) + enc_player_items(s.drop_first())
    }
}

proof fn lemma_enc_player_items_len(s: Seq<PlayerW>)
    ensures
        enc_player_items(s).len() >= s.len(),
    decreases s.len(),
{
    lemma_enc_lengths();
    if s.len() > 0 {
        lemma_enc_player_items_len(s.drop_first());
    }
}

proof fn lemma_enc_player_items_push(s: Seq<PlayerW>, e: PlayerW)
    ensures
        enc_player_items(s.push(e)) == enc_player_items(s) + enc_player(e),
    decreases s.len(),
{
    if s.len() == 0 {
        assert(s.push(e).drop_first() =~= s);
        assert(s.push(e)[0] == e);
        assert(enc_player_items(s.push(e)) =~= enc_player_items(s) + enc_player(e));
    } else {
        assert(s.push(e).drop_first() =~= s.drop_first().push(e));
        assert(s.push(e)[0] == s[0]);
        lemma_enc_player_items_push(s.drop_first(), e);
        assert(enc_player_items(s.push(e)) =~= enc_player_items(s) + enc_player(e));
    }
}

pub open spec fn enc_player_list(s: Seq<PlayerW>) -> Seq<u8> {
    enc_u64(s.len() as u64) + enc_player_items(s)
}

pub open spec fn player_list_view(xs: Seq<GamePlayer>) -> Seq<PlayerW> {
    xs.map_values(|x: GamePlayer| player_w(x))
}

fn write_player_list(out: &mut Vec<u8>, xs: &Vec<GamePlayer>)
    ensures
        final(out)@ == old(out)@ + enc_player_list(player_list_view(xs@)),
{
    let ghost vs = player_list_view(xs@);
    let ghost n = xs.len() as int;
    write_u64(out, xs.len() as u64);
    let mut i: usize = 0;
    proof {
        assert(vs.subrange(0, n) =~= vs);
    }
    while i < xs.len()
        invariant
            i <= xs.len(),
            n == xs.len(),
            vs == player_list_view(xs@),
            out@ + enc_player_items(vs.subrange(i as int, n)) == old(out)@ + enc_player_list(vs),
        decreases xs.len() - i,
    {
        let ghost before = out@;
        write_player(out, &xs[i]);
        proof {
            let sub = vs.subrange(i as int, n);
            assert(sub.drop_first() =~= vs.subrange(i + 1, n));
            assert(sub[0] == vs[i as int]);
            assert(out@ + enc_player_items(vs.subrange(i + 1, n)) =~= before + enc_player_items(sub));
        }
        i += 1;
    }
    proof {
        assert(vs.subrange(n, n).len() == 0);
        assert(out@ =~= out@ + enc_player_items(vs.subrange(n, n)));
    }
}

fn read_player_list(buf: &[u8], pos: usize) -> (r: Option<(Vec<GamePlayer>, usize)>)
    ensures
        r matches Some((xs, p)) ==> at(buf@, pos as int, enc_player_list(player_list_view(xs@))) && p == pos + enc_player_list(
            player_list_view(xs@),
        ).len(),
        r matches Some((_, p)) ==> p <= buf.len(),
        forall|v: Seq<PlayerW>| #[trigger] at(buf@, pos as int, enc_player_list(v)) ==> (r matches Some((xs, p)) && player_list_view(xs@) == v
            && p == pos + enc_player_list(v).len()),
{
    proof {
        lemma_enc_lengths();
        assert forall|v: Seq<PlayerW>| #[trigger] at(buf@, pos as int, enc_player_list(v)) implies at(buf@, pos as int, enc_u64(v.len() as u64))
            && at(buf@, pos + 8, enc_player_items(v)) by {
            lemma_at_concat(buf@, pos as int, enc_u64(v.len() as u64), enc_player_items(v));
        }
    }
    let (n, p0) = match read_u64(buf, pos) {
        Some(t) => t,
        None => {
            return None;
        },
    };
    let mut xs: Vec<GamePlayer> = Vec::new();
    let mut p = p0;
    let mut i: u64 = 0;
    proof {
        assert(player_list_view(xs@) =~= Seq::<PlayerW>::empty());
        assert(buf@.subrange(pos + 8, pos + 8) =~= Seq::<u8>::empty());
        assert forall|v: Seq<PlayerW>| #[trigger] at(buf@, pos as int, enc_player_list(v)) implies v.len() == n && v.subrange(0, v.len() as int) == v by {
            assert(v.subrange(0, v.len() as int) =~= v);
            lemma_enc_player_items_len(v);
            assert(v.len() <= buf@.len());
            assert(v.len() as u64 == n);
        }
    }
    while i < n
        invariant
            p0 == pos + 8,
            p <= buf.len(),
            i <= n,
            xs.len() == i,
            at(buf@, pos as int, enc_u64(n)),
            p == pos + 8 + enc_player_items(player_list_view(xs@)).len(),
            at(buf@, pos + 8, enc_player_items(player_list_view(xs@))),
            forall|v: Seq<PlayerW>| #[trigger] at(buf@, pos as int, enc_player_list(v)) ==> {
                &&& v.len() == n
                &&& forall|k: int| 0 <= k < i ==> #[trigger] player_list_view(xs@)[k] == v[k]
                &&& p == pos + 8 + enc_player_items(v).len() - enc_player_items(v.subrange(i as int, v.len() as int)).len()
                &&& at(buf@, p as int, enc_player_items(v.subrange(i as int, v.len() as int)))
            },
        decreases n - i,
    {
        let ghost before = xs@;
        let (x, q) = match read_player(buf, p) {
            Some(t) => t,
            None => {
                proof {
                    assert forall|v: Seq<PlayerW>| !#[trigger] at(buf@, pos as int, enc_player_list(v)) by {
                        if at(buf@, pos as int, enc_player_list(v)) {
                            let sub = v.subrange(i as int, v.len() as int);
                            assert(sub.drop_first() =~= v.subrange(i + 1, v.len() as int));
                            lemma_at_concat(buf@, p as int, enc_player(sub[0]), enc_player_items(sub.drop_first()));
                        }
                    }
                }
                return None;
            },
        };
        xs.push(x);
        proof {
            lemma_enc_lengths();
            assert(player_list_view(xs@) =~= player_list_view(before).push(player_w(x)));
            lemma_enc_player_items_push(player_list_view(before), player_w(x));
            lemma_at_concat(buf@, pos + 8, enc_player_items(player_list_view(before)), enc_player(player_w(x)));
            assert forall|v: Seq<PlayerW>| #[trigger] at(buf@, pos as int, enc_player_list(v)) implies {
                &&& v.len() == n
                &&& forall|k: int| 0 <= k < i + 1 ==> #[trigger] player_list_view(xs@)[k] == v[k]
                &&& q == pos + 8 + enc_player_items(v).len() - enc_player_items(v.subrange(i + 1, v.len() as int)).len()
                &&& at(buf@, q as int, enc_player_items(v.subrange(i + 1, v.len() as int)))
            } by {
                lemma_enc_lengths();
                let sub = v.subrange(i as int, v.len() as int);
                assert(sub.drop_first() =~= v.subrange(i + 1, v.len() as int));
                assert(sub[0] == v[i as int]);
                assert(enc_player_items(sub) == enc_player(sub[0]) + enc_player_items(sub.drop_first()));
                lemma_at_concat(buf@, p as int, enc_player(sub[0]), enc_player_items(sub.drop_first()));
                assert(at(buf@, p as int, enc_player(v[i as int])));
                assert(player_w(x) == v[i as int]);
                assert(q == p + enc_player(v[i as int]).len());
                assert(xs@[i as int] == x);
                assert forall|k: int| 0 <= k < i + 1 implies #[trigger] player_list_view(xs@)[k] == v[k] by {
                    if k < i {
                        assert(xs@[k] == before[k]);
                        assert(player_list_view(before)[k] == v[k]);
                    }
                }
            }
        }
        p = q;
        i += 1;
    }
    proof {
        assert forall|v: Seq<PlayerW>| #[trigger] at(buf@, pos as int, enc_player_list(v)) implies player_list_view(xs@) == v && p == pos
            + enc_player_list(v).len() by {
            assert(player_list_view(xs@) =~= v);
            assert(v.subrange(v.len() as int, v.len() as int).len() == 0);
        }
        assert(player_list_view(xs@).len() == n);
        lemma_at_concat(buf@, pos as int, enc_u64(n), enc_player_items(player_list_view(xs@)));
    }
    Some((xs, p))
}

pub type StateW = (u64, Seq<SnakeW>, Seq<GameState_Coord>, Seq<PlayerW>);

pub type AnnouncementW = (Seq<PlayerW>, GameConfig, bool, Seq<char>);

pub open spec fn state_w(s: GameState) -> StateW {
    (s.state_order, snake_list_view(s.snakes@), coord_list_view(s.foods@), player_list_view(s.players@))
}

pub open spec fn announcement_w(a: GameAnnouncement) -> AnnouncementW {
    (player_list_view(a.players@), a.config, a.can_join, a.game_name@)
}

pub open spec fn enc_state(w: StateW) -> Seq<u8> {
    (enc_u64(w.0) + (enc_snake_list(w.1) + (enc_coord_list(w.2) + enc_player_list(w.3))))
}

fn write_state(out: &mut Vec<u8>, x: &GameState)
    ensures
        final(out)@ == old(out)@ + enc_state(state_w((*x))),
{
    write_u64(out, x.state_order);
    write_snake_list(out, &x.snakes);
    write_coord_list(out, &x.foods);
    write_player_list(out, &x.players);
    proof {
        assert(final(out)@ =~= old(out)@ + enc_state(state_w((*x))));
    }
}

fn read_state(buf: &[u8], pos: usize) -> (r: Option<(GameState, usize)>)
    ensures
        r matches Some((x, p)) ==> at(buf@, pos as int, enc_state(state_w(x))) && p == pos + enc_state(state_w(x)).len(),
        r matches Some((_, p)) ==> p <= buf.len(),
        forall|w: StateW| #[trigger] at(buf@, pos as int, enc_state(w)) ==> (r matches Some((x, p)) && state_w(x) == w
            && p == pos + enc_state(w).len()),
{
    proof {
        lemma_enc_lengths();
    }
    let (state_order, after_state_order) = match read_u64(buf, pos) {
        Some(t) => t,
        None => {
            proof {
                assert forall|w: StateW| !#[trigger] at(buf@, pos as int, enc_state(w)) by {
                    if at(buf@, pos as int, enc_state(w)) {
                        lemma_enc_lengths();
                        lemma_at_concat(buf@, pos as int, enc_u64(w.0), (enc_snake_list(w.1) + (enc_coord_list(w.2) + enc_player_list(w.3))));
                    }
                }
            }
            return None;
        },
    };
    proof {
        assert forall|w: StateW| #[trigger] at(buf@, pos as int, enc_state(w)) implies {
                &&& after_state_order == pos + enc_state(w).len() - (enc_snake_list(w.1) + (enc_coord_list(w.2) + enc_player_list(w.3))).len()
                &&& at(buf@, after_state_order as int, (enc_snake_list(w.1) + (enc_coord_list(w.2) + enc_player_list(w.3))))
                &&& state_order == w.0
            } by {
            lemma_enc_lengths();
            lemma_at_concat(buf@, pos as int, enc_u64(w.0), (enc_snake_list(w.1) + (enc_coord_list(w.2) + enc_player_list(w.3))));
        }
    }
    let (snakes, after_snakes) = match read_snake_list(buf, after_state_order) {
        Some(t) => t,
        None => {
            proof {
                assert forall|w: StateW| !#[trigger] at(buf@, pos as int, enc_state(w)) by {
                    if at(buf@, pos as int, enc_state(w)) {
                        lemma_enc_lengths();
                        lemma_at_concat(buf@, after_state_order as int, enc_snake_list(w.1), (enc_coord_list(w.2) + enc_player_list(w.3)));
                    }
                }
            }
            return None;
        },
    };
    proof {
        assert forall|w: StateW| #[trigger] at(buf@, pos as int, enc_state(w)) implies {
                &&& after_snakes == pos + enc_state(w).len() - (enc_coord_list(w.2) + enc_player_list(w.3)).len()
                &&& at(buf@, after_snakes as int, (enc_coord_list(w.2) + enc_player_list(w.3)))
                &&& state_order == w.0
                &&& snake_list_view(snakes@) == w.1
            } by {
            lemma_enc_lengths();
            lemma_at_concat(buf@, after_state_order as int, enc_snake_list(w.1), (enc_coord_list(w.2) + enc_player_list(w.3)));
        }
    }
    let (foods, after_foods) = match read_coord_list(buf, after_snakes) {
        Some(t) => t,
        None => {
            proof {
                assert forall|w: StateW| !#[trigger] at(buf@, pos as int, enc_state(w)) by {
                    if at(buf@, pos as int, enc_state(w)) {
                        lemma_enc_lengths();
                        lemma_at_concat(buf@, after_snakes as int, enc_coord_list(w.2), enc_player_list(w.3));
                    }
                }
            }
            return None;
        },
    };
    proof {
        assert forall|w: StateW| #[trigger] at(buf@, pos as int, enc_state(w)) implies {
                &&& after_foods == pos + enc_state(w).len() - enc_player_list(w.3).len()
                &&& at(buf@, after_foods as int, enc_player_list(w.3))
                &&& state_order == w.0
                &&& snake_list_view(snakes@) == w.1
                &&& coord_list_view(foods@) == w.2
            } by {
            lemma_enc_lengths();
            lemma_at_concat(buf@, after_snakes as int, enc_coord_list(w.2), enc_player_list(w.3));
        }
    }
    let (players, after_players) = match read_player_list(buf, after_foods) {
        Some(t) => t,
        None => {
            proof {
                assert forall|w: StateW| !#[trigger] at(buf@, pos as int, enc_state(w)) by {
                    if at(buf@, pos as int, enc_state(w)) {
                        lemma_enc_lengths();
                        
                    }
                }
            }
            return None;
        },
    };
    proof {
        assert forall|w: StateW| #[trigger] at(buf@, pos as int, enc_state(w)) implies {
                &&& after_players == pos + enc_state(w).len()
                &&& state_order == w.0
                &&& snake_list_view(snakes@) == w.1
                &&& coord_list_view(foods@) == w.2
                &&& player_list_view(players@) == w.3
            } by {
            lemma_enc_lengths();
            
        }
    }
    proof {
        lemma_enc_lengths();
        lemma_at_concat(buf@, after_snakes as int, enc_coord_list(coord_list_view(foods@)), enc_player_list(player_list_view(players@)));
        lemma_at_concat(buf@, after_state_order as int, enc_snake_list(snake_list_view(snakes@)), (enc_coord_list(coord_list_view(foods@)) + enc_player_list(player_list_view(players@))));
        lemma_at_concat(buf@, pos as int, enc_u64(state_order), (enc_snake_list(snake_list_view(snakes@)) + (enc_coord_list(coord_list_view(foods@)) + enc_player_list(player_list_view(players@)))));
    }
    Some((GameState { state_order, snakes, foods, players }, after_players))
}

pub open spec fn enc_announcement(w: AnnouncementW) -> Seq<u8> {
    (enc_player_list(w.0) + (enc_config(w.1) + (enc_bool(w.2) + enc_str(w.3))))
}

fn write_announcement(out: &mut Vec<u8>, x: &GameAnnouncement)
    ensures
        final(out)@ == old(out)@ + enc_announcement(announcement_w((*x))),
{
    write_player_list(out, &x.players);
    write_config(out, &x.config);
    write_bool(out, x.can_join);
    write_str(out, &x.game_name);
    proof {
        assert(final(out)@ =~= old(out)@ + enc_announcement(announcement_w((*x))));
    }
}

fn read_announcement(buf: &[u8], pos: usize) -> (r: Option<(GameAnnouncement, usize)>)
    ensures
        r matches Some((x, p)) ==> at(buf@, pos as int, enc_announcement(announcement_w(x))) && p == pos + enc_announcement(announcement_w(x)).len(),
        r matches Some((_, p)) ==> p <= buf.len(),
        forall|w: AnnouncementW| #[trigger] at(buf@, pos as int, enc_announcement(w)) ==> (r matches Some((x, p)) && announcement_w(x) == w
            && p == pos + enc_announcement(w).len()),
{
    proof {
        lemma_enc_lengths();
    }
    let (players, after_players) = match read_player_list(buf, pos) {
        Some(t) => t,
        None => {
            proof {
                assert forall|w: AnnouncementW| !#[trigger] at(buf@, pos as int, enc_announcement(w)) by {
                    if at(buf@, pos as int, enc_announcement(w)) {
                        lemma_enc_lengths();
                        lemma_at_concat(buf@, pos as int, enc_player_list(w.0), (enc_config(w.1) + (enc_bool(w.2) + enc_str(w.3))));
                    }
                }
            }
            return None;
        },
    };
    proof {
        assert forall|w: AnnouncementW| #[trigger] at(buf@, pos as int, enc_announcement(w)) implies {
                &&& after_players == pos + enc_announcement(w).len() - (enc_config(w.1) + (enc_bool(w.2) + enc_str(w.3))).len()
                &&& at(buf@, after_players as int, (enc_config(w.1) + (enc_bool(w.2) + enc_str(w.3))))
                &&& player_list_view(players@) == w.0
            } by {
            lemma_enc_lengths();
            lemma_at_concat(buf@, pos as int, enc_player_list(w.0), (enc_config(w.1) + (enc_bool(w.2) + enc_str(w.3))));
        }
    }
    let (config, after_config) = match read_config(buf, after_players) {
        Some(t) => t,
        None => {
            proof {
                assert forall|w: AnnouncementW| !#[trigger] at(buf@, pos as int, enc_announcement(w)) by {
                    if at(buf@, pos as int, enc_announcement(w)) {
                        lemma_enc_lengths();
                        lemma_at_concat(buf@, after_players as int, enc_config(w.1), (enc_bool(w.2) + enc_str(w.3)));
                    }
                }
            }
            return None;
        },
    };
    proof {
        assert forall|w: AnnouncementW| #[trigger] at(buf@, pos as int, enc_announcement(w)) implies {
                &&& after_config == pos + enc_announcement(w).len() - (enc_bool(w.2) + enc_str(w.3)).len()
                &&& at(buf@, after_config as int, (enc_bool(w.2) + enc_str(w.3)))
                &&& player_list_view(players@) == w.0
                &&& config == w.1
            } by {
            lemma_enc_lengths();
            lemma_at_concat(buf@, after_players as int, enc_config(w.1), (enc_bool(w.2) + enc_str(w.3)));
        }
    }
    let (can_join, after_can_join) = match read_bool(buf, after_config) {
        Some(t) => t,
        None => {
            proof {
                assert forall|w: AnnouncementW| !#[trigger] at(buf@, pos as int, enc_announcement(w)) by {
                    if at(buf@, pos as int, enc_announcement(w)) {
                        lemma_enc_lengths();
                        lemma_at_concat(buf@, after_config as int, enc_bool(w.2), enc_str(w.3));
                    }
                }
            }
            return None;
        },
    };
    proof {
        assert forall|w: AnnouncementW| #[trigger] at(buf@, pos as int, enc_announcement(w)) implies {
                &&& after_can_join == pos + enc_announcement(w).len() - enc_str(w.3).len()
                &&& at(buf@, after_can_join as int, enc_str(w.3))
                &&& player_list_view(players@) == w.0
                &&& config == w.1
                &&& can_join == w.2
            } by {
            lemma_enc_lengths();
            lemma_at_concat(buf@, after_config as int, enc_bool(w.2), enc_str(w.3));
        }
    }
    let (game_name, after_game_name) = match read_str(buf, after_can_join) {
        Some(t) => t,
        None => {
            proof {
                assert forall|w: AnnouncementW| !#[trigger] at(buf@, pos as int, enc_announcement(w)) by {
                    if at(buf@, pos as int, enc_announcement(w)) {
                        lemma_enc_lengths();
                        
                    }
                }
            }
            return None;
        },
    };
    proof {
        assert forall|w: AnnouncementW| #[trigger] at(buf@, pos as int, enc_announcement(w)) implies {
                &&& after_game_name == pos + enc_announcement(w).len()
                &&& player_list_view(players@) == w.0
                &&& config == w.1
                &&& can_join == w.2
                &&& game_name@ == w.3
            } by {
            lemma_enc_lengths();
            
        }
    }
    proof {
        lemma_enc_lengths();
        lemma_at_concat(buf@, after_config as int, enc_bool(can_join), enc_str(game_name@));
        lemma_at_concat(buf@, after_players as int, enc_config(config), (enc_bool(can_join) + enc_str(game_name@)));
        lemma_at_concat(buf@, pos as int, enc_player_list(player_list_view(players@)), (enc_config(config) + (enc_bool(can_join) + enc_str(game_name@))));
    }
    Some((GameAnnouncement { players, config, can_join, game_name }, after_game_name))
}

pub open spec fn enc_announcement_items(s: Seq<AnnouncementW>) -> Seq<u8>
    decreases s.len(),
{
    if s.len() == 0 {
        seq![]
    } else {
        enc_announcement(s[0]) + enc_announcement_items(s.drop_first())
    }
}

proof fn lemma_enc_announcement_items_len(s: Seq<AnnouncementW>)
    ensures
        enc_announcement_items(s).len() >= s.len(),
    decreases s.len(),
{
    lemma_enc_lengths();
    if s.len() > 0 {
        lemma_enc_announcement_items_len(s.drop_first());
    }
}

proof fn lemma_enc_announcement_items_push(s: Seq<AnnouncementW>, e: AnnouncementW)
    ensures
        enc_announcement_items(s.push(e)) == enc_announcement_items(s) + enc_announcement(e),
    decreases s.len(),
{
    if s.len() == 0 {
        assert(s.push(e).drop_first() =~= s);
        assert(s.push(e)[0] == e);
        assert(enc_announcement_items(s.push(e)) =~= enc_announcement_items(s) + enc_announcement(e));
    } else {
        assert(s.push(e).drop_first() =~= s.drop_first().push(e));
        assert(s.push(e)[0] == s[0]);
        lemma_enc_announcement_items_push(s.drop_first(), e);
        assert(enc_announcement_items(s.push(e)) =~= enc_announcement_items(s) + enc_announcement(e));
    }
}

pub open spec fn enc_announcement_list(s: Seq<AnnouncementW>) -> Seq<u8> {
    enc_u64(s.len() as u64) + enc_announcement_items(s)
}

pub open spec fn announcement_list_view(xs: Seq<GameAnnouncement>) -> Seq<AnnouncementW> {
    xs.map_values(|x: GameAnnouncement| announcement_w(x))
}

fn write_announcement_list(out: &mut Vec<u8>, xs: &Vec<GameAnnouncement>)
    ensures
        final(out)@ == old(out)@ + enc_announcement_list(announcement_list_view(xs@)),
{
    let ghost vs = announcement_list_view(xs@);
    let ghost n = xs.len() as int;
    write_u64(out, xs.len() as u64);
    let mut i: usize = 0;
    proof {
        assert(vs.subrange(0, n) =~= vs);
    }
    while i < xs.len()
        invariant
            i <= xs.len(),
            n == xs.len(),
            vs == announcement_list_view(xs@),
            out@ + enc_announcement_items(vs.subrange(i as int, n)) == old(out)@ + enc_announcement_list(vs),
        decreases xs.len() - i,
    {
        let ghost before = out@;
        write_announcement(out, &xs[i]);
        proof {
            let sub = vs.subrange(i as int, n);
            assert(sub.drop_first() =~= vs.subrange(i + 1, n));
            assert(sub[0] == vs[i as int]);
            assert(out@ + enc_announcement_items(vs.subrange(i + 1, n)) =~= before + enc_announcement_items(sub));
        }
        i += 1;
    }
    proof {
        assert(vs.subrange(n, n).len() == 0);
        assert(out@ =~= out@ + enc_announcement_items(vs.subrange(n, n)));
    }
}

fn read_announcement_list(buf: &[u8], pos: usize) -> (r: Option<(Vec<GameAnnouncement>, usize)>)
    ensures
        r matches Some((xs, p)) ==> at(buf@, pos as int, enc_announcement_list(announcement_list_view(xs@))) && p == pos + enc_announcement_list(
            announcement_list_view(xs@),
        ).len(),
        r matches Some((_, p)) ==> p <= buf.len(),
        forall|v: Seq<AnnouncementW>| #[trigger] at(buf@, pos as int, enc_announcement_list(v)) ==> (r matches Some((xs, p)) && announcement_list_view(xs@) == v
            && p == pos + enc_announcement_list(v).len()),
{
    proof {
        lemma_enc_lengths();
        assert forall|v: Seq<AnnouncementW>| #[trigger] at(buf@, pos as int, enc_announcement_list(v)) implies at(buf@, pos as int, enc_u64(v.len() as u64))
            && at(buf@, pos + 8, enc_announcement_items(v)) by {
            lemma_at_concat(buf@, pos as int, enc_u64(v.len() as u64), enc_announcement_items(v));
        }
    }
    let (n, p0) = match read_u64(buf, pos) {
        Some(t) => t,
        None => {
            return None;
        },
    };
    let mut xs: Vec<GameAnnouncement> = Vec::new();
    let mut p = p0;
    let mut i: u64 = 0;
    proof {
        assert(announcement_list_view(xs@) =~= Seq::<AnnouncementW>::empty());
        assert(buf@.subrange(pos + 8, pos + 8) =~= Seq::<u8>::empty());
        assert forall|v: Seq<AnnouncementW>| #[trigger] at(buf@, pos as int, enc_announcement_list(v)) implies v.len() == n && v.subrange(0, v.len() as int) == v by {
            assert(v.subrange(0, v.len() as int) =~= v);
            lemma_enc_announcement_items_len(v);
            assert(v.len() <= buf@.len());
            assert(v.len() as u64 == n);
        }
    }
    while i < n
        invariant
            p0 == pos + 8,
            p <= buf.len(),
            i <= n,
            xs.len() == i,
            at(buf@, pos as int, enc_u64(n)),
            p == pos + 8 + enc_announcement_items(announcement_list_view(xs@)).len(),
            at(buf@, pos + 8, enc_announcement_items(announcement_list_view(xs@))),
            forall|v: Seq<AnnouncementW>| #[trigger] at(buf@, pos as int, enc_announcement_list(v)) ==> {
                &&& v.len() == n
                &&& forall|k: int| 0 <= k < i ==> #[trigger] announcement_list_view(xs@)[k] == v[k]
                &&& p == pos + 8 + enc_announcement_items(v).len() - enc_announcement_items(v.subrange(i as int, v.len() as int)).len()
                &&& at(buf@, p as int, enc_announcement_items(v.subrange(i as int, v.len() as int)))
            },
        decreases n - i,
    {
        let ghost before = xs@;
        let (x, q) = match read_announcement(buf, p) {
            Some(t) => t,
            None => {
                proof {
                    assert forall|v: Seq<AnnouncementW>| !#[trigger] at(buf@, pos as int, enc_announcement_list(v)) by {
                        if at(buf@, pos as int, enc_announcement_list(v)) {
                            let sub = v.subrange(i as int, v.len() as int);
                            assert(sub.drop_first() =~= v.subrange(i + 1, v.len() as int));
                            lemma_at_concat(buf@, p as int, enc_announcement(sub[0]), enc_announcement_items(sub.drop_first()));
                        }
                    }
                }
                return None;
            },
        };
        xs.push(x);
        proof {
            lemma_enc_lengths();
            assert(announcement_list_view(xs@) =~= announcement_list_view(before).push(announcement_w(x)));
            lemma_enc_announcement_items_push(announcement_list_view(before), announcement_w(x));
            lemma_at_concat(buf@, pos + 8, enc_announcement_items(announcement_list_view(before)), enc_announcement(announcement_w(x)));
            assert forall|v: Seq<AnnouncementW>| #[trigger] at(buf@, pos as int, enc_announcement_list(v)) implies {
                &&& v.len() == n
                &&& forall|k: int| 0 <= k < i + 1 ==> #[trigger] announcement_list_view(xs@)[k] == v[k]
                &&& q == pos + 8 + enc_announcement_items(v).len() - enc_announcement_items(v.subrange(i + 1, v.len() as int)).len()
                &&& at(buf@, q as int, enc_announcement_items(v.subrange(i + 1, v.len() as int)))
            } by {
                lemma_enc_lengths();
                let sub = v.subrange(i as int, v.len() as int);
                assert(sub.drop_first() =~= v.subrange(i + 1, v.len() as int));
                assert(sub[0] == v[i as int]);
                assert(enc_announcement_items(sub) == enc_announcement(sub[0]) + enc_announcement_items(sub.drop_first()));
                lemma_at_concat(buf@, p as int, enc_announcement(sub[0]), enc_announcement_items(sub.drop_first()));
                assert(at(buf@, p as int, enc_announcement(v[i as int])));
                assert(announcement_w(x) == v[i as int]);
                assert(q == p + enc_announcement(v[i as int]).len());
                assert(xs@[i as int] == x);
                assert forall|k: int| 0 <= k < i + 1 implies #[trigger] announcement_list_view(xs@)[k] == v[k] by {
                    if k < i {
                        assert(xs@[k] == before[k]);
                        assert(announcement_list_view(before)[k] == v[k]);
                    }
                }
            }
        }
        p = q;
        i += 1;
    }
    proof {
        assert forall|v: Seq<AnnouncementW>| #[trigger] at(buf@, pos as int, enc_announcement_list(v)) implies announcement_list_view(xs@) == v && p == pos
            + enc_announcement_list(v).len() by {
            assert(announcement_list_view(xs@) =~= v);
            assert(v.subrange(v.len() as int, v.len() as int).len() == 0);
        }
        assert(announcement_list_view(xs@).len() == n);
        lemma_at_concat(buf@, pos as int, enc_u64(n), enc_announcement_items(announcement_list_view(xs@)));
    }
    Some((xs, p))
}

pub open spec fn enc_join(w: JoinW) -> Seq<u8> {
    (seq![player_type_tag(w.0)] + (enc_str(w.1) + (enc_str(w.2) + seq![role_tag(w.3)])))
}

fn write_join(out: &mut Vec<u8>, x: &JoinRequest)
    ensures
        final(out)@ == old(out)@ + enc_join(join_w((*x))),
{
    write_player_type(out, x.player_type);
    write_str(out, &x.player_name);
    write_str(out, &x.game_name);
    write_role(out, x.requested_role);
    proof {
        assert(final(out)@ =~= old(out)@ + enc_join(join_w((*x))));
    }
}

fn read_join(buf: &[u8], pos: usize) -> (r: Option<(JoinRequest, usize)>)
    ensures
        r matches Some((x, p)) ==> at(buf@, pos as int, enc_join(join_w(x))) && p == pos + enc_join(join_w(x)).len(),
        r matches Some((_, p)) ==> p <= buf.len(),
        forall|w: JoinW| #[trigger] at(buf@, pos as int, enc_join(w)) ==> (r matches Some((x, p)) && join_w(x) == w
            && p == pos + enc_join(w).len()),
{
    proof {
        lemma_enc_lengths();
    }
    let (player_type, after_player_type) = match read_player_type(buf, pos) {
        Some(t) => t,
        None => {
            proof {
                assert forall|w: JoinW| !#[trigger] at(buf@, pos as int, enc_join(w)) by {
                    if at(buf@, pos as int, enc_join(w)) {
                        lemma_enc_lengths();
                        lemma_at_concat(buf@, pos as int, seq![player_type_tag(w.0)], (enc_str(w.1) + (enc_str(w.2) + seq![role_tag(w.3)])));
                    }
                }
            }
            return None;
        },
    };
    proof {
        assert forall|w: JoinW| #[trigger] at(buf@, pos as int, enc_join(w)) implies {
                &&& after_player_type == pos + enc_join(w).len() - (enc_str(w.1) + (enc_str(w.2) + seq![role_tag(w.3)])).len()
                &&& at(buf@, after_player_type as int, (enc_str(w.1) + (enc_str(w.2) + seq![role_tag(w.3)])))
                &&& player_type == w.0
            } by {
            lemma_enc_lengths();
            lemma_at_concat(buf@, pos as int, seq![player_type_tag(w.0)], (enc_str(w.1) + (enc_str(w.2) + seq![role_tag(w.3)])));
        }
    }
    let (player_name, after_player_name) = match read_str(buf, after_player_type) {
        Some(t) => t,
        None => {
            proof {
                assert forall|w: JoinW| !#[trigger] at(buf@, pos as int, enc_join(w)) by {
                    if at(buf@, pos as int, enc_join(w)) {
                        lemma_enc_lengths();
                        lemma_at_concat(buf@, after_player_type as int, enc_str(w.1), (enc_str(w.2) + seq![role_tag(w.3)]));
                    }
                }
            }
            return None;
        },
    };
    proof {
        assert forall|w: JoinW| #[trigger] at(buf@, pos as int, enc_join(w)) implies {
                &&& after_player_name == pos + enc_join(w).len() - (enc_str(w.2) + seq![role_tag(w.3)]).len()
                &&& at(buf@, after_player_name as int, (enc_str(w.2) + seq![role_tag(w.3)]))
                &&& player_type == w.0
                &&& player_name@ == w.1
            } by {
            lemma_enc_lengths();
            lemma_at_concat(buf@, after_player_type as int, enc_str(w.1), (enc_str(w.2) + seq![role_tag(w.3)]));
        }
    }
    let (game_name, after_game_name) = match read_str(buf, after_player_name) {
        Some(t) => t,
        None => {
            proof {
                assert forall|w: JoinW| !#[trigger] at(buf@, pos as int, enc_join(w)) by {
                    if at(buf@, pos as int, enc_join(w)) {
                        lemma_enc_lengths();
                        lemma_at_concat(buf@, after_player_name as int, enc_str(w.2), seq![role_tag(w.3)]);
                    }
                }
            }
            return None;
        },
    };
    proof {
        assert forall|w: JoinW| #[trigger] at(buf@, pos as int, enc_join(w)) implies {
                &&& after_game_name == pos + enc_join(w).len() - seq![role_tag(w.3)].len()
                &&& at(buf@, after_game_name as int, seq![role_tag(w.3)])
                &&& player_type == w.0
                &&& player_name@ == w.1
                &&& game_name@ == w.2
            } by {
            lemma_enc_lengths();
            lemma_at_concat(buf@, after_player_name as int, enc_str(w.2), seq![role_tag(w.3)]);
        }
    }
    let (requested_role, after_requested_role) = match read_role(buf, after_game_name) {
        Some(t) => t,
        None => {
            proof {
                assert forall|w: JoinW| !#[trigger] at(buf@, pos as int, enc_join(w)) by {
                    if at(buf@, pos as int, enc_join(w)) {
                        lemma_enc_lengths();
                        
                    }
                }
            }
            return None;
        },
    };
    proof {
        assert forall|w: JoinW| #[trigger] at(buf@, pos as int, enc_join(w)) implies {
                &&& after_requested_role == pos + enc_join(w).len()
                &&& player_type == w.0
                &&& player_name@ == w.1
                &&& game_name@ == w.2
                &&& requested_role == w.3
            } by {
            lemma_enc_lengths();
            
        }
    }
    proof {
        lemma_enc_lengths();
        lemma_at_concat(buf@, after_player_name as int, enc_str(game_name@), seq![role_tag(requested_role)]);
        lemma_at_concat(buf@, after_player_type as int, enc_str(player_name@), (enc_str(game_name@) + seq![role_tag(requested_role)]));
        lemma_at_concat(buf@, pos as int, seq![player_type_tag(player_type)], (enc_str(player_name@) + (enc_str(game_name@) + seq![role_tag(requested_role)])));
    }
    Some((JoinRequest { player_type, player_name, game_name, requested_role }, after_requested_role))
}

pub open spec fn enc_role_change(w: RoleChangeW) -> Seq<u8> {
    (enc_opt_role(w.0) + enc_opt_role(w.1))
}

fn write_role_change(out: &mut Vec<u8>, x: &RoleChangeRequest)
    ensures
        final(out)@ == old(out)@ + enc_role_change(role_change_w((*x))),
{
    write_opt_role(out, x.sender_role);
    write_opt_role(out, x.receiver_role);
    proof {
        assert(final(out)@ =~= old(out)@ + enc_role_change(role_change_w((*x))));
    }
}

fn read_role_change(buf: &[u8], pos: usize) -> (r: Option<(RoleChangeRequest, usize)>)
    ensures
        r matches Some((x, p)) ==> at(buf@, pos as int, enc_role_change(role_change_w(x))) && p == pos + enc_role_change(role_change_w(x)).len(),
        r matches Some((_, p)) ==> p <= buf.len(),
        forall|w: RoleChangeW| #[trigger] at(buf@, pos as int, enc_role_change(w)) ==> (r matches Some((x, p)) && role_change_w(x) == w
            && p == pos + enc_role_change(w).len()),
{
    proof {
        lemma_enc_lengths();
    }
    let (sender_role, after_sender_role) = match read_opt_role(buf, pos) {
        Some(t) => t,
        None => {
            proof {
                assert forall|w: RoleChangeW| !#[trigger] at(buf@, pos as int, enc_role_change(w)) by {
                    if at(buf@, pos as int, enc_role_change(w)) {
                        lemma_enc_lengths();
                        lemma_at_concat(buf@, pos as int, enc_opt_role(w.0), enc_opt_role(w.1));
                    }
                }
            }
            return None;
        },
    };
    proof {
        assert forall|w: RoleChangeW| #[trigger] at(buf@, pos as int, enc_role_change(w)) implies {
                &&& after_sender_role == pos + enc_role_change(w).len() - enc_opt_role(w.1).len()
                &&& at(buf@, after_sender_role as int, enc_opt_role(w.1))
                &&& sender_role == w.0
            } by {
            lemma_enc_lengths();
            lemma_at_concat(buf@, pos as int, enc_opt_role(w.0), enc_opt_role(w.1));
        }
    }
    let (receiver_role, after_receiver_role) = match read_opt_role(buf, after_sender_role) {
        Some(t) => t,
        None => {
            proof {
                assert forall|w: RoleChangeW| !#[trigger] at(buf@, pos as int, enc_role_change(w)) by {
                    if at(buf@, pos as int, enc_role_change(w)) {
                        lemma_enc_lengths();
                        
                    }
                }
            }
            return None;
        },
    };
    proof {
        assert forall|w: RoleChangeW| #[trigger] at(buf@, pos as int, enc_role_change(w)) implies {
                &&& after_receiver_role == pos + enc_role_change(w).len()
                &&& sender_role == w.0
                &&& receiver_role == w.1
            } by {
            lemma_enc_lengths();
            
        }
    }
    proof {
        lemma_enc_lengths();
        lemma_at_concat(buf@, pos as int, enc_opt_role(sender_role), enc_opt_role(receiver_role));
    }
    Some((RoleChangeRequest { sender_role, receiver_role }, after_receiver_role))
}

/// The fields of a join request.
#[derive(Debug)]
pub struct JoinRequest {
    pub player_type: PlayerType,
    pub player_name: String,
    pub game_name: String,
    pub requested_role: NodeRole,
}

/// The roles a role change announces.
#[derive(Clone, Copy, Debug, PartialEq, Eq, Structural)]
pub struct RoleChangeRequest {
    pub sender_role: Option<NodeRole>,
    pub receiver_role: Option<NodeRole>,
}

/// The one message an envelope carries.
#[derive(Debug)]
pub enum Payload {
    Ping,
    Steer(Direction),
    Ack,
    State(GameState),
    Announcement(Vec<GameAnnouncement>),
    Discover,
    Join(JoinRequest),
    Error(String),
    RoleChange(RoleChangeRequest),
}

/// A message on the wire: the sender's sequence number, the optional ids
/// of sender and receiver, and the payload.
#[derive(Debug)]
pub struct Envelope {
    pub msg_seq: i64,
    pub sender_id: Option<i32>,
    pub receiver_id: Option<i32>,
    pub payload: Payload,
}

/// Decoding failed: the bytes are truncated, carry an unknown tag or
/// invalid text, or go on past the envelope.
#[derive(Clone, Copy, Debug, PartialEq, Eq, Structural)]
pub struct MalformedMessage;

pub type JoinW = (PlayerType, Seq<char>, Seq<char>, NodeRole);

pub type RoleChangeW = (Option<NodeRole>, Option<NodeRole>);

/// What a payload carries, as plain values.
pub enum PayloadW {
    Ping,
    Steer(Direction),
    Ack,
    State(StateW),
    Announcement(Seq<AnnouncementW>),
    Discover,
    Join(JoinW),
    Error(Seq<char>),
    RoleChange(RoleChangeW),
}

pub type EnvelopeW = (i64, Option<i32>, Option<i32>, PayloadW);

pub open spec fn join_w(j: JoinRequest) -> JoinW {
    (j.player_type, j.player_name@, j.game_name@, j.requested_role)
}

pub open spec fn role_change_w(r: RoleChangeRequest) -> RoleChangeW {
    (r.sender_role, r.receiver_role)
}

pub open spec fn payload_w(p: Payload) -> PayloadW {
    match p {
        Payload::Ping => PayloadW::Ping,
        Payload::Steer(d) => PayloadW::Steer(d),
        Payload::Ack => PayloadW::Ack,
        Payload::State(s) => PayloadW::State(state_w(s)),
        Payload::Announcement(g) => PayloadW::Announcement(announcement_list_view(g@)),
        Payload::Discover => PayloadW::Discover,
        Payload::Join(j) => PayloadW::Join(join_w(j)),
        Payload::Error(m) => PayloadW::Error(m@),
        Payload::RoleChange(r) => PayloadW::RoleChange(role_change_w(r)),
    }
}

pub open spec fn envelope_w(e: Envelope) -> EnvelopeW {
    (e.msg_seq, e.sender_id, e.receiver_id, payload_w(e.payload))
}

pub open spec fn enc_payload(w: PayloadW) -> Seq<u8> {
    match w {
        PayloadW::Ping => seq![0u8],
        PayloadW::Steer(d) => seq![1u8] + seq![direction_tag(d)],
        PayloadW::Ack => seq![2u8],
        PayloadW::State(s) => seq![3u8] + enc_state(s),
        PayloadW::Announcement(g) => seq![4u8] + enc_announcement_list(g),
        PayloadW::Discover => seq![5u8],
        PayloadW::Join(j) => seq![6u8] + enc_join(j),
        PayloadW::Error(m) => seq![7u8] + enc_str(m),
        PayloadW::RoleChange(r) => seq![8u8] + enc_role_change(r),
    }
}

fn write_payload(out: &mut Vec<u8>, p: &Payload)
    ensures
        final(out)@ == old(out)@ + enc_payload(payload_w(*p)),
{
    match p {
        Payload::Ping => write_byte(out, 0),
        Payload::Steer(d) => {
            write_byte(out, 1);
            write_direction(out, *d);
        },
        Payload::Ack => write_byte(out, 2),
        Payload::State(s) => {
            write_byte(out, 3);
            write_state(out, s);
        },
        Payload::Announcement(g) => {
            write_byte(out, 4);
            write_announcement_list(out, g);
        },
        Payload::Discover => write_byte(out, 5),
        Payload::Join(j) => {
            write_byte(out, 6);
            write_join(out, j);
        },
        Payload::Error(m) => {
            write_byte(out, 7);
            write_str(out, m);
        },
        Payload::RoleChange(r) => {
            write_byte(out, 8);
            write_role_change(out, r);
        },
    }
    proof {
        assert(final(out)@ =~= old(out)@ + enc_payload(payload_w(*p)));
    }
}

#[verifier::spinoff_prover]
#[verifier::rlimit(40)]
fn read_payload(buf: &[u8], pos: usize) -> (r: Option<(Payload, usize)>)
    ensures
        r matches Some((x, p)) ==> at(buf@, pos as int, enc_payload(payload_w(x))) && p == pos + enc_payload(payload_w(x)).len(),
        r matches Some((_, p)) ==> p <= buf.len(),
        forall|w: PayloadW| #[trigger] at(buf@, pos as int, enc_payload(w)) ==> (r matches Some((x, p)) && payload_w(x) == w
            && p == pos + enc_payload(w).len()),
{
    let (tag, p) = match read_byte(buf, pos) {
        Some(t) => t,
        None => {
            proof {
                assert forall|w: PayloadW| !#[trigger] at(buf@, pos as int, enc_payload(w)) by {
                    if at(buf@, pos as int, enc_payload(w)) {
                        lemma_at_concat(buf@, pos as int, seq![enc_payload(w)[0]], enc_payload(w).drop_first());
                        assert(enc_payload(w) =~= seq![enc_payload(w)[0]] + enc_payload(w).drop_first());
                    }
                }
            }
            return None;
        },
    };
    proof {
        assert forall|w: PayloadW| #[trigger] at(buf@, pos as int, enc_payload(w)) implies tag == enc_payload(w)[0]
            && at(buf@, p as int, enc_payload(w).drop_first()) by {
            assert(enc_payload(w) =~= seq![enc_payload(w)[0]] + enc_payload(w).drop_first());
            lemma_at_concat(buf@, pos as int, seq![enc_payload(w)[0]], enc_payload(w).drop_first());
        }
    }
    let r = match tag {
        0 => Some((Payload::Ping, p)),
        1 => match read_direction(buf, p) {
            Some((d, q)) => Some((Payload::Steer(d), q)),
            None => None,
        },
        2 => Some((Payload::Ack, p)),
        3 => match read_state(buf, p) {
            Some((s, q)) => Some((Payload::State(s), q)),
            None => None,
        },
        4 => match read_announcement_list(buf, p) {
            Some((g, q)) => Some((Payload::Announcement(g), q)),
            None => None,
        },
        5 => Some((Payload::Discover, p)),
        6 => match read_join(buf, p) {
            Some((j, q)) => Some((Payload::Join(j), q)),
            None => None,
        },
        7 => match read_str(buf, p) {
            Some((m, q)) => Some((Payload::Error(m), q)),
            None => None,
        },
        8 => match read_role_change(buf, p) {
            Some((c, q)) => Some((Payload::RoleChange(c), q)),
            None => None,
        },
        _ => None,
    };
    proof {
        assert forall|w: PayloadW| #[trigger] at(buf@, pos as int, enc_payload(w)) implies (r matches Some((x, q)) && payload_w(x)
            == w && q == pos + enc_payload(w).len()) by {
            match w {
                PayloadW::Steer(d) => {
                    assert(enc_payload(w).drop_first() =~= seq![direction_tag(d)]);
                },
                PayloadW::State(s) => {
                    assert(enc_payload(w).drop_first() =~= enc_state(s));
                },
                PayloadW::Announcement(g) => {
                    assert(enc_payload(w).drop_first() =~= enc_announcement_list(g));
                },
                PayloadW::Join(j) => {
                    assert(enc_payload(w).drop_first() =~= enc_join(j));
                },
                PayloadW::Error(m) => {
                    assert(enc_payload(w).drop_first() =~= enc_str(m));
                },
                PayloadW::RoleChange(c) => {
                    assert(enc_payload(w).drop_first() =~= enc_role_change(c));
                },
                _ => {},
            }
        }
        match &r {
            Some((x, q)) => {
                match x {
                    Payload::Steer(d) => {
                        lemma_at_concat(buf@, pos as int, seq![1u8], seq![direction_tag(*d)]);
                    },
                    Payload::State(st) => {
                        lemma_at_concat(buf@, pos as int, seq![3u8], enc_state(state_w(*st)));
                    },
                    Payload::Announcement(g) => {
                        lemma_at_concat(buf@, pos as int, seq![4u8], enc_announcement_list(announcement_list_view(g@)));
                    },
                    Payload::Join(j) => {
                        lemma_at_concat(buf@, pos as int, seq![6u8], enc_join(join_w(*j)));
                    },
                    Payload::Error(m) => {
                        lemma_at_concat(buf@, pos as int, seq![7u8], enc_str(m@));
                    },
                    Payload::RoleChange(c) => {
                        lemma_at_concat(buf@, pos as int, seq![8u8], enc_role_change(role_change_w(*c)));
                    },
                    _ => {},
                }
            },
            None => {},
        }
    }
    r
}

pub open spec fn enc_envelope(w: EnvelopeW) -> Seq<u8> {
    (enc_i64(w.0) + (enc_opt_i32(w.1) + (enc_opt_i32(w.2) + enc_payload(w.3))))
}

fn write_envelope(out: &mut Vec<u8>, x: &Envelope)
    ensures
        final(out)@ == old(out)@ + enc_envelope(envelope_w((*x))),
{
    write_i64(out, x.msg_seq);
    write_opt_i32(out, x.sender_id);
    write_opt_i32(out, x.receiver_id);
    write_payload(out, &x.payload);
    proof {
        assert(final(out)@ =~= old(out)@ + enc_envelope(envelope_w((*x))));
    }
}

fn read_envelope(buf: &[u8], pos: usize) -> (r: Option<(Envelope, usize)>)
    ensures
        r matches Some((x, p)) ==> at(buf@, pos as int, enc_envelope(envelope_w(x))) && p == pos + enc_envelope(envelope_w(x)).len(),
        r matches Some((_, p)) ==> p <= buf.len(),
        forall|w: EnvelopeW| #[trigger] at(buf@, pos as int, enc_envelope(w)) ==> (r matches Some((x, p)) && envelope_w(x) == w
            && p == pos + enc_envelope(w).len()),
{
    proof {
        lemma_enc_lengths();
    }
    let (msg_seq, after_msg_seq) = match read_i64(buf, pos) {
        Some(t) => t,
        None => {
            proof {
                assert forall|w: EnvelopeW| !#[trigger] at(buf@, pos as int, enc_envelope(w)) by {
                    if at(buf@, pos as int, enc_envelope(w)) {
                        lemma_enc_lengths();
                        lemma_at_concat(buf@, pos as int, enc_i64(w.0), (enc_opt_i32(w.1) + (enc_opt_i32(w.2) + enc_payload(w.3))));
                    }
                }
            }
            return None;
        },
    };
    proof {
        assert forall|w: EnvelopeW| #[trigger] at(buf@, pos as int, enc_envelope(w)) implies {
                &&& after_msg_seq == pos + enc_envelope(w).len() - (enc_opt_i32(w.1) + (enc_opt_i32(w.2) + enc_payload(w.3))).len()
                &&& at(buf@, after_msg_seq as int, (enc_opt_i32(w.1) + (enc_opt_i32(w.2) + enc_payload(w.3))))
                &&& msg_seq == w.0
            } by {
            lemma_enc_lengths();
            lemma_at_concat(buf@, pos as int, enc_i64(w.0), (enc_opt_i32(w.1) + (enc_opt_i32(w.2) + enc_payload(w.3))));
        }
    }
    let (sender_id, after_sender_id) = match read_opt_i32(buf, after_msg_seq) {
        Some(t) => t,
        None => {
            proof {
                assert forall|w: EnvelopeW| !#[trigger] at(buf@, pos as int, enc_envelope(w)) by {
                    if at(buf@, pos as int, enc_envelope(w)) {
                        lemma_enc_lengths();
                        lemma_at_concat(buf@, after_msg_seq as int, enc_opt_i32(w.1), (enc_opt_i32(w.2) + enc_payload(w.3)));
                    }
                }
            }
            return None;
        },
    };
    proof {
        assert forall|w: EnvelopeW| #[trigger] at(buf@, pos as int, enc_envelope(w)) implies {
                &&& after_sender_id == pos + enc_envelope(w).len() - (enc_opt_i32(w.2) + enc_payload(w.3)).len()
                &&& at(buf@, after_sender_id as int, (enc_opt_i32(w.2) + enc_payload(w.3)))
                &&& msg_seq == w.0
                &&& sender_id == w.1
            } by {
            lemma_enc_lengths();
            lemma_at_concat(buf@, after_msg_seq as int, enc_opt_i32(w.1), (enc_opt_i32(w.2) + enc_payload(w.3)));
        }
    }
    let (receiver_id, after_receiver_id) = match read_opt_i32(buf, after_sender_id) {
        Some(t) => t,
        None => {
            proof {
                assert forall|w: EnvelopeW| !#[trigger] at(buf@, pos as int, enc_envelope(w)) by {
                    if at(buf@, pos as int, enc_envelope(w)) {
                        lemma_enc_lengths();
                        lemma_at_concat(buf@, after_sender_id as int, enc_opt_i32(w.2), enc_payload(w.3));
                    }
                }
            }
            return None;
        },
    };
    proof {
        assert forall|w: EnvelopeW| #[trigger] at(buf@, pos as int, enc_envelope(w)) implies {
                &&& after_receiver_id == pos + enc_envelope(w).len() - enc_payload(w.3).len()
                &&& at(buf@, after_receiver_id as int, enc_payload(w.3))
                &&& msg_seq == w.0
                &&& sender_id == w.1
                &&& receiver_id == w.2
            } by {
            lemma_enc_lengths();
            lemma_at_concat(buf@, after_sender_id as int, enc_opt_i32(w.2), enc_payload(w.3));
        }
    }
    let (payload, after_payload) = match read_payload(buf, after_receiver_id) {
        Some(t) => t,
        None => {
            proof {
                assert forall|w: EnvelopeW| !#[trigger] at(buf@, pos as int, enc_envelope(w)) by {
                    if at(buf@, pos as int, enc_envelope(w)) {
                        lemma_enc_lengths();
                        
                    }
                }
            }
            return None;
        },
    };
    proof {
        assert forall|w: EnvelopeW| #[trigger] at(buf@, pos as int, enc_envelope(w)) implies {
                &&& after_payload == pos + enc_envelope(w).len()
                &&& msg_seq == w.0
                &&& sender_id == w.1
                &&& receiver_id == w.2
                &&& payload_w(payload) == w.3
            } by {
            lemma_enc_lengths();
            
        }
    }
    proof {
        lemma_enc_lengths();
        lemma_at_concat(buf@, after_sender_id as int, enc_opt_i32(receiver_id), enc_payload(payload_w(payload)));
        lemma_at_concat(buf@, after_msg_seq as int, enc_opt_i32(sender_id), (enc_opt_i32(receiver_id) + enc_payload(payload_w(payload))));
        lemma_at_concat(buf@, pos as int, enc_i64(msg_seq), (enc_opt_i32(sender_id) + (enc_opt_i32(receiver_id) + enc_payload(payload_w(payload)))));
    }
    Some((Envelope { msg_seq, sender_id, receiver_id, payload }, after_payload))
}

/// The bytes of an envelope.
pub fn encode(envelope: &Envelope) -> (r: Vec<u8>)
    ensures
        r@ == enc_envelope(envelope_w(*envelope)),
{
    let mut out: Vec<u8> = Vec::new();
    write_envelope(&mut out, envelope);
    proof {
        assert(out@ =~= enc_envelope(envelope_w(*envelope)));
    }
    out
}

/// Reads an envelope that takes up all of `bytes`. It succeeds exactly on
/// the bytes that `encode` produces, and then gives back the envelope they
/// were made from, every payload and every unset optional included.
pub fn decode(bytes: &[u8]) -> (r: Result<Envelope, MalformedMessage>)
    ensures
        r matches Ok(e) ==> bytes@ == enc_envelope(envelope_w(e)),
        r is Err <==> forall|w: EnvelopeW| #[trigger] enc_envelope(w) != bytes@,
        forall|w: EnvelopeW| #[trigger] enc_envelope(w) == bytes@ ==> (r matches Ok(e) && envelope_w(e) == w),
{
    match read_envelope(bytes, 0) {
        Some((e, p)) => {
            if p == bytes.len() {
                proof {
                    assert forall|w: EnvelopeW| #[trigger] enc_envelope(w) == bytes@ implies envelope_w(e) == w by {
                        assert(bytes@.subrange(0, bytes@.len() as int) =~= bytes@);
                        assert(at(bytes@, 0, enc_envelope(w)));
                    }
                    assert(bytes@.subrange(0, bytes@.len() as int) =~= bytes@);
                    assert(enc_envelope(envelope_w(e)) == bytes@);
                }
                Ok(e)
            } else {
                proof {
                    assert forall|w: EnvelopeW| #[trigger] enc_envelope(w) != bytes@ by {
                        if enc_envelope(w) == bytes@ {
                            assert(bytes@.subrange(0, bytes@.len() as int) =~= bytes@);
                            assert(at(bytes@, 0, enc_envelope(w)));
                        }
                    }
                }
                Err(MalformedMessage)
            }
        },
        None => {
            proof {
                assert forall|w: EnvelopeW| #[trigger] enc_envelope(w) != bytes@ by {
                    if enc_envelope(w) == bytes@ {
                        assert(bytes@.subrange(0, bytes@.len() as int) =~= bytes@);
                        assert(at(bytes@, 0, enc_envelope(w)));
                    }
                }
            }
            Err(MalformedMessage)
        },
    }
}

} // verus!
