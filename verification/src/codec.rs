//! The persisted record layout.
//!
//! Every task is stored as one versioned, fixed-width record:
//! a format-version byte, the 16 little-endian bytes of the id, one byte
//! for the task type, the 8 little-endian bytes of the execution time
//! (offset into the unsigned range so negative timestamps survive), and
//! one byte for the state — 27 bytes in all. `decode_task` inverts
//! `encode_task` exactly; `lemma_codec_round_trip` states that.

use vstd::arithmetic::div_mod::{lemma_fundamental_div_mod, lemma_multiply_divide_lt};
use vstd::prelude::*;

use crate::task::{State, Task, TaskType};

verus! {

/// Format version written as the first byte of every record.
pub const FORMAT_VERSION: u8 = 1;

/// Number of bytes in an encoded task record.
pub const RECORD_LEN: usize = 27;

/// `256^n`, the number of values `n` bytes can hold.
pub open spec fn pow256(n: nat) -> nat
    decreases n,
{
    if n == 0 {
        1
    } else {
        256 * pow256((n - 1) as nat)
    }
}

/// The low `n` bytes of `x`, least significant first.
pub open spec fn le_bytes(x: nat, n: nat) -> Seq<u8>
    decreases n,
{
    if n == 0 {
        Seq::empty()
    } else {
        seq![(x % 256) as u8] + le_bytes(x / 256, (n - 1) as nat)
    }
}

/// The number a little-endian byte sequence encodes.
pub open spec fn le_value(s: Seq<u8>) -> nat
    decreases s.len(),
{
    if s.len() == 0 {
        0
    } else {
        s[0] as nat + 256 * le_value(s.subrange(1, s.len() as int))
    }
}

proof fn lemma_pow256_values()
    ensures
        pow256(8) == 0x1_0000_0000_0000_0000,
        pow256(16) == 0x1_0000_0000_0000_0000_0000_0000_0000_0000,
{
    reveal_with_fuel(pow256, 17);
}

proof fn lemma_pow256_mono(a: nat, b: nat)
    requires
        a <= b,
    ensures
        pow256(a) <= pow256(b),
    decreases b,
{
    if a < b {
        lemma_pow256_mono(a, (b - 1) as nat);
    }
}

proof fn lemma_le_bytes_len(x: nat, n: nat)
    ensures
        le_bytes(x, n).len() == n,
    decreases n,
{
    if n > 0 {
        lemma_le_bytes_len(x / 256, (n - 1) as nat);
    }
}

proof fn lemma_le_value_bound(s: Seq<u8>)
    ensures
        le_value(s) < pow256(s.len()),
    decreases s.len(),
{
    if s.len() > 0 {
        let tail = s.subrange(1, s.len() as int);
        lemma_le_value_bound(tail);
        assert(256 * le_value(tail) <= 256 * (pow256(tail.len()) - 1)) by (nonlinear_arith)
            requires
                le_value(tail) <= pow256(tail.len()) - 1,
        ;
    }
}

proof fn lemma_le_round_trip(x: nat, n: nat)
    requires
        x < pow256(n),
    ensures
        le_value(le_bytes(x, n)) == x,
    decreases n,
{
    if n > 0 {
        let s = le_bytes(x, n);
        lemma_le_bytes_len(x / 256, (n - 1) as nat);
        assert(s.subrange(1, s.len() as int) =~= le_bytes(x / 256, (n - 1) as nat));
        assert(x / 256 < pow256((n - 1) as nat)) by {
            lemma_multiply_divide_lt(x as int, 256, pow256((n - 1) as nat) as int);
        }
        lemma_le_round_trip(x / 256, (n - 1) as nat);
        assert(x == 256 * (x / 256) + x % 256) by {
            lemma_fundamental_div_mod(x as int, 256);
        }
    }
}

/// The little-endian bytes of `x`, as a vector of length `n`.
fn le_bytes_vec(x: u128, n: usize) -> (r: Vec<u8>)
    ensures
        r@ == le_bytes(x as nat, n as nat),
{
    let mut out: Vec<u8> = Vec::new();
    let mut v: u128 = x;
    let mut k: usize = 0;
    proof {
        assert(out@ + le_bytes(v as nat, n as nat) =~= le_bytes(x as nat, n as nat));
    }
    while k < n
        invariant
            k <= n,
            out@.len() == k,
            le_bytes(x as nat, n as nat) == out@ + le_bytes(v as nat, (n - k) as nat),
        decreases n - k,
    {
        let ghost v0 = v as nat;
        let ghost rest = (n - k) as nat;
        let b: u8 = (v % 256) as u8;
        out.push(b);
        v = v / 256;
        k = k + 1;
        proof {
            assert(le_bytes(v0, rest) == seq![(v0 % 256) as u8] + le_bytes(
                v0 / 256,
                (rest - 1) as nat,
            ));
            assert(le_bytes(x as nat, n as nat) =~= out@ + le_bytes(v as nat, (n - k) as nat));
        }
    }
    proof {
        assert(le_bytes(v as nat, 0) =~= Seq::<u8>::empty());
        assert(out@ + le_bytes(v as nat, 0) =~= out@);
    }
    out
}

/// The number encoded by `bytes[off .. off + n]`, least significant byte
/// first.
fn read_le(bytes: &Vec<u8>, off: usize, n: usize) -> (r: u128)
    requires
        off + n <= bytes@.len(),
        off + n <= usize::MAX,
        n <= 16,
    ensures
        r as nat == le_value(bytes@.subrange(off as int, (off + n) as int)),
{
    let mut v: u128 = 0;
    let mut k: usize = n;
    proof {
        assert(bytes@.subrange((off + n) as int, (off + n) as int) =~= Seq::<u8>::empty());
    }
    while k > 0
        invariant
            k <= n,
            n <= 16,
            off + n <= bytes@.len(),
            off + n <= usize::MAX,
            v as nat == le_value(bytes@.subrange((off + k) as int, (off + n) as int)),
        decreases k,
    {
        k = k - 1;
        let ghost whole = bytes@.subrange((off + k) as int, (off + n) as int);
        proof {
            assert(whole.subrange(1, whole.len() as int) =~= bytes@.subrange(
                (off + k + 1) as int,
                (off + n) as int,
            ));
            assert(le_value(whole) == whole[0] as nat + 256 * le_value(
                whole.subrange(1, whole.len() as int),
            ));
            lemma_le_value_bound(whole);
            lemma_pow256_mono(whole.len() as nat, 16);
            lemma_pow256_values();
        }
        let b: u8 = bytes[off + k];
        v = v * 256 + (b as u128);
    }
    v
}

/// The unsigned bit pattern a timestamp is stored as: non-negative times
/// map to themselves, negative times are offset by `2^64`.
pub open spec fn time_to_bits(t: i64) -> u64 {
    if t >= 0 {
        t as u64
    } else {
        (t + 0x1_0000_0000_0000_0000) as u64
    }
}

/// Inverse of `time_to_bits`.
pub open spec fn bits_to_time(b: u64) -> i64 {
    if b <= 0x7fff_ffff_ffff_ffff {
        b as i64
    } else {
        (b - 0x1_0000_0000_0000_0000) as i64
    }
}

/// Storing a timestamp and reading it back loses nothing.
pub proof fn lemma_time_bits_round_trip(t: i64)
    ensures
        bits_to_time(time_to_bits(t)) == t,
{
}

fn time_to_bits_exec(t: i64) -> (r: u64)
    ensures
        r == time_to_bits(t),
{
    if t >= 0 {
        t as u64
    } else {
        let shifted: i64 = t + 0x4000_0000_0000_0000 + 0x4000_0000_0000_0000;
        (shifted as u64) + 0x8000_0000_0000_0000u64
    }
}

fn bits_to_time_exec(b: u64) -> (r: i64)
    ensures
        r == bits_to_time(b),
{
    if b <= 0x7fff_ffff_ffff_ffff {
        b as i64
    } else {
        let low: u64 = b - 0x8000_0000_0000_0000;
        (low as i64) - 0x4000_0000_0000_0000 - 0x4000_0000_0000_0000
    }
}

/// Code a task type is stored as.
pub open spec fn task_type_byte(t: TaskType) -> u8 {
    match t {
        TaskType::Foo => 0,
        TaskType::Bar => 1,
        TaskType::Baz => 2,
    }
}

/// Task type a stored code stands for, if any.
pub open spec fn byte_task_type(b: u8) -> Option<TaskType> {
    if b == 0 {
        Some(TaskType::Foo)
    } else if b == 1 {
        Some(TaskType::Bar)
    } else if b == 2 {
        Some(TaskType::Baz)
    } else {
        None
    }
}

/// Code a state is stored as.
pub open spec fn state_byte(s: State) -> u8 {
    match s {
        State::New => 0,
        State::Running => 1,
        State::Done => 2,
    }
}

/// State a stored code stands for, if any.
pub open spec fn byte_state(b: u8) -> Option<State> {
    if b == 0 {
        Some(State::New)
    } else if b == 1 {
        Some(State::Running)
    } else if b == 2 {
        Some(State::Done)
    } else {
        None
    }
}

fn task_type_code(t: TaskType) -> (r: u8)
    ensures
        r == task_type_byte(t),
{
    match t {
        TaskType::Foo => 0,
        TaskType::Bar => 1,
        TaskType::Baz => 2,
    }
}

fn code_task_type(b: u8) -> (r: Option<TaskType>)
    ensures
        r == byte_task_type(b),
{
    if b == 0 {
        Some(TaskType::Foo)
    } else if b == 1 {
        Some(TaskType::Bar)
    } else if b == 2 {
        Some(TaskType::Baz)
    } else {
        None
    }
}

fn state_code(s: State) -> (r: u8)
    ensures
        r == state_byte(s),
{
    match s {
        State::New => 0,
        State::Running => 1,
        State::Done => 2,
    }
}

fn code_state(b: u8) -> (r: Option<State>)
    ensures
        r == byte_state(b),
{
    if b == 0 {
        Some(State::New)
    } else if b == 1 {
        Some(State::Running)
    } else if b == 2 {
        Some(State::Done)
    } else {
        None
    }
}

/// The record a task is persisted as.
pub open spec fn spec_encode(t: Task) -> Seq<u8> {
    seq![FORMAT_VERSION] + le_bytes(t.id as nat, 16) + seq![task_type_byte(t.task_type)]
        + le_bytes(time_to_bits(t.execution_time) as nat, 8) + seq![state_byte(t.state)]
}

/// The task a record stands for: `None` on any malformed record — wrong
/// length, unknown format version, or an unknown type or state code.
pub open spec fn spec_decode(s: Seq<u8>) -> Option<Task> {
    if s.len() != RECORD_LEN {
        None
    } else if s[0] != FORMAT_VERSION {
        None
    } else {
        match (byte_task_type(s[17]), byte_state(s[26])) {
            (Some(task_type), Some(state)) => Some(
                (Task {
                    id: le_value(s.subrange(1, 17)) as u128,
                    task_type,
                    execution_time: bits_to_time(le_value(s.subrange(18, 26)) as u64),
                    state,
                }),
            ),
            _ => None,
        }
    }
}

/// Serialize a task into its persisted record.
pub fn encode_task(t: &Task) -> (r: Vec<u8>)
    ensures
        r@ == spec_encode(*t),
{
    let mut out: Vec<u8> = Vec::new();
    out.push(FORMAT_VERSION);
    let mut id_bytes = le_bytes_vec(t.id, 16);
    out.append(&mut id_bytes);
    out.push(task_type_code(t.task_type));
    let mut time_bytes = le_bytes_vec(time_to_bits_exec(t.execution_time) as u128, 8);
    out.append(&mut time_bytes);
    out.push(state_code(t.state));
    proof {
        assert(out@ =~= spec_encode(*t));
    }
    out
}

/// Parse a persisted record back into a task; `None` exactly on the
/// records `spec_decode` rejects.
pub fn decode_task(bytes: &Vec<u8>) -> (r: Option<Task>)
    ensures
        r == spec_decode(bytes@),
{
    if bytes.len() != RECORD_LEN {
        return None;
    }
    if bytes[0] != FORMAT_VERSION {
        return None;
    }
    let task_type = match code_task_type(bytes[17]) {
        Some(task_type) => task_type,
        None => {
            return None;
        },
    };
    let state = match code_state(bytes[26]) {
        Some(state) => state,
        None => {
            return None;
        },
    };
    let id_wide = read_le(bytes, 1, 16);
    let time_wide = read_le(bytes, 18, 8);
    proof {
        lemma_le_value_bound(bytes@.subrange(18, 26));
        lemma_pow256_values();
    }
    let execution_time = bits_to_time_exec(time_wide as u64);
    Some(Task { id: id_wide, task_type, execution_time, state })
}

/// The record layout is lossless: decoding what `encode_task` wrote gives
/// back the very task, every field equal.
pub proof fn lemma_codec_round_trip(t: Task)
    ensures
        spec_decode(spec_encode(t)) == Some(t),
{
    let s = spec_encode(t);
    lemma_le_bytes_len(t.id as nat, 16);
    lemma_le_bytes_len(time_to_bits(t.execution_time) as nat, 8);
    assert(s.len() == RECORD_LEN);
    assert(s.subrange(1, 17) =~= le_bytes(t.id as nat, 16));
    assert(s.subrange(18, 26) =~= le_bytes(time_to_bits(t.execution_time) as nat, 8));
    lemma_pow256_values();
    lemma_le_round_trip(t.id as nat, 16);
    lemma_le_round_trip(time_to_bits(t.execution_time) as nat, 8);
    lemma_time_bits_round_trip(t.execution_time);
}

} // verus!
