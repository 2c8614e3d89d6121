//! DES in ECB mode, as the RFB password authentication step requires it.
//! Every permutation, the key schedule and the Feistel rounds are specified
//! by spec functions and the executable code is proved to compute them.
use vstd::prelude::*;

verus! {

/// An 8-octet DES key.
pub type Key = [u8; 8];

pub const FIRST_BIT: u64 = 0x8000000000000000;

pub const KEY_SIZE: i64 = 56;

pub const HALF_KEY_SIZE: i64 = 28;

// ---------------------------------------------------------------------------
// Bit selection driven by a permutation table: output bit `pos` (counting
// from the most significant end) is input bit `table[pos]` (1-based from the
// most significant end).

pub open spec fn spec_swap_step(key: u64, index: u64, pos: int) -> u64 {
    ((key << ((index - 1) as u64)) & FIRST_BIT) >> (pos as u64)
}

pub open spec fn spec_swap_prefix(key: u64, table: Seq<u64>, n: int) -> u64
    decreases n,
{
    if n <= 0 {
        0u64
    } else {
        spec_swap_prefix(key, table, n - 1) | spec_swap_step(key, table[n - 1], n - 1)
    }
}

pub open spec fn spec_swap_bits(key: u64, table: Seq<u64>) -> u64 {
    spec_swap_prefix(key, table, table.len() as int)
}

/// Build the output word bit by bit according to `table`.
pub fn swap_bits(key: u64, table: &Vec<u64>) -> (r: u64)
    requires
        table@.len() <= 64,
        forall|i: int| 0 <= i < table@.len() ==> 1 <= #[trigger] table@[i] <= 64,
    ensures
        r == spec_swap_bits(key, table@),
{
    let mut result: u64 = 0;
    let mut pos: usize = 0;
    while pos < table.len()
        invariant
            pos <= table@.len() <= 64,
            forall|i: int| 0 <= i < table@.len() ==> 1 <= #[trigger] table@[i] <= 64,
            result == spec_swap_prefix(key, table@, pos as int),
        decreases table@.len() - pos,
    {
        let index = table[pos];
        let bit = (key << ((index - 1) as u64)) & FIRST_BIT;
        result = result | (bit >> (pos as u64));
        pos += 1;
    }
    result
}

// ---------------------------------------------------------------------------
// The fixed DES tables.

pub open spec fn e_table() -> Seq<u64> {
    seq![
        32u64, 1, 2, 3, 4, 5,
        4, 5, 6, 7, 8, 9,
        8, 9, 10, 11, 12, 13,
        12, 13, 14, 15, 16, 17,
        16, 17, 18, 19, 20, 21,
        20, 21, 22, 23, 24, 25,
        24, 25, 26, 27, 28, 29,
        28, 29, 30, 31, 32, 1,
    ]
}

fn e_table_vec() -> (r: Vec<u64>)
    ensures
        r@ == e_table(),
        r@.len() <= 64,
        forall|i: int| 0 <= i < r@.len() ==> 1 <= #[trigger] r@[i] <= 64,
{
    let v: Vec<u64> = vec![
        32u64, 1, 2, 3, 4, 5,
        4, 5, 6, 7, 8, 9,
        8, 9, 10, 11, 12, 13,
        12, 13, 14, 15, 16, 17,
        16, 17, 18, 19, 20, 21,
        20, 21, 22, 23, 24, 25,
        24, 25, 26, 27, 28, 29,
        28, 29, 30, 31, 32, 1,
    ];
    proof {
        assert(v@ =~= e_table());
        assert forall|i: int| 0 <= i < v@.len() implies 1 <= #[trigger] v@[i] <= 64 by {
            assert(v@.len() == 48);
        }
    }
    v
}

pub open spec fn ip_table() -> Seq<u64> {
    seq![
        58u64, 50, 42, 34, 26, 18, 10, 2,
        60, 52, 44, 36, 28, 20, 12, 4,
        62, 54, 46, 38, 30, 22, 14, 6,
        64, 56, 48, 40, 32, 24, 16, 8,
        57, 49, 41, 33, 25, 17, 9, 1,
        59, 51, 43, 35, 27, 19, 11, 3,
        61, 53, 45, 37, 29, 21, 13, 5,
        63, 55, 47, 39, 31, 23, 15, 7,
    ]
}

fn ip_table_vec() -> (r: Vec<u64>)
    ensures
        r@ == ip_table(),
        r@.len() <= 64,
        forall|i: int| 0 <= i < r@.len() ==> 1 <= #[trigger] r@[i] <= 64,
{
    let v: Vec<u64> = vec![
        58u64, 50, 42, 34, 26, 18, 10, 2,
        60, 52, 44, 36, 28, 20, 12, 4,
        62, 54, 46, 38, 30, 22, 14, 6,
        64, 56, 48, 40, 32, 24, 16, 8,
        57, 49, 41, 33, 25, 17, 9, 1,
        59, 51, 43, 35, 27, 19, 11, 3,
        61, 53, 45, 37, 29, 21, 13, 5,
        63, 55, 47, 39, 31, 23, 15, 7,
    ];
    proof {
        assert(v@ =~= ip_table());
        assert forall|i: int| 0 <= i < v@.len() implies 1 <= #[trigger] v@[i] <= 64 by {
            assert(v@.len() == 64);
        }
    }
    v
}

pub open spec fn p_table() -> Seq<u64> {
    seq![
        16u64, 7, 20, 21,
        29, 12, 28, 17,
        1, 15, 23, 26,
        5, 18, 31, 10,
        2, 8, 24, 14,
        32, 27, 3, 9,
        19, 13, 30, 6,
        22, 11, 4, 25,
    ]
}

fn p_table_vec() -> (r: Vec<u64>)
    ensures
        r@ == p_table(),
        r@.len() <= 64,
        forall|i: int| 0 <= i < r@.len() ==> 1 <= #[trigger] r@[i] <= 64,
{
    let v: Vec<u64> = vec![
        16u64, 7, 20, 21,
        29, 12, 28, 17,
        1, 15, 23, 26,
        5, 18, 31, 10,
        2, 8, 24, 14,
        32, 27, 3, 9,
        19, 13, 30, 6,
        22, 11, 4, 25,
    ];
    proof {
        assert(v@ =~= p_table());
        assert forall|i: int| 0 <= i < v@.len() implies 1 <= #[trigger] v@[i] <= 64 by {
            assert(v@.len() == 32);
        }
    }
    v
}

pub open spec fn pc1_table() -> Seq<u64> {
    seq![
        57u64, 49, 41, 33, 25, 17, 9,
        1, 58, 50, 42, 34, 26, 18,
        10, 2, 59, 51, 43, 35, 27,
        19, 11, 3, 60, 52, 44, 36,
        63, 55, 47, 39, 31, 23, 15,
        7, 62, 54, 46, 38, 30, 22,
        14, 6, 61, 53, 45, 37, 29,
        21, 13, 5, 28, 20, 12, 4,
    ]
}

fn pc1_table_vec() -> (r: Vec<u64>)
    ensures
        r@ == pc1_table(),
        r@.len() <= 64,
        forall|i: int| 0 <= i < r@.len() ==> 1 <= #[trigger] r@[i] <= 64,
{
    let v: Vec<u64> = vec![
        57u64, 49, 41, 33, 25, 17, 9,
        1, 58, 50, 42, 34, 26, 18,
        10, 2, 59, 51, 43, 35, 27,
        19, 11, 3, 60, 52, 44, 36,
        63, 55, 47, 39, 31, 23, 15,
        7, 62, 54, 46, 38, 30, 22,
        14, 6, 61, 53, 45, 37, 29,
        21, 13, 5, 28, 20, 12, 4,
    ];
    proof {
        assert(v@ =~= pc1_table());
        assert forall|i: int| 0 <= i < v@.len() implies 1 <= #[trigger] v@[i] <= 64 by {
            assert(v@.len() == 56);
        }
    }
    v
}

pub open spec fn pc2_table() -> Seq<u64> {
    seq![
        14u64, 17, 11, 24, 1, 5,
        3, 28, 15, 6, 21, 10,
        23, 19, 12, 4, 26, 8,
        16, 7, 27, 20, 13, 2,
        41, 52, 31, 37, 47, 55,
        30, 40, 51, 45, 33, 48,
        44, 49, 39, 56, 34, 53,
        46, 42, 50, 36, 29, 32,
    ]
}

fn pc2_table_vec() -> (r: Vec<u64>)
    ensures
        r@ == pc2_table(),
        r@.len() <= 64,
        forall|i: int| 0 <= i < r@.len() ==> 1 <= #[trigger] r@[i] <= 64,
{
    let v: Vec<u64> = vec![
        14u64, 17, 11, 24, 1, 5,
        3, 28, 15, 6, 21, 10,
        23, 19, 12, 4, 26, 8,
        16, 7, 27, 20, 13, 2,
        41, 52, 31, 37, 47, 55,
        30, 40, 51, 45, 33, 48,
        44, 49, 39, 56, 34, 53,
        46, 42, 50, 36, 29, 32,
    ];
    proof {
        assert(v@ =~= pc2_table());
        assert forall|i: int| 0 <= i < v@.len() implies 1 <= #[trigger] v@[i] <= 64 by {
            assert(v@.len() == 48);
        }
    }
    v
}

pub open spec fn fp_table() -> Seq<u64> {
    seq![
        40u64, 8, 48, 16, 56, 24, 64, 32,
        39, 7, 47, 15, 55, 23, 63, 31,
        38, 6, 46, 14, 54, 22, 62, 30,
        37, 5, 45, 13, 53, 21, 61, 29,
        36, 4, 44, 12, 52, 20, 60, 28,
        35, 3, 43, 11, 51, 19, 59, 27,
        34, 2, 42, 10, 50, 18, 58, 26,
        33, 1, 41, 9, 49, 17, 57, 25,
    ]
}

fn fp_table_vec() -> (r: Vec<u64>)
    ensures
        r@ == fp_table(),
        r@.len() <= 64,
        forall|i: int| 0 <= i < r@.len() ==> 1 <= #[trigger] r@[i] <= 64,
{
    let v: Vec<u64> = vec![
        40u64, 8, 48, 16, 56, 24, 64, 32,
        39, 7, 47, 15, 55, 23, 63, 31,
        38, 6, 46, 14, 54, 22, 62, 30,
        37, 5, 45, 13, 53, 21, 61, 29,
        36, 4, 44, 12, 52, 20, 60, 28,
        35, 3, 43, 11, 51, 19, 59, 27,
        34, 2, 42, 10, 50, 18, 58, 26,
        33, 1, 41, 9, 49, 17, 57, 25,
    ];
    proof {
        assert(v@ =~= fp_table());
        assert forall|i: int| 0 <= i < v@.len() implies 1 <= #[trigger] v@[i] <= 64 by {
            assert(v@.len() == 64);
        }
    }
    v
}

// ---------------------------------------------------------------------------
// The six table-driven permutations.

pub open spec fn spec_e(block: u64) -> u64 {
    spec_swap_bits(block, e_table())
}

/// Expansion E: 32 bits of the half block to 48.
pub fn e(block: u64) -> (r: u64)
    ensures
        r == spec_e(block),
{
    swap_bits(block, &e_table_vec())
}

pub open spec fn spec_ip(message: u64) -> u64 {
    spec_swap_bits(message, ip_table())
}

/// Initial permutation IP.
pub fn ip(message: u64) -> (r: u64)
    ensures
        r == spec_ip(message),
{
    swap_bits(message, &ip_table_vec())
}

pub open spec fn spec_p(block: u64) -> u64 {
    spec_swap_bits(block, p_table())
}

/// Permutation P at the end of the Feistel function.
pub fn p(block: u64) -> (r: u64)
    ensures
        r == spec_p(block),
{
    swap_bits(block, &p_table_vec())
}

pub open spec fn spec_pc1(key: u64) -> u64 {
    spec_swap_bits(key, pc1_table())
}

/// Permuted choice 1 of the key schedule.
pub fn pc1(key: u64) -> (r: u64)
    ensures
        r == spec_pc1(key),
{
    swap_bits(key, &pc1_table_vec())
}

pub open spec fn spec_pc2(key: u64) -> u64 {
    spec_swap_bits(key, pc2_table())
}

/// Permuted choice 2 of the key schedule.
pub fn pc2(key: u64) -> (r: u64)
    ensures
        r == spec_pc2(key),
{
    swap_bits(key, &pc2_table_vec())
}

pub open spec fn spec_fp(message: u64) -> u64 {
    spec_swap_bits(message, fp_table())
}

/// Final permutation, the inverse table of IP.
pub fn fp(message: u64) -> (r: u64)
    ensures
        r == spec_fp(message),
{
    swap_bits(message, &fp_table_vec())
}

// ---------------------------------------------------------------------------
// Key schedule.

pub open spec fn shift_table() -> Seq<u64> {
    seq![1u64, 1, 2, 2, 2, 2, 2, 2, 1, 2, 2, 2, 2, 2, 2, 1]
}

fn shift_table_vec() -> (r: Vec<u64>)
    ensures
        r@ == shift_table(),
        forall|i: int| 0 <= i < r@.len() ==> 1 <= #[trigger] r@[i] <= 2,
{
    let v: Vec<u64> = vec![1u64, 1, 2, 2, 2, 2, 2, 2, 1, 2, 2, 2, 2, 2, 2, 1];
    proof {
        assert(v@ =~= shift_table());
        assert forall|i: int| 0 <= i < v@.len() implies 1 <= #[trigger] v@[i] <= 2 by {
            assert(v@.len() == 16);
        }
    }
    v
}

/// One circular left shift on a width of `HALF_KEY_SIZE`, applied to a value
/// whose 28 significant bits sit at the most significant end of the word.
pub open spec fn spec_rot1(v: u64) -> u64 {
    (v << 1) | ((v & FIRST_BIT) >> 27)
}

pub open spec fn spec_rot(v: u64, n: int) -> u64
    decreases n,
{
    if n <= 0 {
        v
    } else {
        spec_rot1(spec_rot(v, n - 1))
    }
}

/// Do a circular left shift on a width of HALF_KEY_SIZE, on both halves.
pub fn circular_left_shift(n1: u64, n2: u64, shift_count: i64) -> (r: (u64, u64))
    requires
        shift_count >= 0,
    ensures
        r.0 == spec_rot(n1, shift_count as int),
        r.1 == spec_rot(n2, shift_count as int),
{
    let mut new_value1 = n1;
    let mut new_value2 = n2;
    let mut i: i64 = 0;
    while i < shift_count
        invariant
            0 <= i <= shift_count,
            new_value1 == spec_rot(n1, i as int),
            new_value2 == spec_rot(n2, i as int),
        decreases shift_count - i,
    {
        let first_bit = new_value1 & FIRST_BIT;
        new_value1 = (new_value1 << 1) | (first_bit >> ((HALF_KEY_SIZE - 1) as u64));
        let first_bit = new_value2 & FIRST_BIT;
        new_value2 = (new_value2 << 1) | (first_bit >> ((HALF_KEY_SIZE - 1) as u64));
        i += 1;
    }
    (new_value1, new_value2)
}

/// The concatenated halves C and D after `n` rounds of the key schedule,
/// before permuted choice 2; round 0 is permuted choice 1 of the key.
pub open spec fn spec_cd(key: u64, n: int) -> u64
    decreases n,
{
    if n <= 0 {
        spec_pc1(key)
    } else {
        let prev = spec_cd(key, n - 1);
        let ci = spec_rot(prev & 0xFFFFFFF000000000, shift_table()[n - 1] as int);
        let di = spec_rot(prev << 28, shift_table()[n - 1] as int);
        ci | (di >> 28)
    }
}

pub open spec fn spec_subkey(key: u64, i: int) -> u64 {
    spec_pc2(spec_cd(key, i + 1))
}

pub open spec fn spec_subkeys(key: u64) -> Seq<u64> {
    Seq::new(16, |i: int| spec_subkey(key, i))
}

/// Create the 16 subkeys.
pub fn compute_subkeys(key: u64) -> (r: Vec<u64>)
    ensures
        r@ == spec_subkeys(key),
{
    let table = shift_table_vec();
    let mut cur = pc1(key);
    let mut subkeys: Vec<u64> = Vec::new();
    let mut i: usize = 0;
    while i < 16
        invariant
            i <= 16,
            table@ == shift_table(),
            forall|j: int| 0 <= j < table@.len() ==> 1 <= #[trigger] table@[j] <= 2,
            cur == spec_cd(key, i as int),
            subkeys@.len() == i,
            forall|j: int| 0 <= j < i ==> subkeys@[j] == spec_subkey(key, j),
        decreases 16 - i,
    {
        let last_ci = cur & 0xFFFFFFF000000000;
        let last_di = cur << 28;
        let shift_count = table[i] as i64;
        let (ci, di) = circular_left_shift(last_ci, last_di, shift_count);
        cur = ci | (di >> 28);
        subkeys.push(pc2(cur));
        i += 1;
    }
    proof {
        assert(subkeys@ =~= spec_subkeys(key));
    }
    subkeys
}

// ---------------------------------------------------------------------------
// S boxes, stored per box as 64 entries indexed by 4 * row + column layout
// (row from the outer bits of the 6-bit block, column from the inner four).

pub open spec fn s_box_table(box_id: int) -> Seq<u64> {
    if box_id == 0 {
        seq![
            14u64, 4, 13, 1, 2, 15, 11, 8, 3, 10, 6, 12, 5, 9, 0, 7,
            0, 15, 7, 4, 14, 2, 13, 1, 10, 6, 12, 11, 9, 5, 3, 8,
            4, 1, 14, 8, 13, 6, 2, 11, 15, 12, 9, 7, 3, 10, 5, 0,
            15, 12, 8, 2, 4, 9, 1, 7, 5, 11, 3, 14, 10, 0, 6, 13,
        ]
    } else if box_id == 1 {
        seq![
            15u64, 1, 8, 14, 6, 11, 3, 4, 9, 7, 2, 13, 12, 0, 5, 10,
            3, 13, 4, 7, 15, 2, 8, 14, 12, 0, 1, 10, 6, 9, 11, 5,
            0, 14, 7, 11, 10, 4, 13, 1, 5, 8, 12, 6, 9, 3, 2, 15,
            13, 8, 10, 1, 3, 15, 4, 2, 11, 6, 7, 12, 0, 5, 14, 9,
        ]
    } else if box_id == 2 {
        seq![
            10u64, 0, 9, 14, 6, 3, 15, 5, 1, 13, 12, 7, 11, 4, 2, 8,
            13, 7, 0, 9, 3, 4, 6, 10, 2, 8, 5, 14, 12, 11, 15, 1,
            13, 6, 4, 9, 8, 15, 3, 0, 11, 1, 2, 12, 5, 10, 14, 7,
            1, 10, 13, 0, 6, 9, 8, 7, 4, 15, 14, 3, 11, 5, 2, 12,
        ]
    } else if box_id == 3 {
        seq![
            7u64, 13, 14, 3, 0, 6, 9, 10, 1, 2, 8, 5, 11, 12, 4, 15,
            13, 8, 11, 5, 6, 15, 0, 3, 4, 7, 2, 12, 1, 10, 14, 9,
            10, 6, 9, 0, 12, 11, 7, 13, 15, 1, 3, 14, 5, 2, 8, 4,
            3, 15, 0, 6, 10, 1, 13, 8, 9, 4, 5, 11, 12, 7, 2, 14,
        ]
    } else if box_id == 4 {
        seq![
            2u64, 12, 4, 1, 7, 10, 11, 6, 8, 5, 3, 15, 13, 0, 14, 9,
            14, 11, 2, 12, 4, 7, 13, 1, 5, 0, 15, 10, 3, 9, 8, 6,
            4, 2, 1, 11, 10, 13, 7, 8, 15, 9, 12, 5, 6, 3, 0, 14,
            11, 8, 12, 7, 1, 14, 2, 13, 6, 15, 0, 9, 10, 4, 5, 3,
        ]
    } else if box_id == 5 {
        seq![
            12u64, 1, 10, 15, 9, 2, 6, 8, 0, 13, 3, 4, 14, 7, 5, 11,
            10, 15, 4, 2, 7, 12, 9, 5, 6, 1, 13, 14, 0, 11, 3, 8,
            9, 14, 15, 5, 2, 8, 12, 3, 7, 0, 4, 10, 1, 13, 11, 6,
            4, 3, 2, 12, 9, 5, 15, 10, 11, 14, 1, 7, 6, 0, 8, 13,
        ]
    } else if box_id == 6 {
        seq![
            4u64, 11, 2, 14, 15, 0, 8, 13, 3, 12, 9, 7, 5, 10, 6, 1,
            13, 0, 11, 7, 4, 9, 1, 10, 14, 3, 5, 12, 2, 15, 8, 6,
            1, 4, 11, 13, 12, 3, 7, 14, 10, 15, 6, 8, 0, 5, 9, 2,
            6, 11, 13, 8, 1, 4, 10, 7, 9, 5, 0, 15, 14, 2, 3, 12,
        ]
    } else {
        seq![
            13u64, 2, 8, 4, 6, 15, 11, 1, 10, 9, 3, 14, 5, 0, 12, 7,
            1, 15, 13, 8, 10, 3, 7, 4, 12, 5, 6, 11, 0, 14, 9, 2,
            7, 11, 4, 1, 9, 12, 14, 2, 0, 6, 10, 13, 15, 3, 5, 8,
            2, 1, 14, 7, 4, 10, 8, 13, 15, 12, 9, 0, 3, 5, 6, 11,
        ]
    }
}

fn s_box_vec(box_id: usize) -> (r: Vec<u64>)
    requires
        box_id < 8,
    ensures
        r@ == s_box_table(box_id as int),
        r@.len() == 64,
{
    let v: Vec<u64> = if box_id == 0 {
        vec![
            14u64, 4, 13, 1, 2, 15, 11, 8, 3, 10, 6, 12, 5, 9, 0, 7,
            0, 15, 7, 4, 14, 2, 13, 1, 10, 6, 12, 11, 9, 5, 3, 8,
            4, 1, 14, 8, 13, 6, 2, 11, 15, 12, 9, 7, 3, 10, 5, 0,
            15, 12, 8, 2, 4, 9, 1, 7, 5, 11, 3, 14, 10, 0, 6, 13,
        ]
    } else if box_id == 1 {
        vec![
            15u64, 1, 8, 14, 6, 11, 3, 4, 9, 7, 2, 13, 12, 0, 5, 10,
            3, 13, 4, 7, 15, 2, 8, 14, 12, 0, 1, 10, 6, 9, 11, 5,
            0, 14, 7, 11, 10, 4, 13, 1, 5, 8, 12, 6, 9, 3, 2, 15,
            13, 8, 10, 1, 3, 15, 4, 2, 11, 6, 7, 12, 0, 5, 14, 9,
        ]
    } else if box_id == 2 {
        vec![
            10u64, 0, 9, 14, 6, 3, 15, 5, 1, 13, 12, 7, 11, 4, 2, 8,
            13, 7, 0, 9, 3, 4, 6, 10, 2, 8, 5, 14, 12, 11, 15, 1,
            13, 6, 4, 9, 8, 15, 3, 0, 11, 1, 2, 12, 5, 10, 14, 7,
            1, 10, 13, 0, 6, 9, 8, 7, 4, 15, 14, 3, 11, 5, 2, 12,
        ]
    } else if box_id == 3 {
        vec![
            7u64, 13, 14, 3, 0, 6, 9, 10, 1, 2, 8, 5, 11, 12, 4, 15,
            13, 8, 11, 5, 6, 15, 0, 3, 4, 7, 2, 12, 1, 10, 14, 9,
            10, 6, 9, 0, 12, 11, 7, 13, 15, 1, 3, 14, 5, 2, 8, 4,
            3, 15, 0, 6, 10, 1, 13, 8, 9, 4, 5, 11, 12, 7, 2, 14,
        ]
    } else if box_id == 4 {
        vec![
            2u64, 12, 4, 1, 7, 10, 11, 6, 8, 5, 3, 15, 13, 0, 14, 9,
            14, 11, 2, 12, 4, 7, 13, 1, 5, 0, 15, 10, 3, 9, 8, 6,
            4, 2, 1, 11, 10, 13, 7, 8, 15, 9, 12, 5, 6, 3, 0, 14,
            11, 8, 12, 7, 1, 14, 2, 13, 6, 15, 0, 9, 10, 4, 5, 3,
        ]
    } else if box_id == 5 {
        vec![
            12u64, 1, 10, 15, 9, 2, 6, 8, 0, 13, 3, 4, 14, 7, 5, 11,
            10, 15, 4, 2, 7, 12, 9, 5, 6, 1, 13, 14, 0, 11, 3, 8,
            9, 14, 15, 5, 2, 8, 12, 3, 7, 0, 4, 10, 1, 13, 11, 6,
            4, 3, 2, 12, 9, 5, 15, 10, 11, 14, 1, 7, 6, 0, 8, 13,
        ]
    } else if box_id == 6 {
        vec![
            4u64, 11, 2, 14, 15, 0, 8, 13, 3, 12, 9, 7, 5, 10, 6, 1,
            13, 0, 11, 7, 4, 9, 1, 10, 14, 3, 5, 12, 2, 15, 8, 6,
            1, 4, 11, 13, 12, 3, 7, 14, 10, 15, 6, 8, 0, 5, 9, 2,
            6, 11, 13, 8, 1, 4, 10, 7, 9, 5, 0, 15, 14, 2, 3, 12,
        ]
    } else {
        vec![
            13u64, 2, 8, 4, 6, 15, 11, 1, 10, 9, 3, 14, 5, 0, 12, 7,
            1, 15, 13, 8, 10, 3, 7, 4, 12, 5, 6, 11, 0, 14, 9, 2,
            7, 11, 4, 1, 9, 12, 14, 2, 0, 6, 10, 13, 15, 3, 5, 8,
            2, 1, 14, 7, 4, 10, 8, 13, 15, 12, 9, 0, 3, 5, 6, 11,
        ]
    };
    proof {
        assert(v@ =~= s_box_table(box_id as int));
    }
    v
}

pub open spec fn spec_s(box_id: int, block: u64) -> u64 {
    let i = ((block & 0x20) >> 4) | (block & 1);
    let j = (block & 0x1E) >> 1;
    s_box_table(box_id)[(i * 16 + j) as int]
}

/// Produce 4 bits using an S box; `block` carries the 6 selector bits.
pub fn s(box_id: usize, block: u64) -> (r: u64)
    requires
        box_id < 8,
    ensures
        r == spec_s(box_id as int, block),
{
    let table = s_box_vec(box_id);
    let i = ((block & 0x20) >> 4) | (block & 1);
    let j = (block & 0x1E) >> 1;
    proof {
        assert(((block & 0x20) >> 4) | (block & 1) <= 3) by (bit_vector);
        assert((block & 0x1E) >> 1 <= 15) by (bit_vector);
    }
    table[(i * 16 + j) as usize]
}

// ---------------------------------------------------------------------------
// Feistel function.

/// State of the Feistel mixing after `n` of its 8 S-box rounds: the shifted
/// intermediate word and the accumulated result.
pub open spec fn spec_feistel_rounds(start: u64, n: int) -> (u64, u64)
    decreases n,
{
    if n <= 0 {
        (start, 0u64)
    } else {
        let (im, acc) = spec_feistel_rounds(start, n - 1);
        let block = (im & 0xFC00000000000000) >> 58;
        (im << 6, (acc << 4) | spec_s(n - 1, block))
    }
}

pub open spec fn spec_feistel(half_block: u64, subkey: u64) -> u64 {
    let start = spec_e(half_block) ^ subkey;
    spec_p(spec_feistel_rounds(start, 8).1 << 32)
}

/// Feistel function.
pub fn feistel(half_block: u64, subkey: u64) -> (r: u64)
    ensures
        r == spec_feistel(half_block, subkey),
{
    let expanded = e(half_block);
    let start = expanded ^ subkey;
    let mut intermediate = start;
    let mut result: u64 = 0;
    let mut i: usize = 0;
    while i < 8
        invariant
            i <= 8,
            (intermediate, result) == spec_feistel_rounds(start, i as int),
        decreases 8 - i,
    {
        let block = (intermediate & 0xFC00000000000000) >> 58;
        intermediate = intermediate << 6;
        let sval = s(i, block);
        result = (result << 4) | sval;
        i += 1;
    }
    p(result << 32)
}

// ---------------------------------------------------------------------------
// Byte packing.

/// Big-endian reading of up to 8 bytes into one word.
pub open spec fn spec_bytes_to_u64(bytes: Seq<u8>) -> u64
    decreases bytes.len(),
{
    if bytes.len() == 0 {
        0u64
    } else {
        (spec_bytes_to_u64(bytes.drop_last()) << 8) | (bytes.last() as u64)
    }
}

/// Convert a `Key` to a 64-bit integer.
pub fn key_to_u64(key: &Key) -> (r: u64)
    ensures
        r == spec_bytes_to_u64(key@),
{
    let mut result: u64 = 0;
    let mut i: usize = 0;
    while i < 8
        invariant
            i <= 8,
            key@.len() == 8,
            result == spec_bytes_to_u64(key@.subrange(0, i as int)),
        decreases 8 - i,
    {
        let part = key[i];
        result = (result << 8) | (part as u64);
        proof {
            assert(key@.subrange(0, i + 1 as int).drop_last() =~= key@.subrange(0, i as int));
            assert(key@.subrange(0, i + 1 as int).last() == key@[i as int]);
        }
        i += 1;
    }
    proof {
        assert(key@.subrange(0, 8) =~= key@);
    }
    result
}

/// The message slice padded with zero bytes to a full 8-byte block.
pub open spec fn spec_padded_key(slice: Seq<u8>) -> Seq<u8> {
    slice + Seq::new((8 - slice.len()) as nat, |i: int| 0u8)
}

/// Convert a slice of at most 8 bytes to a `Key`, zero padded at the end.
pub fn to_key(slice: &[u8]) -> (r: Key)
    requires
        slice@.len() <= 8,
    ensures
        r@ == spec_padded_key(slice@),
{
    let mut key: Key = [0u8; 8];
    let mut i: usize = 0;
    while i < slice.len()
        invariant
            i <= slice@.len() <= 8,
            key@.len() == 8,
            forall|j: int| 0 <= j < i ==> key@[j] == slice@[j],
            forall|j: int| i <= j < 8 ==> key@[j] == 0u8,
        decreases slice@.len() - i,
    {
        key[i] = slice[i];
        i += 1;
    }
    proof {
        assert(key@ =~= spec_padded_key(slice@));
    }
    key
}

/// Block `i` of the message: bytes `8 i .. 8 i + 8`, zero padded at the end.
pub open spec fn spec_block_at(msg: Seq<u8>, i: int) -> u64 {
    let chunk = if 8 * i + 8 <= msg.len() {
        msg.subrange(8 * i, 8 * i + 8)
    } else {
        msg.subrange(8 * i, msg.len() as int)
    };
    spec_bytes_to_u64(spec_padded_key(chunk))
}

pub open spec fn spec_block_count(len: nat) -> int {
    ((len + 7) / 8) as int
}

/// Convert a message to a vector of 64-bit integers, one per 8-byte chunk.
pub fn message_to_u64s(message: &[u8]) -> (r: Vec<u64>)
    ensures
        r@.len() == spec_block_count(message@.len()),
        forall|i: int| 0 <= i < r@.len() ==> r@[i] == spec_block_at(message@, i),
{
    let len = message.len();
    let nblocks = len / 8 + if len % 8 == 0 { 0 } else { 1 };
    let mut blocks: Vec<u64> = Vec::new();
    let mut b: usize = 0;
    while b < nblocks
        invariant
            message@.len() == len,
            nblocks == spec_block_count(len as nat),
            b <= nblocks,
            blocks@.len() == b,
            forall|i: int| 0 <= i < b ==> blocks@[i] == spec_block_at(message@, i),
        decreases nblocks - b,
    {
        let start = b * 8;
        let end = if len - start >= 8 {
            start + 8
        } else {
            len
        };
        let mut chunk: Vec<u8> = Vec::new();
        let mut j: usize = start;
        while j < end
            invariant
                start <= j <= end <= message@.len(),
                chunk@ =~= message@.subrange(start as int, j as int),
            decreases end - j,
        {
            chunk.push(message[j]);
            proof {
                assert(chunk@ =~= message@.subrange(start as int, j + 1 as int));
            }
            j += 1;
        }
        let key = to_key(chunk.as_slice());
        blocks.push(key_to_u64(&key));
        b += 1;
    }
    blocks
}

/// The eight big-endian bytes of one word.
pub open spec fn spec_u64_to_bytes(num: u64) -> Seq<u8> {
    seq![
        ((num >> 56) & 0xFF) as u8,
        ((num >> 48) & 0xFF) as u8,
        ((num >> 40) & 0xFF) as u8,
        ((num >> 32) & 0xFF) as u8,
        ((num >> 24) & 0xFF) as u8,
        ((num >> 16) & 0xFF) as u8,
        ((num >> 8) & 0xFF) as u8,
        (num & 0xFF) as u8,
    ]
}

/// Convert a `u64` to its 8 big-endian bytes.
pub fn to_u8_vec(num: u64) -> (r: Vec<u8>)
    ensures
        r@ == spec_u64_to_bytes(num),
{
    let v: Vec<u8> = vec![
        ((num >> 56) & 0xFF) as u8,
        ((num >> 48) & 0xFF) as u8,
        ((num >> 40) & 0xFF) as u8,
        ((num >> 32) & 0xFF) as u8,
        ((num >> 24) & 0xFF) as u8,
        ((num >> 16) & 0xFF) as u8,
        ((num >> 8) & 0xFF) as u8,
        (num & 0xFF) as u8,
    ];
    proof {
        assert(v@ =~= spec_u64_to_bytes(num));
    }
    v
}

// ---------------------------------------------------------------------------
// The cipher itself.

/// The halves (L, R) after `n` Feistel rounds, each half kept in the upper
/// 32 bits of its word as the round functions expect.
pub open spec fn spec_des_rounds(l0: u64, r0: u64, subkeys: Seq<u64>, n: int) -> (u64, u64)
    decreases n,
{
    if n <= 0 {
        (l0, r0)
    } else {
        let (l, r) = spec_des_rounds(l0, r0, subkeys, n - 1);
        (r, l ^ spec_feistel(r, subkeys[n - 1]))
    }
}

/// One 64-bit block through the 16 rounds, with initial and final permutation.
pub open spec fn spec_des_block(block: u64, subkeys: Seq<u64>) -> u64 {
    let permuted = spec_ip(block);
    let (l, r) = spec_des_rounds(
        permuted & 0xFFFFFFFF00000000,
        permuted << 32,
        subkeys,
        16,
    );
    spec_fp(r | (l >> 32))
}

/// The whole message, block by block.
pub open spec fn spec_des_prefix(msg: Seq<u8>, subkeys: Seq<u64>, n: int) -> Seq<u8>
    decreases n,
{
    if n <= 0 {
        Seq::empty()
    } else {
        spec_des_prefix(msg, subkeys, n - 1) + spec_u64_to_bytes(
            spec_des_block(spec_block_at(msg, n - 1), subkeys),
        )
    }
}

pub open spec fn spec_des(msg: Seq<u8>, subkeys: Seq<u64>) -> Seq<u8> {
    spec_des_prefix(msg, subkeys, spec_block_count(msg.len()))
}

/// Run the 16 Feistel rounds with the given `subkeys` over every block.
pub fn des(message: &[u8], subkeys: Vec<u64>) -> (r: Vec<u8>)
    requires
        subkeys@.len() == 16,
    ensures
        r@ == spec_des(message@, subkeys@),
{
    let blocks = message_to_u64s(message);
    let mut cipher: Vec<u8> = Vec::new();
    let mut b: usize = 0;
    while b < blocks.len()
        invariant
            subkeys@.len() == 16,
            blocks@.len() == spec_block_count(message@.len()),
            forall|i: int| 0 <= i < blocks@.len() ==> blocks@[i] == spec_block_at(message@, i),
            b <= blocks@.len(),
            cipher@ == spec_des_prefix(message@, subkeys@, b as int),
        decreases blocks@.len() - b,
    {
        let block = blocks[b];
        let permuted = ip(block);
        let l0 = permuted & 0xFFFFFFFF00000000;
        let r0 = permuted << 32;
        let mut li = l0;
        let mut ri = r0;
        let mut k: usize = 0;
        while k < 16
            invariant
                subkeys@.len() == 16,
                k <= 16,
                (li, ri) == spec_des_rounds(l0, r0, subkeys@, k as int),
            decreases 16 - k,
        {
            let last_li = li;
            li = ri;
            ri = last_li ^ feistel(ri, subkeys[k]);
            k += 1;
        }
        let r16l16 = ri | (li >> 32);
        let mut block_bytes = to_u8_vec(fp(r16l16));
        let ghost cipher_before = cipher@;
        cipher.append(&mut block_bytes);
        proof {
            assert(cipher@ =~= spec_des_prefix(message@, subkeys@, b + 1 as int));
        }
        b += 1;
    }
    cipher
}

/// The ciphertext of `message` under `key`, DES in ECB mode.
pub open spec fn spec_encrypt(msg: Seq<u8>, key: Seq<u8>) -> Seq<u8> {
    spec_des(msg, spec_subkeys(spec_bytes_to_u64(key)))
}

/// The subkey sequence in reverse order, which decrypts.
pub open spec fn spec_reversed_subkeys(key: Seq<u8>) -> Seq<u64> {
    let sk = spec_subkeys(spec_bytes_to_u64(key));
    Seq::new(16, |i: int| sk[15 - i])
}

pub open spec fn spec_decrypt(cipher: Seq<u8>, key: Seq<u8>) -> Seq<u8> {
    spec_des(cipher, spec_reversed_subkeys(key))
}

/// Encrypt `message` using the `key`.
pub fn encrypt(message: &[u8], key: &Key) -> (r: Vec<u8>)
    ensures
        r@ == spec_encrypt(message@, key@),
{
    let key_word = key_to_u64(key);
    let subkeys = compute_subkeys(key_word);
    des(message, subkeys)
}

/// Decrypt `cipher` using the `key`.
pub fn decrypt(cipher: &[u8], key: &Key) -> (r: Vec<u8>)
    ensures
        r@ == spec_decrypt(cipher@, key@),
{
    let key_word = key_to_u64(key);
    let subkeys = compute_subkeys(key_word);
    let mut reversed: Vec<u64> = Vec::new();
    let mut i: usize = 0;
    while i < 16
        invariant
            subkeys@ == spec_subkeys(key_word),
            i <= 16,
            reversed@.len() == i,
            forall|j: int| 0 <= j < i ==> reversed@[j] == subkeys@[15 - j],
        decreases 16 - i,
    {
        reversed.push(subkeys[15 - i]);
        i += 1;
    }
    proof {
        assert(reversed@ =~= spec_reversed_subkeys(key@));
    }
    des(cipher, reversed)
}

} // verus!
