use vstd::prelude::*;

verus! {


/// The 80-byte header of a persisted block.
pub struct BlockHeader {
    pub version: u32,
    pub previous_block_header_hash: [u8; 32],
    pub merkle_root_hash: [u8; 32],
    pub time: u32,
    pub n_bits: u32,
    pub nonce: u32,
}

/// A reference to a previous transaction output.
pub struct Outpoint {
    pub hash: [u8; 32],
    pub index: u32,
}

pub struct TransactionInput {
    pub previous_output: Outpoint,
    pub sequence: u32,
    pub script: Vec<u8>,
}

pub struct TransactionOutput {
    pub value: i64,
    pub pk_script: Vec<u8>,
}

/// A raw transaction as framed on disk.
pub struct Transaction {
    pub version: u32,
    pub lock_time: u32,
    pub inputs: Vec<TransactionInput>,
    pub outputs: Vec<TransactionOutput>,
}

pub struct Block {
    pub header: BlockHeader,
    pub transactions: Vec<Transaction>,
}

/// The byte-swap the reader applies to stored hashes: byte `j` takes the
/// value of byte `31 - j`, except that the two middle bytes are left at
/// zero because the swap loop stops one pair short.
pub open spec fn reversed_hash(h: Seq<u8>) -> Seq<u8> {
    Seq::new(32, |j: int| if 15 <= j <= 16 { 0u8 } else { h[31 - j] })
}

/// Swap a stored hash into display order; the swap loop stops one pair
/// short of the middle, so bytes 15 and 16 stay zeroed.
pub fn reverse_hash(hash: &[u8; 32]) -> (r: [u8; 32])
    ensures
        r@ == reversed_hash(hash@),
{
    let mut result: [u8; 32] = [0;32];
    let mut i: usize = 0;
    while i < 15
        invariant
            0 <= i <= 15,
            forall|k: int| 0 <= k < i ==> result@[k] == hash@[31 - k],
            forall|k: int| 0 <= k < i ==> result@[31 - k] == hash@[k],
            forall|k: int| i <= k < 32 - i ==> result@[k] == 0u8,
        decreases 15 - i,
    {
        result[i] = hash[31 - i];
        result[31 - i] = hash[i];
        i = i + 1;
    }
    proof {
        assert forall|j: int| 0 <= j < 32 implies result@[j] == reversed_hash(hash@)[j] by {
            if j < 15 {
            } else if j > 16 {
                assert(result@[31 - (31 - j)] == hash@[31 - j]);
            }
        }
        assert(result@ =~= reversed_hash(hash@));
    }
    result
}

/// The little-endian value of the `n` bytes of `data` starting at `pos`.
pub open spec fn le_bytes(data: Seq<u8>, pos: int, n: int) -> int
    decreases n,
{
    if n <= 0 {
        0
    } else {
        data[pos] + 256 * le_bytes(data, pos + 1, n - 1)
    }
}

/// `256^n`, the exclusive bound of an `n`-byte little-endian value.
pub open spec fn power256(n: int) -> int
    decreases n,
{
    if n <= 0 {
        1
    } else {
        256 * power256(n - 1)
    }
}

pub proof fn lemma_le_bytes_bound(data: Seq<u8>, pos: int, n: int)
    requires
        0 <= pos,
        pos + n <= data.len(),
    ensures
        0 <= le_bytes(data, pos, n) < power256(n),
    decreases n,
{
    if n > 0 {
        lemma_le_bytes_bound(data, pos + 1, n - 1);
    }
}

/// Read two bytes as a little-endian integer.
pub fn read_le_u16(data: &[u8], pos: usize) -> (r: Option<(u16, usize)>)
    ensures
        pos + 2 <= data@.len() ==> ({ r matches Some(t) && t.0 as int == le_bytes(
            data@,
            pos as int,
            2,
        ) && t.1 == pos + 2 }),
        pos + 2 > data@.len() ==> r is None,
{
    if data.len() < 2 || pos > data.len() - 2 {
        return None;
    }
    proof {
        reveal_with_fuel(le_bytes, 9);
        reveal_with_fuel(power256, 9);
        lemma_le_bytes_bound(data@, pos as int, 2);
    }
    let v: u16 = data[pos] as u16 + 256 * (data[pos + 1] as u16);
    Some((v, pos + 2))
}

/// Read four bytes as a little-endian integer.
pub fn read_le_u32(data: &[u8], pos: usize) -> (r: Option<(u32, usize)>)
    ensures
        pos + 4 <= data@.len() ==> ({ r matches Some(t) && t.0 as int == le_bytes(
            data@,
            pos as int,
            4,
        ) && t.1 == pos + 4 }),
        pos + 4 > data@.len() ==> r is None,
{
    if data.len() < 4 || pos > data.len() - 4 {
        return None;
    }
    proof {
        reveal_with_fuel(le_bytes, 9);
        reveal_with_fuel(power256, 9);
        lemma_le_bytes_bound(data@, pos as int, 4);
    }
    let v: u32 = data[pos] as u32 + 256 * (data[pos + 1] as u32) + 0x1_0000 * (data[pos
        + 2] as u32) + 0x100_0000 * (data[pos + 3] as u32);
    Some((v, pos + 4))
}

/// Read eight bytes as a little-endian integer.
pub fn read_le_u64(data: &[u8], pos: usize) -> (r: Option<(u64, usize)>)
    ensures
        pos + 8 <= data@.len() ==> ({ r matches Some(t) && t.0 as int == le_bytes(
            data@,
            pos as int,
            8,
        ) && t.1 == pos + 8 }),
        pos + 8 > data@.len() ==> r is None,
{
    if data.len() < 8 || pos > data.len() - 8 {
        return None;
    }
    proof {
        reveal_with_fuel(le_bytes, 9);
        reveal_with_fuel(power256, 9);
        lemma_le_bytes_bound(data@, pos as int, 8);
    }
    let v: u64 = data[pos] as u64 + 0x100 * (data[pos + 1] as u64) + 0x1_0000 * (data[pos
        + 2] as u64) + 0x100_0000 * (data[pos + 3] as u64) + 0x1_0000_0000 * (data[pos
        + 4] as u64) + 0x100_0000_0000 * (data[pos + 5] as u64) + 0x1_0000_0000_0000 * (data[pos
        + 6] as u64) + 0x100_0000_0000_0000 * (data[pos + 7] as u64);
    Some((v, pos + 8))
}

/// Read eight bytes as a little-endian signed integer; the unsigned
/// reading of the result recovers the raw byte value exactly.
pub fn read_le_i64(data: &[u8], pos: usize) -> (r: Option<(i64, usize)>)
    ensures
        pos + 8 <= data@.len() ==> ({ r matches Some(t) && t.0 as u64 as int == le_bytes(
            data@,
            pos as int,
            8,
        ) && t.1 == pos + 8 }),
        pos + 8 > data@.len() ==> r is None,
{
    match read_le_u64(data, pos) {
        Some(t) => {
            let u = t.0;
            let v: i64 = #[verifier::truncate] (u as i64);
            proof {
                assert(u as i64 as u64 == u) by (bit_vector);
            }
            Some((v, t.1))
        },
        None => None,
    }
}

/// Copy `n` bytes starting at `pos`.
pub fn read_bytes(data: &[u8], pos: usize, n: usize) -> (r: Option<(Vec<u8>, usize)>)
    ensures
        pos + n <= data@.len() ==> ({ r matches Some(t) && t.0@ == data@.subrange(
            pos as int,
            pos + n,
        ) && t.1 == pos + n }),
        pos + n > data@.len() ==> r is None,
{
    if n > data.len() || pos > data.len() - n {
        return None;
    }
    let mut out: Vec<u8> = Vec::new();
    let mut i: usize = 0;
    while i < n
        invariant
            0 <= i <= n,
            pos + n <= data@.len(),
            pos + n <= usize::MAX,
            out@ == data@.subrange(pos as int, pos + i),
        decreases n - i,
    {
        out.push(data[pos + i]);
        proof {
            assert(data@.subrange(pos as int, pos + i + 1) =~= data@.subrange(
                pos as int,
                pos + i,
            ).push(data@[pos + i]));
        }
        i = i + 1;
    }
    Some((out, pos + n))
}

/// Read 32 bytes into a hash array, already byte-swapped for display.
pub fn read_hash(data: &[u8], pos: usize) -> (r: Option<([u8; 32], usize)>)
    ensures
        pos + 32 <= data@.len() ==> ({ r matches Some(t) && t.0@ == reversed_hash(
            data@.subrange(pos as int, pos + 32),
        ) && t.1 == pos + 32 }),
        pos + 32 > data@.len() ==> r is None,
{
    if data.len() < 32 || pos > data.len() - 32 {
        return None;
    }
    let mut raw: [u8; 32] = [0;32];
    let mut i: usize = 0;
    while i < 32
        invariant
            0 <= i <= 32,
            pos + 32 <= data@.len(),
            pos + 32 <= usize::MAX,
            forall|k: int| 0 <= k < i ==> raw@[k] == data@[pos + k],
        decreases 32 - i,
    {
        raw[i] = data[pos + i];
        i = i + 1;
    }
    proof {
        assert(raw@ =~= data@.subrange(pos as int, pos + 32));
    }
    let swapped = reverse_hash(&raw);
    Some((swapped, pos + 32))
}

/// The number of bytes a compact-size integer occupies, from its tag byte.
pub open spec fn compact_len_spec(tag: u8) -> int {
    if tag == 0xff {
        9
    } else if tag == 0xfe {
        5
    } else if tag == 0xfd {
        3
    } else {
        1
    }
}

/// The value of the compact-size integer at `pos`.
pub open spec fn compact_value_spec(data: Seq<u8>, pos: int) -> int {
    let tag = data[pos];
    if tag == 0xff {
        le_bytes(data, pos + 1, 8)
    } else if tag == 0xfe {
        le_bytes(data, pos + 1, 4)
    } else if tag == 0xfd {
        le_bytes(data, pos + 1, 2)
    } else {
        tag as int
    }
}

/// Whether a whole compact-size integer lies within the data at `pos`.
pub open spec fn compact_fits(data: Seq<u8>, pos: int) -> bool {
    pos < data.len() && pos + compact_len_spec(data[pos]) <= data.len()
}

/// Parse the variable-width compact-size integer used for all counts and
/// lengths of the block framing.
pub fn parse_compact(data: &[u8], pos: usize) -> (r: Option<(u64, usize)>)
    ensures
        compact_fits(data@, pos as int) ==> ({ r matches Some(t) && t.0 as int
            == compact_value_spec(data@, pos as int) && t.1 == pos + compact_len_spec(
            data@[pos as int],
        ) }),
        !compact_fits(data@, pos as int) ==> r is None,
{
    if pos >= data.len() {
        return None;
    }
    let tag = data[pos];
    if tag == 0xff {
        match read_le_u64(data, pos + 1) {
            Some(t) => Some((t.0, t.1)),
            None => None,
        }
    } else if tag == 0xfe {
        match read_le_u32(data, pos + 1) {
            Some(t) => Some((t.0 as u64, t.1)),
            None => None,
        }
    } else if tag == 0xfd {
        match read_le_u16(data, pos + 1) {
            Some(t) => Some((t.0 as u64, t.1)),
            None => None,
        }
    } else {
        Some((tag as u64, pos + 1))
    }
}

/// Parse a 36-byte outpoint: a stored hash and an output index.
pub fn parse_outpoint(data: &[u8], pos: usize) -> (r: Option<(Outpoint, usize)>)
    ensures
        pos + 36 <= data@.len() ==> ({ r matches Some(t) && t.0.hash@ == reversed_hash(
            data@.subrange(pos as int, pos + 32),
        ) && t.0.index as int == le_bytes(data@, pos + 32, 4) && t.1 == pos + 36 }),
        pos + 36 > data@.len() ==> r is None,
{
    let (hash, p1) = match read_hash(data, pos) {
        Some(t) => t,
        None => {
            return None;
        },
    };
    let (index, p2) = match read_le_u32(data, p1) {
        Some(t) => t,
        None => {
            return None;
        },
    };
    Some((Outpoint { hash, index }, p2))
}

/// Parse the fixed 80-byte block header.
pub fn parse_block_header(data: &[u8], pos: usize) -> (r: Option<(BlockHeader, usize)>)
    ensures
        pos + 80 <= data@.len() ==> ({ r matches Some(t) && t.0.version as int == le_bytes(
            data@,
            pos as int,
            4,
        ) && t.0.previous_block_header_hash@ == reversed_hash(
            data@.subrange(pos + 4, pos + 36),
        ) && t.0.merkle_root_hash@ == reversed_hash(data@.subrange(pos + 36, pos + 68))
            && t.0.time as int == le_bytes(data@, pos + 68, 4) && t.0.n_bits as int == le_bytes(
            data@,
            pos + 72,
            4,
        ) && t.0.nonce as int == le_bytes(data@, pos + 76, 4) && t.1 == pos + 80 }),
        pos + 80 > data@.len() ==> r is None,
{
    let (version, p1) = match read_le_u32(data, pos) {
        Some(t) => t,
        None => {
            return None;
        },
    };
    let (previous_block_header_hash, p2) = match read_hash(data, p1) {
        Some(t) => t,
        None => {
            return None;
        },
    };
    let (merkle_root_hash, p3) = match read_hash(data, p2) {
        Some(t) => t,
        None => {
            return None;
        },
    };
    let (time, p4) = match read_le_u32(data, p3) {
        Some(t) => t,
        None => {
            return None;
        },
    };
    let (n_bits, p5) = match read_le_u32(data, p4) {
        Some(t) => t,
        None => {
            return None;
        },
    };
    let (nonce, p6) = match read_le_u32(data, p5) {
        Some(t) => t,
        None => {
            return None;
        },
    };
    Some(
        (
            BlockHeader {
                version,
                previous_block_header_hash,
                merkle_root_hash,
                time,
                n_bits,
                nonce,
            },
            p6,
        ),
    )
}

/// Where parsing one transaction output starting at `pos` ends, or -1 when
/// the data runs out first.
pub open spec fn tx_output_end(data: Seq<u8>, pos: int) -> int {
    if pos + 8 > data.len() {
        -1
    } else if !compact_fits(data, pos + 8) {
        -1
    } else {
        let start = pos + 8 + compact_len_spec(data[pos + 8]);
        if start + compact_value_spec(data, pos + 8) > data.len() {
            -1
        } else {
            start + compact_value_spec(data, pos + 8)
        }
    }
}

/// Where parsing one transaction input starting at `pos` ends, or -1 when
/// the data runs out first.
pub open spec fn tx_input_end(data: Seq<u8>, pos: int) -> int {
    if pos + 36 > data.len() {
        -1
    } else if !compact_fits(data, pos + 36) {
        -1
    } else {
        let e = pos + 36 + compact_len_spec(data[pos + 36]) + compact_value_spec(data, pos + 36);
        if e + 4 > data.len() {
            -1
        } else {
            e + 4
        }
    }
}

/// Where parsing `n` consecutive transaction inputs ends, or -1.
pub open spec fn tx_inputs_end(data: Seq<u8>, pos: int, n: int) -> int
    decreases n,
{
    if pos < 0 {
        -1
    } else if n <= 0 {
        pos
    } else {
        tx_inputs_end(data, tx_input_end(data, pos), n - 1)
    }
}

/// Where parsing `n` consecutive transaction outputs ends, or -1.
pub open spec fn tx_outputs_end(data: Seq<u8>, pos: int, n: int) -> int
    decreases n,
{
    if pos < 0 {
        -1
    } else if n <= 0 {
        pos
    } else {
        tx_outputs_end(data, tx_output_end(data, pos), n - 1)
    }
}

/// Where parsing one whole transaction starting at `pos` ends, or -1.
pub open spec fn transaction_end(data: Seq<u8>, pos: int) -> int {
    if pos + 4 > data.len() {
        -1
    } else if !compact_fits(data, pos + 4) {
        -1
    } else {
        let ins_end = tx_inputs_end(
            data,
            pos + 4 + compact_len_spec(data[pos + 4]),
            compact_value_spec(data, pos + 4),
        );
        if ins_end < 0 {
            -1
        } else if !compact_fits(data, ins_end) {
            -1
        } else {
            let outs_end = tx_outputs_end(
                data,
                ins_end + compact_len_spec(data[ins_end]),
                compact_value_spec(data, ins_end),
            );
            if outs_end < 0 {
                -1
            } else if outs_end + 4 > data.len() {
                -1
            } else {
                outs_end + 4
            }
        }
    }
}

/// Where parsing `n` consecutive transactions ends, or -1.
pub open spec fn txs_end(data: Seq<u8>, pos: int, n: int) -> int
    decreases n,
{
    if pos < 0 {
        -1
    } else if n <= 0 {
        pos
    } else {
        txs_end(data, transaction_end(data, pos), n - 1)
    }
}

/// Where parsing one whole block starting at `pos` ends, or -1.
pub open spec fn block_end(data: Seq<u8>, pos: int) -> int {
    if pos + 80 > data.len() {
        -1
    } else if !compact_fits(data, pos + 80) {
        -1
    } else {
        txs_end(
            data,
            pos + 80 + compact_len_spec(data[pos + 80]),
            compact_value_spec(data, pos + 80),
        )
    }
}

pub proof fn lemma_tx_inputs_end_bound(data: Seq<u8>, pos: int, n: int)
    requires
        0 <= pos <= data.len(),
        0 <= n,
    ensures
        tx_inputs_end(data, pos, n) >= 0 ==> pos + n <= tx_inputs_end(data, pos, n) <= data.len(),
    decreases n,
{
    if n > 0 {
        let e = tx_input_end(data, pos);
        if e >= 0 {
            lemma_compact_value_nonneg(data, pos + 36);
            lemma_tx_inputs_end_bound(data, e, n - 1);
        } else {
            assert(tx_inputs_end(data, e, n - 1) == -1);
        }
    }
}

pub proof fn lemma_tx_outputs_end_bound(data: Seq<u8>, pos: int, n: int)
    requires
        0 <= pos <= data.len(),
        0 <= n,
    ensures
        tx_outputs_end(data, pos, n) >= 0 ==> pos + n <= tx_outputs_end(data, pos, n)
            <= data.len(),
    decreases n,
{
    if n > 0 {
        let e = tx_output_end(data, pos);
        if e >= 0 {
            lemma_compact_value_nonneg(data, pos + 8);
            lemma_tx_outputs_end_bound(data, e, n - 1);
        } else {
            assert(tx_outputs_end(data, e, n - 1) == -1);
        }
    }
}

pub proof fn lemma_compact_value_nonneg(data: Seq<u8>, pos: int)
    requires
        compact_fits(data, pos),
        0 <= pos,
    ensures
        compact_value_spec(data, pos) >= 0,
        compact_len_spec(data[pos]) >= 1,
{
    let tag = data[pos];
    if tag == 0xff {
        lemma_le_bytes_bound(data, pos + 1, 8);
    } else if tag == 0xfe {
        lemma_le_bytes_bound(data, pos + 1, 4);
    } else if tag == 0xfd {
        lemma_le_bytes_bound(data, pos + 1, 2);
    }
}

/// A whole parsed transaction reaches past its fixed-width prefix.
pub proof fn lemma_transaction_end_bound(data: Seq<u8>, pos: int)
    requires
        0 <= pos,
    ensures
        transaction_end(data, pos) >= 0 ==> pos + 1 <= transaction_end(data, pos) <= data.len(),
{
    if transaction_end(data, pos) >= 0 {
        let s1 = pos + 4 + compact_len_spec(data[pos + 4]);
        let c1 = compact_value_spec(data, pos + 4);
        lemma_compact_value_nonneg(data, pos + 4);
        lemma_tx_inputs_end_bound(data, s1, c1);
        let ins_end = tx_inputs_end(data, s1, c1);
        let s2 = ins_end + compact_len_spec(data[ins_end]);
        let c2 = compact_value_spec(data, ins_end);
        lemma_compact_value_nonneg(data, ins_end);
        lemma_tx_outputs_end_bound(data, s2, c2);
    }
}

pub proof fn lemma_txs_end_bound(data: Seq<u8>, pos: int, n: int)
    requires
        0 <= pos <= data.len(),
        0 <= n,
    ensures
        txs_end(data, pos, n) >= 0 ==> pos + n <= txs_end(data, pos, n) <= data.len(),
    decreases n,
{
    if n > 0 {
        let e = transaction_end(data, pos);
        lemma_transaction_end_bound(data, pos);
        if e >= 0 {
            lemma_txs_end_bound(data, e, n - 1);
        } else {
            assert(txs_end(data, e, n - 1) == -1);
        }
    }
}

/// Parse a transaction output: a value and its locking script.
pub fn parse_transaction_output(data: &[u8], pos: usize) -> (r: Option<(TransactionOutput, usize)>)
    ensures
        r is Some <==> tx_output_end(data@, pos as int) >= 0,
        r matches Some(t) ==> t.1 == tx_output_end(data@, pos as int),
        r matches Some(t) ==> {
            &&& t.0.value as u64 as int == le_bytes(data@, pos as int, 8)
            &&& compact_fits(data@, pos + 8)
            &&& t.0.pk_script@.len() as int == compact_value_spec(data@, pos + 8)
            &&& t.0.pk_script@ == data@.subrange(
                pos + 8 + compact_len_spec(data@[pos + 8]),
                pos + 8 + compact_len_spec(data@[pos + 8]) + compact_value_spec(data@, pos + 8),
            )
            &&& t.1 == pos + 8 + compact_len_spec(data@[pos + 8]) + compact_value_spec(
                data@,
                pos + 8,
            )
            &&& pos < t.1 <= data@.len()
        },
{
    let dl = data.len();
    let (value, p1) = match read_le_i64(data, pos) {
        Some(t) => t,
        None => {
            return None;
        },
    };
    let (script_size, p2) = match parse_compact(data, p1) {
        Some(t) => t,
        None => {
            return None;
        },
    };
    if script_size > dl as u64 {
        proof {
            lemma_compact_value_nonneg(data@, pos + 8);
        }
        return None;
    }
    let (pk_script, p3) = match read_bytes(data, p2, script_size as usize) {
        Some(t) => t,
        None => {
            return None;
        },
    };
    Some((TransactionOutput { value, pk_script }, p3))
}

/// Parse a transaction input: the outpoint it spends, its unlocking script
/// and its sequence number.
pub fn parse_transaction_input(data: &[u8], pos: usize) -> (r: Option<(TransactionInput, usize)>)
    ensures
        r is Some <==> tx_input_end(data@, pos as int) >= 0,
        r matches Some(t) ==> {
            &&& t.0.previous_output.hash@ == reversed_hash(data@.subrange(pos as int, pos + 32))
            &&& t.0.previous_output.index as int == le_bytes(data@, pos + 32, 4)
            &&& compact_fits(data@, pos + 36)
            &&& t.0.script@.len() as int == compact_value_spec(data@, pos + 36)
            &&& t.1 as int == tx_input_end(data@, pos as int)
            &&& pos < t.1 <= data@.len()
        },
{
    let dl = data.len();
    let (previous_output, p1) = match parse_outpoint(data, pos) {
        Some(t) => t,
        None => {
            return None;
        },
    };
    let (script_size, p2) = match parse_compact(data, p1) {
        Some(t) => t,
        None => {
            return None;
        },
    };
    if script_size > dl as u64 {
        proof {
            lemma_compact_value_nonneg(data@, pos + 36);
        }
        return None;
    }
    let (script, p3) = match read_bytes(data, p2, script_size as usize) {
        Some(t) => t,
        None => {
            return None;
        },
    };
    let (sequence, p4) = match read_le_u32(data, p3) {
        Some(t) => t,
        None => {
            return None;
        },
    };
    Some((TransactionInput { previous_output, sequence, script }, p4))
}

/// Parse one framed transaction: version, the announced number of inputs,
/// the announced number of outputs, and the lock time, in sequence.
pub fn parse_transaction(data: &[u8], pos: usize) -> (r: Option<(Transaction, usize)>)
    ensures
        r is Some <==> transaction_end(data@, pos as int) >= 0,
        r matches Some(t) ==> {
            &&& t.0.version as int == le_bytes(data@, pos as int, 4)
            &&& compact_fits(data@, pos + 4)
            &&& t.0.inputs@.len() as int == compact_value_spec(data@, pos + 4)
            &&& t.0.outputs@.len() as int == compact_value_spec(
                data@,
                tx_inputs_end(
                    data@,
                    pos + 4 + compact_len_spec(data@[pos + 4]),
                    compact_value_spec(data@, pos + 4),
                ),
            )
            &&& t.0.lock_time as int == le_bytes(data@, t.1 - 4, 4)
            &&& t.1 as int == transaction_end(data@, pos as int)
            &&& pos < t.1 <= data@.len()
        },
{
    let dl = data.len();
    let (version, p1) = match read_le_u32(data, pos) {
        Some(t) => t,
        None => {
            return None;
        },
    };
    let (tx_in_count, p2) = match parse_compact(data, p1) {
        Some(t) => t,
        None => {
            return None;
        },
    };
    let ghost c_in = compact_value_spec(data@, pos + 4);
    proof {
        lemma_compact_value_nonneg(data@, pos + 4);
    }
    if tx_in_count > dl as u64 {
        proof {
            lemma_tx_inputs_end_bound(data@, p2 as int, c_in);
        }
        return None;
    }
    let n_in = tx_in_count as usize;
    let mut inputs: Vec<TransactionInput> = Vec::new();
    let mut p: usize = p2;
    let mut i: usize = 0;
    while i < n_in
        invariant
            0 <= i <= n_in,
            inputs@.len() == i,
            0 <= p <= data@.len(),
            pos < p,
            n_in as int <= data@.len(),
            pos + 4 <= data@.len(),
            compact_fits(data@, pos + 4),
            p2 as int == pos + 4 + compact_len_spec(data@[pos + 4]),
            n_in as int == compact_value_spec(data@, pos + 4),
            tx_inputs_end(data@, p2 as int, n_in as int) == tx_inputs_end(
                data@,
                p as int,
                n_in - i,
            ),
        decreases n_in - i,
    {
        let (input, pn) = match parse_transaction_input(data, p) {
            Some(t) => t,
            None => {
                proof {
                    assert(tx_inputs_end(data@, p as int, n_in - i) == tx_inputs_end(
                        data@,
                        tx_input_end(data@, p as int),
                        n_in - i - 1,
                    ));
                    assert(tx_inputs_end(data@, p2 as int, n_in as int) == -1);
                    assert(transaction_end(data@, pos as int) == -1);
                }
                return None;
            },
        };
        inputs.push(input);
        proof {
            assert(tx_inputs_end(data@, p as int, n_in - i) == tx_inputs_end(
                data@,
                tx_input_end(data@, p as int),
                n_in - i - 1,
            ));
        }
        p = pn;
        i = i + 1;
    }
    proof {
        assert(tx_inputs_end(data@, p2 as int, n_in as int) == p as int);
    }
    let (tx_out_count, p3) = match parse_compact(data, p) {
        Some(t) => t,
        None => {
            return None;
        },
    };
    let ghost c_out = compact_value_spec(data@, p as int);
    proof {
        lemma_compact_value_nonneg(data@, p as int);
    }
    if tx_out_count > dl as u64 {
        proof {
            lemma_tx_outputs_end_bound(data@, p3 as int, c_out);
        }
        return None;
    }
    let n_out = tx_out_count as usize;
    let mut outputs: Vec<TransactionOutput> = Vec::new();
    let mut q: usize = p3;
    let mut j: usize = 0;
    while j < n_out
        invariant
            0 <= j <= n_out,
            outputs@.len() == j,
            0 <= q <= data@.len(),
            pos < q,
            n_out as int <= data@.len(),
            pos + 4 <= data@.len(),
            compact_fits(data@, pos + 4),
            p2 as int == pos + 4 + compact_len_spec(data@[pos + 4]),
            n_in as int == compact_value_spec(data@, pos + 4),
            p as int == tx_inputs_end(data@, p2 as int, n_in as int),
            0 <= p as int <= data@.len(),
            compact_fits(data@, p as int),
            p3 as int == p + compact_len_spec(data@[p as int]),
            n_out as int == compact_value_spec(data@, p as int),
            tx_outputs_end(data@, p3 as int, n_out as int) == tx_outputs_end(
                data@,
                q as int,
                n_out - j,
            ),
        decreases n_out - j,
    {
        let (output, qn) = match parse_transaction_output(data, q) {
            Some(t) => t,
            None => {
                proof {
                    assert(tx_outputs_end(data@, q as int, n_out - j) == tx_outputs_end(
                        data@,
                        tx_output_end(data@, q as int),
                        n_out - j - 1,
                    ));
                    assert(tx_outputs_end(data@, p3 as int, n_out as int) == -1);
                    assert(transaction_end(data@, pos as int) == -1);
                }
                return None;
            },
        };
        outputs.push(output);
        proof {
            assert(tx_outputs_end(data@, q as int, n_out - j) == tx_outputs_end(
                data@,
                tx_output_end(data@, q as int),
                n_out - j - 1,
            ));
        }
        q = qn;
        j = j + 1;
    }
    proof {
        assert(tx_outputs_end(data@, p3 as int, n_out as int) == q as int);
    }
    let (lock_time, p4) = match read_le_u32(data, q) {
        Some(t) => t,
        None => {
            return None;
        },
    };
    Some((Transaction { version, lock_time, inputs, outputs }, p4))
}

/// Parse one block: its header, then the announced number of transactions.
pub fn parse_block(data: &[u8], pos: usize) -> (r: Option<(Block, usize)>)
    ensures
        r is Some <==> block_end(data@, pos as int) >= 0,
        r matches Some(t) ==> {
            &&& t.0.header.version as int == le_bytes(data@, pos as int, 4)
            &&& compact_fits(data@, pos + 80)
            &&& t.0.transactions@.len() as int == compact_value_spec(data@, pos + 80)
            &&& t.1 as int == block_end(data@, pos as int)
            &&& pos < t.1 <= data@.len()
        },
{
    let dl = data.len();
    let (header, p1) = match parse_block_header(data, pos) {
        Some(t) => t,
        None => {
            return None;
        },
    };
    let (tx_count, p2) = match parse_compact(data, p1) {
        Some(t) => t,
        None => {
            return None;
        },
    };
    let ghost c_tx = compact_value_spec(data@, pos + 80);
    proof {
        lemma_compact_value_nonneg(data@, pos + 80);
    }
    if tx_count > dl as u64 {
        proof {
            lemma_txs_end_bound(data@, p2 as int, c_tx);
        }
        return None;
    }
    let n = tx_count as usize;
    let mut transactions: Vec<Transaction> = Vec::new();
    let mut p: usize = p2;
    let mut i: usize = 0;
    while i < n
        invariant
            0 <= i <= n,
            transactions@.len() == i,
            0 <= p <= data@.len(),
            pos < p,
            n as int <= data@.len(),
            pos + 80 <= data@.len(),
            compact_fits(data@, pos + 80),
            p2 as int == pos + 80 + compact_len_spec(data@[pos + 80]),
            n as int == compact_value_spec(data@, pos + 80),
            txs_end(data@, p2 as int, n as int) == txs_end(data@, p as int, n - i),
        decreases n - i,
    {
        let (tx, pn) = match parse_transaction(data, p) {
            Some(t) => t,
            None => {
                proof {
                    assert(txs_end(data@, p as int, n - i) == txs_end(
                        data@,
                        transaction_end(data@, p as int),
                        n - i - 1,
                    ));
                    assert(txs_end(data@, p2 as int, n as int) == -1);
                    assert(block_end(data@, pos as int) == -1);
                }
                return None;
            },
        };
        transactions.push(tx);
        proof {
            assert(txs_end(data@, p as int, n - i) == txs_end(
                data@,
                transaction_end(data@, p as int),
                n - i - 1,
            ));
        }
        p = pn;
        i = i + 1;
    }
    proof {
        assert(txs_end(data@, p2 as int, n as int) == p as int);
    }
    Some((Block { header, transactions }, p))
}

} // verus!
