//! How a model is spread over several devices: which block of layers goes where, what its
//! tensors are called, and what a pass over it needs.

use vstd::prelude::*;
use vstd::string::*;
use crate::text::{decimal, decimal_text, decimal_value, law_decimal_has_its_value, law_decimal_is_injective};

verus! {

/// The longest text that the position tables reach to.
pub const MAX_SEQ_LEN: usize = 4096;

/// The base of the position tables where a model does not give it: ten thousand, as the bits of
/// a single-precision number.
pub const DEFAULT_ROPE_BASE_BITS: u32 = 0x461C4000;

/// The metadata key of the number of experts.
pub const EXPERT_COUNT_KEY: &'static str = "qwen2.expert_count";

/// The metadata key of the number of attention heads.
pub const HEAD_COUNT_KEY: &'static str = "qwen2.attention.head_count";

/// The metadata key of the number of heads of keys and values.
pub const HEAD_COUNT_KV_KEY: &'static str = "qwen2.attention.head_count_kv";

/// The metadata key of the number of blocks of layers.
pub const BLOCK_COUNT_KEY: &'static str = "qwen2.block_count";

/// The metadata key of the length of an embedding.
pub const EMBEDDING_LENGTH_KEY: &'static str = "qwen2.embedding_length";

/// The metadata key of what keeps the norm away from zero.
pub const RMS_EPSILON_KEY: &'static str = "qwen2.attention.layer_norm_rms_epsilon";

/// The metadata key of the base of the position tables.
pub const ROPE_FREQ_BASE_KEY: &'static str = "qwen2.rope.freq_base";

/// A number in a model's metadata. Fractions are given by the bits of a single-precision number.
#[derive(Clone, Copy, Debug, PartialEq, Eq, Structural)]
pub enum Field {
    /// There is no such key.
    Missing,
    /// The key holds something else.
    WrongType,
    /// The number.
    Value(u32),
}

/// What of a model's metadata decides how it is loaded.
#[derive(Clone, Copy, Debug)]
pub struct Metadata {
    pub expert_count: Field,
    pub head_count: Field,
    pub head_count_kv: Field,
    pub block_count: Field,
    pub embedding_length: Field,
    pub rms_epsilon: Field,
    pub rope_freq_base: Field,
}

/// A key that a model cannot do without.
#[derive(Clone, Copy, Debug, PartialEq, Eq, Structural)]
pub enum Key {
    HeadCount,
    HeadCountKv,
    BlockCount,
    EmbeddingLength,
    RmsEpsilon,
}

/// Why a model cannot be loaded.
#[derive(Clone, Copy, Debug, PartialEq, Eq, Structural)]
pub enum PlanError {
    /// There is no device to put it on.
    NoDevices,
    /// It mixes several experts.
    MixtureOfExperts,
    /// A key is missing.
    Missing(Key),
    /// A key does not hold a number of the right type.
    WrongType(Key),
}

/// The shape of a model and its spread over the devices.
#[derive(Clone, Copy, Debug)]
pub struct ModelPlan {
    pub head_count: usize,
    pub head_count_kv: usize,
    pub block_count: usize,
    pub embedding_length: usize,
    /// How long the vector of one head is.
    pub head_dim: usize,
    /// What keeps the norm away from zero, as bits.
    pub rms_norm_eps_bits: u32,
    /// The base of the position tables, as bits.
    pub rope_freq_base_bits: u32,
    /// How many devices it is spread over.
    pub n_devices: usize,
}

impl Key {
    /// What the key is called.
    pub fn name(&self) -> (name: &'static str)
        ensures
            name@ == match *self {
                Key::HeadCount => HEAD_COUNT_KEY@,
                Key::HeadCountKv => HEAD_COUNT_KV_KEY@,
                Key::BlockCount => BLOCK_COUNT_KEY@,
                Key::EmbeddingLength => EMBEDDING_LENGTH_KEY@,
                Key::RmsEpsilon => RMS_EPSILON_KEY@,
            },
    {
        match self {
            Key::HeadCount => HEAD_COUNT_KEY,
            Key::HeadCountKv => HEAD_COUNT_KV_KEY,
            Key::BlockCount => BLOCK_COUNT_KEY,
            Key::EmbeddingLength => EMBEDDING_LENGTH_KEY,
            Key::RmsEpsilon => RMS_EPSILON_KEY,
        }
    }
}

/// What is wrong with a key, if anything.
pub open spec fn key_problem(field: Field, key: Key) -> Option<PlanError> {
    match field {
        Field::Missing => Some(PlanError::Missing(key)),
        Field::WrongType => Some(PlanError::WrongType(key)),
        Field::Value(_) => None,
    }
}

/// The first of two problems.
pub open spec fn or_else(first: Option<PlanError>, second: Option<PlanError>) -> Option<
    PlanError,
> {
    if first is Some {
        first
    } else {
        second
    }
}

/// Whether a model mixes several experts. One that does not say has none.
pub open spec fn is_mixture(meta: Metadata) -> bool {
    meta.expert_count matches Field::Value(n) && n > 1
}

/// The first thing that keeps a model from being loaded: no device, several experts, or one of
/// the keys that it needs, in their order.
pub open spec fn problem(meta: Metadata, n_devices: nat) -> Option<PlanError> {
    if n_devices == 0 {
        Some(PlanError::NoDevices)
    } else if is_mixture(meta) {
        Some(PlanError::MixtureOfExperts)
    } else {
        or_else(
            key_problem(meta.head_count, Key::HeadCount),
            or_else(
                key_problem(meta.head_count_kv, Key::HeadCountKv),
                or_else(
                    key_problem(meta.block_count, Key::BlockCount),
                    or_else(
                        key_problem(meta.embedding_length, Key::EmbeddingLength),
                        key_problem(meta.rms_epsilon, Key::RmsEpsilon),
                    ),
                ),
            ),
        )
    }
}

/// The number that a key holds, and zero where it holds none.
pub open spec fn number(field: Field) -> u32 {
    match field {
        Field::Value(n) => n,
        _ => 0,
    }
}

/// The number that a key holds.
fn require(field: Field, key: Key) -> (r: Result<u32, PlanError>)
    ensures
        match r {
            Ok(n) => field == Field::Value(n),
            Err(e) => key_problem(field, key) == Some(e),
        },
{
    match field {
        Field::Missing => Err(PlanError::Missing(key)),
        Field::WrongType => Err(PlanError::WrongType(key)),
        Field::Value(n) => Ok(n),
    }
}

/// The shape of a model and its spread over `n_devices` devices, or the first thing that is
/// wrong with it.
pub fn plan_model(meta: &Metadata, n_devices: usize) -> (r: Result<ModelPlan, PlanError>)
    requires
        problem(*meta, n_devices as nat) is None ==> number(meta.head_count) > 0,
    ensures
        match r {
            Err(e) => problem(*meta, n_devices as nat) == Some(e),
            Ok(p) => {
                &&& problem(*meta, n_devices as nat) is None
                &&& meta.head_count == Field::Value(p.head_count as u32)
                &&& p.head_count == number(meta.head_count)
                &&& meta.head_count_kv == Field::Value(p.head_count_kv as u32)
                &&& p.head_count_kv == number(meta.head_count_kv)
                &&& meta.block_count == Field::Value(p.block_count as u32)
                &&& p.block_count == number(meta.block_count)
                &&& meta.embedding_length == Field::Value(p.embedding_length as u32)
                &&& p.embedding_length == number(meta.embedding_length)
                &&& p.head_dim == number(meta.embedding_length) / number(meta.head_count)
                &&& meta.rms_epsilon == Field::Value(p.rms_norm_eps_bits)
                &&& p.rms_norm_eps_bits == number(meta.rms_epsilon)
                &&& p.rope_freq_base_bits == match meta.rope_freq_base {
                    Field::Value(bits) => bits,
                    _ => DEFAULT_ROPE_BASE_BITS,
                }
                &&& p.n_devices == n_devices
            },
        },
{
    if n_devices == 0 {
        return Err(PlanError::NoDevices);
    }
    if let Field::Value(n) = meta.expert_count {
        if n > 1 {
            return Err(PlanError::MixtureOfExperts);
        }
    }
    let head_count: u32 = match require(meta.head_count, Key::HeadCount) {
        Err(e) => {
            return Err(e);
        },
        Ok(n) => n,
    };
    let head_count_kv: u32 = match require(meta.head_count_kv, Key::HeadCountKv) {
        Err(e) => {
            return Err(e);
        },
        Ok(n) => n,
    };
    let block_count: u32 = match require(meta.block_count, Key::BlockCount) {
        Err(e) => {
            return Err(e);
        },
        Ok(n) => n,
    };
    let embedding_length: u32 = match require(meta.embedding_length, Key::EmbeddingLength) {
        Err(e) => {
            return Err(e);
        },
        Ok(n) => n,
    };
    let rms_norm_eps_bits: u32 = match require(meta.rms_epsilon, Key::RmsEpsilon) {
        Err(e) => {
            return Err(e);
        },
        Ok(n) => n,
    };
    let rope_freq_base_bits: u32 = match meta.rope_freq_base {
        Field::Value(bits) => bits,
        _ => DEFAULT_ROPE_BASE_BITS,
    };
    Ok(
        ModelPlan {
            head_count: head_count as usize,
            head_count_kv: head_count_kv as usize,
            block_count: block_count as usize,
            embedding_length: embedding_length as usize,
            head_dim: (embedding_length / head_count) as usize,
            rms_norm_eps_bits,
            rope_freq_base_bits,
            n_devices,
        },
    )
}

/// The device of a block of layers: they are spread evenly, in order.
pub open spec fn device_of(layer: int, n_devices: int, blocks: int) -> int {
    layer * n_devices / blocks
}

/// The first block of layers on a device.
pub open spec fn first_layer(device: int, n_devices: int, blocks: int) -> int {
    (device * blocks + n_devices - 1) / n_devices
}

/// The device of a block of layers.
pub fn device_index(layer: usize, n_devices: usize, blocks: usize) -> (device: usize)
    requires
        layer < blocks,
        n_devices > 0,
    ensures
        device == device_of(layer as int, n_devices as int, blocks as int),
        device < n_devices,
{
    proof {
        lemma_device_in_range(layer as int, n_devices as int, blocks as int);
        assert(layer * n_devices <= 0xffff_ffff_ffff_ffff * 0xffff_ffff_ffff_ffff)
            by (nonlinear_arith)
            requires
                0 <= layer <= 0xffff_ffff_ffff_ffff,
                0 <= n_devices <= 0xffff_ffff_ffff_ffff,
        ;
    }
    (layer as u128 * n_devices as u128 / blocks as u128) as usize
}

proof fn lemma_device_in_range(layer: int, n_devices: int, blocks: int)
    requires
        0 <= layer < blocks,
        n_devices > 0,
    ensures
        0 <= device_of(layer, n_devices, blocks) < n_devices,
{
    assert(0 <= layer * n_devices < blocks * n_devices) by (nonlinear_arith)
        requires
            0 <= layer < blocks,
            n_devices > 0,
    ;
    assert(0 <= layer * n_devices / blocks < n_devices) by (nonlinear_arith)
        requires
            0 <= layer * n_devices < blocks * n_devices,
            blocks > 0,
    ;
}

/// The quotient of two numbers lies at `q` exactly where the number lies between `q` and `q + 1`
/// times the divisor.
proof fn lemma_quotient(x: int, d: int, q: int)
    requires
        d > 0,
    ensures
        x / d == q <==> q * d <= x < (q + 1) * d,
{
    assert(x == d * (x / d) + x % d && 0 <= x % d < d) by (nonlinear_arith)
        requires
            d > 0,
    ;
    let p = x / d;
    assert((q + 1) * d == q * d + d) by (nonlinear_arith);
    if q * d <= x < (q + 1) * d {
        assert(p == q) by (nonlinear_arith)
            requires
                x == d * p + x % d,
                0 <= x % d < d,
                q * d <= x < q * d + d,
        ;
    }
    if p == q {
        assert(d * p == q * d) by (nonlinear_arith)
            requires
                p == q,
        ;
    }
}

proof fn lemma_ceiling(x: int, d: int, i: int)
    requires
        d > 0,
    ensures
        (x + d - 1) / d <= i <==> x <= i * d,
{
    let c = (x + d - 1) / d;
    lemma_quotient(x + d - 1, d, c);
    assert((c + 1) * d == c * d + d) by (nonlinear_arith);
    if c <= i {
        assert(c * d <= i * d) by (nonlinear_arith)
            requires
                c <= i,
                d > 0,
        ;
    } else {
        assert(i * d + d <= c * d) by (nonlinear_arith)
            requires
                c >= i + 1,
                d > 0,
        ;
    }
}

/// A device holds consecutive blocks: those from its first one up to the first one of the next
/// device.
pub proof fn law_devices_hold_runs(layer: int, device: int, n_devices: int, blocks: int)
    requires
        0 <= layer < blocks,
        n_devices > 0,
    ensures
        device_of(layer, n_devices, blocks) == device <==> first_layer(device, n_devices, blocks)
            <= layer < first_layer(device + 1, n_devices, blocks),
{
    lemma_quotient(layer * n_devices, blocks, device);
    lemma_ceiling(device * blocks, n_devices, layer);
    lemma_ceiling((device + 1) * blocks, n_devices, layer);
}

/// No device holds more than one block more than another: each holds the even share, rounded
/// down or up, and exactly the share where the devices divide the blocks.
pub proof fn law_split_is_even(device: int, n_devices: int, blocks: int)
    requires
        n_devices > 0,
    ensures
        ({
            let share = first_layer(device + 1, n_devices, blocks) - first_layer(
                device,
                n_devices,
                blocks,
            );
            &&& blocks / n_devices <= share <= blocks / n_devices + 1
            &&& blocks % n_devices == 0 ==> share == blocks / n_devices
        }),
{
    let q = blocks / n_devices;
    let lo = first_layer(device, n_devices, blocks);
    let hi = first_layer(device + 1, n_devices, blocks);
    lemma_quotient(blocks, n_devices, q);
    let x = device * blocks;
    assert((device + 1) * blocks == x + blocks) by (nonlinear_arith)
        requires
            x == device * blocks,
    ;
    assert((q + 1) * n_devices == q * n_devices + n_devices) by (nonlinear_arith);
    assert((lo - 1) * n_devices == lo * n_devices - n_devices) by (nonlinear_arith);
    assert((lo + q - 1) * n_devices == lo * n_devices + q * n_devices - n_devices)
        by (nonlinear_arith);
    assert((lo + q + 1) * n_devices == lo * n_devices + q * n_devices + n_devices)
        by (nonlinear_arith);
    lemma_ceiling(x, n_devices, lo);
    lemma_ceiling(x, n_devices, lo - 1);
    lemma_ceiling(x + blocks, n_devices, lo + q - 1);
    lemma_ceiling(x + blocks, n_devices, lo + q + 1);
    if blocks % n_devices == 0 {
        assert(blocks == q * n_devices) by (nonlinear_arith)
            requires
                q == blocks / n_devices,
                blocks % n_devices == 0,
                n_devices > 0,
        ;
        assert((lo + q) * n_devices == lo * n_devices + q * n_devices) by (nonlinear_arith);
        lemma_ceiling(x + blocks, n_devices, lo + q);
    }
}

/// The hidden state never goes back to an earlier device, starts on the first one, and ends on
/// the last one if there are no more devices than blocks.
pub proof fn law_blocks_run_forward(a: int, b: int, n_devices: int, blocks: int)
    requires
        0 <= a <= b < blocks,
        n_devices > 0,
    ensures
        device_of(0, n_devices, blocks) == 0,
        device_of(a, n_devices, blocks) <= device_of(b, n_devices, blocks),
        n_devices <= blocks ==> device_of(blocks - 1, n_devices, blocks) == n_devices - 1,
{
    assert(0 * n_devices / blocks == 0) by (nonlinear_arith)
        requires
            blocks > 0,
    ;
    assert(a * n_devices <= b * n_devices) by (nonlinear_arith)
        requires
            a <= b,
            n_devices > 0,
    ;
    vstd::arithmetic::div_mod::lemma_div_is_ordered(a * n_devices, b * n_devices, blocks);
    if n_devices <= blocks {
        assert((n_devices - 1) * blocks == n_devices * blocks - blocks) by (nonlinear_arith);
        assert((blocks - 1) * n_devices == n_devices * blocks - n_devices) by (nonlinear_arith);
        lemma_quotient((blocks - 1) * n_devices, blocks, n_devices - 1);
    }
}

/// The tensor that tokens are looked up in. It lives on the first device.
pub const EMBEDDING_TENSOR: &'static str = "token_embd.weight";

/// The tensor of the last norm. It lives with the output head.
pub const OUTPUT_NORM_TENSOR: &'static str = "output_norm.weight";

/// The tensor of the output head.
pub const OUTPUT_TENSOR: &'static str = "output.weight";

/// The tensor that serves as output head: a model without one of its own shares the embedding.
pub fn head_tensor(has_own: bool) -> (name: &'static str)
    ensures
        name@ == if has_own {
            OUTPUT_TENSOR@
        } else {
            EMBEDDING_TENSOR@
        },
{
    if has_own {
        OUTPUT_TENSOR
    } else {
        EMBEDDING_TENSOR
    }
}

/// The device of the output head: the last one.
pub fn head_device(n_devices: usize) -> (device: usize)
    requires
        n_devices > 0,
    ensures
        device == n_devices - 1,
{
    n_devices - 1
}

/// How many tensors a block of layers has.
pub const BLOCK_TENSORS: usize = 12;

/// What a tensor is called within its block, in the order in which a block is loaded.
pub open spec fn tensor_suffix(part: int) -> Seq<char> {
    if part == 0 {
        "attn_q.weight"@
    } else if part == 1 {
        "attn_k.weight"@
    } else if part == 2 {
        "attn_v.weight"@
    } else if part == 3 {
        "attn_q.bias"@
    } else if part == 4 {
        "attn_k.bias"@
    } else if part == 5 {
        "attn_v.bias"@
    } else if part == 6 {
        "attn_output.weight"@
    } else if part == 7 {
        "ffn_gate.weight"@
    } else if part == 8 {
        "ffn_down.weight"@
    } else if part == 9 {
        "ffn_up.weight"@
    } else if part == 10 {
        "attn_norm.weight"@
    } else {
        "ffn_norm.weight"@
    }
}

/// What a tensor is called.
pub open spec fn tensor_name(layer: nat, part: int) -> Seq<char> {
    "blk."@ + decimal(layer) + "."@ + tensor_suffix(part)
}

/// What a tensor is called within its block.
fn suffix(part: usize) -> (text: &'static str)
    requires
        part < BLOCK_TENSORS,
    ensures
        text@ == tensor_suffix(part as int),
{
    match part {
        0 => "attn_q.weight",
        1 => "attn_k.weight",
        2 => "attn_v.weight",
        3 => "attn_q.bias",
        4 => "attn_k.bias",
        5 => "attn_v.bias",
        6 => "attn_output.weight",
        7 => "ffn_gate.weight",
        8 => "ffn_down.weight",
        9 => "ffn_up.weight",
        10 => "attn_norm.weight",
        _ => "ffn_norm.weight",
    }
}

/// What the tensors of a block are called, in the order in which they are loaded.
pub fn block_tensor_names(layer: usize) -> (names: Vec<String>)
    ensures
        names@.len() == BLOCK_TENSORS,
        forall|part: int|
            0 <= part < BLOCK_TENSORS ==> #[trigger] names@[part]@ == tensor_name(
                layer as nat,
                part,
            ),
{
    let mut names: Vec<String> = Vec::new();
    let mut part: usize = 0;
    while part < BLOCK_TENSORS
        invariant
            part <= BLOCK_TENSORS,
            names@.len() == part,
            forall|i: int|
                0 <= i < part ==> #[trigger] names@[i]@ == tensor_name(layer as nat, i),
        decreases BLOCK_TENSORS - part,
    {
        let digits = decimal_text(layer);
        let mut name = String::from_str("blk.");
        name.append(digits.as_str());
        name.append(".");
        name.append(suffix(part));
        names.push(name);
        part = part + 1;
    }
    names
}

proof fn lemma_digits_have_no_dot(n: nat, i: int)
    requires
        0 <= i < decimal(n).len(),
    ensures
        decimal(n)[i] != '.',
    decreases n,
{
    if n < 10 {
        assert((decimal(n)[0]) as u32 == '0' as u32 + n);
    } else {
        if i < decimal(n / 10).len() {
            lemma_digits_have_no_dot(n / 10, i);
            assert(decimal(n)[i] == decimal(n / 10)[i]);
        } else {
            let d = n % 10;
            assert(decimal(n)[i] == ('0' as u32 + d) as char);
            assert((decimal(n)[i]) as u32 == '0' as u32 + d);
        }
    }
}

proof fn lemma_suffixes_differ(p: int, q: int)
    requires
        0 <= p < BLOCK_TENSORS,
        0 <= q < BLOCK_TENSORS,
        tensor_suffix(p) == tensor_suffix(q),
    ensures
        p == q,
{
    reveal_strlit("attn_q.weight");
    reveal_strlit("attn_k.weight");
    reveal_strlit("attn_v.weight");
    reveal_strlit("attn_q.bias");
    reveal_strlit("attn_k.bias");
    reveal_strlit("attn_v.bias");
    reveal_strlit("attn_output.weight");
    reveal_strlit("ffn_gate.weight");
    reveal_strlit("ffn_down.weight");
    reveal_strlit("ffn_up.weight");
    reveal_strlit("attn_norm.weight");
    reveal_strlit("ffn_norm.weight");
    assert("attn_q.weight"@.len() == 13 && "attn_q.weight"@[4] == '_' && "attn_q.weight"@[5] == 'q');
    assert("attn_k.weight"@.len() == 13 && "attn_k.weight"@[4] == '_' && "attn_k.weight"@[5] == 'k');
    assert("attn_v.weight"@.len() == 13 && "attn_v.weight"@[4] == '_' && "attn_v.weight"@[5] == 'v');
    assert("attn_q.bias"@.len() == 11 && "attn_q.bias"@[4] == '_' && "attn_q.bias"@[5] == 'q');
    assert("attn_k.bias"@.len() == 11 && "attn_k.bias"@[4] == '_' && "attn_k.bias"@[5] == 'k');
    assert("attn_v.bias"@.len() == 11 && "attn_v.bias"@[4] == '_' && "attn_v.bias"@[5] == 'v');
    assert("attn_output.weight"@.len() == 18 && "attn_output.weight"@[4] == '_' && "attn_output.weight"@[5] == 'o');
    assert("ffn_gate.weight"@.len() == 15 && "ffn_gate.weight"@[4] == 'g' && "ffn_gate.weight"@[5] == 'a');
    assert("ffn_down.weight"@.len() == 15 && "ffn_down.weight"@[4] == 'd' && "ffn_down.weight"@[5] == 'o');
    assert("ffn_up.weight"@.len() == 13 && "ffn_up.weight"@[4] == 'u' && "ffn_up.weight"@[5] == 'p');
    assert("attn_norm.weight"@.len() == 16 && "attn_norm.weight"@[4] == '_' && "attn_norm.weight"@[5] == 'n');
    assert("ffn_norm.weight"@.len() == 15 && "ffn_norm.weight"@[4] == 'n' && "ffn_norm.weight"@[5] == 'o');
}

/// No two tensors share a name.
pub proof fn law_tensor_names_differ(layer: nat, part: int, other_layer: nat, other_part: int)
    requires
        0 <= part < BLOCK_TENSORS,
        0 <= other_part < BLOCK_TENSORS,
        tensor_name(layer, part) == tensor_name(other_layer, other_part),
    ensures
        layer == other_layer,
        part == other_part,
{
    reveal_strlit("blk.");
    reveal_strlit(".");
    let a = tensor_name(layer, part);
    let b = tensor_name(other_layer, other_part);
    let m = decimal(layer).len() as int;
    let n = decimal(other_layer).len() as int;
    assert(a[4 + m] == '.');
    assert(b[4 + n] == '.');
    if m < n {
        lemma_digits_have_no_dot(other_layer, m);
        assert(b[4 + m] == decimal(other_layer)[m]);
    }
    if n < m {
        lemma_digits_have_no_dot(layer, n);
        assert(a[4 + n] == decimal(layer)[n]);
    }
    assert(m == n);
    assert(decimal(layer) =~= a.subrange(4, 4 + m));
    assert(decimal(other_layer) =~= b.subrange(4, 4 + m));
    law_decimal_is_injective(layer, other_layer);
    assert(tensor_suffix(part) =~= a.subrange(5 + m, a.len() as int));
    assert(tensor_suffix(other_part) =~= b.subrange(5 + m, b.len() as int));
    lemma_suffixes_differ(part, other_part);
}

/// Whether a position must not see another: those behind it.
pub open spec fn hidden(i: int, j: int) -> u8 {
    if j > i {
        1
    } else {
        0
    }
}

/// The causal mask of `t` positions, row by row.
pub fn causal_mask(t: usize) -> (mask: Vec<u8>)
    requires
        t * t <= usize::MAX,
    ensures
        mask@.len() == t * t,
        forall|i: int, j: int|
            #![trigger hidden(i, j)]
            0 <= i < t && 0 <= j < t ==> mask@[i * t + j] == hidden(i, j),
{
    let mut mask: Vec<u8> = Vec::new();
    let mut i: usize = 0;
    while i < t
        invariant
            i <= t,
            mask@.len() == i * t,
            forall|a: int, b: int|
                #![trigger hidden(a, b)]
                0 <= a < i && 0 <= b < t ==> mask@[a * t + b] == hidden(a, b),
        decreases t - i,
    {
        let ghost rows = mask@;
        let mut j: usize = 0;
        while j < t
            invariant
                i < t,
                j <= t,
                rows.len() == i * t,
                mask@.len() == i * t + j,
                forall|b: int| 0 <= b < rows.len() ==> #[trigger] mask@[b] == rows[b],
                forall|b: int|
                    #![trigger hidden(i as int, b)]
                    0 <= b < j ==> mask@[i * t + b] == hidden(i as int, b),
            decreases t - j,
        {
            let bit: u8 = if j > i {
                1
            } else {
                0
            };
            mask.push(bit);
            j = j + 1;
        }
        proof {
            assert((i + 1) * t == i * t + t) by (nonlinear_arith);
            assert forall|a: int, b: int|
                #![trigger hidden(a, b)]
                0 <= a < i + 1 && 0 <= b < t implies mask@[a * t + b] == hidden(a, b) by {
                if a < i {
                    assert(0 <= a * t + b < i * t) by (nonlinear_arith)
                        requires
                            0 <= a < i,
                            0 <= b < t,
                    ;
                    assert(mask@[a * t + b] == rows[a * t + b]);
                } else {
                    assert(a * t == i * t);
                }
            }
        }
        i = i + 1;
    }
    mask
}

/// Whether a pass over `seq_len` positions needs a mask. A single position has none behind it.
pub fn needs_mask(seq_len: usize) -> (yes: bool)
    ensures
        yes == (seq_len != 1),
{
    seq_len != 1
}

/// What becomes of the keys and values of earlier positions.
#[derive(Clone, Copy, Debug, PartialEq, Eq, Structural)]
pub enum CacheStep {
    /// The new ones take their place.
    Replace,
    /// The new ones are put behind them.
    Append,
}

/// What becomes of the keys and values of earlier positions in a pass that starts at
/// `index_pos`.
pub fn cache_step(cached: bool, index_pos: usize) -> (s: CacheStep)
    ensures
        s == cache_rule(cached, index_pos as int),
{
    if cached && index_pos != 0 {
        CacheStep::Append
    } else {
        CacheStep::Replace
    }
}

/// What becomes of the keys and values of earlier positions: a pass that starts at the front, or
/// finds none, starts afresh.
pub open spec fn cache_rule(cached: bool, index_pos: int) -> CacheStep {
    if cached && index_pos != 0 {
        CacheStep::Append
    } else {
        CacheStep::Replace
    }
}

/// How many positions are cached after a pass over `seq_len` more, if `cached` were before.
pub open spec fn cached_after(cached: Option<nat>, index_pos: int, seq_len: nat) -> nat {
    match (cached, cache_rule(cached is Some, index_pos)) {
        (Some(n), CacheStep::Append) => n + seq_len,
        _ => seq_len,
    }
}

/// A text that is fed in order is cached in full: a pass that starts where the cache ends leaves
/// the cache to end where the pass does, and one that starts at the front drops what was there.
pub proof fn law_cache_follows_text(cached: Option<nat>, index_pos: nat, seq_len: nat)
    requires
        index_pos == 0 || cached == Some(index_pos),
    ensures
        cached_after(cached, index_pos as int, seq_len) == index_pos + seq_len,
{
}

/// How often each head of keys and values is repeated to serve all heads.
pub fn kv_repeats(head_count: usize, head_count_kv: usize) -> (n: usize)
    requires
        head_count_kv > 0,
    ensures
        n == head_count / head_count_kv,
{
    head_count / head_count_kv
}

/// The position whose result a pass gives: the last one.
pub fn last_position(seq_len: usize) -> (p: usize)
    requires
        seq_len > 0,
    ensures
        p == seq_len - 1,
{
    seq_len - 1
}

/// A position sees itself and what is before it: of two positions the earlier one does not see
/// the later one, and no position is hidden from itself.
pub proof fn law_mask_is_causal(i: int, j: int)
    ensures
        hidden(i, i) == 0,
        i < j ==> hidden(i, j) == 1 && hidden(j, i) == 0,
{
}

/// A model that has what it needs is always loaded: with a device, one expert at most and the
/// five keys, there is no problem.
pub proof fn law_complete_metadata_is_no_problem(meta: Metadata, n_devices: nat)
    requires
        n_devices > 0,
        meta.head_count is Value,
        meta.head_count_kv is Value,
        meta.block_count is Value,
        meta.embedding_length is Value,
        meta.rms_epsilon is Value,
    ensures
        problem(meta, n_devices) is None <==> (meta.expert_count matches Field::Value(n) ==> n
            <= 1),
{
}

/// What is reported is the first thing that is wrong. Without a device nothing else is looked
/// at, then several experts come before the keys, and the keys come in their order: each is
/// reported exactly where all before it are in order and it is not.
pub proof fn law_first_problem_is_reported(meta: Metadata, n_devices: nat)
    ensures
        n_devices == 0 <==> problem(meta, n_devices) == Some(PlanError::NoDevices),
        n_devices > 0 && (meta.expert_count matches Field::Value(n) && n > 1) <==> problem(
            meta,
            n_devices,
        ) == Some(PlanError::MixtureOfExperts),
        n_devices > 0 && (meta.expert_count matches Field::Value(n) ==> n <= 1) ==> {
            let found = problem(meta, n_devices);
            &&& meta.head_count is Missing ==> found == Some(PlanError::Missing(Key::HeadCount))
            &&& meta.head_count is WrongType ==> found == Some(
                PlanError::WrongType(Key::HeadCount),
            )
            &&& meta.head_count is Value ==> {
                &&& meta.head_count_kv is Missing ==> found == Some(
                    PlanError::Missing(Key::HeadCountKv),
                )
                &&& meta.head_count_kv is WrongType ==> found == Some(
                    PlanError::WrongType(Key::HeadCountKv),
                )
                &&& meta.head_count_kv is Value ==> {
                    &&& meta.block_count is Missing ==> found == Some(
                        PlanError::Missing(Key::BlockCount),
                    )
                    &&& meta.block_count is WrongType ==> found == Some(
                        PlanError::WrongType(Key::BlockCount),
                    )
                    &&& meta.block_count is Value ==> {
                        &&& meta.embedding_length is Missing ==> found == Some(
                            PlanError::Missing(Key::EmbeddingLength),
                        )
                        &&& meta.embedding_length is WrongType ==> found == Some(
                            PlanError::WrongType(Key::EmbeddingLength),
                        )
                        &&& meta.embedding_length is Value ==> {
                            &&& meta.rms_epsilon is Missing ==> found == Some(
                                PlanError::Missing(Key::RmsEpsilon),
                            )
                            &&& meta.rms_epsilon is WrongType ==> found == Some(
                                PlanError::WrongType(Key::RmsEpsilon),
                            )
                        }
                    }
                }
            }
        },
{
}

/// The name of a tensor tells its block and its part: `blk.`, the digits of the block's number, a
/// dot, and what the part is called. Of a projection, weight and bias are called alike up to that.
pub proof fn law_tensor_name_tells_its_place(layer: nat, part: int)
    ensures
        ({
            let name = tensor_name(layer, part);
            let dot = name.len() - tensor_suffix(part).len() - 1;
            &&& name.subrange(0, 4) == "blk."@
            &&& decimal_value(name.subrange(4, dot)) == layer
            &&& name[dot] == '.'
            &&& name.subrange(dot + 1, name.len() as int) == tensor_suffix(part)
        }),
        0 <= part < 3 ==> {
            let (weight, bias) = (tensor_suffix(part), tensor_suffix(part + 3));
            &&& weight.subrange(0, 7) == bias.subrange(0, 7)
            &&& weight.subrange(7, weight.len() as int) == "weight"@
            &&& bias.subrange(7, bias.len() as int) == "bias"@
        },
{
    reveal_strlit("blk.");
    reveal_strlit(".");
    reveal_strlit("attn_q.weight");
    reveal_strlit("attn_k.weight");
    reveal_strlit("attn_v.weight");
    reveal_strlit("attn_q.bias");
    reveal_strlit("attn_k.bias");
    reveal_strlit("attn_v.bias");
    reveal_strlit("weight");
    reveal_strlit("bias");
    law_decimal_has_its_value(layer);
    let name = tensor_name(layer, part);
    let dot = name.len() - tensor_suffix(part).len() - 1;
    assert(name.subrange(0, 4) =~= "blk."@);
    assert(name.subrange(4, dot) =~= decimal(layer));
    assert(name.subrange(dot + 1, name.len() as int) =~= tensor_suffix(part));
    if 0 <= part < 3 {
        let (weight, bias) = (tensor_suffix(part), tensor_suffix(part + 3));
        assert(weight.subrange(0, 7) =~= bias.subrange(0, 7));
        assert(weight.subrange(7, 13) =~= "weight"@);
        assert(bias.subrange(7, 11) =~= "bias"@);
    }
}

} // verus!
