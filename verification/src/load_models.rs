//! What a checkpoint must hold for a model.

use vstd::prelude::*;
use vstd::utf8::*;

pub use crate::archive::load_npz;
pub use crate::npz::{
    dtype_size, parse_npy_bytes, parse_npy_dtype, parse_npy_shape, Dtype, LoadError, NpyArray,
};

use crate::numbers::{decimal, decimal_chars};
use crate::table::ByteTable;
use crate::text::{chars_of, slice_to_vec, string_of, utf8_is_injective};
use crate::whisper::ModelDimensions;

verus! {

/// The files that a model's weights may be in.
#[derive(Clone, Copy, Debug, PartialEq, Eq, Structural)]
pub enum WeightsFile {
    Safetensors,
    Npz,
}

impl WeightsFile {
    /// The file's name.
    pub open spec fn name(self) -> Seq<char> {
        match self {
            WeightsFile::Safetensors => "weights.safetensors"@,
            WeightsFile::Npz => "weights.npz"@,
        }
    }

    /// The file's name.
    pub fn file_name(&self) -> (r: &'static str)
        ensures
            r@ == self.name(),
    {
        match self {
            WeightsFile::Safetensors => "weights.safetensors",
            WeightsFile::Npz => "weights.npz",
        }
    }
}

/// Which file to take the weights from, by which of them there are. `weights.safetensors` goes
/// first.
pub fn choose_weights(has_safetensors: bool, has_npz: bool) -> (r: Option<WeightsFile>)
    ensures
        r == (if has_safetensors {
            Some(WeightsFile::Safetensors)
        } else if has_npz {
            Some(WeightsFile::Npz)
        } else {
            None
        }),
{
    if has_safetensors {
        Some(WeightsFile::Safetensors)
    } else if has_npz {
        Some(WeightsFile::Npz)
    } else {
        None
    }
}

/// The names of the weights of a checkpoint, and whether it is said to be quantized.
pub struct Checkpoint {
    pub names: ByteTable,
    pub quantized: bool,
}

impl Checkpoint {
    /// Whether the checkpoint holds a weight.
    pub open spec fn holds(self, key: Seq<char>) -> bool {
        self.names@.contains_key(encode_utf8(key))
    }

    /// Whether a module is quantized: the checkpoint is, and holds the module's scales.
    pub open spec fn packed(self, prefix: Seq<char>) -> bool {
        self.quantized && self.holds(prefix + ".scales"@)
    }

    /// Takes the names of the weights of a checkpoint.
    pub fn new(names: &Vec<String>, quantized: bool) -> (r: Self)
        ensures
            r.quantized == quantized,
            forall|key: Seq<char>| #[trigger]
                r.holds(key) <==> exists|i: int| 0 <= i < names@.len() && names@[i]@ == key,
    {
        let mut table = ByteTable::new();
        let mut i: usize = 0;
        while i < names.len()
            invariant
                i <= names@.len(),
                forall|b: Seq<u8>| #[trigger]
                    table@.contains_key(b) <==> exists|j: int|
                        0 <= j < i && encode_utf8((#[trigger] names@[j])@) == b,
            decreases names@.len() - i,
        {
            let ghost before = table@;
            table.insert(names[i].as_str().as_bytes(), 0);
            i += 1;
            assert forall|b: Seq<u8>| #[trigger] table@.contains_key(b) <==> exists|j: int|
                0 <= j < i && encode_utf8((#[trigger] names@[j])@) == b by {
                if before.contains_key(b) {
                    let j = choose|j: int|
                        0 <= j < i - 1 && encode_utf8((#[trigger] names@[j])@) == b;
                    assert(0 <= j < i && encode_utf8(names@[j]@) == b);
                }
                if b == encode_utf8(names@[i - 1]@) {
                    assert(0 <= i - 1 < i && encode_utf8(names@[i - 1]@) == b);
                }
            }
        }
        let r = Checkpoint { names: table, quantized };
        assert forall|key: Seq<char>| #[trigger] r.holds(key) <==> exists|i: int|
            0 <= i < names@.len() && names@[i]@ == key by {
            if r.holds(key) {
                let j = choose|j: int|
                    0 <= j < names@.len() && encode_utf8((#[trigger] names@[j])@) == encode_utf8(
                        key,
                    );
                utf8_is_injective(names@[j]@, key);
            }
            if exists|i: int| 0 <= i < names@.len() && names@[i]@ == key {
                let j = choose|i: int| 0 <= i < names@.len() && names@[i]@ == key;
                assert(encode_utf8(names@[j]@) == encode_utf8(key));
            }
        }
        r
    }

    /// Whether the checkpoint holds a weight.
    pub fn has(&self, key: &str) -> (r: bool)
        ensures
            r == self.holds(key@),
    {
        self.names.get(key.as_bytes()).is_some()
    }

    /// Whether a module is quantized.
    pub fn is_packed(&self, prefix: &str) -> (r: bool)
        ensures
            r == self.packed(prefix@),
    {
        let chars = chars_of(prefix);
        let key = with_suffix(&chars, ".scales");
        self.quantized && self.has(key.as_str())
    }
}

/// A text with an ending.
fn with_suffix(prefix: &[char], suffix: &str) -> (r: String)
    ensures
        r@ == prefix@ + suffix@,
{
    let mut key = slice_to_vec(prefix);
    let end = chars_of(suffix);
    key.extend_from_slice(&end);
    string_of(&key)
}

/// The name of a part of a module.
fn part(prefix: &[char], suffix: &str) -> (r: Vec<char>)
    ensures
        r@ == prefix@ + suffix@,
{
    let mut key = slice_to_vec(prefix);
    let end = chars_of(suffix);
    key.extend_from_slice(&end);
    key
}

/// A place for a weight in a model, and whether it must be filled.
pub struct WeightSlot {
    pub key: String,
    pub required: bool,
}

/// Slots, taken by their contents.
pub open spec fn slot_views(slots: Seq<WeightSlot>) -> Seq<(Seq<char>, bool)> {
    slots.map_values(|s: WeightSlot| (s.key@, s.required))
}

/// The slots of a linear layer: its weight, and a bias where there is one. A quantized layer has
/// scales and offsets besides.
pub open spec fn linear_slots(c: Checkpoint, prefix: Seq<char>) -> Seq<(Seq<char>, bool)> {
    if c.packed(prefix) {
        seq![
            (prefix + ".weight"@, true),
            (prefix + ".scales"@, true),
            (prefix + ".biases"@, true),
            (prefix + ".bias"@, false),
        ]
    } else {
        seq![(prefix + ".weight"@, true), (prefix + ".bias"@, false)]
    }
}

/// The slots of a convolution.
pub open spec fn conv_slots(prefix: Seq<char>) -> Seq<(Seq<char>, bool)> {
    seq![(prefix + ".weight"@, true), (prefix + ".bias"@, false)]
}

/// The slots of a layer norm.
pub open spec fn norm_slots(prefix: Seq<char>) -> Seq<(Seq<char>, bool)> {
    seq![(prefix + ".weight"@, true), (prefix + ".bias"@, true)]
}

/// The slots of an attention layer.
pub open spec fn attention_slots(c: Checkpoint, prefix: Seq<char>) -> Seq<(Seq<char>, bool)> {
    linear_slots(c, prefix + ".query"@) + linear_slots(c, prefix + ".key"@) + linear_slots(
        c,
        prefix + ".value"@,
    ) + linear_slots(c, prefix + ".out"@)
}

/// The slots of a block; a block of the decoder attends to the audio besides.
pub open spec fn block_slots(c: Checkpoint, prefix: Seq<char>, cross: bool) -> Seq<
    (Seq<char>, bool),
> {
    attention_slots(c, prefix + ".attn"@) + norm_slots(prefix + ".attn_ln"@) + (if cross {
        attention_slots(c, prefix + ".cross_attn"@) + norm_slots(prefix + ".cross_attn_ln"@)
    } else {
        seq![]
    }) + linear_slots(c, prefix + ".mlp1"@) + linear_slots(c, prefix + ".mlp2"@) + norm_slots(
        prefix + ".mlp_ln"@,
    )
}

/// The slots of the first `n` blocks.
pub open spec fn blocks_slots(c: Checkpoint, prefix: Seq<char>, n: nat, cross: bool) -> Seq<
    (Seq<char>, bool),
>
    decreases n,
{
    if n == 0 {
        seq![]
    } else {
        blocks_slots(c, prefix, (n - 1) as nat, cross) + block_slots(
            c,
            prefix + decimal((n - 1) as nat),
            cross,
        )
    }
}

/// The slots of the token embedding, which is filled where the checkpoint holds it.
pub open spec fn embedding_slots(c: Checkpoint, prefix: Seq<char>) -> Seq<(Seq<char>, bool)> {
    if c.packed(prefix) {
        seq![
            (prefix + ".weight"@, true),
            (prefix + ".scales"@, true),
            (prefix + ".biases"@, true),
        ]
    } else {
        seq![(prefix + ".weight"@, false)]
    }
}

/// The slots of a model, in the order in which they are filled.
pub open spec fn model_slots(c: Checkpoint, dims: ModelDimensions) -> Seq<(Seq<char>, bool)> {
    conv_slots("encoder.conv1"@) + conv_slots("encoder.conv2"@) + norm_slots("encoder.ln_post"@)
        + blocks_slots(c, "encoder.blocks."@, dims.n_audio_layer as nat, false) + embedding_slots(
        c,
        "decoder.token_embedding"@,
    ) + seq![("decoder.positional_embedding"@, false)] + norm_slots("decoder.ln"@) + blocks_slots(
        c,
        "decoder.blocks."@,
        dims.n_text_layer as nat,
        true,
    ) + seq![("alignment_heads"@, false)]
}

/// The first slot that must be filled and is not in the checkpoint.
pub open spec fn first_missing(c: Checkpoint, slots: Seq<(Seq<char>, bool)>) -> Option<Seq<char>>
    decreases slots.len(),
{
    if slots.len() == 0 {
        None
    } else if slots[0].1 && !c.holds(slots[0].0) {
        Some(slots[0].0)
    } else {
        first_missing(c, slots.drop_first())
    }
}

/// A model can be loaded if and only if no slot that must be filled is missing.
pub proof fn nothing_missing(c: Checkpoint, slots: Seq<(Seq<char>, bool)>)
    ensures
        first_missing(c, slots) is None <==> forall|i: int|
            0 <= i < slots.len() && (#[trigger] slots[i]).1 ==> c.holds(slots[i].0),
    decreases slots.len(),
{
    if slots.len() > 0 {
        let rest = slots.drop_first();
        nothing_missing(c, rest);
        assert forall|i: int| 0 < i < slots.len() implies #[trigger] slots[i] == rest[i - 1] by {}
        if first_missing(c, slots) is None {
            assert forall|i: int| 0 <= i < slots.len() && (#[trigger] slots[i]).1 implies c.holds(
                slots[i].0,
            ) by {
                if i > 0 {
                    assert(slots[i] == rest[i - 1]);
                }
            }
        } else if forall|i: int|
            0 <= i < slots.len() && (#[trigger] slots[i]).1 ==> c.holds(slots[i].0) {
            assert forall|i: int| 0 <= i < rest.len() && (#[trigger] rest[i]).1 implies c.holds(
                rest[i].0,
            ) by {
                assert(rest[i] == slots[i + 1]);
            }
            assert(slots[0].1 ==> c.holds(slots[0].0));
        }
    }
}

/// Adds a slot.
fn add_slot(slots: &mut Vec<WeightSlot>, prefix: &[char], suffix: &str, required: bool)
    ensures
        slot_views(final(slots)@) == slot_views(old(slots)@).push((prefix@ + suffix@, required)),
{
    let ghost before = slot_views(slots@);
    slots.push(WeightSlot { key: with_suffix(prefix, suffix), required });
    assert(slot_views(slots@) =~= before.push((prefix@ + suffix@, required)));
}

/// Adds the slots of a linear layer.
fn add_linear(slots: &mut Vec<WeightSlot>, c: &Checkpoint, prefix: &[char])
    ensures
        slot_views(final(slots)@) == slot_views(old(slots)@) + linear_slots(*c, prefix@),
{
    let ghost before = slot_views(slots@);
    let name = string_of(prefix);
    add_slot(slots, prefix, ".weight", true);
    if c.is_packed(name.as_str()) {
        add_slot(slots, prefix, ".scales", true);
        add_slot(slots, prefix, ".biases", true);
    }
    add_slot(slots, prefix, ".bias", false);
    assert(slot_views(slots@) =~= before + linear_slots(*c, prefix@));
}

/// Adds the slots of a convolution.
fn add_conv(slots: &mut Vec<WeightSlot>, prefix: &[char])
    ensures
        slot_views(final(slots)@) == slot_views(old(slots)@) + conv_slots(prefix@),
{
    let ghost before = slot_views(slots@);
    add_slot(slots, prefix, ".weight", true);
    add_slot(slots, prefix, ".bias", false);
    assert(slot_views(slots@) =~= before + conv_slots(prefix@));
}

/// Adds the slots of a layer norm.
fn add_norm(slots: &mut Vec<WeightSlot>, prefix: &[char])
    ensures
        slot_views(final(slots)@) == slot_views(old(slots)@) + norm_slots(prefix@),
{
    let ghost before = slot_views(slots@);
    add_slot(slots, prefix, ".weight", true);
    add_slot(slots, prefix, ".bias", true);
    assert(slot_views(slots@) =~= before + norm_slots(prefix@));
}

/// Adds the slots of an attention layer.
fn add_attention(slots: &mut Vec<WeightSlot>, c: &Checkpoint, prefix: &[char])
    ensures
        slot_views(final(slots)@) == slot_views(old(slots)@) + attention_slots(*c, prefix@),
{
    let ghost before = slot_views(slots@);
    add_linear(slots, c, &part(prefix, ".query"));
    add_linear(slots, c, &part(prefix, ".key"));
    add_linear(slots, c, &part(prefix, ".value"));
    add_linear(slots, c, &part(prefix, ".out"));
    assert(slot_views(slots@) =~= before + attention_slots(*c, prefix@));
}

/// Adds the slots of a block.
fn add_block(slots: &mut Vec<WeightSlot>, c: &Checkpoint, prefix: &[char], cross: bool)
    ensures
        slot_views(final(slots)@) == slot_views(old(slots)@) + block_slots(*c, prefix@, cross),
{
    let ghost before = slot_views(slots@);
    add_attention(slots, c, &part(prefix, ".attn"));
    add_norm(slots, &part(prefix, ".attn_ln"));
    if cross {
        add_attention(slots, c, &part(prefix, ".cross_attn"));
        add_norm(slots, &part(prefix, ".cross_attn_ln"));
    }
    add_linear(slots, c, &part(prefix, ".mlp1"));
    add_linear(slots, c, &part(prefix, ".mlp2"));
    add_norm(slots, &part(prefix, ".mlp_ln"));
    assert(slot_views(slots@) =~= before + block_slots(*c, prefix@, cross));
}

/// Adds the slots of blocks.
fn add_blocks(slots: &mut Vec<WeightSlot>, c: &Checkpoint, prefix: &str, n: usize, cross: bool)
    ensures
        slot_views(final(slots)@) == slot_views(old(slots)@) + blocks_slots(
            *c,
            prefix@,
            n as nat,
            cross,
        ),
{
    let ghost before = slot_views(slots@);
    let head = chars_of(prefix);
    let mut i: usize = 0;
    assert(before + blocks_slots(*c, prefix@, 0, cross) =~= before);
    while i < n
        invariant
            i <= n,
            head@ == prefix@,
            slot_views(slots@) == before + blocks_slots(*c, prefix@, i as nat, cross),
        decreases n - i,
    {
        let mut name = slice_to_vec(&head);
        let digits = decimal_chars(i as u64);
        name.extend_from_slice(&digits);
        assert(name@ =~= prefix@ + decimal(i as nat));
        add_block(slots, c, &name, cross);
        i += 1;
        assert(slot_views(slots@) =~= before + blocks_slots(*c, prefix@, i as nat, cross));
    }
}

/// Lists the slots of a model, in the order in which they are filled.
pub fn weight_slots(c: &Checkpoint, dims: &ModelDimensions) -> (r: Vec<WeightSlot>)
    ensures
        slot_views(r@) == model_slots(*c, *dims),
{
    let mut slots: Vec<WeightSlot> = Vec::new();
    assert(slot_views(slots@) =~= Seq::<(Seq<char>, bool)>::empty());
    add_conv(&mut slots, &chars_of("encoder.conv1"));
    add_conv(&mut slots, &chars_of("encoder.conv2"));
    add_norm(&mut slots, &chars_of("encoder.ln_post"));
    add_blocks(&mut slots, c, "encoder.blocks.", dims.n_audio_layer, false);
    let ghost encoder = slot_views(slots@);
    let embedding = chars_of("decoder.token_embedding");
    if c.is_packed("decoder.token_embedding") {
        add_slot(&mut slots, &embedding, ".weight", true);
        add_slot(&mut slots, &embedding, ".scales", true);
        add_slot(&mut slots, &embedding, ".biases", true);
    } else {
        add_slot(&mut slots, &embedding, ".weight", false);
    }
    assert(slot_views(slots@) =~= encoder + embedding_slots(*c, "decoder.token_embedding"@));
    let ghost so_far = slot_views(slots@);
    let positional = chars_of("decoder.positional_embedding");
    add_slot(&mut slots, &positional, "", false);
    proof {
        reveal_strlit("");
        assert(positional@ + ""@ =~= positional@);
    }
    add_norm(&mut slots, &chars_of("decoder.ln"));
    add_blocks(&mut slots, c, "decoder.blocks.", dims.n_text_layer, true);
    let heads = chars_of("alignment_heads");
    add_slot(&mut slots, &heads, "", false);
    assert(heads@ + ""@ =~= heads@);
    assert(slot_views(slots@) =~= model_slots(*c, *dims));
    slots
}

/// Finds the first slot that must be filled and is not in the checkpoint.
pub fn missing_weight(c: &Checkpoint, slots: &Vec<WeightSlot>) -> (r: Option<String>)
    ensures
        match r {
            Some(key) => first_missing(*c, slot_views(slots@)) == Some(key@),
            None => first_missing(*c, slot_views(slots@)) is None,
        },
{
    let ghost all = slot_views(slots@);
    let mut i: usize = 0;
    assert(all.skip(0) =~= all);
    while i < slots.len()
        invariant
            i <= slots@.len(),
            all == slot_views(slots@),
            first_missing(*c, all) == first_missing(*c, all.skip(i as int)),
        decreases slots@.len() - i,
    {
        assert(all.skip(i as int)[0] == (slots@[i as int].key@, slots@[i as int].required));
        if slots[i].required && !c.has(slots[i].key.as_str()) {
            return Some(slots[i].key.clone());
        }
        assert(all.skip(i as int).drop_first() =~= all.skip(i + 1));
        i += 1;
    }
    None
}

} // verus!
