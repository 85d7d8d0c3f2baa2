//! Between sets of modifiers and the state of a key event.
//!
//! An X server reports the modifiers that are held as the bits of one
//! number, the state of the key event, and takes them in the same form. The
//! engine holds them as a set of masks of one bit each.

use crate::key::raw_values;
use crate::x::{Key, KeyInput, Modifier, Modifiers, XKeySymbol, XModifier};
use vstd::prelude::*;

verus! {

/// Whether bit `bit` of `mask` is set.
pub open spec fn has_bit(mask: u32, bit: u32) -> bool {
    mask & (1u32 << bit) != 0
}

/// The masks of the bits below `bits` that are set in `state`, from the
/// lowest bit up.
pub open spec fn masks_below(state: u32, bits: u32) -> Seq<XModifier>
    decreases bits,
{
    if bits == 0 {
        Seq::empty()
    } else {
        let below = masks_below(state, (bits - 1) as u32);
        if has_bit(state, (bits - 1) as u32) {
            below.push(1u32 << ((bits - 1) as u32))
        } else {
            below
        }
    }
}

/// Whether `state` holds exactly the bits of the masks in `modifiers`: a bit
/// is set in it when it is set in one of them, and only then.
pub open spec fn is_state_of(state: u32, modifiers: Set<XModifier>) -> bool {
    forall|bit: u32|
        bit < 32 ==> (#[trigger] has_bit(state, bit) <==> exists|modifier: XModifier|
            modifiers.contains(modifier) && has_bit(modifier, bit))
}

/// The modifiers that are held according to the state of a key event: one
/// for each bit that is set, from the lowest bit up.
pub fn modifiers_of_state(state: u32) -> (modifiers: Vec<Modifier>)
    ensures
        raw_values(modifiers@) == masks_below(state, 32),
{
    let mut modifiers: Vec<Modifier> = Vec::new();
    let mut i: u32 = 0;
    assert(raw_values(modifiers@) =~= masks_below(state, 0));
    while i < 32
        invariant
            i <= 32,
            raw_values(modifiers@) == masks_below(state, i),
        decreases 32 - i,
    {
        let ghost before = raw_values(modifiers@);
        let mask: u32 = 1u32 << i;
        if state & mask != 0 {
            modifiers.push(Modifier::new(mask));
            assert(raw_values(modifiers@) =~= before.push(mask));
        }
        i += 1;
    }
    modifiers
}

/// The key input of a key event with the key symbol `keysym` and the state
/// `state`.
pub fn key_input_of_event(keysym: XKeySymbol, state: u32) -> (key_input: KeyInput)
    ensures
        key_input@ == (crate::key::KeyInputView {
            key: keysym,
            modifiers: masks_below(state, 32).to_set(),
        }),
{
    proof {
        crate::laws::lemma_integer_laws();
    }
    KeyInput::new(Key::new(keysym), Modifiers::new(modifiers_of_state(state)))
}

/// The state of a key event in which the modifiers of `key_input` are held:
/// the masks of the modifiers, or-ed together.
pub fn state_of_modifiers(key_input: &KeyInput) -> (state: u32)
    ensures
        is_state_of(state, key_input@.modifiers),
{
    proof {
        crate::laws::lemma_integer_laws();
    }
    let modifiers = key_input.modifiers().to_vec();
    let ghost masks = raw_values(modifiers@);
    let mut state: u32 = 0;
    let mut i: usize = 0;
    assert forall|bit: u32| bit < 32 implies !#[trigger] has_bit(0u32, bit) by {
        assert(0u32 & (1u32 << bit) == 0) by (bit_vector);
    }
    while i < modifiers.len()
        invariant
            i <= modifiers.len(),
            masks == raw_values(modifiers@),
            forall|bit: u32|
                bit < 32 ==> (#[trigger] has_bit(state, bit) <==> exists|k: int|
                    0 <= k < i && has_bit(#[trigger] masks[k], bit)),
        decreases modifiers.len() - i,
    {
        let mask = modifiers[i].raw_value();
        let ghost before = state;
        assert(mask == masks[i as int]);
        state = state | mask;
        proof {
            assert forall|bit: u32| bit < 32 implies (#[trigger] has_bit(state, bit)
                <==> exists|k: int| 0 <= k < i + 1 && has_bit(#[trigger] masks[k], bit)) by {
                assert(((before | mask) & (1u32 << bit) != 0) <==> ((before & (1u32 << bit) != 0)
                    || (mask & (1u32 << bit) != 0))) by (bit_vector);
                if has_bit(mask, bit) {
                    assert(has_bit(masks[i as int], bit));
                }
                if has_bit(before, bit) {
                    let k = choose|k: int| 0 <= k < i && has_bit(#[trigger] masks[k], bit);
                    assert(has_bit(masks[k], bit));
                }
            }
        }
        i += 1;
    }
    proof {
        assert forall|bit: u32| bit < 32 implies (#[trigger] has_bit(state, bit) <==> exists|
            modifier: XModifier,
        |
            key_input@.modifiers.contains(modifier) && has_bit(modifier, bit)) by {
            if has_bit(state, bit) {
                let k = choose|k: int| 0 <= k < i && has_bit(#[trigger] masks[k], bit);
                assert(masks.contains(masks[k]));
                assert(key_input@.modifiers.contains(masks[k]));
            }
            if exists|modifier: XModifier|
                key_input@.modifiers.contains(modifier) && has_bit(modifier, bit) {
                let modifier = choose|modifier: XModifier|
                    key_input@.modifiers.contains(modifier) && has_bit(modifier, bit);
                assert(masks.to_set().contains(modifier));
                let k = choose|k: int| 0 <= k < masks.len() && masks[k] == modifier;
                assert(has_bit(masks[k], bit));
            }
        }
    }
    state
}

/// The masks below `bits` are the masks of the bits that are set in `state`.
proof fn lemma_masks_below_are_the_set_bits(state: u32, bits: u32)
    requires
        bits <= 32,
    ensures
        forall|mask: XModifier|
            masks_below(state, bits).contains(mask) <==> exists|bit: u32|
                bit < bits && has_bit(state, bit) && mask == 1u32 << bit,
    decreases bits,
{
    if bits > 0 {
        let last = (bits - 1) as u32;
        let below = masks_below(state, last);
        lemma_masks_below_are_the_set_bits(state, last);
        assert forall|mask: XModifier|
            masks_below(state, bits).contains(mask) <==> exists|bit: u32|
                bit < bits && has_bit(state, bit) && mask == 1u32 << bit by {
            if has_bit(state, last) {
                assert(masks_below(state, bits) == below.push(1u32 << last));
                assert(below.push(1u32 << last).contains(mask) <==> below.contains(mask) || mask
                    == 1u32 << last) by {
                    if below.contains(mask) {
                        let k = choose|k: int| 0 <= k < below.len() && below[k] == mask;
                        assert(below.push(1u32 << last)[k] == mask);
                    }
                    if mask == 1u32 << last {
                        assert(below.push(1u32 << last)[below.len() as int] == mask);
                    }
                }
            }
            if exists|bit: u32| bit < bits && has_bit(state, bit) && mask == 1u32 << bit {
                let bit = choose|bit: u32| bit < bits && has_bit(state, bit) && mask == 1u32 << bit;
                if bit < last {
                    assert(below.contains(mask));
                }
            }
            if below.contains(mask) {
                let bit = choose|bit: u32| bit < last && has_bit(state, bit) && mask == 1u32 << bit;
                assert(bit < bits);
            }
        }
    }
}

/// The modifiers that are held according to a state have that state: taking
/// a state apart and putting it together gives the same bits.
pub proof fn lemma_modifiers_of_state_have_the_state(state: u32)
    ensures
        is_state_of(state, masks_below(state, 32).to_set()),
{
    lemma_masks_below_are_the_set_bits(state, 32);
    let modifiers = masks_below(state, 32).to_set();
    assert forall|bit: u32| bit < 32 implies (#[trigger] has_bit(state, bit) <==> exists|
        modifier: XModifier,
    |
        modifiers.contains(modifier) && has_bit(modifier, bit)) by {
        if has_bit(state, bit) {
            let mask = 1u32 << bit;
            assert((1u32 << bit) & (1u32 << bit) != 0) by (bit_vector)
                requires
                    bit < 32,
            ;
            assert(masks_below(state, 32).contains(mask));
            assert(modifiers.contains(mask) && has_bit(mask, bit));
        }
        if exists|modifier: XModifier| modifiers.contains(modifier) && has_bit(modifier, bit) {
            let modifier = choose|modifier: XModifier|
                modifiers.contains(modifier) && has_bit(modifier, bit);
            assert(masks_below(state, 32).contains(modifier));
            let other = choose|other: u32|
                other < 32 && has_bit(state, other) && modifier == 1u32 << other;
            assert(other == bit) by (bit_vector)
                requires
                    other < 32,
                    bit < 32,
                    (1u32 << other) & (1u32 << bit) != 0,
            ;
        }
    }
}

/// Two numbers with the same bits are the same number.
proof fn lemma_same_bits(a: u32, b: u32)
    requires
        forall|bit: u32| bit < 32 ==> #[trigger] has_bit(a, bit) == has_bit(b, bit),
    ensures
        a == b,
{
    assert(has_bit(a, 0u32) == has_bit(b, 0u32));
    assert(has_bit(a, 1u32) == has_bit(b, 1u32));
    assert(has_bit(a, 2u32) == has_bit(b, 2u32));
    assert(has_bit(a, 3u32) == has_bit(b, 3u32));
    assert(has_bit(a, 4u32) == has_bit(b, 4u32));
    assert(has_bit(a, 5u32) == has_bit(b, 5u32));
    assert(has_bit(a, 6u32) == has_bit(b, 6u32));
    assert(has_bit(a, 7u32) == has_bit(b, 7u32));
    assert(has_bit(a, 8u32) == has_bit(b, 8u32));
    assert(has_bit(a, 9u32) == has_bit(b, 9u32));
    assert(has_bit(a, 10u32) == has_bit(b, 10u32));
    assert(has_bit(a, 11u32) == has_bit(b, 11u32));
    assert(has_bit(a, 12u32) == has_bit(b, 12u32));
    assert(has_bit(a, 13u32) == has_bit(b, 13u32));
    assert(has_bit(a, 14u32) == has_bit(b, 14u32));
    assert(has_bit(a, 15u32) == has_bit(b, 15u32));
    assert(has_bit(a, 16u32) == has_bit(b, 16u32));
    assert(has_bit(a, 17u32) == has_bit(b, 17u32));
    assert(has_bit(a, 18u32) == has_bit(b, 18u32));
    assert(has_bit(a, 19u32) == has_bit(b, 19u32));
    assert(has_bit(a, 20u32) == has_bit(b, 20u32));
    assert(has_bit(a, 21u32) == has_bit(b, 21u32));
    assert(has_bit(a, 22u32) == has_bit(b, 22u32));
    assert(has_bit(a, 23u32) == has_bit(b, 23u32));
    assert(has_bit(a, 24u32) == has_bit(b, 24u32));
    assert(has_bit(a, 25u32) == has_bit(b, 25u32));
    assert(has_bit(a, 26u32) == has_bit(b, 26u32));
    assert(has_bit(a, 27u32) == has_bit(b, 27u32));
    assert(has_bit(a, 28u32) == has_bit(b, 28u32));
    assert(has_bit(a, 29u32) == has_bit(b, 29u32));
    assert(has_bit(a, 30u32) == has_bit(b, 30u32));
    assert(has_bit(a, 31u32) == has_bit(b, 31u32));
    assert(a == b) by (bit_vector)
        requires
            (a & (1u32 << 0u32) != 0) == (b & (1u32 << 0u32) != 0),
            (a & (1u32 << 1u32) != 0) == (b & (1u32 << 1u32) != 0),
            (a & (1u32 << 2u32) != 0) == (b & (1u32 << 2u32) != 0),
            (a & (1u32 << 3u32) != 0) == (b & (1u32 << 3u32) != 0),
            (a & (1u32 << 4u32) != 0) == (b & (1u32 << 4u32) != 0),
            (a & (1u32 << 5u32) != 0) == (b & (1u32 << 5u32) != 0),
            (a & (1u32 << 6u32) != 0) == (b & (1u32 << 6u32) != 0),
            (a & (1u32 << 7u32) != 0) == (b & (1u32 << 7u32) != 0),
            (a & (1u32 << 8u32) != 0) == (b & (1u32 << 8u32) != 0),
            (a & (1u32 << 9u32) != 0) == (b & (1u32 << 9u32) != 0),
            (a & (1u32 << 10u32) != 0) == (b & (1u32 << 10u32) != 0),
            (a & (1u32 << 11u32) != 0) == (b & (1u32 << 11u32) != 0),
            (a & (1u32 << 12u32) != 0) == (b & (1u32 << 12u32) != 0),
            (a & (1u32 << 13u32) != 0) == (b & (1u32 << 13u32) != 0),
            (a & (1u32 << 14u32) != 0) == (b & (1u32 << 14u32) != 0),
            (a & (1u32 << 15u32) != 0) == (b & (1u32 << 15u32) != 0),
            (a & (1u32 << 16u32) != 0) == (b & (1u32 << 16u32) != 0),
            (a & (1u32 << 17u32) != 0) == (b & (1u32 << 17u32) != 0),
            (a & (1u32 << 18u32) != 0) == (b & (1u32 << 18u32) != 0),
            (a & (1u32 << 19u32) != 0) == (b & (1u32 << 19u32) != 0),
            (a & (1u32 << 20u32) != 0) == (b & (1u32 << 20u32) != 0),
            (a & (1u32 << 21u32) != 0) == (b & (1u32 << 21u32) != 0),
            (a & (1u32 << 22u32) != 0) == (b & (1u32 << 22u32) != 0),
            (a & (1u32 << 23u32) != 0) == (b & (1u32 << 23u32) != 0),
            (a & (1u32 << 24u32) != 0) == (b & (1u32 << 24u32) != 0),
            (a & (1u32 << 25u32) != 0) == (b & (1u32 << 25u32) != 0),
            (a & (1u32 << 26u32) != 0) == (b & (1u32 << 26u32) != 0),
            (a & (1u32 << 27u32) != 0) == (b & (1u32 << 27u32) != 0),
            (a & (1u32 << 28u32) != 0) == (b & (1u32 << 28u32) != 0),
            (a & (1u32 << 29u32) != 0) == (b & (1u32 << 29u32) != 0),
            (a & (1u32 << 30u32) != 0) == (b & (1u32 << 30u32) != 0),
            (a & (1u32 << 31u32) != 0) == (b & (1u32 << 31u32) != 0),
    ;
}

/// A set of modifiers has one state only.
pub proof fn lemma_state_of_modifiers_is_unique(a: u32, b: u32, modifiers: Set<XModifier>)
    requires
        is_state_of(a, modifiers),
        is_state_of(b, modifiers),
    ensures
        a == b,
{
    assert forall|bit: u32| bit < 32 implies #[trigger] has_bit(a, bit) == has_bit(b, bit) by {
        assert(has_bit(a, bit) <==> exists|modifier: XModifier|
            modifiers.contains(modifier) && has_bit(modifier, bit));
        assert(has_bit(b, bit) <==> exists|modifier: XModifier|
            modifiers.contains(modifier) && has_bit(modifier, bit));
    }
    lemma_same_bits(a, b);
}

} // verus!
