use vstd::prelude::*;

verus! {

/// Fresh slots for a round: `quantity` slots of `slot_size` ants each, every
/// ant made by `make`.
pub fn setup_slots<T, F: Fn() -> T>(quantity: u32, slot_size: usize, make: F) -> (slots: Vec<Vec<T>>)
    requires
        call_requires(make, ()),
    ensures
        slots@.len() == quantity,
        forall|i: int| 0 <= i < quantity ==> #[trigger] slots@[i]@.len() == slot_size,
        forall|i: int, j: int|
            0 <= i < quantity && 0 <= j < slot_size ==> call_ensures(make, (), #[trigger] slots@[i]@[j]),
{
    let mut slots: Vec<Vec<T>> = Vec::new();
    let mut made: u32 = 0;
    while made < quantity
        invariant
            made <= quantity,
            call_requires(make, ()),
            slots@.len() == made,
            forall|i: int| 0 <= i < made ==> #[trigger] slots@[i]@.len() == slot_size,
            forall|i: int, j: int|
                0 <= i < made && 0 <= j < slot_size ==> call_ensures(make, (), #[trigger] slots@[i]@[j]),
        decreases quantity - made,
    {
        let mut slot: Vec<T> = Vec::new();
        let mut k: usize = 0;
        while k < slot_size
            invariant
                k <= slot_size,
                call_requires(make, ()),
                slot@.len() == k,
                forall|j: int| 0 <= j < k ==> call_ensures(make, (), #[trigger] slot@[j]),
            decreases slot_size - k,
        {
            slot.push(make());
            k += 1;
        }
        slots.push(slot);
        made += 1;
    }
    slots
}

} // verus!
