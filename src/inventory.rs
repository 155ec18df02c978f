//! The player's inventory: slots holding stacks of items, and crafting
//! recipes.

use vstd::prelude::*;

verus! {

/// What an item is for.
#[derive(Clone, Copy, Debug, PartialEq, Eq, Structural)]
pub enum ItemType {
    /// Places the block with this id.
    Block(u32),
    Tool,
    Miscellaneous,
}

#[derive(Clone, Copy, Debug, PartialEq, Eq, Structural)]
pub struct Item {
    pub id: u32,
    pub item_type: ItemType,
    /// Most items one slot can hold.
    pub max_stack: u32,
}

/// One slot: an item and how many of it, or nothing.
#[derive(Clone, Copy, Debug, PartialEq, Eq, Structural)]
pub struct ItemSlot {
    pub item: Option<Item>,
    pub amount: u32,
}

/// The empty slot.
pub open spec fn empty_slot() -> ItemSlot {
    ItemSlot { item: None, amount: 0 }
}

/// Slot `s` holds `item` and has room for one more.
pub open spec fn stackable(s: ItemSlot, item: Item) -> bool {
    s.item == Some(item) && s.amount < item.max_stack
}

/// How many of `item` the slots hold in all.
pub open spec fn count_of(slots: Seq<ItemSlot>, item: Item) -> int
    decreases slots.len(),
{
    if slots.len() == 0 {
        0
    } else {
        count_of(slots.drop_last(), item) + if slots.last().item == Some(item) {
            slots.last().amount as int
        } else {
            0
        }
    }
}

/// Index of the first slot of `slots` that satisfies `f`.
pub open spec fn is_first(slots: Seq<ItemSlot>, i: int, f: spec_fn(ItemSlot) -> bool) -> bool {
    &&& 0 <= i < slots.len()
    &&& f(slots[i])
    &&& forall|j: int| 0 <= j < i ==> !f(#[trigger] slots[j])
}

/// Slot `s` after one item is taken out: one fewer, emptied at the last.
pub open spec fn taken_one(s: ItemSlot) -> ItemSlot {
    if s.amount > 1 {
        ItemSlot { item: s.item, amount: (s.amount - 1) as u32 }
    } else {
        empty_slot()
    }
}

/// Slot `s` after one item is taken out.
fn take_one(s: ItemSlot) -> (r: ItemSlot)
    ensures
        r == taken_one(s),
{
    if s.amount > 1 {
        ItemSlot { item: s.item, amount: s.amount - 1 }
    } else {
        ItemSlot::new()
    }
}

/// One more than the largest amount a caller can ask for.
const COUNT_CAP: u64 = 0x1_0000_0000;

impl ItemSlot {
    pub fn new() -> (r: ItemSlot)
        ensures
            r == empty_slot(),
    {
        ItemSlot { item: None, amount: 0 }
    }

    /// Empties the slot.
    pub fn clear(&mut self)
        ensures
            *final(self) == empty_slot(),
    {
        self.amount = 0;
        self.item = None;
    }
}

pub struct Inventory {
    pub items: Vec<ItemSlot>,
}

impl Inventory {
    /// An inventory of `size` empty slots.
    pub fn new(size: usize) -> (r: Inventory)
        ensures
            r.items@ == Seq::new(size as nat, |i: int| empty_slot()),
    {
        let mut items: Vec<ItemSlot> = Vec::new();
        let mut i: usize = 0;
        while i < size
            invariant
                i <= size,
                items@ == Seq::new(i as nat, |k: int| empty_slot()),
            decreases size - i,
        {
            items.push(ItemSlot::new());
            i = i + 1;
            assert(items@ =~= Seq::new(i as nat, |k: int| empty_slot()));
        }
        Inventory { items }
    }

    /// Whether one more `item` fits: some slot holding it has room, or some
    /// slot is empty.
    pub fn has_room(&self, item: Item) -> (r: bool)
        ensures
            r == ((exists|i: int| 0 <= i < self.items@.len() && stackable(#[trigger] self.items@[i], item))
                || (exists|i: int| 0 <= i < self.items@.len() && (#[trigger] self.items@[i]).item is None)),
    {
        let mut i: usize = 0;
        while i < self.items.len()
            invariant
                i <= self.items@.len(),
                forall|j: int| 0 <= j < i ==> !stackable(#[trigger] self.items@[j], item),
            decreases self.items@.len() - i,
        {
            let s = self.items[i];
            if s.item == Some(item) && s.amount < item.max_stack {
                return true;
            }
            i = i + 1;
        }
        let mut k: usize = 0;
        while k < self.items.len()
            invariant
                k <= self.items@.len(),
                forall|j: int| 0 <= j < self.items@.len() ==> !stackable(#[trigger] self.items@[j], item),
                forall|j: int| 0 <= j < k ==> (#[trigger] self.items@[j]).item is Some,
            decreases self.items@.len() - k,
        {
            if self.items[k].item.is_none() {
                return true;
            }
            k = k + 1;
        }
        false
    }

    /// Adds one `item`: to the first slot holding it with room, else into
    /// the first empty slot; when neither exists nothing changes.
    pub fn add_item(&mut self, item: Item)
        ensures
            (exists|i: int| 0 <= i < old(self).items@.len() && stackable(#[trigger] old(self).items@[i], item))
                ==> exists|i: int|
                is_first(old(self).items@, i, |s: ItemSlot| stackable(s, item)) && final(self).items@
                    == old(self).items@.update(
                    i,
                    ItemSlot { item: Some(item), amount: (old(self).items@[i].amount + 1) as u32 },
                ),
            !(exists|i: int| 0 <= i < old(self).items@.len() && stackable(#[trigger] old(self).items@[i], item))
                && (exists|i: int| 0 <= i < old(self).items@.len() && (#[trigger] old(self).items@[i]).item is None)
                ==> exists|i: int|
                is_first(old(self).items@, i, |s: ItemSlot| s.item is None) && final(self).items@
                    == old(self).items@.update(i, ItemSlot { item: Some(item), amount: 1 }),
            !(exists|i: int| 0 <= i < old(self).items@.len() && stackable(#[trigger] old(self).items@[i], item))
                && !(exists|i: int| 0 <= i < old(self).items@.len() && (#[trigger] old(self).items@[i]).item is None)
                ==> final(self).items@ == old(self).items@,
    {
        let mut i: usize = 0;
        while i < self.items.len()
            invariant
                i <= self.items@.len(),
                self.items@ == old(self).items@,
                forall|j: int| 0 <= j < i ==> !stackable(#[trigger] self.items@[j], item),
            decreases self.items@.len() - i,
        {
            let s = self.items[i];
            if s.item == Some(item) && s.amount < item.max_stack {
                self.items.set(i, ItemSlot { item: Some(item), amount: s.amount + 1 });
                proof {
                    assert(is_first(old(self).items@, i as int, |s: ItemSlot| stackable(s, item)));
                }
                return;
            }
            i = i + 1;
        }
        let mut k: usize = 0;
        while k < self.items.len()
            invariant
                k <= self.items@.len(),
                self.items@ == old(self).items@,
                forall|j: int| 0 <= j < self.items@.len() ==> !stackable(#[trigger] self.items@[j], item),
                forall|j: int| 0 <= j < k ==> (#[trigger] self.items@[j]).item is Some,
            decreases self.items@.len() - k,
        {
            if self.items[k].item.is_none() {
                self.items.set(k, ItemSlot { item: Some(item), amount: 1 });
                proof {
                    assert(is_first(old(self).items@, k as int, |s: ItemSlot| s.item is None));
                }
                return;
            }
            k = k + 1;
        }
    }

    /// Whether the slots hold at least `amount` of `item` in all.
    pub fn has_item(&self, item: Item, amount: u32) -> (r: bool)
        ensures
            r == (count_of(self.items@, item) >= amount),
    {
        let mut sum: u64 = 0;
        let mut i: usize = 0;
        while i < self.items.len()
            invariant
                i <= self.items@.len(),
                sum == if count_of(self.items@.subrange(0, i as int), item) < COUNT_CAP {
                    count_of(self.items@.subrange(0, i as int), item)
                } else {
                    COUNT_CAP as int
                },
                0 <= count_of(self.items@.subrange(0, i as int), item),
            decreases self.items@.len() - i,
        {
            let s = self.items[i];
            proof {
                assert(self.items@.subrange(0, i + 1).drop_last() =~= self.items@.subrange(0, i as int));
                assert(self.items@.subrange(0, i + 1).last() == s);
            }
            if s.item == Some(item) {
                sum = if sum + s.amount as u64 >= COUNT_CAP {
                    COUNT_CAP
                } else {
                    sum + s.amount as u64
                };
            }
            i = i + 1;
        }
        proof {
            assert(self.items@.subrange(0, self.items@.len() as int) =~= self.items@);
        }
        sum >= amount as u64
    }

    /// Takes one `item` out of the first slot holding it; nothing changes
    /// when no slot does.
    pub fn remove_item(&mut self, item: Item)
        ensures
            (exists|i: int| 0 <= i < old(self).items@.len() && (#[trigger] old(self).items@[i]).item == Some(item))
                ==> exists|i: int|
                is_first(old(self).items@, i, |s: ItemSlot| s.item == Some(item)) && final(self).items@
                    == old(self).items@.update(i, taken_one(old(self).items@[i])),
            !(exists|i: int| 0 <= i < old(self).items@.len() && (#[trigger] old(self).items@[i]).item == Some(item))
                ==> final(self).items@ == old(self).items@,
    {
        let mut i: usize = 0;
        while i < self.items.len()
            invariant
                i <= self.items@.len(),
                self.items@ == old(self).items@,
                forall|j: int| 0 <= j < i ==> (#[trigger] self.items@[j]).item != Some(item),
            decreases self.items@.len() - i,
        {
            let s = self.items[i];
            if s.item == Some(item) {
                self.items.set(i, take_one(s));
                proof {
                    assert(is_first(old(self).items@, i as int, |s: ItemSlot| s.item == Some(item)));
                }
                return;
            }
            i = i + 1;
        }
    }

    /// Takes one item out of slot `slot_id`.
    pub fn remove_item_from_slot(&mut self, slot_id: usize)
        requires
            slot_id < old(self).items@.len(),
        ensures
            final(self).items@ == old(self).items@.update(slot_id as int, taken_one(old(self).items@[slot_id as int])),
    {
        let s = self.items[slot_id];
        self.items.set(slot_id, take_one(s));
    }
}

/// A recipe: `inputs_amount[k]` of each `inputs[k]` make `output_amount`
/// of `output`.
pub struct CraftingRecipe {
    pub inputs: Vec<u32>,
    pub inputs_amount: Vec<u32>,
    pub output: u32,
    pub output_amount: u32,
}

/// `r` holds the same ids and amounts as `s`.
pub open spec fn same_recipe(r: CraftingRecipe, s: CraftingRecipe) -> bool {
    &&& r.inputs@ == s.inputs@
    &&& r.inputs_amount@ == s.inputs_amount@
    &&& r.output == s.output
    &&& r.output_amount == s.output_amount
}

/// A copy of a list of ids or amounts.
fn copy_ids(v: &Vec<u32>) -> (r: Vec<u32>)
    ensures
        r@ == v@,
{
    let mut out: Vec<u32> = Vec::new();
    let mut i: usize = 0;
    while i < v.len()
        invariant
            i <= v@.len(),
            out@ == v@.subrange(0, i as int),
        decreases v@.len() - i,
    {
        out.push(v[i]);
        i = i + 1;
        assert(out@ =~= v@.subrange(0, i as int));
    }
    assert(out@ =~= v@);
    out
}

pub struct CraftingRecipeDatabase {
    pub recipes: Vec<CraftingRecipe>,
}

impl CraftingRecipeDatabase {
    /// A copy of the first recipe that makes `id`, if any does.
    pub fn get_by_output_id(&self, id: u32) -> (r: Option<CraftingRecipe>)
        ensures
            match r {
                Some(c) => exists|i: int|
                    0 <= i < self.recipes@.len() && (#[trigger] self.recipes@[i]).output == id
                        && same_recipe(c, self.recipes@[i]) && forall|j: int|
                        0 <= j < i ==> (#[trigger] self.recipes@[j]).output != id,
                None => forall|i: int| 0 <= i < self.recipes@.len() ==> (#[trigger] self.recipes@[i]).output != id,
            },
    {
        let mut i: usize = 0;
        while i < self.recipes.len()
            invariant
                i <= self.recipes@.len(),
                forall|j: int| 0 <= j < i ==> (#[trigger] self.recipes@[j]).output != id,
            decreases self.recipes@.len() - i,
        {
            let recipe = &self.recipes[i];
            if recipe.output == id {
                let c = CraftingRecipe {
                    inputs: copy_ids(&recipe.inputs),
                    inputs_amount: copy_ids(&recipe.inputs_amount),
                    output: recipe.output,
                    output_amount: recipe.output_amount,
                };
                assert(same_recipe(c, self.recipes@[i as int]));
                return Some(c);
            }
            i = i + 1;
        }
        None
    }
}

} // verus!
