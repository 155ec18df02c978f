use rustaria::hotbar::Hotbar;
use rustaria::inventory::{CraftingRecipe, CraftingRecipeDatabase, Inventory, Item, ItemSlot, ItemType};

fn dirt() -> Item {
    Item { id: 1, item_type: ItemType::Block(1), max_stack: 2 }
}

fn pick() -> Item {
    Item { id: 9, item_type: ItemType::Tool, max_stack: 1 }
}

#[test]
fn new_inventory_is_empty() {
    let inv = Inventory::new(3);
    assert_eq!(inv.items.len(), 3);
    assert!(inv.items.iter().all(|s| s.item.is_none() && s.amount == 0));
    assert!(inv.has_room(dirt()));
    assert!(!Inventory::new(0).has_room(dirt()));
}

#[test]
fn items_stack_then_spill() {
    let mut inv = Inventory::new(2);
    inv.add_item(dirt());
    inv.add_item(dirt());
    assert_eq!(inv.items[0], ItemSlot { item: Some(dirt()), amount: 2 });
    inv.add_item(dirt());
    assert_eq!(inv.items[1], ItemSlot { item: Some(dirt()), amount: 1 });
    inv.add_item(dirt());
    assert!(!inv.has_room(dirt()));
    assert!(!inv.has_room(pick()));
    inv.add_item(pick());
    assert_eq!(inv.items[0].amount, 2);
    assert_eq!(inv.items[1].amount, 2);
}

#[test]
fn counting_items() {
    let mut inv = Inventory::new(3);
    inv.add_item(dirt());
    inv.add_item(pick());
    inv.add_item(dirt());
    inv.add_item(dirt());
    assert!(inv.has_item(dirt(), 3));
    assert!(!inv.has_item(dirt(), 4));
    assert!(inv.has_item(pick(), 1));
    assert!(inv.has_item(pick(), 0));
}

#[test]
fn removing_items() {
    let mut inv = Inventory::new(2);
    inv.add_item(dirt());
    inv.add_item(dirt());
    inv.remove_item(dirt());
    assert_eq!(inv.items[0], ItemSlot { item: Some(dirt()), amount: 1 });
    inv.remove_item(dirt());
    assert_eq!(inv.items[0], ItemSlot::new());
    inv.remove_item(dirt());
    assert_eq!(inv.items[0], ItemSlot::new());
    inv.add_item(pick());
    inv.remove_item_from_slot(0);
    assert_eq!(inv.items[0], ItemSlot::new());
}

#[test]
fn clearing_a_slot() {
    let mut s = ItemSlot { item: Some(pick()), amount: 1 };
    s.clear();
    assert_eq!(s, ItemSlot { item: None, amount: 0 });
}

#[test]
fn recipe_lookup() {
    let db = CraftingRecipeDatabase {
        recipes: vec![
            CraftingRecipe { inputs: vec![4], inputs_amount: vec![1], output: 7, output_amount: 4 },
            CraftingRecipe { inputs: vec![3, 7], inputs_amount: vec![2, 1], output: 8, output_amount: 1 },
            CraftingRecipe { inputs: vec![5], inputs_amount: vec![9], output: 7, output_amount: 1 },
        ],
    };
    let r = db.get_by_output_id(7).unwrap();
    assert_eq!((r.inputs, r.inputs_amount, r.output, r.output_amount), (vec![4], vec![1], 7, 4));
    let s = db.get_by_output_id(8).unwrap();
    assert_eq!(s.inputs, vec![3, 7]);
    assert!(db.get_by_output_id(2).is_none());
}

#[test]
fn hotbar_wraps() {
    let mut h = Hotbar::new(3);
    assert_eq!(h.selected_slot, 0);
    h.slot_down();
    assert_eq!(h.selected_slot, 2);
    h.slot_up();
    assert_eq!(h.selected_slot, 0);
    h.slot_up();
    h.slot_up();
    assert_eq!(h.selected_slot, 2);
    h.selected_slot = 8;
    h.slot_up();
    assert_eq!(h.selected_slot, 0);
}
