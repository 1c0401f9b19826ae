//! Crafting: inventories, recipes and what crafting consumes and produces.

use tiny_games::crafting::{can_craft, consume_ingredients, craft, hud_text, recipes, Inventory, Item};

fn inv(items: &[(Item, u32)]) -> Inventory {
    Inventory::from_counts(items)
}

#[test]
fn can_craft_torch_with_correct_items() {
    let inventory = inv(&[(Item::Wood, 1), (Item::Coal, 1)]);
    assert!(can_craft(&inventory, &recipes()[0]));
}

#[test]
fn cannot_craft_when_missing_ingredient() {
    let inventory = inv(&[(Item::Wood, 1)]);
    assert!(!can_craft(&inventory, &recipes()[0]));
}

#[test]
fn cannot_craft_when_quantity_insufficient() {
    let inventory = inv(&[(Item::Iron, 1), (Item::Wood, 1)]);
    assert!(!can_craft(&inventory, &recipes()[1])); // Sword needs Iron×2
}

#[test]
fn consume_removes_correct_amounts() {
    let mut inventory = inv(&[(Item::Wood, 3), (Item::Coal, 2)]);
    consume_ingredients(&mut inventory, &recipes()[0]); // Torch: Wood×1 + Coal×1
    assert_eq!(inventory.get(Item::Wood), 2);
    assert_eq!(inventory.get(Item::Coal), 1);
}

#[test]
fn potion_crafted_from_two_herbs() {
    let inventory = inv(&[(Item::Herb, 2)]);
    assert!(can_craft(&inventory, &recipes()[2]));
    let inventory_one = inv(&[(Item::Herb, 1)]);
    assert!(!can_craft(&inventory_one, &recipes()[2]));
}

#[test]
fn empty_inventory_cannot_craft_anything() {
    let inventory = Inventory::new();
    for recipe in &recipes() {
        assert!(!can_craft(&inventory, recipe));
    }
}

// ── Further cases ────────────────────────────────────────────────────────────

#[test]
fn the_recipe_table_reads_as_documented() {
    let table = recipes();
    let names: Vec<&str> = table.iter().map(|r| r.name).collect();
    assert_eq!(names, vec!["Torch", "Sword", "Potion", "Armor"]);
    assert_eq!(table[3].inputs, vec![(Item::Iron, 2), (Item::Stone, 1)]);
    assert_eq!(table[3].output, Item::Stone);
}

#[test]
fn crafting_consumes_the_inputs_and_adds_the_output() {
    let mut inventory = inv(&[(Item::Iron, 3), (Item::Stone, 1), (Item::Wood, 4)]);
    assert!(craft(&mut inventory, &recipes()[3])); // Armor: Iron×2 + Stone×1 -> Stone
    assert_eq!(inventory.get(Item::Iron), 1);
    assert_eq!(inventory.get(Item::Stone), 1);
    assert_eq!(inventory.get(Item::Wood), 4);
}

#[test]
fn crafting_without_the_inputs_changes_nothing() {
    let mut inventory = inv(&[(Item::Iron, 1), (Item::Wood, 1)]);
    assert!(!craft(&mut inventory, &recipes()[1]));
    assert_eq!(inventory.get(Item::Iron), 1);
    assert_eq!(inventory.get(Item::Wood), 1);
}

#[test]
fn picking_up_adds_one() {
    let mut inventory = Inventory::new();
    inventory.add(Item::Herb);
    inventory.add(Item::Herb);
    assert_eq!(inventory.get(Item::Herb), 2);
    assert_eq!(inventory.get(Item::Coal), 0);
}

#[test]
fn a_later_quantity_for_the_same_item_wins() {
    let inventory = inv(&[(Item::Coal, 5), (Item::Wood, 1), (Item::Coal, 2)]);
    assert_eq!(inventory.get(Item::Coal), 2);
    assert_eq!(inventory.get(Item::Wood), 1);
}

#[test]
fn items_have_display_names() {
    let names: Vec<&str> =
        [Item::Wood, Item::Stone, Item::Iron, Item::Herb, Item::Coal].iter().map(|i| i.label()).collect();
    assert_eq!(names, vec!["Wood", "Stone", "Iron", "Herb", "Coal"]);
}

#[test]
fn the_hud_shows_the_inventory_alone_away_from_the_bench() {
    let inv = inv(&[(Item::Wood, 3), (Item::Coal, 1)]);
    assert_eq!(
        hud_text(&inv, false, true),
        "Inventory: Wood: 3  Stone: 0  Iron: 0  Herb: 0  Coal: 1  \n"
    );
}

#[test]
fn the_hud_prompts_at_the_bench() {
    let inv = inv(&[]);
    assert_eq!(
        hud_text(&inv, true, false),
        "Inventory: Wood: 0  Stone: 0  Iron: 0  Herb: 0  Coal: 0  \n[ Workbench - press C to open ]"
    );
}

#[test]
fn the_open_menu_marks_what_can_be_crafted() {
    let inv = inv(&[(Item::Wood, 1), (Item::Coal, 1), (Item::Herb, 2), (Item::Iron, 1)]);
    assert_eq!(
        hud_text(&inv, true, true),
        "Inventory: Wood: 1  Stone: 0  Iron: 1  Herb: 2  Coal: 1  \n\
         [ Workbench - press C to close ]\n\
         \x20 1 [READY] -> Torch: 1xWood + 1xCoal\n\
         \x20 2 [     ] -> Sword: 2xIron + 1xWood\n\
         \x20 3 [READY] -> Potion: 2xHerb\n\
         \x20 4 [     ] -> Armor: 2xIron + 1xStone\n"
    );
}
