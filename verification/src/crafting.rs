//! Crafting: materials are gathered into an inventory and recipes turn
//! ingredients into a new item.

use vstd::prelude::*;
use crate::text::{append_u64, fmt_nat};

verus! {

/// A collectable or craftable material.
#[derive(Clone, Copy, Debug, PartialEq, Eq, Hash, Structural)]
pub enum Item {
    /// Common material, gathered from the ground.
    Wood,
    /// Common material used in heavier recipes.
    Stone,
    /// Metal used for weapons and armour.
    Iron,
    /// Plant material used for potions.
    Herb,
    /// Fuel used for torches.
    Coal,
}

/// How many kinds of item there are.
pub const ITEM_KINDS: usize = 5;

/// The slot an item's count is kept in.
pub open spec fn item_slot(item: Item) -> int {
    match item {
        Item::Wood => 0,
        Item::Stone => 1,
        Item::Iron => 2,
        Item::Herb => 3,
        Item::Coal => 4,
    }
}

/// An item's display name.
pub open spec fn item_label(item: Item) -> Seq<char> {
    match item {
        Item::Wood => "Wood"@,
        Item::Stone => "Stone"@,
        Item::Iron => "Iron"@,
        Item::Herb => "Herb"@,
        Item::Coal => "Coal"@,
    }
}

impl Item {
    /// The item's display name.
    pub fn label(self) -> (s: &'static str)
        ensures
            s@ == item_label(self),
    {
        match self {
            Item::Wood => "Wood",
            Item::Stone => "Stone",
            Item::Iron => "Iron",
            Item::Herb => "Herb",
            Item::Coal => "Coal",
        }
    }

    /// The item's slot in an inventory.
    fn slot(self) -> (i: usize)
        ensures
            i == item_slot(self),
            i < ITEM_KINDS,
    {
        match self {
            Item::Wood => 0,
            Item::Stone => 1,
            Item::Iron => 2,
            Item::Herb => 3,
            Item::Coal => 4,
        }
    }
}

/// A crafting recipe: ingredients with quantities, and the item produced.
pub struct Recipe {
    /// The recipe's display name.
    pub name: &'static str,
    /// Ingredients and quantities the recipe consumes.
    pub inputs: Vec<(Item, u32)>,
    /// The item produced.
    pub output: Item,
}

/// How many of each item a player holds; an item never picked up counts as
/// zero.
pub struct Inventory {
    counts: Vec<u32>,
}

impl View for Inventory {
    type V = Seq<u32>;

    closed spec fn view(&self) -> Seq<u32> {
        self.counts@
    }
}

/// An inventory's counts, one slot per kind of item.
pub open spec fn inventory_wf(counts: Seq<u32>) -> bool {
    counts.len() == ITEM_KINDS
}

/// How many of `item` the counts hold.
pub open spec fn count_of(counts: Seq<u32>, item: Item) -> u32 {
    counts[item_slot(item)]
}

/// The quantity a list gives an item: its last entry for the item, or zero.
pub open spec fn listed_count(items: Seq<(Item, u32)>, item: Item) -> u32
    decreases items.len(),
{
    if items.len() == 0 {
        0
    } else if items.last().0 == item {
        items.last().1
    } else {
        listed_count(items.drop_last(), item)
    }
}

/// Whether the counts cover every ingredient, each checked on its own.
pub open spec fn spec_can_craft(counts: Seq<u32>, inputs: Seq<(Item, u32)>) -> bool {
    forall|k: int| 0 <= k < inputs.len() ==> count_of(counts, #[trigger] inputs[k].0) >= inputs[k].1
}

/// The counts after taking away the ingredients one after the other.
pub open spec fn spec_consume(counts: Seq<u32>, inputs: Seq<(Item, u32)>) -> Seq<u32>
    decreases inputs.len(),
{
    if inputs.len() == 0 {
        counts
    } else {
        let before = spec_consume(counts, inputs.drop_last());
        let (item, qty) = inputs.last();
        before.update(item_slot(item), (count_of(before, item) - qty) as u32)
    }
}

/// Whether taking the ingredients away one after the other never runs a
/// count below zero.
pub open spec fn consumable(counts: Seq<u32>, inputs: Seq<(Item, u32)>) -> bool
    decreases inputs.len(),
{
    if inputs.len() == 0 {
        true
    } else {
        consumable(counts, inputs.drop_last()) && count_of(
            spec_consume(counts, inputs.drop_last()),
            inputs.last().0,
        ) >= inputs.last().1
    }
}

/// A recipe that names each ingredient once.
pub open spec fn distinct_ingredients(inputs: Seq<(Item, u32)>) -> bool {
    forall|a: int, b: int| 0 <= a < b < inputs.len() ==> inputs[a].0 != inputs[b].0
}

/// Taking ingredients away keeps one slot per kind of item.
pub proof fn lemma_consume_wf(counts: Seq<u32>, inputs: Seq<(Item, u32)>)
    requires
        inventory_wf(counts),
    ensures
        inventory_wf(spec_consume(counts, inputs)),
    decreases inputs.len(),
{
    if inputs.len() > 0 {
        lemma_consume_wf(counts, inputs.drop_last());
    }
}

/// When a recipe names each ingredient once, having enough of each is all
/// it takes to consume them, and consuming takes exactly the stated amount
/// of each ingredient and leaves every other item alone.
pub proof fn lemma_can_craft_suffices(counts: Seq<u32>, inputs: Seq<(Item, u32)>)
    requires
        inventory_wf(counts),
        distinct_ingredients(inputs),
        spec_can_craft(counts, inputs),
    ensures
        consumable(counts, inputs),
        forall|k: int|
            0 <= k < inputs.len() ==> count_of(spec_consume(counts, inputs), #[trigger] inputs[k].0)
                == count_of(counts, inputs[k].0) - inputs[k].1,
        forall|item: Item|
            (forall|k: int| 0 <= k < inputs.len() ==> #[trigger] inputs[k].0 != item) ==> count_of(
                spec_consume(counts, inputs),
                item,
            ) == count_of(counts, item),
    decreases inputs.len(),
{
    if inputs.len() > 0 {
        let init = inputs.drop_last();
        assert forall|k: int| 0 <= k < init.len() implies count_of(counts, #[trigger] init[k].0)
            >= init[k].1 by {
            assert(init[k] == inputs[k]);
        }
        lemma_can_craft_suffices(counts, init);
        lemma_consume_wf(counts, init);
        let last = inputs.last();
        assert forall|k: int| 0 <= k < init.len() implies #[trigger] init[k].0 != last.0 by {
            assert(init[k] == inputs[k]);
        }
        assert(count_of(counts, last.0) >= last.1);
        let before = spec_consume(counts, init);
        assert(count_of(before, last.0) == count_of(counts, last.0));
        assert forall|k: int| 0 <= k < inputs.len() implies count_of(
            spec_consume(counts, inputs),
            #[trigger] inputs[k].0,
        ) == count_of(counts, inputs[k].0) - inputs[k].1 by {
            if k < init.len() {
                assert(init[k] == inputs[k]);
                assert(item_slot(inputs[k].0) != item_slot(last.0));
            }
        }
        assert forall|item: Item|
            (forall|k: int| 0 <= k < inputs.len() ==> #[trigger] inputs[k].0 != item) implies count_of(
            spec_consume(counts, inputs),
            item,
        ) == count_of(counts, item) by {
            assert(inputs[inputs.len() - 1].0 != item);
            assert forall|k: int| 0 <= k < init.len() implies #[trigger] init[k].0 != item by {
                assert(init[k] == inputs[k]);
            }
            assert(item_slot(item) != item_slot(last.0));
        }
    }
}

impl Inventory {
    /// An empty inventory.
    pub fn new() -> (inv: Inventory)
        ensures
            inv@ == seq![0u32, 0u32, 0u32, 0u32, 0u32],
    {
        Inventory { counts: vec![0u32, 0u32, 0u32, 0u32, 0u32] }
    }

    /// An inventory holding the given quantities; an item listed twice
    /// holds its later quantity.
    pub fn from_counts(items: &[(Item, u32)]) -> (inv: Inventory)
        ensures
            inventory_wf(inv@),
            forall|item: Item| #[trigger] count_of(inv@, item) == listed_count(items@, item),
    {
        let mut inv = Inventory::new();
        let mut i: usize = 0;
        while i < items.len()
            invariant
                i <= items@.len(),
                inventory_wf(inv@),
                forall|item: Item| #[trigger] count_of(inv@, item) == listed_count(items@.take(i as int), item),
            decreases items@.len() - i,
        {
            let (item, qty) = items[i];
            let ghost pre = inv@;
            inv.counts.set(item.slot(), qty);
            proof {
                assert(items@.take(i + 1).drop_last() =~= items@.take(i as int));
                assert(items@.take(i + 1).last() == (item, qty));
                assert forall|it: Item| #[trigger] count_of(inv@, it) == listed_count(items@.take(i + 1), it) by {
                    if it != item {
                        assert(item_slot(it) != item_slot(item));
                        assert(count_of(pre, it) == listed_count(items@.take(i as int), it));
                    }
                }
            }
            i = i + 1;
        }
        proof {
            assert(items@.take(items@.len() as int) =~= items@);
        }
        inv
    }

    /// How many of `item` are held.
    pub fn get(&self, item: Item) -> (n: u32)
        requires
            inventory_wf(self@),
        ensures
            n == count_of(self@, item),
    {
        self.counts[item.slot()]
    }

    /// Adds one `item`, as picking one up does.
    pub fn add(&mut self, item: Item)
        requires
            inventory_wf(old(self)@),
            count_of(old(self)@, item) < u32::MAX,
        ensures
            final(self)@ == old(self)@.update(item_slot(item), (count_of(old(self)@, item) + 1) as u32),
    {
        let s = item.slot();
        let n = self.counts[s];
        self.counts.set(s, n + 1);
    }
}

/// True when the inventory holds at least the required quantity of every
/// ingredient.
pub fn can_craft(inventory: &Inventory, recipe: &Recipe) -> (ok: bool)
    requires
        inventory_wf(inventory@),
    ensures
        ok == spec_can_craft(inventory@, recipe.inputs@),
{
    let mut i: usize = 0;
    while i < recipe.inputs.len()
        invariant
            i <= recipe.inputs@.len(),
            inventory_wf(inventory@),
            forall|k: int|
                0 <= k < i ==> count_of(inventory@, #[trigger] recipe.inputs@[k].0)
                    >= recipe.inputs@[k].1,
        decreases recipe.inputs@.len() - i,
    {
        let (item, qty) = recipe.inputs[i];
        if inventory.get(item) < qty {
            return false;
        }
        i = i + 1;
    }
    true
}

/// Removes the recipe's ingredients from the inventory, one after the
/// other. The quantities must suffice: call `can_craft` first.
pub fn consume_ingredients(inventory: &mut Inventory, recipe: &Recipe)
    requires
        inventory_wf(old(inventory)@),
        consumable(old(inventory)@, recipe.inputs@),
    ensures
        final(inventory)@ == spec_consume(old(inventory)@, recipe.inputs@),
{
    let ghost start = inventory@;
    let mut i: usize = 0;
    while i < recipe.inputs.len()
        invariant
            i <= recipe.inputs@.len(),
            inventory_wf(start),
            consumable(start, recipe.inputs@),
            inventory@ == spec_consume(start, recipe.inputs@.take(i as int)),
        decreases recipe.inputs@.len() - i,
    {
        proof {
            lemma_consumable_prefix(start, recipe.inputs@, i + 1);
            lemma_consume_wf(start, recipe.inputs@.take(i as int));
            assert(recipe.inputs@.take(i + 1).drop_last() =~= recipe.inputs@.take(i as int));
        }
        let (item, qty) = recipe.inputs[i];
        let s = item.slot();
        let n = inventory.counts[s];
        inventory.counts.set(s, n - qty);
        i = i + 1;
    }
    proof {
        assert(recipe.inputs@.take(recipe.inputs@.len() as int) =~= recipe.inputs@);
    }
}

/// Consuming a whole list never underflows part-way through it.
proof fn lemma_consumable_prefix(counts: Seq<u32>, inputs: Seq<(Item, u32)>, i: int)
    requires
        0 <= i <= inputs.len(),
        consumable(counts, inputs),
    ensures
        consumable(counts, inputs.take(i)),
    decreases inputs.len(),
{
    if i < inputs.len() {
        lemma_consumable_prefix(counts, inputs.drop_last(), i);
        assert(inputs.drop_last().take(i) =~= inputs.take(i));
    } else {
        assert(inputs.take(i) =~= inputs);
    }
}

/// Crafting: when the inventory covers the recipe, its ingredients are
/// consumed and one of its output is added; otherwise nothing changes.
pub open spec fn spec_craft(counts: Seq<u32>, inputs: Seq<(Item, u32)>, output: Item) -> (Seq<u32>, bool) {
    if spec_can_craft(counts, inputs) {
        let after = spec_consume(counts, inputs);
        (after.update(item_slot(output), (count_of(after, output) + 1) as u32), true)
    } else {
        (counts, false)
    }
}

/// Crafts `recipe` if the inventory covers it, as pressing its key at the
/// workbench does, and reports whether it did.
pub fn craft(inventory: &mut Inventory, recipe: &Recipe) -> (crafted: bool)
    requires
        inventory_wf(old(inventory)@),
        distinct_ingredients(recipe.inputs@),
        count_of(old(inventory)@, recipe.output) < u32::MAX,
    ensures
        (final(inventory)@, crafted) == spec_craft(old(inventory)@, recipe.inputs@, recipe.output),
{
    if !can_craft(inventory, recipe) {
        return false;
    }
    proof {
        lemma_can_craft_suffices(inventory@, recipe.inputs@);
        lemma_consume_wf(inventory@, recipe.inputs@);
        let after = spec_consume(inventory@, recipe.inputs@);
        if exists|k: int| 0 <= k < recipe.inputs@.len() && recipe.inputs@[k].0 == recipe.output {
            let k = choose|k: int| 0 <= k < recipe.inputs@.len() && recipe.inputs@[k].0 == recipe.output;
            assert(count_of(after, recipe.inputs@[k].0) == count_of(inventory@, recipe.inputs@[k].0)
                - recipe.inputs@[k].1);
        } else {
            assert(count_of(after, recipe.output) == count_of(inventory@, recipe.output));
        }
    }
    consume_ingredients(inventory, recipe);
    inventory.add(recipe.output);
    true
}

/// The built-in recipe table: Torch, Sword, Potion and Armor.
pub fn recipes() -> (r: Vec<Recipe>)
    ensures
        r@.len() == 4,
        r@[0].name@ == "Torch"@ && r@[0].inputs@ == seq![(Item::Wood, 1u32), (Item::Coal, 1u32)]
            && r@[0].output == Item::Coal,
        r@[1].name@ == "Sword"@ && r@[1].inputs@ == seq![(Item::Iron, 2u32), (Item::Wood, 1u32)]
            && r@[1].output == Item::Iron,
        r@[2].name@ == "Potion"@ && r@[2].inputs@ == seq![(Item::Herb, 2u32)] && r@[2].output
            == Item::Herb,
        r@[3].name@ == "Armor"@ && r@[3].inputs@ == seq![(Item::Iron, 2u32), (Item::Stone, 1u32)]
            && r@[3].output == Item::Stone,
        forall|k: int| 0 <= k < 4 ==> distinct_ingredients(#[trigger] r@[k].inputs@),
{
    let r = vec![
        Recipe { name: "Torch", inputs: vec![(Item::Wood, 1u32), (Item::Coal, 1u32)], output: Item::Coal },
        Recipe { name: "Sword", inputs: vec![(Item::Iron, 2u32), (Item::Wood, 1u32)], output: Item::Iron },
        Recipe { name: "Potion", inputs: vec![(Item::Herb, 2u32)], output: Item::Herb },
        Recipe { name: "Armor", inputs: vec![(Item::Iron, 2u32), (Item::Stone, 1u32)], output: Item::Stone },
    ];
    proof {
        assert(r@[0].inputs@ =~= seq![(Item::Wood, 1u32), (Item::Coal, 1u32)]);
        assert(r@[1].inputs@ =~= seq![(Item::Iron, 2u32), (Item::Wood, 1u32)]);
        assert(r@[2].inputs@ =~= seq![(Item::Herb, 2u32)]);
        assert(r@[3].inputs@ =~= seq![(Item::Iron, 2u32), (Item::Stone, 1u32)]);
    }
    r
}


/// The recipe table as the HUD lists it: each recipe's name and
/// ingredients, in menu order.
pub open spec fn recipe_table() -> Seq<(Seq<char>, Seq<(Item, u32)>)> {
    seq![
        ("Torch"@, seq![(Item::Wood, 1u32), (Item::Coal, 1u32)]),
        ("Sword"@, seq![(Item::Iron, 2u32), (Item::Wood, 1u32)]),
        ("Potion"@, seq![(Item::Herb, 2u32)]),
        ("Armor"@, seq![(Item::Iron, 2u32), (Item::Stone, 1u32)]),
    ]
}

/// One item's entry on the inventory line: `"Wood: 3  "`.
pub open spec fn item_entry(counts: Seq<u32>, item: Item) -> Seq<char> {
    item_label(item) + ": "@ + fmt_nat(count_of(counts, item) as nat) + "  "@
}

/// The inventory line: every kind of item with its count, then a line end.
pub open spec fn inventory_line(counts: Seq<u32>) -> Seq<char> {
    "Inventory: "@ + item_entry(counts, Item::Wood) + item_entry(counts, Item::Stone) + item_entry(
        counts,
        Item::Iron,
    ) + item_entry(counts, Item::Herb) + item_entry(counts, Item::Coal) + "\n"@
}

/// One ingredient as the menu shows it: `"2xIron"`.
pub open spec fn ingredient_text(input: (Item, u32)) -> Seq<char> {
    fmt_nat(input.1 as nat) + "x"@ + item_label(input.0)
}

/// The ingredients joined with `" + "`.
pub open spec fn ingredients_text(inputs: Seq<(Item, u32)>) -> Seq<char>
    decreases inputs.len(),
{
    if inputs.len() == 0 {
        Seq::empty()
    } else if inputs.len() == 1 {
        ingredient_text(inputs[0])
    } else {
        ingredients_text(inputs.drop_last()) + " + "@ + ingredient_text(inputs.last())
    }
}

/// The menu line of the recipe at position `k`: its number, `READY` when the
/// counts cover it (five spaces otherwise), its name and its ingredients.
pub open spec fn recipe_line(counts: Seq<u32>, k: int, name: Seq<char>, inputs: Seq<(Item, u32)>) -> Seq<char> {
    "  "@ + fmt_nat((k + 1) as nat) + " ["@ + (if spec_can_craft(counts, inputs) {
        "READY"@
    } else {
        "     "@
    }) + "] -> "@ + name + ": "@ + ingredients_text(inputs) + "\n"@
}

/// The menu lines of the first recipes of `table`, in order.
pub open spec fn recipe_lines(counts: Seq<u32>, table: Seq<(Seq<char>, Seq<(Item, u32)>)>) -> Seq<char>
    decreases table.len(),
{
    if table.len() == 0 {
        Seq::empty()
    } else {
        recipe_lines(counts, table.drop_last()) + recipe_line(
            counts,
            table.len() - 1,
            table.last().0,
            table.last().1,
        )
    }
}

/// The crafting HUD: the inventory line; near the workbench, the prompt to
/// open or close it; and, while it is open, one line per recipe.
pub open spec fn spec_hud_text(counts: Seq<u32>, near_bench: bool, open: bool) -> Seq<char> {
    inventory_line(counts) + if near_bench {
        "[ Workbench - press C to "@ + (if open {
            "close ]"@
        } else {
            "open ]"@
        }) + if open {
            "\n"@ + recipe_lines(counts, recipe_table())
        } else {
            Seq::empty()
        }
    } else {
        Seq::empty()
    }
}

/// Appends one item's inventory entry.
fn append_item_entry(out: &mut String, inventory: &Inventory, item: Item)
    requires
        inventory_wf(inventory@),
    ensures
        final(out)@ == old(out)@ + item_entry(inventory@, item),
{
    out.append(item.label());
    out.append(": ");
    append_u64(out, inventory.get(item) as u64);
    out.append("  ");
    proof {
        assert(final(out)@ =~= old(out)@ + item_entry(inventory@, item));
    }
}

/// Appends the ingredients of a recipe, joined with `" + "`.
fn append_ingredients(out: &mut String, inputs: &Vec<(Item, u32)>)
    ensures
        final(out)@ == old(out)@ + ingredients_text(inputs@),
{
    let ghost start = out@;
    let mut j: usize = 0;
    while j < inputs.len()
        invariant
            j <= inputs@.len(),
            out@ == start + ingredients_text(inputs@.take(j as int)),
        decreases inputs@.len() - j,
    {
        if j > 0 {
            out.append(" + ");
        }
        let (item, qty) = inputs[j];
        append_u64(out, qty as u64);
        out.append("x");
        out.append(item.label());
        proof {
            let t = inputs@.take(j + 1);
            assert(t.drop_last() =~= inputs@.take(j as int));
            assert(t.last() == (item, qty));
            if j == 0 {
                assert(t.len() == 1);
                assert(t[0] == (item, qty));
                assert(ingredients_text(inputs@.take(0)) =~= Seq::<char>::empty());
                assert(out@ =~= start + ingredients_text(t));
            } else {
                assert(out@ =~= start + ingredients_text(t));
            }
        }
        j = j + 1;
    }
    proof {
        assert(inputs@.take(inputs@.len() as int) =~= inputs@);
    }
}

/// The crafting HUD text, as the heads-up display shows it: the inventory
/// line, then, when the player stands at the workbench, the prompt to open
/// or close the recipe list, and the list itself while it is open, each
/// recipe marked `READY` when the inventory covers it.
pub fn hud_text(inventory: &Inventory, near_bench: bool, open: bool) -> (s: String)
    requires
        inventory_wf(inventory@),
    ensures
        s@ == spec_hud_text(inventory@, near_bench, open),
{
    let mut out = String::new();
    out.append("Inventory: ");
    append_item_entry(&mut out, inventory, Item::Wood);
    append_item_entry(&mut out, inventory, Item::Stone);
    append_item_entry(&mut out, inventory, Item::Iron);
    append_item_entry(&mut out, inventory, Item::Herb);
    append_item_entry(&mut out, inventory, Item::Coal);
    out.append("\n");
    let ghost head = out@;
    proof {
        assert(head =~= inventory_line(inventory@));
    }
    if !near_bench {
        proof {
            assert(out@ =~= spec_hud_text(inventory@, near_bench, open));
        }
        return out;
    }
    out.append("[ Workbench - press C to ");
    if open {
        out.append("close ]");
    } else {
        out.append("open ]");
    }
    if !open {
        proof {
            assert(out@ =~= spec_hud_text(inventory@, near_bench, open));
        }
        return out;
    }
    out.append("\n");
    let ghost mid = out@;
    let table = recipes();
    let ghost tab = recipe_table();
    proof {
        assert(tab.len() == 4);
        assert forall|k: int| 0 <= k < 4 implies table@[k].name@ == (#[trigger] tab[k]).0 && table@[k].inputs@
            == tab[k].1 by {}
    }
    let mut i: usize = 0;
    while i < table.len()
        invariant
            i <= table@.len(),
            table@.len() == 4,
            tab == recipe_table(),
            tab.len() == 4,
            inventory_wf(inventory@),
            forall|k: int| 0 <= k < 4 ==> table@[k].name@ == (#[trigger] tab[k]).0 && table@[k].inputs@ == tab[k].1,
            out@ == mid + recipe_lines(inventory@, tab.take(i as int)),
        decreases table@.len() - i,
    {
        let ghost before = out@;
        let recipe = &table[i];
        out.append("  ");
        append_u64(&mut out, (i + 1) as u64);
        out.append(" [");
        if can_craft(inventory, recipe) {
            out.append("READY");
        } else {
            out.append("     ");
        }
        out.append("] -> ");
        out.append(recipe.name);
        out.append(": ");
        append_ingredients(&mut out, &recipe.inputs);
        out.append("\n");
        proof {
            let t = tab.take(i + 1);
            assert(t.drop_last() =~= tab.take(i as int));
            assert(t.last() == tab[i as int]);
            assert(out@ =~= before + recipe_line(inventory@, i as int, tab[i as int].0, tab[i as int].1));
            assert(out@ =~= mid + recipe_lines(inventory@, t));
        }
        i = i + 1;
    }
    proof {
        assert(tab.take(4) =~= tab);
        assert(out@ =~= spec_hud_text(inventory@, near_bench, open));
    }
    out
}

} // verus!
