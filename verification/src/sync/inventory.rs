//! Where every item of the account is: the rows written for the bank, the
//! material storage, the shared inventory and each character's bags and
//! equipment.
use vstd::prelude::*;

use crate::api::endpoints::{Character, CharacterBag, EquipmentSlot, InventorySlot, MaterialStack};
use crate::text::{concat, decimal, decimal_string, owned};

verus! {

/// One (item, location) row of the account's items.
#[derive(Debug, Clone)]
pub struct ItemRow {
    pub item_id: u32,
    pub location: String,
    pub location_detail: Option<String>,
    pub count: u32,
}

/// What a row says: item, location, detail, count.
pub type RowFacts = (u32, Seq<char>, Option<Seq<char>>, u32);

pub open spec fn row_facts(r: ItemRow) -> RowFacts {
    (
        r.item_id,
        r.location@,
        match r.location_detail {
            Some(d) => Some(d@),
            None => None,
        },
        r.count,
    )
}

/// The name of a material storage category (the game's French names).
pub open spec fn category_name(id: u32) -> Option<Seq<char>> {
    if id == 5 {
        Some("Matériaux de cuisine"@)
    } else if id == 6 {
        Some("Matériaux d'artisanat basiques"@)
    } else if id == 29 {
        Some("Matériaux d'artisanat intermédiaires"@)
    } else if id == 30 {
        Some("Pierres précieuses et joyaux"@)
    } else if id == 37 {
        Some("Matériaux d'artisanat avancés"@)
    } else if id == 38 {
        Some("Matériaux de festival"@)
    } else if id == 46 {
        Some("Matériaux élevés"@)
    } else if id == 49 {
        Some("Ingrédients culinaires"@)
    } else if id == 50 {
        Some("Matériaux d'illustration"@)
    } else {
        None
    }
}

/// Human-readable names of the material storage categories.
pub fn material_category_name(id: u32) -> (r: Option<&'static str>)
    ensures
        match category_name(id) {
            Some(n) => r matches Some(s) && s@ == n,
            None => r is None,
        },
{
    if id == 5 {
        Some("Matériaux de cuisine")
    } else if id == 6 {
        Some("Matériaux d'artisanat basiques")
    } else if id == 29 {
        Some("Matériaux d'artisanat intermédiaires")
    } else if id == 30 {
        Some("Pierres précieuses et joyaux")
    } else if id == 37 {
        Some("Matériaux d'artisanat avancés")
    } else if id == 38 {
        Some("Matériaux de festival")
    } else if id == 46 {
        Some("Matériaux élevés")
    } else if id == 49 {
        Some("Ingrédients culinaires")
    } else if id == 50 {
        Some("Matériaux d'illustration")
    } else {
        None
    }
}

/// Rows of the filled slots of `slots` at `loc`, numbered from 1 after `prefix`.
pub open spec fn slot_rows(slots: Seq<Option<InventorySlot>>, loc: Seq<char>, prefix: Seq<char>) -> Seq<
    RowFacts,
>
    decreases slots.len(),
{
    if slots.len() == 0 {
        Seq::empty()
    } else {
        let prev = slot_rows(slots.drop_last(), loc, prefix);
        match slots.last() {
            Some(s) => if s.count > 0 {
                prev.push((s.id, loc, Some(prefix + decimal(slots.len())), s.count))
            } else {
                prev
            },
            None => prev,
        }
    }
}

/// The detail of a material stack: its category's name, else the category
/// number; none without a category.
pub open spec fn material_detail(category: Option<u32>) -> Option<Seq<char>> {
    match category {
        Some(c) => match category_name(c) {
            Some(n) => Some(n),
            None => Some("category "@ + decimal(c as nat)),
        },
        None => None,
    }
}

pub open spec fn material_rows(ms: Seq<MaterialStack>) -> Seq<RowFacts>
    decreases ms.len(),
{
    if ms.len() == 0 {
        Seq::empty()
    } else {
        let prev = material_rows(ms.drop_last());
        let m = ms.last();
        if m.count > 0 {
            prev.push((m.id, "materials"@, material_detail(m.category), m.count))
        } else {
            prev
        }
    }
}

/// Rows of a character's bags: each filled slot, numbered "bag B slot S".
pub open spec fn bag_rows(bags: Seq<Option<CharacterBag>>, loc: Seq<char>) -> Seq<RowFacts>
    decreases bags.len(),
{
    if bags.len() == 0 {
        Seq::empty()
    } else {
        let prev = bag_rows(bags.drop_last(), loc);
        match bags.last() {
            Some(b) => prev + slot_rows(
                b.inventory@,
                loc,
                "bag "@ + decimal(bags.len()) + " slot "@,
            ),
            None => prev,
        }
    }
}

pub open spec fn equipment_rows(eq: Seq<EquipmentSlot>, loc: Seq<char>) -> Seq<RowFacts>
    decreases eq.len(),
{
    if eq.len() == 0 {
        Seq::empty()
    } else {
        equipment_rows(eq.drop_last(), loc).push(
            (eq.last().id, loc, Some("equipped: "@ + eq.last().slot@), 1u32),
        )
    }
}

pub open spec fn character_rows(c: Character) -> Seq<RowFacts> {
    let loc = "character:"@ + c.name@;
    bag_rows(c.bags@, loc) + equipment_rows(c.equipment@, loc)
}

pub open spec fn characters_rows(cs: Seq<Character>) -> Seq<RowFacts>
    decreases cs.len(),
{
    if cs.len() == 0 {
        Seq::empty()
    } else {
        characters_rows(cs.drop_last()) + character_rows(cs.last())
    }
}

/// Every row of the account's items: bank, materials, shared inventory,
/// then each character, in order. Empty slots and empty stacks have no row.
pub open spec fn inventory_rows_of(
    bank: Seq<Option<InventorySlot>>,
    materials: Seq<MaterialStack>,
    shared: Seq<Option<InventorySlot>>,
    chars: Seq<Character>,
) -> Seq<RowFacts> {
    slot_rows(bank, "bank"@, "slot "@) + material_rows(materials) + slot_rows(
        shared,
        "shared_inventory"@,
        "slot "@,
    ) + characters_rows(chars)
}

pub open spec fn rows_facts(v: Seq<ItemRow>) -> Seq<RowFacts> {
    v.map_values(|r: ItemRow| row_facts(r))
}

proof fn lemma_push_row(v: Seq<ItemRow>, r: ItemRow)
    ensures
        rows_facts(v.push(r)) == rows_facts(v).push(row_facts(r)),
{
    assert(rows_facts(v.push(r)) =~= rows_facts(v).push(row_facts(r)));
}

/// Append the rows of the filled slots of `slots` at `loc`.
fn push_slot_rows(out: &mut Vec<ItemRow>, slots: &Vec<Option<InventorySlot>>, loc: &str, prefix: &str)
    ensures
        rows_facts(final(out)@) == rows_facts(old(out)@) + slot_rows(slots@, loc@, prefix@),
{
    let ghost head = rows_facts(out@);
    let mut i: usize = 0;
    assert(slots@.take(0) =~= Seq::<Option<InventorySlot>>::empty());
    assert(head + Seq::<RowFacts>::empty() == head);
    while i < slots.len()
        invariant
            i <= slots.len(),
            rows_facts(out@) == head + slot_rows(slots@.take(i as int), loc@, prefix@),
        decreases slots.len() - i,
    {
        let ghost t = slots@.take(i + 1);
        assert(t.drop_last() == slots@.take(i as int));
        assert(t.last() == slots@[i as int]);
        match &slots[i] {
            Some(s) => {
                if s.count > 0 {
                    let detail = concat(prefix, decimal_string((i + 1) as u64).as_str());
                    let row = ItemRow {
                        item_id: s.id,
                        location: owned(loc),
                        location_detail: Some(detail),
                        count: s.count,
                    };
                    proof {
                        lemma_push_row(out@, row);
                    }
                    out.push(row);
                }
            },
            None => {},
        }
        i = i + 1;
    }
    assert(slots@.take(i as int) == slots@);
}

fn material_detail_of(category: Option<u32>) -> (r: Option<String>)
    ensures
        match material_detail(category) {
            Some(d) => r matches Some(s) && s@ == d,
            None => r is None,
        },
{
    match category {
        Some(c) => match material_category_name(c) {
            Some(n) => Some(owned(n)),
            None => Some(concat("category ", decimal_string(c as u64).as_str())),
        },
        None => None,
    }
}

/// Append the rows of one character: its bags' filled slots, then its
/// equipment.
fn push_character_rows(out: &mut Vec<ItemRow>, c: &Character)
    ensures
        rows_facts(final(out)@) == rows_facts(old(out)@) + character_rows(*c),
{
    let loc = concat("character:", c.name.as_str());
    let ghost head = rows_facts(out@);
    let mut b: usize = 0;
    assert(c.bags@.take(0) =~= Seq::<Option<CharacterBag>>::empty());
    assert(head + Seq::<RowFacts>::empty() == head);
    while b < c.bags.len()
        invariant
            b <= c.bags.len(),
            loc@ == "character:"@ + c.name@,
            rows_facts(out@) == head + bag_rows(c.bags@.take(b as int), loc@),
        decreases c.bags.len() - b,
    {
        let ghost t = c.bags@.take(b + 1);
        assert(t.drop_last() == c.bags@.take(b as int));
        assert(t.last() == c.bags@[b as int]);
        match &c.bags[b] {
            Some(bag) => {
                let a = concat("bag ", decimal_string((b + 1) as u64).as_str());
                let prefix = concat(a.as_str(), " slot ");
                let ghost before = rows_facts(out@);
                push_slot_rows(out, &bag.inventory, loc.as_str(), prefix.as_str());
                assert(head + bag_rows(t, loc@) == before + slot_rows(bag.inventory@, loc@, prefix@));
            },
            None => {},
        }
        b = b + 1;
    }
    assert(c.bags@.take(b as int) == c.bags@);
    let ghost mid = rows_facts(out@);
    let mut e: usize = 0;
    assert(c.equipment@.take(0) =~= Seq::<EquipmentSlot>::empty());
    assert(mid + Seq::<RowFacts>::empty() == mid);
    while e < c.equipment.len()
        invariant
            e <= c.equipment.len(),
            loc@ == "character:"@ + c.name@,
            rows_facts(out@) == mid + equipment_rows(c.equipment@.take(e as int), loc@),
        decreases c.equipment.len() - e,
    {
        let ghost t = c.equipment@.take(e + 1);
        assert(t.drop_last() == c.equipment@.take(e as int));
        assert(t.last() == c.equipment@[e as int]);
        let slot = &c.equipment[e];
        let row = ItemRow {
            item_id: slot.id,
            location: loc.clone(),
            location_detail: Some(concat("equipped: ", slot.slot.as_str())),
            count: 1,
        };
        proof {
            lemma_push_row(out@, row);
        }
        out.push(row);
        e = e + 1;
    }
    assert(c.equipment@.take(e as int) == c.equipment@);
}

/// Every row of the account's items (see `inventory_rows_of`).
pub fn inventory_rows(
    bank: &Vec<Option<InventorySlot>>,
    materials: &Vec<MaterialStack>,
    shared: &Vec<Option<InventorySlot>>,
    chars: &Vec<Character>,
) -> (r: Vec<ItemRow>)
    ensures
        rows_facts(r@) == inventory_rows_of(bank@, materials@, shared@, chars@),
{
    let mut out: Vec<ItemRow> = Vec::new();
    assert(rows_facts(out@) =~= Seq::<RowFacts>::empty());
    push_slot_rows(&mut out, bank, "bank", "slot ");
    let ghost a = rows_facts(out@);
    let mut m: usize = 0;
    assert(materials@.take(0) =~= Seq::<MaterialStack>::empty());
    assert(a + Seq::<RowFacts>::empty() == a);
    while m < materials.len()
        invariant
            m <= materials.len(),
            rows_facts(out@) == a + material_rows(materials@.take(m as int)),
        decreases materials.len() - m,
    {
        let ghost t = materials@.take(m + 1);
        assert(t.drop_last() == materials@.take(m as int));
        assert(t.last() == materials@[m as int]);
        let st = &materials[m];
        if st.count > 0 {
            let row = ItemRow {
                item_id: st.id,
                location: owned("materials"),
                location_detail: material_detail_of(st.category),
                count: st.count,
            };
            proof {
                lemma_push_row(out@, row);
            }
            out.push(row);
        }
        m = m + 1;
    }
    assert(materials@.take(m as int) == materials@);
    push_slot_rows(&mut out, shared, "shared_inventory", "slot ");
    let ghost b = rows_facts(out@);
    let mut k: usize = 0;
    assert(chars@.take(0) =~= Seq::<Character>::empty());
    assert(b + Seq::<RowFacts>::empty() == b);
    while k < chars.len()
        invariant
            k <= chars.len(),
            rows_facts(out@) == b + characters_rows(chars@.take(k as int)),
        decreases chars.len() - k,
    {
        let ghost t = chars@.take(k + 1);
        assert(t.drop_last() == chars@.take(k as int));
        assert(t.last() == chars@[k as int]);
        let c = &chars[k];
        push_character_rows(&mut out, c);
        k = k + 1;
    }
    assert(chars@.take(k as int) == chars@);
    out
}

/// How many slots of `slots` hold a non-empty stack.
pub open spec fn filled_count(slots: Seq<Option<InventorySlot>>) -> nat
    decreases slots.len(),
{
    if slots.len() == 0 {
        0
    } else {
        filled_count(slots.drop_last()) + match slots.last() {
            Some(s) => if s.count > 0 {
                1nat
            } else {
                0nat
            },
            None => 0nat,
        }
    }
}

/// How many stacks of `ms` are not empty.
pub open spec fn stacked_count(ms: Seq<MaterialStack>) -> nat
    decreases ms.len(),
{
    if ms.len() == 0 {
        0
    } else {
        stacked_count(ms.drop_last()) + if ms.last().count > 0 {
            1nat
        } else {
            0nat
        }
    }
}

/// How many filled slots the bags of `bags` hold.
pub open spec fn bag_slot_count(bags: Seq<Option<CharacterBag>>) -> nat
    decreases bags.len(),
{
    if bags.len() == 0 {
        0
    } else {
        bag_slot_count(bags.drop_last()) + match bags.last() {
            Some(b) => filled_count(b.inventory@),
            None => 0nat,
        }
    }
}

/// How many filled bag slots and equipped slots the characters hold.
pub open spec fn character_slot_count(cs: Seq<Character>) -> nat
    decreases cs.len(),
{
    if cs.len() == 0 {
        0
    } else {
        character_slot_count(cs.drop_last()) + bag_slot_count(cs.last().bags@)
            + cs.last().equipment@.len()
    }
}

proof fn lemma_contains_left<T>(a: Seq<T>, b: Seq<T>, x: T)
    requires
        a.contains(x),
    ensures
        (a + b).contains(x),
{
    let i = choose|i: int| 0 <= i < a.len() && a[i] == x;
    assert((a + b)[i] == x);
}

proof fn lemma_contains_right<T>(a: Seq<T>, b: Seq<T>, x: T)
    requires
        b.contains(x),
    ensures
        (a + b).contains(x),
{
    let i = choose|i: int| 0 <= i < b.len() && b[i] == x;
    assert((a + b)[a.len() + i] == x);
}

proof fn lemma_slot_rows(slots: Seq<Option<InventorySlot>>, loc: Seq<char>, prefix: Seq<char>, k: int)
    ensures
        slot_rows(slots, loc, prefix).len() == filled_count(slots),
        0 <= k < slots.len() && slots[k] is Some && slots[k]->0.count > 0 ==> slot_rows(
            slots,
            loc,
            prefix,
        ).contains(
            (slots[k]->0.id, loc, Some(prefix + decimal((k + 1) as nat)), slots[k]->0.count),
        ),
    decreases slots.len(),
{
    if slots.len() > 0 {
        let d = slots.drop_last();
        lemma_slot_rows(d, loc, prefix, k);
        let prev = slot_rows(d, loc, prefix);
        if 0 <= k < slots.len() && slots[k] is Some && slots[k]->0.count > 0 {
            if k == slots.len() - 1 {
                assert(slots.last() == slots[k]);
                let x = (slots[k]->0.id, loc, Some(prefix + decimal(slots.len())), slots[k]->0.count);
                assert(prev.push(x)[prev.len() as int] == x);
            } else {
                assert(d[k] == slots[k]);
                let x = (slots[k]->0.id, loc, Some(prefix + decimal((k + 1) as nat)), slots[k]->0.count);
                let i = choose|i: int| 0 <= i < prev.len() && prev[i] == x;
                match slots.last() {
                    Some(l) => if l.count > 0 {
                        let y = (l.id, loc, Some(prefix + decimal(slots.len())), l.count);
                        assert(prev.push(y)[i] == x);
                    },
                    None => {},
                }
            }
        }
    }
}

proof fn lemma_bag_rows(bags: Seq<Option<CharacterBag>>, loc: Seq<char>, b: int, k: int)
    ensures
        bag_rows(bags, loc).len() == bag_slot_count(bags),
        0 <= b < bags.len() && bags[b] is Some && 0 <= k < bags[b]->0.inventory@.len()
            && bags[b]->0.inventory@[k] is Some && bags[b]->0.inventory@[k]->0.count > 0 ==> bag_rows(
            bags,
            loc,
        ).contains(
            (
                bags[b]->0.inventory@[k]->0.id,
                loc,
                Some("bag "@ + decimal((b + 1) as nat) + " slot "@ + decimal((k + 1) as nat)),
                bags[b]->0.inventory@[k]->0.count,
            ),
        ),
    decreases bags.len(),
{
    if bags.len() > 0 {
        let d = bags.drop_last();
        lemma_bag_rows(d, loc, b, k);
        let prev = bag_rows(d, loc);
        match bags.last() {
            Some(l) => {
                let pre = "bag "@ + decimal(bags.len()) + " slot "@;
                lemma_slot_rows(l.inventory@, loc, pre, k);
                if 0 <= b < bags.len() && bags[b] is Some && 0 <= k < bags[b]->0.inventory@.len()
                    && bags[b]->0.inventory@[k] is Some && bags[b]->0.inventory@[k]->0.count > 0 {
                    let x = (
                        bags[b]->0.inventory@[k]->0.id,
                        loc,
                        Some("bag "@ + decimal((b + 1) as nat) + " slot "@ + decimal((k + 1) as nat)),
                        bags[b]->0.inventory@[k]->0.count,
                    );
                    if b == bags.len() - 1 {
                        assert(bags[b] == Some(l));
                        assert(pre + decimal((k + 1) as nat) == "bag "@ + decimal((b + 1) as nat)
                            + " slot "@ + decimal((k + 1) as nat));
                        lemma_contains_right(prev, slot_rows(l.inventory@, loc, pre), x);
                    } else {
                        assert(d[b] == bags[b]);
                        lemma_contains_left(prev, slot_rows(l.inventory@, loc, pre), x);
                    }
                }
            },
            None => {
                if 0 <= b < bags.len() - 1 {
                    assert(d[b] == bags[b]);
                }
            },
        }
    }
}

proof fn lemma_equipment_rows(eq: Seq<EquipmentSlot>, loc: Seq<char>, e: int)
    ensures
        equipment_rows(eq, loc).len() == eq.len(),
        0 <= e < eq.len() ==> equipment_rows(eq, loc).contains(
            (eq[e].id, loc, Some("equipped: "@ + eq[e].slot@), 1u32),
        ),
    decreases eq.len(),
{
    if eq.len() > 0 {
        let d = eq.drop_last();
        lemma_equipment_rows(d, loc, e);
        let prev = equipment_rows(d, loc);
        let y = (eq.last().id, loc, Some("equipped: "@ + eq.last().slot@), 1u32);
        if 0 <= e < eq.len() {
            if e == eq.len() - 1 {
                assert(prev.push(y)[prev.len() as int] == y);
            } else {
                assert(d[e] == eq[e]);
                let x = (eq[e].id, loc, Some("equipped: "@ + eq[e].slot@), 1u32);
                let i = choose|i: int| 0 <= i < prev.len() && prev[i] == x;
                assert(prev.push(y)[i] == x);
            }
        }
    }
}

proof fn lemma_characters_rows(cs: Seq<Character>, c: int, x: RowFacts)
    ensures
        characters_rows(cs).len() == character_slot_count(cs),
        0 <= c < cs.len() && character_rows(cs[c]).contains(x) ==> characters_rows(cs).contains(x),
    decreases cs.len(),
{
    if cs.len() > 0 {
        let d = cs.drop_last();
        lemma_characters_rows(d, c, x);
        let l = cs.last();
        let loc = "character:"@ + l.name@;
        lemma_bag_rows(l.bags@, loc, 0, 0);
        lemma_equipment_rows(l.equipment@, loc, 0);
        if 0 <= c < cs.len() && character_rows(cs[c]).contains(x) {
            if c == cs.len() - 1 {
                lemma_contains_right(characters_rows(d), character_rows(l), x);
            } else {
                assert(d[c] == cs[c]);
                lemma_contains_left(characters_rows(d), character_rows(l), x);
            }
        }
    }
}

/// The rows cover every character, not only some: each filled slot of each
/// bag of each character has its row, "bag B slot S" numbered from 1, and
/// each equipped item has its row; the rows of the bank, the materials,
/// the shared inventory and the characters are exactly one per filled
/// slot, non-empty stack and equipped item.
pub proof fn lemma_rows_cover_characters(
    bank: Seq<Option<InventorySlot>>,
    materials: Seq<MaterialStack>,
    shared: Seq<Option<InventorySlot>>,
    chars: Seq<Character>,
    c: int,
    b: int,
    k: int,
    e: int,
)
    requires
        0 <= c < chars.len(),
    ensures
        inventory_rows_of(bank, materials, shared, chars).len() == filled_count(bank) + stacked_count(
            materials,
        ) + filled_count(shared) + character_slot_count(chars),
        0 <= e < chars[c].equipment@.len() ==> inventory_rows_of(bank, materials, shared, chars).contains(
            (
                chars[c].equipment@[e].id,
                "character:"@ + chars[c].name@,
                Some("equipped: "@ + chars[c].equipment@[e].slot@),
                1u32,
            ),
        ),
        0 <= b < chars[c].bags@.len() && chars[c].bags@[b] is Some && 0 <= k
            < chars[c].bags@[b]->0.inventory@.len() && chars[c].bags@[b]->0.inventory@[k] is Some
            && chars[c].bags@[b]->0.inventory@[k]->0.count > 0 ==> inventory_rows_of(
            bank,
            materials,
            shared,
            chars,
        ).contains(
            (
                chars[c].bags@[b]->0.inventory@[k]->0.id,
                "character:"@ + chars[c].name@,
                Some("bag "@ + decimal((b + 1) as nat) + " slot "@ + decimal((k + 1) as nat)),
                chars[c].bags@[b]->0.inventory@[k]->0.count,
            ),
        ),
{
    let ch = chars[c];
    let loc = "character:"@ + ch.name@;
    let front = slot_rows(bank, "bank"@, "slot "@) + material_rows(materials) + slot_rows(
        shared,
        "shared_inventory"@,
        "slot "@,
    );
    lemma_slot_rows(bank, "bank"@, "slot "@, 0);
    lemma_slot_rows(shared, "shared_inventory"@, "slot "@, 0);
    lemma_material_count(materials);
    lemma_characters_rows(chars, 0, (0u32, Seq::empty(), None, 0u32));
    lemma_bag_rows(ch.bags@, loc, b, k);
    lemma_equipment_rows(ch.equipment@, loc, e);
    if 0 <= e < ch.equipment@.len() {
        let x = (ch.equipment@[e].id, loc, Some("equipped: "@ + ch.equipment@[e].slot@), 1u32);
        lemma_contains_right(bag_rows(ch.bags@, loc), equipment_rows(ch.equipment@, loc), x);
        lemma_characters_rows(chars, c, x);
        lemma_contains_right(front, characters_rows(chars), x);
    }
    if 0 <= b < ch.bags@.len() && ch.bags@[b] is Some && 0 <= k < ch.bags@[b]->0.inventory@.len()
        && ch.bags@[b]->0.inventory@[k] is Some && ch.bags@[b]->0.inventory@[k]->0.count > 0 {
        let x = (
            ch.bags@[b]->0.inventory@[k]->0.id,
            loc,
            Some("bag "@ + decimal((b + 1) as nat) + " slot "@ + decimal((k + 1) as nat)),
            ch.bags@[b]->0.inventory@[k]->0.count,
        );
        lemma_contains_left(bag_rows(ch.bags@, loc), equipment_rows(ch.equipment@, loc), x);
        lemma_characters_rows(chars, c, x);
        lemma_contains_right(front, characters_rows(chars), x);
    }
}

proof fn lemma_material_count(ms: Seq<MaterialStack>)
    ensures
        material_rows(ms).len() == stacked_count(ms),
    decreases ms.len(),
{
    if ms.len() > 0 {
        lemma_material_count(ms.drop_last());
    }
}

} // verus!
