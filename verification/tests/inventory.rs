use gw2_overlay::api::endpoints::{Character, CharacterBag, EquipmentSlot, InventorySlot, MaterialStack};
use gw2_overlay::sync::inventory::{inventory_rows, material_category_name};

#[test]
fn category_names() {
    assert_eq!(material_category_name(5), Some("Matériaux de cuisine"));
    assert_eq!(material_category_name(46), Some("Matériaux élevés"));
    assert_eq!(material_category_name(7), None);
}

#[test]
fn rows_cover_every_location() {
    let bank = vec![
        Some(InventorySlot { id: 10, count: 2 }),
        None,
        Some(InventorySlot { id: 11, count: 0 }),
        Some(InventorySlot { id: 12, count: 1 }),
    ];
    let materials = vec![
        MaterialStack { id: 20, count: 250, category: Some(5) },
        MaterialStack { id: 21, count: 3, category: Some(77) },
        MaterialStack { id: 22, count: 0, category: Some(5) },
        MaterialStack { id: 23, count: 1, category: None },
    ];
    let shared = vec![None, Some(InventorySlot { id: 30, count: 4 })];
    let chars = vec![Character {
        name: "Zoja".into(),
        bags: vec![
            None,
            Some(CharacterBag {
                inventory: vec![Some(InventorySlot { id: 40, count: 1 }), None, Some(InventorySlot { id: 41, count: 5 })],
            }),
        ],
        equipment: vec![EquipmentSlot { id: 50, slot: "Shield".into() }],
    }];
    let rows = inventory_rows(&bank, &materials, &shared, &chars);
    let got: Vec<(u32, String, Option<String>, u32)> = rows
        .into_iter()
        .map(|r| (r.item_id, r.location, r.location_detail, r.count))
        .collect();
    let s = |x: &str| x.to_string();
    assert_eq!(
        got,
        vec![
            (10, s("bank"), Some(s("slot 1")), 2),
            (12, s("bank"), Some(s("slot 4")), 1),
            (20, s("materials"), Some(s("Matériaux de cuisine")), 250),
            (21, s("materials"), Some(s("category 77")), 3),
            (23, s("materials"), None, 1),
            (30, s("shared_inventory"), Some(s("slot 2")), 4),
            (40, s("character:Zoja"), Some(s("bag 2 slot 1")), 1),
            (41, s("character:Zoja"), Some(s("bag 2 slot 3")), 5),
            (50, s("character:Zoja"), Some(s("equipped: Shield")), 1),
        ]
    );
}
