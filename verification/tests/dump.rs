use inventory_sim::error::Error;
use inventory_sim::fs::parse_dump;
use inventory_sim::lang::{display_name, shown_name, translate_name};

#[test]
fn dump_is_address_and_manager() {
    let mut dump = vec![0u8; 8 + 0x44808];
    dump[..8].copy_from_slice(&0xa982_c8b0u64.to_le_bytes());
    dump[8] = 0x11;
    dump[8 + 0x44807] = 0x22;
    let (address, data) = parse_dump(&dump).unwrap();
    assert_eq!(address, 0xa982_c8b0);
    assert_eq!(data.len(), 0x44808);
    assert_eq!(data[0], 0x11);
    assert_eq!(data[0x44807], 0x22);
}

#[test]
fn dump_of_another_size_is_refused() {
    assert_eq!(
        parse_dump(&[0u8; 16]),
        Err(Error::SizeMismatch { expected: 0x44810, found: 16 })
    );
    assert_eq!(
        parse_dump(&[]),
        Err(Error::SizeMismatch { expected: 0x44810, found: 0 })
    );
    assert_eq!(
        parse_dump(&vec![0u8; 0x44811]),
        Err(Error::SizeMismatch { expected: 0x44810, found: 0x44811 })
    );
}

#[test]
fn translation_is_looked_up_by_name() {
    let table: serde_json::Value =
        serde_json::from_str("{\"Weapon_Sword_070\": \"Master Sword\", \"Count\": 3}").unwrap();
    assert_eq!(
        translate_name("Weapon_Sword_070", table.clone()),
        Some(String::from("Master Sword"))
    );
    assert_eq!(translate_name("Weapon_Sword_071", table.clone()), None);
    // A member that is no string is no translation.
    assert_eq!(translate_name("Count", table.clone()), None);
    // A table that is no object holds no translation.
    let list: serde_json::Value = serde_json::from_str("[\"Weapon_Sword_070\"]").unwrap();
    assert_eq!(translate_name("Weapon_Sword_070", list), None);
    assert_eq!(display_name("Weapon_Sword_070", table.clone()), "Master Sword");
    assert_eq!(display_name("Obj_KorokNuts", table), "Obj_KorokNuts");
    assert_eq!(shown_name("a", None), "a");
    assert_eq!(shown_name("a", Some(String::from("b"))), "b");
}
