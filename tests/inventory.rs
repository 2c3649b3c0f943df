use cargosos_bitcoin::inventory::{
    read_inventory_payload, write_inventory_payload, Inventory, InventoryType,
};

#[test]
fn inventory_round_trip() {
    let xs = vec![
        Inventory { kind: InventoryType::Tx, hash: [1; 32] },
        Inventory { kind: InventoryType::Block, hash: [2; 32] },
        Inventory { kind: InventoryType::Error, hash: [0; 32] },
    ];
    let mut out = Vec::new();
    write_inventory_payload(&xs, &mut out);
    assert_eq!(out.len(), 1 + 36 * 3);
    assert_eq!(&out[0..5], &[3, 1, 0, 0, 0]);
    assert_eq!(&out[37..41], &[2, 0, 0, 0]);
    assert_eq!(read_inventory_payload(&out), Ok(xs));
}

#[test]
fn inventory_unknown_type_is_refused() {
    let xs = vec![Inventory { kind: InventoryType::Tx, hash: [1; 32] }];
    let mut out = Vec::new();
    write_inventory_payload(&xs, &mut out);
    out[1] = 7;
    assert!(read_inventory_payload(&out).is_err());
}

#[test]
fn inventory_trailing_bytes_are_refused() {
    let mut out = Vec::new();
    write_inventory_payload(&Vec::new(), &mut out);
    assert_eq!(out, vec![0]);
    assert_eq!(read_inventory_payload(&out), Ok(Vec::new()));
    out.push(0);
    assert!(read_inventory_payload(&out).is_err());
}
