use rlb::relocation::RelocationTable;

#[test]
fn is_relocated_reflects_exactly_the_site_list() {
    let table = RelocationTable::from_raw(&[0x10, 0x40]);

    assert!(table.is_relocated(0x10));
    assert!(table.is_relocated(0x40));
    assert!(
        !table.is_relocated(0x20),
        "an offset not in the table must not be reported as a pointer site"
    );
}

#[test]
fn sites_preserves_on_disk_order_for_round_tripping() {
    let table = RelocationTable::from_raw(&[0x40, 0x10, 0x30]);
    let sites: Vec<u32> = table.sites();
    assert_eq!(sites, vec![0x40, 0x10, 0x30]);
}

#[test]
fn relocation_table_counts_and_slices_its_sites() {
    let table = RelocationTable::from_raw(&[8, 4, 8]);
    assert_eq!(table.len(), 3);
    assert!(!table.is_empty());
    assert_eq!(table.as_slice(), &[8, 4, 8]);
    assert!(table.is_relocated(4));
    assert!(!table.is_relocated(0));
}

#[test]
fn default_relocation_table_is_empty() {
    let table = RelocationTable::default();
    assert_eq!(table.len(), 0);
    assert!(table.is_empty());
    assert!(!table.is_relocated(0));
    assert!(table.sites().is_empty());
}
