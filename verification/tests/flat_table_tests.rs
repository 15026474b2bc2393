use cfg_core::flat_table::FlatTable;

#[test]
fn packing_rows_records_their_starts() {
    let table2d: Vec<Vec<u32>> = vec![vec![10, 11], Vec::new(), vec![12], vec![13, 14, 15]];
    let flat = FlatTable::from_vec_vec(table2d);
    assert_eq!(flat.rows, vec![0, 2, 2, 3]);
    assert_eq!(flat.table, vec![10, 11, 12, 13, 14, 15]);
    assert_eq!(flat.size(), 6);
    assert_eq!(*flat.get_by_id(2), 12);
    assert_eq!(flat.row(0), &[10, 11]);
    assert_eq!(flat.row(1), &[] as &[u32]);
    assert_eq!(flat.row(2), &[12]);
    assert_eq!(flat.row(3), &[13, 14, 15]);
}

#[test]
fn raw_construction_keeps_the_parts() {
    let flat: FlatTable<u8> = FlatTable::new(vec![7, 8, 9], vec![0, 1]);
    assert_eq!(flat.table, vec![7, 8, 9]);
    assert_eq!(flat.rows, vec![0, 1]);
    assert_eq!(flat.row(0), &[7]);
    assert_eq!(flat.row(1), &[8, 9]);
}
