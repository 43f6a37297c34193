use rbom::Bom;
use rbom::BomError;
use rbom::EntryCopier;
use rbom::PairCounter;
use rbom::Tree;

fn put(buf: &mut Vec<u8>, off: usize, bytes: &[u8]) {
    buf[off..off + bytes.len()].copy_from_slice(bytes);
}

fn put_u16(buf: &mut Vec<u8>, off: usize, v: u16) {
    put(buf, off, &v.to_be_bytes());
}

fn put_u32(buf: &mut Vec<u8>, off: usize, v: u32) {
    put(buf, off, &v.to_be_bytes());
}

fn write_header(
    buf: &mut Vec<u8>,
    version: u32,
    number_of_blocks: u32,
    index_offset: u32,
    index_length: u32,
    vars_offset: u32,
    vars_length: u32,
) {
    put(buf, 0, b"BOMStore");
    put_u32(buf, 8, version);
    put_u32(buf, 12, number_of_blocks);
    put_u32(buf, 16, index_offset);
    put_u32(buf, 20, index_length);
    put_u32(buf, 24, vars_offset);
    put_u32(buf, 28, vars_length);
}

/// Writes a `(count, entries)` table at `off` and returns the offset just
/// past it.
fn write_table(buf: &mut Vec<u8>, off: usize, entries: &[(u32, u32)]) -> usize {
    put_u32(buf, off, entries.len() as u32);
    let mut p = off + 4;
    for (address, length) in entries {
        put_u32(buf, p, *address);
        put_u32(buf, p + 4, *length);
        p += 8;
    }
    p
}

fn write_vars(buf: &mut Vec<u8>, off: usize, vars: &[(u32, &str)]) -> usize {
    put_u32(buf, off, vars.len() as u32);
    let mut p = off + 4;
    for (index, name) in vars {
        put_u32(buf, p, *index);
        buf[p + 4] = name.len() as u8;
        put(buf, p + 5, name.as_bytes());
        p += 5 + name.len();
    }
    p
}

/// A small well-formed container: a "Paths" tree of two sibling leaves
/// holding 13 + 12 = 25 key/value pairs, every pair pointing at the same
/// key and value blocks.
fn small_bom() -> Vec<u8> {
    let mut buf = vec![0u8; 370];
    write_header(&mut buf, 1, 6, 284, 72, 356, 14);
    // Tree root record at 32 (block 1): child is block 2.
    put(&mut buf, 32, b"tree");
    put_u32(&mut buf, 36, 1);
    put_u32(&mut buf, 40, 2);
    put_u32(&mut buf, 44, 4096);
    put_u32(&mut buf, 48, 25);
    // First leaf at 53 (block 2): 13 pairs, forward sibling block 3.
    put_u16(&mut buf, 53, 1);
    put_u16(&mut buf, 55, 13);
    put_u32(&mut buf, 57, 3);
    put_u32(&mut buf, 61, 0);
    for j in 0..13 {
        put_u32(&mut buf, 65 + 8 * j, 5);
        put_u32(&mut buf, 69 + 8 * j, 4);
    }
    // Second leaf at 169 (block 3): 12 pairs, no forward sibling.
    put_u16(&mut buf, 169, 1);
    put_u16(&mut buf, 171, 12);
    put_u32(&mut buf, 173, 0);
    put_u32(&mut buf, 177, 2);
    for j in 0..12 {
        put_u32(&mut buf, 181 + 8 * j, 5);
        put_u32(&mut buf, 185 + 8 * j, 4);
    }
    // Key block at 277 (block 4) and value block at 281 (block 5).
    put(&mut buf, 277, &[0, 0, 0, 42]);
    put(&mut buf, 281, &[1, 2, 3]);
    // Block table, then the free-block table, inside the index region.
    let end = write_table(
        &mut buf,
        284,
        &[(0, 0), (32, 21), (53, 116), (169, 108), (277, 4), (281, 3)],
    );
    assert_eq!(end, 336);
    let end = write_table(&mut buf, 336, &[(0, 0), (0, 0)]);
    assert_eq!(end, 356);
    // Variable directory.
    let end = write_vars(&mut buf, 356, &[(1, "Paths")]);
    assert_eq!(end, 370);
    buf
}

/// A buffer whose decoded header, table lengths, and variable directory
/// reproduce a known asset-catalog fixture.
fn car_like() -> Vec<u8> {
    let mut buf = vec![0u8; 48400];
    write_header(&mut buf, 1, 62, 9872, 2088, 48256, 117);
    let entries = vec![(0u32, 0u32); 256];
    let end = write_table(&mut buf, 9872, &entries);
    assert_eq!(end, 11924);
    let end = write_table(&mut buf, 11924, &[(0, 0); 3]);
    assert_eq!(end, 11952);
    let end = write_vars(
        &mut buf,
        48256,
        &[
            (1, "CARHEADER"),
            (2, "RENDITIONS"),
            (4, "FACETKEYS"),
            (6, "APPEARANCEKEYS"),
            (24, "KEYFORMAT"),
            (53, "EXTENDED_METADATA"),
            (54, "BITMAPKEYS"),
        ],
    );
    assert_eq!(end, 48256 + 117);
    buf
}

/// A buffer whose decoded header, table lengths, and variable directory
/// reproduce a known installer-receipt fixture.
fn bom_like() -> Vec<u8> {
    let mut buf = vec![0u8; 35360];
    write_header(&mut buf, 1, 28, 13455, 21896, 8994, 60);
    let end = write_vars(
        &mut buf,
        8994,
        &[(1, "BomInfo"), (2, "Paths"), (4, "HLIndex"), (9, "Size64"), (6, "VIndex")],
    );
    assert_eq!(end, 8994 + 60);
    let entries = vec![(0u32, 0u32); 2730];
    let end = write_table(&mut buf, 13455, &entries);
    assert_eq!(end, 35299);
    let end = write_table(&mut buf, 35299, &[(0, 0); 4]);
    assert_eq!(end, 35335);
    buf
}

#[test]
fn parsing_car() {
    let car = Bom::new(car_like()).unwrap();
    assert_eq!(car.header.signature, [66, 79, 77, 83, 116, 111, 114, 101]);
    assert_eq!(car.header.version, 1);
    assert_eq!(car.header.number_of_blocks, 62);
    assert_eq!(car.header.index_offset, 9872);
    assert_eq!(car.header.index_length, 2088);
    assert_eq!(car.header.vars_offset, 48256);
    assert_eq!(car.header.vars_length, 117);
    assert_eq!(car.pointers.len(), 256);
    assert_eq!(car.free_pointers.len(), 3);
    assert_eq!(car.variables.len(), 7);
    assert_eq!(car.variable("CARHEADER"), Some(1));
    assert_eq!(car.variable("RENDITIONS"), Some(2));
    assert_eq!(car.variable("FACETKEYS"), Some(4));
    assert_eq!(car.variable("APPEARANCEKEYS"), Some(6));
    assert_eq!(car.variable("KEYFORMAT"), Some(24));
    assert_eq!(car.variable("EXTENDED_METADATA"), Some(53));
    assert_eq!(car.variable("BITMAPKEYS"), Some(54));
}

#[test]
fn parsing_bom() {
    let bom = Bom::new(bom_like()).unwrap();
    assert_eq!(bom.header.signature, [66, 79, 77, 83, 116, 111, 114, 101]);
    assert_eq!(bom.header.version, 1);
    assert_eq!(bom.header.number_of_blocks, 28);
    assert_eq!(bom.header.index_offset, 13455);
    assert_eq!(bom.header.index_length, 21896);
    assert_eq!(bom.header.vars_offset, 8994);
    assert_eq!(bom.header.vars_length, 60);
    assert_eq!(bom.pointers.len(), 2730);
    assert_eq!(bom.free_pointers.len(), 4);
}

#[test]
fn parsing_variables() {
    let bom = Bom::new(bom_like()).unwrap();
    assert_eq!(bom.variables.len(), 5);
    assert_eq!(bom.variable("Size64"), Some(9));
    assert_eq!(bom.variable("VIndex"), Some(6));
    assert_eq!(bom.variable("Paths"), Some(2));
    assert_eq!(bom.variable("BomInfo"), Some(1));
    assert_eq!(bom.variable("HLIndex"), Some(4));
}

#[test]
fn reducing_tree() {
    let bom = Bom::new(small_bom()).unwrap();
    let pointer = bom.pointer_for_var("Paths").unwrap();
    let address = pointer.address as usize;
    let tree = Tree::parse(&bom.buffer[address..]).unwrap();
    let result = bom.reduce_tree(tree.child, 0u64, &PairCounter);
    assert_eq!(result, 25);
}

#[test]
fn mapping_tree() {
    let bom = Bom::new(small_bom()).unwrap();
    let pointer = bom.pointer_for_var("Paths").unwrap();
    let address = pointer.address as usize;
    let tree = Tree::parse(&bom.buffer[address..]).unwrap();
    let result = bom.map_tree(tree.child, &EntryCopier);
    assert_eq!(result.len(), 25);
    assert_eq!(result[0], (vec![0, 0, 0, 42], vec![1, 2, 3]));
    assert_eq!(result[24], (vec![0, 0, 0, 42], vec![1, 2, 3]));
}

#[test]
fn reducing_tree_for_variable() {
    let bom = Bom::new(small_bom()).unwrap();
    let result = bom.reduce_tree_for_variable("Paths", 0u64, &PairCounter);
    assert_eq!(result, Ok(25));
}

#[test]
fn mapping_tree_for_variable() {
    let bom = Bom::new(small_bom()).unwrap();
    let result = bom.map_tree_for_variable("Paths", &EntryCopier).unwrap();
    assert_eq!(result.len(), 25);
    assert_eq!(result[7], (vec![0, 0, 0, 42], vec![1, 2, 3]));
}

#[test]
fn missing_variable_is_not_found() {
    let bom = Bom::new(small_bom()).unwrap();
    let result = bom.reduce_tree_for_variable("Nope", 0u64, &PairCounter);
    assert_eq!(result, Err("Variable not found: Nope".to_string()));
    let mapped = bom.map_tree_for_variable("Nope", &EntryCopier);
    assert_eq!(mapped, Err("Variable not found: Nope".to_string()));
    assert!(bom.pointer_for_var("Nope").is_none());
}

#[test]
fn corrupt_leaf_entries_are_skipped() {
    let mut buf = small_bom();
    // Second leaf, first pair: key block index out of range.
    put_u32(&mut buf, 181, 5);
    put_u32(&mut buf, 185, 99);
    // Second leaf, second pair: value block 0 is zero-length.
    put_u32(&mut buf, 189, 0);
    put_u32(&mut buf, 193, 4);
    let bom = Bom::new(buf).unwrap();
    let result = bom.reduce_tree_for_variable("Paths", 0u64, &PairCounter);
    // The two corrupt pairs are skipped; the other 23 still fold.
    assert_eq!(result, Ok(23));
    let mapped = bom.map_tree_for_variable("Paths", &EntryCopier).unwrap();
    assert_eq!(mapped.len(), 23);
}

#[test]
fn malformed_internal_node_is_childless() {
    let mut buf = vec![0u8; 128];
    write_header(&mut buf, 1, 5, 76, 48, 124, 4);
    // Block 1 at 32: not a leaf, but claims 5 entries; forward to block 2.
    put_u16(&mut buf, 32, 0);
    put_u16(&mut buf, 34, 5);
    put_u32(&mut buf, 36, 2);
    put_u32(&mut buf, 40, 0);
    // Block 2 at 44: a leaf with 2 pairs.
    put_u16(&mut buf, 44, 1);
    put_u16(&mut buf, 46, 2);
    put_u32(&mut buf, 48, 0);
    put_u32(&mut buf, 52, 0);
    put_u32(&mut buf, 56, 4);
    put_u32(&mut buf, 60, 3);
    put_u32(&mut buf, 64, 4);
    put_u32(&mut buf, 68, 3);
    // Key and value blocks.
    put(&mut buf, 72, &[7, 8]);
    buf[74] = 9;
    let end = write_table(&mut buf, 76, &[(0, 0), (32, 12), (44, 28), (72, 2), (74, 1)]);
    assert_eq!(end, 120);
    let end = write_table(&mut buf, 120, &[]);
    assert_eq!(end, 124);
    put_u32(&mut buf, 124, 0);
    let bom = Bom::new(buf).unwrap();
    // The malformed internal node contributes no child pairs, but its
    // forward sibling is still walked.
    let result = bom.reduce_tree(1, 0u64, &PairCounter);
    assert_eq!(result, 2);
}

#[test]
fn internal_node_descends_into_child() {
    let mut buf = vec![0u8; 125];
    write_header(&mut buf, 1, 5, 73, 48, 121, 4);
    // Block 1 at 32, length 12: an internal node; its child index is
    // stored at address + length.
    put_u16(&mut buf, 32, 0);
    put_u16(&mut buf, 34, 0);
    put_u32(&mut buf, 36, 0);
    put_u32(&mut buf, 40, 0);
    put_u32(&mut buf, 44, 2);
    // Block 2 at 48: a leaf with one pair.
    put_u16(&mut buf, 48, 1);
    put_u16(&mut buf, 50, 1);
    put_u32(&mut buf, 52, 0);
    put_u32(&mut buf, 56, 0);
    put_u32(&mut buf, 60, 4);
    put_u32(&mut buf, 64, 3);
    // Key and value blocks.
    put(&mut buf, 68, &[1, 1, 2]);
    put(&mut buf, 71, &[5, 6]);
    let end = write_table(&mut buf, 73, &[(0, 0), (32, 12), (48, 20), (68, 3), (71, 2)]);
    assert_eq!(end, 117);
    let end = write_table(&mut buf, 117, &[]);
    assert_eq!(end, 121);
    put_u32(&mut buf, 121, 0);
    let bom = Bom::new(buf).unwrap();
    assert_eq!(bom.reduce_tree(1, 0u64, &PairCounter), 1);
    let pairs = bom.map_tree(1, &EntryCopier);
    assert_eq!(pairs, vec![(vec![1, 1, 2], vec![5, 6])]);
}

#[test]
fn block_lookup_is_bounds_checked() {
    let bom = Bom::new(small_bom()).unwrap();
    let n = bom.pointers.len() as u32;
    assert_eq!(n, 6);
    for i in 0..n {
        let p = bom.pointer(i).unwrap();
        // Every table entry of this fixture is a range inside the buffer.
        assert!(p.address as usize + p.length as usize <= bom.buffer.len());
    }
    assert!(bom.pointer(n).is_none());
    assert!(bom.pointer(u32::MAX).is_none());
}

#[test]
fn free_table_is_informational() {
    let bom = Bom::new(small_bom()).unwrap();
    // The free-block count does not complement the block count; the file
    // still loads.
    assert_eq!(bom.pointers.len(), 6);
    assert_eq!(bom.free_pointers.len(), 2);
    assert_ne!(
        bom.pointers.len() + bom.free_pointers.len(),
        bom.header.number_of_blocks as usize
    );
}

#[test]
fn signature_is_not_validated() {
    // The decoder exposes the signature but attaches no meaning to it.
    let mut buf = small_bom();
    put(&mut buf, 0, b"SOMEBLOB");
    let bom = Bom::new(buf).unwrap();
    assert_eq!(&bom.header.signature, b"SOMEBLOB");
    assert_eq!(bom.reduce_tree_for_variable("Paths", 0u64, &PairCounter), Ok(25));
}

#[test]
fn short_buffer_is_rejected() {
    assert_eq!(Bom::new(vec![0u8; 31]).unwrap_err(), BomError::HeaderOutOfBounds);
    assert_eq!(Bom::new(Vec::new()).unwrap_err(), BomError::HeaderOutOfBounds);
}

#[test]
fn block_table_past_end_is_rejected() {
    let mut buf = vec![0u8; 40];
    write_header(&mut buf, 1, 0, 100, 8, 36, 4);
    assert_eq!(Bom::new(buf).unwrap_err(), BomError::BlockTableOutOfBounds);
    let mut buf = vec![0u8; 48];
    write_header(&mut buf, 1, 0, 32, 8, 44, 4);
    put_u32(&mut buf, 32, u32::MAX);
    assert_eq!(Bom::new(buf).unwrap_err(), BomError::BlockTableOutOfBounds);
}

#[test]
fn free_table_outside_index_region_is_rejected() {
    let mut buf = vec![0u8; 64];
    // One block entry: the table spans 32..44, but the declared region
    // length leaves no room for the free-block table's count.
    write_header(&mut buf, 1, 1, 32, 12, 60, 4);
    write_table(&mut buf, 32, &[(0, 0)]);
    assert_eq!(Bom::new(buf).unwrap_err(), BomError::FreeTableOutOfBounds);
}

#[test]
fn variable_entry_past_end_is_rejected() {
    let mut buf = vec![0u8; 60];
    write_header(&mut buf, 1, 0, 32, 8, 52, 8);
    put_u32(&mut buf, 52, 1);
    assert_eq!(Bom::new(buf).unwrap_err(), BomError::VarsOutOfBounds);

    let mut buf = vec![0u8; 62];
    write_header(&mut buf, 1, 0, 32, 8, 52, 10);
    put_u32(&mut buf, 52, 1);
    put_u32(&mut buf, 56, 7);
    buf[60] = 5;
    assert_eq!(Bom::new(buf).unwrap_err(), BomError::VarsOutOfBounds);
}

#[test]
fn tree_root_out_of_bounds_fails_the_fold() {
    let mut buf = vec![0u8; 70];
    write_header(&mut buf, 1, 2, 32, 24, 56, 10);
    // Block 1 is a 5-byte range near the buffer end: far too short for
    // the 21-byte tree-root record.
    write_table(&mut buf, 32, &[(0, 0), (50, 5)]);
    write_table(&mut buf, 52, &[]);
    write_vars(&mut buf, 56, &[(1, "X")]);
    let bom = Bom::new(buf).unwrap();
    let result = bom.reduce_tree_for_variable("X", 0u64, &PairCounter);
    assert_eq!(result, Err("Tree root out of bounds: X".to_string()));
}

#[test]
fn duplicate_variable_names_last_wins() {
    let mut buf = vec![0u8; 61];
    write_header(&mut buf, 1, 0, 32, 8, 40, 21);
    write_table(&mut buf, 32, &[]);
    write_table(&mut buf, 36, &[]);
    let end = write_vars(&mut buf, 40, &[(1, "A"), (4, "A"), (3, "")]);
    assert_eq!(end, 61);
    let bom = Bom::new(buf).unwrap();
    assert_eq!(bom.variable("A"), Some(4));
    assert_eq!(bom.variable(""), Some(3));
    assert_eq!(bom.variable("B"), None);
}

#[test]
fn corrupt_sibling_link_ends_the_chain() {
    let mut buf = small_bom();
    // First leaf's forward link points outside the block table: its own 13
    // pairs still fold, but the chain past it is gone.
    put_u32(&mut buf, 57, 77);
    let bom = Bom::new(buf).unwrap();
    assert_eq!(bom.reduce_tree_for_variable("Paths", 0u64, &PairCounter), Ok(13));
}

#[test]
fn truncated_leaf_pair_is_skipped() {
    let mut buf = vec![0u8; 121];
    write_header(&mut buf, 1, 4, 32, 40, 76, 4);
    let end = write_table(&mut buf, 32, &[(0, 0), (100, 12), (72, 2), (74, 2)]);
    assert_eq!(end, 68);
    write_table(&mut buf, 68, &[]);
    put(&mut buf, 72, &[9, 9]);
    put(&mut buf, 74, &[8, 8]);
    // Leaf at 100 declares 2 pairs, but only the first one's index record
    // fits inside the buffer.
    put_u16(&mut buf, 100, 1);
    put_u16(&mut buf, 102, 2);
    put_u32(&mut buf, 104, 0);
    put_u32(&mut buf, 108, 0);
    put_u32(&mut buf, 112, 3);
    put_u32(&mut buf, 116, 2);
    let bom = Bom::new(buf).unwrap();
    assert_eq!(bom.reduce_tree(1, 0u64, &PairCounter), 1);
}

#[test]
fn cyclic_sibling_chain_terminates() {
    let mut buf = vec![0u8; 104];
    write_header(&mut buf, 1, 4, 32, 40, 76, 4);
    let end = write_table(&mut buf, 32, &[(0, 0), (80, 12), (100, 2), (102, 2)]);
    assert_eq!(end, 68);
    write_table(&mut buf, 68, &[]);
    // Leaf at 80 whose forward link points back at itself: the walk's
    // fuel — one unit per block-table entry — runs out instead of
    // looping, visiting the node once per unit.
    put_u16(&mut buf, 80, 1);
    put_u16(&mut buf, 82, 1);
    put_u32(&mut buf, 84, 1);
    put_u32(&mut buf, 88, 0);
    put_u32(&mut buf, 92, 3);
    put_u32(&mut buf, 96, 2);
    put(&mut buf, 100, &[1, 2]);
    put(&mut buf, 102, &[3, 4]);
    let bom = Bom::new(buf).unwrap();
    assert_eq!(bom.reduce_tree(1, 0u64, &PairCounter), 4);
}

#[test]
fn invalid_root_index_yields_empty_walk() {
    let bom = Bom::new(small_bom()).unwrap();
    assert_eq!(bom.reduce_tree(9999, 0u64, &PairCounter), 0);
    assert_eq!(bom.map_tree(9999, &EntryCopier), Vec::new());
}
