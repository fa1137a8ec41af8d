use projicio::error::Error;
use projicio::ntv2::{get_shift, grid_cell, NTv2Grid};

fn put_i32(buf: &mut Vec<u8>, at: usize, v: i32, le: bool) {
    let b = if le { v.to_le_bytes() } else { v.to_be_bytes() };
    buf[at..at + 4].copy_from_slice(&b);
}

fn put_f64(buf: &mut Vec<u8>, at: usize, v: f64, le: bool) {
    let b = if le { v.to_le_bytes() } else { v.to_be_bytes() };
    buf[at..at + 8].copy_from_slice(&b);
}

fn put_f32(buf: &mut Vec<u8>, at: usize, v: f32, le: bool) {
    let b = if le { v.to_le_bytes() } else { v.to_be_bytes() };
    buf[at..at + 4].copy_from_slice(&b);
}

fn put_text(buf: &mut Vec<u8>, at: usize, text: &[u8]) {
    buf[at..at + text.len()].copy_from_slice(text);
}

/// An overview header declaring `num_sub` sub-grids.
fn overview(num_sub: i32, le: bool) -> Vec<u8> {
    let mut buf = vec![0u8; 176];
    put_text(&mut buf, 0, b"NUM_OREC");
    put_i32(&mut buf, 8, 11, le);
    put_text(&mut buf, 16, b"NUM_SREC");
    put_i32(&mut buf, 24, 11, le);
    put_text(&mut buf, 32, b"NUM_FILE");
    put_i32(&mut buf, 40, num_sub, le);
    buf
}

/// Appends a sub-grid header and its shift records.
fn push_sub_grid(
    buf: &mut Vec<u8>,
    name: &[u8],
    parent: &[u8],
    limits: [f64; 6],
    shifts: &[(f32, f32)],
    declared: i32,
    le: bool,
) {
    let off = buf.len();
    buf.resize(off + 176, 0);
    put_text(buf, off, b"SUB_NAME");
    put_text(buf, off + 8, name);
    put_text(buf, off + 16, b"PARENT  ");
    put_text(buf, off + 24, parent);
    for (k, v) in limits.iter().enumerate() {
        put_f64(buf, off + 72 + 16 * k, *v, le);
    }
    put_i32(buf, off + 168, declared, le);
    for (lat, lon) in shifts {
        let at = buf.len();
        buf.resize(at + 16, 0);
        put_f32(buf, at, *lat, le);
        put_f32(buf, at + 4, *lon, le);
    }
}

fn sample(le: bool) -> Vec<u8> {
    let mut buf = overview(1, le);
    push_sub_grid(
        &mut buf,
        b"TEST    ",
        b"NONE\0\0\0\0",
        [162000.0, 165600.0, 252000.0, 255600.0, 3600.0, 3600.0],
        &[(1.0, 2.0), (1.5, 2.5), (3.0, 4.0), (-0.25, 0.5)],
        4,
        le,
    );
    buf
}

#[test]
fn test_ntv2_too_small() {
    let data = vec![0u8; 100];
    assert!(NTv2Grid::is_readable(&data));
    let result = NTv2Grid::read(&data);
    assert!(result.is_err());
}

#[test]
fn too_small_error_names_the_cause() {
    let data = vec![0u8; 175];
    match NTv2Grid::read(&data) {
        Err(Error::UnsupportedCrs(m)) => assert_eq!(m, "NTv2 file too small"),
        _ => panic!("expected an error"),
    }
}

#[test]
fn header_only_file_has_no_sub_grids() {
    let buf = overview(0, true);
    let grid = NTv2Grid::read(&buf).unwrap();
    assert!(grid.sub_grids.is_empty());
}

#[test]
fn little_endian_sub_grid_fields() {
    let buf = sample(true);
    assert!(NTv2Grid::is_readable(&buf));
    let grid = NTv2Grid::read(&buf).unwrap();
    assert_eq!(grid.sub_grids.len(), 1);
    let g = &grid.sub_grids[0];
    assert_eq!(g.name, "TEST");
    assert_eq!(g.parent, "NONE");
    assert_eq!(f64::from_bits(g.lat_min), 162000.0);
    assert_eq!(f64::from_bits(g.lat_max), 165600.0);
    assert_eq!(f64::from_bits(g.lon_min), 252000.0);
    assert_eq!(f64::from_bits(g.lon_max), 255600.0);
    assert_eq!(f64::from_bits(g.lat_inc), 3600.0);
    assert_eq!(f64::from_bits(g.lon_inc), 3600.0);
    let shifts: Vec<(f32, f32)> = g
        .shifts
        .iter()
        .map(|(a, b)| (f32::from_bits(*a), f32::from_bits(*b)))
        .collect();
    assert_eq!(shifts, vec![(1.0, 2.0), (1.5, 2.5), (3.0, 4.0), (-0.25, 0.5)]);
}

#[test]
fn big_endian_reads_the_same_values() {
    let le = NTv2Grid::read(&sample(true)).unwrap();
    let be = NTv2Grid::read(&sample(false)).unwrap();
    assert_eq!(le.sub_grids.len(), be.sub_grids.len());
    let (a, b) = (&le.sub_grids[0], &be.sub_grids[0]);
    assert_eq!(a.name, b.name);
    assert_eq!(a.parent, b.parent);
    assert_eq!(
        (a.lat_min, a.lat_max, a.lon_min, a.lon_max, a.lat_inc, a.lon_inc),
        (b.lat_min, b.lat_max, b.lon_min, b.lon_max, b.lat_inc, b.lon_inc)
    );
    assert_eq!(a.shifts, b.shifts);
}

#[test]
fn truncated_records_are_dropped() {
    let mut buf = sample(true);
    let len = buf.len();
    buf.truncate(len - 20); // last record lost, the one before cut short
    let grid = NTv2Grid::read(&buf).unwrap();
    assert_eq!(grid.sub_grids[0].shifts.len(), 2);
}

#[test]
fn reads_no_more_records_than_declared() {
    let mut buf = overview(1, true);
    push_sub_grid(
        &mut buf,
        b"A       ",
        b"NONE    ",
        [0.0; 6],
        &[(1.0, 1.0), (2.0, 2.0), (3.0, 3.0)],
        2,
        true,
    );
    let grid = NTv2Grid::read(&buf).unwrap();
    assert_eq!(grid.sub_grids[0].shifts.len(), 2);
}

#[test]
fn missing_sub_grids_are_not_invented() {
    let mut buf = overview(3, true);
    push_sub_grid(&mut buf, b"A       ", b"NONE    ", [0.0; 6], &[(1.0, 1.0)], 1, true);
    push_sub_grid(&mut buf, b"B       ", b"A       ", [0.0; 6], &[], 0, true);
    buf.extend_from_slice(&[0u8; 100]); // a third header cut short
    let grid = NTv2Grid::read(&buf).unwrap();
    assert_eq!(grid.sub_grids.len(), 2);
    assert_eq!(grid.sub_grids[0].name, "A");
    assert_eq!(grid.sub_grids[1].name, "B");
    assert_eq!(grid.sub_grids[1].parent, "A");
}

#[test]
fn declared_count_limits_sub_grids() {
    let mut buf = overview(1, true);
    push_sub_grid(&mut buf, b"A       ", b"NONE    ", [0.0; 6], &[], 0, true);
    push_sub_grid(&mut buf, b"B       ", b"NONE    ", [0.0; 6], &[], 0, true);
    let grid = NTv2Grid::read(&buf).unwrap();
    assert_eq!(grid.sub_grids.len(), 1);
}

#[test]
fn trailing_bytes_are_ignored() {
    let plain = NTv2Grid::read(&sample(true)).unwrap();
    let mut buf = sample(true);
    buf.extend_from_slice(&[0xAB; 300]);
    let padded = NTv2Grid::read(&buf).unwrap();
    assert_eq!(plain.sub_grids.len(), padded.sub_grids.len());
    assert_eq!(plain.sub_grids[0].shifts, padded.sub_grids[0].shifts);
    assert_eq!(plain.sub_grids[0].name, padded.sub_grids[0].name);
}

#[test]
fn byte_order_probe_prefers_the_closer_count() {
    // Record count 12 little-endian: neither order gives 11, little-endian is closer.
    let mut buf = overview(0, true);
    put_i32(&mut buf, 8, 12, true);
    put_i32(&mut buf, 40, 1, true);
    push_sub_grid(&mut buf, b"LE      ", b"NONE    ", [0.0; 6], &[], 0, true);
    let grid = NTv2Grid::read(&buf).unwrap();
    assert_eq!(grid.sub_grids.len(), 1);
    assert_eq!(grid.sub_grids[0].name, "LE");
}

#[test]
fn negative_counts_are_not_readable() {
    let buf = overview(-1, true);
    assert!(!NTv2Grid::is_readable(&buf));
    let mut buf = overview(1, true);
    push_sub_grid(&mut buf, b"A       ", b"NONE    ", [0.0; 6], &[], -3, true);
    assert!(!NTv2Grid::is_readable(&buf));
}

#[test]
fn minimum_record_count_is_not_readable() {
    let mut buf = overview(0, true);
    put_i32(&mut buf, 8, i32::MIN, true);
    assert!(!NTv2Grid::is_readable(&buf));
}

#[test]
fn get_shift_is_row_major() {
    let shifts = vec![10, 11, 12, 20, 21, 22];
    assert_eq!(get_shift(&shifts, 3, 0, 0), Some(10));
    assert_eq!(get_shift(&shifts, 3, 1, 2), Some(22));
    assert_eq!(get_shift(&shifts, 3, 0, 2), Some(12));
    assert_eq!(get_shift(&shifts, 3, 2, 0), None);
}

#[test]
fn grid_cell_inside_and_outside() {
    assert_eq!(grid_cell(0, 0, 2, 2), Some((0, 0)));
    assert_eq!(grid_cell(1, 1, 3, 3), Some((1, 1)));
    assert_eq!(grid_cell(2, 0, 3, 3), None);
    assert_eq!(grid_cell(0, 2, 3, 3), None);
    assert_eq!(grid_cell(-1, 0, 3, 3), None);
    assert_eq!(grid_cell(0, -1, 3, 3), None);
}

#[test]
fn prefix_of_a_file_reads_its_whole_headers() {
    let mut full = overview(2, true);
    push_sub_grid(&mut full, b"A       ", b"NONE    ", [0.0; 6], &[(1.0, 1.0), (2.0, 2.0)], 2, true);
    push_sub_grid(&mut full, b"B       ", b"A       ", [0.0; 6], &[(3.0, 3.0), (4.0, 4.0)], 2, true);
    let whole = NTv2Grid::read(&full).unwrap();
    assert_eq!(whole.sub_grids.len(), 2);
    // Cut inside the second sub-grid's header: only the first remains, whole.
    let cut = &full[..176 + 176 + 32 + 100];
    let g = NTv2Grid::read(cut).unwrap();
    assert_eq!(g.sub_grids.len(), 1);
    assert_eq!(g.sub_grids[0].shifts, whole.sub_grids[0].shifts);
    // Cut inside the second sub-grid's records: its first record remains.
    let cut = &full[..176 + 176 + 32 + 176 + 20];
    let g = NTv2Grid::read(cut).unwrap();
    assert_eq!(g.sub_grids.len(), 2);
    assert_eq!(g.sub_grids[1].name, "B");
    assert_eq!(g.sub_grids[1].shifts, whole.sub_grids[1].shifts[..1].to_vec());
    // Cut inside the overview's first sub-grid header: none.
    let g = NTv2Grid::read(&full[..300]).unwrap();
    assert!(g.sub_grids.is_empty());
}
