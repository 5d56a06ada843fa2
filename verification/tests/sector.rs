use hashcarve::sector::{align_to_sector, next_sector, SECTOR_SIZE};

#[test]
fn start_offset_513_scans_from_512() {
    assert_eq!(align_to_sector(513), 512);
}

#[test]
fn aligned_offsets_stay() {
    assert_eq!(align_to_sector(0), 0);
    assert_eq!(align_to_sector(512), 512);
    assert_eq!(align_to_sector(1024), 1024);
}

#[test]
fn offsets_round_down_within_their_sector() {
    assert_eq!(align_to_sector(1), 0);
    assert_eq!(align_to_sector(511), 0);
    assert_eq!(align_to_sector(1023), 512);
    assert_eq!(align_to_sector(u64::MAX), u64::MAX - 511);
}

#[test]
fn next_sector_adds_one_sector() {
    assert_eq!(SECTOR_SIZE, 512);
    assert_eq!(next_sector(0), Some(512));
    assert_eq!(next_sector(512), Some(1024));
}

#[test]
fn next_sector_stops_at_the_end_of_the_address_space() {
    assert_eq!(next_sector(u64::MAX - 511), None);
    assert_eq!(next_sector(u64::MAX - 512), Some(u64::MAX));
}
