use landfill::{DiskBytes, FillError, GuardedLandfill, Landfill, MappedFile};

#[test]
fn mapped_file_reads_what_was_stored() -> Result<(), FillError> {
    let mut file = MappedFile::anon(16)?;
    assert!(file.is_anonymous());
    assert_eq!(file.len(), 16);
    // Anonymous memory starts out as zeroes.
    assert_eq!(file.read(0, 16), &[0u8; 16]);
    file.store(3, b"abc");
    assert_eq!(file.read(3, 3), b"abc");
    assert_eq!(file.read(0, 16), b"\0\0\0abc\0\0\0\0\0\0\0\0\0\0");
    file.flush()?;
    let map = memmap2::MmapMut::map_anon(4).unwrap();
    let file = MappedFile::from_map(map);
    assert!(!file.is_anonymous());
    assert_eq!(file.len(), 4);
    Ok(())
}

#[test]
fn mapping_more_than_there_is_fails() -> Result<(), FillError> {
    // What the operating system refuses is handed on as it came.
    assert!(matches!(MappedFile::anon(usize::MAX), Err(FillError::Io(_))));
    let root = GuardedLandfill::root();
    let mut lf = Landfill::ephemeral()?;
    assert!(matches!(
        lf.map_file_create(&root, "huge", usize::MAX as u64),
        Err(FillError::Io(_))
    ));
    // The name is still free.
    assert!(lf.map_file_create(&root, "huge", 1)?.is_some());
    Ok(())
}

#[test]
fn landfill_hands_out_each_file_once() -> Result<(), FillError> {
    let root = GuardedLandfill::root();
    let mut lf = Landfill::ephemeral()?;
    assert!(lf.is_ephemeral());
    let file = lf.map_file_create(&root, "file", 8)?.unwrap();
    assert_eq!(file.len(), 8);
    assert!(lf.is_reserved(&"file".to_string()));
    // The name is taken now.
    assert!(lf.map_file_create(&root, "file", 8)?.is_none());
    assert!(lf.map_file_existing(&root, "file", 8)?.is_none());
    // An ephemeral landfill has no files of old.
    assert!(lf.map_file_existing(&root, "other", 8)?.is_none());
    assert!(!lf.is_reserved(&"other".to_string()));
    // A file that is supplied to it is handed out like any other.
    let mut given = MappedFile::anon(2)?;
    given.store(0, b"hi");
    lf.supply("given".to_string(), given)?;
    assert_eq!(lf.map_file_existing(&root, "given", 2)?.unwrap().read(0, 2), b"hi");
    // Names are claimed once.
    assert!(lf.register_name("name".to_string()));
    assert!(!lf.register_name("name".to_string()));
    Ok(())
}

#[test]
fn landfill_on_disk_maps_what_it_is_given() -> Result<(), FillError> {
    let mut old = MappedFile::anon(4)?;
    old.store(0, b"data");
    let mut lf = Landfill::open(vec![("a_file".to_string(), old)])?;
    assert!(!lf.is_ephemeral());
    let scope = GuardedLandfill::root().branch("a");
    // The wrong size is refused, and the file stays where it is.
    assert!(matches!(
        lf.map_file_existing(&scope, "file", 5),
        Err(FillError::SizeMismatch { .. })
    ));
    assert!(matches!(lf.map_file_create(&scope, "file", 5), Err(FillError::SizeMismatch { .. })));
    let file = lf.map_file_existing(&scope, "file", 4)?.unwrap();
    assert_eq!(file.read(0, 4), b"data");
    assert!(lf.map_file_existing(&scope, "file", 4)?.is_none());
    // A file that does not exist is asked for when it is to be created.
    assert!(lf.map_file_existing(&scope, "new", 2)?.is_none());
    match lf.map_file_create(&scope, "new", 2) {
        Err(FillError::Unmapped { name, size }) => {
            assert_eq!((name.as_str(), size), ("a_new", 2));
            lf.supply(name, MappedFile::anon(2)?)?;
        }
        _ => panic!("the file is not there"),
    }
    // It cannot be supplied twice.
    assert!(matches!(
        lf.supply("a_new".to_string(), MappedFile::anon(2)?),
        Err(FillError::Duplicate)
    ));
    assert!(lf.map_file_create(&scope, "new", 2)?.is_some());
    // Nor once its name is claimed.
    assert!(matches!(
        lf.supply("a_new".to_string(), MappedFile::anon(2)?),
        Err(FillError::Duplicate)
    ));
    Ok(())
}

#[test]
fn landfill_close_leaves_the_files_that_wait() -> Result<(), FillError> {
    let mut lf = Landfill::open(vec![
        ("one".to_string(), MappedFile::anon(1)?),
        ("two".to_string(), MappedFile::anon(2)?),
    ])?;
    let root = GuardedLandfill::root();
    let mut two = lf.map_file_existing(&root, "two", 2)?.unwrap();
    two.store(0, b"zz");
    // A file that is mapped is not in the book until it is put back.
    lf.put_back("two".to_string(), two);
    let mut left = lf.close();
    left.sort_by(|a, b| a.0.cmp(&b.0));
    assert_eq!(left.len(), 2);
    assert_eq!(left[0].0, "one");
    assert_eq!(left[1].0, "two");
    assert_eq!(left[1].1.read(0, 2), b"zz");

    let mut lf = Landfill::open(left)?;
    assert!(!lf.self_destruct_sequence_initiated());
    lf.self_destruct();
    assert!(lf.self_destruct_sequence_initiated());
    assert!(lf.close().is_empty());
    // An ephemeral landfill leaves nothing.
    assert!(Landfill::ephemeral()?.close().is_empty());
    Ok(())
}

#[test]
fn arena_places_records_inside_lanes() {
    // With lanes of 32, 64, 128, ... bytes, a record of 40 bytes at offset 10
    // has to go to lane 1, which starts at 32.
    assert_eq!(DiskBytes::<32>::find_space_for(10, 40, 1), 32);
    // Aligned to 64 bytes it goes to 64, which leaves 32 bytes in lane 1:
    // not enough, so it moves on to lane 2, which starts at 96, and there
    // to the next multiple of 64.
    assert_eq!(DiskBytes::<32>::find_space_for(10, 40, 64), 128);
    assert_eq!(DiskBytes::<32>::find_space_for(10, 32, 64), 64);
    // An offset that is aligned and has room is taken as it is.
    assert_eq!(DiskBytes::<32>::find_space_for(16, 16, 16), 16);
    assert_eq!(DiskBytes::<32>::find_space_for(17, 1, 16), 32);
    // The record of the result begins and ends in the same lane.
    for offset in 0..2000u64 {
        for (len, alignment) in [(1usize, 1usize), (7, 4), (33, 8), (100, 3)] {
            let found = DiskBytes::<17>::find_space_for(offset, len, alignment);
            assert!(found >= offset);
            assert_eq!(found % alignment as u64, 0);
            assert_eq!(
                DiskBytes::<17>::lane_nr_and_ofs(found).0,
                DiskBytes::<17>::lane_nr_and_ofs(found + len as u64 - 1).0
            );
        }
    }
    // There is no space for what is larger than the largest lane, nor
    // beyond the last lane.
    assert!(DiskBytes::<1>::checked_find_space_for(0, 1 << 31, 1).is_some());
    assert!(DiskBytes::<1>::checked_find_space_for(0, (1 << 31) + 1, 1).is_none());
    assert!(DiskBytes::<1>::checked_find_space_for(u64::MAX, 1, 1).is_none());
    assert!(DiskBytes::<1>::checked_find_space_for(0, 1, 0).is_none());
}

#[test]
fn arena_writes_do_not_cross_lanes() -> Result<(), FillError> {
    let mut lf = Landfill::ephemeral()?;
    let mut db: DiskBytes<4> = lf.substructure("db")?;
    assert!(matches!(db.request_write(&mut lf, 2, b"abc"), Err(FillError::CrossLane)));
    assert!(db.read(2, 3).is_none());
    db.request_write(&mut lf, 4, b"abcdefgh")?;
    assert_eq!(db.read(4, 8).unwrap(), b"abcdefgh");
    assert_eq!(db.read(6, 2).unwrap(), b"cd");
    // Lane 0 was never written to and is not mapped.
    assert!(db.read(0, 1).is_none());
    // A read across the end of a lane gives nothing.
    assert!(db.read(10, 3).is_none());
    // Beyond the lanes there is nothing to write to.
    assert!(matches!(
        db.request_write(&mut lf, u64::MAX - 1, b"a"),
        Err(FillError::OutOfSpace)
    ));
    assert!(matches!(db.request_lane(&mut lf, 12, 4), Ok((2, 0))));
    assert_eq!(db.read(12, 4).unwrap(), &[0u8; 4]);
    db.flush()?;
    Ok(())
}
