use landfill::{DiskBytes, FillError, Landfill};

#[test]
fn bytes_test_lane_math_trivial() {
    assert_eq!(DiskBytes::<32>::lane_nr_and_ofs(0), (0, 0));
    assert_eq!(DiskBytes::<32>::lane_nr_and_ofs(31), (0, 31));
    assert_eq!(DiskBytes::<32>::lane_nr_and_ofs(32), (1, 0));
    assert_eq!(DiskBytes::<32>::lane_nr_and_ofs(64), (1, 32));
    assert_eq!(DiskBytes::<32>::lane_nr_and_ofs(95), (1, 63));
    assert_eq!(DiskBytes::<32>::lane_nr_and_ofs(96), (2, 0));
}

#[test]
fn bytes_test_lane_math() {
    for i in 0..1024 * 256 {
        assert_eq!(
            DiskBytes::<32>::lane_nr_and_ofs(i),
            DiskBytes::<32>::lane_nr_and_ofs_slow_but_obviously_correct(i),
        );

        assert_eq!(
            DiskBytes::<1>::lane_nr_and_ofs(i),
            DiskBytes::<1>::lane_nr_and_ofs_slow_but_obviously_correct(i),
        );

        assert_eq!(
            DiskBytes::<1024>::lane_nr_and_ofs(i),
            DiskBytes::<1024>::lane_nr_and_ofs_slow_but_obviously_correct(i),
        );

        assert_eq!(
            DiskBytes::<17>::lane_nr_and_ofs(i),
            DiskBytes::<17>::lane_nr_and_ofs_slow_but_obviously_correct(i),
        );
    }
}

#[test]
fn bytes_test_lane_sizes() {
    assert_eq!(DiskBytes::<32>::lane_size(0), 32);
    assert_eq!(DiskBytes::<32>::lane_size(1), 64);
    assert_eq!(DiskBytes::<32>::lane_size(2), 128);

    assert_eq!(DiskBytes::<1024>::lane_size(0), 1024);
    assert_eq!(DiskBytes::<1024>::lane_size(1), 2048);
    assert_eq!(DiskBytes::<1024>::lane_size(2), 4096);
}

#[test]
fn bytes_simple_write_read() -> Result<(), FillError> {
    let mut lf = Landfill::ephemeral()?;
    let mut db: DiskBytes<1024> = lf.substructure("diskbytes")?;

    let msg = b"hello world";
    let len = msg.len();

    db.request_write(&mut lf, 0, msg)?;

    let read = db.read(0, len as u32).unwrap();

    assert_eq!(read, msg);

    Ok(())
}

#[test]
fn bytes_find_space() -> Result<(), FillError> {
    assert_eq!(DiskBytes::<1>::find_space_for(0, 0, 1), 0);
    assert_eq!(DiskBytes::<1>::find_space_for(0, 1, 1), 0);
    assert_eq!(DiskBytes::<1>::find_space_for(1, 1, 1), 1);

    assert_eq!(DiskBytes::<1>::find_space_for(2, 1, 1), 2);
    assert_eq!(DiskBytes::<1>::find_space_for(2, 2, 1), 3);

    assert_eq!(DiskBytes::<1>::find_space_for(100, 100, 1), 127);
    assert_eq!(DiskBytes::<1>::find_space_for(0, 100, 1), 127);

    Ok(())
}

#[test]
fn raw_test_lane_math_trivial() {
    assert_eq!(DiskBytes::<32>::lane_nr_and_ofs(0), (0, 0));
    assert_eq!(DiskBytes::<32>::lane_nr_and_ofs(31), (0, 31));
    assert_eq!(DiskBytes::<32>::lane_nr_and_ofs(32), (1, 0));
    assert_eq!(DiskBytes::<32>::lane_nr_and_ofs(64), (1, 32));
    assert_eq!(DiskBytes::<32>::lane_nr_and_ofs(95), (1, 63));
    assert_eq!(DiskBytes::<32>::lane_nr_and_ofs(96), (2, 0));
}

#[test]
fn raw_test_lane_math() {
    for i in 0..1024 * 1024 {
        assert_eq!(
            DiskBytes::<32>::lane_nr_and_ofs(i),
            DiskBytes::<32>::lane_nr_and_ofs_slow_but_obviously_correct(i),
        );

        assert_eq!(
            DiskBytes::<1>::lane_nr_and_ofs(i),
            DiskBytes::<1>::lane_nr_and_ofs_slow_but_obviously_correct(i),
        );

        assert_eq!(
            DiskBytes::<1024>::lane_nr_and_ofs(i),
            DiskBytes::<1024>::lane_nr_and_ofs_slow_but_obviously_correct(i),
        );

        assert_eq!(
            DiskBytes::<17>::lane_nr_and_ofs(i),
            DiskBytes::<17>::lane_nr_and_ofs_slow_but_obviously_correct(i),
        );
    }
}

#[test]
fn raw_test_lane_sizes() {
    assert_eq!(DiskBytes::<32>::lane_size(0), 32);
    assert_eq!(DiskBytes::<32>::lane_size(1), 64);
    assert_eq!(DiskBytes::<32>::lane_size(2), 128);

    assert_eq!(DiskBytes::<1024>::lane_size(0), 1024);
    assert_eq!(DiskBytes::<1024>::lane_size(1), 2048);
    assert_eq!(DiskBytes::<1024>::lane_size(2), 4096);
}

#[test]
fn raw_simple_write_read() -> Result<(), FillError> {
    let mut lf = Landfill::ephemeral()?;
    let mut da: DiskBytes<1024> = lf.substructure("raw")?;

    let msg = b"hello world";
    let len = msg.len();

    da.request_write(&mut lf, 0, msg)?;

    let read = da.read(0, len as u32).unwrap();

    assert_eq!(read, msg);

    Ok(())
}

#[test]
fn raw_trivial() -> Result<(), FillError> {
    let mut lf = Landfill::ephemeral()?;
    let _da: DiskBytes<1024> = lf.substructure("raw")?;
    Ok(())
}

#[test]
fn storage_test_lane_math() {
    for i in 0..1024 * 256 {
        assert_eq!(
            DiskBytes::<4096>::lane_nr_and_ofs(i),
            DiskBytes::<4096>::lane_nr_and_ofs_slow_but_obviously_correct(i),
        );
    }
}

#[test]
fn storage_find_space() -> Result<(), FillError> {
    let mut lf = Landfill::ephemeral()?;
    let mut db: DiskBytes<4096> = lf.substructure("diskbytes")?;

    let mut ofs = 0u64;

    for i in 0..1024 * 16 {
        let mut bytes = vec![];

        for o in 0..i {
            bytes.push(o as u8);
        }

        let len = bytes.len();

        let space_for = DiskBytes::<4096>::find_space_for(ofs, len, 1);

        // this would error out if the space was not valid
        db.request_write(&mut lf, space_for, &bytes)?;

        ofs = space_for + len as u64;
    }

    Ok(())
}
