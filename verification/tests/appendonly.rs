use landfill::{AppendOnly, FillError, Landfill, MappedFile};

// Plays the part of the owner of the directory: whenever the landfill asks
// for a file, one is made and handed over, and the call is repeated.
fn write_supplied<const INIT_SIZE: u64>(
    lf: &mut Landfill,
    ao: &mut AppendOnly<INIT_SIZE>,
    bytes: &[u8],
) -> Result<u64, FillError> {
    loop {
        match ao.write(lf, bytes) {
            Err(FillError::Unmapped { name, size }) => {
                lf.supply(name, MappedFile::anon(size as usize)?)?;
            }
            other => return other,
        }
    }
}

fn open_supplied<const INIT_SIZE: u64>(
    lf: &mut Landfill,
    name: &str,
) -> Result<AppendOnly<INIT_SIZE>, FillError> {
    loop {
        match lf.substructure::<AppendOnly<INIT_SIZE>>(name) {
            Err(FillError::Unmapped { name, size }) => {
                lf.supply(name, MappedFile::anon(size as usize)?)?;
            }
            other => return other,
        }
    }
}

#[test]
fn appendonly_trivial() -> Result<(), FillError> {
    let mut lf = Landfill::ephemeral()?;
    let mut ao: AppendOnly<4096> = lf.substructure("ao")?;

    let msg_a = b"hello word";
    let msg_b = b"hello world!";

    let ofs_a = ao.write(&mut lf, msg_a)?;

    let slice_a = ao.get(ofs_a, msg_a.len() as u32).to_vec();

    let ofs_b = ao.write(&mut lf, msg_b)?;

    let slice_b = ao.get(ofs_b, msg_b.len() as u32).to_vec();

    assert_eq!(slice_a, msg_a);
    assert_eq!(slice_b, msg_b);

    Ok(())
}

#[test]
fn appendonly_save_restore() -> Result<(), FillError> {
    let ofs_a;
    let ofs_b;

    let msg_a = b"hello word";
    let msg_b = b"hello world!";

    let directory;

    {
        let mut lf = Landfill::open(vec![])?;
        let mut ao: AppendOnly<4096> = open_supplied(&mut lf, "ao")?;

        ofs_a = write_supplied(&mut lf, &mut ao, msg_a)?;

        let slice_a = ao.get(ofs_a, msg_a.len() as u32).to_vec();

        ofs_b = write_supplied(&mut lf, &mut ao, msg_b)?;

        let slice_b = ao.get(ofs_b, msg_b.len() as u32).to_vec();

        assert_eq!(slice_a, msg_a);
        assert_eq!(slice_b, msg_b);

        ao.close(&mut lf);
        directory = lf.close();
    }

    let mut lf = Landfill::open(directory)?;

    // re-open

    let ao: AppendOnly<4096> = lf.substructure("ao")?;
    assert_eq!(ao.get(ofs_a, msg_a.len() as u32), msg_a);
    assert_eq!(ao.get(ofs_b, msg_b.len() as u32), msg_b);

    Ok(())
}

#[test]
fn appendonly_save_restore_skip_files() -> Result<(), FillError> {
    let ofs_a;
    let ofs_b;

    let msg_a = b"hello word";
    let msg_b = b"hello world!";

    let directory;

    {
        let mut lf = Landfill::open(vec![])?;
        let mut ao: AppendOnly<1> = open_supplied(&mut lf, "ao")?;

        ofs_a = write_supplied(&mut lf, &mut ao, msg_a)?;

        let slice_a = ao.get(ofs_a, msg_a.len() as u32).to_vec();

        ofs_b = write_supplied(&mut lf, &mut ao, msg_b)?;

        let slice_b = ao.get(ofs_b, msg_b.len() as u32).to_vec();

        assert_eq!(slice_a, msg_a);
        assert_eq!(slice_b, msg_b);

        ao.close(&mut lf);
        directory = lf.close();
    }

    // The records went to lanes 4 and 5: the lanes before them are too
    // small and have no files.
    let names: Vec<&str> = directory.iter().map(|f| f.0.as_str()).collect();
    assert!(names.contains(&"ao_bytes_04"));
    assert!(names.contains(&"ao_bytes_05"));
    assert!(!names.contains(&"ao_bytes_00"));
    assert!(names.contains(&"ao_journal_"));
    assert_eq!(names.len(), 3);

    // re-open

    let mut lf = Landfill::open(directory)?;
    let ao: AppendOnly<1> = lf.substructure("ao")?;

    assert_eq!(ao.get(ofs_a, msg_a.len() as u32), msg_a);
    assert_eq!(ao.get(ofs_b, msg_b.len() as u32), msg_b);

    Ok(())
}

#[test]
fn appendonly_offsets_are_the_first_space() -> Result<(), FillError> {
    let mut lf = Landfill::ephemeral()?;
    let mut ao: AppendOnly<32> = lf.substructure("ao")?;

    // 20 bytes fit into lane 0, which holds 32.
    assert_eq!(ao.write(&mut lf, &[1u8; 20])?, 0);
    assert_eq!(ao.head(), 20);
    // The next 20 do not: they go to the start of lane 1.
    assert_eq!(ao.write(&mut lf, &[2u8; 20])?, 32);
    assert_eq!(ao.head(), 52);
    // Aligned to 16 bytes, the next record starts at 64.
    assert_eq!(ao.write_aligned(&mut lf, &[3u8; 4], 16)?, 64);
    assert_eq!(ao.head(), 68);
    // What was written before is still there.
    assert_eq!(ao.get(0, 20), &[1u8; 20]);
    assert_eq!(ao.get(32, 20), &[2u8; 20]);
    assert_eq!(ao.get(64, 4), &[3u8; 4]);
    Ok(())
}

#[test]
fn appendonly_restart_keeps_the_writehead() -> Result<(), FillError> {
    let mut lf = Landfill::open(vec![])?;
    let mut ao: AppendOnly<4096> = open_supplied(&mut lf, "log")?;
    let first = write_supplied(&mut lf, &mut ao, b"one")?;
    let second = write_supplied(&mut lf, &mut ao, b"three")?;
    assert_eq!((first, second), (0, 3));
    let head = ao.head();
    assert_eq!(head, 8);
    ao.close(&mut lf);
    let directory = lf.close();

    let mut lf = Landfill::open(directory)?;
    let mut ao: AppendOnly<4096> = lf.substructure("log")?;
    assert_eq!(ao.head(), head);
    assert_eq!(ao.write(&mut lf, b"next")?, 8);
    assert_eq!(ao.get(0, 3), b"one");
    assert_eq!(ao.get(3, 5), b"three");
    assert_eq!(ao.get(8, 4), b"next");
    Ok(())
}

#[test]
fn appendonly_without_space() -> Result<(), FillError> {
    let mut lf = Landfill::ephemeral()?;
    let mut ao: AppendOnly<1> = lf.substructure("ao")?;
    // No alignment of zero bytes exists.
    assert!(matches!(ao.write_aligned(&mut lf, b"x", 0), Err(FillError::OutOfSpace)));
    assert_eq!(ao.head(), 0);
    Ok(())
}

#[test]
fn appendonly_asks_for_its_files() -> Result<(), FillError> {
    let mut lf = Landfill::open(vec![])?;
    match lf.substructure::<AppendOnly<4096>>("ao") {
        Err(FillError::Unmapped { name, size }) => {
            assert_eq!(name, "ao_journal_");
            assert_eq!(size, 4096);
        }
        _ => panic!("the journal has no file yet"),
    }
    let mut ao: AppendOnly<4096> = open_supplied(&mut lf, "ao")?;
    match ao.write(&mut lf, b"abc") {
        Err(FillError::Unmapped { name, size }) => {
            assert_eq!(name, "ao_bytes_00");
            assert_eq!(size, 4096);
        }
        _ => panic!("lane 0 has no file yet"),
    }
    // Nothing was written and nothing reserved.
    assert_eq!(ao.head(), 0);
    Ok(())
}
