use landfill::{FillError, Landfill, MappedFile, RandomAccess};
use rand::{seq::SliceRandom, Rng};

fn set_supplied<const SIZE: usize, const INIT_SIZE: u64>(
    lf: &mut Landfill,
    ra: &mut RandomAccess<SIZE, INIT_SIZE>,
    index: usize,
    record: &[u8],
) -> Result<(), FillError> {
    loop {
        match ra.with_mut(lf, index, |_| (record.to_vec(), ())) {
            Err(FillError::Unmapped { name, size }) => {
                lf.supply(name, MappedFile::anon(size as usize)?)?;
            }
            other => return other,
        }
    }
}

#[test]
fn random_access_trivial() -> Result<(), FillError> {
    let mut lf = Landfill::ephemeral()?;
    let mut da: RandomAccess<4, 4096> = lf.substructure("da")?;

    da.with_mut(&mut lf, 39, |_| (32u32.to_ne_bytes().to_vec(), ()))?;

    assert_eq!(da.get(39).unwrap(), 32u32.to_ne_bytes());

    Ok(())
}

#[test]
fn array_trivial() -> Result<(), FillError> {
    let mut lf = Landfill::ephemeral()?;
    let mut da: RandomAccess<4, 1024> = lf.substructure("da")?;
    da.with_mut(&mut lf, 39, |_| (32u32.to_ne_bytes().to_vec(), ()))?;
    assert_eq!(da.get(39).unwrap(), 32u32.to_ne_bytes());
    Ok(())
}

// A record of 16 bytes: where it comes from, a marker that tells it from an
// empty slot, and a value.
fn record(origin: u32, value: u64) -> Vec<u8> {
    let mut bytes = origin.to_ne_bytes().to_vec();
    bytes.extend_from_slice(&0xffu32.to_ne_bytes());
    bytes.extend_from_slice(&value.to_ne_bytes());
    bytes
}

fn stress<const INIT_SIZE: u64>() -> Result<(), FillError> {
    const N_WRITERS: usize = 16;
    const WRITES_PER_WRITER: usize = 512;

    // We let half of the slots stay empty to easily find empty slots when
    // searching randomly
    const N_SLOTS: usize = N_WRITERS * WRITES_PER_WRITER * 2;

    let mut rng = rand::thread_rng();

    let mut writer_datasets = vec![];
    let mut reader_datasets = vec![];

    for t in 0..N_WRITERS {
        let mut data = vec![];

        for _ in 0..WRITES_PER_WRITER {
            data.push(record(t as u32, rng.gen()));
        }
        let mut reader_data = data.clone();
        let writer_data = data;

        writer_datasets.push(writer_data);

        reader_data.shuffle(&mut rng);
        reader_datasets.push(reader_data)
    }

    // data setup complete

    let mut lf = Landfill::ephemeral()?;
    let mut da: RandomAccess<16, INIT_SIZE> = lf.substructure("da")?;

    for mut writer_data in writer_datasets.drain(..) {
        for record in writer_data.drain(..) {
            // find a random empty spot to write
            loop {
                let idx = rng.gen::<usize>() % N_SLOTS;
                if da
                    .with_mut(&mut lf, idx, |slot| {
                        if slot == vec![0u8; 16] {
                            (record.clone(), true)
                        } else {
                            (slot, false)
                        }
                    })
                    .expect("no errors plz")
                {
                    break;
                }
            }
        }
    }

    for mut reader_data in reader_datasets.drain(..) {
        let mut idx = rng.gen::<usize>() % N_SLOTS;

        // loop until we find our entry!
        while let Some(record) = reader_data.pop() {
            loop {
                if let Some(written) = da.get(idx % N_SLOTS) {
                    if written == record {
                        break;
                    }
                }
                idx += 1;
            }
        }
    }

    Ok(())
}

#[test]
fn random_access_stress() -> Result<(), FillError> {
    stress::<4096>()
}

#[test]
fn array_stress() -> Result<(), FillError> {
    stress::<1024>()
}

#[test]
fn random_access_persist_restore() -> Result<(), FillError> {
    let directory;
    {
        let mut lf = Landfill::open(vec![])?;
        let mut ra: RandomAccess<4, 4096> = lf.substructure("ra")?;

        for i in 1..=1024 {
            set_supplied(&mut lf, &mut ra, i, &(i as u32).to_ne_bytes())?;
        }
        ra.close(&mut lf);
        directory = lf.close();
    }

    // re-open

    let mut lf = Landfill::open(directory)?;
    let ra: RandomAccess<4, 4096> = lf.substructure("ra")?;

    for i in 1..=1024 {
        assert_eq!(ra.get(i).unwrap(), (i as u32).to_ne_bytes())
    }

    Ok(())
}

#[test]
fn self_destruct() -> Result<(), FillError> {
    let mut directory;
    {
        let mut lf = Landfill::open(vec![])?;

        let mut ao: RandomAccess<4, 4096> = lf.substructure("ra")?;

        for i in 1..=1024 {
            set_supplied(&mut lf, &mut ao, i, &(i as u32).to_ne_bytes())?;
        }
        ao.close(&mut lf);
        directory = lf.close();
    }

    {
        // re-open

        let mut lf = Landfill::open(directory)?;
        let ao: RandomAccess<4, 4096> = lf.substructure("ra")?;

        for i in 1..=1024 {
            assert_eq!(ao.get(i).unwrap(), (i as u32).to_ne_bytes())
        }

        // destroy
        lf.initiate_self_destruct_sequence();
        assert!(lf.self_destruct_sequence_initiated());
        ao.close(&mut lf);
        directory = lf.close();
    }

    assert!(directory.is_empty());

    // re-re-open

    let mut lf = Landfill::open(directory)?;
    let ao: RandomAccess<4, 4096> = lf.substructure("ra")?;

    assert!(ao.get(1).is_none());

    Ok(())
}

#[test]
fn random_access_zero_is_empty() -> Result<(), FillError> {
    let mut lf = Landfill::ephemeral()?;
    let mut ra: RandomAccess<2, 4096> = lf.substructure("ra")?;
    // Nothing was written: no lane is mapped.
    assert!(ra.get(0).is_none());
    ra.with_mut(&mut lf, 1, |_| (vec![7, 0], ()))?;
    // The lane is mapped now, and slot 0 is all zero.
    assert!(ra.get(0).is_none());
    assert_eq!(ra.get(1).unwrap(), &[7, 0]);
    // A slot that is written with zeroes is empty again.
    ra.with_mut(&mut lf, 1, |_| (vec![0, 0], ()))?;
    assert!(ra.get(1).is_none());
    // The closure is shown what the slot holds.
    ra.with_mut(&mut lf, 5, |_| (vec![1, 2], ()))?;
    let seen = ra.with_mut(&mut lf, 5, |held| (vec![3, 4], held))?;
    assert_eq!(seen, vec![1, 2]);
    assert_eq!(ra.get(5).unwrap(), &[3, 4]);
    // The neighbours are untouched.
    assert!(ra.get(4).is_none());
    assert!(ra.get(6).is_none());
    Ok(())
}

#[test]
fn random_access_errors() -> Result<(), FillError> {
    let mut lf = Landfill::ephemeral()?;
    let mut ra: RandomAccess<3, 4> = lf.substructure("ra")?;
    // Slot 0 lies in lane 0, which holds four bytes.
    ra.with_mut(&mut lf, 0, |_| (vec![1, 2, 3], ()))?;
    // Slot 1 spans bytes 3 to 5 and with them the end of lane 0.
    assert!(matches!(
        ra.with_mut(&mut lf, 1, |_| (vec![1, 2, 3], ())),
        Err(FillError::CrossLane)
    ));
    assert!(ra.get(1).is_none());
    // A record of the wrong length is refused and the slot stays as it was.
    assert!(matches!(
        ra.with_mut(&mut lf, 0, |_| (vec![9, 9], ())),
        Err(FillError::BadRecord)
    ));
    assert_eq!(ra.get(0).unwrap(), &[1, 2, 3]);
    // There are no lanes for a slot this far out.
    assert!(matches!(
        ra.with_mut_at(&mut lf, u64::MAX / 2, |_| (vec![1, 2, 3], ())),
        Err(FillError::OutOfSpace)
    ));
    assert!(ra.get_at(u64::MAX / 2).is_none());
    // Records of no bytes make no array.
    assert!(matches!(lf.substructure::<RandomAccess<0, 4096>>("none"), Err(FillError::BadRecord)));
    // Neither do lanes of no bytes.
    assert!(matches!(lf.substructure::<RandomAccess<4, 0>>("flat"), Err(FillError::BadLaneSize)));
    // The names of the arrays that could not be made are free again.
    let _ok: RandomAccess<4, 4096> = lf.substructure("none")?;
    Ok(())
}
