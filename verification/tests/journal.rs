use landfill::{FillError, Journal, Landfill, MappedFile};
use std::hash::Hasher;

fn open_supplied(lf: &mut Landfill, name: &str) -> Result<Journal, FillError> {
    loop {
        match lf.substructure::<Journal>(name) {
            Err(FillError::Unmapped { name, size }) => {
                lf.supply(name, MappedFile::anon(size as usize)?)?;
            }
            other => return other,
        }
    }
}

#[test]
fn journal_starts_at_zero() -> Result<(), FillError> {
    let mut lf = Landfill::ephemeral()?;
    let journal: Journal = lf.substructure("journal")?;
    assert_eq!(journal.value(), 0);
    Ok(())
}

#[test]
fn journal_update_returns_what_the_closure_returns() -> Result<(), FillError> {
    let mut lf = Landfill::ephemeral()?;
    let mut journal: Journal = lf.substructure("journal")?;
    let was = journal.update(|head| (head + 10, head))?;
    assert_eq!(was, 0);
    assert_eq!(journal.value(), 10);
    let was = journal.update(|head| (head + 5, head))?;
    assert_eq!(was, 10);
    assert_eq!(journal.value(), 15);
    // An update that changes nothing is in order.
    journal.update(|head| (head, ()))?;
    assert_eq!(journal.value(), 15);
    Ok(())
}

#[test]
fn journal_reads_never_fall() -> Result<(), FillError> {
    let mut lf = Landfill::ephemeral()?;
    let mut journal: Journal = lf.substructure("journal")?;
    let mut last = journal.value();
    for step in 0..1000u64 {
        journal.update(|value| (value + step % 3, ()))?;
        assert!(journal.value() >= last);
        last = journal.value();
    }
    assert_eq!(last, 999);
    Ok(())
}

#[test]
fn journal_survives_a_restart() -> Result<(), FillError> {
    let mut lf = Landfill::open(vec![])?;
    let mut journal = open_supplied(&mut lf, "journal")?;
    // More updates than the ring has slots, so that it wraps around.
    for _ in 0..700 {
        journal.update(|value| (value + 3, ()))?;
    }
    assert_eq!(journal.value(), 2100);
    journal.close(&mut lf);
    let directory = lf.close();
    assert_eq!(directory.len(), 1);
    assert_eq!(directory[0].0, "journal_");
    assert_eq!(directory[0].1.len(), 4096);

    let mut lf = Landfill::open(directory)?;
    let journal: Journal = lf.substructure("journal")?;
    assert_eq!(journal.value(), 2100);
    Ok(())
}

#[test]
fn journal_torn_write_recovery() -> Result<(), FillError> {
    let n: u64 = 10;
    let mut lf = Landfill::open(vec![])?;
    let mut journal = open_supplied(&mut lf, "journal")?;
    for _ in 0..n {
        journal.update(|value| (value + 1, ()))?;
    }
    assert_eq!(journal.value(), n);
    journal.close(&mut lf);
    let mut directory = lf.close();

    // The last update went to slot n of the ring. Its entry begins with the
    // checksum: spoil one byte of it.
    let at = 16 * n as usize;
    let byte = directory[0].1.read(at, 1)[0];
    directory[0].1.store(at, &[byte ^ 0xff]);

    let mut lf = Landfill::open(directory)?;
    let journal: Journal = lf.substructure("journal")?;
    assert_eq!(journal.value(), n - 1);
    Ok(())
}

#[test]
fn journal_ignores_what_does_not_validate() -> Result<(), FillError> {
    // A file full of entries whose checksums are wrong.
    let mut file = MappedFile::anon(4096)?;
    file.store(0, &[0xabu8; 4096]);
    let mut lf = Landfill::open(vec![("j_".to_string(), file)])?;
    let journal: Journal = lf.substructure("j")?;
    assert_eq!(journal.value(), 0);
    Ok(())
}

#[test]
fn journal_entries_carry_their_checksums() -> Result<(), FillError> {
    let mut lf = Landfill::open(vec![])?;
    let mut journal = open_supplied(&mut lf, "journal")?;
    journal.update(|_| (0x1122_3344_5566_7788, ()))?;
    journal.close(&mut lf);
    let directory = lf.close();
    let file = &directory[0].1;
    // The first update goes to slot 1: sixteen bytes from byte 16 on, the
    // checksum first, then the value.
    let mut hasher = seahash::SeaHasher::new();
    hasher.write_u64(0x1122_3344_5566_7788);
    let checksum = hasher.finish();
    assert_ne!(checksum, 0x1122_3344_5566_7788);
    assert_eq!(file.read(16, 8), checksum.to_ne_bytes());
    assert_eq!(file.read(24, 8), 0x1122_3344_5566_7788u64.to_ne_bytes());
    // Slot 0 was never written.
    assert_eq!(file.read(0, 16), &[0u8; 16]);
    Ok(())
}

#[test]
fn journal_file_has_to_be_one_page() -> Result<(), FillError> {
    let file = MappedFile::anon(100)?;
    let mut lf = Landfill::open(vec![("j_".to_string(), file)])?;
    assert!(matches!(lf.substructure::<Journal>("j"), Err(FillError::SizeMismatch { .. })));
    Ok(())
}

#[test]
fn journal_recover_looks_at_every_slot() -> Result<(), FillError> {
    let mut lf = Landfill::open(vec![])?;
    let mut journal = open_supplied(&mut lf, "journal")?;
    for _ in 0..5 {
        journal.update(|value| (value + 7, ()))?;
    }
    journal.close(&mut lf);
    let directory = lf.close();
    let order = landfill::helpers::native_byte_order();
    let (slot, value) = Journal::recover(order, &directory[0].1);
    assert_eq!((slot, value), (5, 35));
    Ok(())
}
