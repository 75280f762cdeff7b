use landfill::{FillError, Landfill, MappedFile};

#[test]
fn lock_contention() -> Result<(), FillError> {
    let _lf = Landfill::open(vec![])?;
    // While the landfill is open its directory holds the lock file, and
    // that is what a second attempt finds there.
    let held = vec![("_lock".to_string(), MappedFile::anon(0)?)];
    assert!(Landfill::open(held).is_err());
    Ok(())
}

#[test]
fn lock_is_told_from_other_errors() -> Result<(), FillError> {
    let held = vec![
        ("a".to_string(), MappedFile::anon(1)?),
        ("_lock".to_string(), MappedFile::anon(0)?),
    ];
    assert!(matches!(Landfill::open(held), Err(FillError::Locked)));
    let twice = vec![
        ("a".to_string(), MappedFile::anon(1)?),
        ("a".to_string(), MappedFile::anon(1)?),
    ];
    assert!(matches!(Landfill::open(twice), Err(FillError::Duplicate)));
    Ok(())
}
