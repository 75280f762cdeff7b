use landfill::{AppendOnly, Entropy, FillError, Landfill, RandomAccess};

#[test]
fn duplicates_static() -> Result<(), FillError> {
    let mut lf = Landfill::ephemeral()?;

    let _a: Entropy = lf.substructure("a")?;
    let a2: Result<Entropy, FillError> = lf.substructure("a");

    assert!(a2.is_err());

    Ok(())
}

#[test]
fn duplicates_ao() -> Result<(), FillError> {
    let mut lf = Landfill::ephemeral()?;

    let _a: AppendOnly<4096> = lf.substructure("a")?;
    let a2: Result<AppendOnly<4096>, FillError> = lf.substructure("a");

    assert!(a2.is_err());

    Ok(())
}

#[test]
fn duplicates_rand_access() -> Result<(), FillError> {
    let mut lf = Landfill::ephemeral()?;

    let _a: RandomAccess<1, 4096> = lf.substructure("a")?;
    let a2: Result<RandomAccess<1, 4096>, FillError> = lf.substructure("a");

    assert!(a2.is_err());

    Ok(())
}

#[test]
fn duplicates_are_told_apart_by_their_full_names() -> Result<(), FillError> {
    let mut lf = Landfill::ephemeral()?;
    let _a: AppendOnly<4096> = lf.substructure("a")?;
    // The log has claimed the names of its parts.
    assert!(matches!(lf.substructure::<Entropy>("a_bytes"), Err(FillError::Duplicate)));
    assert!(matches!(lf.substructure::<Entropy>("a_journal"), Err(FillError::Duplicate)));
    // Other names are free.
    let _b: Entropy = lf.substructure("a_entropy")?;
    let _c: AppendOnly<4096> = lf.substructure("b")?;
    Ok(())
}
