use landfill::smash::Search;
use landfill::{
    AppendOnly, Content, FillError, GuardedLandfill, Landfill, MappedFile, OnceMap, RandomAccess,
    SearchNext, SmashMap,
};

fn file_of(bytes: &[u8]) -> Result<MappedFile, FillError> {
    let mut file = MappedFile::anon(bytes.len())?;
    file.store(0, bytes);
    Ok(file)
}

// Plays the part of the owner of the directory: a file that is asked for is
// made, one of the wrong length is set to the length that is asked for and
// handed back, and the call is repeated.
fn resized(old: &[u8], size: u64) -> Result<MappedFile, FillError> {
    let mut file = MappedFile::anon(size as usize)?;
    let kept = old.len().min(size as usize);
    file.store(0, &old[..kept]);
    Ok(file)
}

// Repeats a call for as long as it asks for a file, and makes the file.
fn supplied<T>(
    lf: &mut Landfill,
    mut call: impl FnMut(&mut Landfill) -> Result<T, FillError>,
) -> Result<T, FillError> {
    loop {
        match call(lf) {
            Err(FillError::Unmapped { name, size }) => {
                lf.supply(name, MappedFile::anon(size as usize)?)?;
            }
            other => return other,
        }
    }
}

#[test]
fn a_file_of_the_wrong_length_is_asked_to_be_resized() -> Result<(), FillError> {
    let mut lf = Landfill::open(vec![("a_file".to_string(), file_of(b"data")?)])?;
    let scope = GuardedLandfill::root().branch("a");
    assert!(lf.vet(&scope, "file", 4).is_ok());
    assert!(lf.vet(&scope, "none", 4).is_ok());
    match lf.vet(&scope, "file", 8) {
        Err(FillError::SizeMismatch { name, size }) => {
            assert_eq!((name.as_str(), size), ("a_file", 8));
        }
        _ => panic!("the file has four bytes"),
    }
    match lf.map_file_create(&scope, "file", 8) {
        Err(FillError::SizeMismatch { name, size }) => {
            assert_eq!((name.as_str(), size), ("a_file", 8));
            lf.put_back(name, resized(b"data", size)?);
        }
        _ => panic!("the file has four bytes"),
    }
    assert!(lf.vet(&scope, "file", 8).is_ok());
    let file = lf.map_file_create(&scope, "file", 8)?.unwrap();
    assert_eq!(file.read(0, 8), b"data\0\0\0\0");
    // A name that is claimed is not looked at again.
    assert!(lf.vet(&scope, "file", 3).is_ok());
    Ok(())
}

#[test]
fn a_log_takes_no_file_when_one_has_the_wrong_length() -> Result<(), FillError> {
    let mut lf = Landfill::open(vec![])?;
    let mut log: AppendOnly<4> = supplied(&mut lf, |lf| lf.substructure("ao"))?;
    let first = supplied(&mut lf, |lf| log.write(lf, b"abcd"))?;
    let second = supplied(&mut lf, |lf| log.write(lf, b"efghijkl"))?;
    assert_eq!((first, second), (0, 4));
    log.close(&mut lf);
    let mut directory = lf.close();
    assert_eq!(directory.len(), 3);
    // The second lane loses its second half behind the back of the log.
    let at = directory.iter().position(|(name, _)| name == "ao_bytes_01").unwrap();
    let short = file_of(&directory[at].1.read(0, 4).to_vec())?;
    directory[at].1 = short;
    let mut lf = Landfill::open(directory)?;
    match lf.substructure::<AppendOnly<4>>("ao") {
        Err(FillError::SizeMismatch { name, size }) => {
            assert_eq!((name.as_str(), size), ("ao_bytes_01", 8));
            // Nothing was taken and no name is claimed.
            assert!(lf.is_present(&"ao_journal_".to_string()));
            assert!(lf.is_present(&"ao_bytes_00".to_string()));
            assert!(lf.is_present(&"ao_bytes_01".to_string()));
            assert!(!lf.is_reserved(&"ao".to_string()));
            lf.put_back(name, resized(b"efgh", size)?);
        }
        _ => panic!("the second lane has the wrong length"),
    }
    let log: AppendOnly<4> = lf.substructure("ao")?;
    assert_eq!(log.head(), 12);
    assert_eq!(log.read(0, 4).unwrap(), b"abcd");
    assert_eq!(log.read(4, 8).unwrap(), b"efgh\0\0\0\0");
    Ok(())
}

#[test]
fn a_store_takes_no_file_when_one_has_the_wrong_length() -> Result<(), FillError> {
    let mut lf = Landfill::open(vec![])?;
    let mut map: OnceMap<1, 1> = supplied(&mut lf, |lf| lf.substructure("m"))?;
    supplied(&mut lf, |lf| map.insert(lf, &[7], &[8]))?;
    assert_eq!(map.get(&[7]).unwrap(), &[8]);
    map.close(&mut lf);
    let mut directory = lf.close();
    let names: Vec<String> = directory.iter().map(|(name, _)| name.clone()).collect();
    let lane = names.iter().position(|name| name.starts_with("m_index_slots_array_")).unwrap();
    let length = directory[lane].1.len();
    directory[lane].1 = MappedFile::anon(length - 1)?;
    let odd = names[lane].clone();
    let mut lf = Landfill::open(directory)?;
    match lf.substructure::<OnceMap<1, 1>>("m") {
        Err(FillError::SizeMismatch { name, size }) => {
            assert_eq!(name, odd);
            assert_eq!(size, length as u64);
            for name in &names {
                assert!(lf.is_present(name));
            }
            lf.put_back(name, MappedFile::anon(size as usize)?);
        }
        _ => panic!("a lane of the index has the wrong length"),
    }
    // The index has lost its entries, the log has not lost its records.
    let map: OnceMap<1, 1> = lf.substructure("m")?;
    assert!(map.get(&[7]).is_none());
    let mut other = Landfill::ephemeral()?;
    let store: Content = other.substructure("c")?;
    assert!(store.flush().is_ok());
    Ok(())
}

#[test]
fn a_write_leaves_the_other_slots_of_its_lane() -> Result<(), FillError> {
    // Lane 1 of an array with lanes of 4 bytes holds the slots 2 to 5.
    let mut lf = Landfill::open(vec![(
        "a_array_01".to_string(),
        file_of(&[1, 1, 2, 2, 3, 3, 4, 4])?,
    )])?;
    let mut array: RandomAccess<2, 4> = lf.substructure("a")?;
    assert_eq!(array.get(2).unwrap(), &[1, 1]);
    assert_eq!(array.get(5).unwrap(), &[4, 4]);
    let seen = array.with_mut(&mut lf, 3, |held| {
        let seen = held.clone();
        (vec![9, 9], seen)
    })?;
    assert_eq!(seen, vec![2, 2]);
    assert_eq!(array.get(2).unwrap(), &[1, 1]);
    assert_eq!(array.get(3).unwrap(), &[9, 9]);
    assert_eq!(array.get(4).unwrap(), &[3, 3]);
    assert_eq!(array.get(5).unwrap(), &[4, 4]);
    // A lane that is made for a write holds zeroes but for what is written.
    let mut lf = Landfill::ephemeral()?;
    let mut array: RandomAccess<2, 4> = lf.substructure("a")?;
    array.with_mut(&mut lf, 3, |_| (vec![9, 9], ()))?;
    assert!(array.get(2).is_none());
    assert_eq!(array.get(3).unwrap(), &[9, 9]);
    assert!(array.get(4).is_none());
    assert!(array.get(5).is_none());
    assert!(array.get(0).is_none());
    // Mapping a lane changes nothing.
    array.reserve(&mut lf, 0)?;
    assert!(array.get(0).is_none());
    assert_eq!(array.get(3).unwrap(), &[9, 9]);
    Ok(())
}

#[test]
fn an_insertion_fills_the_first_empty_slot_of_its_walk() -> Result<(), FillError> {
    let mut lf = Landfill::ephemeral()?;
    let mut map: SmashMap<8, 1024> = lf.substructure("m")?;
    // Three records from one hash: each lands one step further along the
    // walk, and a search from that hash meets them in that order.
    for value in 1u64..=3 {
        map.insert_hashed(
            &mut lf,
            77,
            |_, _| Search::Continue.next(),
            |_| Ok(value.to_ne_bytes().to_vec()),
        )?;
    }
    let seen = std::cell::RefCell::new(vec![]);
    let found = map.get_hashed(77, |_, record| {
        seen.borrow_mut().push(record.to_vec());
        SearchNext::Proceed
    });
    assert!(found.is_none());
    assert_eq!(
        seen.into_inner(),
        vec![1u64.to_ne_bytes().to_vec(), 2u64.to_ne_bytes().to_vec(), 3u64.to_ne_bytes().to_vec()]
    );
    // A halt on the second record leaves the map as it is.
    map.insert_hashed(
        &mut lf,
        77,
        |_, record| if record == 2u64.to_ne_bytes() { SearchNext::Halt } else { SearchNext::Proceed },
        |_| Ok(4u64.to_ne_bytes().to_vec()),
    )?;
    let count = std::cell::Cell::new(0);
    map.get_hashed(77, |_, _| {
        count.set(count.get() + 1);
        SearchNext::Proceed
    });
    assert_eq!(count.get(), 3);
    Ok(())
}

#[test]
fn a_visitor_answers_as_a_search_takes_it() {
    assert_eq!(Search::Continue.next(), SearchNext::Proceed);
    assert_eq!(Search::Halt.next(), SearchNext::Halt);
}

#[test]
fn a_key_or_value_of_the_wrong_length_is_refused() -> Result<(), FillError> {
    let mut lf = Landfill::ephemeral()?;
    let mut map: OnceMap<2, 3> = lf.substructure("m")?;
    assert!(matches!(map.insert(&mut lf, &[1], &[1, 2, 3]), Err(FillError::BadRecord)));
    assert!(matches!(map.insert(&mut lf, &[1, 2], &[1, 2]), Err(FillError::BadRecord)));
    map.insert(&mut lf, &[1, 2], &[1, 2, 3])?;
    assert_eq!(map.get(&[1, 2]).unwrap(), &[1, 2, 3]);
    Ok(())
}
