use landfill::helpers::native_byte_order;
use landfill::{AppendOnly, FillError, Landfill, MappedFile, OnceMap, SmashMap, Substructure};

const A_LOT: usize = 1024;

// Opens a structure, making the files that it asks for on the way.
fn part<S: Substructure>(lf: &mut Landfill, name: &str) -> Result<S, FillError> {
    loop {
        match lf.substructure(name) {
            Err(FillError::Unmapped { name, size }) => {
                lf.supply(name, MappedFile::anon(size as usize)?)?;
            }
            other => return other,
        }
    }
}

fn open<const KEY: usize, const VALUE: usize>(
    lf: &mut Landfill,
    name: &str,
) -> Result<OnceMap<KEY, VALUE>, FillError> {
    part(lf, name)
}

fn insert(
    lf: &mut Landfill,
    map: &mut OnceMap<8, 8>,
    key: usize,
    value: usize,
) -> Result<(), FillError> {
    map.insert(lf, &key.to_ne_bytes(), &value.to_ne_bytes())
}

fn get(map: &OnceMap<8, 8>, key: usize) -> Option<usize> {
    map.get(&key.to_ne_bytes()).map(|bytes| {
        let mut value = [0u8; 8];
        value.copy_from_slice(bytes);
        usize::from_ne_bytes(value)
    })
}

#[test]
fn lots() -> Result<(), FillError> {
    let mut lf = Landfill::ephemeral()?;
    let mut map: OnceMap<8, 8> = open(&mut lf, "map")?;

    for i in 0..A_LOT {
        insert(&mut lf, &mut map, i, i + 1)?;
    }

    for i in 0..A_LOT {
        assert_eq!(get(&map, i).unwrap(), i + 1)
    }

    Ok(())
}

#[test]
fn oncemap_keys_are_set_once() -> Result<(), FillError> {
    let mut lf = Landfill::ephemeral()?;
    let mut map: OnceMap<8, 8> = open(&mut lf, "map")?;
    assert_eq!(get(&map, 5), None);
    insert(&mut lf, &mut map, 5, 50)?;
    assert_eq!(get(&map, 5), Some(50));
    // A second value for the same key changes nothing.
    insert(&mut lf, &mut map, 5, 51)?;
    assert_eq!(get(&map, 5), Some(50));
    // Other keys are not there.
    assert_eq!(get(&map, 6), None);
    // Keys that share a hash are told apart by their bytes.
    map.insert_hashed(&mut lf, 1, b"aaaaaaaa", b"first!!!")?;
    map.insert_hashed(&mut lf, 1, b"bbbbbbbb", b"second!!")?;
    assert_eq!(map.get_hashed(1, b"aaaaaaaa").unwrap(), b"first!!!");
    assert_eq!(map.get_hashed(1, b"bbbbbbbb").unwrap(), b"second!!");
    assert!(map.get_hashed(1, b"cccccccc").is_none());
    // Under their own hashes they are not to be found.
    assert!(map.get(b"aaaaaaaa").is_none());
    assert_eq!(map.hash_of(b"aaaaaaaa"), map.hash_of(b"aaaaaaaa"));
    assert_ne!(map.hash_of(b"aaaaaaaa"), map.hash_of(b"bbbbbbbb"));
    // The entry of a key says where the key lies and how far behind it the
    // value begins.
    let first = map.find(1, b"aaaaaaaa").unwrap();
    let second = map.find(1, b"bbbbbbbb").unwrap();
    assert_eq!((first.len, second.len), (8, 8));
    assert_eq!(second.ofs, first.ofs + 16);
    // The first was found in the first band, under the hash as it came.
    assert_eq!(first.discriminant, 1);
    Ok(())
}

#[test]
fn oncemap_refuses_other_sizes() -> Result<(), FillError> {
    let mut lf = Landfill::ephemeral()?;
    let mut map: OnceMap<2, 3> = open(&mut lf, "map")?;
    assert!(matches!(map.insert(&mut lf, b"abc", b"abc"), Err(FillError::BadRecord)));
    assert!(matches!(map.insert(&mut lf, b"ab", b"ab"), Err(FillError::BadRecord)));
    map.insert(&mut lf, b"ab", b"abc")?;
    assert_eq!(map.get(b"ab").unwrap(), b"abc");
    assert!(map.get(b"abc").is_none());
    assert!(matches!(open::<0, 1>(&mut lf, "none"), Err(FillError::BadRecord)));
    map.flush()?;
    Ok(())
}

#[test]
fn oncemap_of_parts() -> Result<(), FillError> {
    let mut lf = Landfill::ephemeral()?;
    let data: AppendOnly<4096> = lf.substructure("keys_and_values")?;
    let index: SmashMap<16, 4096> = lf.substructure("where_they_are")?;
    let mut map: OnceMap<1, 1> = OnceMap::from_parts(data, index, native_byte_order())?;
    map.insert(&mut lf, b"k", b"v")?;
    assert_eq!(map.get(b"k").unwrap(), b"v");
    Ok(())
}

#[test]
fn oncemap_asks_for_its_files_first() -> Result<(), FillError> {
    let mut lf = Landfill::open(vec![])?;
    // The journal of the log is asked for first, then the seeds of the
    // index; nothing is claimed until both are there.
    match lf.substructure::<OnceMap<8, 8>>("map") {
        Err(FillError::Unmapped { name, size }) => {
            assert_eq!((name.as_str(), size), ("map_data_journal_", 4096));
            lf.supply(name, MappedFile::anon(size as usize)?)?;
        }
        _ => panic!("the journal has no file"),
    }
    match lf.substructure::<OnceMap<8, 8>>("map") {
        Err(FillError::Unmapped { name, size }) => {
            assert_eq!((name.as_str(), size), ("map_index_entropy", 32));
            lf.supply(name, MappedFile::anon(size as usize)?)?;
        }
        _ => panic!("the seeds have no file"),
    }
    assert!(!lf.is_reserved(&"map".to_string()));
    let _map: OnceMap<8, 8> = lf.substructure("map")?;
    assert!(lf.is_reserved(&"map".to_string()));
    assert!(matches!(lf.substructure::<OnceMap<8, 8>>("map"), Err(FillError::Duplicate)));
    Ok(())
}

#[test]
fn oncemap_survives_a_restart() -> Result<(), FillError> {
    let mut lf = Landfill::open(vec![])?;
    let mut map: OnceMap<8, 8> = open(&mut lf, "map")?;
    for key in 0..200usize {
        loop {
            match insert(&mut lf, &mut map, key, key * 3) {
                Err(FillError::Unmapped { name, size }) => {
                    lf.supply(name, MappedFile::anon(size as usize)?)?;
                }
                other => break other?,
            }
        }
    }
    map.close(&mut lf);
    let directory = lf.close();

    let mut lf = Landfill::open(directory)?;
    let mut map: OnceMap<8, 8> = open(&mut lf, "map")?;
    for key in 0..200usize {
        assert_eq!(get(&map, key), Some(key * 3));
    }
    assert_eq!(get(&map, 200), None);
    insert(&mut lf, &mut map, 200, 1)?;
    assert_eq!(get(&map, 200), Some(1));
    Ok(())
}
