use landfill::{Entropy, FillError, Landfill, MappedFile, SearchPattern, SmashMap};

#[test]
fn smashmap_trivial() -> Result<(), FillError> {
    let mut lf = Landfill::ephemeral()?;
    let mut h: SmashMap<4, 4096> = lf.substructure("map")?;

    let msg: u32 = 1234;

    h.insert(&mut lf, b"omg", |s, _| s.proceed(), |_| Ok(msg.to_ne_bytes().to_vec()))?;

    h.get(b"omg", |s, candidate| {
        if candidate != msg.to_ne_bytes() {
            panic!("oh no");
        }
        s.proceed()
    });

    Ok(())
}

const A_LOT: usize = 1024 * 128;

#[test]
fn smashmap_a_lot() -> Result<(), FillError> {
    let mut lf = Landfill::ephemeral()?;
    let mut h: SmashMap<4, 4096> = lf.substructure("h")?;

    for i in 0..A_LOT {
        let value = (i + 1) as u32;
        h.insert(&mut lf, &value, |s, _| s.proceed(), |_| Ok(value.to_ne_bytes().to_vec()))?;
    }

    for i in 0..A_LOT {
        let value = (i + 1) as u32;
        let found = h
            .get(&value, |s, candidate| {
                if candidate == ((i + 1) as u32).to_ne_bytes() {
                    s.halt()
                } else {
                    s.proceed()
                }
            })
            .is_some();
        assert_eq!(found, true);
    }

    let nonexist = A_LOT as u32 + 1;
    let found = h
        .get(&nonexist, |s, candidate| {
            if candidate == nonexist.to_ne_bytes() {
                s.halt()
            } else {
                s.proceed()
            }
        })
        .is_some();

    assert_eq!(found, false);

    Ok(())
}

#[test]
fn hashmap_trivial() -> Result<(), FillError> {
    let mut lf = Landfill::ephemeral()?;

    let mut h: SmashMap<4, 4096> = lf.substructure("hashmap")?;

    let msg: u32 = 1234;

    h.insert(&mut lf, b"omg", |s, _| s.proceed(), |_| Ok(msg.to_ne_bytes().to_vec()))?;

    h.get(b"omg", |s, candidate| {
        if candidate != msg.to_ne_bytes() {
            panic!("oh no");
        }
        s.proceed()
    });

    Ok(())
}

#[test]
fn hashmap_a_lot() -> Result<(), FillError> {
    let mut lf = Landfill::ephemeral()?;
    let mut h: SmashMap<4, 4096> = lf.substructure("hashmap")?;

    for i in 0..A_LOT {
        let value = (i + 1) as u32;
        h.insert(&mut lf, &value, |s, _| s.proceed(), |_| Ok(value.to_ne_bytes().to_vec()))?;
    }

    for i in 0..A_LOT {
        let value = (i + 1) as u32;
        let found = h
            .get(&value, |s, candidate| {
                if candidate == ((i + 1) as u32).to_ne_bytes() {
                    s.halt()
                } else {
                    s.proceed()
                }
            })
            .is_some();
        assert_eq!(found, true);
    }

    let nonexist = A_LOT as u32 + 1;
    let found = h
        .get(&nonexist, |s, candidate| {
            if candidate == nonexist.to_ne_bytes() {
                s.halt()
            } else {
                s.proceed()
            }
        })
        .is_some();

    assert_eq!(found, false);

    Ok(())
}

#[test]
fn search_pattern_walks_growing_bands() {
    let entropy = Entropy::ephemeral();
    let state: u64 = 5000;
    let mut search = SearchPattern::new(state, &entropy);
    // Band 0 has 1024 slots and is tried once.
    assert_eq!(search.band(), 0);
    assert_eq!(search.get_slot(), 5000 % 1024);
    assert_eq!(search.tag_u64(), 5000);
    // Band 1 has 2048 slots from slot 1024 on and is tried twice, with the
    // hash hashed once more.
    search.calculate_next();
    let second = entropy.checksum_u64(state);
    assert_eq!(search.band(), 1);
    assert_eq!(search.tag_u64(), second);
    assert_eq!(search.get_slot(), 1024 + second % 2048);
    search.calculate_next();
    assert_eq!(search.band(), 1);
    assert_eq!(search.get_slot(), 1024 + (second % 2048 + 1) % 2048);
    // Band 2 has 4096 slots from slot 3072 on and is tried four times.
    search.calculate_next();
    let third = entropy.checksum_u64(second);
    assert_eq!(search.band(), 2);
    for retry in 0..4u64 {
        assert_eq!(search.band(), 2);
        assert_eq!(search.get_slot(), 3072 + (third % 4096 + retry) % 4096);
        search.calculate_next();
    }
    assert_eq!(search.band(), 3);
    assert_eq!(search.get_slot(), 7168 + entropy.checksum_u64(third) % 8192);
}

#[test]
fn search_pattern_tags_are_the_low_bytes() {
    let entropy = Entropy::ephemeral();
    let search = SearchPattern::new(0x0123_4567_89ab_cdef, &entropy);
    assert_eq!(search.tag_u8(), 0xef);
    assert_eq!(search.tag_u16(), 0xcdef);
    assert_eq!(search.tag_u32(), 0x89ab_cdef);
    assert_eq!(search.tag_u64(), 0x0123_4567_89ab_cdef);
    assert!(matches!(search.proceed(), landfill::SearchNext::Proceed));
    assert!(matches!(search.halt(), landfill::SearchNext::Halt));
}

#[test]
fn smashmap_insert_then_get_from_the_same_hash() -> Result<(), FillError> {
    let mut lf = Landfill::ephemeral()?;
    let mut map: SmashMap<2, 4096> = lf.substructure("map")?;
    // Three records from one hash: each goes to the next free step.
    for value in [1u8, 2, 3] {
        map.insert_hashed(&mut lf, 77, |s, _| s.proceed(), |_| Ok(vec![value, 0xff]))?;
    }
    // A search from that hash is shown all three, in that order.
    for value in [1u8, 2, 3] {
        let found = map.get_hashed(77, |s, record| {
            if record[0] == value {
                s.halt()
            } else {
                s.proceed()
            }
        });
        assert_eq!(found.unwrap(), &[value, 0xff]);
    }
    // A search that is content with nothing ends at the first empty slot.
    assert!(map.get_hashed(77, |s, _| s.proceed()).is_none());
    // A search from another hash meets none of them.
    assert!(map.get_hashed(78, |s, _| s.halt()).is_none());
    // An insertion that is content with what it finds writes nothing.
    map.insert_hashed(&mut lf, 77, |s, _| s.halt(), |_| Ok(vec![9, 9]))?;
    let nine = map.get_hashed(77, |s, record| if record[0] == 9 { s.halt() } else { s.proceed() });
    assert!(nine.is_none());
    Ok(())
}

#[test]
fn smashmap_refuses_bad_records() -> Result<(), FillError> {
    let mut lf = Landfill::ephemeral()?;
    let mut map: SmashMap<2, 4096> = lf.substructure("map")?;
    // All zero: that would be an empty slot.
    assert!(matches!(
        map.insert_hashed(&mut lf, 1, |s, _| s.proceed(), |_| Ok(vec![0, 0])),
        Err(FillError::BadRecord)
    ));
    // The wrong length.
    assert!(matches!(
        map.insert_hashed(&mut lf, 1, |s, _| s.proceed(), |_| Ok(vec![1, 2, 3])),
        Err(FillError::BadRecord)
    ));
    // The consumer's own error is handed on.
    assert!(matches!(
        map.insert_hashed(&mut lf, 1, |s, _| s.proceed(), |_| Err(FillError::Locked)),
        Err(FillError::Locked)
    ));
    assert!(map.get_hashed(1, |s, _| s.halt()).is_none());
    Ok(())
}

#[test]
fn smashmap_survives_a_restart() -> Result<(), FillError> {
    let mut lf = Landfill::open(vec![])?;
    let mut map: SmashMap<4, 4096> = loop {
        match lf.substructure("map") {
            Err(FillError::Unmapped { name, size }) => {
                assert_eq!(name, "map_entropy");
                assert_eq!(size, 32);
                lf.supply(name, MappedFile::anon(size as usize)?)?;
            }
            other => break other?,
        }
    };
    for key in 1..=300u32 {
        loop {
            let record = key.to_ne_bytes().to_vec();
            match map.insert(&mut lf, &key, |s, _| s.proceed(), |_| Ok(record)) {
                Err(FillError::Unmapped { name, size }) => {
                    lf.supply(name, MappedFile::anon(size as usize)?)?;
                }
                other => break other?,
            }
        }
    }
    map.close(&mut lf);
    let directory = lf.close();

    let mut lf = Landfill::open(directory)?;
    let map: SmashMap<4, 4096> = lf.substructure("map")?;
    for key in 1..=300u32 {
        let found = map.get(&key, |s, record| {
            if record == key.to_ne_bytes() {
                s.halt()
            } else {
                s.proceed()
            }
        });
        assert_eq!(found.unwrap(), key.to_ne_bytes());
    }
    Ok(())
}
