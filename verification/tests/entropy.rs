use landfill::entropy::lower_half;
use landfill::helpers::{
    decode_u64, encode_u64, is_all_zeroes, native_byte_order, order_laid_out, ByteOrder,
};
use landfill::{
    join_names, AppendOnly, CheckSummer, Content, Entropy, FillError, GuardedLandfill, Landfill,
    MappedFile, OnceMap, RandomAccess, SmashMap, StaticHeader,
};
use std::hash::Hasher;

fn open_supplied(lf: &mut Landfill, name: &str) -> Result<Entropy, FillError> {
    loop {
        match lf.substructure::<Entropy>(name) {
            Err(FillError::Unmapped { name, size }) => {
                lf.supply(name, MappedFile::anon(size as usize)?)?;
            }
            other => return other,
        }
    }
}

#[test]
fn entropy_is_the_same_on_every_open() -> Result<(), FillError> {
    let mut lf = Landfill::open(vec![])?;
    let first = open_supplied(&mut lf, "entropy")?;
    let directory = lf.close();
    assert_eq!(directory.len(), 1);
    assert_eq!(directory[0].0, "entropy");
    assert_eq!(directory[0].1.len(), 32);

    let mut lf = Landfill::open(directory)?;
    let second: Entropy = lf.substructure("entropy")?;
    let directory = lf.close();

    let mut lf = Landfill::open(directory)?;
    let third: Entropy = lf.substructure("entropy")?;

    let a = first.header();
    let b = second.header();
    let c = third.header();
    assert_eq!((a.key_a, a.key_b, a.key_c, a.key_d), (b.key_a, b.key_b, b.key_c, b.key_d));
    assert_eq!((a.key_a, a.key_b, a.key_c, a.key_d), (c.key_a, c.key_b, c.key_c, c.key_d));
    assert_eq!(first.tag(), third.tag());
    assert_eq!(first.checksum_u64(17), third.checksum_u64(17));
    assert_eq!(first.checksum(&"key"), third.checksum(&"key"));
    Ok(())
}

#[test]
fn entropy_file_holds_the_seeds() -> Result<(), FillError> {
    let mut lf = Landfill::open(vec![])?;
    let entropy = open_supplied(&mut lf, "seeds")?;
    let directory = lf.close();
    let header = entropy.header();
    let order = native_byte_order();
    let file = &directory[0].1;
    assert_eq!(decode_u64(order, file.read(0, 8)), header.key_a);
    assert_eq!(decode_u64(order, file.read(8, 8)), header.key_b);
    assert_eq!(decode_u64(order, file.read(16, 8)), header.key_c);
    assert_eq!(decode_u64(order, file.read(24, 8)), header.key_d);
    assert_eq!(file.read(0, 32), entropy.to_bytes(order));
    Ok(())
}

#[test]
fn entropy_from_bytes_reads_four_words() {
    let mut bytes = vec![];
    for word in [1u64, 2, 3, 0x0102_0304_0506_0708] {
        bytes.extend_from_slice(&word.to_le_bytes());
    }
    let entropy = Entropy::from_bytes(ByteOrder::Little, &bytes);
    let header = entropy.header();
    assert_eq!((header.key_a, header.key_b, header.key_c), (1, 2, 3));
    assert_eq!(header.key_d, 0x0102_0304_0506_0708);
    let swapped = Entropy::from_bytes(ByteOrder::Big, &bytes);
    assert_eq!(swapped.header().key_d, 0x0807_0605_0403_0201);
    assert_eq!(entropy.to_bytes(ByteOrder::Little), bytes);
}

#[test]
fn checksums_are_those_of_seahash() {
    let summer = CheckSummer::new(1, 2, 3, 4);
    let mut hasher = seahash::SeaHasher::with_seeds(1, 2, 3, 4);
    hasher.write_u64(99);
    let expected = hasher.finish();
    assert_eq!(summer.checksum_u64(99), expected);
    assert_eq!(summer.checksum(99u64), expected);
    assert_eq!(summer.checksum_truncated(99u64), expected as u32);
    assert_ne!(summer.checksum_u64(99), 99);
    assert_ne!(summer.checksum_u64(99), summer.checksum_u64(98));
    // Other keys, other checksums.
    let header = StaticHeader { key_a: 4, key_b: 3, key_c: 2, key_d: 1 };
    let other = CheckSummer::new_from_header(&header);
    assert_ne!(other.checksum_u64(99), expected);

    let entropy = Entropy::from_bytes(ByteOrder::Little, &{
        let mut bytes = vec![];
        for word in [1u64, 2, 3, 4] {
            bytes.extend_from_slice(&word.to_le_bytes());
        }
        bytes
    });
    assert_eq!(entropy.checksum_u64(99), expected);
    assert_eq!(entropy.checksum(&99u64), expected);
    let mut hasher = seahash::SeaHasher::with_seeds(1, 2, 3, 4);
    hasher.write(b"some bytes");
    assert_eq!(entropy.checksum_bytes(b"some bytes"), hasher.finish());
    assert_ne!(entropy.checksum_bytes(b"some bytes"), entropy.checksum_bytes(b"some byte"));
    let empty = seahash::SeaHasher::with_seeds(1, 2, 3, 4).finish();
    assert_eq!(entropy.tag().0, empty as u32);
    assert_eq!(entropy.checksum(&()), empty);
}

#[test]
fn ephemeral_entropy_differs() -> Result<(), FillError> {
    let mut lf = Landfill::ephemeral()?;
    let a: Entropy = lf.substructure("a")?;
    let b: Entropy = lf.substructure("b")?;
    let (a, b) = (a.header(), b.header());
    assert_ne!((a.key_a, a.key_b, a.key_c, a.key_d), (b.key_a, b.key_b, b.key_c, b.key_d));
    assert_ne!(Entropy::ephemeral().nonce(), Entropy::ephemeral().nonce());
    Ok(())
}

#[test]
fn static_blob_is_written_once() -> Result<(), FillError> {
    let root = GuardedLandfill::root();
    let mut lf = Landfill::open(vec![])?;
    // There is no file yet: it is asked for.
    match lf.get_static_or_init(&root, "blob", 4, || vec![1, 2, 3, 4]) {
        Err(FillError::Unmapped { name, size }) => {
            assert_eq!((name.as_str(), size), ("blob", 4));
            lf.supply(name, MappedFile::anon(4)?)?;
        }
        _ => panic!("there is no file"),
    }
    assert_eq!(lf.get_static_or_init(&root, "blob", 4, || vec![1, 2, 3, 4])?, vec![1, 2, 3, 4]);
    // From now on the file is read and the closure is not asked.
    assert_eq!(lf.get_static_or_init(&root, "blob", 4, || vec![5, 6, 7, 8])?, vec![1, 2, 3, 4]);
    let directory = lf.close();
    let mut lf = Landfill::open(directory)?;
    assert_eq!(lf.get_static_or_init(&root, "blob", 4, || vec![9, 9, 9, 9])?, vec![1, 2, 3, 4]);
    // A shorter read takes the start of the file, a longer one is refused.
    assert_eq!(lf.get_static_or_init(&root, "blob", 2, || vec![0, 0])?, vec![1, 2]);
    assert!(matches!(
        lf.get_static_or_init(&root, "blob", 5, || vec![0; 5]),
        Err(FillError::Truncated)
    ));
    // The closure has to give as many bytes as are asked for.
    let mut ephemeral = Landfill::ephemeral()?;
    assert!(matches!(
        ephemeral.get_static_or_init(&root, "blob", 4, || vec![1]),
        Err(FillError::BadRecord)
    ));
    // An ephemeral landfill keeps nothing.
    assert_eq!(ephemeral.get_static_or_init(&root, "blob", 1, || vec![1])?, vec![1]);
    assert_eq!(ephemeral.get_static_or_init(&root, "blob", 1, || vec![2])?, vec![2]);
    Ok(())
}

#[test]
fn names_are_joined_with_underscores() {
    assert_eq!(join_names("", "name"), "name");
    assert_eq!(join_names("prefix", "name"), "prefix_name");
    assert_eq!(join_names("a_b", ""), "a_b_");
    assert_eq!(join_names("", ""), "");
    let scope = GuardedLandfill::root().branch("map").branch("slots");
    assert_eq!(scope.full_name(), "map_slots");
    assert_eq!(scope.branch("array").inner(), "map_slots_array");
    assert_eq!(landfill::bytes::lane_file_name(0), "00");
    assert_eq!(landfill::bytes::lane_file_name(10), "0a");
    assert_eq!(landfill::bytes::lane_file_name(31), "1f");
    assert_eq!(landfill::bytes::lane_file_name(255), "ff");
}

#[test]
fn integers_are_laid_out_in_either_order() {
    let value: u64 = 0x0102_0304_0506_0708;
    assert_eq!(encode_u64(ByteOrder::Little, value), vec![8, 7, 6, 5, 4, 3, 2, 1]);
    assert_eq!(encode_u64(ByteOrder::Big, value), vec![1, 2, 3, 4, 5, 6, 7, 8]);
    assert_eq!(decode_u64(ByteOrder::Little, &[8, 7, 6, 5, 4, 3, 2, 1]), value);
    assert_eq!(decode_u64(ByteOrder::Big, &[1, 2, 3, 4, 5, 6, 7, 8]), value);
    assert_eq!(encode_u64(native_byte_order(), value), value.to_ne_bytes());
    assert!(is_all_zeroes(&[0, 0, 0]));
    assert!(is_all_zeroes(&[]));
    assert!(!is_all_zeroes(&[0, 0, 1]));
}

#[test]
fn lower_half_keeps_the_lower_bits() {
    assert_eq!(lower_half(0), 0);
    assert_eq!(lower_half(5), 5);
    assert_eq!(lower_half(0x1_0000_0005), 5);
    assert_eq!(lower_half(0xdead_beef_0000_0000), 0);
    assert_eq!(lower_half(u64::MAX), u32::MAX);
    let summer = CheckSummer::new(9, 8, 7, 6);
    assert_eq!(summer.checksum_truncated(41u64), lower_half(summer.checksum(41u64)));
    assert_eq!(summer.checksum_truncated("text"), lower_half(summer.checksum("text")));
}

#[test]
fn byte_order_is_read_from_the_number_one() {
    assert!(matches!(order_laid_out([1, 0]), ByteOrder::Little));
    assert!(matches!(order_laid_out([0, 1]), ByteOrder::Big));
    let native = matches!(native_byte_order(), ByteOrder::Little);
    let read = matches!(order_laid_out(1u16.to_ne_bytes()), ByteOrder::Little);
    assert_eq!(native, read);
}

#[test]
fn nothing_to_flush_in_memory() -> Result<(), FillError> {
    let mut lf = Landfill::ephemeral()?;
    let mut log: AppendOnly<4096> = lf.substructure("log")?;
    log.write(&mut lf, b"some bytes")?;
    assert!(log.flush().is_ok());
    let mut array: RandomAccess<8, 1024> = lf.substructure("array")?;
    array.reserve(&mut lf, 3)?;
    assert!(array.flush().is_ok());
    let map: SmashMap<8, 1024> = lf.substructure("map")?;
    assert!(map.flush().is_ok());
    let mut once: OnceMap<1, 1> = lf.substructure("once")?;
    once.insert(&mut lf, &[1], &[2])?;
    assert!(once.flush().is_ok());
    let store: Content = lf.substructure("store")?;
    assert!(store.flush().is_ok());
    Ok(())
}
