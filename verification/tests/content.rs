use landfill::helpers::native_byte_order;
use landfill::{AppendOnly, Content, ContentId, FillError, Landfill, SmashMap};

const A_LOT: u64 = 1024;

fn digest(bytes: &[u8]) -> Vec<u8> {
    blake3::hash(bytes).as_bytes().to_vec()
}

fn open(lf: &mut Landfill, name: &str) -> Result<Content, FillError> {
    lf.substructure(name)
}

fn insert(lf: &mut Landfill, content: &mut Content, bytes: &[u8]) -> Result<ContentId, FillError> {
    let id = ContentId::from_slice(&digest(bytes));
    content.insert(lf, &id, bytes, &digest)?;
    Ok(id)
}

fn get(content: &Content, id: ContentId) -> Option<&[u8]> {
    content.get(&id, &digest)
}

#[test]
fn lots_of_content() -> Result<(), FillError> {
    let mut lf = Landfill::ephemeral()?;
    let mut content = open(&mut lf, "content")?;

    let mut ids = vec![];

    for i in 0u64..A_LOT {
        ids.push(insert(&mut lf, &mut content, &i.to_le_bytes())?);
    }

    for (i, id) in ids.iter().enumerate() {
        assert_eq!(get(&content, *id).unwrap(), i.to_le_bytes());
    }

    Ok(())
}

#[test]
fn content_is_stored_once() -> Result<(), FillError> {
    let mut lf = Landfill::ephemeral()?;
    let mut content = open(&mut lf, "content")?;
    let id = insert(&mut lf, &mut content, b"some bytes")?;
    let again = insert(&mut lf, &mut content, b"some bytes")?;
    assert_eq!(id, again);
    let other = insert(&mut lf, &mut content, b"other bytes")?;
    assert_ne!(id, other);
    assert_eq!(get(&content, id).unwrap(), b"some bytes");
    assert_eq!(get(&content, other).unwrap(), b"other bytes");
    // The second insertion of the same bytes wrote nothing: the other bytes
    // follow the first in the log.
    let missing = ContentId::from_slice(&digest(b"missing"));
    assert!(get(&content, missing).is_none());
    // What is stored under an id has to digest to it.
    content.insert_aligned(&mut lf, &missing, b"not what it says", 8, &digest)?;
    assert!(get(&content, missing).is_none());
    let state = content.hash_of(&missing);
    assert!(content.get_hashed(state, &missing, &digest).is_none());
    assert_eq!(content.get_hashed(content.hash_of(&id), &id, &digest).unwrap(), b"some bytes");
    content.flush()?;
    Ok(())
}

#[test]
fn content_of_parts() -> Result<(), FillError> {
    let mut lf = Landfill::ephemeral()?;
    let data: AppendOnly<4096> = lf.substructure("bytes")?;
    let index: SmashMap<16, 4096> = lf.substructure("ids")?;
    let mut content = Content::from_parts(data, index, native_byte_order());
    let id = insert(&mut lf, &mut content, b"abc")?;
    assert_eq!(get(&content, id).unwrap(), b"abc");
    content.close(&mut lf);
    Ok(())
}

#[test]
fn content_ids_in_hexadecimal() {
    let bytes: Vec<u8> = (0u8..32).map(|i| i * 8 + 1).collect();
    let id = ContentId::from_slice(&bytes);
    assert_eq!(id.bytes(), bytes);
    assert_eq!(
        id.to_hex(),
        "0109111921293139414951596169717981899199a1a9b1b9c1c9d1d9e1e9f1f9"
    );
    assert_eq!(ContentId::from_hex(&id.to_hex()), id);
    assert_eq!(
        ContentId::from_hex("0109111921293139414951596169717981899199A1A9B1B9C1C9D1D9E1E9F1F9"),
        id
    );
    // The first four bytes, the least significant first.
    assert_eq!(id.discriminant(), 0x1911_0901);
}
