//! Values of rows, and what they may be read as.
use otmp::cells::{
    blob, check_ordinals, hash, opt, optional_text, optional_u32, required_bool, required_i64,
    required_text, required_u32, signed_cell, sqlite, text_cell, uint, Cell,
};
use otmp::error::RuntimeError;
use otmp::hash::Sha256;

fn corrupt_as<T>(result: Result<T, RuntimeError>, message: &str) -> bool {
    matches!(result, Err(RuntimeError::Corrupt(m)) if m == message)
}

#[test]
fn required_is_strictly_boolean() {
    assert!(required_bool(&Cell::Integer(0)).is_ok());
    assert!(required_bool(&Cell::Integer(1)).is_ok());
    assert!(required_bool(&Cell::Integer(2)).is_err());
    assert!(required_bool(&Cell::Null).is_err());
}

#[test]
fn ordinals_must_start_at_zero_without_gaps() {
    assert!(check_ordinals(&vec![0, 1, 2], "field").is_ok());
    assert!(check_ordinals(&vec![1], "field").is_err());
    assert!(check_ordinals(&vec![0, 2], "field").is_err());
    assert!(check_ordinals(&vec![0, 0], "field").is_err());
}

#[test]
fn integers_keep_their_sign_and_range() {
    assert_eq!(signed_cell(&Cell::Integer(-3)).unwrap(), -3);
    assert_eq!(uint(&Cell::Integer(7)).unwrap(), 7);
    assert!(uint(&Cell::Integer(-1)).is_err());
    assert!(uint(&Cell::Real).is_err());
    assert_eq!(opt(&Cell::Null).unwrap(), None);
    assert_eq!(opt(&Cell::Integer(2)).unwrap(), Some(2));
    assert_eq!(required_i64(&Cell::Integer(5), "x").unwrap(), 5);
    assert!(required_i64(&Cell::Null, "x").is_err());
    assert_eq!(required_u32(&Cell::Integer(5), "x").unwrap(), 5);
    assert!(required_u32(&Cell::Integer(1 << 32), "x").is_err());
    assert_eq!(optional_u32(&Cell::Null, "x").unwrap(), None);
    assert!(matches!(sqlite(9), Ok(Cell::Integer(9))));
    assert!(corrupt_as(sqlite(1 << 63), "metadata integer overflow"));
}

#[test]
fn texts_and_blobs_are_not_mixed_up() {
    let text = Cell::Text("a".to_owned());
    let bytes = Cell::Blob(vec![1, 2]);
    assert_eq!(text_cell(&text).unwrap(), "a");
    assert!(corrupt_as(text_cell(&bytes), "metadata text has invalid type"));
    assert_eq!(blob(&bytes).unwrap(), &vec![1, 2]);
    assert!(corrupt_as(blob(&text), "metadata blob has invalid type"));
    assert_eq!(required_text(&text, "name").unwrap(), "a");
    assert!(required_text(&Cell::Null, "name").is_err());
    assert_eq!(optional_text(&Cell::Null, "doc").unwrap(), None);
    let digest = Sha256::digest(b"x");
    assert_eq!(hash(&Cell::Blob(digest.bytes.to_vec())).unwrap(), digest);
    assert!(hash(&Cell::Blob(vec![0; 31])).is_err());
}
