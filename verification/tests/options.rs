use roughdb::options::ValueType;
use std::mem::size_of;

#[test]
fn options_as_byte() {
    assert_eq!(0, ValueType::Deletion as u8);
    assert_eq!(1, ValueType::Value as u8);
    assert_eq!(2, ValueType::ValueWriteTime as u8);
    assert_eq!(3, ValueType::ValueExplicitExpiry as u8);
}

#[test]
fn options_from_byte() {
    assert_eq!(Ok(ValueType::Deletion), 0u8.try_into());
    assert_eq!(Ok(ValueType::Value), 1u8.try_into());
    assert_eq!(Ok(ValueType::ValueWriteTime), 2u8.try_into());
    assert_eq!(Ok(ValueType::ValueExplicitExpiry), 3u8.try_into());
    assert!(<u8 as TryInto<ValueType>>::try_into(4u8).is_err());
}

#[test]
fn options_size() {
    assert_eq!(1, size_of::<ValueType>());
}

#[test]
fn options_to_byte_is_the_discriminant() {
    let kinds = [
        ValueType::Deletion,
        ValueType::Value,
        ValueType::ValueWriteTime,
        ValueType::ValueExplicitExpiry,
    ];
    for kind in kinds {
        assert_eq!(kind.to_byte(), kind as u8);
        assert_eq!(ValueType::from_byte(kind.to_byte()), Some(kind));
    }
    assert_eq!(ValueType::from_byte(4), None);
    assert_eq!(ValueType::from_byte(255), None);
}
