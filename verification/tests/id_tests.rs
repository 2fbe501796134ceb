use inboxid::id::{gen_id, load_i64, store_i64, IdError, MaildirID};

#[test]
fn gen_id_joins_epoch_and_uid() {
    assert_eq!(gen_id(100, 2), "100_2");
    assert_eq!(gen_id(0, 0), "0_0");
    assert_eq!(gen_id(4294967295, 4294967295), "4294967295_4294967295");
}

#[test]
fn packing_puts_epoch_in_high_half() {
    let id = MaildirID::new(1, 2);
    assert_eq!(id.to_u64(), (1u64 << 32) | 2);
    assert_eq!(id.to_i64(), (1i64 << 32) | 2);
    assert_eq!(MaildirID::from_u64(id.to_u64()), id);
    assert_eq!(MaildirID::from_i64(id.to_i64()), id);
}

#[test]
fn packing_survives_a_high_epoch() {
    let id = MaildirID::new(0xffff_ffff, 7);
    assert_eq!(id.to_u64(), 0xffff_ffff_0000_0007);
    assert_eq!(id.to_i64(), -4294967289);
    assert_eq!(MaildirID::from_i64(id.to_i64()), id);
    assert_eq!(load_i64(store_i64(u64::MAX)), u64::MAX);
    assert_eq!(store_i64(load_i64(i64::MIN)), i64::MIN);
}

#[test]
fn names_read_back() {
    assert_eq!(MaildirID::try_from("100_2"), Ok(MaildirID::new(100, 2)));
    assert_eq!(MaildirID::try_from("+1_+2"), Ok(MaildirID::new(1, 2)));
    assert_eq!(MaildirID::try_from("007_0"), Ok(MaildirID::new(7, 0)));
    assert_eq!(MaildirID::new(5, 9).to_string(), "5_9");
    assert_eq!(MaildirID::new(5, 9).to_imap(), "9");
}

#[test]
fn bad_names_are_told_apart() {
    assert_eq!(MaildirID::try_from("1002"), Err(IdError::MissingSeparator));
    assert_eq!(MaildirID::try_from("x_2"), Err(IdError::InvalidValidity));
    assert_eq!(MaildirID::try_from("_2"), Err(IdError::InvalidValidity));
    assert_eq!(MaildirID::try_from("4294967296_2"), Err(IdError::InvalidValidity));
    assert_eq!(MaildirID::try_from("1_"), Err(IdError::InvalidUid));
    assert_eq!(MaildirID::try_from("1_2_3"), Err(IdError::InvalidUid));
    assert_eq!(MaildirID::try_from("1_-2"), Err(IdError::InvalidUid));
}
