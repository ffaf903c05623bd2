use passtool::{Error, PassTable, PasswordMeta};

#[test]
fn binary_round_trip_test() -> Result<(), Error> {
    let mut pt = PassTable::new();
    pt.add_password(
        "pass1",
        "test1",
        PasswordMeta::new(
            "lmao1".to_string(),
            vec!["code.exe".to_string(), "brave.exe".to_string()],
        ),
        "password1",
    )?;
    pt.add_password(
        "pass2",
        "test2",
        PasswordMeta::new("test".to_string(), vec!["brave.exe".to_string()]),
        "password2",
    )?;
    pt.add_password("pass3", "test3", PasswordMeta::default(), "password3")?;

    let encoded = pt.to_binary();
    let pt2 = PassTable::from_binary(&encoded)?;
    assert_eq!(pt, pt2);
    assert_eq!(pt2.get_password("pass2", "password2")?, "test2");
    assert_eq!("test3", pt2.get_password("pass3", "password3")?);
    assert_eq!(pt2.get_metadata("pass1")?.description, "lmao1");
    assert_eq!(
        pt2.get_metadata("pass1")?.apps,
        vec!["code.exe".to_string(), "brave.exe".to_string()]
    );
    Ok(())
}

#[test]
fn round_trip_after_mutations_test() -> Result<(), Error> {
    let mut pt = PassTable::new();
    pt.add_password("a", "s1", PasswordMeta::default(), "k1")?;
    pt.add_password("b", "s2", PasswordMeta::default(), "k2")?;
    pt.add_password("c", "s3", PasswordMeta::default(), "k3")?;
    pt.remove_password("b")?;
    pt.update_metadata("c", PasswordMeta::new("third".to_string(), vec![]))?;

    let pt2 = PassTable::from_binary(&pt.to_binary())?;
    assert_eq!(pt, pt2);
    assert_eq!(pt2.get_password("a", "k1")?, "s1");
    assert_eq!(pt2.get_password("c", "k3")?, "s3");
    assert_eq!(pt2.get_metadata("c")?.description, "third");
    assert!(pt2.get_password("b", "k2").is_err_and(|x| x == Error::PassNotFound));
    Ok(())
}

#[test]
fn empty_table_round_trip_test() {
    let pt = PassTable::new();
    let encoded = pt.to_binary();
    assert_eq!(encoded, vec![0u8; 8]);
    let pt2 = PassTable::from_binary(&encoded).unwrap();
    assert_eq!(pt, pt2);
    assert!(pt2.get_names().is_empty());
}

#[test]
fn binary_layout_test() {
    let mut pt = PassTable::new();
    pt.add_password("A", "s", PasswordMeta::default(), "k").unwrap();
    let encoded = pt.to_binary();
    assert_eq!(&encoded[0..8], &[1, 0, 0, 0, 0, 0, 0, 0]);
    assert_eq!(&encoded[8..16], &[1, 0, 0, 0, 0, 0, 0, 0]);
    assert_eq!(encoded[16], b'A');
    assert_eq!(&encoded[17..25], &[17, 0, 0, 0, 0, 0, 0, 0]);
}

#[test]
fn truncated_bytes_test() {
    let r = PassTable::from_binary(&[1, 2, 3]);
    assert!(r.is_err_and(|e| e == Error::BadFormat));
}

#[test]
fn trailing_bytes_test() {
    let mut pt = PassTable::new();
    pt.add_password("a", "b", PasswordMeta::default(), "c").unwrap();
    let mut encoded = pt.to_binary();
    encoded.push(0);
    let r = PassTable::from_binary(&encoded);
    assert!(r.is_err_and(|e| e == Error::BadFormat));
}

#[test]
fn invalid_utf8_name_test() {
    let encoded = vec![
        1, 0, 0, 0, 0, 0, 0, 0, // one entry
        1, 0, 0, 0, 0, 0, 0, 0, // name of one byte
        0xff, // not valid UTF-8
    ];
    let r = PassTable::from_binary(&encoded);
    assert!(r.is_err_and(|e| e == Error::BadFormat));
}

#[test]
fn duplicate_name_rejected_test() {
    let mut pt = PassTable::new();
    pt.add_password("a", "b", PasswordMeta::default(), "c").unwrap();
    let one = pt.to_binary();
    let mut two = vec![2, 0, 0, 0, 0, 0, 0, 0];
    two.extend_from_slice(&one[8..]);
    two.extend_from_slice(&one[8..]);
    let r = PassTable::from_binary(&two);
    assert!(r.is_err_and(|e| e == Error::BadFormat));
}
