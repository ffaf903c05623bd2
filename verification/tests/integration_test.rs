use passtool::{Error, PassTable, PasswordMeta};

#[test]
fn passtable_test() -> Result<(), Error> {
    let message = "super secret message";
    let password = "super secret password";
    let mut pt = PassTable::new();
    let name = String::from("test");
    pt.add_password(&name, message, PasswordMeta::default(), password)?;
    let pass = pt.get_password(&name, password)?;
    assert_eq!(pass, message);
    Ok(())
}

#[test]
fn remove_test() -> Result<(), Error> {
    let mut pt = PassTable::new();
    pt.add_password("test", "password", PasswordMeta::default(), "1234")?;
    pt.add_password("test2", "password2", PasswordMeta::default(), "1234")?;
    pt.remove_password("test")?;
    assert!(pt.get_password("test", "1234").is_err_and(|x| x == Error::PassNotFound));
    assert_eq!(pt.get_password("test2", "1234").unwrap(), "password2");
    assert!(pt.remove_password("test").is_err_and(|x| x == Error::PassNotFound));
    Ok(())
}

#[test]
fn passtable_test2() -> Result<(), Error> {
    let charset = "1234567890abcdefghijklmnopqrstuvwxyzABCDEFGHIJKLMNOPQRSTUVWXYZ";

    let data: Vec<(String, String, String)> = (0..10)
        .map(|x| (x.to_string(), random_string::generate(100, charset), random_string::generate(50, charset)))
        .collect();
    let mut pt = PassTable::new();
    for (n, m, p) in &data {
        pt.add_password(n, m, PasswordMeta::default(), p)?;
    }

    for (n, m, p) in &data {
        let pass = pt.get_password(n, p)?;
        assert_eq!(&pass, m);
    }
    Ok(())
}

#[test]
fn incorrect_password_passtable_test() -> Result<(), Error> {
    let message = "super secret message";
    let password = "super secret password";
    let mut pt = PassTable::new();
    let name = String::from("test");
    pt.add_password(&name, message, PasswordMeta::default(), password)?;
    let pass = pt.get_password(&name, "bebra");
    assert!(pass.is_err_and(|x| x == Error::IncorrectPass));
    Ok(())
}

#[test]
fn not_found_passtable_test() -> Result<(), Error> {
    let message = "super secret message";
    let password = "super secret password";
    let mut pt = PassTable::new();
    let name = String::from("test");
    pt.add_password(&name, message, PasswordMeta::default(), password)?;
    let pass = pt.get_password(&"test2".to_string(), "bebra");
    assert!(pass.is_err_and(|x| if let Error::PassNotFound = x { true } else { false }));
    Ok(())
}

#[test]
fn alredy_exists_passtable_test() -> Result<(), Error> {
    let message = "super secret message";
    let password = "super secret password";
    let mut pt = PassTable::new();
    let name = String::from("test");
    pt.add_password(&name, message, PasswordMeta::default(), password)?;
    let res = pt.add_password(&name, message, PasswordMeta::default(), password);
    assert!(res.is_err_and(|x| if let Error::PassExists = x { true } else { false }));
    Ok(())
}

#[test]
fn metadata_test() -> Result<(), Box<dyn std::error::Error>> {
    let mut pt = PassTable::new();
    pt.add_password(
        "pass1",
        "test1",
        PasswordMeta::new(
            "lmao1".to_string(),
            vec!["1".to_string(), "valorant".to_string(), "steam".to_string()],
        ),
        "password1",
    )
    .map_err(|e| e.message())?;
    pt.add_password(
        "pass2",
        "test2",
        PasswordMeta::new("lmao2".to_string(), Default::default()),
        "password2",
    )
    .map_err(|e| e.message())?;
    pt.add_password(
        "pass3",
        "test3",
        PasswordMeta::new("lmao3".to_string(), Default::default()),
        "password3",
    )
    .map_err(|e| e.message())?;

    assert_eq!(pt.get_metadata("pass1").map_err(|e| e.message())?.description, "lmao1");
    assert_eq!(
        pt.get_metadata("pass1").map_err(|e| e.message())?.apps,
        vec!["1".to_string(), "valorant".to_string(), "steam".to_string()]
    );
    Ok(())
}

#[test]
fn not_found_metadata_test() -> Result<(), Box<dyn std::error::Error>> {
    let mut pt = PassTable::new();
    pt.add_password(
        "pass1",
        "test1",
        PasswordMeta::new(
            "lmao1".to_string(),
            vec!["1".to_string(), "valorant".to_string(), "steam".to_string()],
        ),
        "password1",
    )
    .map_err(|e| e.message())?;

    assert!(pt.get_metadata("test").is_err_and(|x| x == Error::PassNotFound));
    Ok(())
}
