use passtool::{Error, PassTable, PasswordMeta};

#[test]
fn main_passtable_test() -> Result<(), Error> {
    let message = "super secret message";
    let password = "super secret password";
    let mut pt = PassTable::new();
    let name = String::from("test");
    pt.add_password(&name, message, PasswordMeta::default(), password)?;
    let pass = pt.get_password(&name, password)?;
    assert_eq!(pass, message);
    Ok(())
}

#[test]
fn main_passtable_test2() -> Result<(), Error> {
    let charset = "1234567890abcdefghijklmnopqrstuvwxyzABCDEFGHIJKLMNOPQRSTUVWXYZ";

    let data: Vec<(String, String, String)> = (0..10)
        .map(|x| (x.to_string(), random_string::generate(100, charset), random_string::generate(50, charset)))
        .collect();
    let mut pt = PassTable::new();
    for (n, m, p) in &data {
        pt.add_password(n, m, PasswordMeta::default(), p)?;
    }

    for (n, m, p) in &data {
        let pass = pt.get_password(n, p)?;
        assert_eq!(&pass, m);
    }
    Ok(())
}

#[test]
fn main_incorrect_password_passtable_test() -> Result<(), Error> {
    let message = "super secret message";
    let password = "super secret password";
    let mut pt = PassTable::new();
    let name = String::from("test");
    pt.add_password(&name, message, PasswordMeta::default(), password)?;
    let pass = pt.get_password(&name, "bebra");
    assert!(pass.is_err_and(|x| x == Error::IncorrectPass));
    Ok(())
}

#[test]
fn main_not_found_passtable_test() -> Result<(), Error> {
    let message = "super secret message";
    let password = "super secret password";
    let mut pt = PassTable::new();
    let name = String::from("test");
    pt.add_password(&name, message, PasswordMeta::default(), password)?;
    let pass = pt.get_password(&"test2".to_string(), "bebra");
    assert!(pass.is_err_and(|x| if let Error::PassNotFound = x { true } else { false }));
    Ok(())
}

#[test]
fn contains_test() -> Result<(), Error> {
    let mut pt = PassTable::new();
    assert!(!pt.contains("a"));
    pt.add_password("a", "secret", PasswordMeta::default(), "k")?;
    assert!(pt.contains("a"));
    assert!(!pt.contains("b"));
    pt.remove_password("a")?;
    assert!(!pt.contains("a"));
    Ok(())
}

#[test]
fn get_names_test() -> Result<(), Error> {
    let mut pt = PassTable::new();
    assert!(pt.get_names().is_empty());
    pt.add_password("beta", "s1", PasswordMeta::default(), "k1")?;
    pt.add_password("alpha", "s2", PasswordMeta::default(), "k2")?;
    pt.add_password("gamma", "s3", PasswordMeta::default(), "k3")?;
    let mut names = pt.get_names();
    names.sort();
    assert_eq!(names, vec!["alpha".to_string(), "beta".to_string(), "gamma".to_string()]);
    Ok(())
}

#[test]
fn scenario_two_entries_test() -> Result<(), Error> {
    let mut pt = PassTable::new();
    pt.add_password("pass1", "test1", PasswordMeta::default(), "password1")?;
    pt.add_password("pass2", "test2", PasswordMeta::default(), "password2")?;
    assert_eq!(pt.get_password("pass2", "password2")?, "test2");
    let wrong = pt.get_password("pass1", "password2");
    assert!(wrong.is_err_and(|x| x == Error::IncorrectPass));
    Ok(())
}

#[test]
fn scenario_remove_twice_test() -> Result<(), Error> {
    let mut pt = PassTable::new();
    pt.add_password("a", "secret", PasswordMeta::default(), "k")?;
    pt.remove_password("a")?;
    assert!(pt.get_password("a", "k").is_err_and(|x| x == Error::PassNotFound));
    assert!(pt.remove_password("a").is_err_and(|x| x == Error::PassNotFound));
    Ok(())
}

#[test]
fn metadata_update_keeps_password_test() -> Result<(), Error> {
    let mut pt = PassTable::new();
    pt.add_password("site", "hunter2", PasswordMeta::default(), "master")?;
    pt.update_metadata(
        "site",
        PasswordMeta::new("my site".to_string(), vec!["browser".to_string()]),
    )?;
    assert_eq!(pt.get_metadata("site")?.description, "my site");
    assert_eq!(pt.get_metadata("site")?.apps, vec!["browser".to_string()]);
    assert_eq!(pt.get_password("site", "master")?, "hunter2");
    Ok(())
}

#[test]
fn update_metadata_not_found_test() {
    let mut pt = PassTable::new();
    let r = pt.update_metadata("nope", PasswordMeta::default());
    assert!(r.is_err_and(|x| x == Error::PassNotFound));
}

#[test]
fn empty_strings_test() -> Result<(), Error> {
    let mut pt = PassTable::new();
    pt.add_password("", "", PasswordMeta::default(), "")?;
    assert_eq!(pt.get_password("", "")?, "");
    Ok(())
}

#[test]
fn error_message_test() {
    assert_eq!(Error::PassExists.message(), "password already exists");
    assert_eq!(Error::PassNotFound.message(), "password not found");
    assert_eq!(Error::IncorrectPass.message(), "incorrect password");
    assert_eq!(Error::AES.message(), "aes error");
    assert_eq!(Error::BadFormat.message(), "bad format");
}
