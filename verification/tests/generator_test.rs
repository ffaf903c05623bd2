use passtool::generator::generate_password;

#[test]
fn generate_letters_test() {
    let digits: &[u8] = b"1234567890";
    let special: &[u8] = b"!\"#$%&'()*+,-./:;<=>?@[\\]^_`{|}~";
    let pass = generate_password(10, true, false, false);
    assert_eq!(pass.len(), 10);
    assert!(!pass.contains(|x: char| {
        digits.contains(&(x as u8)) || special.contains(&(x as u8))
    }));
}

#[test]
fn generate_digits_test() {
    let letters: &[u8] = b"abcdefghijklmnopqrstuvwxyzABCDEFGHIJKLMNOPQRSTUVWXYZ";
    let special: &[u8] = b"!\"#$%&'()*+,-./:;<=>?@[\\]^_`{|}~";
    let pass = generate_password(10, false, true, false);
    assert_eq!(pass.len(), 10);
    assert!(!pass.contains(|x: char| {
        letters.contains(&(x as u8)) || special.contains(&(x as u8))
    }));
}

#[test]
fn generate_special_test() {
    let letters: &[u8] = b"abcdefghijklmnopqrstuvwxyzABCDEFGHIJKLMNOPQRSTUVWXYZ";
    let digits: &[u8] = b"1234567890";
    let pass = generate_password(10, false, false, true);
    assert_eq!(pass.len(), 10);
    assert!(!pass.contains(|x: char| {
        letters.contains(&(x as u8)) || digits.contains(&(x as u8))
    }));
}

#[test]
fn generate_empty_test() {
    let pass = generate_password(0, false, false, false);
    assert_eq!(pass.len(), 0);
}

#[test]
fn generate_all_classes_test() {
    let letters: &[u8] = b"abcdefghijklmnopqrstuvwxyzABCDEFGHIJKLMNOPQRSTUVWXYZ";
    let digits: &[u8] = b"1234567890";
    let special: &[u8] = b"!\"#$%&'()*+,-./:;<=>?@[\\]^_`{|}~";
    let pass = generate_password(64, true, true, true);
    assert_eq!(pass.len(), 64);
    assert!(pass.chars().all(|x| {
        letters.contains(&(x as u8)) || digits.contains(&(x as u8)) || special.contains(&(x as u8))
    }));
}
