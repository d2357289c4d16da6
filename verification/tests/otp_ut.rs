use hips_lib::otp::{otp, transform};

#[test]
fn otp_ut() {
    // Empty secret returns empty result
    let result = otp("", "");
    assert!(result.is_empty());

    // Empty password returns secret in plain text
    let secret = "Secret";
    let password = "";

    let result = otp(secret, password);
    assert_eq!(result, secret);
    assert_eq!(result.len(), secret.len());

    // Encryption with minimal password length
    let password = "a";

    let result = otp(secret, password);
    assert_ne!(result, secret);
    assert_eq!(result.len(), secret.len());

    // Reverse way decrypt secret to plain text
    let result = otp(&result, password);
    assert_eq!(result, secret);

    // Encrypt with password longer than the secret
    let password = "Lorem Ipsum is the best ipsum.";
    let result = otp(secret, password);
    assert_ne!(secret, result);
    assert_eq!(secret.len(), result.len());

    // Decrypt with password longer than the secret
    let result = otp(&result, password);
    assert_eq!(result, secret);
}

#[test]
fn otp_exact_value_ut() {
    // Each byte of the secret is XORed against the password byte at the same
    // index modulo the password length.
    let result = otp("AB", "a");
    let expected: String = [('A' as u8 ^ 'a' as u8) as char, ('B' as u8 ^ 'a' as u8) as char]
        .iter()
        .collect();
    assert_eq!(expected, result);
}

#[test]
fn transform_involution_ut() {
    // Masking twice with the same non-empty key restores the data.
    let data = vec![0u8, 1, 2, 3, 127, 128, 254, 255];
    let key = vec![29u8, 111, 53];
    let masked = transform(&data, &key);
    assert_ne!(data, masked);
    assert_eq!(data, transform(&masked, &key));

    // An empty key leaves the data unchanged.
    let empty_key: Vec<u8> = vec![];
    assert_eq!(data, transform(&data, &empty_key));
}

#[test]
fn transform_exact_value_ut() {
    let data = vec![0b1010_1010u8, 0b0000_1111, 0b1111_0000];
    let key = vec![0b0000_0001u8, 0b1000_0000];
    let masked = transform(&data, &key);
    assert_eq!(vec![0b1010_1011u8, 0b1000_1111, 0b1111_0001], masked);
}
