use hips_lib::hips::{decode_secret_img, encode_secret_img, HipsError};
use hips_lib::img_ops::new_rgba_image;
use image::DynamicImage;

#[test]
fn encode_decode_secret_img_ut() {
    let mut image = new_rgba_image(64, 64);

    // Image with no secret returning None
    assert_eq!(None, decode_secret_img(&image, None));

    // Successfully encode and decode a valid secret
    let secret = String::from("0123456789");
    let result = encode_secret_img(&mut image, &secret, None);
    assert!(result.is_ok());
    assert_eq!(Some(secret.to_owned()), decode_secret_img(&image, None));

    // Return Error/None for images which cannot hold any secrets.
    let mut image = new_rgba_image(1, 1);
    assert!(encode_secret_img(&mut image, &secret, None).is_err());
    assert_eq!(None, decode_secret_img(&image, None));

    let mut image = new_rgba_image(5, 1);
    // Return Error when secret is too long for given image
    assert!(encode_secret_img(&mut image, &String::from("ab"), None).is_err());

    // Successfully encode decode the minimum size image secret combination.
    assert!(encode_secret_img(&mut image, &String::from("a"), None).is_ok());
    assert_eq!(Some(String::from("a")), decode_secret_img(&image, None));

    // Providing an empty secret returns Error
    let mut image = new_rgba_image(5, 1);
    assert!(encode_secret_img(&mut image, &String::from(""), None).is_err());

    // Test with password
    let mut image = new_rgba_image(64, 64);
    let password = String::from("Lorem Ipsum");
    let result = encode_secret_img(&mut image, &secret, Some(password.to_owned()));
    assert!(result.is_ok());

    // No correct password provided fails to return correct secret
    let faulty = decode_secret_img(&image, None);
    assert!(faulty.is_some());
    assert_ne!(faulty.unwrap(), secret);
    let faulty = decode_secret_img(&image, Some(String::from("Wrong password")));
    assert!(faulty.is_some());
    assert_ne!(faulty.unwrap(), secret);

    let correct = decode_secret_img(&image, Some(password));
    assert!(correct.is_some());
    assert_eq!(correct.unwrap(), secret);
}

#[test]
fn encode_img_error_variants_ut() {
    let mut image = new_rgba_image(16, 16);
    assert_eq!(
        Err(HipsError::EmptySecret),
        encode_secret_img(&mut image, &String::new(), None)
    );
    let mut image = new_rgba_image(2, 1);
    assert_eq!(
        Err(HipsError::InsufficientCapacity),
        encode_secret_img(&mut image, &String::from("a"), None)
    );
}

#[test]
fn encode_decode_rgb_image_ut() {
    // An RGB-backed image stores the channel LSBs just as well; the codec
    // never relies on the alpha channel.
    let mut image = DynamicImage::new_rgb8(10, 4);
    let secret = String::from("hidden");
    assert_eq!(Ok(()), encode_secret_img(&mut image, &secret, None));
    assert_eq!(Some(secret), decode_secret_img(&image, None));
}
