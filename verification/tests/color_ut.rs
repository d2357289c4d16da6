use hips_lib::color::Color;

#[test]
fn from_rgb_ut() {
    let r = 0;
    let g = 100;
    let b = 200;
    let color = Color::from_rgb(r, g, b);
    assert_eq!(r, color.r);
    assert_eq!(g, color.g);
    assert_eq!(b, color.b);
}

#[test]
fn from_rgba_ut() {
    let r = 0;
    let g = 100;
    let b = 200;
    let a = 255;
    let color = Color::from_rgba(r, g, b, a);
    assert_eq!(r, color.r);
    assert_eq!(g, color.g);
    assert_eq!(b, color.b);
    assert_eq!(a, color.a);
}

#[test]
fn new_ut() {
    let color = Color::new();
    assert_eq!(0, color.r);
    assert_eq!(0, color.g);
    assert_eq!(0, color.b);
    assert_eq!(0, color.a);
}

#[test]
fn default_ut() {
    let color = Color::default();
    assert_eq!(0, color.r);
    assert_eq!(0, color.g);
    assert_eq!(0, color.b);
    assert_eq!(0, color.a);
}
