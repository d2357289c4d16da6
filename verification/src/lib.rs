pub mod bit_ops;
pub mod color;
pub mod hips;
pub mod img_ops;
pub mod otp;
