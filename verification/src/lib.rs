pub mod grayimg;
pub mod kernel;
pub mod mathq;
pub mod feature_detect;
pub mod codec;
