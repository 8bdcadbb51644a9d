//! Pure helpers of an LED matrix display: colours, the panel layout, the
//! bit-angle modulation decisions and a logo bitmap.

pub mod color;
pub mod layout;
pub mod modulation;
pub mod dvd_logo;
pub mod animation;
