pub mod authority;
pub mod classes;
pub mod coder;
pub mod err;
pub mod ip;
pub mod querys;
pub mod text;
pub mod uri;

pub use crate::authority::Authority;
pub use crate::classes::CharClass;
pub use crate::coder::{Decoder, Encoder};
pub use crate::err::Error;
pub use crate::ip::{is_valid_ip_v6, is_valid_ip_v_future};
pub use crate::querys::Querys;
pub use crate::uri::Uri;
