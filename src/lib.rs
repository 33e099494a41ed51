//! Discriminant resolution for C-style enums: the representation that
//! conversions use, the integer code of each variant, and the two
//! conversions between variants and codes.
pub mod conversion;
pub mod decimal;
pub mod error;
pub mod repr;
pub mod resolve;

pub use conversion::{cenum, EnumDecl, ResolvedEnum};
pub use error::CenumError;
pub use repr::{select_repr, Attr, Repr};
pub use resolve::{resolve_discriminants, DiscriminantExpr, VariantDecl};
