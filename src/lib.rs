//! Discovery of code-signing development teams from a bundle of PEM
//! certificates: each certificate's subject gives a team's name
//! (Organization) and id (Organizational Unit); the result is the set of
//! teams, free of duplicates and in ascending order.

pub mod order;
pub mod teams;
pub mod x509;
