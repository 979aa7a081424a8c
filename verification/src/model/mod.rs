//! The content model: resource coordinates, versions, navigation, the
//! playbook's configuration blocks, and the content catalog.

pub mod resource;
pub mod versions;
pub mod nav;
pub mod playbook;
pub mod catalog;
