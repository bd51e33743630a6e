//! Component repositories for splitting a root filesystem into layers.
//!
//! A repository says which component each path of a root filesystem belongs to. Three are
//! here: by RPM source package, by the `user.component` extended attribute, and by size.

pub mod bigfiles;
pub mod canonicalize;
pub mod components;
pub mod index;
pub mod normalize;
pub mod package_paths;
pub mod path;
pub mod path_map;
pub mod rpm;
pub mod srpm;
pub mod stability;
pub mod xattr;
