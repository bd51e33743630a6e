//! What the repositories read and what they give out.

use crate::path_map::PathMap;
use crate::stability::Stability;
use vstd::prelude::*;

verus! {

/// The number of a component within its repository.
#[derive(Debug, Clone, Copy, PartialEq, Eq, Structural)]
pub struct ComponentId(pub usize);

/// What is known of a component.
#[derive(Debug, Clone, Copy)]
pub struct ComponentInfo<'a> {
    /// Its name.
    pub name: &'a str,
    /// The latest modification time that its files are given.
    pub mtime_clamp: u64,
    /// How likely it is to stay unchanged.
    pub stability: Stability,
}

/// The kinds of files that can be claimed.
#[derive(Debug, Clone, Copy, PartialEq, Eq, Structural)]
pub enum FileType {
    /// A directory.
    Directory,
    /// A regular file.
    File,
    /// A symbolic link.
    Symlink,
}

/// What is known of a file of the root filesystem.
#[derive(Debug)]
pub struct FileInfo {
    /// Its kind.
    pub file_type: FileType,
    /// Its size in bytes.
    pub size: u64,
    /// Its inode number.
    pub ino: u64,
    /// The number of links to its inode.
    pub nlink: u64,
    /// Its extended attributes, by name.
    pub xattrs: Vec<(String, Vec<u8>)>,
}

/// The files of the root filesystem by their absolute paths.
pub type FileMap = PathMap<FileInfo>;

/// The files in the order of their paths, each with its path.
pub type Files = Seq<(Seq<char>, FileInfo)>;

} // verus!
