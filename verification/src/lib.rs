//! Declarative management of an Arch system: which packages to add and remove,
//! how the save file records symlinks, and which commands carry that out.
pub mod aur;
pub mod command;
pub mod entries;
pub mod flatpak;
pub mod globals;
pub mod official;
pub mod package_list;
pub mod plan;
pub mod save;
pub mod string_table;
pub mod symlinks;
pub mod text;
pub mod utilities;
