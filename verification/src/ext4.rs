//! Scaffold of an EXT4 dump reader: the structures a block-device capture
//! would decode to, and the placeholder parser over a hex dump.

use vstd::prelude::*;
use crate::chars::{all_ws, is_blank};

verus! {

pub struct Ext4SuperBlock {
    pub inodes_count: u32,
    pub blocks_count: u32,
    pub block_size: u32,
    pub volume_name: String,
}

pub struct Ext4Inode {
    pub inode_num: u32,
    pub file_type: String,
    pub size: u64,
    pub name: String,
    pub children: Vec<Ext4Inode>,
}

pub struct Ext4Fs {
    pub superblock: Ext4SuperBlock,
    pub root: Ext4Inode,
}

impl Ext4Fs {
    /// Reads a hex dump of a block device. A dump that holds no
    /// non-whitespace character yields nothing; any other dump yields the
    /// fixed placeholder filesystem until a full decoder takes this
    /// function's place.
    pub fn from_hex_dump(hex: &str) -> (r: Option<Ext4Fs>)
        ensures
            (r is Some) == !all_ws(hex@),
            match r {
                None => true,
                Some(fs) => {
                    &&& fs.superblock.inodes_count == 1
                    &&& fs.superblock.blocks_count == 1
                    &&& fs.superblock.block_size == 4096
                    &&& fs.superblock.volume_name@ == "ExemploFS"@
                    &&& fs.root.inode_num == 2
                    &&& fs.root.file_type@ == "dir"@
                    &&& fs.root.size == 4096
                    &&& fs.root.name@ == "/"@
                    &&& fs.root.children@.len() == 2
                    &&& fs.root.children@[0].inode_num == 3
                    &&& fs.root.children@[0].file_type@ == "file"@
                    &&& fs.root.children@[0].size == 12345
                    &&& fs.root.children@[0].name@ == "documento.pdf"@
                    &&& fs.root.children@[0].children@.len() == 0
                    &&& fs.root.children@[1].inode_num == 4
                    &&& fs.root.children@[1].file_type@ == "dir"@
                    &&& fs.root.children@[1].size == 4096
                    &&& fs.root.children@[1].name@ == "subpasta"@
                    &&& fs.root.children@[1].children@.len() == 0
                },
            },
    {
        if is_blank(hex) {
            return None;
        }
        let mut children: Vec<Ext4Inode> = Vec::new();
        children.push(
            Ext4Inode {
                inode_num: 3,
                file_type: String::from_str("file"),
                size: 12345,
                name: String::from_str("documento.pdf"),
                children: Vec::new(),
            },
        );
        children.push(
            Ext4Inode {
                inode_num: 4,
                file_type: String::from_str("dir"),
                size: 4096,
                name: String::from_str("subpasta"),
                children: Vec::new(),
            },
        );
        Some(
            Ext4Fs {
                superblock: Ext4SuperBlock {
                    inodes_count: 1,
                    blocks_count: 1,
                    block_size: 4096,
                    volume_name: String::from_str("ExemploFS"),
                },
                root: Ext4Inode {
                    inode_num: 2,
                    file_type: String::from_str("dir"),
                    size: 4096,
                    name: String::from_str("/"),
                    children,
                },
            },
        )
    }
}

} // verus!
