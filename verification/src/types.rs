//! Blocks, and the messages that peers exchange.

use core::fmt::{Debug, Error, Formatter};
use vstd::prelude::*;

use crate::bits::{padding_of, BitField};
use crate::debug_text::{formatted, is_alternate, options_of, write_number, write_text};
use crate::text::{ascii, decimal_digits};

verus! {

/// Which bytes of which piece a block is.
#[derive(Clone, Copy, PartialEq, Eq, Structural, Hash, PartialOrd, Ord)]
pub struct BlockMeta {
    pub piece_index: u32,
    pub begin: u32,
    pub length: u32,
}

/// The text of a block's place: `BlockMeta`, and in brackets the piece, the place in it and the
/// length.
pub open spec fn block_meta_text(meta: BlockMeta) -> Seq<char> {
    "BlockMeta("@ + ascii(decimal_digits(meta.piece_index as nat)) + ", "@ + ascii(
        decimal_digits(meta.begin as nat),
    ) + ", "@ + ascii(decimal_digits(meta.length as nat)) + ")"@
}

/// The same text with each number on a line of its own, behind an indent.
pub open spec fn block_meta_lines(meta: BlockMeta, indent: Seq<char>) -> Seq<char> {
    "BlockMeta(\n"@ + indent + "    "@ + ascii(decimal_digits(meta.piece_index as nat)) + ",\n"@
        + indent + "    "@ + ascii(decimal_digits(meta.begin as nat)) + ",\n"@ + indent + "    "@
        + ascii(decimal_digits(meta.length as nat)) + ",\n"@ + indent + ")"@
}

/// The text of a block: its place, and two dots for its bytes.
pub open spec fn block_text(meta: BlockMeta) -> Seq<char> {
    "Block { meta: "@ + block_meta_text(meta) + ", data: \"..\" }"@
}

/// The same text over several lines.
pub open spec fn block_lines(meta: BlockMeta) -> Seq<char> {
    "Block {\n    meta: "@ + block_meta_lines(meta, "    "@) + ",\n    data: \"..\",\n}"@
}

/// Writes a line with a number, behind an indent.
fn write_number_line(f: &mut Formatter<'_>, n: u32, indent: &str) -> (r: Result<(), Error>)
    ensures
        options_of(*final(f)) == options_of(*old(f)),
        r is Ok && options_of(*old(f)).1 ==> formatted(*final(f)) == formatted(*old(f)) + indent@
            + "    "@ + ascii(decimal_digits(n as nat)) + ",\n"@,
{
    write_text(f, indent)?;
    write_text(f, "    ")?;
    write_number(f, n)?;
    write_text(f, ",\n")
}

/// Writes the text of a block's place, with `indent` in front of further lines.
fn write_meta(f: &mut Formatter<'_>, meta: &BlockMeta, indent: &str) -> (r: Result<(), Error>)
    ensures
        options_of(*final(f)) == options_of(*old(f)),
        r is Ok && options_of(*old(f)).1 ==> formatted(*final(f)) == formatted(*old(f)) + (
        if options_of(*old(f)).0 {
            block_meta_lines(*meta, indent@)
        } else {
            block_meta_text(*meta)
        }),
{
    let ghost before = formatted(*f);
    if is_alternate(f) {
        write_text(f, "BlockMeta(\n")?;
        write_number_line(f, meta.piece_index, indent)?;
        write_number_line(f, meta.begin, indent)?;
        write_number_line(f, meta.length, indent)?;
        write_text(f, indent)?;
        let r = write_text(f, ")");
        proof {
            if r is Ok && options_of(*f).1 {
                assert(formatted(*f) =~= before + block_meta_lines(*meta, indent@));
            }
        }
        r
    } else {
        write_text(f, "BlockMeta(")?;
        write_number(f, meta.piece_index)?;
        write_text(f, ", ")?;
        write_number(f, meta.begin)?;
        write_text(f, ", ")?;
        write_number(f, meta.length)?;
        let r = write_text(f, ")");
        proof {
            if r is Ok && options_of(*f).1 {
                assert(formatted(*f) =~= before + block_meta_text(*meta));
            }
        }
        r
    }
}

impl Debug for BlockMeta {
    fn fmt(&self, f: &mut Formatter<'_>) -> (r: Result<(), Error>)
        ensures
            r is Ok && options_of(*old(f)).1 ==> formatted(*final(f)) == formatted(*old(f)) + (
            if options_of(*old(f)).0 {
                block_meta_lines(*self, ""@)
            } else {
                block_meta_text(*self)
            }),
    {
        write_meta(f, self, "")
    }
}

/// A block: its place and its bytes.
#[derive(Clone, PartialEq, Eq, Hash, PartialOrd, Ord)]
pub struct Block {
    pub meta: BlockMeta,
    pub data: Vec<u8>,
}

impl Debug for Block {
    fn fmt(&self, f: &mut Formatter<'_>) -> (r: Result<(), Error>)
        ensures
            r is Ok && options_of(*old(f)).1 ==> formatted(*final(f)) == formatted(*old(f)) + (
            if options_of(*old(f)).0 {
                block_lines(self.meta)
            } else {
                block_text(self.meta)
            }),
    {
        let ghost before = formatted(*f);
        let alternate = is_alternate(f);
        if alternate {
            write_text(f, "Block {\n    meta: ")?;
        } else {
            write_text(f, "Block { meta: ")?;
        }
        write_meta(f, &self.meta, "    ")?;
        let r = if alternate {
            write_text(f, ",\n    data: \"..\",\n}")
        } else {
            write_text(f, ", data: \"..\" }")
        };
        proof {
            if r is Ok && options_of(*f).1 {
                if alternate {
                    assert(formatted(*f) =~= before + block_lines(self.meta));
                } else {
                    assert(formatted(*f) =~= before + block_text(self.meta));
                }
            }
        }
        r
    }
}

/// A message of the peer protocol.
#[derive(Debug, Clone, PartialEq, Eq)]
pub enum Message {
    KeepAlive,
    Choke,
    Unchoke,
    Interested,
    NotInterested,
    Have(u32),
    BitField(BitField),
    Request(BlockMeta),
    Piece(Block),
    Cancel(BlockMeta),
}

/// What a message says.
pub enum Content {
    KeepAlive,
    Choke,
    Unchoke,
    Interested,
    NotInterested,
    Have(u32),
    /// The bits, and those that fill the last byte up.
    BitField(Seq<bool>, Seq<bool>),
    Request(BlockMeta),
    Piece(BlockMeta, Seq<u8>),
    Cancel(BlockMeta),
}

impl View for Message {
    type V = Content;

    open spec fn view(&self) -> Content {
        match self {
            Message::KeepAlive => Content::KeepAlive,
            Message::Choke => Content::Choke,
            Message::Unchoke => Content::Unchoke,
            Message::Interested => Content::Interested,
            Message::NotInterested => Content::NotInterested,
            Message::Have(index) => Content::Have(*index),
            Message::BitField(field) => Content::BitField(field@, padding_of(*field)),
            Message::Request(meta) => Content::Request(*meta),
            Message::Piece(block) => Content::Piece(block.meta, block.data@),
            Message::Cancel(meta) => Content::Cancel(*meta),
        }
    }
}

} // verus!
