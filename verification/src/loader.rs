//! Loading a program: one page of text at the base of an address space.
use vstd::prelude::*;
use crate::task::{Layout, MapError, PAGE_SIZE};

verus! {

/// The entry flags of a page: valid, readable, executable, for user mode, accessed, dirty.
pub const TEXT_FLAGS: u64 = 0xDB;

/// A mapping for the memory manager to make.
pub struct Text {
    /// Where the page goes.
    pub va: usize,
    /// Where it lies.
    pub pa: usize,
    /// How long it is.
    pub len: usize,
    /// Its entry flags.
    pub flags: u64,
    /// What it holds.
    pub bytes: Vec<u8>,
}

/// Prepares the text page of `program`: its bytes, and zeros up to the end of the page.
/// `frame` is the physical page, if there was one.
pub fn load(frame: Option<usize>, program: &[u8], layout: &Layout) -> (r: Result<Text, MapError>)
    requires
        program@.len() <= PAGE_SIZE,
    ensures
        frame is None ==> r == Err::<Text, MapError>(MapError::OutOfMemory),
        frame matches Some(pa) ==> r is Ok && {
            let t = r->Ok_0;
            &&& t.va == layout.text_base
            &&& t.pa == pa
            &&& t.len == PAGE_SIZE
            &&& t.flags == TEXT_FLAGS
            &&& t.bytes@.len() == PAGE_SIZE
            &&& forall|i: int|
                0 <= i < PAGE_SIZE ==> #[trigger] t.bytes@[i] == (if i < program@.len() {
                    program@[i]
                } else {
                    0u8
                })
        },
{
    match frame {
        None => Err(MapError::OutOfMemory),
        Some(pa) => {
            let mut bytes: Vec<u8> = Vec::new();
            while bytes.len() < PAGE_SIZE
                invariant
                    bytes@.len() <= PAGE_SIZE,
                    program@.len() <= PAGE_SIZE,
                    forall|i: int|
                        0 <= i < bytes@.len() ==> #[trigger] bytes@[i] == (if i < program@.len() {
                            program@[i]
                        } else {
                            0u8
                        }),
                decreases PAGE_SIZE - bytes@.len(),
            {
                let i: usize = bytes.len();
                if i < program.len() {
                    bytes.push(program[i]);
                } else {
                    bytes.push(0);
                }
            }
            Ok(Text { va: layout.text_base, pa, len: PAGE_SIZE, flags: TEXT_FLAGS, bytes })
        },
    }
}

/// A program lies in one page of 4096 bytes that it may read and run but not write.
pub proof fn law_text_is_one_page_to_run(flags: u64)
    requires
        flags == TEXT_FLAGS,
    ensures
        PAGE_SIZE == 4096,
        flags & 2 == 2,
        flags & 4 == 0,
        flags & 8 == 8,
        flags == 0xDB,
{
    assert(0xDBu64 & 2 == 2 && 0xDBu64 & 4 == 0 && 0xDBu64 & 8 == 8) by (bit_vector);
}

} // verus!
