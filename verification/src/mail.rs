//! Mail between tasks: holes that pass messages, poles that lend memory, noles that ring,
//! toles that gather holes, and the latches (pies) through which tasks reach them; ports,
//! rings and docks besides.
pub mod dock;
pub mod hole;
pub mod memo;
pub mod narrow;
pub mod nole;
pub mod pie;
pub mod pole;
pub mod port;
pub mod resource_table;
pub mod restrict;
pub mod ring;
pub mod rules;
pub mod tole;
pub mod vest;
pub mod void;

use vstd::prelude::*;
use dock::Dock;
use port::Port;
use ring::Ring;

verus! {

/// The longest message of a hole that was made with a fixed message length.
pub const HOLE_MTU_MAX: usize = 4096;

/// What a task holds of ports, rings and docks.
pub struct MailHolds {
    pub docks: Vec<Dock>,
    pub rings: Vec<Ring>,
    pub ports: Vec<Port>,
}

impl MailHolds {
    /// Nothing.
    pub fn new() -> (m: MailHolds)
        ensures
            m.docks@.len() == 0 && m.rings@.len() == 0 && m.ports@.len() == 0,
    {
        MailHolds { docks: Vec::new(), rings: Vec::new(), ports: Vec::new() }
    }
}

/// A piece of a user's memory that lies in one physical stretch: its entry flags and its
/// bytes.
pub struct Segment {
    pub flags: u64,
    pub bytes: Vec<u8>,
}

/// The entry flag of memory that can be read.
pub const PTE_R: u64 = 2;

/// The entry flag of memory that can be written.
pub const PTE_W: u64 = 4;

/// How many bytes the segments have together.
pub open spec fn total(segments: Seq<Segment>) -> nat
    decreases segments.len(),
{
    if segments.len() == 0 {
        0
    } else {
        total(segments.drop_last()) + segments.last().bytes@.len()
    }
}

/// The bytes of the segments, one after the other.
pub open spec fn contents(segments: Seq<Segment>) -> Seq<u8>
    decreases segments.len(),
{
    if segments.len() == 0 {
        Seq::empty()
    } else {
        contents(segments.drop_last()) + segments.last().bytes@
    }
}

/// Whether the segments are `len` bytes that all have every flag of `need`.
pub open spec fn is_whole(segments: Seq<Segment>, len: nat, need: u64) -> bool {
    &&& forall|i: int| 0 <= i < segments.len() ==> (#[trigger] segments[i]).flags & need == need
    &&& total(segments) == len
}

proof fn lemma_total_take(segments: Seq<Segment>, n: int)
    requires
        0 <= n < segments.len(),
    ensures
        total(segments.take(n + 1)) == total(segments.take(n)) + segments[n].bytes@.len(),
        contents(segments.take(n + 1)) == contents(segments.take(n)) + segments[n].bytes@,
{
    assert(segments.take(n + 1).drop_last() =~= segments.take(n));
}

proof fn lemma_total_part(segments: Seq<Segment>, n: int)
    requires
        0 <= n <= segments.len(),
    ensures
        total(segments.take(n)) <= total(segments),
    decreases segments.len() - n,
{
    if n < segments.len() {
        lemma_total_take(segments, n);
        lemma_total_part(segments, n + 1);
    } else {
        assert(segments.take(n) =~= segments);
    }
}

proof fn lemma_contents_len(segments: Seq<Segment>)
    ensures
        contents(segments).len() == total(segments),
    decreases segments.len(),
{
    if segments.len() > 0 {
        lemma_contents_len(segments.drop_last());
    }
}

/// Whether a copy can go through whole: every byte is mapped and has every flag of `need`. It is
/// asked before the first byte is moved.
pub fn whole(segments: &Vec<Segment>, len: usize, need: u64) -> (yes: bool)
    ensures
        yes == is_whole(segments@, len as nat, need),
{
    let mut off: usize = 0;
    let mut i: usize = 0;
    assert(segments@.take(0) =~= Seq::<Segment>::empty());
    while i < segments.len()
        invariant
            i <= segments@.len(),
            off == total(segments@.take(i as int)),
            off <= len,
            forall|j: int| 0 <= j < i ==> (#[trigger] segments@[j]).flags & need == need,
        decreases segments@.len() - i,
    {
        proof {
            lemma_total_take(segments@, i as int);
            lemma_total_part(segments@, i + 1);
        }
        let l: usize = segments[i].bytes.len();
        if segments[i].flags & need != need || l > len - off {
            return false;
        }
        off += l;
        i += 1;
    }
    assert(segments@.take(i as int) =~= segments@);
    off == len
}

/// Reads `dst.len()` bytes out of a user's memory. All of them, or `dst` is not touched.
pub fn copy_in(segments: &Vec<Segment>, dst: &mut Vec<u8>) -> (done: bool)
    ensures
        done == is_whole(segments@, old(dst)@.len(), PTE_R),
        done ==> final(dst)@ == contents(segments@),
        !done ==> *final(dst) == *old(dst),
{
    if !whole(segments, dst.len(), PTE_R) {
        return false;
    }
    let mut got: Vec<u8> = Vec::new();
    let mut i: usize = 0;
    assert(segments@.take(0) =~= Seq::<Segment>::empty());
    while i < segments.len()
        invariant
            i <= segments@.len(),
            got@ == contents(segments@.take(i as int)),
        decreases segments@.len() - i,
    {
        proof {
            lemma_total_take(segments@, i as int);
        }
        let ghost before = got@;
        let mut k: usize = 0;
        while k < segments[i].bytes.len()
            invariant
                i < segments@.len(),
                k <= segments@[i as int].bytes@.len(),
                got@ == before + segments@[i as int].bytes@.take(k as int),
            decreases segments@[i as int].bytes@.len() - k,
        {
            got.push(segments[i].bytes[k]);
            assert(segments@[i as int].bytes@.take(k + 1) =~= segments@[i as int].bytes@.take(
                k as int,
            ).push(segments@[i as int].bytes@[k as int]));
            assert(got@ =~= before + segments@[i as int].bytes@.take(k + 1));
            k += 1;
        }
        assert(segments@[i as int].bytes@.take(k as int) =~= segments@[i as int].bytes@);
        i += 1;
    }
    assert(segments@.take(i as int) =~= segments@);
    *dst = got;
    true
}

/// Whether the two lists of segments differ in nothing but their bytes.
pub open spec fn same_shape(a: Seq<Segment>, b: Seq<Segment>) -> bool {
    &&& a.len() == b.len()
    &&& forall|i: int|
        0 <= i < a.len() ==> (#[trigger] b[i]).flags == a[i].flags && b[i].bytes@.len()
            == a[i].bytes@.len()
}

proof fn lemma_same_total(a: Seq<Segment>, b: Seq<Segment>, n: int)
    requires
        same_shape(a, b),
        0 <= n <= a.len(),
    ensures
        total(a.take(n)) == total(b.take(n)),
    decreases n,
{
    if n > 0 {
        lemma_same_total(a, b, n - 1);
        lemma_total_take(a, n - 1);
        lemma_total_take(b, n - 1);
    } else {
        assert(a.take(0) =~= Seq::<Segment>::empty());
        assert(b.take(0) =~= Seq::<Segment>::empty());
    }
}

proof fn lemma_same_contents(a: Seq<Segment>, b: Seq<Segment>, n: int)
    requires
        0 <= n <= a.len() == b.len(),
        forall|i: int| 0 <= i < n ==> (#[trigger] a[i]).bytes@ == b[i].bytes@,
    ensures
        contents(a.take(n)) == contents(b.take(n)),
    decreases n,
{
    if n > 0 {
        lemma_same_contents(a, b, n - 1);
        lemma_total_take(a, n - 1);
        lemma_total_take(b, n - 1);
    } else {
        assert(a.take(0) =~= Seq::<Segment>::empty());
        assert(b.take(0) =~= Seq::<Segment>::empty());
    }
}

/// Writes `src` into a user's memory. All of it, or not one byte of the memory is touched.
pub fn copy_out(segments: &mut Vec<Segment>, src: &Vec<u8>) -> (done: bool)
    ensures
        done == is_whole(old(segments)@, src@.len(), PTE_W),
        done ==> contents(final(segments)@) == src@ && same_shape(
            old(segments)@,
            final(segments)@,
        ),
        !done ==> *final(segments) == *old(segments),
{
    if !whole(segments, src.len(), PTE_W) {
        return false;
    }
    let ghost before = segments@;
    let len: usize = src.len();
    let mut off: usize = 0;
    let mut i: usize = 0;
    assert(segments@.take(0) =~= Seq::<Segment>::empty());
    assert(src@.take(0) =~= Seq::<u8>::empty());
    while i < segments.len()
        invariant
            i <= segments@.len(),
            same_shape(before, segments@),
            total(before) == src@.len() == len,
            off == total(segments@.take(i as int)),
            off <= src@.len(),
            contents(segments@.take(i as int)) == src@.take(off as int),
        decreases segments@.len() - i,
    {
        proof {
            lemma_same_total(before, segments@, i as int);
            lemma_total_take(before, i as int);
            lemma_total_part(before, i + 1);
        }
        let n: usize = segments[i].bytes.len();
        let mut piece: Vec<u8> = Vec::new();
        while piece.len() < n
            invariant
                piece@.len() <= n,
                off + n <= src@.len() == len,
                piece@ =~= src@.subrange(off as int, off + piece@.len()),
            decreases n - piece@.len(),
        {
            let k: usize = piece.len();
            piece.push(src[off + k]);
        }
        let ghost mid = segments@;
        segments[i].bytes = piece;
        proof {
            lemma_total_take(segments@, i as int);
            lemma_same_contents(mid, segments@, i as int);
            assert(src@.take(off + n) =~= src@.take(off as int) + piece@);
            lemma_same_total(before, segments@, i + 1);
            lemma_total_take(before, i as int);
            lemma_same_total(before, mid, i as int);
        }
        off += n;
        i += 1;
    }
    proof {
        assert(segments@.take(i as int) =~= segments@);
        lemma_same_total(before, segments@, i as int);
        assert(before.take(i as int) =~= before);
        assert(src@.take(off as int) =~= src@);
    }
    true
}

/// What was written is what is read back: memory that took a copy out gives the same bytes to
/// a copy in.
pub proof fn law_copy_round_trip(before: Seq<Segment>, after: Seq<Segment>, src: Seq<u8>)
    requires
        is_whole(before, src.len(), PTE_W),
        is_whole(before, src.len(), PTE_R),
        same_shape(before, after),
        contents(after) == src,
    ensures
        is_whole(after, src.len(), PTE_R),
        contents(after) == src,
{
    lemma_contents_len(after);
    assert forall|i: int| 0 <= i < after.len() implies (#[trigger] after[i]).flags & PTE_R != 0 by {
        assert(before[i].flags & PTE_R != 0);
    }
}

} // verus!
