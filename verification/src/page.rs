use vstd::prelude::*;
use bit_vec::BitVec;
use crate::bm::BufManager;

verus! {

#[verifier::external_type_specification]
#[verifier::external_body]
#[verifier::reject_recursive_types(B)]
pub struct ExBitVec<B>(BitVec<B>);

/// The bits that a bit vector holds, in order.
pub uninterp spec fn bits_of(b: BitVec) -> Seq<bool>;

/// `BitVec::from_elem`: `len` bits, each equal to `bit`.
#[verifier::external_body]
fn bitvec_from_elem(len: usize, bit: bool) -> (res: BitVec)
    ensures
        bits_of(res) == Seq::new(len as nat, |i: int| bit),
{
    BitVec::from_elem(len, bit)
}

/// Reading and writing a page's contents through the buffer.
pub trait PageInfo {
    fn write(&mut self, bm: &mut BufManager) -> usize;

    fn read(&mut self, bm: &mut BufManager) -> usize;
}

/// A page of a table file.
pub enum Page {
    FileInfoPage(FileInfoPage),
    NormalPage(NormalPage),
}

/// The first page of a table file: its layout.
pub struct FileInfoPage {
    pub page_num: u32,
    pub record_num: u32,
    pub record_len: u32,
    /// Number of columns, the record id included.
    pub column_num: u32,
}

/// The four bytes of `x`, least significant first.
pub open spec fn u32_le_bytes(x: u32) -> Seq<u8> {
    seq![(x & 0xff) as u8, ((x >> 8u32) & 0xff) as u8, ((x >> 16u32) & 0xff) as u8, ((x >> 24u32) & 0xff) as u8]
}

/// The bytes of a file-information page: its four fields in order, each least significant byte first.
pub open spec fn info_bytes(p: FileInfoPage) -> Seq<u8> {
    u32_le_bytes(p.page_num) + u32_le_bytes(p.record_num) + u32_le_bytes(p.record_len)
        + u32_le_bytes(p.column_num)
}

fn push_u32_le(out: &mut Vec<u8>, x: u32)
    ensures
        final(out)@ == old(out)@ + u32_le_bytes(x),
{
    let b0 = (x & 0xff) as u8;
    let b1 = ((x >> 8u32) & 0xff) as u8;
    let b2 = ((x >> 16u32) & 0xff) as u8;
    let b3 = ((x >> 24u32) & 0xff) as u8;
    out.push(b0);
    out.push(b1);
    out.push(b2);
    out.push(b3);
    assert(final(out)@ =~= old(out)@ + u32_le_bytes(x));
}

fn read_u32_le(bytes: &[u8], at: usize) -> (res: u32)
    requires
        at + 4 <= bytes@.len(),
    ensures
        u32_le_bytes(res) == bytes@.subrange(at as int, at + 4),
{
    let b0 = bytes[at];
    let b1 = bytes[at + 1];
    let b2 = bytes[at + 2];
    let b3 = bytes[at + 3];
    let x = (b0 as u32) | ((b1 as u32) << 8u32) | ((b2 as u32) << 16u32) | ((b3 as u32) << 24u32);
    assert((x & 0xff) as u8 == b0 && ((x >> 8u32) & 0xff) as u8 == b1 && ((x >> 16u32) & 0xff) as u8
        == b2 && ((x >> 24u32) & 0xff) as u8 == b3) by (bit_vector)
        requires
            x == (b0 as u32) | ((b1 as u32) << 8u32) | ((b2 as u32) << 16u32) | ((b3 as u32) << 24u32),
    ;
    assert(u32_le_bytes(x) =~= bytes@.subrange(at as int, at + 4));
    x
}

/// Two words with the same bytes are equal.
pub proof fn lemma_u32_le_bytes_injective(x: u32, y: u32)
    requires
        u32_le_bytes(x) == u32_le_bytes(y),
    ensures
        x == y,
{
    assert(u32_le_bytes(x)[0] == u32_le_bytes(y)[0]);
    assert(u32_le_bytes(x)[1] == u32_le_bytes(y)[1]);
    assert(u32_le_bytes(x)[2] == u32_le_bytes(y)[2]);
    assert(u32_le_bytes(x)[3] == u32_le_bytes(y)[3]);
    assert(x == y) by (bit_vector)
        requires
            (x & 0xff) as u8 == (y & 0xff) as u8,
            ((x >> 8u32) & 0xff) as u8 == ((y >> 8u32) & 0xff) as u8,
            ((x >> 16u32) & 0xff) as u8 == ((y >> 16u32) & 0xff) as u8,
            ((x >> 24u32) & 0xff) as u8 == ((y >> 24u32) & 0xff) as u8,
    ;
}

/// Two file-information pages with the same bytes are equal: decoding the bytes
/// of a page gives the page back.
pub proof fn lemma_info_bytes_injective(p: FileInfoPage, q: FileInfoPage)
    requires
        info_bytes(p) == info_bytes(q),
    ensures
        p == q,
{
    let a = info_bytes(p);
    let b = info_bytes(q);
    assert(a.subrange(0, 4) =~= u32_le_bytes(p.page_num));
    assert(b.subrange(0, 4) =~= u32_le_bytes(q.page_num));
    assert(a.subrange(4, 8) =~= u32_le_bytes(p.record_num));
    assert(b.subrange(4, 8) =~= u32_le_bytes(q.record_num));
    assert(a.subrange(8, 12) =~= u32_le_bytes(p.record_len));
    assert(b.subrange(8, 12) =~= u32_le_bytes(q.record_len));
    assert(a.subrange(12, 16) =~= u32_le_bytes(p.column_num));
    assert(b.subrange(12, 16) =~= u32_le_bytes(q.column_num));
    lemma_u32_le_bytes_injective(p.page_num, q.page_num);
    lemma_u32_le_bytes_injective(p.record_num, q.record_num);
    lemma_u32_le_bytes_injective(p.record_len, q.record_len);
    lemma_u32_le_bytes_injective(p.column_num, q.column_num);
}

impl FileInfoPage {
    /// A page with every field zero.
    pub fn test_new() -> (res: FileInfoPage)
        ensures
            res.page_num == 0,
            res.record_num == 0,
            res.record_len == 0,
            res.column_num == 0,
    {
        FileInfoPage { page_num: 0, record_num: 0, record_len: 0, column_num: 0 }
    }

    /// The bytes of the page (see `info_bytes`).
    pub fn to_bytes(&self) -> (res: Vec<u8>)
        ensures
            res@ == info_bytes(*self),
    {
        let mut out: Vec<u8> = Vec::new();
        push_u32_le(&mut out, self.page_num);
        push_u32_le(&mut out, self.record_num);
        push_u32_le(&mut out, self.record_len);
        push_u32_le(&mut out, self.column_num);
        assert(out@ =~= info_bytes(*self));
        out
    }

    /// The page whose bytes begin `bytes`.
    pub fn from_bytes(bytes: &[u8]) -> (res: FileInfoPage)
        requires
            bytes@.len() >= 16,
        ensures
            info_bytes(res) == bytes@.subrange(0, 16),
    {
        let page_num = read_u32_le(bytes, 0);
        let record_num = read_u32_le(bytes, 4);
        let record_len = read_u32_le(bytes, 8);
        let column_num = read_u32_le(bytes, 12);
        let res = FileInfoPage { page_num, record_num, record_len, column_num };
        assert(info_bytes(res) =~= bytes@.subrange(0, 16));
        res
    }
}

/// A page of records.
pub struct NormalPage {
    header: PageHeader,
}

/// The bookkeeping at the head of a page of records.
pub struct PageHeader {
    /// The next page with a free slot; 0 when there is none yet.
    next_free_page_idx: usize,
    /// One bit per record slot, set when the slot is free.
    free_slot_bitvec: BitVec,
    /// Number of free slots: the number of set bits.
    free_slot_num: usize,
}

/// The number of set bits in `bits`.
pub open spec fn count_true(bits: Seq<bool>) -> nat
    decreases bits.len(),
{
    if bits.len() == 0 {
        0
    } else {
        count_true(bits.drop_last()) + if bits.last() {
            1nat
        } else {
            0nat
        }
    }
}

proof fn lemma_count_all_set(n: nat)
    ensures
        count_true(Seq::new(n, |i: int| true)) == n,
    decreases n,
{
    if n > 0 {
        lemma_count_all_set((n - 1) as nat);
        assert(Seq::new(n, |i: int| true).drop_last() =~= Seq::new((n - 1) as nat, |i: int| true));
    }
}

impl PageHeader {
    /// The link to the next page with a free slot.
    pub closed spec fn spec_next_free_page_idx(&self) -> usize {
        self.next_free_page_idx
    }

    /// The slot bits.
    pub closed spec fn slot_bits(&self) -> Seq<bool> {
        bits_of(self.free_slot_bitvec)
    }

    /// The count of free slots.
    pub closed spec fn spec_free_slot_num(&self) -> usize {
        self.free_slot_num
    }

    /// The count of free slots is the number of set slot bits.
    pub open spec fn wf(&self) -> bool {
        self.spec_free_slot_num() == count_true(self.slot_bits())
    }

    /// The header of a page of `record_num_per_page` slots, all free: every slot
    /// bit set.
    pub fn new(record_num_per_page: usize, next_free_page_idx: usize) -> (res: PageHeader)
        ensures
            res.wf(),
            res.spec_next_free_page_idx() == next_free_page_idx,
            res.slot_bits() == Seq::new(record_num_per_page as nat, |i: int| true),
            res.spec_free_slot_num() == record_num_per_page,
    {
        proof {
            lemma_count_all_set(record_num_per_page as nat);
        }
        PageHeader {
            next_free_page_idx,
            free_slot_bitvec: bitvec_from_elem(record_num_per_page, true),
            free_slot_num: record_num_per_page,
        }
    }
}

} // verus!
