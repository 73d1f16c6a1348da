//! The container's binary layout, as a specification over the raw bytes,
//! and the verified parsers that read it.
//!
//! Layout, all integers little-endian u32:
//! header `pointer magic version` (12 bytes), then the data region up to
//! `pointer`, then `entry_count`, `entry_count` 12-byte entry records,
//! and a 9-byte footer. Each entry's data is a chain of blocks
//! `compressed_size uncompressed_size payload` inside the data region,
//! addressed by `pointer - 12`.

use crate::codec;
use crate::Error;
use vstd::prelude::*;
use vstd::slice::{slice_index_get, slice_subrange, slice_to_vec};
use vstd::utf8::{decode_utf8, valid_utf8};

verus! {

// ---------------------------------------------------------------------------
// The data types.
// ---------------------------------------------------------------------------

/// The fixed 12-byte header: the absolute offset of the entry-count
/// field, a magic number, and a format version.
#[derive(Debug)]
pub struct Header {
    pub pointer: u32,
    pub magic_number: u32,
    pub version: u32,
}

/// One entry record: a hash of the filename, the absolute offset of the
/// entry's first block, the total uncompressed size, and, once the
/// archive is parsed, the entry's block chain.
#[derive(Debug)]
pub struct Entry {
    pub filename_crc: u32,
    pub pointer: u32,
    pub uncompressed_size: u32,
    pub blocks: Option<Vec<Block>>,
}

/// One compressed chunk of an entry's chain.
#[derive(Debug, PartialEq)]
pub struct Block {
    pub compressed_size: u32,
    pub uncompressed_size: u32,
    pub data: Vec<u8>,
}

/// The trailing 9 bytes: a 5-byte tag and a timestamp.
#[derive(Debug)]
pub struct Footer {
    pub footer_string: Vec<u8>,
    pub timestamp: u32,
}

/// A parsed archive: header, entry table sorted by data offset, footer.
#[derive(Debug)]
pub struct Archive {
    pub header: Header,
    pub entry_count: u32,
    pub entries: Vec<Entry>,
    pub footer: Footer,
}

/// Mathematical value of a `Block`.
pub ghost struct BlockV {
    pub compressed_size: u32,
    pub uncompressed_size: u32,
    pub data: Seq<u8>,
}

impl View for Block {
    type V = BlockV;

    open spec fn view(&self) -> BlockV {
        BlockV {
            compressed_size: self.compressed_size,
            uncompressed_size: self.uncompressed_size,
            data: self.data@,
        }
    }
}

/// Mathematical value of an `Entry`.
pub ghost struct EntryV {
    pub filename_crc: u32,
    pub pointer: u32,
    pub uncompressed_size: u32,
    pub blocks: Option<Seq<BlockV>>,
}

impl View for Entry {
    type V = EntryV;

    open spec fn view(&self) -> EntryV {
        EntryV {
            filename_crc: self.filename_crc,
            pointer: self.pointer,
            uncompressed_size: self.uncompressed_size,
            blocks: match self.blocks {
                Some(bs) => Some(bs@.map_values(|b: Block| b@)),
                None => None,
            },
        }
    }
}

// ---------------------------------------------------------------------------
// The layout, stated over the raw bytes.
// ---------------------------------------------------------------------------

/// The little-endian u32 at byte offset `i`.
pub open spec fn le_u32_at(s: Seq<u8>, i: int) -> u32
    recommends
        0 <= i,
        i + 4 <= s.len(),
{
    (s[i] as u32) | ((s[i + 1] as u32) << 8) | ((s[i + 2] as u32) << 16) | ((s[i + 3] as u32)
        << 24)
}

/// The header's directory pointer: where the entry-count field begins.
pub open spec fn dir_ptr(s: Seq<u8>) -> u32
    recommends
        s.len() >= 12,
{
    le_u32_at(s, 0)
}

/// The declared number of entries.
pub open spec fn entry_count_of(s: Seq<u8>) -> u32
    recommends
        layout_ok(s),
{
    le_u32_at(s, dir_ptr(s) as int)
}

/// The buffer is long enough for the header, the entry-count field, the
/// entry records and the footer, and the directory pointer lies past the
/// header.
pub open spec fn layout_ok(s: Seq<u8>) -> bool {
    &&& s.len() >= 12
    &&& dir_ptr(s) >= 12
    &&& dir_ptr(s) + 4 <= s.len()
    &&& dir_ptr(s) + 4 + 12 * (le_u32_at(s, dir_ptr(s) as int) as int) + 9 <= s.len()
}

/// The data region: the bytes between the header and the entry count,
/// holding every entry's block chain.
pub open spec fn region_of(s: Seq<u8>) -> Seq<u8>
    recommends
        layout_ok(s),
{
    s.subrange(12, dir_ptr(s) as int)
}

/// The `i`th entry record of the entry table, in file order, before its
/// block chain is attached.
pub open spec fn raw_entry_at(s: Seq<u8>, i: int) -> Entry
    recommends
        layout_ok(s),
        0 <= i < entry_count_of(s) as int,
{
    let base = dir_ptr(s) as int + 4 + 12 * i;
    Entry {
        filename_crc: le_u32_at(s, base),
        pointer: le_u32_at(s, base + 4),
        uncompressed_size: le_u32_at(s, base + 8),
        blocks: None,
    }
}

/// The whole entry table, in file order.
pub open spec fn raw_entries(s: Seq<u8>) -> Seq<Entry>
    recommends
        layout_ok(s),
{
    Seq::new(entry_count_of(s) as nat, |i: int| raw_entry_at(s, i))
}

/// One block read at offset `off` of a buffer: its value and the offset
/// just past it, or `None` if the declared sizes overrun the buffer.
pub open spec fn block_at(s: Seq<u8>, off: int) -> Option<(BlockV, int)> {
    if 0 <= off && off + 8 <= s.len() {
        let cs = le_u32_at(s, off) as int;
        if off + 8 + cs <= s.len() {
            Some(
                (
                    BlockV {
                        compressed_size: le_u32_at(s, off),
                        uncompressed_size: le_u32_at(s, off + 4),
                        data: s.subrange(off + 8, off + 8 + cs),
                    },
                    off + 8 + cs,
                ),
            )
        } else {
            None
        }
    } else {
        None
    }
}

/// An entry's block chain, read from the data region at `off` until the
/// blocks' declared uncompressed sizes use up `remaining` exactly. `None`
/// on a truncated block, or when a block declares more than is left.
pub open spec fn chain_at(region: Seq<u8>, off: int, remaining: int) -> Option<Seq<BlockV>>
    decreases region.len() - off,
{
    if remaining == 0 {
        Some(Seq::empty())
    } else if remaining < 0 {
        None
    } else {
        match block_at(region, off) {
            None => None,
            Some((b, off2)) => {
                if b.uncompressed_size as int > remaining {
                    None
                } else {
                    match chain_at(region, off2, remaining - b.uncompressed_size as int) {
                        Some(rest) => Some(seq![b] + rest),
                        None => None,
                    }
                }
            },
        }
    }
}

/// The sum of the declared uncompressed sizes of a block chain.
pub open spec fn sum_uncompressed(bs: Seq<BlockV>) -> int
    decreases bs.len(),
{
    if bs.len() == 0 {
        0
    } else {
        bs[0].uncompressed_size as int + sum_uncompressed(bs.drop_first())
    }
}

/// A block chain read with budget `total` accounts for it exactly: the
/// declared uncompressed sizes of its blocks sum to `total`.
pub proof fn lemma_chain_total(region: Seq<u8>, off: int, total: int, bs: Seq<BlockV>)
    requires
        chain_at(region, off, total) == Some(bs),
    ensures
        sum_uncompressed(bs) == total,
    decreases region.len() - off,
{
    if total == 0 {
    } else {
        let (b, off2) = block_at(region, off)->0;
        let rest = chain_at(region, off2, total - b.uncompressed_size as int)->0;
        lemma_chain_total(region, off2, total - b.uncompressed_size as int, rest);
        assert(bs == seq![b] + rest);
        assert(bs[0] == b);
        assert(bs.drop_first() =~= rest);
    }
}

/// In a parsed archive every entry's block chain accounts for the
/// entry's declared size exactly: the blocks' uncompressed sizes sum to
/// it.
pub proof fn lemma_entry_blocks_account_size(a: Archive, s: Seq<u8>, i: int)
    requires
        parse_ok(s),
        archive_matches(a, s),
        0 <= i < a.entries@.len(),
    ensures
        a.entries@[i]@.blocks is Some,
        sum_uncompressed(a.entries@[i]@.blocks->0) == a.entries@[i].uncompressed_size as int,
{
    let e = a.entries@[i];
    assert(e@.blocks == chain_at(region_of(s), e.pointer as int - 12, e.uncompressed_size as int));
    assert(e@.blocks is Some) by {
        broadcast use vstd::seq_lib::to_multiset_contains;
        broadcast use vstd::seq_lib::to_multiset_len;

        let metas = a.entries@.map_values(|x: Entry| strip_blocks(x));
        assert(metas[i] == strip_blocks(e));
        assert(metas.contains(strip_blocks(e)));
        assert(metas.to_multiset().count(strip_blocks(e)) > 0);
        assert(raw_entries(s).to_multiset().count(strip_blocks(e)) > 0);
        assert(raw_entries(s).contains(strip_blocks(e)));
        let j = choose|j: int|
            0 <= j < raw_entries(s).len() && raw_entries(s)[j] == strip_blocks(e);
        assert(raw_entry_at(s, j) == strip_blocks(e));
        assert(chain_at(
            region_of(s),
            raw_entry_at(s, j).pointer as int - 12,
            raw_entry_at(s, j).uncompressed_size as int,
        ) is Some);
    }
    lemma_chain_total(
        region_of(s),
        e.pointer as int - 12,
        e.uncompressed_size as int,
        e@.blocks->0,
    );
}

/// Every entry record's block chain reads back successfully: the whole
/// buffer parses as an archive.
pub open spec fn parse_ok(s: Seq<u8>) -> bool {
    &&& layout_ok(s)
    &&& forall|i: int|
        0 <= i < entry_count_of(s) as int ==> (#[trigger] chain_at(
            region_of(s),
            raw_entry_at(s, i).pointer as int - 12,
            raw_entry_at(s, i).uncompressed_size as int,
        )) is Some
}

/// An entry with its block chain removed.
pub open spec fn strip_blocks(e: Entry) -> Entry {
    Entry {
        filename_crc: e.filename_crc,
        pointer: e.pointer,
        uncompressed_size: e.uncompressed_size,
        blocks: None,
    }
}

/// Entries in ascending order of their data offset.
pub open spec fn sorted_by_ptr(es: Seq<Entry>) -> bool {
    forall|i: int, j: int| 0 <= i < j < es.len() ==> es[i].pointer <= es[j].pointer
}

/// What `parse` promises of a returned archive: each field equals what
/// the layout gives, the entries are the entry table sorted by data
/// offset, and each carries exactly the block chain read at its offset.
pub open spec fn archive_matches(a: Archive, s: Seq<u8>) -> bool {
    &&& a.header.pointer == dir_ptr(s)
    &&& a.header.magic_number == le_u32_at(s, 4)
    &&& a.header.version == le_u32_at(s, 8)
    &&& a.entry_count == entry_count_of(s)
    &&& a.entries@.len() == entry_count_of(s) as int
    &&& a.entries@.map_values(|e: Entry| strip_blocks(e)).to_multiset() == raw_entries(
        s,
    ).to_multiset()
    &&& sorted_by_ptr(a.entries@)
    &&& forall|i: int|
        0 <= i < a.entries@.len() ==> (#[trigger] a.entries@[i])@.blocks == chain_at(
            region_of(s),
            a.entries@[i].pointer as int - 12,
            a.entries@[i].uncompressed_size as int,
        )
    &&& a.footer.footer_string@ == s.subrange(
        footer_pos(s),
        footer_pos(s) + 5,
    )
    &&& a.footer.timestamp == le_u32_at(s, footer_pos(s) + 5)
}

/// Where the footer begins: just past the entry table.
pub open spec fn footer_pos(s: Seq<u8>) -> int
    recommends
        layout_ok(s),
{
    dir_ptr(s) as int + 4 + 12 * (entry_count_of(s) as int)
}

// ---------------------------------------------------------------------------
// The directory: the decompressed last entry as a name table.
// ---------------------------------------------------------------------------

/// `b` without its trailing NUL padding.
pub open spec fn strip_nuls(b: Seq<u8>) -> Seq<u8>
    decreases b.len(),
{
    if b.len() > 0 && b.last() == 0 {
        strip_nuls(b.drop_last())
    } else {
        b
    }
}

/// One directory record at `off`: a u32 length, then that many bytes,
/// NUL padding stripped and the rest decoded as UTF-8. `None` when the
/// length overruns the buffer or the bytes are not valid UTF-8.
pub open spec fn name_at(s: Seq<u8>, off: int) -> Option<(Seq<char>, int)> {
    if 0 <= off && off + 4 <= s.len() {
        let n = le_u32_at(s, off) as int;
        if off + 4 + n <= s.len() {
            let raw = strip_nuls(s.subrange(off + 4, off + 4 + n));
            if valid_utf8(raw) {
                Some((decode_utf8(raw), off + 4 + n))
            } else {
                None
            }
        } else {
            None
        }
    } else {
        None
    }
}

/// `k` directory records in a row starting at `off`.
pub open spec fn names_from(s: Seq<u8>, off: int, k: nat) -> Option<Seq<Seq<char>>>
    decreases k,
{
    if k == 0 {
        Some(Seq::empty())
    } else {
        match name_at(s, off) {
            Some((nm, off2)) => match names_from(s, off2, (k - 1) as nat) {
                Some(rest) => Some(seq![nm] + rest),
                None => None,
            },
            None => None,
        }
    }
}

/// The whole directory payload: a u32 file count, then that many
/// records.
pub open spec fn dir_names(s: Seq<u8>) -> Option<Seq<Seq<char>>> {
    if s.len() >= 4 {
        names_from(s, 4, le_u32_at(s, 0) as nat)
    } else {
        None
    }
}

// ---------------------------------------------------------------------------
// The verified parsers.
// ---------------------------------------------------------------------------

/// Reads the little-endian u32 at `pos`.
fn le_u32(data: &[u8], pos: usize) -> (r: u32)
    requires
        pos + 4 <= data@.len(),
    ensures
        r == le_u32_at(data@, pos as int),
{
    let n = data.len();
    assert(pos + 4 <= n);
    let b0 = *slice_index_get(data, pos);
    let b1 = *slice_index_get(data, pos + 1);
    let b2 = *slice_index_get(data, pos + 2);
    let b3 = *slice_index_get(data, pos + 3);
    (b0 as u32) | ((b1 as u32) << 8) | ((b2 as u32) << 16) | ((b3 as u32) << 24)
}

/// Reads the fixed header.
fn header(data: &[u8]) -> (r: Result<Header, Error>)
    ensures
        match r {
            Ok(h) => {
                &&& data@.len() >= 12
                &&& h.pointer == dir_ptr(data@)
                &&& h.magic_number == le_u32_at(data@, 4)
                &&& h.version == le_u32_at(data@, 8)
            },
            Err(e) => data@.len() < 12 && e matches Error::Parser,
        },
{
    if data.len() < 12 {
        return Err(Error::Parser);
    }
    Ok(
        Header {
            pointer: le_u32(data, 0),
            magic_number: le_u32(data, 4),
            version: le_u32(data, 8),
        },
    )
}

/// Reads the 12-byte entry record at `pos`.
fn entry(data: &[u8], pos: usize) -> (r: Entry)
    requires
        pos + 12 <= data@.len(),
    ensures
        r == (Entry {
            filename_crc: le_u32_at(data@, pos as int),
            pointer: le_u32_at(data@, pos as int + 4),
            uncompressed_size: le_u32_at(data@, pos as int + 8),
            blocks: None::<Vec<Block>>,
        }),
{
    let n = data.len();
    assert(pos + 12 <= n);
    Entry {
        filename_crc: le_u32(data, pos),
        pointer: le_u32(data, pos + 4),
        uncompressed_size: le_u32(data, pos + 8),
        blocks: None,
    }
}

/// Reads one block at `pos`: its two size fields and its compressed
/// payload. Fails when either would overrun the buffer.
pub fn block(input: &[u8], pos: usize) -> (r: Result<(Block, usize), Error>)
    ensures
        match r {
            Ok((b, next)) => block_at(input@, pos as int) == Some((b@, next as int)),
            Err(e) => block_at(input@, pos as int) is None && e matches Error::Parser,
        },
{
    if pos > input.len() || input.len() - pos < 8 {
        return Err(Error::Parser);
    }
    let compressed_size = le_u32(input, pos);
    let uncompressed_size = le_u32(input, pos + 4);
    if (compressed_size as usize) > input.len() - pos - 8 {
        return Err(Error::Parser);
    }
    let next = pos + 8 + compressed_size as usize;
    let data = slice_to_vec(slice_subrange(input, pos + 8, next));
    Ok(
        (
            Block {
                compressed_size,
                uncompressed_size,
                data,
            },
            next,
        ),
    )
}

/// Reads the 9-byte footer at `pos`.
fn footer(data: &[u8], pos: usize) -> (r: Footer)
    requires
        pos + 9 <= data@.len(),
    ensures
        r.footer_string@ == data@.subrange(pos as int, pos as int + 5),
        r.timestamp == le_u32_at(data@, pos as int + 5),
{
    let n = data.len();
    assert(pos + 9 <= n);
    let footer_string = slice_to_vec(slice_subrange(data, pos, pos + 5));
    let timestamp = le_u32(data, pos + 5);
    Footer { footer_string, timestamp }
}

/// Walks one entry's block chain inside the data region, starting at the
/// entry's data offset, until the declared uncompressed sizes use up
/// `total` exactly.
fn chain(region: &[u8], pointer: u32, total: u32) -> (r: Result<Vec<Block>, Error>)
    ensures
        match r {
            Ok(bs) => chain_at(region@, pointer as int - 12, total as int) == Some(
                bs@.map_values(|b: Block| b@),
            ),
            Err(e) => chain_at(region@, pointer as int - 12, total as int) is None && e
                matches Error::Parser,
        },
{
    let ghost gregion = region@;
    let ghost off0: int = pointer as int - 12;
    let ghost total0: int = total as int;
    let mut blocks: Vec<Block> = Vec::new();
    let mut remaining: u32 = total;
    if remaining == 0 {
        assert(blocks@.map_values(|b: Block| b@) =~= Seq::<BlockV>::empty());
        return Ok(blocks);
    }
    if pointer < 12 {
        return Err(Error::Parser);
    }
    let mut offset: usize = (pointer - 12) as usize;
    let rlen = region.len();
    while remaining > 0
        invariant
            rlen == gregion.len(),
            off0 == pointer as int - 12,
            total0 == total as int,
            match chain_at(gregion, offset as int, remaining as int) {
                Some(rest) => chain_at(gregion, off0, total0) == Some(
                    blocks@.map_values(|b: Block| b@) + rest,
                ),
                None => chain_at(gregion, off0, total0) is None,
            },
            region@ == gregion,
        decreases gregion.len() - offset,
    {
        let ghost pre = chain_at(gregion, offset as int, remaining as int);
        match block(region, offset) {
            Err(e) => {
                assert(pre is None);
                return Err(Error::Parser);
            },
            Ok((b, next)) => {
                if b.uncompressed_size > remaining {
                    assert(pre is None);
                    return Err(Error::Parser);
                }
                let ghost old_blocks = blocks@;
                let ghost rem2: int = remaining as int - b.uncompressed_size as int;
                remaining = remaining - b.uncompressed_size;
                proof {
                    assert(pre == (match chain_at(gregion, next as int, rem2) {
                        Some(rest) => Some(seq![b@] + rest),
                        None => None::<Seq<BlockV>>,
                    }));
                }
                offset = next;
                blocks.push(b);
                proof {
                    assert(blocks@.map_values(|bb: Block| bb@) =~= old_blocks.map_values(
                        |bb: Block| bb@,
                    ) + seq![b@]);
                    if chain_at(gregion, offset as int, remaining as int) is Some {
                        let rest = chain_at(gregion, offset as int, remaining as int)->0;
                        assert(old_blocks.map_values(|bb: Block| bb@) + (seq![b@] + rest)
                            =~= blocks@.map_values(|bb: Block| bb@) + rest);
                    }
                }
            },
        }
    }
    proof {
        assert(chain_at(gregion, offset as int, 0) == Some(Seq::<BlockV>::empty()));
        assert(blocks@.map_values(|b: Block| b@) + Seq::<BlockV>::empty() =~= blocks@.map_values(
            |b: Block| b@,
        ));
    }
    Ok(blocks)
}

/// Reorders the entry table into ascending data-offset order.
fn sort_entries(input: Vec<Entry>) -> (r: Vec<Entry>)
    ensures
        r@.to_multiset() == input@.to_multiset(),
        sorted_by_ptr(r@),
{
    broadcast use vstd::seq_lib::to_multiset_build;
    broadcast use vstd::seq_lib::to_multiset_insert;
    broadcast use vstd::multiset::group_multiset_axioms;

    let ghost input0 = input@;
    let mut v = input;
    let mut out: Vec<Entry> = Vec::new();
    proof {
        broadcast use vstd::seq_lib::to_multiset_len;
        vstd::multiset::lemma_multiset_empty_len::<Entry>(out@.to_multiset());
        assert(out@.to_multiset().add(v@.to_multiset()) =~= input0.to_multiset());
    }
    while v.len() > 0
        invariant
            out@.to_multiset().add(v@.to_multiset()) =~= input0.to_multiset(),
            sorted_by_ptr(out@),
        decreases v@.len(),
    {
        let ghost v_pre = v@;
        let e = match v.pop() {
            Some(e) => e,
            None => {
                return out;
            },
        };
        proof {
            assert(v@.push(e) =~= v_pre);
            vstd::seq_lib::to_multiset_build::<Entry>(v@, e);
            assert(v_pre.to_multiset() =~= v@.to_multiset().insert(e));
        }
        let mut j: usize = 0;
        while j < out.len() && out[j].pointer <= e.pointer
            invariant
                j <= out@.len(),
                forall|k: int| 0 <= k < j ==> (#[trigger] out@[k]).pointer <= e.pointer,
            decreases out@.len() - j,
        {
            j = j + 1;
        }
        let ghost out_pre = out@;
        out.insert(j, e);
        proof {
            out_pre.insert_ensures(j as int, e);
            vstd::seq_lib::to_multiset_insert::<Entry>(out_pre, j as int, e);
            assert(out@.to_multiset() =~= out_pre.to_multiset().insert(e));
            assert(out@.to_multiset().add(v@.to_multiset()) =~= input0.to_multiset());
            assert(sorted_by_ptr(out@)) by {
                assert forall|i1: int, i2: int| 0 <= i1 < i2 < out@.len() implies out@[i1].pointer
                    <= out@[i2].pointer by {
                    if i1 < j && i2 < j {
                    } else if i1 == j {
                        assert(out@[i2] == out_pre[i2 - 1]);
                        assert(out_pre[j as int].pointer > e.pointer || j as int > i2 - 1);
                        assert(out_pre[i2 - 1].pointer >= out_pre[j as int].pointer || j as int
                            == i2 - 1);
                    } else if i2 == j {
                        assert(out@[i1] == out_pre[i1]);
                    } else if i1 > j {
                        assert(out@[i1] == out_pre[i1 - 1]);
                        assert(out@[i2] == out_pre[i2 - 1]);
                    } else {
                        assert(out@[i1] == out_pre[i1]);
                        assert(out@[i2] == out_pre[i2 - 1]);
                        if i2 - 1 == j {
                            assert(out_pre[i1].pointer <= e.pointer);
                            assert(out_pre[j as int].pointer > e.pointer);
                        }
                    }
                }
            }
        }
    }
    proof {
        broadcast use vstd::seq_lib::to_multiset_len;
        vstd::multiset::lemma_multiset_empty_len::<Entry>(v@.to_multiset());
        assert(out@.to_multiset() =~= input0.to_multiset());
    }
    out
}

/// Parses a whole buffer as an archive: header, entry table, footer, the
/// entries sorted by data offset, and every entry's block chain read
/// from the data region. Fails exactly when the layout overruns the
/// buffer, the directory pointer lies inside the header, or some block
/// chain is truncated or over-declared.
pub fn parse(data: &[u8]) -> (r: Result<Archive, Error>)
    ensures
        match r {
            Ok(a) => parse_ok(data@) && archive_matches(a, data@),
            Err(e) => !parse_ok(data@) && e matches Error::Parser,
        },
{
    let len = data.len();
    let h = match header(data) {
        Ok(h) => h,
        Err(_) => {
            return Err(Error::Parser);
        },
    };
    if h.pointer < 12 {
        return Err(Error::Parser);
    }
    let ptr = h.pointer as usize;
    if ptr > len || len - ptr < 4 {
        return Err(Error::Parser);
    }
    let n = le_u32(data, ptr);
    if 12u64 * (n as u64) + 9u64 > (len - ptr - 4) as u64 {
        return Err(Error::Parser);
    }
    assert(layout_ok(data@));
    let mut entries: Vec<Entry> = Vec::new();
    let mut i: usize = 0;
    while i < n as usize
        invariant
            layout_ok(data@),
            len == data@.len(),
            ptr == dir_ptr(data@) as int,
            n == entry_count_of(data@),
            i <= n as usize,
            entries@.len() == i as int,
            forall|k: int| 0 <= k < i as int ==> entries@[k] == raw_entry_at(data@, k),
        decreases n as usize - i,
    {
        assert(12 * (i as int) + 12 <= 12 * (n as int));
        let pos = ptr + 4 + 12 * i;
        let e = entry(data, pos);
        entries.push(e);
        i = i + 1;
    }
    assert(entries@ =~= raw_entries(data@));
    let fpos = ptr + 4 + 12 * (n as usize);
    let f = footer(data, fpos);
    let sorted = sort_entries(entries);
    let ghost sorted0 = sorted@;
    proof {
        broadcast use vstd::seq_lib::to_multiset_contains;
        broadcast use vstd::seq_lib::to_multiset_len;
    }
    let region = slice_subrange(data, 12, ptr);
    let mut rest = sorted;
    let mut done: Vec<Entry> = Vec::new();
    while rest.len() > 0
        invariant
            layout_ok(data@),
            region@ == region_of(data@),
            sorted0.to_multiset() == raw_entries(data@).to_multiset(),
            sorted_by_ptr(sorted0),
            done@.len() + rest@.len() == sorted0.len(),
            rest@ == sorted0.skip(done@.len() as int),
            forall|k: int|
                0 <= k < done@.len() ==> strip_blocks(#[trigger] done@[k]) == sorted0[k],
            forall|k: int|
                0 <= k < done@.len() ==> (#[trigger] done@[k])@.blocks == chain_at(
                    region_of(data@),
                    done@[k].pointer as int - 12,
                    done@[k].uncompressed_size as int,
                ) && done@[k]@.blocks is Some,
        decreases rest@.len(),
    {
        let e = rest.remove(0);
        assert(e == sorted0[done@.len() as int]);
        proof {
            assert(rest@ =~= sorted0.skip(done@.len() as int + 1));
            broadcast use vstd::seq_lib::to_multiset_contains;
            assert(sorted0.contains(e)) by {
                assert(sorted0[done@.len() as int] == e);
            }
            assert(sorted0.to_multiset().count(e) > 0);
            assert(raw_entries(data@).contains(e));
            let j = choose|j: int| 0 <= j < raw_entries(data@).len() && raw_entries(data@)[j] == e;
            assert(raw_entry_at(data@, j) == e);
            assert(e.blocks == None::<Vec<Block>>);
        }
        let bs = match chain(region, e.pointer, e.uncompressed_size) {
            Ok(bs) => bs,
            Err(_) => {
                proof {
                    broadcast use vstd::seq_lib::to_multiset_contains;
                    if parse_ok(data@) {
                        assert(sorted0.contains(e)) by {
                            assert(sorted0[done@.len() as int] == e);
                        }
                        assert(sorted0.to_multiset().count(e) > 0);
                        assert(raw_entries(data@).contains(e));
                        let j = choose|j: int|
                            0 <= j < raw_entries(data@).len() && raw_entries(data@)[j] == e;
                        assert(raw_entry_at(data@, j) == e);
                        assert(chain_at(
                            region_of(data@),
                            e.pointer as int - 12,
                            e.uncompressed_size as int,
                        ) is Some);
                        assert(false);
                    }
                }
                return Err(Error::Parser);
            },
        };
        let done_entry = Entry {
            filename_crc: e.filename_crc,
            pointer: e.pointer,
            uncompressed_size: e.uncompressed_size,
            blocks: Some(bs),
        };
        done.push(done_entry);
    }
    proof {
        broadcast use vstd::seq_lib::to_multiset_contains;
        broadcast use vstd::seq_lib::to_multiset_len;
        assert(done@.len() == sorted0.len());
        assert(sorted0.to_multiset().len() == sorted0.len());
        assert(raw_entries(data@).to_multiset().len() == raw_entries(data@).len());
        assert(sorted0.len() == entry_count_of(data@) as int);
        assert(done@.map_values(|e: Entry| strip_blocks(e)) =~= sorted0);
        assert(parse_ok(data@)) by {
            assert forall|j: int| 0 <= j < entry_count_of(data@) as int implies (
            #[trigger] chain_at(
                region_of(data@),
                raw_entry_at(data@, j).pointer as int - 12,
                raw_entry_at(data@, j).uncompressed_size as int,
            )) is Some by {
                let ej = raw_entry_at(data@, j);
                assert(raw_entries(data@)[j] == ej);
                assert(raw_entries(data@).contains(ej));
                assert(sorted0.to_multiset().count(ej) > 0);
                assert(sorted0.contains(ej));
                let k = choose|k: int| 0 <= k < sorted0.len() && sorted0[k] == ej;
                assert(strip_blocks(done@[k]) == ej);
                assert(done@[k]@.blocks is Some);
            }
        }
        assert(sorted_by_ptr(done@)) by {
            assert forall|i1: int, i2: int| 0 <= i1 < i2 < done@.len() implies done@[i1].pointer
                <= done@[i2].pointer by {
                assert(strip_blocks(done@[i1]) == sorted0[i1]);
                assert(strip_blocks(done@[i2]) == sorted0[i2]);
            }
        }
    }
    let archive = Archive { header: h, entry_count: n, entries: done, footer: f };
    proof {
        assert(archive.entries@.map_values(|e: Entry| strip_blocks(e)).to_multiset()
            == raw_entries(data@).to_multiset());
    }
    Ok(archive)
}

/// Reads one directory record at `pos`: a length-prefixed, NUL-padded
/// name, decoded as UTF-8.
fn directory_string(input: &[u8], pos: usize) -> (r: Result<(String, usize), Error>)
    ensures
        match r {
            Ok((nm, next)) => name_at(input@, pos as int) == Some((nm@, next as int)),
            Err(e) => name_at(input@, pos as int) is None && e matches Error::Parser,
        },
{
    let len = input.len();
    if pos > len || len - pos < 4 {
        return Err(Error::Parser);
    }
    let n = le_u32(input, pos);
    if (n as usize) > len - pos - 4 {
        return Err(Error::Parser);
    }
    let end = pos + 4 + n as usize;
    let mut bytes = slice_to_vec(slice_subrange(input, pos + 4, end));
    let ghost raw0 = input@.subrange(pos as int + 4, end as int);
    while bytes.len() > 0 && bytes[bytes.len() - 1] == 0
        invariant
            strip_nuls(bytes@) == strip_nuls(raw0),
        decreases bytes@.len(),
    {
        let ghost pre = bytes@;
        bytes.pop();
        proof {
            assert(bytes@ =~= pre.drop_last());
        }
    }
    proof {
        assert(strip_nuls(bytes@) == bytes@);
    }
    match codec::bytes_to_string(bytes) {
        Some(s) => Ok((s, end)),
        None => Err(Error::Parser),
    }
}

/// Parses a decompressed directory payload: a u32 file count followed by
/// that many length-prefixed, NUL-padded names.
pub fn directory(input: &[u8]) -> (r: Result<Vec<String>, Error>)
    ensures
        match r {
            Ok(v) => dir_names(input@) == Some(v@.map_values(|s: String| s@)),
            Err(e) => dir_names(input@) is None && e matches Error::Parser,
        },
{
    let len = input.len();
    if len < 4 {
        return Err(Error::Parser);
    }
    let file_count = le_u32(input, 0);
    let mut names: Vec<String> = Vec::new();
    let mut pos: usize = 4;
    let mut i: u32 = 0;
    while i < file_count
        invariant
            len == input@.len(),
            len >= 4,
            file_count == le_u32_at(input@, 0),
            i <= file_count,
            match names_from(input@, pos as int, (file_count - i) as nat) {
                Some(rest) => names_from(input@, 4, file_count as nat) == Some(
                    names@.map_values(|s: String| s@) + rest,
                ),
                None => names_from(input@, 4, file_count as nat) is None,
            },
        decreases file_count - i,
    {
        let ghost pre_state = names_from(input@, pos as int, (file_count - i) as nat);
        match directory_string(input, pos) {
            Ok((nm, next)) => {
                let ghost old_names = names@;
                names.push(nm);
                proof {
                    assert(pre_state == (match names_from(
                        input@,
                        next as int,
                        (file_count - i - 1) as nat,
                    ) {
                        Some(rest) => Some(seq![nm@] + rest),
                        None => None::<Seq<Seq<char>>>,
                    }));
                    assert(names@.map_values(|s: String| s@) =~= old_names.map_values(
                        |s: String| s@,
                    ).push(nm@));
                    if names_from(input@, next as int, (file_count - i - 1) as nat) is Some {
                        let rest = names_from(input@, next as int, (file_count - i - 1) as nat)->0;
                        assert(old_names.map_values(|s: String| s@) + (seq![nm@] + rest)
                            =~= names@.map_values(|s: String| s@) + rest);
                    }
                }
                pos = next;
                i = i + 1;
            },
            Err(_) => {
                return Err(Error::Parser);
            },
        }
    }
    proof {
        assert(names_from(input@, pos as int, 0) == Some(Seq::<Seq<char>>::empty()));
        assert(names@.map_values(|s: String| s@) + Seq::<Seq<char>>::empty() =~= names@.map_values(
            |s: String| s@,
        ));
    }
    Ok(names)
}

} // verus!
