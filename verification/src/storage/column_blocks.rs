//! Columns read block by block. A file without blocks is one block.
use crate::error::{fails, yields, Error};
use crate::storage::column::{
    check_lengths, decode_column_payload_from_bytes, file_outcome, lengths_fit, lz4_decompress,
    lz4_decompressed, magic, parse_col_type, payload_count, tagged_type, ColumnType,
};
use crate::storage::pod::Pod;
use crate::text::{decimal, int_text};
use vstd::prelude::*;

verus! {

/// The version of the description of blocks.
pub const BLOCKS_SCHEMA_VERSION: u8 = 1;

/// The bytes in front of a payload.
pub const HEAD_BYTES: usize = 7;

/// How the bytes of a block are stored.
#[derive(Clone, Copy, Debug, PartialEq, Eq, Structural)]
pub enum BlockEncoding {
    Raw,
    Lz4,
}

/// The bytes that stored bytes stand for.
pub open spec fn block_decoded(encoding: BlockEncoding, bytes: Seq<u8>) -> Result<
    Seq<u8>,
    Seq<char>,
> {
    match encoding {
        BlockEncoding::Raw => Ok(bytes),
        BlockEncoding::Lz4 => if !lengths_fit(bytes) {
            Err("lz4 block decompress: a length is too long"@)
        } else {
            match lz4_decompressed(bytes) {
                Ok(v) => Ok(v),
                Err(m) => Err("lz4 block decompress: "@ + m),
            }
        },
    }
}

impl BlockEncoding {
    /// The bytes that stored bytes stand for.
    pub fn decode(self, bytes: &[u8]) -> (r: Result<Vec<u8>, Error>)
        ensures
            match r {
                Ok(v) => yields(block_decoded(self, bytes@), v@),
                Err(e) => fails(block_decoded(self, bytes@), e@),
            },
    {
        match self {
            BlockEncoding::Raw => Ok(vstd::slice::slice_to_vec(bytes)),
            BlockEncoding::Lz4 => {
                if !check_lengths(bytes) {
                    return Err(Error::msg("lz4 block decompress: a length is too long"));
                }
                decoded_block(lz4_decompress(bytes))
            },
        }
    }
}

/// What a decompressed block comes to.
pub fn decoded_block(unpacked: Result<Vec<u8>, String>) -> (r: Result<Vec<u8>, Error>)
    ensures
        match (unpacked, r) {
            (Ok(v), Ok(w)) => v@ == w@,
            (Err(m), Err(e)) => e@ == "lz4 block decompress: "@ + m@,
            _ => false,
        },
{
    match unpacked {
        Ok(v) => Ok(v),
        Err(m) => {
            let mut text = String::from_str("lz4 block decompress: ");
            text.append(m.as_str());
            Err(Error::Msg(text))
        },
    }
}

/// A block: its rows, and where its bytes stand in the file.
#[derive(Clone, Copy, Debug, PartialEq, Eq)]
pub struct ColumnBlockMeta {
    pub block_id: usize,
    pub row_start: usize,
    pub row_count: usize,
    pub compressed_offset: u64,
    pub compressed_len: u64,
    pub decompressed_len: u64,
    pub encoding: BlockEncoding,
}

/// The blocks of a column.
pub struct ColumnBlocksSidecar {
    pub schema_version: u8,
    pub column_type: ColumnType,
    pub row_count: usize,
    pub block_rows: usize,
    pub blocks: Vec<ColumnBlockMeta>,
}

/// The rows of some blocks, together.
pub open spec fn rows_before(blocks: Seq<ColumnBlockMeta>, k: int) -> int
    decreases k,
{
    if k <= 0 {
        0
    } else {
        rows_before(blocks, k - 1) + blocks[k - 1].row_count
    }
}

/// What is wrong with the block at a place, if anything.
pub open spec fn block_fault(blocks: Seq<ColumnBlockMeta>, k: int) -> Option<Seq<char>> {
    let b = blocks[k];
    if b.block_id != k {
        Some("non-contiguous block_id in sidecar"@)
    } else if b.row_start != rows_before(blocks, k) {
        Some("non-contiguous row ranges in sidecar"@)
    } else if b.row_count == 0 {
        Some("block row_count must be > 0"@)
    } else if b.compressed_len == 0 && b.decompressed_len > 0 {
        Some("compressed_len is zero for non-empty block"@)
    } else {
        None
    }
}

/// The first fault among the first `k` blocks.
pub open spec fn blocks_fault(blocks: Seq<ColumnBlockMeta>, k: int) -> Option<Seq<char>>
    decreases k,
{
    if k <= 0 {
        None
    } else {
        match blocks_fault(blocks, k - 1) {
            Some(m) => Some(m),
            None => block_fault(blocks, k - 1),
        }
    }
}

proof fn lemma_blocks_fault(blocks: Seq<ColumnBlockMeta>, i: int, k: int)
    requires
        0 <= i <= k,
    ensures
        blocks_fault(blocks, i) is Some ==> blocks_fault(blocks, k) == blocks_fault(blocks, i),
        blocks_fault(blocks, k) is None ==> blocks_fault(blocks, i) is None,
    decreases k,
{
    if i < k {
        lemma_blocks_fault(blocks, i, k - 1);
    }
}

/// What is wrong with the description of blocks, if anything.
pub open spec fn sidecar_fault(s: ColumnBlocksSidecar) -> Option<Seq<char>> {
    let n = s.blocks@.len() as int;
    if s.schema_version != BLOCKS_SCHEMA_VERSION {
        Some("unsupported block sidecar schema version "@ + decimal(s.schema_version as int))
    } else if s.block_rows == 0 {
        Some("block_rows must be > 0"@)
    } else if n == 0 && s.row_count != 0 {
        Some("sidecar blocks missing for non-empty column"@)
    } else {
        match blocks_fault(s.blocks@, n) {
            Some(m) => Some(m),
            None => if rows_before(s.blocks@, n) != s.row_count {
                Some("sidecar row_count does not match block rows"@)
            } else {
                None
            },
        }
    }
}

/// Whether a row lies in a block.
pub open spec fn in_block(b: ColumnBlockMeta, row: int) -> bool {
    b.row_start <= row < b.row_start + b.row_count
}

/// The blocks of a description without fault divide the rows among them: each row lies
/// in exactly one block.
pub proof fn law_blocks_tile(s: ColumnBlocksSidecar, row: int)
    requires
        sidecar_fault(s) is None,
        0 <= row < s.row_count,
    ensures
        exists|k: int| 0 <= k < s.blocks@.len() && in_block(#[trigger] s.blocks@[k], row),
        forall|j: int, k: int|
            0 <= j < s.blocks@.len() && 0 <= k < s.blocks@.len() && in_block(
                #[trigger] s.blocks@[j],
                row,
            ) && in_block(#[trigger] s.blocks@[k], row) ==> j == k,
{
    let blocks = s.blocks@;
    let n = blocks.len() as int;
    let k = lemma_find_block(blocks, n, row);
    lemma_block_start(blocks, n, k);
    assert(in_block(blocks[k], row));
    assert forall|j: int, k: int|
        0 <= j < n && 0 <= k < n && in_block(#[trigger] blocks[j], row) && in_block(
            #[trigger] blocks[k],
            row,
        ) implies j == k by {
        lemma_block_start(blocks, n, j);
        lemma_block_start(blocks, n, k);
        if j < k {
            lemma_rows_grow(blocks, j + 1, k);
        } else if k < j {
            lemma_rows_grow(blocks, k + 1, j);
        }
    }
}

proof fn lemma_block_start(blocks: Seq<ColumnBlockMeta>, n: int, k: int)
    requires
        blocks_fault(blocks, n) is None,
        0 <= k < n,
    ensures
        blocks[k].row_start == rows_before(blocks, k),
        blocks[k].row_count > 0,
        blocks[k].block_id == k,
{
    lemma_blocks_fault(blocks, k + 1, n);
}

proof fn lemma_rows_grow(blocks: Seq<ColumnBlockMeta>, j: int, k: int)
    requires
        0 <= j <= k,
    ensures
        rows_before(blocks, j) <= rows_before(blocks, k),
    decreases k - j,
{
    if j < k {
        lemma_rows_grow(blocks, j, k - 1);
    }
}

proof fn lemma_find_block(blocks: Seq<ColumnBlockMeta>, n: int, row: int) -> (k: int)
    requires
        0 <= n,
        0 <= row < rows_before(blocks, n),
    ensures
        0 <= k < n,
        rows_before(blocks, k) <= row < rows_before(blocks, k + 1),
    decreases n,
{
    if row < rows_before(blocks, n - 1) {
        lemma_find_block(blocks, n - 1, row)
    } else {
        n - 1
    }
}

impl ColumnBlocksSidecar {
    /// Refuses a description whose blocks do not follow each other, or do not add up.
    pub fn validate(&self) -> (r: Result<(), Error>)
        ensures
            match r {
                Ok(_) => sidecar_fault(*self) is None,
                Err(e) => sidecar_fault(*self) == Some(e@),
            },
    {
        if self.schema_version != BLOCKS_SCHEMA_VERSION {
            let mut m = String::from_str("unsupported block sidecar schema version ");
            m.append(int_text(self.schema_version as i128).as_str());
            return Err(Error::Msg(m));
        }
        if self.block_rows == 0 {
            return Err(Error::msg("block_rows must be > 0"));
        }
        if self.blocks.len() == 0 && self.row_count != 0 {
            return Err(Error::msg("sidecar blocks missing for non-empty column"));
        }
        let ghost blocks = self.blocks@;
        let mut expected: Option<usize> = Some(0);
        let mut i: usize = 0;
        while i < self.blocks.len()
            invariant
                i <= self.blocks@.len(),
                blocks == self.blocks@,
                self.schema_version == BLOCKS_SCHEMA_VERSION,
                self.block_rows != 0,
                blocks.len() > 0 || self.row_count == 0,
                match expected {
                    Some(n) => n == rows_before(blocks, i as int),
                    None => rows_before(blocks, i as int) > usize::MAX,
                },
                blocks_fault(blocks, i as int) is None,
            decreases self.blocks@.len() - i,
        {
            let b = &self.blocks[i];
            proof {
                lemma_blocks_fault(blocks, i + 1, blocks.len() as int);
            }
            if b.block_id != i {
                return Err(Error::msg("non-contiguous block_id in sidecar"));
            }
            let start: usize = match expected {
                Some(n) => n,
                None => {
                    return Err(Error::msg("non-contiguous row ranges in sidecar"));
                },
            };
            if b.row_start != start {
                return Err(Error::msg("non-contiguous row ranges in sidecar"));
            }
            if b.row_count == 0 {
                return Err(Error::msg("block row_count must be > 0"));
            }
            if b.compressed_len == 0 && b.decompressed_len > 0 {
                return Err(Error::msg("compressed_len is zero for non-empty block"));
            }
            expected = start.checked_add(b.row_count);
            i = i + 1;
        }
        let adds_up = match expected {
            Some(n) => n == self.row_count,
            None => false,
        };
        if adds_up {
            Ok(())
        } else {
            Err(Error::msg("sidecar row_count does not match block rows"))
        }
    }
}

/// A block with its bytes.
pub struct ColumnBlock {
    pub meta: ColumnBlockMeta,
    pub bytes: Vec<u8>,
}

/// The number of rows at the head of a payload; none where it is too short.
pub open spec fn rows_of_payload(payload: Seq<u8>) -> usize {
    if payload.len() < 8 {
        0
    } else {
        payload_count(payload) as usize
    }
}

/// The number of rows at the head of a payload; none where it is too short.
pub fn payload_rows(payload: &Vec<u8>) -> (n: usize)
    ensures
        n == rows_of_payload(payload@),
{
    if payload.len() < 8 {
        return 0;
    }
    let bytes = payload.as_slice();
    assert(payload@.subrange(0, 8) =~= payload@.take(8));
    u64::read_le(&bytes[0..8]) as usize
}

/// The larger of a number and one.
pub open spec fn one_or_more(n: usize) -> usize {
    if n == 0 {
        1
    } else {
        n
    }
}

/// The length of a file behind the bytes in front of its payload.
pub open spec fn behind_head(n: nat) -> u64 {
    if n < HEAD_BYTES {
        0
    } else {
        (n - HEAD_BYTES) as u64
    }
}

/// The one block of a column that is one block.
pub open spec fn single_meta(
    payload: Seq<u8>,
    file_len: nat,
    offset: u64,
    encoding: BlockEncoding,
) -> ColumnBlockMeta {
    ColumnBlockMeta {
        block_id: 0,
        row_start: 0,
        row_count: rows_of_payload(payload),
        compressed_offset: offset,
        compressed_len: behind_head(file_len),
        decompressed_len: payload.len() as u64,
        encoding,
    }
}

/// The description of a column that is one block.
pub open spec fn single_block(
    s: ColumnBlocksSidecar,
    ty: ColumnType,
    payload: Seq<u8>,
    file_len: nat,
    offset: u64,
    encoding: BlockEncoding,
) -> bool {
    &&& s.schema_version == BLOCKS_SCHEMA_VERSION
    &&& s.column_type == ty
    &&& s.row_count == rows_of_payload(payload)
    &&& s.block_rows == one_or_more(rows_of_payload(payload))
    &&& s.blocks@ == seq![single_meta(payload, file_len, offset, encoding)]
}

/// The description of a column that is one block.
fn describe_single(
    ty: ColumnType,
    payload: &Vec<u8>,
    file_len: usize,
    offset: u64,
    encoding: BlockEncoding,
) -> (s: ColumnBlocksSidecar)
    ensures
        single_block(s, ty, payload@, file_len as nat, offset, encoding),
{
    let rows: usize = payload_rows(payload);
    let mut blocks: Vec<ColumnBlockMeta> = Vec::new();
    blocks.push(
        ColumnBlockMeta {
            block_id: 0,
            row_start: 0,
            row_count: rows,
            compressed_offset: offset,
            compressed_len: if file_len < HEAD_BYTES {
                0
            } else {
                (file_len - HEAD_BYTES) as u64
            },
            decompressed_len: payload.len() as u64,
            encoding,
        },
    );
    ColumnBlocksSidecar {
        schema_version: BLOCKS_SCHEMA_VERSION,
        column_type: ty,
        row_count: rows,
        block_rows: if rows == 0 {
            1
        } else {
            rows
        },
        blocks,
    }
}

/// Reads a column block by block.
pub struct ColumnBlockReader {
    file: Vec<u8>,
    sidecar: ColumnBlocksSidecar,
    fallback_payload: Option<Vec<u8>>,
}

impl ColumnBlockReader {
    /// The bytes of the file.
    pub closed spec fn data(&self) -> Seq<u8> {
        self.file@
    }

    /// The description of the blocks.
    pub closed spec fn description(&self) -> ColumnBlocksSidecar {
        self.sidecar
    }

    /// The payload, where the file has no blocks.
    pub closed spec fn whole(&self) -> Option<Seq<u8>> {
        match self.fallback_payload {
            Some(p) => Some(p@),
            None => None,
        }
    }

    /// Opens a column's file with the description of its blocks. Without one the payload
    /// is a single block.
    pub fn open(file: Vec<u8>, sidecar: Option<ColumnBlocksSidecar>) -> (r: Result<Self, Error>)
        ensures
            match (r, sidecar) {
                (Ok(x), Some(s)) => sidecar_fault(s) is None && x.description() == s && x.data()
                    == file@ && x.whole() is None,
                (Err(e), Some(s)) => sidecar_fault(s) == Some(e@),
                (Ok(x), None) => match file_outcome(file@) {
                    Ok((ty, payload)) => x.data() == file@ && x.whole() == Some(payload)
                        && single_block(
                        x.description(),
                        ty,
                        payload,
                        file@.len(),
                        0,
                        BlockEncoding::Raw,
                    ),
                    Err(_) => false,
                },
                (Err(e), None) => fails(file_outcome(file@), e@),
            },
    {
        if let Some(s) = sidecar {
            return match s.validate() {
                Err(e) => Err(e),
                Ok(_) => Ok(ColumnBlockReader { file, sidecar: s, fallback_payload: None }),
            };
        }
        match decode_column_payload_from_bytes(file.as_slice()) {
            Err(e) => Err(e),
            Ok((ty, payload)) => {
                let s = describe_single(ty, &payload, file.len(), 0, BlockEncoding::Raw);
                Ok(ColumnBlockReader { file, sidecar: s, fallback_payload: Some(payload) })
            },
        }
    }

    /// The type of the column.
    pub fn column_type(&self) -> (t: ColumnType)
        ensures
            t == self.description().column_type,
    {
        self.sidecar.column_type
    }

    /// The number of rows.
    pub fn row_count(&self) -> (n: usize)
        ensures
            n == self.description().row_count,
    {
        self.sidecar.row_count
    }

    /// The number of rows of a block.
    pub fn block_rows(&self) -> (n: usize)
        ensures
            n == self.description().block_rows,
    {
        self.sidecar.block_rows
    }

    /// The blocks.
    pub fn blocks(&self) -> (b: &Vec<ColumnBlockMeta>)
        ensures
            b@ == self.description().blocks@,
    {
        &self.sidecar.blocks
    }

    /// The blocks, one after another.
    pub fn iter_blocks(&self) -> (v: Vec<&ColumnBlockMeta>)
        ensures
            v@.len() == self.description().blocks@.len(),
            forall|i: int| 0 <= i < v@.len() ==> *(#[trigger] v@[i]) == self.description().blocks@[i],
    {
        let mut v: Vec<&ColumnBlockMeta> = Vec::new();
        let mut i: usize = 0;
        while i < self.sidecar.blocks.len()
            invariant
                i <= self.sidecar.blocks@.len(),
                v@.len() == i,
                forall|k: int| 0 <= k < i ==> *(#[trigger] v@[k]) == self.sidecar.blocks@[k],
            decreases self.sidecar.blocks@.len() - i,
        {
            v.push(&self.sidecar.blocks[i]);
            i = i + 1;
        }
        v
    }

    /// Reads a block.
    pub fn read_block(&self, block_id: usize) -> (r: Result<ColumnBlock, Error>)
        ensures
            match r {
                Ok(b) => block_id < self.description().blocks@.len() && b.meta
                    == self.description().blocks@[block_id as int] && yields(
                    block_outcome(self.data(), self.description().blocks@, self.whole(), block_id),
                    b.bytes@,
                ),
                Err(e) => fails(
                    block_outcome(self.data(), self.description().blocks@, self.whole(), block_id),
                    e@,
                ),
            },
    {
        if block_id >= self.sidecar.blocks.len() {
            let mut m = String::from_str("block_id out of range: ");
            m.append(int_text(block_id as i128).as_str());
            return Err(Error::Msg(m));
        }
        let meta: ColumnBlockMeta = self.sidecar.blocks[block_id];
        if let Some(payload) = &self.fallback_payload {
            if block_id != 0 {
                return Err(Error::msg("v1 fallback exposes only block 0"));
            }
            return Ok(ColumnBlock { meta, bytes: vstd::slice::slice_to_vec(payload.as_slice()) });
        }
        match read_block_bytes(self.file.as_slice(), meta) {
            Ok(bytes) => Ok(ColumnBlock { meta, bytes }),
            Err(e) => Err(e),
        }
    }
}

/// The bytes of a block of a file.
pub open spec fn stored_block(data: Seq<u8>, b: ColumnBlockMeta) -> Result<Seq<u8>, Seq<char>> {
    let from = b.compressed_offset as int;
    let to = b.compressed_offset + b.compressed_len;
    if to > data.len() {
        Err("failed to fill whole buffer"@)
    } else {
        match block_decoded(b.encoding, data.subrange(from, to)) {
            Err(m) => Err(m),
            Ok(bytes) => if b.decompressed_len != 0 && bytes.len() != b.decompressed_len {
                Err(
                    "block "@ + decimal(b.block_id as int)
                        + " decompressed size mismatch: expected "@ + decimal(
                        b.decompressed_len as int,
                    ) + ", got "@ + decimal(bytes.len() as int),
                )
            } else {
                Ok(bytes)
            },
        }
    }
}

/// What reading a block comes to.
pub open spec fn block_outcome(
    data: Seq<u8>,
    blocks: Seq<ColumnBlockMeta>,
    whole: Option<Seq<u8>>,
    block_id: usize,
) -> Result<Seq<u8>, Seq<char>> {
    if block_id >= blocks.len() {
        Err("block_id out of range: "@ + decimal(block_id as int))
    } else {
        match whole {
            Some(payload) => if block_id != 0 {
                Err("v1 fallback exposes only block 0"@)
            } else {
                Ok(payload)
            },
            None => stored_block(data, blocks[block_id as int]),
        }
    }
}

/// The bytes of a block of a file.
fn read_block_bytes(data: &[u8], b: ColumnBlockMeta) -> (r: Result<Vec<u8>, Error>)
    ensures
        match r {
            Ok(v) => yields(stored_block(data@, b), v@),
            Err(e) => fails(stored_block(data@, b), e@),
        },
{
    let total: u64 = data.len() as u64;
    if b.compressed_offset > total || b.compressed_len > total - b.compressed_offset {
        return Err(Error::msg("failed to fill whole buffer"));
    }
    let from: usize = b.compressed_offset as usize;
    let to: usize = from + b.compressed_len as usize;
    let bytes = match b.encoding.decode(&data[from..to]) {
        Ok(v) => v,
        Err(e) => {
            return Err(e);
        },
    };
    if b.decompressed_len != 0 && bytes.len() as u64 != b.decompressed_len {
        let mut m = String::from_str("block ");
        m.append(int_text(b.block_id as i128).as_str());
        m.append(" decompressed size mismatch: expected ");
        m.append(int_text(b.decompressed_len as i128).as_str());
        m.append(", got ");
        m.append(int_text(bytes.len() as i128).as_str());
        return Err(Error::Msg(m));
    }
    Ok(bytes)
}

/// The encoding with a tag.
pub open spec fn tagged_encoding(tag: u8) -> Option<BlockEncoding> {
    if tag == 0 {
        Some(BlockEncoding::Raw)
    } else if tag == 1 {
        Some(BlockEncoding::Lz4)
    } else {
        None
    }
}

/// Why a file cannot be described as a single block, if it cannot.
pub open spec fn single_fault(data: Seq<u8>) -> Option<Seq<char>> {
    if data.len() < HEAD_BYTES {
        Some("failed to fill whole buffer"@)
    } else if data.take(4) != magic() {
        Some("invalid column file magic"@)
    } else if data[4] != 1 {
        Some("unsupported column format"@)
    } else if tagged_type(data[5]) is None {
        Some("unknown column type tag "@ + decimal(data[5] as int))
    } else if tagged_encoding(data[6]) is None {
        Some("unknown column encoding tag "@ + decimal(data[6] as int))
    } else {
        match file_outcome(data) {
            Err(m) => Some(m),
            Ok(_) => None,
        }
    }
}

/// Describes a column's file as a single block.
pub fn encode_v1_single_block(data: &[u8]) -> (r: Result<ColumnBlocksSidecar, Error>)
    ensures
        match r {
            Ok(s) => single_fault(data@) is None && single_block(
                s,
                tagged_type(data@[5])->Some_0,
                file_outcome(data@)->Ok_0.1,
                data@.len(),
                7,
                tagged_encoding(data@[6])->Some_0,
            ),
            Err(e) => single_fault(data@) == Some(e@),
        },
{
    if data.len() < HEAD_BYTES {
        return Err(Error::msg("failed to fill whole buffer"));
    }
    proof {
        assert(data@.take(4) =~= seq![data@[0], data@[1], data@[2], data@[3]]);
        assert(magic()[0] == 67 && magic()[1] == 82 && magic()[2] == 85 && magic()[3] == 78);
        if data@.take(4) == magic() {
            assert(data@.take(4)[0] == data@[0]);
            assert(data@.take(4)[1] == data@[1]);
            assert(data@.take(4)[2] == data@[2]);
            assert(data@.take(4)[3] == data@[3]);
        }
    }
    if !(data[0] == 67 && data[1] == 82 && data[2] == 85 && data[3] == 78) {
        return Err(Error::msg("invalid column file magic"));
    }
    if data[4] != 1 {
        return Err(Error::msg("unsupported column format"));
    }
    let ty = match parse_col_type(data[5]) {
        Ok(t) => t,
        Err(e) => {
            return Err(e);
        },
    };
    let encoding = if data[6] == 0 {
        BlockEncoding::Raw
    } else if data[6] == 1 {
        BlockEncoding::Lz4
    } else {
        let mut m = String::from_str("unknown column encoding tag ");
        m.append(int_text(data[6] as i128).as_str());
        return Err(Error::Msg(m));
    };
    match decode_column_payload_from_bytes(data) {
        Err(e) => Err(e),
        Ok((_, payload)) => Ok(describe_single(ty, &payload, data.len(), 7, encoding)),
    }
}

/// Reading the one block of a file that is described as a single block gives the payload
/// of the file.
pub proof fn law_single_block_reads(data: Seq<u8>, s: ColumnBlocksSidecar)
    requires
        single_fault(data) is None,
        data.len() <= u64::MAX,
        file_outcome(data)->Ok_0.1.len() <= u64::MAX,
        single_block(
            s,
            tagged_type(data[5])->Some_0,
            file_outcome(data)->Ok_0.1,
            data.len(),
            7,
            tagged_encoding(data[6])->Some_0,
        ),
    ensures
        yields(block_outcome(data, s.blocks@, None, 0), file_outcome(data)->Ok_0.1),
{
    assert(data.subrange(7, data.len() as int) =~= data.skip(7));
}

/// A description of a file with rows as a single block has no fault.
pub proof fn law_single_block_valid(
    s: ColumnBlocksSidecar,
    ty: ColumnType,
    payload: Seq<u8>,
    file_len: nat,
    encoding: BlockEncoding,
)
    requires
        single_block(s, ty, payload, file_len, 7, encoding),
        rows_of_payload(payload) > 0,
        HEAD_BYTES < file_len <= u64::MAX,
    ensures
        sidecar_fault(s) is None,
{
    reveal_with_fuel(blocks_fault, 2);
    reveal_with_fuel(rows_before, 2);
    assert(s.blocks@.len() == 1);
}

} // verus!
