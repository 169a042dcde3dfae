//! Block-level write trace: a binary record of every block write, trim and zero,
//! for offline analysis.
//!
//! Layout, little-endian. The header has 64 bytes: the magic "GLIDETRC", version
//! u32, block size u32, device blocks u64, start time in microseconds u64, export
//! name in 32 bytes, padded with zeros. Each entry has 16 bytes: block index u32,
//! operation u16, span in blocks u16, microseconds since the start u64.

use vstd::bytes::{
    lemma_auto_spec_u16_to_from_le_bytes, lemma_auto_spec_u32_to_from_le_bytes,
    lemma_auto_spec_u64_to_from_le_bytes, spec_u16_from_le_bytes, spec_u16_to_le_bytes,
    spec_u32_from_le_bytes, spec_u32_to_le_bytes, spec_u64_from_le_bytes, spec_u64_to_le_bytes,
    u16_from_le_bytes, u16_to_le_bytes, u32_from_le_bytes, u32_to_le_bytes, u64_from_le_bytes,
    u64_to_le_bytes,
};
use vstd::prelude::*;
use vstd::slice::slice_subrange;
use vstd::utf8::{
    char_u32_cast, decode_utf8, encode_scalar, encode_utf8, encode_utf8_decode_utf8, encode_utf8_valid_utf8,
    has_width_1_encoding, last_continuation_byte, leading_byte_width_1, leading_byte_width_2,
    leading_byte_width_3, leading_byte_width_4, second_last_continuation_byte,
    third_last_continuation_byte, valid_utf8,
};

verus! {

/// Version that is written and read.
pub const VERSION: u32 = 1;

/// Length of the header.
pub const HEADER_LEN: usize = 64;

/// Length of an entry.
pub const ENTRY_LEN: usize = 16;

/// Length of the name field.
pub const NAME_LEN: usize = 32;

/// Operation types recorded in trace entries.
#[derive(Clone, Copy, Debug, PartialEq, Eq, Structural)]
pub enum TraceOp {
    Write,
    Trim,
    WriteZeroes,
}

impl TraceOp {
    /// The number that stands for the operation.
    pub open spec fn spec_code(self) -> u16 {
        match self {
            TraceOp::Write => 0,
            TraceOp::Trim => 1,
            TraceOp::WriteZeroes => 2,
        }
    }

    /// The number that stands for the operation.
    pub fn code(self) -> (code: u16)
        ensures
            code == self.spec_code(),
    {
        match self {
            TraceOp::Write => 0,
            TraceOp::Trim => 1,
            TraceOp::WriteZeroes => 2,
        }
    }
}

/// Parsed trace header.
#[derive(Debug)]
pub struct TraceHeader {
    pub version: u32,
    pub block_size: u32,
    pub device_blocks: u64,
    pub start_time_us: u64,
    pub export_name: String,
}

/// Parsed trace entry.
#[derive(Debug, Clone, Copy, PartialEq, Eq, Structural)]
pub struct TraceEntry {
    pub block_index: u32,
    pub op: u16,
    pub span: u16,
    pub elapsed_us: u64,
}

/// The bytes "GLIDETRC".
pub open spec fn trace_magic() -> Seq<u8> {
    seq![0x47u8, 0x4c, 0x49, 0x44, 0x45, 0x54, 0x52, 0x43]
}

/// The name field: as much of the name as fits, padded with zeros.
pub open spec fn name_field(name: Seq<u8>) -> Seq<u8> {
    Seq::new(
        NAME_LEN as nat,
        |i: int|
            if i < name.len() {
                name[i]
            } else {
                0u8
            },
    )
}

/// The header of a trace.
pub open spec fn header_bytes(
    block_size: u32,
    device_blocks: u64,
    start_time_us: u64,
    export_name: Seq<char>,
) -> Seq<u8> {
    trace_magic() + spec_u32_to_le_bytes(VERSION) + spec_u32_to_le_bytes(block_size)
        + spec_u64_to_le_bytes(device_blocks) + spec_u64_to_le_bytes(start_time_us) + name_field(
        encode_utf8(export_name),
    )
}

/// An entry as bytes.
pub open spec fn entry_bytes(e: TraceEntry) -> Seq<u8> {
    spec_u32_to_le_bytes(e.block_index) + spec_u16_to_le_bytes(e.op) + spec_u16_to_le_bytes(e.span)
        + spec_u64_to_le_bytes(e.elapsed_us)
}

/// A trace: header and entries.
pub open spec fn trace_bytes(header: Seq<u8>, entries: Seq<TraceEntry>) -> Seq<u8>
    decreases entries.len(),
{
    if entries.len() == 0 {
        header
    } else {
        trace_bytes(header, entries.drop_last()) + entry_bytes(entries.last())
    }
}

/// The first block that an operation touches.
pub open spec fn start_block(block_size: u32, offset: u64) -> int {
    offset as int / block_size as int
}

/// The block after the last one that an operation touches.
pub open spec fn end_block(block_size: u32, offset: u64, length: u64) -> int {
    (offset + length + block_size - 1) / block_size as int
}

/// A block number cut to the 32 bits that an entry has for it.
pub open spec fn cut32(block: int) -> int {
    block % 0x1_0000_0000
}

/// The entry that an operation is recorded as.
pub open spec fn recorded(
    block_size: u32,
    offset: u64,
    length: u64,
    op: TraceOp,
    elapsed_us: u64,
) -> TraceEntry {
    TraceEntry {
        block_index: cut32(start_block(block_size, offset)) as u32,
        op: op.spec_code(),
        span: ((cut32(end_block(block_size, offset, length)) - cut32(
            start_block(block_size, offset),
        )) % 0x1_0000) as u16,
        elapsed_us,
    }
}

/// Records block-level I/O to a binary trace.
#[derive(Debug)]
pub struct WriteTracer {
    pub block_size: u32,
}

impl WriteTracer {
    /// Create a new tracer, with the header that its trace starts with.
    pub fn new(
        block_size: u32,
        device_blocks: u64,
        export_name: &str,
        start_time_us: u64,
    ) -> (made: (WriteTracer, Vec<u8>))
        ensures
            made.0.block_size == block_size,
            made.1@ == header_bytes(block_size, device_blocks, start_time_us, export_name@),
    {
        let mut header: Vec<u8> = vec![0x47u8, 0x4c, 0x49, 0x44, 0x45, 0x54, 0x52, 0x43];
        assert(header@ =~= trace_magic());
        let mut field: Vec<u8> = u32_to_le_bytes(VERSION);
        header.append(&mut field);
        let mut field: Vec<u8> = u32_to_le_bytes(block_size);
        header.append(&mut field);
        let mut field: Vec<u8> = u64_to_le_bytes(device_blocks);
        header.append(&mut field);
        let mut field: Vec<u8> = u64_to_le_bytes(start_time_us);
        header.append(&mut field);
        let name: &[u8] = export_name.as_bytes();
        let ghost before = header@;
        let mut i: usize = 0;
        while i < NAME_LEN
            invariant
                i <= NAME_LEN,
                name@ == encode_utf8(export_name@),
                header@ == before + name_field(name@).take(i as int),
            decreases NAME_LEN - i,
        {
            let b: u8 = if i < name.len() {
                name[i]
            } else {
                0
            };
            header.push(b);
            proof {
                let field = name_field(name@);
                assert(field.take(i + 1) =~= field.take(i as int).push(field[i as int]));
                assert(header@ =~= before + field.take(i + 1));
            }
            i = i + 1;
        }
        assert(name_field(name@).take(NAME_LEN as int) =~= name_field(name@));
        (WriteTracer { block_size }, header)
    }

    /// The entry for a block I/O operation.
    ///
    /// `offset` is byte offset, `length` is byte length. Multi-block writes
    /// produce one entry with span > 1.
    pub fn record(&self, offset: u64, length: u64, op: TraceOp, elapsed_us: u64) -> (entry: Vec<u8>)
        requires
            self.block_size > 0,
            offset + length <= u64::MAX,
            cut32(start_block(self.block_size, offset)) <= cut32(
                end_block(self.block_size, offset, length),
            ),
        ensures
            entry@ == entry_bytes(recorded(self.block_size, offset, length, op, elapsed_us)),
    {
        let size: u64 = self.block_size as u64;
        let end: u64 = offset + length;
        let full: u64 = end / size;
        let end_block_number: u64 = if end % size == 0 {
            full
        } else {
            proof {
                vstd::arithmetic::div_mod::lemma_fundamental_div_mod(end as int, size as int);
                assert(full < u64::MAX) by (nonlinear_arith)
                    requires
                        end == size * full + end % size,
                        end % size > 0,
                        size > 0,
                        end <= u64::MAX,
                ;
            }
            full + 1
        };
        proof {
            lemma_ceil(end as int, size as int);
        }
        let block_start: u32 = (offset / size % 0x1_0000_0000) as u32;
        let block_end: u32 = (end_block_number % 0x1_0000_0000) as u32;
        let span: u16 = ((block_end - block_start) % 0x1_0000) as u16;
        let mut entry: Vec<u8> = u32_to_le_bytes(block_start);
        let mut field: Vec<u8> = u16_to_le_bytes(op.code());
        entry.append(&mut field);
        let mut field: Vec<u8> = u16_to_le_bytes(span);
        entry.append(&mut field);
        let mut field: Vec<u8> = u64_to_le_bytes(elapsed_us);
        entry.append(&mut field);
        entry
    }
}

proof fn lemma_ceil(n: int, size: int)
    requires
        n >= 0,
        size > 0,
    ensures
        (n + size - 1) / size == if n % size == 0 {
            n / size
        } else {
            n / size + 1
        },
{
    let q = n / size;
    let r = n % size;
    vstd::arithmetic::div_mod::lemma_fundamental_div_mod(n, size);
    if r == 0 {
        vstd::arithmetic::div_mod::lemma_fundamental_div_mod_converse(n + size - 1, size, q, size - 1);
    } else {
        assert(size * (q + 1) == size * q + size) by (nonlinear_arith);
        vstd::arithmetic::div_mod::lemma_fundamental_div_mod_converse(n + size - 1, size, q + 1, r - 1);
    }
}

/// What `String::from_utf8_lossy` makes of bytes.
pub uninterp spec fn utf8_lossy(bytes: Seq<u8>) -> Seq<char>;

/// `String::from_utf8_lossy`: the text that the bytes encode. What is no valid
/// UTF-8 is replaced; what it is replaced by is not stated.
#[verifier::external_body]
fn lossy_string(bytes: &[u8]) -> (text: String)
    ensures
        text@ == utf8_lossy(bytes@),
        valid_utf8(bytes@) ==> text@ == decode_utf8(bytes@),
{
    String::from_utf8_lossy(bytes).into_owned()
}

/// How many bytes precede the first zero of `s`.
pub open spec fn before_zero(s: Seq<u8>) -> nat
    decreases s.len(),
{
    if s.len() == 0 || s[0] == 0 {
        0
    } else {
        1 + before_zero(s.skip(1))
    }
}

/// Whether `data` starts with the header of a trace that can be read.
pub open spec fn readable(data: Seq<u8>) -> bool {
    data.len() >= HEADER_LEN && data.subrange(0, 8) == trace_magic() && spec_u32_from_le_bytes(
        data.subrange(8, 12),
    ) == VERSION
}

/// The bytes of the export name in a header.
pub open spec fn name_bytes(data: Seq<u8>) -> Seq<u8> {
    let field = data.subrange(32, 64);
    field.take(before_zero(field) as int)
}

/// Whether `header` is what the header of `data` says.
pub open spec fn header_says(data: Seq<u8>, header: TraceHeader) -> bool {
    &&& header.version == VERSION
    &&& header.block_size == spec_u32_from_le_bytes(data.subrange(12, 16))
    &&& header.device_blocks == spec_u64_from_le_bytes(data.subrange(16, 24))
    &&& header.start_time_us == spec_u64_from_le_bytes(data.subrange(24, 32))
    &&& header.export_name@ == utf8_lossy(name_bytes(data))
    &&& valid_utf8(name_bytes(data)) ==> header.export_name@ == decode_utf8(name_bytes(data))
}

fn has_magic(data: &[u8]) -> (ok: bool)
    requires
        data@.len() >= 8,
    ensures
        ok == (data@.subrange(0, 8) == trace_magic()),
{
    let ok: bool = data[0] == 0x47 && data[1] == 0x4c && data[2] == 0x49 && data[3] == 0x44
        && data[4] == 0x45 && data[5] == 0x54 && data[6] == 0x52 && data[7] == 0x43;
    proof {
        let head = data@.subrange(0, 8);
        let magic = trace_magic();
        if ok {
            assert(head =~= magic);
        } else {
            assert(head[0] == data@[0] && head[1] == data@[1] && head[2] == data@[2] && head[3]
                == data@[3] && head[4] == data@[4] && head[5] == data@[5] && head[6] == data@[6]
                && head[7] == data@[7]);
        }
    }
    ok
}

/// Read a trace header.
pub fn read_header(data: &[u8]) -> (header: Option<TraceHeader>)
    ensures
        match header {
            Some(header) => readable(data@) && header_says(data@, header),
            None => !readable(data@),
        },
{
    if data.len() < HEADER_LEN {
        return None;
    }
    if !has_magic(data) {
        return None;
    }
    let version: u32 = u32_from_le_bytes(slice_subrange(data, 8, 12));
    if version != VERSION {
        return None;
    }
    let block_size: u32 = u32_from_le_bytes(slice_subrange(data, 12, 16));
    let device_blocks: u64 = u64_from_le_bytes(slice_subrange(data, 16, 24));
    let start_time_us: u64 = u64_from_le_bytes(slice_subrange(data, 24, 32));
    let field: &[u8] = slice_subrange(data, 32, 64);
    let mut end: usize = 0;
    assert(field@.skip(0) =~= field@);
    while end < NAME_LEN && field[end] != 0
        invariant
            end <= NAME_LEN,
            field@.len() == NAME_LEN,
            before_zero(field@) == end + before_zero(field@.skip(end as int)),
        decreases NAME_LEN - end,
    {
        assert(field@.skip(end as int).skip(1) =~= field@.skip(end + 1));
        end = end + 1;
    }
    let export_name: String = lossy_string(slice_subrange(field, 0, end));
    assert(field@.subrange(0, end as int) =~= field@.take(end as int));
    Some(TraceHeader { version, block_size, device_blocks, start_time_us, export_name })
}

/// How many whole entries follow the header.
pub open spec fn entry_count(data: Seq<u8>) -> nat {
    if data.len() > HEADER_LEN {
        ((data.len() - HEADER_LEN) / ENTRY_LEN as int) as nat
    } else {
        0
    }
}

/// Entry `i` of a trace.
pub open spec fn entry_at(data: Seq<u8>, i: int) -> TraceEntry {
    let at = HEADER_LEN + ENTRY_LEN * i;
    TraceEntry {
        block_index: spec_u32_from_le_bytes(data.subrange(at, at + 4)),
        op: spec_u16_from_le_bytes(data.subrange(at + 4, at + 6)),
        span: spec_u16_from_le_bytes(data.subrange(at + 6, at + 8)),
        elapsed_us: spec_u64_from_le_bytes(data.subrange(at + 8, at + 16)),
    }
}

/// The entries of a trace. What is left over behind the last whole entry is
/// ignored.
pub open spec fn entries_of(data: Seq<u8>) -> Seq<TraceEntry> {
    Seq::new(entry_count(data), |i: int| entry_at(data, i))
}

/// The trace entries of a loaded file. `data` is the full file contents.
pub fn iter_entries(data: &[u8]) -> (entries: Vec<TraceEntry>)
    ensures
        entries@ == entries_of(data@),
{
    let mut entries: Vec<TraceEntry> = Vec::new();
    if data.len() <= HEADER_LEN {
        assert(entries@ =~= entries_of(data@));
        return entries;
    }
    let count: usize = (data.len() - HEADER_LEN) / ENTRY_LEN;
    let mut i: usize = 0;
    while i < count
        invariant
            i <= count,
            count == entry_count(data@),
            HEADER_LEN + ENTRY_LEN * count <= data@.len(),
            entries@ == entries_of(data@).take(i as int),
        decreases count - i,
    {
        let _len: usize = data.len();
        let at: usize = HEADER_LEN + ENTRY_LEN * i;
        entries.push(
            TraceEntry {
                block_index: u32_from_le_bytes(slice_subrange(data, at, at + 4)),
                op: u16_from_le_bytes(slice_subrange(data, at + 4, at + 6)),
                span: u16_from_le_bytes(slice_subrange(data, at + 6, at + 8)),
                elapsed_us: u64_from_le_bytes(slice_subrange(data, at + 8, at + 16)),
            },
        );
        proof {
            let all = entries_of(data@);
            assert(all.take(i + 1) =~= all.take(i as int).push(all[i as int]));
            assert(entries@ =~= all.take(i + 1));
        }
        i = i + 1;
    }
    assert(entries_of(data@).take(count as int) =~= entries_of(data@));
    entries
}

proof fn lemma_trace_len(header: Seq<u8>, entries: Seq<TraceEntry>)
    requires
        header.len() == HEADER_LEN,
    ensures
        trace_bytes(header, entries).len() == HEADER_LEN + ENTRY_LEN * entries.len(),
        trace_bytes(header, entries).take(HEADER_LEN as int) == header,
    decreases entries.len(),
{
    lemma_auto_spec_u16_to_from_le_bytes();
    lemma_auto_spec_u32_to_from_le_bytes();
    lemma_auto_spec_u64_to_from_le_bytes();
    if entries.len() > 0 {
        lemma_trace_len(header, entries.drop_last());
        assert(entry_bytes(entries.last()).len() == ENTRY_LEN);
        assert(trace_bytes(header, entries).take(HEADER_LEN as int) =~= trace_bytes(
            header,
            entries.drop_last(),
        ).take(HEADER_LEN as int));
    } else {
        assert(header.take(HEADER_LEN as int) =~= header);
    }
}

/// The entries read from a trace are those that were written, in their order,
/// also when the last write was cut short.
pub proof fn law_entries_round_trip(
    header: Seq<u8>,
    entries: Seq<TraceEntry>,
    rest: Seq<u8>,
)
    requires
        header.len() == HEADER_LEN,
        rest.len() < ENTRY_LEN,
    ensures
        entries_of(trace_bytes(header, entries) + rest) == entries,
{
    let data = trace_bytes(header, entries) + rest;
    lemma_trace_len(header, entries);
    assert forall|i: int| 0 <= i < entries.len() implies entry_at(data, i) == entries[i] by {
        lemma_entry_round_trip(header, entries, rest, i);
    }
    assert(entry_count(data) == entries.len());
    assert(entries_of(data) =~= entries);
}

proof fn lemma_entry_round_trip(
    header: Seq<u8>,
    entries: Seq<TraceEntry>,
    rest: Seq<u8>,
    i: int,
)
    requires
        header.len() == HEADER_LEN,
        0 <= i < entries.len(),
    ensures
        entry_at(trace_bytes(header, entries) + rest, i) == entries[i],
    decreases entries.len(),
{
    let before = trace_bytes(header, entries.drop_last());
    let last = entry_bytes(entries.last());
    lemma_trace_len(header, entries.drop_last());
    lemma_auto_spec_u16_to_from_le_bytes();
    lemma_auto_spec_u32_to_from_le_bytes();
    lemma_auto_spec_u64_to_from_le_bytes();
    assert((before + last) + rest =~= before + (last + rest));
    if i < entries.len() - 1 {
        lemma_entry_round_trip(header, entries.drop_last(), last + rest, i);
    } else {
        let e = entries.last();
        let at = before.len() as int;
        let data = trace_bytes(header, entries) + rest;
        assert(at == HEADER_LEN + ENTRY_LEN * i);
        assert(data.subrange(at, at + 4) =~= spec_u32_to_le_bytes(e.block_index));
        assert(data.subrange(at + 4, at + 6) =~= spec_u16_to_le_bytes(e.op));
        assert(data.subrange(at + 6, at + 8) =~= spec_u16_to_le_bytes(e.span));
        assert(data.subrange(at + 8, at + 16) =~= spec_u64_to_le_bytes(e.elapsed_us));
    }
}

proof fn lemma_scalar_nonzero(v: u32)
    requires
        v != 0,
    ensures
        forall|i: int| 0 <= i < encode_scalar(v).len() ==> #[trigger] encode_scalar(v)[i] != 0,
{
    assert(has_width_1_encoding(v) && v != 0 ==> leading_byte_width_1(v) != 0) by (bit_vector);
    assert(leading_byte_width_2(v) != 0 && leading_byte_width_3(v) != 0 && leading_byte_width_4(v)
        != 0 && last_continuation_byte(v) != 0 && second_last_continuation_byte(v) != 0
        && third_last_continuation_byte(v) != 0) by (bit_vector);
}

proof fn lemma_utf8_nonzero(name: Seq<char>)
    requires
        forall|i: int| 0 <= i < name.len() ==> #[trigger] name[i] != '\0',
    ensures
        forall|i: int| 0 <= i < encode_utf8(name).len() ==> #[trigger] encode_utf8(name)[i] != 0,
    decreases name.len(),
{
    if name.len() > 0 {
        let rest = name.drop_first();
        assert forall|i: int| 0 <= i < rest.len() implies #[trigger] rest[i] != '\0' by {
            assert(rest[i] == name[i + 1]);
        }
        lemma_utf8_nonzero(rest);
        let c = name[0];
        char_u32_cast(c, c as u32);
        assert(c as u32 != 0);
        lemma_scalar_nonzero(c as u32);
        let head = encode_scalar(c as u32);
        assert forall|i: int| 0 <= i < encode_utf8(name).len() implies #[trigger] encode_utf8(
            name,
        )[i] != 0 by {
            if i < head.len() {
                assert(encode_utf8(name)[i] == head[i]);
            } else {
                assert(encode_utf8(name)[i] == encode_utf8(rest)[i - head.len()]);
            }
        }
    }
}

proof fn lemma_before_zero(s: Seq<u8>, n: int)
    requires
        0 <= n <= s.len(),
        forall|i: int| 0 <= i < n ==> #[trigger] s[i] != 0,
        n < s.len() ==> s[n] == 0,
    ensures
        before_zero(s) == n,
    decreases n,
{
    if n > 0 {
        assert(s[0] != 0);
        let t = s.skip(1);
        assert forall|i: int| 0 <= i < n - 1 implies #[trigger] t[i] != 0 by {
            assert(t[i] == s[i + 1]);
        }
        lemma_before_zero(t, n - 1);
    }
}

/// A header reads back as it was written, whatever follows it. Of a name without
/// zero characters that is longer than its field, the first 32 bytes come back; a
/// shorter one comes back whole.
pub proof fn law_header_round_trip(
    block_size: u32,
    device_blocks: u64,
    start_time_us: u64,
    name: Seq<char>,
    rest: Seq<u8>,
    header: TraceHeader,
)
    requires
        forall|i: int| 0 <= i < name.len() ==> #[trigger] name[i] != '\0',
        header_says(header_bytes(block_size, device_blocks, start_time_us, name) + rest, header),
    ensures
        readable(header_bytes(block_size, device_blocks, start_time_us, name) + rest),
        header_bytes(block_size, device_blocks, start_time_us, name).len() == HEADER_LEN,
        header.block_size == block_size,
        header.device_blocks == device_blocks,
        header.start_time_us == start_time_us,
        encode_utf8(name).len() <= NAME_LEN ==> header.export_name@ == name,
        encode_utf8(name).len() > NAME_LEN ==> header.export_name@ == utf8_lossy(
            encode_utf8(name).take(NAME_LEN as int),
        ),
{
    let data = header_bytes(block_size, device_blocks, start_time_us, name) + rest;
    let bytes = encode_utf8(name);
    lemma_auto_spec_u32_to_from_le_bytes();
    lemma_auto_spec_u64_to_from_le_bytes();
    assert(data.subrange(0, 8) =~= trace_magic());
    assert(data.subrange(8, 12) =~= spec_u32_to_le_bytes(VERSION));
    assert(data.subrange(12, 16) =~= spec_u32_to_le_bytes(block_size));
    assert(data.subrange(16, 24) =~= spec_u64_to_le_bytes(device_blocks));
    assert(data.subrange(24, 32) =~= spec_u64_to_le_bytes(start_time_us));
    assert(data.subrange(32, 64) =~= name_field(bytes));
    lemma_utf8_nonzero(name);
    let field = name_field(bytes);
    let n = if bytes.len() <= NAME_LEN {
        bytes.len() as int
    } else {
        NAME_LEN as int
    };
    lemma_before_zero(field, n);
    assert(field.take(n) =~= bytes.take(n));
    if bytes.len() <= NAME_LEN {
        assert(bytes.take(n) =~= bytes);
        encode_utf8_valid_utf8(name);
        encode_utf8_decode_utf8(name);
    }
}

/// An operation that stays inside one block is recorded with a span of one, and
/// one that covers whole blocks with as many as it covers.
pub proof fn law_span_counts_blocks(
    block_size: u32,
    first: int,
    count: int,
    offset: u64,
    length: u64,
    op: TraceOp,
    elapsed_us: u64,
)
    requires
        block_size > 0,
        first >= 0,
        0 < count < 0x1_0000,
        first + count < 0x1_0000_0000,
        first * block_size <= offset < (first + 1) * block_size,
        (first + count - 1) * block_size < offset + length <= (first + count) * block_size,
    ensures
        recorded(block_size, offset, length, op, elapsed_us) == (TraceEntry {
            block_index: first as u32,
            op: op.spec_code(),
            span: count as u16,
            elapsed_us,
        }),
{
    let size = block_size as int;
    let over = offset + length + size - 1 - (first + count) * size;
    assert((first + 1) * size == first * size + size) by (nonlinear_arith);
    assert((first + count - 1) * size == (first + count) * size - size) by (nonlinear_arith);
    vstd::arithmetic::div_mod::lemma_fundamental_div_mod_converse(
        offset as int,
        size,
        first,
        offset - first * size,
    );
    vstd::arithmetic::div_mod::lemma_fundamental_div_mod_converse(
        offset + length + size - 1,
        size,
        first + count,
        over,
    );
}

/// How an operation is recorded: its first block in bytes 0 to 3, 0 for a write, 1 for a trim and 2
/// for zeros in bytes 4 and 5, how many blocks it touches in bytes 6 and 7, and the time in bytes 8
/// to 15.
pub proof fn law_entry_layout(
    tracer: WriteTracer,
    offset: u64,
    length: u64,
    op: TraceOp,
    elapsed_us: u64,
    entry: Vec<u8>,
)
    requires
        call_ensures(WriteTracer::record, (&tracer, offset, length, op, elapsed_us), entry),
        tracer.block_size > 0,
        offset + length <= tracer.block_size * 0xFFFF_FFFF,
        length <= tracer.block_size * 0xFFF0,
    ensures
        ({
            let e = entry@;
            let bs = tracer.block_size;
            let first = spec_u32_from_le_bytes(e.subrange(0, 4));
            let code = spec_u16_from_le_bytes(e.subrange(4, 6));
            let span = spec_u16_from_le_bytes(e.subrange(6, 8));
            &&& e.len() == 16
            &&& first * bs <= offset < first * bs + bs
            &&& (first + span - 1) * bs < offset + length <= (first + span) * bs
            &&& op is Write <==> code == 0
            &&& op is Trim <==> code == 1
            &&& op is WriteZeroes <==> code == 2
            &&& spec_u64_from_le_bytes(e.subrange(8, 16)) == elapsed_us
        }),
{
    lemma_auto_spec_u16_to_from_le_bytes();
    lemma_auto_spec_u32_to_from_le_bytes();
    lemma_auto_spec_u64_to_from_le_bytes();
    let r = recorded(tracer.block_size, offset, length, op, elapsed_us);
    let e = entry@;
    assert(e.subrange(0, 4) =~= spec_u32_to_le_bytes(r.block_index));
    assert(e.subrange(4, 6) =~= spec_u16_to_le_bytes(r.op));
    assert(e.subrange(6, 8) =~= spec_u16_to_le_bytes(r.span));
    assert(e.subrange(8, 16) =~= spec_u64_to_le_bytes(r.elapsed_us));
    let bs = tracer.block_size as int;
    let end = offset + length;
    let first = start_block(tracer.block_size, offset);
    let stop = end_block(tracer.block_size, offset, length);
    lemma_blocks_touched(offset as int, length as int, bs);
    assert(first < 0x1_0000_0000 && stop < 0x1_0000_0000 && stop - first < 0x1_0000)
        by (nonlinear_arith)
        requires
            bs > 0,
            0 <= first * bs <= offset,
            (stop - 1) * bs < end <= stop * bs,
            offset < first * bs + bs,
            end == offset + length,
            end <= bs * 0xFFFF_FFFF,
            length <= bs * 0xFFF0,
            first >= 0,
            first <= stop,
    ;
}

proof fn lemma_blocks_touched(offset: int, length: int, bs: int)
    requires
        offset >= 0,
        length >= 0,
        bs > 0,
    ensures
        ({
            let first = offset / bs;
            let stop = (offset + length + bs - 1) / bs;
            &&& 0 <= first * bs <= offset < first * bs + bs
            &&& (stop - 1) * bs < offset + length <= stop * bs
            &&& 0 <= first <= stop
        }),
{
    let end = offset + length;
    let first = offset / bs;
    let stop = (end + bs - 1) / bs;
    vstd::arithmetic::div_mod::lemma_fundamental_div_mod(offset, bs);
    vstd::arithmetic::div_mod::lemma_mod_bound(offset, bs);
    vstd::arithmetic::div_mod::lemma_fundamental_div_mod(end + bs - 1, bs);
    vstd::arithmetic::div_mod::lemma_mod_bound(end + bs - 1, bs);
    vstd::arithmetic::div_mod::lemma_div_pos_is_pos(offset, bs);
    assert(bs * first == first * bs) by (nonlinear_arith);
    assert(bs * stop == stop * bs) by (nonlinear_arith);
    assert((stop - 1) * bs == stop * bs - bs) by (nonlinear_arith);
    assert(first * bs >= 0) by (nonlinear_arith)
        requires
            first >= 0,
            bs > 0,
    ;
    assert(first <= stop) by (nonlinear_arith)
        requires
            first * bs <= offset,
            offset <= end,
            end <= stop * bs,
            bs > 0,
    ;
}

/// How a trace starts: the magic bytes, version 1, block size, number of blocks and time, each
/// at its place, and up to 32 bytes of the name, filled up with zeros.
pub proof fn law_header_layout(
    block_size: u32,
    device_blocks: u64,
    export_name: &str,
    start_time_us: u64,
    made: (WriteTracer, Vec<u8>),
)
    requires
        call_ensures(
            WriteTracer::new,
            (block_size, device_blocks, export_name, start_time_us),
            made,
        ),
    ensures
        ({
            let h = made.1@;
            let name = encode_utf8(export_name@);
            &&& made.0.block_size == block_size
            &&& h.len() == 64
            &&& h.subrange(0, 8) == seq![0x47u8, 0x4c, 0x49, 0x44, 0x45, 0x54, 0x52, 0x43]
            &&& spec_u32_from_le_bytes(h.subrange(8, 12)) == 1
            &&& spec_u32_from_le_bytes(h.subrange(12, 16)) == block_size
            &&& spec_u64_from_le_bytes(h.subrange(16, 24)) == device_blocks
            &&& spec_u64_from_le_bytes(h.subrange(24, 32)) == start_time_us
            &&& forall|i: int|
                0 <= i < 32 ==> #[trigger] h[32 + i] == if i < name.len() {
                    name[i]
                } else {
                    0
                }
        }),
{
    lemma_auto_spec_u32_to_from_le_bytes();
    lemma_auto_spec_u64_to_from_le_bytes();
    let h = made.1@;
    let name = encode_utf8(export_name@);
    assert(h.subrange(0, 8) =~= trace_magic());
    assert(h.subrange(8, 12) =~= spec_u32_to_le_bytes(VERSION));
    assert(h.subrange(12, 16) =~= spec_u32_to_le_bytes(block_size));
    assert(h.subrange(16, 24) =~= spec_u64_to_le_bytes(device_blocks));
    assert(h.subrange(24, 32) =~= spec_u64_to_le_bytes(start_time_us));
    assert forall|i: int| 0 <= i < 32 implies #[trigger] h[32 + i] == if i < name.len() {
        name[i]
    } else {
        0
    } by {
        assert(h[32 + i] == name_field(name)[i]);
    }
}

/// A header is read exactly if it is whole, starts with the magic bytes and has version 1, and says
/// what stands in it.
pub proof fn law_header_is_read(data: &[u8], header: Option<TraceHeader>)
    requires
        call_ensures(read_header, (data,), header),
    ensures
        header is Some <==> data@.len() >= 64 && data@.subrange(0, 8) == seq![
            0x47u8,
            0x4c,
            0x49,
            0x44,
            0x45,
            0x54,
            0x52,
            0x43,
        ] && spec_u32_from_le_bytes(data@.subrange(8, 12)) == 1,
        header matches Some(h) ==> {
            &&& h.version == 1
            &&& h.block_size == spec_u32_from_le_bytes(data@.subrange(12, 16))
            &&& h.device_blocks == spec_u64_from_le_bytes(data@.subrange(16, 24))
            &&& h.start_time_us == spec_u64_from_le_bytes(data@.subrange(24, 32))
        },
{
}

/// The entries of a trace are the whole ones behind the header, in their order, each read from its
/// own sixteen bytes.
pub proof fn law_entries_are_read(data: &[u8], entries: Vec<TraceEntry>, i: int)
    requires
        call_ensures(iter_entries, (data,), entries),
        0 <= i < entries@.len(),
    ensures
        64 + 16 * entries@.len() <= data@.len() < 64 + 16 * (entries@.len() + 1),
        ({
            let at = 64 + 16 * i;
            let e = entries@[i];
            &&& e.block_index == spec_u32_from_le_bytes(data@.subrange(at, at + 4))
            &&& e.op == spec_u16_from_le_bytes(data@.subrange(at + 4, at + 6))
            &&& e.span == spec_u16_from_le_bytes(data@.subrange(at + 6, at + 8))
            &&& e.elapsed_us == spec_u64_from_le_bytes(data@.subrange(at + 8, at + 16))
        }),
{
}

/// A trace that has room for an entry behind its header has entries.
pub proof fn law_no_entry_is_lost(data: &[u8], entries: Vec<TraceEntry>)
    requires
        call_ensures(iter_entries, (data,), entries),
    ensures
        entries@.len() == 0 <==> data@.len() < 80,
{
}

} // verus!
