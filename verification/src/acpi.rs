//! The walk over the ACPI tables.
//!
//! The tables are read from an image of physical memory. The walk starts at
//! the root pointer, checks its signature, revision and checksum, follows it
//! to the root table, and takes from the tables that the root table lists the
//! fixed description table, with the differentiated table behind it, and the
//! multiple APIC description table, whose entries name the I/O APICs.

use crate::bytes::{le_u32, read_u32};
use vstd::prelude::*;

verus! {

/// The bytes of a table header.
pub const SDT_HEADER_SIZE: usize = 36;

/// The bytes of the root pointer that its checksum covers.
pub const RSDP_CHECKED_SIZE: usize = 20;

/// The bytes of the multiple APIC description table before its entries.
pub const MADT_HEADER_SIZE: usize = 44;

/// The most entries that a root table may list.
pub const RSDT_MAX_ENTRIES: usize = 256;

/// The sum of the bytes from `from` up to `to`.
pub open spec fn byte_sum(bytes: Seq<u8>, from: int, to: int) -> int
    decreases to - from,
{
    if from >= to {
        0
    } else {
        byte_sum(bytes, from, to - 1) + bytes[to - 1] as int
    }
}

/// Whether the four bytes at `offset` are the signature `a b c d`.
pub open spec fn has_signature(bytes: Seq<u8>, offset: int, a: u8, b: u8, c: u8, d: u8) -> bool {
    bytes[offset] == a && bytes[offset + 1] == b && bytes[offset + 2] == c && bytes[offset + 3]
        == d
}

/// Whether the eight bytes at `offset` are `"RSD PTR "`.
pub open spec fn has_rsdp_signature(bytes: Seq<u8>, offset: int) -> bool {
    has_signature(bytes, offset, 0x52, 0x53, 0x44, 0x20) && has_signature(
        bytes,
        offset + 4,
        0x50,
        0x54,
        0x52,
        0x20,
    )
}

/// Whether the four bytes at `offset` are `"FACP"`.
pub open spec fn is_facp(bytes: Seq<u8>, offset: int) -> bool {
    has_signature(bytes, offset, 0x46, 0x41, 0x43, 0x50)
}

/// Whether the four bytes at `offset` are `"APIC"`.
pub open spec fn is_apic(bytes: Seq<u8>, offset: int) -> bool {
    has_signature(bytes, offset, 0x41, 0x50, 0x49, 0x43)
}

/// Whether the four bytes at `offset` are `"DSDT"`.
pub open spec fn is_dsdt(bytes: Seq<u8>, offset: int) -> bool {
    has_signature(bytes, offset, 0x44, 0x53, 0x44, 0x54)
}

/// Why the walk gave up.
#[derive(Debug, Clone, Copy, PartialEq, Eq, Structural)]
pub enum AcpiError {
    /// A table lies outside the memory image, or its length field is too
    /// small or too large for it.
    Unreadable,
    /// The root pointer does not start with `"RSD PTR "`.
    BadRsdpSignature,
    /// The root pointer's revision is not 0.
    UnsupportedRevision,
    /// The first 20 bytes of the root pointer do not sum to 0 modulo 256.
    BadRsdpChecksum,
    /// The table that the fixed description table names does not start with
    /// `"DSDT"`.
    BadDsdtSignature,
}

/// An image of physical memory: the bytes from the address `base` on.
pub struct MemoryImage {
    pub base: usize,
    pub bytes: Vec<u8>,
}

impl MemoryImage {
    /// Whether the `length` bytes at `address` lie in the image.
    pub open spec fn covers(&self, address: int, length: int) -> bool {
        self.base <= address && address + length <= self.base + self.bytes.len()
    }

    /// Where in the image `address` lies, if `length` bytes from it lie in
    /// the image.
    pub fn locate(&self, address: usize, length: usize) -> (r: Option<usize>)
        ensures
            r == (if self.covers(address as int, length as int) {
                Some((address - self.base) as usize)
            } else {
                None
            }),
    {
        if address < self.base {
            return None;
        }
        let offset: usize = address - self.base;
        if offset > self.bytes.len() || length > self.bytes.len() - offset {
            return None;
        }
        Some(offset)
    }

    /// The 32-bit value at `offset` of the image, lowest byte first.
    pub fn read_u32(&self, offset: usize) -> (r: u32)
        requires
            offset + 4 <= self.bytes@.len(),
        ensures
            r == le_u32(self.bytes@, offset as int),
    {
        read_u32(&self.bytes, offset)
    }

    /// Whether the four bytes at `offset` are the signature `a b c d`.
    pub fn signature_is(&self, offset: usize, a: u8, b: u8, c: u8, d: u8) -> (r: bool)
        requires
            offset + 4 <= self.bytes.len(),
        ensures
            r == has_signature(self.bytes@, offset as int, a, b, c, d),
    {
        self.bytes[offset] == a && self.bytes[offset + 1] == b && self.bytes[offset + 2] == c
            && self.bytes[offset + 3] == d
    }
}

/// System description table header.
#[derive(Debug, Clone, Copy)]
pub struct SdtHeader {
    pub signature: [u8; 4],
    pub length: u32,
    pub revision: u8,
    pub checksum: u8,
    pub oemid: [u8; 6],
    pub oem_table_id: [u8; 8],
    pub oem_revision: u32,
    pub creator_id: u32,
    pub creator_revision: u32,
}

impl SdtHeader {
    /// Whether this is the header whose 36 bytes stand at `offset`.
    pub open spec fn is_at(&self, bytes: Seq<u8>, offset: int) -> bool {
        &&& self.signature@ == bytes.subrange(offset, offset + 4)
        &&& self.length == le_u32(bytes, offset + 4)
        &&& self.revision == bytes[offset + 8]
        &&& self.checksum == bytes[offset + 9]
        &&& self.oemid@ == bytes.subrange(offset + 10, offset + 16)
        &&& self.oem_table_id@ == bytes.subrange(offset + 16, offset + 24)
        &&& self.oem_revision == le_u32(bytes, offset + 24)
        &&& self.creator_id == le_u32(bytes, offset + 28)
        &&& self.creator_revision == le_u32(bytes, offset + 32)
    }

    /// The header whose 36 bytes stand at `offset` of the image.
    pub fn parse(image: &MemoryImage, offset: usize) -> (r: SdtHeader)
        requires
            offset + SDT_HEADER_SIZE <= image.bytes.len(),
        ensures
            r.is_at(image.bytes@, offset as int),
    {
        let b = &image.bytes;
        let header = SdtHeader {
            signature: [b[offset], b[offset + 1], b[offset + 2], b[offset + 3]],
            length: image.read_u32(offset + 4),
            revision: b[offset + 8],
            checksum: b[offset + 9],
            oemid: [
                b[offset + 10],
                b[offset + 11],
                b[offset + 12],
                b[offset + 13],
                b[offset + 14],
                b[offset + 15],
            ],
            oem_table_id: [
                b[offset + 16],
                b[offset + 17],
                b[offset + 18],
                b[offset + 19],
                b[offset + 20],
                b[offset + 21],
                b[offset + 22],
                b[offset + 23],
            ],
            oem_revision: image.read_u32(offset + 24),
            creator_id: image.read_u32(offset + 28),
            creator_revision: image.read_u32(offset + 32),
        };
        proof {
            assert(header.signature@ =~= image.bytes@.subrange(offset as int, offset + 4));
            assert(header.oemid@ =~= image.bytes@.subrange(offset + 10, offset + 16));
            assert(header.oem_table_id@ =~= image.bytes@.subrange(offset + 16, offset + 24));
        }
        header
    }
}

/// Root system description pointer, as far as revision 0 defines it.
#[derive(Debug, Clone, Copy)]
pub struct Rsdp {
    pub signature: [u8; 8],
    pub checksum: u8,
    pub oemid: [u8; 6],
    pub revision: u8,
    pub rsdt_address: u32,
}

impl Rsdp {
    /// Whether this is the root pointer whose 20 bytes stand at `offset`.
    pub open spec fn is_at(&self, bytes: Seq<u8>, offset: int) -> bool {
        &&& self.signature@ == bytes.subrange(offset, offset + 8)
        &&& self.checksum == bytes[offset + 8]
        &&& self.oemid@ == bytes.subrange(offset + 9, offset + 15)
        &&& self.revision == bytes[offset + 15]
        &&& self.rsdt_address == le_u32(bytes, offset + 16)
    }

    /// The root pointer whose 20 bytes stand at `offset` of the image.
    pub fn parse(image: &MemoryImage, offset: usize) -> (r: Rsdp)
        requires
            offset + RSDP_CHECKED_SIZE <= image.bytes.len(),
        ensures
            r.is_at(image.bytes@, offset as int),
    {
        let b = &image.bytes;
        let rsdp = Rsdp {
            signature: [
                b[offset],
                b[offset + 1],
                b[offset + 2],
                b[offset + 3],
                b[offset + 4],
                b[offset + 5],
                b[offset + 6],
                b[offset + 7],
            ],
            checksum: b[offset + 8],
            oemid: [
                b[offset + 9],
                b[offset + 10],
                b[offset + 11],
                b[offset + 12],
                b[offset + 13],
                b[offset + 14],
            ],
            revision: b[offset + 15],
            rsdt_address: image.read_u32(offset + 16),
        };
        proof {
            assert(rsdp.signature@ =~= image.bytes@.subrange(offset as int, offset + 8));
            assert(rsdp.oemid@ =~= image.bytes@.subrange(offset + 9, offset + 15));
        }
        rsdp
    }
}

/// Root system description table: a header and the addresses of the other
/// tables.
#[derive(Debug)]
pub struct Rsdt {
    pub header: SdtHeader,
    pub entries: Vec<u32>,
}

/// Fixed ACPI description table, as far as the walk reads it.
#[derive(Debug, Clone, Copy)]
pub struct Fadt {
    pub header: SdtHeader,
    pub firmware_ctrl: u32,
    pub dsdt: u32,
}

impl Fadt {
    /// Whether this is the table whose first 44 bytes stand at `offset`.
    pub open spec fn is_at(&self, bytes: Seq<u8>, offset: int) -> bool {
        &&& self.header.is_at(bytes, offset)
        &&& self.firmware_ctrl == le_u32(bytes, offset + 36)
        &&& self.dsdt == le_u32(bytes, offset + 40)
    }
}

/// Differentiated system description table.
#[derive(Debug, Clone, Copy)]
pub struct Dsdt {
    pub header: SdtHeader,
}

/// Multiple APIC description table: a header, the local APIC's address, the
/// flags, and the bytes of the entries behind them.
#[derive(Debug)]
pub struct Madt {
    pub header: SdtHeader,
    pub lapic_address: u32,
    pub flags: u32,
    pub entries: Vec<u8>,
}

impl Madt {
    /// Whether this is the table that stands at `offset`, with all the bytes
    /// that its length field gives it.
    pub open spec fn is_at(&self, bytes: Seq<u8>, offset: int) -> bool {
        &&& self.header.is_at(bytes, offset)
        &&& self.lapic_address == le_u32(bytes, offset + 36)
        &&& self.flags == le_u32(bytes, offset + 40)
        &&& self.entries@ == bytes.subrange(
            offset + MADT_HEADER_SIZE,
            offset + le_u32(bytes, offset + 4),
        )
    }

    /// The I/O APIC entries of this table, from the first on.
    pub fn io_apic_iter(&self) -> (r: IoApicIterator<'_>)
        ensures
            r.entries@ == self.entries@,
            r.position == 0,
    {
        IoApicIterator { entries: &self.entries, position: 0 }
    }
}

/// One I/O APIC as the multiple APIC description table names it.
#[derive(Debug, Clone, Copy, PartialEq, Eq, Structural)]
pub struct IoApicEntry {
    pub id: u8,
    pub reserved: u8,
    pub physical_address: u32,
    pub global_system_interrupt_base: u32,
}

/// The I/O APIC entry whose ten bytes stand at `offset`.
pub open spec fn io_apic_at(bytes: Seq<u8>, offset: int) -> IoApicEntry {
    IoApicEntry {
        id: bytes[offset],
        reserved: bytes[offset + 1],
        physical_address: le_u32(bytes, offset + 2),
        global_system_interrupt_base: le_u32(bytes, offset + 6),
    }
}

/// The I/O APIC entries among the table entries that start at `position`.
/// An entry is a type byte, a length byte that counts both, and its payload;
/// type 1 is an I/O APIC. The list ends where an entry does not lie in the
/// table whole or has a length below 2.
pub open spec fn io_apics_from(bytes: Seq<u8>, position: int) -> Seq<IoApicEntry>
    decreases
        (if position < bytes.len() {
            bytes.len() - position
        } else {
            0
        }),
{
    if position < 0 || position + 2 > bytes.len() || bytes[position + 1] < 2 {
        Seq::empty()
    } else if bytes[position] != 1 {
        io_apics_from(bytes, position + bytes[position + 1])
    } else if position + 12 > bytes.len() {
        Seq::empty()
    } else {
        seq![io_apic_at(bytes, position + 2)] + io_apics_from(
            bytes,
            position + bytes[position + 1],
        )
    }
}

/// A walk over the entries of a multiple APIC description table that stops
/// at each I/O APIC.
pub struct IoApicIterator<'a> {
    pub entries: &'a Vec<u8>,
    pub position: usize,
}

impl<'a> IoApicIterator<'a> {
    /// The I/O APICs that are still to come.
    pub open spec fn remaining(&self) -> Seq<IoApicEntry> {
        io_apics_from(self.entries@, self.position as int)
    }

    /// The next I/O APIC, or `None` where there is none left.
    pub fn next(&mut self) -> (r: Option<IoApicEntry>)
        ensures
            final(self).entries@ == old(self).entries@,
            r == (if old(self).remaining().len() > 0 {
                Some(old(self).remaining()[0])
            } else {
                None
            }),
            final(self).remaining() == (if old(self).remaining().len() > 0 {
                old(self).remaining().skip(1)
            } else {
                old(self).remaining()
            }),
    {
        let count: usize = self.entries.len();
        while self.position < count && count - self.position >= 2
            invariant
                self.entries@ == old(self).entries@,
                count == self.entries@.len(),
                self.remaining() == old(self).remaining(),
            decreases count - self.position,
        {
            let position: usize = self.position;
            let entry_type: u8 = self.entries[position];
            let entry_length: usize = self.entries[position + 1] as usize;
            if entry_length < 2 {
                self.position = count;
                return None;
            }
            let next_position: usize = if entry_length > count - position {
                count
            } else {
                position + entry_length
            };
            proof {
                if entry_length > count - position {
                    lemma_io_apics_end(self.entries@, position + entry_length);
                }
                lemma_io_apics_end(self.entries@, count as int);
            }
            if entry_type == 1 {
                if count - position < 12 {
                    self.position = count;
                    return None;
                }
                let entry = IoApicEntry {
                    id: self.entries[position + 2],
                    reserved: self.entries[position + 3],
                    physical_address: read_u32(self.entries, position + 4),
                    global_system_interrupt_base: read_u32(self.entries, position + 8),
                };
                self.position = next_position;
                proof {
                    let rest = io_apics_from(self.entries@, position + entry_length);
                    assert((seq![entry] + rest).skip(1) =~= rest);
                }
                return Some(entry);
            }
            self.position = next_position;
        }
        proof {
            lemma_io_apics_end(self.entries@, count as int);
        }
        None
    }
}

/// No entry starts in the last byte of the table or behind it.
proof fn lemma_io_apics_end(bytes: Seq<u8>, position: int)
    requires
        position + 2 > bytes.len(),
    ensures
        io_apics_from(bytes, position) == Seq::<IoApicEntry>::empty(),
{
}

/// What a table is to the walk.
pub enum TableKind {
    /// A fixed description table that names the differentiated table at
    /// `dsdt`.
    Fixed { dsdt: int },
    /// A multiple APIC description table.
    Apic,
    /// Any other table.
    Other,
}

/// A table as far as the walk has read it.
#[derive(Debug)]
pub enum Examined {
    Fixed(Fadt, Dsdt),
    Apic(Madt),
    Other,
}

/// Where the walk found the tables: their physical addresses.
pub struct Found {
    pub rsdt: int,
    pub fadt: Option<int>,
    pub dsdt: Option<int>,
    pub madt: Option<int>,
}

/// The tables that the walk found.
#[derive(Debug)]
pub struct Acpi {
    pub rsdt: Rsdt,
    pub fadt: Option<Fadt>,
    pub dsdt: Option<Dsdt>,
    pub madt: Option<Madt>,
}

impl MemoryImage {
    /// Why the root pointer at `rsdp` is refused, if it is: it must lie in
    /// the image, start with `"RSD PTR "`, have revision 0, and its first 20
    /// bytes must sum to 0 modulo 256.
    pub open spec fn rsdp_error(&self, rsdp: int) -> Option<AcpiError> {
        let offset = rsdp - self.base;
        if !self.covers(rsdp, RSDP_CHECKED_SIZE as int) {
            Some(AcpiError::Unreadable)
        } else if !has_rsdp_signature(self.bytes@, offset) {
            Some(AcpiError::BadRsdpSignature)
        } else if self.bytes@[offset + 15] != 0 {
            Some(AcpiError::UnsupportedRevision)
        } else if byte_sum(self.bytes@, offset, offset + RSDP_CHECKED_SIZE) % 256 != 0 {
            Some(AcpiError::BadRsdpChecksum)
        } else {
            None
        }
    }

    /// The number of entries of the root table at `rsdt`: its length less
    /// the header, in 32-bit words. `None` where the table does not lie in
    /// the image, is shorter than a header, or lists more than
    /// `RSDT_MAX_ENTRIES` tables.
    pub open spec fn rsdt_entry_count(&self, rsdt: int) -> Option<int> {
        let offset = rsdt - self.base;
        if !self.covers(rsdt, SDT_HEADER_SIZE as int) {
            None
        } else {
            let length = le_u32(self.bytes@, offset + 4) as int;
            let count = (length - SDT_HEADER_SIZE) / 4;
            if length < SDT_HEADER_SIZE || count > RSDT_MAX_ENTRIES || !self.covers(
                rsdt,
                SDT_HEADER_SIZE + 4 * count,
            ) {
                None
            } else {
                Some(count)
            }
        }
    }

    /// The address that entry `index` of the root table at `rsdt` holds.
    pub open spec fn rsdt_entry(&self, rsdt: int, index: int) -> int {
        le_u32(self.bytes@, rsdt - self.base + SDT_HEADER_SIZE + 4 * index) as int
    }

    /// What the table at `table` is to the walk. A fixed description table
    /// brings the differentiated table that it names, which must carry the
    /// signature `"DSDT"`; a multiple APIC description table must lie in the
    /// image with all of its length; any other table is passed over.
    pub open spec fn classify(&self, table: int) -> Result<TableKind, AcpiError> {
        let offset = table - self.base;
        if !self.covers(table, SDT_HEADER_SIZE as int) {
            Err(AcpiError::Unreadable)
        } else if is_facp(self.bytes@, offset) {
            let dsdt = le_u32(self.bytes@, offset + 40) as int;
            if !self.covers(table, MADT_HEADER_SIZE as int) || !self.covers(
                dsdt,
                SDT_HEADER_SIZE as int,
            ) {
                Err(AcpiError::Unreadable)
            } else if !is_dsdt(self.bytes@, dsdt - self.base) {
                Err(AcpiError::BadDsdtSignature)
            } else {
                Ok(TableKind::Fixed { dsdt })
            }
        } else if is_apic(self.bytes@, offset) {
            let length = le_u32(self.bytes@, offset + 4) as int;
            if length < MADT_HEADER_SIZE || !self.covers(table, length) {
                Err(AcpiError::Unreadable)
            } else {
                Ok(TableKind::Apic)
            }
        } else {
            Ok(TableKind::Other)
        }
    }

    /// What the table at `table` adds to what was found.
    pub open spec fn with_table(&self, found: Found, table: int) -> Result<Found, AcpiError> {
        match self.classify(table) {
            Ok(TableKind::Fixed { dsdt }) => Ok(
                Found { rsdt: found.rsdt, fadt: Some(table), dsdt: Some(dsdt), madt: found.madt },
            ),
            Ok(TableKind::Apic) => Ok(
                Found { rsdt: found.rsdt, fadt: found.fadt, dsdt: found.dsdt, madt: Some(table) },
            ),
            Ok(TableKind::Other) => Ok(found),
            Err(error) => Err(error),
        }
    }

    /// Reads the table at the physical address `table` as far as the walk
    /// needs it.
    pub fn examine(&self, table: usize) -> (r: Result<Examined, AcpiError>)
        ensures
            match (r, self.classify(table as int)) {
                (Ok(Examined::Fixed(fadt, dsdt)), Ok(TableKind::Fixed { dsdt: address })) => {
                    &&& fadt.is_at(self.bytes@, table - self.base)
                    &&& dsdt.header.is_at(self.bytes@, address - self.base)
                },
                (Ok(Examined::Apic(madt)), Ok(TableKind::Apic)) => madt.is_at(
                    self.bytes@,
                    table - self.base,
                ),
                (Ok(Examined::Other), Ok(TableKind::Other)) => true,
                (Err(error), Err(expected)) => error == expected,
                _ => false,
            },
    {
        let offset: usize = match self.locate(table, SDT_HEADER_SIZE) {
            Some(offset) => offset,
            None => { return Err(AcpiError::Unreadable); },
        };
        if self.signature_is(offset, 0x46, 0x41, 0x43, 0x50) {
            if self.locate(table, MADT_HEADER_SIZE).is_none() {
                return Err(AcpiError::Unreadable);
            }
            let fixed = Fadt {
                header: SdtHeader::parse(self, offset),
                firmware_ctrl: self.read_u32(offset + 36),
                dsdt: self.read_u32(offset + 40),
            };
            let dsdt_address: usize = fixed.dsdt as usize;
            let dsdt_offset: usize = match self.locate(dsdt_address, SDT_HEADER_SIZE) {
                Some(offset) => offset,
                None => { return Err(AcpiError::Unreadable); },
            };
            if !self.signature_is(dsdt_offset, 0x44, 0x53, 0x44, 0x54) {
                return Err(AcpiError::BadDsdtSignature);
            }
            Ok(Examined::Fixed(fixed, Dsdt { header: SdtHeader::parse(self, dsdt_offset) }))
        } else if self.signature_is(offset, 0x41, 0x50, 0x49, 0x43) {
            let header = SdtHeader::parse(self, offset);
            let length: usize = header.length as usize;
            if length < MADT_HEADER_SIZE {
                return Err(AcpiError::Unreadable);
            }
            if self.locate(table, length).is_none() {
                return Err(AcpiError::Unreadable);
            }
            let end: usize = offset + length;
            let mut bytes: Vec<u8> = Vec::new();
            let mut k: usize = offset + MADT_HEADER_SIZE;
            while k < end
                invariant
                    offset + MADT_HEADER_SIZE <= k <= end,
                    end <= self.bytes@.len(),
                    bytes@ == self.bytes@.subrange(offset + MADT_HEADER_SIZE, k as int),
                decreases end - k,
            {
                bytes.push(self.bytes[k]);
                proof {
                    assert(bytes@ =~= self.bytes@.subrange(offset + MADT_HEADER_SIZE, k + 1));
                }
                k += 1;
            }
            Ok(
                Examined::Apic(
                    Madt {
                        header,
                        lapic_address: self.read_u32(offset + 36),
                        flags: self.read_u32(offset + 40),
                        entries: bytes,
                    },
                ),
            )
        } else {
            Ok(Examined::Other)
        }
    }

    /// What the entries of the root table from `index` up to `count` add to
    /// what was found.
    pub open spec fn scan(&self, found: Found, index: int, count: int) -> Result<Found, AcpiError>
        decreases count - index,
    {
        if index >= count {
            Ok(found)
        } else {
            match self.with_table(found, self.rsdt_entry(found.rsdt, index)) {
                Ok(more) => self.scan(more, index + 1, count),
                Err(error) => Err(error),
            }
        }
    }

    /// What the walk from the root pointer at `rsdp` finds.
    pub open spec fn walk(&self, rsdp: int) -> Result<Found, AcpiError> {
        match self.rsdp_error(rsdp) {
            Some(error) => Err(error),
            None => {
                let rsdt = le_u32(self.bytes@, rsdp - self.base + 16) as int;
                match self.rsdt_entry_count(rsdt) {
                    None => Err(AcpiError::Unreadable),
                    Some(count) => self.scan(
                        Found { rsdt, fadt: None, dsdt: None, madt: None },
                        0,
                        count,
                    ),
                }
            },
        }
    }

    /// The sum of the `length` bytes at `offset`.
    pub fn sum_bytes(&self, offset: usize, length: usize) -> (r: usize)
        requires
            offset + length <= self.bytes.len(),
            length <= 0x100_0000,
        ensures
            r == byte_sum(self.bytes@, offset as int, offset + length),
    {
        let mut sum: usize = 0;
        let mut i: usize = 0;
        while i < length
            invariant
                i <= length,
                offset + length <= self.bytes.len(),
                length <= 0x100_0000,
                sum == byte_sum(self.bytes@, offset as int, offset + i),
                sum <= 255 * i,
            decreases length - i,
        {
            sum += self.bytes[offset + i] as usize;
            i += 1;
        }
        sum
    }

    /// Whether the eight bytes at `offset` are `"RSD PTR "`.
    pub fn rsdp_signature_is(&self, offset: usize) -> (r: bool)
        requires
            offset + 8 <= self.bytes.len(),
        ensures
            r == has_rsdp_signature(self.bytes@, offset as int),
    {
        self.signature_is(offset, 0x52, 0x53, 0x44, 0x20) && self.signature_is(
            offset + 4,
            0x50,
            0x54,
            0x52,
            0x20,
        )
    }
}

impl Acpi {
    /// Whether these are the tables that stand in `image` where `found`
    /// says.
    pub open spec fn matches(&self, image: &MemoryImage, found: Found) -> bool {
        let bytes = image.bytes@;
        &&& self.rsdt.header.is_at(bytes, found.rsdt - image.base)
        &&& image.rsdt_entry_count(found.rsdt) == Some(self.rsdt.entries@.len() as int)
        &&& forall|i: int|
            0 <= i < self.rsdt.entries@.len() ==> #[trigger] self.rsdt.entries@[i]
                == image.rsdt_entry(found.rsdt, i)
        &&& Self::tables_match(self.fadt, self.dsdt, self.madt, image, found)
    }

    /// Whether the three tables are those that stand in `image` where
    /// `found` says, each there if and only if `found` names it.
    pub open spec fn tables_match(
        fadt: Option<Fadt>,
        dsdt: Option<Dsdt>,
        madt: Option<Madt>,
        image: &MemoryImage,
        found: Found,
    ) -> bool {
        let bytes = image.bytes@;
        &&& match (fadt, found.fadt) {
            (Some(table), Some(address)) => table.is_at(bytes, address - image.base),
            (None, None) => true,
            _ => false,
        }
        &&& match (dsdt, found.dsdt) {
            (Some(table), Some(address)) => table.header.is_at(bytes, address - image.base),
            (None, None) => true,
            _ => false,
        }
        &&& match (madt, found.madt) {
            (Some(table), Some(address)) => table.is_at(bytes, address - image.base),
            (None, None) => true,
            _ => false,
        }
    }

    /// Walks the tables from the root pointer at the physical address `rsdp`
    /// and returns those it found, or why the walk gave up.
    pub fn discover(image: &MemoryImage, rsdp: usize) -> (r: Result<Acpi, AcpiError>)
        ensures
            match (r, image.walk(rsdp as int)) {
                (Ok(acpi), Ok(found)) => acpi.matches(image, found),
                (Err(error), Err(expected)) => error == expected,
                _ => false,
            },
    {
        let rsdp_offset: usize = match image.locate(rsdp, RSDP_CHECKED_SIZE) {
            Some(offset) => offset,
            None => { return Err(AcpiError::Unreadable); },
        };
        if !image.rsdp_signature_is(rsdp_offset) {
            return Err(AcpiError::BadRsdpSignature);
        }
        let root = Rsdp::parse(image, rsdp_offset);
        if root.revision != 0 {
            return Err(AcpiError::UnsupportedRevision);
        }
        if image.sum_bytes(rsdp_offset, RSDP_CHECKED_SIZE) % 256 != 0 {
            return Err(AcpiError::BadRsdpChecksum);
        }
        let rsdt_address: usize = root.rsdt_address as usize;
        let rsdt_offset: usize = match image.locate(rsdt_address, SDT_HEADER_SIZE) {
            Some(offset) => offset,
            None => { return Err(AcpiError::Unreadable); },
        };
        let header = SdtHeader::parse(image, rsdt_offset);
        let length: usize = header.length as usize;
        if length < SDT_HEADER_SIZE {
            return Err(AcpiError::Unreadable);
        }
        let count: usize = (length - SDT_HEADER_SIZE) / 4;
        if count > RSDT_MAX_ENTRIES {
            return Err(AcpiError::Unreadable);
        }
        if image.locate(rsdt_address, SDT_HEADER_SIZE + 4 * count).is_none() {
            return Err(AcpiError::Unreadable);
        }
        let ghost start = Found { rsdt: rsdt_address as int, fadt: None, dsdt: None, madt: None };
        let ghost mut found = start;
        let mut entries: Vec<u32> = Vec::new();
        let mut fadt: Option<Fadt> = None;
        let mut dsdt: Option<Dsdt> = None;
        let mut madt: Option<Madt> = None;
        let mut i: usize = 0;
        while i < count
            invariant
                i <= count <= RSDT_MAX_ENTRIES,
                image.covers(rsdt_address as int, SDT_HEADER_SIZE + 4 * count),
                rsdt_offset == rsdt_address - image.base,
                found.rsdt == rsdt_address,
                image.scan(found, i as int, count as int) == image.scan(start, 0, count as int),
                image.walk(rsdp as int) == image.scan(start, 0, count as int),
                image.rsdt_entry_count(rsdt_address as int) == Some(count as int),
                header.is_at(image.bytes@, rsdt_address - image.base),
                entries@.len() == i,
                forall|k: int|
                    0 <= k < i ==> #[trigger] entries@[k] == image.rsdt_entry(
                        rsdt_address as int,
                        k,
                    ),
                Self::tables_match(fadt, dsdt, madt, image, found),
            decreases count - i,
        {
            let entry: u32 = image.read_u32(rsdt_offset + SDT_HEADER_SIZE + 4 * i);
            entries.push(entry);
            let table: usize = entry as usize;
            proof {
                assert(table == image.rsdt_entry(found.rsdt, i as int));
            }
            match image.examine(table) {
                Err(error) => {
                    proof {
                        assert(image.with_table(found, table as int) == Err::<Found, AcpiError>(
                            error,
                        ));
                        assert(image.scan(found, i as int, count as int) == Err::<
                            Found,
                            AcpiError,
                        >(error));
                    }
                    return Err(error);
                },
                Ok(Examined::Fixed(fixed, differentiated)) => {
                    proof {
                        found =
                        Found {
                            rsdt: found.rsdt,
                            fadt: Some(table as int),
                            dsdt: Some(fixed.dsdt as int),
                            madt: found.madt,
                        };
                    }
                    fadt = Some(fixed);
                    dsdt = Some(differentiated);
                },
                Ok(Examined::Apic(multiple)) => {
                    proof {
                        found =
                        Found {
                            rsdt: found.rsdt,
                            fadt: found.fadt,
                            dsdt: found.dsdt,
                            madt: Some(table as int),
                        };
                    }
                    madt = Some(multiple);
                },
                Ok(Examined::Other) => {},
            }
            i += 1;
        }
        Ok(Acpi { rsdt: Rsdt { header, entries }, fadt, dsdt, madt })
    }
}

} // verus!
