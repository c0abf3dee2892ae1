use fajr_kernel::acpi::{Acpi, AcpiError, IoApicEntry, MemoryImage};

const BASE: usize = 0xE_0000;
const RSDP: usize = BASE;
const RSDT: usize = BASE + 0x100;
const FADT: usize = BASE + 0x200;
const DSDT: usize = BASE + 0x300;
const MADT: usize = BASE + 0x400;
const SSDT: usize = BASE + 0x500;

fn put(bytes: &mut Vec<u8>, address: usize, data: &[u8]) {
    bytes[address - BASE..address - BASE + data.len()].copy_from_slice(data);
}

fn put_u32(bytes: &mut Vec<u8>, address: usize, value: u32) {
    put(bytes, address, &value.to_le_bytes());
}

fn header(bytes: &mut Vec<u8>, address: usize, signature: &[u8; 4], length: u32) {
    put(bytes, address, signature);
    put_u32(bytes, address + 4, length);
    put(bytes, address + 8, &[2, 0x5a]);
    put(bytes, address + 10, b"OEMID1");
    put(bytes, address + 16, b"TABLE_ID");
    put_u32(bytes, address + 24, 7);
    put_u32(bytes, address + 28, 0x4c54_4e49);
    put_u32(bytes, address + 32, 9);
}

fn madt_entries() -> Vec<u8> {
    let mut entries = vec![2, 10, 0, 0, 0, 0, 0, 0, 0, 0];
    entries.extend([1, 12, 1, 0]);
    entries.extend(0xFEC0_0000u32.to_le_bytes());
    entries.extend(0u32.to_le_bytes());
    entries.extend([1, 12, 2, 0]);
    entries.extend(0xFEC0_1000u32.to_le_bytes());
    entries.extend(24u32.to_le_bytes());
    entries
}

fn image() -> MemoryImage {
    let mut bytes = vec![0u8; 0x600];
    put(&mut bytes, RSDP, b"RSD PTR ");
    put(&mut bytes, RSDP + 9, b"OEMID0");
    put_u32(&mut bytes, RSDP + 16, RSDT as u32);
    let sum: u32 = bytes[..20].iter().map(|&b| b as u32).sum();
    bytes[8] = (256 - sum % 256) as u8;
    header(&mut bytes, RSDT, b"RSDT", 36 + 12);
    put_u32(&mut bytes, RSDT + 36, FADT as u32);
    put_u32(&mut bytes, RSDT + 40, MADT as u32);
    put_u32(&mut bytes, RSDT + 44, SSDT as u32);
    header(&mut bytes, FADT, b"FACP", 116);
    put_u32(&mut bytes, FADT + 36, 0x1111);
    put_u32(&mut bytes, FADT + 40, DSDT as u32);
    header(&mut bytes, DSDT, b"DSDT", 36);
    let entries = madt_entries();
    header(&mut bytes, MADT, b"APIC", 44 + entries.len() as u32);
    put_u32(&mut bytes, MADT + 36, 0xFEE0_0000);
    put_u32(&mut bytes, MADT + 40, 1);
    put(&mut bytes, MADT + 44, &entries);
    header(&mut bytes, SSDT, b"SSDT", 36);
    MemoryImage { base: BASE, bytes }
}

fn error_of(image: &MemoryImage) -> AcpiError {
    Acpi::discover(image, RSDP).err().unwrap()
}

#[test]
fn acpi_walk() {
    let acpi = Acpi::discover(&image(), RSDP).unwrap();
    assert_eq!(acpi.rsdt.header.signature, *b"RSDT");
    assert_eq!(acpi.rsdt.header.length, 48);
    assert_eq!(acpi.rsdt.header.revision, 2);
    assert_eq!(acpi.rsdt.header.checksum, 0x5a);
    assert_eq!(acpi.rsdt.header.oemid, *b"OEMID1");
    assert_eq!(acpi.rsdt.header.oem_table_id, *b"TABLE_ID");
    assert_eq!(acpi.rsdt.header.oem_revision, 7);
    assert_eq!(acpi.rsdt.header.creator_id, 0x4c54_4e49);
    assert_eq!(acpi.rsdt.header.creator_revision, 9);
    assert_eq!(acpi.rsdt.entries, vec![FADT as u32, MADT as u32, SSDT as u32]);
    let fadt = acpi.fadt.unwrap();
    assert_eq!(fadt.header.signature, *b"FACP");
    assert_eq!((fadt.firmware_ctrl, fadt.dsdt), (0x1111, DSDT as u32));
    assert_eq!(acpi.dsdt.unwrap().header.signature, *b"DSDT");
    let madt = acpi.madt.unwrap();
    assert_eq!(madt.header.signature, *b"APIC");
    assert_eq!((madt.lapic_address, madt.flags), (0xFEE0_0000, 1));
    assert_eq!(madt.entries, madt_entries());
    let mut io_apics = madt.io_apic_iter();
    let mut ids = Vec::new();
    while let Some(entry) = io_apics.next() {
        ids.push(entry.id);
    }
    assert_eq!(ids, vec![1, 2]);
}

#[test]
fn madt_io_apic_iteration() {
    let acpi = Acpi::discover(&image(), RSDP).unwrap();
    let madt = acpi.madt.unwrap();
    let mut io_apics = madt.io_apic_iter();
    assert_eq!(
        io_apics.next(),
        Some(IoApicEntry {
            id: 1,
            reserved: 0,
            physical_address: 0xFEC0_0000,
            global_system_interrupt_base: 0
        })
    );
    assert_eq!(
        io_apics.next(),
        Some(IoApicEntry {
            id: 2,
            reserved: 0,
            physical_address: 0xFEC0_1000,
            global_system_interrupt_base: 24
        })
    );
    assert_eq!(io_apics.next(), None);
    assert_eq!(io_apics.next(), None);
}

#[test]
fn madt_iteration_ends_at_a_broken_entry() {
    let mut image = image();
    image.bytes[MADT - BASE + 44 + 10 + 12 + 1] = 0;
    let madt = Acpi::discover(&image, RSDP).unwrap().madt.unwrap();
    let mut io_apics = madt.io_apic_iter();
    assert_eq!(io_apics.next().map(|e| e.id), Some(1));
    assert_eq!(io_apics.next(), None);
    let mut image2 = self::image();
    put_u32(&mut image2.bytes, MADT + 4, 44 + 10 + 12 + 11);
    let madt = Acpi::discover(&image2, RSDP).unwrap().madt.unwrap();
    let mut io_apics = madt.io_apic_iter();
    assert_eq!(io_apics.next().map(|e| e.id), Some(1));
    assert_eq!(io_apics.next(), None);
}

#[test]
fn walk_without_the_tables_finds_none() {
    let mut image = image();
    put_u32(&mut image.bytes, RSDT + 4, 36 + 4);
    put_u32(&mut image.bytes, RSDT + 36, SSDT as u32);
    let acpi = Acpi::discover(&image, RSDP).unwrap();
    assert!(acpi.fadt.is_none() && acpi.dsdt.is_none() && acpi.madt.is_none());
    assert_eq!(acpi.rsdt.entries, vec![SSDT as u32]);
}

#[test]
fn bad_rsdp_signature_is_refused() {
    let mut image = image();
    image.bytes[7] = b'_';
    assert_eq!(error_of(&image), AcpiError::BadRsdpSignature);
}

#[test]
fn other_revisions_are_refused() {
    let mut image = image();
    image.bytes[15] = 2;
    assert_eq!(error_of(&image), AcpiError::UnsupportedRevision);
}

#[test]
fn bad_rsdp_checksum_is_refused() {
    let mut image = image();
    image.bytes[10] = image.bytes[10].wrapping_add(1);
    assert_eq!(error_of(&image), AcpiError::BadRsdpChecksum);
    let mut image = self::image();
    image.bytes[20] = 1;
    assert!(Acpi::discover(&image, RSDP).is_ok());
}

#[test]
fn bad_dsdt_signature_is_refused() {
    let mut image = image();
    image.bytes[DSDT - BASE] = b'X';
    assert_eq!(error_of(&image), AcpiError::BadDsdtSignature);
}

#[test]
fn tables_outside_the_image_are_refused() {
    let image = image();
    assert_eq!(Acpi::discover(&image, BASE - 1).err(), Some(AcpiError::Unreadable));
    assert_eq!(Acpi::discover(&image, BASE + 0x600 - 19).err(), Some(AcpiError::Unreadable));
    let mut broken = self::image();
    put_u32(&mut broken.bytes, RSDP + 16, 0x10);
    let sum: u32 = broken.bytes[..20].iter().map(|&b| b as u32).sum::<u32>()
        - broken.bytes[8] as u32;
    broken.bytes[8] = ((256 - sum % 256) % 256) as u8;
    assert_eq!(error_of(&broken), AcpiError::Unreadable);
    let mut broken = self::image();
    put_u32(&mut broken.bytes, RSDT + 4, 35);
    assert_eq!(error_of(&broken), AcpiError::Unreadable);
    let mut broken = self::image();
    put_u32(&mut broken.bytes, RSDT + 40, 0xFFFF_0000);
    assert_eq!(error_of(&broken), AcpiError::Unreadable);
    let mut broken = self::image();
    put_u32(&mut broken.bytes, MADT + 4, 43);
    assert_eq!(error_of(&broken), AcpiError::Unreadable);
    let mut broken = self::image();
    put_u32(&mut broken.bytes, FADT + 40, 0x10);
    assert_eq!(error_of(&broken), AcpiError::Unreadable);
}

#[test]
fn image_reads_are_little_endian() {
    let image = MemoryImage { base: 16, bytes: vec![0x78, 0x56, 0x34, 0x12, 0xff] };
    assert_eq!(image.read_u32(0), 0x1234_5678);
    assert_eq!(image.read_u32(1), 0xff12_3456);
    assert_eq!(image.locate(16, 5), Some(0));
    assert_eq!(image.locate(17, 4), Some(1));
    assert_eq!(image.locate(17, 5), None);
    assert_eq!(image.locate(15, 1), None);
    assert_eq!(image.sum_bytes(0, 5), 0x78 + 0x56 + 0x34 + 0x12 + 0xff);
    assert!(image.signature_is(0, 0x78, 0x56, 0x34, 0x12));
}
