//! The legacy interrupt controllers, which the kernel masks.

use vstd::prelude::*;

verus! {

pub const MASTER_COMMAND_PORT: u16 = 0x20;

pub const MASTER_DATA_PORT: u16 = MASTER_COMMAND_PORT + 0x01;

pub const SLAVE_COMMAND_PORT: u16 = 0xA0;

pub const SLAVE_DATA_PORT: u16 = SLAVE_COMMAND_PORT + 0x01;

/// One byte to be written to an I/O port.
#[derive(Debug, Clone, Copy, PartialEq, Eq, Structural)]
pub struct PortWrite {
    pub port: u16,
    pub value: u8,
}

/// The writes that mask every interrupt line of both controllers: 0xFF to
/// the master's data port, then to the slave's.
pub fn disable() -> (r: [PortWrite; 2])
    ensures
        r@ == seq![
            PortWrite { port: 0x21, value: 0xff },
            PortWrite { port: 0xA1, value: 0xff },
        ],
{
    let writes = [
        PortWrite { port: MASTER_DATA_PORT, value: 0xff },
        PortWrite { port: SLAVE_DATA_PORT, value: 0xff },
    ];
    assert(writes@ =~= seq![
        PortWrite { port: 0x21, value: 0xff },
        PortWrite { port: 0xA1, value: 0xff },
    ]);
    writes
}

} // verus!
