//! Decisions of the polled 16550 console of the NS02201 (Novatek NT98690)
//! platform: UART0, 32-bit registers at a stride of four bytes, left
//! configured by the firmware. The register accesses themselves are done by
//! the caller, which performs each action and reports what it read.
use vstd::prelude::*;

verus! {

/// Physical base address of UART0.
pub const SERIAL_DEVICE_BASE_ADDR: u64 = 0x2_f013_0000;

/// Byte offset of the transmit-holding register.
pub const TRANSMIT_HOLDING: u64 = 0x00;

/// Byte offset of the line-status register.
pub const LINE_STATUS: u64 = 0x14;

/// Line-status bit: the transmit-holding register is empty.
pub const TRANSMIT_HOLDING_EMPTY: u32 = 0x20;

/// Address of the line-status register.
pub fn line_status_addr() -> (r: u64)
    ensures
        r == SERIAL_DEVICE_BASE_ADDR + LINE_STATUS,
        r == 0x2_f013_0014,
{
    SERIAL_DEVICE_BASE_ADDR + LINE_STATUS
}

/// Address of the transmit-holding register.
pub fn transmit_holding_addr() -> (r: u64)
    ensures
        r == SERIAL_DEVICE_BASE_ADDR + TRANSMIT_HOLDING,
        r == 0x2_f013_0000,
{
    SERIAL_DEVICE_BASE_ADDR + TRANSMIT_HOLDING
}

/// What to do next while sending one character.
#[derive(Clone, Copy, PartialEq, Eq, Structural, Debug)]
pub enum PutCharAction {
    /// Read the line-status register again.
    Poll,
    /// Write this word to the transmit-holding register; the character is sent.
    Write(u32),
}

/// Having read `line_status` while sending `c`: write `c` (as a 32-bit word)
/// once the transmit-holding register is empty, otherwise keep polling.
pub fn put_char_step(line_status: u32, c: u8) -> (a: PutCharAction)
    ensures
        line_status & TRANSMIT_HOLDING_EMPTY != 0 ==> a == PutCharAction::Write(c as u32),
        line_status & TRANSMIT_HOLDING_EMPTY == 0 ==> a == PutCharAction::Poll,
        (a == PutCharAction::Write(c as u32)) == ((line_status >> 5u32) & 1 == 1),
        (a == PutCharAction::Poll) == ((line_status >> 5u32) & 1 == 0),
{
    proof {
        assert((line_status & 0x20 != 0) == ((line_status >> 5u32) & 1 == 1)) by (bit_vector);
        assert((line_status & 0x20 == 0) == ((line_status >> 5u32) & 1 == 0)) by (bit_vector);
    }
    if line_status & TRANSMIT_HOLDING_EMPTY == 0 {
        PutCharAction::Poll
    } else {
        PutCharAction::Write(c as u32)
    }
}

} // verus!
