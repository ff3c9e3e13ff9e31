use vstd::prelude::*;
use crate::console::{Console, ConsoleIntr, console_feed};

verus! {

/// I/O port of the first serial port.
pub const COM1: u16 = 0x3F8;

/// The serial port as a byte sink.
pub struct Uart;

/// Whether the line status register shows the transmitter ready for a byte.
pub fn tx_ready(lsr: u8) -> (r: bool)
    ensures
        r == (lsr & 0x20 != 0),
{
    (lsr & 0x20) != 0
}

/// Whether the line status register shows a received byte waiting.
pub fn rx_ready(lsr: u8) -> (r: bool)
    ensures
        r == (lsr & 0x01 != 0),
{
    (lsr & 0x01) != 0
}

/// Serial-port interrupt: the bytes received (read until none is waiting)
/// are console input.
pub fn uartintr(console: &mut Console, input: &[u8]) -> (r: ConsoleIntr)
    requires
        old(console).wf(),
    ensures
        final(console).wf(),
        console_feed(old(console).model(), input@) == (final(console).model(), r.echo@, r.wake),
{
    console.consoleintr(input)
}

}
