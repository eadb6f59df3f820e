//! The mini-UART: its register block layout, the constants its setup
//! writes, and the line-ending conversion applied to outgoing characters.
//! The volatile register accesses live outside the library.

use vstd::prelude::*;

verus! {

/// Address of the auxiliary-enable register.
pub const AUX_ENABLES: u32 = 0x20215004;

/// Bit that enables the mini-UART in the auxiliary-enable register.
pub const AUX_ENABLE: u32 = 0x00000001;

/// Base of the mini-UART register block.
pub const MINI_UART_BASE: u32 = 0x20215040;

pub const MINI_UART_IIR_RX_FIFO_CLEAR: u32 = 0x00000002;

pub const MINI_UART_IIR_TX_FIFO_CLEAR: u32 = 0x00000004;

pub const MINI_UART_IIR_RX_FIFO_ENABLE: u32 = 0x00000080;

pub const MINI_UART_IIR_TX_FIFO_ENABLE: u32 = 0x00000040;

pub const MINI_UART_LCR_8BIT: u32 = 0x00000003;

pub const MINI_UART_LSR_TX_EMPTY: u32 = 0x00000020;

pub const MINI_UART_CNTL_TX_ENABLE: u32 = 0x00000002;

pub const MINI_UART_CNTL_RX_ENABLE: u32 = 0x00000001;

/// Baud-rate divisor for 115200 baud at a 250 MHz core clock.
pub const MINI_UART_BAUD_DIVISOR: u32 = 250000000 / 115200 / 8 - 1;

/// The mini-UART register block, in register order.
pub struct Uart {
    pub data: u32,
    pub ier: u32,
    pub iir: u32,
    pub lcr: u32,
    pub mcr: u32,
    pub lsr: u32,
    pub msr: u32,
    pub scratch: u32,
    pub cntl: u32,
    pub stat: u32,
    pub baud: u32,
}

/// The combined FIFO word that setup writes to the interrupt register.
pub fn uart_fifo_setup() -> (r: u32)
    ensures
        r == (MINI_UART_IIR_RX_FIFO_CLEAR | MINI_UART_IIR_RX_FIFO_ENABLE
            | MINI_UART_IIR_TX_FIFO_CLEAR | MINI_UART_IIR_TX_FIFO_ENABLE),
{
    MINI_UART_IIR_RX_FIFO_CLEAR | MINI_UART_IIR_RX_FIFO_ENABLE | MINI_UART_IIR_TX_FIFO_CLEAR
        | MINI_UART_IIR_TX_FIFO_ENABLE
}

/// The bytes actually sent for one outgoing character: a newline becomes
/// a carriage-return/newline pair; every other byte is sent as itself.
pub fn put_char_bytes(character: u8) -> (r: Vec<u8>)
    ensures
        character == 10 ==> r@ =~= seq![13u8, 10u8],
        character != 10 ==> r@ =~= seq![character],
{
    let mut out: Vec<u8> = Vec::new();
    if character == 10 {
        out.push(13);
    }
    out.push(character);
    out
}

} // verus!
