//! UART configuration and reception for COM1/COM2.
//!
//! The register accesses themselves happen at the edge of the program: this
//! module says which bytes go to which I/O ports, how a status byte is read and
//! how received bytes make a 32-bit value.

use vstd::prelude::*;

use crate::crc32::le_bytes;

verus! {

/// (DLAB=0) (RW) Data FIFO offset
pub const FIFO: u16 = 0;

/// (DLAB=0) (RW) Interrupt enable register offset
pub const IEN: u16 = 1;

/// (DLAB=1) (RW) Divisor low byte offset
pub const DIV_LO: u16 = 0;

/// (DLAB=1) (RW) Divisor high byte offset
pub const DIV_HI: u16 = 1;

/// (WO) FIFO control register offset
pub const FCR: u16 = 2;

/// (RW) Line control register offset
pub const LCR: u16 = 3;

/// (RO) Line status register offset
pub const LSR: u16 = 5;

/// Minimum baud rate
pub const MIN_BAUD: usize = 2;

/// Maximum baud rate, which is also the UART reference clock divisor base
pub const MAX_BAUD: usize = 115200;

/// One byte written to one I/O port.
#[derive(Debug, Clone, Copy, PartialEq, Eq, Structural)]
pub struct PortWrite {
    pub port: u16,
    pub value: u8,
}

/// The 32-bit value carried by four bytes, least significant first.
pub open spec fn word_of(b: Seq<u8>) -> u32 {
    (b[0] + 256 * b[1] + 65536 * b[2] + 16777216 * b[3]) as u32
}

/// Splitting a value assembled from four bytes gives the same four bytes back.
pub proof fn lemma_word_bytes(b: Seq<u8>)
    requires
        b.len() == 4,
    ensures
        le_bytes(word_of(b)) =~= b,
{
    let (b0, b1, b2, b3) = (b[0], b[1], b[2], b[3]);
    let w = word_of(b);
    assert(w == b0 as u32 + 256 * (b1 as u32) + 65536 * (b2 as u32) + 16777216 * (b3 as u32));
    assert((w & 0xff) as u8 == b0 && ((w >> 8) & 0xff) as u8 == b1 && ((w >> 16) & 0xff) as u8
        == b2 && (w >> 24) as u8 == b3) by (bit_vector)
        requires
            w == b0 as u32 + 256 * (b1 as u32) + 65536 * (b2 as u32) + 16777216 * (b3 as u32),
    ;
}

/// A serial port by its conventional name.
#[derive(Debug, Clone, Copy, PartialEq, Eq, Structural)]
pub enum ComPort {
    Com1,
    Com2,
}

impl ComPort {
    /// I/O base address of the port's register block.
    pub open spec fn base_spec(self) -> u16 {
        match self {
            ComPort::Com1 => 0x3f8,
            ComPort::Com2 => 0x2f8,
        }
    }

    pub fn base_addr(&self) -> (r: u16)
        ensures
            r == self.base_spec(),
    {
        match self {
            ComPort::Com1 => 0x3f8,
            ComPort::Com2 => 0x2f8,
        }
    }
}

/// A baud rate in `[MIN_BAUD, MAX_BAUD]` that evenly divides `MAX_BAUD`.
pub open spec fn valid_baud(v: int) -> bool {
    MIN_BAUD <= v <= MAX_BAUD && MAX_BAUD as int % v == 0
}

/// A validated baud rate.
#[derive(Debug, Clone, Copy)]
pub struct BaudRate(usize);

impl View for BaudRate {
    type V = usize;

    closed spec fn view(&self) -> usize {
        self.0
    }
}

impl BaudRate {
    #[verifier::type_invariant]
    spec fn inv(self) -> bool {
        valid_baud(self.0 as int)
    }

    /// Accepts `value` exactly when it is a valid baud rate; otherwise hands it back.
    pub fn try_from(value: usize) -> (r: Result<BaudRate, usize>)
        ensures
            r is Ok <==> valid_baud(value as int),
            r matches Ok(b) ==> b@ == value,
            r matches Err(e) ==> e == value,
    {
        if value >= MIN_BAUD && value <= MAX_BAUD && MAX_BAUD % value == 0 {
            Ok(BaudRate(value))
        } else {
            Err(value)
        }
    }

    /// The rate in bits per second.
    pub fn rate(&self) -> (r: usize)
        ensures
            r == self@,
            valid_baud(r as int),
    {
        proof {
            use_type_invariant(self);
        }
        self.0
    }
}

/// Handle on the register block of one UART.
pub struct SerialPort {
    base: u16,
}

impl SerialPort {
    #[verifier::type_invariant]
    spec fn inv(self) -> bool {
        self.base == 0x3f8 || self.base == 0x2f8
    }

    /// I/O base address of the port's registers.
    pub closed spec fn base_spec(&self) -> u16 {
        self.base
    }

    pub fn get(com: ComPort) -> (r: SerialPort)
        ensures
            r.base_spec() == com.base_spec(),
    {
        SerialPort { base: com.base_addr() }
    }

    /// I/O base address of the port's registers.
    pub fn base(&self) -> (r: u16)
        ensures
            r == self.base_spec(),
            r == 0x3f8 || r == 0x2f8,
    {
        proof {
            use_type_invariant(self);
        }
        self.base
    }

    /// Port to read received bytes from (while DLAB is clear).
    pub fn data_port(&self) -> (r: u16)
        ensures
            r == self.base_spec() + FIFO,
    {
        self.base() + FIFO
    }

    /// Port of the line control register.
    pub fn line_control_port(&self) -> (r: u16)
        ensures
            r == self.base_spec() + LCR,
    {
        self.base() + LCR
    }

    /// Port of the line status register.
    pub fn line_status_port(&self) -> (r: u16)
        ensures
            r == self.base_spec() + LSR,
    {
        self.base() + LSR
    }

    /// Whether a line status byte reports a received byte waiting in the FIFO.
    pub fn data_ready(lsr: u8) -> (r: bool)
        ensures
            r == (lsr & 1 == 1),
    {
        lsr & 0x01 == 1
    }

    /// The writes that disable interrupts, select 8 data bits, no parity and
    /// one stop bit, and reset and enable the FIFOs, in that order.
    pub fn reset(&self) -> (w: Vec<PortWrite>)
        ensures
            w@ == seq![
                PortWrite { port: (self.base_spec() + IEN) as u16, value: 0x00 },
                PortWrite { port: (self.base_spec() + LCR) as u16, value: 0x03 },
                PortWrite { port: (self.base_spec() + FCR) as u16, value: 0x07 },
            ],
    {
        let base = self.base();
        let mut w: Vec<PortWrite> = Vec::new();
        w.push(PortWrite { port: base + IEN, value: 0x00 });
        w.push(PortWrite { port: base + LCR, value: 0x03 });
        w.push(PortWrite { port: base + FCR, value: 0x07 });
        w
    }

    /// The writes that set the divisor `MAX_BAUD / rate`, given `lcr`, the line
    /// control register as read just before: DLAB is set, the divisor's low and
    /// high bytes are written, and `lcr` is restored.
    pub fn set_baud_rate(&self, baud: BaudRate, lcr: u8) -> (w: Vec<PortWrite>)
        ensures
            w@ == seq![
                PortWrite { port: (self.base_spec() + LCR) as u16, value: lcr | 0x80 },
                PortWrite {
                    port: (self.base_spec() + DIV_LO) as u16,
                    value: ((MAX_BAUD / baud@) % 256) as u8,
                },
                PortWrite {
                    port: (self.base_spec() + DIV_HI) as u16,
                    value: ((MAX_BAUD / baud@) / 256) as u8,
                },
                PortWrite { port: (self.base_spec() + LCR) as u16, value: lcr },
            ],
    {
        let base = self.base();
        let rate = baud.rate();
        let divisor: usize = MAX_BAUD / rate;
        assert(divisor <= MAX_BAUD) by (nonlinear_arith)
            requires
                divisor == MAX_BAUD / rate,
                rate >= 2,
        ;
        let mut w: Vec<PortWrite> = Vec::new();
        w.push(PortWrite { port: base + LCR, value: lcr | 0x80 });
        w.push(PortWrite { port: base + DIV_LO, value: (divisor % 256) as u8 });
        w.push(PortWrite { port: base + DIV_HI, value: (divisor / 256) as u8 });
        w.push(PortWrite { port: base + LCR, value: lcr });
        w
    }

    /// The 32-bit value carried by four bytes received in order, least
    /// significant first.
    pub fn receive_u32(bytes: [u8; 4]) -> (r: u32)
        ensures
            r == word_of(bytes@),
    {
        bytes[0] as u32 + 256 * (bytes[1] as u32) + 65536 * (bytes[2] as u32) + 16777216 * (
        bytes[3] as u32)
    }
}

} // verus!
