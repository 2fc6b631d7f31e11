//! The SSD1322 OLED panel of the Monome Fates / Norns Shield: its 1 byte per
//! pixel framebuffer and the bus programs (data/command line, reset line, SPI
//! writes and pauses) that initialise it and push a frame to it.
//!
//! The library decides what goes on the bus; the application runs each
//! program on the real SPI device and GPIO lines, in order, stopping at the
//! first error.

use vstd::prelude::*;
use crate::text::{chars_of, parse_unsigned_trimmed, parse_unsigned_spec, trim};

verus! {

/// Panel width in pixels.
pub const WIDTH: usize = 128;

/// Panel height in pixels.
pub const HEIGHT: usize = 64;

/// Framebuffer length: one byte per pixel, the panel reads the high nibble.
pub const BUF_LEN: usize = 8192;

/// SPI transfer size used when the spidev limit cannot be read.
pub const CHUNK_FALLBACK: usize = 4096;

/// SPI transfer size of the fixed-chunk blit (the spidev default bufsiz).
pub const SPI_CHUNK: usize = 4096;

pub const CMD_SET_COLUMN_ADDRESS: u8 = 0x15;
pub const CMD_WRITE_RAM: u8 = 0x5C;
pub const CMD_SET_ROW_ADDRESS: u8 = 0x75;
pub const CMD_DUAL_COMM_LINE_MODE: u8 = 0xA0;
pub const CMD_DISPLAY_START_LINE: u8 = 0xA1;
pub const CMD_DISPLAY_OFFSET: u8 = 0xA2;
pub const CMD_DISPLAY_MODE_NORMAL: u8 = 0xA6;
pub const CMD_VDD_REGULATOR: u8 = 0xAB;
pub const CMD_DISPLAY_OFF: u8 = 0xAE;
pub const CMD_DISPLAY_ON: u8 = 0xAF;
pub const CMD_PHASE_LENGTH: u8 = 0xB1;
pub const CMD_OSCILLATOR_FREQUENCY: u8 = 0xB3;
pub const CMD_DISPLAY_ENHANCEMENT_A: u8 = 0xB4;
pub const CMD_DEFAULT_LINEAR_GRAY_SCALE: u8 = 0xB9;
pub const CMD_PRECHARGE_VOLTAGE: u8 = 0xBB;
pub const CMD_VCOMH_VOLTAGE: u8 = 0xBE;
pub const CMD_CONTRAST_CURRENT: u8 = 0xC1;
pub const CMD_MASTER_CURRENT: u8 = 0xC7;
pub const CMD_MULTIPLEX_RATIO: u8 = 0xCA;

/// First and last column of the 128 pixel window (four pixels per column).
pub const COL_START: u8 = 28;
pub const COL_END: u8 = 91;

/// First and last row.
pub const ROW_START: u8 = 0;
pub const ROW_END: u8 = 63;

/// Length of each half of the reset pulse, in milliseconds.
pub const RESET_PULSE_MS: u64 = 10;

/// One step of a bus program.
#[derive(Debug, PartialEq, Eq)]
pub enum BusOp {
    /// Drive the data/command line: `false` for a command byte, `true` for data.
    SetDc(bool),
    /// Drive the active-low reset line.
    SetReset(bool),
    /// Write these bytes on the SPI bus.
    Write(Vec<u8>),
    /// Pause for this many milliseconds.
    SleepMs(u64),
}

/// The mathematical value of a bus step.
pub enum Op {
    SetDc(bool),
    SetReset(bool),
    Write(Seq<u8>),
    SleepMs(u64),
}

impl View for BusOp {
    type V = Op;

    open spec fn view(&self) -> Op {
        match self {
            BusOp::SetDc(b) => Op::SetDc(*b),
            BusOp::SetReset(b) => Op::SetReset(*b),
            BusOp::Write(v) => Op::Write(v@),
            BusOp::SleepMs(ms) => Op::SleepMs(*ms),
        }
    }
}

/// The mathematical value of a bus program.
pub open spec fn ops_view(ops: Seq<BusOp>) -> Seq<Op> {
    ops.map_values(|o: BusOp| o@)
}

/// A command byte (data/command line low), then its parameter bytes, if any,
/// with the line high.
pub open spec fn command_ops(cmd: u8, data: Seq<u8>) -> Seq<Op> {
    if data.len() == 0 {
        seq![Op::SetDc(false), Op::Write(seq![cmd])]
    } else {
        seq![Op::SetDc(false), Op::Write(seq![cmd]), Op::SetDc(true), Op::Write(data)]
    }
}

/// The reset pulse: line low for 10 ms, then high for 10 ms.
pub open spec fn hw_reset_ops() -> Seq<Op> {
    seq![
        Op::SetReset(false),
        Op::SleepMs(RESET_PULSE_MS),
        Op::SetReset(true),
        Op::SleepMs(RESET_PULSE_MS),
    ]
}

/// The initialisation: reset pulse, then the register setup of the Fates panel.
pub open spec fn init_ops() -> Seq<Op> {
    hw_reset_ops() + command_ops(CMD_DISPLAY_OFF, seq![]) + command_ops(
        CMD_DEFAULT_LINEAR_GRAY_SCALE,
        seq![],
    ) + command_ops(CMD_OSCILLATOR_FREQUENCY, seq![0x91u8]) + command_ops(
        CMD_MULTIPLEX_RATIO,
        seq![0x3Fu8],
    ) + command_ops(CMD_DISPLAY_OFFSET, seq![0x00u8]) + command_ops(
        CMD_DISPLAY_START_LINE,
        seq![0x00u8],
    ) + command_ops(CMD_VDD_REGULATOR, seq![0x01u8]) + command_ops(
        CMD_DISPLAY_ENHANCEMENT_A,
        seq![0xA0u8, 0xFDu8],
    ) + command_ops(CMD_CONTRAST_CURRENT, seq![0x7Fu8]) + command_ops(
        CMD_MASTER_CURRENT,
        seq![0x0Fu8],
    ) + command_ops(CMD_PHASE_LENGTH, seq![0xF2u8]) + command_ops(
        CMD_PRECHARGE_VOLTAGE,
        seq![0x1Fu8],
    ) + command_ops(CMD_VCOMH_VOLTAGE, seq![0x04u8]) + command_ops(
        CMD_DISPLAY_MODE_NORMAL,
        seq![],
    ) + command_ops(CMD_DUAL_COMM_LINE_MODE, seq![0x04u8, 0x11u8])
}

/// The frame's bytes in SPI writes of `chunk` bytes, the last one shorter.
pub open spec fn chunk_writes(frame: Seq<u8>, chunk: nat) -> Seq<Op>
    decreases frame.len(),
{
    if frame.len() == 0 || chunk == 0 {
        Seq::empty()
    } else if frame.len() <= chunk {
        seq![Op::Write(frame)]
    } else {
        seq![Op::Write(frame.take(chunk as int))] + chunk_writes(frame.skip(chunk as int), chunk)
    }
}

/// Opening the whole panel window for a RAM write, data line high.
pub open spec fn window_ops() -> Seq<Op> {
    command_ops(CMD_SET_COLUMN_ADDRESS, seq![COL_START, COL_END]) + command_ops(
        CMD_SET_ROW_ADDRESS,
        seq![ROW_START, ROW_END],
    ) + command_ops(CMD_WRITE_RAM, seq![]) + seq![Op::SetDc(true)]
}

/// Pushing a frame: open the window, then stream the frame in chunks.
pub open spec fn flush_ops(frame: Seq<u8>, chunk: nat) -> Seq<Op> {
    window_ops() + chunk_writes(frame, chunk)
}

/// The bytes that a program writes on the SPI bus, in order.
pub open spec fn written_bytes(ops: Seq<Op>) -> Seq<u8>
    decreases ops.len(),
{
    if ops.len() == 0 {
        Seq::empty()
    } else {
        let rest = written_bytes(ops.drop_first());
        match ops[0] {
            Op::Write(b) => b + rest,
            _ => rest,
        }
    }
}

/// The byte that shows a 4 bit luma: the luma in both nibbles.
pub open spec fn pixel_byte(luma: u8) -> u8 {
    (luma * 17) as u8
}

/// The framebuffer after drawing one byte at pixel `(x, y)`; a pixel outside
/// the panel leaves it unchanged.
pub open spec fn with_pixel(frame: Seq<u8>, x: int, y: int, byte: u8) -> Seq<u8> {
    if 0 <= x < WIDTH && 0 <= y < HEIGHT {
        frame.update(y * WIDTH + x, byte)
    } else {
        frame
    }
}

/// A framebuffer with every byte equal to `byte`.
pub open spec fn filled(byte: u8) -> Seq<u8> {
    Seq::new(BUF_LEN as nat, |i: int| byte)
}

/// The spidev transfer size chosen from the content of its `bufsiz`
/// parameter: the number it holds (surrounding whitespace ignored), at least
/// 1; the fallback when it cannot be read or holds no number.
pub open spec fn spi_chunk_for(bufsiz: Option<Seq<char>>) -> int {
    match bufsiz {
        None => CHUNK_FALLBACK as int,
        Some(s) => match parse_unsigned_spec(trim(s), usize::MAX as int) {
            Ok(v) => if v >= 1 {
                v
            } else {
                1
            },
            Err(_) => CHUNK_FALLBACK as int,
        },
    }
}

/// Appends one command (and its parameters) to a program.
fn push_command(ops: &mut Vec<BusOp>, cmd: u8, data: &[u8])
    ensures
        ops_view(final(ops)@) == ops_view(old(ops)@) + command_ops(cmd, data@),
{
    let ghost before = ops@;
    let mut head: Vec<u8> = Vec::new();
    head.push(cmd);
    assert(head@ =~= seq![cmd]);
    ops.push(BusOp::SetDc(false));
    ops.push(BusOp::Write(head));
    assert(ops_view(ops@) =~= ops_view(before) + seq![Op::SetDc(false), Op::Write(seq![cmd])]);
    if data.len() != 0 {
        let ghost mid = ops@;
        ops.push(BusOp::SetDc(true));
        let mut bytes: Vec<u8> = Vec::new();
        let mut i: usize = 0;
        while i < data.len()
            invariant
                i <= data@.len(),
                bytes@ == data@.take(i as int),
            decreases data@.len() - i,
        {
            bytes.push(data[i]);
            i = i + 1;
        }
        assert(bytes@ =~= data@);
        ops.push(BusOp::Write(bytes));
        assert(ops_view(ops@) =~= ops_view(mid) + seq![Op::SetDc(true), Op::Write(data@)]);
    }
    assert(ops_view(ops@) =~= ops_view(before) + command_ops(cmd, data@));
}

/// Appends the chunked writes of `frame[start..]` to a program.
fn push_chunks(ops: &mut Vec<BusOp>, frame: &[u8], chunk: usize)
    requires
        chunk >= 1,
    ensures
        ops_view(final(ops)@) == ops_view(old(ops)@) + chunk_writes(frame@, chunk as nat),
{
    let n = frame.len();
    let mut start: usize = 0;
    assert(frame@.skip(0) =~= frame@);
    while start < n
        invariant
            chunk >= 1,
            n == frame@.len(),
            start <= n,
            ops_view(ops@) + chunk_writes(frame@.skip(start as int), chunk as nat) == ops_view(
                old(ops)@,
            ) + chunk_writes(frame@, chunk as nat),
        decreases n - start,
    {
        let end = if n - start <= chunk {
            n
        } else {
            start + chunk
        };
        let mut bytes: Vec<u8> = Vec::new();
        let mut i: usize = start;
        while i < end
            invariant
                start <= i <= end <= n == frame@.len(),
                bytes@ == frame@.subrange(start as int, i as int),
            decreases end - i,
        {
            bytes.push(frame[i]);
            i = i + 1;
        }
        let ghost rest = frame@.skip(start as int);
        let ghost before = ops_view(ops@);
        ops.push(BusOp::Write(bytes));
        proof {
            if n - start <= chunk {
                assert(bytes@ =~= rest);
                assert(frame@.skip(end as int) =~= Seq::<u8>::empty());
                assert(chunk_writes(rest, chunk as nat) == seq![Op::Write(rest)]);
            } else {
                assert(bytes@ =~= rest.take(chunk as int));
                assert(rest.skip(chunk as int) =~= frame@.skip(end as int));
            }
            assert(ops_view(ops@) =~= before + seq![Op::Write(bytes@)]);
        }
        start = end;
    }
}

/// The SSD1322 framebuffer with the SPI transfer size of the bus it is pushed on.
pub struct Ssd1322 {
    buf: Vec<u8>,
    chunk: usize,
}

impl Ssd1322 {
    /// The framebuffer is whole and the transfer size usable.
    pub closed spec fn well_formed(&self) -> bool {
        self.buf@.len() == BUF_LEN && self.chunk >= 1
    }

    /// The framebuffer's bytes, row after row.
    pub closed spec fn frame_bytes(&self) -> Seq<u8> {
        self.buf@
    }

    /// The SPI transfer size.
    pub closed spec fn chunk_size(&self) -> nat {
        self.chunk as nat
    }

    /// A well-formed framebuffer holds the whole panel, and its transfer size
    /// is at least 1.
    pub proof fn lemma_well_formed(&self)
        requires
            self.well_formed(),
        ensures
            self.frame_bytes().len() == BUF_LEN,
            self.chunk_size() >= 1,
    {
    }

    /// A black framebuffer pushed in transfers of `chunk` bytes.
    pub fn new(chunk: usize) -> (d: Self)
        requires
            chunk >= 1,
        ensures
            d.well_formed(),
            d.frame_bytes() == filled(0),
            d.chunk_size() == chunk,
    {
        let mut buf: Vec<u8> = Vec::new();
        let mut i: usize = 0;
        while i < BUF_LEN
            invariant
                i <= BUF_LEN,
                buf@ == Seq::new(i as nat, |j: int| 0u8),
            decreases BUF_LEN - i,
        {
            buf.push(0);
            i = i + 1;
        }
        Ssd1322 { buf, chunk }
    }

    /// The framebuffer's bytes, row after row.
    pub fn frame(&self) -> (f: &[u8])
        ensures
            f@ == self.frame_bytes(),
    {
        self.buf.as_slice()
    }

    /// The SPI transfer size.
    pub fn chunk(&self) -> (c: usize)
        ensures
            c == self.chunk_size(),
    {
        self.chunk
    }

    /// The panel size in pixels, `(width, height)`.
    pub fn size() -> (s: (u32, u32))
        ensures
            s == (WIDTH as u32, HEIGHT as u32),
    {
        (WIDTH as u32, HEIGHT as u32)
    }

    /// Sends a command byte, then its parameter bytes if there are any.
    pub fn command(cmd: u8, data: &[u8]) -> (ops: Vec<BusOp>)
        ensures
            ops_view(ops@) == command_ops(cmd, data@),
    {
        let mut ops: Vec<BusOp> = Vec::new();
        push_command(&mut ops, cmd, data);
        assert(ops_view(Seq::<BusOp>::empty()) =~= Seq::<Op>::empty());
        assert(Seq::<Op>::empty() + command_ops(cmd, data@) =~= command_ops(cmd, data@));
        ops
    }

    /// The hardware reset pulse.
    pub fn hw_reset() -> (ops: Vec<BusOp>)
        ensures
            ops_view(ops@) == hw_reset_ops(),
    {
        let ops = vec![
            BusOp::SetReset(false),
            BusOp::SleepMs(RESET_PULSE_MS),
            BusOp::SetReset(true),
            BusOp::SleepMs(RESET_PULSE_MS),
        ];
        assert(ops_view(ops@) =~= hw_reset_ops());
        ops
    }

    /// Reset, then the register setup of the Fates panel (dual COM line mode
    /// 0x04, 0x11).
    pub fn init() -> (ops: Vec<BusOp>)
        ensures
            ops_view(ops@) == init_ops(),
    {
        let none: &[u8] = &[];
        assert(none@ =~= Seq::<u8>::empty());
        let mut ops = Self::hw_reset();
        push_command(&mut ops, CMD_DISPLAY_OFF, none);
        push_command(&mut ops, CMD_DEFAULT_LINEAR_GRAY_SCALE, none);
        let d1: &[u8] = &[0x91];
        assert(d1@ =~= seq![0x91u8]);
        push_command(&mut ops, CMD_OSCILLATOR_FREQUENCY, d1);
        let d2: &[u8] = &[0x3F];
        assert(d2@ =~= seq![0x3Fu8]);
        push_command(&mut ops, CMD_MULTIPLEX_RATIO, d2);
        let d3: &[u8] = &[0x00];
        assert(d3@ =~= seq![0x00u8]);
        push_command(&mut ops, CMD_DISPLAY_OFFSET, d3);
        let d4: &[u8] = &[0x00];
        assert(d4@ =~= seq![0x00u8]);
        push_command(&mut ops, CMD_DISPLAY_START_LINE, d4);
        let d5: &[u8] = &[0x01];
        assert(d5@ =~= seq![0x01u8]);
        push_command(&mut ops, CMD_VDD_REGULATOR, d5);
        let d6: &[u8] = &[0xA0, 0xFD];
        assert(d6@ =~= seq![0xA0u8, 0xFDu8]);
        push_command(&mut ops, CMD_DISPLAY_ENHANCEMENT_A, d6);
        let d7: &[u8] = &[0x7F];
        assert(d7@ =~= seq![0x7Fu8]);
        push_command(&mut ops, CMD_CONTRAST_CURRENT, d7);
        let d8: &[u8] = &[0x0F];
        assert(d8@ =~= seq![0x0Fu8]);
        push_command(&mut ops, CMD_MASTER_CURRENT, d8);
        let phase: u8 = 0x02 | 0xF0;
        assert(phase == 0xF2) by (bit_vector)
            requires
                phase == 0x02u8 | 0xF0u8,
        ;
        let d9: &[u8] = &[phase];
        assert(d9@ =~= seq![phase]);
        push_command(&mut ops, CMD_PHASE_LENGTH, d9);
        let d10: &[u8] = &[0x1F];
        assert(d10@ =~= seq![0x1Fu8]);
        push_command(&mut ops, CMD_PRECHARGE_VOLTAGE, d10);
        let d11: &[u8] = &[0x04];
        assert(d11@ =~= seq![0x04u8]);
        push_command(&mut ops, CMD_VCOMH_VOLTAGE, d11);
        push_command(&mut ops, CMD_DISPLAY_MODE_NORMAL, none);
        let d12: &[u8] = &[0x04, 0x11];
        assert(d12@ =~= seq![0x04u8, 0x11u8]);
        push_command(&mut ops, CMD_DUAL_COMM_LINE_MODE, d12);
        ops
    }

    /// Turns the panel on.
    pub fn display_on() -> (ops: Vec<BusOp>)
        ensures
            ops_view(ops@) == command_ops(CMD_DISPLAY_ON, seq![]),
    {
        Self::command(CMD_DISPLAY_ON, &[])
    }

    /// Pushes the framebuffer to the panel in transfers of the bus's size.
    pub fn flush(&self) -> (ops: Vec<BusOp>)
        requires
            self.well_formed(),
        ensures
            ops_view(ops@) == flush_ops(self.frame_bytes(), self.chunk_size()),
    {
        let mut ops: Vec<BusOp> = Vec::new();
        push_command(&mut ops, CMD_SET_COLUMN_ADDRESS, &[COL_START, COL_END]);
        push_command(&mut ops, CMD_SET_ROW_ADDRESS, &[ROW_START, ROW_END]);
        push_command(&mut ops, CMD_WRITE_RAM, &[]);
        let ghost before = ops_view(ops@);
        ops.push(BusOp::SetDc(true));
        assert(ops_view(ops@) =~= before + seq![Op::SetDc(true)]);
        push_chunks(&mut ops, self.buf.as_slice(), self.chunk);
        assert(ops_view(ops@) =~= flush_ops(self.frame_bytes(), self.chunk_size()));
        ops
    }

    /// Pushes a whole frame in 4096 byte transfers, then turns the panel on.
    pub fn blit(frame: &[u8]) -> (ops: Vec<BusOp>)
        requires
            frame@.len() == BUF_LEN,
        ensures
            ops_view(ops@) == flush_ops(frame@, SPI_CHUNK as nat) + command_ops(
                CMD_DISPLAY_ON,
                seq![],
            ),
    {
        let mut ops: Vec<BusOp> = Vec::new();
        push_command(&mut ops, CMD_SET_COLUMN_ADDRESS, &[COL_START, COL_END]);
        push_command(&mut ops, CMD_SET_ROW_ADDRESS, &[ROW_START, ROW_END]);
        push_command(&mut ops, CMD_WRITE_RAM, &[]);
        let ghost before = ops_view(ops@);
        ops.push(BusOp::SetDc(true));
        assert(ops_view(ops@) =~= before + seq![Op::SetDc(true)]);
        push_chunks(&mut ops, frame, SPI_CHUNK);
        push_command(&mut ops, CMD_DISPLAY_ON, &[]);
        assert(ops_view(ops@) =~= flush_ops(frame@, SPI_CHUNK as nat) + command_ops(
            CMD_DISPLAY_ON,
            seq![],
        ));
        ops
    }

    /// Sets one pixel to a 4 bit gray level (the luma of an embedded-graphics
    /// `Gray4`), written in both nibbles of its byte; a pixel outside the panel
    /// is ignored.
    pub fn set_pixel(&mut self, x: i32, y: i32, luma: u8)
        requires
            old(self).well_formed(),
            luma <= 15,
        ensures
            final(self).well_formed(),
            final(self).chunk_size() == old(self).chunk_size(),
            final(self).frame_bytes() == with_pixel(old(self).frame_bytes(), x as int, y as int, pixel_byte(luma)),
    {
        if 0 <= x && x < WIDTH as i32 && 0 <= y && y < HEIGHT as i32 {
            let byte = (luma << 4) | luma;
            assert(byte == pixel_byte(luma)) by (bit_vector)
                requires
                    byte == (luma << 4) | luma,
                    luma <= 15,
            ;
            let idx = (y as usize) * WIDTH + (x as usize);
            self.buf.set(idx, byte);
        }
    }

    /// Fills the whole framebuffer with one 4 bit gray level.
    pub fn clear(&mut self, luma: u8)
        requires
            old(self).well_formed(),
            luma <= 15,
        ensures
            final(self).well_formed(),
            final(self).chunk_size() == old(self).chunk_size(),
            final(self).frame_bytes() == filled(pixel_byte(luma)),
    {
        let byte = (luma << 4) | luma;
        assert(byte == pixel_byte(luma)) by (bit_vector)
            requires
                byte == (luma << 4) | luma,
                luma <= 15,
        ;
        let mut i: usize = 0;
        while i < BUF_LEN
            invariant
                i <= BUF_LEN,
                self.buf@.len() == BUF_LEN,
                self.chunk >= 1,
                self.chunk == old(self).chunk,
                byte == pixel_byte(luma),
                forall|j: int| 0 <= j < i ==> self.buf@[j] == pixel_byte(luma),
            decreases BUF_LEN - i,
        {
            self.buf.set(i, byte);
            i = i + 1;
        }
        assert(self.buf@ =~= filled(pixel_byte(luma)));
    }
}

/// The spidev transfer size from the content of its `bufsiz` parameter, if it
/// could be read: the number it holds, at least 1; 4096 otherwise.
pub fn spi_chunk_from_bufsiz(bufsiz: Option<&str>) -> (chunk: usize)
    ensures
        chunk == spi_chunk_for(
            match bufsiz {
                Some(s) => Some(s@),
                None => None,
            },
        ),
        chunk >= 1,
{
    match bufsiz {
        None => CHUNK_FALLBACK,
        Some(s) => {
            let cs = chars_of(s);
            match parse_unsigned_trimmed(cs.as_slice(), usize::MAX as u64) {
                Ok(v) => if v >= 1 {
                    v as usize
                } else {
                    1
                },
                Err(_) => CHUNK_FALLBACK,
            }
        },
    }
}

/// The bytes written by two programs run one after the other.
proof fn lemma_written_bytes_concat(a: Seq<Op>, b: Seq<Op>)
    ensures
        written_bytes(a + b) == written_bytes(a) + written_bytes(b),
    decreases a.len(),
{
    if a.len() == 0 {
        assert(a + b =~= b);
    } else {
        assert((a + b).drop_first() =~= a.drop_first() + b);
        lemma_written_bytes_concat(a.drop_first(), b);
        match a[0] {
            Op::Write(x) => {
                assert(x + (written_bytes(a.drop_first()) + written_bytes(b)) =~= (x
                    + written_bytes(a.drop_first())) + written_bytes(b));
            },
            _ => {},
        }
    }
}

/// Chunked transfers reassemble the frame: the writes hold the frame's bytes
/// in order, each between 1 and `chunk` bytes, in `ceil(len / chunk)` writes.
pub proof fn lemma_chunk_writes_cover_frame(frame: Seq<u8>, chunk: nat)
    requires
        chunk >= 1,
    ensures
        written_bytes(chunk_writes(frame, chunk)) == frame,
        chunk_writes(frame, chunk).len() == (frame.len() + chunk - 1) / (chunk as int),
        forall|i: int|
            0 <= i < chunk_writes(frame, chunk).len() ==> (#[trigger] chunk_writes(frame, chunk)[i] matches Op::Write(b) && 1 <= b.len() <= chunk),
    decreases frame.len(),
{
    let c = chunk as int;
    let l = frame.len() as int;
    if frame.len() == 0 {
        vstd::arithmetic::div_mod::lemma_fundamental_div_mod_converse(c - 1, c, 0, c - 1);
    } else if frame.len() <= chunk {
        assert(written_bytes(seq![Op::Write(frame)]) == frame + written_bytes(
            seq![Op::Write(frame)].drop_first(),
        ));
        assert(frame + Seq::<u8>::empty() =~= frame);
        vstd::arithmetic::div_mod::lemma_fundamental_div_mod_converse(l + c - 1, c, 1, l - 1);
    } else {
        let head = frame.take(c);
        let tail = frame.skip(c);
        lemma_chunk_writes_cover_frame(tail, chunk);
        lemma_written_bytes_concat(seq![Op::Write(head)], chunk_writes(tail, chunk));
        assert(written_bytes(seq![Op::Write(head)]) == head + written_bytes(
            seq![Op::Write(head)].drop_first(),
        ));
        assert(head + Seq::<u8>::empty() =~= head);
        assert(head + tail =~= frame);
        let q = (l - 1) / c;
        assert(tail.len() + c - 1 == l - 1);
        vstd::arithmetic::div_mod::lemma_fundamental_div_mod(l - 1, c);
        let r = (l - 1) % c;
        assert(l + c - 1 == (q + 1) * c + r) by (nonlinear_arith)
            requires
                l - 1 == c * q + r,
        ;
        vstd::arithmetic::div_mod::lemma_fundamental_div_mod_converse(
            l + c - 1,
            c,
            q + 1,
            (l - 1) % c,
        );
        let w = chunk_writes(frame, chunk);
        assert forall|i: int| 0 <= i < w.len() implies (#[trigger] w[i] matches Op::Write(b) && 1
            <= b.len() <= chunk) by {
            if i > 0 {
                assert(w[i] == chunk_writes(tail, chunk)[i - 1]);
            }
        }
    }
}

/// Pushing a frame writes the window setup bytes, then exactly the frame.
pub proof fn lemma_flush_writes_window_then_frame(frame: Seq<u8>, chunk: nat)
    requires
        chunk >= 1,
    ensures
        written_bytes(flush_ops(frame, chunk)) == seq![
            CMD_SET_COLUMN_ADDRESS,
            COL_START,
            COL_END,
            CMD_SET_ROW_ADDRESS,
            ROW_START,
            ROW_END,
            CMD_WRITE_RAM,
        ] + frame,
{
    let a = command_ops(CMD_SET_COLUMN_ADDRESS, seq![COL_START, COL_END]);
    let b = command_ops(CMD_SET_ROW_ADDRESS, seq![ROW_START, ROW_END]);
    let c = command_ops(CMD_WRITE_RAM, seq![]);
    let d = seq![Op::SetDc(true)];
    lemma_chunk_writes_cover_frame(frame, chunk);
    lemma_written_bytes_concat(a + b + c + d, chunk_writes(frame, chunk));
    lemma_written_bytes_concat(a + b + c, d);
    lemma_written_bytes_concat(a + b, c);
    lemma_written_bytes_concat(a, b);
    reveal_with_fuel(written_bytes, 5);
    assert(written_bytes(a) =~= seq![CMD_SET_COLUMN_ADDRESS, COL_START, COL_END]);
    assert(written_bytes(b) =~= seq![CMD_SET_ROW_ADDRESS, ROW_START, ROW_END]);
    assert(written_bytes(c) =~= seq![CMD_WRITE_RAM]);
    assert(written_bytes(d) =~= Seq::<u8>::empty());
    assert(written_bytes(flush_ops(frame, chunk)) =~= seq![
        CMD_SET_COLUMN_ADDRESS,
        COL_START,
        COL_END,
        CMD_SET_ROW_ADDRESS,
        ROW_START,
        ROW_END,
        CMD_WRITE_RAM,
    ] + frame);
}

/// A pixel's byte carries its luma in the high nibble, which the panel reads,
/// and again in the low nibble.
pub proof fn lemma_pixel_byte_nibbles(luma: u8)
    requires
        luma <= 15,
    ensures
        pixel_byte(luma) / 16 == luma,
        pixel_byte(luma) % 16 == luma,
{
}

/// What the panel receives when a program runs from a data/command line at
/// `dc`: each byte written, in order, with the line's level at that moment
/// (`true`: the panel reads it as data, `false`: as a command).
pub open spec fn panel_input(ops: Seq<Op>, dc: bool) -> Seq<(u8, bool)>
    decreases ops.len(),
{
    if ops.len() == 0 {
        Seq::empty()
    } else {
        match ops[0] {
            Op::SetDc(level) => panel_input(ops.drop_first(), level),
            Op::Write(bytes) => bytes.map_values(|b: u8| (b, dc)) + panel_input(
                ops.drop_first(),
                dc,
            ),
            _ => panel_input(ops.drop_first(), dc),
        }
    }
}

/// The level of the data/command line after a program ran from `dc`.
pub open spec fn dc_after(ops: Seq<Op>, dc: bool) -> bool
    decreases ops.len(),
{
    if ops.len() == 0 {
        dc
    } else {
        match ops[0] {
            Op::SetDc(level) => dc_after(ops.drop_first(), level),
            _ => dc_after(ops.drop_first(), dc),
        }
    }
}

/// Bytes that the panel reads as data.
pub open spec fn as_data(bytes: Seq<u8>) -> Seq<(u8, bool)> {
    bytes.map_values(|b: u8| (b, true))
}

/// Two programs run one after the other.
proof fn lemma_panel_input_concat(a: Seq<Op>, b: Seq<Op>, dc: bool)
    ensures
        panel_input(a + b, dc) == panel_input(a, dc) + panel_input(b, dc_after(a, dc)),
        dc_after(a + b, dc) == dc_after(b, dc_after(a, dc)),
    decreases a.len(),
{
    if a.len() == 0 {
        assert(a + b =~= b);
        assert(panel_input(a, dc) + panel_input(b, dc) =~= panel_input(b, dc));
    } else {
        assert((a + b).drop_first() =~= a.drop_first() + b);
        assert((a + b)[0] == a[0]);
        match a[0] {
            Op::SetDc(level) => {
                lemma_panel_input_concat(a.drop_first(), b, level);
            },
            Op::Write(bytes) => {
                lemma_panel_input_concat(a.drop_first(), b, dc);
                let m = bytes.map_values(|x: u8| (x, dc));
                assert(m + (panel_input(a.drop_first(), dc) + panel_input(
                    b,
                    dc_after(a.drop_first(), dc),
                )) =~= (m + panel_input(a.drop_first(), dc)) + panel_input(
                    b,
                    dc_after(a.drop_first(), dc),
                ));
            },
            _ => {
                lemma_panel_input_concat(a.drop_first(), b, dc);
            },
        }
    }
}

/// A command reaches the panel as its command byte read as a command, then
/// its parameter bytes read as data; the line is left high after
/// parameters, low otherwise.
pub proof fn lemma_command_reaches_panel(cmd: u8, data: Seq<u8>, dc: bool)
    ensures
        panel_input(command_ops(cmd, data), dc) == seq![(cmd, false)] + as_data(data),
        dc_after(command_ops(cmd, data), dc) == (data.len() > 0),
{
    let c = command_ops(cmd, data);
    reveal_with_fuel(panel_input, 5);
    reveal_with_fuel(dc_after, 5);
    assert(seq![cmd].map_values(|b: u8| (b, false)) =~= seq![(cmd, false)]);
    if data.len() == 0 {
        assert(c.drop_first().drop_first() =~= Seq::<Op>::empty());
        assert(as_data(data) =~= Seq::<(u8, bool)>::empty());
        assert(panel_input(c, dc) =~= seq![(cmd, false)] + as_data(data));
    } else {
        assert(c.drop_first().drop_first().drop_first().drop_first() =~= Seq::<Op>::empty());
        assert(panel_input(c, dc) =~= seq![(cmd, false)] + as_data(data));
    }
}

/// Appending a command to a program.
proof fn lemma_append_command(p: Seq<Op>, cmd: u8, data: Seq<u8>, dc: bool)
    ensures
        panel_input(p + command_ops(cmd, data), dc) == panel_input(p, dc) + seq![(cmd, false)]
            + as_data(data),
        dc_after(p + command_ops(cmd, data), dc) == (data.len() > 0),
{
    lemma_panel_input_concat(p, command_ops(cmd, data), dc);
    lemma_command_reaches_panel(cmd, data, dc_after(p, dc));
    assert(panel_input(p, dc) + (seq![(cmd, false)] + as_data(data)) =~= panel_input(p, dc)
        + seq![(cmd, false)] + as_data(data));
}

/// The chunked writes of a frame, from a high line, reach the panel as the
/// frame's bytes read as data, and leave the line high.
proof fn lemma_chunk_writes_reach_panel(frame: Seq<u8>, chunk: nat)
    requires
        chunk >= 1,
    ensures
        panel_input(chunk_writes(frame, chunk), true) == as_data(frame),
        dc_after(chunk_writes(frame, chunk), true),
    decreases frame.len(),
{
    reveal_with_fuel(panel_input, 2);
    reveal_with_fuel(dc_after, 2);
    if frame.len() == 0 {
        assert(as_data(frame) =~= Seq::<(u8, bool)>::empty());
    } else if frame.len() <= chunk {
        let w = seq![Op::Write(frame)];
        assert(w.drop_first() =~= Seq::<Op>::empty());
        assert(panel_input(w, true) =~= as_data(frame));
    } else {
        let head = frame.take(chunk as int);
        let tail = frame.skip(chunk as int);
        lemma_chunk_writes_reach_panel(tail, chunk);
        let w = seq![Op::Write(head)];
        lemma_panel_input_concat(w, chunk_writes(tail, chunk), true);
        assert(w.drop_first() =~= Seq::<Op>::empty());
        assert(panel_input(w, true) =~= as_data(head));
        assert(as_data(head) + as_data(tail) =~= as_data(frame));
    }
}

/// Pushing a frame sends, whatever the line's level before: the column
/// address command 0x15 with data 28, 91; the row address command 0x75 with
/// data 0, 63; the write-RAM command 0x5C; then every byte of the frame, in
/// order, as data.
pub proof fn lemma_flush_reaches_panel(frame: Seq<u8>, chunk: nat, dc: bool)
    requires
        chunk >= 1,
    ensures
        panel_input(flush_ops(frame, chunk), dc) == seq![
            (0x15u8, false),
            (28u8, true),
            (91u8, true),
            (0x75u8, false),
            (0u8, true),
            (63u8, true),
            (0x5Cu8, false),
        ] + frame.map_values(|b: u8| (b, true)),
        dc_after(flush_ops(frame, chunk), dc),
{
    let e: Seq<Op> = Seq::empty();
    let p1 = e + command_ops(CMD_SET_COLUMN_ADDRESS, seq![COL_START, COL_END]);
    let p2 = p1 + command_ops(CMD_SET_ROW_ADDRESS, seq![ROW_START, ROW_END]);
    let p3 = p2 + command_ops(CMD_WRITE_RAM, seq![]);
    let p4 = p3 + seq![Op::SetDc(true)];
    lemma_append_command(e, CMD_SET_COLUMN_ADDRESS, seq![COL_START, COL_END], dc);
    lemma_append_command(p1, CMD_SET_ROW_ADDRESS, seq![ROW_START, ROW_END], dc);
    lemma_append_command(p2, CMD_WRITE_RAM, seq![], dc);
    lemma_panel_input_concat(p3, seq![Op::SetDc(true)], dc);
    reveal_with_fuel(panel_input, 2);
    reveal_with_fuel(dc_after, 2);
    assert(seq![Op::SetDc(true)].drop_first() =~= Seq::<Op>::empty());
    assert(e + command_ops(CMD_SET_COLUMN_ADDRESS, seq![COL_START, COL_END]) =~= command_ops(
        CMD_SET_COLUMN_ADDRESS,
        seq![COL_START, COL_END],
    ));
    assert(p4 =~= window_ops());
    lemma_chunk_writes_reach_panel(frame, chunk);
    lemma_panel_input_concat(p4, chunk_writes(frame, chunk), dc);
    assert(panel_input(e, dc) =~= Seq::<(u8, bool)>::empty());
    assert(as_data(seq![COL_START, COL_END]) =~= seq![(28u8, true), (91u8, true)]);
    assert(as_data(seq![ROW_START, ROW_END]) =~= seq![(0u8, true), (63u8, true)]);
    assert(as_data(Seq::<u8>::empty()) =~= Seq::<(u8, bool)>::empty());
    assert(panel_input(flush_ops(frame, chunk), dc) =~= seq![
        (0x15u8, false),
        (28u8, true),
        (91u8, true),
        (0x75u8, false),
        (0u8, true),
        (63u8, true),
        (0x5Cu8, false),
    ] + frame.map_values(|b: u8| (b, true)));
}

/// The initialisation first pulses the reset line low for 10 ms, then high
/// for 10 ms; the panel then receives, whatever the line's level before, the
/// register setup of the Fates panel, each command byte read as a command
/// and each parameter byte as data: 0xAE; 0xB9; 0xB3 0x91; 0xCA 0x3F;
/// 0xA2 0x00; 0xA1 0x00; 0xAB 0x01; 0xB4 0xA0 0xFD; 0xC1 0x7F; 0xC7 0x0F;
/// 0xB1 0xF2; 0xBB 0x1F; 0xBE 0x04; 0xA6; 0xA0 0x04 0x11.
pub proof fn lemma_init_reaches_panel(dc: bool)
    ensures
        init_ops().take(4) == seq![
            Op::SetReset(false),
            Op::SleepMs(10),
            Op::SetReset(true),
            Op::SleepMs(10),
        ],
        panel_input(init_ops(), dc) == seq![
            (0xAEu8, false),
            (0xB9u8, false),
            (0xB3u8, false),
            (0x91u8, true),
            (0xCAu8, false),
            (0x3Fu8, true),
            (0xA2u8, false),
            (0x00u8, true),
            (0xA1u8, false),
            (0x00u8, true),
            (0xABu8, false),
            (0x01u8, true),
            (0xB4u8, false),
            (0xA0u8, true),
            (0xFDu8, true),
            (0xC1u8, false),
            (0x7Fu8, true),
            (0xC7u8, false),
            (0x0Fu8, true),
            (0xB1u8, false),
            (0xF2u8, true),
            (0xBBu8, false),
            (0x1Fu8, true),
            (0xBEu8, false),
            (0x04u8, true),
            (0xA6u8, false),
            (0xA0u8, false),
            (0x04u8, true),
            (0x11u8, true),
        ],
{
    let r = hw_reset_ops();
    assert(panel_input(r, dc) =~= Seq::<(u8, bool)>::empty() && dc_after(r, dc) == dc) by {
        reveal_with_fuel(panel_input, 5);
        reveal_with_fuel(dc_after, 5);
        assert(r.drop_first().drop_first().drop_first().drop_first() =~= Seq::<Op>::empty());
    }
    let p0 = r;
    let p1 = p0 + command_ops(CMD_DISPLAY_OFF, Seq::<u8>::empty());
    let p2 = p1 + command_ops(CMD_DEFAULT_LINEAR_GRAY_SCALE, Seq::<u8>::empty());
    let p3 = p2 + command_ops(CMD_OSCILLATOR_FREQUENCY, seq![0x91u8]);
    let p4 = p3 + command_ops(CMD_MULTIPLEX_RATIO, seq![0x3Fu8]);
    let p5 = p4 + command_ops(CMD_DISPLAY_OFFSET, seq![0x00u8]);
    let p6 = p5 + command_ops(CMD_DISPLAY_START_LINE, seq![0x00u8]);
    let p7 = p6 + command_ops(CMD_VDD_REGULATOR, seq![0x01u8]);
    let p8 = p7 + command_ops(CMD_DISPLAY_ENHANCEMENT_A, seq![0xA0u8, 0xFDu8]);
    let p9 = p8 + command_ops(CMD_CONTRAST_CURRENT, seq![0x7Fu8]);
    let p10 = p9 + command_ops(CMD_MASTER_CURRENT, seq![0x0Fu8]);
    let p11 = p10 + command_ops(CMD_PHASE_LENGTH, seq![0xF2u8]);
    let p12 = p11 + command_ops(CMD_PRECHARGE_VOLTAGE, seq![0x1Fu8]);
    let p13 = p12 + command_ops(CMD_VCOMH_VOLTAGE, seq![0x04u8]);
    let p14 = p13 + command_ops(CMD_DISPLAY_MODE_NORMAL, Seq::<u8>::empty());
    let p15 = p14 + command_ops(CMD_DUAL_COMM_LINE_MODE, seq![0x04u8, 0x11u8]);
    assert(panel_input(p1, dc) =~= seq![(0xAEu8, false)]) by {
        lemma_append_command(p0, CMD_DISPLAY_OFF, Seq::<u8>::empty(), dc);
        assert(as_data(Seq::<u8>::empty()) =~= Seq::<(u8, bool)>::empty());
        assert(panel_input(p0, dc) =~= Seq::<(u8, bool)>::empty());
    }
    assert(panel_input(p2, dc) =~= seq![(0xAEu8, false), (0xB9u8, false)]) by {
        lemma_append_command(p1, CMD_DEFAULT_LINEAR_GRAY_SCALE, Seq::<u8>::empty(), dc);
        assert(as_data(Seq::<u8>::empty()) =~= Seq::<(u8, bool)>::empty());
        assert(panel_input(p1, dc) =~= seq![(0xAEu8, false)]);
    }
    assert(panel_input(p3, dc) =~= seq![(0xAEu8, false), (0xB9u8, false), (0xB3u8, false), (0x91u8, true)]) by {
        lemma_append_command(p2, CMD_OSCILLATOR_FREQUENCY, seq![0x91u8], dc);
        assert(as_data(seq![0x91u8]) =~= seq![(0x91u8, true)]);
        assert(panel_input(p2, dc) =~= seq![(0xAEu8, false), (0xB9u8, false)]);
    }
    assert(panel_input(p4, dc) =~= seq![(0xAEu8, false), (0xB9u8, false), (0xB3u8, false), (0x91u8, true), (0xCAu8, false), (0x3Fu8, true)]) by {
        lemma_append_command(p3, CMD_MULTIPLEX_RATIO, seq![0x3Fu8], dc);
        assert(as_data(seq![0x3Fu8]) =~= seq![(0x3Fu8, true)]);
        assert(panel_input(p3, dc) =~= seq![(0xAEu8, false), (0xB9u8, false), (0xB3u8, false), (0x91u8, true)]);
    }
    assert(panel_input(p5, dc) =~= seq![(0xAEu8, false), (0xB9u8, false), (0xB3u8, false), (0x91u8, true), (0xCAu8, false), (0x3Fu8, true), (0xA2u8, false), (0x00u8, true)]) by {
        lemma_append_command(p4, CMD_DISPLAY_OFFSET, seq![0x00u8], dc);
        assert(as_data(seq![0x00u8]) =~= seq![(0x00u8, true)]);
        assert(panel_input(p4, dc) =~= seq![(0xAEu8, false), (0xB9u8, false), (0xB3u8, false), (0x91u8, true), (0xCAu8, false), (0x3Fu8, true)]);
    }
    assert(panel_input(p6, dc) =~= seq![(0xAEu8, false), (0xB9u8, false), (0xB3u8, false), (0x91u8, true), (0xCAu8, false), (0x3Fu8, true), (0xA2u8, false), (0x00u8, true), (0xA1u8, false), (0x00u8, true)]) by {
        lemma_append_command(p5, CMD_DISPLAY_START_LINE, seq![0x00u8], dc);
        assert(as_data(seq![0x00u8]) =~= seq![(0x00u8, true)]);
        assert(panel_input(p5, dc) =~= seq![(0xAEu8, false), (0xB9u8, false), (0xB3u8, false), (0x91u8, true), (0xCAu8, false), (0x3Fu8, true), (0xA2u8, false), (0x00u8, true)]);
    }
    assert(panel_input(p7, dc) =~= seq![(0xAEu8, false), (0xB9u8, false), (0xB3u8, false), (0x91u8, true), (0xCAu8, false), (0x3Fu8, true), (0xA2u8, false), (0x00u8, true), (0xA1u8, false), (0x00u8, true), (0xABu8, false), (0x01u8, true)]) by {
        lemma_append_command(p6, CMD_VDD_REGULATOR, seq![0x01u8], dc);
        assert(as_data(seq![0x01u8]) =~= seq![(0x01u8, true)]);
        assert(panel_input(p6, dc) =~= seq![(0xAEu8, false), (0xB9u8, false), (0xB3u8, false), (0x91u8, true), (0xCAu8, false), (0x3Fu8, true), (0xA2u8, false), (0x00u8, true), (0xA1u8, false), (0x00u8, true)]);
    }
    assert(panel_input(p8, dc) =~= seq![(0xAEu8, false), (0xB9u8, false), (0xB3u8, false), (0x91u8, true), (0xCAu8, false), (0x3Fu8, true), (0xA2u8, false), (0x00u8, true), (0xA1u8, false), (0x00u8, true), (0xABu8, false), (0x01u8, true), (0xB4u8, false), (0xA0u8, true), (0xFDu8, true)]) by {
        lemma_append_command(p7, CMD_DISPLAY_ENHANCEMENT_A, seq![0xA0u8, 0xFDu8], dc);
        assert(as_data(seq![0xA0u8, 0xFDu8]) =~= seq![(0xA0u8, true), (0xFDu8, true)]);
        assert(panel_input(p7, dc) =~= seq![(0xAEu8, false), (0xB9u8, false), (0xB3u8, false), (0x91u8, true), (0xCAu8, false), (0x3Fu8, true), (0xA2u8, false), (0x00u8, true), (0xA1u8, false), (0x00u8, true), (0xABu8, false), (0x01u8, true)]);
    }
    assert(panel_input(p9, dc) =~= seq![(0xAEu8, false), (0xB9u8, false), (0xB3u8, false), (0x91u8, true), (0xCAu8, false), (0x3Fu8, true), (0xA2u8, false), (0x00u8, true), (0xA1u8, false), (0x00u8, true), (0xABu8, false), (0x01u8, true), (0xB4u8, false), (0xA0u8, true), (0xFDu8, true), (0xC1u8, false), (0x7Fu8, true)]) by {
        lemma_append_command(p8, CMD_CONTRAST_CURRENT, seq![0x7Fu8], dc);
        assert(as_data(seq![0x7Fu8]) =~= seq![(0x7Fu8, true)]);
        assert(panel_input(p8, dc) =~= seq![(0xAEu8, false), (0xB9u8, false), (0xB3u8, false), (0x91u8, true), (0xCAu8, false), (0x3Fu8, true), (0xA2u8, false), (0x00u8, true), (0xA1u8, false), (0x00u8, true), (0xABu8, false), (0x01u8, true), (0xB4u8, false), (0xA0u8, true), (0xFDu8, true)]);
    }
    assert(panel_input(p10, dc) =~= seq![(0xAEu8, false), (0xB9u8, false), (0xB3u8, false), (0x91u8, true), (0xCAu8, false), (0x3Fu8, true), (0xA2u8, false), (0x00u8, true), (0xA1u8, false), (0x00u8, true), (0xABu8, false), (0x01u8, true), (0xB4u8, false), (0xA0u8, true), (0xFDu8, true), (0xC1u8, false), (0x7Fu8, true), (0xC7u8, false), (0x0Fu8, true)]) by {
        lemma_append_command(p9, CMD_MASTER_CURRENT, seq![0x0Fu8], dc);
        assert(as_data(seq![0x0Fu8]) =~= seq![(0x0Fu8, true)]);
        assert(panel_input(p9, dc) =~= seq![(0xAEu8, false), (0xB9u8, false), (0xB3u8, false), (0x91u8, true), (0xCAu8, false), (0x3Fu8, true), (0xA2u8, false), (0x00u8, true), (0xA1u8, false), (0x00u8, true), (0xABu8, false), (0x01u8, true), (0xB4u8, false), (0xA0u8, true), (0xFDu8, true), (0xC1u8, false), (0x7Fu8, true)]);
    }
    assert(panel_input(p11, dc) =~= seq![(0xAEu8, false), (0xB9u8, false), (0xB3u8, false), (0x91u8, true), (0xCAu8, false), (0x3Fu8, true), (0xA2u8, false), (0x00u8, true), (0xA1u8, false), (0x00u8, true), (0xABu8, false), (0x01u8, true), (0xB4u8, false), (0xA0u8, true), (0xFDu8, true), (0xC1u8, false), (0x7Fu8, true), (0xC7u8, false), (0x0Fu8, true), (0xB1u8, false), (0xF2u8, true)]) by {
        lemma_append_command(p10, CMD_PHASE_LENGTH, seq![0xF2u8], dc);
        assert(as_data(seq![0xF2u8]) =~= seq![(0xF2u8, true)]);
        assert(panel_input(p10, dc) =~= seq![(0xAEu8, false), (0xB9u8, false), (0xB3u8, false), (0x91u8, true), (0xCAu8, false), (0x3Fu8, true), (0xA2u8, false), (0x00u8, true), (0xA1u8, false), (0x00u8, true), (0xABu8, false), (0x01u8, true), (0xB4u8, false), (0xA0u8, true), (0xFDu8, true), (0xC1u8, false), (0x7Fu8, true), (0xC7u8, false), (0x0Fu8, true)]);
    }
    assert(panel_input(p12, dc) =~= seq![(0xAEu8, false), (0xB9u8, false), (0xB3u8, false), (0x91u8, true), (0xCAu8, false), (0x3Fu8, true), (0xA2u8, false), (0x00u8, true), (0xA1u8, false), (0x00u8, true), (0xABu8, false), (0x01u8, true), (0xB4u8, false), (0xA0u8, true), (0xFDu8, true), (0xC1u8, false), (0x7Fu8, true), (0xC7u8, false), (0x0Fu8, true), (0xB1u8, false), (0xF2u8, true), (0xBBu8, false), (0x1Fu8, true)]) by {
        lemma_append_command(p11, CMD_PRECHARGE_VOLTAGE, seq![0x1Fu8], dc);
        assert(as_data(seq![0x1Fu8]) =~= seq![(0x1Fu8, true)]);
        assert(panel_input(p11, dc) =~= seq![(0xAEu8, false), (0xB9u8, false), (0xB3u8, false), (0x91u8, true), (0xCAu8, false), (0x3Fu8, true), (0xA2u8, false), (0x00u8, true), (0xA1u8, false), (0x00u8, true), (0xABu8, false), (0x01u8, true), (0xB4u8, false), (0xA0u8, true), (0xFDu8, true), (0xC1u8, false), (0x7Fu8, true), (0xC7u8, false), (0x0Fu8, true), (0xB1u8, false), (0xF2u8, true)]);
    }
    assert(panel_input(p13, dc) =~= seq![(0xAEu8, false), (0xB9u8, false), (0xB3u8, false), (0x91u8, true), (0xCAu8, false), (0x3Fu8, true), (0xA2u8, false), (0x00u8, true), (0xA1u8, false), (0x00u8, true), (0xABu8, false), (0x01u8, true), (0xB4u8, false), (0xA0u8, true), (0xFDu8, true), (0xC1u8, false), (0x7Fu8, true), (0xC7u8, false), (0x0Fu8, true), (0xB1u8, false), (0xF2u8, true), (0xBBu8, false), (0x1Fu8, true), (0xBEu8, false), (0x04u8, true)]) by {
        lemma_append_command(p12, CMD_VCOMH_VOLTAGE, seq![0x04u8], dc);
        assert(as_data(seq![0x04u8]) =~= seq![(0x04u8, true)]);
        assert(panel_input(p12, dc) =~= seq![(0xAEu8, false), (0xB9u8, false), (0xB3u8, false), (0x91u8, true), (0xCAu8, false), (0x3Fu8, true), (0xA2u8, false), (0x00u8, true), (0xA1u8, false), (0x00u8, true), (0xABu8, false), (0x01u8, true), (0xB4u8, false), (0xA0u8, true), (0xFDu8, true), (0xC1u8, false), (0x7Fu8, true), (0xC7u8, false), (0x0Fu8, true), (0xB1u8, false), (0xF2u8, true), (0xBBu8, false), (0x1Fu8, true)]);
    }
    assert(panel_input(p14, dc) =~= seq![(0xAEu8, false), (0xB9u8, false), (0xB3u8, false), (0x91u8, true), (0xCAu8, false), (0x3Fu8, true), (0xA2u8, false), (0x00u8, true), (0xA1u8, false), (0x00u8, true), (0xABu8, false), (0x01u8, true), (0xB4u8, false), (0xA0u8, true), (0xFDu8, true), (0xC1u8, false), (0x7Fu8, true), (0xC7u8, false), (0x0Fu8, true), (0xB1u8, false), (0xF2u8, true), (0xBBu8, false), (0x1Fu8, true), (0xBEu8, false), (0x04u8, true), (0xA6u8, false)]) by {
        lemma_append_command(p13, CMD_DISPLAY_MODE_NORMAL, Seq::<u8>::empty(), dc);
        assert(as_data(Seq::<u8>::empty()) =~= Seq::<(u8, bool)>::empty());
        assert(panel_input(p13, dc) =~= seq![(0xAEu8, false), (0xB9u8, false), (0xB3u8, false), (0x91u8, true), (0xCAu8, false), (0x3Fu8, true), (0xA2u8, false), (0x00u8, true), (0xA1u8, false), (0x00u8, true), (0xABu8, false), (0x01u8, true), (0xB4u8, false), (0xA0u8, true), (0xFDu8, true), (0xC1u8, false), (0x7Fu8, true), (0xC7u8, false), (0x0Fu8, true), (0xB1u8, false), (0xF2u8, true), (0xBBu8, false), (0x1Fu8, true), (0xBEu8, false), (0x04u8, true)]);
    }
    assert(panel_input(p15, dc) =~= seq![(0xAEu8, false), (0xB9u8, false), (0xB3u8, false), (0x91u8, true), (0xCAu8, false), (0x3Fu8, true), (0xA2u8, false), (0x00u8, true), (0xA1u8, false), (0x00u8, true), (0xABu8, false), (0x01u8, true), (0xB4u8, false), (0xA0u8, true), (0xFDu8, true), (0xC1u8, false), (0x7Fu8, true), (0xC7u8, false), (0x0Fu8, true), (0xB1u8, false), (0xF2u8, true), (0xBBu8, false), (0x1Fu8, true), (0xBEu8, false), (0x04u8, true), (0xA6u8, false), (0xA0u8, false), (0x04u8, true), (0x11u8, true)]) by {
        lemma_append_command(p14, CMD_DUAL_COMM_LINE_MODE, seq![0x04u8, 0x11u8], dc);
        assert(as_data(seq![0x04u8, 0x11u8]) =~= seq![(0x04u8, true), (0x11u8, true)]);
        assert(panel_input(p14, dc) =~= seq![(0xAEu8, false), (0xB9u8, false), (0xB3u8, false), (0x91u8, true), (0xCAu8, false), (0x3Fu8, true), (0xA2u8, false), (0x00u8, true), (0xA1u8, false), (0x00u8, true), (0xABu8, false), (0x01u8, true), (0xB4u8, false), (0xA0u8, true), (0xFDu8, true), (0xC1u8, false), (0x7Fu8, true), (0xC7u8, false), (0x0Fu8, true), (0xB1u8, false), (0xF2u8, true), (0xBBu8, false), (0x1Fu8, true), (0xBEu8, false), (0x04u8, true), (0xA6u8, false)]);
    }
    assert(init_ops() == p15);
    assert(init_ops().take(4) =~= r);
}

/// The fixed-chunk blit sends what pushing the frame sends, then the
/// display-on command 0xAF, read as a command.
pub proof fn lemma_blit_reaches_panel(frame: Seq<u8>, dc: bool)
    ensures
        panel_input(flush_ops(frame, SPI_CHUNK as nat) + command_ops(CMD_DISPLAY_ON, seq![]), dc)
            == seq![
            (0x15u8, false),
            (28u8, true),
            (91u8, true),
            (0x75u8, false),
            (0u8, true),
            (63u8, true),
            (0x5Cu8, false),
        ] + frame.map_values(|b: u8| (b, true)) + seq![(0xAFu8, false)],
{
    lemma_flush_reaches_panel(frame, SPI_CHUNK as nat, dc);
    lemma_append_command(flush_ops(frame, SPI_CHUNK as nat), CMD_DISPLAY_ON, seq![], dc);
    assert(as_data(Seq::<u8>::empty()) =~= Seq::<(u8, bool)>::empty());
    assert(panel_input(flush_ops(frame, SPI_CHUNK as nat), dc) + seq![(CMD_DISPLAY_ON, false)]
        + as_data(Seq::<u8>::empty()) =~= panel_input(flush_ops(frame, SPI_CHUNK as nat), dc)
        + seq![(0xAFu8, false)]);
}

/// Drawing a pixel of a 4 bit luma on the panel puts `luma * 17` (the luma
/// in both nibbles) at byte `y * 128 + x` and leaves every other byte as it
/// was; a pixel outside the panel changes nothing.
pub proof fn lemma_pixel_drawn(frame: Seq<u8>, x: int, y: int, luma: u8)
    requires
        frame.len() == 8192,
        luma <= 15,
    ensures
        with_pixel(frame, x, y, pixel_byte(luma)).len() == 8192,
        0 <= x < 128 && 0 <= y < 64 ==> with_pixel(frame, x, y, pixel_byte(luma))[y * 128 + x]
            == luma * 17,
        forall|i: int|
            0 <= i < 8192 && !(0 <= x < 128 && 0 <= y < 64 && i == y * 128 + x) ==> #[trigger] with_pixel(
                frame,
                x,
                y,
                pixel_byte(luma),
            )[i] == frame[i],
{
    if 0 <= x < 128 && 0 <= y < 64 {
        assert(0 <= y * 128 + x < 8192) by (nonlinear_arith)
            requires
                0 <= x < 128,
                0 <= y < 64,
        ;
    }
}

/// Clearing with a 4 bit luma makes all 8192 bytes `luma * 17`.
pub proof fn lemma_cleared(luma: u8)
    requires
        luma <= 15,
    ensures
        filled(pixel_byte(luma)).len() == 8192,
        forall|i: int| 0 <= i < 8192 ==> #[trigger] filled(pixel_byte(luma))[i] == luma * 17,
{
}

/// The transfer size when `bufsiz` cannot be read is 4096; a readable value
/// holding a number (surrounding whitespace ignored) gives that number, 0
/// giving 1; any other content gives 4096.
pub proof fn lemma_spi_chunk_choice(s: Seq<char>)
    ensures
        spi_chunk_for(None) == 4096,
        parse_unsigned_spec(trim(s), usize::MAX as int) is Err ==> spi_chunk_for(Some(s)) == 4096,
        parse_unsigned_spec(trim(s), usize::MAX as int) == Ok::<int, crate::text::IntErrorKind>(0)
            ==> spi_chunk_for(Some(s)) == 1,
        forall|v: int|
            v >= 1 && parse_unsigned_spec(trim(s), usize::MAX as int) == Ok::<
                int,
                crate::text::IntErrorKind,
            >(v) ==> spi_chunk_for(Some(s)) == v,
{
}

} // verus!
