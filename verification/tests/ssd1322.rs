use embedded_graphics::pixelcolor::{Gray4, GrayColor};
use ttyseq::ssd1322::{spi_chunk_from_bufsiz, BusOp, Ssd1322, BUF_LEN, HEIGHT, WIDTH};

fn written(ops: &[BusOp]) -> Vec<u8> {
    let mut out = Vec::new();
    for op in ops {
        if let BusOp::Write(b) = op {
            out.extend_from_slice(b);
        }
    }
    out
}

fn writes(ops: &[BusOp]) -> Vec<usize> {
    ops.iter()
        .filter_map(|op| if let BusOp::Write(b) = op { Some(b.len()) } else { None })
        .collect()
}

#[test]
fn chunk_size_from_bufsiz() {
    assert_eq!(spi_chunk_from_bufsiz(None), 4096);
    assert_eq!(spi_chunk_from_bufsiz(Some("8192\n")), 8192);
    assert_eq!(spi_chunk_from_bufsiz(Some(" 16 ")), 16);
    assert_eq!(spi_chunk_from_bufsiz(Some("0")), 1);
    assert_eq!(spi_chunk_from_bufsiz(Some("abc")), 4096);
    assert_eq!(spi_chunk_from_bufsiz(Some("")), 4096);
    assert_eq!(spi_chunk_from_bufsiz(Some("-5")), 4096);
    assert_eq!(spi_chunk_from_bufsiz(Some("+65536")), 65536);
}

#[test]
fn command_without_and_with_data() {
    assert_eq!(
        Ssd1322::command(0xAF, &[]),
        vec![BusOp::SetDc(false), BusOp::Write(vec![0xAF])]
    );
    assert_eq!(
        Ssd1322::command(0x15, &[28, 91]),
        vec![
            BusOp::SetDc(false),
            BusOp::Write(vec![0x15]),
            BusOp::SetDc(true),
            BusOp::Write(vec![28, 91])
        ]
    );
    assert_eq!(Ssd1322::display_on(), Ssd1322::command(0xAF, &[]));
}

#[test]
fn reset_pulse() {
    assert_eq!(
        Ssd1322::hw_reset(),
        vec![
            BusOp::SetReset(false),
            BusOp::SleepMs(10),
            BusOp::SetReset(true),
            BusOp::SleepMs(10)
        ]
    );
}

#[test]
fn init_sequence_is_the_fates_one() {
    let ops = Ssd1322::init();
    assert_eq!(&ops[..4], &Ssd1322::hw_reset()[..]);
    assert_eq!(
        written(&ops),
        vec![
            0xAE, 0xB9, 0xB3, 0x91, 0xCA, 0x3F, 0xA2, 0x00, 0xA1, 0x00, 0xAB, 0x01, 0xB4, 0xA0,
            0xFD, 0xC1, 0x7F, 0xC7, 0x0F, 0xB1, 0xF2, 0xBB, 0x1F, 0xBE, 0x04, 0xA6, 0xA0, 0x04,
            0x11
        ]
    );
    assert_eq!(ops.last(), Some(&BusOp::Write(vec![0x04, 0x11])));
    assert!(!ops.contains(&BusOp::Write(vec![0xAF])));
}

#[test]
fn new_framebuffer_is_black() {
    let d = Ssd1322::new(4096);
    assert_eq!(d.frame().len(), BUF_LEN);
    assert!(d.frame().iter().all(|&b| b == 0));
    assert_eq!(d.chunk(), 4096);
    assert_eq!(Ssd1322::size(), (WIDTH as u32, HEIGHT as u32));
    assert_eq!(Ssd1322::size(), (128, 64));
}

#[test]
fn flush_reassembles_the_frame() {
    let mut d = Ssd1322::new(3000);
    d.set_pixel(5, 7, Gray4::WHITE.luma());
    let ops = d.flush();
    let mut expected = vec![0x15, 28, 91, 0x75, 0, 63, 0x5C];
    expected.extend_from_slice(d.frame());
    assert_eq!(written(&ops), expected);
    assert_eq!(writes(&ops), vec![1, 2, 1, 2, 1, 3000, 3000, 2192]);
    assert_eq!(ops[10], BusOp::SetDc(true));
}

#[test]
fn flush_with_fallback_and_tiny_chunks() {
    let d = Ssd1322::new(4096);
    assert_eq!(&writes(&d.flush())[5..], &[4096, 4096]);
    let d = Ssd1322::new(8192);
    assert_eq!(&writes(&d.flush())[5..], &[8192]);
    let d = Ssd1322::new(1);
    assert_eq!(writes(&d.flush()).len(), 5 + 8192);
}

#[test]
fn blit_pushes_then_turns_on() {
    let frame = [0xFFu8; BUF_LEN];
    let ops = Ssd1322::blit(&frame);
    assert_eq!(&writes(&ops)[5..], &[4096, 4096, 1]);
    let mut expected = vec![0x15, 28, 91, 0x75, 0, 63, 0x5C];
    expected.extend_from_slice(&frame);
    expected.push(0xAF);
    assert_eq!(written(&ops), expected);
    assert_eq!(&ops[ops.len() - 2..], &Ssd1322::display_on()[..]);
}

#[test]
fn pixels_carry_luma_in_both_nibbles() {
    let mut d = Ssd1322::new(4096);
    d.set_pixel(0, 0, Gray4::WHITE.luma());
    assert_eq!(d.frame()[0], 0xFF);
    d.set_pixel(127, 63, Gray4::new(6).luma());
    assert_eq!(d.frame()[BUF_LEN - 1], 0x66);
    d.set_pixel(3, 2, Gray4::new(0x1A).luma());
    assert_eq!(d.frame()[2 * 128 + 3], 0xAA);
    d.set_pixel(1, 0, 9);
    assert_eq!(d.frame()[1], 0x99);
    assert_eq!(d.frame().iter().filter(|&&b| b != 0).count(), 4);
}

#[test]
fn pixels_outside_are_ignored() {
    let mut d = Ssd1322::new(4096);
    for (x, y) in [(-1, 0), (0, -1), (128, 0), (0, 64), (i32::MIN, i32::MAX)] {
        d.set_pixel(x, y, 15);
    }
    assert!(d.frame().iter().all(|&b| b == 0));
}

#[test]
fn clear_fills_every_pixel() {
    let mut d = Ssd1322::new(4096);
    d.clear(Gray4::new(3).luma());
    assert!(d.frame().iter().all(|&b| b == 0x33));
    d.clear(Gray4::BLACK.luma());
    assert!(d.frame().iter().all(|&b| b == 0));
    d.clear(15);
    assert!(d.frame().iter().all(|&b| b == 0xFF));
    assert_eq!(Gray4::WHITE.luma(), 15);
}
