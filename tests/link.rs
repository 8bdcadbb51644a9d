use board::serial::LineOp;
use board::spi_bus::{Line, RecordingLine, SpiBus};
use board::transport::Transport;

/// A line that records the data level at each rising clock edge and plays
/// back the bits of `reply` when sampled.
struct Probe {
    clock: bool,
    data: bool,
    sent: Vec<bool>,
    reply: u32,
    sampled: u32,
    rising_edges: usize,
}

impl Line for Probe {
    type Error = ();
    fn set_clock(&mut self, high: bool) -> Result<(), ()> {
        if high && !self.clock {
            self.rising_edges += 1;
            self.sent.push(self.data);
        }
        self.clock = high;
        Ok(())
    }
    fn set_data(&mut self, high: bool) -> Result<(), ()> {
        self.data = high;
        Ok(())
    }
    fn data_is_high(&mut self) -> Result<bool, ()> {
        let bit = (self.reply >> (31 - (self.sampled % 32))) & 1 == 1;
        self.sampled += 1;
        Ok(bit)
    }
}

fn probe(reply: u32) -> Probe {
    Probe { clock: false, data: false, sent: Vec::new(), reply, sampled: 0, rising_edges: 0 }
}

#[test]
fn link_sends_most_significant_bit_first() {
    let mut link = SpiBus::new(probe(0));
    assert_eq!(link.write(&[0xA000_0001]), Ok(()));
    let mut expected = vec![true, false, true];
    expected.extend(std::iter::repeat(false).take(28));
    expected.push(true);
    let line = link_line(link);
    assert_eq!(line.sent, expected);
    assert!(!line.clock);
}

#[test]
fn link_reads_most_significant_bit_first() {
    let mut link = SpiBus::new(probe(0xDEAD_BEEF));
    let mut words = [0u32; 2];
    assert_eq!(link.read(&mut words), Ok(()));
    assert_eq!(words, [0xDEAD_BEEF, 0xDEAD_BEEF]);
    assert_eq!(link.flush(), Ok(()));
    assert_eq!(link_line(link).rising_edges, 64);
}

fn link_line(link: SpiBus<Probe>) -> Probe {
    link.into_line()
}

#[test]
fn recording_line_sees_clock_and_data_per_bit() {
    let mut link = SpiBus::new(RecordingLine::new(vec![]));
    assert_eq!(link.write(&[0x8000_0000]), Ok(()));
    let line = link.into_line();
    let ops = line.actions();
    assert_eq!(ops.len(), 32 * 3 + 1);
    assert_eq!(&ops[0..3], &[LineOp::Clock(false), LineOp::Data(true), LineOp::Clock(true)]);
    assert_eq!(&ops[3..6], &[LineOp::Clock(false), LineOp::Data(false), LineOp::Clock(true)]);
    assert_eq!(ops[96], LineOp::Clock(false));
}

#[test]
fn recording_line_assembles_sampled_bits() {
    let mut levels = vec![false; 31];
    levels.push(true);
    levels.insert(0, true);
    let mut link = SpiBus::new(RecordingLine::new(levels));
    let mut words = [0u32; 1];
    assert_eq!(link.read(&mut words), Ok(()));
    assert_eq!(words, [0x8000_0000]);
    let line = link.into_line();
    assert_eq!(line.actions().len(), 96);
    assert_eq!(&line.actions()[0..3], &[LineOp::Sample(true), LineOp::Clock(true), LineOp::Clock(false)]);
}
