use board::bus::{Bus, BusError};
use board::command::{
    cmd_word, cmd_word_addr, cmd_word_func, cmd_word_incr, cmd_word_len, cmd_word_write, swap16,
};
use board::consts::{FEEDBEAD, FUNC_BACKPLANE, FUNC_BUS, TEST_PATTERN};
use board::scripted::{Exchange, LinkDown, ScriptedTransport};

fn w(words: &[u32]) -> Exchange {
    Exchange::Write(words.to_vec())
}

fn r(words: &[u32]) -> Exchange {
    Exchange::Read(words.to_vec())
}

/// Replies of a device that shows the magic value at poll `n` and then
/// passes every check.
fn handshake_replies(n: usize) -> Vec<u32> {
    let mut v = vec![0u32; n - 1];
    v.push(swap16(FEEDBEAD));
    v.push(swap16(TEST_PATTERN));
    v.push(FEEDBEAD);
    v.push(TEST_PATTERN);
    v
}

#[test]
fn cmd_word_window_register_write() {
    assert_eq!(cmd_word(true, true, FUNC_BACKPLANE, 0x1000A, 1), 0xd800_5001);
    assert_eq!(cmd_word(false, true, FUNC_BUS, 0x14, 4), 0x4000_a004);
}

#[test]
fn cmd_word_fields_round_trip() {
    let cases = [
        (true, true, 3u32, 0x1FFFFu32, 0x7FFu32),
        (false, true, 1, 0x1000C, 1),
        (false, false, 0, 0, 0),
        (true, false, 2, 0x12345, 0x400),
    ];
    for &(wr, inc, f, a, l) in cases.iter() {
        let c = cmd_word(wr, inc, f, a, l);
        assert_eq!(cmd_word_write(c), wr);
        assert_eq!(cmd_word_incr(c), inc);
        assert_eq!(cmd_word_func(c), f);
        assert_eq!(cmd_word_addr(c), a);
        assert_eq!(cmd_word_len(c), l);
    }
}

#[test]
fn swap16_exchanges_half_words() {
    assert_eq!(swap16(0x1234_5678), 0x5678_1234);
    assert_eq!(swap16(FEEDBEAD), 0xbead_feed);
    for x in [0u32, 1, 0xFFFF_0000, 0xDEAD_BEEF, u32::MAX] {
        assert_eq!(swap16(swap16(x)), x);
    }
}

#[test]
fn init_succeeds_after_exactly_n_polls() {
    let n = 5;
    let mut bus = Bus::new(ScriptedTransport::new(handshake_replies(n)));
    assert_eq!(bus.init(n as u32), Ok(()));
    let t = bus.into_transport();
    assert_eq!(t.replies_used(), n + 3);
    let poll = swap16(cmd_word(false, true, FUNC_BUS, 0x14, 4));
    let polls = t.log().iter().filter(|e| **e == w(&[poll])).count();
    assert_eq!(polls, n);
    assert_eq!(t.log().len(), 2 * n + 8);
}

#[test]
fn init_times_out_when_capped_below_n() {
    let n = 5;
    let mut bus = Bus::new(ScriptedTransport::new(handshake_replies(n)));
    assert_eq!(bus.init((n - 1) as u32), Err(BusError::HandshakeTimeout));
    let t = bus.into_transport();
    assert_eq!(t.replies_used(), n - 1);
    assert_eq!(t.log().len(), 2 * (n - 1));
}

#[test]
fn init_with_no_polls_allowed_times_out() {
    let mut bus = Bus::new(ScriptedTransport::new(handshake_replies(1)));
    assert_eq!(bus.init(0), Err(BusError::HandshakeTimeout));
    assert!(bus.transport().log().is_empty());
}

#[test]
fn init_reports_wrong_test_pattern() {
    let replies = vec![swap16(FEEDBEAD), swap16(0x0BAD_0BAD), FEEDBEAD, TEST_PATTERN];
    let mut bus = Bus::new(ScriptedTransport::new(replies));
    assert_eq!(bus.init(3), Err(BusError::Integrity));
    assert_eq!(bus.transport().log().len(), 5);
}

#[test]
fn init_reports_wrong_word_order_after_configuration() {
    let replies = vec![swap16(FEEDBEAD), swap16(TEST_PATTERN), swap16(FEEDBEAD), TEST_PATTERN];
    let mut bus = Bus::new(ScriptedTransport::new(replies));
    assert_eq!(bus.init(3), Err(BusError::Integrity));
    assert_eq!(bus.transport().log().len(), 8);
}

#[test]
fn init_passes_on_transport_fault() {
    let mut bus = Bus::new(ScriptedTransport::failing_after(handshake_replies(2), 3));
    assert_eq!(bus.init(4), Err(BusError::Transport(LinkDown)));
    assert_eq!(bus.transport().log().len(), 3);
}

#[test]
fn block_write_straddling_a_window() {
    let mut bus = Bus::new(ScriptedTransport::new(vec![]));
    let data: Vec<u8> = (1..=10).collect();
    assert_eq!(bus.bp_write(0x8000 - 4, &data), Ok(()));
    let log = bus.transport().log();
    let expected = vec![
        w(&[0xd800_6001, 0x00]),
        w(&[0xd800_5801, 0x00]),
        w(&[0xd800_5001, 0x00]),
        w(&[0xd3ff_e004]),
        w(&[0x0403_0201]),
        w(&[0xd800_5001, 0x80]),
        w(&[0xd000_0006]),
        w(&[0x0807_0605, 0x0000_0a09]),
    ];
    assert_eq!(*log, expected);
}

#[test]
fn block_write_rejects_misaligned_address() {
    let mut bus = Bus::new(ScriptedTransport::new(vec![]));
    assert_eq!(bus.bp_write(0x1002, &[1, 2, 3, 4]), Err(BusError::Misaligned));
    let mut buf = [0u8; 4];
    assert_eq!(bus.bp_read(0x1001, &mut buf), Err(BusError::Misaligned));
    assert!(bus.transport().log().is_empty());
}

#[test]
fn block_write_rejects_end_past_address_space() {
    let mut bus = Bus::new(ScriptedTransport::new(vec![]));
    assert_eq!(bus.bp_write(0xFFFF_FFFC, &[0u8; 8]), Err(BusError::OutOfRange));
    assert!(bus.transport().log().is_empty());
    assert_eq!(bus.bp_write(0xFFFF_FFFC, &[1, 2, 3, 4]), Ok(()));
}

#[test]
fn block_write_chunks_at_transfer_limit() {
    let mut bus = Bus::new(ScriptedTransport::new(vec![]));
    let data = vec![0xABu8; 150];
    assert_eq!(bus.bp_write(0x100, &data), Ok(()));
    let lens: Vec<u32> = bus
        .transport()
        .log()
        .iter()
        .filter_map(|e| match e {
            Exchange::Write(ws) if ws.len() == 1 && cmd_word_func(ws[0]) == FUNC_BACKPLANE => {
                Some(cmd_word_len(ws[0]))
            }
            _ => None,
        })
        .collect();
    assert_eq!(lens, vec![64, 64, 22]);
}

#[test]
fn block_read_straddling_a_window() {
    let replies = vec![0xEEEE_EEEE, 0x0403_0201, 0xEEEE_EEEE, 0x0807_0605, 0xFFFF_0a09];
    let mut bus = Bus::new(ScriptedTransport::new(replies));
    let mut buf = [0u8; 10];
    assert_eq!(bus.bp_read(0x7FFC, &mut buf), Ok(()));
    assert_eq!(buf, [1, 2, 3, 4, 5, 6, 7, 8, 9, 10]);
    let log = bus.transport().log();
    assert_eq!(log[3], w(&[cmd_word(false, true, FUNC_BACKPLANE, 0x7FFC, 4)]));
    assert_eq!(log[4], r(&[0xEEEE_EEEE]));
    assert_eq!(log[5], r(&[0x0403_0201]));
    assert_eq!(log[6], w(&[0xd800_5001, 0x80]));
    assert_eq!(log[7], w(&[cmd_word(false, true, FUNC_BACKPLANE, 0, 6)]));
    assert_eq!(log.len(), 10);
}

#[test]
fn same_window_accesses_select_it_once() {
    let mut bus = Bus::new(ScriptedTransport::new(vec![]));
    assert_eq!(bus.bp_write32(0x1800_0010, 1), Ok(()));
    let first = bus.transport().log().len();
    assert_eq!(first, 4);
    assert_eq!(bus.bp_write32(0x1800_0020, 2), Ok(()));
    assert_eq!(bus.bp_write8(0x1800_7FFF, 3), Ok(()));
    assert_eq!(bus.transport().log().len(), first + 2);
    assert_eq!(bus.bp_write16(0x1800_8000, 4), Ok(()));
    assert_eq!(bus.transport().log().len(), first + 4);
}

#[test]
fn backplane_word_access_sets_word_flag() {
    let mut bus = Bus::new(ScriptedTransport::new(vec![0, 0xCAFE_F00D]));
    assert_eq!(bus.bp_read32(0x0000_0123), Ok(0xCAFE_F00D));
    let log = bus.transport().log();
    assert_eq!(log[log.len() - 3], w(&[0x5409_1804]));
}

#[test]
fn backplane_narrow_reads_truncate() {
    let mut bus = Bus::new(ScriptedTransport::new(vec![0, 0x1234_5678, 0, 0x1234_5678]));
    assert_eq!(bus.bp_read8(0x40), Ok(0x78));
    assert_eq!(bus.bp_read16(0x40), Ok(0x5678));
}

#[test]
fn register_reads_skip_turnaround_only_on_backplane() {
    let mut bus = Bus::new(ScriptedTransport::new(vec![0xAAAA_0011, 0xBBBB_0022, 0xCCCC_0033]));
    assert_eq!(bus.read32(FUNC_BUS, 0x14), Ok(0xAAAA_0011));
    assert_eq!(bus.read16(FUNC_BACKPLANE, 0x1000A), Ok(0x0033));
    assert_eq!(bus.transport().replies_used(), 3);
    assert_eq!(bus.read8(FUNC_BUS, 0), Ok(0));
}

#[test]
fn register_writes_send_header_and_value() {
    let mut bus = Bus::new(ScriptedTransport::new(vec![]));
    assert_eq!(bus.write8(FUNC_BACKPLANE, 0x1000A, 0x80), Ok(()));
    assert_eq!(bus.write16(FUNC_BUS, 0x4, 0xBEEF), Ok(()));
    assert_eq!(bus.write32(FUNC_BUS, 0x8, 0xDEAD_BEEF), Ok(()));
    let log = bus.transport().log();
    assert_eq!(log[0], w(&[0xd800_5001, 0x80]));
    assert_eq!(log[1], w(&[cmd_word(true, true, FUNC_BUS, 0x4, 2), 0xBEEF]));
    assert_eq!(log[2], w(&[cmd_word(true, true, FUNC_BUS, 0x8, 4), 0xDEAD_BEEF]));
}

#[test]
fn data_path_read_rounds_up_to_words() {
    let mut bus = Bus::new(ScriptedTransport::new(vec![1, 2, 3]));
    let mut buf = [9u32; 4];
    assert_eq!(bus.wlan_read(&mut buf, 10), Ok(()));
    assert_eq!(buf, [1, 2, 3, 9]);
    assert_eq!(bus.transport().log()[0], w(&[0x6000_000a]));
    assert_eq!(bus.wlan_read(&mut buf, 17), Err(BusError::OutOfRange));
    assert_eq!(bus.wlan_read(&mut buf, 0x800), Err(BusError::OutOfRange));
}

#[test]
fn data_path_write_sends_header_then_words() {
    let mut bus = Bus::new(ScriptedTransport::new(vec![]));
    assert_eq!(bus.wlan_write(&[7, 8]), Ok(()));
    let log = bus.transport().log();
    assert_eq!(log[0], w(&[0xe000_0008]));
    assert_eq!(log[1], w(&[7, 8]));
    assert_eq!(bus.wlan_write(&[0u32; 512]), Err(BusError::OutOfRange));
}

#[test]
fn transport_fault_is_passed_on() {
    let mut bus = Bus::new(ScriptedTransport::failing_after(vec![], 1));
    assert_eq!(bus.bp_write(0x0, &[1, 2, 3, 4]), Err(BusError::Transport(LinkDown)));
    let mut bus2 = Bus::new(ScriptedTransport::failing_after(vec![], 0));
    assert_eq!(bus2.write32(FUNC_BUS, 0, 0), Err(BusError::Transport(LinkDown)));
}

#[test]
fn first_window_selection_writes_all_three_registers() {
    let mut bus = Bus::new(ScriptedTransport::new(vec![]));
    assert_eq!(bus.backplane_set_window(0xAAAA_8123), Ok(()));
    let log = bus.transport().log();
    assert_eq!(
        *log,
        vec![w(&[0xd800_6001, 0xAA]), w(&[0xd800_5801, 0xAA]), w(&[0xd800_5001, 0x80])]
    );
    assert_eq!(bus.backplane_set_window(0xAAAA_8000), Ok(()));
    assert_eq!(bus.transport().log().len(), 3);
}

#[test]
fn transport_fault_stops_backplane_access() {
    let mut bus = Bus::new(ScriptedTransport::failing_after(vec![], 4));
    assert_eq!(bus.bp_write32(0x1000, 1), Ok(()));
    assert_eq!(bus.bp_write32(0x1004, 2), Err(BusError::Transport(LinkDown)));
    let t = bus.into_transport();
    assert_eq!(t.log().len(), 4);
}

#[test]
fn swapped_accessors_exchange_half_words() {
    let mut bus = Bus::new(ScriptedTransport::new(vec![swap16(0x1234_5678)]));
    assert_eq!(bus.read32_swapped(0x18), Ok(0x1234_5678));
    assert_eq!(bus.write32_swapped(0x18, 0xAABB_CCDD), Ok(()));
    let log = bus.transport().log();
    assert_eq!(log[0], w(&[swap16(cmd_word(false, true, FUNC_BUS, 0x18, 4))]));
    assert_eq!(log[2], w(&[swap16(cmd_word(true, true, FUNC_BUS, 0x18, 4)), 0xCCDD_AABB]));
}

#[test]
fn register_access_out_of_field_range_is_rejected() {
    let mut bus = Bus::new(ScriptedTransport::new(vec![]));
    assert_eq!(bus.read8(4, 0), Err(BusError::OutOfRange));
    assert_eq!(bus.write32(FUNC_BUS, 0x2_0000, 1), Err(BusError::OutOfRange));
    assert_eq!(bus.read32_swapped(0x2_0000), Err(BusError::OutOfRange));
    assert_eq!(bus.write32_swapped(0x4_0000, 0), Err(BusError::OutOfRange));
    assert!(bus.transport().log().is_empty());
}
