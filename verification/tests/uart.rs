use kernel_loader_tables::uart16550::{line_status_addr, put_char_step, transmit_holding_addr, PutCharAction};

#[test]
fn waits_for_an_empty_holding_register() {
    assert_eq!(put_char_step(0, b'x'), PutCharAction::Poll);
    assert_eq!(put_char_step(0xdf, b'x'), PutCharAction::Poll);
    assert_eq!(put_char_step(0x20, b'x'), PutCharAction::Write(0x78));
    assert_eq!(put_char_step(0x60, 0xff), PutCharAction::Write(0xff));
}

#[test]
fn register_addresses() {
    assert_eq!(line_status_addr(), 0x2_f013_0014);
    assert_eq!(transmit_holding_addr(), 0x2_f013_0000);
}
