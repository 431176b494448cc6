use serial_loader::serial::{BaudRate, ComPort, PortWrite, SerialPort};

fn pw(port: u16, value: u8) -> PortWrite {
    PortWrite { port, value }
}

#[test]
fn baud_rates_that_divide_the_clock_are_accepted() {
    assert_eq!(BaudRate::try_from(9600).unwrap().rate(), 9600);
    assert_eq!(BaudRate::try_from(115200).unwrap().rate(), 115200);
    assert_eq!(BaudRate::try_from(2).unwrap().rate(), 2);
}

#[test]
fn baud_rates_out_of_range_or_not_dividing_are_rejected() {
    assert_eq!(BaudRate::try_from(9601).unwrap_err(), 9601);
    assert_eq!(BaudRate::try_from(1).unwrap_err(), 1);
    assert_eq!(BaudRate::try_from(0).unwrap_err(), 0);
    assert_eq!(BaudRate::try_from(230400).unwrap_err(), 230400);
}

#[test]
fn com_port_base_addresses() {
    assert_eq!(ComPort::Com1.base_addr(), 0x3f8);
    assert_eq!(ComPort::Com2.base_addr(), 0x2f8);
    assert_eq!(SerialPort::get(ComPort::Com2).base(), 0x2f8);
}

#[test]
fn register_ports_of_com1() {
    let port = SerialPort::get(ComPort::Com1);
    assert_eq!(port.data_port(), 0x3f8);
    assert_eq!(port.line_control_port(), 0x3fb);
    assert_eq!(port.line_status_port(), 0x3fd);
}

#[test]
fn reset_sequence() {
    let port = SerialPort::get(ComPort::Com1);
    assert_eq!(port.reset(), vec![pw(0x3f9, 0x00), pw(0x3fb, 0x03), pw(0x3fa, 0x07)]);
}

#[test]
fn baud_rate_sequence_keeps_line_control() {
    let port = SerialPort::get(ComPort::Com1);
    let writes = port.set_baud_rate(BaudRate::try_from(9600).unwrap(), 0x03);
    assert_eq!(writes, vec![pw(0x3fb, 0x83), pw(0x3f8, 12), pw(0x3f9, 0), pw(0x3fb, 0x03)]);
    let writes = port.set_baud_rate(BaudRate::try_from(2).unwrap(), 0x1b);
    assert_eq!(writes, vec![pw(0x3fb, 0x9b), pw(0x3f8, 0x00), pw(0x3f9, 0xe1), pw(0x3fb, 0x1b)]);
}

#[test]
fn data_ready_bit() {
    assert!(SerialPort::data_ready(0x61));
    assert!(!SerialPort::data_ready(0x60));
}

#[test]
fn words_are_little_endian() {
    assert_eq!(SerialPort::receive_u32([0x78, 0x56, 0x34, 0x12]), 0x1234_5678);
    assert_eq!(SerialPort::receive_u32([0xff, 0xff, 0xff, 0xff]), u32::MAX);
}
