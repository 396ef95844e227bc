use port_sniffer::ordering::sort_ports;
use port_sniffer::report::{port_line, render, u16_to_decimal};

#[test]
fn decimal_single_digit() {
    assert_eq!(u16_to_decimal(0), "0");
    assert_eq!(u16_to_decimal(7), "7");
}

#[test]
fn decimal_multi_digit() {
    assert_eq!(u16_to_decimal(100), "100");
    assert_eq!(u16_to_decimal(12345), "12345");
    assert_eq!(u16_to_decimal(65535), "65535");
}

#[test]
fn line_format_is_fixed() {
    assert_eq!(port_line(80), "80 is open");
    assert_eq!(port_line(65535), "65535 is open");
}

#[test]
fn render_sorts_whatever_the_arrival_order() {
    let arrived: Vec<u16> = vec![9, 2, 5];
    let lines = render(&arrived);
    assert_eq!(lines, vec!["2 is open", "5 is open", "9 is open"]);

    let other_order: Vec<u16> = vec![5, 9, 2];
    assert_eq!(render(&other_order), lines);
}

#[test]
fn render_of_empty_set_is_empty() {
    let nothing: Vec<u16> = vec![];
    assert_eq!(render(&nothing).len(), 0);
}

#[test]
fn sort_orders_ascending() {
    let mut ports: Vec<u16> = vec![443, 22, 8080, 80];
    sort_ports(&mut ports);
    assert_eq!(ports, vec![22, 80, 443, 8080]);
}
