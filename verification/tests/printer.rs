use receipt::escpos::{cut_full, encode_sjis, feed_dots, feed_lines, phrase_bytes, session_open};
use receipt::printer::{
    check_write, find_bulk_out_endpoint, find_printer, EndpointInfo, PrinterBackend,
    PrinterError, StubBackend, UsbIds, EPSON_VID, TM_T90II_PID_GUESS,
};

#[test]
fn command_bytes() {
    assert_eq!(feed_lines(3), [0x1B, 0x64, 3]);
    assert_eq!(feed_dots(24), [0x1B, 0x4A, 24]);
    assert_eq!(session_open(), vec![0x1B, 0x40, 0x1C, 0x26, 0x1C, 0x43, 0x01]);
    assert_eq!(cut_full(), [0x1D, 0x56, 0x00]);
}

#[test]
fn shift_jis_encoding_of_text() {
    assert_eq!(encode_sjis("あ"), vec![0x82, 0xA0]);
    assert_eq!(encode_sjis("abc"), b"abc".to_vec());
    assert_eq!(encode_sjis("漢字"), vec![0x8A, 0xBF, 0x8E, 0x9A]);
    assert_eq!(phrase_bytes("はい。"), vec![0x82, 0xCD, 0x82, 0xA2, 0x81, 0x42, 0x0A]);
    assert_eq!(phrase_bytes(""), vec![0x0A]);
}

#[test]
fn printer_selection_prefers_the_expected_model() {
    let other = UsbIds { vendor_id: 0x1234, product_id: 0x0001 };
    let epson = UsbIds { vendor_id: EPSON_VID, product_id: 0x0E15 };
    let model = UsbIds { vendor_id: EPSON_VID, product_id: TM_T90II_PID_GUESS };
    assert_eq!(find_printer(&[other, epson, model]), Ok(2));
    assert_eq!(find_printer(&[other, epson, epson]), Ok(1));
    assert_eq!(find_printer(&[other]), Err(PrinterError::NoDevice));
    assert_eq!(find_printer(&[]), Err(PrinterError::NoDevice));
}

#[test]
fn bulk_out_endpoint_selection() {
    let eps = [
        EndpointInfo { direction_out: false, bulk: true, address: 0x81 },
        EndpointInfo { direction_out: true, bulk: false, address: 0x02 },
        EndpointInfo { direction_out: true, bulk: true, address: 0x01 },
        EndpointInfo { direction_out: true, bulk: true, address: 0x03 },
    ];
    assert_eq!(find_bulk_out_endpoint(&eps), Ok(0x01));
    assert_eq!(find_bulk_out_endpoint(&eps[..2]), Err(PrinterError::NoBulkOutEndpoint));
}

#[test]
fn short_writes_are_errors() {
    assert_eq!(check_write(7, 7), Ok(()));
    assert_eq!(check_write(3, 7), Err(PrinterError::ShortWrite { written: 3, expected: 7 }));
}

#[test]
fn stub_backend_accepts_everything() {
    let mut b = StubBackend;
    assert!(b.print_phrase("テスト").is_ok());
    assert!(b.feed(2).is_ok());
    assert!(b.cut().is_ok());
}
