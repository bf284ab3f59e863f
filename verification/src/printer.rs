//! Thermal printer abstraction and the decisions made when talking to the
//! printer over USB: which device to open, which endpoint to write to, and
//! whether a write went through.

use vstd::prelude::*;

verus! {

/// Why a printer operation failed.
#[derive(Debug, Clone, PartialEq, Eq)]
pub enum PrinterError {
    /// The device accepted fewer bytes than were sent.
    ShortWrite { written: usize, expected: usize },
    /// No EPSON device is attached.
    NoDevice,
    /// The device has no bulk OUT endpoint.
    NoBulkOutEndpoint,
    /// The device or the USB stack reported an error.
    Device { message: String },
}

/// All printer backends speak this trait. A backend is responsible for line
/// wrapping, Shift_JIS encoding and the feed needed after a phrase.
pub trait PrinterBackend: Send {
    /// Print one phrase.
    fn print_phrase(&mut self, text: &str) -> Result<(), PrinterError>;

    /// Feed `n` blank lines (between paragraphs, at the end of a session).
    fn feed(&mut self, n: u8) -> Result<(), PrinterError>;

    /// Cut the paper (full cut); only called at the end of a session.
    fn cut(&mut self) -> Result<(), PrinterError>;
}

/// Backend for machines without the printer attached: it accepts every
/// request and prints nothing.
#[derive(Debug, Default)]
pub struct StubBackend;

impl PrinterBackend for StubBackend {
    fn print_phrase(&mut self, text: &str) -> (r: Result<(), PrinterError>)
        ensures
            r is Ok,
    {
        Ok(())
    }

    fn feed(&mut self, n: u8) -> (r: Result<(), PrinterError>)
        ensures
            r is Ok,
    {
        Ok(())
    }

    fn cut(&mut self) -> (r: Result<(), PrinterError>)
        ensures
            r is Ok,
    {
        Ok(())
    }
}

/// EPSON's USB vendor ID.
pub const EPSON_VID: u16 = 0x04B8;

/// Product ID expected for the TM-T90II (to be confirmed on the device).
pub const TM_T90II_PID_GUESS: u16 = 0x0202;

/// The identifiers of an attached USB device.
#[derive(Debug, Clone, Copy, PartialEq, Eq)]
pub struct UsbIds {
    pub vendor_id: u16,
    pub product_id: u16,
}

/// The device is the expected printer model.
pub open spec fn is_expected_printer(d: UsbIds) -> bool {
    d.vendor_id == EPSON_VID && d.product_id == TM_T90II_PID_GUESS
}

/// The device is made by EPSON.
pub open spec fn is_epson(d: UsbIds) -> bool {
    d.vendor_id == EPSON_VID
}

/// The test of a search pass: the expected model (`exact`) or any EPSON
/// device.
pub open spec fn wanted(d: UsbIds, exact: bool) -> bool {
    if exact {
        is_expected_printer(d)
    } else {
        is_epson(d)
    }
}

/// `k` is the first device of `ds` that passes the test.
pub open spec fn first_with(ds: Seq<UsbIds>, exact: bool, k: int) -> bool {
    &&& 0 <= k < ds.len()
    &&& wanted(ds[k], exact)
    &&& forall|j: int| 0 <= j < k ==> !wanted(#[trigger] ds[j], exact)
}

/// Position of the first device of `devices` that passes the test.
fn position_where(devices: &[UsbIds], exact: bool) -> (r: Option<usize>)
    ensures
        match r {
            Some(k) => first_with(devices@, exact, k as int),
            None => forall|j: int| 0 <= j < devices@.len() ==> !wanted(#[trigger] devices@[j], exact),
        },
{
    let mut i: usize = 0;
    while i < devices.len()
        invariant
            i <= devices@.len(),
            forall|j: int| 0 <= j < i ==> !wanted(#[trigger] devices@[j], exact),
        decreases devices@.len() - i,
    {
        let d = devices[i];
        let hit = if exact {
            d.vendor_id == EPSON_VID && d.product_id == TM_T90II_PID_GUESS
        } else {
            d.vendor_id == EPSON_VID
        };
        if hit {
            return Some(i);
        }
        i = i + 1;
    }
    None
}

/// Which attached device to open: the first one that is the expected
/// printer model, or else the first EPSON device of any model.
pub fn find_printer(devices: &[UsbIds]) -> (r: Result<usize, PrinterError>)
    ensures
        (exists|k: int| #[trigger] first_with(devices@, true, k)) ==> (r matches Ok(k)
            && first_with(devices@, true, k as int)),
        !(exists|k: int| #[trigger] first_with(devices@, true, k)) ==> match r {
            Ok(k) => first_with(devices@, false, k as int),
            Err(e) => e == PrinterError::NoDevice && forall|j: int|
                0 <= j < devices@.len() ==> !is_epson(#[trigger] devices@[j]),
        },
{
    match position_where(devices, true) {
        Some(k) => Ok(k),
        None => {
            assert forall|k: int| !#[trigger] first_with(devices@, true, k) by {
                if 0 <= k < devices@.len() {
                    assert(!wanted(devices@[k], true));
                }
            }
            match position_where(devices, false) {
                Some(k) => Ok(k),
                None => Err(PrinterError::NoDevice),
            }
        },
    }
}

/// An endpoint of the printer's active configuration.
#[derive(Debug, Clone, Copy, PartialEq, Eq)]
pub struct EndpointInfo {
    /// Host-to-device direction.
    pub direction_out: bool,
    /// Bulk transfer type.
    pub bulk: bool,
    pub address: u8,
}

/// The address of the first bulk OUT endpoint, in interface, alternate
/// setting and endpoint order.
pub fn find_bulk_out_endpoint(endpoints: &[EndpointInfo]) -> (r: Result<u8, PrinterError>)
    ensures
        match r {
            Ok(addr) => exists|k: int|
                0 <= k < endpoints@.len() && endpoints@[k].direction_out && endpoints@[k].bulk
                    && endpoints@[k].address == addr && forall|j: int|
                    0 <= j < k ==> !(#[trigger] endpoints@[j].direction_out && endpoints@[j].bulk),
            Err(e) => e == PrinterError::NoBulkOutEndpoint && forall|j: int|
                0 <= j < endpoints@.len() ==> !(#[trigger] endpoints@[j].direction_out
                    && endpoints@[j].bulk),
        },
{
    let mut i: usize = 0;
    while i < endpoints.len()
        invariant
            i <= endpoints@.len(),
            forall|j: int|
                0 <= j < i ==> !(#[trigger] endpoints@[j].direction_out && endpoints@[j].bulk),
        decreases endpoints@.len() - i,
    {
        let ep = endpoints[i];
        if ep.direction_out && ep.bulk {
            return Ok(ep.address);
        }
        i = i + 1;
    }
    Err(PrinterError::NoBulkOutEndpoint)
}

/// A bulk write went through only if every byte was accepted.
pub fn check_write(written: usize, expected: usize) -> (r: Result<(), PrinterError>)
    ensures
        r is Ok <==> written == expected,
        r matches Err(e) ==> e == (PrinterError::ShortWrite { written, expected }),
{
    if written != expected {
        return Err(PrinterError::ShortWrite { written, expected });
    }
    Ok(())
}

} // verus!
