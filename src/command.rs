use vstd::prelude::*;

verus! {

/// The value of four bytes read as a little-endian unsigned integer:
/// `s[0]` is the least significant byte, `s[3]` the most significant.
pub open spec fn le_u32(s: Seq<u8>) -> u32
    recommends
        s.len() >= 4,
{
    (s[0] as int + s[1] as int * 0x100 + s[2] as int * 0x1_0000 + s[3] as int * 0x100_0000) as u32
}

/// Commands supported by the protocol.
///
/// The payload of `WritePage` borrows the parser's buffer: it stays valid
/// until the next byte is handed to the parser.
#[derive(Debug)]
pub enum Command<'a> {
    Ping,
    Info,
    Reset,
    ErasePage(u32),
    WritePage(u32, &'a [u8]),
    ReadRange,
    SetAttribute,
    GetAttribute,
    CrcInternalFlash,
    ChangeBaudRate,
    BadCommand,
}

/// The mathematical value of a [`Command`]: the same variants, with the
/// payload of `WritePage` as a sequence of bytes.
pub enum CommandView {
    Ping,
    Info,
    Reset,
    ErasePage(u32),
    WritePage(u32, Seq<u8>),
    ReadRange,
    SetAttribute,
    GetAttribute,
    CrcInternalFlash,
    ChangeBaudRate,
    BadCommand,
}

impl<'a> View for Command<'a> {
    type V = CommandView;

    open spec fn view(&self) -> CommandView {
        match *self {
            Command::Ping => CommandView::Ping,
            Command::Info => CommandView::Info,
            Command::Reset => CommandView::Reset,
            Command::ErasePage(addr) => CommandView::ErasePage(addr),
            Command::WritePage(addr, data) => CommandView::WritePage(addr, data@),
            Command::ReadRange => CommandView::ReadRange,
            Command::SetAttribute => CommandView::SetAttribute,
            Command::GetAttribute => CommandView::GetAttribute,
            Command::CrcInternalFlash => CommandView::CrcInternalFlash,
            Command::ChangeBaudRate => CommandView::ChangeBaudRate,
            Command::BadCommand => CommandView::BadCommand,
        }
    }
}

/// Reads `data[start..start + 4]` as a little-endian `u32`.
pub(crate) fn parse_u32(data: &[u8], start: usize) -> (r: u32)
    requires
        start + 4 <= data@.len(),
    ensures
        r == le_u32(data@.subrange(start as int, start + 4)),
{
    let b0 = data[start] as u32;
    let b1 = data[start + 1] as u32;
    let b2 = data[start + 2] as u32;
    let b3 = data[start + 3] as u32;
    b0 + b1 * 0x100 + b2 * 0x1_0000 + b3 * 0x100_0000
}

} // verus!
