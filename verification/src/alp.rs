use vstd::prelude::*;

verus! {

/// How the raw bytes handed to the device are to be interpreted by the
/// hardware sequence. A bit-plane buffer is pushed in one of these formats;
/// the vendor binding translates each variant to the vendor's integer value.
#[derive(Copy, Clone, Debug, PartialEq, Eq, Structural)]
pub enum DataFormat {
    MsbAlign,
    LsbAlign,
    BinaryTopDown,
    BinaryBottomUp,
}

/// Per-sequence control knobs of the device collaborator. As with
/// [`DataFormat`], the vendor binding owns the translation to integer codes.
#[derive(Copy, Clone, Debug, PartialEq, Eq, Structural)]
pub enum Control {
    SeqRepeat,
    FirstFrame,
    LastFrame,
    BitNum,
    BinMode,
    DataFormat,
    SeqPutLock,
    ScrollFromRow,
    ScrollToRow,
    FirstLine,
    LastLine,
    LineInc,
    FlutMode,
    FlutEntries9,
    FlutOffset9,
    SeqLines,
    PwmMode,
    MaskSelect,
}

} // verus!
