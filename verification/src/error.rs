use vstd::prelude::*;

verus! {

/// Result alias used by callers that talk to the vendor device layer.
pub type AlpResult<T> = Result<T, AlpError>;

/// The closed set of status conditions reported by the vendor device-control
/// collaborator. The numeric codes belong to the vendor binding, which maps
/// each of its integers onto one of these variants, with `Unknown` as the
/// fallback for any code outside the table. This engine never produces or
/// consumes the raw codes itself.
#[derive(Copy, Clone, Debug, PartialEq, Eq, Structural)]
pub enum AlpError {
    NotOnline,
    NotIdle,
    NotAvailable,
    NotReady,
    ParameterInvalid,
    AddressInvalid,
    MemoryFull,
    SequenceInUse,
    Halted,
    InitFail,
    CommunicationFail,
    DeviceRemoved,
    NotConfigured,
    LoaderVersion,
    PoweredDown,
    DriverVersion,
    SdramInitFail,
    ConfigMismatch,
    Unknown,
}

} // verus!
