use vstd::prelude::*;

verus! {

/// The error type of VirtIO drivers.
#[derive(Copy, Clone, Debug, PartialEq, Eq, Structural)]
pub enum Error {
    /// There are not enough descriptors available in the virtqueue, try again later.
    QueueFull,
    /// The device is not ready.
    NotReady,
    /// The device used a different descriptor chain to the one we were expecting.
    WrongToken,
    /// The queue is already in use.
    AlreadyUsed,
    /// Invalid parameter.
    InvalidParam,
    /// Failed to alloc DMA memory.
    DmaError,
    /// I/O Error
    IoError,
    /// The request was not supported by the device.
    Unsupported,
    /// The config space advertised by the device is smaller than the driver expected.
    ConfigSpaceTooSmall,
    /// The device doesn't have any config space, but the driver expects some.
    ConfigSpaceMissing,
}

/// The human-readable description of each error.
pub open spec fn error_message(e: Error) -> Seq<char> {
    match e {
        Error::QueueFull => "Virtqueue is full"@,
        Error::NotReady => "Device not ready"@,
        Error::WrongToken => "Device used a different descriptor chain to the one we were expecting"@,
        Error::AlreadyUsed => "Virtqueue is already in use"@,
        Error::InvalidParam => "Invalid parameter"@,
        Error::DmaError => "Failed to allocate DMA memory"@,
        Error::IoError => "I/O Error"@,
        Error::Unsupported => "Request not supported by device"@,
        Error::ConfigSpaceTooSmall => "Config space advertised by the device is smaller than expected"@,
        Error::ConfigSpaceMissing => "The device doesn't have any config space, but the driver expects some"@,
    }
}

impl Error {
    /// Describes the error in words; this is the text a `Display` would print.
    pub fn message(&self) -> (r: &'static str)
        ensures
            r@ == error_message(*self),
    {
        match self {
            Error::QueueFull => "Virtqueue is full",
            Error::NotReady => "Device not ready",
            Error::WrongToken => "Device used a different descriptor chain to the one we were expecting",
            Error::AlreadyUsed => "Virtqueue is already in use",
            Error::InvalidParam => "Invalid parameter",
            Error::DmaError => "Failed to allocate DMA memory",
            Error::IoError => "I/O Error",
            Error::Unsupported => "Request not supported by device",
            Error::ConfigSpaceTooSmall => "Config space advertised by the device is smaller than expected",
            Error::ConfigSpaceMissing => "The device doesn't have any config space, but the driver expects some",
        }
    }
}

} // verus!
