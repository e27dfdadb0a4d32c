use vstd::prelude::*;

verus! {

/// Failure loading or parsing the persisted store document.
#[derive(Clone, Copy, Debug, PartialEq, Eq, Structural)]
pub enum StoreError {
    /// The store file is absent.
    NotFound,
    /// The store document could not be parsed.
    Corrupt,
}

/// Failure while obtaining a one-time code from the hardware token.
#[derive(Clone, Copy, Debug, PartialEq, Eq, Structural)]
pub enum TokenError {
    /// No hardware token is connected.
    DeviceNotFound,
    /// The transport failed or the device rejected a command.
    DeviceError,
    /// The requested account is not provisioned on the token.
    AccountNotFound,
    /// The account uses a counter-based mode this engine does not support.
    UnsupportedAccountMode,
}

/// Failure of the renewal or rotation orchestration.
#[derive(Clone, Copy, Debug, PartialEq, Eq, Structural)]
pub enum RenewError {
    /// The identity has no registered multi-factor device.
    NoDeviceRegistered,
    /// The device is not registered in the local store.
    UnconfiguredDevice,
    /// The identity service declined the one-time code.
    ExchangeRejected,
    /// A service response was missing a required field.
    IncompleteResponse,
    /// The one-time-code engine failed.
    Token(TokenError),
}

} // verus!
