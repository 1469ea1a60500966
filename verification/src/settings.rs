//! The server configuration read from the environment.
use vstd::prelude::*;
use crate::model::Config;
use crate::text::{parse_u16, parsed_u16};

verus! {

/// The port used for the mocked public API when none is configured.
pub const DEFAULT_PUBLIC_PORT: u16 = 9090;

/// The port used for the internal control API when none is configured.
pub const DEFAULT_PRIVATE_PORT: u16 = 8090;

/// A configured port that is not a `u16` in decimal.
#[derive(Clone, Copy, Debug, PartialEq, Eq, Structural)]
pub enum PortError {
    /// The public server's port is invalid.
    InvalidPublic,
    /// The internal server's port is invalid.
    InvalidPrivate,
}

/// A port setting: the default when unset, else the setting read as a `u16`.
pub open spec fn port_of(value: Option<Seq<char>>, default: u16) -> Option<u16> {
    match value {
        None => Some(default),
        Some(v) => parsed_u16(v),
    }
}

/// Reads one port setting; `None` when it is set but not a port number.
pub fn port_setting(value: Option<&str>, default: u16) -> (r: Option<u16>)
    ensures
        r == port_of(
            match value {
                Some(v) => Some(v@),
                None => None,
            },
            default,
        ),
{
    match value {
        None => Some(default),
        Some(v) => parse_u16(v),
    }
}

/// The configuration given by the two port settings (the public port is
/// checked first), with the defaults for unset ones.
pub fn config_from_settings(public: Option<&str>, private: Option<&str>) -> (r: Result<
    Config,
    PortError,
>)
    ensures
        ({
            let pu = port_of(
                match public {
                    Some(v) => Some(v@),
                    None => None,
                },
                DEFAULT_PUBLIC_PORT,
            );
            let pr = port_of(
                match private {
                    Some(v) => Some(v@),
                    None => None,
                },
                DEFAULT_PRIVATE_PORT,
            );
            match r {
                Ok(c) => pu == Some(c.public_port) && pr == Some(c.private_port),
                Err(PortError::InvalidPublic) => pu is None,
                Err(PortError::InvalidPrivate) => pu is Some && pr is None,
            }
        }),
{
    let public_port = match port_setting(public, DEFAULT_PUBLIC_PORT) {
        Some(p) => p,
        None => return Err(PortError::InvalidPublic),
    };
    let private_port = match port_setting(private, DEFAULT_PRIVATE_PORT) {
        Some(p) => p,
        None => return Err(PortError::InvalidPrivate),
    };
    Ok(Config { public_port, private_port })
}

} // verus!
