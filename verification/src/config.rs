//! The command line configuration.

use vstd::prelude::*;

use crate::error::{ErrorView, RzError};
use crate::text::{decimal, decimal_text};

verus! {

/// The configuration of the service.
#[derive(Debug, PartialEq, Eq)]
pub struct Config {
    /// Listen address.
    pub addr: String,
    /// Listen port.
    pub port: u16,
    /// Path to the state file.
    pub state_file: String,
    /// How long changes may wait before they are written to disk, in
    /// milliseconds.
    pub buffer_ms: u64,
    /// How long a component stays registered without a heartbeat, in seconds.
    pub heartbeat_timeout_secs: u64,
    /// Path to the codecs file.
    pub codecs_path: String,
}

/// The text of a listen address and port.
pub open spec fn listen_text(addr: Seq<char>, port: u16) -> Seq<char> {
    addr + ":"@ + decimal(port as nat)
}

/// What is wrong with the codecs file, if anything.
pub open spec fn codecs_file_fault(path: Seq<char>, exists_there: bool, is_file: bool) -> Option<ErrorView> {
    if !exists_there {
        Some(ErrorView::Config("Codecs file not found: "@ + path))
    } else if !is_file {
        Some(ErrorView::Config("Codecs path is not a file: "@ + path))
    } else {
        None
    }
}

impl Config {
    /// The address to listen on, as text.
    pub fn socket_addr(&self) -> (r: String)
        ensures
            r@ == listen_text(self.addr@, self.port),
            r@ == self.addr@ + ":"@ + decimal(self.port as nat),
    {
        self.addr.clone().concat(":").concat(decimal_text(self.port as u64).as_str())
    }

    /// The error for a listen address that `cause` keeps from being one.
    pub fn invalid_address(&self, cause: &str) -> (r: RzError)
        ensures
            r@ == ErrorView::Config(
                "invalid listen address '"@ + listen_text(self.addr@, self.port) + "': "@ + cause@,
            ),
            r is Config,
            r->Config_0@ == "invalid listen address '"@ + (self.addr@ + ":"@ + decimal(self.port as nat)) + "': "@
                + cause@,
    {
        RzError::Config(
            "invalid listen address '".to_owned().concat(self.socket_addr().as_str()).concat("': ").concat(cause),
        )
    }

    /// Checks that the codecs file is there, and is a file.
    pub fn validate_codecs_file(&self, exists_there: bool, is_file: bool) -> (r: Result<(), RzError>)
        ensures
            match codecs_file_fault(self.codecs_path@, exists_there, is_file) {
                Some(fault) => r is Err && r->Err_0@ == fault,
                None => r is Ok,
            },
            r is Ok <==> exists_there && is_file,
            !exists_there ==> r->Err_0 is Config && r->Err_0->Config_0@ == "Codecs file not found: "@
                + self.codecs_path@,
            exists_there && !is_file ==> r->Err_0 is Config && r->Err_0->Config_0@ == "Codecs path is not a file: "@
                + self.codecs_path@,
    {
        if !exists_there {
            return Err(RzError::Config("Codecs file not found: ".to_owned().concat(self.codecs_path.as_str())));
        }
        if !is_file {
            return Err(RzError::Config("Codecs path is not a file: ".to_owned().concat(self.codecs_path.as_str())));
        }
        Ok(())
    }
}

} // verus!
