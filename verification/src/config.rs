//! The configuration surface the connection acceptor consumes: the
//! listen port, the receiver's own application-entity title, the
//! negotiation policy knobs, and where incoming objects are stored.

use vstd::prelude::*;
use vstd::string::StringExecFns;

verus! {

/// Run-time configuration of the receiver.
pub struct Config {
    /// The application-entity title this receiver answers with.
    pub calling_ae_title: String,
    /// Enforce the negotiated maximum unit length strictly.
    pub strict: bool,
    /// Offer only native, uncompressed data encodings.
    pub uncompressed_only: bool,
    /// The maximum protocol-data-unit length to negotiate.
    pub max_pdu_length: u32,
    /// Where incoming objects are persisted.
    pub out_dir: String,
    /// The port to listen on.
    pub port: u16,
    /// Verbose logging.
    pub verbose: bool,
}

impl Default for Config {
    /// The defaults the command line starts from.
    fn default() -> (r: Config)
        ensures
            r.calling_ae_title@ == "STORE-SCP"@,
            r.strict == false,
            r.uncompressed_only == false,
            r.max_pdu_length == 16384,
            r.out_dir@ == "."@,
            r.port == 11111,
            r.verbose == false,
    {
        Config {
            calling_ae_title: String::from_str("STORE-SCP"),
            strict: false,
            uncompressed_only: false,
            max_pdu_length: 16384,
            out_dir: String::from_str("."),
            port: 11111,
            verbose: false,
        }
    }
}

} // verus!
