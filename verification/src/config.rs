//! The validated configuration of one endpoint: its role, the sliding
//! window's capacity, and the file to transfer. Addressing (host and port)
//! belongs to the caller that binds the socket; option parsing belongs to
//! the command line front end, which hands plain values in here.

use vstd::prelude::*;
use vstd::string::StringExecFns;

use crate::transport::TransportError;

verus! {

/// Default number of slots in the sliding window.
pub const DEFAULT_WINDOW_SIZE: usize = 1024;

/// Default port to connect to when sending, or to listen on when receiving.
pub const DEFAULT_PORT: u16 = 1234;

/// One endpoint's validated options.
pub struct Configuration {
    sender: bool,
    host: String,
    port: u16,
    window_size: usize,
    file: String,
}

impl Configuration {
    /// Whether this endpoint sends (true) or receives (false).
    pub closed spec fn spec_sender(self) -> bool {
        self.sender
    }

    /// The peer's host for a sender; the host to bind for a receiver.
    pub closed spec fn spec_host(self) -> Seq<char> {
        self.host@
    }

    /// The peer's port for a sender; the port to listen on for a receiver.
    pub closed spec fn spec_port(self) -> u16 {
        self.port
    }

    /// The sliding window's capacity in slots.
    pub closed spec fn spec_window_size(self) -> usize {
        self.window_size
    }

    /// The path of the file to read (sender) or write (receiver).
    pub closed spec fn spec_file(self) -> Seq<char> {
        self.file@
    }

    /// A usable configuration: the window holds at least two slots, as its
    /// ring requires.
    pub closed spec fn wf(self) -> bool {
        self.window_size >= 2
    }

    /// Validate plain option values into a configuration. A window of fewer
    /// than two slots cannot hold its ring and is rejected as invalid.
    pub fn new(sender: bool, host: String, port: u16, window_size: usize, file: String) -> (r:
        Result<Configuration, TransportError>)
        ensures
            r is Ok <==> window_size >= 2,
            r is Err ==> r == Err::<Configuration, TransportError>(TransportError::ConfigInvalid),
            r matches Ok(c) ==> c.wf() && c.spec_sender() == sender && c.spec_host() == host@
                && c.spec_port() == port && c.spec_window_size() == window_size && c.spec_file()
                == file@,
    {
        if window_size < 2 {
            Err(TransportError::ConfigInvalid)
        } else {
            Ok(Configuration { sender, host, port, window_size, file })
        }
    }

    /// The host option: the peer for a sender, the bind address for a
    /// receiver.
    pub fn host(&self) -> (r: &String)
        ensures
            r@ == self.spec_host(),
    {
        &self.host
    }

    /// The port option: the peer's port for a sender, the listening port for
    /// a receiver.
    pub fn port(&self) -> (r: u16)
        ensures
            r == self.spec_port(),
    {
        self.port
    }

    /// Whether this endpoint sends.
    pub fn sender(&self) -> (r: bool)
        ensures
            r == self.spec_sender(),
    {
        self.sender
    }

    /// The sliding window's capacity in slots.
    pub fn window_size(&self) -> (r: usize)
        ensures
            r == self.spec_window_size(),
    {
        self.window_size
    }

    /// The path of the file to transfer.
    pub fn file(&self) -> (r: &String)
        ensures
            r@ == self.spec_file(),
    {
        &self.file
    }
}

impl Default for Configuration {
    /// The receiving role on the loopback host, with the default port and
    /// window and a scratch file.
    fn default() -> (r: Configuration)
        ensures
            r.wf(),
            !r.spec_sender(),
            r.spec_host() == "127.0.0.1"@,
            r.spec_port() == DEFAULT_PORT,
            r.spec_window_size() == DEFAULT_WINDOW_SIZE,
            r.spec_file() == "/tmp/test"@,
    {
        Configuration {
            sender: false,
            host: String::from_str("127.0.0.1"),
            port: DEFAULT_PORT,
            window_size: DEFAULT_WINDOW_SIZE,
            file: String::from_str("/tmp/test"),
        }
    }
}

} // verus!
