//! The protocols by which a page can be fetched, and their names.

use vstd::prelude::*;
use vstd::string::StringExecFns;

verus! {

/// How a page is fetched.
#[derive(Debug, Clone, Copy, PartialEq, Eq, Structural)]
pub enum PageReaderProtocol {
    HTTP,
    TCP,
}

/// The protocol that `input` names: `http` or `tcp`, in lower case.
pub open spec fn protocol_named(input: Seq<char>) -> Result<PageReaderProtocol, ()> {
    if input == "http"@ {
        Ok(PageReaderProtocol::HTTP)
    } else if input == "tcp"@ {
        Ok(PageReaderProtocol::TCP)
    } else {
        Err(())
    }
}

impl PageReaderProtocol {
    /// The protocol that `input` names, or an error for any other word.
    pub fn from_str(input: &str) -> (r: Result<PageReaderProtocol, ()>)
        ensures
            r == protocol_named(input@),
    {
        let word: String = String::from_str(input);
        if word == String::from_str("http") {
            Ok(PageReaderProtocol::HTTP)
        } else if word == String::from_str("tcp") {
            Ok(PageReaderProtocol::TCP)
        } else {
            Err(())
        }
    }
}

} // verus!
