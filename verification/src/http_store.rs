//! Configuration of the HTTP store backend.
//!
//! The backend itself performs network I/O and lives outside this library;
//! what is validated here is the configuration a caller hands over: the
//! endpoint root and the storage options, of which only `asynchronous` is
//! understood.

use crate::error::CodecPipelineError;
use crate::text::str_equal;
use vstd::prelude::*;

verus! {

/// The configuration of an HTTP store: its endpoint root.
pub struct HttpStoreConfig {
    /// The endpoint the store serves keys under.
    pub root: String,
}

impl HttpStoreConfig {
    /// Validate the storage options and build the configuration.
    ///
    /// The only storage option understood is `asynchronous`; any other key is
    /// refused.
    pub fn new(path: &str, storage_option_keys: &Vec<String>) -> (r: Result<
        HttpStoreConfig,
        CodecPipelineError,
    >)
        ensures
            match r {
                Ok(c) => c.root@ == path@ && (forall|i: int|
                    0 <= i < storage_option_keys@.len() ==> (#[trigger] storage_option_keys@[i])@
                        == "asynchronous"@),
                Err(e) => e == CodecPipelineError::UnsupportedStorageOption && (exists|i: int|
                    0 <= i < storage_option_keys@.len() && (#[trigger] storage_option_keys@[i])@
                        != "asynchronous"@),
            },
    {
        let mut i: usize = 0;
        while i < storage_option_keys.len()
            invariant
                0 <= i <= storage_option_keys@.len(),
                forall|p: int|
                    0 <= p < i ==> (#[trigger] storage_option_keys@[p])@ == "asynchronous"@,
            decreases storage_option_keys@.len() - i,
        {
            if !str_equal(storage_option_keys[i].as_str(), "asynchronous") {
                proof {
                    assert((storage_option_keys@[i as int])@ != "asynchronous"@);
                }
                return Err(CodecPipelineError::UnsupportedStorageOption);
            }
            i += 1;
        }
        Ok(HttpStoreConfig { root: path.to_owned() })
    }
}

} // verus!
