//! Unpacking training data.
use vstd::prelude::*;

verus! {

/// What a `flate2::read::GzDecoder` over packed bytes gives when it is read
/// until it gives no more; nothing where it fails.
pub uninterp spec fn unpacked(packed: Seq<u8>) -> Option<Seq<u8>>;

/// Unpacks bytes.
///
/// Trusted: reading a `flate2::read::GzDecoder` over bytes until it gives no
/// more, with `std::io::Read::read_to_end`, gives what is named `unpacked` of
/// them, or fails. What that is, is left unsaid.
#[verifier::external_body]
fn gunzip(packed: &[u8]) -> (r: Option<Vec<u8>>)
    ensures
        unpacked(packed@) == match r {
            Some(data) => Some(data@),
            None => None,
        },
{
    let mut data: Vec<u8> = Vec::new();
    match std::io::Read::read_to_end(&mut flate2::read::GzDecoder::new(packed), &mut data) {
        Ok(_) => Some(data),
        Err(_) => None,
    }
}

/// Loads training data.
pub struct DataLoader;

/// Why training data cannot be loaded.
#[derive(Clone, Copy, PartialEq, Eq, Structural, Debug)]
pub enum LoadError {
    /// It cannot be unpacked.
    Corrupt,
}

impl DataLoader {
    /// The text of training data, from the bytes of a file.
    pub fn load_train_data(packed: &[u8]) -> (r: Result<Vec<u8>, LoadError>)
        ensures
            r matches Ok(text) ==> unpacked(packed@) == Some(text@),
            r is Err <==> unpacked(packed@) is None,
    {
        match gunzip(packed) {
            Some(text) => Ok(text),
            None => Err(LoadError::Corrupt),
        }
    }
}

} // verus!
