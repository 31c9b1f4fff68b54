//! Rendering captured image bytes as a data URL.

use vstd::prelude::*;

verus! {

/// The base64 rendering of a byte sequence under the standard alphabet with
/// padding, exactly as `base64`'s standard engine produces it.
pub uninterp spec fn base64_of(bytes: Seq<u8>) -> Seq<char>;

/// Relies on `base64`'s `Engine::encode` with the standard padded engine:
/// the rendering depends on the bytes alone.
#[verifier::external_body]
fn encode_base64(data: &Vec<u8>) -> (r: String)
    ensures
        r@ == base64_of(data@),
{
    base64::Engine::encode(&base64::engine::general_purpose::STANDARD, data)
}

/// Renders PNG image bytes as a data URL: the fixed prefix, then the base64
/// rendering of the bytes.
pub fn image_data_url(data: &Vec<u8>) -> (r: String)
    ensures
        r@ == "data:image/png;base64,"@ + base64_of(data@),
{
    let mut s = String::from_str("data:image/png;base64,");
    let b = encode_base64(data);
    s.append(b.as_str());
    s
}

} // verus!
