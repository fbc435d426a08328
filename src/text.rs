//! Raw text runs of a document: entity references replaced, bytes decoded,
//! then laid out.
use vstd::prelude::*;
use vstd::string::StrSliceExecFns;
use crate::breaking::MAX_WIDTH;
use crate::layout::{format_paragraph, layout};
use crate::render::{Align, strs};

verus! {

/// What quick_xml's unescaping makes of the bytes `raw`; `None` where it
/// reports an error.
pub uninterp spec fn unescaped_of(raw: Seq<u8>) -> Option<Seq<u8>>;

/// What `String::from_utf8_lossy` makes of `bytes`.
pub uninterp spec fn lossy_of(bytes: Seq<u8>) -> Seq<char>;

/// Why a raw text run could not be laid out.
#[derive(Clone, Copy, Debug, PartialEq, Eq, Structural)]
pub enum TextError {
    /// An entity reference that quick_xml does not accept.
    BadEscape,
    /// More characters than can be counted.
    TooLong,
}

/// Relies on `quick_xml::escape::unescape`: entity references replaced by
/// what they stand for; bytes without `&` come back as they are.
#[verifier::external_body]
fn unescape(raw: &Vec<u8>) -> (r: Option<Vec<u8>>)
    ensures
        r is Some ==> unescaped_of(raw@) == Some(r->0@),
        r is None ==> unescaped_of(raw@) is None,
        (forall|k: int| 0 <= k < raw@.len() ==> raw@[k] != 38u8) ==> (r is Some && r->0@ == raw@),
{
    quick_xml::escape::unescape(raw).ok().map(|b| b.into_owned())
}

/// Relies on `String::from_utf8_lossy`: the bytes decoded as UTF-8, each
/// invalid sequence replaced by U+FFFD.
#[verifier::external_body]
fn decode_lossy(bytes: &Vec<u8>) -> (r: String)
    ensures
        r@ == lossy_of(bytes@),
{
    String::from_utf8_lossy(bytes).into_owned()
}

/// Lays out the raw bytes of a text run: entity references replaced, the
/// result decoded, then set as `format_paragraph` sets it.
pub fn format_raw_text(raw: &Vec<u8>, align: Align, width: usize) -> (r: Result<Vec<String>, TextError>)
    requires
        width <= MAX_WIDTH,
    ensures
        unescaped_of(raw@) is None ==> r == Err::<Vec<String>, TextError>(TextError::BadEscape),
        unescaped_of(raw@) is Some && lossy_of(unescaped_of(raw@)->0).len() >= usize::MAX
            ==> r == Err::<Vec<String>, TextError>(TextError::TooLong),
        unescaped_of(raw@) is Some && lossy_of(unescaped_of(raw@)->0).len() < usize::MAX ==> (r is Ok
            && strs(r->Ok_0@) == layout(lossy_of(unescaped_of(raw@)->0), align, width as int)),
{
    match unescape(raw) {
        None => Err(TextError::BadEscape),
        Some(bytes) => {
            let text = decode_lossy(&bytes);
            if text.as_str().unicode_len() < usize::MAX {
                Ok(format_paragraph(text.as_str(), align, width))
            } else {
                Err(TextError::TooLong)
            }
        },
    }
}

} // verus!
