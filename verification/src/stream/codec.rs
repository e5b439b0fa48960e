//! A look at encoded frames.

use vstd::prelude::*;

use crate::text;

verus! {

/// A CBOR data item of the `ciborium` crate, of any shape.
#[verifier::external_type_specification]
#[verifier::external_body]
pub struct ExCborValue(ciborium::value::Value);

/// What goes wrong when a frame is encoded, decoded or shown.
#[derive(Debug)]
pub enum CodecError {
    /// The frame could not be encoded.
    Encode(String),
    /// The bytes are not CBOR, or not a frame.
    Decode(String),
    /// The data has no JSON form.
    Json(String),
}

impl CodecError {
    /// The error as text.
    pub open spec fn text(self) -> Seq<char> {
        match self {
            CodecError::Encode(e) => "cbor encode error: "@ + e@,
            CodecError::Decode(e) => "cbor decode error: "@ + e@,
            CodecError::Json(e) => "json conversion error: "@ + e@,
        }
    }

    /// The error as text.
    pub fn message(&self) -> (r: String)
        ensures
            r@ == self.text(),
    {
        let mut s: String = String::new();
        match self {
            CodecError::Encode(e) => {
                text::push_text(&mut s, "cbor encode error: ");
                text::push_text(&mut s, e.as_str());
            },
            CodecError::Decode(e) => {
                text::push_text(&mut s, "cbor decode error: ");
                text::push_text(&mut s, e.as_str());
            },
            CodecError::Json(e) => {
                text::push_text(&mut s, "json conversion error: ");
                text::push_text(&mut s, e.as_str());
            },
        }
        assert(s@ =~= self.text());
        s
    }
}

/// The data item that `ciborium::from_reader` reads from the start of a byte string, or
/// the text of the error it reports.
pub uninterp spec fn cbor_item(bytes: Seq<u8>) -> Result<ciborium::value::Value, Seq<char>>;

/// The text that `serde_json::to_string_pretty` writes for a data item, or the text of
/// the error it reports.
pub uninterp spec fn json_text(item: ciborium::value::Value) -> Result<Seq<char>, Seq<char>>;

/// `ciborium::from_reader` on a byte slice. What it returns depends on the bytes alone;
/// its error is taken as the text that it displays. The crate refuses items that are
/// nested deeper than 256 levels, so the call returns on every input.
#[verifier::external_body]
fn read_cbor(bytes: &[u8]) -> (r: Result<ciborium::value::Value, String>)
    ensures
        match r {
            Ok(v) => cbor_item(bytes@) == Ok::<_, Seq<char>>(v),
            Err(e) => cbor_item(bytes@) == Err::<ciborium::value::Value, _>(e@),
        },
{
    ciborium::from_reader::<ciborium::value::Value, &[u8]>(bytes).map_err(|e| e.to_string())
}

/// `serde_json::to_string_pretty` on a data item. What it returns depends on the item
/// alone; its error is taken as the text that it displays. It descends into the item, so
/// the item must be one that was read, which bounds its depth.
#[verifier::external_body]
fn write_json(item: &ciborium::value::Value) -> (r: Result<String, String>)
    requires
        exists|bytes: Seq<u8>| #[trigger] cbor_item(bytes) == Ok::<_, Seq<char>>(*item),
    ensures
        match r {
            Ok(s) => json_text(*item) == Ok::<_, Seq<char>>(s@),
            Err(e) => json_text(*item) == Err::<Seq<char>, _>(e@),
        },
{
    serde_json::to_string_pretty(item).map_err(|e| e.to_string())
}

/// What reading bytes and writing the item as JSON comes to.
pub open spec fn rendering(bytes: Seq<u8>) -> Result<Result<Seq<char>, Seq<char>>, Seq<char>> {
    match cbor_item(bytes) {
        Ok(item) => Ok(json_text(item)),
        Err(e) => Err(e),
    }
}

/// The answer for what reading and writing came to.
pub open spec fn answers(
    outcome: Result<Result<Seq<char>, Seq<char>>, Seq<char>>,
    r: Result<String, CodecError>,
) -> bool {
    match outcome {
        Err(e) => r matches Err(CodecError::Decode(s)) && s@ == e,
        Ok(Err(e)) => r matches Err(CodecError::Json(s)) && s@ == e,
        Ok(Ok(t)) => r matches Ok(s) && s@ == t,
    }
}

/// Turn what reading (outside) and writing (inside) came to into an answer.
pub fn json_answer(outcome: Result<Result<String, String>, String>) -> (r: Result<
    String,
    CodecError,
>)
    ensures
        answers(
            match outcome {
                Err(e) => Err(e@),
                Ok(Err(e)) => Ok(Err(e@)),
                Ok(Ok(t)) => Ok(Ok(t@)),
            },
            r,
        ),
{
    match outcome {
        Err(e) => Err(CodecError::Decode(e)),
        Ok(Err(e)) => Err(CodecError::Json(e)),
        Ok(Ok(t)) => Ok(t),
    }
}

/// Convert raw CBOR bytes to indented JSON for a human reader.
///
/// The bytes are read as CBOR of any shape, not by the frame schema, so this works on
/// frames of other versions too. Byte strings show as arrays of numbers.
pub fn to_json(bytes: &[u8]) -> (r: Result<String, CodecError>)
    ensures
        answers(rendering(bytes@), r),
{
    match read_cbor(bytes) {
        Err(e) => json_answer(Err(e)),
        Ok(item) => {
            assert(cbor_item(bytes@) == Ok::<_, Seq<char>>(item));
            json_answer(Ok(write_json(&item)))
        },
    }
}

/// An error is shown as what failed and why: encoding, decoding or conversion, then the cause.
pub proof fn law_error_text(cause: String)
    ensures
        CodecError::Encode(cause).text() == "cbor encode error: "@ + cause@,
        CodecError::Decode(cause).text() == "cbor decode error: "@ + cause@,
        CodecError::Json(cause).text() == "json conversion error: "@ + cause@,
{
}

/// There is an answer exactly if reading and writing both succeed, and it is what was written.
/// An error is of the kind of the step that failed and keeps its cause.
pub proof fn law_answer_tells_what_failed(
    outcome: Result<Result<Seq<char>, Seq<char>>, Seq<char>>,
    r: Result<String, CodecError>,
)
    requires
        answers(outcome, r),
    ensures
        r is Ok <==> outcome is Ok && outcome->Ok_0 is Ok,
        r matches Ok(s) ==> outcome == Ok::<_, Seq<char>>(Ok::<_, Seq<char>>(s@)),
        r matches Err(e) ==> match e {
            CodecError::Decode(cause) => outcome == Err::<Result<Seq<char>, Seq<char>>, _>(cause@),
            CodecError::Json(cause) => outcome == Ok::<_, Seq<char>>(Err::<Seq<char>, _>(cause@)),
            CodecError::Encode(_) => false,
        },
{
}

/// What cannot be read is a decoding error, whatever writing would do; what can be read comes to
/// what writing the item that was read comes to.
pub proof fn law_rendering_reads_first(bytes: Seq<u8>)
    ensures
        cbor_item(bytes) is Err ==> rendering(bytes) is Err && rendering(bytes)->Err_0 == cbor_item(
            bytes,
        )->Err_0,
        cbor_item(bytes) is Ok ==> rendering(bytes) is Ok && rendering(bytes)->Ok_0 == json_text(
            cbor_item(bytes)->Ok_0,
        ),
{
}

} // verus!
