//! Finding the request in the data of an event.

use crate::text::Text;
use vstd::prelude::*;
use vstd::string::StringExecFns;

verus! {

/// The name of the field that holds the request.
pub open spec fn payload_name() -> Text {
    "payload"@
}

/// What each field of `fields` holds as a text; a field that is no text
/// holds none.
pub open spec fn field_texts(fields: Seq<Option<String>>) -> Seq<Option<Text>> {
    Seq::new(
        fields.len(),
        |i: int|
            match fields[i] {
                Some(text) => Some(text@),
                None => None,
            },
    )
}

/// The field at `at` is a name, it is the payload's, and its value follows.
/// A list of fields holds names and values in turn, the first name at 0.
pub open spec fn names_payload(fields: Seq<Option<Text>>, at: int) -> bool {
    &&& 0 <= at
    &&& at % 2 == 0
    &&& at + 1 < fields.len()
    &&& fields[at] == Some(payload_name())
}

/// The place of the payload in `fields`: that of the value of the first
/// field that names it, if there is one.
pub open spec fn payload_place(fields: Seq<Option<Text>>) -> Option<int> {
    if exists|at: int| names_payload(fields, at) {
        let first = choose|at: int|
            names_payload(fields, at) && forall|other: int|
                names_payload(fields, other) ==> at <= other;
        Some(first + 1)
    } else {
        None
    }
}

/// Where the request is found in the data of an event.
#[derive(Debug, Clone, Copy, PartialEq, Eq, Structural)]
pub enum PayloadSource {
    /// In the member of the data that is named as the payload.
    Field,
    /// In the data itself, which is a list of names and values in turn.
    Fields,
    /// The data as a whole is the request.
    Whole,
}

/// Where the request is found: in the payload member where the data has
/// one, else among the fields where the data is a list, else the data as a
/// whole is the request.
pub fn payload_source(has_payload: bool, is_array: bool) -> (source: PayloadSource)
    ensures
        source == if has_payload {
            PayloadSource::Field
        } else if is_array {
            PayloadSource::Fields
        } else {
            PayloadSource::Whole
        },
{
    if has_payload {
        PayloadSource::Field
    } else if is_array {
        PayloadSource::Fields
    } else {
        PayloadSource::Whole
    }
}

/// Why a list of fields was refused.
#[derive(Debug, Clone, Copy, PartialEq, Eq, Structural)]
pub enum EnvelopeError {
    /// No field names the payload.
    MissingPayload,
}

impl EnvelopeError {
    /// The error in words.
    pub fn message(&self) -> (text: String)
        ensures
            text@ == "cloud event data array does not contain a payload field"@,
    {
        String::from_str("cloud event data array does not contain a payload field")
    }
}

/// The place of the payload among `fields`, which hold names and values in
/// turn; each field is given by its text, or by `None` if it is no text.
pub fn payload_position(fields: &[Option<String>]) -> (place: Result<usize, EnvelopeError>)
    ensures
        match place {
            Ok(at) => payload_place(field_texts(fields@)) == Some(at as int) && at < fields@.len(),
            Err(e) => payload_place(field_texts(fields@)) is None && e
                == EnvelopeError::MissingPayload,
        },
{
    let ghost texts = field_texts(fields@);
    let name = String::from_str("payload");
    let mut index: usize = 0;
    while index < fields.len() && fields.len() - index > 1
        invariant
            index % 2 == 0,
            index <= fields@.len(),
            texts == field_texts(fields@),
            name@ == payload_name(),
            forall|at: int| 0 <= at < index ==> !names_payload(texts, at),
        decreases fields@.len() - index,
    {
        let found = match &fields[index] {
            Some(text) => *text == name,
            None => false,
        };
        if found {
            proof {
                assert(names_payload(texts, index as int));
                let first = choose|at: int|
                    names_payload(texts, at) && forall|other: int|
                        names_payload(texts, other) ==> at <= other;
                assert(names_payload(texts, first) && forall|other: int|
                    names_payload(texts, other) ==> first <= other) by {
                    assert(forall|other: int|
                        names_payload(texts, other) ==> index as int <= other);
                }
            }
            return Ok(index + 1);
        }
        proof {
            assert(!names_payload(texts, index as int));
            assert(!names_payload(texts, index + 1));
        }
        index += 2;
    }
    Err(EnvelopeError::MissingPayload)
}

} // verus!
