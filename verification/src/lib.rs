//! A tagged value model and its textual codec.
//!
//! A `ValueTypes` tree (integer, float, text, mapping, list) wrapped in a
//! `JsonStruct` record is converted losslessly to and from a textual
//! serialized form in which the active variant is explicitly tagged.  The
//! grammar is stated at the specification level in `grammar`, its parser in
//! `parsing`, and decoding an encoded record is proved to give the record
//! back (`laws`).
use vstd::prelude::*;

pub mod model;
pub mod grammar;
pub mod parsing;
pub mod laws;
mod text;
mod encode;
mod decode;

verus! {

use crate::model::{DecodeError, EncodeError, JsonStruct};
use crate::grammar::{enc_record, lemma_tag_strings, wf_record};
use crate::parsing::parse_record;
use crate::text::{chars_to_string, str_to_chars};

/// Serializes `data`: the record's two fields under their keys, the value
/// with its variant tag.  Fails exactly when some payload of the value
/// cannot be rendered: a `Float` whose text is not a decimal literal, or a
/// mapping with a repeated key.
pub fn json_encode(data: JsonStruct) -> (r: Result<String, EncodeError>)
    ensures
        r matches Ok(s) ==> wf_record(data@) && s@ == enc_record(data@),
        r is Err <==> !wf_record(data@),
{
    let mut out: Vec<char> = Vec::new();
    out.push('{');
    out.push('"');
    out.push('f');
    out.push('i');
    out.push('e');
    out.push('l');
    out.push('d');
    out.push('"');
    out.push(':');
    crate::encode::push_string(&mut out, data.field.as_str());
    out.push(',');
    out.push('"');
    out.push('v');
    out.push('a');
    out.push('l');
    out.push('u');
    out.push('e');
    out.push('"');
    out.push(':');
    match crate::encode::push_value(&mut out, &data.value) {
        Ok(()) => {},
        Err(e) => {
            return Err(e);
        },
    }
    out.push('}');
    proof {
        lemma_tag_strings();
        assert(out@ =~= enc_record(data@));
    }
    Ok(chars_to_string(&out))
}

/// Parses a serialized record back into a `JsonStruct`.  Fails exactly when
/// the text does not match the grammar: malformed syntax, a shape other than
/// the two expected fields, an unrecognized tag, a repeated mapping key, or a
/// payload literal that does not convert.  A decoded record is well-formed:
/// every mapping anywhere in it has pairwise-distinct keys.
pub fn json_decode(json_str: &str) -> (r: Result<JsonStruct, DecodeError>)
    ensures
        r matches Ok(rec) ==> parse_record(json_str@) == Some(rec@),
        r matches Ok(rec) ==> wf_record(rec@),
        r is Err <==> parse_record(json_str@) is None,
{
    proof {
        crate::parsing::lemma_parse_record_wf(json_str@);
    }
    let chars = str_to_chars(json_str);
    crate::decode::parse_record_exec(&chars)
}

} // verus!
