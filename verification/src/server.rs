use bson::Document;
use vstd::prelude::*;
use crate::bson_nesting::{
    bson_document, bson_nesting, elements_bytes, lemma_nesting_of_document, nesting_within, u32_le_bytes, value_bytes,
    value_depth, BsonValue,
};
use vstd::slice::slice_subrange;

verus! {

#[verifier::external_type_specification]
#[verifier::external_body]
pub struct ExDocument(bson::Document);

#[verifier::external_type_specification]
#[verifier::external_body]
pub struct ExBsonDeError(bson::de::Error);

/// The keys, in order, of the document that `bson::Document::from_reader`
/// reads from `bytes`; `None` where it reads none.
pub uninterp spec fn bson_read_keys(bytes: Seq<u8>) -> Option<Seq<Seq<char>>>;

/// The keys a `bson::Document` holds, in the order it keeps them (an
/// `IndexMap` keeps the order in which keys were first inserted).
pub uninterp spec fn document_keys(doc: Document) -> Seq<Seq<char>>;

/// The deepest nesting of documents, the outermost counting as one, that a
/// payload may reach to be handed to the decoder.
pub const MAX_NESTING: usize = 100;

/// `bson::Document::from_reader` over a byte slice. The decoder recurses
/// once for each nested document, array or code-with-scope, with no limit
/// of its own, so a deep enough payload overflows the stack. It reads the
/// elements in order, with the sizes that [`bson_nesting`]'s walk gives
/// them (`RawIter::next` in `raw/iter.rs`), enters each nested document
/// before it reads on, and stops at the first element it cannot read;
/// where the walk stops following the bytes, each deeper level needs one
/// more nesting mark, which the walk counts. So its depth stays within
/// `bson_nesting(bytes@)`, and `requires` keeps that to [`MAX_NESTING`].
/// The contract claims that whether a document is read, and which keys it
/// holds in which order, depend on the bytes alone (they are named
/// `bson_read_keys`), and that it fails where there are fewer than the four
/// bytes of the document's length prefix (`reader_to_vec` reads them with
/// `read_exact`). The values under the keys are not described.
#[verifier::external_body]
fn document_from_reader(bytes: &[u8]) -> (res: Result<Document, bson::de::Error>)
    requires
        bson_nesting(bytes@) <= MAX_NESTING,
    ensures
        (res is Ok) == (bson_read_keys(bytes@) is Some),
        res matches Ok(d) ==> bson_read_keys(bytes@) == Some(document_keys(d)),
        bytes@.len() < 4 ==> res is Err,
{
    Document::from_reader(bytes)
}

/// The message of a BSON decoding error: its `Display` text, through
/// `ToString`. Nothing is claimed of the text.
#[verifier::external_body]
fn de_error_message(err: &bson::de::Error) -> (msg: String) {
    err.to_string()
}

/// Why a request frame was refused.
#[derive(Debug)]
pub enum RequestError {
    /// The payload is not a BSON document; the message says why.
    ParsingError(String),
    /// The frame does not start with the openCypher header.
    HeaderError,
    /// The payload nests documents deeper than [`MAX_NESTING`].
    NestingError,
}

/// The header that starts every openCypher request frame:
/// `!application/openCypher`.
pub open spec fn spec_open_cypher_prefix() -> Seq<u8> {
    seq![33u8, 97, 112, 112, 108, 105, 99, 97, 116, 105, 111, 110, 47, 111, 112, 101, 110, 67, 121, 112, 104, 101, 114]
}

/// The frame holds the header and at least one byte after it.
pub open spec fn is_open_cypher_frame(data: Seq<u8>) -> bool {
    &&& data.len() > spec_open_cypher_prefix().len()
    &&& data.take(spec_open_cypher_prefix().len() as int) == spec_open_cypher_prefix()
}

/// The bytes of the openCypher header.
pub fn open_cypher_prefix() -> (p: Vec<u8>)
    ensures
        p@ == spec_open_cypher_prefix(),
{
    let p = vec![33u8, 97, 112, 112, 108, 105, 99, 97, 116, 105, 111, 110, 47, 111, 112, 101, 110, 67, 121, 112, 104, 101, 114];
    assert(p@ =~= spec_open_cypher_prefix());
    p
}

/// `res` is what reading the request document of the frame `data` gives:
/// `HeaderError` where the frame does not start with the header and hold a
/// byte after it; `NestingError` where the payload after the header nests
/// documents deeper than [`MAX_NESTING`]; else the document the payload
/// holds, with the keys its bytes give, or `ParsingError` where it holds
/// none.
pub open spec fn decoded_as(data: Seq<u8>, res: Result<Document, RequestError>) -> bool {
    &&& !is_open_cypher_frame(data) ==> (res matches Err(RequestError::HeaderError))
    &&& is_open_cypher_frame(data) ==> {
        let payload = data.skip(spec_open_cypher_prefix().len() as int);
        &&& bson_nesting(payload) > MAX_NESTING ==> (res matches Err(RequestError::NestingError))
        &&& bson_nesting(payload) <= MAX_NESTING ==> {
            &&& (res is Ok) == (bson_read_keys(payload) is Some)
            &&& res matches Ok(d) ==> bson_read_keys(payload) == Some(document_keys(d))
            &&& res is Err ==> (res matches Err(RequestError::ParsingError(_)))
        }
    }
}

/// A request whose documents nest at most [`MAX_NESTING`] deep is never
/// refused for nesting: for the frame made of the header and the bytes of
/// a well-formed BSON document, reading it gives the document or a parsing
/// error, never `NestingError` nor `HeaderError`.
pub proof fn lemma_shallow_requests_are_read(v: BsonValue)
    requires
        bson_document(v),
        value_depth(v) <= MAX_NESTING,
    ensures
        forall|res: Result<Document, RequestError>|
            #[trigger] decoded_as(spec_open_cypher_prefix() + value_bytes(v), res) ==> {
                &&& (res is Ok) == (bson_read_keys(value_bytes(v)) is Some)
                &&& !(res matches Err(RequestError::NestingError))
                &&& !(res matches Err(RequestError::HeaderError))
            },
{
    lemma_nesting_of_document(v);
    let data = spec_open_cypher_prefix() + value_bytes(v);
    let pl = spec_open_cypher_prefix().len() as int;
    assert(value_bytes(v).len() >= 5) by {
        let es = v->Document_1;
        assert(value_bytes(v) == u32_le_bytes(elements_bytes(v, es.len() as int).len() + 5int) + elements_bytes(
            v,
            es.len() as int,
        ) + seq![0u8]);
    }
    assert(data.take(pl) =~= spec_open_cypher_prefix());
    assert(data.skip(pl) =~= value_bytes(v));
    assert(is_open_cypher_frame(data));
}

/// Reads the BSON request document of a binary openCypher frame: the frame
/// must hold the header followed by the document's bytes. `HeaderError`
/// where it does not; `NestingError` where the payload nests documents
/// deeper than the decoder can safely follow; `ParsingError` where the
/// bytes after the header are not a document. The document is the one the
/// payload holds: its keys are those the payload's bytes give, in order.
pub fn decode_open_cypher_request(data: &[u8]) -> (res: Result<Document, RequestError>)
    ensures
        decoded_as(data@, res),
{
    let prefix = open_cypher_prefix();
    if data.len() <= prefix.len() {
        return Err(RequestError::HeaderError);
    }
    let mut i: usize = 0;
    while i < prefix.len()
        invariant
            0 <= i <= prefix@.len(),
            prefix@.len() < data@.len(),
            prefix@ == spec_open_cypher_prefix(),
            forall|k: int| 0 <= k < i ==> data@[k] == prefix@[k],
        decreases prefix@.len() - i,
    {
        if data[i] != prefix[i] {
            proof {
                assert(data@.take(prefix@.len() as int)[i as int] != prefix@[i as int]);
                assert(data@.take(prefix@.len() as int) != spec_open_cypher_prefix());
            }
            return Err(RequestError::HeaderError);
        }
        i = i + 1;
    }
    assert(data@.take(prefix@.len() as int) =~= prefix@);
    let payload = slice_subrange(data, prefix.len(), data.len());
    assert(payload@ =~= data@.skip(prefix@.len() as int));
    if !nesting_within(payload, MAX_NESTING) {
        return Err(RequestError::NestingError);
    }
    match document_from_reader(payload) {
        Ok(doc) => Ok(doc),
        Err(err) => Err(RequestError::ParsingError(de_error_message(&err))),
    }
}

/// A message a connection receives: a binary frame, a request to close,
/// or anything else.
pub enum Incoming {
    Binary(Vec<u8>),
    Close,
    Other,
}

/// What a connection does with a message: hands the request document on
/// to be answered, stops, goes on to the next message, or ends with an
/// error.
pub enum ConnectionAction {
    Forward(Document),
    Stop,
    Skip,
    Refuse(RequestError),
}

/// What a connection does with the message `msg`: a binary frame is read as
/// a request (see [`decode_open_cypher_request`]) and forwarded, or refused
/// with the error that reading it gives; a close stops the connection; any
/// other message is skipped.
pub fn next_action(msg: Incoming) -> (action: ConnectionAction)
    ensures
        match msg {
            Incoming::Binary(data) => match action {
                ConnectionAction::Forward(doc) => decoded_as(data@, Ok(doc)),
                ConnectionAction::Refuse(e) => decoded_as(data@, Err(e)),
                _ => false,
            },
            Incoming::Close => action is Stop,
            Incoming::Other => action is Skip,
        },
{
    match msg {
        Incoming::Binary(data) => match decode_open_cypher_request(data.as_slice()) {
            Ok(doc) => ConnectionAction::Forward(doc),
            Err(e) => ConnectionAction::Refuse(e),
        },
        Incoming::Close => ConnectionAction::Stop,
        Incoming::Other => ConnectionAction::Skip,
    }
}

/// Settings of the database: where it keeps its files.
pub struct Conf {
    pub db_dir: String,
    pub node_store: String,
    pub relationship_store: String,
    pub properties_store: String,
}

} // verus!
