//! The embedder adapter: wraps the external embedding model as a batch
//! function from labeled texts to vectors, each f32 component carried
//! as its bit pattern, and pairs the vectors with their labels.

use vstd::prelude::*;

use crate::errors::Error;
use crate::store::build_records;
use crate::store::Record;

verus! {

/// Declares fastembed::TextEmbedding so the adapter can carry the model
/// through; the value is opaque here and only the wrapper below touches it.
#[verifier::external_type_specification]
#[verifier::external_body]
pub struct ExTextEmbedding(fastembed::TextEmbedding);

/// Relies on fastembed::TextEmbedding::embed, handing back whatever
/// batch the model answers with, every f32 component as its exact bit
/// pattern. What the model returns depends on its files and the
/// machine, so nothing is promised of the answer; the caller validates
/// its shape.
#[verifier::external_body]
fn embed_batch(model: &mut fastembed::TextEmbedding, docs: &Vec<Vec<u8>>) -> (r: Result<
    Vec<Vec<u32>>,
    Error,
>)
    ensures
        (r matches Err(e) ==> e == Error::EmbeddingError),
{
    let texts: Vec<String> = docs.iter().map(|d| String::from_utf8_lossy(d).into_owned()).collect();
    match model.embed(texts, None) {
        Ok(vs) => Ok(
            vs.into_iter().map(|v| v.into_iter().map(|x| x.to_bits()).collect()).collect(),
        ),
        Err(_) => Err(Error::EmbeddingError),
    }
}

/// Embeds one labeled text per document and pairs each vector with its
/// label: the compute core of the embed command. An empty corpus never
/// reaches the model and yields the empty store. Whatever batch the
/// model answers with is validated: on success there is one record per
/// document, holding exactly that document's label, and every vector
/// has the same dimension; an inconsistent batch is rejected instead of
/// stored.
pub fn embed_documents(model: &mut fastembed::TextEmbedding, labels: Vec<Vec<u8>>) -> (r: Result<
    Vec<Record>,
    Error,
>)
    ensures
        (labels@.len() == 0 ==> r is Ok),
        (r matches Ok(rs) ==> rs@.len() == labels@.len()),
        (r matches Ok(rs) ==> forall|i: int|
            0 <= i < rs@.len() ==> (#[trigger] rs@[i]).label@ == labels@[i]@),
        (r matches Ok(rs) ==> forall|i: int|
            0 <= i < rs@.len() ==> (#[trigger] rs@[i]).vector@.len() == rs@[0].vector@.len()),
        (r matches Err(e) ==> e == Error::EmbeddingError || e == Error::DimensionMismatch),
{
    if labels.len() == 0 {
        // an empty corpus needs no model call: the store is empty
        return Ok(Vec::new());
    }
    let vectors = match embed_batch(model, &labels) {
        Ok(vs) => vs,
        Err(e) => {
            return Err(e);
        },
    };
    build_records(labels, vectors)
}

} // verus!
