//! What is done around an ONNX session: choosing the output, building the mask,
//! and taking an embedding out of a tensor.

use vstd::prelude::*;
use crate::json;
use crate::json::quote_text;
use crate::model::types::{Algorithm, ModelError, ModelMetadata};
use crate::text;
use crate::text::text_eq;

verus! {

/// What is taken out of an output tensor.
#[derive(Debug, Clone, Copy, PartialEq, Eq, Structural)]
pub enum OnnxOutputMode {
    /// The first value, as a prediction.
    Predict,
    /// The vector, as an embedding.
    Embed,
}

/// The name is among the names.
pub open spec fn has_name(names: Seq<Seq<char>>, name: Seq<char>) -> bool {
    exists|i: int| 0 <= i < names.len() && #[trigger] names[i] == name
}

/// The output to take: the pooled output, the text embedding, the last hidden
/// state, whichever comes first in this order; else the first output.
pub open spec fn chosen_output(names: Seq<Seq<char>>) -> Option<Seq<char>> {
    if has_name(names, "pooler_output"@) {
        Some("pooler_output"@)
    } else if has_name(names, "text_embeds"@) {
        Some("text_embeds"@)
    } else if has_name(names, "last_hidden_state"@) {
        Some("last_hidden_state"@)
    } else if names.len() > 0 {
        Some(names[0])
    } else {
        None
    }
}

fn find_name(names: &[String], name: &str) -> (r: bool)
    ensures
        r == has_name(text::texts(names@), name@),
{
    let ghost all = text::texts(names@);
    let mut i: usize = 0;
    while i < names.len()
        invariant
            all == text::texts(names@),
            i <= names@.len(),
            forall|j: int| 0 <= j < i ==> #[trigger] all[j] != name@,
        decreases names.len() - i,
    {
        assert(all[i as int] == names@[i as int]@);
        if text_eq(names[i].as_str(), name) {
            return true;
        }
        i = i + 1;
    }
    false
}

/// Chooses the output to take; `None` where there is no output.
pub fn pick_output_name(names: &[String]) -> (r: Option<&str>)
    ensures
        match r {
            Some(name) => chosen_output(text::texts(names@)) == Some(name@),
            None => chosen_output(text::texts(names@)) is None,
        },
{
    if find_name(names, "pooler_output") {
        return Some("pooler_output");
    }
    if find_name(names, "text_embeds") {
        return Some("text_embeds");
    }
    if find_name(names, "last_hidden_state") {
        return Some("last_hidden_state");
    }
    if names.len() > 0 {
        assert(text::texts(names@)[0] == names@[0]@);
        Some(names[0].as_str())
    } else {
        None
    }
}

/// The embedding in a tensor: for three or more dimensions the part of the first
/// token, as long as the last dimension says, else all values.
pub open spec fn embedding_of(shape: Seq<i64>, data: Seq<u32>) -> Seq<u32> {
    if shape.len() >= 3 && shape.last() > 0 && shape.last() < data.len() {
        data.take(shape.last() as int)
    } else {
        data
    }
}

/// Takes the embedding out of a tensor of singles, by their bits.
pub fn extract_embedding(shape: &[i64], data: &[u32]) -> (r: Vec<u32>)
    ensures
        r@ == embedding_of(shape@, data@),
{
    let n: usize = shape.len();
    let total: usize = data.len();
    let end: usize = if n >= 3 && shape[n - 1] > 0 && (shape[n - 1] as u64) < (total as u64) {
        shape[n - 1] as usize
    } else {
        total
    };
    let mut r: Vec<u32> = Vec::new();
    let mut i: usize = 0;
    while i < end
        invariant
            end <= total == data@.len(),
            i <= end,
            r@ == data@.take(i as int),
        decreases end - i,
    {
        r.push(data[i]);
        i = i + 1;
        assert(r@ =~= data@.take(i as int));
    }
    assert(r@ =~= embedding_of(shape@, data@));
    r
}

/// The value that is a prediction: the first one, zero where there is none.
pub fn first_value(data: &[u32]) -> (r: u32)
    ensures
        r == if data@.len() > 0 {
            data@[0]
        } else {
            0
        },
{
    if data.len() > 0 {
        data[0]
    } else {
        0
    }
}

/// A mask that lets every position through.
pub fn build_attention_mask(len: usize) -> (r: Vec<i64>)
    ensures
        r@ == Seq::new(len as nat, |i: int| 1i64),
{
    let mut r: Vec<i64> = Vec::new();
    let mut i: usize = 0;
    while i < len
        invariant
            i <= len,
            r@.len() == i,
            forall|j: int| 0 <= j < i ==> #[trigger] r@[j] == 1i64,
        decreases len - i,
    {
        r.push(1);
        i = i + 1;
    }
    assert(r@ =~= Seq::new(len as nat, |i: int| 1i64));
    r
}

/// Tells whether a model wants a mask.
pub fn needs_attention_mask(input_names: &[String]) -> (r: bool)
    ensures
        r == has_name(text::texts(input_names@), "attention_mask"@),
{
    find_name(input_names, "attention_mask")
}

/// How a session is to be run.
#[derive(Debug, PartialEq, Eq)]
pub struct RunPlan {
    /// The input that gets the features.
    pub input: String,
    /// The output to take.
    pub output: String,
    /// The mask, where the model wants one.
    pub mask: Option<Vec<i64>>,
}

/// Plans how to run a session for an embedding: the features go to the first
/// input, and a mask of their length to a mask input.
pub fn plan_embed(input_names: &Vec<String>, output_names: &Vec<String>, n_features: usize) -> (r: Result<
    RunPlan,
    ModelError,
>)
    ensures
        if input_names@.len() == 0 {
            r matches Err(ModelError::Training(e)) && e@ == "ONNX: model has no inputs"@
        } else {
            match chosen_output(text::texts(output_names@)) {
                None => r matches Err(ModelError::Training(e)) && e@ == "ONNX: no outputs"@,
                Some(output) => r matches Ok(plan) && plan.input@ == input_names@[0]@ && plan.output@ == output && (
                match plan.mask {
                    Some(mask) => has_name(text::texts(input_names@), "attention_mask"@) && mask@ == Seq::new(
                        n_features as nat,
                        |i: int| 1i64,
                    ),
                    None => !has_name(text::texts(input_names@), "attention_mask"@),
                }),
            }
        },
{
    if input_names.len() == 0 {
        return Err(ModelError::Training("ONNX: model has no inputs".to_owned()));
    }
    let output: String = match pick_output_name(output_names.as_slice()) {
        Some(name) => name.to_owned(),
        None => {
            return Err(ModelError::Training("ONNX: no outputs".to_owned()));
        },
    };
    let mask: Option<Vec<i64>> = if needs_attention_mask(input_names.as_slice()) {
        Some(build_attention_mask(n_features))
    } else {
        None
    };
    Ok(RunPlan { input: input_names[0].clone(), output, mask })
}

/// The output to take for a prediction.
pub fn plan_predict(output_names: &Vec<String>) -> (r: Result<String, ModelError>)
    ensures
        match chosen_output(text::texts(output_names@)) {
            None => r matches Err(ModelError::Training(e)) && e@ == "ONNX: no outputs"@,
            Some(output) => r matches Ok(name) && name@ == output,
        },
{
    match pick_output_name(output_names.as_slice()) {
        Some(name) => Ok(name.to_owned()),
        None => Err(ModelError::Training("ONNX: no outputs".to_owned())),
    }
}

/// The metadata of a model that was loaded from a file.
pub fn onnx_metadata(file_path: &str, num_features: usize) -> (r: ModelMetadata)
    ensures
        r.algorithm == Algorithm::Onnx,
        r.num_features == num_features,
        r.num_samples == 0,
        r.r_squared is None,
        r.mse is None,
        r.coefficients_count == 0,
        r.hyperparameters_json@ == "{\"file_path\":"@ + json::json_quoted(file_path@) + "}"@,
{
    let quoted: String = quote_text(file_path);
    let mut hyperparameters_json: String = "{\"file_path\":".to_owned();
    hyperparameters_json.append(quoted.as_str());
    hyperparameters_json.append("}");
    ModelMetadata {
        algorithm: Algorithm::Onnx,
        num_features,
        num_samples: 0,
        r_squared: None,
        mse: None,
        coefficients_count: 0,
        hyperparameters_json,
    }
}

} // verus!
