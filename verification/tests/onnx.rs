use duckdb_ml::model::onnx::{
    build_attention_mask, extract_embedding, first_value, needs_attention_mask, onnx_metadata,
    pick_output_name, plan_embed, plan_predict, OnnxOutputMode,
};
use duckdb_ml::model::types::Algorithm;

fn bits(v: &[f32]) -> Vec<u32> {
    v.iter().map(|x| x.to_bits()).collect()
}

#[test]
fn pick_output_prioritizes_pooler_output() {
    let names = vec!["logits".to_string(), "pooler_output".to_string()];
    assert_eq!(pick_output_name(&names), Some("pooler_output"));
}

#[test]
fn pick_output_prioritizes_text_embeds_when_no_pooler() {
    let names = vec!["logits".to_string(), "text_embeds".to_string()];
    assert_eq!(pick_output_name(&names), Some("text_embeds"));
}

#[test]
fn pick_output_falls_back_to_last_hidden_state() {
    let names = vec!["last_hidden_state".to_string(), "logits".to_string()];
    assert_eq!(pick_output_name(&names), Some("last_hidden_state"));
}

#[test]
fn pick_output_falls_back_to_first_output() {
    let names = vec!["output_0".to_string(), "output_1".to_string()];
    assert_eq!(pick_output_name(&names), Some("output_0"));
}

#[test]
fn pick_output_empty_returns_none() {
    let names: Vec<String> = vec![];
    assert_eq!(pick_output_name(&names), None);
}

#[test]
fn extract_embedding_2d_returns_full_vector() {
    let shape = vec![1i64, 512];
    let data: Vec<u32> = (0..512).map(|i| (i as f32).to_bits()).collect();
    assert_eq!(extract_embedding(&shape, &data), data);
}

#[test]
fn extract_embedding_3d_takes_first_token_slice() {
    let shape = vec![1i64, 7, 512];
    let data: Vec<u32> = (0..7 * 512).map(|i| (i as f32).to_bits()).collect();
    let emb = extract_embedding(&shape, &data);
    assert_eq!(emb.len(), 512);
    assert_eq!(emb, &data[..512]);
}

#[test]
fn extract_embedding_3d_zero_hidden_returns_all() {
    let shape = vec![1i64, 7, 0];
    let data = bits(&[1.0f32, 2.0, 3.0]);
    assert_eq!(extract_embedding(&shape, &data), data);
}

#[test]
fn extract_embedding_guards_hidden_larger_than_data() {
    let shape = vec![1i64, 10, 4096];
    let data = bits(&[5.0f32; 100]);
    let emb = extract_embedding(&shape, &data);
    assert_eq!(emb.len(), 100);
}

#[test]
fn attention_mask_is_all_ones() {
    assert_eq!(build_attention_mask(4), vec![1i64; 4]);
    assert_eq!(build_attention_mask(0), Vec::<i64>::new());
}

#[test]
fn needs_attention_mask_detects_input() {
    let names = vec!["input_ids".to_string(), "attention_mask".to_string()];
    assert!(needs_attention_mask(&names));
    let without = vec!["pixel_values".to_string()];
    assert!(!needs_attention_mask(&without));
    assert!(!needs_attention_mask(&[]));
}

#[test]
fn plans_name_inputs_and_outputs() {
    let inputs = vec!["input_ids".to_string(), "attention_mask".to_string()];
    let outputs = vec!["logits".to_string(), "pooler_output".to_string()];
    let plan = plan_embed(&inputs, &outputs, 3).unwrap();
    assert_eq!(plan.input, "input_ids");
    assert_eq!(plan.output, "pooler_output");
    assert_eq!(plan.mask, Some(vec![1, 1, 1]));
    let bare = plan_embed(&vec!["x".to_string()], &outputs, 3).unwrap();
    assert_eq!(bare.mask, None);
    assert_eq!(
        plan_embed(&vec![], &outputs, 3).unwrap_err().message(),
        "Training error: ONNX: model has no inputs"
    );
    assert_eq!(
        plan_embed(&inputs, &vec![], 3).unwrap_err().message(),
        "Training error: ONNX: no outputs"
    );
    assert_eq!(plan_predict(&outputs).unwrap(), "pooler_output");
    assert!(plan_predict(&vec![]).is_err());
}

#[test]
fn first_value_of_an_output() {
    assert_eq!(first_value(&bits(&[2.5, 1.0])), 2.5f32.to_bits());
    assert_eq!(first_value(&[]), 0.0f32.to_bits());
    assert_ne!(OnnxOutputMode::Predict, OnnxOutputMode::Embed);
}

#[test]
fn metadata_quotes_the_path() {
    let m = onnx_metadata("a\"b\\c.onnx", 3);
    assert_eq!(
        m.hyperparameters_json,
        "{\"file_path\":\"a\\\"b\\\\c.onnx\"}"
    );
    assert_eq!(m.algorithm, Algorithm::Onnx);
    assert_eq!(m.num_features, 3);
}
