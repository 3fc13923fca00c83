use tensor_tape::dtype::DType;
use tensor_tape::options::{
    bisect_dtype, choose_dtype, parse_quant, prompt_text, task_prompt,
};
use tensor_tape::quant::GgmlDType;

fn word(s: &str) -> Option<String> {
    Some(s.to_string())
}

#[test]
fn every_quant_word_has_its_type() {
    let words = [
        ("q8_0", GgmlDType::Q8_0),
        ("q6k", GgmlDType::Q6K),
        ("q5k", GgmlDType::Q5K),
        ("q4k", GgmlDType::Q4K),
        ("q4_0", GgmlDType::Q4_0),
        ("q3k", GgmlDType::Q3K),
        ("q2k", GgmlDType::Q2K),
    ];
    for (name, want) in words {
        assert_eq!(parse_quant(&name.to_string()), Some(want));
    }
}

#[test]
fn other_quant_words_are_refused() {
    for name in ["", "q4", "Q4K", "f16", "q8_0 "] {
        assert_eq!(parse_quant(&name.to_string()), None);
    }
}

#[test]
fn dtype_by_word_or_by_device() {
    assert_eq!(choose_dtype(&word("f16"), true), Some(DType::F16));
    assert_eq!(choose_dtype(&word("bf16"), false), Some(DType::BF16));
    assert_eq!(choose_dtype(&word("f32"), true), Some(DType::F32));
    assert_eq!(choose_dtype(&word("f64"), true), None);
    assert_eq!(choose_dtype(&None, true), Some(DType::BF16));
    assert_eq!(choose_dtype(&None, false), Some(DType::F32));
}

#[test]
fn bisect_runs_on_q4k_unless_told_otherwise() {
    assert_eq!(bisect_dtype(&None), GgmlDType::Q4K);
    assert_eq!(bisect_dtype(&word("q8")), GgmlDType::Q8_0);
    assert_eq!(bisect_dtype(&word("q8_0")), GgmlDType::Q8_0);
    assert_eq!(bisect_dtype(&word("chain")), GgmlDType::Q4K);
}

#[test]
fn prompts_of_tasks() {
    let grounded = "\n<|grounding|>Convert the document to markdown.";
    assert_eq!(task_prompt(&"table".to_string()), grounded);
    assert_eq!(task_prompt(&"chart".to_string()), grounded);
    assert_eq!(task_prompt(&"formula".to_string()), grounded);
    assert_eq!(task_prompt(&"ocr".to_string()), "\nFree OCR.");
    assert_eq!(task_prompt(&"anything".to_string()), "\nFree OCR.");
}

#[test]
fn chat_marks_surround_the_question() {
    assert_eq!(
        prompt_text("Why?", true),
        "<|im_start|>user\nWhy?<|im_end|>\n<|im_start|>assistant\n"
    );
    assert_eq!(prompt_text("Why?", false), "Why?");
}
