//! Words that a user chooses by, and what they choose.
use vstd::prelude::*;

use crate::dtype::DType;
use crate::quant::GgmlDType;

verus! {

fn is_word(name: &String, word: &str) -> (r: bool)
    ensures
        r == (name@ == word@),
{
    *name == word.to_owned()
}

/// The block type that a word stands for.
pub open spec fn quant_named(name: Seq<char>) -> Option<GgmlDType> {
    if name == "q8_0"@ {
        Some(GgmlDType::Q8_0)
    } else if name == "q6k"@ {
        Some(GgmlDType::Q6K)
    } else if name == "q5k"@ {
        Some(GgmlDType::Q5K)
    } else if name == "q4k"@ {
        Some(GgmlDType::Q4K)
    } else if name == "q4_0"@ {
        Some(GgmlDType::Q4_0)
    } else if name == "q3k"@ {
        Some(GgmlDType::Q3K)
    } else if name == "q2k"@ {
        Some(GgmlDType::Q2K)
    } else {
        None
    }
}

/// The block type that a word stands for, if it stands for one.
pub fn parse_quant(name: &String) -> (r: Option<GgmlDType>)
    ensures
        r == quant_named(name@),
{
    if is_word(name, "q8_0") {
        Some(GgmlDType::Q8_0)
    } else if is_word(name, "q6k") {
        Some(GgmlDType::Q6K)
    } else if is_word(name, "q5k") {
        Some(GgmlDType::Q5K)
    } else if is_word(name, "q4k") {
        Some(GgmlDType::Q4K)
    } else if is_word(name, "q4_0") {
        Some(GgmlDType::Q4_0)
    } else if is_word(name, "q3k") {
        Some(GgmlDType::Q3K)
    } else if is_word(name, "q2k") {
        Some(GgmlDType::Q2K)
    } else {
        None
    }
}

/// The element type that a word stands for.
pub open spec fn dtype_named(name: Seq<char>) -> Option<DType> {
    if name == "f16"@ {
        Some(DType::F16)
    } else if name == "bf16"@ {
        Some(DType::BF16)
    } else if name == "f32"@ {
        Some(DType::F32)
    } else {
        None
    }
}

/// The element type to compute in: the one asked for, or the one that suits the
/// device. Nothing for a word that stands for none.
pub fn choose_dtype(asked: &Option<String>, cuda: bool) -> (r: Option<DType>)
    ensures
        r == (match asked {
            Some(name) => dtype_named(name@),
            None => Some(
                if cuda {
                    DType::BF16
                } else {
                    DType::F32
                },
            ),
        }),
{
    match asked {
        Some(name) => if is_word(name, "f16") {
            Some(DType::F16)
        } else if is_word(name, "bf16") {
            Some(DType::BF16)
        } else if is_word(name, "f32") {
            Some(DType::F32)
        } else {
            None
        },
        None => if cuda {
            Some(DType::BF16)
        } else {
            Some(DType::F32)
        },
    }
}

/// The block type that a kernel comparison runs on.
pub fn bisect_dtype(asked: &Option<String>) -> (r: GgmlDType)
    ensures
        r == (match asked {
            Some(name) => if name@ == "q8_0"@ || name@ == "q8"@ {
                GgmlDType::Q8_0
            } else {
                GgmlDType::Q4K
            },
            None => GgmlDType::Q4K,
        }),
{
    match asked {
        Some(name) => if is_word(name, "q8_0") || is_word(name, "q8") {
            GgmlDType::Q8_0
        } else {
            GgmlDType::Q4K
        },
        None => GgmlDType::Q4K,
    }
}

/// The instruction that follows an image.
pub open spec fn prompt_for(task: Seq<char>) -> Seq<char> {
    if task == "table"@ || task == "chart"@ || task == "formula"@ {
        "\n<|grounding|>Convert the document to markdown."@
    } else {
        "\nFree OCR."@
    }
}

pub fn task_prompt(task: &String) -> (r: &'static str)
    ensures
        r@ == prompt_for(task@),
{
    if is_word(task, "table") || is_word(task, "chart") || is_word(task, "formula") {
        "\n<|grounding|>Convert the document to markdown."
    } else {
        "\nFree OCR."
    }
}

/// A question between the marks of a conversation.
pub open spec fn in_chat(prompt: Seq<char>) -> Seq<char> {
    "<|im_start|>user\n"@ + prompt + "<|im_end|>\n<|im_start|>assistant\n"@
}

/// The text that a model reads: a question is put between the marks of a
/// conversation if `chat_template` says so.
pub fn prompt_text(prompt: &str, chat_template: bool) -> (r: String)
    ensures
        r@ == (if chat_template {
            in_chat(prompt@)
        } else {
            prompt@
        }),
{
    if chat_template {
        let mut s = "<|im_start|>user\n".to_owned();
        s.append(prompt);
        s.append("<|im_end|>\n<|im_start|>assistant\n");
        s
    } else {
        prompt.to_owned()
    }
}

} // verus!
