//! Model registry: every artifact the app may download, with its ModelScope
//! repo and expected checksum.

use vstd::prelude::*;
use crate::hardware::Tier;
use crate::text::{chars_of, chars_eq_str};

verus! {

#[derive(Debug, Clone, Copy, PartialEq, Eq, Structural)]
pub enum ModelRole {
    /// Text-region detection.
    Detect,
    /// Direction classifier.
    Cls,
    /// Per-language recognizer weights.
    Rec,
    /// Recognizer dictionary.
    Dict,
    /// Text removal / inpainting.
    Inpaint,
    /// Translation weights (GGUF).
    Llm,
}

#[derive(Debug, Clone, Copy, PartialEq, Eq, Hash, Structural)]
pub enum Lang {
    Zh,
    En,
    Ja,
    Ko,
    /// Language-independent weights.
    Any,
}

#[derive(Debug, Clone, Copy)]
pub struct ModelSpec {
    pub id: &'static str,
    pub role: ModelRole,
    pub lang: Lang,
    pub modelscope_repo: &'static str,
    pub file: &'static str,
    /// Approximate size in MiB, for the download UI.
    pub size_mib: u64,
    /// SHA256 of the file; empty string = not pinned.
    pub sha256: &'static str,
    /// Full download URL for non-ModelScope sources; empty = resolve via
    /// ModelScope from `modelscope_repo` + `file`.
    pub url_override: &'static str,
}

pub struct Registry;

/// OCR models (RapidOCR / PaddleOCR PP-OCRv5).
pub open spec fn spec_ocr_specs() -> Seq<ModelSpec> {
    seq![
        ModelSpec {
            id: "ppocrv5_det",
            role: ModelRole::Detect,
            lang: Lang::Any,
            modelscope_repo: "RapidAI/RapidOCR",
            file: "onnx/PP-OCRv5/det/ch_PP-OCRv5_det_mobile.onnx",
            size_mib: 5,
            sha256: "",
            url_override: "",
        },
        ModelSpec {
            id: "ppocrv5_cls",
            role: ModelRole::Cls,
            lang: Lang::Any,
            modelscope_repo: "RapidAI/RapidOCR",
            file: "onnx/PP-OCRv5/cls/ch_PP-LCNet_x0_25_textline_ori_cls_mobile.onnx",
            size_mib: 2,
            sha256: "",
            url_override: "",
        },
        ModelSpec {
            id: "rec_mixed",
            role: ModelRole::Rec,
            lang: Lang::Any,
            modelscope_repo: "RapidAI/RapidOCR",
            file: "onnx/PP-OCRv5/rec/ch_PP-OCRv5_rec_mobile.onnx",
            size_mib: 12,
            sha256: "",
            url_override: "",
        },
        ModelSpec {
            id: "dict_mixed",
            role: ModelRole::Dict,
            lang: Lang::Any,
            modelscope_repo: "RapidAI/RapidOCR",
            file: "paddle/PP-OCRv5/rec/ch_PP-OCRv5_rec_mobile/ppocrv5_dict.txt",
            size_mib: 1,
            sha256: "",
            url_override: "",
        },
        ModelSpec {
            id: "rec_en",
            role: ModelRole::Rec,
            lang: Lang::En,
            modelscope_repo: "RapidAI/RapidOCR",
            file: "onnx/PP-OCRv5/rec/en_PP-OCRv5_rec_mobile.onnx",
            size_mib: 11,
            sha256: "",
            url_override: "",
        },
        ModelSpec {
            id: "dict_en",
            role: ModelRole::Dict,
            lang: Lang::En,
            modelscope_repo: "RapidAI/RapidOCR",
            file: "paddle/PP-OCRv5/rec/en_PP-OCRv5_rec_mobile/ppocrv5_en_dict.txt",
            size_mib: 1,
            sha256: "",
            url_override: "",
        },
        ModelSpec {
            id: "rec_ko",
            role: ModelRole::Rec,
            lang: Lang::Ko,
            modelscope_repo: "RapidAI/RapidOCR",
            file: "onnx/PP-OCRv5/rec/korean_PP-OCRv5_rec_mobile.onnx",
            size_mib: 11,
            sha256: "",
            url_override: "",
        },
        ModelSpec {
            id: "dict_ko",
            role: ModelRole::Dict,
            lang: Lang::Ko,
            modelscope_repo: "RapidAI/RapidOCR",
            file: "paddle/PP-OCRv5/rec/korean_PP-OCRv5_rec_mobile/ppocrv5_korean_dict.txt",
            size_mib: 1,
            sha256: "",
            url_override: "",
        },
    ]
}
/// Translation models (Hy-MT2 GGUF quantizations).
pub open spec fn spec_llm_specs() -> Seq<ModelSpec> {
    seq![
        ModelSpec {
            id: "hymt2_1.8b_iq2_m",
            role: ModelRole::Llm,
            lang: Lang::Any,
            modelscope_repo: "unsloth/Hy-MT2-1.8B-GGUF",
            file: "Hy-MT2-1.8B-UD-IQ2_M.gguf",
            size_mib: 723,
            sha256: "",
            url_override: "",
        },
        ModelSpec {
            id: "hymt2_7b_q4",
            role: ModelRole::Llm,
            lang: Lang::Any,
            modelscope_repo: "unsloth/Hy-MT2-7B-GGUF",
            file: "Hy-MT2-7B-UD-Q4_K_XL.gguf",
            size_mib: 4783,
            sha256: "",
            url_override: "",
        },
        ModelSpec {
            id: "hymt2_30b_a3b_q4",
            role: ModelRole::Llm,
            lang: Lang::Any,
            modelscope_repo: "alphaZimuth/Hy-MT2-30B-A3B-APEX-GGUF",
            file: "Hy-MT2-30B-A3B-APEX-Imatrix-I-Nano.gguf",
            size_mib: 12448,
            sha256: "",
            url_override: "",
        },
    ]
}
/// Inpainting models (AOT fast / LaMa-mpe quality).
pub open spec fn spec_inpaint_specs() -> Seq<ModelSpec> {
    seq![
        ModelSpec {
            id: "aot_inpainter",
            role: ModelRole::Inpaint,
            lang: Lang::Any,
            modelscope_repo: "zyddnys/manga-image-translator",
            file: "inpainting.ckpt",
            size_mib: 90,
            sha256: "",
            url_override: "https://github.com/zyddnys/manga-image-translator/releases/latest/download/inpainting.ckpt",
        },
        ModelSpec {
            id: "lama_mpe",
            role: ModelRole::Inpaint,
            lang: Lang::Any,
            modelscope_repo: "zyddnys/manga-image-translator",
            file: "inpainting_lama_mpe.ckpt",
            size_mib: 200,
            sha256: "",
            url_override: "https://github.com/zyddnys/manga-image-translator/releases/latest/download/inpainting_lama_mpe.ckpt",
        },
    ]
}

impl Registry {
    /// OCR models (RapidOCR / PaddleOCR PP-OCRv5, Apache-2.0).
    pub fn ocr_specs() -> (v: Vec<ModelSpec>)
        ensures
            v@ == spec_ocr_specs(),
    {
        let v = vec![
        ModelSpec {
            id: "ppocrv5_det",
            role: ModelRole::Detect,
            lang: Lang::Any,
            modelscope_repo: "RapidAI/RapidOCR",
            file: "onnx/PP-OCRv5/det/ch_PP-OCRv5_det_mobile.onnx",
            size_mib: 5,
            sha256: "",
            url_override: "",
        },
        ModelSpec {
            id: "ppocrv5_cls",
            role: ModelRole::Cls,
            lang: Lang::Any,
            modelscope_repo: "RapidAI/RapidOCR",
            file: "onnx/PP-OCRv5/cls/ch_PP-LCNet_x0_25_textline_ori_cls_mobile.onnx",
            size_mib: 2,
            sha256: "",
            url_override: "",
        },
        ModelSpec {
            id: "rec_mixed",
            role: ModelRole::Rec,
            lang: Lang::Any,
            modelscope_repo: "RapidAI/RapidOCR",
            file: "onnx/PP-OCRv5/rec/ch_PP-OCRv5_rec_mobile.onnx",
            size_mib: 12,
            sha256: "",
            url_override: "",
        },
        ModelSpec {
            id: "dict_mixed",
            role: ModelRole::Dict,
            lang: Lang::Any,
            modelscope_repo: "RapidAI/RapidOCR",
            file: "paddle/PP-OCRv5/rec/ch_PP-OCRv5_rec_mobile/ppocrv5_dict.txt",
            size_mib: 1,
            sha256: "",
            url_override: "",
        },
        ModelSpec {
            id: "rec_en",
            role: ModelRole::Rec,
            lang: Lang::En,
            modelscope_repo: "RapidAI/RapidOCR",
            file: "onnx/PP-OCRv5/rec/en_PP-OCRv5_rec_mobile.onnx",
            size_mib: 11,
            sha256: "",
            url_override: "",
        },
        ModelSpec {
            id: "dict_en",
            role: ModelRole::Dict,
            lang: Lang::En,
            modelscope_repo: "RapidAI/RapidOCR",
            file: "paddle/PP-OCRv5/rec/en_PP-OCRv5_rec_mobile/ppocrv5_en_dict.txt",
            size_mib: 1,
            sha256: "",
            url_override: "",
        },
        ModelSpec {
            id: "rec_ko",
            role: ModelRole::Rec,
            lang: Lang::Ko,
            modelscope_repo: "RapidAI/RapidOCR",
            file: "onnx/PP-OCRv5/rec/korean_PP-OCRv5_rec_mobile.onnx",
            size_mib: 11,
            sha256: "",
            url_override: "",
        },
        ModelSpec {
            id: "dict_ko",
            role: ModelRole::Dict,
            lang: Lang::Ko,
            modelscope_repo: "RapidAI/RapidOCR",
            file: "paddle/PP-OCRv5/rec/korean_PP-OCRv5_rec_mobile/ppocrv5_korean_dict.txt",
            size_mib: 1,
            sha256: "",
            url_override: "",
        },
        ];
        assert(v@ =~= spec_ocr_specs());
        v
    }
    /// Translation models (Tencent Hunyuan Hy-MT2, GGUF quantizations).
    pub fn llm_specs() -> (v: Vec<ModelSpec>)
        ensures
            v@ == spec_llm_specs(),
    {
        let v = vec![
        ModelSpec {
            id: "hymt2_1.8b_iq2_m",
            role: ModelRole::Llm,
            lang: Lang::Any,
            modelscope_repo: "unsloth/Hy-MT2-1.8B-GGUF",
            file: "Hy-MT2-1.8B-UD-IQ2_M.gguf",
            size_mib: 723,
            sha256: "",
            url_override: "",
        },
        ModelSpec {
            id: "hymt2_7b_q4",
            role: ModelRole::Llm,
            lang: Lang::Any,
            modelscope_repo: "unsloth/Hy-MT2-7B-GGUF",
            file: "Hy-MT2-7B-UD-Q4_K_XL.gguf",
            size_mib: 4783,
            sha256: "",
            url_override: "",
        },
        ModelSpec {
            id: "hymt2_30b_a3b_q4",
            role: ModelRole::Llm,
            lang: Lang::Any,
            modelscope_repo: "alphaZimuth/Hy-MT2-30B-A3B-APEX-GGUF",
            file: "Hy-MT2-30B-A3B-APEX-Imatrix-I-Nano.gguf",
            size_mib: 12448,
            sha256: "",
            url_override: "",
        },
        ];
        assert(v@ =~= spec_llm_specs());
        v
    }
    /// Inpainting models (AOT fast / LaMa-mpe quality).
    pub fn inpaint_specs() -> (v: Vec<ModelSpec>)
        ensures
            v@ == spec_inpaint_specs(),
    {
        let v = vec![
        ModelSpec {
            id: "aot_inpainter",
            role: ModelRole::Inpaint,
            lang: Lang::Any,
            modelscope_repo: "zyddnys/manga-image-translator",
            file: "inpainting.ckpt",
            size_mib: 90,
            sha256: "",
            url_override: "https://github.com/zyddnys/manga-image-translator/releases/latest/download/inpainting.ckpt",
        },
        ModelSpec {
            id: "lama_mpe",
            role: ModelRole::Inpaint,
            lang: Lang::Any,
            modelscope_repo: "zyddnys/manga-image-translator",
            file: "inpainting_lama_mpe.ckpt",
            size_mib: 200,
            sha256: "",
            url_override: "https://github.com/zyddnys/manga-image-translator/releases/latest/download/inpainting_lama_mpe.ckpt",
        },
        ];
        assert(v@ =~= spec_inpaint_specs());
        v
    }
}

/// Every registered model: OCR, then translation, then inpainting.
pub open spec fn spec_all() -> Seq<ModelSpec> {
    spec_ocr_specs() + spec_llm_specs() + spec_inpaint_specs()
}

/// Default translation model id of each tier.
pub open spec fn spec_llm_for_tier(t: Tier) -> &'static str {
    match t {
        Tier::Lite => spec_llm_specs()[0].id,
        Tier::Standard => spec_llm_specs()[1].id,
        Tier::Pro => spec_llm_specs()[2].id,
    }
}

/// `i` is the first registry position whose id is `id`.
pub open spec fn first_with_id(all: Seq<ModelSpec>, id: Seq<char>, i: int) -> bool {
    &&& 0 <= i < all.len()
    &&& all[i].id@ == id
    &&& forall|j: int| 0 <= j < i ==> all[j].id@ != id
}

impl Registry {
    pub fn all() -> (v: Vec<ModelSpec>)
        ensures
            v@ == spec_all(),
    {
        let mut v = Self::ocr_specs();
        let mut l = Self::llm_specs();
        let mut p = Self::inpaint_specs();
        v.append(&mut l);
        v.append(&mut p);
        v
    }

    /// The registered model with this id.
    pub fn find(id: &str) -> (r: Option<ModelSpec>)
        ensures
            match r {
                Some(m) => exists|i: int| first_with_id(spec_all(), id@, i) && spec_all()[i] == m,
                None => forall|i: int| 0 <= i < spec_all().len() ==> spec_all()[i].id@ != id@,
            },
    {
        let all = Self::all();
        let key = chars_of(id);
        let mut i: usize = 0;
        while i < all.len()
            invariant
                all@ == spec_all(),
                key@ == id@,
                i <= all@.len(),
                forall|j: int| 0 <= j < i ==> all@[j].id@ != id@,
            decreases all@.len() - i,
        {
            if chars_eq_str(key.as_slice(), all[i].id) {
                proof { assert(first_with_id(spec_all(), id@, i as int)); }
                return Some(all[i]);
            }
            i += 1;
        }
        None
    }

    /// The default translation model for a tier.
    pub fn llm_for_tier(tier: Tier) -> (id: &'static str)
        ensures
            id == spec_llm_for_tier(tier),
    {
        match tier {
            Tier::Lite => "hymt2_1.8b_iq2_m",
            Tier::Standard => "hymt2_7b_q4",
            Tier::Pro => "hymt2_30b_a3b_q4",
        }
    }
}

/// No two registered models share an id.
pub proof fn law_ids_are_unique()
    ensures
        forall|i: int, j: int|
            0 <= i < j < spec_all().len() ==> (#[trigger] spec_all()[i]).id@ != (#[trigger] spec_all()[j]).id@,
{
    reveal_strlit("ppocrv5_det");
    reveal_strlit("ppocrv5_cls");
    reveal_strlit("rec_mixed");
    reveal_strlit("dict_mixed");
    reveal_strlit("rec_en");
    reveal_strlit("dict_en");
    reveal_strlit("rec_ko");
    reveal_strlit("dict_ko");
    reveal_strlit("hymt2_1.8b_iq2_m");
    reveal_strlit("hymt2_7b_q4");
    reveal_strlit("hymt2_30b_a3b_q4");
    reveal_strlit("aot_inpainter");
    reveal_strlit("lama_mpe");
    assert(spec_all()[0].id@[8] != spec_all()[1].id@[8]);
    assert(spec_all()[0].id@.len() != spec_all()[2].id@.len());
    assert(spec_all()[0].id@.len() != spec_all()[3].id@.len());
    assert(spec_all()[0].id@.len() != spec_all()[4].id@.len());
    assert(spec_all()[0].id@.len() != spec_all()[5].id@.len());
    assert(spec_all()[0].id@.len() != spec_all()[6].id@.len());
    assert(spec_all()[0].id@.len() != spec_all()[7].id@.len());
    assert(spec_all()[0].id@.len() != spec_all()[8].id@.len());
    assert(spec_all()[0].id@[0] != spec_all()[9].id@[0]);
    assert(spec_all()[0].id@.len() != spec_all()[10].id@.len());
    assert(spec_all()[0].id@.len() != spec_all()[11].id@.len());
    assert(spec_all()[0].id@.len() != spec_all()[12].id@.len());
    assert(spec_all()[1].id@.len() != spec_all()[2].id@.len());
    assert(spec_all()[1].id@.len() != spec_all()[3].id@.len());
    assert(spec_all()[1].id@.len() != spec_all()[4].id@.len());
    assert(spec_all()[1].id@.len() != spec_all()[5].id@.len());
    assert(spec_all()[1].id@.len() != spec_all()[6].id@.len());
    assert(spec_all()[1].id@.len() != spec_all()[7].id@.len());
    assert(spec_all()[1].id@.len() != spec_all()[8].id@.len());
    assert(spec_all()[1].id@[0] != spec_all()[9].id@[0]);
    assert(spec_all()[1].id@.len() != spec_all()[10].id@.len());
    assert(spec_all()[1].id@.len() != spec_all()[11].id@.len());
    assert(spec_all()[1].id@.len() != spec_all()[12].id@.len());
    assert(spec_all()[2].id@.len() != spec_all()[3].id@.len());
    assert(spec_all()[2].id@.len() != spec_all()[4].id@.len());
    assert(spec_all()[2].id@.len() != spec_all()[5].id@.len());
    assert(spec_all()[2].id@.len() != spec_all()[6].id@.len());
    assert(spec_all()[2].id@.len() != spec_all()[7].id@.len());
    assert(spec_all()[2].id@.len() != spec_all()[8].id@.len());
    assert(spec_all()[2].id@.len() != spec_all()[9].id@.len());
    assert(spec_all()[2].id@.len() != spec_all()[10].id@.len());
    assert(spec_all()[2].id@.len() != spec_all()[11].id@.len());
    assert(spec_all()[2].id@.len() != spec_all()[12].id@.len());
    assert(spec_all()[3].id@.len() != spec_all()[4].id@.len());
    assert(spec_all()[3].id@.len() != spec_all()[5].id@.len());
    assert(spec_all()[3].id@.len() != spec_all()[6].id@.len());
    assert(spec_all()[3].id@.len() != spec_all()[7].id@.len());
    assert(spec_all()[3].id@.len() != spec_all()[8].id@.len());
    assert(spec_all()[3].id@.len() != spec_all()[9].id@.len());
    assert(spec_all()[3].id@.len() != spec_all()[10].id@.len());
    assert(spec_all()[3].id@.len() != spec_all()[11].id@.len());
    assert(spec_all()[3].id@.len() != spec_all()[12].id@.len());
    assert(spec_all()[4].id@.len() != spec_all()[5].id@.len());
    assert(spec_all()[4].id@[4] != spec_all()[6].id@[4]);
    assert(spec_all()[4].id@.len() != spec_all()[7].id@.len());
    assert(spec_all()[4].id@.len() != spec_all()[8].id@.len());
    assert(spec_all()[4].id@.len() != spec_all()[9].id@.len());
    assert(spec_all()[4].id@.len() != spec_all()[10].id@.len());
    assert(spec_all()[4].id@.len() != spec_all()[11].id@.len());
    assert(spec_all()[4].id@.len() != spec_all()[12].id@.len());
    assert(spec_all()[5].id@.len() != spec_all()[6].id@.len());
    assert(spec_all()[5].id@[5] != spec_all()[7].id@[5]);
    assert(spec_all()[5].id@.len() != spec_all()[8].id@.len());
    assert(spec_all()[5].id@.len() != spec_all()[9].id@.len());
    assert(spec_all()[5].id@.len() != spec_all()[10].id@.len());
    assert(spec_all()[5].id@.len() != spec_all()[11].id@.len());
    assert(spec_all()[5].id@.len() != spec_all()[12].id@.len());
    assert(spec_all()[6].id@.len() != spec_all()[7].id@.len());
    assert(spec_all()[6].id@.len() != spec_all()[8].id@.len());
    assert(spec_all()[6].id@.len() != spec_all()[9].id@.len());
    assert(spec_all()[6].id@.len() != spec_all()[10].id@.len());
    assert(spec_all()[6].id@.len() != spec_all()[11].id@.len());
    assert(spec_all()[6].id@.len() != spec_all()[12].id@.len());
    assert(spec_all()[7].id@.len() != spec_all()[8].id@.len());
    assert(spec_all()[7].id@.len() != spec_all()[9].id@.len());
    assert(spec_all()[7].id@.len() != spec_all()[10].id@.len());
    assert(spec_all()[7].id@.len() != spec_all()[11].id@.len());
    assert(spec_all()[7].id@.len() != spec_all()[12].id@.len());
    assert(spec_all()[8].id@.len() != spec_all()[9].id@.len());
    assert(spec_all()[8].id@[6] != spec_all()[10].id@[6]);
    assert(spec_all()[8].id@.len() != spec_all()[11].id@.len());
    assert(spec_all()[8].id@.len() != spec_all()[12].id@.len());
    assert(spec_all()[9].id@.len() != spec_all()[10].id@.len());
    assert(spec_all()[9].id@.len() != spec_all()[11].id@.len());
    assert(spec_all()[9].id@.len() != spec_all()[12].id@.len());
    assert(spec_all()[10].id@.len() != spec_all()[11].id@.len());
    assert(spec_all()[10].id@.len() != spec_all()[12].id@.len());
    assert(spec_all()[11].id@.len() != spec_all()[12].id@.len());
}

/// Each tier's default translation model is registered, as a translation
/// model.
pub proof fn law_tier_model_is_registered(t: Tier)
    ensures
        exists|i: int| 0 <= i < spec_all().len() && spec_all()[i].id == spec_llm_for_tier(t) && spec_all()[i].role == ModelRole::Llm,
{
    let k = match t {
        Tier::Lite => 8int,
        Tier::Standard => 9int,
        Tier::Pro => 10int,
    };
    assert(spec_all()[k].id == spec_llm_for_tier(t));
}

/// Every entry names a `owner/name` repository, a non-empty file and a
/// positive size.
pub proof fn law_entries_are_well_formed()
    ensures
        forall|i: int| 0 <= i < spec_all().len() ==> {
            &&& (#[trigger] spec_all()[i]).modelscope_repo@.contains('/')
            &&& spec_all()[i].file@.len() > 0
            &&& spec_all()[i].size_mib > 0
        },
{
    reveal_strlit("RapidAI/RapidOCR");
    reveal_strlit("alphaZimuth/Hy-MT2-30B-A3B-APEX-GGUF");
    reveal_strlit("unsloth/Hy-MT2-1.8B-GGUF");
    reveal_strlit("unsloth/Hy-MT2-7B-GGUF");
    reveal_strlit("zyddnys/manga-image-translator");
    reveal_strlit("onnx/PP-OCRv5/det/ch_PP-OCRv5_det_mobile.onnx");
    reveal_strlit("onnx/PP-OCRv5/cls/ch_PP-LCNet_x0_25_textline_ori_cls_mobile.onnx");
    reveal_strlit("onnx/PP-OCRv5/rec/ch_PP-OCRv5_rec_mobile.onnx");
    reveal_strlit("paddle/PP-OCRv5/rec/ch_PP-OCRv5_rec_mobile/ppocrv5_dict.txt");
    reveal_strlit("onnx/PP-OCRv5/rec/en_PP-OCRv5_rec_mobile.onnx");
    reveal_strlit("paddle/PP-OCRv5/rec/en_PP-OCRv5_rec_mobile/ppocrv5_en_dict.txt");
    reveal_strlit("onnx/PP-OCRv5/rec/korean_PP-OCRv5_rec_mobile.onnx");
    reveal_strlit("paddle/PP-OCRv5/rec/korean_PP-OCRv5_rec_mobile/ppocrv5_korean_dict.txt");
    reveal_strlit("Hy-MT2-1.8B-UD-IQ2_M.gguf");
    reveal_strlit("Hy-MT2-7B-UD-Q4_K_XL.gguf");
    reveal_strlit("Hy-MT2-30B-A3B-APEX-Imatrix-I-Nano.gguf");
    reveal_strlit("inpainting.ckpt");
    reveal_strlit("inpainting_lama_mpe.ckpt");
    assert(spec_all()[0].modelscope_repo@[7] == '/');
    assert(spec_all()[0].file@.len() > 0);
    assert(spec_all()[1].modelscope_repo@[7] == '/');
    assert(spec_all()[1].file@.len() > 0);
    assert(spec_all()[2].modelscope_repo@[7] == '/');
    assert(spec_all()[2].file@.len() > 0);
    assert(spec_all()[3].modelscope_repo@[7] == '/');
    assert(spec_all()[3].file@.len() > 0);
    assert(spec_all()[4].modelscope_repo@[7] == '/');
    assert(spec_all()[4].file@.len() > 0);
    assert(spec_all()[5].modelscope_repo@[7] == '/');
    assert(spec_all()[5].file@.len() > 0);
    assert(spec_all()[6].modelscope_repo@[7] == '/');
    assert(spec_all()[6].file@.len() > 0);
    assert(spec_all()[7].modelscope_repo@[7] == '/');
    assert(spec_all()[7].file@.len() > 0);
    assert(spec_all()[8].modelscope_repo@[7] == '/');
    assert(spec_all()[8].file@.len() > 0);
    assert(spec_all()[9].modelscope_repo@[7] == '/');
    assert(spec_all()[9].file@.len() > 0);
    assert(spec_all()[10].modelscope_repo@[11] == '/');
    assert(spec_all()[10].file@.len() > 0);
    assert(spec_all()[11].modelscope_repo@[7] == '/');
    assert(spec_all()[11].file@.len() > 0);
    assert(spec_all()[12].modelscope_repo@[7] == '/');
    assert(spec_all()[12].file@.len() > 0);
}

} // verus!
