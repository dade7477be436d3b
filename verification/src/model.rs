//! The Qwen3-ASR weights a local `llama-server` runs: what they are called and which files
//! make them up, pinned to a revision so the sizes and checksums stay true.

use std::path::PathBuf;

use vstd::prelude::*;

use crate::text::{chars_of, same};

verus! {

/// A path of the file system, carried through as it is.
#[verifier::external_type_specification]
#[verifier::external_body]
pub struct ExPathBuf(PathBuf);

/// `PathBuf::clone`: another path naming the same place.
pub assume_specification[ <PathBuf as Clone>::clone ](path: &PathBuf) -> (r: PathBuf)
    ensures
        r == *path,
;

/// Where the two files `llama-server` loads were found.
#[derive(Debug, PartialEq, Eq)]
pub struct Qwen3AsrFiles {
    pub model: PathBuf,
    pub mmproj: PathBuf,
}

impl Clone for Qwen3AsrFiles {
    fn clone(&self) -> (r: Self)
        ensures
            r == *self,
    {
        Qwen3AsrFiles { model: self.model.clone(), mmproj: self.mmproj.clone() }
    }
}

/// Qwen3-ASR weights served by a local `llama-server`.
#[derive(Debug, Clone, Copy, PartialEq, Eq, Hash)]
pub enum Qwen3AsrModel {
    Large,
}

/// One file of a model as published on Hugging Face.
#[derive(Debug, Clone, Copy, PartialEq, Eq)]
pub struct Qwen3AsrDownload {
    pub file_name: &'static str,
    pub url: &'static str,
    pub size_bytes: u64,
    /// CRC-32 (IEEE) of the whole file.
    pub crc32: u32,
}

pub open spec fn large_downloads() -> Seq<Qwen3AsrDownload> {
    seq![
        Qwen3AsrDownload {
            file_name: "Qwen3-ASR-1.7B-Q8_0.gguf",
            url: "https://huggingface.co/ggml-org/Qwen3-ASR-1.7B-GGUF/resolve/36a678687ba7d07a74ca70ccb0e36902e005fb80/Qwen3-ASR-1.7B-Q8_0.gguf",
            size_bytes: 2_165_034_944,
            crc32: 2_313_806_219,
        },
        Qwen3AsrDownload {
            file_name: "mmproj-Qwen3-ASR-1.7B-bf16.gguf",
            url: "https://huggingface.co/ggml-org/Qwen3-ASR-1.7B-GGUF/resolve/36a678687ba7d07a74ca70ccb0e36902e005fb80/mmproj-Qwen3-ASR-1.7B-bf16.gguf",
            size_bytes: 641_773_984,
            crc32: 3_831_328_114,
        },
    ]
}

/// The total of the sizes.
pub open spec fn total_size(files: Seq<Qwen3AsrDownload>) -> nat
    decreases files.len(),
{
    if files.len() == 0 {
        0
    } else {
        total_size(files.drop_last()) + files.last().size_bytes as nat
    }
}

impl Qwen3AsrModel {
    pub open spec fn spec_downloads(self) -> Seq<Qwen3AsrDownload> {
        match self {
            Qwen3AsrModel::Large => large_downloads(),
        }
    }

    pub fn all() -> (r: Vec<Qwen3AsrModel>)
        ensures
            r@ == seq![Qwen3AsrModel::Large],
    {
        let r = vec![Qwen3AsrModel::Large];
        assert(r@ =~= seq![Qwen3AsrModel::Large]);
        r
    }

    pub fn as_str(self) -> (r: &'static str)
        ensures
            r@ == self.id(),
    {
        match self {
            Qwen3AsrModel::Large => "qwen3-asr-1.7b",
        }
    }

    /// The model's id, as settings and the server know it.
    pub open spec fn id(self) -> Seq<char> {
        match self {
            Qwen3AsrModel::Large => "qwen3-asr-1.7b"@,
        }
    }

    /// The model an id names, if any: ids are matched exactly.
    pub open spec fn named(id: Seq<char>) -> Option<Qwen3AsrModel> {
        if id == "qwen3-asr-1.7b"@ {
            Some(Qwen3AsrModel::Large)
        } else {
            None
        }
    }

    pub fn from_id(id: &str) -> (r: Option<Qwen3AsrModel>)
        ensures
            r == Self::named(id@),
    {
        let given = chars_of(id);
        let known = chars_of("qwen3-asr-1.7b");
        if same(given.as_slice(), known.as_slice()) {
            Some(Qwen3AsrModel::Large)
        } else {
            None
        }
    }

    pub fn display_name(self) -> (r: &'static str)
        ensures
            r@ == "Qwen3-ASR 1.7B"@,
    {
        match self {
            Qwen3AsrModel::Large => "Qwen3-ASR 1.7B",
        }
    }

    pub fn description(self) -> (r: &'static str)
        ensures
            r@ == "Multilingual batch transcription, strong on mixed English and Mandarin."@,
    {
        match self {
            Qwen3AsrModel::Large => "Multilingual batch transcription, strong on mixed English and Mandarin.",
        }
    }

    /// Every file the model needs, in download order.
    pub fn downloads(self) -> (r: Vec<Qwen3AsrDownload>)
        ensures
            r@ == self.spec_downloads(),
    {
        match self {
            Qwen3AsrModel::Large => {
                let r = vec![
                    Qwen3AsrDownload {
                        file_name: "Qwen3-ASR-1.7B-Q8_0.gguf",
                        url: "https://huggingface.co/ggml-org/Qwen3-ASR-1.7B-GGUF/resolve/36a678687ba7d07a74ca70ccb0e36902e005fb80/Qwen3-ASR-1.7B-Q8_0.gguf",
                        size_bytes: 2_165_034_944,
                        crc32: 2_313_806_219,
                    },
                    Qwen3AsrDownload {
                        file_name: "mmproj-Qwen3-ASR-1.7B-bf16.gguf",
                        url: "https://huggingface.co/ggml-org/Qwen3-ASR-1.7B-GGUF/resolve/36a678687ba7d07a74ca70ccb0e36902e005fb80/mmproj-Qwen3-ASR-1.7B-bf16.gguf",
                        size_bytes: 641_773_984,
                        crc32: 3_831_328_114,
                    },
                ];
                assert(r@ =~= large_downloads());
                r
            },
        }
    }

    /// What all of the model's files take together.
    pub fn size_bytes(self) -> (r: u64)
        ensures
            r == total_size(self.spec_downloads()),
    {
        let files = self.downloads();
        let mut total: u64 = 0;
        let mut i: usize = 0;
        assert(total_size(large_downloads()) == 2_806_808_928) by {
            let l = large_downloads();
            assert(l.drop_last().drop_last() =~= Seq::<Qwen3AsrDownload>::empty());
            assert(total_size(l.drop_last().drop_last()) == 0);
            assert(total_size(l.drop_last()) == 2_165_034_944);
        }
        while i < files.len()
            invariant
                i <= files.len(),
                files@ == self.spec_downloads(),
                files@ == large_downloads(),
                total == total_size(files@.take(i as int)),
                total_size(large_downloads()) == 2_806_808_928,
            decreases files.len() - i,
        {
            assert(files@.take(i + 1).drop_last() == files@.take(i as int));
            proof {
                lemma_total_size_prefix(files@, i + 1);
            }
            total = total + files[i].size_bytes;
            i = i + 1;
        }
        assert(files@.take(files.len() as int) == files@);
        total
    }

    /// The quantization the model runs at; the 1.7B model loses accuracy below Q8_0.
    pub fn model_file_name(self) -> (r: &'static str)
        ensures
            r@ == self.spec_downloads()[0].file_name@,
    {
        match self {
            Qwen3AsrModel::Large => "Qwen3-ASR-1.7B-Q8_0.gguf",
        }
    }

    pub fn mmproj_file_name(self) -> (r: &'static str)
        ensures
            r@ == self.spec_downloads()[1].file_name@,
    {
        match self {
            Qwen3AsrModel::Large => "mmproj-Qwen3-ASR-1.7B-bf16.gguf",
        }
    }

    /// Folder name under a Hugging Face style `<publisher>/<repo>` models tree.
    pub fn repo(self) -> (r: &'static str)
        ensures
            r@ == "ggml-org/Qwen3-ASR-1.7B-GGUF"@,
    {
        match self {
            Qwen3AsrModel::Large => "ggml-org/Qwen3-ASR-1.7B-GGUF",
        }
    }
}

proof fn lemma_total_size_prefix(files: Seq<Qwen3AsrDownload>, i: int)
    requires
        0 <= i <= files.len(),
    ensures
        total_size(files.take(i)) <= total_size(files),
    decreases files.len() - i,
{
    if i < files.len() {
        lemma_total_size_prefix(files.drop_last(), i);
        assert(files.drop_last().take(i) == files.take(i));
    } else {
        assert(files.take(i) == files);
    }
}

/// A model's id reads back as that model.
pub proof fn law_model_ids_read_back(model: Qwen3AsrModel)
    ensures
        Qwen3AsrModel::named(model.id()) == Some(model),
{
}

} // verus!
