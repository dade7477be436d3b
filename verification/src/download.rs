//! The models the app fetches and does not ship: which files, pinned to a revision with
//! their sizes and checksums; what is still missing; and the rules of a download that
//! stops and starts again.

use std::path::PathBuf;
use std::time::Duration;

use crc32fast::Hasher;
use vstd::prelude::*;

use crate::model::Qwen3AsrModel;
use crate::server::{duration_from_secs, seconds};

verus! {

#[derive(Debug, Clone, Copy, PartialEq, Eq)]
pub struct DownloadFile {
    pub file_name: &'static str,
    pub url: &'static str,
    pub size_bytes: u64,
    /// CRC-32 (IEEE) of the whole file.
    pub crc32: u32,
}

/// The two speaker models, from the commit of fastrepl/anarlog the speaker code was taken
/// from.
pub open spec fn speaker_model_list() -> Seq<DownloadFile> {
    seq![
        DownloadFile {
            file_name: "segmentation.onnx",
            url: "https://raw.githubusercontent.com/fastrepl/anarlog/b9146a707f4da2121d3438bce38155b31e5007f1/crates/pyannote-local/src/data/segmentation.onnx",
            size_bytes: 5_986_908,
            crc32: 2_837_126_254,
        },
        DownloadFile {
            file_name: "embedding.onnx",
            url: "https://raw.githubusercontent.com/fastrepl/anarlog/b9146a707f4da2121d3438bce38155b31e5007f1/crates/embedding/src/onnx/embedding.onnx",
            size_bytes: 26_543_975,
            crc32: 3_203_350_236,
        },
    ]
}

pub fn speaker_models() -> (r: Vec<DownloadFile>)
    ensures
        r@ == speaker_model_list(),
{
    let r = vec![
        DownloadFile {
            file_name: "segmentation.onnx",
            url: "https://raw.githubusercontent.com/fastrepl/anarlog/b9146a707f4da2121d3438bce38155b31e5007f1/crates/pyannote-local/src/data/segmentation.onnx",
            size_bytes: 5_986_908,
            crc32: 2_837_126_254,
        },
        DownloadFile {
            file_name: "embedding.onnx",
            url: "https://raw.githubusercontent.com/fastrepl/anarlog/b9146a707f4da2121d3438bce38155b31e5007f1/crates/embedding/src/onnx/embedding.onnx",
            size_bytes: 26_543_975,
            crc32: 3_203_350_236,
        },
    ];
    assert(r@ =~= speaker_model_list());
    r
}

/// The files of the speech model, as downloads.
pub open spec fn speech_model_list(model: Qwen3AsrModel) -> Seq<DownloadFile> {
    model.spec_downloads().map_values(
        |file: crate::model::Qwen3AsrDownload|
            DownloadFile {
                file_name: file.file_name,
                url: file.url,
                size_bytes: file.size_bytes,
                crc32: file.crc32,
            },
    )
}

pub fn speech_model_files(model: Qwen3AsrModel) -> (r: Vec<DownloadFile>)
    ensures
        r@ == speech_model_list(model),
{
    let files = model.downloads();
    let mut r: Vec<DownloadFile> = Vec::new();
    let mut i: usize = 0;
    while i < files.len()
        invariant
            i <= files.len(),
            files@ == model.spec_downloads(),
            r@ == speech_model_list(model).take(i as int),
        decreases files.len() - i,
    {
        let file = files[i];
        r.push(
            DownloadFile {
                file_name: file.file_name,
                url: file.url,
                size_bytes: file.size_bytes,
                crc32: file.crc32,
            },
        );
        assert(speech_model_list(model).take(i + 1) == speech_model_list(model).take(i as int).push(
            speech_model_list(model)[i as int],
        ));
        i = i + 1;
    }
    assert(speech_model_list(model).take(files.len() as int) == speech_model_list(model));
    r
}

/// Files to fetch into one folder.
#[derive(Debug, PartialEq, Eq)]
pub struct Package {
    pub dir: PathBuf,
    pub files: Vec<DownloadFile>,
}

impl Clone for Package {
    fn clone(&self) -> (r: Self)
        ensures
            r.dir == self.dir,
            r.files@ == self.files@,
    {
        Package { dir: self.dir.clone(), files: self.files.clone() }
    }
}

/// What is missing, smallest first, so speaker names work long before the speech model
/// has arrived: the speaker models unless both are in their folder, then the speech model
/// unless its two files were found.
pub fn missing_packages(
    speaker_models_found: bool,
    speaker_models_dir: PathBuf,
    speech_model_found: bool,
    speech_model_dir: PathBuf,
) -> (r: Vec<Package>)
    ensures
        r@.len() == (if speaker_models_found {
            0int
        } else {
            1int
        }) + (if speech_model_found {
            0int
        } else {
            1int
        }),
        !speaker_models_found ==> r@[0].dir == speaker_models_dir && r@[0].files@ == speaker_model_list(),
        !speech_model_found ==> r@.last().dir == speech_model_dir && r@.last().files@ == speech_model_list(
            Qwen3AsrModel::Large,
        ),
{
    let mut packages: Vec<Package> = Vec::new();
    if !speaker_models_found {
        packages.push(Package { dir: speaker_models_dir, files: speaker_models() });
    }
    if !speech_model_found {
        packages.push(Package { dir: speech_model_dir, files: speech_model_files(Qwen3AsrModel::Large) });
    }
    packages
}

/// The bytes of a list of files.
pub open spec fn files_bytes(files: Seq<DownloadFile>) -> nat
    decreases files.len(),
{
    if files.len() == 0 {
        0
    } else {
        files_bytes(files.drop_last()) + files.last().size_bytes as nat
    }
}

/// The bytes of every file of every package.
pub open spec fn packages_bytes(packages: Seq<Package>) -> nat
    decreases packages.len(),
{
    if packages.len() == 0 {
        0
    } else {
        packages_bytes(packages.drop_last()) + files_bytes(packages.last().files@)
    }
}

proof fn lemma_files_bytes_prefix(files: Seq<DownloadFile>, i: int)
    requires
        0 <= i <= files.len(),
    ensures
        files_bytes(files.take(i)) <= files_bytes(files),
    decreases files.len() - i,
{
    if i < files.len() {
        lemma_files_bytes_prefix(files.drop_last(), i);
        assert(files.drop_last().take(i) == files.take(i));
    } else {
        assert(files.take(i) == files);
    }
}

proof fn lemma_packages_bytes_prefix(packages: Seq<Package>, i: int)
    requires
        0 <= i <= packages.len(),
    ensures
        packages_bytes(packages.take(i)) <= packages_bytes(packages),
    decreases packages.len() - i,
{
    if i < packages.len() {
        lemma_packages_bytes_prefix(packages.drop_last(), i);
        assert(packages.drop_last().take(i) == packages.take(i));
    } else {
        assert(packages.take(i) == packages);
    }
}

/// The bytes of all the files of `packages`, to report progress against.
pub fn total_bytes(packages: &[Package]) -> (r: u64)
    requires
        packages_bytes(packages@) <= u64::MAX,
    ensures
        r == packages_bytes(packages@),
{
    let mut total: u64 = 0;
    let mut i: usize = 0;
    while i < packages.len()
        invariant
            i <= packages.len(),
            total == packages_bytes(packages@.take(i as int)),
            packages_bytes(packages@) <= u64::MAX,
        decreases packages.len() - i,
    {
        assert(packages@.take(i + 1).drop_last() == packages@.take(i as int));
        proof {
            lemma_packages_bytes_prefix(packages@, i + 1);
        }
        let files = &packages[i].files;
        let ghost before = total;
        let mut j: usize = 0;
        while j < files.len()
            invariant
                j <= files.len(),
                total == before + files_bytes(files@.take(j as int)),
                before + files_bytes(files@) <= u64::MAX,
            decreases files.len() - j,
        {
            assert(files@.take(j + 1).drop_last() == files@.take(j as int));
            proof {
                lemma_files_bytes_prefix(files@, j + 1);
            }
            total = total + files[j].size_bytes;
            j = j + 1;
        }
        assert(files@.take(files.len() as int) == files@);
        i = i + 1;
    }
    assert(packages@.take(packages.len() as int) == packages@);
    total
}

/// Whether the bytes of all the files of `packages` can be counted in a `u64`.
pub fn packages_bytes_fit(packages: &[Package]) -> (r: bool)
    ensures
        r == (packages_bytes(packages@) <= u64::MAX),
{
    let mut total: u64 = 0;
    let mut i: usize = 0;
    while i < packages.len()
        invariant
            i <= packages.len(),
            total == packages_bytes(packages@.take(i as int)),
        decreases packages.len() - i,
    {
        assert(packages@.take(i + 1).drop_last() == packages@.take(i as int));
        proof {
            lemma_packages_bytes_prefix(packages@, i + 1);
        }
        let files = &packages[i].files;
        let ghost before = total;
        let mut j: usize = 0;
        while j < files.len()
            invariant
                j <= files.len(),
                i < packages@.len(),
                files@ == packages@[i as int].files@,
                total == before + files_bytes(files@.take(j as int)),
                before == packages_bytes(packages@.take(i as int)),
                packages_bytes(packages@.take(i + 1)) <= packages_bytes(packages@),
                packages_bytes(packages@.take(i + 1)) == before + files_bytes(files@),
            decreases files.len() - j,
        {
            assert(files@.take(j + 1).drop_last() == files@.take(j as int));
            proof {
                lemma_files_bytes_prefix(files@, j + 1);
            }
            match total.checked_add(files[j].size_bytes) {
                Some(sum) => {
                    total = sum;
                },
                None => {
                    return false;
                },
            }
            j = j + 1;
        }
        assert(files@.take(files.len() as int) == files@);
        i = i + 1;
    }
    assert(packages@.take(packages.len() as int) == packages@);
    true
}

/// How far a download has got, over all its files together.
#[derive(Debug, Clone, Copy, PartialEq, Eq, Structural)]
pub struct Progress {
    pub done_bytes: u64,
    pub total_bytes: u64,
}

/// Said when the user stopped a download.
pub const CANCELLED: &'static str = "The download was stopped. It continues from here next time.";

// ---------------------------------------------------------------------------------------
// Trying again.

#[derive(Debug, Clone, Copy)]
pub struct Retry {
    /// Tries in a row that may fail without a single new byte before giving up.
    pub attempts: usize,
    pub pause: Duration,
}

impl Default for Retry {
    fn default() -> (r: Self)
        ensures
            r.attempts == 5,
            r.pause == seconds(3),
    {
        Retry { attempts: 5, pause: duration_from_secs(3) }
    }
}

/// The failed tries that count after one more failure: only tries that got nowhere
/// count, so a slow line that keeps dropping still arrives.
pub open spec fn failures_after_of(failures: nat, progressed: bool) -> nat {
    if progressed {
        1
    } else {
        failures + 1
    }
}

impl Retry {
    pub fn failures_after(failures: usize, progressed: bool) -> (r: usize)
        requires
            failures < usize::MAX,
        ensures
            r == failures_after_of(failures as nat, progressed),
    {
        if progressed {
            1
        } else {
            failures + 1
        }
    }

    /// The limit the failures in a row are held to; never below one try.
    pub open spec fn limit(self) -> nat {
        if self.attempts >= 1 {
            self.attempts as nat
        } else {
            1
        }
    }

    /// Whether a download is given up on after `failures` fruitless tries in a row.
    pub fn gives_up(&self, failures: usize) -> (r: bool)
        ensures
            r == (failures >= self.limit()),
    {
        let limit = if self.attempts >= 1 {
            self.attempts
        } else {
            1
        };
        failures >= limit
    }
}

/// The failures counted after `tries` fruitless tries in a row, from none.
pub open spec fn fruitless(tries: nat) -> nat
    decreases tries,
{
    if tries == 0 {
        0
    } else {
        failures_after_of(fruitless((tries - 1) as nat), false)
    }
}

/// A server that keeps failing without sending a byte is tried exactly as often as the
/// retry allows: `attempts` tries (at least one), then it is given up on.
pub proof fn law_fruitless_tries_are_given_up_after_the_limit(retry: Retry, tries: nat)
    ensures
        fruitless(tries) == tries,
        (tries >= retry.limit()) == (fruitless(tries) >= retry.limit()),
    decreases tries,
{
    if tries > 0 {
        law_fruitless_tries_are_given_up_after_the_limit(retry, (tries - 1) as nat);
    }
}

/// A try that got somewhere starts the count again: it is the only failure counted.
pub proof fn law_progress_resets_the_count(retry: Retry, failures: nat)
    ensures
        failures_after_of(failures, true) == 1,
        retry.limit() > 1 ==> !(failures_after_of(failures, true) >= retry.limit()),
{
}

/// How one connection's worth of a file ended, by the bytes in the partial file.
#[derive(Debug, Clone, Copy, PartialEq, Eq, Structural)]
pub enum Transfer {
    /// The file is whole.
    Complete,
    /// The connection closed before the end: try again from here.
    ClosedEarly,
    /// More arrived than the file holds: the partial file is thrown away.
    TooLong,
}

pub fn transfer_outcome(have: u64, size: u64) -> (r: Transfer)
    ensures
        r == (if have == size {
            Transfer::Complete
        } else if have < size {
            Transfer::ClosedEarly
        } else {
            Transfer::TooLong
        }),
{
    if have == size {
        Transfer::Complete
    } else if have < size {
        Transfer::ClosedEarly
    } else {
        Transfer::TooLong
    }
}

impl Transfer {
    /// What the outcome reports: nothing for a whole file, the reason otherwise.
    pub fn result(self) -> (r: Result<(), String>)
        ensures
            self is Complete <==> r is Ok,
            self is ClosedEarly ==> (r matches Err(e) && e@ == "the connection closed early"@),
            self is TooLong ==> (r matches Err(e) && e@ == "the server sent more than the file holds"@),
    {
        match self {
            Transfer::Complete => Ok(()),
            Transfer::ClosedEarly => Err("the connection closed early".to_owned()),
            Transfer::TooLong => Err("the server sent more than the file holds".to_owned()),
        }
    }
}

/// Where a download of a file of `size` bytes resumes when `have` bytes are already in
/// its partial file: from there, or from the start when there are more than the file
/// holds.
pub fn resume_from(have: u64, size: u64) -> (r: u64)
    ensures
        r == (if have > size {
            0
        } else {
            have
        }),
        r <= size,
{
    if have > size {
        0
    } else {
        have
    }
}

/// The progress to show for a file: never past its size.
pub fn shown_bytes(have: u64, size: u64) -> (r: u64)
    ensures
        r == (if have < size {
            have
        } else {
            size
        }),
{
    if have < size {
        have
    } else {
        size
    }
}

// ---------------------------------------------------------------------------------------
// The checksum of a file that arrived.

#[verifier::external_type_specification]
#[verifier::external_body]
pub struct ExHasher(Hasher);

/// The name for the CRC-32 (IEEE) of `bytes`, as crc32fast computes it.
pub uninterp spec fn crc32(bytes: Seq<u8>) -> u32;

/// The CRC-32 of the bytes fed to it so far, taken piece by piece as a file is read. Its
/// hasher has always taken in exactly `fed`: only `new` makes one and only `update` feeds it.
pub struct Checksum {
    hasher: Hasher,
    fed: Ghost<Seq<u8>>,
}

/// crc32fast's `Hasher::new`: a hasher that has been fed nothing.
#[verifier::external_body]
fn fresh_hasher() -> Hasher {
    Hasher::new()
}

/// crc32fast's `Hasher::update`: the hasher takes in `bytes` after what it had.
#[verifier::external_body]
fn feed(checksum: &mut Checksum, bytes: &[u8])
    ensures
        final(checksum).fed@ == old(checksum).fed@ + bytes@,
{
    checksum.hasher.update(bytes);
    checksum.fed = Ghost(checksum.fed@ + bytes@);
}

/// crc32fast's `Hasher::finalize`: the CRC-32 of everything the hasher was fed.
#[verifier::external_body]
fn crc32_value(checksum: Checksum) -> (r: u32)
    ensures
        r == crc32(checksum.fed@),
{
    checksum.hasher.finalize()
}

impl Checksum {
    /// The bytes taken in so far.
    pub closed spec fn fed(&self) -> Seq<u8> {
        self.fed@
    }

    pub fn new() -> (c: Checksum)
        ensures
            c.fed() == Seq::<u8>::empty(),
    {
        Checksum { hasher: fresh_hasher(), fed: Ghost(Seq::empty()) }
    }

    /// Takes in the next bytes of the file.
    pub fn update(&mut self, bytes: &[u8])
        ensures
            final(self).fed() == old(self).fed() + bytes@,
    {
        feed(self, bytes);
    }

    /// Whether what was taken in has the checksum `expected`: the file arrived whole.
    pub fn matches(self, expected: u32) -> (r: bool)
        ensures
            r == (crc32(self.fed()) == expected),
    {
        crc32_value(self) == expected
    }
}

} // verus!
