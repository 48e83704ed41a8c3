//! Where the speech model comes from.

use vstd::prelude::*;

verus! {

/// The HuggingFace repository holding the model.
pub const MODEL_REPO: &'static str = "handy-computer/parakeet-tdt-0.6b-v3-gguf";

/// The single file that is downloaded from `MODEL_REPO`.
pub const MODEL_FILE: &'static str = "parakeet-tdt-0.6b-v3-Q8_0.gguf";

/// Directory name for the model under the per-user data directory. Kept in sync with
/// `MODEL_REPO`, so that another model lands in a fresh directory.
pub const MODEL_REPO_DIRNAME: &'static str = "parakeet-tdt-0.6b-v3-gguf";

/// What is known of a model path that was configured explicitly.
#[derive(Clone, Copy, Debug, PartialEq, Eq, Structural)]
pub struct GivenPath {
    /// Whether it is a file.
    pub is_file: bool,
    /// Whether `MODEL_FILE` exists inside it.
    pub holds_model: bool,
}

/// Where the model is to be taken from.
#[derive(Clone, Copy, Debug, PartialEq, Eq, Structural)]
pub enum ModelSource {
    /// The given path itself.
    Given,
    /// `MODEL_FILE` inside the given path.
    InsideGiven,
    /// `MODEL_FILE` inside the per-user data directory.
    DataDir,
    /// Nowhere yet: it is to be downloaded into the per-user data directory.
    Download,
    /// Nowhere: the given path does not lead to it.
    NotFound,
    /// Nowhere: there is no per-user data directory.
    NoDataDir,
}

/// Where the model is to be taken from. An explicitly configured path is trusted but
/// verified: nothing is ever downloaded into it. `data_dir` says whether the per-user data
/// directory, if there is one, holds the model.
pub open spec fn source_of(given: Option<GivenPath>, data_dir: Option<bool>) -> ModelSource {
    match given {
        Some(path) => if path.is_file {
            ModelSource::Given
        } else if path.holds_model {
            ModelSource::InsideGiven
        } else {
            ModelSource::NotFound
        },
        None => match data_dir {
            Some(true) => ModelSource::DataDir,
            Some(false) => ModelSource::Download,
            None => ModelSource::NoDataDir,
        },
    }
}

/// Figures out where the model is to be taken from.
pub fn resolve_model_source(given: Option<GivenPath>, data_dir: Option<bool>) -> (source:
    ModelSource)
    ensures
        source == source_of(given, data_dir),
{
    match given {
        Some(path) => {
            if path.is_file {
                ModelSource::Given
            } else if path.holds_model {
                ModelSource::InsideGiven
            } else {
                ModelSource::NotFound
            }
        },
        None => match data_dir {
            Some(present) => {
                if present {
                    ModelSource::DataDir
                } else {
                    ModelSource::Download
                }
            },
            None => ModelSource::NoDataDir,
        },
    }
}

/// Whether the model is there: where a path was given, at or in it, and otherwise in the
/// per-user data directory.
pub open spec fn is_present(given: Option<GivenPath>, data_dir: Option<bool>) -> bool {
    match given {
        Some(path) => path.is_file || path.holds_model,
        None => data_dir == Some(true),
    }
}

/// Whether the model is there.
pub fn is_model_present(given: Option<GivenPath>, data_dir: Option<bool>) -> (present: bool)
    ensures
        present == is_present(given, data_dir),
{
    match given {
        Some(path) => path.is_file || path.holds_model,
        None => match data_dir {
            Some(present) => present,
            None => false,
        },
    }
}

/// Where the model is downloaded from.
pub fn model_url() -> (url: String)
    ensures
        url@ == "https://huggingface.co/"@ + MODEL_REPO@ + "/resolve/main/"@ + MODEL_FILE@,
{
    let mut url = "https://huggingface.co/".to_owned();
    url.append(MODEL_REPO);
    url.append("/resolve/main/");
    url.append(MODEL_FILE);
    url
}

/// The name of the directory that a download into the directory `name` is collected in
/// until it is complete.
pub fn partial_name(name: &str) -> (partial: String)
    ensures
        partial@ == name@ + ".tmp"@,
{
    let mut partial = name.to_owned();
    partial.append(".tmp");
    partial
}

/// What is to be done next in a download.
#[derive(Clone, Copy, Debug, PartialEq, Eq, Structural)]
pub enum Step {
    /// Look for the partial directory of an earlier, interrupted download.
    LookForStale,
    /// Remove it.
    RemoveStale,
    /// Create the partial directory.
    CreatePartial,
    /// Request the model file.
    Fetch,
    /// Create the file in the partial directory.
    CreateFile,
    /// Wait for the next piece of the model file.
    ReadChunk,
    /// Append that piece to the file.
    WriteChunk,
    /// Flush the file.
    Flush,
    /// Rename the partial directory to its final name.
    Publish,
    /// Nothing: the download is complete.
    Finished,
    /// Nothing: a step failed, and the download is given up.
    GivenUp,
}

/// How a step of a download went.
#[derive(Clone, Copy, Debug, PartialEq, Eq, Structural)]
pub enum Outcome {
    /// It was done; where something was looked or waited for, it is there.
    Done,
    /// What was looked or waited for is not there: there is no partial directory, or no
    /// further piece.
    Nothing,
    /// It failed.
    Failed,
}

/// What comes after a step of a download. A step that fails ends it.
pub open spec fn step_after(step: Step, outcome: Outcome) -> Step {
    match (step, outcome) {
        (Step::Finished, _) => Step::Finished,
        (Step::GivenUp, _) => Step::GivenUp,
        (_, Outcome::Failed) => Step::GivenUp,
        (Step::LookForStale, Outcome::Done) => Step::RemoveStale,
        (Step::LookForStale, Outcome::Nothing) => Step::CreatePartial,
        (Step::RemoveStale, _) => Step::CreatePartial,
        (Step::CreatePartial, _) => Step::Fetch,
        (Step::Fetch, _) => Step::CreateFile,
        (Step::CreateFile, _) => Step::ReadChunk,
        (Step::ReadChunk, Outcome::Done) => Step::WriteChunk,
        (Step::ReadChunk, Outcome::Nothing) => Step::Flush,
        (Step::WriteChunk, _) => Step::ReadChunk,
        (Step::Flush, _) => Step::Publish,
        (Step::Publish, _) => Step::Finished,
    }
}

/// What comes after a step of a download.
pub fn next_step(step: Step, outcome: Outcome) -> (next: Step)
    ensures
        next == step_after(step, outcome),
{
    match (step, outcome) {
        (Step::Finished, _) => Step::Finished,
        (Step::GivenUp, _) => Step::GivenUp,
        (_, Outcome::Failed) => Step::GivenUp,
        (Step::LookForStale, Outcome::Done) => Step::RemoveStale,
        (Step::LookForStale, Outcome::Nothing) => Step::CreatePartial,
        (Step::RemoveStale, _) => Step::CreatePartial,
        (Step::CreatePartial, _) => Step::Fetch,
        (Step::Fetch, _) => Step::CreateFile,
        (Step::CreateFile, _) => Step::ReadChunk,
        (Step::ReadChunk, Outcome::Done) => Step::WriteChunk,
        (Step::ReadChunk, Outcome::Nothing) => Step::Flush,
        (Step::WriteChunk, _) => Step::ReadChunk,
        (Step::Flush, _) => Step::Publish,
        (Step::Publish, _) => Step::Finished,
    }
}

/// Whether a download took these steps with these outcomes. The last step is the one that
/// is to be done next.
pub open spec fn is_download(steps: Seq<Step>, outcomes: Seq<Outcome>) -> bool {
    &&& steps.len() == outcomes.len() + 1
    &&& steps[0] == Step::LookForStale
    &&& forall|k: int|
        0 <= k < outcomes.len() ==> steps[k + 1] == step_after(
            #[trigger] steps[k],
            #[trigger] outcomes[k],
        )
}

/// A download is put in place only once it is complete: the step that does so comes right
/// after the file was flushed, and that after the last piece had come. So an interrupted
/// download never leaves truncated weights under the final name.
pub proof fn law_only_complete_downloads_are_published(
    steps: Seq<Step>,
    outcomes: Seq<Outcome>,
    k: int,
)
    requires
        is_download(steps, outcomes),
        0 <= k < steps.len(),
        steps[k] is Publish,
    ensures
        k >= 2,
        steps[k - 1] is Flush,
        steps[k - 2] is ReadChunk,
        outcomes[k - 2] is Nothing,
        forall|j: int| 0 <= j < k ==> !(#[trigger] outcomes[j] is Failed),
{
    assert(steps[k] == step_after(steps[k - 1], outcomes[k - 1]));
    assert(steps[k - 1] == step_after(steps[k - 2], outcomes[k - 2]));
    assert forall|j: int| 0 <= j < k implies !(#[trigger] outcomes[j] is Failed) by {
        if outcomes[j] is Failed {
            lemma_over_stays_over(steps, outcomes, j, k);
        }
    }
}

/// Whether nothing is left to be done.
pub open spec fn is_over(step: Step) -> bool {
    step is Finished || step is GivenUp
}

/// Once a step has failed, or nothing is left to be done, nothing is done any more.
proof fn lemma_over_stays_over(steps: Seq<Step>, outcomes: Seq<Outcome>, j: int, k: int)
    requires
        is_download(steps, outcomes),
        0 <= j < k < steps.len(),
        outcomes[j] is Failed,
    ensures
        is_over(steps[k]),
        !(steps[j] is Finished) ==> steps[k] is GivenUp,
    decreases k,
{
    assert(steps[k] == step_after(steps[k - 1], outcomes[k - 1]));
    if k > j + 1 {
        lemma_over_stays_over(steps, outcomes, j, k - 1);
    }
}

/// A step that fails ends the download: nothing is done any more, and in particular nothing
/// is put in place.
pub proof fn law_failed_downloads_are_given_up(
    steps: Seq<Step>,
    outcomes: Seq<Outcome>,
    j: int,
    k: int,
)
    requires
        is_download(steps, outcomes),
        0 <= j < k < steps.len(),
        outcomes[j] is Failed,
        !(steps[j] is Finished),
    ensures
        steps[k] is GivenUp,
{
    lemma_over_stays_over(steps, outcomes, j, k);
}

/// A download is complete only once it was put in place.
pub proof fn law_complete_downloads_are_published(
    steps: Seq<Step>,
    outcomes: Seq<Outcome>,
    k: int,
)
    requires
        is_download(steps, outcomes),
        0 <= k < steps.len(),
        steps[k] is Finished,
    ensures
        exists|j: int|
            0 <= j < k && (#[trigger] steps[j]) is Publish && !(outcomes[j] is Failed),
    decreases k,
{
    assert(steps[k] == step_after(steps[k - 1], outcomes[k - 1]));
    if steps[k - 1] is Finished {
        law_complete_downloads_are_published(steps, outcomes, k - 1);
    }
}

/// Every piece that comes is written before the next one is waited for, unless writing it
/// fails, which ends the download.
pub proof fn law_every_chunk_is_written(steps: Seq<Step>, outcomes: Seq<Outcome>, k: int)
    requires
        is_download(steps, outcomes),
        0 <= k < outcomes.len() - 1,
        steps[k] is ReadChunk,
        outcomes[k] is Done,
    ensures
        steps[k + 1] is WriteChunk,
        steps[k + 2] is ReadChunk || (outcomes[k + 1] is Failed && steps[k + 2] is GivenUp),
{
    assert(steps[k + 1] == step_after(steps[k], outcomes[k]));
    assert(steps[k + 2] == step_after(steps[k + 1], outcomes[k + 1]));
}

/// Whatever an earlier, interrupted download left is gone before a new one begins: the
/// model is requested right after the partial directory was created, and that is created
/// right after the stale one was removed, or was found not to be there.
pub proof fn law_downloads_start_afresh(steps: Seq<Step>, outcomes: Seq<Outcome>, k: int)
    requires
        is_download(steps, outcomes),
        0 <= k < steps.len(),
        steps[k] is Fetch,
    ensures
        k >= 2,
        steps[k - 1] is CreatePartial,
        steps[k - 2] is RemoveStale || (steps[k - 2] is LookForStale && outcomes[k - 2] is Nothing),
{
    assert(steps[k] == step_after(steps[k - 1], outcomes[k - 1]));
    assert(steps[k - 1] == step_after(steps[k - 2], outcomes[k - 2]));
}

/// Nothing is ever downloaded where a path was configured explicitly.
pub proof fn law_given_paths_are_not_downloaded_to(path: GivenPath, data_dir: Option<bool>)
    ensures
        !(source_of(Some(path), data_dir) is Download),
{
}

/// A model that is there is used, and one that is not is not: where it is there, it is
/// taken from the given path or the per-user data directory, and otherwise downloaded or
/// reported missing.
pub proof fn law_present_model_is_used(given: Option<GivenPath>, data_dir: Option<bool>)
    ensures
        is_present(given, data_dir) <==> {
            ||| source_of(given, data_dir) is Given
            ||| source_of(given, data_dir) is InsideGiven
            ||| source_of(given, data_dir) is DataDir
        },
{
}

/// Where the model is taken from: a path that was given is taken itself if it is a file, the
/// model in it if it holds one, and is an error otherwise, whatever the data directory
/// holds. Without one the data directory is used, and filled if it does not hold the model.
pub proof fn law_model_sources(given: Option<GivenPath>, data_dir: Option<bool>)
    ensures
        source_of(given, data_dir) is Given <==> given is Some && given->0.is_file,
        source_of(given, data_dir) is InsideGiven <==> given is Some && !given->0.is_file
            && given->0.holds_model,
        source_of(given, data_dir) is NotFound <==> given is Some && !given->0.is_file
            && !given->0.holds_model,
        source_of(given, data_dir) is DataDir <==> given is None && data_dir is Some
            && data_dir->0,
        source_of(given, data_dir) is Download <==> given is None && data_dir is Some
            && !data_dir->0,
        source_of(given, data_dir) is NoDataDir <==> given is None && data_dir is None,
{
}

/// Every step of a download comes after the one that it needs: the file is created once the
/// model was requested, a piece is waited for once there is a file and every piece before it
/// was written, one is written only if it came, the file is flushed only when no piece comes
/// any more, and put in place only once it was flushed.
pub proof fn law_steps_come_in_order(steps: Seq<Step>, outcomes: Seq<Outcome>, k: int)
    requires
        is_download(steps, outcomes),
        0 <= k < steps.len(),
    ensures
        steps[k] is LookForStale <==> k == 0,
        steps[k] is RemoveStale ==> k > 0 && steps[k - 1] is LookForStale && outcomes[k - 1]
            is Done,
        steps[k] is CreatePartial ==> k > 0 && (steps[k - 1] is RemoveStale || steps[k - 1]
            is LookForStale && outcomes[k - 1] is Nothing),
        steps[k] is Fetch ==> k > 0 && steps[k - 1] is CreatePartial,
        steps[k] is CreateFile ==> k > 0 && steps[k - 1] is Fetch,
        steps[k] is ReadChunk ==> k > 0 && (steps[k - 1] is CreateFile || steps[k - 1]
            is WriteChunk),
        steps[k] is WriteChunk ==> k > 0 && steps[k - 1] is ReadChunk && outcomes[k - 1] is Done,
        steps[k] is Flush ==> k > 0 && steps[k - 1] is ReadChunk && outcomes[k - 1] is Nothing,
        steps[k] is Publish ==> k > 0 && steps[k - 1] is Flush,
        steps[k] is Finished ==> k > 0 && (steps[k - 1] is Publish || steps[k - 1] is Finished),
        steps[k] is GivenUp ==> k > 0 && (outcomes[k - 1] is Failed || steps[k - 1] is GivenUp),
{
    if k > 0 {
        assert(steps[k] == step_after(steps[k - 1], outcomes[k - 1]));
    }
}

} // verus!
