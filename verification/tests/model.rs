use sirtea::model::{
    is_model_present, model_url, next_step, partial_name, resolve_model_source, GivenPath,
    ModelSource, Outcome, Step, MODEL_REPO_DIRNAME,
};

fn given(is_file: bool, holds_model: bool) -> Option<GivenPath> {
    Some(GivenPath {
        is_file,
        holds_model,
    })
}

#[test]
fn given_paths_are_never_downloaded_to() {
    for data_dir in [None, Some(false), Some(true)] {
        let source = |path| resolve_model_source(path, data_dir);
        assert_eq!(source(given(true, false)), ModelSource::Given);
        assert_eq!(source(given(true, true)), ModelSource::Given);
        assert_eq!(source(given(false, true)), ModelSource::InsideGiven);
        assert_eq!(source(given(false, false)), ModelSource::NotFound);
        assert!(is_model_present(given(true, false), data_dir));
        assert!(is_model_present(given(false, true), data_dir));
        assert!(!is_model_present(given(false, false), data_dir));
    }
}

#[test]
fn data_directory_is_the_default() {
    assert_eq!(
        resolve_model_source(None, Some(true)),
        ModelSource::DataDir
    );
    assert_eq!(
        resolve_model_source(None, Some(false)),
        ModelSource::Download
    );
    assert_eq!(resolve_model_source(None, None), ModelSource::NoDataDir);
    assert!(is_model_present(None, Some(true)));
    assert!(!is_model_present(None, Some(false)));
    assert!(!is_model_present(None, None));
}

#[test]
fn names_and_addresses() {
    assert_eq!(
        model_url(),
        "https://huggingface.co/handy-computer/parakeet-tdt-0.6b-v3-gguf/resolve/main/\
         parakeet-tdt-0.6b-v3-Q8_0.gguf"
    );
    assert_eq!(
        partial_name(MODEL_REPO_DIRNAME),
        "parakeet-tdt-0.6b-v3-gguf.tmp"
    );
}

fn walk(outcomes: &[Outcome]) -> Vec<Step> {
    let mut steps = vec![Step::LookForStale];
    for outcome in outcomes {
        let step = *steps.last().unwrap();
        steps.push(next_step(step, *outcome));
    }
    steps
}

#[test]
fn downloads_are_published_once_complete() {
    let done = Outcome::Done;
    let nothing = Outcome::Nothing;
    assert_eq!(
        walk(&[
            done, done, done, done, done, done, done, done, done, nothing, done, done, done
        ]),
        [
            Step::LookForStale,
            Step::RemoveStale,
            Step::CreatePartial,
            Step::Fetch,
            Step::CreateFile,
            Step::ReadChunk,
            Step::WriteChunk,
            Step::ReadChunk,
            Step::WriteChunk,
            Step::ReadChunk,
            Step::Flush,
            Step::Publish,
            Step::Finished,
            Step::Finished,
        ]
    );
}

#[test]
fn nothing_stale_is_removed_where_there_is_nothing() {
    assert_eq!(
        walk(&[Outcome::Nothing, Outcome::Done]),
        [Step::LookForStale, Step::CreatePartial, Step::Fetch]
    );
}

#[test]
fn failed_downloads_are_given_up() {
    let done = Outcome::Done;
    let failed = Outcome::Failed;
    for step in [
        Step::LookForStale,
        Step::RemoveStale,
        Step::CreatePartial,
        Step::Fetch,
        Step::CreateFile,
        Step::ReadChunk,
        Step::WriteChunk,
        Step::Flush,
        Step::Publish,
    ] {
        assert_eq!(next_step(step, failed), Step::GivenUp);
    }
    assert_eq!(next_step(Step::GivenUp, done), Step::GivenUp);
    assert_eq!(next_step(Step::Finished, failed), Step::Finished);
    assert_eq!(
        walk(&[Outcome::Nothing, done, done, done, done, failed, done, done]),
        [
            Step::LookForStale,
            Step::CreatePartial,
            Step::Fetch,
            Step::CreateFile,
            Step::ReadChunk,
            Step::WriteChunk,
            Step::GivenUp,
            Step::GivenUp,
            Step::GivenUp,
        ]
    );
}
