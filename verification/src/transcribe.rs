//! The decisions around voice-note transcription: where the Handy Parakeet
//! model is looked for, when a model directory counts as complete, and what
//! becomes of the transcriber's and the converter's output.
use vstd::prelude::*;
use crate::text::{trim, trim_str};

verus! {

/// The directory the Handy app installs the Parakeet model in.
pub open spec fn handy_model_dir_name() -> Seq<char> {
    "parakeet-tdt-0.6b-v3-int8"@
}

/// The directory under which a model root lies.
#[derive(Clone, Copy, Debug, PartialEq, Eq)]
pub enum ModelRoot {
    /// The roaming application-data directory (`APPDATA`).
    AppData,
    /// The local application-data directory (`LOCALAPPDATA`).
    LocalAppData,
}

/// A path: a base directory and the names below it, in order.
#[derive(Clone, Debug, PartialEq, Eq)]
pub struct ModelPath {
    pub root: ModelRoot,
    pub below: Vec<String>,
}

/// A path as plain values.
pub open spec fn path_view(p: ModelPath) -> (ModelRoot, Seq<Seq<char>>) {
    (p.root, p.below.deep_view())
}

/// The model roots that Handy uses, for the base directories that are set:
/// `APPDATA/com.pais.handy/models`, then `LOCALAPPDATA/Handy/resources/models`.
pub open spec fn model_roots(has_appdata: bool, has_local_appdata: bool) -> Seq<
    (ModelRoot, Seq<Seq<char>>),
> {
    (if has_appdata {
        seq![(ModelRoot::AppData, seq!["com.pais.handy"@, "models"@])]
    } else {
        Seq::empty()
    }) + (if has_local_appdata {
        seq![(ModelRoot::LocalAppData, seq!["Handy"@, "resources"@, "models"@])]
    } else {
        Seq::empty()
    })
}

/// The model directories to look at, in order: each root joined with the
/// model's directory name.
pub open spec fn model_dir_candidates(has_appdata: bool, has_local_appdata: bool) -> Seq<
    (ModelRoot, Seq<Seq<char>>),
> {
    (if has_appdata {
        seq![(ModelRoot::AppData, seq!["com.pais.handy"@, "models"@, handy_model_dir_name()])]
    } else {
        Seq::empty()
    }) + (if has_local_appdata {
        seq![
            (
                ModelRoot::LocalAppData,
                seq!["Handy"@, "resources"@, "models"@, handy_model_dir_name()],
            ),
        ]
    } else {
        Seq::empty()
    })
}

/// The paths `ps` as plain values.
pub open spec fn paths_view(ps: Seq<ModelPath>) -> Seq<(ModelRoot, Seq<Seq<char>>)> {
    ps.map_values(|p: ModelPath| path_view(p))
}

fn owned(s: &str) -> (r: String)
    ensures
        r@ == s@,
{
    let mut r = String::new();
    r.append(s);
    r
}

fn push_name(below: &mut Vec<String>, name: &str)
    ensures
        final(below).deep_view() == old(below).deep_view().push(name@),
{
    let ghost before = below.deep_view();
    below.push(owned(name));
    assert(below.deep_view() =~= before.push(name@));
}

/// The root under `APPDATA`, with the model directory name if asked.
fn appdata_path(with_model: bool) -> (r: ModelPath)
    ensures
        r.root == ModelRoot::AppData,
        !with_model ==> r.below.deep_view() == seq!["com.pais.handy"@, "models"@],
        with_model ==> r.below.deep_view() == seq![
            "com.pais.handy"@,
            "models"@,
            handy_model_dir_name(),
        ],
{
    let mut below: Vec<String> = Vec::new();
    push_name(&mut below, "com.pais.handy");
    push_name(&mut below, "models");
    if with_model {
        push_name(&mut below, "parakeet-tdt-0.6b-v3-int8");
    }
    ModelPath { root: ModelRoot::AppData, below }
}

/// The root under `LOCALAPPDATA`, with the model directory name if asked.
fn local_appdata_path(with_model: bool) -> (r: ModelPath)
    ensures
        r.root == ModelRoot::LocalAppData,
        !with_model ==> r.below.deep_view() == seq!["Handy"@, "resources"@, "models"@],
        with_model ==> r.below.deep_view() == seq![
            "Handy"@,
            "resources"@,
            "models"@,
            handy_model_dir_name(),
        ],
{
    let mut below: Vec<String> = Vec::new();
    push_name(&mut below, "Handy");
    push_name(&mut below, "resources");
    push_name(&mut below, "models");
    if with_model {
        push_name(&mut below, "parakeet-tdt-0.6b-v3-int8");
    }
    ModelPath { root: ModelRoot::LocalAppData, below }
}

fn model_paths(has_appdata: bool, has_local_appdata: bool, with_model: bool) -> (r: Vec<ModelPath>)
    ensures
        !with_model ==> paths_view(r@) == model_roots(has_appdata, has_local_appdata),
        with_model ==> paths_view(r@) == model_dir_candidates(has_appdata, has_local_appdata),
{
    let mut r: Vec<ModelPath> = Vec::new();
    if has_appdata {
        r.push(appdata_path(with_model));
    }
    if has_local_appdata {
        r.push(local_appdata_path(with_model));
    }
    assert(!with_model ==> paths_view(r@) =~= model_roots(has_appdata, has_local_appdata));
    assert(with_model ==> paths_view(r@) =~= model_dir_candidates(has_appdata, has_local_appdata));
    r
}

/// The roots under which Handy keeps its models, for the base directories
/// that are set.
pub fn handy_model_roots(has_appdata: bool, has_local_appdata: bool) -> (r: Vec<ModelPath>)
    ensures
        paths_view(r@) == model_roots(has_appdata, has_local_appdata),
{
    model_paths(has_appdata, has_local_appdata, false)
}

/// The model directories to check, in the order they are preferred.
pub fn handy_model_dir_candidates(has_appdata: bool, has_local_appdata: bool) -> (r: Vec<ModelPath>)
    ensures
        paths_view(r@) == model_dir_candidates(has_appdata, has_local_appdata),
{
    model_paths(has_appdata, has_local_appdata, true)
}

/// The files a complete Parakeet model directory holds.
pub open spec fn parakeet_model_file_names() -> Seq<Seq<char>> {
    seq![
        "encoder-model.int8.onnx"@,
        "decoder_joint-model.int8.onnx"@,
        "nemo128.onnx"@,
        "vocab.txt"@,
    ]
}

/// The names of the files a complete Parakeet model directory holds.
pub fn parakeet_model_files() -> (r: Vec<String>)
    ensures
        r.deep_view() == parakeet_model_file_names(),
{
    let mut r: Vec<String> = Vec::new();
    push_name(&mut r, "encoder-model.int8.onnx");
    push_name(&mut r, "decoder_joint-model.int8.onnx");
    push_name(&mut r, "nemo128.onnx");
    push_name(&mut r, "vocab.txt");
    assert(r.deep_view() =~= parakeet_model_file_names());
    r
}

/// Whether a model directory is complete, given for each of
/// `parakeet_model_files` whether it is a file in that directory.
pub fn is_valid_parakeet_model_dir(file_present: &[bool]) -> (r: bool)
    requires
        file_present@.len() == parakeet_model_file_names().len(),
    ensures
        r == forall|i: int| 0 <= i < file_present@.len() ==> file_present@[i],
{
    let mut i: usize = 0;
    while i < file_present.len()
        invariant
            i <= file_present@.len(),
            forall|j: int| 0 <= j < i ==> file_present@[j],
        decreases file_present.len() - i,
    {
        if !file_present[i] {
            return false;
        }
        i += 1;
    }
    true
}

/// `k` is the first index at which `flags` holds.
pub open spec fn is_first_set(flags: Seq<bool>, k: int) -> bool {
    &&& 0 <= k < flags.len()
    &&& flags[k]
    &&& forall|j: int| 0 <= j < k ==> !flags[j]
}

/// The preferred complete Handy Parakeet model directory, given for each of
/// `handy_model_dir_candidates` whether it is a complete model directory.
pub fn detect_handy_parakeet_model_dir(
    has_appdata: bool,
    has_local_appdata: bool,
    dir_is_valid: &[bool],
) -> (r: Option<ModelPath>)
    requires
        dir_is_valid@.len() == model_dir_candidates(has_appdata, has_local_appdata).len(),
    ensures
        match r {
            Some(p) => exists|k: int|
                #[trigger] is_first_set(dir_is_valid@, k) && path_view(p) == model_dir_candidates(
                    has_appdata,
                    has_local_appdata,
                )[k],
            None => forall|k: int| 0 <= k < dir_is_valid@.len() ==> !dir_is_valid@[k],
        },
{
    let mut candidates = handy_model_dir_candidates(has_appdata, has_local_appdata);
    let ghost cands = paths_view(candidates@);
    let mut i: usize = 0;
    while i < dir_is_valid.len()
        invariant
            i <= dir_is_valid@.len(),
            dir_is_valid@.len() == candidates@.len(),
            cands == paths_view(candidates@),
            cands == model_dir_candidates(has_appdata, has_local_appdata),
            forall|j: int| 0 <= j < i ==> !dir_is_valid@[j],
        decreases dir_is_valid.len() - i,
    {
        if dir_is_valid[i] {
            let found = candidates.remove(i);
            assert(is_first_set(dir_is_valid@, i as int));
            assert(path_view(found) == cands[i as int]);
            return Some(found);
        }
        i += 1;
    }
    None
}

/// A transcript of a voice note, with the engine that made it.
#[derive(Clone, Debug, PartialEq, Eq)]
pub struct AttachmentTranscript {
    pub engine: String,
    pub text: String,
}

/// Why a transcription gave nothing usable.
#[derive(Clone, Copy, Debug, PartialEq, Eq)]
pub enum TranscribeError {
    /// Only whitespace was recognised.
    EmptyTranscript,
}

/// The transcript made of the recogniser's raw output: its text trimmed,
/// refused when nothing is left.
pub fn finish_transcript(raw: &str) -> (r: Result<AttachmentTranscript, TranscribeError>)
    ensures
        match r {
            Ok(t) => {
                &&& trim(raw@).len() > 0
                &&& t.text@ == trim(raw@)
                &&& t.engine@ == "Handy Parakeet"@
            },
            Err(e) => e == TranscribeError::EmptyTranscript && trim(raw@).len() == 0,
        },
{
    let text = trim_str(raw);
    if text.as_str().is_empty() {
        return Err(TranscribeError::EmptyTranscript);
    }
    Ok(AttachmentTranscript { engine: owned("Handy Parakeet"), text })
}

/// The name of the scratch WAV file for the conversion with id `id`.
pub fn wav_file_name(id: &str) -> (r: String)
    ensures
        r@ == id@ + ".wav"@,
{
    let mut r = owned(id);
    r.append(".wav");
    r
}

/// The error for an `ffmpeg` run that failed with `status`, quoting what it
/// wrote to standard error when that is more than whitespace.
pub open spec fn ffmpeg_failure(status: Seq<char>, stderr: Seq<char>) -> Seq<char> {
    if trim(stderr).len() == 0 {
        "ffmpeg exited with status "@ + status
    } else {
        "ffmpeg exited with status "@ + status + ": "@ + trim(stderr)
    }
}

/// The error message for a failed audio conversion.
pub fn ffmpeg_failure_message(status: &str, stderr: &str) -> (r: String)
    ensures
        r@ == ffmpeg_failure(status@, stderr@),
{
    let detail = trim_str(stderr);
    let mut r = owned("ffmpeg exited with status ");
    r.append(status);
    if !detail.as_str().is_empty() {
        r.append(": ");
        r.append(detail.as_str());
    }
    r
}

} // verus!
