//! Packing a rip into a zip file and sending it to an archive.
//!
//! Both are lists of steps. Whoever carries them out stops at the first that fails.

use crate::casing::{lower_text, to_lowercase};
use crate::files::{file_kind, kind_of, FileKind};
use crate::order::{
    is_ranking, law_sort_keeps_items, lemma_stable_sort_exists, not_after, stable_sort, stable_sort_of,
    text_le, views,
};
use crate::order::{lemma_text_le_reflexive, lemma_text_le_total, lemma_text_le_transitive};
use crate::rename::{in_lower_case, with_lower, CasedName};
use crate::text::{chars_of, concat2, concat3, concat4, starts_with, texts, trim, trimmed};
use vstd::prelude::*;

verus! {

// ---------------------------------------------------------------------------
// Packing
// ---------------------------------------------------------------------------

/// A step of packing.
#[derive(Debug, PartialEq, Eq)]
pub enum ZipStep {
    /// Log a message.
    Log(String),
    /// Create the zip file of that name.
    Create(String),
    /// Add a directory of that name to the zip file.
    AddDirectory(String),
    /// Begin the entry of the first name in the zip file, for the file of the second.
    BeginEntry(String, String),
    /// Open the file of that name.
    OpenFile(String),
    /// Copy the opened file, of that name, into the entry.
    CopyFile(String),
    /// Finish the zip file.
    Finish,
    /// Log the path of the zip file, after the text.
    LogZip(String),
    /// Give up with a message.
    Fail(String),
}

/// The mathematical content of a `ZipStep`.
pub enum ZipStepModel {
    Log(Seq<char>),
    Create(Seq<char>),
    AddDirectory(Seq<char>),
    BeginEntry(Seq<char>, Seq<char>),
    OpenFile(Seq<char>),
    CopyFile(Seq<char>),
    Finish,
    LogZip(Seq<char>),
    Fail(Seq<char>),
}

impl View for ZipStep {
    type V = ZipStepModel;

    open spec fn view(&self) -> ZipStepModel {
        match self {
            ZipStep::Log(msg) => ZipStepModel::Log(msg@),
            ZipStep::Create(name) => ZipStepModel::Create(name@),
            ZipStep::AddDirectory(name) => ZipStepModel::AddDirectory(name@),
            ZipStep::BeginEntry(entry, name) => ZipStepModel::BeginEntry(entry@, name@),
            ZipStep::OpenFile(name) => ZipStepModel::OpenFile(name@),
            ZipStep::CopyFile(name) => ZipStepModel::CopyFile(name@),
            ZipStep::Finish => ZipStepModel::Finish,
            ZipStep::LogZip(before) => ZipStepModel::LogZip(before@),
            ZipStep::Fail(msg) => ZipStepModel::Fail(msg@),
        }
    }
}

/// A file belongs to a rip: it is of one of the kinds of a rip, and its name starts as the title
/// does. Both are given in lower case.
pub open spec fn belongs(file: (Seq<char>, Seq<char>), base_lower: Seq<char>) -> bool {
    kind_of(file.0) != FileKind::Other && base_lower.is_prefix_of(file.1)
}

/// The names of the files that belong to a rip, in order.
pub open spec fn members(
    files: Seq<(Seq<char>, Seq<char>)>,
    base_lower: Seq<char>,
) -> Seq<Seq<char>> {
    stable_sort_of(
        files.filter(|f: (Seq<char>, Seq<char>)| belongs(f, base_lower)).map_values(
            |f: (Seq<char>, Seq<char>)| f.0,
        ),
        |a: Seq<char>, b: Seq<char>| text_le(a, b),
    )
}

/// The steps for one file.
pub open spec fn member_steps(base: Seq<char>, name: Seq<char>) -> Seq<ZipStepModel> {
    seq![
        ZipStepModel::Log("  adding "@ + name),
        ZipStepModel::BeginEntry(base + "/"@ + name, name),
        ZipStepModel::OpenFile(name),
        ZipStepModel::CopyFile(name),
    ]
}

/// The steps of packing before the first file.
pub open spec fn opening_steps(base: Seq<char>) -> Seq<ZipStepModel> {
    seq![
        ZipStepModel::Log("Creating "@ + base + ".zip …"@),
        ZipStepModel::Create(base + ".zip"@),
        ZipStepModel::AddDirectory(base + "/"@),
    ]
}

/// The steps of packing the files of those names.
pub open spec fn zip_steps(base: Seq<char>, names: Seq<Seq<char>>) -> Seq<ZipStepModel> {
    opening_steps(base) + names.map_values(|n: Seq<char>| member_steps(base, n)).flatten() + seq![
        ZipStepModel::Finish,
        ZipStepModel::LogZip("ZIP created: "@),
    ]
}

fn name_not_after(a: &String, b: &String) -> (r: bool)
    ensures
        r == text_le(a@, b@),
{
    let ca = chars_of(a.as_str());
    let cb = chars_of(b.as_str());
    not_after(ca.as_slice(), cb.as_slice())
}

/// The order of names is a ranking.
pub proof fn lemma_name_ranking()
    ensures
        is_ranking(|a: Seq<char>, b: Seq<char>| text_le(a, b)),
{
    let le = |a: Seq<char>, b: Seq<char>| text_le(a, b);
    assert forall|a: Seq<char>| #[trigger] le(a, a) by {
        lemma_text_le_reflexive(a);
    }
    assert forall|a: Seq<char>, b: Seq<char>| #[trigger] le(a, b) || le(b, a) by {
        lemma_text_le_total(a, b);
    }
    assert forall|a: Seq<char>, b: Seq<char>, c: Seq<char>| #[trigger] le(a, b) && #[trigger] le(
        b,
        c,
    ) implies le(a, c) by {
        lemma_text_le_transitive(a, b, c);
    }
}

/// Lists the files that belong to a rip, given their names and the title in lower case.
pub fn members_of(files: &Vec<CasedName>, base_lower: &str) -> (r: Vec<String>)
    ensures
        texts(r@) == members(views(files@), base_lower@),
{
    let ghost all = views(files@);
    let ghost pred = |f: (Seq<char>, Seq<char>)| belongs(f, base_lower@);
    let ghost first = |f: (Seq<char>, Seq<char>)| f.0;
    let mut names: Vec<String> = Vec::new();
    assert(all.take(0).filter(pred) =~= seq![]) by {
        reveal(Seq::filter);
    }
    assert(texts(names@) =~= all.take(0).filter(pred).map_values(first));
    for i in 0..files.len()
        invariant
            all == views(files@),
            pred == (|f: (Seq<char>, Seq<char>)| belongs(f, base_lower@)),
            first == (|f: (Seq<char>, Seq<char>)| f.0),
            texts(names@) == all.take(i as int).filter(pred).map_values(first),
    {
        let file = &files[i];
        let ghost kept = all.take(i as int).filter(pred);
        let ghost before = texts(names@);
        proof {
            let next = all.take(i + 1);
            assert(next.drop_last() =~= all.take(i as int));
            assert(next.last() == file@);
            reveal(Seq::filter);
        }
        if file_kind(file.name.as_str()) != FileKind::Other && starts_with(
            chars_of(file.lower.as_str()).as_slice(),
            base_lower,
        ) {
            let name = file.name.clone();
            assert(texts(names@.push(name)) =~= before.push(name@));
            assert(kept.push(file@).map_values(first) =~= kept.map_values(first).push(name@));
            names.push(name);
        }
    }
    assert(all.take(all.len() as int) =~= all);
    proof {
        lemma_name_ranking();
        assert(views(names@) =~= texts(names@));
    }
    let r = stable_sort(names, name_not_after, Ghost(|a: Seq<char>, b: Seq<char>| text_le(a, b)));
    assert(views(r@) =~= texts(r@));
    r
}

/// Plans the packing of the files of those names.
pub fn pack_members(base_name: &str, names: &Vec<String>) -> (steps: Vec<ZipStep>)
    ensures
        views(steps@) == zip_steps(base_name@, texts(names@)),
{
    let ghost all = texts(names@).map_values(|n: Seq<char>| member_steps(base_name@, n));
    let mut steps = open_zip(base_name);
    assert(all.take(0).flatten() =~= seq![]);
    assert(views(steps@) =~= opening_steps(base_name@) + all.take(0).flatten());
    for i in 0..names.len()
        invariant
            all == texts(names@).map_values(|n: Seq<char>| member_steps(base_name@, n)),
            views(steps@) == opening_steps(base_name@) + all.take(i as int).flatten(),
    {
        let name = &names[i];
        let ghost before = views(steps@);
        proof {
            assert(texts(names@)[i as int] == name@);
            assert(all.take(i + 1) =~= all.take(i as int).push(all[i as int]));
            all.take(i as int).lemma_flatten_push(all[i as int]);
        }
        steps.push(ZipStep::Log(concat2("  adding ", name.as_str())));
        steps.push(ZipStep::BeginEntry(concat3(base_name, "/", name.as_str()), name.clone()));
        steps.push(ZipStep::OpenFile(name.clone()));
        steps.push(ZipStep::CopyFile(name.clone()));
        assert(views(steps@) =~= before + member_steps(base_name@, name@));
        assert(views(steps@) =~= opening_steps(base_name@) + all.take(i + 1).flatten());
    }
    assert(all.take(all.len() as int) =~= all);
    steps.push(ZipStep::Finish);
    steps.push(ZipStep::LogZip("ZIP created: ".to_owned()));
    assert(views(steps@) =~= zip_steps(base_name@, texts(names@)));
    steps
}

/// The steps of packing before the first file.
fn open_zip(base_name: &str) -> (steps: Vec<ZipStep>)
    ensures
        views(steps@) == opening_steps(base_name@),
{
    let mut steps: Vec<ZipStep> = Vec::new();
    steps.push(ZipStep::Log(concat3("Creating ", base_name, ".zip …")));
    steps.push(ZipStep::Create(concat2(base_name, ".zip")));
    steps.push(ZipStep::AddDirectory(concat2(base_name, "/")));
    assert(views(steps@) =~= opening_steps(base_name@));
    steps
}

/// Plans the packing of the files of a folder that belong to a rip. `listing` is what listing the
/// names of its files gave; where that failed, packing fails once the zip file has been begun.
pub fn create_zip_blocking(listing: &Result<Vec<String>, String>, base_name: &str) -> (steps: Vec<
    ZipStep,
>)
    ensures
        views(steps@) == (match listing {
            Ok(names) => zip_steps(
                base_name@,
                members(with_lower(texts(names@)), lower_text(base_name@)),
            ),
            Err(e) => opening_steps(base_name@).push(
                ZipStepModel::Fail("Cannot read folder: "@ + e@),
            ),
        }),
{
    match listing {
        Ok(names) => {
            let base_lower = to_lowercase(base_name);
            let files = in_lower_case(names);
            let list = members_of(&files, base_lower.as_str());
            pack_members(base_name, &list)
        },
        Err(e) => {
            let mut steps = open_zip(base_name);
            let ghost before = views(steps@);
            steps.push(ZipStep::Fail(concat2("Cannot read folder: ", e.as_str())));
            assert(views(steps@) =~= before.push(
                ZipStepModel::Fail("Cannot read folder: "@ + e@),
            ));
            steps
        },
    }
}

/// Plans the packing of a folder for a title that the user gave.
pub fn create_zip(listing: &Result<Vec<String>, String>, base_name: &str) -> (steps: Vec<ZipStep>)
    ensures
        views(steps@) == (match listing {
            Ok(names) => zip_steps(
                trim(base_name@),
                members(with_lower(texts(names@)), lower_text(trim(base_name@))),
            ),
            Err(e) => opening_steps(trim(base_name@)).push(
                ZipStepModel::Fail("Cannot read folder: "@ + e@),
            ),
        }),
{
    let base = trimmed(base_name);
    create_zip_blocking(listing, base.as_str())
}

/// The folder that the zip file goes to: the one that was asked for, or that of the rip.
pub fn zip_folder<'a>(folder: &'a str, output_folder: Option<&'a str>) -> (r: &'a str)
    ensures
        r@ == (match output_folder {
            Some(output) => output@,
            None => folder@,
        }),
{
    match output_folder {
        Some(output) => output,
        None => folder,
    }
}

/// The error of packing whose step failed for the reason `e`. A step that only logs cannot fail;
/// the reason stands for itself there.
pub fn zip_failure(step: &ZipStep, e: &str) -> (msg: String)
    ensures
        msg@ == (match step@ {
            ZipStepModel::Create(_) => "Cannot create zip file: "@ + e@,
            ZipStepModel::AddDirectory(_) => "Cannot add directory entry to zip: "@ + e@,
            ZipStepModel::BeginEntry(_, name) => "Cannot add "@ + name + " to zip: "@ + e@,
            ZipStepModel::OpenFile(name) => "Cannot open "@ + name + ": "@ + e@,
            ZipStepModel::CopyFile(name) => "Cannot write "@ + name + " into zip: "@ + e@,
            ZipStepModel::Finish => "Cannot finalize zip: "@ + e@,
            _ => e@,
        }),
{
    match step {
        ZipStep::Create(_) => concat2("Cannot create zip file: ", e),
        ZipStep::AddDirectory(_) => concat2("Cannot add directory entry to zip: ", e),
        ZipStep::BeginEntry(_, name) => concat4("Cannot add ", name.as_str(), " to zip: ", e),
        ZipStep::OpenFile(name) => concat4("Cannot open ", name.as_str(), ": ", e),
        ZipStep::CopyFile(name) => concat4("Cannot write ", name.as_str(), " into zip: ", e),
        ZipStep::Finish => concat2("Cannot finalize zip: ", e),
        _ => e.to_owned(),
    }
}

// ---------------------------------------------------------------------------
// Sending
// ---------------------------------------------------------------------------

/// A step of sending. The commands are calls of the `ia` tool with those arguments.
#[derive(Debug, PartialEq, Eq)]
pub enum UploadStep {
    /// Log a message.
    Log(String),
    /// Find out whether the tool is there.
    Probe(Vec<String>),
    /// Let the tool store the credentials.
    Configure(Vec<String>),
    /// Let the tool send the file.
    Upload(Vec<String>),
}

/// The mathematical content of an `UploadStep`.
pub enum UploadStepModel {
    Log(Seq<char>),
    Probe(Seq<Seq<char>>),
    Configure(Seq<Seq<char>>),
    Upload(Seq<Seq<char>>),
}

impl View for UploadStep {
    type V = UploadStepModel;

    open spec fn view(&self) -> UploadStepModel {
        match self {
            UploadStep::Log(msg) => UploadStepModel::Log(msg@),
            UploadStep::Probe(args) => UploadStepModel::Probe(texts(args@)),
            UploadStep::Configure(args) => UploadStepModel::Configure(texts(args@)),
            UploadStep::Upload(args) => UploadStepModel::Upload(texts(args@)),
        }
    }
}

/// How a command ended.
#[derive(Debug, PartialEq, Eq)]
pub enum CommandOutcome {
    /// It could not be started, for that reason.
    NotStarted(String),
    /// It was started, but its end could not be waited for, for that reason.
    NotEnded(String),
    /// It ended, with success or without, and wrote that to its error output.
    Ended(bool, String),
}

/// The steps of sending the file `zip_path`.
pub open spec fn upload_steps(
    zip_path: Seq<char>,
    id: Seq<char>,
    username: Seq<char>,
    password: Seq<char>,
) -> Seq<UploadStepModel> {
    seq![
        UploadStepModel::Probe(seq!["--version"@]),
        UploadStepModel::Log("Configuring archive.org credentials…"@),
        UploadStepModel::Configure(
            seq!["configure"@, "--username="@ + username, "--password="@ + password],
        ),
        UploadStepModel::Log("Uploading '"@ + id + "' to archive.org…"@),
        UploadStepModel::Log("  identifier : "@ + id),
        UploadStepModel::Log("  file       : "@ + zip_path),
        UploadStepModel::Upload(
            seq![
                "upload"@,
                id,
                zip_path,
                "--metadata=mediatype:audio"@,
                "--metadata=subject:CD+G"@,
                "--checksum"@,
                "--retries=10"@,
            ],
        ),
        UploadStepModel::Log("Upload complete!  https://archive.org/details/"@ + id),
    ]
}

/// Plans the sending of a zip file.
pub fn upload_blocking(zip_path: &str, identifier: &str, username: &str, password: &str) -> (steps:
    Vec<UploadStep>)
    ensures
        views(steps@) == upload_steps(zip_path@, identifier@, username@, password@),
{
    let mut probe: Vec<String> = Vec::new();
    probe.push("--version".to_owned());
    let mut configure: Vec<String> = Vec::new();
    configure.push("configure".to_owned());
    configure.push(concat2("--username=", username));
    configure.push(concat2("--password=", password));
    let mut upload: Vec<String> = Vec::new();
    upload.push("upload".to_owned());
    upload.push(identifier.to_owned());
    upload.push(zip_path.to_owned());
    upload.push("--metadata=mediatype:audio".to_owned());
    upload.push("--metadata=subject:CD+G".to_owned());
    upload.push("--checksum".to_owned());
    upload.push("--retries=10".to_owned());
    proof {
        assert(texts(probe@) =~= seq!["--version"@]);
        assert(texts(configure@) =~= seq![
            "configure"@,
            "--username="@ + username@,
            "--password="@ + password@,
        ]);
        assert(texts(upload@) =~= seq![
            "upload"@,
            identifier@,
            zip_path@,
            "--metadata=mediatype:audio"@,
            "--metadata=subject:CD+G"@,
            "--checksum"@,
            "--retries=10"@,
        ]);
    }
    let mut steps: Vec<UploadStep> = Vec::new();
    steps.push(UploadStep::Probe(probe));
    steps.push(UploadStep::Log("Configuring archive.org credentials…".to_owned()));
    steps.push(UploadStep::Configure(configure));
    steps.push(UploadStep::Log(concat3("Uploading '", identifier, "' to archive.org…")));
    steps.push(UploadStep::Log(concat2("  identifier : ", identifier)));
    steps.push(UploadStep::Log(concat2("  file       : ", zip_path)));
    steps.push(UploadStep::Upload(upload));
    steps.push(
        UploadStep::Log(concat2("Upload complete!  https://archive.org/details/", identifier)),
    );
    assert(views(steps@) =~= upload_steps(zip_path@, identifier@, username@, password@));
    steps
}

/// Why sending stops after a step whose command ended like that, if it does. The end of the probe
/// is of no interest once the tool has been started.
pub open spec fn upload_error(step: UploadStepModel, outcome: CommandOutcome) -> Option<
    Seq<char>,
> {
    match (step, outcome) {
        (UploadStepModel::Probe(_), CommandOutcome::NotStarted(_))
        | (UploadStepModel::Probe(_), CommandOutcome::NotEnded(_)) => Some(
            "The 'ia' CLI is not installed.\nInstall it with:  pip install internetarchive"@,
        ),
        (UploadStepModel::Configure(_), CommandOutcome::NotStarted(e))
        | (UploadStepModel::Configure(_), CommandOutcome::NotEnded(e))
        | (UploadStepModel::Configure(_), CommandOutcome::Ended(false, e)) => Some(
            "ia configure failed: "@ + e@,
        ),
        (UploadStepModel::Upload(_), CommandOutcome::NotStarted(e)) => Some(
            "Failed to spawn ia upload: "@ + e@,
        ),
        (UploadStepModel::Upload(_), CommandOutcome::NotEnded(e)) => Some(
            "ia wait failed: "@ + e@,
        ),
        (UploadStepModel::Upload(_), CommandOutcome::Ended(false, _)) => Some(
            "Upload failed — see log for details"@,
        ),
        _ => None,
    }
}

/// Tells whether sending goes on after a step whose command ended like that.
pub fn after_command(step: &UploadStep, outcome: &CommandOutcome) -> (r: Result<(), String>)
    ensures
        match r {
            Ok(_) => upload_error(step@, *outcome) is None,
            Err(msg) => upload_error(step@, *outcome) == Some(msg@),
        },
{
    match (step, outcome) {
        (UploadStep::Probe(_), CommandOutcome::NotStarted(_))
        | (UploadStep::Probe(_), CommandOutcome::NotEnded(_)) => Err(
            "The 'ia' CLI is not installed.\nInstall it with:  pip install internetarchive".to_owned(),
        ),
        (UploadStep::Configure(_), CommandOutcome::NotStarted(e))
        | (UploadStep::Configure(_), CommandOutcome::NotEnded(e))
        | (UploadStep::Configure(_), CommandOutcome::Ended(false, e)) => Err(
            concat2("ia configure failed: ", e.as_str()),
        ),
        (UploadStep::Upload(_), CommandOutcome::NotStarted(e)) => Err(
            concat2("Failed to spawn ia upload: ", e.as_str()),
        ),
        (UploadStep::Upload(_), CommandOutcome::NotEnded(e)) => Err(
            concat2("ia wait failed: ", e.as_str()),
        ),
        (UploadStep::Upload(_), CommandOutcome::Ended(false, _)) => Err(
            "Upload failed — see log for details".to_owned(),
        ),
        _ => Ok(()),
    }
}

/// The log message for a line that the tool wrote to its error output.
pub fn error_line(line: &str) -> (msg: String)
    ensures
        msg@ == "[stderr] "@ + line@,
{
    concat2("[stderr] ", line)
}

// ---------------------------------------------------------------------------
// Laws
// ---------------------------------------------------------------------------

/// A file is packed exactly where it belongs to the rip.
pub proof fn law_members_belong(
    files: Seq<(Seq<char>, Seq<char>)>,
    base_lower: Seq<char>,
    name: Seq<char>,
)
    ensures
        members(files, base_lower).contains(name) == exists|k: int|
            0 <= k < files.len() && belongs(#[trigger] files[k], base_lower) && files[k].0 == name,
{
    let pred = |f: (Seq<char>, Seq<char>)| belongs(f, base_lower);
    let first = |f: (Seq<char>, Seq<char>)| f.0;
    let kept = files.filter(pred);
    let names = kept.map_values(first);
    lemma_name_ranking();
    law_sort_keeps_items(names, |a: Seq<char>, b: Seq<char>| text_le(a, b), name);
    if names.contains(name) {
        let i = choose|i: int| 0 <= i < names.len() && names[i] == name;
        assert(kept.contains(kept[i]));
        files.lemma_filter_contains_rev(pred, kept[i]);
        files.lemma_filter_pred(pred, i);
        let k = choose|k: int| 0 <= k < files.len() && files[k] == kept[i];
        assert(belongs(files[k], base_lower) && files[k].0 == name);
    }
    if exists|k: int|
        0 <= k < files.len() && belongs(#[trigger] files[k], base_lower) && files[k].0 == name {
        let k = choose|k: int|
            0 <= k < files.len() && belongs(#[trigger] files[k], base_lower) && files[k].0 == name;
        files.lemma_filter_contains(pred, k);
        let i = choose|i: int| 0 <= i < kept.len() && kept[i] == files[k];
        assert(names[i] == name);
    }
}

/// The files of a rip are packed in the order of their names.
pub proof fn law_members_are_in_order(
    files: Seq<(Seq<char>, Seq<char>)>,
    base_lower: Seq<char>,
    i: int,
    j: int,
)
    requires
        0 <= i < j < members(files, base_lower).len(),
    ensures
        text_le(members(files, base_lower)[i], members(files, base_lower)[j]),
{
    let le = |a: Seq<char>, b: Seq<char>| text_le(a, b);
    let names = files.filter(|f: (Seq<char>, Seq<char>)| belongs(f, base_lower)).map_values(
        |f: (Seq<char>, Seq<char>)| f.0,
    );
    lemma_name_ranking();
    lemma_stable_sort_exists(names, le);
    assert(le(members(files, base_lower)[i], members(files, base_lower)[j]));
}

/// Where the steps for the files stand.
pub proof fn lemma_member_steps(base: Seq<char>, names: Seq<Seq<char>>)
    ensures
        ({
            let all = names.map_values(|n: Seq<char>| member_steps(base, n)).flatten();
            &&& all.len() == 4 * names.len()
            &&& forall|k: int, j: int|
                #![trigger names[k], all[4 * k + j]]
                0 <= k < names.len() && 0 <= j < 4 ==> all[4 * k + j] == member_steps(
                    base,
                    names[k],
                )[j]
        }),
    decreases names.len(),
{
    let steps = |n: Seq<char>| member_steps(base, n);
    let all = names.map_values(steps).flatten();
    if names.len() == 0 {
        assert(names.map_values(steps) =~= seq![]);
    } else {
        let rest = names.drop_last();
        let last = names.last();
        lemma_member_steps(base, rest);
        let before = rest.map_values(steps);
        assert(names.map_values(steps) =~= before.push(steps(last)));
        before.lemma_flatten_push(steps(last));
        assert(all =~= before.flatten() + steps(last));
        assert forall|k: int, j: int|
            #![trigger names[k], all[4 * k + j]]
            0 <= k < names.len() && 0 <= j < 4 implies all[4 * k + j] == member_steps(
            base,
            names[k],
        )[j] by {
            if k < rest.len() {
                assert(rest[k] == names[k]);
                assert(before.flatten()[4 * k + j] == member_steps(base, rest[k])[j]);
            }
        }
    }
}

/// Every packed file gets one entry, in a directory that is named after the title, in the order of
/// the list, and nothing else gets one.
pub proof fn law_entries_lie_under_title(base: Seq<char>, names: Seq<Seq<char>>)
    ensures
        zip_steps(base, names).len() == 4 * names.len() + 5,
        forall|k: int|
            0 <= k < names.len() ==> zip_steps(base, names)[4 * k + 4] == ZipStepModel::BeginEntry(
                base + "/"@ + #[trigger] names[k],
                names[k],
            ),
        forall|i: int|
            0 <= i < zip_steps(base, names).len() && (#[trigger] zip_steps(base, names)[i])
                is BeginEntry ==> i % 4 == 0 && 4 <= i < 4 * names.len() + 4,
{
    let steps = zip_steps(base, names);
    let middle = names.map_values(|n: Seq<char>| member_steps(base, n)).flatten();
    lemma_member_steps(base, names);
    assert forall|k: int| 0 <= k < names.len() implies steps[4 * k + 4] == ZipStepModel::BeginEntry(
        base + "/"@ + #[trigger] names[k],
        names[k],
    ) by {
        assert(steps[4 * k + 4] == middle[4 * k + 1]);
    }
    assert forall|i: int|
        0 <= i < steps.len() && (#[trigger] steps[i]) is BeginEntry implies i % 4 == 0 && 4 <= i < 4
        * names.len() + 4 by {
        assert(3 <= i < 3 + middle.len());
        let k = (i - 3) / 4;
        let j = (i - 3) % 4;
        assert(0 <= k < names.len());
        assert(middle[4 * k + j] == member_steps(base, names[k])[j]);
        assert(steps[i] == middle[4 * k + j]);
    }
}

/// What is logged while sending does not depend on the credentials.
pub proof fn law_log_is_free_of_credentials(
    zip_path: Seq<char>,
    id: Seq<char>,
    username: Seq<char>,
    password: Seq<char>,
    other_username: Seq<char>,
    other_password: Seq<char>,
    i: int,
)
    requires
        0 <= i < upload_steps(zip_path, id, username, password).len(),
        upload_steps(zip_path, id, username, password)[i] is Log,
    ensures
        upload_steps(zip_path, id, other_username, other_password)[i] == upload_steps(
            zip_path,
            id,
            username,
            password,
        )[i],
{
}

} // verus!
