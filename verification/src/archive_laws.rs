//! What holds of all packing and sending: which files go into a zip file, what its entries hold,
//! and which commands are run.

use crate::archive::{
    belongs, law_members_belong, lemma_member_steps, lemma_name_ranking, member_steps, members,
    opening_steps, upload_error, upload_steps, zip_steps,
};
use crate::archive::{CommandOutcome, UploadStepModel, ZipStepModel};
use crate::casing::lower_text;
use crate::files::{kind_of, FileKind};
use crate::order::{law_sort_keeps_items, text_le};
use crate::rename::with_lower;
use vstd::prelude::*;

verus! {

/// A file of a folder is packed exactly where it is a `bin`, `cue` or `cdg` file and its name
/// starts with the title, both in lower case.
pub proof fn law_what_is_packed(names: Seq<Seq<char>>, base: Seq<char>, name: Seq<char>)
    ensures
        members(with_lower(names), lower_text(base)).contains(name) <==> {
            &&& names.contains(name)
            &&& kind_of(name) == FileKind::Bin || kind_of(name) == FileKind::Cue || kind_of(name)
                == FileKind::Cdg
            &&& lower_text(base).is_prefix_of(lower_text(name))
        },
{
    let files = with_lower(names);
    law_members_belong(files, lower_text(base), name);
    if names.contains(name) && belongs((name, lower_text(name)), lower_text(base)) {
        let k = choose|k: int| 0 <= k < names.len() && names[k] == name;
        assert(files[k] == (name, lower_text(name)));
    }
    if members(files, lower_text(base)).contains(name) {
        let k = choose|k: int|
            0 <= k < files.len() && belongs(#[trigger] files[k], lower_text(base)) && files[k].0
                == name;
        assert(names[k] == name);
    }
}

/// One file more in the folder is packed once, and changes nothing else, where it is packed at all.
pub proof fn law_files_are_packed_once(names: Seq<Seq<char>>, base: Seq<char>, name: Seq<char>)
    ensures
        members(with_lower(Seq::empty()), lower_text(base)).len() == 0,
        members(with_lower(names.push(name)), lower_text(base)).len() == members(
            with_lower(names),
            lower_text(base),
        ).len() + (if kind_of(name) != FileKind::Other && lower_text(base).is_prefix_of(
            lower_text(name),
        ) {
            1int
        } else {
            0
        }),
{
    reveal(Seq::filter);
    let le = |a: Seq<char>, b: Seq<char>| text_le(a, b);
    let pred = |f: (Seq<char>, Seq<char>)| belongs(f, lower_text(base));
    let first = |f: (Seq<char>, Seq<char>)| f.0;
    let none = with_lower(Seq::empty());
    let less = with_lower(names);
    let more = with_lower(names.push(name));
    lemma_name_ranking();
    assert(none =~= seq![]);
    assert(none.filter(pred) =~= seq![]);
    law_sort_keeps_items(none.filter(pred).map_values(first), le, name);
    law_sort_keeps_items(less.filter(pred).map_values(first), le, name);
    law_sort_keeps_items(more.filter(pred).map_values(first), le, name);
    assert(more.drop_last() =~= less);
    assert(more.last() == (name, lower_text(name)));
    assert(more.filter(pred).len() == less.filter(pred).len() + if pred(more.last()) {
        1int
    } else {
        0
    });
}

/// The steps of packing. The zip file is created, with a directory that is named after the title;
/// for each file in turn its entry is begun, and that file itself is opened and copied; then the
/// zip file is finished.
pub proof fn law_steps_of_packing(base: Seq<char>, names: Seq<Seq<char>>)
    ensures
        ({
            let steps = zip_steps(base, names);
            let n = names.len() as int;
            &&& steps.len() == 4 * n + 5
            &&& steps[0] == ZipStepModel::Log("Creating "@ + base + ".zip …"@)
            &&& steps[1] == ZipStepModel::Create(base + ".zip"@)
            &&& steps[2] == ZipStepModel::AddDirectory(base + "/"@)
            &&& forall|k: int|
                0 <= k < n ==> {
                    &&& steps[4 * k + 3] == ZipStepModel::Log("  adding "@ + #[trigger] names[k])
                    &&& steps[4 * k + 4] == ZipStepModel::BeginEntry(
                        base + "/"@ + names[k],
                        names[k],
                    )
                    &&& steps[4 * k + 5] == ZipStepModel::OpenFile(names[k])
                    &&& steps[4 * k + 6] == ZipStepModel::CopyFile(names[k])
                }
            &&& steps[4 * n + 3] == ZipStepModel::Finish
            &&& steps[4 * n + 4] == ZipStepModel::LogZip("ZIP created: "@)
        }),
{
    let steps = zip_steps(base, names);
    let n = names.len() as int;
    let middle = names.map_values(|m: Seq<char>| member_steps(base, m)).flatten();
    lemma_member_steps(base, names);
    assert(middle.len() == 4 * n);
    assert forall|k: int| 0 <= k < n implies ({
        &&& steps[4 * k + 3] == ZipStepModel::Log("  adding "@ + #[trigger] names[k])
        &&& steps[4 * k + 4] == ZipStepModel::BeginEntry(base + "/"@ + names[k], names[k])
        &&& steps[4 * k + 5] == ZipStepModel::OpenFile(names[k])
        &&& steps[4 * k + 6] == ZipStepModel::CopyFile(names[k])
    }) by {
        assert(steps[4 * k + 3] == middle[4 * k + 0]);
        assert(steps[4 * k + 4] == middle[4 * k + 1]);
        assert(steps[4 * k + 5] == middle[4 * k + 2]);
        assert(steps[4 * k + 6] == middle[4 * k + 3]);
    }
}

/// What has been packed when steps were carried out on a folder: the entries with what they hold,
/// and the contents of the file that was opened last. `folder` gives the contents of the files.
pub open spec fn packed(
    steps: Seq<ZipStepModel>,
    folder: spec_fn(Seq<char>) -> Seq<u8>,
) -> (Seq<(Seq<char>, Seq<u8>)>, Seq<u8>)
    decreases steps.len(),
{
    if steps.len() == 0 {
        (seq![], seq![])
    } else {
        let (entries, opened) = packed(steps.drop_last(), folder);
        match steps.last() {
            ZipStepModel::BeginEntry(entry, _) => (entries.push((entry, seq![])), opened),
            ZipStepModel::OpenFile(name) => (entries, folder(name)),
            ZipStepModel::CopyFile(_) => (
                entries.drop_last().push((entries.last().0, entries.last().1 + opened)),
                opened,
            ),
            _ => (entries, opened),
        }
    }
}

proof fn lemma_packed_step(
    steps: Seq<ZipStepModel>,
    step: ZipStepModel,
    folder: spec_fn(Seq<char>) -> Seq<u8>,
)
    ensures
        packed(steps.push(step), folder) == ({
            let (entries, opened) = packed(steps, folder);
            match step {
                ZipStepModel::BeginEntry(entry, _) => (entries.push((entry, seq![])), opened),
                ZipStepModel::OpenFile(name) => (entries, folder(name)),
                ZipStepModel::CopyFile(_) => (
                    entries.drop_last().push((entries.last().0, entries.last().1 + opened)),
                    opened,
                ),
                _ => (entries, opened),
            }
        }),
{
    assert(steps.push(step).drop_last() =~= steps);
    assert(steps.push(step).last() == step);
}

proof fn lemma_packed_member(
    steps: Seq<ZipStepModel>,
    base: Seq<char>,
    name: Seq<char>,
    folder: spec_fn(Seq<char>) -> Seq<u8>,
)
    ensures
        packed(steps + member_steps(base, name), folder).0 == packed(steps, folder).0.push(
            (base + "/"@ + name, folder(name)),
        ),
{
    let m = member_steps(base, name);
    let a = steps.push(m[0]);
    let b = a.push(m[1]);
    let c = b.push(m[2]);
    let d = c.push(m[3]);
    lemma_packed_step(steps, m[0], folder);
    lemma_packed_step(a, m[1], folder);
    lemma_packed_step(b, m[2], folder);
    lemma_packed_step(c, m[3], folder);
    assert(steps + m =~= d);
    let entries = packed(steps, folder).0;
    let entry = base + "/"@ + name;
    assert(packed(c, folder).0.last() == (entry, Seq::<u8>::empty()));
    assert(packed(c, folder).0.drop_last() =~= entries);
    assert(Seq::<u8>::empty() + folder(name) =~= folder(name));
}

proof fn lemma_packed_members(
    base: Seq<char>,
    names: Seq<Seq<char>>,
    folder: spec_fn(Seq<char>) -> Seq<u8>,
)
    ensures
        packed(
            opening_steps(base) + names.map_values(
                |m: Seq<char>| member_steps(base, m),
            ).flatten(),
            folder,
        ).0 == names.map_values(|m: Seq<char>| (base + "/"@ + m, folder(m))),
    decreases names.len(),
{
    let one = |m: Seq<char>| member_steps(base, m);
    let entry = |m: Seq<char>| (base + "/"@ + m, folder(m));
    let open = opening_steps(base);
    if names.len() == 0 {
        assert(names.map_values(one) =~= seq![]);
        assert(open + names.map_values(one).flatten() =~= open);
        let none = Seq::<ZipStepModel>::empty();
        let a = none.push(open[0]);
        let b = a.push(open[1]);
        lemma_packed_step(none, open[0], folder);
        lemma_packed_step(a, open[1], folder);
        lemma_packed_step(b, open[2], folder);
        assert(b.push(open[2]) =~= open);
        assert(names.map_values(entry) =~= seq![]);
    } else {
        let rest = names.drop_last();
        let last = names.last();
        let before = rest.map_values(one);
        lemma_packed_members(base, rest, folder);
        assert(names.map_values(one) =~= before.push(one(last)));
        before.lemma_flatten_push(one(last));
        assert(open + names.map_values(one).flatten() =~= (open + before.flatten()) + one(last));
        lemma_packed_member(open + before.flatten(), base, last, folder);
        assert(names.map_values(entry) =~= rest.map_values(entry).push(entry(last)));
    }
}

/// Packing puts into the entry of each file, which lies under the title, the contents of that file,
/// whatever the files hold; there are no other entries.
pub proof fn law_entries_hold_their_files(
    base: Seq<char>,
    names: Seq<Seq<char>>,
    folder: spec_fn(Seq<char>) -> Seq<u8>,
)
    ensures
        packed(zip_steps(base, names), folder).0 == names.map_values(
            |m: Seq<char>| (base + "/"@ + m, folder(m)),
        ),
{
    let steps = opening_steps(base) + names.map_values(
        |m: Seq<char>| member_steps(base, m),
    ).flatten();
    let end = seq![ZipStepModel::Finish, ZipStepModel::LogZip("ZIP created: "@)];
    lemma_packed_members(base, names, folder);
    lemma_packed_step(steps, end[0], folder);
    lemma_packed_step(steps.push(end[0]), end[1], folder);
    assert(zip_steps(base, names) =~= steps.push(end[0]).push(end[1]));
}

/// Packing that cannot list the folder has created the zip file before it fails.
pub proof fn law_opening_of_a_zip(base: Seq<char>)
    ensures
        opening_steps(base).len() == 3,
        opening_steps(base)[0] == ZipStepModel::Log("Creating "@ + base + ".zip …"@),
        opening_steps(base)[1] == ZipStepModel::Create(base + ".zip"@),
        opening_steps(base)[2] == ZipStepModel::AddDirectory(base + "/"@),
{
}

/// Sending asks for the tool, stores the credentials and sends the file, in this order; only
/// storing the credentials is told of them, and only sending is told of the file.
pub proof fn law_commands_of_sending(
    zip_path: Seq<char>,
    id: Seq<char>,
    username: Seq<char>,
    password: Seq<char>,
)
    ensures
        ({
            let steps = upload_steps(zip_path, id, username, password);
            &&& steps.len() == 8
            &&& steps[0] == UploadStepModel::Probe(seq!["--version"@])
            &&& steps[1] == UploadStepModel::Log("Configuring archive.org credentials…"@)
            &&& steps[2] matches UploadStepModel::Configure(args) && args.len() == 3 && args[0]
                == "configure"@ && args[1] == "--username="@ + username && args[2]
                == "--password="@ + password
            &&& steps[3] == UploadStepModel::Log("Uploading '"@ + id + "' to archive.org…"@)
            &&& steps[4] == UploadStepModel::Log("  identifier : "@ + id)
            &&& steps[5] == UploadStepModel::Log("  file       : "@ + zip_path)
            &&& steps[6] matches UploadStepModel::Upload(args) && args.len() == 7 && args[0]
                == "upload"@ && args[1] == id && args[2] == zip_path && args[3]
                == "--metadata=mediatype:audio"@ && args[4] == "--metadata=subject:CD+G"@ && args[5]
                == "--checksum"@ && args[6] == "--retries=10"@
            &&& steps[7] == UploadStepModel::Log(
                "Upload complete!  https://archive.org/details/"@ + id,
            )
        }),
{
}

/// A command that ends with success never stops the sending, and neither does a message. A probe
/// stops it only where the tool cannot be run; the other commands stop it wherever they do not end
/// with success.
pub proof fn law_when_sending_stops(args: Seq<Seq<char>>, message: Seq<char>, e: String, done: bool)
    ensures
        upload_error(UploadStepModel::Log(message), CommandOutcome::NotStarted(e)) is None,
        upload_error(UploadStepModel::Log(message), CommandOutcome::NotEnded(e)) is None,
        upload_error(UploadStepModel::Log(message), CommandOutcome::Ended(done, e)) is None,
        upload_error(UploadStepModel::Probe(args), CommandOutcome::Ended(done, e)) is None,
        upload_error(UploadStepModel::Probe(args), CommandOutcome::NotStarted(e)) == Some(
            "The 'ia' CLI is not installed.\nInstall it with:  pip install internetarchive"@,
        ),
        upload_error(UploadStepModel::Probe(args), CommandOutcome::NotEnded(e)) == Some(
            "The 'ia' CLI is not installed.\nInstall it with:  pip install internetarchive"@,
        ),
        upload_error(UploadStepModel::Configure(args), CommandOutcome::Ended(done, e)) == (if done {
            None
        } else {
            Some("ia configure failed: "@ + e@)
        }),
        upload_error(UploadStepModel::Configure(args), CommandOutcome::NotStarted(e)) == Some(
            "ia configure failed: "@ + e@,
        ),
        upload_error(UploadStepModel::Configure(args), CommandOutcome::NotEnded(e)) == Some(
            "ia configure failed: "@ + e@,
        ),
        upload_error(UploadStepModel::Upload(args), CommandOutcome::Ended(done, e)) == (if done {
            None
        } else {
            Some("Upload failed — see log for details"@)
        }),
        upload_error(UploadStepModel::Upload(args), CommandOutcome::NotStarted(e)) == Some(
            "Failed to spawn ia upload: "@ + e@,
        ),
        upload_error(UploadStepModel::Upload(args), CommandOutcome::NotEnded(e)) == Some(
            "ia wait failed: "@ + e@,
        ),
{
}

} // verus!
