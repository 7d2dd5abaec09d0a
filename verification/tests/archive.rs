use cdg_archive::archive::{
    after_command, create_zip, create_zip_blocking, error_line, members_of, pack_members,
    upload_blocking, zip_failure, zip_folder,
};
use cdg_archive::archive::{CommandOutcome, UploadStep, ZipStep};
use cdg_archive::rename::CasedName;

fn names(list: &[&str]) -> Vec<String> {
    list.iter().map(|s| s.to_string()).collect()
}

fn entries(steps: &[ZipStep]) -> Vec<String> {
    steps
        .iter()
        .filter_map(|s| match s {
            ZipStep::BeginEntry(entry, _) => Some(entry.clone()),
            _ => None,
        })
        .collect()
}

#[test]
fn packing_is_planned() {
    let s = |t: &str| t.to_string();
    assert_eq!(
        pack_members("B", &names(&["B.cue"])),
        vec![
            ZipStep::Log(s("Creating B.zip \u{2026}")),
            ZipStep::Create(s("B.zip")),
            ZipStep::AddDirectory(s("B/")),
            ZipStep::Log(s("  adding B.cue")),
            ZipStep::BeginEntry(s("B/B.cue"), s("B.cue")),
            ZipStep::OpenFile(s("B.cue")),
            ZipStep::CopyFile(s("B.cue")),
            ZipStep::Finish,
            ZipStep::LogZip(s("ZIP created: ")),
        ]
    );
    assert_eq!(pack_members("B", &vec![]).len(), 5);
}

#[test]
fn only_files_of_the_rip_are_packed() {
    let listing = Ok(names(&[
        "B (Track 2).bin", "B.txt", "other.bin", "b.CUE", "B (Track 1).bin", "B.cdg", "A B.bin", "B",
    ]));
    let steps = create_zip_blocking(&listing, "B");
    assert_eq!(
        entries(&steps),
        vec!["B/B (Track 1).bin", "B/B (Track 2).bin", "B/B.cdg", "B/b.CUE"]
    );
    assert_eq!(steps.len(), 4 * 4 + 5);
}

#[test]
fn the_title_is_compared_in_lower_case() {
    // The Kelvin sign has the letter k as its lower case.
    let listing = Ok(names(&["KARAOKE.bin", "\u{212a}araoke.cue", "\u{c9}t\u{e9}.bin"]));
    assert_eq!(
        entries(&create_zip_blocking(&listing, "karaoKe")),
        vec!["karaoKe/KARAOKE.bin", "karaoKe/\u{212a}araoke.cue"]
    );
    assert_eq!(
        entries(&create_zip_blocking(&listing, "\u{e9}T\u{c9}")),
        vec!["\u{e9}T\u{c9}/\u{c9}t\u{e9}.bin"]
    );
}

#[test]
fn an_empty_title_packs_every_file_of_a_rip() {
    let listing = Ok(names(&["b.bin", "a.cue", "c.txt"]));
    assert_eq!(entries(&create_zip(&listing, "  ")), vec!["/a.cue", "/b.bin"]);
}

#[test]
fn members_are_chosen_by_the_given_lower_case() {
    let cased = |name: &str, lower: &str| CasedName { name: name.to_string(), lower: lower.to_string() };
    let files = vec![cased("z.bin", "b1"), cased("y.bin", "B1"), cased("a.cue", "b"), cased("x.txt", "b")];
    assert_eq!(members_of(&files, "b"), names(&["a.cue", "z.bin"]));
    assert_eq!(members_of(&files, ""), names(&["a.cue", "y.bin", "z.bin"]));
}

#[test]
fn members_are_ordered_as_strings_are() {
    let list = names(&["b.bin", "a\u{e9}.bin", "a.bin", "aZ.bin", "a\u{1f600}.bin", "a\u{ffff}.bin", "A.bin", "aa.bin"]);
    let mut expected = list.clone();
    expected.sort();
    let files: Vec<CasedName> =
        list.iter().map(|n| CasedName { name: n.clone(), lower: n.clone() }).collect();
    assert_eq!(members_of(&files, ""), expected);
}

#[test]
fn the_title_of_a_zip_is_trimmed() {
    let listing = Ok(names(&["My Disc.cue"]));
    assert_eq!(create_zip(&listing, "\t My Disc "), create_zip_blocking(&listing, "My Disc"));
    assert_eq!(create_zip(&listing, "My Disc ")[1], ZipStep::Create("My Disc.zip".to_string()));
    // Without trimming nothing starts with the title.
    assert_eq!(entries(&create_zip_blocking(&listing, " My Disc")), Vec::<String>::new());
}

#[test]
fn a_folder_that_cannot_be_packed() {
    let steps = create_zip(&Err("denied".to_string()), "B");
    assert_eq!(steps.len(), 4);
    assert_eq!(steps[2], ZipStep::AddDirectory("B/".to_string()));
    assert_eq!(steps[3], ZipStep::Fail("Cannot read folder: denied".to_string()));
}

#[test]
fn the_folder_of_a_zip() {
    assert_eq!(zip_folder("/rip", Some("/out")), "/out");
    assert_eq!(zip_folder("/rip", Some("")), "");
    assert_eq!(zip_folder("/rip", None), "/rip");
}

#[test]
fn failures_of_packing() {
    let e = "why";
    let a = || "a".to_string();
    assert_eq!(zip_failure(&ZipStep::Create(a()), e), "Cannot create zip file: why");
    assert_eq!(zip_failure(&ZipStep::AddDirectory(a()), e), "Cannot add directory entry to zip: why");
    assert_eq!(zip_failure(&ZipStep::BeginEntry("B/a".to_string(), a()), e), "Cannot add a to zip: why");
    assert_eq!(zip_failure(&ZipStep::OpenFile(a()), e), "Cannot open a: why");
    assert_eq!(zip_failure(&ZipStep::CopyFile(a()), e), "Cannot write a into zip: why");
    assert_eq!(zip_failure(&ZipStep::Finish, e), "Cannot finalize zip: why");
    assert_eq!(zip_failure(&ZipStep::Log(a()), e), "why");
}

#[test]
fn sending_is_planned() {
    let s = |t: &str| t.to_string();
    assert_eq!(
        upload_blocking("/out/B.zip", "my-id", "me", "pw"),
        vec![
            UploadStep::Probe(names(&["--version"])),
            UploadStep::Log(s("Configuring archive.org credentials\u{2026}")),
            UploadStep::Configure(names(&["configure", "--username=me", "--password=pw"])),
            UploadStep::Log(s("Uploading 'my-id' to archive.org\u{2026}")),
            UploadStep::Log(s("  identifier : my-id")),
            UploadStep::Log(s("  file       : /out/B.zip")),
            UploadStep::Upload(names(&[
                "upload",
                "my-id",
                "/out/B.zip",
                "--metadata=mediatype:audio",
                "--metadata=subject:CD+G",
                "--checksum",
                "--retries=10",
            ])),
            UploadStep::Log(s("Upload complete!  https://archive.org/details/my-id")),
        ]
    );
}

#[test]
fn the_log_is_free_of_credentials() {
    let a = upload_blocking("z", "i", "me", "pw");
    let b = upload_blocking("z", "i", "you", "other");
    for (x, y) in a.iter().zip(b.iter()) {
        if let UploadStep::Log(_) = x {
            assert_eq!(x, y);
        }
    }
}

#[test]
fn sending_goes_on_or_stops() {
    let probe = UploadStep::Probe(vec![]);
    let configure = UploadStep::Configure(vec![]);
    let upload = UploadStep::Upload(vec![]);
    let log = UploadStep::Log("x".to_string());
    let not_started = CommandOutcome::NotStarted("e".to_string());
    let not_ended = CommandOutcome::NotEnded("e".to_string());
    let failed = CommandOutcome::Ended(false, "e".to_string());
    let done = CommandOutcome::Ended(true, "e".to_string());
    let missing = Err("The 'ia' CLI is not installed.\nInstall it with:  pip install internetarchive".to_string());
    assert_eq!(after_command(&probe, &not_started), missing);
    assert_eq!(after_command(&probe, &not_ended), missing);
    assert_eq!(after_command(&probe, &failed), Ok(()));
    assert_eq!(after_command(&probe, &done), Ok(()));
    let unconfigured = Err("ia configure failed: e".to_string());
    assert_eq!(after_command(&configure, &not_started), unconfigured);
    assert_eq!(after_command(&configure, &not_ended), unconfigured);
    assert_eq!(after_command(&configure, &failed), unconfigured);
    assert_eq!(after_command(&configure, &done), Ok(()));
    assert_eq!(after_command(&upload, &not_started), Err("Failed to spawn ia upload: e".to_string()));
    assert_eq!(after_command(&upload, &not_ended), Err("ia wait failed: e".to_string()));
    assert_eq!(
        after_command(&upload, &failed),
        Err("Upload failed \u{2014} see log for details".to_string())
    );
    assert_eq!(after_command(&upload, &done), Ok(()));
    assert_eq!(after_command(&log, &failed), Ok(()));
}

#[test]
fn lines_of_the_error_output() {
    assert_eq!(error_line("oops"), "[stderr] oops");
    assert_eq!(error_line(""), "[stderr] ");
}
