//! What the desktop application decides.

use fsm_core::desktop::drive::{
    drive_letter, end_step, is_mount_point, mount_args, password_line, place_to_look, Action,
    Drive, EndStep, Event, Place, PointError, Reason, Stage, Waited,
};
use fsm_core::desktop::drops::{collect_all, collect_pairs, drop_outcome, DiskNode, Progress};
use fsm_core::desktop::edits::{move_paths, new_file, remove_path, remove_paths, EditError};
use fsm_core::desktop::watch::Watch;
use fsm_core::error::VaultError;
use fsm_core::vault::Vault;

fn file(path: &str, name: &str) -> DiskNode {
    DiskNode::File { path: path.to_string(), name: Some(name.to_string()) }
}

fn teste() -> DiskNode {
    DiskNode::Folder {
        name: Some("Teste".to_string()),
        children: vec![
            file("/tmp/fsm-cp-test/Teste/a.txt", "a.txt"),
            DiskNode::Folder {
                name: Some("sub".to_string()),
                children: vec![file("/tmp/fsm-cp-test/Teste/sub/b.txt", "b.txt")],
            },
            DiskNode::Other,
        ],
    }
}

#[test]
fn collect_pairs_recurses_folder() {
    let mut out = Vec::new();
    collect_pairs(&teste(), &"/".to_string(), &mut out);
    let logicals: Vec<&str> = out.iter().map(|(_, l)| l.as_str()).collect();
    assert!(logicals.contains(&"/Teste/a.txt"), "faltou a.txt: {logicals:?}");
    assert!(logicals.contains(&"/Teste/sub/b.txt"), "faltou sub/b.txt: {logicals:?}");
    assert_eq!(out.len(), 2);
    assert_eq!(out[0].0, "/tmp/fsm-cp-test/Teste/a.txt");

    let mut out2 = Vec::new();
    collect_pairs(&teste(), &"/docs".to_string(), &mut out2);
    assert!(out2.iter().any(|(_, l)| l == "/docs/Teste/a.txt"));
}

#[test]
fn nameless_nodes_get_a_name() {
    let nodes = vec![
        DiskNode::File { path: "/".to_string(), name: None },
        DiskNode::Folder { name: None, children: vec![file("/x", "x")] },
        DiskNode::Other,
    ];
    let out = collect_all(&nodes, &"/d/".to_string());
    assert_eq!(
        out,
        vec![
            ("/".to_string(), "/d/arquivo".to_string()),
            ("/x".to_string(), "/d/pasta/x".to_string()),
        ]
    );
}

#[test]
fn progress_is_told_in_steps_and_at_the_end() {
    let step = 4 * 1024 * 1024;
    let mut p = Progress::new(10 * step);
    assert!(!p.tell(step - 1));
    assert!(p.tell(step));
    assert!(!p.tell(step + 5));
    assert!(p.tell(2 * step));
    assert!(p.tell(10 * step));
    assert!(Progress::new(3).tell(3));
}

#[test]
fn drop_of_unreadable_paths_is_told() {
    let bad = vec!["/a".to_string(), "/b".to_string()];
    assert_eq!(drop_outcome(0, &bad), Err("/a | /b".to_string()));
    assert_eq!(drop_outcome(0, &vec!["/a".to_string()]), Err("/a".to_string()));
    assert_eq!(drop_outcome(2, &bad), Ok(2));
    assert_eq!(drop_outcome(0, &Vec::new()), Ok(0));
}

fn sample() -> Vault {
    let mut v = Vault::create(4096);
    v.link_file("/a/x", 0, 1, Vec::new());
    v.link_file("/a/b/y", 0, 1, Vec::new());
    v.link_file("/c", 0, 1, Vec::new());
    v.create_dir("/d").unwrap();
    v
}

fn strings(paths: &[&str]) -> Vec<String> {
    paths.iter().map(|p| p.to_string()).collect()
}

#[test]
fn paths_are_moved_but_not_into_themselves() {
    let mut v = sample();
    let r = move_paths(&mut v, &strings(&["/c", "/d", "/a"]), &"/d".to_string());
    assert_eq!(r, Ok(()));
    assert!(v.resolve("/d/c").is_some());
    assert!(v.resolve("/d/a/b/y").is_some());
    assert!(v.resolve("/a").is_none());

    let r = move_paths(&mut v, &strings(&["/d"]), &"/d/a".to_string());
    assert_eq!(r, Ok(()));
    assert!(v.resolve("/d/a/x").is_some());

    let r = move_paths(&mut v, &strings(&["/d/c"]), &"/d".to_string());
    assert_eq!(r, Ok(()));
    assert!(v.resolve("/d/c").is_some());

    let r = move_paths(&mut v, &strings(&["/d/c", "/x/nada", "/d/a"]), &"/".to_string());
    assert_eq!(r, Err(VaultError::SourceNotFound));
    assert!(v.resolve("/c").is_some());
    assert!(v.resolve("/d/a").is_some());
}

#[test]
fn paths_are_removed_whatever_they_are() {
    let mut v = sample();
    remove_paths(&mut v, &strings(&["/a", "/c", "/nada"]));
    assert!(v.resolve("/a").is_none());
    assert!(v.resolve("/a/b/y").is_none());
    assert!(v.resolve("/c").is_none());
    assert!(v.resolve("/d").is_some());
}

#[test]
fn single_path_is_removed_or_refused() {
    let mut v = sample();
    assert_eq!(remove_path(&mut v, "/a", false), Err(EditError::NotFound));
    assert_eq!(remove_path(&mut v, "/c", false), Ok(()));
    assert_eq!(remove_path(&mut v, "/a", true), Ok(()));
    assert!(v.resolve("/a/x").is_none());
    assert_eq!(new_file(&mut v, "/d", 3), Err(EditError::Exists));
    assert_eq!(new_file(&mut v, "/e", 3), Ok(()));
    assert!(v.resolve("/e").is_some());
}

#[test]
fn watched_file_is_seen_once_per_change() {
    let mut w = Watch::new("/a".to_string(), Some(10), 3);
    assert_eq!(w.logical(), "/a");
    assert!(!w.observe(Some(10), 3));
    assert!(w.observe(Some(11), 3));
    assert!(!w.observe(Some(11), 3));
    assert!(w.observe(Some(11), 4));
    assert!(w.observe(None, 4));
    assert!(!w.observe(None, 4));
}

#[test]
fn mount_goes_through_its_stages() {
    let mut d = Drive::new(true);
    assert_eq!(d.advance(Event::Request), Action::CheckPoint);
    assert_eq!(d.advance(Event::Request), Action::Refuse(Reason::Busy));
    assert_eq!(d.advance(Event::PointChecked(true)), Action::FindProgram);
    assert_eq!(d.advance(Event::ProgramFound(true)), Action::Start);
    assert!(!d.vault_open);
    assert_eq!(d.advance(Event::Started(true)), Action::Poll);
    let waiting = Event::Polled { exited: false, ready: false, late: false };
    assert_eq!(d.advance(waiting), Action::Poll);
    let late = Event::Polled { exited: false, ready: false, late: true };
    assert_eq!(d.advance(late), Action::Keep);
    assert_eq!(d.stage, Stage::Mounted);
    assert_eq!(d.advance(Event::Request), Action::Refuse(Reason::AlreadyMounted));
    assert_eq!(d.advance(Event::Release), Action::End);
    assert_eq!(d.stage, Stage::Idle);
    assert_eq!(d.advance(Event::Release), Action::Nothing);
}

#[test]
fn failed_mount_opens_the_vault_again() {
    let mut d = Drive::new(true);
    d.advance(Event::Request);
    assert_eq!(d.advance(Event::PointChecked(false)), Action::Refuse(Reason::BadPoint));
    assert!(d.vault_open);
    d.advance(Event::Request);
    d.advance(Event::PointChecked(true));
    assert_eq!(d.advance(Event::ProgramFound(false)), Action::Refuse(Reason::NoProgram));
    assert!(d.vault_open);
    d.advance(Event::Request);
    d.advance(Event::PointChecked(true));
    d.advance(Event::ProgramFound(true));
    assert_eq!(d.advance(Event::Started(false)), Action::Reopen(Reason::NotStarted));
    d.advance(Event::Reopened(true));
    assert!(d.vault_open);
    d.advance(Event::Request);
    d.advance(Event::PointChecked(true));
    d.advance(Event::ProgramFound(true));
    d.advance(Event::Started(true));
    let exited = Event::Polled { exited: true, ready: true, late: false };
    assert_eq!(d.advance(exited), Action::Reopen(Reason::Exited));
    d.advance(Event::Reopened(true));
    assert!(d.vault_open);

    let mut closed = Drive::new(false);
    closed.advance(Event::Request);
    assert_eq!(closed.advance(Event::PointChecked(true)), Action::Refuse(Reason::NoVault));
}

#[test]
fn program_is_waited_for_and_then_killed() {
    assert_eq!(end_step(Waited::Ended, true), EndStep::Done);
    assert_eq!(end_step(Waited::Running, false), EndStep::Wait);
    assert_eq!(end_step(Waited::Running, true), EndStep::Kill);
    assert_eq!(end_step(Waited::Unknown, false), EndStep::Kill);
}

#[test]
fn program_is_looked_for_nearby_first() {
    let places: Vec<Place> = (0..).map_while(place_to_look).collect();
    assert_eq!(places.len(), 19);
    assert_eq!(places[0], Place::Environment);
    assert_eq!(places[1], Place::Beside);
    assert_eq!(places[2], Place::Resources);
    assert_eq!(places[3], Place::Build { up: 0, release: false });
    assert_eq!(places[4], Place::Build { up: 0, release: true });
    assert_eq!(places[18], Place::Build { up: 7, release: true });
}

#[test]
fn mount_point_of_windows_is_a_letter() {
    assert_eq!(drive_letter("x:"), Ok('X'));
    assert_eq!(drive_letter(" X:\\ "), Ok('X'));
    assert_eq!(drive_letter("z"), Ok('Z'));
    assert_eq!(drive_letter("z//\\"), Ok('Z'));
    assert_eq!(drive_letter(""), Err(PointError::Missing));
    assert_eq!(drive_letter("\\"), Err(PointError::Missing));
    assert_eq!(drive_letter("xy"), Err(PointError::Invalid));
    assert_eq!(drive_letter("1:"), Err(PointError::Invalid));
    assert_eq!(drive_letter("é:"), Err(PointError::Invalid));
    assert_eq!(drive_letter("C:\\dir"), Err(PointError::Invalid));
}

#[test]
fn mounts_are_found_in_the_table() {
    let table = "proc /proc proc rw 0 0\nfsmanager /mnt/fsm fuse rw 0 0\r\nx /y";
    assert!(is_mount_point(table, "/mnt/fsm"));
    assert!(is_mount_point(table, "/proc"));
    assert!(is_mount_point(table, "/y"));
    assert!(!is_mount_point(table, "proc"));
    assert!(!is_mount_point(table, "/mnt"));
    assert!(!is_mount_point("", ""));
    assert!(!is_mount_point("one", "one"));
    assert!(is_mount_point("a  b", ""));
}

#[test]
fn password_goes_by_standard_input_only() {
    assert_eq!(mount_args("/v.vault", "/mnt", false), vec!["/v.vault", "/mnt"]);
    assert_eq!(
        mount_args("/v.vault", "/mnt", true),
        vec!["/v.vault", "/mnt", "--password-stdin"]
    );
    assert_eq!(password_line("sé"), vec![b's', 0xc3, 0xa9, b'\n']);
}
