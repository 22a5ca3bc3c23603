use krate::entries::{
    collect_entries, entries_to_pack, first_missing, ArchiveEntry, FoundFile, InputKind,
    ScannedInput,
};
use krate::error::ArchiveError;
use krate::progress::KrateProgress;

fn file(path: &str, base: Option<&str>) -> ScannedInput {
    ScannedInput {
        path: path.to_string(),
        base_name: base.map(|b| b.to_string()),
        kind: InputKind::File,
        files: Vec::new(),
    }
}

fn dir(path: &str, base: &str, files: &[&str]) -> ScannedInput {
    ScannedInput {
        path: path.to_string(),
        base_name: Some(base.to_string()),
        kind: InputKind::Directory,
        files: files
            .iter()
            .map(|f| FoundFile {
                source_path: format!("{}/{}", path, f),
                relative_path: f.to_string(),
            })
            .collect(),
    }
}

fn pairs(entries: &[ArchiveEntry]) -> Vec<(String, String)> {
    entries.iter().map(|e| (e.source_path.clone(), e.archive_path.clone())).collect()
}

fn pair(a: &str, b: &str) -> (String, String) {
    (a.to_string(), b.to_string())
}

#[test]
fn entries_get_numbered_top_names() {
    let inputs = vec![
        file("/x/a.txt", Some("a.txt")),
        dir("/x/docs", "docs", &["r.md", "sub/deep.md"]),
        file("/y/a.txt", Some("a.txt")),
        dir("/y/docs", "docs", &["r.md"]),
        file("/z/a.txt", Some("a.txt")),
        file("/", None),
        file("..", None),
        dir("/empty", "empty", &[]),
    ];
    let entries = collect_entries(&inputs).unwrap();
    assert_eq!(
        pairs(&entries),
        vec![
            pair("/x/a.txt", "a.txt"),
            pair("/x/docs/r.md", "docs/r.md"),
            pair("/x/docs/sub/deep.md", "docs/sub/deep.md"),
            pair("/y/a.txt", "a.txt-2"),
            pair("/y/docs/r.md", "docs-2/r.md"),
            pair("/z/a.txt", "a.txt-3"),
            pair("/", "input"),
            pair("..", "input-2"),
        ]
    );
}

#[test]
fn numbering_goes_past_nine() {
    let inputs: Vec<ScannedInput> = (0..12).map(|i| file(&format!("/{}/f", i), Some("f"))).collect();
    let entries = collect_entries(&inputs).unwrap();
    assert_eq!(entries[0].archive_path, "f");
    assert_eq!(entries[1].archive_path, "f-2");
    assert_eq!(entries[9].archive_path, "f-10");
    assert_eq!(entries[11].archive_path, "f-12");
}

#[test]
fn missing_input_is_reported() {
    let mut gone = file("/nowhere", Some("nowhere"));
    gone.kind = InputKind::Missing;
    let inputs = vec![file("/a", Some("a")), gone.clone(), gone];
    assert_eq!(first_missing(&inputs), Some(1));
    assert_eq!(collect_entries(&inputs).unwrap_err(), ArchiveError::PathNotFound);
    assert_eq!(entries_to_pack(&inputs).unwrap_err(), ArchiveError::PathNotFound);
    assert_eq!(first_missing(&inputs[..1]), None);
}

#[test]
fn nothing_to_pack_is_reported() {
    assert_eq!(entries_to_pack(&[]).unwrap_err(), ArchiveError::NoInput);
    assert_eq!(entries_to_pack(&[dir("/e", "e", &[])]).unwrap_err(), ArchiveError::NoInput);
    assert!(collect_entries(&[]).unwrap().is_empty());
    assert_eq!(entries_to_pack(&[file("/a", Some("a"))]).unwrap().len(), 1);
}

fn event(p: &KrateProgress) -> (String, u64, u64, String) {
    (p.phase.clone(), p.current, p.total, p.message.clone())
}

#[test]
fn progress_events() {
    let t = |a: &str, b: u64, c: u64, d: &str| (a.to_string(), b, c, d.to_string());
    assert_eq!(event(&KrateProgress::scan_started()), t("scan", 0, 0, "正在扫描文件..."));
    assert_eq!(event(&KrateProgress::pack_started(3)), t("pack", 0, 3, "正在打包..."));
    assert_eq!(
        event(&KrateProgress::entry_packed(0, 3, "docs/r.md")),
        t("pack", 1, 3, "已打包: docs/r.md")
    );
    assert_eq!(
        event(&KrateProgress::entry_packed(2, 3, "a.txt-2")),
        t("pack", 3, 3, "已打包: a.txt-2")
    );
    assert_eq!(event(&KrateProgress::pack_finished(3)), t("pack", 3, 3, "打包完成"));
    assert_eq!(event(&KrateProgress::unpack_started()), t("unpack", 0, 0, "正在解包..."));
    assert_eq!(event(&KrateProgress::unpack_finished()), t("unpack", 1, 1, "解包完成"));
}
