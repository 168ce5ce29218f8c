use plugin_js::path::{
    extension, file_name, is_absolute, join_path, key_of_path, lies_within, names_same, parent,
    plain, relative_to, split_path, strip_base, with_extension, with_slashes,
};
use std::path::{Path, PathBuf};

fn paths() -> Vec<String> {
    let pieces = ["", "a", ".", "..", "b.ts", ".hid", "x.y.z", "c."];
    let mut out: Vec<String> = vec![String::new(), "/".to_string()];
    for a in pieces {
        for b in pieces {
            out.push(format!("{a}/{b}"));
            out.push(format!("/{a}/{b}"));
            for c in pieces {
                out.push(format!("{a}/{b}/{c}"));
                out.push(format!("/{a}/{b}/{c}/"));
            }
        }
    }
    out
}

fn as_text(p: &Path) -> String {
    p.to_str().unwrap().to_string()
}

#[test]
fn paths_are_taken_apart_like_std_paths() {
    for p in paths() {
        let std = Path::new(&p);
        let names: Vec<String> =
            std.components().map(|c| c.as_os_str().to_str().unwrap().to_string()).collect();
        assert_eq!(split_path(&p), names, "{p}");
        assert_eq!(is_absolute(&p), std.is_absolute(), "{p}");
        assert_eq!(parent(&p), std.parent().map(as_text), "{p}");
        assert_eq!(file_name(&p).as_deref(), std.file_name().map(|n| n.to_str().unwrap()), "{p}");
        assert_eq!(extension(&p).as_deref(), std.extension().map(|n| n.to_str().unwrap()), "{p}");
        assert_eq!(
            PathBuf::from(with_extension(&p, "json")),
            std.with_extension("json"),
            "{p}"
        );
    }
}

#[test]
fn paths_relate_to_each_other_like_std_paths() {
    let all = paths();
    for p in all.iter().step_by(7) {
        for q in all.iter().step_by(5) {
            let (a, b) = (Path::new(p), Path::new(q));
            assert_eq!(names_same(p, q), a == b, "{p} {q}");
            assert_eq!(lies_within(p, q), a.starts_with(b), "{p} {q}");
            assert_eq!(PathBuf::from(join_path(p, q)), a.join(b), "{p} {q}");
            assert_eq!(key_of_path(p) < key_of_path(q), a < b, "{p} {q}");
            assert_eq!(
                strip_base(p, q).map(PathBuf::from),
                a.strip_prefix(b).ok().map(|r| r.to_path_buf()),
                "{p} {q}"
            );
        }
    }
}

#[test]
fn a_path_is_seen_from_a_directory_above_it() {
    assert_eq!(relative_to("/ws/packages/a", "/ws"), "packages/a");
    assert_eq!(relative_to("/elsewhere/a", "/ws"), "/elsewhere/a");
    assert_eq!(with_slashes("a\\b/c"), "a/b/c");
}

#[test]
fn dots_are_worked_out() {
    assert_eq!(plain("/ws/packages/a/../../b/./c.ts"), "/ws/b/c.ts");
    assert_eq!(plain("/.."), "/");
}
