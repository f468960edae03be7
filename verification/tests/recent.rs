use common::recent::{is_blank, RecentFiles, MAX_RECENT};

/// Pushes a path that leads to no other file than its name says.
fn push(r: &mut RecentFiles, path: &str) {
    let files = r.paths.clone();
    r.push(path.to_string(), path, &files);
}

#[test]
fn push_dedupes_and_caps_at_max() {
    let mut r = RecentFiles::default();
    for i in 0..MAX_RECENT + 5 {
        push(&mut r, &format!("p{i}.daw"));
    }
    assert_eq!(r.paths.len(), MAX_RECENT);
    assert_eq!(r.paths[0], format!("p{}.daw", MAX_RECENT + 4));
}

#[test]
fn push_existing_path_moves_it_to_front() {
    let mut r = RecentFiles::default();
    push(&mut r, "a.daw");
    push(&mut r, "b.daw");
    push(&mut r, "a.daw");
    assert_eq!(r.paths.len(), 2);
    assert_eq!(r.paths[0], "a.daw");
    assert_eq!(r.paths[1], "b.daw");
}

#[test]
fn push_drops_other_spellings_of_the_same_file() {
    let mut r = RecentFiles { paths: vec!["./a.daw".to_string(), "b.daw".to_string()] };
    r.push("a.daw".to_string(), "/p/a.daw", &vec!["/p/a.daw".to_string(), "/p/b.daw".to_string()]);
    assert_eq!(r.paths, vec!["a.daw".to_string(), "b.daw".to_string()]);
}

#[test]
fn blank_lists_are_empty() {
    assert!(is_blank(""));
    assert!(is_blank(" \n\t\u{3000}"));
    assert!(!is_blank(" {"));
}
