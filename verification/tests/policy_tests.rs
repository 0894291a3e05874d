use repo_flatten::policy::{
    extension_of, should_skip_directory, should_skip_file, should_skip_file_or_directory,
};

#[test]
fn skip_dir_exact_names() {
    assert!(should_skip_directory(".git"));
    assert!(should_skip_directory("node_modules"));
    assert!(should_skip_directory("target"));
    assert!(!should_skip_directory("src"));
    assert!(!should_skip_directory("Git"));
    assert!(!should_skip_directory(".Git"));
    assert!(!should_skip_directory("TARGET"));
    assert!(!should_skip_directory("targets"));
}

#[test]
fn skip_file_names_case_sensitive() {
    assert!(should_skip_file("Cargo.lock"));
    assert!(!should_skip_file("cargo.lock"));
    assert!(should_skip_file("LICENSE"));
    assert!(!should_skip_file("license"));
    assert!(should_skip_file("yarn.lock"));
    assert!(should_skip_file("package-lock.json"));
    assert!(should_skip_file("package-lock.yml"));
}

#[test]
fn skip_file_extension_case_insensitive() {
    assert!(should_skip_file("Photo.JPG"));
    assert!(should_skip_file("photo.jpg"));
    assert!(should_skip_file("image.PNG"));
    assert!(should_skip_file("movie.MoV"));
    assert!(should_skip_file("archive.tar"));
    assert!(should_skip_file("archive.tar.gz"));
    assert!(should_skip_file("x.7z"));
    assert!(should_skip_file("lib.dylib"));
    assert!(!should_skip_file("doc.TXT"));
    assert!(!should_skip_file("a.txt"));
    assert!(!should_skip_file("main.rs"));
}

#[test]
fn no_extension_never_matches() {
    assert!(!should_skip_file("Makefile"));
    assert!(!should_skip_file("exe"));
    assert!(!should_skip_file(".png"));
    assert!(!should_skip_file("file."));
}

#[test]
fn extension_after_last_dot() {
    assert_eq!(extension_of("a.b.c"), Some(String::from("c")));
    assert_eq!(extension_of("photo.JPG"), Some(String::from("JPG")));
    assert_eq!(extension_of("Makefile"), None);
    assert_eq!(extension_of(".gitignore"), None);
    assert_eq!(extension_of("file."), Some(String::from("")));
}

#[test]
fn dispatch_by_kind() {
    assert!(should_skip_file_or_directory("target", true));
    assert!(!should_skip_file_or_directory("target", false));
    assert!(should_skip_file_or_directory("Cargo.lock", false));
    assert!(!should_skip_file_or_directory("Cargo.lock", true));
}

#[test]
fn skip_decision_is_pure() {
    for name in ["a.txt", "Photo.JPG", ".git", "LICENSE", "target"] {
        for is_dir in [false, true] {
            let first = should_skip_file_or_directory(name, is_dir);
            let second = should_skip_file_or_directory(name, is_dir);
            assert_eq!(first, second);
        }
    }
}
