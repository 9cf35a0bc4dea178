use pulonia::archive::{archive_format, extension, file_type_of_name, get_file_type, ArchiveFormat};
use pulonia::cli::settle_output;
use pulonia::path::{check_path_text, is_safe_path, PathError};

#[test]
fn test_empty_path_rejected() {
    assert_eq!(check_path_text("", "/work"), Err(PathError::Empty));
}

#[test]
fn nul_character_rejected() {
    assert_eq!(check_path_text("/work/a\0b", "/work"), Err(PathError::NulCharacter));
}

#[test]
fn paths_inside_the_working_directory_are_safe() {
    assert!(is_safe_path("/work/a/b.zip", "/work"));
    assert!(is_safe_path("/work", "/work"));
    assert_eq!(check_path_text("/work/pkg.zip", "/work"), Ok(()));
}

#[test]
fn paths_outside_or_with_patterns_are_unsafe() {
    assert!(!is_safe_path("/other/a.zip", "/work"));
    assert!(!is_safe_path("/workshop/a.zip", "/work"));
    assert!(!is_safe_path("/work/../etc", "/work"));
    assert!(!is_safe_path("/work/~x", "/work"));
    assert!(!is_safe_path("/work//x", "/work"));
    assert!(!is_safe_path("/work/$HOME", "/work"));
    assert!(!is_safe_path("/work/a|b", "/work"));
    assert_eq!(check_path_text("/work/{x}", "/work"), Err(PathError::Unsafe));
}

#[test]
fn file_types_from_names() {
    assert_eq!(get_file_type("dist/pkg.tar.gz"), Some("tar.gz".to_string()));
    assert_eq!(get_file_type("pkg.tar.xz"), Some("tar.xz".to_string()));
    assert_eq!(get_file_type("pkg.tar.bz2"), Some("tar.bz2".to_string()));
    assert_eq!(get_file_type("pkg.tar.lz4"), Some("tar.lz4".to_string()));
    assert_eq!(get_file_type("pkg.7z"), Some("7z".to_string()));
    assert_eq!(get_file_type("pkg.zip"), Some("zip".to_string()));
    assert_eq!(get_file_type("a.b.gz"), Some("gz".to_string()));
    assert_eq!(get_file_type("noext"), None);
    assert_eq!(get_file_type(".hidden"), None);
    assert_eq!(get_file_type("dir/.."), None);
}

#[test]
fn extensions_follow_the_last_dot() {
    assert_eq!(extension("a.b.c"), Some("c".to_string()));
    assert_eq!(extension("trailing."), Some("".to_string()));
    assert_eq!(extension(".profile"), None);
    assert_eq!(extension("none"), None);
}

#[test]
fn archive_formats_by_type() {
    assert_eq!(archive_format("7z"), Some(ArchiveFormat::SevenZ));
    assert_eq!(archive_format("zip"), Some(ArchiveFormat::Zip));
    assert_eq!(archive_format("tar"), Some(ArchiveFormat::Tar));
    assert_eq!(archive_format("gz"), Some(ArchiveFormat::TarGz));
    assert_eq!(archive_format("tar.gz"), Some(ArchiveFormat::TarGz));
    assert_eq!(archive_format("tar.xz"), Some(ArchiveFormat::TarXz));
    assert_eq!(archive_format("bz2"), Some(ArchiveFormat::TarBz2));
    assert_eq!(archive_format("tar.lz4"), Some(ArchiveFormat::TarLz4));
    assert_eq!(archive_format("rar"), None);
}

fn run(output: Option<&str>, format: Option<&str>) -> (String, String) {
    pulonia::cli::Cli {
        current_version_path: "new.zip".to_string(),
        previous_version_path: "old.zip".to_string(),
        output_path: output.map(|s| s.to_string()),
        temp_dir_path: None,
        format: format.map(|s| s.to_string()),
    }
    .resolve_output()
}

#[test]
fn output_defaults_to_ota_zip() {
    assert_eq!(run(None, None), ("ota.zip".to_string(), "zip".to_string()));
}

#[test]
fn output_extension_gives_the_format() {
    assert_eq!(run(Some("patch.tar.gz"), None), ("patch.tar.gz".to_string(), "gz".to_string()));
    assert_eq!(run(Some("patch"), None), ("patch.zip".to_string(), "zip".to_string()));
}

#[test]
fn asked_format_replaces_the_extension() {
    assert_eq!(run(Some("out/patch.zip"), Some("7z")), ("out/patch.7z".to_string(), "7z".to_string()));
    assert_eq!(run(Some("patch"), Some("tar")), ("patch.tar".to_string(), "tar".to_string()));
}

#[test]
fn file_type_from_a_bare_name() {
    assert_eq!(file_type_of_name("pkg.tar.bz2"), Some("tar.bz2".to_string()));
    assert_eq!(file_type_of_name("notes.txt"), Some("txt".to_string()));
    assert_eq!(file_type_of_name("README"), None);
}

#[test]
fn settle_output_from_name_and_parent() {
    let s = |x: &str| Some(x.to_string());
    assert_eq!(
        settle_output("out/p.zip", &s("7z"), &s("p.zip"), &s("out")),
        ("out/p.7z".to_string(), "7z".to_string())
    );
    assert_eq!(
        settle_output("p", &None, &s("p"), &s("")),
        ("p.zip".to_string(), "zip".to_string())
    );
    assert_eq!(
        settle_output("p.tar", &None, &s("p.tar"), &s("")),
        ("p.tar".to_string(), "tar".to_string())
    );
}
