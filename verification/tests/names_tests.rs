use relatable::names::name_is_dir_tags;
use relatable::names::name_is_tag_file;
use relatable::names::name_stem;
use relatable::names::path_file_name;
use relatable::names::path_is_tag_file;
use relatable::names::path_parent;

#[test]
fn stem_drops_the_last_extension_only() {
    assert_eq!(name_stem("img.tags"), "img");
    assert_eq!(name_stem("archive.tar.gz"), "archive.tar");
    assert_eq!(name_stem("img.png"), "img");
}

#[test]
fn stem_of_extensionless_name_is_the_name() {
    assert_eq!(name_stem("img"), "img");
    assert_eq!(name_stem(""), "");
}

#[test]
fn leading_dot_is_not_an_extension_separator() {
    assert_eq!(name_stem(".tags"), ".tags");
    assert_eq!(name_stem(".hidden"), ".hidden");
    assert_eq!(name_stem(".hidden.tags"), ".hidden");
}

#[test]
fn tag_file_names_need_the_tags_extension() {
    assert!(name_is_tag_file("img.tags"));
    assert!(name_is_tag_file("dir.tags"));
    assert!(name_is_tag_file(".hidden.tags"));
    assert!(!name_is_tag_file(".tags"));
    assert!(!name_is_tag_file("tags"));
    assert!(!name_is_tag_file("img.tag"));
    assert!(!name_is_tag_file("img.TAGS"));
    assert!(!name_is_tag_file("img.tags.bak"));
}

#[test]
fn dir_tags_is_matched_exactly() {
    assert!(name_is_dir_tags(&"dir.tags".to_string()));
    assert!(!name_is_dir_tags(&"dirx.tags".to_string()));
    assert!(!name_is_dir_tags(&"dir.tag".to_string()));
}

#[test]
fn path_components_split_at_the_last_separator() {
    assert_eq!(path_file_name("/r/sub/c.txt"), "c.txt");
    assert_eq!(path_file_name("/c.txt"), "c.txt");
    assert_eq!(path_parent("/r/sub/c.txt"), "/r/sub");
    assert_eq!(path_parent("/r"), "/");
}

#[test]
fn tag_paths_are_recognized_by_their_last_component() {
    assert!(path_is_tag_file("/r/sub/img.tags"));
    assert!(!path_is_tag_file("/r/sub/img.png"));
    assert!(!path_is_tag_file("/r/x.tags/img.png"));
}
