use project_tree::classify::{
    classify, check_text_target, describe_extension, displayable_content, file_stats,
    get_default_file_content, get_file_extension, get_file_type_description, is_binary_extension,
    is_binary_file, is_content_binary, split_name,
};

#[test]
fn png_without_sample_is_binary() {
    assert!(classify("x.png", None).is_binary);
}

#[test]
fn text_sample_with_zero_byte_is_binary() {
    let sample: Vec<u8> = vec![b'h', 0, b'i'];
    assert!(classify("x.txt", Some(&sample[..])).is_binary);
}

#[test]
fn text_sample_hello_is_not_binary() {
    let r = classify("x.txt", Some(&b"hello"[..]));
    assert!(!r.is_binary);
    assert_eq!(r.type_label, "Text File");
}

#[test]
fn invalid_utf8_sample_is_binary() {
    let sample: Vec<u8> = vec![0xff, 0xfe, 0x41];
    assert!(classify("notes.md", Some(&sample[..])).is_binary);
}

#[test]
fn extension_is_lowercased() {
    assert_eq!(get_file_extension("Photo.JPG"), Some("jpg".to_string()));
    assert_eq!(get_file_extension("dir/Report.PDF"), Some("pdf".to_string()));
    assert_eq!(get_file_extension("archive.tar.gz"), Some("gz".to_string()));
}

#[test]
fn names_without_extension() {
    assert_eq!(get_file_extension("README"), None);
    assert_eq!(get_file_extension(".bashrc"), None);
    assert_eq!(get_file_extension("dir.d/Makefile"), None);
    assert_eq!(get_file_extension(".."), None);
    assert_eq!(get_file_extension("trailing."), Some(String::new()));
}

#[test]
fn split_name_parts() {
    assert_eq!(split_name("a.tar.gz"), ("a.tar", Some("gz")));
    assert_eq!(split_name(".env"), (".env", None));
    assert_eq!(split_name("plain"), ("plain", None));
}

#[test]
fn binary_extensions() {
    assert!(is_binary_file("movie.MKV"));
    assert!(is_binary_file("data/app.sqlite3"));
    assert!(!is_binary_file("script.py"));
    assert!(!is_binary_file("noext"));
    assert!(is_binary_extension("7z"));
    assert!(!is_binary_extension("PNG"));
}

#[test]
fn zero_byte_only_counts_in_prefix() {
    let mut inside = vec![b'a'; 9000];
    inside[8191] = 0;
    assert!(is_content_binary(&inside));
    let mut outside = vec![b'a'; 9000];
    outside[8192] = 0;
    assert!(!is_content_binary(&outside));
    assert!(!is_content_binary(&[]));
}

#[test]
fn type_descriptions() {
    assert_eq!(get_file_type_description("a.pdf"), "PDF Document");
    assert_eq!(get_file_type_description("photo.JPEG"), "JPEG Image");
    assert_eq!(get_file_type_description("pack.7z"), "7-Zip Archive");
    assert_eq!(get_file_type_description("model.Xyz"), "XYZ File");
    assert_eq!(get_file_type_description("LICENSE"), "Unknown File");
    assert_eq!(describe_extension("toml"), "TOML File");
}

#[test]
fn default_contents() {
    assert_eq!(get_default_file_content("notes.txt"), "Your text content here...\n");
    assert_eq!(get_default_file_content("MAIN.PY").lines().next(), Some("# Python script"));
    assert_eq!(get_default_file_content("app.js"), "// JavaScript file\nconsole.log('Hello, World!');\n");
    assert_eq!(get_default_file_content("data.bin"), "");
    assert_eq!(get_default_file_content("Makefile"), "");
}

#[test]
fn displayable_content_choices() {
    assert_eq!(displayable_content("a.txt", "héllo".as_bytes()), "héllo");
    assert_eq!(
        displayable_content("a.png", b"plain"),
        "[Binary file - content not displayable]"
    );
    assert_eq!(
        displayable_content("a.txt", &[0xc3, 0x28]),
        "[Binary file - content not displayable]"
    );
    assert_eq!(
        displayable_content("a.txt", &[b'x', 0]),
        "[Binary file - content not displayable]"
    );
}

#[test]
fn saving_to_binary_file_is_refused() {
    assert_eq!(
        check_text_target("doc.docx"),
        Err("Cannot save content to binary file".to_string())
    );
    assert_eq!(check_text_target("doc.md"), Ok(()));
}

#[test]
fn stats_carry_classification() {
    let s = file_stats("sheet.XLSX", 10, 20, 5);
    assert_eq!((s.size, s.modified, s.created), (10, 20, 5));
    assert!(s.is_binary);
    assert_eq!(s.file_type, "Excel Spreadsheet");
}
