use mdcache::md::{
    hash_md, is_internal_link, md_to_chonk, md_to_html, AssetError, Md, MdFile,
};
use sha2::Digest;

#[test]
fn internal_links_have_no_scheme_and_no_protocol_prefix() {
    assert!(is_internal_link("docs/page.md"));
    assert!(is_internal_link("/images/pic.png"));
    assert!(is_internal_link("./a/b"));
    assert!(is_internal_link("a.b/c:d"));
    assert!(!is_internal_link("https://example.com/x"));
    assert!(!is_internal_link("mailto:someone@example.com"));
    assert!(!is_internal_link("ftp://host/file"));
    assert!(!is_internal_link("//cdn.example.com/lib.js"));
    // a lone colon at the start is not a scheme
    assert!(is_internal_link(":weird"));
}

#[test]
fn md_to_chonk_renders_and_collects_sorted_unique_assets() {
    let text = "# Title\n\n\
        ![pic](images/pic.png)\n\
        ![pic again](images/pic.png)\n\
        [doc](docs/a.md)\n\
        [out](https://example.com/x)\n";
    let file = MdFile::new_from_str(text, String::from("/site/page.md"));
    let chonk = md_to_chonk(file);

    // the external link is not an asset; the repeated image appears once,
    // and the list is sorted
    assert_eq!(
        chonk.assets(),
        &vec![String::from("docs/a.md"), String::from("images/pic.png")]
    );

    // the HTML is exactly what pulldown-cmark produces for this text
    let parser = pulldown_cmark::Parser::new_ext(text, pulldown_cmark::Options::all());
    let mut expected = String::new();
    pulldown_cmark::html::push_html(&mut expected, parser);
    assert_eq!(chonk.html(), &expected);
    assert!(chonk.html().contains("<h1>Title</h1>"));
}

#[test]
fn md_to_html_resolves_assets_against_the_working_directory() {
    let text = "![pic](images/pic.png) and [doc](../shared/b.md) and \
        [ext](https://example.com) and ![pic](images/pic.png)";
    let file = MdFile::new_from_str(text, String::from("/site/docs/page.md"));
    let rendered = md_to_html(file, "/site/docs").expect("all assets have file names");

    let paths: Vec<String> = rendered.assets().iter().map(|p| p.as_text()).collect();
    // document order, duplicates kept, external link skipped
    assert_eq!(
        paths,
        vec![
            String::from("/site/docs/images/pic.png"),
            String::from("/site/shared/b.md"),
            String::from("/site/docs/images/pic.png"),
        ]
    );
    assert!(rendered.html().contains("img"));
}

#[test]
fn md_to_html_rejects_assets_without_file_names() {
    let text = "![broken](..)";
    let file = MdFile::new_from_str(text, String::from("/site/page.md"));
    match md_to_html(file, "/site") {
        Err(AssetError::NoFileName { asset }) => assert_eq!(asset, ".."),
        other => panic!("expected a file-name error, got {:?}", other),
    }
}

#[test]
fn hash_md_is_the_lowercased_sha256_digest() {
    let md = Md::new(String::from("hello markdown"));
    let hash = hash_md(&md);
    let expected = sha2::Sha256::digest("hello markdown".as_bytes()).to_ascii_lowercase();
    assert_eq!(hash.bytes().as_slice(), expected.as_slice());
    assert_eq!(hash.bytes().len(), 32);

    // the digest of the empty text, spelled out: hashing must not be identity
    let empty_hash = hash_md(&Md::new(String::new()));
    let known: Vec<u8> = vec![
        0xe3, 0xb0, 0xc4, 0x42, 0x98, 0xfc, 0x1c, 0x14, 0x9a, 0xfb, 0xf4, 0xc8, 0x99, 0x6f,
        0xb9, 0x24, 0x27, 0xae, 0x41, 0xe4, 0x64, 0x9b, 0x93, 0x4c, 0xa4, 0x95, 0x99, 0x1b,
        0x78, 0x52, 0xb8, 0x55,
    ]
    .to_ascii_lowercase();
    assert_eq!(empty_hash.bytes(), &known);
}

#[test]
fn diagnostics_accumulate_formatted_errors() {
    let mut diag = mdcache::md::Diagnostic::new();
    diag.push_error("page.md", "missing asset");
    diag.push_error("other.md", "unreadable");
    assert_eq!(
        diag.entries(),
        &vec![
            String::from("Error in file page.md: missing asset\n"),
            String::from("Error in file other.md: unreadable\n"),
        ]
    );
}

#[test]
fn resource_identity_round_trips() {
    let id = mdcache::Id::new(String::from("asset:pic.png"));
    assert_eq!(id.name().as_str(), "asset:pic.png");
}
