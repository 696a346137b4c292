use std::io::Write;
use verdiff::diff::diff;
use verdiff::jar::{index_jar, looks_like_archive, IndexingError};
use verdiff::metadata::{trim_ascii, versions_from_metadata};
use verdiff::source::{source_index, source_path_ok, source_unit_name_exec};
use verdiff::submodules::submodules_from_html;
use verdiff::version::sort_versions;

fn sample_archive() -> Vec<u8> {
    let mut w = zip::ZipWriter::new(std::io::Cursor::new(Vec::new()));
    let opts: zip::write::SimpleFileOptions = Default::default();
    w.add_directory("com/", opts).unwrap();
    w.start_file("com/acme/Foo.class", opts).unwrap();
    w.write_all(b"foo-bytecode").unwrap();
    w.start_file("module-info.class", opts).unwrap();
    w.write_all(b"module descriptor").unwrap();
    w.start_file("META-INF/MANIFEST.MF", opts).unwrap();
    w.write_all(b"Manifest-Version: 1.0\n").unwrap();
    w.finish().unwrap().into_inner()
}

#[test]
fn archive_signature_check() {
    assert!(looks_like_archive(&sample_archive()));
    assert!(!looks_like_archive(&b"<html>not found</html>".to_vec()));
    assert!(!looks_like_archive(&b"PK".to_vec()));
}

#[test]
fn indexes_only_compiled_units() {
    let ix = index_jar(sample_archive()).expect("readable archive");
    assert_eq!(ix.len(), 1);
    let fp = ix.get("com.acme.Foo").expect("unit present");
    assert_eq!(fp & 0xFFFF_FFFF, b"foo-bytecode".len() as u64);
    assert_ne!(fp >> 32, 0);
    assert_eq!(ix.get("module-info"), None);
    assert_eq!(ix.get("META-INF.MANIFEST"), None);
}

#[test]
fn unreadable_bytes_are_an_indexing_error() {
    match index_jar(b"not an archive at all".to_vec()) {
        Err(e) => assert_eq!(e, IndexingError::NotAnArchive),
        Ok(_) => panic!("bytes without an archive structure must not index"),
    }
}

#[test]
fn metadata_versions_come_out_in_document_order() {
    let xml = "<metadata><versioning><versions>\
               <version>1.0</version>\
               <version> 1.1 </version>\
               <version>1.0.1</version>\
               </versions></versioning></metadata>";
    let vs = versions_from_metadata(xml).expect("well-formed document");
    assert_eq!(vs, vec!["1.0".to_string(), "1.1".to_string(), "1.0.1".to_string()]);
    let sorted = sort_versions(vs);
    assert_eq!(
        sorted,
        vec!["1.0".to_string(), "1.0.1".to_string(), "1.1".to_string()]
    );
}

#[test]
fn metadata_skips_blank_and_foreign_elements() {
    let xml = "<metadata><latest>2.0</latest><versions>\
               <version>  </version>\
               <version>2.0</version>\
               </versions></metadata>";
    let vs = versions_from_metadata(xml).expect("well-formed document");
    assert_eq!(vs, vec!["2.0".to_string()]);
}

#[test]
fn malformed_metadata_yields_nothing() {
    assert!(versions_from_metadata("<metadata><version>1.0</metadata>").is_none());
}

#[test]
fn trims_ascii_whitespace() {
    assert_eq!(trim_ascii("  1.0\t\r\n"), "1.0");
    assert_eq!(trim_ascii("   "), "");
    assert_eq!(trim_ascii("x"), "x");
}

#[test]
fn source_paths_are_filtered_and_renamed() {
    assert!(source_path_ok("src/main/java/com/acme/Foo.java"));
    assert!(!source_path_ok("src/test/java/com/acme/FooTest.java"));
    assert!(!source_path_ok("pom.xml"));
    assert_eq!(
        source_unit_name_exec("src/main/java/com/acme/Foo.java"),
        "com.acme.Foo"
    );
    assert_eq!(source_unit_name_exec("src/acme/Bar.java"), "acme.Bar");
    assert_eq!(source_unit_name_exec("other/Baz.java"), "other.Baz");
}

#[test]
fn source_digests_distinguish_content() {
    let old = source_index(&vec![
        ("src/main/java/a/One.java".to_string(), b"class One {}".to_vec()),
        ("src/main/java/a/Two.java".to_string(), b"class Two {}".to_vec()),
        ("src/test/java/a/T.java".to_string(), b"class T {}".to_vec()),
    ]);
    let new = source_index(&vec![
        ("src/main/java/a/One.java".to_string(), b"class One {}".to_vec()),
        ("src/main/java/a/Two.java".to_string(), b"class Two { int x; }".to_vec()),
    ]);
    assert_eq!(old.len(), 2);
    let d = diff(&old, &new);
    assert!(d.added.is_empty());
    assert!(d.removed.is_empty());
    assert_eq!(d.modified, vec!["a.Two".to_string()]);
}

#[test]
fn submodules_come_from_listing_links() {
    let html = "<html><body>\n\
                <a href=\"../\">..</a>\n\
                <a href=\"my-lib-core/\">my-lib-core/</a>\n\
                <a href=\"my-lib-web/\">my-lib-web/</a>\n\
                <a href=\"my-lib-core/\">again</a>\n\
                <a href=\"my-lib/\">the artifact itself</a>\n\
                <a href=\"other/\">other</a>\n\
                </body></html>";
    let mods = submodules_from_html(html, "my-lib");
    assert_eq!(
        mods,
        vec!["my-lib-core".to_string(), "my-lib-web".to_string()]
    );
}
