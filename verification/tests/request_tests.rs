use drive_fs::errors::FilterKind;
use drive_fs::models::{File, FileFilter, FileRequest, Filter, MimeType};

#[test]
fn mime_type_spells_wire_names() {
    assert_eq!(
        MimeType::Spreadsheet.to_string(),
        "application/vnd.google-apps.spreadsheet".to_string()
    );
    assert_eq!(
        MimeType::Folder.to_string(),
        "application/vnd.google-apps.folder".to_string()
    );
    assert_eq!(MimeType::CSV.to_string(), "text/csv".to_string());
}

#[test]
fn equals_filter_compiles() {
    let f = Filter::Equals("Submissions_Log".to_string());
    assert_eq!(f.to_string().expect("equals compiles"), "= 'Submissions_Log'".to_string());
}

#[test]
fn unimplemented_filters_fail_fast() {
    let contains = Filter::Contains("x".to_string());
    assert_eq!(contains.to_string().unwrap_err().kind, FilterKind::Contains);
    let starts = Filter::StartsWith("x".to_string());
    assert_eq!(starts.to_string().unwrap_err().kind, FilterKind::StartsWith);
    let date_gt = Filter::DateGT("2020-01-01".to_string());
    assert_eq!(date_gt.to_string().unwrap_err().kind, FilterKind::DateGt);
    let date_lt = Filter::DateLT("2020-01-01".to_string());
    assert_eq!(date_lt.to_string().unwrap_err().kind, FilterKind::DateLt);
    let neither = Filter::Not(Box::new(Filter::Equals("x".to_string())));
    assert_eq!(neither.to_string().unwrap_err().kind, FilterKind::Not);
}

#[test]
fn file_filter_compiles_type_and_name() {
    let by_type = FileFilter::Type(MimeType::Folder);
    assert_eq!(
        by_type.to_string().expect("type compiles"),
        "mimeType = 'application/vnd.google-apps.folder'".to_string()
    );
    let by_name = FileFilter::Name(Filter::Equals("report".to_string()));
    assert_eq!(by_name.to_string().expect("name equals compiles"), "name = 'report'".to_string());
    let full_text = FileFilter::FullText(Filter::Equals("x".to_string()));
    assert_eq!(full_text.to_string().unwrap_err().kind, FilterKind::FullText);
    let shared = FileFilter::IsSharedWithMe(true);
    assert_eq!(shared.to_string().unwrap_err().kind, FilterKind::IsSharedWithMe);
}

#[test]
fn query_string_joins_clauses_and_excludes_trashed() {
    let req = FileRequest {
        parent_id: "root".to_string(),
        filters: vec![
            FileFilter::Name(Filter::Equals("Submissions_Log".to_string())),
            FileFilter::Type(MimeType::Spreadsheet),
        ],
        opts: vec![],
    };
    assert_eq!(
        req.query_string().expect("both clauses compile"),
        "name = 'Submissions_Log' and mimeType = 'application/vnd.google-apps.spreadsheet' and trashed=false"
            .to_string()
    );
    let empty = FileRequest { parent_id: "root".to_string(), filters: vec![], opts: vec![] };
    assert_eq!(empty.query_string().expect("no clauses"), "trashed=false".to_string());
}

#[test]
fn query_string_reports_the_first_bad_clause() {
    let req = FileRequest {
        parent_id: "root".to_string(),
        filters: vec![
            FileFilter::Type(MimeType::Folder),
            FileFilter::Parent(Filter::Equals("x".to_string())),
        ],
        opts: vec![],
    };
    assert_eq!(req.query_string().unwrap_err().kind, FilterKind::Parent);
}

#[test]
fn build_uri_encodes_the_query() {
    let req = FileRequest { parent_id: "root".to_string(), filters: vec![], opts: vec![] };
    let uri = req
        .build_uri("https://www.googleapis.com/drive/v3/files")
        .expect("a well-formed base");
    // The URL assembly form-encodes the parameters: the query's `=` comes
    // back escaped, so the result cannot be the inputs pasted together.
    assert!(uri.starts_with("https://www.googleapis.com/drive/v3/files?q=trashed%3Dfalse&fields="));
    assert!(!uri.contains("q=trashed=false"));
}

#[test]
fn build_uri_rejects_a_bad_base() {
    let req = FileRequest { parent_id: "root".to_string(), filters: vec![], opts: vec![] };
    assert!(matches!(
        req.build_uri("not a url"),
        Err(drive_fs::errors::RequestError::Uri(_))
    ));
}

#[test]
fn build_uri_reports_an_uncompilable_clause() {
    let req = FileRequest {
        parent_id: "root".to_string(),
        filters: vec![FileFilter::IsSharedWithMe(true)],
        opts: vec![],
    };
    match req.build_uri("https://www.googleapis.com/drive/v3/files") {
        Err(drive_fs::errors::RequestError::Filter(e)) => {
            assert_eq!(e.kind, FilterKind::IsSharedWithMe);
        }
        _ => panic!("expected the filter failure"),
    }
}

#[test]
fn file_reads_as_folder_record() {
    let file = File {
        mime_type: Some(MimeType::Folder),
        id: Some("B".to_string()),
        parents: Some(vec!["A".to_string()]),
        description: None,
        kind: None,
        name: Some("docs".to_string()),
        web_content_link: None,
        drive_id: None,
        spaces: None,
        trashed: Some(false),
    };
    let rec = file.to_folder_record().expect("id and name present");
    assert_eq!(rec.id, "B".to_string());
    assert_eq!(rec.name, "docs".to_string());
    assert_eq!(rec.parents, vec!["A".to_string()]);

    let nameless = File { name: None, ..file.clone() };
    assert!(nameless.to_folder_record().is_none());
    let orphan = File { parents: None, ..file };
    assert_eq!(orphan.to_folder_record().expect("parents optional").parents.len(), 0);
}
