use drive_fs::sheets::{
    escape_colons, AppendRequest, BatchUpdateRequest, DeveloperMetadataSearchRequest, GridData,
    GridProperties, GridRange, OpenRequest, RecalculationInterval, Sheet, SheetProperties,
    SheetType, Spreadsheet, SpreadsheetProperties, StandardParameters, ValueRange,
};

fn grid(rows: i32, cols: i32) -> GridProperties {
    GridProperties {
        row_count: rows,
        column_count: cols,
        frozen_row_count: 0,
        frozen_column_count: 0,
        hide_grid_lines: false,
        row_group_control_after: false,
        column_group_control_after: false,
    }
}

fn sheet(id: i64, title: &str, rows: i32, cols: i32) -> Sheet {
    Sheet {
        properties: SheetProperties {
            sheet_id: id,
            title: title.to_string(),
            index: 0,
            sheet_type: SheetType::Grid,
            grid_properties: grid(rows, cols),
            hidden: false,
            right_to_left: false,
        },
        data: Vec::<GridData>::new(),
        merges: vec![],
        protected_ranges: vec![],
        charts: vec![],
        banded_ranges: vec![],
        developer_metadata: vec![],
        row_groups: vec![],
        column_groups: vec![],
    }
}

fn workbook() -> Spreadsheet {
    Spreadsheet {
        spreadsheet_id: "sheet-1".to_string(),
        properties: SpreadsheetProperties {
            title: "Ledger".to_string(),
            locale: "en_US".to_string(),
            auto_recalc: RecalculationInterval::OnChange,
            timezone: None,
        },
        sheets: vec![sheet(10, "Summary", 40, 5), sheet(11, "Data", 1000, 12)],
        named_ranges: None,
        spreadsheet_url: "https://example.invalid/sheet-1".to_string(),
        developer_metadata: vec![],
    }
}

#[test]
fn base26_spells_single_and_double_letters() {
    assert_eq!(GridRange::to_base_26(1), "A".to_string());
    assert_eq!(GridRange::to_base_26(2), "B".to_string());
    assert_eq!(GridRange::to_base_26(26), "Z".to_string());
    assert_eq!(GridRange::to_base_26(27), "AA".to_string());
    assert_eq!(GridRange::to_base_26(28), "AB".to_string());
    assert_eq!(GridRange::to_base_26(52), "AZ".to_string());
    assert_eq!(GridRange::to_base_26(53), "BA".to_string());
    assert_eq!(GridRange::to_base_26(702), "ZZ".to_string());
}

#[test]
fn to_range_spells_a1_notation() {
    let range = GridRange {
        sheet_id: 10,
        start_row_index: 1,
        end_row_index: 40,
        start_column_index: 1,
        end_column_index: 27,
    };
    assert_eq!(range.to_range("Summary".to_string()), "'Summary'!A1:AA40".to_string());
}

#[test]
fn standard_parameters_default_pretty_prints() {
    let p = StandardParameters::default();
    assert!(p.pretty_print);
    assert!(p.fields.is_none());
    assert!(p.quota_user.is_none());
}

#[test]
fn append_request_new_uses_default_options() {
    let values = ValueRange {
        range: Some("Data!A1:B2".to_string()),
        major_dimension: None,
        values: vec![vec!["x".to_string(), "y".to_string()]],
    };
    let req = AppendRequest::new("sheet-1".to_string(), values);
    assert_eq!(req.spreadsheet_id, "sheet-1".to_string());
    assert!(req.include_values_in_response);
    assert_eq!(req.value_input.to_param(), "RAW".to_string());
    assert_eq!(req.insert_data.to_param(), "INSERT_ROWS".to_string());
    assert_eq!(req.response_value_render.to_param(), "UNFORMATTED_VALUE".to_string());
    assert_eq!(req.response_datetime_render.to_param(), "FORMATTED_STRING".to_string());
}

#[test]
fn escape_colons_rewrites_each_colon() {
    assert_eq!(escape_colons("A1:B2"), "A1%3AB2".to_string());
    assert_eq!(escape_colons("::"), "%3A%3A".to_string());
    assert_eq!(escape_colons("plain"), "plain".to_string());
    assert_eq!(escape_colons(""), "".to_string());
}

#[test]
fn append_uri_escapes_the_range_and_carries_options() {
    let values = ValueRange {
        range: Some("A1:B2".to_string()),
        major_dimension: None,
        values: vec![],
    };
    let req = AppendRequest::new("sheet-1".to_string(), values);
    let uri = req
        .build_uri("https://sheets.example.invalid/v4/spreadsheets/")
        .expect("a well-formed base");
    assert!(uri.contains("/v4/spreadsheets/sheet-1/values/A1%3AB2:append"));
    assert!(uri.contains("valueInputOption=RAW"));
    assert!(uri.contains("insertDataOption=INSERT_ROWS"));
    assert!(uri.contains("includeValuesInResponse=true"));
}

#[test]
fn append_uri_defaults_to_a1_without_a_range() {
    let values = ValueRange { range: None, major_dimension: None, values: vec![] };
    let req = AppendRequest::new("sheet-1".to_string(), values);
    let uri = req
        .build_uri("https://sheets.example.invalid/v4/spreadsheets/")
        .expect("a well-formed base");
    assert!(uri.contains("/values/A1:append"));
}

#[test]
fn open_uri_concatenates_the_id() {
    let req = OpenRequest { sheet_id: "sheet-1".to_string() };
    assert_eq!(
        req.build_uri("https://sheets.example.invalid/v4/spreadsheets/"),
        "https://sheets.example.invalid/v4/spreadsheets/sheet-1".to_string()
    );
}

#[test]
fn read_uri_spells_the_range_path() {
    let wb = workbook();
    let req = wb.get_headers("Summary").expect("the sheet exists");
    let uri = req
        .build_uri("https://sheets.example.invalid/v4/spreadsheets/")
        .expect("a well-formed base");
    assert!(uri.contains("/v4/spreadsheets/sheet-1/values/'Summary'!A1:E1"));
    assert!(uri.contains("dateTimeRenderOption=SERIAL_NUMBER"));
}

#[test]
fn list_sheets_yields_titles_in_order() {
    let wb = workbook();
    assert_eq!(wb.list_sheets(), vec!["Summary".to_string(), "Data".to_string()]);
}

#[test]
fn sheet_properties_found_by_title() {
    let wb = workbook();
    let p = wb.get_sheet_properties("Data").expect("the sheet exists");
    assert_eq!(p.sheet_id, 11);
    assert_eq!(p.grid_properties.row_count, 1000);
    assert!(wb.get_sheet_properties("Absent").is_none());
}

#[test]
fn whole_sheet_read_covers_the_grid() {
    let wb = workbook();
    let req = wb.get_sheet("Data").expect("the sheet exists");
    assert_eq!(req.range.end_row_index, 1000);
    assert_eq!(req.range.end_column_index, 12);
    assert_eq!(req.range.start_row_index, 1);
}

#[test]
fn batch_update_uri_points_at_the_endpoint() {
    let wb = workbook();
    let req: BatchUpdateRequest = wb.batch_update_request(vec![]);
    assert_eq!(
        req.build_uri("https://sheets.example.invalid/v4/spreadsheets/"),
        "https://sheets.example.invalid/v4/spreadsheets/sheet-1:batchUpdate".to_string()
    );
}

#[test]
fn metadata_search_uri_points_at_the_endpoint() {
    let wb = workbook();
    let req: DeveloperMetadataSearchRequest = wb.search_metadata_request(vec![]);
    assert_eq!(
        req.build_uri("https://sheets.example.invalid/v4/spreadsheets/"),
        "https://sheets.example.invalid/v4/spreadsheets/sheet-1/developerMetadata:search"
            .to_string()
    );
}

#[test]
fn duplicate_titles_pick_the_first_sheet() {
    let mut wb = workbook();
    wb.sheets.push(sheet(12, "Summary", 7, 3));
    let p = wb.get_sheet_properties("Summary").expect("the sheet exists");
    assert_eq!(p.sheet_id, 10, "the first title match wins");
    let req = wb.get_sheet("Summary").expect("the sheet exists");
    assert_eq!(req.range.sheet_id, 10);
    assert_eq!(req.range.end_row_index, 40);
}
