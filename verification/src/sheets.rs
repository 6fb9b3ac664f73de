//! The spreadsheet-side data model: the schema objects the remote
//! spreadsheet service speaks of, the A1-style range spelling, and the
//! request shapes whose URIs this module compiles and verifies. Colour and
//! other floating-point formatting carriers stay with the transport layer.
use vstd::prelude::*;

verus! {

use vstd::string::*;
use crate::digits::{int_str, i32_string};
use crate::errors::UriError;
use crate::uri::{url_with_params, url_with_params_of};

#[derive(Clone, Copy, Debug)]
pub enum RecalculationInterval {
    RecalculationIntervalUnspecified,
    OnChange,
    Minute,
    Hour,
}

#[derive(Clone, Copy, Debug)]
pub enum NumberFormatType {
    Unspecified,
    Text,
    Number,
    Percent,
    Currency,
    Date,
    Time,
    DateTime,
    Scientific,
}

#[derive(Clone, Debug)]
pub struct NumberFormat {
    pub format_type: NumberFormatType,
    pub pattern: String,
}

#[derive(Clone, Debug)]
pub struct Borders {
    pub borders_not_implemented: String,
}

#[derive(Clone, Debug)]
pub struct Padding {
    pub top: Option<i16>,
    pub right: i16,
    pub bottom: Option<i16>,
    pub left: i16,
}

#[derive(Clone, Copy, Debug)]
pub enum HorizontalAlign {
    HorizontalalignNotImplemented,
}

#[derive(Clone, Copy, Debug)]
pub enum VertialAlign {
    VERTIALALIGNNOTIMPLEMENTED,
}

#[derive(Clone, Copy, Debug)]
pub enum WrapStrategy {
    WrapStrategyNotImplemented,
}

#[derive(Clone, Copy, Debug)]
pub enum TextDirection {
    TEXTDIRECTIONNOTIMPLEMENTED,
}

#[derive(Clone, Copy, Debug)]
pub enum HyperlinkDisplayType {
    HYPERLINKDISPLAYTYPENOTIMPLEMENTED,
}

#[derive(Clone, Debug)]
pub struct VerticalAlign {
    pub verticalalign_not_implemented: String,
}

#[derive(Clone, Debug)]
pub struct TextFormat {
    pub textformat_not_implemented: String,
}

#[derive(Clone, Debug)]
pub struct TextRotation {
    pub textrotation_not_implemented: String,
}

#[derive(Clone, Debug)]
pub struct SpreadsheetTheme {
    pub spreadsheettheme_not_implemented: String,
}

/// Spreadsheet-wide properties; the iterative-calculation knobs live with
/// the transport layer.
#[derive(Clone, Debug)]
pub struct SpreadsheetProperties {
    pub title: String,
    pub locale: String,
    pub auto_recalc: RecalculationInterval,
    pub timezone: Option<String>,
}

#[derive(Clone, Copy, Debug)]
pub struct GridProperties {
    pub row_count: i32,
    pub column_count: i32,
    pub frozen_row_count: i32,
    pub frozen_column_count: i32,
    pub hide_grid_lines: bool,
    pub row_group_control_after: bool,
    pub column_group_control_after: bool,
}

#[derive(Clone, Copy, Debug)]
pub struct GridCoordinate {
    pub sheet_id: i64,
    pub row_index: i64,
    pub column_index: i64,
}

#[derive(Clone, Copy, Debug)]
pub enum SheetType {
    Unspecified,
    Grid,
    Object,
}

/// One sheet's properties; the tab colour lives with the transport layer.
#[derive(Clone, Debug)]
pub struct SheetProperties {
    pub sheet_id: i64,
    pub title: String,
    pub index: i32,
    pub sheet_type: SheetType,
    pub grid_properties: GridProperties,
    pub hidden: bool,
    pub right_to_left: bool,
}

#[derive(Clone, Debug)]
pub struct GridData {
    pub griddata_not_implemented: String,
}

/// A rectangle of cells on one sheet, row and column indices 1-based.
#[derive(Clone, Copy, Debug)]
pub struct GridRange {
    pub sheet_id: i64,
    pub start_row_index: i32,
    pub end_row_index: i32,
    pub start_column_index: i32,
    pub end_column_index: i32,
}

/// The letter naming column `v`, for `1 <= v <= 26`.
pub open spec fn letter26(v: int) -> char {
    if v == 1 {
        'A'
    } else if v == 2 {
        'B'
    } else if v == 3 {
        'C'
    } else if v == 4 {
        'D'
    } else if v == 5 {
        'E'
    } else if v == 6 {
        'F'
    } else if v == 7 {
        'G'
    } else if v == 8 {
        'H'
    } else if v == 9 {
        'I'
    } else if v == 10 {
        'J'
    } else if v == 11 {
        'K'
    } else if v == 12 {
        'L'
    } else if v == 13 {
        'M'
    } else if v == 14 {
        'N'
    } else if v == 15 {
        'O'
    } else if v == 16 {
        'P'
    } else if v == 17 {
        'Q'
    } else if v == 18 {
        'R'
    } else if v == 19 {
        'S'
    } else if v == 20 {
        'T'
    } else if v == 21 {
        'U'
    } else if v == 22 {
        'V'
    } else if v == 23 {
        'W'
    } else if v == 24 {
        'X'
    } else if v == 25 {
        'Y'
    } else {
        'Z'
    }
}

/// The base-26 letter spelling of column `v`, up to two letters (`A` through
/// `ZZ`, columns 1 through 702).
pub open spec fn base26(v: int) -> Seq<char> {
    if v <= 26 {
        seq![letter26(v)]
    } else {
        seq![letter26((v - 1) / 26), letter26((v - 1) % 26 + 1)]
    }
}

/// One column letter as text.
fn letter26_str(v: u64) -> (s: &'static str)
    requires
        1 <= v <= 26,
    ensures
        s@ == seq![letter26(v as int)],
{
    proof {
        reveal_strlit("A");
        reveal_strlit("B");
        reveal_strlit("C");
        reveal_strlit("D");
        reveal_strlit("E");
        reveal_strlit("F");
        reveal_strlit("G");
        reveal_strlit("H");
        reveal_strlit("I");
        reveal_strlit("J");
        reveal_strlit("K");
        reveal_strlit("L");
        reveal_strlit("M");
        reveal_strlit("N");
        reveal_strlit("O");
        reveal_strlit("P");
        reveal_strlit("Q");
        reveal_strlit("R");
        reveal_strlit("S");
        reveal_strlit("T");
        reveal_strlit("U");
        reveal_strlit("V");
        reveal_strlit("W");
        reveal_strlit("X");
        reveal_strlit("Y");
        reveal_strlit("Z");
    }
    let s: &'static str = match v {
        1 => "A",
        2 => "B",
        3 => "C",
        4 => "D",
        5 => "E",
        6 => "F",
        7 => "G",
        8 => "H",
        9 => "I",
        10 => "J",
        11 => "K",
        12 => "L",
        13 => "M",
        14 => "N",
        15 => "O",
        16 => "P",
        17 => "Q",
        18 => "R",
        19 => "S",
        20 => "T",
        21 => "U",
        22 => "V",
        23 => "W",
        24 => "X",
        25 => "Y",
        _ => "Z",
    };
    proof {
        assert(s@ =~= seq![letter26(v as int)]);
    }
    s
}

impl GridRange {
    /// Converts a 1-based column index into the letters the sheet grid uses
    /// to name columns; two letters carry as far as column 702 (`ZZ`).
    pub fn to_base_26(value: i32) -> (r: String)
        requires
            1 <= value <= 702,
        ensures
            r@ == base26(value as int),
    {
        if value <= 26 {
            letter26_str(value as u64).to_owned()
        } else {
            let v = (value - 1) as u64;
            let mut s = letter26_str(v / 26).to_owned();
            s.append(letter26_str(v % 26 + 1));
            proof {
                assert(s@ =~= seq![letter26((value - 1) as int / 26)].push(letter26((value - 1)
                    as int % 26 + 1)));
                assert(s@ =~= base26(value as int));
            }
            s
        }
    }

    /// The A1-style spelling of the range on the named sheet:
    /// `'name'!A1:B2`.
    pub fn to_range(&self, sheet_name: String) -> (r: String)
        requires
            1 <= self.start_column_index <= 702,
            1 <= self.end_column_index <= 702,
        ensures
            r@ == "'"@ + sheet_name@ + "'!"@ + base26(self.start_column_index as int) + int_str(
                self.start_row_index as int,
            ) + ":"@ + base26(self.end_column_index as int) + int_str(
                self.end_row_index as int,
            ),
    {
        proof {
            reveal_strlit("'");
            reveal_strlit("'!");
            reveal_strlit(":");
        }
        let mut s = String::from_str("'");
        s.append(sheet_name.as_str());
        s.append("'!");
        let c1 = GridRange::to_base_26(self.start_column_index);
        s.append(c1.as_str());
        let r1 = i32_string(self.start_row_index);
        s.append(r1.as_str());
        s.append(":");
        let c2 = GridRange::to_base_26(self.end_column_index);
        s.append(c2.as_str());
        let r2 = i32_string(self.end_row_index);
        s.append(r2.as_str());
        proof {
            assert(s@ =~= "'"@ + sheet_name@ + "'!"@ + base26(self.start_column_index as int)
                + int_str(self.start_row_index as int) + ":"@ + base26(
                self.end_column_index as int) + int_str(self.end_row_index as int));
        }
        s
    }
}

#[derive(Clone, Copy, Debug)]
pub enum ValueInputOption {
    InputValueOptionUnspecified,
    Raw,
    UserEnetered,
}

#[derive(Clone, Copy, Debug)]
pub enum InsertDataOption {
    Overwrite,
    InsertRows,
}

#[derive(Clone, Copy, Debug)]
pub enum ValueRenderOption {
    FormattedValue,
    UnformattedValue,
    Formula,
}

#[derive(Clone, Copy, Debug)]
pub enum DateTimeRenderOption {
    SerialNumber,
    FormattedString,
}

impl ValueInputOption {
    pub open spec fn wire_str(&self) -> Seq<char> {
        match self {
            ValueInputOption::InputValueOptionUnspecified => "INPUT_VALUE_OPTION_UNSPECIFIED"@,
            ValueInputOption::Raw => "RAW"@,
            ValueInputOption::UserEnetered => "USER_ENTERED"@,
        }
    }

    /// Spells the option as the service writes it.
    pub fn to_param(&self) -> (r: String)
        ensures
            r@ == self.wire_str(),
    {
        match self {
            ValueInputOption::InputValueOptionUnspecified => "INPUT_VALUE_OPTION_UNSPECIFIED".to_owned(),
            ValueInputOption::Raw => "RAW".to_owned(),
            ValueInputOption::UserEnetered => "USER_ENTERED".to_owned(),
        }
    }
}

impl InsertDataOption {
    pub open spec fn wire_str(&self) -> Seq<char> {
        match self {
            InsertDataOption::Overwrite => "OVERWRITE"@,
            InsertDataOption::InsertRows => "INSERT_ROWS"@,
        }
    }

    /// Spells the option as the service writes it.
    pub fn to_param(&self) -> (r: String)
        ensures
            r@ == self.wire_str(),
    {
        match self {
            InsertDataOption::Overwrite => "OVERWRITE".to_owned(),
            InsertDataOption::InsertRows => "INSERT_ROWS".to_owned(),
        }
    }
}

impl ValueRenderOption {
    pub open spec fn wire_str(&self) -> Seq<char> {
        match self {
            ValueRenderOption::FormattedValue => "FORMATTED_VALUE"@,
            ValueRenderOption::UnformattedValue => "UNFORMATTED_VALUE"@,
            ValueRenderOption::Formula => "FORMULA"@,
        }
    }

    /// Spells the option as the service writes it.
    pub fn to_param(&self) -> (r: String)
        ensures
            r@ == self.wire_str(),
    {
        match self {
            ValueRenderOption::FormattedValue => "FORMATTED_VALUE".to_owned(),
            ValueRenderOption::UnformattedValue => "UNFORMATTED_VALUE".to_owned(),
            ValueRenderOption::Formula => "FORMULA".to_owned(),
        }
    }
}

impl DateTimeRenderOption {
    pub open spec fn wire_str(&self) -> Seq<char> {
        match self {
            DateTimeRenderOption::SerialNumber => "SERIAL_NUMBER"@,
            DateTimeRenderOption::FormattedString => "FORMATTED_STRING"@,
        }
    }

    /// Spells the option as the service writes it.
    pub fn to_param(&self) -> (r: String)
        ensures
            r@ == self.wire_str(),
    {
        match self {
            DateTimeRenderOption::SerialNumber => "SERIAL_NUMBER".to_owned(),
            DateTimeRenderOption::FormattedString => "FORMATTED_STRING".to_owned(),
        }
    }
}

/// The spelling of a boolean in a query parameter.
pub open spec fn bool_str(b: bool) -> Seq<char> {
    if b {
        "true"@
    } else {
        "false"@
    }
}

/// Spells a boolean as a query parameter value.
pub fn bool_param(b: bool) -> (r: String)
    ensures
        r@ == bool_str(b),
{
    if b {
        "true".to_owned()
    } else {
        "false".to_owned()
    }
}

/// The optional standard query parameters every call can carry.
#[derive(Clone, Debug)]
pub struct StandardParameters {
    pub fields: Option<String>,
    pub upload_type: Option<String>,
    pub xgafv: Option<i32>,
    pub callback: Option<String>,
    pub alt: Option<String>,
    pub access_token: Option<String>,
    pub upload_protocol: Option<String>,
    pub pretty_print: bool,
    pub quota_user: Option<String>,
}

impl StandardParameters {
    /// The default parameter set: nothing set, pretty printing on.
    pub open spec fn default_spec() -> StandardParameters {
        StandardParameters {
            fields: None,
            upload_type: None,
            xgafv: None,
            callback: None,
            alt: None,
            access_token: None,
            upload_protocol: None,
            pretty_print: true,
            quota_user: None,
        }
    }

    /// The defaults: nothing set, pretty printing on.
    pub fn default() -> (r: StandardParameters)
        ensures
            r == StandardParameters::default_spec(),
    {
        StandardParameters {
            fields: None,
            upload_type: None,
            xgafv: None,
            callback: None,
            alt: None,
            access_token: None,
            upload_protocol: None,
            pretty_print: true,
            quota_user: None,
        }
    }
}

#[derive(Clone, Copy, Debug)]
pub enum MajorDimension {
    DimensionUnspecified,
    Rows,
    Columns,
}

/// A rectangle of cell texts; the service hands every value back as text.
#[derive(Clone, Debug)]
pub struct ValueRange {
    pub range: Option<String>,
    pub major_dimension: Option<MajorDimension>,
    pub values: Vec<Vec<String>>,
}

#[derive(Clone, Copy, Debug)]
pub enum InterpolationPointType {
    Unspecified,
    Min,
    Max,
    Number,
    Percent,
    Percentile,
}

#[derive(Clone, Copy, Debug)]
pub enum SortOrder {
    Unspecified,
    Ascending,
    Descending,
}

#[derive(Clone, Copy, Debug)]
pub enum ConditionType {
    ConditionTypeUnspecified,
    NumberGreater,
    NumberGreaterThanEq,
    NumberLess,
    NumberLessThanEq,
    NumberEq,
    NumberNotEq,
    NumberBetween,
    NumberNotBetween,
    TextContains,
    TextNotContains,
    TextStartsWith,
    TextEndsWith,
    TextEq,
    TextIsEmail,
    TextIsUrl,
    DateEq,
    DateBefore,
    DateAfter,
    DateOnOrBefore,
    DateOnOrAfter,
    DateBetween,
    DateNotBetween,
    DateIsValid,
    OneOfRange,
    OneOfList,
    Blank,
    NotBlank,
    CustomFormula,
    Boolean,
}

#[derive(Clone, Copy, Debug)]
pub enum CompDate {
    DateBefore,
    DateAfter,
    DateOnOrBefore,
    DateOnOrAfter,
}

#[derive(Clone, Debug)]
pub enum ConditionValue {
    RelativeDate(CompDate),
    UserEnteredValue(String),
}

#[derive(Clone, Debug)]
pub struct BooleanCondition {
    pub condition_type: ConditionType,
    pub values: Option<Vec<ConditionValue>>,
}

#[derive(Clone, Debug)]
pub struct ProtectedRange {
    pub protectedrange_not_implemented: String,
}

#[derive(Clone, Debug)]
pub struct EmbeddedChart {
    pub embeddedchart_not_implemented: String,
}

#[derive(Clone, Debug)]
pub struct BandedRange {
    pub bandedrange_not_implemented: String,
}

#[derive(Clone, Copy, Debug)]
pub enum Dimension {
    DimensionUnspecified,
    Rows,
    Columns,
}

#[derive(Clone, Copy, Debug)]
pub struct DimensionRange {
    pub sheet_id: i64,
    pub dimension: Dimension,
    pub start_index: i32,
    pub end_index: i32,
}

#[derive(Clone, Copy, Debug)]
pub struct DimensionGroup {
    pub range: DimensionRange,
    pub depth: i32,
    pub collapsed: bool,
}

#[derive(Clone, Copy, Debug)]
pub enum ThemeColorType {
    ThemeColoTypeUnpsecified,
    Text,
    Background,
    Accent1,
    Accent2,
    Accent3,
    Accent4,
    Accent5,
    Accent6,
    Link,
}

#[derive(Clone, Copy, Debug)]
pub enum EmbeddedObjectPosition {
    SheetId(i64),
    OverlayPosition(OverlayPosition),
    NewSheet(bool),
}

#[derive(Clone, Copy, Debug)]
pub struct OverlayPosition {
    pub anchor_cell: GridCoordinate,
    pub offset_x_pixels: i64,
    pub offset_y_pixels: i64,
    pub width_pixels: i64,
    pub height_pixels: i64,
}

/// One sheet of a spreadsheet; colour-bearing decorations (conditional
/// formats, filter views, slicers) live with the transport layer.
#[derive(Clone, Debug)]
pub struct Sheet {
    pub properties: SheetProperties,
    pub data: Vec<GridData>,
    pub merges: Vec<GridRange>,
    pub protected_ranges: Vec<ProtectedRange>,
    pub charts: Vec<EmbeddedChart>,
    pub banded_ranges: Vec<BandedRange>,
    pub developer_metadata: Vec<DeveloperMetadata>,
    pub row_groups: Vec<DimensionGroup>,
    pub column_groups: Vec<DimensionGroup>,
}

#[derive(Clone, Debug)]
pub struct NamedRange {
    pub named_range_id: String,
    pub name: String,
    pub range: GridRange,
}

#[derive(Clone, Debug)]
pub struct DeveloperMetadata {
    pub id: Option<i64>,
    pub key: String,
    pub value: String,
    pub location: DeveloperMetadataLocation,
    pub visibility: DeveloperMetadataVisibility,
}

/// A whole spreadsheet as the open call returns it.
#[derive(Clone, Debug)]
pub struct Spreadsheet {
    pub spreadsheet_id: String,
    pub properties: SpreadsheetProperties,
    pub sheets: Vec<Sheet>,
    pub named_ranges: Option<Vec<NamedRange>>,
    pub spreadsheet_url: String,
    pub developer_metadata: Vec<DeveloperMetadata>,
}

impl Spreadsheet {
    /// The titles of the sheets, in sheet order.
    pub fn list_sheets(&self) -> (r: Vec<String>)
        ensures
            r@.len() == self.sheets@.len(),
            forall|i: int|
                0 <= i < r@.len() ==> r.deep_view()[i] == #[trigger] self.sheets@[i]
                    .properties.title@,
    {
        let mut out: Vec<String> = Vec::new();
        let n = self.sheets.len();
        let mut i: usize = 0;
        while i < n
            invariant
                n == self.sheets@.len(),
                0 <= i <= n,
                out@.len() == i,
                forall|j: int|
                    0 <= j < i ==> out.deep_view()[j] == #[trigger] self.sheets@[j]
                        .properties.title@,
            decreases n - i,
        {
            out.push(self.sheets[i].properties.title.clone());
            i += 1;
        }
        out
    }

    /// The properties of the first sheet with the given title, if any.
    pub fn get_sheet_properties(&self, sheet_name: &str) -> (r: Option<SheetProperties>)
        ensures
            r is Some <==> exists|i: int|
                0 <= i < self.sheets@.len() && (#[trigger] self.sheets@[i]).properties.title@
                    == sheet_name@,
            r matches Some(p) ==> exists|i: int|
                0 <= i < self.sheets@.len() && (#[trigger] self.sheets@[i]).properties.title@
                    == sheet_name@ && (forall|j: int|
                    0 <= j < i ==> self.sheets@[j].properties.title@ != sheet_name@) && p
                    == self.sheets@[i].properties,
    {
        let n = self.sheets.len();
        let mut i: usize = 0;
        let probe = sheet_name.to_owned();
        while i < n
            invariant
                n == self.sheets@.len(),
                0 <= i <= n,
                probe@ == sheet_name@,
                forall|j: int|
                    0 <= j < i ==> (#[trigger] self.sheets@[j]).properties.title@ != sheet_name@,
            decreases n - i,
        {
            if self.sheets[i].properties.title == probe {
                let p = &self.sheets[i].properties;
                let found = SheetProperties {
                    sheet_id: p.sheet_id,
                    title: p.title.clone(),
                    index: p.index,
                    sheet_type: p.sheet_type,
                    grid_properties: p.grid_properties,
                    hidden: p.hidden,
                    right_to_left: p.right_to_left,
                };
                proof {
                    assert(found == self.sheets@[i as int].properties);
                }
                return Some(found);
            }
            i += 1;
        }
        None
    }

    /// The read request that fetches the header row of the named sheet: its
    /// first row across every column.
    pub fn get_headers(&self, sheet_name: &str) -> (r: Option<ReadRequest>)
        ensures
            r is Some <==> exists|i: int|
                0 <= i < self.sheets@.len() && (#[trigger] self.sheets@[i]).properties.title@
                    == sheet_name@,
            r matches Some(req) ==> req.spreadsheet_id@ == self.spreadsheet_id@
                && req.sheet_name@ == sheet_name@ && req.range.start_row_index == 1
                && req.range.end_row_index == 1 && req.range.start_column_index == 1 && exists|
                i: int,
            |
                0 <= i < self.sheets@.len() && (#[trigger] self.sheets@[i]).properties.title@
                    == sheet_name@ && (forall|j: int|
                    0 <= j < i ==> self.sheets@[j].properties.title@ != sheet_name@)
                    && req.range.sheet_id == self.sheets@[i].properties.sheet_id
                    && req.range.end_column_index == self.sheets@[i]
                    .properties.grid_properties.column_count,
    {
        match self.get_sheet_properties(sheet_name) {
            Some(props) => Some(
                ReadRequest {
                    spreadsheet_id: self.spreadsheet_id.clone(),
                    sheet_name: sheet_name.to_owned(),
                    range: GridRange {
                        sheet_id: props.sheet_id,
                        start_row_index: 1,
                        start_column_index: 1,
                        end_row_index: 1,
                        end_column_index: props.grid_properties.column_count,
                    },
                },
            ),
            None => None,
        }
    }

    /// The read request that fetches the whole named sheet.
    pub fn get_sheet(&self, sheet_name: &str) -> (r: Option<ReadRequest>)
        ensures
            r is Some <==> exists|i: int|
                0 <= i < self.sheets@.len() && (#[trigger] self.sheets@[i]).properties.title@
                    == sheet_name@,
            r matches Some(req) ==> req.spreadsheet_id@ == self.spreadsheet_id@
                && req.sheet_name@ == sheet_name@ && req.range.start_row_index == 1
                && req.range.start_column_index == 1 && exists|i: int|
                0 <= i < self.sheets@.len() && (#[trigger] self.sheets@[i]).properties.title@
                    == sheet_name@ && (forall|j: int|
                    0 <= j < i ==> self.sheets@[j].properties.title@ != sheet_name@)
                    && req.range.sheet_id == self.sheets@[i].properties.sheet_id
                    && req.range.end_row_index == self.sheets@[i]
                    .properties.grid_properties.row_count && req.range.end_column_index
                    == self.sheets@[i].properties.grid_properties.column_count,
    {
        match self.get_sheet_properties(sheet_name) {
            Some(props) => Some(
                ReadRequest {
                    spreadsheet_id: self.spreadsheet_id.clone(),
                    sheet_name: sheet_name.to_owned(),
                    range: GridRange {
                        sheet_id: props.sheet_id,
                        start_row_index: 1,
                        start_column_index: 1,
                        end_row_index: props.grid_properties.row_count,
                        end_column_index: props.grid_properties.column_count,
                    },
                },
            ),
            None => None,
        }
    }

    /// The spreadsheet-level batch update carrying the given items.
    pub fn batch_update_request(&self, requests: Vec<BatchUpdateRequestItem>) -> (r:
        BatchUpdateRequest)
        ensures
            r.sheet_id@ == self.spreadsheet_id@,
            r.requests@ == requests@,
            r.include_spreadsheet_in_response == false,
            r.response_ranges@.len() == 0,
            r.response_include_grid_data == false,
    {
        BatchUpdateRequest {
            sheet_id: self.spreadsheet_id.clone(),
            requests,
            include_spreadsheet_in_response: false,
            response_ranges: Vec::new(),
            response_include_grid_data: false,
        }
    }

    /// The metadata search scoped to this spreadsheet.
    pub fn search_metadata_request(&self, filters: Vec<DataFilter>) -> (r:
        DeveloperMetadataSearchRequest)
        ensures
            r.sheet_id@ == self.spreadsheet_id@,
            r.filters@ == filters@,
    {
        DeveloperMetadataSearchRequest { sheet_id: self.spreadsheet_id.clone(), filters }
    }
}

/// Per-connection settings.
#[derive(Clone, Copy, Debug)]
pub struct Settings {
    pub auto_write: bool,
}

/// Fetches one spreadsheet by id.
#[derive(Clone, Debug)]
pub struct OpenRequest {
    pub sheet_id: String,
}

impl OpenRequest {
    /// The request URI: the id behind the base URL.
    pub fn build_uri(&self, base_url: &str) -> (r: String)
        ensures
            r@ == base_url@ + self.sheet_id@,
    {
        let mut s = base_url.to_owned();
        s.append(self.sheet_id.as_str());
        s
    }
}

/// Reads a range of one sheet.
#[derive(Clone, Debug)]
pub struct ReadRequest {
    pub spreadsheet_id: String,
    pub sheet_name: String,
    pub range: GridRange,
}

impl ReadRequest {
    /// The request URI: the range path under the spreadsheet, asking for
    /// serial-number dates. Fails only when the URL parser refuses the base.
    pub fn build_uri(&self, base_url: &str) -> (r: Result<String, UriError>)
        requires
            1 <= self.range.start_column_index <= 702,
            1 <= self.range.end_column_index <= 702,
        ensures
            r matches Ok(u) ==> u@ == url_with_params_of(
                base_url@ + self.spreadsheet_id@ + "/values/"@ + "'"@ + self.sheet_name@ + "'!"@
                    + base26(self.range.start_column_index as int) + int_str(
                    self.range.start_row_index as int,
                ) + ":"@ + base26(self.range.end_column_index as int) + int_str(
                    self.range.end_row_index as int,
                ),
                seq![("dateTimeRenderOption"@, "SERIAL_NUMBER"@)],
            ),
    {
        let mut path = base_url.to_owned();
        path.append(self.spreadsheet_id.as_str());
        path.append("/values/");
        let range = self.range.to_range(self.sheet_name.clone());
        path.append(range.as_str());
        let mut params: Vec<(String, String)> = Vec::new();
        params.push(("dateTimeRenderOption".to_owned(), "SERIAL_NUMBER".to_owned()));
        proof {
            assert(params.deep_view() =~= seq![("dateTimeRenderOption"@, "SERIAL_NUMBER"@)]);
            assert(path@ =~= base_url@ + self.spreadsheet_id@ + "/values/"@ + "'"@
                + self.sheet_name@ + "'!"@ + base26(self.range.start_column_index as int)
                + int_str(self.range.start_row_index as int) + ":"@ + base26(
                self.range.end_column_index as int) + int_str(self.range.end_row_index as int));
        }
        url_with_params(path.as_str(), &params)
    }
}

/// The given text with each `:` escaped for a URI path.
pub open spec fn esc_colons(s: Seq<char>) -> Seq<char>
    decreases s.len(),
{
    if s.len() == 0 {
        Seq::empty()
    } else {
        (if s[0] == ':' {
            "%3A"@
        } else {
            seq![s[0]]
        }) + esc_colons(s.drop_first())
    }
}

/// Escaping distributes over appending one character.
pub proof fn lemma_esc_colons_push(s: Seq<char>, c: char)
    ensures
        esc_colons(s.push(c)) == esc_colons(s) + (if c == ':' {
            "%3A"@
        } else {
            seq![c]
        }),
    decreases s.len(),
{
    let tail: Seq<char> = if c == ':' {
        "%3A"@
    } else {
        seq![c]
    };
    if s.len() == 0 {
        assert(s.push(c)[0] == c);
        assert(s.push(c).drop_first() =~= Seq::<char>::empty());
        assert(esc_colons(Seq::<char>::empty()) == Seq::<char>::empty());
        assert(esc_colons(s.push(c)) =~= tail);
        assert(esc_colons(s) + tail =~= tail);
    } else {
        assert(s.push(c)[0] == s[0]);
        assert(s.push(c).drop_first() =~= s.drop_first().push(c));
        lemma_esc_colons_push(s.drop_first(), c);
        let head: Seq<char> = if s[0] == ':' {
            "%3A"@
        } else {
            seq![s[0]]
        };
        assert(esc_colons(s.push(c)) == head + (esc_colons(s.drop_first()) + tail));
        assert(head + (esc_colons(s.drop_first()) + tail) =~= (head + esc_colons(s.drop_first()))
            + tail);
    }
}

/// Escapes each `:` in the text for use inside a URI path.
pub fn escape_colons(s: &str) -> (r: String)
    ensures
        r@ == esc_colons(s@),
{
    proof {
        reveal_strlit("%3A");
    }
    let n = s.unicode_len();
    let mut out = String::new();
    let mut i: usize = 0;
    while i < n
        invariant
            n == s@.len(),
            0 <= i <= n,
            out@ == esc_colons(s@.take(i as int)),
            "%3A"@ =~= seq!['%', '3', 'A'],
        decreases n - i,
    {
        let ghost before = out@;
        let c = s.get_char(i);
        if c == ':' {
            out.append("%3A");
        } else {
            let piece = s.substring_char(i, i + 1);
            out.append(piece);
            proof {
                assert(piece@ =~= seq![c]);
            }
        }
        proof {
            lemma_esc_colons_push(s@.take(i as int), c);
            assert(s@.take(i + 1) =~= s@.take(i as int).push(c));
        }
        i += 1;
    }
    proof {
        assert(s@.take(n as int) =~= s@);
    }
    out
}

/// Appends rows behind the last table in a range.
#[derive(Clone, Debug)]
pub struct AppendRequest {
    pub spreadsheet_id: String,
    pub value_input: ValueInputOption,
    pub insert_data: InsertDataOption,
    pub include_values_in_response: bool,
    pub response_value_render: ValueRenderOption,
    pub response_datetime_render: DateTimeRenderOption,
    pub standard_parameters: StandardParameters,
    pub values: ValueRange,
}

impl AppendRequest {
    /// An append of the given values with the default options: raw input,
    /// inserted rows, and unformatted values echoed back.
    pub fn new(spreadsheet_id: String, values: ValueRange) -> (r: AppendRequest)
        ensures
            r.spreadsheet_id@ == spreadsheet_id@,
            r.value_input is Raw,
            r.insert_data is InsertRows,
            r.include_values_in_response == true,
            r.response_value_render is UnformattedValue,
            r.response_datetime_render is FormattedString,
            r.standard_parameters == StandardParameters::default_spec(),
            r.values == values,
    {
        AppendRequest {
            spreadsheet_id,
            value_input: ValueInputOption::Raw,
            insert_data: InsertDataOption::InsertRows,
            include_values_in_response: true,
            response_value_render: ValueRenderOption::UnformattedValue,
            response_datetime_render: DateTimeRenderOption::FormattedString,
            standard_parameters: StandardParameters::default(),
            values,
        }
    }

    /// The range whose table is appended to: the values' own range with its
    /// `:` escaped, or the `A1` default.
    pub open spec fn range_path(&self) -> Seq<char> {
        match self.values.range {
            Some(rng) => esc_colons(rng@),
            None => "A1"@,
        }
    }

    /// The request URI: the escaped range's append endpoint with the five
    /// option parameters. Fails only when the URL parser refuses the base.
    pub fn build_uri(&self, base_url: &str) -> (r: Result<String, UriError>)
        ensures
            r matches Ok(u) ==> u@ == url_with_params_of(
                base_url@ + self.spreadsheet_id@ + "/values/"@ + self.range_path()
                    + ":append"@,
                seq![
                    ("valueInputOption"@, self.value_input.wire_str()),
                    ("insertDataOption"@, self.insert_data.wire_str()),
                    ("includeValuesInResponse"@, bool_str(self.include_values_in_response)),
                    ("responseValueRenderOption"@, self.response_value_render.wire_str()),
                    ("responseDateTimeRenderOption"@, self.response_datetime_render.wire_str()),
                ],
            ),
    {
        let mut path = base_url.to_owned();
        path.append(self.spreadsheet_id.as_str());
        path.append("/values/");
        match &self.values.range {
            Some(rng) => {
                let escaped = escape_colons(rng.as_str());
                path.append(escaped.as_str());
            },
            None => {
                path.append("A1");
            },
        }
        path.append(":append");
        let mut params: Vec<(String, String)> = Vec::new();
        params.push(("valueInputOption".to_owned(), self.value_input.to_param()));
        params.push(("insertDataOption".to_owned(), self.insert_data.to_param()));
        params.push((
            "includeValuesInResponse".to_owned(),
            bool_param(self.include_values_in_response),
        ));
        params.push(("responseValueRenderOption".to_owned(), self.response_value_render.to_param()));
        params.push((
            "responseDateTimeRenderOption".to_owned(),
            self.response_datetime_render.to_param(),
        ));
        proof {
            assert(path@ =~= base_url@ + self.spreadsheet_id@ + "/values/"@ + self.range_path()
                + ":append"@);
            assert(params.deep_view() =~= seq![
                ("valueInputOption"@, self.value_input.wire_str()),
                ("insertDataOption"@, self.insert_data.wire_str()),
                ("includeValuesInResponse"@, bool_str(self.include_values_in_response)),
                ("responseValueRenderOption"@, self.response_value_render.wire_str()),
                ("responseDateTimeRenderOption"@, self.response_datetime_render.wire_str()),
            ]);
        }
        url_with_params(path.as_str(), &params)
    }
}

/// The per-cell outcome of an update.
#[derive(Clone, Debug)]
pub struct UpdateValuesResponse {
    pub spreadsheet_id: String,
    pub updated_range: String,
    pub updated_rows: i32,
    pub updated_columns: i32,
    pub updated_cells: i32,
    pub updated_data: ValueRange,
}

/// What an append call reports back.
#[derive(Clone, Debug)]
pub struct AppendResponse {
    pub spreadsheet_id: String,
    pub table_range: String,
    pub updates: UpdateValuesResponse,
}

#[derive(Clone, Copy, Debug)]
pub enum DeveloperMetadataLocationType {
    Unspecified,
    Row,
    Column,
    Sheet,
    Spreadsheet,
}

#[derive(Clone, Copy, Debug)]
pub enum DeveloperMetadataLocationValue {
    Spreadsheet(bool),
    SheetId(i64),
    Range(DimensionRange),
}

#[derive(Clone, Copy, Debug)]
pub struct DeveloperMetadataLocation {
    pub location_type: Option<DeveloperMetadataLocationType>,
    pub value: DeveloperMetadataLocationValue,
}

#[derive(Clone, Copy, Debug)]
pub enum DeveloperMetadataMatchingStrategy {
    Unspecified,
    Exact,
    Intersecting,
}

#[derive(Clone, Copy, Debug)]
pub enum DeveloperMetadataVisibility {
    Unspecified,
    Document,
    Project,
}

#[derive(Clone, Debug)]
pub struct DeveloperMetadataLookup {
    pub metadata_location: DeveloperMetadataLocation,
    pub location_matching_strategy: DeveloperMetadataMatchingStrategy,
    pub metadata_id: Option<i64>,
    pub location_type: Option<DeveloperMetadataLocationType>,
    pub metadata_key: Option<String>,
    pub metadata_value: Option<String>,
    pub visibility: Option<DeveloperMetadataVisibility>,
}

#[derive(Clone, Debug)]
pub enum DataFilter {
    Lookup(DeveloperMetadataLookup),
    A1Range(String),
    Range(GridRange),
}

#[derive(Clone, Debug)]
pub struct DataFilterValueRange {
    pub filter: DataFilter,
    pub major_dimension: MajorDimension,
    pub values: Vec<String>,
}

#[derive(Clone, Debug)]
pub struct BatchUpdateByDataFilterRequest {
    pub spreadsheet_id: String,
    pub data: Vec<DataFilterValueRange>,
    pub value_input: ValueInputOption,
    pub include_values_in_response: bool,
    pub response_value_render: ValueRenderOption,
    pub response_datetime_render: DateTimeRenderOption,
}

#[derive(Clone, Debug)]
pub struct CreateDeveloperMetadataRequest {
    pub developer_metadata: DeveloperMetadata,
}

#[derive(Clone, Debug)]
pub struct UpdateDeveloperMetadataRequest {
    pub data_filters: Vec<DataFilter>,
    pub developer_metadata: DeveloperMetadata,
    pub fields: String,
}

#[derive(Clone, Debug)]
pub struct DeleteDeveloperMetadataRequest {
    pub filter: DataFilter,
}

#[derive(Clone, Debug)]
pub struct DeleteDeveloperMetadataResponse {
    pub deleted: Vec<DeveloperMetadata>,
}

/// Searches the developer metadata of one spreadsheet.
#[derive(Clone, Debug)]
pub struct DeveloperMetadataSearchRequest {
    pub sheet_id: String,
    pub filters: Vec<DataFilter>,
}

impl DeveloperMetadataSearchRequest {
    /// The request URI: the search endpoint under the spreadsheet.
    pub fn build_uri(&self, base_url: &str) -> (r: String)
        ensures
            r@ == base_url@ + self.sheet_id@ + "/developerMetadata:search"@,
    {
        let mut s = base_url.to_owned();
        s.append(self.sheet_id.as_str());
        s.append("/developerMetadata:search");
        proof {
            assert(s@ =~= base_url@ + self.sheet_id@ + "/developerMetadata:search"@);
        }
        s
    }
}

#[derive(Clone, Debug)]
pub struct MatchedDeveloperMetadata {
    pub developer_metadata: DeveloperMetadata,
    pub filters: Vec<DataFilter>,
}

#[derive(Clone, Debug)]
pub struct MetadataSearchResult {
    pub matches: Option<Vec<MatchedDeveloperMetadata>>,
}

#[derive(Clone, Debug)]
pub enum BatchUpdateRequestItem {
    CreateDeveloperMetadata(CreateDeveloperMetadataRequest),
    UpdateDeveloperMetadata(UpdateDeveloperMetadataRequest),
    DeleteDeveloperMetadata(DeleteDeveloperMetadataRequest),
}

#[derive(Clone, Debug)]
pub enum BatchUpdateResponseItem {
    CreateDeveloperMetadata(DeveloperMetadata),
    UpdateDeveloperMetadata(DeveloperMetadata),
    DeleteDeveloperMetadata(DeleteDeveloperMetadataResponse),
}

/// Spreadsheet-level updates, usually of metadata.
#[derive(Clone, Debug)]
pub struct BatchUpdateRequest {
    pub sheet_id: String,
    pub requests: Vec<BatchUpdateRequestItem>,
    pub include_spreadsheet_in_response: bool,
    pub response_ranges: Vec<String>,
    pub response_include_grid_data: bool,
}

impl BatchUpdateRequest {
    /// The request URI: the batch-update endpoint under the spreadsheet.
    pub fn build_uri(&self, base_url: &str) -> (r: String)
        ensures
            r@ == base_url@ + self.sheet_id@ + ":batchUpdate"@,
    {
        let mut s = base_url.to_owned();
        s.append(self.sheet_id.as_str());
        s.append(":batchUpdate");
        proof {
            assert(s@ =~= base_url@ + self.sheet_id@ + ":batchUpdate"@);
        }
        s
    }
}

#[derive(Clone, Debug)]
pub struct BatchUpdateResponse {
    pub sheet_id: String,
}

} // verus!
