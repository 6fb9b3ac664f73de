//! The drive-side data model: files as the remote service describes them,
//! the filter expression grammar, and the request shapes whose URIs and
//! query expressions this module compiles and verifies.
use vstd::prelude::*;

verus! {

use vstd::string::*;
use crate::errors::{FilterKind, UnimplementedFilter, RequestError};
use crate::records::FolderRecord;
use crate::uri::{url_with_params, url_with_params_of};

/// The MIME types the remote service distinguishes.
#[derive(Clone, Copy, Debug, PartialEq, Eq, Structural)]
pub enum MimeType {
    Audio,
    CSV,
    Doc,
    Drawing,
    Excel,
    File,
    Folder,
    Form,
    FusionTable,
    Gif,
    HTML,
    MyMaps,
    Jpeg,
    PDF,
    Photo,
    PNG,
    Presentation,
    Script,
    Shortcut,
    Site,
    Spreadsheet,
    Text,
    Unknown,
    Video,
    Word,
    Zip,
}

impl MimeType {
    /// The wire spelling of this MIME type.
    pub open spec fn mime_str(&self) -> Seq<char> {
        match self {
            MimeType::Audio => "application/vnd.google-apps.audio"@,
            MimeType::CSV => "text/csv"@,
            MimeType::Doc => "application/vnd.google-apps.document"@,
            MimeType::Drawing => "application/vnd.google-apps.drawing"@,
            MimeType::Excel => "application/vnd.openxmlformats-officedocument.spreadsheetml.sheet"@,
            MimeType::File => "application/vnd.google-apps.file"@,
            MimeType::Folder => "application/vnd.google-apps.folder"@,
            MimeType::Form => "application/vnd.google-apps.form"@,
            MimeType::FusionTable => "application/vnd.google-apps.fusiontable"@,
            MimeType::Gif => "image/gif"@,
            MimeType::HTML => "text/html"@,
            MimeType::MyMaps => "application/vnd.google-apps.map"@,
            MimeType::Jpeg => "image/jpeg"@,
            MimeType::PDF => "application/pdf"@,
            MimeType::Photo => "application/vnd.google-apps.photo"@,
            MimeType::PNG => "image/png"@,
            MimeType::Presentation => "application/vnd.google-apps.presentation"@,
            MimeType::Script => "application/vnd.google-apps.script"@,
            MimeType::Shortcut => "application/vnd.google-apps.drive-sdk"@,
            MimeType::Site => "application/vnd.google-apps.site"@,
            MimeType::Spreadsheet => "application/vnd.google-apps.spreadsheet"@,
            MimeType::Text => "text/plain"@,
            MimeType::Unknown => "application/vnd.google-apps.unknown"@,
            MimeType::Video => "application/vnd.google-apps.video"@,
            MimeType::Word => "application/vnd.openxmlformats-officedocument.wordprocessingml.document"@,
            MimeType::Zip => "application/zip"@,
        }
    }

    /// Spells this MIME type as the service writes it.
    pub fn to_string(&self) -> (r: String)
        ensures
            r@ == self.mime_str(),
    {
        match self {
            MimeType::Audio => "application/vnd.google-apps.audio".to_owned(),
            MimeType::CSV => "text/csv".to_owned(),
            MimeType::Doc => "application/vnd.google-apps.document".to_owned(),
            MimeType::Drawing => "application/vnd.google-apps.drawing".to_owned(),
            MimeType::Excel => "application/vnd.openxmlformats-officedocument.spreadsheetml.sheet".to_owned(),
            MimeType::File => "application/vnd.google-apps.file".to_owned(),
            MimeType::Folder => "application/vnd.google-apps.folder".to_owned(),
            MimeType::Form => "application/vnd.google-apps.form".to_owned(),
            MimeType::FusionTable => "application/vnd.google-apps.fusiontable".to_owned(),
            MimeType::Gif => "image/gif".to_owned(),
            MimeType::HTML => "text/html".to_owned(),
            MimeType::MyMaps => "application/vnd.google-apps.map".to_owned(),
            MimeType::Jpeg => "image/jpeg".to_owned(),
            MimeType::PDF => "application/pdf".to_owned(),
            MimeType::Photo => "application/vnd.google-apps.photo".to_owned(),
            MimeType::PNG => "image/png".to_owned(),
            MimeType::Presentation => "application/vnd.google-apps.presentation".to_owned(),
            MimeType::Script => "application/vnd.google-apps.script".to_owned(),
            MimeType::Shortcut => "application/vnd.google-apps.drive-sdk".to_owned(),
            MimeType::Site => "application/vnd.google-apps.site".to_owned(),
            MimeType::Spreadsheet => "application/vnd.google-apps.spreadsheet".to_owned(),
            MimeType::Text => "text/plain".to_owned(),
            MimeType::Unknown => "application/vnd.google-apps.unknown".to_owned(),
            MimeType::Video => "application/vnd.google-apps.video".to_owned(),
            MimeType::Word => "application/vnd.openxmlformats-officedocument.wordprocessingml.document".to_owned(),
            MimeType::Zip => "application/zip".to_owned(),
        }
    }
}

/// One file as a remote query describes it; every field is optional because
/// the service only sends what the query asked for.
#[derive(Clone, Debug)]
pub struct File {
    pub mime_type: Option<MimeType>,
    pub id: Option<String>,
    pub parents: Option<Vec<String>>,
    pub description: Option<String>,
    pub kind: Option<String>,
    pub name: Option<String>,
    pub web_content_link: Option<String>,
    pub drive_id: Option<String>,
    pub spaces: Option<Vec<String>>,
    pub trashed: Option<bool>,
}

impl File {
    /// Reads this file as a folder record, when it carries an id and a name;
    /// absent parents read as none at all.
    pub fn to_folder_record(&self) -> (r: Option<FolderRecord>)
        ensures
            r is Some <==> self.id is Some && self.name is Some,
            r matches Some(rec) ==> {
                &&& rec.id@ == self.id->Some_0@
                &&& rec.name@ == self.name->Some_0@
                &&& (self.parents matches Some(ps) ==> rec.parents.deep_view() == ps.deep_view())
                &&& (self.parents is None ==> rec.parents@.len() == 0)
            },
    {
        match (&self.id, &self.name) {
            (Some(id), Some(name)) => {
                let parents = match &self.parents {
                    Some(ps) => ps.clone(),
                    None => Vec::new(),
                };
                Some(FolderRecord { id: id.clone(), name: name.clone(), parents })
            },
            _ => None,
        }
    }
}

/// What kind of resource a response object is.
#[derive(Clone, Debug)]
pub enum Kind {
    FileList,
    File(File),
    Missing,
}

impl Default for Kind {
    fn default() -> (r: Self)
        ensures
            r is Missing,
    {
        Kind::Missing
    }
}

/// One page of query results.
#[derive(Clone, Debug)]
pub struct FileSearchResult {
    pub kind: Kind,
    pub incomplete_search: bool,
    pub files: Vec<File>,
}

/// The minimal description of a file to create.
#[derive(Clone, Debug)]
pub struct FileMetadata {
    pub name: String,
    pub mime_type: String,
}

/// A request to create a folder.
#[derive(Clone, Debug)]
pub struct CreateFolder {
    pub mime_type: MimeType,
    pub name: String,
}

/// A request to create a file under a parent.
#[derive(Clone, Debug)]
pub struct CreateFile {
    pub mime_type: MimeType,
    pub name: String,
    pub parent: String,
}

/// A value comparison inside a query expression. Only `Equals` has a defined
/// compilation to the remote grammar; every other clause fails fast rather
/// than being dropped, which would silently broaden the result set.
pub enum Filter {
    And(Box<(Filter, Filter)>),
    Or(Box<(Filter, Filter)>),
    Not(Box<Filter>),
    Any(Vec<Filter>),
    All(Vec<Filter>),
    Contains(String),
    Equals(String),
    StartsWith(String),
    DateGT(String),
    DateLT(String),
}

impl Filter {
    /// Which clause this is.
    pub open spec fn kind(&self) -> FilterKind {
        match self {
            Filter::And(_) => FilterKind::And,
            Filter::Or(_) => FilterKind::Or,
            Filter::Not(_) => FilterKind::Not,
            Filter::Any(_) => FilterKind::Any,
            Filter::All(_) => FilterKind::All,
            Filter::Contains(_) => FilterKind::Contains,
            Filter::Equals(_) => FilterKind::Equals,
            Filter::StartsWith(_) => FilterKind::StartsWith,
            Filter::DateGT(_) => FilterKind::DateGt,
            Filter::DateLT(_) => FilterKind::DateLt,
        }
    }

    /// The compiled comparison, meaningful for the clauses that compile.
    pub open spec fn compiled(&self) -> Seq<char> {
        match self {
            Filter::Equals(v) => "= '"@ + v@ + "'"@,
            _ => Seq::empty(),
        }
    }

    /// Compiles this comparison to the remote query grammar; a clause with
    /// no defined compilation is reported, never dropped.
    pub fn to_string(&self) -> (r: Result<String, UnimplementedFilter>)
        ensures
            r is Ok <==> self is Equals,
            r matches Ok(s) ==> s@ == self.compiled(),
            r matches Err(e) ==> e.kind == self.kind(),
    {
        match self {
            Filter::Equals(value) => {
                let mut s = String::from_str("= '");
                s.append(value.as_str());
                s.append("'");
                proof {
                    assert(s@ =~= "= '"@ + value@ + "'"@);
                }
                Ok(s)
            },
            Filter::And(_) => Err(UnimplementedFilter { kind: FilterKind::And }),
            Filter::Or(_) => Err(UnimplementedFilter { kind: FilterKind::Or }),
            Filter::Not(_) => Err(UnimplementedFilter { kind: FilterKind::Not }),
            Filter::Any(_) => Err(UnimplementedFilter { kind: FilterKind::Any }),
            Filter::All(_) => Err(UnimplementedFilter { kind: FilterKind::All }),
            Filter::Contains(_) => Err(UnimplementedFilter { kind: FilterKind::Contains }),
            Filter::StartsWith(_) => Err(UnimplementedFilter { kind: FilterKind::StartsWith }),
            Filter::DateGT(_) => Err(UnimplementedFilter { kind: FilterKind::DateGt }),
            Filter::DateLT(_) => Err(UnimplementedFilter { kind: FilterKind::DateLt }),
        }
    }
}

/// A query clause under a named attribute. Only a type equality and a name
/// comparison that itself compiles have defined compilations.
pub enum FileFilter {
    Type(MimeType),
    Name(Filter),
    FullText(Filter),
    Parent(Filter),
    IsSharedWithMe(bool),
}

/// Whether the clause has a defined compilation.
pub open spec fn file_filter_compiles(f: FileFilter) -> bool {
    match f {
        FileFilter::Type(_) => true,
        FileFilter::Name(g) => g is Equals,
        _ => false,
    }
}

/// The compiled clause, meaningful when it compiles.
pub open spec fn file_filter_str(f: FileFilter) -> Seq<char> {
    match f {
        FileFilter::Type(m) => "mimeType = '"@ + m.mime_str() + "'"@,
        FileFilter::Name(g) => "name "@ + g.compiled(),
        _ => Seq::empty(),
    }
}

impl FileFilter {
    /// Which clause this is.
    pub open spec fn kind(&self) -> FilterKind {
        match self {
            FileFilter::Type(_) => FilterKind::TypeOf,
            FileFilter::Name(g) => g.kind(),
            FileFilter::FullText(_) => FilterKind::FullText,
            FileFilter::Parent(_) => FilterKind::Parent,
            FileFilter::IsSharedWithMe(_) => FilterKind::IsSharedWithMe,
        }
    }

    /// Compiles this clause to the remote query grammar; a clause with no
    /// defined compilation is reported, never dropped, an inner comparison's
    /// kind propagating unchanged.
    pub fn to_string(&self) -> (r: Result<String, UnimplementedFilter>)
        ensures
            r is Ok <==> file_filter_compiles(*self),
            r matches Ok(s) ==> s@ == file_filter_str(*self),
            r matches Err(e) ==> e.kind == self.kind(),
    {
        match self {
            FileFilter::Type(mime_type) => {
                let mut s = String::from_str("mimeType = '");
                let m = mime_type.to_string();
                s.append(m.as_str());
                s.append("'");
                proof {
                    assert(s@ =~= "mimeType = '"@ + mime_type.mime_str() + "'"@);
                }
                Ok(s)
            },
            FileFilter::Name(filter) => {
                match filter.to_string() {
                    Ok(inner) => {
                        let mut s = String::from_str("name ");
                        s.append(inner.as_str());
                        proof {
                            assert(s@ =~= "name "@ + filter.compiled());
                        }
                        Ok(s)
                    },
                    Err(e) => Err(e),
                }
            },
            FileFilter::FullText(_) => Err(UnimplementedFilter { kind: FilterKind::FullText }),
            FileFilter::Parent(_) => Err(UnimplementedFilter { kind: FilterKind::Parent }),
            FileFilter::IsSharedWithMe(_) => Err(
                UnimplementedFilter { kind: FilterKind::IsSharedWithMe },
            ),
        }
    }
}

/// Options a file query can carry.
#[derive(Clone, Copy, Debug)]
pub enum FileOpts {
    IncludeTrashed(bool),
    Recursive(bool),
    IsUnique(bool),
}

/// Joins compiled clauses with the grammar's conjunction.
pub open spec fn and_join(parts: Seq<Seq<char>>) -> Seq<char>
    decreases parts.len(),
{
    if parts.len() == 0 {
        Seq::empty()
    } else if parts.len() == 1 {
        parts[0]
    } else {
        parts[0] + " and "@ + and_join(parts.drop_first())
    }
}

/// Each joined clause followed by the conjunction: the shape the query
/// accumulates in before its final clause.
pub open spec fn and_join_open(parts: Seq<Seq<char>>) -> Seq<char>
    decreases parts.len(),
{
    if parts.len() == 0 {
        Seq::empty()
    } else {
        parts[0] + " and "@ + and_join_open(parts.drop_first())
    }
}

/// Closing an open conjunction with a final clause joins them all.
pub proof fn lemma_and_join_close(parts: Seq<Seq<char>>, last: Seq<char>)
    ensures
        and_join(parts.push(last)) == and_join_open(parts) + last,
    decreases parts.len(),
{
    if parts.len() == 0 {
        assert(parts.push(last) =~= seq![last]);
        assert(and_join(seq![last]) == last);
        assert(and_join_open(parts) + last =~= last);
    } else {
        assert(parts.push(last)[0] == parts[0]);
        assert(parts.push(last).drop_first() =~= parts.drop_first().push(last));
        lemma_and_join_close(parts.drop_first(), last);
        if parts.len() == 1 {
            assert(parts.drop_first() =~= Seq::<Seq<char>>::empty());
            assert(and_join(parts.push(last)) == parts[0] + " and "@ + last);
            assert(and_join_open(parts) == parts[0] + " and "@ + Seq::<char>::empty());
            assert(and_join_open(parts) + last =~= parts[0] + " and "@ + last);
        } else {
            assert(and_join(parts.push(last)) == parts[0] + " and "@ + (and_join_open(
                parts.drop_first()) + last));
            assert(parts[0] + " and "@ + (and_join_open(parts.drop_first()) + last) =~= (parts[0]
                + " and "@ + and_join_open(parts.drop_first())) + last);
        }
    }
}

/// Appending one clause to an open conjunction extends its text behind.
pub proof fn lemma_and_join_open_push(parts: Seq<Seq<char>>, p: Seq<char>)
    ensures
        and_join_open(parts.push(p)) == and_join_open(parts) + p + " and "@,
    decreases parts.len(),
{
    if parts.len() == 0 {
        assert(parts.push(p) =~= seq![p]);
        assert(seq![p].drop_first() =~= Seq::<Seq<char>>::empty());
        assert(and_join_open(Seq::<Seq<char>>::empty()) == Seq::<char>::empty());
        assert(and_join_open(seq![p]) == p + " and "@ + Seq::<char>::empty());
        assert(p + " and "@ + Seq::<char>::empty() =~= Seq::<char>::empty() + p + " and "@);
    } else {
        assert(parts.push(p)[0] == parts[0]);
        assert(parts.push(p).drop_first() =~= parts.drop_first().push(p));
        lemma_and_join_open_push(parts.drop_first(), p);
        assert(and_join_open(parts.push(p)) == parts[0] + " and "@ + (and_join_open(
            parts.drop_first()) + p + " and "@));
        assert(parts[0] + " and "@ + (and_join_open(parts.drop_first()) + p + " and "@) =~= (
        parts[0] + " and "@ + and_join_open(parts.drop_first())) + p + " and "@);
    }
}

/// The compiled clauses of a filter list, meaningful when all compile.
pub open spec fn filters_strs(fs: Seq<FileFilter>) -> Seq<Seq<char>> {
    fs.map_values(|f: FileFilter| file_filter_str(f))
}

/// The query parameter names and the field projection this library always
/// requests.
pub open spec fn fields_param() -> Seq<char> {
    "kind,nextPageToken,incompleteSearch,files/id,files/name,files/mimeType,files/parents"@
}

/// A scoped file query: the children of one parent, narrowed by clauses.
pub struct FileRequest {
    pub parent_id: String,
    pub filters: Vec<FileFilter>,
    pub opts: Vec<FileOpts>,
}

impl FileRequest {
    /// Compiles the query expression: every clause joined by the grammar's
    /// conjunction, closed with the clause that excludes trashed files. The
    /// first clause without a defined compilation aborts the whole request.
    pub fn query_string(&self) -> (r: Result<String, UnimplementedFilter>)
        ensures
            r is Ok <==> (forall|i: int|
                0 <= i < self.filters@.len() ==> file_filter_compiles(#[trigger] self.filters@[i])),
            r matches Ok(s) ==> s@ == and_join(
                filters_strs(self.filters@).push("trashed=false"@),
            ),
    {
        let mut s = String::new();
        let n = self.filters.len();
        let mut i: usize = 0;
        while i < n
            invariant
                n == self.filters@.len(),
                0 <= i <= n,
                forall|j: int|
                    0 <= j < i ==> file_filter_compiles(#[trigger] self.filters@[j]),
                s@ == and_join_open(filters_strs(self.filters@).take(i as int)),
            decreases n - i,
        {
            let compiled = match self.filters[i].to_string() {
                Ok(c) => c,
                Err(e) => {
                    return Err(e);
                },
            };
            let ghost before = s@;
            s.append(compiled.as_str());
            s.append(" and ");
            proof {
                let parts = filters_strs(self.filters@);
                lemma_and_join_open_push(parts.take(i as int), parts[i as int]);
                assert(parts.take(i + 1) =~= parts.take(i as int).push(parts[i as int]));
                assert(s@ =~= before + parts[i as int] + " and "@);
            }
            i += 1;
        }
        s.append("trashed=false");
        proof {
            let parts = filters_strs(self.filters@);
            assert(parts.take(n as int) =~= parts);
            lemma_and_join_close(parts, "trashed=false"@);
            assert(s@ =~= and_join_open(parts) + "trashed=false"@);
        }
        Ok(s)
    }

    /// Builds the request URI: the query expression and the field projection
    /// as parameters on the base URL. Fails on the first clause without a
    /// defined compilation, or when the URL parser refuses the base.
    pub fn build_uri(&self, base_url: &str) -> (r: Result<String, RequestError>)
        ensures
            r matches Ok(u) ==> (forall|i: int|
                0 <= i < self.filters@.len() ==> file_filter_compiles(#[trigger] self.filters@[i]))
                && u@ == url_with_params_of(
                base_url@,
                seq![
                    ("q"@, and_join(filters_strs(self.filters@).push("trashed=false"@))),
                    ("fields"@, fields_param()),
                ],
            ),
            r matches Err(e) ==> (e matches RequestError::Filter(_) <==> !(forall|i: int|
                0 <= i < self.filters@.len() ==> file_filter_compiles(
                    #[trigger] self.filters@[i],
                ))),
    {
        let query = match self.query_string() {
            Ok(q) => q,
            Err(e) => {
                return Err(RequestError::Filter(e));
            },
        };
        let mut params: Vec<(String, String)> = Vec::new();
        params.push(("q".to_owned(), query));
        params.push((
            "fields".to_owned(),
            "kind,nextPageToken,incompleteSearch,files/id,files/name,files/mimeType,files/parents".to_owned(),
        ));
        proof {
            assert(params.deep_view() =~= seq![
                ("q"@, and_join(filters_strs(self.filters@).push("trashed=false"@))),
                ("fields"@, fields_param()),
            ]);
        }
        match url_with_params(base_url, &params) {
            Ok(u) => Ok(u),
            Err(e) => Err(RequestError::Uri(e)),
        }
    }

    /// The request carries no body.
    pub fn build_body(&self) -> (r: String)
        ensures
            r@ == Seq::<char>::empty(),
    {
        String::new()
    }

    /// The request carries no extra headers.
    pub fn build_headers(&self) -> (r: Vec<(String, String)>)
        ensures
            r@.len() == 0,
    {
        Vec::new()
    }
}

/// The files a query returned.
#[derive(Clone, Debug)]
pub struct FileResult {
    pub files: Vec<File>,
}

} // verus!
