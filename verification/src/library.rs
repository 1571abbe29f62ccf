//! The persisted library: its versioned entry list, the query engine over
//! it, and removal by query with a confirmation step.

use vstd::prelude::*;

use crate::model::{
    entry_views, entry_well_formed, type_label_seq, LibraryEntry, LibraryEntryMetaV,
    LibraryEntryV,
};
use crate::strutil::{
    chars_to_string, clone_strings, dec_str_of, parse_u32_chars, parse_u32_spec, split_all,
    split_spec, str_to_chars, string_views, u32_to_dec_chars, views_of,
};

verus! {

/// A `major.minor.patch` version marker.
#[derive(Clone, Copy, Debug, PartialEq, Eq, Structural)]
pub struct VersionSpec {
    pub major: u32,
    pub minor: u32,
    pub patch: u32,
}

/// The version a `major.minor.patch` text denotes.
pub open spec fn version_of_text(s: Seq<char>) -> Option<VersionSpec> {
    let parts = split_spec(s, seq!['.']);
    if parts.len() == 3 && parse_u32_spec(parts[0]) is Some && parse_u32_spec(parts[1]) is Some
        && parse_u32_spec(parts[2]) is Some {
        Some(
            VersionSpec {
                major: parse_u32_spec(parts[0]).unwrap(),
                minor: parse_u32_spec(parts[1]).unwrap(),
                patch: parse_u32_spec(parts[2]).unwrap(),
            },
        )
    } else {
        None
    }
}

/// The text a version renders to.
pub open spec fn version_text_of(v: VersionSpec) -> Seq<char> {
    dec_str_of(v.major as nat) + seq!['.'] + dec_str_of(v.minor as nat) + seq!['.'] + dec_str_of(
        v.patch as nat,
    )
}

/// A rendered version text parses back to the version it came from.
pub proof fn lemma_version_text_roundtrip(v: VersionSpec)
    ensures
        version_of_text(version_text_of(v)) == Some(v),
{
    let d1 = dec_str_of(v.major as nat);
    let d2 = dec_str_of(v.minor as nat);
    let d3 = dec_str_of(v.patch as nat);
    crate::strutil::lemma_dec_str_digits(v.major as nat);
    crate::strutil::lemma_dec_str_digits(v.minor as nat);
    crate::strutil::lemma_dec_str_digits(v.patch as nat);
    assert(forall|i: int| 0 <= i < d1.len() ==> d1[i] != '.') by {
        assert(forall|i: int|
            0 <= i < d1.len() ==> crate::strutil::is_dec_digit(#[trigger] d1[i]));
    }
    assert(forall|i: int| 0 <= i < d2.len() ==> d2[i] != '.') by {
        assert(forall|i: int|
            0 <= i < d2.len() ==> crate::strutil::is_dec_digit(#[trigger] d2[i]));
    }
    assert(forall|i: int| 0 <= i < d3.len() ==> d3[i] != '.') by {
        assert(forall|i: int|
            0 <= i < d3.len() ==> crate::strutil::is_dec_digit(#[trigger] d3[i]));
    }
    let vt = version_text_of(v);
    assert(vt =~= d1 + seq!['.'] + (d2 + seq!['.'] + d3));
    crate::strutil::lemma_split_head_part(d1, d2 + seq!['.'] + d3, '.');
    crate::strutil::lemma_split_head_part(d2, d3, '.');
    crate::strutil::lemma_split_free(d3, '.');
    let parts = split_spec(vt, seq!['.']);
    assert(parts =~= seq![d1] + (seq![d2] + seq![d3]));
    assert(parts.len() == 3);
    assert(parts[0] == d1 && parts[1] == d2 && parts[2] == d3);
    crate::strutil::lemma_parse_of_dec_str(v.major);
    crate::strutil::lemma_parse_of_dec_str(v.minor);
    crate::strutil::lemma_parse_of_dec_str(v.patch);
}

impl VersionSpec {
    /// The version of the library format this crate writes.
    pub fn current() -> (r: VersionSpec)
        ensures
            r == (VersionSpec { major: 1, minor: 0, patch: 0 }),
    {
        VersionSpec { major: 1, minor: 0, patch: 0 }
    }

    /// Parses a `major.minor.patch` text.
    pub fn from_str(s: &str) -> (r: Result<VersionSpec, String>)
        ensures
            r is Ok <==> version_of_text(s@) is Some,
            r is Ok ==> r.unwrap() == version_of_text(s@).unwrap(),
    {
        let cs = str_to_chars(s);
        let mut sep: Vec<char> = Vec::new();
        sep.push('.');
        let parts = split_all(&cs, &sep);
        if parts.len() != 3 {
            return Err(String::from_str("Version has wrong amount of digits."));
        }
        proof {
            assert(views_of(parts@)[0] == parts@[0]@);
            assert(views_of(parts@)[1] == parts@[1]@);
            assert(views_of(parts@)[2] == parts@[2]@);
        }
        let major = match parse_u32_chars(&parts[0]) {
            Some(n) => n,
            None => {
                return Err(String::from_str("Version digit ill-formatted."));
            },
        };
        let minor = match parse_u32_chars(&parts[1]) {
            Some(n) => n,
            None => {
                return Err(String::from_str("Version digit ill-formatted."));
            },
        };
        let patch = match parse_u32_chars(&parts[2]) {
            Some(n) => n,
            None => {
                return Err(String::from_str("Version digit ill-formatted."));
            },
        };
        Ok(VersionSpec { major, minor, patch })
    }

    /// Renders the version as `major.minor.patch`.
    pub fn render(&self) -> (r: String)
        ensures
            r@ == version_text_of(*self),
    {
        let mut out = u32_to_dec_chars(self.major);
        out.push('.');
        let mut mi = u32_to_dec_chars(self.minor);
        out.append(&mut mi);
        out.push('.');
        let mut pa = u32_to_dec_chars(self.patch);
        out.append(&mut pa);
        proof {
            assert(out@ =~= version_text_of(*self));
        }
        chars_to_string(&out)
    }
}

/// Why loading or storing the library failed.
#[derive(Debug)]
pub enum LibraryPersistenceError {
    Io(String),
    Serialization(String),
}

/// The text `LibraryPersistenceError::message` renders.
pub open spec fn persistence_error_text(e: LibraryPersistenceError) -> Seq<char> {
    match e {
        LibraryPersistenceError::Io(d) => "I/O error: "@ + d@,
        LibraryPersistenceError::Serialization(d) => "(De)serialization error: "@ + d@,
    }
}

impl LibraryPersistenceError {
    /// A human-readable description of the failure.
    pub fn message(&self) -> (r: String)
        ensures
            r@ == persistence_error_text(*self),
    {
        let mut out: Vec<char> = Vec::new();
        match self {
            LibraryPersistenceError::Io(d) => {
                let mut head = str_to_chars("I/O error: ");
                out.append(&mut head);
                let mut tail = str_to_chars(d.as_str());
                out.append(&mut tail);
            },
            LibraryPersistenceError::Serialization(d) => {
                let mut head = str_to_chars("(De)serialization error: ");
                out.append(&mut head);
                let mut tail = str_to_chars(d.as_str());
                out.append(&mut tail);
            },
        }
        proof {
            assert(out@ =~= persistence_error_text(*self));
        }
        chars_to_string(&out)
    }
}

/// Why a query failed.
#[derive(Debug)]
pub enum QueryError {
    /// An invalid regular expression in one of the patterns.
    Regex(String),
    /// No entry matched a query that required one.
    NoMatch,
    /// An I/O failure while acting on the results.
    Io(String),
}

/// The text `QueryError::message` renders.
pub open spec fn query_error_text(e: QueryError) -> Seq<char> {
    match e {
        QueryError::Regex(d) => "Invalid regex: "@ + d@,
        QueryError::NoMatch => "No match found for query."@,
        QueryError::Io(d) => "I/O error: "@ + d@,
    }
}

impl QueryError {
    /// A human-readable description of the failure.
    pub fn message(&self) -> (r: String)
        ensures
            r@ == query_error_text(*self),
    {
        let mut out: Vec<char> = Vec::new();
        match self {
            QueryError::Regex(d) => {
                let mut head = str_to_chars("Invalid regex: ");
                out.append(&mut head);
                let mut tail = str_to_chars(d.as_str());
                out.append(&mut tail);
            },
            QueryError::NoMatch => {
                let mut head = str_to_chars("No match found for query.");
                out.append(&mut head);
            },
            QueryError::Io(d) => {
                let mut head = str_to_chars("I/O error: ");
                out.append(&mut head);
                let mut tail = str_to_chars(d.as_str());
                out.append(&mut tail);
            },
        }
        proof {
            assert(out@ =~= query_error_text(*self));
        }
        chars_to_string(&out)
    }
}

/// Whether a pattern is accepted by the regex engine.
pub uninterp spec fn regex_valid(p: Seq<char>) -> bool;

/// Whether a pattern matches somewhere in a text.
pub uninterp spec fn regex_matches(p: Seq<char>, text: Seq<char>) -> bool;

#[verifier::external_type_specification]
#[verifier::external_body]
pub struct ExRegex(regex::Regex);

/// A compiled pattern together with its source text.
#[derive(Debug)]
pub(crate) struct Matcher {
    pattern: String,
    re: regex::Regex,
}

impl Matcher {
    /// The pattern this matcher was compiled from.
    pub(crate) closed spec fn pattern_view(&self) -> Seq<char> {
        self.pattern@
    }

    /// Relies on `regex::Regex::new`: whether a pattern compiles depends on
    /// the pattern text alone.
    #[verifier::external_body]
    pub(crate) fn compile(p: &str) -> (r: Result<Matcher, String>)
        ensures
            r is Ok <==> regex_valid(p@),
            r is Ok ==> r.unwrap().pattern_view() == p@,
    {
        match regex::Regex::new(p) {
            Ok(re) => Ok(Matcher { pattern: p.to_owned(), re }),
            Err(e) => Err(format!("{}", e)),
        }
    }

    /// Relies on `regex::Regex::is_match`: whether a compiled pattern
    /// matches depends on the pattern and the text alone. The `re` field is
    /// always the compilation of the `pattern` field, because `compile`
    /// above is the only constructor.
    #[verifier::external_body]
    pub(crate) fn is_match(&self, text: &str) -> (r: bool)
        ensures
            r == regex_matches(self.pattern_view(), text@),
    {
        self.re.is_match(text)
    }
}

/// The ghost image of a set of query patterns.
pub ghost struct QueryParamsV {
    pub author: Option<Seq<char>>,
    pub year: Option<Seq<char>>,
    pub title: Option<Seq<char>>,
    pub doc_type: Option<Seq<char>>,
    pub general: Option<Seq<char>>,
}

/// The optional patterns of one query: per-field patterns plus one general
/// pattern. An unset field imposes no constraint.
pub struct QueryParams {
    pub author: Option<String>,
    pub year: Option<String>,
    pub title: Option<String>,
    pub doc_type: Option<String>,
    pub general: Option<String>,
}

impl View for QueryParams {
    type V = QueryParamsV;

    open spec fn view(&self) -> QueryParamsV {
        QueryParamsV {
            author: match self.author {
                Some(s) => Some(s@),
                None => None,
            },
            year: match self.year {
                Some(s) => Some(s@),
                None => None,
            },
            title: match self.title {
                Some(s) => Some(s@),
                None => None,
            },
            doc_type: match self.doc_type {
                Some(s) => Some(s@),
                None => None,
            },
            general: match self.general {
                Some(s) => Some(s@),
                None => None,
            },
        }
    }
}

impl QueryParams {
    /// A query with no constraints, which every entry matches.
    pub fn none() -> (r: QueryParams)
        ensures
            r@.author is None,
            r@.year is None,
            r@.title is None,
            r@.doc_type is None,
            r@.general is None,
    {
        QueryParams { author: None, year: None, title: None, doc_type: None, general: None }
    }
}

/// Whether every supplied pattern is a valid regex.
pub open spec fn params_valid(q: QueryParamsV) -> bool {
    &&& (q.author matches Some(p) ==> regex_valid(p))
    &&& (q.year matches Some(p) ==> regex_valid(p))
    &&& (q.title matches Some(p) ==> regex_valid(p))
    &&& (q.doc_type matches Some(p) ==> regex_valid(p))
    &&& (q.general matches Some(p) ==> regex_valid(p))
}

/// Whether some author string of the record matches the pattern.
pub open spec fn author_matches(p: Seq<char>, authors: Seq<Seq<char>>) -> bool {
    exists|i: int| 0 <= i < authors.len() && regex_matches(p, authors[i])
}

/// Whether a record satisfies every supplied pattern: each per-field
/// pattern on its field, and the general pattern on any author, the title,
/// the year or the type name.
pub open spec fn entry_matches(q: QueryParamsV, m: LibraryEntryMetaV) -> bool {
    &&& (q.author matches Some(p) ==> author_matches(p, m.authors))
    &&& (q.year matches Some(p) ==> regex_matches(p, dec_str_of(m.year as nat)))
    &&& (q.title matches Some(p) ==> regex_matches(p, m.title))
    &&& (q.doc_type matches Some(p) ==> regex_matches(p, type_label_seq(m.entry_type)))
    &&& (q.general matches Some(p) ==> (author_matches(p, m.authors) || regex_matches(p, m.title)
        || regex_matches(p, dec_str_of(m.year as nat)) || regex_matches(
        p,
        type_label_seq(m.entry_type),
    )))
}

#[derive(Debug)]
struct CompiledQuery {
    author: Option<Matcher>,
    year: Option<Matcher>,
    title: Option<Matcher>,
    doc_type: Option<Matcher>,
    general: Option<Matcher>,
}

impl CompiledQuery {
    spec fn matches_params(&self, q: QueryParamsV) -> bool {
        &&& (self.author matches Some(m) <==> q.author is Some)
        &&& (self.author matches Some(m) ==> m.pattern_view() == q.author.unwrap())
        &&& (self.year matches Some(m) <==> q.year is Some)
        &&& (self.year matches Some(m) ==> m.pattern_view() == q.year.unwrap())
        &&& (self.title matches Some(m) <==> q.title is Some)
        &&& (self.title matches Some(m) ==> m.pattern_view() == q.title.unwrap())
        &&& (self.doc_type matches Some(m) <==> q.doc_type is Some)
        &&& (self.doc_type matches Some(m) ==> m.pattern_view() == q.doc_type.unwrap())
        &&& (self.general matches Some(m) <==> q.general is Some)
        &&& (self.general matches Some(m) ==> m.pattern_view() == q.general.unwrap())
    }
}

fn compile_optional(p: &Option<String>) -> (r: Result<Option<Matcher>, QueryError>)
    ensures
        r is Ok <==> (p matches Some(s) ==> regex_valid(s@)),
        r is Ok ==> (r.unwrap() matches Some(m) <==> p is Some),
        r is Ok && p is Some ==> r.unwrap().unwrap().pattern_view() == p.unwrap()@,
        r is Err ==> r.unwrap_err() is Regex,
{
    match p {
        Some(s) => match Matcher::compile(s.as_str()) {
            Ok(m) => Ok(Some(m)),
            Err(e) => Err(QueryError::Regex(e)),
        },
        None => Ok(None),
    }
}

fn compile_query(q: &QueryParams) -> (r: Result<CompiledQuery, QueryError>)
    ensures
        r is Ok <==> params_valid(q@),
        r is Ok ==> r.unwrap().matches_params(q@),
        r is Err ==> r.unwrap_err() is Regex,
{
    let author = match compile_optional(&q.author) {
        Ok(m) => m,
        Err(e) => {
            return Err(e);
        },
    };
    let year = match compile_optional(&q.year) {
        Ok(m) => m,
        Err(e) => {
            return Err(e);
        },
    };
    let title = match compile_optional(&q.title) {
        Ok(m) => m,
        Err(e) => {
            return Err(e);
        },
    };
    let doc_type = match compile_optional(&q.doc_type) {
        Ok(m) => m,
        Err(e) => {
            return Err(e);
        },
    };
    let general = match compile_optional(&q.general) {
        Ok(m) => m,
        Err(e) => {
            return Err(e);
        },
    };
    Ok(CompiledQuery { author, year, title, doc_type, general })
}

fn any_author_matches(m: &Matcher, authors: &Vec<String>) -> (r: bool)
    ensures
        r == author_matches(m.pattern_view(), string_views(authors@)),
{
    let mut i: usize = 0;
    while i < authors.len()
        invariant
            i <= authors.len(),
            forall|k: int|
                0 <= k < i ==> !regex_matches(m.pattern_view(), string_views(authors@)[k]),
        decreases authors.len() - i,
    {
        proof {
            assert(string_views(authors@)[i as int] == authors@[i as int]@);
        }
        if m.is_match(authors[i].as_str()) {
            return true;
        }
        i = i + 1;
    }
    false
}

fn entry_matches_exec(cq: &CompiledQuery, e: &LibraryEntry, Ghost(q): Ghost<QueryParamsV>) -> (r:
    bool)
    requires
        cq.matches_params(q),
    ensures
        r == entry_matches(q, e@.meta),
{
    let meta = e.meta();
    let year_string = {
        let yc = u32_to_dec_chars(meta.year());
        chars_to_string(&yc)
    };
    let type_string = meta.entry_type().type_label();
    if let Some(m) = &cq.author {
        if !any_author_matches(m, meta.authors()) {
            return false;
        }
    }
    if let Some(m) = &cq.year {
        if !m.is_match(year_string.as_str()) {
            return false;
        }
    }
    if let Some(m) = &cq.title {
        if !m.is_match(meta.title()) {
            return false;
        }
    }
    if let Some(m) = &cq.doc_type {
        if !m.is_match(type_string.as_str()) {
            return false;
        }
    }
    if let Some(m) = &cq.general {
        let a = any_author_matches(m, meta.authors());
        let t = m.is_match(meta.title());
        let y = m.is_match(year_string.as_str());
        let d = m.is_match(type_string.as_str());
        if !(a || t || y || d) {
            return false;
        }
    }
    true
}

/// A query with no patterns constrains nothing: every entry matches it.
pub proof fn lemma_empty_query_matches_all(q: QueryParamsV, m: LibraryEntryMetaV)
    requires
        q.author is None,
        q.year is None,
        q.title is None,
        q.doc_type is None,
        q.general is None,
    ensures
        entry_matches(q, m),
{
}

/// The entries a query keeps back for removal, in order.
pub open spec fn matching_entries(es: Seq<LibraryEntryV>, q: QueryParamsV) -> Seq<LibraryEntryV> {
    es.filter(|e: LibraryEntryV| entry_matches(q, e.meta))
}

/// The entries a removal leaves in place, in order.
pub open spec fn remaining_entries(es: Seq<LibraryEntryV>, q: QueryParamsV) -> Seq<
    LibraryEntryV,
> {
    es.filter(|e: LibraryEntryV| !entry_matches(q, e.meta))
}

/// Dropping entries from a list of well-formed entries leaves only
/// well-formed entries.
proof fn lemma_filter_keeps_wf(es: Seq<LibraryEntryV>, pred: spec_fn(LibraryEntryV) -> bool)
    requires
        crate::model::entries_all_well_formed(es),
    ensures
        crate::model::entries_all_well_formed(es.filter(pred)),
    decreases es.len(),
{
    reveal(Seq::filter);
    if es.len() > 0 {
        assert(crate::model::entries_all_well_formed(es.drop_last())) by {
            assert(forall|k: int|
                0 <= k < es.drop_last().len() ==> #[trigger] es.drop_last()[k] == es[k]);
        }
        lemma_filter_keeps_wf(es.drop_last(), pred);
        let sub = es.drop_last().filter(pred);
        if pred(es.last()) {
            assert(es.filter(pred) == sub.push(es.last()));
            assert(entry_well_formed(es.last()));
            assert forall|k: int|
                0 <= k < es.filter(pred).len() implies entry_well_formed(
                #[trigger] es.filter(pred)[k],
            ) by {
                if k < sub.len() {
                    assert(es.filter(pred)[k] == sub[k]);
                } else {
                    assert(es.filter(pred)[k] == es.last());
                }
            }
        }
    }
}

/// Every destination path of the given entries, in order.
pub open spec fn all_file_paths(es: Seq<LibraryEntryV>) -> Seq<Seq<char>>
    decreases es.len(),
{
    if es.len() == 0 {
        Seq::empty()
    } else {
        all_file_paths(es.drop_last()) + es.last().file_paths
    }
}

/// The ghost image of a library.
pub ghost struct LibraryV {
    pub creation_version: VersionSpec,
    pub entries: Seq<LibraryEntryV>,
    pub path: Seq<char>,
    pub changed: bool,
}

/// The in-memory library: a version marker, the insertion-ordered entries,
/// the backing storage path, and whether the state still has to be saved.
pub struct Library {
    creation_version: VersionSpec,
    entries: Vec<LibraryEntry>,
    path: String,
    changed: bool,
}

impl View for Library {
    type V = LibraryV;

    closed spec fn view(&self) -> LibraryV {
        LibraryV {
            creation_version: self.creation_version,
            entries: entry_views(self.entries@),
            path: self.path@,
            changed: self.changed,
        }
    }
}

impl Library {
    /// A fresh, empty library for a path that holds no file yet; it is
    /// dirty by construction.
    pub fn new(path: String) -> (r: Library)
        ensures
            r@.creation_version == (VersionSpec { major: 1, minor: 0, patch: 0 }),
            r@.entries.len() == 0,
            crate::model::entries_all_well_formed(r@.entries),
            r@.path == path@,
            r@.changed == true,
    {
        let r = Library {
            creation_version: VersionSpec::current(),
            entries: Vec::new(),
            path,
            changed: true,
        };
        proof {
            assert(entry_views(r.entries@) =~= Seq::<LibraryEntryV>::empty());
        }
        r
    }

    /// Wraps already-loaded content; the library starts clean.
    pub fn from_parts(creation_version: VersionSpec, entries: Vec<LibraryEntry>, path: String) -> (
        r: Library)
        ensures
            r@.creation_version == creation_version,
            r@.entries == entry_views(entries@),
            r@.path == path@,
            r@.changed == false,
    {
        Library { creation_version, entries, path, changed: false }
    }

    pub fn creation_version(&self) -> (r: VersionSpec)
        ensures
            r == self@.creation_version,
    {
        self.creation_version
    }

    pub fn entries(&self) -> (r: &Vec<LibraryEntry>)
        ensures
            entry_views(r@) == self@.entries,
    {
        &self.entries
    }

    pub fn path(&self) -> (r: &str)
        ensures
            r@ == self@.path,
    {
        self.path.as_str()
    }

    pub fn is_changed(&self) -> (r: bool)
        ensures
            r == self@.changed,
    {
        self.changed
    }

    /// Appends one entry and marks the library dirty.
    pub fn add_entry(&mut self, entry: LibraryEntry)
        requires
            entry_well_formed(entry@),
        ensures
            final(self)@.entries == old(self)@.entries.push(entry@),
            final(self)@.changed == true,
            final(self)@.creation_version == old(self)@.creation_version,
            final(self)@.path == old(self)@.path,
            crate::model::entries_all_well_formed(old(self)@.entries)
                ==> crate::model::entries_all_well_formed(final(self)@.entries),
    {
        let ghost pre = entry_views(self.entries@);
        let ghost ev = entry@;
        self.entries.push(entry);
        self.changed = true;
        proof {
            assert(entry_views(self.entries@) =~= pre.push(ev));
            if crate::model::entries_all_well_formed(pre) {
                assert forall|k: int|
                    0 <= k < pre.push(ev).len() implies entry_well_formed(
                    #[trigger] pre.push(ev)[k],
                ) by {
                    if k < pre.len() {
                        assert(pre.push(ev)[k] == pre[k]);
                    } else {
                        assert(pre.push(ev)[k] == ev);
                    }
                }
            }
        }
    }

    /// Searches the entries that satisfy every supplied pattern and returns
    /// their indices, in increasing order. An invalid pattern in any field
    /// fails the whole query; an empty result is a normal outcome.
    pub fn query(&self, params: &QueryParams) -> (r: Result<Vec<usize>, QueryError>)
        ensures
            r is Ok <==> params_valid(params@),
            r is Err ==> r.unwrap_err() is Regex,
            r is Ok ==> {
                let idxs = r.unwrap()@;
                &&& forall|k: int|
                    0 <= k < idxs.len() ==> (#[trigger] idxs[k]) < self@.entries.len()
                        && entry_matches(params@, self@.entries[idxs[k] as int].meta)
                &&& forall|k1: int, k2: int| 0 <= k1 < k2 < idxs.len() ==> idxs[k1] < idxs[k2]
                &&& forall|i: int|
                    0 <= i < self@.entries.len() && entry_matches(
                        params@,
                        (#[trigger] self@.entries[i]).meta,
                    ) ==> idxs.contains(i as usize)
            },
    {
        let cq = match compile_query(params) {
            Ok(c) => c,
            Err(e) => {
                return Err(e);
            },
        };
        let mut r: Vec<usize> = Vec::new();
        let mut i: usize = 0;
        while i < self.entries.len()
            invariant
                i <= self.entries.len(),
                cq.matches_params(params@),
                forall|k: int|
                    0 <= k < r@.len() ==> (#[trigger] r@[k]) < i && entry_matches(
                        params@,
                        entry_views(self.entries@)[r@[k] as int].meta,
                    ),
                forall|k1: int, k2: int| 0 <= k1 < k2 < r@.len() ==> r@[k1] < r@[k2],
                forall|j: int|
                    0 <= j < i && entry_matches(
                        params@,
                        (#[trigger] entry_views(self.entries@)[j]).meta,
                    ) ==> r@.contains(j as usize),
            decreases self.entries.len() - i,
        {
            let ghost pre = r@;
            proof {
                assert(entry_views(self.entries@)[i as int] == self.entries@[i as int]@);
            }
            if entry_matches_exec(&cq, &self.entries[i], Ghost(params@)) {
                r.push(i);
                proof {
                    assert(r@.last() == i as usize);
                    assert forall|j: int|
                        0 <= j < i + 1 && entry_matches(
                            params@,
                            (#[trigger] entry_views(self.entries@)[j]).meta,
                        ) implies r@.contains(j as usize) by {
                        if j < i {
                            let w = choose|w: int| 0 <= w < pre.len() && pre[w] == j as usize;
                            assert(r@[w] == j as usize);
                        } else {
                            assert(r@[r@.len() - 1] == j as usize);
                        }
                    }
                }
            } else {
                proof {
                    assert forall|j: int|
                        0 <= j < i + 1 && entry_matches(
                            params@,
                            (#[trigger] entry_views(self.entries@)[j]).meta,
                        ) implies r@.contains(j as usize) by {
                        assert(j < i);
                    }
                }
            }
            i = i + 1;
        }
        Ok(r)
    }

    /// Serializes the whole library document; the caller writes the text
    /// over the backing file.
    pub fn store(&self) -> (r: String)
        ensures
            r@ == crate::codec::ser_library(self@.creation_version, self@.entries),
    {
        crate::codec::render_library(self.creation_version, &self.entries)
    }

    /// Loads a library from the text of its backing file. The text is read
    /// up to its canonical form: insignificant whitespace between tokens
    /// does not matter, nor does the spelling of string escapes — `\"`,
    /// `\\`, `\/`, `\n`, `\t`, `\r`, `\b`, `\f`, and `\u00XX` in
    /// either hex case are all read as the character they name. A
    /// successful load yields a clean library whose serialization is that
    /// canonical form; every text whose canonical form is the rendering of
    /// a library with well-formed entries — in particular every document
    /// `store` writes — loads to exactly that library. So a
    /// store-then-load round trip reproduces every field, digest bytes and
    /// tag lists included, in the original order.
    pub fn load(text: &str, path: String) -> (r: Result<Library, LibraryPersistenceError>)
        ensures
            r is Ok ==> crate::codec::ser_library(
                r.unwrap()@.creation_version,
                r.unwrap()@.entries,
            ) == crate::codec::normalize_spec(text@),
            r is Ok ==> r.unwrap()@.path == path@ && r.unwrap()@.changed == false,
            r is Ok ==> crate::model::entries_all_well_formed(r.unwrap()@.entries),
            forall|v: VersionSpec, es: Seq<LibraryEntryV>|
                crate::codec::normalize_spec(text@) == crate::codec::ser_library(v, es)
                    && crate::model::entries_all_well_formed(es) ==> r is Ok
                    && r.unwrap()@.creation_version == v && r.unwrap()@.entries == es,
            forall|v: VersionSpec, es: Seq<LibraryEntryV>|
                text@ == crate::codec::ser_library(v, es)
                    && crate::model::entries_all_well_formed(es) ==> r is Ok
                    && r.unwrap()@.creation_version == v && r.unwrap()@.entries == es,
    {
        let r = match crate::codec::parse_library(text) {
            Ok((version, entries)) => Ok(Library::from_parts(version, entries, path)),
            Err(e) => Err(e),
        };
        proof {
            assert forall|v: VersionSpec, es: Seq<LibraryEntryV>|
                text@ == crate::codec::ser_library(v, es)
                    && crate::model::entries_all_well_formed(es) implies r is Ok
                && r.unwrap()@.creation_version == v && r.unwrap()@.entries == es by {
                crate::codec::lemma_normalize_canonical(v, es);
            }
        }
        r
    }

    /// Removes exactly the entries the query matches, after handing the
    /// matched entries to the confirmation callback, which may veto the
    /// whole removal. On removal the destination paths of every removed
    /// entry are handed back, so the caller can delete the files; a veto
    /// leaves the library unchanged and hands back nothing.
    pub fn remove_entry<F: Fn(&Vec<LibraryEntry>) -> bool>(
        &mut self,
        query_params: &QueryParams,
        confirm_callback: F,
    ) -> (r: Result<Option<Vec<String>>, QueryError>)
        requires
            forall|v: Vec<LibraryEntry>| #[trigger] confirm_callback.requires((&v,)),
        ensures
            !params_valid(query_params@) ==> r is Err && r.unwrap_err() is Regex && final(self)@
                == old(self)@,
            crate::model::entries_all_well_formed(old(self)@.entries)
                ==> crate::model::entries_all_well_formed(final(self)@.entries),
            params_valid(query_params@) ==> r is Ok && exists|v: Vec<LibraryEntry>, b: bool|
                {
                    &&& entry_views(v@) == matching_entries(old(self)@.entries, query_params@)
                    &&& #[trigger] confirm_callback.ensures((&v,), b)
                    &&& (b ==> final(self)@.entries == remaining_entries(
                        old(self)@.entries,
                        query_params@,
                    ) && final(self)@.changed == true && final(self)@.creation_version == old(
                        self,
                    )@.creation_version && final(self)@.path == old(self)@.path && (
                    r.unwrap() matches Some(paths) && string_views(paths@) == all_file_paths(
                        matching_entries(old(self)@.entries, query_params@),
                    )))
                    &&& (!b ==> final(self)@ == old(self)@ && r.unwrap() is None)
                },
    {
        let cq = match compile_query(query_params) {
            Ok(c) => c,
            Err(e) => {
                return Err(e);
            },
        };
        let ghost q = query_params@;
        let ghost evs = entry_views(self.entries@);
        let ghost mpred = |e: LibraryEntryV| entry_matches(q, e.meta);
        let ghost kpred = |e: LibraryEntryV| !entry_matches(q, e.meta);
        let mut matched: Vec<LibraryEntry> = Vec::new();
        let mut kept: Vec<LibraryEntry> = Vec::new();
        let mut paths: Vec<String> = Vec::new();
        let mut i: usize = 0;
        proof {
            reveal(Seq::filter);
            assert(evs.take(0) =~= Seq::<LibraryEntryV>::empty());
            assert(entry_views(matched@) =~= evs.take(0).filter(mpred));
            assert(entry_views(kept@) =~= evs.take(0).filter(kpred));
            assert(string_views(paths@) =~= all_file_paths(evs.take(0).filter(mpred)));
        }
        while i < self.entries.len()
            invariant
                i <= self.entries.len(),
                cq.matches_params(q),
                q == query_params@,
                evs == entry_views(self.entries@),
                entry_views(matched@) == evs.take(i as int).filter(mpred),
                entry_views(kept@) == evs.take(i as int).filter(kpred),
                string_views(paths@) == all_file_paths(evs.take(i as int).filter(mpred)),
                mpred == (|e: LibraryEntryV| entry_matches(q, e.meta)),
                kpred == (|e: LibraryEntryV| !entry_matches(q, e.meta)),
            decreases self.entries.len() - i,
        {
            proof {
                reveal(Seq::filter);
                assert(entry_views(self.entries@)[i as int] == self.entries@[i as int]@);
                assert(evs.take(i + 1 as int).drop_last() =~= evs.take(i as int));
                assert(evs.take(i + 1 as int).last() == evs[i as int]);
            }
            let ghost mpre = entry_views(matched@);
            let ghost ppre = string_views(paths@);
            if entry_matches_exec(&cq, &self.entries[i], Ghost(q)) {
                let e = self.entries[i].duplicate();
                let mut ps = clone_strings(e.file_paths());
                let ghost psv = string_views(ps@);
                matched.push(e);
                paths.append(&mut ps);
                proof {
                    assert(entry_views(matched@) =~= mpre.push(evs[i as int]));
                    assert(evs.take(i + 1 as int).filter(mpred) =~= mpre.push(evs[i as int]));
                    assert(entry_views(kept@) =~= evs.take(i + 1 as int).filter(kpred));
                    assert(psv =~= evs[i as int].file_paths);
                    assert(string_views(paths@) =~= ppre + psv);
                    assert(mpre.push(evs[i as int]).drop_last() =~= mpre);
                    assert(mpre.push(evs[i as int]).last() == evs[i as int]);
                    assert(all_file_paths(mpre.push(evs[i as int])) =~= all_file_paths(mpre)
                        + evs[i as int].file_paths);
                }
            } else {
                let ghost kpre = entry_views(kept@);
                kept.push(self.entries[i].duplicate());
                proof {
                    assert(entry_views(kept@) =~= kpre.push(evs[i as int]));
                    assert(evs.take(i + 1 as int).filter(kpred) =~= kpre.push(evs[i as int]));
                    assert(entry_views(matched@) =~= evs.take(i + 1 as int).filter(mpred));
                }
            }
            i = i + 1;
        }
        proof {
            assert(evs.take(evs.len() as int) =~= evs);
        }
        let confirmed = confirm_callback(&matched);
        if confirmed {
            self.entries = kept;
            self.changed = true;
            proof {
                assert(confirm_callback.ensures((&matched,), true));
                if crate::model::entries_all_well_formed(evs) {
                    lemma_filter_keeps_wf(evs, kpred);
                }
            }
            Ok(Some(paths))
        } else {
            proof {
                assert(confirm_callback.ensures((&matched,), false));
            }
            Ok(None)
        }
    }
}

} // verus!
