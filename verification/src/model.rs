//! The bibliographic data model: entry types, months, record metadata and
//! stored library entries.

use vstd::prelude::*;

use crate::strutil::{
    chars_to_string, clone_bytes, clone_pairs, clone_strings, dec_str_of, lower_of,
    lowercase_chars, pair_views, parse_u32_chars, parse_u32_spec, str_to_chars, string_views,
    u32_to_dec_chars,
};

verus! {

/// The number of bytes in a content digest (SHA-256 output).
pub const DIGEST_LEN: usize = 32;

/// The publication category of a record: the closed set of entry types.
#[derive(Clone, Copy, Debug, PartialEq, Eq, Structural)]
pub enum LibraryEntryType {
    Article,
    Book,
    Booklet,
    Conference,
    InBook,
    InCollection,
    InProceedings,
    Manual,
    MasterThesis,
    Thesis,
    Misc,
    PHDThesis,
    Proceedings,
    Techreport,
    Unpublished,
}

/// A month of the year.
#[derive(Clone, Copy, Debug, PartialEq, Eq, Structural)]
pub enum Month {
    Jan,
    Feb,
    Mar,
    Apr,
    May,
    Jun,
    Jul,
    Aug,
    Sep,
    Oct,
    Nov,
    Dec,
}

/// Why a month failed to parse: the word was not recognized, or a numeric
/// month was outside 1..=12.
#[derive(Debug)]
pub enum ParseMonthError {
    Unknown(String),
    OutOfBounds(u32),
}

/// The text `ParseMonthError::message` renders.
pub open spec fn month_error_text(e: ParseMonthError) -> Seq<char> {
    match e {
        ParseMonthError::Unknown(w) => "Failed to parse month: "@ + w@ + " unknown"@,
        ParseMonthError::OutOfBounds(n) => "Failed to parse month: "@ + dec_str_of(n as nat)
            + " out of bounds"@,
    }
}

impl ParseMonthError {
    /// A human-readable description of the failure.
    pub fn message(&self) -> (r: String)
        ensures
            r@ == month_error_text(*self),
    {
        let mut out: Vec<char> = str_to_chars("Failed to parse month: ");
        match self {
            ParseMonthError::Unknown(w) => {
                let mut tail = str_to_chars(w.as_str());
                out.append(&mut tail);
                let mut suffix = str_to_chars(" unknown");
                out.append(&mut suffix);
            },
            ParseMonthError::OutOfBounds(n) => {
                let mut num = u32_to_dec_chars(*n);
                out.append(&mut num);
                let mut suffix = str_to_chars(" out of bounds");
                out.append(&mut suffix);
            },
        }
        proof {
            assert(out@ =~= month_error_text(*self));
        }
        chars_to_string(&out)
    }
}

/// The long name of a month, as it appears in rendered file names.
pub open spec fn month_name_seq(m: Month) -> Seq<char> {
    match m {
        Month::Jan => "January"@,
        Month::Feb => "February"@,
        Month::Mar => "March"@,
        Month::Apr => "April"@,
        Month::May => "May"@,
        Month::Jun => "June"@,
        Month::Jul => "July"@,
        Month::Aug => "August"@,
        Month::Sep => "September"@,
        Month::Oct => "October"@,
        Month::Nov => "November"@,
        Month::Dec => "December"@,
    }
}

/// The short name of a month, as it is persisted.
pub open spec fn month_short_seq(m: Month) -> Seq<char> {
    match m {
        Month::Jan => "Jan"@,
        Month::Feb => "Feb"@,
        Month::Mar => "Mar"@,
        Month::Apr => "Apr"@,
        Month::May => "May"@,
        Month::Jun => "Jun"@,
        Month::Jul => "Jul"@,
        Month::Aug => "Aug"@,
        Month::Sep => "Sep"@,
        Month::Oct => "Oct"@,
        Month::Nov => "Nov"@,
        Month::Dec => "Dec"@,
    }
}

pub open spec fn month_number(m: Month) -> u32 {
    match m {
        Month::Jan => 1,
        Month::Feb => 2,
        Month::Mar => 3,
        Month::Apr => 4,
        Month::May => 5,
        Month::Jun => 6,
        Month::Jul => 7,
        Month::Aug => 8,
        Month::Sep => 9,
        Month::Oct => 10,
        Month::Nov => 11,
        Month::Dec => 12,
    }
}

pub open spec fn month_of_number(num: u32) -> Option<Month> {
    if num == 1 {
        Some(Month::Jan)
    } else if num == 2 {
        Some(Month::Feb)
    } else if num == 3 {
        Some(Month::Mar)
    } else if num == 4 {
        Some(Month::Apr)
    } else if num == 5 {
        Some(Month::May)
    } else if num == 6 {
        Some(Month::Jun)
    } else if num == 7 {
        Some(Month::Jul)
    } else if num == 8 {
        Some(Month::Aug)
    } else if num == 9 {
        Some(Month::Sep)
    } else if num == 10 {
        Some(Month::Oct)
    } else if num == 11 {
        Some(Month::Nov)
    } else if num == 12 {
        Some(Month::Dec)
    } else {
        None
    }
}

/// The month named by a lowercased three-letter prefix.
pub open spec fn month_of_prefix(p: Seq<char>) -> Option<Month> {
    if p == "jan"@ {
        Some(Month::Jan)
    } else if p == "feb"@ {
        Some(Month::Feb)
    } else if p == "mar"@ {
        Some(Month::Mar)
    } else if p == "apr"@ {
        Some(Month::Apr)
    } else if p == "may"@ {
        Some(Month::May)
    } else if p == "jun"@ {
        Some(Month::Jun)
    } else if p == "jul"@ {
        Some(Month::Jul)
    } else if p == "aug"@ {
        Some(Month::Aug)
    } else if p == "sep"@ {
        Some(Month::Sep)
    } else if p == "oct"@ {
        Some(Month::Oct)
    } else if p == "nov"@ {
        Some(Month::Nov)
    } else if p == "dec"@ {
        Some(Month::Dec)
    } else {
        None
    }
}

/// The three-letter prefix a textual month word is matched by.
pub open spec fn month_prefix_of(s: Seq<char>) -> Seq<char> {
    lower_of(if s.len() <= 3 {
        s
    } else {
        s.take(3)
    })
}

/// The month a text denotes: a number first, a word prefix otherwise.
pub open spec fn month_of_text(s: Seq<char>) -> Option<Month> {
    match parse_u32_spec(s) {
        Some(n) => month_of_number(n),
        None => month_of_prefix(month_prefix_of(s)),
    }
}

/// A failed textual month is "out of bounds" exactly when the text is a
/// number outside 1..=12; otherwise the word is unknown.
pub open spec fn month_err_out_of_bounds(s: Seq<char>) -> bool {
    parse_u32_spec(s) is Some && month_of_number(parse_u32_spec(s).unwrap()) is None
}

impl Month {
    pub fn from_number(num: u32) -> (r: Result<Month, ParseMonthError>)
        ensures
            month_of_number(num) is Some ==> r == Ok::<Month, ParseMonthError>(
                month_of_number(num).unwrap(),
            ),
            month_of_number(num) is None ==> r is Err && r.unwrap_err() is OutOfBounds,
    {
        match num {
            1 => Ok(Month::Jan),
            2 => Ok(Month::Feb),
            3 => Ok(Month::Mar),
            4 => Ok(Month::Apr),
            5 => Ok(Month::May),
            6 => Ok(Month::Jun),
            7 => Ok(Month::Jul),
            8 => Ok(Month::Aug),
            9 => Ok(Month::Sep),
            10 => Ok(Month::Oct),
            11 => Ok(Month::Nov),
            12 => Ok(Month::Dec),
            _ => Err(ParseMonthError::OutOfBounds(num)),
        }
    }

    /// Parses a month given as a number or as a word with a recognized
    /// three-letter prefix (case-insensitive).
    pub fn from_str(s: &str) -> (r: Result<Month, ParseMonthError>)
        ensures
            month_of_text(s@) is Some ==> r == Ok::<Month, ParseMonthError>(
                month_of_text(s@).unwrap(),
            ),
            month_of_text(s@) is None ==> r is Err,
            month_of_text(s@) is None ==> (r.unwrap_err() is OutOfBounds
                <==> month_err_out_of_bounds(s@)),
    {
        let cs = str_to_chars(s);
        match parse_u32_chars(&cs) {
            Some(n) => Month::from_number(n),
            None => {
                let mut prefix: Vec<char> = Vec::new();
                let mut i: usize = 0;
                while i < cs.len() && i < 3
                    invariant
                        i <= cs.len(),
                        i <= 3,
                        prefix@ == cs@.take(i as int),
                        i < 3 ==> i == cs.len() || i == prefix@.len(),
                    decreases 3 - i,
                {
                    prefix.push(cs[i]);
                    proof {
                        assert(cs@.take(i + 1 as int) =~= cs@.take(i as int).push(cs@[i as int]));
                    }
                    i = i + 1;
                }
                proof {
                    if cs@.len() <= 3 {
                        assert(cs@.take(cs@.len() as int) =~= cs@);
                    }
                }
                let lowered = lowercase_chars(&prefix);
                let l = chars_to_string(&lowered);
                let m = if l == String::from_str("jan") {
                    Some(Month::Jan)
                } else if l == String::from_str("feb") {
                    Some(Month::Feb)
                } else if l == String::from_str("mar") {
                    Some(Month::Mar)
                } else if l == String::from_str("apr") {
                    Some(Month::Apr)
                } else if l == String::from_str("may") {
                    Some(Month::May)
                } else if l == String::from_str("jun") {
                    Some(Month::Jun)
                } else if l == String::from_str("jul") {
                    Some(Month::Jul)
                } else if l == String::from_str("aug") {
                    Some(Month::Aug)
                } else if l == String::from_str("sep") {
                    Some(Month::Sep)
                } else if l == String::from_str("oct") {
                    Some(Month::Oct)
                } else if l == String::from_str("nov") {
                    Some(Month::Nov)
                } else if l == String::from_str("dec") {
                    Some(Month::Dec)
                } else {
                    None
                };
                match m {
                    Some(month) => Ok(month),
                    None => Err(ParseMonthError::Unknown(l)),
                }
            },
        }
    }

    /// The long month name, as `%M` renders it.
    pub fn long_name(&self) -> (r: String)
        ensures
            r@ == month_name_seq(*self),
    {
        match self {
            Month::Jan => String::from_str("January"),
            Month::Feb => String::from_str("February"),
            Month::Mar => String::from_str("March"),
            Month::Apr => String::from_str("April"),
            Month::May => String::from_str("May"),
            Month::Jun => String::from_str("June"),
            Month::Jul => String::from_str("July"),
            Month::Aug => String::from_str("August"),
            Month::Sep => String::from_str("September"),
            Month::Oct => String::from_str("October"),
            Month::Nov => String::from_str("November"),
            Month::Dec => String::from_str("December"),
        }
    }

    /// The short month name, as it is persisted.
    pub fn short_name(&self) -> (r: String)
        ensures
            r@ == month_short_seq(*self),
    {
        match self {
            Month::Jan => String::from_str("Jan"),
            Month::Feb => String::from_str("Feb"),
            Month::Mar => String::from_str("Mar"),
            Month::Apr => String::from_str("Apr"),
            Month::May => String::from_str("May"),
            Month::Jun => String::from_str("Jun"),
            Month::Jul => String::from_str("Jul"),
            Month::Aug => String::from_str("Aug"),
            Month::Sep => String::from_str("Sep"),
            Month::Oct => String::from_str("Oct"),
            Month::Nov => String::from_str("Nov"),
            Month::Dec => String::from_str("Dec"),
        }
    }
}

/// The name of an entry type, as queries match it and as it is persisted.
pub open spec fn type_label_seq(t: LibraryEntryType) -> Seq<char> {
    match t {
        LibraryEntryType::Article => "Article"@,
        LibraryEntryType::Book => "Book"@,
        LibraryEntryType::Booklet => "Booklet"@,
        LibraryEntryType::Conference => "Conference"@,
        LibraryEntryType::InBook => "InBook"@,
        LibraryEntryType::InCollection => "InCollection"@,
        LibraryEntryType::InProceedings => "InProceedings"@,
        LibraryEntryType::Manual => "Manual"@,
        LibraryEntryType::MasterThesis => "MasterThesis"@,
        LibraryEntryType::Thesis => "Thesis"@,
        LibraryEntryType::Misc => "Misc"@,
        LibraryEntryType::PHDThesis => "PHDThesis"@,
        LibraryEntryType::Proceedings => "Proceedings"@,
        LibraryEntryType::Techreport => "Techreport"@,
        LibraryEntryType::Unpublished => "Unpublished"@,
    }
}

impl LibraryEntryType {
    /// The printable name of the entry type.
    pub fn type_label(&self) -> (r: String)
        ensures
            r@ == type_label_seq(*self),
    {
        match self {
            LibraryEntryType::Article => String::from_str("Article"),
            LibraryEntryType::Book => String::from_str("Book"),
            LibraryEntryType::Booklet => String::from_str("Booklet"),
            LibraryEntryType::Conference => String::from_str("Conference"),
            LibraryEntryType::InBook => String::from_str("InBook"),
            LibraryEntryType::InCollection => String::from_str("InCollection"),
            LibraryEntryType::InProceedings => String::from_str("InProceedings"),
            LibraryEntryType::Manual => String::from_str("Manual"),
            LibraryEntryType::MasterThesis => String::from_str("MasterThesis"),
            LibraryEntryType::Thesis => String::from_str("Thesis"),
            LibraryEntryType::Misc => String::from_str("Misc"),
            LibraryEntryType::PHDThesis => String::from_str("PHDThesis"),
            LibraryEntryType::Proceedings => String::from_str("Proceedings"),
            LibraryEntryType::Techreport => String::from_str("Techreport"),
            LibraryEntryType::Unpublished => String::from_str("Unpublished"),
        }
    }
}

/// The ghost image of a record's metadata.
pub ghost struct LibraryEntryMetaV {
    pub key: Seq<char>,
    pub entry_type: LibraryEntryType,
    pub title: Seq<char>,
    pub authors: Seq<Seq<char>>,
    pub year: u32,
    pub month: Option<Month>,
    pub original_tags: Option<Seq<(Seq<char>, Seq<char>)>>,
}

/// All metadata of one bibliographic record. Immutable once parsed.
#[derive(Debug)]
pub struct LibraryEntryMeta {
    key: String,
    entry_type: LibraryEntryType,
    title: String,
    authors: Vec<String>,
    year: u32,
    month: Option<Month>,
    original_tags: Option<Vec<(String, String)>>,
}

impl View for LibraryEntryMeta {
    type V = LibraryEntryMetaV;

    closed spec fn view(&self) -> LibraryEntryMetaV {
        LibraryEntryMetaV {
            key: self.key@,
            entry_type: self.entry_type,
            title: self.title@,
            authors: string_views(self.authors@),
            year: self.year,
            month: self.month,
            original_tags: match self.original_tags {
                Some(v) => Some(pair_views(v@)),
                None => None,
            },
        }
    }
}

impl LibraryEntryMeta {
    pub fn new(
        key: String,
        entry_type: LibraryEntryType,
        title: String,
        authors: Vec<String>,
        year: u32,
        month: Option<Month>,
        original_tags: Option<Vec<(String, String)>>,
    ) -> (r: LibraryEntryMeta)
        ensures
            r@.key == key@,
            r@.entry_type == entry_type,
            r@.title == title@,
            r@.authors == string_views(authors@),
            r@.year == year,
            r@.month == month,
            original_tags is Some ==> r@.original_tags == Some(
                pair_views(original_tags.unwrap()@),
            ),
            original_tags is None ==> r@.original_tags is None,
    {
        LibraryEntryMeta { key, entry_type, title, authors, year, month, original_tags }
    }

    pub fn key(&self) -> (r: &str)
        ensures
            r@ == self@.key,
    {
        self.key.as_str()
    }

    pub fn entry_type(&self) -> (r: LibraryEntryType)
        ensures
            r == self@.entry_type,
    {
        self.entry_type
    }

    pub fn title(&self) -> (r: &str)
        ensures
            r@ == self@.title,
    {
        self.title.as_str()
    }

    pub fn authors(&self) -> (r: &Vec<String>)
        ensures
            string_views(r@) == self@.authors,
    {
        &self.authors
    }

    pub fn year(&self) -> (r: u32)
        ensures
            r == self@.year,
    {
        self.year
    }

    pub fn month(&self) -> (r: Option<Month>)
        ensures
            r == self@.month,
    {
        self.month
    }

    pub fn original_tags(&self) -> (r: Option<&Vec<(String, String)>>)
        ensures
            self@.original_tags is Some <==> r is Some,
            r is Some ==> Some(pair_views(r.unwrap()@)) == self@.original_tags,
    {
        self.original_tags.as_ref()
    }

    /// A field-for-field copy.
    pub fn duplicate(&self) -> (r: LibraryEntryMeta)
        ensures
            r@ == self@,
    {
        let tags_copy: Option<Vec<(String, String)>> = match &self.original_tags {
            Some(v) => Some(clone_pairs(v)),
            None => None,
        };
        let r = LibraryEntryMeta {
            key: self.key.clone(),
            entry_type: self.entry_type,
            title: self.title.clone(),
            authors: clone_strings(&self.authors),
            year: self.year,
            month: self.month,
            original_tags: tags_copy,
        };
        proof {
            assert(r@.authors =~= self@.authors);
            if self.original_tags is Some {
                assert(r@.original_tags.unwrap() =~= self@.original_tags.unwrap());
            }
            assert(r@ =~= self@);
        }
        r
    }
}

/// The ghost images of a list of records.
pub open spec fn meta_views(s: Seq<LibraryEntryMeta>) -> Seq<LibraryEntryMetaV> {
    Seq::new(s.len(), |i: int| s[i]@)
}

/// The ghost image of a stored entry.
pub ghost struct LibraryEntryV {
    pub meta: LibraryEntryMetaV,
    pub tags: Seq<Seq<char>>,
    pub file_paths: Seq<Seq<char>>,
    pub digest: Seq<u8>,
}

/// One imported document: its record, the user-chosen tags, every
/// destination path it was placed under, and the content digest of its
/// bytes. Stored byte for byte once created.
#[derive(Debug)]
pub struct LibraryEntry {
    meta: LibraryEntryMeta,
    tags: Vec<String>,
    file_paths: Vec<String>,
    digest: Vec<u8>,
}

impl View for LibraryEntry {
    type V = LibraryEntryV;

    closed spec fn view(&self) -> LibraryEntryV {
        LibraryEntryV {
            meta: self.meta@,
            tags: string_views(self.tags@),
            file_paths: string_views(self.file_paths@),
            digest: self.digest@,
        }
    }
}

/// The ghost images of a list of stored entries.
pub open spec fn entry_views(s: Seq<LibraryEntry>) -> Seq<LibraryEntryV> {
    Seq::new(s.len(), |i: int| s[i]@)
}

/// Whether a stored entry is well formed: at least one destination path,
/// and a digest of the fixed width.
pub open spec fn entry_well_formed(e: LibraryEntryV) -> bool {
    e.file_paths.len() >= 1 && e.digest.len() == DIGEST_LEN
}

/// Whether every entry of a list is well formed.
pub open spec fn entries_all_well_formed(es: Seq<LibraryEntryV>) -> bool {
    forall|i: int| 0 <= i < es.len() ==> entry_well_formed(#[trigger] es[i])
}

impl LibraryEntry {
    pub fn new(meta: LibraryEntryMeta, tags: Vec<String>, file_paths: Vec<String>, digest: Vec<
        u8,
    >) -> (r: LibraryEntry)
        requires
            file_paths@.len() >= 1,
            digest@.len() == DIGEST_LEN,
        ensures
            r@.meta == meta@,
            r@.tags == string_views(tags@),
            r@.file_paths == string_views(file_paths@),
            r@.digest == digest@,
            entry_well_formed(r@),
    {
        LibraryEntry { meta, tags, file_paths, digest }
    }

    pub fn meta(&self) -> (r: &LibraryEntryMeta)
        ensures
            r@ == self@.meta,
    {
        &self.meta
    }

    pub fn tags(&self) -> (r: &Vec<String>)
        ensures
            string_views(r@) == self@.tags,
    {
        &self.tags
    }

    pub fn file_paths(&self) -> (r: &Vec<String>)
        ensures
            string_views(r@) == self@.file_paths,
    {
        &self.file_paths
    }

    pub fn digest(&self) -> (r: &Vec<u8>)
        ensures
            r@ == self@.digest,
    {
        &self.digest
    }

    /// A field-for-field copy.
    pub fn duplicate(&self) -> (r: LibraryEntry)
        ensures
            r@ == self@,
    {
        let r = LibraryEntry {
            meta: self.meta.duplicate(),
            tags: clone_strings(&self.tags),
            file_paths: clone_strings(&self.file_paths),
            digest: clone_bytes(&self.digest),
        };
        proof {
            assert(r@.tags =~= self@.tags);
            assert(r@.file_paths =~= self@.file_paths);
            assert(r@ =~= self@);
        }
        r
    }
}

} // verus!
