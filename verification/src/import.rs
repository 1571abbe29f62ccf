//! The import pipeline: parsing a bibliographic document into records,
//! selecting a record, digesting the imported file, and computing the
//! destination paths for placement.

use vstd::prelude::*;

use nom_bibtex::Bibtex;
use sha2::{Digest, Sha256};

use crate::configuration::{rendered_name, Configuration};
use crate::model::{
    entry_well_formed, meta_views, month_of_text, LibraryEntry, LibraryEntryMeta,
    LibraryEntryMetaV, LibraryEntryType, Month, DIGEST_LEN,
};
use crate::strutil::{
    chars_to_string, clone_chars, clone_pairs, last_index_of, lower_of, pair_views,
    parse_u32_chars, parse_u32_spec, rfind_char, split_all, split_spec, str_to_chars,
    string_views, sub_vec, views_of,
};

verus! {

/// Why an import failed.
#[derive(Debug)]
pub enum ImportError {
    /// An I/O failure outside the pipeline's own logic.
    Io(String),
    /// The bibliographic document could not be parsed at all.
    Parse(String),
    /// No single record could be chosen: the requested key, when one was
    /// given, and every key the document does offer.
    NoBibliographyFound(Option<String>, Vec<String>),
    /// The document is not valid UTF-8.
    Utf8(String),
    /// The document's file type is missing or not recognized.
    UnknownFile(String),
    /// The imported file's path lacks a usable name or extension.
    CorruptFilePath(String),
}

/// The known keys of a failed selection, rendered one after another, each
/// preceded by a space.
pub open spec fn keys_list_text(keys: Seq<Seq<char>>) -> Seq<char>
    decreases keys.len(),
{
    if keys.len() == 0 {
        Seq::empty()
    } else {
        keys_list_text(keys.drop_last()) + seq![' '] + keys.last()
    }
}

/// The text `ImportError::message` renders: the failure kind, the requested
/// key of a failed selection, and the payload.
pub open spec fn import_error_text(e: ImportError) -> Seq<char> {
    match e {
        ImportError::Io(d) => "I/O error: "@ + d@,
        ImportError::Parse(d) => "Parsing failed: "@ + d@,
        ImportError::NoBibliographyFound(req, keys) => (match req {
            Some(k) => "Key "@ + k@ + " unknown; known keys are:"@,
            None => "No single record could be chosen; known keys are:"@,
        }) + keys_list_text(string_views(keys@)),
        ImportError::Utf8(d) => "File not valid UTF-8: "@ + d@,
        ImportError::UnknownFile(d) => "File type unknown: "@ + d@,
        ImportError::CorruptFilePath(d) => "File path corrupt: "@ + d@,
    }
}

impl ImportError {
    /// A human-readable description of the failure; for a failed selection
    /// it names the requested key and enumerates every known key.
    pub fn message(&self) -> (r: String)
        ensures
            r@ == import_error_text(*self),
    {
        let mut out: Vec<char> = Vec::new();
        match self {
            ImportError::Io(d) => {
                let mut head = str_to_chars("I/O error: ");
                out.append(&mut head);
                let mut tail = str_to_chars(d.as_str());
                out.append(&mut tail);
            },
            ImportError::Parse(d) => {
                let mut head = str_to_chars("Parsing failed: ");
                out.append(&mut head);
                let mut tail = str_to_chars(d.as_str());
                out.append(&mut tail);
            },
            ImportError::NoBibliographyFound(req, keys) => {
                match req {
                    Some(k) => {
                        let mut head = str_to_chars("Key ");
                        out.append(&mut head);
                        let mut kc = str_to_chars(k.as_str());
                        out.append(&mut kc);
                        let mut mid = str_to_chars(" unknown; known keys are:");
                        out.append(&mut mid);
                    },
                    None => {
                        let mut head = str_to_chars(
                            "No single record could be chosen; known keys are:",
                        );
                        out.append(&mut head);
                    },
                }
                let ghost lead = out@;
                let mut i: usize = 0;
                proof {
                    assert(keys_list_text(string_views(keys@).take(0)) =~= Seq::<char>::empty());
                    assert(out@ =~= lead + keys_list_text(string_views(keys@).take(0)));
                }
                while i < keys.len()
                    invariant
                        i <= keys.len(),
                        out@ == lead + keys_list_text(string_views(keys@).take(i as int)),
                    decreases keys.len() - i,
                {
                    out.push(' ');
                    let mut k = str_to_chars(keys[i].as_str());
                    out.append(&mut k);
                    proof {
                        let kvs = string_views(keys@);
                        assert(kvs.take(i + 1 as int).drop_last() =~= kvs.take(i as int));
                        assert(kvs.take(i + 1 as int).last() == kvs[i as int]);
                        assert(out@ =~= lead + keys_list_text(kvs.take(i + 1 as int)));
                    }
                    i = i + 1;
                }
                proof {
                    assert(string_views(keys@).take(keys@.len() as int) =~= string_views(keys@));
                }
            },
            ImportError::Utf8(d) => {
                let mut head = str_to_chars("File not valid UTF-8: ");
                out.append(&mut head);
                let mut tail = str_to_chars(d.as_str());
                out.append(&mut tail);
            },
            ImportError::UnknownFile(d) => {
                let mut head = str_to_chars("File type unknown: ");
                out.append(&mut head);
                let mut tail = str_to_chars(d.as_str());
                out.append(&mut tail);
            },
            ImportError::CorruptFilePath(d) => {
                let mut head = str_to_chars("File path corrupt: ");
                out.append(&mut head);
                let mut tail = str_to_chars(d.as_str());
                out.append(&mut tail);
            },
        }
        proof {
            assert(out@ =~= import_error_text(*self));
        }
        chars_to_string(&out)
    }
}

/// One bibliography block as the document parser hands it over: the
/// citation key, the entry type word, and the block's fields in some order,
/// each a (lowercased name, expanded value) pair with no name repeated.
pub struct RawBlock {
    pub citation_key: String,
    pub entry_type: String,
    pub fields: Vec<(String, String)>,
}

/// The ghost image of a parsed block.
pub ghost struct RawBlockV {
    pub citation_key: Seq<char>,
    pub entry_type: Seq<char>,
    pub fields: Seq<(Seq<char>, Seq<char>)>,
}

impl View for RawBlock {
    type V = RawBlockV;

    open spec fn view(&self) -> RawBlockV {
        RawBlockV {
            citation_key: self.citation_key@,
            entry_type: self.entry_type@,
            fields: pair_views(self.fields@),
        }
    }
}

/// The ghost images of a list of blocks.
pub open spec fn block_views(s: Seq<RawBlock>) -> Seq<RawBlockV> {
    Seq::new(s.len(), |i: int| s[i]@)
}

/// The value of the first field with the given name, if any.
pub open spec fn first_val_of(fields: Seq<(Seq<char>, Seq<char>)>, name: Seq<char>) -> Option<
    Seq<char>,
>
    decreases fields.len(),
{
    if fields.len() == 0 {
        None
    } else if fields[0].0 == name {
        Some(fields[0].1)
    } else {
        first_val_of(fields.drop_first(), name)
    }
}

/// Whether no field name occurs twice.
pub open spec fn distinct_field_names(fields: Seq<(Seq<char>, Seq<char>)>) -> bool {
    forall|i: int, j: int|
        0 <= i < j < fields.len() ==> (#[trigger] fields[i]).0 != (#[trigger] fields[j]).0
}

/// A lookup in the map a parsed block's fields denote.
pub open spec fn map_field_get(m: Map<Seq<char>, Seq<char>>, k: Seq<char>) -> Option<Seq<char>> {
    if m.dom().contains(k) {
        Some(m[k])
    } else {
        None
    }
}

/// The whitespace the document parser skips between tokens.
pub open spec fn is_bib_ws(c: char) -> bool {
    c == ' ' || c == '\t' || c == '\r' || c == '\n'
}

/// Whether every character in `[a, b)` is such whitespace.
pub open spec fn bib_ws_run(s: Seq<char>, a: int, b: int) -> bool {
    forall|k: int| a <= k < b ==> is_bib_ws(#[trigger] s[k])
}

/// Whether the six characters at `j` spell the word that names a string
/// abbreviation block, case-insensitively.
pub open spec fn string_word_at(s: Seq<char>, j: int) -> bool {
    &&& 0 <= j && j + 6 <= s.len()
    &&& (s[j] == 's' || s[j] == 'S')
    &&& (s[j + 1] == 't' || s[j + 1] == 'T')
    &&& (s[j + 2] == 'r' || s[j + 2] == 'R')
    &&& (s[j + 3] == 'i' || s[j + 3] == 'I')
    &&& (s[j + 4] == 'n' || s[j + 4] == 'N')
    &&& (s[j + 5] == 'g' || s[j + 5] == 'G')
}

/// Whether the `@` at `i` can open a string abbreviation block: optional
/// whitespace, the word, optional whitespace, then `{` or `(`.
pub open spec fn string_block_at(s: Seq<char>, i: int) -> bool {
    exists|j: int, k: int|
        #![trigger string_word_at(s, j), s[k]]
        {
            &&& i + 1 <= j
            &&& string_word_at(s, j)
            &&& j + 6 <= k < s.len()
            &&& bib_ws_run(s, i + 1, j)
            &&& bib_ws_run(s, j + 6, k)
            &&& (s[k] == '{' || s[k] == '(')
        }
}

pub open spec fn has_string_block(s: Seq<char>) -> bool {
    exists|i: int| 0 <= i < s.len() && s[i] == '@' && #[trigger] string_block_at(s, i)
}

/// Whether the outside document parser can be run on this text. Its value
/// scanner slices one byte past the final character when a `{`- or
/// `"`-delimited value reaches the end of the input, and a string
/// abbreviation block can make its expansion recurse without bound; both
/// shapes are kept away from it.
pub open spec fn bib_text_safe(s: Seq<char>) -> bool {
    &&& (s.len() > 0 ==> (s.last() as u32) < 128 && s.last() != '{' && s.last() != '"')
    &&& !has_string_block(s)
}

fn scan_ws_end(s: &Vec<char>, from: usize) -> (r: usize)
    requires
        from <= s.len(),
    ensures
        from <= r <= s@.len(),
        bib_ws_run(s@, from as int, r as int),
        r < s@.len() ==> !is_bib_ws(s@[r as int]),
{
    let mut r: usize = from;
    while r < s.len()
        invariant
            from <= r <= s@.len(),
            bib_ws_run(s@, from as int, r as int),
        decreases s@.len() - r,
    {
        let c = s[r];
        if !(c == ' ' || c == '\t' || c == '\r' || c == '\n') {
            return r;
        }
        r = r + 1;
    }
    r
}

fn check_string_word_at(s: &Vec<char>, j: usize) -> (r: bool)
    requires
        j <= s.len(),
    ensures
        r == string_word_at(s@, j as int),
{
    if s.len() - j < 6 {
        return false;
    }
    (s[j] == 's' || s[j] == 'S') && (s[j + 1] == 't' || s[j + 1] == 'T') && (s[j + 2] == 'r'
        || s[j + 2] == 'R') && (s[j + 3] == 'i' || s[j + 3] == 'I') && (s[j + 4] == 'n' || s[j + 4]
        == 'N') && (s[j + 5] == 'g' || s[j + 5] == 'G')
}

proof fn lemma_string_block_positions(s: Seq<char>, i: int, j: usize, k: usize)
    requires
        0 <= i < s.len(),
        s[i] == '@',
        i + 1 <= j <= s.len(),
        bib_ws_run(s, i + 1, j as int),
        j < s.len() ==> !is_bib_ws(s[j as int]),
        string_word_at(s, j as int) ==> {
            &&& j + 6 <= k <= s.len()
            &&& bib_ws_run(s, j + 6, k as int)
            &&& (k < s.len() ==> !is_bib_ws(s[k as int]))
        },
        string_word_at(s, j as int) ==> !(k < s.len() && (s[k as int] == '{' || s[k as int]
            == '(')),
    ensures
        !string_block_at(s, i),
{
    if string_block_at(s, i) {
        let (j2, k2) = choose|j2: int, k2: int|
            #![trigger string_word_at(s, j2), s[k2]]
            {
                &&& i + 1 <= j2
                &&& string_word_at(s, j2)
                &&& j2 + 6 <= k2 < s.len()
                &&& bib_ws_run(s, i + 1, j2)
                &&& bib_ws_run(s, j2 + 6, k2)
                &&& (s[k2] == '{' || s[k2] == '(')
            };
        assert(!is_bib_ws(s[j2]));
        if j2 < j {
            assert(is_bib_ws(s[j2]));
            assert(false);
        }
        if j2 > j {
            assert(j < s.len());
            assert(is_bib_ws(s[j as int]));
            assert(false);
        }
        assert(j2 == j);
        assert(string_word_at(s, j as int));
        assert(!is_bib_ws(s[k2]));
        if k2 < k {
            assert(is_bib_ws(s[k2]));
            assert(false);
        }
        if k2 > k {
            assert(k < s.len());
            assert(is_bib_ws(s[k as int]));
            assert(false);
        }
        assert(k2 == k);
        assert(false);
    }
}

fn has_string_block_exec(s: &Vec<char>) -> (r: bool)
    ensures
        r == has_string_block(s@),
{
    let mut i: usize = 0;
    while i < s.len()
        invariant
            i <= s.len(),
            forall|ii: int|
                0 <= ii < i ==> !(s@[ii] == '@' && #[trigger] string_block_at(s@, ii)),
        decreases s@.len() - i,
    {
        if s[i] == '@' {
            let j = scan_ws_end(s, i + 1);
            if check_string_word_at(s, j) {
                let k = scan_ws_end(s, j + 6);
                if k < s.len() && (s[k] == '{' || s[k] == '(') {
                    proof {
                        assert(string_block_at(s@, i as int));
                    }
                    return true;
                }
                proof {
                    lemma_string_block_positions(s@, i as int, j, k);
                }
            } else {
                proof {
                    lemma_string_block_positions(s@, i as int, j, j);
                }
            }
        }
        i = i + 1;
    }
    false
}

/// Decides whether the text can be handed to the outside document parser.
pub fn check_bib_text_safe(text: &str) -> (r: bool)
    ensures
        r == bib_text_safe(text@),
{
    let cs = str_to_chars(text);
    if cs.len() > 0 {
        let lastc = cs[cs.len() - 1];
        if lastc as u32 >= 128 || lastc == '{' || lastc == '"' {
            return false;
        }
    }
    !has_string_block_exec(&cs)
}

/// What a whole BibTeX document parses to: `None` when the document is
/// rejected, otherwise one (citation key, entry type, field map) per
/// bibliography block, in document order.
pub uninterp spec fn bib_blocks_of(text: Seq<char>) -> Option<
    Seq<(Seq<char>, Seq<char>, Map<Seq<char>, Seq<char>>)>,
>;

/// Whether a list of blocks is one the document parser could have handed
/// over for this text: same block count, keys and entry types in order,
/// and fields that look up exactly as the parsed field maps do. The order
/// of the fields inside one block is not determined.
pub open spec fn blocks_correspond(bs: Seq<RawBlockV>, text: Seq<char>) -> bool {
    &&& bib_blocks_of(text) is Some
    &&& bs.len() == bib_blocks_of(text).unwrap().len()
    &&& forall|i: int|
        0 <= i < bs.len() ==> {
            let t = bib_blocks_of(text).unwrap()[i];
            &&& (#[trigger] bs[i]).citation_key == t.0
            &&& bs[i].entry_type == t.1
            &&& distinct_field_names(bs[i].fields)
            &&& forall|k: Seq<char>|
                #[trigger] first_val_of(bs[i].fields, k) == map_field_get(t.2, k)
        }
}

/// Relies on `nom_bibtex::Bibtex::parse`: it turns a BibTeX document into
/// bibliography blocks — for each, the citation key, the entry type, and
/// the fields as (lowercased name, expanded value) pairs with distinct
/// names — or rejects the document as a whole. Whether it succeeds and
/// what the blocks hold depend on the text alone; only the order of the
/// pairs inside one block does not. The `requires` keeps out the inputs on
/// which the call does not return normally: a value scanner that slices
/// one byte past a text ending in `{` or `"` (or in a character the slice
/// can split), and a string abbreviation expansion that can recurse
/// without bound.
#[verifier::external_body]
fn parse_bibtex_blocks(text: &str) -> (r: Result<Vec<RawBlock>, String>)
    requires
        bib_text_safe(text@),
    ensures
        r is Ok <==> bib_blocks_of(text@) is Some,
        r is Ok ==> blocks_correspond(block_views(r.unwrap()@), text@),
{
    match Bibtex::parse(text) {
        Ok(b) => Ok(
            b.bibliographies().iter().map(
                |x| RawBlock {
                    citation_key: x.citation_key().to_string(),
                    entry_type: x.entry_type().to_string(),
                    fields: x.tags().iter().map(|(k, v)| (k.clone(), v.clone())).collect(),
                },
            ).collect(),
        ),
        Err(e) => Err(format!("{}", e)),
    }
}

/// The 32-byte SHA-256 digest of a byte string.
pub uninterp spec fn sha256_of(bytes: Seq<u8>) -> Seq<u8>;

/// Relies on `sha2::Sha256` (through the `Digest` trait): the digest is 32
/// bytes long and a function of the input bytes alone.
#[verifier::external_body]
pub(crate) fn calculate_digest(bytes: &Vec<u8>) -> (r: Vec<u8>)
    ensures
        r@ == sha256_of(bytes@),
        r@.len() == DIGEST_LEN,
{
    let mut hasher = Sha256::new();
    hasher.update(bytes.as_slice());
    hasher.finalize().to_vec()
}

/// The entry type a type word denotes, looked up case-insensitively in the
/// closed table.
pub open spec fn entry_type_of_name(s: Seq<char>) -> Option<LibraryEntryType> {
    let l = lower_of(s);
    if l == "article"@ {
        Some(LibraryEntryType::Article)
    } else if l == "book"@ {
        Some(LibraryEntryType::Book)
    } else if l == "booklet"@ {
        Some(LibraryEntryType::Booklet)
    } else if l == "conference"@ {
        Some(LibraryEntryType::Conference)
    } else if l == "inbook"@ {
        Some(LibraryEntryType::InBook)
    } else if l == "incollection"@ {
        Some(LibraryEntryType::InCollection)
    } else if l == "inproceedings"@ {
        Some(LibraryEntryType::InProceedings)
    } else if l == "manual"@ {
        Some(LibraryEntryType::Manual)
    } else if l == "masterthesis"@ {
        Some(LibraryEntryType::MasterThesis)
    } else if l == "thesis"@ {
        Some(LibraryEntryType::Thesis)
    } else if l == "misc"@ {
        Some(LibraryEntryType::Misc)
    } else if l == "phdthesis"@ {
        Some(LibraryEntryType::PHDThesis)
    } else if l == "proceedings"@ {
        Some(LibraryEntryType::Proceedings)
    } else if l == "techreport"@ {
        Some(LibraryEntryType::Techreport)
    } else if l == "unpublished"@ {
        Some(LibraryEntryType::Unpublished)
    } else {
        None
    }
}

/// Looks an entry type word up in the closed table, case-insensitively.
pub fn parse_entry_type(name: &str) -> (r: Result<LibraryEntryType, ImportError>)
    ensures
        r is Ok <==> entry_type_of_name(name@) is Some,
        r is Ok ==> r.unwrap() == entry_type_of_name(name@).unwrap(),
        r is Err ==> (r.unwrap_err() matches ImportError::Parse(m) && m@ == "Entry type "@
            + name@ + " not known"@),
{
    let l = name.to_lowercase();
    let m = if l == String::from_str("article") {
        Some(LibraryEntryType::Article)
    } else if l == String::from_str("book") {
        Some(LibraryEntryType::Book)
    } else if l == String::from_str("booklet") {
        Some(LibraryEntryType::Booklet)
    } else if l == String::from_str("conference") {
        Some(LibraryEntryType::Conference)
    } else if l == String::from_str("inbook") {
        Some(LibraryEntryType::InBook)
    } else if l == String::from_str("incollection") {
        Some(LibraryEntryType::InCollection)
    } else if l == String::from_str("inproceedings") {
        Some(LibraryEntryType::InProceedings)
    } else if l == String::from_str("manual") {
        Some(LibraryEntryType::Manual)
    } else if l == String::from_str("masterthesis") {
        Some(LibraryEntryType::MasterThesis)
    } else if l == String::from_str("thesis") {
        Some(LibraryEntryType::Thesis)
    } else if l == String::from_str("misc") {
        Some(LibraryEntryType::Misc)
    } else if l == String::from_str("phdthesis") {
        Some(LibraryEntryType::PHDThesis)
    } else if l == String::from_str("proceedings") {
        Some(LibraryEntryType::Proceedings)
    } else if l == String::from_str("techreport") {
        Some(LibraryEntryType::Techreport)
    } else if l == String::from_str("unpublished") {
        Some(LibraryEntryType::Unpublished)
    } else {
        None
    };
    match m {
        Some(t) => Ok(t),
        None => {
            let mut msg = str_to_chars("Entry type ");
            let mut nm = str_to_chars(name);
            msg.append(&mut nm);
            let mut tail = str_to_chars(" not known");
            msg.append(&mut tail);
            proof {
                assert(msg@ =~= "Entry type "@ + name@ + " not known"@);
            }
            Err(ImportError::Parse(chars_to_string(&msg)))
        },
    }
}

/// Splits an author field on the literal separator `" and "`.
pub fn parse_author_list(authors: &str) -> (r: Vec<String>)
    ensures
        string_views(r@) == split_spec(authors@, " and "@),
{
    proof {
        reveal_strlit(" and ");
    }
    let cs = str_to_chars(authors);
    let sep = str_to_chars(" and ");
    let parts = split_all(&cs, &sep);
    let mut r: Vec<String> = Vec::new();
    let mut i: usize = 0;
    while i < parts.len()
        invariant
            i <= parts.len(),
            r@.len() == i,
            forall|k: int| 0 <= k < i ==> r@[k]@ == views_of(parts@)[k],
        decreases parts.len() - i,
    {
        proof {
            assert(views_of(parts@)[i as int] == parts@[i as int]@);
        }
        r.push(chars_to_string(&parts[i]));
        i = i + 1;
    }
    proof {
        assert(string_views(r@) =~= views_of(parts@));
    }
    r
}

/// The value of the first field with the given name, copied out.
fn find_field(fields: &Vec<(String, String)>, name: &str) -> (r: Option<String>)
    ensures
        r is Some <==> first_val_of(pair_views(fields@), name@) is Some,
        r is Some ==> r.unwrap()@ == first_val_of(pair_views(fields@), name@).unwrap(),
{
    let name_string = name.to_owned();
    let mut i: usize = 0;
    proof {
        assert(pair_views(fields@).skip(0) =~= pair_views(fields@));
    }
    while i < fields.len()
        invariant
            i <= fields.len(),
            name_string@ == name@,
            first_val_of(pair_views(fields@), name@) == first_val_of(
                pair_views(fields@).skip(i as int),
                name@,
            ),
        decreases fields.len() - i,
    {
        let ghost pv = pair_views(fields@);
        if fields[i].0 == name_string {
            proof {
                assert(pv.skip(i as int)[0] == pv[i as int]);
            }
            return Some(fields[i].1.clone());
        }
        proof {
            assert(pv.skip(i as int)[0] == pv[i as int]);
            assert(pv.skip(i as int).drop_first() =~= pv.skip(i + 1));
        }
        i = i + 1;
    }
    proof {
        assert(pair_views(fields@).skip(fields@.len() as int) =~= Seq::<(Seq<char>, Seq<char>)>::empty());
    }
    None
}

/// The record a block denotes, when all required fields are present and
/// parse; `None` exactly when the block is malformed.
pub open spec fn record_of_block(b: RawBlockV) -> Option<LibraryEntryMetaV> {
    let et = entry_type_of_name(b.entry_type);
    let title = first_val_of(b.fields, "title"@);
    let author = first_val_of(b.fields, "author"@);
    let year = first_val_of(b.fields, "year"@);
    let month_field = first_val_of(b.fields, "month"@);
    if et is None || title is None || author is None || year is None {
        None
    } else if parse_u32_spec(year.unwrap()) is None {
        None
    } else if month_field is Some && month_of_text(month_field.unwrap()) is None {
        None
    } else {
        Some(
            LibraryEntryMetaV {
                key: b.citation_key,
                entry_type: et.unwrap(),
                title: title.unwrap(),
                authors: split_spec(author.unwrap(), " and "@),
                year: parse_u32_spec(year.unwrap()).unwrap(),
                month: match month_field {
                    Some(mf) => Some(month_of_text(mf).unwrap()),
                    None => None,
                },
                original_tags: Some(b.fields),
            },
        )
    }
}

/// Turns one parsed block into a record, or reports why it is malformed.
pub fn import_bib(b: &RawBlock) -> (r: Result<LibraryEntryMeta, ImportError>)
    ensures
        r is Ok <==> record_of_block(b@) is Some,
        r is Ok ==> r.unwrap()@ == record_of_block(b@).unwrap(),
        r is Err ==> r.unwrap_err() is Parse,
{
    let entry_type = match parse_entry_type(b.entry_type.as_str()) {
        Ok(t) => t,
        Err(e) => {
            return Err(e);
        },
    };
    let title = match find_field(&b.fields, "title") {
        Some(t) => t,
        None => {
            return Err(ImportError::Parse(String::from_str("Missing tag \"title\"")));
        },
    };
    let author = match find_field(&b.fields, "author") {
        Some(a) => a,
        None => {
            return Err(ImportError::Parse(String::from_str("Missing tag \"author\"")));
        },
    };
    let year_text = match find_field(&b.fields, "year") {
        Some(y) => y,
        None => {
            return Err(ImportError::Parse(String::from_str("Missing tag \"year\"")));
        },
    };
    let year_chars = str_to_chars(year_text.as_str());
    let year = match parse_u32_chars(&year_chars) {
        Some(y) => y,
        None => {
            return Err(ImportError::Parse(String::from_str("Failed to parse year")));
        },
    };
    let month = match find_field(&b.fields, "month") {
        Some(mtext) => match Month::from_str(mtext.as_str()) {
            Ok(m) => Some(m),
            Err(e) => {
                return Err(ImportError::Parse(e.message()));
            },
        },
        None => None,
    };
    let authors = parse_author_list(author.as_str());
    let meta = LibraryEntryMeta::new(
        b.citation_key.clone(),
        entry_type,
        title,
        authors,
        year,
        month,
        Some(clone_pairs(&b.fields)),
    );
    proof {
        assert(meta@ =~= record_of_block(b@).unwrap());
    }
    Ok(meta)
}

/// The records of the well-formed blocks, in document order.
pub open spec fn records_of(bs: Seq<RawBlockV>) -> Seq<LibraryEntryMetaV>
    decreases bs.len(),
{
    if bs.len() == 0 {
        Seq::empty()
    } else {
        let rest = records_of(bs.drop_last());
        match record_of_block(bs.last()) {
            Some(m) => rest.push(m),
            None => rest,
        }
    }
}

/// A document parses to exactly the records of its well-formed blocks, in
/// source order: malformed blocks are dropped and change nothing else.
pub proof fn lemma_records_are_filtered(bs: Seq<RawBlockV>)
    ensures
        records_of(bs) == bs.filter(|b: RawBlockV| record_of_block(b) is Some).map_values(
            |b: RawBlockV| record_of_block(b).unwrap(),
        ),
        records_of(bs).len() == bs.filter(|b: RawBlockV| record_of_block(b) is Some).len(),
    decreases bs.len(),
{
    reveal(Seq::filter);
    let pred = |b: RawBlockV| record_of_block(b) is Some;
    let f = |b: RawBlockV| record_of_block(b).unwrap();
    if bs.len() == 0 {
        assert(records_of(bs) =~= bs.filter(pred).map_values(f));
    } else {
        lemma_records_are_filtered(bs.drop_last());
        if pred(bs.last()) {
            assert(bs.filter(pred) == bs.drop_last().filter(pred).push(bs.last()));
            assert(bs.filter(pred).map_values(f) =~= bs.drop_last().filter(pred).map_values(
                f,
            ).push(f(bs.last())));
            assert(records_of(bs) =~= bs.filter(pred).map_values(f));
        } else {
            assert(bs.filter(pred) == bs.drop_last().filter(pred));
            assert(records_of(bs) =~= bs.filter(pred).map_values(f));
        }
    }
}

/// Turns the parsed blocks into records, dropping each malformed block and
/// keeping the rest in order.
pub fn records_from_blocks(blocks: &Vec<RawBlock>) -> (r: Vec<LibraryEntryMeta>)
    ensures
        meta_views(r@) == records_of(block_views(blocks@)),
{
    let mut r: Vec<LibraryEntryMeta> = Vec::new();
    let mut i: usize = 0;
    proof {
        assert(block_views(blocks@).take(0) =~= Seq::<RawBlockV>::empty());
    }
    while i < blocks.len()
        invariant
            i <= blocks.len(),
            meta_views(r@) == records_of(block_views(blocks@).take(i as int)),
        decreases blocks.len() - i,
    {
        let ghost bvs = block_views(blocks@);
        proof {
            assert(bvs.take(i + 1 as int).drop_last() =~= bvs.take(i as int));
            assert(bvs.take(i + 1 as int).last() == bvs[i as int]);
        }
        match import_bib(&blocks[i]) {
            Ok(meta) => {
                r.push(meta);
                proof {
                    assert(meta_views(r@) =~= records_of(bvs.take(i + 1 as int)));
                }
            },
            Err(_) => {
                proof {
                    assert(meta_views(r@) =~= records_of(bvs.take(i + 1 as int)));
                }
            },
        }
        i = i + 1;
    }
    proof {
        assert(block_views(blocks@).take(blocks@.len() as int) =~= block_views(blocks@));
    }
    r
}

/// The keys of a record list, in order.
pub open spec fn keys_of(rs: Seq<LibraryEntryMetaV>) -> Seq<Seq<char>> {
    rs.map_values(|m: LibraryEntryMetaV| m.key)
}

/// The first record carrying the given key, if any.
pub open spec fn first_with_key(rs: Seq<LibraryEntryMetaV>, k: Seq<char>) -> Option<
    LibraryEntryMetaV,
>
    decreases rs.len(),
{
    if rs.len() == 0 {
        None
    } else if rs[0].key == k {
        Some(rs[0])
    } else {
        first_with_key(rs.drop_first(), k)
    }
}

/// Which record the pipeline selects: with an explicit key the first record
/// carrying it, without one the only record — and nothing otherwise.
pub open spec fn selected_record(rs: Seq<LibraryEntryMetaV>, key: Option<Seq<char>>) -> Option<
    LibraryEntryMetaV,
> {
    match key {
        Some(k) => first_with_key(rs, k),
        None => if rs.len() == 1 {
            Some(rs[0])
        } else {
            None
        },
    }
}

/// The key views of an explicit key argument.
pub open spec fn key_view(key: Option<&str>) -> Option<Seq<char>> {
    match key {
        Some(k) => Some(k@),
        None => None,
    }
}

/// Selects the record an import refers to: the unique record with the
/// explicit key, or the only parsed record when no key was given. The
/// error lists every key the document offers.
pub fn select_record(records: &Vec<LibraryEntryMeta>, key: Option<&str>) -> (r: Result<
    LibraryEntryMeta,
    ImportError,
>)
    ensures
        r is Ok <==> selected_record(meta_views(records@), key_view(key)) is Some,
        r is Ok ==> r.unwrap()@ == selected_record(meta_views(records@), key_view(key)).unwrap(),
        r is Err ==> (r.unwrap_err() matches ImportError::NoBibliographyFound(req, ks)
            && string_views(ks@) == keys_of(meta_views(records@)) && (req is Some <==> key
            is Some) && (key matches Some(k0) ==> req.unwrap()@ == k0@)),
{
    let ghost rvs = meta_views(records@);
    match key {
        Some(k) => {
            let kowned = k.to_owned();
            let mut i: usize = 0;
            proof {
                assert(rvs.skip(0) =~= rvs);
            }
            while i < records.len()
                invariant
                    i <= records.len(),
                    rvs == meta_views(records@),
                    kowned@ == k@,
                    key_view(key) == Some(k@),
                    first_with_key(rvs, k@) == first_with_key(rvs.skip(i as int), k@),
                decreases records.len() - i,
            {
                proof {
                    assert(rvs.skip(i as int)[0] == rvs[i as int]);
                    assert(rvs[i as int] == records@[i as int]@);
                }
                let ck = records[i].key().to_owned();
                if ck == kowned {
                    proof {
                        assert(rvs[i as int].key == k@);
                        assert(first_with_key(rvs.skip(i as int), k@) == Some(rvs[i as int]));
                    }
                    return Ok(records[i].duplicate());
                }
                proof {
                    assert(rvs[i as int].key != k@);
                    assert(rvs.skip(i as int).drop_first() =~= rvs.skip(i + 1));
                }
                i = i + 1;
            }
            proof {
                assert(rvs.skip(records@.len() as int) =~= Seq::<LibraryEntryMetaV>::empty());
            }
            Err(ImportError::NoBibliographyFound(Some(kowned), known_keys(records)))
        },
        None => {
            if records.len() == 1 {
                Ok(records[0].duplicate())
            } else {
                Err(ImportError::NoBibliographyFound(None, known_keys(records)))
            }
        },
    }
}

/// Every key the parsed document offers, in order.
fn known_keys(records: &Vec<LibraryEntryMeta>) -> (r: Vec<String>)
    ensures
        string_views(r@) == keys_of(meta_views(records@)),
{
    let mut r: Vec<String> = Vec::new();
    let mut i: usize = 0;
    while i < records.len()
        invariant
            i <= records.len(),
            r@.len() == i,
            forall|j: int| 0 <= j < i ==> r@[j]@ == meta_views(records@)[j].key,
        decreases records.len() - i,
    {
        r.push(records[i].key().to_owned());
        i = i + 1;
    }
    proof {
        assert(string_views(r@) =~= keys_of(meta_views(records@)));
    }
    r
}

/// The file name after the last path separator.
pub open spec fn basename_of(p: Seq<char>) -> Seq<char> {
    p.skip(last_index_of(p, '/') + 1)
}

/// The stem and extension of a path's file name: the parts before and
/// after the last dot, provided the name neither starts with that dot nor
/// lacks one.
pub open spec fn split_file_name_spec(p: Seq<char>) -> Option<(Seq<char>, Seq<char>)> {
    let b = basename_of(p);
    let d = last_index_of(b, '.');
    if b.len() == 0 {
        None
    } else if d <= 0 {
        None
    } else {
        Some((b.take(d), b.skip(d + 1)))
    }
}

/// The extension of a path's file name, if it has one.
pub open spec fn ext_of_path(p: Seq<char>) -> Option<Seq<char>> {
    match split_file_name_spec(p) {
        Some(se) => Some(se.1),
        None => None,
    }
}

fn basename_chars(p: &Vec<char>) -> (r: Vec<char>)
    ensures
        r@ == basename_of(p@),
{
    proof {
        crate::strutil::lemma_last_index_bounds(p@, '/');
    }
    match rfind_char(p, '/') {
        Some(i) => {
            let r = sub_vec(p, i + 1, p.len());
            proof {
                assert(r@ =~= p@.skip(i + 1));
            }
            r
        },
        None => {
            let r = sub_vec(p, 0, p.len());
            proof {
                assert(last_index_of(p@, '/') == -1);
                assert(r@ =~= p@.skip(0));
            }
            r
        },
    }
}

/// Splits a path's file name into stem and extension, or reports the path
/// as corrupt when the name or the extension is missing.
pub fn split_file_name(path: &str) -> (r: Result<(String, String), ImportError>)
    ensures
        r is Ok <==> split_file_name_spec(path@) is Some,
        r is Ok ==> r.unwrap().0@ == split_file_name_spec(path@).unwrap().0,
        r is Ok ==> r.unwrap().1@ == split_file_name_spec(path@).unwrap().1,
        r is Err ==> r.unwrap_err() is CorruptFilePath,
{
    let p = str_to_chars(path);
    let b = basename_chars(&p);
    if b.len() == 0 {
        return Err(
            ImportError::CorruptFilePath(String::from_str("No file name specified.")),
        );
    }
    match rfind_char(&b, '.') {
        Some(d) => {
            if d == 0 {
                Err(ImportError::CorruptFilePath(String::from_str("No file extension specified.")))
            } else {
                let stem = sub_vec(&b, 0, d);
                let ext = sub_vec(&b, d + 1, b.len());
                proof {
                    assert(b@.take(last_index_of(b@, '.')) =~= b@.subrange(
                        0,
                        last_index_of(b@, '.'),
                    ));
                    assert(b@.skip(last_index_of(b@, '.') + 1) =~= b@.subrange(
                        last_index_of(b@, '.') + 1,
                        b@.len() as int,
                    ));
                }
                Ok((chars_to_string(&stem), chars_to_string(&ext)))
            }
        },
        None => Err(
            ImportError::CorruptFilePath(String::from_str("No file extension specified.")),
        ),
    }
}

/// A directory path joined with one more component: exactly one separator
/// stands between them, also when the directory already ends with one.
pub open spec fn joined_path(dir: Seq<char>, seg: Seq<char>) -> Seq<char> {
    if dir.len() > 0 && dir.last() == '/' {
        dir + seg
    } else {
        dir + seq!['/'] + seg
    }
}

/// The destination paths of an import: one path under the document root
/// when no tag was given, else one path per tag under `root/tag/name`.
pub open spec fn dest_paths(root: Seq<char>, tags: Seq<Seq<char>>, name: Seq<char>) -> Seq<
    Seq<char>,
> {
    if tags.len() == 0 {
        seq![joined_path(root, name)]
    } else {
        tags.map_values(|t: Seq<char>| joined_path(joined_path(root, t), name))
    }
}

fn join_path_chars(dir: &Vec<char>, seg: &Vec<char>) -> (r: Vec<char>)
    ensures
        r@ == joined_path(dir@, seg@),
{
    let mut out = clone_chars(dir);
    if !(out.len() > 0 && out[out.len() - 1] == '/') {
        out.push('/');
    }
    let mut tail = clone_chars(seg);
    out.append(&mut tail);
    proof {
        assert(out@ =~= joined_path(dir@, seg@));
    }
    out
}

/// Computes every destination path for the given tags.
pub fn compute_destinations(root: &str, tags: &Vec<String>, name: &Vec<char>) -> (r: Vec<String>)
    ensures
        string_views(r@) == dest_paths(root@, string_views(tags@), name@),
        r@.len() >= 1,
{
    let rootv = str_to_chars(root);
    let mut r: Vec<String> = Vec::new();
    if tags.len() == 0 {
        let path = join_path_chars(&rootv, name);
        r.push(chars_to_string(&path));
        proof {
            assert(string_views(r@) =~= dest_paths(root@, string_views(tags@), name@));
        }
    } else {
        let mut i: usize = 0;
        while i < tags.len()
            invariant
                tags@.len() >= 1,
                i <= tags.len(),
                rootv@ == root@,
                r@.len() == i,
                forall|j: int|
                    0 <= j < i ==> r@[j]@ == joined_path(
                        joined_path(root@, string_views(tags@)[j]),
                        name@,
                    ),
            decreases tags.len() - i,
        {
            let t = str_to_chars(tags[i].as_str());
            let dir = join_path_chars(&rootv, &t);
            let path = join_path_chars(&dir, name);
            r.push(chars_to_string(&path));
            i = i + 1;
        }
        proof {
            assert(string_views(r@) =~= dest_paths(root@, string_views(tags@), name@));
        }
    }
    r
}

/// Whether the import moves (rather than copies) the file: an explicit
/// move wins, an explicit copy forbids it, the configuration decides
/// otherwise.
pub open spec fn move_decision(force_move: bool, force_copy: bool, conf_move: bool) -> bool {
    force_move || (!force_copy && conf_move)
}

/// What a successful import hands back besides the entry: whether the
/// first destination takes the file by a move or by a copy. Every further
/// destination is backed by a hard link to the first.
#[derive(Debug)]
pub struct PlacementPlan {
    pub move_file: bool,
}

/// Runs the import pipeline on an already-read document: parses the
/// bibliographic text, selects the record, digests the file's bytes,
/// renders the destination name and computes every destination path.
/// A document the outside parser cannot scan safely — one ending inside an
/// unterminated value, or one declaring a string abbreviation block — is
/// rejected with a parse error before the parser sees it.
///
/// The caller reads both files and afterwards performs the placement: the
/// first destination receives the file (moved or copied as the plan says),
/// and each further destination is hard-linked to the first.
pub fn import(
    file_path: &str,
    resource_path: &str,
    resource_text: &str,
    file_bytes: &Vec<u8>,
    key: Option<&str>,
    force_move: bool,
    force_copy: bool,
    tags: Vec<String>,
    conf: &Configuration,
) -> (r: Result<(LibraryEntry, PlacementPlan), ImportError>)
    ensures
        ({
            let re = ext_of_path(resource_path@);
            &&& (!(re == Some("bib"@)) ==> r is Err && r.unwrap_err() is UnknownFile)
            &&& (re == Some("bib"@) && !bib_text_safe(resource_text@) ==> r is Err
                && r.unwrap_err() is Parse)
            &&& (re == Some("bib"@) && bib_text_safe(resource_text@) && bib_blocks_of(
                resource_text@,
            ) is None ==> r is Err && r.unwrap_err() is Parse)
            &&& (re == Some("bib"@) && bib_text_safe(resource_text@) && bib_blocks_of(
                resource_text@,
            ) is Some ==> exists|
                bs: Seq<RawBlockV>,
            |
                {
                    &&& #[trigger] blocks_correspond(bs, resource_text@)
                    &&& import_outcome_matches(
                        r,
                        records_of(bs),
                        file_path@,
                        file_bytes@,
                        key_view(key),
                        force_move,
                        force_copy,
                        string_views(tags@),
                        conf@.variables,
                    )
                })
        }),
{
    let resource_ext_ok = match split_file_name(resource_path) {
        Ok(se) => {
            let e = se.1;
            e == String::from_str("bib")
        },
        Err(_) => false,
    };
    if !resource_ext_ok {
        return Err(
            ImportError::UnknownFile(String::from_str("Only .bib documents are understood.")),
        );
    }
    if !check_bib_text_safe(resource_text) {
        return Err(
            ImportError::Parse(
                String::from_str(
                    "The document ends inside an unterminated value or declares a string abbreviation block.",
                ),
            ),
        );
    }
    let blocks = match parse_bibtex_blocks(resource_text) {
        Ok(bs) => bs,
        Err(msg) => {
            return Err(ImportError::Parse(msg));
        },
    };
    let records = records_from_blocks(&blocks);
    let ghost bsv = block_views(blocks@);
    let meta = match select_record(&records, key) {
        Ok(m) => m,
        Err(e) => {
            proof {
                assert(blocks_correspond(bsv, resource_text@));
            }
            return Err(e);
        },
    };
    let (stem, fext) = match split_file_name(file_path) {
        Ok(se) => se,
        Err(e) => {
            proof {
                assert(blocks_correspond(bsv, resource_text@));
            }
            return Err(e);
        },
    };
    let digest = calculate_digest(file_bytes);
    let rendered = crate::configuration::assemble_name(stem.as_str(), &meta, conf);
    let mut namev = str_to_chars(rendered.as_str());
    namev.push('.');
    let mut extv = str_to_chars(fext.as_str());
    namev.append(&mut extv);
    proof {
        assert(namev@ =~= rendered@ + seq!['.'] + fext@);
    }
    let paths = compute_destinations(conf.variables().document_location(), &tags, &namev);
    let move_file = force_move || (!force_copy && conf.variables().move_files());
    let entry = LibraryEntry::new(meta, tags, paths, digest);
    proof {
        assert(blocks_correspond(bsv, resource_text@));
    }
    Ok((entry, PlacementPlan { move_file }))
}

/// How an import's outcome relates to the records its document parses to:
/// selection failure, a corrupt target path, or a complete entry.
pub open spec fn import_outcome_matches(
    r: Result<(LibraryEntry, PlacementPlan), ImportError>,
    recs: Seq<LibraryEntryMetaV>,
    file_path: Seq<char>,
    file_bytes: Seq<u8>,
    key: Option<Seq<char>>,
    force_move: bool,
    force_copy: bool,
    tags: Seq<Seq<char>>,
    cv: crate::configuration::ConfigurationVariablesV,
) -> bool {
    let sel = selected_record(recs, key);
    &&& (sel is None ==> r is Err && (r.unwrap_err() matches ImportError::NoBibliographyFound(
        req,
        ks,
    ) && string_views(ks@) == keys_of(recs) && (req is Some <==> key is Some) && (
    key matches Some(kv) ==> req.unwrap()@ == kv)))
    &&& (sel is Some && split_file_name_spec(file_path) is None ==> r is Err
        && r.unwrap_err() is CorruptFilePath)
    &&& (sel is Some && split_file_name_spec(file_path) is Some ==> {
        let m = sel.unwrap();
        let se = split_file_name_spec(file_path).unwrap();
        let nm = rendered_name(cv, se.0, m) + seq!['.'] + se.1;
        &&& r is Ok
        &&& r.unwrap().0@.meta == m
        &&& r.unwrap().0@.tags == tags
        &&& r.unwrap().0@.file_paths == dest_paths(cv.document_location, tags, nm)
        &&& r.unwrap().0@.digest == sha256_of(file_bytes)
        &&& entry_well_formed(r.unwrap().0@)
        &&& r.unwrap().1.move_file == move_decision(force_move, force_copy, cv.move_files)
    })
}

} // verus!
