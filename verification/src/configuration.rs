//! The configuration snapshot of one run, and the pure name assembler that
//! renders a destination file name from a pattern, a record and the
//! configured limits.

use vstd::prelude::*;

use crate::model::{month_name_seq, LibraryEntryMeta, LibraryEntryMetaV};
use crate::strutil::{
    chars_to_string, clone_chars, contains_char, dec_str_of, joined, join_all, lower_of,
    lowercase_chars, replace_all, replace_spec, split_all, split_spec, str_to_chars, string_views,
    u32_to_dec_chars, views_of,
};

verus! {

/// The ghost image of a configuration snapshot.
pub ghost struct ConfigurationVariablesV {
    pub document_location: Seq<char>,
    pub library_location: Seq<char>,
    pub name_pattern: Seq<char>,
    pub max_author_names: u32,
    pub author_separator: Seq<char>,
    pub move_files: bool,
}

/// The variables of one run's configuration: where documents and the
/// library live, the file-name pattern, the author rendering limits, and
/// whether imports move rather than copy files.
pub struct ConfigurationVariables {
    document_location: String,
    library_location: String,
    name_pattern: String,
    max_author_names: u32,
    author_separator: String,
    move_files: bool,
}

impl View for ConfigurationVariables {
    type V = ConfigurationVariablesV;

    closed spec fn view(&self) -> ConfigurationVariablesV {
        ConfigurationVariablesV {
            document_location: self.document_location@,
            library_location: self.library_location@,
            name_pattern: self.name_pattern@,
            max_author_names: self.max_author_names,
            author_separator: self.author_separator@,
            move_files: self.move_files,
        }
    }
}

impl ConfigurationVariables {
    pub fn new(
        document_location: String,
        library_location: String,
        name_pattern: String,
        max_author_names: u32,
        author_separator: String,
        move_files: bool,
    ) -> (r: ConfigurationVariables)
        ensures
            r@.document_location == document_location@,
            r@.library_location == library_location@,
            r@.name_pattern == name_pattern@,
            r@.max_author_names == max_author_names,
            r@.author_separator == author_separator@,
            r@.move_files == move_files,
    {
        ConfigurationVariables {
            document_location,
            library_location,
            max_author_names,
            author_separator,
            name_pattern,
            move_files,
        }
    }

    /// The built-in defaults, rooted under the given user document
    /// directory: a `Papers` folder holding the documents and the library
    /// file, the pattern `%A-%y-%T`, two authors joined by `_`, and moving
    /// (not copying) on import.
    pub fn defaults_under(user_documents_dir: &str) -> (r: ConfigurationVariables)
        ensures
            r@.document_location == user_documents_dir@ + "/Papers"@,
            r@.library_location == user_documents_dir@ + "/Papers/library.json"@,
            r@.name_pattern == "%A-%y-%T"@,
            r@.max_author_names == 2,
            r@.author_separator == "_"@,
            r@.move_files == true,
    {
        let mut doc: Vec<char> = str_to_chars(user_documents_dir);
        let mut lib = clone_chars(&doc);
        let mut doc_tail = str_to_chars("/Papers");
        doc.append(&mut doc_tail);
        let mut lib_tail = str_to_chars("/Papers/library.json");
        lib.append(&mut lib_tail);
        ConfigurationVariables {
            document_location: chars_to_string(&doc),
            library_location: chars_to_string(&lib),
            name_pattern: String::from_str("%A-%y-%T"),
            max_author_names: 2,
            author_separator: String::from_str("_"),
            move_files: true,
        }
    }

    pub fn document_location(&self) -> (r: &str)
        ensures
            r@ == self@.document_location,
    {
        self.document_location.as_str()
    }

    pub fn library_location(&self) -> (r: &str)
        ensures
            r@ == self@.library_location,
    {
        self.library_location.as_str()
    }

    pub fn name_pattern(&self) -> (r: &str)
        ensures
            r@ == self@.name_pattern,
    {
        self.name_pattern.as_str()
    }

    pub fn max_author_names(&self) -> (r: u32)
        ensures
            r == self@.max_author_names,
    {
        self.max_author_names
    }

    pub fn author_separator(&self) -> (r: &str)
        ensures
            r@ == self@.author_separator,
    {
        self.author_separator.as_str()
    }

    pub fn move_files(&self) -> (r: bool)
        ensures
            r == self@.move_files,
    {
        self.move_files
    }
}

/// The ghost image of the full configuration state.
pub ghost struct ConfigurationV {
    pub variables: ConfigurationVariablesV,
    pub modified: bool,
}

/// The configuration together with whether it still has to be written back.
pub struct Configuration {
    variables: ConfigurationVariables,
    modified: bool,
}

impl View for Configuration {
    type V = ConfigurationV;

    closed spec fn view(&self) -> ConfigurationV {
        ConfigurationV { variables: self.variables@, modified: self.modified }
    }
}

impl Configuration {
    /// Wraps variables read from an existing configuration file: nothing
    /// has to be written back.
    pub fn new(variables: ConfigurationVariables) -> (r: Configuration)
        ensures
            r@.variables == variables@,
            r@.modified == false,
    {
        Configuration { variables, modified: false }
    }

    /// Wraps freshly built variables that no file holds yet, so they are
    /// still to be written back.
    pub fn new_unsaved(variables: ConfigurationVariables) -> (r: Configuration)
        ensures
            r@.variables == variables@,
            r@.modified == true,
    {
        Configuration { variables, modified: true }
    }

    pub fn variables(&self) -> (r: &ConfigurationVariables)
        ensures
            r@ == self@.variables,
    {
        &self.variables
    }

    pub fn is_modified(&self) -> (r: bool)
        ensures
            r == self@.modified,
    {
        self.modified
    }
}

/// The last name of an author: the text before the first comma if there is
/// one, the final space-separated token otherwise.
pub open spec fn last_name_of(a: Seq<char>) -> Seq<char> {
    if a.contains(',') {
        split_spec(a, seq![','])[0]
    } else {
        split_spec(a, seq![' ']).last()
    }
}

fn last_name_chars(v: &Vec<char>) -> (r: Vec<char>)
    ensures
        r@ == last_name_of(v@),
{
    if contains_char(v, ',') {
        let mut sep: Vec<char> = Vec::new();
        sep.push(',');
        let parts = split_all(v, &sep);
        proof {
            assert(views_of(parts@)[0] == parts@[0]@);
        }
        clone_chars(&parts[0])
    } else {
        let mut sep: Vec<char> = Vec::new();
        sep.push(' ');
        let parts = split_all(v, &sep);
        proof {
            assert(views_of(parts@)[parts@.len() - 1] == parts@[parts@.len() - 1]@);
        }
        clone_chars(&parts[parts.len() - 1])
    }
}

/// The last name of one author string.
pub fn get_last_name(author: &str) -> (r: Option<String>)
    ensures
        r is Some,
        r.unwrap()@ == last_name_of(author@),
{
    let cs = str_to_chars(author);
    let ln = last_name_chars(&cs);
    Some(chars_to_string(&ln))
}

/// At most `maxn` author strings joined with the separator; empty when the
/// list is empty or the limit is zero.
pub open spec fn authors_joined(authors: Seq<Seq<char>>, maxn: u32, sep: Seq<char>) -> Seq<char> {
    if authors.len() == 0 || maxn == 0 {
        Seq::empty()
    } else if (maxn as int) < authors.len() {
        joined(authors.take(maxn as int), sep)
    } else {
        joined(authors, sep)
    }
}

/// What the name assembler produces: each placeholder of the pattern
/// replaced, in a fixed order, by the field it names.
pub open spec fn rendered_name(
    cv: ConfigurationVariablesV,
    stem: Seq<char>,
    m: LibraryEntryMetaV,
) -> Seq<char> {
    let a = authors_joined(m.authors, cv.max_author_names, cv.author_separator);
    let l = authors_joined(
        m.authors.map_values(|x: Seq<char>| last_name_of(x)),
        cv.max_author_names,
        cv.author_separator,
    );
    let mo = match m.month {
        Some(mm) => month_name_seq(mm),
        None => Seq::<char>::empty(),
    };
    let p1 = replace_spec(cv.name_pattern, "%F"@, stem);
    let p2 = replace_spec(p1, "%f"@, lower_of(stem));
    let p3 = replace_spec(p2, "%K"@, m.key);
    let p4 = replace_spec(p3, "%k"@, lower_of(m.key));
    let p5 = replace_spec(p4, "%A"@, a);
    let p6 = replace_spec(p5, "%a"@, lower_of(a));
    let p7 = replace_spec(p6, "%L"@, l);
    let p8 = replace_spec(p7, "%l"@, lower_of(l));
    let p9 = replace_spec(p8, "%T"@, m.title);
    let p10 = replace_spec(p9, "%t"@, lower_of(m.title));
    let p11 = replace_spec(p10, "%Y"@, dec_str_of(m.year as nat));
    let p12 = replace_spec(p11, "%y"@, dec_str_of((m.year % 100) as nat));
    let p13 = replace_spec(p12, "%M"@, mo);
    replace_spec(p13, "%m"@, lower_of(mo))
}

fn pattern_chars(lit: &str) -> (r: Vec<char>)
    requires
        lit@.len() >= 1,
    ensures
        r@ == lit@,
        r.len() >= 1,
{
    str_to_chars(lit)
}

/// Assembles a file name from the original stem and the record's metadata
/// using the configured pattern: a pure function of its three arguments.
pub fn assemble_name(original_name: &str, meta: &LibraryEntryMeta, conf: &Configuration) -> (r:
    String)
    ensures
        r@ == rendered_name(conf@.variables, original_name@, meta@),
{
    let vars = conf.variables();
    let maxn = vars.max_author_names();
    let sepv = str_to_chars(vars.author_separator());
    let authors = meta.authors();

    let count: usize = if maxn == 0 {
        0
    } else if (maxn as usize) < authors.len() {
        maxn as usize
    } else {
        authors.len()
    };
    let mut taken: Vec<Vec<char>> = Vec::new();
    let mut lasts: Vec<Vec<char>> = Vec::new();
    let mut i: usize = 0;
    while i < count
        invariant
            count <= authors.len(),
            i <= count,
            string_views(authors@).len() == authors@.len(),
            taken@.len() == i,
            lasts@.len() == i,
            forall|k: int| 0 <= k < i ==> taken@[k]@ == string_views(authors@)[k],
            forall|k: int| 0 <= k < i ==> lasts@[k]@ == last_name_of(string_views(authors@)[k]),
        decreases count - i,
    {
        let cs = str_to_chars(authors[i].as_str());
        let ln = last_name_chars(&cs);
        taken.push(cs);
        lasts.push(ln);
        i = i + 1;
    }
    let a = join_all(&taken, &sepv);
    let l = join_all(&lasts, &sepv);
    proof {
        let av = meta@.authors;
        let lnv = av.map_values(|x: Seq<char>| last_name_of(x));
        assert(views_of(taken@) =~= av.take(count as int));
        assert(views_of(lasts@) =~= lnv.take(count as int));
        if count == av.len() {
            assert(av.take(count as int) =~= av);
            assert(lnv.take(count as int) =~= lnv);
        }
        if av.len() == 0 || maxn == 0 {
            assert(av.take(count as int) =~= Seq::<Seq<char>>::empty());
            assert(lnv.take(count as int) =~= Seq::<Seq<char>>::empty());
            assert(a@ =~= authors_joined(av, maxn, sepv@));
            assert(l@ =~= authors_joined(lnv, maxn, sepv@));
        }
    }
    let mo: Vec<char> = match meta.month() {
        Some(mm) => str_to_chars(mm.long_name().as_str()),
        None => Vec::new(),
    };
    proof {
        reveal_strlit("%F");
        reveal_strlit("%f");
        reveal_strlit("%K");
        reveal_strlit("%k");
        reveal_strlit("%A");
        reveal_strlit("%a");
        reveal_strlit("%L");
        reveal_strlit("%l");
        reveal_strlit("%T");
        reveal_strlit("%t");
        reveal_strlit("%Y");
        reveal_strlit("%y");
        reveal_strlit("%M");
        reveal_strlit("%m");
    }
    let stemv = str_to_chars(original_name);
    let stem_low = lowercase_chars(&stemv);
    let keyv = str_to_chars(meta.key());
    let key_low = lowercase_chars(&keyv);
    let a_low = lowercase_chars(&a);
    let l_low = lowercase_chars(&l);
    let titlev = str_to_chars(meta.title());
    let title_low = lowercase_chars(&titlev);
    let yearv = u32_to_dec_chars(meta.year());
    let year2v = u32_to_dec_chars(meta.year() % 100);
    let mo_low = lowercase_chars(&mo);

    let pat = str_to_chars(vars.name_pattern());
    let p1 = replace_all(&pat, &pattern_chars("%F"), &stemv);
    let p2 = replace_all(&p1, &pattern_chars("%f"), &stem_low);
    let p3 = replace_all(&p2, &pattern_chars("%K"), &keyv);
    let p4 = replace_all(&p3, &pattern_chars("%k"), &key_low);
    let p5 = replace_all(&p4, &pattern_chars("%A"), &a);
    let p6 = replace_all(&p5, &pattern_chars("%a"), &a_low);
    let p7 = replace_all(&p6, &pattern_chars("%L"), &l);
    let p8 = replace_all(&p7, &pattern_chars("%l"), &l_low);
    let p9 = replace_all(&p8, &pattern_chars("%T"), &titlev);
    let p10 = replace_all(&p9, &pattern_chars("%t"), &title_low);
    let p11 = replace_all(&p10, &pattern_chars("%Y"), &yearv);
    let p12 = replace_all(&p11, &pattern_chars("%y"), &year2v);
    let p13 = replace_all(&p12, &pattern_chars("%M"), &mo);
    let p14 = replace_all(&p13, &pattern_chars("%m"), &mo_low);
    chars_to_string(&p14)
}

/// Within one substitution pass of the name assembler, two expansions of
/// the same placeholder land in identical surroundings: the pass is the
/// pattern's fixed segments — its parts when split on the token —
/// interleaved with the expansion, so changing only what the token
/// expands to changes only the expansions between those segments.
pub proof fn lemma_one_token_pass_difference(
    p: Seq<char>,
    token: Seq<char>,
    r1: Seq<char>,
    r2: Seq<char>,
)
    requires
        token.len() > 0,
    ensures
        replace_spec(p, token, r1) == joined(split_spec(p, token), r1),
        replace_spec(p, token, r2) == joined(split_spec(p, token), r2),
{
    crate::strutil::lemma_replace_is_interleaving(p, token, r1);
    crate::strutil::lemma_replace_is_interleaving(p, token, r2);
}

/// Name assembly is pure: the same stem, record image and configuration
/// image always render the same string.
pub proof fn lemma_assemble_name_pure(
    cv1: ConfigurationVariablesV,
    stem1: Seq<char>,
    m1: LibraryEntryMetaV,
    cv2: ConfigurationVariablesV,
    stem2: Seq<char>,
    m2: LibraryEntryMetaV,
)
    requires
        cv1 == cv2,
        stem1 == stem2,
        m1 == m2,
    ensures
        rendered_name(cv1, stem1, m1) == rendered_name(cv2, stem2, m2),
{
}

} // verus!
