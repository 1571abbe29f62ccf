//! The persisted library format: a canonical JSON document holding the
//! creation version and the entries, with the digest as lowercase
//! hexadecimal text. The renderer is exact; the loader accepts exactly the
//! texts the renderer produces and returns a value that re-renders to the
//! loaded text, letter for letter.

use vstd::prelude::*;

use crate::library::{version_text_of, VersionSpec};
use crate::model::{
    entry_views, entry_well_formed, month_short_seq, type_label_seq, LibraryEntry,
    LibraryEntryMeta, LibraryEntryMetaV, LibraryEntryType, LibraryEntryV, Month, DIGEST_LEN,
};
use crate::strutil::{
    chars_to_string, dec_str_of, digit_char, joined, lemma_joined_snoc, pair_views, str_to_chars,
    string_views, u32_to_dec_chars, views_of,
};

verus! {

/// A lowercase hexadecimal digit.
pub open spec fn hex_digit_char(d: nat) -> char {
    if d < 10 {
        digit_char(d)
    } else if d == 10 {
        'a'
    } else if d == 11 {
        'b'
    } else if d == 12 {
        'c'
    } else if d == 13 {
        'd'
    } else if d == 14 {
        'e'
    } else {
        'f'
    }
}

/// How one character is written inside a quoted string: quotes and
/// backslashes are escaped, control characters become `\u00XX`, everything
/// else stands for itself.
pub open spec fn escape_char(c: char) -> Seq<char> {
    if c == '"' {
        seq!['\\', '"']
    } else if c == '\\' {
        seq!['\\', '\\']
    } else if (c as u32) < 32 {
        seq!['\\', 'u', '0', '0', hex_digit_char((c as u32 / 16) as nat), hex_digit_char(
            (c as u32 % 16) as nat,
        )]
    } else {
        seq![c]
    }
}

/// A string's characters, escaped for a quoted string.
pub open spec fn escape_str(s: Seq<char>) -> Seq<char>
    decreases s.len(),
{
    if s.len() == 0 {
        Seq::empty()
    } else {
        escape_str(s.drop_last()) + escape_char(s.last())
    }
}

/// A quoted, escaped string.
pub open spec fn ser_string(s: Seq<char>) -> Seq<char> {
    seq!['"'] + escape_str(s) + seq!['"']
}

/// Bytes as lowercase hexadecimal text, two digits per byte.
pub open spec fn hex_of(bytes: Seq<u8>) -> Seq<char>
    decreases bytes.len(),
{
    if bytes.len() == 0 {
        Seq::empty()
    } else {
        hex_of(bytes.drop_last()) + seq![
            hex_digit_char((bytes.last() / 16) as nat),
            hex_digit_char((bytes.last() % 16) as nat),
        ]
    }
}

/// An array of quoted strings.
pub open spec fn ser_str_array(xs: Seq<Seq<char>>) -> Seq<char> {
    seq!['['] + joined(xs.map_values(|x: Seq<char>| ser_string(x)), seq![',']) + seq![']']
}

pub open spec fn ser_tag_pair(p: (Seq<char>, Seq<char>)) -> Seq<char> {
    ser_string(p.0) + seq![':'] + ser_string(p.1)
}

/// An object of string fields, in the stored order.
pub open spec fn ser_tag_obj(ps: Seq<(Seq<char>, Seq<char>)>) -> Seq<char> {
    seq!['{'] + joined(ps.map_values(|p: (Seq<char>, Seq<char>)| ser_tag_pair(p)), seq![','])
        + seq!['}']
}

pub open spec fn ser_month_opt(m: Option<Month>) -> Seq<char> {
    match m {
        Some(mm) => ser_string(month_short_seq(mm)),
        None => "null"@,
    }
}

pub open spec fn ser_tags_opt(t: Option<Seq<(Seq<char>, Seq<char>)>>) -> Seq<char> {
    match t {
        Some(ps) => ser_tag_obj(ps),
        None => "null"@,
    }
}

/// A record's metadata as one object with a fixed field order.
pub open spec fn ser_meta(m: LibraryEntryMetaV) -> Seq<char> {
    "{\"key\":"@ + ser_string(m.key) + ",\"entry_type\":"@ + ser_string(
        type_label_seq(m.entry_type),
    ) + ",\"title\":"@ + ser_string(m.title) + ",\"authors\":"@ + ser_str_array(m.authors)
        + ",\"year\":"@ + dec_str_of(m.year as nat) + ",\"month\":"@ + ser_month_opt(m.month)
        + ",\"original_tags\":"@ + ser_tags_opt(m.original_tags) + seq!['}']
}

/// A stored entry as one object with a fixed field order.
pub open spec fn ser_entry(e: LibraryEntryV) -> Seq<char> {
    "{\"meta\":"@ + ser_meta(e.meta) + ",\"tags\":"@ + ser_str_array(e.tags) + ",\"file_paths\":"@
        + ser_str_array(e.file_paths) + ",\"digest\":\""@ + hex_of(e.digest) + "\"}"@
}

pub open spec fn ser_entries(es: Seq<LibraryEntryV>) -> Seq<char> {
    joined(es.map_values(|e: LibraryEntryV| ser_entry(e)), seq![','])
}

/// The whole persisted document.
pub open spec fn ser_library(v: VersionSpec, es: Seq<LibraryEntryV>) -> Seq<char> {
    "{\"creation_version\":\""@ + version_text_of(v) + "\",\"entries\":["@ + ser_entries(es)
        + "]}"@
}

fn exec_hex_digit(d: u32) -> (r: char)
    requires
        d < 16,
    ensures
        r == hex_digit_char(d as nat),
{
    if d == 0 {
        '0'
    } else if d == 1 {
        '1'
    } else if d == 2 {
        '2'
    } else if d == 3 {
        '3'
    } else if d == 4 {
        '4'
    } else if d == 5 {
        '5'
    } else if d == 6 {
        '6'
    } else if d == 7 {
        '7'
    } else if d == 8 {
        '8'
    } else if d == 9 {
        '9'
    } else if d == 10 {
        'a'
    } else if d == 11 {
        'b'
    } else if d == 12 {
        'c'
    } else if d == 13 {
        'd'
    } else if d == 14 {
        'e'
    } else {
        'f'
    }
}

fn push_lit(out: &mut Vec<char>, lit: &str)
    ensures
        final(out)@ == old(out)@ + lit@,
{
    let mut l = str_to_chars(lit);
    out.append(&mut l);
}

fn push_escaped_char(out: &mut Vec<char>, c: char)
    ensures
        final(out)@ == old(out)@ + escape_char(c),
{
    let cv = c as u32;
    if c == '"' {
        out.push('\\');
        out.push('"');
        proof {
            assert(out@ =~= old(out)@ + escape_char(c));
        }
    } else if c == '\\' {
        out.push('\\');
        out.push('\\');
        proof {
            assert(out@ =~= old(out)@ + escape_char(c));
        }
    } else if cv < 32 {
        out.push('\\');
        out.push('u');
        out.push('0');
        out.push('0');
        out.push(exec_hex_digit(cv / 16));
        out.push(exec_hex_digit(cv % 16));
        proof {
            assert(out@ =~= old(out)@ + escape_char(c));
        }
    } else {
        out.push(c);
        proof {
            assert(out@ =~= old(out)@ + escape_char(c));
        }
    }
}

fn push_ser_string(out: &mut Vec<char>, s: &str)
    ensures
        final(out)@ == old(out)@ + ser_string(s@),
{
    let cs = str_to_chars(s);
    out.push('"');
    let mut i: usize = 0;
    proof {
        assert(escape_str(cs@.take(0)) =~= Seq::<char>::empty());
        assert(out@ =~= old(out)@ + seq!['"'] + escape_str(cs@.take(0)));
    }
    while i < cs.len()
        invariant
            i <= cs.len(),
            cs@ == s@,
            out@ == old(out)@ + seq!['"'] + escape_str(cs@.take(i as int)),
        decreases cs.len() - i,
    {
        push_escaped_char(out, cs[i]);
        proof {
            assert(cs@.take(i + 1 as int).drop_last() =~= cs@.take(i as int));
            assert(cs@.take(i + 1 as int).last() == cs@[i as int]);
            assert(out@ =~= old(out)@ + seq!['"'] + escape_str(cs@.take(i + 1 as int)));
        }
        i = i + 1;
    }
    out.push('"');
    proof {
        assert(cs@.take(cs@.len() as int) =~= cs@);
        assert(out@ =~= old(out)@ + ser_string(s@));
    }
}

fn push_hex(out: &mut Vec<char>, bytes: &Vec<u8>)
    ensures
        final(out)@ == old(out)@ + hex_of(bytes@),
{
    let mut i: usize = 0;
    proof {
        assert(hex_of(bytes@.take(0)) =~= Seq::<char>::empty());
        assert(out@ =~= old(out)@ + hex_of(bytes@.take(0)));
    }
    while i < bytes.len()
        invariant
            i <= bytes.len(),
            out@ == old(out)@ + hex_of(bytes@.take(i as int)),
        decreases bytes.len() - i,
    {
        let b = bytes[i];
        let hi = (b / 16) as u32;
        let lo = (b % 16) as u32;
        out.push(exec_hex_digit(hi));
        out.push(exec_hex_digit(lo));
        proof {
            assert(bytes@.take(i + 1 as int).drop_last() =~= bytes@.take(i as int));
            assert(bytes@.take(i + 1 as int).last() == bytes@[i as int]);
            assert(out@ =~= old(out)@ + hex_of(bytes@.take(i + 1 as int)));
        }
        i = i + 1;
    }
    proof {
        assert(bytes@.take(bytes@.len() as int) =~= bytes@);
    }
}

fn push_joined_items(out: &mut Vec<char>, items: &Vec<Vec<char>>)
    ensures
        final(out)@ == old(out)@ + joined(views_of(items@), seq![',']),
{
    let mut i: usize = 0;
    proof {
        assert(joined(views_of(items@).take(0), seq![',']) =~= Seq::<char>::empty());
    }
    while i < items.len()
        invariant
            i <= items.len(),
            out@ == old(out)@ + joined(views_of(items@).take(i as int), seq![',']),
        decreases items.len() - i,
    {
        if i > 0 {
            out.push(',');
        }
        let ghost vs = views_of(items@);
        let mut item = crate::strutil::clone_chars(&items[i]);
        out.append(&mut item);
        proof {
            assert(vs.take(i + 1 as int) =~= vs.take(i as int).push(vs[i as int]));
            if i == 0 {
                assert(vs.take(1) =~= seq![vs[0]]);
                assert(joined(vs.take(1), seq![',']) == vs[0]);
                assert(out@ =~= old(out)@ + joined(vs.take(i + 1 as int), seq![',']));
            } else {
                lemma_joined_snoc(vs.take(i as int), vs[i as int], seq![',']);
                assert(out@ =~= old(out)@ + joined(vs.take(i + 1 as int), seq![',']));
            }
        }
        i = i + 1;
    }
    proof {
        assert(views_of(items@).take(items@.len() as int) =~= views_of(items@));
    }
}

fn push_str_array(out: &mut Vec<char>, xs: &Vec<String>)
    ensures
        final(out)@ == old(out)@ + ser_str_array(string_views(xs@)),
{
    out.push('[');
    let mut items: Vec<Vec<char>> = Vec::new();
    let mut i: usize = 0;
    while i < xs.len()
        invariant
            i <= xs.len(),
            items@.len() == i,
            forall|k: int| 0 <= k < i ==> items@[k]@ == ser_string(string_views(xs@)[k]),
        decreases xs.len() - i,
    {
        let mut item: Vec<char> = Vec::new();
        push_ser_string(&mut item, xs[i].as_str());
        items.push(item);
        i = i + 1;
    }
    proof {
        assert(views_of(items@) =~= string_views(xs@).map_values(|x: Seq<char>| ser_string(x)));
    }
    push_joined_items(out, &items);
    out.push(']');
    proof {
        assert(out@ =~= old(out)@ + ser_str_array(string_views(xs@)));
    }
}

fn push_tag_obj(out: &mut Vec<char>, ps: &Vec<(String, String)>)
    ensures
        final(out)@ == old(out)@ + ser_tag_obj(pair_views(ps@)),
{
    out.push('{');
    let mut items: Vec<Vec<char>> = Vec::new();
    let mut i: usize = 0;
    while i < ps.len()
        invariant
            i <= ps.len(),
            items@.len() == i,
            forall|k: int| 0 <= k < i ==> items@[k]@ == ser_tag_pair(pair_views(ps@)[k]),
        decreases ps.len() - i,
    {
        let mut item: Vec<char> = Vec::new();
        push_ser_string(&mut item, ps[i].0.as_str());
        item.push(':');
        push_ser_string(&mut item, ps[i].1.as_str());
        proof {
            assert(item@ =~= ser_tag_pair(pair_views(ps@)[i as int]));
        }
        items.push(item);
        i = i + 1;
    }
    proof {
        assert(views_of(items@) =~= pair_views(ps@).map_values(
            |p: (Seq<char>, Seq<char>)| ser_tag_pair(p),
        ));
    }
    push_joined_items(out, &items);
    out.push('}');
    proof {
        assert(out@ =~= old(out)@ + ser_tag_obj(pair_views(ps@)));
    }
}

#[verifier::rlimit(60)]
fn push_meta(out: &mut Vec<char>, m: &LibraryEntryMeta)
    ensures
        final(out)@ == old(out)@ + ser_meta(m@),
{
    push_lit(out, "{\"key\":");
    push_ser_string(out, m.key());
    push_lit(out, ",\"entry_type\":");
    let tl = m.entry_type().type_label();
    push_ser_string(out, tl.as_str());
    push_lit(out, ",\"title\":");
    push_ser_string(out, m.title());
    push_lit(out, ",\"authors\":");
    push_str_array(out, m.authors());
    push_lit(out, ",\"year\":");
    let mut y = u32_to_dec_chars(m.year());
    out.append(&mut y);
    push_lit(out, ",\"month\":");
    match m.month() {
        Some(mm) => {
            let sn = mm.short_name();
            push_ser_string(out, sn.as_str());
        },
        None => {
            push_lit(out, "null");
        },
    }
    push_lit(out, ",\"original_tags\":");
    match m.original_tags() {
        Some(ps) => {
            push_tag_obj(out, ps);
        },
        None => {
            push_lit(out, "null");
        },
    }
    out.push('}');
    proof {
        assert(out@ =~= old(out)@ + ser_meta(m@));
    }
}

fn push_entry(out: &mut Vec<char>, e: &LibraryEntry)
    ensures
        final(out)@ == old(out)@ + ser_entry(e@),
{
    push_lit(out, "{\"meta\":");
    push_meta(out, e.meta());
    push_lit(out, ",\"tags\":");
    push_str_array(out, e.tags());
    push_lit(out, ",\"file_paths\":");
    push_str_array(out, e.file_paths());
    push_lit(out, ",\"digest\":\"");
    push_hex(out, e.digest());
    push_lit(out, "\"}");
    proof {
        assert(out@ =~= old(out)@ + ser_entry(e@));
    }
}

/// Renders the whole persisted document for a version and its entries.
pub fn render_library(version: VersionSpec, entries: &Vec<LibraryEntry>) -> (r: String)
    ensures
        r@ == ser_library(version, entry_views(entries@)),
{
    let mut out: Vec<char> = Vec::new();
    push_lit(&mut out, "{\"creation_version\":\"");
    let vt = version.render();
    push_lit(&mut out, vt.as_str());
    push_lit(&mut out, "\",\"entries\":[");
    let mut items: Vec<Vec<char>> = Vec::new();
    let mut i: usize = 0;
    while i < entries.len()
        invariant
            i <= entries.len(),
            items@.len() == i,
            forall|k: int| 0 <= k < i ==> items@[k]@ == ser_entry(entry_views(entries@)[k]),
        decreases entries.len() - i,
    {
        proof {
            assert(entry_views(entries@)[i as int] == entries@[i as int]@);
        }
        let mut item: Vec<char> = Vec::new();
        push_entry(&mut item, &entries[i]);
        items.push(item);
        i = i + 1;
    }
    proof {
        assert(views_of(items@) =~= entry_views(entries@).map_values(
            |e: LibraryEntryV| ser_entry(e),
        ));
    }
    push_joined_items(&mut out, &items);
    push_lit(&mut out, "]}");
    proof {
        assert(out@ =~= ser_library(version, entry_views(entries@)));
    }
    chars_to_string(&out)
}

proof fn lemma_concat_cancel(x: Seq<char>, y: Seq<char>, z: Seq<char>, w: Seq<char>)
    requires
        x + y == z + w,
        x.len() == z.len(),
    ensures
        x == z,
        y == w,
{
    assert(x =~= (x + y).take(x.len() as int));
    assert(z =~= (z + w).take(z.len() as int));
    assert(y =~= (x + y).skip(x.len() as int));
    assert(w =~= (z + w).skip(z.len() as int));
}

proof fn lemma_assoc(a: Seq<char>, b: Seq<char>, c: Seq<char>)
    ensures
        a + b + c == a + (b + c),
{
    assert(a + b + c =~= a + (b + c));
}

proof fn lemma_escape_char_shape(c: char)
    ensures
        escape_char(c).len() >= 1,
        escape_char(c)[0] != '"',
        escape_char(c)[0] == '\\' <==> (c == '"' || c == '\\' || (c as u32) < 32),
        escape_char(c).len() == 1 ==> escape_char(c)[0] == c,
{
}

proof fn lemma_escape_head(s: Seq<char>)
    requires
        s.len() > 0,
    ensures
        escape_str(s) == escape_char(s[0]) + escape_str(s.skip(1)),
    decreases s.len(),
{
    if s.len() == 1 {
        assert(s.drop_last() =~= Seq::<char>::empty());
        assert(s.skip(1) =~= Seq::<char>::empty());
        assert(escape_str(s) =~= escape_char(s[0]) + escape_str(s.skip(1)));
    } else {
        let t = s.drop_last();
        lemma_escape_head(t);
        assert(t[0] == s[0]);
        assert(t.skip(1) =~= s.skip(1).drop_last());
        assert(s.skip(1).last() == s.last());
        assert(escape_str(s.skip(1)) == escape_str(s.skip(1).drop_last()) + escape_char(
            s.skip(1).last(),
        ));
        assert(escape_str(s) == escape_str(t) + escape_char(s.last()));
        assert(escape_str(s) =~= escape_char(s[0]) + escape_str(s.skip(1)));
    }
}

proof fn lemma_char_code_injective(c1: char, c2: char)
    requires
        c1 as u32 == c2 as u32,
    ensures
        c1 == c2,
{
}

proof fn lemma_hex_digit_injective(d1: nat, d2: nat)
    requires
        d1 < 16,
        d2 < 16,
        hex_digit_char(d1) == hex_digit_char(d2),
    ensures
        d1 == d2,
{
}

/// An escaped string closed by its quote reads back uniquely, whatever
/// follows the quote.
proof fn lemma_escape_unambiguous(a: Seq<char>, b: Seq<char>, r1: Seq<char>, r2: Seq<char>)
    requires
        escape_str(a) + seq!['"'] + r1 == escape_str(b) + seq!['"'] + r2,
    ensures
        a == b,
        r1 == r2,
    decreases a.len(),
{
    let lhs = escape_str(a) + seq!['"'] + r1;
    let rhs = escape_str(b) + seq!['"'] + r2;
    if a.len() == 0 {
        assert(escape_str(a).len() == 0);
        assert(lhs[0] == '"');
        if b.len() > 0 {
            lemma_escape_head(b);
            lemma_escape_char_shape(b[0]);
            assert(rhs[0] == escape_char(b[0])[0]);
            assert(false);
        }
        assert(escape_str(b).len() == 0);
        assert(r1 =~= lhs.skip(1));
        assert(r2 =~= rhs.skip(1));
        assert(a =~= b);
    } else if b.len() == 0 {
        assert(rhs[0] == '"');
        lemma_escape_head(a);
        lemma_escape_char_shape(a[0]);
        assert(lhs[0] == escape_char(a[0])[0]);
        assert(false);
    } else {
        lemma_escape_head(a);
        lemma_escape_head(b);
        lemma_escape_char_shape(a[0]);
        lemma_escape_char_shape(b[0]);
        let ea = escape_char(a[0]);
        let eb = escape_char(b[0]);
        assert(lhs =~= ea + (escape_str(a.skip(1)) + seq!['"'] + r1));
        assert(rhs =~= eb + (escape_str(b.skip(1)) + seq!['"'] + r2));
        assert(lhs[0] == ea[0] && rhs[0] == eb[0]);
        if ea.len() == 1 && eb.len() == 1 {
            assert(a[0] == b[0]);
        } else if ea.len() == 1 {
            assert(ea[0] == a[0] && a[0] != '\\');
            assert(eb[0] == '\\');
            assert(false);
        } else if eb.len() == 1 {
            assert(false);
        } else {
            assert(ea[0] == '\\' && eb[0] == '\\');
            assert(lhs[1] == ea[1] && rhs[1] == eb[1]);
            if a[0] == '"' {
                assert(ea[1] == '"');
                assert(eb[1] == '"');
                assert(b[0] == '"');
            } else if a[0] == '\\' {
                assert(ea[1] == '\\');
                assert(b[0] == '\\');
            } else {
                assert(ea[1] == 'u');
                assert(eb[1] == 'u');
                assert((a[0] as u32) < 32 && (b[0] as u32) < 32);
                assert(lhs[4] == ea[4] && rhs[4] == eb[4]);
                assert(lhs[5] == ea[5] && rhs[5] == eb[5]);
                lemma_hex_digit_injective(
                    (a[0] as u32 / 16) as nat,
                    (b[0] as u32 / 16) as nat,
                );
                lemma_hex_digit_injective(
                    (a[0] as u32 % 16) as nat,
                    (b[0] as u32 % 16) as nat,
                );
                let ca = a[0] as u32;
                let cb = b[0] as u32;
                assert(ca / 16 == cb / 16 && ca % 16 == cb % 16);
                assert((ca / 16) * 16 + ca % 16 == ca) by (nonlinear_arith);
                assert((cb / 16) * 16 + cb % 16 == cb) by (nonlinear_arith);
                assert(ca == cb);
                lemma_char_code_injective(a[0], b[0]);
                assert(a[0] == b[0]);
            }
        }
        assert(a[0] == b[0]);
        assert(ea == eb);
        lemma_concat_cancel(
            ea,
            escape_str(a.skip(1)) + seq!['"'] + r1,
            eb,
            escape_str(b.skip(1)) + seq!['"'] + r2,
        );
        lemma_escape_unambiguous(a.skip(1), b.skip(1), r1, r2);
        assert(a =~= seq![a[0]] + a.skip(1));
        assert(b =~= seq![b[0]] + b.skip(1));
    }
}

/// A quoted string token reads back uniquely, whatever follows it.
proof fn lemma_ser_string_unambiguous(a: Seq<char>, b: Seq<char>, r1: Seq<char>, r2: Seq<char>)
    requires
        ser_string(a) + r1 == ser_string(b) + r2,
    ensures
        a == b,
        r1 == r2,
{
    assert(ser_string(a) + r1 =~= seq!['"'] + (escape_str(a) + seq!['"'] + r1));
    assert(ser_string(b) + r2 =~= seq!['"'] + (escape_str(b) + seq!['"'] + r2));
    lemma_concat_cancel(
        seq!['"'],
        escape_str(a) + seq!['"'] + r1,
        seq!['"'],
        escape_str(b) + seq!['"'] + r2,
    );
    lemma_escape_unambiguous(a, b, r1, r2);
}

proof fn lemma_hex_chars_not_quote(bytes: Seq<u8>)
    ensures
        hex_of(bytes).len() == 2 * bytes.len(),
        forall|i: int| 0 <= i < hex_of(bytes).len() ==> (#[trigger] hex_of(bytes)[i]) != '"',
    decreases bytes.len(),
{
    if bytes.len() > 0 {
        lemma_hex_chars_not_quote(bytes.drop_last());
    }
}

proof fn lemma_hex_injective(a: Seq<u8>, b: Seq<u8>)
    requires
        hex_of(a) == hex_of(b),
    ensures
        a == b,
    decreases a.len(),
{
    lemma_hex_chars_not_quote(a);
    lemma_hex_chars_not_quote(b);
    if a.len() == 0 {
        assert(a =~= b);
    } else {
        let la = a.last();
        let lb = b.last();
        let pa = seq![hex_digit_char((la / 16) as nat), hex_digit_char((la % 16) as nat)];
        let pb = seq![hex_digit_char((lb / 16) as nat), hex_digit_char((lb % 16) as nat)];
        assert(hex_of(a) == hex_of(a.drop_last()) + pa);
        assert(hex_of(b) == hex_of(b.drop_last()) + pb);
        assert(hex_of(a)[hex_of(a).len() - 2] == pa[0]);
        assert(hex_of(a)[hex_of(a).len() - 1] == pa[1]);
        assert(hex_of(b)[hex_of(b).len() - 2] == pb[0]);
        assert(hex_of(b)[hex_of(b).len() - 1] == pb[1]);
        lemma_hex_digit_injective((la / 16) as nat, (lb / 16) as nat);
        lemma_hex_digit_injective((la % 16) as nat, (lb % 16) as nat);
        assert((la / 16) * 16 + la % 16 == la) by (bit_vector);
        assert((lb / 16) * 16 + lb % 16 == lb) by (bit_vector);
        assert(la == lb);
        lemma_concat_cancel(hex_of(a.drop_last()), pa, hex_of(b.drop_last()), pb);
        lemma_hex_injective(a.drop_last(), b.drop_last());
        assert(a =~= a.drop_last().push(la));
        assert(b =~= b.drop_last().push(lb));
    }
}

/// A hexadecimal run closed by a quote reads back uniquely.
proof fn lemma_hex_unambiguous(a: Seq<u8>, b: Seq<u8>, r1: Seq<char>, r2: Seq<char>)
    requires
        hex_of(a) + seq!['"'] + r1 == hex_of(b) + seq!['"'] + r2,
    ensures
        a == b,
        r1 == r2,
{
    lemma_hex_chars_not_quote(a);
    lemma_hex_chars_not_quote(b);
    let lhs = hex_of(a) + seq!['"'] + r1;
    let rhs = hex_of(b) + seq!['"'] + r2;
    if hex_of(a).len() < hex_of(b).len() {
        assert(lhs[hex_of(a).len() as int] == '"');
        assert(rhs[hex_of(a).len() as int] == hex_of(b)[hex_of(a).len() as int]);
        assert(false);
    } else if hex_of(b).len() < hex_of(a).len() {
        assert(rhs[hex_of(b).len() as int] == '"');
        assert(lhs[hex_of(b).len() as int] == hex_of(a)[hex_of(b).len() as int]);
        assert(false);
    } else {
        assert(hex_of(a) + (seq!['"'] + r1) =~= lhs);
        assert(hex_of(b) + (seq!['"'] + r2) =~= rhs);
        lemma_concat_cancel(hex_of(a), seq!['"'] + r1, hex_of(b), seq!['"'] + r2);
        lemma_hex_injective(a, b);
        lemma_concat_cancel(seq!['"'], r1, seq!['"'], r2);
    }
}

proof fn lemma_ser_string_shape(x: Seq<char>)
    ensures
        ser_string(x).len() >= 2,
        ser_string(x)[0] == '"',
{
}

/// A comma-joined list of string tokens closed by a terminator that no
/// token starts with reads back uniquely.
proof fn lemma_str_items_unambiguous(
    xs: Seq<Seq<char>>,
    ys: Seq<Seq<char>>,
    term: char,
    r1: Seq<char>,
    r2: Seq<char>,
)
    requires
        joined(xs.map_values(|x: Seq<char>| ser_string(x)), seq![',']) + seq![term] + r1 == joined(
            ys.map_values(|x: Seq<char>| ser_string(x)),
            seq![','],
        ) + seq![term] + r2,
        term != '"',
        term != ',',
    ensures
        xs == ys,
        r1 == r2,
    decreases xs.len(),
{
    let mx = xs.map_values(|x: Seq<char>| ser_string(x));
    let my = ys.map_values(|x: Seq<char>| ser_string(x));
    let lhs = joined(mx, seq![',']) + seq![term] + r1;
    let rhs = joined(my, seq![',']) + seq![term] + r2;
    if xs.len() == 0 && ys.len() == 0 {
        assert(joined(mx, seq![',']).len() == 0);
        assert(r1 =~= lhs.skip(1));
        assert(r2 =~= rhs.skip(1));
        assert(xs =~= ys);
    } else if xs.len() == 0 {
        lemma_ser_string_shape(ys[0]);
        assert(lhs[0] == term);
        if my.len() == 1 {
            assert(joined(my, seq![',']) == my[0]);
        } else {
            assert(joined(my, seq![',']) == my[0] + seq![','] + joined(my.skip(1), seq![',']));
        }
        assert(rhs[0] == my[0][0]);
        assert(my[0] == ser_string(ys[0]));
        assert(false);
    } else if ys.len() == 0 {
        lemma_ser_string_shape(xs[0]);
        assert(rhs[0] == term);
        if mx.len() == 1 {
            assert(joined(mx, seq![',']) == mx[0]);
        } else {
            assert(joined(mx, seq![',']) == mx[0] + seq![','] + joined(mx.skip(1), seq![',']));
        }
        assert(lhs[0] == mx[0][0]);
        assert(mx[0] == ser_string(xs[0]));
        assert(false);
    } else {
        let rest1: Seq<char> = if xs.len() == 1 {
            seq![term] + r1
        } else {
            seq![','] + (joined(mx.skip(1), seq![',']) + seq![term] + r1)
        };
        let rest2: Seq<char> = if ys.len() == 1 {
            seq![term] + r2
        } else {
            seq![','] + (joined(my.skip(1), seq![',']) + seq![term] + r2)
        };
        if xs.len() == 1 {
            assert(joined(mx, seq![',']) == mx[0]);
            assert(lhs =~= ser_string(xs[0]) + rest1);
        } else {
            assert(joined(mx, seq![',']) == mx[0] + seq![','] + joined(mx.skip(1), seq![',']));
            assert(lhs =~= ser_string(xs[0]) + rest1);
        }
        if ys.len() == 1 {
            assert(joined(my, seq![',']) == my[0]);
            assert(rhs =~= ser_string(ys[0]) + rest2);
        } else {
            assert(joined(my, seq![',']) == my[0] + seq![','] + joined(my.skip(1), seq![',']));
            assert(rhs =~= ser_string(ys[0]) + rest2);
        }
        lemma_ser_string_unambiguous(xs[0], ys[0], rest1, rest2);
        if xs.len() == 1 && ys.len() == 1 {
            lemma_concat_cancel(seq![term], r1, seq![term], r2);
            assert(xs =~= ys);
        } else if xs.len() == 1 {
            assert(rest1[0] == term && rest2[0] == ',');
            assert(false);
        } else if ys.len() == 1 {
            assert(rest1[0] == ',' && rest2[0] == term);
            assert(false);
        } else {
            lemma_concat_cancel(
                seq![','],
                joined(mx.skip(1), seq![',']) + seq![term] + r1,
                seq![','],
                joined(my.skip(1), seq![',']) + seq![term] + r2,
            );
            assert(mx.skip(1) =~= xs.skip(1).map_values(|x: Seq<char>| ser_string(x)));
            assert(my.skip(1) =~= ys.skip(1).map_values(|x: Seq<char>| ser_string(x)));
            lemma_str_items_unambiguous(xs.skip(1), ys.skip(1), term, r1, r2);
            assert(xs =~= seq![xs[0]] + xs.skip(1));
            assert(ys =~= seq![ys[0]] + ys.skip(1));
        }
    }
}

/// A string array token reads back uniquely.
proof fn lemma_ser_str_array_unambiguous(
    xs: Seq<Seq<char>>,
    ys: Seq<Seq<char>>,
    r1: Seq<char>,
    r2: Seq<char>,
)
    requires
        ser_str_array(xs) + r1 == ser_str_array(ys) + r2,
    ensures
        xs == ys,
        r1 == r2,
{
    let mx = xs.map_values(|x: Seq<char>| ser_string(x));
    let my = ys.map_values(|x: Seq<char>| ser_string(x));
    assert(ser_str_array(xs) + r1 =~= seq!['['] + (joined(mx, seq![',']) + seq![']'] + r1));
    assert(ser_str_array(ys) + r2 =~= seq!['['] + (joined(my, seq![',']) + seq![']'] + r2));
    lemma_concat_cancel(
        seq!['['],
        joined(mx, seq![',']) + seq![']'] + r1,
        seq!['['],
        joined(my, seq![',']) + seq![']'] + r2,
    );
    lemma_str_items_unambiguous(xs, ys, ']', r1, r2);
}

proof fn lemma_tag_pair_shape(p: (Seq<char>, Seq<char>))
    ensures
        ser_tag_pair(p).len() >= 2,
        ser_tag_pair(p)[0] == '"',
{
    lemma_ser_string_shape(p.0);
    assert(ser_tag_pair(p)[0] == ser_string(p.0)[0]);
}

proof fn lemma_tag_pair_unambiguous(
    p1: (Seq<char>, Seq<char>),
    p2: (Seq<char>, Seq<char>),
    r1: Seq<char>,
    r2: Seq<char>,
)
    requires
        ser_tag_pair(p1) + r1 == ser_tag_pair(p2) + r2,
    ensures
        p1 == p2,
        r1 == r2,
{
    assert(ser_tag_pair(p1) + r1 =~= ser_string(p1.0) + (seq![':'] + (ser_string(p1.1) + r1)));
    assert(ser_tag_pair(p2) + r2 =~= ser_string(p2.0) + (seq![':'] + (ser_string(p2.1) + r2)));
    lemma_ser_string_unambiguous(
        p1.0,
        p2.0,
        seq![':'] + (ser_string(p1.1) + r1),
        seq![':'] + (ser_string(p2.1) + r2),
    );
    lemma_concat_cancel(seq![':'], ser_string(p1.1) + r1, seq![':'], ser_string(p2.1) + r2);
    lemma_ser_string_unambiguous(p1.1, p2.1, r1, r2);
}

/// A comma-joined list of field pairs closed by `}` reads back uniquely.
proof fn lemma_tag_items_unambiguous(
    xs: Seq<(Seq<char>, Seq<char>)>,
    ys: Seq<(Seq<char>, Seq<char>)>,
    r1: Seq<char>,
    r2: Seq<char>,
)
    requires
        joined(xs.map_values(|p: (Seq<char>, Seq<char>)| ser_tag_pair(p)), seq![',']) + seq!['}']
            + r1 == joined(
            ys.map_values(|p: (Seq<char>, Seq<char>)| ser_tag_pair(p)),
            seq![','],
        ) + seq!['}'] + r2,
    ensures
        xs == ys,
        r1 == r2,
    decreases xs.len(),
{
    let mx = xs.map_values(|p: (Seq<char>, Seq<char>)| ser_tag_pair(p));
    let my = ys.map_values(|p: (Seq<char>, Seq<char>)| ser_tag_pair(p));
    let lhs = joined(mx, seq![',']) + seq!['}'] + r1;
    let rhs = joined(my, seq![',']) + seq!['}'] + r2;
    if xs.len() == 0 && ys.len() == 0 {
        assert(joined(mx, seq![',']).len() == 0);
        assert(r1 =~= lhs.skip(1));
        assert(r2 =~= rhs.skip(1));
        assert(xs =~= ys);
    } else if xs.len() == 0 {
        lemma_tag_pair_shape(ys[0]);
        assert(lhs[0] == '}');
        if my.len() == 1 {
            assert(joined(my, seq![',']) == my[0]);
        } else {
            assert(joined(my, seq![',']) == my[0] + seq![','] + joined(my.skip(1), seq![',']));
        }
        assert(rhs[0] == my[0][0]);
        assert(my[0] == ser_tag_pair(ys[0]));
        assert(false);
    } else if ys.len() == 0 {
        lemma_tag_pair_shape(xs[0]);
        assert(rhs[0] == '}');
        if mx.len() == 1 {
            assert(joined(mx, seq![',']) == mx[0]);
        } else {
            assert(joined(mx, seq![',']) == mx[0] + seq![','] + joined(mx.skip(1), seq![',']));
        }
        assert(lhs[0] == mx[0][0]);
        assert(mx[0] == ser_tag_pair(xs[0]));
        assert(false);
    } else {
        let rest1: Seq<char> = if xs.len() == 1 {
            seq!['}'] + r1
        } else {
            seq![','] + (joined(mx.skip(1), seq![',']) + seq!['}'] + r1)
        };
        let rest2: Seq<char> = if ys.len() == 1 {
            seq!['}'] + r2
        } else {
            seq![','] + (joined(my.skip(1), seq![',']) + seq!['}'] + r2)
        };
        if xs.len() == 1 {
            assert(joined(mx, seq![',']) == mx[0]);
            assert(lhs =~= ser_tag_pair(xs[0]) + rest1);
        } else {
            assert(joined(mx, seq![',']) == mx[0] + seq![','] + joined(mx.skip(1), seq![',']));
            assert(lhs =~= ser_tag_pair(xs[0]) + rest1);
        }
        if ys.len() == 1 {
            assert(joined(my, seq![',']) == my[0]);
            assert(rhs =~= ser_tag_pair(ys[0]) + rest2);
        } else {
            assert(joined(my, seq![',']) == my[0] + seq![','] + joined(my.skip(1), seq![',']));
            assert(rhs =~= ser_tag_pair(ys[0]) + rest2);
        }
        lemma_tag_pair_unambiguous(xs[0], ys[0], rest1, rest2);
        if xs.len() == 1 && ys.len() == 1 {
            lemma_concat_cancel(seq!['}'], r1, seq!['}'], r2);
            assert(xs =~= ys);
        } else if xs.len() == 1 {
            assert(rest1[0] == '}' && rest2[0] == ',');
            assert(false);
        } else if ys.len() == 1 {
            assert(rest1[0] == ',' && rest2[0] == '}');
            assert(false);
        } else {
            lemma_concat_cancel(
                seq![','],
                joined(mx.skip(1), seq![',']) + seq!['}'] + r1,
                seq![','],
                joined(my.skip(1), seq![',']) + seq!['}'] + r2,
            );
            assert(mx.skip(1) =~= xs.skip(1).map_values(
                |p: (Seq<char>, Seq<char>)| ser_tag_pair(p),
            ));
            assert(my.skip(1) =~= ys.skip(1).map_values(
                |p: (Seq<char>, Seq<char>)| ser_tag_pair(p),
            ));
            lemma_tag_items_unambiguous(xs.skip(1), ys.skip(1), r1, r2);
            assert(xs =~= seq![xs[0]] + xs.skip(1));
            assert(ys =~= seq![ys[0]] + ys.skip(1));
        }
    }
}

/// An optional field object reads back uniquely.
proof fn lemma_tags_opt_unambiguous(
    t1: Option<Seq<(Seq<char>, Seq<char>)>>,
    t2: Option<Seq<(Seq<char>, Seq<char>)>>,
    r1: Seq<char>,
    r2: Seq<char>,
)
    requires
        ser_tags_opt(t1) + r1 == ser_tags_opt(t2) + r2,
    ensures
        t1 == t2,
        r1 == r2,
{
    reveal_strlit("null");
    let lhs = ser_tags_opt(t1) + r1;
    let rhs = ser_tags_opt(t2) + r2;
    match (t1, t2) {
        (None, None) => {
            lemma_concat_cancel("null"@, r1, "null"@, r2);
        },
        (None, Some(ps)) => {
            assert(lhs[0] == 'n');
            assert(rhs[0] == '{');
            assert(false);
        },
        (Some(ps), None) => {
            assert(lhs[0] == '{');
            assert(rhs[0] == 'n');
            assert(false);
        },
        (Some(ps1), Some(ps2)) => {
            let m1 = ps1.map_values(|p: (Seq<char>, Seq<char>)| ser_tag_pair(p));
            let m2 = ps2.map_values(|p: (Seq<char>, Seq<char>)| ser_tag_pair(p));
            assert(lhs =~= seq!['{'] + (joined(m1, seq![',']) + seq!['}'] + r1));
            assert(rhs =~= seq!['{'] + (joined(m2, seq![',']) + seq!['}'] + r2));
            lemma_concat_cancel(
                seq!['{'],
                joined(m1, seq![',']) + seq!['}'] + r1,
                seq!['{'],
                joined(m2, seq![',']) + seq!['}'] + r2,
            );
            lemma_tag_items_unambiguous(ps1, ps2, r1, r2);
        },
    }
}

proof fn lemma_seq_neq_at(a: Seq<char>, b: Seq<char>, i: int)
    requires
        0 <= i < a.len(),
        0 <= i < b.len(),
        a[i] != b[i],
    ensures
        a != b,
{
}

proof fn lemma_seq_neq_len(a: Seq<char>, b: Seq<char>)
    requires
        a.len() != b.len(),
    ensures
        a != b,
{
}

spec fn month_of_short(s: Seq<char>) -> Option<Month> {
    if s == "Jan"@ {
        Some(Month::Jan)
    } else if s == "Feb"@ {
        Some(Month::Feb)
    } else if s == "Mar"@ {
        Some(Month::Mar)
    } else if s == "Apr"@ {
        Some(Month::Apr)
    } else if s == "May"@ {
        Some(Month::May)
    } else if s == "Jun"@ {
        Some(Month::Jun)
    } else if s == "Jul"@ {
        Some(Month::Jul)
    } else if s == "Aug"@ {
        Some(Month::Aug)
    } else if s == "Sep"@ {
        Some(Month::Sep)
    } else if s == "Oct"@ {
        Some(Month::Oct)
    } else if s == "Nov"@ {
        Some(Month::Nov)
    } else if s == "Dec"@ {
        Some(Month::Dec)
    } else {
        None
    }
}

proof fn lemma_month_short_roundtrip(m: Month)
    ensures
        month_of_short(month_short_seq(m)) == Some(m),
{
    reveal_strlit("Jan");
    reveal_strlit("Feb");
    reveal_strlit("Mar");
    reveal_strlit("Apr");
    reveal_strlit("May");
    reveal_strlit("Jun");
    reveal_strlit("Jul");
    reveal_strlit("Aug");
    reveal_strlit("Sep");
    reveal_strlit("Oct");
    reveal_strlit("Nov");
    reveal_strlit("Dec");
    match m {
        Month::Jan => {
            assert(month_of_short("Jan"@) == Some(Month::Jan));
        },
        Month::Feb => {
            lemma_seq_neq_at("Feb"@, "Jan"@, 0);
            assert(month_of_short("Feb"@) == Some(Month::Feb));
        },
        Month::Mar => {
            lemma_seq_neq_at("Mar"@, "Jan"@, 0);
            lemma_seq_neq_at("Mar"@, "Feb"@, 0);
            assert(month_of_short("Mar"@) == Some(Month::Mar));
        },
        Month::Apr => {
            lemma_seq_neq_at("Apr"@, "Jan"@, 0);
            lemma_seq_neq_at("Apr"@, "Feb"@, 0);
            lemma_seq_neq_at("Apr"@, "Mar"@, 0);
            assert(month_of_short("Apr"@) == Some(Month::Apr));
        },
        Month::May => {
            lemma_seq_neq_at("May"@, "Jan"@, 0);
            lemma_seq_neq_at("May"@, "Feb"@, 0);
            lemma_seq_neq_at("May"@, "Mar"@, 2);
            lemma_seq_neq_at("May"@, "Apr"@, 0);
            assert(month_of_short("May"@) == Some(Month::May));
        },
        Month::Jun => {
            lemma_seq_neq_at("Jun"@, "Jan"@, 1);
            lemma_seq_neq_at("Jun"@, "Feb"@, 0);
            lemma_seq_neq_at("Jun"@, "Mar"@, 0);
            lemma_seq_neq_at("Jun"@, "Apr"@, 0);
            lemma_seq_neq_at("Jun"@, "May"@, 0);
            assert(month_of_short("Jun"@) == Some(Month::Jun));
        },
        Month::Jul => {
            lemma_seq_neq_at("Jul"@, "Jan"@, 1);
            lemma_seq_neq_at("Jul"@, "Feb"@, 0);
            lemma_seq_neq_at("Jul"@, "Mar"@, 0);
            lemma_seq_neq_at("Jul"@, "Apr"@, 0);
            lemma_seq_neq_at("Jul"@, "May"@, 0);
            lemma_seq_neq_at("Jul"@, "Jun"@, 2);
            assert(month_of_short("Jul"@) == Some(Month::Jul));
        },
        Month::Aug => {
            lemma_seq_neq_at("Aug"@, "Jan"@, 0);
            lemma_seq_neq_at("Aug"@, "Feb"@, 0);
            lemma_seq_neq_at("Aug"@, "Mar"@, 0);
            lemma_seq_neq_at("Aug"@, "Apr"@, 1);
            lemma_seq_neq_at("Aug"@, "May"@, 0);
            lemma_seq_neq_at("Aug"@, "Jun"@, 0);
            lemma_seq_neq_at("Aug"@, "Jul"@, 0);
            assert(month_of_short("Aug"@) == Some(Month::Aug));
        },
        Month::Sep => {
            lemma_seq_neq_at("Sep"@, "Jan"@, 0);
            lemma_seq_neq_at("Sep"@, "Feb"@, 0);
            lemma_seq_neq_at("Sep"@, "Mar"@, 0);
            lemma_seq_neq_at("Sep"@, "Apr"@, 0);
            lemma_seq_neq_at("Sep"@, "May"@, 0);
            lemma_seq_neq_at("Sep"@, "Jun"@, 0);
            lemma_seq_neq_at("Sep"@, "Jul"@, 0);
            lemma_seq_neq_at("Sep"@, "Aug"@, 0);
            assert(month_of_short("Sep"@) == Some(Month::Sep));
        },
        Month::Oct => {
            lemma_seq_neq_at("Oct"@, "Jan"@, 0);
            lemma_seq_neq_at("Oct"@, "Feb"@, 0);
            lemma_seq_neq_at("Oct"@, "Mar"@, 0);
            lemma_seq_neq_at("Oct"@, "Apr"@, 0);
            lemma_seq_neq_at("Oct"@, "May"@, 0);
            lemma_seq_neq_at("Oct"@, "Jun"@, 0);
            lemma_seq_neq_at("Oct"@, "Jul"@, 0);
            lemma_seq_neq_at("Oct"@, "Aug"@, 0);
            lemma_seq_neq_at("Oct"@, "Sep"@, 0);
            assert(month_of_short("Oct"@) == Some(Month::Oct));
        },
        Month::Nov => {
            lemma_seq_neq_at("Nov"@, "Jan"@, 0);
            lemma_seq_neq_at("Nov"@, "Feb"@, 0);
            lemma_seq_neq_at("Nov"@, "Mar"@, 0);
            lemma_seq_neq_at("Nov"@, "Apr"@, 0);
            lemma_seq_neq_at("Nov"@, "May"@, 0);
            lemma_seq_neq_at("Nov"@, "Jun"@, 0);
            lemma_seq_neq_at("Nov"@, "Jul"@, 0);
            lemma_seq_neq_at("Nov"@, "Aug"@, 0);
            lemma_seq_neq_at("Nov"@, "Sep"@, 0);
            lemma_seq_neq_at("Nov"@, "Oct"@, 0);
            assert(month_of_short("Nov"@) == Some(Month::Nov));
        },
        Month::Dec => {
            lemma_seq_neq_at("Dec"@, "Jan"@, 0);
            lemma_seq_neq_at("Dec"@, "Feb"@, 0);
            lemma_seq_neq_at("Dec"@, "Mar"@, 0);
            lemma_seq_neq_at("Dec"@, "Apr"@, 0);
            lemma_seq_neq_at("Dec"@, "May"@, 0);
            lemma_seq_neq_at("Dec"@, "Jun"@, 0);
            lemma_seq_neq_at("Dec"@, "Jul"@, 0);
            lemma_seq_neq_at("Dec"@, "Aug"@, 0);
            lemma_seq_neq_at("Dec"@, "Sep"@, 0);
            lemma_seq_neq_at("Dec"@, "Oct"@, 0);
            lemma_seq_neq_at("Dec"@, "Nov"@, 0);
            assert(month_of_short("Dec"@) == Some(Month::Dec));
        },
    }
}

proof fn lemma_month_short_injective(m1: Month, m2: Month)
    requires
        month_short_seq(m1) == month_short_seq(m2),
    ensures
        m1 == m2,
{
    lemma_month_short_roundtrip(m1);
    lemma_month_short_roundtrip(m2);
}

/// An optional month value reads back uniquely.
proof fn lemma_month_opt_unambiguous(
    m1: Option<Month>,
    m2: Option<Month>,
    r1: Seq<char>,
    r2: Seq<char>,
)
    requires
        ser_month_opt(m1) + r1 == ser_month_opt(m2) + r2,
    ensures
        m1 == m2,
        r1 == r2,
{
    reveal_strlit("null");
    let lhs = ser_month_opt(m1) + r1;
    let rhs = ser_month_opt(m2) + r2;
    match (m1, m2) {
        (None, None) => {
            lemma_concat_cancel("null"@, r1, "null"@, r2);
        },
        (None, Some(b)) => {
            lemma_ser_string_shape(month_short_seq(b));
            assert(lhs[0] == 'n');
            assert(rhs[0] == ser_string(month_short_seq(b))[0]);
            assert(false);
        },
        (Some(a), None) => {
            lemma_ser_string_shape(month_short_seq(a));
            assert(lhs[0] == ser_string(month_short_seq(a))[0]);
            assert(rhs[0] == 'n');
            assert(false);
        },
        (Some(a), Some(b)) => {
            lemma_ser_string_unambiguous(month_short_seq(a), month_short_seq(b), r1, r2);
            lemma_month_short_injective(a, b);
        },
    }
}

spec fn type_of_label(s: Seq<char>) -> Option<LibraryEntryType> {
    if s == "Article"@ {
        Some(LibraryEntryType::Article)
    } else if s == "Book"@ {
        Some(LibraryEntryType::Book)
    } else if s == "Booklet"@ {
        Some(LibraryEntryType::Booklet)
    } else if s == "Conference"@ {
        Some(LibraryEntryType::Conference)
    } else if s == "InBook"@ {
        Some(LibraryEntryType::InBook)
    } else if s == "InCollection"@ {
        Some(LibraryEntryType::InCollection)
    } else if s == "InProceedings"@ {
        Some(LibraryEntryType::InProceedings)
    } else if s == "Manual"@ {
        Some(LibraryEntryType::Manual)
    } else if s == "MasterThesis"@ {
        Some(LibraryEntryType::MasterThesis)
    } else if s == "Thesis"@ {
        Some(LibraryEntryType::Thesis)
    } else if s == "Misc"@ {
        Some(LibraryEntryType::Misc)
    } else if s == "PHDThesis"@ {
        Some(LibraryEntryType::PHDThesis)
    } else if s == "Proceedings"@ {
        Some(LibraryEntryType::Proceedings)
    } else if s == "Techreport"@ {
        Some(LibraryEntryType::Techreport)
    } else if s == "Unpublished"@ {
        Some(LibraryEntryType::Unpublished)
    } else {
        None
    }
}

proof fn lemma_type_label_roundtrip(t: LibraryEntryType)
    ensures
        type_of_label(type_label_seq(t)) == Some(t),
{
    reveal_strlit("Article");
    reveal_strlit("Book");
    reveal_strlit("Booklet");
    reveal_strlit("Conference");
    reveal_strlit("InBook");
    reveal_strlit("InCollection");
    reveal_strlit("InProceedings");
    reveal_strlit("Manual");
    reveal_strlit("MasterThesis");
    reveal_strlit("Thesis");
    reveal_strlit("Misc");
    reveal_strlit("PHDThesis");
    reveal_strlit("Proceedings");
    reveal_strlit("Techreport");
    reveal_strlit("Unpublished");
    match t {
        LibraryEntryType::Article => {
            assert(type_of_label("Article"@) == Some(LibraryEntryType::Article));
        },
        LibraryEntryType::Book => {
            lemma_seq_neq_len("Book"@, "Article"@);
            assert(type_of_label("Book"@) == Some(LibraryEntryType::Book));
        },
        LibraryEntryType::Booklet => {
            lemma_seq_neq_at("Booklet"@, "Article"@, 0);
            lemma_seq_neq_len("Booklet"@, "Book"@);
            assert(type_of_label("Booklet"@) == Some(LibraryEntryType::Booklet));
        },
        LibraryEntryType::Conference => {
            lemma_seq_neq_len("Conference"@, "Article"@);
            lemma_seq_neq_len("Conference"@, "Book"@);
            lemma_seq_neq_len("Conference"@, "Booklet"@);
            assert(type_of_label("Conference"@) == Some(LibraryEntryType::Conference));
        },
        LibraryEntryType::InBook => {
            lemma_seq_neq_len("InBook"@, "Article"@);
            lemma_seq_neq_len("InBook"@, "Book"@);
            lemma_seq_neq_len("InBook"@, "Booklet"@);
            lemma_seq_neq_len("InBook"@, "Conference"@);
            assert(type_of_label("InBook"@) == Some(LibraryEntryType::InBook));
        },
        LibraryEntryType::InCollection => {
            lemma_seq_neq_len("InCollection"@, "Article"@);
            lemma_seq_neq_len("InCollection"@, "Book"@);
            lemma_seq_neq_len("InCollection"@, "Booklet"@);
            lemma_seq_neq_len("InCollection"@, "Conference"@);
            lemma_seq_neq_len("InCollection"@, "InBook"@);
            assert(type_of_label("InCollection"@) == Some(LibraryEntryType::InCollection));
        },
        LibraryEntryType::InProceedings => {
            lemma_seq_neq_len("InProceedings"@, "Article"@);
            lemma_seq_neq_len("InProceedings"@, "Book"@);
            lemma_seq_neq_len("InProceedings"@, "Booklet"@);
            lemma_seq_neq_len("InProceedings"@, "Conference"@);
            lemma_seq_neq_len("InProceedings"@, "InBook"@);
            lemma_seq_neq_len("InProceedings"@, "InCollection"@);
            assert(type_of_label("InProceedings"@) == Some(LibraryEntryType::InProceedings));
        },
        LibraryEntryType::Manual => {
            lemma_seq_neq_len("Manual"@, "Article"@);
            lemma_seq_neq_len("Manual"@, "Book"@);
            lemma_seq_neq_len("Manual"@, "Booklet"@);
            lemma_seq_neq_len("Manual"@, "Conference"@);
            lemma_seq_neq_at("Manual"@, "InBook"@, 0);
            lemma_seq_neq_len("Manual"@, "InCollection"@);
            lemma_seq_neq_len("Manual"@, "InProceedings"@);
            assert(type_of_label("Manual"@) == Some(LibraryEntryType::Manual));
        },
        LibraryEntryType::MasterThesis => {
            lemma_seq_neq_len("MasterThesis"@, "Article"@);
            lemma_seq_neq_len("MasterThesis"@, "Book"@);
            lemma_seq_neq_len("MasterThesis"@, "Booklet"@);
            lemma_seq_neq_len("MasterThesis"@, "Conference"@);
            lemma_seq_neq_len("MasterThesis"@, "InBook"@);
            lemma_seq_neq_at("MasterThesis"@, "InCollection"@, 0);
            lemma_seq_neq_len("MasterThesis"@, "InProceedings"@);
            lemma_seq_neq_len("MasterThesis"@, "Manual"@);
            assert(type_of_label("MasterThesis"@) == Some(LibraryEntryType::MasterThesis));
        },
        LibraryEntryType::Thesis => {
            lemma_seq_neq_len("Thesis"@, "Article"@);
            lemma_seq_neq_len("Thesis"@, "Book"@);
            lemma_seq_neq_len("Thesis"@, "Booklet"@);
            lemma_seq_neq_len("Thesis"@, "Conference"@);
            lemma_seq_neq_at("Thesis"@, "InBook"@, 0);
            lemma_seq_neq_len("Thesis"@, "InCollection"@);
            lemma_seq_neq_len("Thesis"@, "InProceedings"@);
            lemma_seq_neq_at("Thesis"@, "Manual"@, 0);
            lemma_seq_neq_len("Thesis"@, "MasterThesis"@);
            assert(type_of_label("Thesis"@) == Some(LibraryEntryType::Thesis));
        },
        LibraryEntryType::Misc => {
            lemma_seq_neq_len("Misc"@, "Article"@);
            lemma_seq_neq_at("Misc"@, "Book"@, 0);
            lemma_seq_neq_len("Misc"@, "Booklet"@);
            lemma_seq_neq_len("Misc"@, "Conference"@);
            lemma_seq_neq_len("Misc"@, "InBook"@);
            lemma_seq_neq_len("Misc"@, "InCollection"@);
            lemma_seq_neq_len("Misc"@, "InProceedings"@);
            lemma_seq_neq_len("Misc"@, "Manual"@);
            lemma_seq_neq_len("Misc"@, "MasterThesis"@);
            lemma_seq_neq_len("Misc"@, "Thesis"@);
            assert(type_of_label("Misc"@) == Some(LibraryEntryType::Misc));
        },
        LibraryEntryType::PHDThesis => {
            lemma_seq_neq_len("PHDThesis"@, "Article"@);
            lemma_seq_neq_len("PHDThesis"@, "Book"@);
            lemma_seq_neq_len("PHDThesis"@, "Booklet"@);
            lemma_seq_neq_len("PHDThesis"@, "Conference"@);
            lemma_seq_neq_len("PHDThesis"@, "InBook"@);
            lemma_seq_neq_len("PHDThesis"@, "InCollection"@);
            lemma_seq_neq_len("PHDThesis"@, "InProceedings"@);
            lemma_seq_neq_len("PHDThesis"@, "Manual"@);
            lemma_seq_neq_len("PHDThesis"@, "MasterThesis"@);
            lemma_seq_neq_len("PHDThesis"@, "Thesis"@);
            lemma_seq_neq_len("PHDThesis"@, "Misc"@);
            assert(type_of_label("PHDThesis"@) == Some(LibraryEntryType::PHDThesis));
        },
        LibraryEntryType::Proceedings => {
            lemma_seq_neq_len("Proceedings"@, "Article"@);
            lemma_seq_neq_len("Proceedings"@, "Book"@);
            lemma_seq_neq_len("Proceedings"@, "Booklet"@);
            lemma_seq_neq_len("Proceedings"@, "Conference"@);
            lemma_seq_neq_len("Proceedings"@, "InBook"@);
            lemma_seq_neq_len("Proceedings"@, "InCollection"@);
            lemma_seq_neq_len("Proceedings"@, "InProceedings"@);
            lemma_seq_neq_len("Proceedings"@, "Manual"@);
            lemma_seq_neq_len("Proceedings"@, "MasterThesis"@);
            lemma_seq_neq_len("Proceedings"@, "Thesis"@);
            lemma_seq_neq_len("Proceedings"@, "Misc"@);
            lemma_seq_neq_len("Proceedings"@, "PHDThesis"@);
            assert(type_of_label("Proceedings"@) == Some(LibraryEntryType::Proceedings));
        },
        LibraryEntryType::Techreport => {
            lemma_seq_neq_len("Techreport"@, "Article"@);
            lemma_seq_neq_len("Techreport"@, "Book"@);
            lemma_seq_neq_len("Techreport"@, "Booklet"@);
            lemma_seq_neq_at("Techreport"@, "Conference"@, 0);
            lemma_seq_neq_len("Techreport"@, "InBook"@);
            lemma_seq_neq_len("Techreport"@, "InCollection"@);
            lemma_seq_neq_len("Techreport"@, "InProceedings"@);
            lemma_seq_neq_len("Techreport"@, "Manual"@);
            lemma_seq_neq_len("Techreport"@, "MasterThesis"@);
            lemma_seq_neq_len("Techreport"@, "Thesis"@);
            lemma_seq_neq_len("Techreport"@, "Misc"@);
            lemma_seq_neq_len("Techreport"@, "PHDThesis"@);
            lemma_seq_neq_len("Techreport"@, "Proceedings"@);
            assert(type_of_label("Techreport"@) == Some(LibraryEntryType::Techreport));
        },
        LibraryEntryType::Unpublished => {
            lemma_seq_neq_len("Unpublished"@, "Article"@);
            lemma_seq_neq_len("Unpublished"@, "Book"@);
            lemma_seq_neq_len("Unpublished"@, "Booklet"@);
            lemma_seq_neq_len("Unpublished"@, "Conference"@);
            lemma_seq_neq_len("Unpublished"@, "InBook"@);
            lemma_seq_neq_len("Unpublished"@, "InCollection"@);
            lemma_seq_neq_len("Unpublished"@, "InProceedings"@);
            lemma_seq_neq_len("Unpublished"@, "Manual"@);
            lemma_seq_neq_len("Unpublished"@, "MasterThesis"@);
            lemma_seq_neq_len("Unpublished"@, "Thesis"@);
            lemma_seq_neq_len("Unpublished"@, "Misc"@);
            lemma_seq_neq_len("Unpublished"@, "PHDThesis"@);
            lemma_seq_neq_at("Unpublished"@, "Proceedings"@, 0);
            lemma_seq_neq_len("Unpublished"@, "Techreport"@);
            assert(type_of_label("Unpublished"@) == Some(LibraryEntryType::Unpublished));
        },
    }
}

proof fn lemma_type_label_injective(t1: LibraryEntryType, t2: LibraryEntryType)
    requires
        type_label_seq(t1) == type_label_seq(t2),
    ensures
        t1 == t2,
{
    lemma_type_label_roundtrip(t1);
    lemma_type_label_roundtrip(t2);
}

proof fn lemma_version_text_no_quote(v: VersionSpec)
    ensures
        version_text_of(v).len() >= 1,
        forall|i: int|
            0 <= i < version_text_of(v).len() ==> (#[trigger] version_text_of(v)[i]) != '"',
{
    crate::strutil::lemma_dec_str_digits(v.major as nat);
    crate::strutil::lemma_dec_str_digits(v.minor as nat);
    crate::strutil::lemma_dec_str_digits(v.patch as nat);
    let d1 = dec_str_of(v.major as nat);
    let d2 = dec_str_of(v.minor as nat);
    let d3 = dec_str_of(v.patch as nat);
    assert forall|i: int|
        0 <= i < version_text_of(v).len() implies (#[trigger] version_text_of(v)[i])
        != '"' by {
        let vt = version_text_of(v);
        if i < d1.len() {
            assert(vt[i] == d1[i]);
        } else if i == d1.len() {
            assert(vt[i] == '.');
        } else if i < d1.len() + 1 + d2.len() {
            assert(vt[i] == d2[i - d1.len() - 1]);
        } else if i == d1.len() + 1 + d2.len() {
            assert(vt[i] == '.');
        } else {
            assert(vt[i] == d3[i - d1.len() - 1 - d2.len() - 1]);
        }
    }
}

proof fn lemma_version_text_injective(v1: VersionSpec, v2: VersionSpec)
    requires
        version_text_of(v1) == version_text_of(v2),
    ensures
        v1 == v2,
{
    let d11 = dec_str_of(v1.major as nat);
    let d12 = dec_str_of(v1.minor as nat);
    let d13 = dec_str_of(v1.patch as nat);
    let d21 = dec_str_of(v2.major as nat);
    let d22 = dec_str_of(v2.minor as nat);
    let d23 = dec_str_of(v2.patch as nat);
    let t1 = seq!['.'] + (d12 + (seq!['.'] + d13));
    let t2 = seq!['.'] + (d22 + (seq!['.'] + d23));
    assert(version_text_of(v1) =~= d11 + t1);
    assert(version_text_of(v2) =~= d21 + t2);
    assert(!crate::strutil::is_dec_digit('.'));
    crate::strutil::lemma_dec_unambiguous(v1.major as nat, v2.major as nat, t1, t2);
    lemma_concat_cancel(seq!['.'], d12 + (seq!['.'] + d13), seq!['.'], d22 + (seq!['.'] + d23));
    crate::strutil::lemma_dec_unambiguous(
        v1.minor as nat,
        v2.minor as nat,
        seq!['.'] + d13,
        seq!['.'] + d23,
    );
    lemma_concat_cancel(seq!['.'], d13, seq!['.'], d23);
    assert(d13 + Seq::<char>::empty() =~= d13);
    assert(d23 + Seq::<char>::empty() =~= d23);
    crate::strutil::lemma_dec_unambiguous(
        v1.patch as nat,
        v2.patch as nat,
        Seq::<char>::empty(),
        Seq::<char>::empty(),
    );
}

/// A version text closed by a quote reads back uniquely.
proof fn lemma_version_unambiguous(
    v1: VersionSpec,
    v2: VersionSpec,
    r1: Seq<char>,
    r2: Seq<char>,
)
    requires
        version_text_of(v1) + seq!['"'] + r1 == version_text_of(v2) + seq!['"'] + r2,
    ensures
        v1 == v2,
        r1 == r2,
{
    lemma_version_text_no_quote(v1);
    lemma_version_text_no_quote(v2);
    let vt1 = version_text_of(v1);
    let vt2 = version_text_of(v2);
    let lhs = vt1 + seq!['"'] + r1;
    let rhs = vt2 + seq!['"'] + r2;
    if vt1.len() < vt2.len() {
        assert(lhs[vt1.len() as int] == '"');
        assert(rhs[vt1.len() as int] == vt2[vt1.len() as int]);
        assert(false);
    } else if vt2.len() < vt1.len() {
        assert(rhs[vt2.len() as int] == '"');
        assert(lhs[vt2.len() as int] == vt1[vt2.len() as int]);
        assert(false);
    } else {
        assert(vt1 + (seq!['"'] + r1) =~= lhs);
        assert(vt2 + (seq!['"'] + r2) =~= rhs);
        lemma_concat_cancel(vt1, seq!['"'] + r1, vt2, seq!['"'] + r2);
        lemma_version_text_injective(v1, v2);
        lemma_concat_cancel(seq!['"'], r1, seq!['"'], r2);
    }
}

/// A metadata object token reads back uniquely.
#[verifier::rlimit(100)]
proof fn lemma_ser_meta_unambiguous(
    m1: LibraryEntryMetaV,
    m2: LibraryEntryMetaV,
    r1: Seq<char>,
    r2: Seq<char>,
)
    requires
        ser_meta(m1) + r1 == ser_meta(m2) + r2,
    ensures
        m1 == m2,
        r1 == r2,
{
    reveal_strlit(",\"month\":");
    let z1 = seq!['}'] + r1;
    let y1 = ser_tags_opt(m1.original_tags) + z1;
    let x1 = ",\"original_tags\":"@ + y1;
    let w1 = ser_month_opt(m1.month) + x1;
    let mv1 = ",\"month\":"@ + w1;
    let u1 = dec_str_of(m1.year as nat) + mv1;
    let t1 = ",\"year\":"@ + u1;
    let s1 = ser_str_array(m1.authors) + t1;
    let q1 = ",\"authors\":"@ + s1;
    let p1 = ser_string(m1.title) + q1;
    let o1 = ",\"title\":"@ + p1;
    let n1 = ser_string(type_label_seq(m1.entry_type)) + o1;
    let l1 = ",\"entry_type\":"@ + n1;
    let a1 = ser_string(m1.key) + l1;
    let g2_1 = "{\"key\":"@ + ser_string(m1.key);
    let g3_1 = g2_1 + ",\"entry_type\":"@;
    let g4_1 = g3_1 + ser_string(type_label_seq(m1.entry_type));
    let g5_1 = g4_1 + ",\"title\":"@;
    let g6_1 = g5_1 + ser_string(m1.title);
    let g7_1 = g6_1 + ",\"authors\":"@;
    let g8_1 = g7_1 + ser_str_array(m1.authors);
    let g9_1 = g8_1 + ",\"year\":"@;
    let g10_1 = g9_1 + dec_str_of(m1.year as nat);
    let g11_1 = g10_1 + ",\"month\":"@;
    let g12_1 = g11_1 + ser_month_opt(m1.month);
    let g13_1 = g12_1 + ",\"original_tags\":"@;
    let g14_1 = g13_1 + ser_tags_opt(m1.original_tags);
    assert(ser_meta(m1) == g14_1 + seq!['}']);
    lemma_assoc(g14_1, seq!['}'], r1);
    lemma_assoc(g13_1, ser_tags_opt(m1.original_tags), z1);
    lemma_assoc(g12_1, ",\"original_tags\":"@, y1);
    lemma_assoc(g11_1, ser_month_opt(m1.month), x1);
    lemma_assoc(g10_1, ",\"month\":"@, w1);
    lemma_assoc(g9_1, dec_str_of(m1.year as nat), mv1);
    lemma_assoc(g8_1, ",\"year\":"@, u1);
    lemma_assoc(g7_1, ser_str_array(m1.authors), t1);
    lemma_assoc(g6_1, ",\"authors\":"@, s1);
    lemma_assoc(g5_1, ser_string(m1.title), q1);
    lemma_assoc(g4_1, ",\"title\":"@, p1);
    lemma_assoc(g3_1, ser_string(type_label_seq(m1.entry_type)), o1);
    lemma_assoc(g2_1, ",\"entry_type\":"@, n1);
    lemma_assoc("{\"key\":"@, ser_string(m1.key), l1);
    assert(ser_meta(m1) + r1 == "{\"key\":"@ + a1);
    let z2 = seq!['}'] + r2;
    let y2 = ser_tags_opt(m2.original_tags) + z2;
    let x2 = ",\"original_tags\":"@ + y2;
    let w2 = ser_month_opt(m2.month) + x2;
    let mv2 = ",\"month\":"@ + w2;
    let u2 = dec_str_of(m2.year as nat) + mv2;
    let t2 = ",\"year\":"@ + u2;
    let s2 = ser_str_array(m2.authors) + t2;
    let q2 = ",\"authors\":"@ + s2;
    let p2 = ser_string(m2.title) + q2;
    let o2 = ",\"title\":"@ + p2;
    let n2 = ser_string(type_label_seq(m2.entry_type)) + o2;
    let l2 = ",\"entry_type\":"@ + n2;
    let a2 = ser_string(m2.key) + l2;
    let g2_2 = "{\"key\":"@ + ser_string(m2.key);
    let g3_2 = g2_2 + ",\"entry_type\":"@;
    let g4_2 = g3_2 + ser_string(type_label_seq(m2.entry_type));
    let g5_2 = g4_2 + ",\"title\":"@;
    let g6_2 = g5_2 + ser_string(m2.title);
    let g7_2 = g6_2 + ",\"authors\":"@;
    let g8_2 = g7_2 + ser_str_array(m2.authors);
    let g9_2 = g8_2 + ",\"year\":"@;
    let g10_2 = g9_2 + dec_str_of(m2.year as nat);
    let g11_2 = g10_2 + ",\"month\":"@;
    let g12_2 = g11_2 + ser_month_opt(m2.month);
    let g13_2 = g12_2 + ",\"original_tags\":"@;
    let g14_2 = g13_2 + ser_tags_opt(m2.original_tags);
    assert(ser_meta(m2) == g14_2 + seq!['}']);
    lemma_assoc(g14_2, seq!['}'], r2);
    lemma_assoc(g13_2, ser_tags_opt(m2.original_tags), z2);
    lemma_assoc(g12_2, ",\"original_tags\":"@, y2);
    lemma_assoc(g11_2, ser_month_opt(m2.month), x2);
    lemma_assoc(g10_2, ",\"month\":"@, w2);
    lemma_assoc(g9_2, dec_str_of(m2.year as nat), mv2);
    lemma_assoc(g8_2, ",\"year\":"@, u2);
    lemma_assoc(g7_2, ser_str_array(m2.authors), t2);
    lemma_assoc(g6_2, ",\"authors\":"@, s2);
    lemma_assoc(g5_2, ser_string(m2.title), q2);
    lemma_assoc(g4_2, ",\"title\":"@, p2);
    lemma_assoc(g3_2, ser_string(type_label_seq(m2.entry_type)), o2);
    lemma_assoc(g2_2, ",\"entry_type\":"@, n2);
    lemma_assoc("{\"key\":"@, ser_string(m2.key), l2);
    assert(ser_meta(m2) + r2 == "{\"key\":"@ + a2);
    lemma_concat_cancel("{\"key\":"@, a1, "{\"key\":"@, a2);
    lemma_ser_string_unambiguous(m1.key, m2.key, l1, l2);
    lemma_concat_cancel(",\"entry_type\":"@, n1, ",\"entry_type\":"@, n2);
    lemma_ser_string_unambiguous(
        type_label_seq(m1.entry_type),
        type_label_seq(m2.entry_type),
        o1,
        o2,
    );
    lemma_type_label_injective(m1.entry_type, m2.entry_type);
    lemma_concat_cancel(",\"title\":"@, p1, ",\"title\":"@, p2);
    lemma_ser_string_unambiguous(m1.title, m2.title, q1, q2);
    lemma_concat_cancel(",\"authors\":"@, s1, ",\"authors\":"@, s2);
    lemma_ser_str_array_unambiguous(m1.authors, m2.authors, t1, t2);
    lemma_concat_cancel(",\"year\":"@, u1, ",\"year\":"@, u2);
    assert(mv1[0] == ',' && mv2[0] == ',');
    assert(!crate::strutil::is_dec_digit(','));
    crate::strutil::lemma_dec_unambiguous(m1.year as nat, m2.year as nat, mv1, mv2);
    assert(m1.year == m2.year);
    lemma_concat_cancel(",\"month\":"@, w1, ",\"month\":"@, w2);
    lemma_month_opt_unambiguous(m1.month, m2.month, x1, x2);
    lemma_concat_cancel(",\"original_tags\":"@, y1, ",\"original_tags\":"@, y2);
    lemma_tags_opt_unambiguous(m1.original_tags, m2.original_tags, z1, z2);
    lemma_concat_cancel(seq!['}'], r1, seq!['}'], r2);
}

proof fn lemma_ser_meta_shape(m: LibraryEntryMetaV)
    ensures
        ser_meta(m).len() >= 1,
        ser_meta(m)[0] == '{',
{
    reveal_strlit("{\"key\":");
    assert(ser_meta(m)[0] == "{\"key\":"@[0]);
}

/// A stored-entry object token reads back uniquely.
#[verifier::rlimit(100)]
proof fn lemma_ser_entry_unambiguous(
    e1: LibraryEntryV,
    e2: LibraryEntryV,
    r1: Seq<char>,
    r2: Seq<char>,
)
    requires
        ser_entry(e1) + r1 == ser_entry(e2) + r2,
    ensures
        e1 == e2,
        r1 == r2,
{
    reveal_strlit("\"}");
    assert("\"}"@ =~= seq!['"'] + seq!['}']);
    let z1 = seq!['"'] + (seq!['}'] + r1);
    let y1 = hex_of(e1.digest) + z1;
    let x1 = ",\"digest\":\""@ + y1;
    let w1 = ser_str_array(e1.file_paths) + x1;
    let u1 = ",\"file_paths\":"@ + w1;
    let t1 = ser_str_array(e1.tags) + u1;
    let s1 = ",\"tags\":"@ + t1;
    let q1 = ser_meta(e1.meta) + s1;
    let g2_1 = "{\"meta\":"@ + ser_meta(e1.meta);
    let g3_1 = g2_1 + ",\"tags\":"@;
    let g4_1 = g3_1 + ser_str_array(e1.tags);
    let g5_1 = g4_1 + ",\"file_paths\":"@;
    let g6_1 = g5_1 + ser_str_array(e1.file_paths);
    let g7_1 = g6_1 + ",\"digest\":\""@;
    let g8_1 = g7_1 + hex_of(e1.digest);
    assert(ser_entry(e1) == g8_1 + "\"}"@);
    lemma_assoc(g8_1, "\"}"@, r1);
    lemma_assoc(seq!['"'], seq!['}'], r1);
    assert("\"}"@ + r1 =~= z1);
    lemma_assoc(g7_1, hex_of(e1.digest), z1);
    lemma_assoc(g6_1, ",\"digest\":\""@, y1);
    lemma_assoc(g5_1, ser_str_array(e1.file_paths), x1);
    lemma_assoc(g4_1, ",\"file_paths\":"@, w1);
    lemma_assoc(g3_1, ser_str_array(e1.tags), u1);
    lemma_assoc(g2_1, ",\"tags\":"@, t1);
    lemma_assoc("{\"meta\":"@, ser_meta(e1.meta), s1);
    assert(ser_entry(e1) + r1 == "{\"meta\":"@ + q1);
    let z2 = seq!['"'] + (seq!['}'] + r2);
    let y2 = hex_of(e2.digest) + z2;
    let x2 = ",\"digest\":\""@ + y2;
    let w2 = ser_str_array(e2.file_paths) + x2;
    let u2 = ",\"file_paths\":"@ + w2;
    let t2 = ser_str_array(e2.tags) + u2;
    let s2 = ",\"tags\":"@ + t2;
    let q2 = ser_meta(e2.meta) + s2;
    let g2_2 = "{\"meta\":"@ + ser_meta(e2.meta);
    let g3_2 = g2_2 + ",\"tags\":"@;
    let g4_2 = g3_2 + ser_str_array(e2.tags);
    let g5_2 = g4_2 + ",\"file_paths\":"@;
    let g6_2 = g5_2 + ser_str_array(e2.file_paths);
    let g7_2 = g6_2 + ",\"digest\":\""@;
    let g8_2 = g7_2 + hex_of(e2.digest);
    assert(ser_entry(e2) == g8_2 + "\"}"@);
    lemma_assoc(g8_2, "\"}"@, r2);
    lemma_assoc(seq!['"'], seq!['}'], r2);
    assert("\"}"@ + r2 =~= z2);
    lemma_assoc(g7_2, hex_of(e2.digest), z2);
    lemma_assoc(g6_2, ",\"digest\":\""@, y2);
    lemma_assoc(g5_2, ser_str_array(e2.file_paths), x2);
    lemma_assoc(g4_2, ",\"file_paths\":"@, w2);
    lemma_assoc(g3_2, ser_str_array(e2.tags), u2);
    lemma_assoc(g2_2, ",\"tags\":"@, t2);
    lemma_assoc("{\"meta\":"@, ser_meta(e2.meta), s2);
    assert(ser_entry(e2) + r2 == "{\"meta\":"@ + q2);
    lemma_concat_cancel("{\"meta\":"@, q1, "{\"meta\":"@, q2);
    lemma_ser_meta_unambiguous(e1.meta, e2.meta, s1, s2);
    lemma_concat_cancel(",\"tags\":"@, t1, ",\"tags\":"@, t2);
    lemma_ser_str_array_unambiguous(e1.tags, e2.tags, u1, u2);
    lemma_concat_cancel(",\"file_paths\":"@, w1, ",\"file_paths\":"@, w2);
    lemma_ser_str_array_unambiguous(e1.file_paths, e2.file_paths, x1, x2);
    lemma_concat_cancel(",\"digest\":\""@, y1, ",\"digest\":\""@, y2);
    assert(hex_of(e1.digest) + seq!['"'] + (seq!['}'] + r1) =~= y1);
    assert(hex_of(e2.digest) + seq!['"'] + (seq!['}'] + r2) =~= y2);
    lemma_hex_unambiguous(e1.digest, e2.digest, seq!['}'] + r1, seq!['}'] + r2);
    lemma_concat_cancel(seq!['}'], r1, seq!['}'], r2);
}

proof fn lemma_ser_entry_shape(e: LibraryEntryV)
    ensures
        ser_entry(e).len() >= 1,
        ser_entry(e)[0] == '{',
{
    reveal_strlit("{\"meta\":");
    assert(ser_entry(e)[0] == "{\"meta\":"@[0]);
}

/// A comma-joined list of entry objects closed by `]` reads back uniquely.
#[verifier::rlimit(100)]
proof fn lemma_entry_items_unambiguous(
    xs: Seq<LibraryEntryV>,
    ys: Seq<LibraryEntryV>,
    r1: Seq<char>,
    r2: Seq<char>,
)
    requires
        ser_entries(xs) + seq![']'] + r1 == ser_entries(ys) + seq![']'] + r2,
    ensures
        xs == ys,
        r1 == r2,
    decreases xs.len(),
{
    let mx = xs.map_values(|e: LibraryEntryV| ser_entry(e));
    let my = ys.map_values(|e: LibraryEntryV| ser_entry(e));
    let lhs = joined(mx, seq![',']) + seq![']'] + r1;
    let rhs = joined(my, seq![',']) + seq![']'] + r2;
    if xs.len() == 0 && ys.len() == 0 {
        assert(joined(mx, seq![',']).len() == 0);
        assert(r1 =~= lhs.skip(1));
        assert(r2 =~= rhs.skip(1));
        assert(xs =~= ys);
    } else if xs.len() == 0 {
        lemma_ser_entry_shape(ys[0]);
        assert(lhs[0] == ']');
        if my.len() == 1 {
            assert(joined(my, seq![',']) == my[0]);
        } else {
            assert(joined(my, seq![',']) == my[0] + seq![','] + joined(my.skip(1), seq![',']));
        }
        assert(rhs[0] == my[0][0]);
        assert(my[0] == ser_entry(ys[0]));
        assert(false);
    } else if ys.len() == 0 {
        lemma_ser_entry_shape(xs[0]);
        assert(rhs[0] == ']');
        if mx.len() == 1 {
            assert(joined(mx, seq![',']) == mx[0]);
        } else {
            assert(joined(mx, seq![',']) == mx[0] + seq![','] + joined(mx.skip(1), seq![',']));
        }
        assert(lhs[0] == mx[0][0]);
        assert(mx[0] == ser_entry(xs[0]));
        assert(false);
    } else {
        let jx = joined(mx.skip(1), seq![',']);
        let jy = joined(my.skip(1), seq![',']);
        let rest1: Seq<char> = if xs.len() == 1 {
            seq![']'] + r1
        } else {
            seq![','] + (jx + (seq![']'] + r1))
        };
        let rest2: Seq<char> = if ys.len() == 1 {
            seq![']'] + r2
        } else {
            seq![','] + (jy + (seq![']'] + r2))
        };
        assert(mx[0] == ser_entry(xs[0]));
        assert(my[0] == ser_entry(ys[0]));
        if xs.len() == 1 {
            assert(joined(mx, seq![',']) == mx[0]);
            lemma_assoc(mx[0], seq![']'], r1);
            assert(lhs == ser_entry(xs[0]) + rest1);
        } else {
            assert(joined(mx, seq![',']) == mx[0] + seq![','] + jx);
            lemma_assoc(joined(mx, seq![',']), seq![']'], r1);
            lemma_assoc(mx[0] + seq![','], jx, seq![']'] + r1);
            lemma_assoc(mx[0], seq![','], jx + (seq![']'] + r1));
            assert(lhs == ser_entry(xs[0]) + rest1);
        }
        if ys.len() == 1 {
            assert(joined(my, seq![',']) == my[0]);
            lemma_assoc(my[0], seq![']'], r2);
            assert(rhs == ser_entry(ys[0]) + rest2);
        } else {
            assert(joined(my, seq![',']) == my[0] + seq![','] + jy);
            lemma_assoc(joined(my, seq![',']), seq![']'], r2);
            lemma_assoc(my[0] + seq![','], jy, seq![']'] + r2);
            lemma_assoc(my[0], seq![','], jy + (seq![']'] + r2));
            assert(rhs == ser_entry(ys[0]) + rest2);
        }
        lemma_ser_entry_unambiguous(xs[0], ys[0], rest1, rest2);
        if xs.len() == 1 && ys.len() == 1 {
            lemma_concat_cancel(seq![']'], r1, seq![']'], r2);
            assert(xs =~= ys);
        } else if xs.len() == 1 {
            assert(rest1[0] == ']' && rest2[0] == ',');
            assert(false);
        } else if ys.len() == 1 {
            assert(rest1[0] == ',' && rest2[0] == ']');
            assert(false);
        } else {
            lemma_concat_cancel(
                seq![','],
                jx + (seq![']'] + r1),
                seq![','],
                jy + (seq![']'] + r2),
            );
            assert(mx.skip(1) =~= xs.skip(1).map_values(|e: LibraryEntryV| ser_entry(e)));
            assert(my.skip(1) =~= ys.skip(1).map_values(|e: LibraryEntryV| ser_entry(e)));
            lemma_assoc(jx, seq![']'], r1);
            lemma_assoc(jy, seq![']'], r2);
            assert(ser_entries(xs.skip(1)) + seq![']'] + r1 == jx + (seq![']'] + r1));
            assert(ser_entries(ys.skip(1)) + seq![']'] + r2 == jy + (seq![']'] + r2));
            lemma_entry_items_unambiguous(xs.skip(1), ys.skip(1), r1, r2);
            assert(xs =~= seq![xs[0]] + xs.skip(1));
            assert(ys =~= seq![ys[0]] + ys.skip(1));
        }
    }
}

/// Two libraries that persist to the same document are the same library:
/// the persisted format determines the version and every entry field. With
/// `store`'s and `load`'s contracts this closes the round trip: a
/// successful load of a stored library reproduces every field exactly,
/// digest bytes and tag lists included, in the original order.
#[verifier::rlimit(100)]
pub proof fn lemma_ser_library_injective(
    v1: VersionSpec,
    e1: Seq<LibraryEntryV>,
    v2: VersionSpec,
    e2: Seq<LibraryEntryV>,
)
    requires
        ser_library(v1, e1) == ser_library(v2, e2),
    ensures
        v1 == v2,
        e1 == e2,
{
    reveal_strlit("\",\"entries\":[");
    reveal_strlit("]}");
    let tail3 = "\",\"entries\":["@.skip(1);
    assert("\",\"entries\":["@ =~= seq!['"'] + tail3);
    assert("]}"@ =~= seq![']'] + seq!['}']);
    let fin1 = seq![']'] + (seq!['}'] + Seq::<char>::empty());
    let fin2 = seq![']'] + (seq!['}'] + Seq::<char>::empty());
    let c1 = ser_entries(e1) + fin1;
    let c2 = ser_entries(e2) + fin2;
    let b1 = tail3 + c1;
    let b2 = tail3 + c2;
    let a1 = version_text_of(v1) + (seq!['"'] + b1);
    let a2 = version_text_of(v2) + (seq!['"'] + b2);
    let g2_1 = "{\"creation_version\":\""@ + version_text_of(v1);
    let g3_1 = g2_1 + "\",\"entries\":["@;
    let g4_1 = g3_1 + ser_entries(e1);
    assert(ser_library(v1, e1) == g4_1 + "]}"@);
    lemma_assoc(seq![']'], seq!['}'], Seq::<char>::empty());
    assert(seq!['}'] + Seq::<char>::empty() =~= seq!['}']);
    assert("]}"@ =~= fin1);
    lemma_assoc(g3_1, ser_entries(e1), fin1);
    assert(g4_1 + "]}"@ == g3_1 + c1);
    lemma_assoc(tail3, c1, Seq::<char>::empty());
    assert(tail3 + c1 =~= b1);
    lemma_assoc(g2_1, seq!['"'], b1);
    assert(g2_1 + "\",\"entries\":["@ + c1 =~= (g2_1 + seq!['"']) + (tail3 + c1)) by {
        assert(g2_1 + "\",\"entries\":["@ =~= (g2_1 + seq!['"']) + tail3);
        lemma_assoc(g2_1 + seq!['"'], tail3, c1);
    }
    assert(g3_1 + c1 == (g2_1 + seq!['"']) + (tail3 + c1));
    lemma_assoc("{\"creation_version\":\""@, version_text_of(v1), seq!['"'] + b1);
    assert((g2_1 + seq!['"']) + b1 == g2_1 + (seq!['"'] + b1)) by {
        lemma_assoc(g2_1, seq!['"'], b1);
    }
    assert(ser_library(v1, e1) == "{\"creation_version\":\""@ + a1);
    let g2_2 = "{\"creation_version\":\""@ + version_text_of(v2);
    let g3_2 = g2_2 + "\",\"entries\":["@;
    let g4_2 = g3_2 + ser_entries(e2);
    assert(ser_library(v2, e2) == g4_2 + "]}"@);
    assert("]}"@ =~= fin2);
    lemma_assoc(g3_2, ser_entries(e2), fin2);
    assert(g4_2 + "]}"@ == g3_2 + c2);
    assert(g3_2 + c2 == (g2_2 + seq!['"']) + (tail3 + c2)) by {
        assert(g2_2 + "\",\"entries\":["@ =~= (g2_2 + seq!['"']) + tail3);
        lemma_assoc(g2_2 + seq!['"'], tail3, c2);
    }
    assert(tail3 + c2 =~= b2);
    assert((g2_2 + seq!['"']) + b2 == g2_2 + (seq!['"'] + b2)) by {
        lemma_assoc(g2_2, seq!['"'], b2);
    }
    lemma_assoc("{\"creation_version\":\""@, version_text_of(v2), seq!['"'] + b2);
    assert(ser_library(v2, e2) == "{\"creation_version\":\""@ + a2);
    lemma_concat_cancel("{\"creation_version\":\""@, a1, "{\"creation_version\":\""@, a2);
    assert(version_text_of(v1) + seq!['"'] + b1 == a1) by {
        lemma_assoc(version_text_of(v1), seq!['"'], b1);
    }
    assert(version_text_of(v2) + seq!['"'] + b2 == a2) by {
        lemma_assoc(version_text_of(v2), seq!['"'], b2);
    }
    lemma_version_unambiguous(v1, v2, b1, b2);
    lemma_concat_cancel(tail3, c1, tail3, c2);
    assert(ser_entries(e1) + seq![']'] + (seq!['}'] + Seq::<char>::empty()) == c1) by {
        lemma_assoc(ser_entries(e1), seq![']'], seq!['}'] + Seq::<char>::empty());
    }
    assert(ser_entries(e2) + seq![']'] + (seq!['}'] + Seq::<char>::empty()) == c2) by {
        lemma_assoc(ser_entries(e2), seq![']'], seq!['}'] + Seq::<char>::empty());
    }
    lemma_entry_items_unambiguous(
        e1,
        e2,
        seq!['}'] + Seq::<char>::empty(),
        seq!['}'] + Seq::<char>::empty(),
    );
}

/// Whether the text continues with `p` at position `i`.
pub open spec fn text_continues(s: Seq<char>, i: int, p: Seq<char>) -> bool {
    0 <= i && i + p.len() <= s.len() && s.subrange(i, i + p.len()) == p
}

proof fn lemma_continues_split(s: Seq<char>, i: int, x: Seq<char>, y: Seq<char>)
    requires
        text_continues(s, i, x + y),
    ensures
        text_continues(s, i, x),
        text_continues(s, i + x.len(), y),
{
    assert(s.subrange(i, i + x.len()) =~= (x + y).subrange(0, x.len() as int));
    assert(s.subrange(i + x.len(), i + x.len() + y.len()) =~= (x + y).subrange(
        x.len() as int,
        (x + y).len() as int,
    ));
    assert((x + y).subrange(0, x.len() as int) =~= x);
    assert((x + y).subrange(x.len() as int, (x + y).len() as int) =~= y);
}

proof fn lemma_continues_join(s: Seq<char>, i: int, x: Seq<char>, y: Seq<char>)
    requires
        text_continues(s, i, x),
        text_continues(s, i + x.len(), y),
    ensures
        text_continues(s, i, x + y),
{
    assert(s.subrange(i, i + x.len() + y.len()) =~= x + y);
}

proof fn lemma_continues_index(s: Seq<char>, i: int, p: Seq<char>, k: int)
    requires
        text_continues(s, i, p),
        0 <= k < p.len(),
    ensures
        s[i + k] == p[k],
{
    assert(s.subrange(i, i + p.len())[k] == s[i + k]);
}

/// Escaping changes nothing in a text without quotes, backslashes or
/// control characters.
proof fn lemma_escape_plain(s: Seq<char>)
    requires
        forall|i: int|
            0 <= i < s.len() ==> (#[trigger] s[i]) != '"' && s[i] != '\\' && (s[i] as u32) >= 32,
    ensures
        escape_str(s) == s,
    decreases s.len(),
{
    if s.len() > 0 {
        lemma_escape_plain(s.drop_last());
        assert(escape_char(s.last()) == seq![s.last()]);
        assert(escape_str(s) =~= s);
    }
}

proof fn lemma_escape_take_snoc(t: Seq<char>, k: int)
    requires
        0 <= k < t.len(),
    ensures
        escape_str(t.take(k + 1)) == escape_str(t.take(k)) + escape_char(t[k]),
{
    assert(t.take(k + 1).drop_last() =~= t.take(k));
    assert(t.take(k + 1).last() == t[k]);
}

proof fn lemma_hex_head(x: Seq<u8>)
    requires
        x.len() > 0,
    ensures
        hex_of(x) == seq![
            hex_digit_char((x[0] / 16) as nat),
            hex_digit_char((x[0] % 16) as nat),
        ] + hex_of(x.skip(1)),
    decreases x.len(),
{
    if x.len() == 1 {
        assert(x.drop_last() =~= Seq::<u8>::empty());
        assert(x.skip(1) =~= Seq::<u8>::empty());
        assert(hex_of(x) =~= seq![
            hex_digit_char((x[0] / 16) as nat),
            hex_digit_char((x[0] % 16) as nat),
        ] + hex_of(x.skip(1)));
    } else {
        let t = x.drop_last();
        lemma_hex_head(t);
        assert(t[0] == x[0]);
        assert(t.skip(1) =~= x.skip(1).drop_last());
        assert(x.skip(1).last() == x.last());
        assert(hex_of(x.skip(1)) == hex_of(x.skip(1).drop_last()) + seq![
            hex_digit_char((x.last() / 16) as nat),
            hex_digit_char((x.last() % 16) as nat),
        ]);
        assert(hex_of(x) =~= seq![
            hex_digit_char((x[0] / 16) as nat),
            hex_digit_char((x[0] % 16) as nat),
        ] + hex_of(x.skip(1)));
    }
}

/// A hexadecimal digit in either case.
pub open spec fn hex_val_any_spec(c: char) -> Option<u32> {
    if c == '0' {
        Some(0)
    } else if c == '1' {
        Some(1)
    } else if c == '2' {
        Some(2)
    } else if c == '3' {
        Some(3)
    } else if c == '4' {
        Some(4)
    } else if c == '5' {
        Some(5)
    } else if c == '6' {
        Some(6)
    } else if c == '7' {
        Some(7)
    } else if c == '8' {
        Some(8)
    } else if c == '9' {
        Some(9)
    } else if c == 'a' || c == 'A' {
        Some(10)
    } else if c == 'b' || c == 'B' {
        Some(11)
    } else if c == 'c' || c == 'C' {
        Some(12)
    } else if c == 'd' || c == 'D' {
        Some(13)
    } else if c == 'e' || c == 'E' {
        Some(14)
    } else if c == 'f' || c == 'F' {
        Some(15)
    } else {
        None
    }
}

fn hex_val_any(c: char) -> (r: Option<u32>)
    ensures
        r == hex_val_any_spec(c),
        r is Some ==> r.unwrap() < 16,
{
    match c {
        '0' => Some(0),
        '1' => Some(1),
        '2' => Some(2),
        '3' => Some(3),
        '4' => Some(4),
        '5' => Some(5),
        '6' => Some(6),
        '7' => Some(7),
        '8' => Some(8),
        '9' => Some(9),
        'a' | 'A' => Some(10),
        'b' | 'B' => Some(11),
        'c' | 'C' => Some(12),
        'd' | 'D' => Some(13),
        'e' | 'E' => Some(14),
        'f' | 'F' => Some(15),
        _ => None,
    }
}

/// The whitespace that is insignificant between the document's tokens.
pub open spec fn is_json_ws(c: char) -> bool {
    c == ' ' || c == '\t' || c == '\n' || c == '\r'
}

/// Whether a backslash at the head of `s` (inside a string) starts one of
/// the accepted escape forms, and the character it denotes.
pub open spec fn short_escape_char(e: char) -> Option<char> {
    if e == 'n' {
        Some('\n')
    } else if e == 't' {
        Some('\t')
    } else if e == 'r' {
        Some('\r')
    } else if e == 'b' {
        Some('\u{8}')
    } else if e == 'f' {
        Some('\u{c}')
    } else {
        None
    }
}

/// One pass over the document that brings it to the canonical form the
/// parser reads: whitespace between tokens is dropped, and the escapes a
/// JSON writer may use inside strings — `\"`, `\\`, `\/`, `\n`, `\t`,
/// `\r`, `\b`, `\f`, and `\u00XX` in either hex case — are rewritten to
/// this crate's canonical escape of the same character. Everything else is
/// copied unchanged.
pub open spec fn norm_run(s: Seq<char>, in_str: bool) -> Seq<char>
    decreases s.len(),
{
    if s.len() == 0 {
        Seq::empty()
    } else if !in_str {
        if is_json_ws(s[0]) {
            norm_run(s.skip(1), false)
        } else if s[0] == '"' {
            seq!['"'] + norm_run(s.skip(1), true)
        } else {
            seq![s[0]] + norm_run(s.skip(1), false)
        }
    } else {
        if s[0] == '"' {
            seq!['"'] + norm_run(s.skip(1), false)
        } else if s[0] == '\\' && s.len() >= 2 {
            let e = s[1];
            if e == '"' || e == '\\' {
                seq!['\\', e] + norm_run(s.skip(2), true)
            } else if e == '/' {
                seq!['/'] + norm_run(s.skip(2), true)
            } else if short_escape_char(e) is Some {
                escape_char(short_escape_char(e).unwrap()) + norm_run(s.skip(2), true)
            } else if e == 'u' && s.len() >= 6 && hex_val_any_spec(s[2]) == Some(0u32)
                && hex_val_any_spec(s[3]) == Some(0u32) && hex_val_any_spec(s[4]) is Some
                && hex_val_any_spec(s[5]) is Some {
                escape_char(
                    (((hex_val_any_spec(s[4]).unwrap() * 16 + hex_val_any_spec(
                        s[5],
                    ).unwrap()) as u8) as char),
                ) + norm_run(s.skip(6), true)
            } else {
                seq![s[0]] + norm_run(s.skip(1), true)
            }
        } else {
            seq![s[0]] + norm_run(s.skip(1), true)
        }
    }
}

/// The canonical form of a document text.
pub open spec fn normalize_spec(s: Seq<char>) -> Seq<char> {
    norm_run(s, false)
}

/// Rewrites a document to its canonical form.
#[verifier::rlimit(100)]
fn normalize_chars(s: &Vec<char>) -> (r: Vec<char>)
    ensures
        r@ == normalize_spec(s@),
{
    let mut out: Vec<char> = Vec::new();
    let mut i: usize = 0;
    let mut in_str: bool = false;
    proof {
        assert(s@.skip(0) =~= s@);
    }
    while i < s.len()
        invariant
            i <= s@.len(),
            normalize_spec(s@) == out@ + norm_run(s@.skip(i as int), in_str),
        decreases s@.len() - i,
    {
        let ghost rem = s@.skip(i as int);
        let c = s[i];
        proof {
            assert(rem[0] == s@[i as int]);
            assert(rem.skip(1) =~= s@.skip(i + 1));
            if rem.len() >= 2 {
                assert(rem[1] == s@[i + 1]);
                assert(rem.skip(2) =~= s@.skip(i + 2));
            }
            if rem.len() >= 6 {
                assert(rem[2] == s@[i + 2]);
                assert(rem[3] == s@[i + 3]);
                assert(rem[4] == s@[i + 4]);
                assert(rem[5] == s@[i + 5]);
                assert(rem.skip(6) =~= s@.skip(i + 6));
            }
        }
        if !in_str {
            if c == ' ' || c == '\t' || c == '\n' || c == '\r' {
                i = i + 1;
            } else if c == '"' {
                out.push('"');
                in_str = true;
                i = i + 1;
            } else {
                out.push(c);
                i = i + 1;
            }
        } else {
            if c == '"' {
                out.push('"');
                in_str = false;
                i = i + 1;
            } else if c == '\\' && s.len() - i >= 2 {
                let e = s[i + 1];
                if e == '"' || e == '\\' {
                    out.push('\\');
                    out.push(e);
                    i = i + 2;
                } else if e == '/' {
                    out.push('/');
                    i = i + 2;
                } else if e == 'n' {
                    push_escaped_char(&mut out, '\n');
                    i = i + 2;
                } else if e == 't' {
                    push_escaped_char(&mut out, '\t');
                    i = i + 2;
                } else if e == 'r' {
                    push_escaped_char(&mut out, '\r');
                    i = i + 2;
                } else if e == 'b' {
                    push_escaped_char(&mut out, '\u{8}');
                    i = i + 2;
                } else if e == 'f' {
                    push_escaped_char(&mut out, '\u{c}');
                    i = i + 2;
                } else if e == 'u' && s.len() - i >= 6 {
                    let h2 = hex_val_any(s[i + 2]);
                    let h3 = hex_val_any(s[i + 3]);
                    let h4 = hex_val_any(s[i + 4]);
                    let h5 = hex_val_any(s[i + 5]);
                    let zz = match (h2, h3) {
                        (Some(a), Some(b)) => a == 0 && b == 0,
                        _ => false,
                    };
                    match (zz, h4, h5) {
                        (true, Some(hi), Some(lo)) => {
                            push_escaped_char(&mut out, ((hi * 16 + lo) as u8) as char);
                            i = i + 6;
                        },
                        _ => {
                            out.push(c);
                            i = i + 1;
                        },
                    }
                } else {
                    out.push(c);
                    i = i + 1;
                }
            } else {
                out.push(c);
                i = i + 1;
            }
        }
        proof {
            assert(normalize_spec(s@) == out@ + norm_run(s@.skip(i as int), in_str));
        }
    }
    proof {
        assert(s@.skip(s@.len() as int) =~= Seq::<char>::empty());
    }
    out
}

proof fn lemma_hex_val_any_of_digit(d: nat)
    requires
        d < 16,
    ensures
        hex_val_any_spec(hex_digit_char(d)) == Some(d as u32),
{
}

/// Normalization copies out-of-string text without whitespace or quotes.
proof fn lemma_norm_plain_out(a: Seq<char>, rest: Seq<char>)
    requires
        forall|i: int| 0 <= i < a.len() ==> !is_json_ws(#[trigger] a[i]) && a[i] != '"',
    ensures
        norm_run(a + rest, false) == a + norm_run(rest, false),
    decreases a.len(),
{
    if a.len() == 0 {
        assert(a + rest =~= rest);
        assert(a + norm_run(rest, false) =~= norm_run(rest, false));
    } else {
        let t = a + rest;
        assert(t[0] == a[0]);
        assert(t.skip(1) =~= a.skip(1) + rest);
        assert(forall|i: int|
            0 <= i < a.skip(1).len() ==> !is_json_ws(#[trigger] a.skip(1)[i]) && a.skip(1)[i]
                != '"');
        lemma_norm_plain_out(a.skip(1), rest);
        assert(norm_run(t, false) == seq![a[0]] + norm_run(t.skip(1), false));
        assert(a + norm_run(rest, false) =~= seq![a[0]] + (a.skip(1) + norm_run(rest, false)));
    }
}

/// Normalization keeps in-string escapes in their canonical form.
proof fn lemma_norm_escape_str(x: Seq<char>, tail: Seq<char>)
    ensures
        norm_run(escape_str(x) + tail, true) == escape_str(x) + norm_run(tail, true),
    decreases x.len(),
{
    if x.len() == 0 {
        assert(escape_str(x) + tail =~= tail);
        assert(escape_str(x) + norm_run(tail, true) =~= norm_run(tail, true));
    } else {
        lemma_escape_head(x);
        lemma_escape_char_shape(x[0]);
        let ec = escape_char(x[0]);
        let t = escape_str(x) + tail;
        let t2 = escape_str(x.skip(1)) + tail;
        assert(t =~= ec + t2);
        lemma_norm_escape_str(x.skip(1), tail);
        if x[0] == '"' {
            assert(t[0] == '\\' && t[1] == '"');
            assert(t.skip(2) =~= t2);
            assert(norm_run(t, true) == seq!['\\', '"'] + norm_run(t2, true));
            assert(escape_str(x) + norm_run(tail, true) =~= seq!['\\', '"'] + (escape_str(
                x.skip(1),
            ) + norm_run(tail, true)));
        } else if x[0] == '\\' {
            assert(t[0] == '\\' && t[1] == '\\');
            assert(t.skip(2) =~= t2);
            assert(norm_run(t, true) == seq!['\\', '\\'] + norm_run(t2, true));
            assert(escape_str(x) + norm_run(tail, true) =~= seq!['\\', '\\'] + (escape_str(
                x.skip(1),
            ) + norm_run(tail, true)));
        } else if (x[0] as u32) < 32 {
            let v = x[0] as u32;
            assert(ec == seq!['\\', 'u', '0', '0', hex_digit_char((v / 16) as nat),
                hex_digit_char((v % 16) as nat)]);
            assert(t.len() >= 6);
            assert(t[0] == '\\' && t[1] == 'u' && t[2] == '0' && t[3] == '0');
            assert(t[4] == hex_digit_char((v / 16) as nat));
            assert(t[5] == hex_digit_char((v % 16) as nat));
            assert(hex_val_any_spec('0') == Some(0u32));
            lemma_hex_val_any_of_digit((v / 16) as nat);
            lemma_hex_val_any_of_digit((v % 16) as nat);
            assert(short_escape_char('u') is None);
            assert((v / 16) * 16 + v % 16 == v) by (nonlinear_arith);
            let c2 = ((((v / 16) * 16 + v % 16) as u8) as char);
            assert(c2 as u32 == v);
            lemma_char_code_injective(c2, x[0]);
            assert(t.skip(6) =~= t2);
            assert(norm_run(t, true) == escape_char(x[0]) + norm_run(t2, true));
            assert(escape_str(x) + norm_run(tail, true) =~= ec + (escape_str(x.skip(1))
                + norm_run(tail, true)));
        } else {
            assert(ec == seq![x[0]]);
            assert(t[0] == x[0]);
            assert(x[0] != '"' && x[0] != '\\');
            assert(t.skip(1) =~= t2);
            assert(norm_run(t, true) == seq![x[0]] + norm_run(t2, true));
            assert(escape_str(x) + norm_run(tail, true) =~= seq![x[0]] + (escape_str(x.skip(1))
                + norm_run(tail, true)));
        }
    }
}

/// Normalization leaves a canonical string token unchanged.
proof fn lemma_norm_ser_string(x: Seq<char>, rest: Seq<char>)
    ensures
        norm_run(ser_string(x) + rest, false) == ser_string(x) + norm_run(rest, false),
{
    let t = ser_string(x) + rest;
    assert(t =~= seq!['"'] + (escape_str(x) + (seq!['"'] + rest)));
    assert(t[0] == '"');
    assert(!is_json_ws('"'));
    assert(t.skip(1) =~= escape_str(x) + (seq!['"'] + rest));
    assert(norm_run(t, false) == seq!['"'] + norm_run(escape_str(x) + (seq!['"'] + rest), true));
    lemma_norm_escape_str(x, seq!['"'] + rest);
    let q = seq!['"'] + rest;
    assert(q[0] == '"');
    assert(q.skip(1) =~= rest);
    assert(norm_run(q, true) == seq!['"'] + norm_run(rest, false));
    assert(ser_string(x) + norm_run(rest, false) =~= seq!['"'] + (escape_str(x) + (seq!['"']
        + norm_run(rest, false))));
}

/// Normalization leaves one canonical field prefix — punctuation, quoted
/// name, colon — unchanged.
proof fn lemma_norm_field(pre: char, name: Seq<char>, rest: Seq<char>)
    requires
        !is_json_ws(pre),
        pre != '"',
    ensures
        norm_run(seq![pre] + (ser_string(name) + (seq![':'] + rest)), false) == seq![pre] + (
        ser_string(name) + (seq![':'] + norm_run(rest, false))),
{
    lemma_norm_plain_out(seq![pre], ser_string(name) + (seq![':'] + rest));
    lemma_norm_ser_string(name, seq![':'] + rest);
    lemma_norm_plain_out(seq![':'], rest);
}

/// The same, said of the one-piece literal the renderer writes.
proof fn lemma_norm_field_lit(lit: Seq<char>, pre: char, name: Seq<char>, rest: Seq<char>)
    requires
        lit == seq![pre] + (ser_string(name) + seq![':']),
        !is_json_ws(pre),
        pre != '"',
    ensures
        norm_run(lit + rest, false) == lit + norm_run(rest, false),
{
    assert(lit + rest =~= seq![pre] + (ser_string(name) + (seq![':'] + rest)));
    lemma_norm_field(pre, name, rest);
    assert(lit + norm_run(rest, false) =~= seq![pre] + (ser_string(name) + (seq![':'] + norm_run(
        rest,
        false,
    ))));
}

/// Normalization leaves a canonical string array unchanged.
proof fn lemma_norm_str_items(xs: Seq<Seq<char>>, tail: Seq<char>)
    ensures
        norm_run(joined(xs.map_values(|x: Seq<char>| ser_string(x)), seq![',']) + tail, false)
            == joined(xs.map_values(|x: Seq<char>| ser_string(x)), seq![',']) + norm_run(
            tail,
            false,
        ),
    decreases xs.len(),
{
    let mx = xs.map_values(|x: Seq<char>| ser_string(x));
    if xs.len() == 0 {
        assert(joined(mx, seq![',']) + tail =~= tail);
        assert(joined(mx, seq![',']) + norm_run(tail, false) =~= norm_run(tail, false));
    } else if xs.len() == 1 {
        assert(joined(mx, seq![',']) == mx[0]);
        assert(mx[0] == ser_string(xs[0]));
        lemma_norm_ser_string(xs[0], tail);
    } else {
        assert(joined(mx, seq![',']) == mx[0] + seq![','] + joined(mx.skip(1), seq![',']));
        assert(mx[0] == ser_string(xs[0]));
        assert(mx.skip(1) =~= xs.skip(1).map_values(|x: Seq<char>| ser_string(x)));
        let jrest = joined(mx.skip(1), seq![',']);
        assert(joined(mx, seq![',']) + tail =~= ser_string(xs[0]) + (seq![','] + (jrest
            + tail)));
        lemma_norm_ser_string(xs[0], seq![','] + (jrest + tail));
        lemma_norm_plain_out(seq![','], jrest + tail);
        lemma_norm_str_items(xs.skip(1), tail);
        assert(joined(mx, seq![',']) + norm_run(tail, false) =~= ser_string(xs[0]) + (seq![',']
            + (jrest + norm_run(tail, false))));
    }
}

proof fn lemma_norm_str_array(xs: Seq<Seq<char>>, rest: Seq<char>)
    ensures
        norm_run(ser_str_array(xs) + rest, false) == ser_str_array(xs) + norm_run(rest, false),
{
    let mx = xs.map_values(|x: Seq<char>| ser_string(x));
    assert(ser_str_array(xs) + rest =~= seq!['['] + (joined(mx, seq![',']) + (seq![']']
        + rest)));
    lemma_norm_plain_out(seq!['['], joined(mx, seq![',']) + (seq![']'] + rest));
    lemma_norm_str_items(xs, seq![']'] + rest);
    lemma_norm_plain_out(seq![']'], rest);
    assert(ser_str_array(xs) + norm_run(rest, false) =~= seq!['['] + (joined(mx, seq![','])
        + (seq![']'] + norm_run(rest, false))));
}

/// Normalization leaves a canonical field-pair object unchanged.
proof fn lemma_norm_tag_items(ps: Seq<(Seq<char>, Seq<char>)>, tail: Seq<char>)
    ensures
        norm_run(
            joined(ps.map_values(|p: (Seq<char>, Seq<char>)| ser_tag_pair(p)), seq![',']) + tail,
            false,
        ) == joined(ps.map_values(|p: (Seq<char>, Seq<char>)| ser_tag_pair(p)), seq![','])
            + norm_run(tail, false),
    decreases ps.len(),
{
    let mp = ps.map_values(|p: (Seq<char>, Seq<char>)| ser_tag_pair(p));
    if ps.len() == 0 {
        assert(joined(mp, seq![',']) + tail =~= tail);
        assert(joined(mp, seq![',']) + norm_run(tail, false) =~= norm_run(tail, false));
    } else {
        let pair_tail: Seq<char> = if ps.len() == 1 {
            tail
        } else {
            seq![','] + (joined(mp.skip(1), seq![',']) + tail)
        };
        if ps.len() == 1 {
            assert(joined(mp, seq![',']) == mp[0]);
        } else {
            assert(joined(mp, seq![',']) == mp[0] + seq![','] + joined(mp.skip(1), seq![',']));
        }
        assert(mp[0] == ser_tag_pair(ps[0]));
        assert(joined(mp, seq![',']) + tail =~= ser_string(ps[0].0) + (seq![':'] + (ser_string(
            ps[0].1,
        ) + pair_tail)));
        lemma_norm_ser_string(ps[0].0, seq![':'] + (ser_string(ps[0].1) + pair_tail));
        lemma_norm_plain_out(seq![':'], ser_string(ps[0].1) + pair_tail);
        lemma_norm_ser_string(ps[0].1, pair_tail);
        if ps.len() == 1 {
            assert(joined(mp, seq![',']) + norm_run(tail, false) =~= ser_string(ps[0].0) + (seq![
                ':'
            ] + (ser_string(ps[0].1) + norm_run(tail, false))));
        } else {
            assert(mp.skip(1) =~= ps.skip(1).map_values(
                |p: (Seq<char>, Seq<char>)| ser_tag_pair(p),
            ));
            let jrest = joined(mp.skip(1), seq![',']);
            lemma_norm_plain_out(seq![','], jrest + tail);
            lemma_norm_tag_items(ps.skip(1), tail);
            assert(joined(mp, seq![',']) + norm_run(tail, false) =~= ser_string(ps[0].0) + (seq![
                ':'
            ] + (ser_string(ps[0].1) + (seq![','] + (jrest + norm_run(tail, false))))));
        }
    }
}

proof fn lemma_norm_tags_opt(t: Option<Seq<(Seq<char>, Seq<char>)>>, rest: Seq<char>)
    ensures
        norm_run(ser_tags_opt(t) + rest, false) == ser_tags_opt(t) + norm_run(rest, false),
{
    reveal_strlit("null");
    match t {
        None => {
            assert(forall|i: int|
                0 <= i < "null"@.len() ==> !is_json_ws(#[trigger] "null"@[i]) && "null"@[i]
                    != '"');
            lemma_norm_plain_out("null"@, rest);
        },
        Some(ps) => {
            let mp = ps.map_values(|p: (Seq<char>, Seq<char>)| ser_tag_pair(p));
            assert(ser_tags_opt(t) + rest =~= seq!['{'] + (joined(mp, seq![',']) + (seq!['}']
                + rest)));
            lemma_norm_plain_out(seq!['{'], joined(mp, seq![',']) + (seq!['}'] + rest));
            lemma_norm_tag_items(ps, seq!['}'] + rest);
            lemma_norm_plain_out(seq!['}'], rest);
            assert(ser_tags_opt(t) + norm_run(rest, false) =~= seq!['{'] + (joined(
                mp,
                seq![','],
            ) + (seq!['}'] + norm_run(rest, false))));
        },
    }
}

proof fn lemma_norm_month_opt(m: Option<Month>, rest: Seq<char>)
    ensures
        norm_run(ser_month_opt(m) + rest, false) == ser_month_opt(m) + norm_run(rest, false),
{
    reveal_strlit("null");
    match m {
        None => {
            assert(forall|i: int|
                0 <= i < "null"@.len() ==> !is_json_ws(#[trigger] "null"@[i]) && "null"@[i]
                    != '"');
            lemma_norm_plain_out("null"@, rest);
        },
        Some(mm) => {
            lemma_norm_ser_string(month_short_seq(mm), rest);
        },
    }
}

proof fn lemma_hex_chars_plain(bytes: Seq<u8>)
    ensures
        forall|i: int|
            0 <= i < hex_of(bytes).len() ==> (#[trigger] hex_of(bytes)[i]) != '"' && hex_of(
                bytes,
            )[i] != '\\' && (hex_of(bytes)[i] as u32) >= 32,
    decreases bytes.len(),
{
    if bytes.len() > 0 {
        lemma_hex_chars_plain(bytes.drop_last());
        let pre = hex_of(bytes.drop_last());
        let pair = seq![
            hex_digit_char((bytes.last() / 16) as nat),
            hex_digit_char((bytes.last() % 16) as nat),
        ];
        assert forall|i: int|
            0 <= i < hex_of(bytes).len() implies (#[trigger] hex_of(bytes)[i]) != '"' && hex_of(
            bytes,
        )[i] != '\\' && (hex_of(bytes)[i] as u32) >= 32 by {
            if i < pre.len() {
                assert(hex_of(bytes)[i] == pre[i]);
            } else {
                assert(hex_of(bytes)[i] == pair[i - pre.len()]);
            }
        }
    }
}

proof fn lemma_dec_chars_plain(n: nat)
    ensures
        forall|i: int|
            0 <= i < dec_str_of(n).len() ==> !is_json_ws(#[trigger] dec_str_of(n)[i])
                && dec_str_of(n)[i] != '"',
{
    crate::strutil::lemma_dec_str_digits(n);
    assert forall|i: int|
        0 <= i < dec_str_of(n).len() implies !is_json_ws(#[trigger] dec_str_of(n)[i])
        && dec_str_of(n)[i] != '"' by {
        assert(crate::strutil::is_dec_digit(dec_str_of(n)[i]));
    }
}

/// Normalization leaves a canonical metadata object unchanged.
#[verifier::rlimit(100)]
proof fn lemma_norm_meta(m: LibraryEntryMetaV, rest: Seq<char>)
    ensures
        norm_run(ser_meta(m) + rest, false) == ser_meta(m) + norm_run(rest, false),
{
    reveal_strlit("{\"key\":");
    reveal_strlit("key");
    reveal_strlit(",\"entry_type\":");
    reveal_strlit("entry_type");
    reveal_strlit(",\"title\":");
    reveal_strlit("title");
    reveal_strlit(",\"authors\":");
    reveal_strlit("authors");
    reveal_strlit(",\"year\":");
    reveal_strlit("year");
    reveal_strlit(",\"month\":");
    reveal_strlit("month");
    reveal_strlit(",\"original_tags\":");
    reveal_strlit("original_tags");
    lemma_escape_plain("key"@);
    lemma_escape_plain("entry_type"@);
    lemma_escape_plain("title"@);
    lemma_escape_plain("authors"@);
    lemma_escape_plain("year"@);
    lemma_escape_plain("month"@);
    lemma_escape_plain("original_tags"@);
    assert("{\"key\":"@ =~= seq!['{'] + (ser_string("key"@) + seq![':']));
    assert(",\"entry_type\":"@ =~= seq![','] + (ser_string("entry_type"@) + seq![':']));
    assert(",\"title\":"@ =~= seq![','] + (ser_string("title"@) + seq![':']));
    assert(",\"authors\":"@ =~= seq![','] + (ser_string("authors"@) + seq![':']));
    assert(",\"year\":"@ =~= seq![','] + (ser_string("year"@) + seq![':']));
    assert(",\"month\":"@ =~= seq![','] + (ser_string("month"@) + seq![':']));
    assert(",\"original_tags\":"@ =~= seq![','] + (ser_string("original_tags"@) + seq![':']));
    let dec = dec_str_of(m.year as nat);
    let z1 = seq!['}'] + rest;
    let y1 = ser_tags_opt(m.original_tags) + z1;
    let x1 = ",\"original_tags\":"@ + y1;
    let w1 = ser_month_opt(m.month) + x1;
    let n1 = ",\"month\":"@ + w1;
    let u1 = dec + n1;
    let t1 = ",\"year\":"@ + u1;
    let s1 = ser_str_array(m.authors) + t1;
    let q1 = ",\"authors\":"@ + s1;
    let p1 = ser_string(m.title) + q1;
    let o1 = ",\"title\":"@ + p1;
    let m1 = ser_string(type_label_seq(m.entry_type)) + o1;
    let l1 = ",\"entry_type\":"@ + m1;
    let a1 = ser_string(m.key) + l1;
    let g2 = "{\"key\":"@ + ser_string(m.key);
    let g3 = g2 + ",\"entry_type\":"@;
    let g4 = g3 + ser_string(type_label_seq(m.entry_type));
    let g5 = g4 + ",\"title\":"@;
    let g6 = g5 + ser_string(m.title);
    let g7 = g6 + ",\"authors\":"@;
    let g8 = g7 + ser_str_array(m.authors);
    let g9 = g8 + ",\"year\":"@;
    let g10 = g9 + dec;
    let g11 = g10 + ",\"month\":"@;
    let g12 = g11 + ser_month_opt(m.month);
    let g13 = g12 + ",\"original_tags\":"@;
    let g14 = g13 + ser_tags_opt(m.original_tags);
    assert(ser_meta(m) == g14 + seq!['}']);
    lemma_assoc(g14, seq!['}'], rest);
    lemma_assoc(g13, ser_tags_opt(m.original_tags), z1);
    lemma_assoc(g12, ",\"original_tags\":"@, y1);
    lemma_assoc(g11, ser_month_opt(m.month), x1);
    lemma_assoc(g10, ",\"month\":"@, w1);
    lemma_assoc(g9, dec, n1);
    lemma_assoc(g8, ",\"year\":"@, u1);
    lemma_assoc(g7, ser_str_array(m.authors), t1);
    lemma_assoc(g6, ",\"authors\":"@, s1);
    lemma_assoc(g5, ser_string(m.title), q1);
    lemma_assoc(g4, ",\"title\":"@, p1);
    lemma_assoc(g3, ser_string(type_label_seq(m.entry_type)), o1);
    lemma_assoc(g2, ",\"entry_type\":"@, m1);
    lemma_assoc("{\"key\":"@, ser_string(m.key), l1);
    assert(ser_meta(m) + rest == "{\"key\":"@ + a1);
    lemma_norm_field_lit("{\"key\":"@, '{', "key"@, a1);
    lemma_norm_ser_string(m.key, l1);
    lemma_norm_field_lit(",\"entry_type\":"@, ',', "entry_type"@, m1);
    lemma_norm_ser_string(type_label_seq(m.entry_type), o1);
    lemma_norm_field_lit(",\"title\":"@, ',', "title"@, p1);
    lemma_norm_ser_string(m.title, q1);
    lemma_norm_field_lit(",\"authors\":"@, ',', "authors"@, s1);
    lemma_norm_str_array(m.authors, t1);
    lemma_norm_field_lit(",\"year\":"@, ',', "year"@, u1);
    lemma_dec_chars_plain(m.year as nat);
    lemma_norm_plain_out(dec, n1);
    lemma_norm_field_lit(",\"month\":"@, ',', "month"@, w1);
    lemma_norm_month_opt(m.month, x1);
    lemma_norm_field_lit(",\"original_tags\":"@, ',', "original_tags"@, y1);
    lemma_norm_tags_opt(m.original_tags, z1);
    lemma_norm_plain_out(seq!['}'], rest);
    let zn = seq!['}'] + norm_run(rest, false);
    let yn = ser_tags_opt(m.original_tags) + zn;
    let xn = ",\"original_tags\":"@ + yn;
    let wn = ser_month_opt(m.month) + xn;
    let nn = ",\"month\":"@ + wn;
    let un = dec + nn;
    let tn = ",\"year\":"@ + un;
    let sn = ser_str_array(m.authors) + tn;
    let qn = ",\"authors\":"@ + sn;
    let pn = ser_string(m.title) + qn;
    let on = ",\"title\":"@ + pn;
    let mn = ser_string(type_label_seq(m.entry_type)) + on;
    let ln = ",\"entry_type\":"@ + mn;
    let an = ser_string(m.key) + ln;
    lemma_assoc(g14, seq!['}'], norm_run(rest, false));
    lemma_assoc(g13, ser_tags_opt(m.original_tags), zn);
    lemma_assoc(g12, ",\"original_tags\":"@, yn);
    lemma_assoc(g11, ser_month_opt(m.month), xn);
    lemma_assoc(g10, ",\"month\":"@, wn);
    lemma_assoc(g9, dec, nn);
    lemma_assoc(g8, ",\"year\":"@, un);
    lemma_assoc(g7, ser_str_array(m.authors), tn);
    lemma_assoc(g6, ",\"authors\":"@, sn);
    lemma_assoc(g5, ser_string(m.title), qn);
    lemma_assoc(g4, ",\"title\":"@, pn);
    lemma_assoc(g3, ser_string(type_label_seq(m.entry_type)), on);
    lemma_assoc(g2, ",\"entry_type\":"@, mn);
    lemma_assoc("{\"key\":"@, ser_string(m.key), ln);
    assert(ser_meta(m) + norm_run(rest, false) == "{\"key\":"@ + an);
}

/// Normalization leaves a canonical entry object unchanged.
#[verifier::rlimit(100)]
proof fn lemma_norm_entry(e: LibraryEntryV, rest: Seq<char>)
    ensures
        norm_run(ser_entry(e) + rest, false) == ser_entry(e) + norm_run(rest, false),
{
    reveal_strlit("{\"meta\":");
    reveal_strlit("meta");
    reveal_strlit(",\"tags\":");
    reveal_strlit("tags");
    reveal_strlit(",\"file_paths\":");
    reveal_strlit("file_paths");
    reveal_strlit(",\"digest\":\"");
    reveal_strlit("digest");
    reveal_strlit("\"}");
    lemma_escape_plain("meta"@);
    lemma_escape_plain("tags"@);
    lemma_escape_plain("file_paths"@);
    lemma_escape_plain("digest"@);
    lemma_hex_chars_plain(e.digest);
    lemma_escape_plain(hex_of(e.digest));
    assert("{\"meta\":"@ =~= seq!['{'] + (ser_string("meta"@) + seq![':']));
    assert(",\"tags\":"@ =~= seq![','] + (ser_string("tags"@) + seq![':']));
    assert(",\"file_paths\":"@ =~= seq![','] + (ser_string("file_paths"@) + seq![':']));
    let hx = hex_of(e.digest);
    let z1 = seq!['}'] + rest;
    let hq = ser_string(hx) + z1;
    let dl = ",\"digest\":\""@ + (hx + ("\"}"@ + rest));
    let x1 = ",\"digest\":\""@.take(10) + hq;
    let w1 = ser_str_array(e.file_paths) + x1;
    let u1 = ",\"file_paths\":"@ + w1;
    let t1 = ser_str_array(e.tags) + u1;
    let s1 = ",\"tags\":"@ + t1;
    let q1 = ser_meta(e.meta) + s1;
    let g2 = "{\"meta\":"@ + ser_meta(e.meta);
    let g3 = g2 + ",\"tags\":"@;
    let g4 = g3 + ser_str_array(e.tags);
    let g5 = g4 + ",\"file_paths\":"@;
    let g6 = g5 + ser_str_array(e.file_paths);
    let g7 = g6 + ",\"digest\":\""@;
    let g8 = g7 + hx;
    assert(ser_entry(e) == g8 + "\"}"@);
    assert(",\"digest\":\""@ =~= ",\"digest\":\""@.take(10) + seq!['"']) by {
        assert(",\"digest\":\""@.len() == 11);
    }
    assert(",\"digest\":\""@.take(10) =~= seq![','] + (ser_string("digest"@) + seq![':']));
    assert(g8 + "\"}"@ + rest =~= g6 + (",\"digest\":\""@.take(10) + (ser_string(hx) + (seq![
        '}'
    ] + rest)))) by {
        assert(ser_string(hx) =~= seq!['"'] + hx + seq!['"']);
        assert("\"}"@ =~= seq!['"'] + seq!['}']);
    }
    lemma_assoc(g5, ser_str_array(e.file_paths), x1);
    lemma_assoc(g4, ",\"file_paths\":"@, w1);
    lemma_assoc(g3, ser_str_array(e.tags), u1);
    lemma_assoc(g2, ",\"tags\":"@, t1);
    lemma_assoc("{\"meta\":"@, ser_meta(e.meta), s1);
    assert(ser_entry(e) + rest == "{\"meta\":"@ + q1);
    lemma_norm_field_lit("{\"meta\":"@, '{', "meta"@, q1);
    lemma_norm_meta(e.meta, s1);
    lemma_norm_field_lit(",\"tags\":"@, ',', "tags"@, t1);
    lemma_norm_str_array(e.tags, u1);
    lemma_norm_field_lit(",\"file_paths\":"@, ',', "file_paths"@, w1);
    lemma_norm_str_array(e.file_paths, x1);
    lemma_norm_field_lit(",\"digest\":\""@.take(10), ',', "digest"@, hq);
    lemma_norm_ser_string(hx, z1);
    lemma_norm_plain_out(seq!['}'], rest);
    let zn = seq!['}'] + norm_run(rest, false);
    let hn = ser_string(hx) + zn;
    let xn = ",\"digest\":\""@.take(10) + hn;
    let wn = ser_str_array(e.file_paths) + xn;
    let un = ",\"file_paths\":"@ + wn;
    let tn = ser_str_array(e.tags) + un;
    let sn = ",\"tags\":"@ + tn;
    let qn = ser_meta(e.meta) + sn;
    assert(g8 + "\"}"@ + norm_run(rest, false) =~= g6 + (",\"digest\":\""@.take(10) + (
    ser_string(hx) + (seq!['}'] + norm_run(rest, false))))) by {
        assert(ser_string(hx) =~= seq!['"'] + hx + seq!['"']);
        assert("\"}"@ =~= seq!['"'] + seq!['}']);
    }
    lemma_assoc(g5, ser_str_array(e.file_paths), xn);
    lemma_assoc(g4, ",\"file_paths\":"@, wn);
    lemma_assoc(g3, ser_str_array(e.tags), un);
    lemma_assoc(g2, ",\"tags\":"@, tn);
    lemma_assoc("{\"meta\":"@, ser_meta(e.meta), sn);
    assert(ser_entry(e) + norm_run(rest, false) == "{\"meta\":"@ + qn);
}

proof fn lemma_norm_entries(es: Seq<LibraryEntryV>, tail: Seq<char>)
    ensures
        norm_run(ser_entries(es) + tail, false) == ser_entries(es) + norm_run(tail, false),
    decreases es.len(),
{
    let mes = es.map_values(|e: LibraryEntryV| ser_entry(e));
    if es.len() == 0 {
        assert(ser_entries(es) + tail =~= tail);
        assert(ser_entries(es) + norm_run(tail, false) =~= norm_run(tail, false));
    } else if es.len() == 1 {
        assert(ser_entries(es) == mes[0]);
        assert(mes[0] == ser_entry(es[0]));
        lemma_norm_entry(es[0], tail);
    } else {
        assert(ser_entries(es) == mes[0] + seq![','] + joined(mes.skip(1), seq![',']));
        assert(mes[0] == ser_entry(es[0]));
        assert(mes.skip(1) =~= es.skip(1).map_values(|e: LibraryEntryV| ser_entry(e)));
        let jrest = joined(mes.skip(1), seq![',']);
        assert(ser_entries(es) + tail =~= ser_entry(es[0]) + (seq![','] + (jrest + tail)));
        lemma_norm_entry(es[0], seq![','] + (jrest + tail));
        lemma_norm_plain_out(seq![','], jrest + tail);
        lemma_norm_entries(es.skip(1), tail);
        assert(ser_entries(es) + norm_run(tail, false) =~= ser_entry(es[0]) + (seq![','] + (jrest
            + norm_run(tail, false))));
    }
}

/// The canonical rendering of a library is already in canonical form:
/// normalization leaves it letter for letter unchanged. So the canonical
/// documents stand inside the class the loader accepts.
#[verifier::rlimit(100)]
pub proof fn lemma_normalize_canonical(v: VersionSpec, es: Seq<LibraryEntryV>)
    ensures
        normalize_spec(ser_library(v, es)) == ser_library(v, es),
{
    reveal_strlit("{\"creation_version\":\"");
    reveal_strlit("creation_version");
    reveal_strlit("\",\"entries\":[");
    reveal_strlit("entries");
    reveal_strlit("]}");
    lemma_escape_plain("creation_version"@);
    lemma_escape_plain("entries"@);
    let vt = version_text_of(v);
    crate::strutil::lemma_dec_str_digits(v.major as nat);
    crate::strutil::lemma_dec_str_digits(v.minor as nat);
    crate::strutil::lemma_dec_str_digits(v.patch as nat);
    assert(forall|k: int|
        0 <= k < vt.len() ==> (#[trigger] vt[k]) != '"' && vt[k] != '\\' && (vt[k] as u32)
            >= 32) by {
        let d1 = dec_str_of(v.major as nat);
        let d2 = dec_str_of(v.minor as nat);
        let d3 = dec_str_of(v.patch as nat);
        assert(forall|k: int|
            0 <= k < d1.len() ==> crate::strutil::is_dec_digit(#[trigger] d1[k]));
        assert(forall|k: int|
            0 <= k < d2.len() ==> crate::strutil::is_dec_digit(#[trigger] d2[k]));
        assert(forall|k: int|
            0 <= k < d3.len() ==> crate::strutil::is_dec_digit(#[trigger] d3[k]));
        assert forall|k: int|
            0 <= k < vt.len() implies (#[trigger] vt[k]) != '"' && vt[k] != '\\' && (
            vt[k] as u32) >= 32 by {
            if k < d1.len() {
                assert(vt[k] == d1[k]);
            } else if k == d1.len() {
                assert(vt[k] == '.');
            } else if k < d1.len() + 1 + d2.len() {
                assert(vt[k] == d2[k - d1.len() - 1]);
            } else if k == d1.len() + 1 + d2.len() {
                assert(vt[k] == '.');
            } else {
                assert(vt[k] == d3[k - d1.len() - 1 - d2.len() - 1]);
            }
        }
    }
    lemma_escape_plain(vt);
    let lit1 = "{\"creation_version\":\""@;
    let lit2 = "\",\"entries\":["@;
    let empt = Seq::<char>::empty();
    let z1 = seq!['}'] + empt;
    let y1 = seq![']'] + z1;
    let x1 = ser_entries(es) + y1;
    let w1 = seq!['['] + x1;
    let u1 = seq![':'] + w1;
    let t1 = ser_string("entries"@) + u1;
    let s1 = seq![','] + t1;
    let r1 = ser_string(vt) + s1;
    let q1 = seq![':'] + r1;
    let p1 = ser_string("creation_version"@) + q1;
    let o1 = seq!['{'] + p1;
    let g2 = lit1 + vt;
    let g3 = g2 + lit2;
    let g4 = g3 + ser_entries(es);
    assert(ser_library(v, es) == g4 + "]}"@);
    assert(lit1 =~= seq!['{'] + (ser_string("creation_version"@) + seq![':']) + seq!['"']);
    assert(lit2 =~= seq!['"'] + (seq![','] + (ser_string("entries"@) + (seq![':'] + seq![
        '['
    ]))));
    assert(g4 + "]}"@ =~= o1) by {
        assert(ser_string(vt) =~= seq!['"'] + vt + seq!['"']);
        assert("]}"@ =~= seq![']'] + seq!['}']);
        assert(ser_string("creation_version"@) =~= seq!['"'] + "creation_version"@ + seq!['"']);
        assert(ser_string("entries"@) =~= seq!['"'] + "entries"@ + seq!['"']);
    }
    lemma_norm_plain_out(seq!['{'], p1);
    lemma_norm_ser_string("creation_version"@, q1);
    lemma_norm_plain_out(seq![':'], r1);
    lemma_norm_ser_string(vt, s1);
    lemma_norm_plain_out(seq![','], t1);
    lemma_norm_ser_string("entries"@, u1);
    lemma_norm_plain_out(seq![':'], w1);
    lemma_norm_plain_out(seq!['['], x1);
    lemma_norm_entries(es, y1);
    lemma_norm_plain_out(seq![']'], z1);
    lemma_norm_plain_out(seq!['}'], empt);
    assert(norm_run(empt, false) =~= empt);
    assert(seq!['}'] + empt =~= seq!['}']);
    assert(normalize_spec(ser_library(v, es)) == o1);
    assert(o1 =~= ser_library(v, es));
}

spec fn hex_val_spec(c: char) -> Option<u32> {
    if c == '0' {
        Some(0)
    } else if c == '1' {
        Some(1)
    } else if c == '2' {
        Some(2)
    } else if c == '3' {
        Some(3)
    } else if c == '4' {
        Some(4)
    } else if c == '5' {
        Some(5)
    } else if c == '6' {
        Some(6)
    } else if c == '7' {
        Some(7)
    } else if c == '8' {
        Some(8)
    } else if c == '9' {
        Some(9)
    } else if c == 'a' {
        Some(10)
    } else if c == 'b' {
        Some(11)
    } else if c == 'c' {
        Some(12)
    } else if c == 'd' {
        Some(13)
    } else if c == 'e' {
        Some(14)
    } else if c == 'f' {
        Some(15)
    } else {
        None
    }
}

proof fn lemma_hex_val_of_digit(d: nat)
    requires
        d < 16,
    ensures
        hex_val_spec(hex_digit_char(d)) == Some(d as u32),
{
}

fn hex_val(c: char) -> (r: Option<u32>)
    ensures
        r == hex_val_spec(c),
        r is Some ==> r.unwrap() < 16,
{
    match c {
        '0' => Some(0),
        '1' => Some(1),
        '2' => Some(2),
        '3' => Some(3),
        '4' => Some(4),
        '5' => Some(5),
        '6' => Some(6),
        '7' => Some(7),
        '8' => Some(8),
        '9' => Some(9),
        'a' => Some(10),
        'b' => Some(11),
        'c' => Some(12),
        'd' => Some(13),
        'e' => Some(14),
        'f' => Some(15),
        _ => None,
    }
}

fn expect_lit(s: &Vec<char>, i: usize, lit: &str) -> (r: Result<usize, ()>)
    ensures
        r is Ok ==> i <= r.unwrap() <= s@.len(),
        r is Ok ==> text_continues(s@, i as int, lit@),
        text_continues(s@, i as int, lit@) ==> r is Ok && r.unwrap() == i + lit@.len(),
{
    let l = str_to_chars(lit);
    if i > s.len() || l.len() > s.len() - i {
        return Err(());
    }
    let mut j: usize = 0;
    while j < l.len()
        invariant
            j <= l.len(),
            l@ == lit@,
            i + l.len() <= s@.len(),
            s@.len() <= usize::MAX,
            forall|k: int| 0 <= k < j ==> s@[i + k] == l@[k],
        decreases l.len() - j,
    {
        if s[i + j] != l[j] {
            proof {
                if text_continues(s@, i as int, lit@) {
                    lemma_continues_index(s@, i as int, lit@, j as int);
                }
            }
            return Err(());
        }
        j = j + 1;
    }
    proof {
        assert(s@.subrange(i as int, i + l@.len()) =~= l@);
    }
    Ok(i + l.len())
}

fn parse_string_at(s: &Vec<char>, i: usize, Ghost(hint): Ghost<Option<Seq<char>>>) -> (r: Result<
    (String, usize),
    (),
>)
    requires
        hint matches Some(t) ==> text_continues(s@, i as int, ser_string(t)),
    ensures
        r is Ok ==> i < r.unwrap().1 <= s@.len(),
        hint matches Some(t) ==> r is Ok && r.unwrap().0@ == t && r.unwrap().1 == i
            + ser_string(t).len(),
{
    proof {
        if hint is Some {
            let t = hint.unwrap();
            lemma_ser_string_shape(t);
            lemma_continues_index(s@, i as int, ser_string(t), 0);
        }
    }
    if i >= s.len() || s[i] != '"' {
        proof {
            assert(hint is None);
        }
        return Err(());
    }
    let mut out: Vec<char> = Vec::new();
    let mut j: usize = i + 1;
    let ghost mut k: int = 0;
    proof {
        if hint is Some {
            let t = hint.unwrap();
            assert(ser_string(t) =~= seq!['"'] + (escape_str(t) + seq!['"']));
            lemma_continues_split(s@, i as int, seq!['"'], escape_str(t) + seq!['"']);
            assert(t.take(0) =~= Seq::<char>::empty());
            assert(t.skip(0) =~= t);
        }
    }
    while j < s.len()
        invariant
            i < j <= s@.len(),
            hint matches Some(t) ==> {
                &&& 0 <= k <= t.len()
                &&& out@ == t.take(k)
                &&& j == i + 1 + escape_str(t.take(k)).len()
                &&& text_continues(s@, j as int, escape_str(t.skip(k)) + seq!['"'])
            },
        decreases s@.len() - j,
    {
        let ghost rem_len = s@.len() - j;
        proof {
            if hint is Some {
                let t = hint.unwrap();
                if k < t.len() {
                    lemma_escape_head(t.skip(k));
                    assert(t.skip(k)[0] == t[k]);
                    lemma_escape_char_shape(t[k]);
                    assert(escape_str(t.skip(k)) + seq!['"'] =~= escape_char(t[k]) + (escape_str(
                        t.skip(k).skip(1),
                    ) + seq!['"']));
                    assert(t.skip(k).skip(1) =~= t.skip(k + 1));
                    lemma_continues_split(
                        s@,
                        j as int,
                        escape_char(t[k]),
                        escape_str(t.skip(k + 1)) + seq!['"'],
                    );
                    lemma_continues_index(s@, j as int, escape_char(t[k]), 0);
                } else {
                    assert(t.skip(k) =~= Seq::<char>::empty());
                    assert(escape_str(t.skip(k)) + seq!['"'] =~= seq!['"']);
                    lemma_continues_index(s@, j as int, seq!['"'], 0);
                }
            }
        }
        let c = s[j];
        if c == '"' {
            proof {
                if hint is Some {
                    let t = hint.unwrap();
                    assert(k == t.len());
                    assert(t.take(k) =~= t);
                    assert(j + 1 == i + ser_string(t).len());
                }
            }
            return Ok((chars_to_string(&out), j + 1));
        }
        if c == '\\' {
            if j + 1 >= s.len() {
                proof {
                    assert(hint is None);
                }
                return Err(());
            }
            let e = s[j + 1];
            proof {
                if hint is Some {
                    let t = hint.unwrap();
                    assert(k < t.len());
                    assert(escape_char(t[k])[0] == '\\');
                    assert(escape_char(t[k]).len() >= 2);
                    lemma_continues_index(s@, j as int, escape_char(t[k]), 1);
                }
            }
            if e == '"' {
                out.push('"');
                proof {
                    if hint is Some {
                        let t = hint.unwrap();
                        assert(t[k] == '"');
                        lemma_escape_take_snoc(t, k);
                        assert(out@ =~= t.take(k + 1));
                        lemma_continues_split(
                            s@,
                            j as int,
                            escape_char(t[k]),
                            escape_str(t.skip(k + 1)) + seq!['"'],
                        );
                        k = k + 1;
                    }
                }
                j = j + 2;
            } else if e == '\\' {
                out.push('\\');
                proof {
                    if hint is Some {
                        let t = hint.unwrap();
                        assert(t[k] == '\\');
                        lemma_escape_take_snoc(t, k);
                        assert(out@ =~= t.take(k + 1));
                        k = k + 1;
                    }
                }
                j = j + 2;
            } else if e == 'u' {
                if s.len() - j <= 5 {
                    proof {
                        assert(hint is None);
                    }
                    return Err(());
                }
                proof {
                    if hint is Some {
                        let t = hint.unwrap();
                        assert(escape_char(t[k]).len() == 6);
                        lemma_continues_index(s@, j as int, escape_char(t[k]), 2);
                        lemma_continues_index(s@, j as int, escape_char(t[k]), 3);
                        lemma_continues_index(s@, j as int, escape_char(t[k]), 4);
                        lemma_continues_index(s@, j as int, escape_char(t[k]), 5);
                        lemma_hex_val_of_digit((t[k] as u32 / 16) as nat);
                        lemma_hex_val_of_digit((t[k] as u32 % 16) as nat);
                    }
                }
                if s[j + 2] != '0' || s[j + 3] != '0' {
                    proof {
                        assert(hint is None);
                    }
                    return Err(());
                }
                let hi = match hex_val(s[j + 4]) {
                    Some(h) => h,
                    None => {
                        proof {
                            assert(hint is None);
                        }
                        return Err(());
                    },
                };
                let lo = match hex_val(s[j + 5]) {
                    Some(l) => l,
                    None => {
                        proof {
                            assert(hint is None);
                        }
                        return Err(());
                    },
                };
                let code = hi * 16 + lo;
                let decoded = (code as u8) as char;
                out.push(decoded);
                proof {
                    if hint is Some {
                        let t = hint.unwrap();
                        let cv = t[k] as u32;
                        assert(hi == cv / 16 && lo == cv % 16);
                        assert((cv / 16) * 16 + cv % 16 == cv) by (nonlinear_arith);
                        assert(code == cv);
                        assert(decoded as u32 == cv);
                        lemma_char_code_injective(decoded, t[k]);
                        lemma_escape_take_snoc(t, k);
                        assert(out@ =~= t.take(k + 1));
                        k = k + 1;
                    }
                }
                j = j + 6;
            } else {
                proof {
                    if hint is Some {
                        let t = hint.unwrap();
                        assert(escape_char(t[k])[1] == '"' || escape_char(t[k])[1] == '\\'
                            || escape_char(t[k])[1] == 'u');
                    }
                    assert(hint is None);
                }
                return Err(());
            }
        } else {
            out.push(c);
            proof {
                if hint is Some {
                    let t = hint.unwrap();
                    assert(escape_char(t[k]).len() == 1 || escape_char(t[k])[0] == '\\');
                    assert(escape_char(t[k]) == seq![t[k]]);
                    assert(c == t[k]);
                    lemma_escape_take_snoc(t, k);
                    assert(out@ =~= t.take(k + 1));
                    k = k + 1;
                }
            }
            j = j + 1;
        }
    }
    proof {
        if hint is Some {
            let t = hint.unwrap();
            assert(text_continues(s@, j as int, escape_str(t.skip(k)) + seq!['"']));
            assert((escape_str(t.skip(k)) + seq!['"']).len() >= 1);
        }
        assert(hint is None);
    }
    Err(())
}

fn parse_u32_at(s: &Vec<char>, i: usize, Ghost(hint): Ghost<Option<u32>>) -> (r: Result<
    (u32, usize),
    (),
>)
    requires
        hint matches Some(n) ==> text_continues(s@, i as int, dec_str_of(n as nat)) && (i
            + dec_str_of(n as nat).len() == s@.len() || !crate::strutil::is_dec_digit(
            s@[i + dec_str_of(n as nat).len()],
        )),
    ensures
        r is Ok ==> i < r.unwrap().1 <= s@.len(),
        hint matches Some(n) ==> r is Ok && r.unwrap().0 == n && r.unwrap().1 == i + dec_str_of(
            n as nat,
        ).len(),
{
    proof {
        if hint is Some {
            crate::strutil::lemma_dec_str_digits(hint.unwrap() as nat);
        }
    }
    if i >= s.len() {
        proof {
            assert(hint is None);
        }
        return Err(());
    }
    let mut j: usize = i;
    loop
        invariant
            i <= j <= s@.len(),
            hint matches Some(n) ==> {
                &&& j <= i + dec_str_of(n as nat).len()
                &&& text_continues(s@, i as int, dec_str_of(n as nat))
                &&& (i + dec_str_of(n as nat).len() == s@.len()
                    || !crate::strutil::is_dec_digit(s@[i + dec_str_of(n as nat).len()]))
                &&& forall|m: int|
                    0 <= m < dec_str_of(n as nat).len() ==> crate::strutil::is_dec_digit(
                        #[trigger] dec_str_of(n as nat)[m],
                    )
            },
        ensures
            i <= j <= s@.len(),
            hint matches Some(n) ==> j == i + dec_str_of(n as nat).len(),
        decreases s@.len() - j,
    {
        if j >= s.len() {
            proof {
                if hint is Some {
                    let d = dec_str_of(hint.unwrap() as nat);
                    if j < i + d.len() {
                        assert(i + d.len() <= s@.len());
                        assert(false);
                    }
                }
            }
            break ;
        }
        let cv = s[j] as u32;
        if cv < 48 || cv > 57 {
            proof {
                if hint is Some {
                    let d = dec_str_of(hint.unwrap() as nat);
                    if j < i + d.len() {
                        lemma_continues_index(s@, i as int, d, j - i);
                        assert(crate::strutil::is_dec_digit(s@[j as int]));
                        assert(false);
                    }
                }
            }
            break ;
        }
        proof {
            if hint is Some {
                let d = dec_str_of(hint.unwrap() as nat);
                if j == i + d.len() {
                    assert(j < s@.len());
                    assert(!crate::strutil::is_dec_digit(s@[j as int]));
                    assert(false);
                }
            }
        }
        j = j + 1;
    }
    proof {
        if hint is Some {
            let d = dec_str_of(hint.unwrap() as nat);
            assert(j == i + d.len());
        }
    }
    if j == i {
        proof {
            if hint is Some {
                assert(dec_str_of(hint.unwrap() as nat).len() >= 1);
            }
            assert(hint is None);
        }
        return Err(());
    }
    let digits = crate::strutil::sub_vec(s, i, j);
    proof {
        if hint is Some {
            let n = hint.unwrap();
            assert(digits@ =~= dec_str_of(n as nat));
            crate::strutil::lemma_parse_of_dec_str(n);
        }
    }
    match crate::strutil::parse_u32_chars(&digits) {
        Some(n) => Ok((n, j)),
        None => {
            proof {
                assert(hint is None);
            }
            Err(())
        },
    }
}

fn parse_hex_until_quote(s: &Vec<char>, i: usize, Ghost(hint): Ghost<Option<Seq<u8>>>) -> (r:
    Result<(Vec<u8>, usize), ()>)
    requires
        hint matches Some(bs) ==> text_continues(s@, i as int, hex_of(bs) + seq!['"']),
    ensures
        r is Ok ==> i <= r.unwrap().1 <= s@.len(),
        hint matches Some(bs) ==> r is Ok && r.unwrap().0@ == bs && r.unwrap().1 == i + hex_of(
            bs,
        ).len(),
{
    if i > s.len() {
        proof {
            assert(hint is None);
        }
        return Err(());
    }
    let mut bytes: Vec<u8> = Vec::new();
    let mut j: usize = i;
    let ghost mut k: int = 0;
    proof {
        if hint is Some {
            let bs = hint.unwrap();
            lemma_hex_chars_not_quote(bs);
            assert(bs.take(0) =~= Seq::<u8>::empty());
            assert(bs.skip(0) =~= bs);
        }
    }
    while j < s.len()
        invariant
            i <= j <= s@.len(),
            hint matches Some(bs) ==> {
                &&& 0 <= k <= bs.len()
                &&& bytes@ == bs.take(k)
                &&& j == i + 2 * k
                &&& text_continues(s@, j as int, hex_of(bs.skip(k)) + seq!['"'])
            },
        decreases s@.len() - j,
    {
        proof {
            if hint is Some {
                let bs = hint.unwrap();
                if k < bs.len() {
                    lemma_hex_head(bs.skip(k));
                    assert(bs.skip(k)[0] == bs[k as int]);
                    assert(bs.skip(k).skip(1) =~= bs.skip(k + 1));
                    let pair = seq![
                        hex_digit_char((bs[k as int] / 16) as nat),
                        hex_digit_char((bs[k as int] % 16) as nat),
                    ];
                    assert(hex_of(bs.skip(k)) =~= pair + hex_of(bs.skip(k + 1)));
                    assert(hex_of(bs.skip(k)) + seq!['"'] =~= pair + (hex_of(bs.skip(k + 1))
                        + seq!['"']));
                    lemma_continues_split(
                        s@,
                        j as int,
                        pair,
                        hex_of(bs.skip(k + 1)) + seq!['"'],
                    );
                    lemma_continues_index(s@, j as int, pair, 0);
                    lemma_continues_index(s@, j as int, pair, 1);
                    lemma_hex_val_of_digit((bs[k as int] / 16) as nat);
                    lemma_hex_val_of_digit((bs[k as int] % 16) as nat);
                    assert(hex_digit_char((bs[k as int] / 16) as nat) != '"');
                    assert(hex_digit_char((bs[k as int] % 16) as nat) != '"');
                } else {
                    assert(bs.skip(k) =~= Seq::<u8>::empty());
                    assert(hex_of(bs.skip(k)) + seq!['"'] =~= seq!['"']);
                    lemma_continues_index(s@, j as int, seq!['"'], 0);
                }
            }
        }
        if s[j] == '"' {
            proof {
                if hint is Some {
                    let bs = hint.unwrap();
                    assert(k == bs.len());
                    assert(bytes@ =~= bs);
                    lemma_hex_chars_not_quote(bs);
                }
            }
            return Ok((bytes, j));
        }
        if j + 1 >= s.len() {
            proof {
                assert(hint is None);
            }
            return Err(());
        }
        let hi = match hex_val(s[j]) {
            Some(h) => h,
            None => {
                proof {
                    assert(hint is None);
                }
                return Err(());
            },
        };
        let lo = match hex_val(s[j + 1]) {
            Some(l) => l,
            None => {
                proof {
                    assert(hint is None);
                }
                return Err(());
            },
        };
        bytes.push((hi * 16 + lo) as u8);
        proof {
            if hint is Some {
                let bs = hint.unwrap();
                let b = bs[k as int];
                assert(hi == (b / 16) as u32 && lo == (b % 16) as u32);
                assert((b / 16) * 16 + b % 16 == b) by (bit_vector);
                assert((hi * 16 + lo) as u8 == b);
                assert(bs.take(k + 1).drop_last() =~= bs.take(k));
                assert(bs.take(k + 1).last() == b);
                assert(bytes@ =~= bs.take(k + 1));
                k = k + 1;
            }
        }
        j = j + 2;
    }
    proof {
        if hint is Some {
            let bs = hint.unwrap();
            assert(text_continues(s@, j as int, hex_of(bs.skip(k)) + seq!['"']));
            assert((hex_of(bs.skip(k)) + seq!['"']).len() >= 1);
        }
        assert(hint is None);
    }
    Err(())
}

/// The joined string items of an array, without the brackets.
pub open spec fn str_items_ser(xs: Seq<Seq<char>>) -> Seq<char> {
    joined(xs.map_values(|x: Seq<char>| ser_string(x)), seq![','])
}

/// The joined field pairs of an object, without the braces.
pub open spec fn pair_items_ser(ps: Seq<(Seq<char>, Seq<char>)>) -> Seq<char> {
    joined(ps.map_values(|p: (Seq<char>, Seq<char>)| ser_tag_pair(p)), seq![','])
}

#[verifier::rlimit(100)]
fn parse_str_array_at(s: &Vec<char>, i: usize, Ghost(hint): Ghost<Option<Seq<Seq<char>>>>) -> (r:
    Result<(Vec<String>, usize), ()>)
    requires
        hint matches Some(xs) ==> text_continues(s@, i as int, ser_str_array(xs)),
    ensures
        r is Ok ==> i < r.unwrap().1 <= s@.len(),
        hint matches Some(xs) ==> r is Ok && string_views(r.unwrap().0@) == xs && r.unwrap().1
            == i + ser_str_array(xs).len(),
{
    proof {
        if hint is Some {
            let xs = hint.unwrap();
            assert(ser_str_array(xs) =~= seq!['['] + (str_items_ser(xs) + seq![']']));
            lemma_continues_split(s@, i as int, seq!['['], str_items_ser(xs) + seq![']']);
            lemma_continues_index(s@, i as int, seq!['['], 0);
        }
    }
    if i >= s.len() || s[i] != '[' {
        proof {
            assert(hint is None);
        }
        return Err(());
    }
    let mut out: Vec<String> = Vec::new();
    let mut j: usize = i + 1;
    let ghost mut m: int = 0;
    proof {
        if hint is Some {
            let xs = hint.unwrap();
            let mx = xs.map_values(|x: Seq<char>| ser_string(x));
            if xs.len() == 0 {
                assert(str_items_ser(xs) + seq![']'] =~= seq![']']);
                lemma_continues_index(s@, j as int, seq![']'], 0);
            } else {
                lemma_ser_string_shape(xs[0]);
                assert(mx[0] == ser_string(xs[0]));
                if mx.len() == 1 {
                    assert(str_items_ser(xs) == mx[0]);
                } else {
                    assert(str_items_ser(xs) == mx[0] + seq![','] + joined(
                        mx.skip(1),
                        seq![','],
                    ));
                }
                assert((str_items_ser(xs) + seq![']'])[0] == mx[0][0]);
                lemma_continues_index(s@, j as int, str_items_ser(xs) + seq![']'], 0);
            }
        }
    }
    if j < s.len() && s[j] == ']' {
        proof {
            if hint is Some {
                let xs = hint.unwrap();
                assert(xs.len() == 0);
                assert(string_views(out@) =~= xs);
                assert(ser_str_array(xs).len() == 2);
            }
        }
        return Ok((out, j + 1));
    }
    proof {
        if hint is Some {
            let xs = hint.unwrap();
            assert(xs.len() != 0);
            assert(xs.take(0) =~= Seq::<Seq<char>>::empty());
            assert(string_views(out@) =~= xs.take(0));
            assert(xs.skip(0) =~= xs);
        }
    }
    while j < s.len()
        invariant
            i < j <= s@.len(),
            hint matches Some(xs) ==> {
                &&& 0 <= m < xs.len()
                &&& string_views(out@) == xs.take(m)
                &&& text_continues(s@, j as int, str_items_ser(xs.skip(m)) + seq![']'])
                &&& j + str_items_ser(xs.skip(m)).len() + 1 == i + ser_str_array(xs).len()
            },
        decreases s@.len() - j,
    {
        let ghost sh: Option<Seq<char>> = if hint is Some {
            Some(hint.unwrap()[m])
        } else {
            None
        };
        proof {
            if hint is Some {
                let xs = hint.unwrap();
                let tail_m = xs.skip(m);
                let mts = tail_m.map_values(|x: Seq<char>| ser_string(x));
                assert(mts[0] == ser_string(xs[m]));
                if tail_m.len() == 1 {
                    assert(str_items_ser(tail_m) == mts[0]);
                    assert(str_items_ser(tail_m) + seq![']'] =~= ser_string(xs[m]) + seq![']']);
                    lemma_continues_split(s@, j as int, ser_string(xs[m]), seq![']']);
                } else {
                    assert(str_items_ser(tail_m) == mts[0] + seq![','] + joined(
                        mts.skip(1),
                        seq![','],
                    ));
                    assert(str_items_ser(tail_m) + seq![']'] =~= ser_string(xs[m]) + (seq![',']
                        + (joined(mts.skip(1), seq![',']) + seq![']'])));
                    lemma_continues_split(
                        s@,
                        j as int,
                        ser_string(xs[m]),
                        seq![','] + (joined(mts.skip(1), seq![',']) + seq![']']),
                    );
                }
            }
        }
        let (item, nj) = match parse_string_at(s, j, Ghost(sh)) {
            Ok(p) => p,
            Err(()) => {
                proof {
                    assert(hint is None);
                }
                return Err(());
            },
        };
        out.push(item);
        proof {
            if hint is Some {
                let xs = hint.unwrap();
                assert(xs.take(m + 1).drop_last() =~= xs.take(m));
                assert(xs.take(m + 1).last() == xs[m]);
                assert(string_views(out@) =~= xs.take(m + 1));
            }
        }
        if nj >= s.len() {
            proof {
                if hint is Some {
                    let xs = hint.unwrap();
                    let tail_m = xs.skip(m);
                    let mts = tail_m.map_values(|x: Seq<char>| ser_string(x));
                    if tail_m.len() == 1 {
                        lemma_continues_index(s@, nj as int, seq![']'], 0);
                    } else {
                        lemma_continues_index(
                            s@,
                            nj as int,
                            seq![','] + (joined(mts.skip(1), seq![',']) + seq![']']),
                            0,
                        );
                    }
                }
                assert(hint is None);
            }
            return Err(());
        }
        proof {
            if hint is Some {
                let xs = hint.unwrap();
                let tail_m = xs.skip(m);
                let mts = tail_m.map_values(|x: Seq<char>| ser_string(x));
                if tail_m.len() == 1 {
                    lemma_continues_index(s@, nj as int, seq![']'], 0);
                    assert(s@[nj as int] == ']');
                } else {
                    lemma_continues_index(
                        s@,
                        nj as int,
                        seq![','] + (joined(mts.skip(1), seq![',']) + seq![']']),
                        0,
                    );
                    assert(s@[nj as int] == ',');
                }
            }
        }
        if s[nj] == ']' {
            proof {
                if hint is Some {
                    let xs = hint.unwrap();
                    assert(xs.skip(m).len() == 1);
                    assert(m + 1 == xs.len());
                    assert(xs.take(m + 1) =~= xs);
                    assert(str_items_ser(xs.skip(m)).len() == ser_string(xs[m]).len());
                }
            }
            return Ok((out, nj + 1));
        }
        if s[nj] != ',' {
            proof {
                assert(hint is None);
            }
            return Err(());
        }
        proof {
            if hint is Some {
                let xs = hint.unwrap();
                let tail_m = xs.skip(m);
                let mts = tail_m.map_values(|x: Seq<char>| ser_string(x));
                assert(tail_m.len() != 1);
                lemma_continues_split(
                    s@,
                    nj as int,
                    seq![','],
                    joined(mts.skip(1), seq![',']) + seq![']'],
                );
                assert(mts.skip(1) =~= tail_m.skip(1).map_values(|x: Seq<char>| ser_string(x)));
                assert(tail_m.skip(1) =~= xs.skip(m + 1));
                assert(str_items_ser(xs.skip(m + 1)) == joined(mts.skip(1), seq![',']));
                assert(str_items_ser(tail_m).len() == ser_string(xs[m]).len() + 1
                    + str_items_ser(xs.skip(m + 1)).len());
                m = m + 1;
            }
        }
        j = nj + 1;
    }
    proof {
        if hint is Some {
            let xs = hint.unwrap();
            assert((str_items_ser(xs.skip(m)) + seq![']']).len() >= 1);
        }
        assert(hint is None);
    }
    Err(())
}

#[verifier::rlimit(100)]
fn parse_tags_opt_at(
    s: &Vec<char>,
    i: usize,
    Ghost(hint): Ghost<Option<Option<Seq<(Seq<char>, Seq<char>)>>>>,
) -> (r: Result<(Option<Vec<(String, String)>>, usize), ()>)
    requires
        hint matches Some(ot) ==> text_continues(s@, i as int, ser_tags_opt(ot)),
    ensures
        r is Ok ==> i <= r.unwrap().1 <= s@.len(),
        hint matches Some(ot) ==> r is Ok && (r.unwrap().0 matches Some(ps) <==> ot is Some)
            && (ot matches Some(psv) ==> pair_views(r.unwrap().0.unwrap()@) == psv)
            && r.unwrap().1 == i + ser_tags_opt(ot).len(),
{
    proof {
        reveal_strlit("null");
        if hint is Some && hint.unwrap() is Some {
            let ps = hint.unwrap().unwrap();
            assert(ser_tags_opt(Some(ps)) =~= seq!['{'] + (pair_items_ser(ps) + seq!['}']));
            lemma_continues_split(s@, i as int, seq!['{'], pair_items_ser(ps) + seq!['}']);
            lemma_continues_index(s@, i as int, seq!['{'], 0);
        }
    }
    if let Ok(n) = expect_lit(s, i, "null") {
        proof {
            if hint is Some {
                let ot = hint.unwrap();
                if ot is Some {
                    lemma_continues_index(s@, i as int, "null"@, 0);
                    assert(false);
                }
            }
        }
        return Ok((None, n));
    }
    proof {
        if hint is Some && hint.unwrap() is None {
            assert(text_continues(s@, i as int, "null"@));
            assert(false);
        }
    }
    if i >= s.len() || s[i] != '{' {
        proof {
            assert(hint is None);
        }
        return Err(());
    }
    let mut out: Vec<(String, String)> = Vec::new();
    let mut j: usize = i + 1;
    let ghost mut m: int = 0;
    proof {
        if hint is Some {
            let ps = hint.unwrap().unwrap();
            let mp = ps.map_values(|p: (Seq<char>, Seq<char>)| ser_tag_pair(p));
            if ps.len() == 0 {
                assert(pair_items_ser(ps) + seq!['}'] =~= seq!['}']);
                lemma_continues_index(s@, j as int, seq!['}'], 0);
            } else {
                lemma_tag_pair_shape(ps[0]);
                assert(mp[0] == ser_tag_pair(ps[0]));
                if mp.len() == 1 {
                    assert(pair_items_ser(ps) == mp[0]);
                } else {
                    assert(pair_items_ser(ps) == mp[0] + seq![','] + joined(
                        mp.skip(1),
                        seq![','],
                    ));
                }
                assert((pair_items_ser(ps) + seq!['}'])[0] == mp[0][0]);
                lemma_continues_index(s@, j as int, pair_items_ser(ps) + seq!['}'], 0);
            }
        }
    }
    if j < s.len() && s[j] == '}' {
        proof {
            if hint is Some {
                let ps = hint.unwrap().unwrap();
                assert(ps.len() == 0);
                assert(pair_views(out@) =~= ps);
                assert(ser_tags_opt(Some(ps)).len() == 2);
            }
        }
        return Ok((Some(out), j + 1));
    }
    proof {
        if hint is Some {
            let ps = hint.unwrap().unwrap();
            assert(ps.len() != 0);
            assert(ps.take(0) =~= Seq::<(Seq<char>, Seq<char>)>::empty());
            assert(pair_views(out@) =~= ps.take(0));
            assert(ps.skip(0) =~= ps);
        }
    }
    while j < s.len()
        invariant
            i < j <= s@.len(),
            hint matches Some(ot) ==> {
                &&& ot matches Some(ps)
                &&& 0 <= m < ps.len()
                &&& pair_views(out@) == ps.take(m)
                &&& text_continues(s@, j as int, pair_items_ser(ps.skip(m)) + seq!['}'])
                &&& j + pair_items_ser(ps.skip(m)).len() + 1 == i + ser_tags_opt(ot).len()
            },
        decreases s@.len() - j,
    {
        let ghost kh: Option<Seq<char>> = if hint is Some {
            Some(hint.unwrap().unwrap()[m].0)
        } else {
            None
        };
        let ghost vh: Option<Seq<char>> = if hint is Some {
            Some(hint.unwrap().unwrap()[m].1)
        } else {
            None
        };
        proof {
            if hint is Some {
                let ps = hint.unwrap().unwrap();
                let tail_m = ps.skip(m);
                let mts = tail_m.map_values(|p: (Seq<char>, Seq<char>)| ser_tag_pair(p));
                assert(mts[0] == ser_tag_pair(ps[m]));
                if tail_m.len() == 1 {
                    assert(pair_items_ser(tail_m) == mts[0]);
                    assert(pair_items_ser(tail_m) + seq!['}'] =~= ser_string(ps[m].0) + (seq![':']
                        + (ser_string(ps[m].1) + seq!['}'])));
                } else {
                    assert(pair_items_ser(tail_m) == mts[0] + seq![','] + joined(
                        mts.skip(1),
                        seq![','],
                    ));
                    assert(pair_items_ser(tail_m) + seq!['}'] =~= ser_string(ps[m].0) + (seq![':']
                        + (ser_string(ps[m].1) + (seq![','] + (joined(mts.skip(1), seq![','])
                        + seq!['}'])))));
                }
                lemma_continues_split(
                    s@,
                    j as int,
                    ser_string(ps[m].0),
                    if tail_m.len() == 1 {
                        seq![':'] + (ser_string(ps[m].1) + seq!['}'])
                    } else {
                        seq![':'] + (ser_string(ps[m].1) + (seq![','] + (joined(
                            mts.skip(1),
                            seq![','],
                        ) + seq!['}'])))
                    },
                );
            }
        }
        let (key, nj) = match parse_string_at(s, j, Ghost(kh)) {
            Ok(p) => p,
            Err(()) => {
                proof {
                    assert(hint is None);
                }
                return Err(());
            },
        };
        proof {
            if hint is Some {
                let ps = hint.unwrap().unwrap();
                let tail_m = ps.skip(m);
                let mts = tail_m.map_values(|p: (Seq<char>, Seq<char>)| ser_tag_pair(p));
                let after = if tail_m.len() == 1 {
                    seq![':'] + (ser_string(ps[m].1) + seq!['}'])
                } else {
                    seq![':'] + (ser_string(ps[m].1) + (seq![','] + (joined(
                        mts.skip(1),
                        seq![','],
                    ) + seq!['}'])))
                };
                lemma_continues_index(s@, nj as int, after, 0);
                lemma_continues_split(
                    s@,
                    nj as int,
                    seq![':'],
                    if tail_m.len() == 1 {
                        ser_string(ps[m].1) + seq!['}']
                    } else {
                        ser_string(ps[m].1) + (seq![','] + (joined(mts.skip(1), seq![','])
                            + seq!['}']))
                    },
                );
                lemma_continues_split(
                    s@,
                    nj as int + 1,
                    ser_string(ps[m].1),
                    if tail_m.len() == 1 {
                        seq!['}']
                    } else {
                        seq![','] + (joined(mts.skip(1), seq![',']) + seq!['}'])
                    },
                );
            }
        }
        if nj >= s.len() || s[nj] != ':' {
            proof {
                assert(hint is None);
            }
            return Err(());
        }
        let (val, vj) = match parse_string_at(s, nj + 1, Ghost(vh)) {
            Ok(p) => p,
            Err(()) => {
                proof {
                    assert(hint is None);
                }
                return Err(());
            },
        };
        out.push((key, val));
        proof {
            if hint is Some {
                let ps = hint.unwrap().unwrap();
                assert(ps.take(m + 1).drop_last() =~= ps.take(m));
                assert(ps.take(m + 1).last() == ps[m]);
                assert(pair_views(out@) =~= ps.take(m + 1));
            }
        }
        if vj >= s.len() {
            proof {
                if hint is Some {
                    let ps = hint.unwrap().unwrap();
                    let tail_m = ps.skip(m);
                    let mts = tail_m.map_values(|p: (Seq<char>, Seq<char>)| ser_tag_pair(p));
                    if tail_m.len() == 1 {
                        lemma_continues_index(s@, vj as int, seq!['}'], 0);
                    } else {
                        lemma_continues_index(
                            s@,
                            vj as int,
                            seq![','] + (joined(mts.skip(1), seq![',']) + seq!['}']),
                            0,
                        );
                    }
                }
                assert(hint is None);
            }
            return Err(());
        }
        proof {
            if hint is Some {
                let ps = hint.unwrap().unwrap();
                let tail_m = ps.skip(m);
                let mts = tail_m.map_values(|p: (Seq<char>, Seq<char>)| ser_tag_pair(p));
                if tail_m.len() == 1 {
                    lemma_continues_index(s@, vj as int, seq!['}'], 0);
                    assert(s@[vj as int] == '}');
                } else {
                    lemma_continues_index(
                        s@,
                        vj as int,
                        seq![','] + (joined(mts.skip(1), seq![',']) + seq!['}']),
                        0,
                    );
                    assert(s@[vj as int] == ',');
                }
            }
        }
        if s[vj] == '}' {
            proof {
                if hint is Some {
                    let ps = hint.unwrap().unwrap();
                    assert(ps.skip(m).len() == 1);
                    assert(m + 1 == ps.len());
                    assert(ps.take(m + 1) =~= ps);
                    assert(pair_items_ser(ps.skip(m)).len() == ser_tag_pair(ps[m]).len());
                    assert(ser_tag_pair(ps[m]).len() == ser_string(ps[m].0).len() + 1
                        + ser_string(ps[m].1).len());
                }
            }
            return Ok((Some(out), vj + 1));
        }
        if s[vj] != ',' {
            proof {
                assert(hint is None);
            }
            return Err(());
        }
        proof {
            if hint is Some {
                let ps = hint.unwrap().unwrap();
                let tail_m = ps.skip(m);
                let mts = tail_m.map_values(|p: (Seq<char>, Seq<char>)| ser_tag_pair(p));
                assert(tail_m.len() != 1);
                lemma_continues_split(
                    s@,
                    vj as int,
                    seq![','],
                    joined(mts.skip(1), seq![',']) + seq!['}'],
                );
                assert(mts.skip(1) =~= tail_m.skip(1).map_values(
                    |p: (Seq<char>, Seq<char>)| ser_tag_pair(p),
                ));
                assert(tail_m.skip(1) =~= ps.skip(m + 1));
                assert(pair_items_ser(ps.skip(m + 1)) == joined(mts.skip(1), seq![',']));
                assert(ser_tag_pair(ps[m]).len() == ser_string(ps[m].0).len() + 1 + ser_string(
                    ps[m].1,
                ).len());
                assert(pair_items_ser(tail_m).len() == ser_tag_pair(ps[m]).len() + 1
                    + pair_items_ser(ps.skip(m + 1)).len());
                m = m + 1;
            }
        }
        j = vj + 1;
    }
    proof {
        if hint is Some {
            let ps = hint.unwrap().unwrap();
            assert((pair_items_ser(ps.skip(m)) + seq!['}']).len() >= 1);
        }
        assert(hint is None);
    }
    Err(())
}

fn parse_month_opt_at(s: &Vec<char>, i: usize, Ghost(hint): Ghost<Option<Option<Month>>>) -> (r:
    Result<(Option<Month>, usize), ()>)
    requires
        hint matches Some(om) ==> text_continues(s@, i as int, ser_month_opt(om)),
    ensures
        r is Ok ==> i <= r.unwrap().1 <= s@.len(),
        hint matches Some(om) ==> r is Ok && r.unwrap().0 == om && r.unwrap().1 == i
            + ser_month_opt(om).len(),
{
    proof {
        reveal_strlit("null");
        if hint is Some && hint.unwrap() is Some {
            let mm = hint.unwrap().unwrap();
            lemma_ser_string_shape(month_short_seq(mm));
            lemma_continues_index(s@, i as int, ser_month_opt(Some(mm)), 0);
        }
    }
    if let Ok(n) = expect_lit(s, i, "null") {
        proof {
            if hint is Some && hint.unwrap() is Some {
                lemma_continues_index(s@, i as int, "null"@, 0);
                assert(false);
            }
        }
        return Ok((None, n));
    }
    proof {
        if hint is Some && hint.unwrap() is None {
            assert(text_continues(s@, i as int, "null"@));
            assert(false);
        }
    }
    let ghost sh: Option<Seq<char>> = if hint is Some {
        Some(month_short_seq(hint.unwrap().unwrap()))
    } else {
        None
    };
    let (w, nj) = match parse_string_at(s, i, Ghost(sh)) {
        Ok(p) => p,
        Err(()) => {
            proof {
                assert(hint is None);
            }
            return Err(());
        },
    };
    proof {
        if hint is Some {
            lemma_month_short_roundtrip(hint.unwrap().unwrap());
            reveal_strlit("Jan");
            reveal_strlit("Feb");
            reveal_strlit("Mar");
            reveal_strlit("Apr");
            reveal_strlit("May");
            reveal_strlit("Jun");
            reveal_strlit("Jul");
            reveal_strlit("Aug");
            reveal_strlit("Sep");
            reveal_strlit("Oct");
            reveal_strlit("Nov");
            reveal_strlit("Dec");
        }
    }
    let m = if w == String::from_str("Jan") {
        Month::Jan
    } else if w == String::from_str("Feb") {
        Month::Feb
    } else if w == String::from_str("Mar") {
        Month::Mar
    } else if w == String::from_str("Apr") {
        Month::Apr
    } else if w == String::from_str("May") {
        Month::May
    } else if w == String::from_str("Jun") {
        Month::Jun
    } else if w == String::from_str("Jul") {
        Month::Jul
    } else if w == String::from_str("Aug") {
        Month::Aug
    } else if w == String::from_str("Sep") {
        Month::Sep
    } else if w == String::from_str("Oct") {
        Month::Oct
    } else if w == String::from_str("Nov") {
        Month::Nov
    } else if w == String::from_str("Dec") {
        Month::Dec
    } else {
        proof {
            assert(hint is None);
        }
        return Err(());
    };
    proof {
        if hint is Some {
            assert(month_of_short(w@) == Some(hint.unwrap().unwrap()));
            assert(m == hint.unwrap().unwrap());
        }
    }
    Ok((Some(m), nj))
}

fn parse_type_at(s: &Vec<char>, i: usize, Ghost(hint): Ghost<Option<LibraryEntryType>>) -> (r:
    Result<(LibraryEntryType, usize), ()>)
    requires
        hint matches Some(tt) ==> text_continues(s@, i as int, ser_string(type_label_seq(tt))),
    ensures
        r is Ok ==> i < r.unwrap().1 <= s@.len(),
        hint matches Some(tt) ==> r is Ok && r.unwrap().0 == tt && r.unwrap().1 == i + ser_string(
            type_label_seq(tt),
        ).len(),
{
    let ghost sh: Option<Seq<char>> = if hint is Some {
        Some(type_label_seq(hint.unwrap()))
    } else {
        None
    };
    let (w, nj) = match parse_string_at(s, i, Ghost(sh)) {
        Ok(p) => p,
        Err(()) => {
            proof {
                assert(hint is None);
            }
            return Err(());
        },
    };
    proof {
        if hint is Some {
            lemma_type_label_roundtrip(hint.unwrap());
            reveal_strlit("Article");
            reveal_strlit("Book");
            reveal_strlit("Booklet");
            reveal_strlit("Conference");
            reveal_strlit("InBook");
            reveal_strlit("InCollection");
            reveal_strlit("InProceedings");
            reveal_strlit("Manual");
            reveal_strlit("MasterThesis");
            reveal_strlit("Thesis");
            reveal_strlit("Misc");
            reveal_strlit("PHDThesis");
            reveal_strlit("Proceedings");
            reveal_strlit("Techreport");
            reveal_strlit("Unpublished");
        }
    }
    let t = if w == String::from_str("Article") {
        LibraryEntryType::Article
    } else if w == String::from_str("Book") {
        LibraryEntryType::Book
    } else if w == String::from_str("Booklet") {
        LibraryEntryType::Booklet
    } else if w == String::from_str("Conference") {
        LibraryEntryType::Conference
    } else if w == String::from_str("InBook") {
        LibraryEntryType::InBook
    } else if w == String::from_str("InCollection") {
        LibraryEntryType::InCollection
    } else if w == String::from_str("InProceedings") {
        LibraryEntryType::InProceedings
    } else if w == String::from_str("Manual") {
        LibraryEntryType::Manual
    } else if w == String::from_str("MasterThesis") {
        LibraryEntryType::MasterThesis
    } else if w == String::from_str("Thesis") {
        LibraryEntryType::Thesis
    } else if w == String::from_str("Misc") {
        LibraryEntryType::Misc
    } else if w == String::from_str("PHDThesis") {
        LibraryEntryType::PHDThesis
    } else if w == String::from_str("Proceedings") {
        LibraryEntryType::Proceedings
    } else if w == String::from_str("Techreport") {
        LibraryEntryType::Techreport
    } else if w == String::from_str("Unpublished") {
        LibraryEntryType::Unpublished
    } else {
        proof {
            assert(hint is None);
        }
        return Err(());
    };
    proof {
        if hint is Some {
            assert(type_of_label(w@) == Some(hint.unwrap()));
            assert(t == hint.unwrap());
        }
    }
    Ok((t, nj))
}

/// Where each component of a serialized metadata object stands.
#[verifier::rlimit(100)]
proof fn lemma_meta_decompose(sv: Seq<char>, i: int, mv: LibraryEntryMetaV)
    requires
        text_continues(sv, i, ser_meta(mv)),
    ensures
        ({
            let j0 = i + "{\"key\":"@.len();
            let j1 = j0 + ser_string(mv.key).len();
            let j2 = j1 + ",\"entry_type\":"@.len();
            let j3 = j2 + ser_string(type_label_seq(mv.entry_type)).len();
            let j4 = j3 + ",\"title\":"@.len();
            let j5 = j4 + ser_string(mv.title).len();
            let j6 = j5 + ",\"authors\":"@.len();
            let j7 = j6 + ser_str_array(mv.authors).len();
            let j8 = j7 + ",\"year\":"@.len();
            let j9 = j8 + dec_str_of(mv.year as nat).len();
            let j10 = j9 + ",\"month\":"@.len();
            let j11 = j10 + ser_month_opt(mv.month).len();
            let j12 = j11 + ",\"original_tags\":"@.len();
            let j13 = j12 + ser_tags_opt(mv.original_tags).len();
            &&& text_continues(sv, i, "{\"key\":"@)
            &&& text_continues(sv, j0, ser_string(mv.key))
            &&& text_continues(sv, j1, ",\"entry_type\":"@)
            &&& text_continues(sv, j2, ser_string(type_label_seq(mv.entry_type)))
            &&& text_continues(sv, j3, ",\"title\":"@)
            &&& text_continues(sv, j4, ser_string(mv.title))
            &&& text_continues(sv, j5, ",\"authors\":"@)
            &&& text_continues(sv, j6, ser_str_array(mv.authors))
            &&& text_continues(sv, j7, ",\"year\":"@)
            &&& text_continues(sv, j8, dec_str_of(mv.year as nat))
            &&& j9 < sv.len() && sv[j9] == ','
            &&& text_continues(sv, j9, ",\"month\":"@)
            &&& text_continues(sv, j10, ser_month_opt(mv.month))
            &&& text_continues(sv, j11, ",\"original_tags\":"@)
            &&& text_continues(sv, j12, ser_tags_opt(mv.original_tags))
            &&& text_continues(sv, j13, seq!['}'])
            &&& j13 + 1 == i + ser_meta(mv).len()
        }),
{
    reveal_strlit(",\"month\":");
    let z1 = seq!['}'];
    let y1 = ser_tags_opt(mv.original_tags) + z1;
    let x1 = ",\"original_tags\":"@ + y1;
    let w1 = ser_month_opt(mv.month) + x1;
    let n1 = ",\"month\":"@ + w1;
    let u1 = dec_str_of(mv.year as nat) + n1;
    let t1 = ",\"year\":"@ + u1;
    let s1 = ser_str_array(mv.authors) + t1;
    let q1 = ",\"authors\":"@ + s1;
    let p1 = ser_string(mv.title) + q1;
    let o1 = ",\"title\":"@ + p1;
    let m1 = ser_string(type_label_seq(mv.entry_type)) + o1;
    let l1 = ",\"entry_type\":"@ + m1;
    let a1 = ser_string(mv.key) + l1;
    let g2 = "{\"key\":"@ + ser_string(mv.key);
    let g3 = g2 + ",\"entry_type\":"@;
    let g4 = g3 + ser_string(type_label_seq(mv.entry_type));
    let g5 = g4 + ",\"title\":"@;
    let g6 = g5 + ser_string(mv.title);
    let g7 = g6 + ",\"authors\":"@;
    let g8 = g7 + ser_str_array(mv.authors);
    let g9 = g8 + ",\"year\":"@;
    let g10 = g9 + dec_str_of(mv.year as nat);
    let g11 = g10 + ",\"month\":"@;
    let g12 = g11 + ser_month_opt(mv.month);
    let g13 = g12 + ",\"original_tags\":"@;
    let g14 = g13 + ser_tags_opt(mv.original_tags);
    assert(ser_meta(mv) == g14 + seq!['}']);
    lemma_assoc(g13, ser_tags_opt(mv.original_tags), z1);
    lemma_assoc(g12, ",\"original_tags\":"@, y1);
    lemma_assoc(g11, ser_month_opt(mv.month), x1);
    lemma_assoc(g10, ",\"month\":"@, w1);
    lemma_assoc(g9, dec_str_of(mv.year as nat), n1);
    lemma_assoc(g8, ",\"year\":"@, u1);
    lemma_assoc(g7, ser_str_array(mv.authors), t1);
    lemma_assoc(g6, ",\"authors\":"@, s1);
    lemma_assoc(g5, ser_string(mv.title), q1);
    lemma_assoc(g4, ",\"title\":"@, p1);
    lemma_assoc(g3, ser_string(type_label_seq(mv.entry_type)), o1);
    lemma_assoc(g2, ",\"entry_type\":"@, m1);
    lemma_assoc("{\"key\":"@, ser_string(mv.key), l1);
    assert(ser_meta(mv) == "{\"key\":"@ + a1);
    lemma_continues_split(sv, i, "{\"key\":"@, a1);
    let j0 = i + "{\"key\":"@.len();
    lemma_continues_split(sv, j0, ser_string(mv.key), l1);
    let j1 = j0 + ser_string(mv.key).len();
    lemma_continues_split(sv, j1, ",\"entry_type\":"@, m1);
    let j2 = j1 + ",\"entry_type\":"@.len();
    lemma_continues_split(sv, j2, ser_string(type_label_seq(mv.entry_type)), o1);
    let j3 = j2 + ser_string(type_label_seq(mv.entry_type)).len();
    lemma_continues_split(sv, j3, ",\"title\":"@, p1);
    let j4 = j3 + ",\"title\":"@.len();
    lemma_continues_split(sv, j4, ser_string(mv.title), q1);
    let j5 = j4 + ser_string(mv.title).len();
    lemma_continues_split(sv, j5, ",\"authors\":"@, s1);
    let j6 = j5 + ",\"authors\":"@.len();
    lemma_continues_split(sv, j6, ser_str_array(mv.authors), t1);
    let j7 = j6 + ser_str_array(mv.authors).len();
    lemma_continues_split(sv, j7, ",\"year\":"@, u1);
    let j8 = j7 + ",\"year\":"@.len();
    lemma_continues_split(sv, j8, dec_str_of(mv.year as nat), n1);
    let j9 = j8 + dec_str_of(mv.year as nat).len();
    lemma_continues_index(sv, j9, n1, 0);
    lemma_continues_split(sv, j9, ",\"month\":"@, w1);
    let j10 = j9 + ",\"month\":"@.len();
    lemma_continues_split(sv, j10, ser_month_opt(mv.month), x1);
    let j11 = j10 + ser_month_opt(mv.month).len();
    lemma_continues_split(sv, j11, ",\"original_tags\":"@, y1);
    let j12 = j11 + ",\"original_tags\":"@.len();
    lemma_continues_split(sv, j12, ser_tags_opt(mv.original_tags), z1);
}

#[verifier::rlimit(100)]
fn parse_meta_at(s: &Vec<char>, i: usize, Ghost(hint): Ghost<Option<LibraryEntryMetaV>>) -> (r:
    Result<(LibraryEntryMeta, usize), ()>)
    requires
        hint matches Some(mv) ==> text_continues(s@, i as int, ser_meta(mv)),
    ensures
        r is Ok ==> i < r.unwrap().1 <= s@.len(),
        hint matches Some(mv) ==> r is Ok && r.unwrap().0@ == mv && r.unwrap().1 == i + ser_meta(
            mv,
        ).len(),
{
    proof {
        if hint is Some {
            lemma_meta_decompose(s@, i as int, hint.unwrap());
            assert(!crate::strutil::is_dec_digit(','));
            reveal_strlit("}");
            assert("}"@ =~= seq!['}']);
        }
    }
    let j0 = match expect_lit(s, i, "{\"key\":") {
        Ok(n) => n,
        Err(()) => {
            proof {
                assert(hint is None);
            }
            return Err(());
        },
    };
    let ghost kh: Option<Seq<char>> = if hint is Some {
        Some(hint.unwrap().key)
    } else {
        None
    };
    let (key, j1) = match parse_string_at(s, j0, Ghost(kh)) {
        Ok(p) => p,
        Err(()) => {
            proof {
                assert(hint is None);
            }
            return Err(());
        },
    };
    let j2 = match expect_lit(s, j1, ",\"entry_type\":") {
        Ok(n) => n,
        Err(()) => {
            proof {
                assert(hint is None);
            }
            return Err(());
        },
    };
    let ghost th: Option<LibraryEntryType> = if hint is Some {
        Some(hint.unwrap().entry_type)
    } else {
        None
    };
    let (etype, j3) = match parse_type_at(s, j2, Ghost(th)) {
        Ok(p) => p,
        Err(()) => {
            proof {
                assert(hint is None);
            }
            return Err(());
        },
    };
    let j4 = match expect_lit(s, j3, ",\"title\":") {
        Ok(n) => n,
        Err(()) => {
            proof {
                assert(hint is None);
            }
            return Err(());
        },
    };
    let ghost tih: Option<Seq<char>> = if hint is Some {
        Some(hint.unwrap().title)
    } else {
        None
    };
    let (title, j5) = match parse_string_at(s, j4, Ghost(tih)) {
        Ok(p) => p,
        Err(()) => {
            proof {
                assert(hint is None);
            }
            return Err(());
        },
    };
    let j6 = match expect_lit(s, j5, ",\"authors\":") {
        Ok(n) => n,
        Err(()) => {
            proof {
                assert(hint is None);
            }
            return Err(());
        },
    };
    let ghost ah: Option<Seq<Seq<char>>> = if hint is Some {
        Some(hint.unwrap().authors)
    } else {
        None
    };
    let (authors, j7) = match parse_str_array_at(s, j6, Ghost(ah)) {
        Ok(p) => p,
        Err(()) => {
            proof {
                assert(hint is None);
            }
            return Err(());
        },
    };
    let j8 = match expect_lit(s, j7, ",\"year\":") {
        Ok(n) => n,
        Err(()) => {
            proof {
                assert(hint is None);
            }
            return Err(());
        },
    };
    let ghost yh: Option<u32> = if hint is Some {
        Some(hint.unwrap().year)
    } else {
        None
    };
    let (year, j9) = match parse_u32_at(s, j8, Ghost(yh)) {
        Ok(p) => p,
        Err(()) => {
            proof {
                assert(hint is None);
            }
            return Err(());
        },
    };
    let j10 = match expect_lit(s, j9, ",\"month\":") {
        Ok(n) => n,
        Err(()) => {
            proof {
                assert(hint is None);
            }
            return Err(());
        },
    };
    let ghost mh: Option<Option<Month>> = if hint is Some {
        Some(hint.unwrap().month)
    } else {
        None
    };
    let (month, j11) = match parse_month_opt_at(s, j10, Ghost(mh)) {
        Ok(p) => p,
        Err(()) => {
            proof {
                assert(hint is None);
            }
            return Err(());
        },
    };
    let j12 = match expect_lit(s, j11, ",\"original_tags\":") {
        Ok(n) => n,
        Err(()) => {
            proof {
                assert(hint is None);
            }
            return Err(());
        },
    };
    let ghost gh: Option<Option<Seq<(Seq<char>, Seq<char>)>>> = if hint is Some {
        Some(hint.unwrap().original_tags)
    } else {
        None
    };
    let (tags, j13) = match parse_tags_opt_at(s, j12, Ghost(gh)) {
        Ok(p) => p,
        Err(()) => {
            proof {
                assert(hint is None);
            }
            return Err(());
        },
    };
    let j14 = match expect_lit(s, j13, "}") {
        Ok(n) => n,
        Err(()) => {
            proof {
                assert(hint is None);
            }
            return Err(());
        },
    };
    let meta = LibraryEntryMeta::new(key, etype, title, authors, year, month, tags);
    proof {
        if hint is Some {
            let mv = hint.unwrap();
            assert(meta@ =~= mv);
            assert(j14 == i + ser_meta(mv).len());
        }
    }
    Ok((meta, j14))
}

/// Where each component of a serialized entry object stands.
#[verifier::rlimit(100)]
proof fn lemma_entry_decompose(sv: Seq<char>, i: int, ev: LibraryEntryV)
    requires
        text_continues(sv, i, ser_entry(ev)),
    ensures
        ({
            let j0 = i + "{\"meta\":"@.len();
            let j1 = j0 + ser_meta(ev.meta).len();
            let j2 = j1 + ",\"tags\":"@.len();
            let j3 = j2 + ser_str_array(ev.tags).len();
            let j4 = j3 + ",\"file_paths\":"@.len();
            let j5 = j4 + ser_str_array(ev.file_paths).len();
            let j6 = j5 + ",\"digest\":\""@.len();
            let j7 = j6 + hex_of(ev.digest).len();
            &&& text_continues(sv, i, "{\"meta\":"@)
            &&& text_continues(sv, j0, ser_meta(ev.meta))
            &&& text_continues(sv, j1, ",\"tags\":"@)
            &&& text_continues(sv, j2, ser_str_array(ev.tags))
            &&& text_continues(sv, j3, ",\"file_paths\":"@)
            &&& text_continues(sv, j4, ser_str_array(ev.file_paths))
            &&& text_continues(sv, j5, ",\"digest\":\""@)
            &&& text_continues(sv, j6, hex_of(ev.digest) + seq!['"'])
            &&& text_continues(sv, j7, "\"}"@)
            &&& j7 + 2 == i + ser_entry(ev).len()
        }),
{
    reveal_strlit("\"}");
    let z1 = seq!['"'] + seq!['}'];
    let y1 = hex_of(ev.digest) + z1;
    let x1 = ",\"digest\":\""@ + y1;
    let w1 = ser_str_array(ev.file_paths) + x1;
    let u1 = ",\"file_paths\":"@ + w1;
    let t1 = ser_str_array(ev.tags) + u1;
    let s1 = ",\"tags\":"@ + t1;
    let q1 = ser_meta(ev.meta) + s1;
    let g2 = "{\"meta\":"@ + ser_meta(ev.meta);
    let g3 = g2 + ",\"tags\":"@;
    let g4 = g3 + ser_str_array(ev.tags);
    let g5 = g4 + ",\"file_paths\":"@;
    let g6 = g5 + ser_str_array(ev.file_paths);
    let g7 = g6 + ",\"digest\":\""@;
    let g8 = g7 + hex_of(ev.digest);
    assert(ser_entry(ev) == g8 + "\"}"@);
    assert("\"}"@ =~= z1);
    lemma_assoc(g7, hex_of(ev.digest), z1);
    lemma_assoc(g6, ",\"digest\":\""@, y1);
    lemma_assoc(g5, ser_str_array(ev.file_paths), x1);
    lemma_assoc(g4, ",\"file_paths\":"@, w1);
    lemma_assoc(g3, ser_str_array(ev.tags), u1);
    lemma_assoc(g2, ",\"tags\":"@, t1);
    lemma_assoc("{\"meta\":"@, ser_meta(ev.meta), s1);
    assert(ser_entry(ev) == "{\"meta\":"@ + q1);
    lemma_continues_split(sv, i, "{\"meta\":"@, q1);
    let j0 = i + "{\"meta\":"@.len();
    lemma_continues_split(sv, j0, ser_meta(ev.meta), s1);
    let j1 = j0 + ser_meta(ev.meta).len();
    lemma_continues_split(sv, j1, ",\"tags\":"@, t1);
    let j2 = j1 + ",\"tags\":"@.len();
    lemma_continues_split(sv, j2, ser_str_array(ev.tags), u1);
    let j3 = j2 + ser_str_array(ev.tags).len();
    lemma_continues_split(sv, j3, ",\"file_paths\":"@, w1);
    let j4 = j3 + ",\"file_paths\":"@.len();
    lemma_continues_split(sv, j4, ser_str_array(ev.file_paths), x1);
    let j5 = j4 + ser_str_array(ev.file_paths).len();
    lemma_continues_split(sv, j5, ",\"digest\":\""@, y1);
    let j6 = j5 + ",\"digest\":\""@.len();
    assert(y1 =~= (hex_of(ev.digest) + seq!['"']) + seq!['}']) by {
        lemma_assoc(hex_of(ev.digest), seq!['"'], seq!['}']);
    }
    lemma_continues_split(sv, j6, hex_of(ev.digest) + seq!['"'], seq!['}']);
    let j7 = j6 + hex_of(ev.digest).len();
    lemma_continues_split(sv, j6, hex_of(ev.digest), seq!['"']);
    lemma_continues_join(sv, j7, seq!['"'], seq!['}']);
}

#[verifier::rlimit(100)]
fn parse_entry_at(s: &Vec<char>, i: usize, Ghost(hint): Ghost<Option<LibraryEntryV>>) -> (r:
    Result<(LibraryEntry, usize), ()>)
    requires
        hint matches Some(ev) ==> text_continues(s@, i as int, ser_entry(ev))
            && entry_well_formed(ev),
    ensures
        r is Ok ==> i < r.unwrap().1 <= s@.len(),
        r is Ok ==> entry_well_formed(r.unwrap().0@),
        hint matches Some(ev) ==> r is Ok && r.unwrap().0@ == ev && r.unwrap().1 == i + ser_entry(
            ev,
        ).len(),
{
    proof {
        if hint is Some {
            lemma_entry_decompose(s@, i as int, hint.unwrap());
            lemma_hex_chars_not_quote(hint.unwrap().digest);
        }
    }
    let j0 = match expect_lit(s, i, "{\"meta\":") {
        Ok(n) => n,
        Err(()) => {
            proof {
                assert(hint is None);
            }
            return Err(());
        },
    };
    let ghost mh: Option<LibraryEntryMetaV> = if hint is Some {
        Some(hint.unwrap().meta)
    } else {
        None
    };
    let (meta, j1) = match parse_meta_at(s, j0, Ghost(mh)) {
        Ok(p) => p,
        Err(()) => {
            proof {
                assert(hint is None);
            }
            return Err(());
        },
    };
    let j2 = match expect_lit(s, j1, ",\"tags\":") {
        Ok(n) => n,
        Err(()) => {
            proof {
                assert(hint is None);
            }
            return Err(());
        },
    };
    let ghost tgh: Option<Seq<Seq<char>>> = if hint is Some {
        Some(hint.unwrap().tags)
    } else {
        None
    };
    let (tags, j3) = match parse_str_array_at(s, j2, Ghost(tgh)) {
        Ok(p) => p,
        Err(()) => {
            proof {
                assert(hint is None);
            }
            return Err(());
        },
    };
    let j4 = match expect_lit(s, j3, ",\"file_paths\":") {
        Ok(n) => n,
        Err(()) => {
            proof {
                assert(hint is None);
            }
            return Err(());
        },
    };
    let ghost fph: Option<Seq<Seq<char>>> = if hint is Some {
        Some(hint.unwrap().file_paths)
    } else {
        None
    };
    let (file_paths, j5) = match parse_str_array_at(s, j4, Ghost(fph)) {
        Ok(p) => p,
        Err(()) => {
            proof {
                assert(hint is None);
            }
            return Err(());
        },
    };
    if file_paths.len() == 0 {
        proof {
            assert(hint is None);
        }
        return Err(());
    }
    let j6 = match expect_lit(s, j5, ",\"digest\":\"") {
        Ok(n) => n,
        Err(()) => {
            proof {
                assert(hint is None);
            }
            return Err(());
        },
    };
    let ghost dh: Option<Seq<u8>> = if hint is Some {
        Some(hint.unwrap().digest)
    } else {
        None
    };
    let (digest, j7) = match parse_hex_until_quote(s, j6, Ghost(dh)) {
        Ok(p) => p,
        Err(()) => {
            proof {
                assert(hint is None);
            }
            return Err(());
        },
    };
    if digest.len() != DIGEST_LEN {
        proof {
            assert(hint is None);
        }
        return Err(());
    }
    let j8 = match expect_lit(s, j7, "\"}") {
        Ok(n) => n,
        Err(()) => {
            proof {
                assert(hint is None);
            }
            return Err(());
        },
    };
    if j8 <= i {
        proof {
            assert(hint is None);
        }
        return Err(());
    }
    let entry = LibraryEntry::new(meta, tags, file_paths, digest);
    proof {
        if hint is Some {
            let ev = hint.unwrap();
            assert(entry@ =~= ev);
            assert(j8 == i + ser_entry(ev).len());
        }
    }
    Ok((entry, j8))
}

/// Where each part of a serialized library document stands.
#[verifier::rlimit(100)]
proof fn lemma_document_decompose(sv: Seq<char>, v: VersionSpec, es: Seq<LibraryEntryV>)
    requires
        sv == ser_library(v, es),
    ensures
        ({
            let j0 = "{\"creation_version\":"@.len() as int;
            let j1 = j0 + ser_string(version_text_of(v)).len();
            let j2 = j1 + ",\"entries\":["@.len();
            let j3 = j2 + ser_entries(es).len();
            &&& text_continues(sv, 0, "{\"creation_version\":"@)
            &&& text_continues(sv, j0, ser_string(version_text_of(v)))
            &&& text_continues(sv, j1, ",\"entries\":["@)
            &&& text_continues(sv, j2, ser_entries(es) + seq![']'])
            &&& text_continues(sv, j3 + 1, seq!['}'])
            &&& j3 + 2 == sv.len()
        }),
{
    reveal_strlit("{\"creation_version\":");
    reveal_strlit("{\"creation_version\":\"");
    reveal_strlit(",\"entries\":[");
    reveal_strlit("\",\"entries\":[");
    reveal_strlit("]}");
    let vt = version_text_of(v);
    crate::strutil::lemma_dec_str_digits(v.major as nat);
    crate::strutil::lemma_dec_str_digits(v.minor as nat);
    crate::strutil::lemma_dec_str_digits(v.patch as nat);
    assert(forall|k: int|
        0 <= k < vt.len() ==> (#[trigger] vt[k]) != '"' && vt[k] != '\\' && (vt[k] as u32)
            >= 32) by {
        let d1 = dec_str_of(v.major as nat);
        let d2 = dec_str_of(v.minor as nat);
        let d3 = dec_str_of(v.patch as nat);
        assert(forall|k: int|
            0 <= k < d1.len() ==> crate::strutil::is_dec_digit(#[trigger] d1[k]));
        assert(forall|k: int|
            0 <= k < d2.len() ==> crate::strutil::is_dec_digit(#[trigger] d2[k]));
        assert(forall|k: int|
            0 <= k < d3.len() ==> crate::strutil::is_dec_digit(#[trigger] d3[k]));
        assert forall|k: int|
            0 <= k < vt.len() implies (#[trigger] vt[k]) != '"' && vt[k] != '\\' && (
            vt[k] as u32) >= 32 by {
            if k < d1.len() {
                assert(vt[k] == d1[k]);
            } else if k == d1.len() {
                assert(vt[k] == '.');
            } else if k < d1.len() + 1 + d2.len() {
                assert(vt[k] == d2[k - d1.len() - 1]);
            } else if k == d1.len() + 1 + d2.len() {
                assert(vt[k] == '.');
            } else {
                assert(vt[k] == d3[k - d1.len() - 1 - d2.len() - 1]);
            }
        }
    }
    lemma_escape_plain(vt);
    let lit_a = "{\"creation_version\":"@;
    let tail3 = "\",\"entries\":["@.skip(1);
    assert("{\"creation_version\":\""@ =~= lit_a + seq!['"']);
    assert("\",\"entries\":["@ =~= seq!['"'] + tail3);
    assert(tail3 =~= ",\"entries\":["@);
    assert("]}"@ =~= seq![']'] + seq!['}']);
    let fin = seq![']'] + seq!['}'];
    let g2 = "{\"creation_version\":\""@ + vt;
    let g3 = g2 + "\",\"entries\":["@;
    let g4 = g3 + ser_entries(es);
    assert(ser_library(v, es) == g4 + "]}"@);
    let c1 = ser_entries(es) + fin;
    lemma_assoc(g3, ser_entries(es), fin);
    assert(g4 + "]}"@ == g3 + c1);
    let b1 = tail3 + c1;
    assert(g2 + "\",\"entries\":["@ =~= (g2 + seq!['"']) + tail3);
    lemma_assoc(g2 + seq!['"'], tail3, c1);
    assert(g3 + c1 == (g2 + seq!['"']) + b1);
    assert(ser_string(vt) =~= seq!['"'] + vt + seq!['"']);
    assert((g2 + seq!['"']) + b1 =~= lit_a + (ser_string(vt) + b1));
    assert(sv == lit_a + (ser_string(vt) + b1));
    assert(text_continues(sv, 0, lit_a + (ser_string(vt) + b1))) by {
        assert(sv.subrange(0, sv.len() as int) =~= sv);
    }
    lemma_continues_split(sv, 0, lit_a, ser_string(vt) + b1);
    let j0 = lit_a.len() as int;
    lemma_continues_split(sv, j0, ser_string(vt), b1);
    let j1 = j0 + ser_string(vt).len();
    lemma_continues_split(sv, j1, tail3, c1);
    let j2 = j1 + tail3.len();
    assert(c1 =~= (ser_entries(es) + seq![']']) + seq!['}']) by {
        lemma_assoc(ser_entries(es), seq![']'], seq!['}']);
    }
    lemma_continues_split(sv, j2, ser_entries(es) + seq![']'], seq!['}']);
}

#[verifier::rlimit(100)]
fn parse_document(
    s: &Vec<char>,
    Ghost(hint): Ghost<Option<(VersionSpec, Seq<LibraryEntryV>)>>,
) -> (r: Result<(VersionSpec, Vec<LibraryEntry>), ()>)
    requires
        hint matches Some((v, es)) ==> s@ == ser_library(v, es)
            && crate::model::entries_all_well_formed(es),
    ensures
        r is Ok ==> crate::model::entries_all_well_formed(entry_views(r.unwrap().1@)),
        hint matches Some((v, es)) ==> r is Ok && r.unwrap().0 == v && entry_views(
            r.unwrap().1@,
        ) == es,
{
    proof {
        reveal_strlit("}");
        assert("}"@ =~= seq!['}']);
        if hint is Some {
            let (v, es) = hint.unwrap();
            lemma_document_decompose(s@, v, es);
        }
    }
    let j0 = match expect_lit(s, 0, "{\"creation_version\":") {
        Ok(n) => n,
        Err(()) => {
            proof {
                assert(hint is None);
            }
            return Err(());
        },
    };
    let ghost vh: Option<Seq<char>> = if hint is Some {
        Some(version_text_of(hint.unwrap().0))
    } else {
        None
    };
    let (vtext, j1) = match parse_string_at(s, j0, Ghost(vh)) {
        Ok(p) => p,
        Err(()) => {
            proof {
                assert(hint is None);
            }
            return Err(());
        },
    };
    let version = match VersionSpec::from_str(vtext.as_str()) {
        Ok(v) => v,
        Err(_) => {
            proof {
                if hint is Some {
                    crate::library::lemma_version_text_roundtrip(hint.unwrap().0);
                }
                assert(hint is None);
            }
            return Err(());
        },
    };
    proof {
        if hint is Some {
            crate::library::lemma_version_text_roundtrip(hint.unwrap().0);
            assert(version == hint.unwrap().0);
        }
    }
    let j2 = match expect_lit(s, j1, ",\"entries\":[") {
        Ok(n) => n,
        Err(()) => {
            proof {
                assert(hint is None);
            }
            return Err(());
        },
    };
    let mut entries: Vec<LibraryEntry> = Vec::new();
    let mut j: usize = j2;
    let ghost mut m: int = 0;
    proof {
        if hint is Some {
            let (v, es) = hint.unwrap();
            let mes = es.map_values(|e: LibraryEntryV| ser_entry(e));
            if es.len() == 0 {
                assert(ser_entries(es) + seq![']'] =~= seq![']']);
                lemma_continues_index(s@, j as int, seq![']'], 0);
            } else {
                lemma_ser_entry_shape(es[0]);
                assert(mes[0] == ser_entry(es[0]));
                if mes.len() == 1 {
                    assert(ser_entries(es) == mes[0]);
                } else {
                    assert(ser_entries(es) == mes[0] + seq![','] + joined(
                        mes.skip(1),
                        seq![','],
                    ));
                }
                assert((ser_entries(es) + seq![']'])[0] == mes[0][0]);
                lemma_continues_index(s@, j as int, ser_entries(es) + seq![']'], 0);
            }
            assert(entry_views(entries@) =~= es.take(0));
            assert(es.skip(0) =~= es);
        }
    }
    if j < s.len() && s[j] == ']' {
        proof {
            if hint is Some {
                let (v, es) = hint.unwrap();
                assert(es.len() == 0);
            }
        }
        j = j + 1;
    } else {
        loop
            invariant_except_break
                hint matches Some((v, es)) ==> {
                    &&& crate::model::entries_all_well_formed(es)
                    &&& 0 <= m < es.len()
                    &&& entry_views(entries@) == es.take(m)
                    &&& text_continues(
                        s@,
                        j as int,
                        joined(es.skip(m).map_values(|e: LibraryEntryV| ser_entry(e)), seq![','])
                            + seq![']'],
                    )
                    &&& j + joined(
                        es.skip(m).map_values(|e: LibraryEntryV| ser_entry(e)),
                        seq![','],
                    ).len() + 1 + 1 == s@.len()
                },
            invariant
                j <= s@.len(),
                crate::model::entries_all_well_formed(entry_views(entries@)),
            ensures
                j <= s@.len(),
                crate::model::entries_all_well_formed(entry_views(entries@)),
                hint matches Some((v, es)) ==> entry_views(entries@) == es && j + 1 == s@.len(),
            decreases s@.len() - j,
        {
            let ghost eh: Option<LibraryEntryV> = if hint is Some {
                Some(hint.unwrap().1[m])
            } else {
                None
            };
            proof {
                if hint is Some {
                    let (v, es) = hint.unwrap();
                    let tail_m = es.skip(m);
                    let mts = tail_m.map_values(|e: LibraryEntryV| ser_entry(e));
                    assert(mts[0] == ser_entry(es[m]));
                    assert(entry_well_formed(es[m]));
                    if tail_m.len() == 1 {
                        assert(joined(mts, seq![',']) == mts[0]);
                        assert(joined(mts, seq![',']) + seq![']'] =~= ser_entry(es[m])
                            + seq![']']);
                        lemma_continues_split(s@, j as int, ser_entry(es[m]), seq![']']);
                    } else {
                        assert(joined(mts, seq![',']) == mts[0] + seq![','] + joined(
                            mts.skip(1),
                            seq![','],
                        ));
                        assert(joined(mts, seq![',']) + seq![']'] =~= ser_entry(es[m]) + (seq![
                            ','
                        ] + (joined(mts.skip(1), seq![',']) + seq![']'])));
                        lemma_continues_split(
                            s@,
                            j as int,
                            ser_entry(es[m]),
                            seq![','] + (joined(mts.skip(1), seq![',']) + seq![']']),
                        );
                    }
                }
            }
            let (entry, nj) = match parse_entry_at(s, j, Ghost(eh)) {
                Ok(p) => p,
                Err(()) => {
                    proof {
                        assert(hint is None);
                    }
                    return Err(());
                },
            };
            let ghost prev_views = entry_views(entries@);
            let ghost ev_new = entry@;
            entries.push(entry);
            proof {
                assert forall|kk: int|
                    0 <= kk < entry_views(entries@).len() implies entry_well_formed(
                    #[trigger] entry_views(entries@)[kk],
                ) by {
                    if kk < prev_views.len() {
                        assert(entry_views(entries@)[kk] == prev_views[kk]);
                    } else {
                        assert(entry_views(entries@)[kk] == ev_new);
                    }
                }
                if hint is Some {
                    let (v, es) = hint.unwrap();
                    assert(es.take(m + 1).drop_last() =~= es.take(m));
                    assert(es.take(m + 1).last() == es[m]);
                    assert(entry_views(entries@) =~= es.take(m + 1));
                }
            }
            if nj >= s.len() {
                proof {
                    if hint is Some {
                        let (v, es) = hint.unwrap();
                        let tail_m = es.skip(m);
                        let mts = tail_m.map_values(|e: LibraryEntryV| ser_entry(e));
                        if tail_m.len() == 1 {
                            lemma_continues_index(s@, nj as int, seq![']'], 0);
                        } else {
                            lemma_continues_index(
                                s@,
                                nj as int,
                                seq![','] + (joined(mts.skip(1), seq![',']) + seq![']']),
                                0,
                            );
                        }
                    }
                    assert(hint is None);
                }
                return Err(());
            }
            proof {
                if hint is Some {
                    let (v, es) = hint.unwrap();
                    let tail_m = es.skip(m);
                    let mts = tail_m.map_values(|e: LibraryEntryV| ser_entry(e));
                    if tail_m.len() == 1 {
                        lemma_continues_index(s@, nj as int, seq![']'], 0);
                        assert(s@[nj as int] == ']');
                    } else {
                        lemma_continues_index(
                            s@,
                            nj as int,
                            seq![','] + (joined(mts.skip(1), seq![',']) + seq![']']),
                            0,
                        );
                        assert(s@[nj as int] == ',');
                    }
                }
            }
            if s[nj] == ']' {
                proof {
                    if hint is Some {
                        let (v, es) = hint.unwrap();
                        assert(es.skip(m).len() == 1);
                        assert(m + 1 == es.len());
                        assert(es.take(m + 1) =~= es);
                        assert(joined(
                            es.skip(m).map_values(|e: LibraryEntryV| ser_entry(e)),
                            seq![','],
                        ).len() == ser_entry(es[m]).len());
                    }
                }
                j = nj + 1;
                break ;
            }
            if s[nj] != ',' {
                proof {
                    assert(hint is None);
                }
                return Err(());
            }
            proof {
                if hint is Some {
                    let (v, es) = hint.unwrap();
                    let tail_m = es.skip(m);
                    let mts = tail_m.map_values(|e: LibraryEntryV| ser_entry(e));
                    assert(tail_m.len() != 1);
                    lemma_continues_split(
                        s@,
                        nj as int,
                        seq![','],
                        joined(mts.skip(1), seq![',']) + seq![']'],
                    );
                    assert(mts.skip(1) =~= tail_m.skip(1).map_values(
                        |e: LibraryEntryV| ser_entry(e),
                    ));
                    assert(tail_m.skip(1) =~= es.skip(m + 1));
                    assert(joined(mts, seq![',']).len() == ser_entry(es[m]).len() + 1 + joined(
                        mts.skip(1),
                        seq![','],
                    ).len());
                    m = m + 1;
                }
            }
            j = nj + 1;
        }
    }
    proof {
        if hint is Some {
            let (v, es) = hint.unwrap();
            if es.len() == 0 {
                assert(ser_entries(es).len() == 0);
                assert(entry_views(entries@) =~= es);
            }
            assert(j + 1 == s@.len());
            assert(text_continues(s@, j as int, "}"@));
        }
    }
    let j3 = match expect_lit(s, j, "}") {
        Ok(n) => n,
        Err(()) => {
            proof {
                assert(hint is None);
            }
            return Err(());
        },
    };
    if j3 != s.len() {
        proof {
            assert(hint is None);
        }
        return Err(());
    }
    Ok((version, entries))
}

/// Parses a persisted library document. The text is first brought to its
/// canonical form — insignificant whitespace between tokens dropped, the
/// usual JSON escapes rewritten to this crate's canonical escapes — and
/// must then read as exactly one canonical document. A successful load
/// hands back a version and entries that render to exactly that canonical
/// form; and every text whose canonical form is the rendering of a library
/// with well-formed entries loads to exactly that library. Together with
/// the injectivity of the rendering, every field round-trips.
pub fn parse_library(text: &str) -> (r: Result<
    (VersionSpec, Vec<LibraryEntry>),
    crate::library::LibraryPersistenceError,
>)
    ensures
        r is Ok ==> ser_library(r.unwrap().0, entry_views(r.unwrap().1@)) == normalize_spec(
            text@,
        ),
        r is Ok ==> crate::model::entries_all_well_formed(entry_views(r.unwrap().1@)),
        forall|v: VersionSpec, es: Seq<LibraryEntryV>|
            normalize_spec(text@) == ser_library(v, es)
                && crate::model::entries_all_well_formed(es) ==> r is Ok && r.unwrap().0 == v
                && entry_views(r.unwrap().1@) == es,
{
    let cs = str_to_chars(text);
    let norm = normalize_chars(&cs);
    let ghost hint: Option<(VersionSpec, Seq<LibraryEntryV>)> = if exists|
        v: VersionSpec,
        es: Seq<LibraryEntryV>,
    |
        normalize_spec(text@) == #[trigger] ser_library(v, es)
            && crate::model::entries_all_well_formed(es) {
        Some(
            choose|v: VersionSpec, es: Seq<LibraryEntryV>|
                normalize_spec(text@) == #[trigger] ser_library(v, es)
                    && crate::model::entries_all_well_formed(es),
        )
    } else {
        None
    };
    let (version, entries) = match parse_document(&norm, Ghost(hint)) {
        Ok(p) => p,
        Err(()) => {
            proof {
                assert(hint is None);
            }
            return Err(
                crate::library::LibraryPersistenceError::Serialization(
                    String::from_str("The library file does not hold a readable document."),
                ),
            );
        },
    };
    let rendered = render_library(version, &entries);
    let norm_text = chars_to_string(&norm);
    if rendered == norm_text {
        proof {
            assert forall|v: VersionSpec, es: Seq<LibraryEntryV>|
                normalize_spec(text@) == ser_library(v, es)
                    && crate::model::entries_all_well_formed(
                    es,
                ) implies version == v && entry_views(entries@) == es by {
                let (v0, es0) = hint.unwrap();
                lemma_ser_library_injective(v0, es0, v, es);
            }
        }
        Ok((version, entries))
    } else {
        proof {
            if hint is Some {
                let (v0, es0) = hint.unwrap();
                assert(rendered@ == ser_library(v0, es0));
                assert(false);
            }
        }
        Err(
            crate::library::LibraryPersistenceError::Serialization(
                String::from_str("The library file does not hold a canonical document."),
            ),
        )
    }
}

} // verus!
