//! Character-level string utilities: conversions between `String` and
//! `Vec<char>`, substring replacement, splitting, joining, and decimal
//! rendering / parsing of unsigned integers.

use vstd::prelude::*;
use vstd::string::*;

verus! {

/// The Unicode lowercase mapping computed by `str::to_lowercase`.
pub uninterp spec fn lower_of(s: Seq<char>) -> Seq<char>;

pub open spec fn is_ascii_seq(s: Seq<char>) -> bool {
    forall|i: int| 0 <= i < s.len() ==> (s[i] as u32) < 128
}

pub open spec fn ascii_lower_char(c: char) -> char {
    if 65 <= c as u32 && c as u32 <= 90 {
        (((c as u32) + 32) as u8) as char
    } else {
        c
    }
}

pub open spec fn ascii_lower_seq(s: Seq<char>) -> Seq<char> {
    Seq::new(s.len(), |i: int| ascii_lower_char(s[i]))
}

/// Relies on `String::push`: appends exactly one character.
pub assume_specification[ String::push ](s: &mut String, ch: char)
    ensures
        final(s)@ == old(s)@.push(ch),
;

/// Relies on `str::to_lowercase`: the result depends on the characters alone
/// (the Unicode lowercase mapping); on ASCII text it maps exactly `'A'..='Z'`
/// to `'a'..='z'` and leaves every other character unchanged.
pub assume_specification[ str::to_lowercase ](s: &str) -> (r: String)
    ensures
        r@ == lower_of(s@),
        is_ascii_seq(s@) ==> r@ == ascii_lower_seq(s@),
;

pub fn str_to_chars(s: &str) -> (r: Vec<char>)
    ensures
        r@ == s@,
{
    let n = s.unicode_len();
    let mut r: Vec<char> = Vec::new();
    let mut i: usize = 0;
    while i < n
        invariant
            n == s@.len(),
            i <= n,
            r@ == s@.take(i as int),
        decreases n - i,
    {
        let c = s.get_char(i);
        r.push(c);
        proof {
            assert(s@.take(i + 1 as int) =~= s@.take(i as int).push(s@[i as int]));
        }
        i = i + 1;
    }
    proof {
        assert(s@.take(n as int) =~= s@);
    }
    r
}

pub fn chars_to_string(v: &Vec<char>) -> (r: String)
    ensures
        r@ == v@,
{
    let mut r = String::new();
    let mut i: usize = 0;
    while i < v.len()
        invariant
            i <= v.len(),
            r@ == v@.take(i as int),
        decreases v.len() - i,
    {
        r.push(v[i]);
        proof {
            assert(v@.take(i + 1 as int) =~= v@.take(i as int).push(v@[i as int]));
        }
        i = i + 1;
    }
    proof {
        assert(v@.take(v.len() as int) =~= v@);
    }
    r
}

pub fn lowercase_chars(v: &Vec<char>) -> (r: Vec<char>)
    ensures
        r@ == lower_of(v@),
{
    let s = chars_to_string(v);
    let l = s.as_str().to_lowercase();
    str_to_chars(l.as_str())
}

pub fn push_all(out: &mut Vec<char>, xs: &Vec<char>)
    ensures
        final(out)@ == old(out)@ + xs@,
{
    let mut i: usize = 0;
    while i < xs.len()
        invariant
            i <= xs.len(),
            out@ == old(out)@ + xs@.take(i as int),
        decreases xs.len() - i,
    {
        out.push(xs[i]);
        proof {
            assert(old(out)@ + xs@.take(i + 1 as int) =~= (old(out)@ + xs@.take(i as int)).push(
                xs@[i as int],
            ));
        }
        i = i + 1;
    }
    proof {
        assert(old(out)@ + xs@.take(xs.len() as int) =~= old(out)@ + xs@);
    }
}

/// Whether `pat` occurs in `s` at position `i`.
pub open spec fn matches_at(s: Seq<char>, pat: Seq<char>, i: int) -> bool {
    0 <= i && i + pat.len() <= s.len() && s.subrange(i, i + pat.len() as int) == pat
}

pub fn check_match_at(s: &Vec<char>, pat: &Vec<char>, i: usize) -> (r: bool)
    requires
        i <= s.len(),
    ensures
        r == matches_at(s@, pat@, i as int),
{
    if pat.len() > s.len() - i {
        proof {
            assert(!matches_at(s@, pat@, i as int));
        }
        return false;
    }
    let mut j: usize = 0;
    while j < pat.len()
        invariant
            j <= pat.len(),
            i + pat.len() <= s.len(),
            forall|k: int| 0 <= k < j ==> s@[i + k] == pat@[k],
        decreases pat.len() - j,
    {
        if s[i + j] != pat[j] {
            proof {
                assert(s@.subrange(i as int, i + pat@.len() as int)[j as int] == s@[i + j]);
                assert(s@.subrange(i as int, i + pat@.len() as int) != pat@);
            }
            return false;
        }
        j = j + 1;
    }
    proof {
        assert(s@.subrange(i as int, i + pat@.len() as int) =~= pat@);
    }
    true
}

/// Left-to-right, non-overlapping replacement of `pat` by `rep`, as
/// `str::replace` performs it for a non-empty pattern.
pub open spec fn replace_spec(s: Seq<char>, pat: Seq<char>, rep: Seq<char>) -> Seq<char>
    decreases s.len(),
    when pat.len() > 0
{
    if s.len() < pat.len() {
        s
    } else if s.take(pat.len() as int) == pat {
        rep + replace_spec(s.skip(pat.len() as int), pat, rep)
    } else {
        seq![s[0]] + replace_spec(s.skip(1), pat, rep)
    }
}

pub fn replace_all(s: &Vec<char>, pat: &Vec<char>, rep: &Vec<char>) -> (r: Vec<char>)
    requires
        pat.len() >= 1,
    ensures
        r@ == replace_spec(s@, pat@, rep@),
{
    let mut out: Vec<char> = Vec::new();
    let mut i: usize = 0;
    proof {
        assert(s@.skip(0) =~= s@);
    }
    while i < s.len()
        invariant
            pat@.len() >= 1,
            i <= s.len(),
            replace_spec(s@, pat@, rep@) == out@ + replace_spec(s@.skip(i as int), pat@, rep@),
        decreases s.len() - i,
    {
        let ghost rem = s@.skip(i as int);
        if check_match_at(s, pat, i) {
            proof {
                assert(rem.take(pat@.len() as int) =~= s@.subrange(i as int, i + pat@.len() as int));
                assert(rem.skip(pat@.len() as int) =~= s@.skip(i + pat@.len() as int));
            }
            push_all(&mut out, rep);
            i = i + pat.len();
        } else {
            proof {
                assert(rem.len() >= 1 && rem[0] == s@[i as int]);
                if rem.len() >= pat@.len() {
                    assert(rem.take(pat@.len() as int) =~= s@.subrange(
                        i as int,
                        i + pat@.len() as int,
                    ));
                }
                assert(rem.skip(1) =~= s@.skip(i + 1));
                assert(out@ + replace_spec(rem, pat@, rep@) =~= out@.push(s@[i as int])
                    + replace_spec(s@.skip(i + 1), pat@, rep@));
            }
            out.push(s[i]);
            i = i + 1;
        }
    }
    proof {
        assert(s@.skip(s@.len() as int) =~= Seq::<char>::empty());
        assert(out@ + replace_spec(s@.skip(s@.len() as int), pat@, rep@) =~= out@);
    }
    out
}

/// The view of each element of a list of character vectors.
pub open spec fn views_of(s: Seq<Vec<char>>) -> Seq<Seq<char>> {
    Seq::new(s.len(), |i: int| s[i]@)
}

/// The view of each element of a list of strings.
pub open spec fn string_views(s: Seq<String>) -> Seq<Seq<char>> {
    Seq::new(s.len(), |i: int| s[i]@)
}

/// The views of each side of a list of string pairs.
pub open spec fn pair_views(s: Seq<(String, String)>) -> Seq<(Seq<char>, Seq<char>)> {
    Seq::new(s.len(), |i: int| (s[i].0@, s[i].1@))
}

pub fn clone_strings(v: &Vec<String>) -> (r: Vec<String>)
    ensures
        string_views(r@) == string_views(v@),
        r@.len() == v@.len(),
{
    let mut r: Vec<String> = Vec::new();
    let mut i: usize = 0;
    while i < v.len()
        invariant
            i <= v.len(),
            r@.len() == i,
            forall|k: int| 0 <= k < i ==> r@[k]@ == v@[k]@,
        decreases v.len() - i,
    {
        r.push(v[i].clone());
        i = i + 1;
    }
    proof {
        assert(string_views(r@) =~= string_views(v@));
    }
    r
}

pub fn clone_pairs(v: &Vec<(String, String)>) -> (r: Vec<(String, String)>)
    ensures
        pair_views(r@) == pair_views(v@),
        r@.len() == v@.len(),
{
    let mut r: Vec<(String, String)> = Vec::new();
    let mut i: usize = 0;
    while i < v.len()
        invariant
            i <= v.len(),
            r@.len() == i,
            forall|k: int| 0 <= k < i ==> r@[k].0@ == v@[k].0@ && r@[k].1@ == v@[k].1@,
        decreases v.len() - i,
    {
        let a = v[i].0.clone();
        let b = v[i].1.clone();
        r.push((a, b));
        i = i + 1;
    }
    proof {
        assert(pair_views(r@) =~= pair_views(v@));
    }
    r
}

pub fn contains_char(v: &Vec<char>, c: char) -> (r: bool)
    ensures
        r == v@.contains(c),
{
    let mut i: usize = 0;
    while i < v.len()
        invariant
            i <= v.len(),
            forall|k: int| 0 <= k < i ==> v@[k] != c,
        decreases v.len() - i,
    {
        if v[i] == c {
            return true;
        }
        i = i + 1;
    }
    false
}

pub fn clone_chars(v: &Vec<char>) -> (r: Vec<char>)
    ensures
        r@ == v@,
{
    let mut r: Vec<char> = Vec::new();
    let mut i: usize = 0;
    while i < v.len()
        invariant
            i <= v.len(),
            r@ == v@.take(i as int),
        decreases v.len() - i,
    {
        r.push(v[i]);
        proof {
            assert(v@.take(i + 1 as int) =~= v@.take(i as int).push(v@[i as int]));
        }
        i = i + 1;
    }
    proof {
        assert(v@.take(v.len() as int) =~= v@);
    }
    r
}

pub fn clone_bytes(v: &Vec<u8>) -> (r: Vec<u8>)
    ensures
        r@ == v@,
{
    let mut r: Vec<u8> = Vec::new();
    let mut i: usize = 0;
    while i < v.len()
        invariant
            i <= v.len(),
            r@ == v@.take(i as int),
        decreases v.len() - i,
    {
        r.push(v[i]);
        proof {
            assert(v@.take(i + 1 as int) =~= v@.take(i as int).push(v@[i as int]));
        }
        i = i + 1;
    }
    proof {
        assert(v@.take(v.len() as int) =~= v@);
    }
    r
}

/// Splitting on a non-empty separator, as `str::split` performs it: the
/// result always has at least one part, and separators at the ends or next
/// to each other produce empty parts.
pub open spec fn split_spec(s: Seq<char>, sep: Seq<char>) -> Seq<Seq<char>>
    decreases s.len(),
    when sep.len() > 0
{
    if s.len() < sep.len() {
        seq![s]
    } else if s.take(sep.len() as int) == sep {
        seq![Seq::<char>::empty()] + split_spec(s.skip(sep.len() as int), sep)
    } else {
        let r = split_spec(s.skip(1), sep);
        seq![seq![s[0]] + r[0]] + r.skip(1)
    }
}

pub proof fn lemma_split_nonempty(s: Seq<char>, sep: Seq<char>)
    requires
        sep.len() > 0,
    ensures
        split_spec(s, sep).len() >= 1,
    decreases s.len(),
{
    if s.len() < sep.len() {
    } else if s.take(sep.len() as int) == sep {
        lemma_split_nonempty(s.skip(sep.len() as int), sep);
    } else {
        lemma_split_nonempty(s.skip(1), sep);
    }
}

pub fn split_all(s: &Vec<char>, sep: &Vec<char>) -> (r: Vec<Vec<char>>)
    requires
        sep.len() >= 1,
    ensures
        views_of(r@) == split_spec(s@, sep@),
        r.len() >= 1,
{
    let mut done: Vec<Vec<char>> = Vec::new();
    let mut cur: Vec<char> = Vec::new();
    let mut i: usize = 0;
    proof {
        assert(s@.skip(0) =~= s@);
        lemma_split_nonempty(s@, sep@);
    }
    while i < s.len()
        invariant
            sep@.len() >= 1,
            i <= s.len(),
            split_spec(s@.skip(i as int), sep@).len() >= 1,
            split_spec(s@, sep@) =~= views_of(done@) + seq![
                cur@ + split_spec(s@.skip(i as int), sep@)[0],
            ] + split_spec(s@.skip(i as int), sep@).skip(1),
        decreases s.len() - i,
    {
        let ghost rem = s@.skip(i as int);
        let ghost rsplit = split_spec(rem, sep@);
        if check_match_at(s, sep, i) {
            proof {
                assert(rem.take(sep@.len() as int) =~= s@.subrange(
                    i as int,
                    i + sep@.len() as int,
                ));
                assert(rem.skip(sep@.len() as int) =~= s@.skip(i + sep@.len()));
                lemma_split_nonempty(s@.skip(i + sep@.len()), sep@);
            }
            let finished = cur;
            cur = Vec::new();
            done.push(finished);
            proof {
                let nrem = s@.skip(i + sep@.len());
                let nsplit = split_spec(nrem, sep@);
                assert(rsplit =~= seq![Seq::<char>::empty()] + nsplit);
                assert(finished@ + rsplit[0] =~= finished@);
                assert(views_of(done@) =~= views_of(done@.drop_last()).push(finished@));
                assert(rsplit.skip(1) =~= nsplit);
                assert(split_spec(s@, sep@) =~= views_of(done@) + seq![cur@ + nsplit[0]]
                    + nsplit.skip(1));
            }
            i = i + sep.len();
        } else {
            proof {
                assert(rem.len() >= 1 && rem[0] == s@[i as int]);
                if rem.len() >= sep@.len() {
                    assert(rem.take(sep@.len() as int) =~= s@.subrange(
                        i as int,
                        i + sep@.len() as int,
                    ));
                }
                assert(rem.skip(1) =~= s@.skip(i + 1));
                lemma_split_nonempty(s@.skip(i + 1), sep@);
            }
            let ghost prev = cur@;
            cur.push(s[i]);
            proof {
                let nrem = s@.skip(i + 1);
                let nsplit = split_spec(nrem, sep@);
                if rem.len() < sep@.len() {
                    assert(rsplit == seq![rem]);
                    assert(nrem.len() < sep@.len());
                    assert(nsplit == seq![nrem]);
                    assert(seq![s@[i as int]] + nsplit[0] =~= rem);
                    assert(nsplit.skip(1) =~= Seq::<Seq<char>>::empty());
                }
                assert(rsplit =~= seq![seq![s@[i as int]] + nsplit[0]] + nsplit.skip(1));
                assert(rsplit[0] =~= seq![s@[i as int]] + nsplit[0]);
                assert(cur@ =~= prev.push(s@[i as int]));
                assert(prev + rsplit[0] =~= cur@ + nsplit[0]);
                assert(rsplit.skip(1) =~= nsplit.skip(1));
                assert(split_spec(s@, sep@) =~= views_of(done@) + seq![prev + rsplit[0]]
                    + rsplit.skip(1));
                assert(seq![prev + rsplit[0]] =~= seq![cur@ + nsplit[0]]);
                assert(split_spec(s@, sep@) =~= views_of(done@) + seq![cur@ + nsplit[0]]
                    + nsplit.skip(1));
            }
            i = i + 1;
        }
    }
    proof {
        let rem = s@.skip(s@.len() as int);
        assert(rem =~= Seq::<char>::empty());
        assert(split_spec(rem, sep@) =~= seq![Seq::<char>::empty()]);
        assert(cur@ + split_spec(rem, sep@)[0] =~= cur@);
    }
    done.push(cur);
    proof {
        assert(views_of(done@) =~= views_of(done@.drop_last()).push(done@.last()@));
        assert(views_of(done@) =~= split_spec(s@, sep@));
    }
    done
}

/// Splitting a text that does not contain the one-character separator
/// yields the text as the only part.
pub proof fn lemma_split_free(a: Seq<char>, c: char)
    requires
        forall|i: int| 0 <= i < a.len() ==> a[i] != c,
    ensures
        split_spec(a, seq![c]) == seq![a],
    decreases a.len(),
{
    if a.len() == 0 {
    } else {
        assert(a.take(1) != seq![c]) by {
            assert(a.take(1)[0] == a[0]);
        }
        assert(forall|i: int| 0 <= i < a.skip(1).len() ==> a.skip(1)[i] != c);
        lemma_split_free(a.skip(1), c);
        let r = split_spec(a.skip(1), seq![c]);
        assert(split_spec(a, seq![c]) == seq![seq![a[0]] + r[0]] + r.skip(1));
        assert(seq![a[0]] + a.skip(1) =~= a);
        assert(r.skip(1) =~= Seq::<Seq<char>>::empty());
        assert(split_spec(a, seq![c]) =~= seq![a]);
    }
}

/// Splitting peels a separator-free head part off at the first separator.
pub proof fn lemma_split_head_part(a: Seq<char>, b: Seq<char>, c: char)
    requires
        forall|i: int| 0 <= i < a.len() ==> a[i] != c,
    ensures
        split_spec(a + seq![c] + b, seq![c]) == seq![a] + split_spec(b, seq![c]),
    decreases a.len(),
{
    let s = a + seq![c] + b;
    if a.len() == 0 {
        assert(s.take(1) =~= seq![c]);
        assert(s.skip(1) =~= b);
        assert(split_spec(s, seq![c]) == seq![Seq::<char>::empty()] + split_spec(b, seq![c]));
        assert(a =~= Seq::<char>::empty());
    } else {
        assert(s.len() >= 1 + 1);
        assert(s[0] == a[0]);
        assert(s.take(1) != seq![c]) by {
            assert(s.take(1)[0] == a[0]);
        }
        assert(s.skip(1) =~= a.skip(1) + seq![c] + b);
        assert(forall|i: int| 0 <= i < a.skip(1).len() ==> a.skip(1)[i] != c);
        lemma_split_head_part(a.skip(1), b, c);
        lemma_split_nonempty(b, seq![c]);
        let r = split_spec(a.skip(1) + seq![c] + b, seq![c]);
        assert(r == seq![a.skip(1)] + split_spec(b, seq![c]));
        assert(split_spec(s, seq![c]) == seq![seq![s[0]] + r[0]] + r.skip(1));
        assert(r[0] == a.skip(1));
        assert(seq![a[0]] + a.skip(1) =~= a);
        assert(r.skip(1) =~= split_spec(b, seq![c]));
        assert(split_spec(s, seq![c]) =~= seq![a] + split_spec(b, seq![c]));
    }
}

/// The decimal rendering of a machine word parses back to its value.
pub proof fn lemma_parse_of_dec_str(n: u32)
    ensures
        parse_u32_spec(dec_str_of(n as nat)) == Some(n),
{
    lemma_dec_str_digits(n as nat);
    lemma_dec_val_of_dec_str(n as nat);
    let d = dec_str_of(n as nat);
    assert(d[0] != '+') by {
        assert(is_dec_digit(d[0]));
    }
    assert(all_dec_digits(d));
}

/// One replacement pass interleaves the unchanged segments of the text —
/// its parts when split on the pattern — with the replacement value: the
/// replacement touches nothing but the pattern's occurrences.
pub proof fn lemma_replace_is_interleaving(s: Seq<char>, pat: Seq<char>, rep: Seq<char>)
    requires
        pat.len() > 0,
    ensures
        replace_spec(s, pat, rep) == joined(split_spec(s, pat), rep),
    decreases s.len(),
{
    if s.len() < pat.len() {
        assert(split_spec(s, pat) == seq![s]);
        assert(joined(seq![s], rep) == s);
    } else if s.take(pat.len() as int) == pat {
        lemma_replace_is_interleaving(s.skip(pat.len() as int), pat, rep);
        lemma_split_nonempty(s.skip(pat.len() as int), pat);
        let t = split_spec(s.skip(pat.len() as int), pat);
        assert(split_spec(s, pat) == seq![Seq::<char>::empty()] + t);
        let x = seq![Seq::<char>::empty()] + t;
        assert(x.len() >= 2 || t.len() == 1);
        if t.len() == 1 {
            assert(x.len() == 2);
        }
        assert(x[0] =~= Seq::<char>::empty());
        assert(x.skip(1) =~= t);
        assert(joined(x, rep) == x[0] + rep + joined(t, rep));
        assert(x[0] + rep + joined(t, rep) =~= rep + joined(t, rep));
    } else {
        lemma_replace_is_interleaving(s.skip(1), pat, rep);
        lemma_split_nonempty(s.skip(1), pat);
        let r = split_spec(s.skip(1), pat);
        assert(split_spec(s, pat) == seq![seq![s[0]] + r[0]] + r.skip(1));
        let x = seq![seq![s[0]] + r[0]] + r.skip(1);
        assert(x[0] == seq![s[0]] + r[0]);
        if r.len() == 1 {
            assert(x.len() == 1);
            assert(joined(x, rep) == x[0]);
            assert(joined(r, rep) == r[0]);
            assert(x[0] =~= seq![s[0]] + joined(r, rep));
        } else {
            assert(x.len() >= 2);
            assert(x.skip(1) =~= r.skip(1));
            assert(joined(x, rep) == x[0] + rep + joined(r.skip(1), rep));
            assert(joined(r, rep) == r[0] + rep + joined(r.skip(1), rep));
            assert(x[0] + rep + joined(r.skip(1), rep) =~= seq![s[0]] + (r[0] + rep + joined(
                r.skip(1),
                rep,
            )));
        }
        assert(replace_spec(s, pat, rep) =~= joined(x, rep));
    }
}

/// The parts joined with `sep` between neighbours.
pub open spec fn joined(parts: Seq<Seq<char>>, sep: Seq<char>) -> Seq<char>
    decreases parts.len(),
{
    if parts.len() == 0 {
        Seq::empty()
    } else if parts.len() == 1 {
        parts[0]
    } else {
        parts[0] + sep + joined(parts.skip(1), sep)
    }
}

pub proof fn lemma_joined_snoc(parts: Seq<Seq<char>>, x: Seq<char>, sep: Seq<char>)
    requires
        parts.len() >= 1,
    ensures
        joined(parts.push(x), sep) == joined(parts, sep) + sep + x,
    decreases parts.len(),
{
    if parts.len() == 1 {
        assert(parts.push(x).skip(1) =~= seq![x]);
        assert(parts.push(x)[0] == parts[0]);
        assert(joined(seq![x], sep) == x);
        assert(joined(parts.push(x), sep) =~= parts[0] + sep + x);
        assert(joined(parts, sep) + sep + x =~= parts[0] + sep + x);
    } else {
        assert(parts.push(x).skip(1) =~= parts.skip(1).push(x));
        lemma_joined_snoc(parts.skip(1), x, sep);
        assert(joined(parts.push(x), sep) =~= parts[0] + sep + joined(parts.skip(1).push(x), sep));
        assert(joined(parts, sep) + sep + x =~= parts[0] + sep + (joined(parts.skip(1), sep) + sep
            + x));
    }
}

pub fn join_all(parts: &Vec<Vec<char>>, sep: &Vec<char>) -> (r: Vec<char>)
    ensures
        r@ == joined(views_of(parts@), sep@),
{
    let mut out: Vec<char> = Vec::new();
    let mut i: usize = 0;
    while i < parts.len()
        invariant
            i <= parts.len(),
            out@ == joined(views_of(parts@).take(i as int), sep@),
        decreases parts.len() - i,
    {
        if i > 0 {
            push_all(&mut out, sep);
        }
        let p = &parts[i];
        push_all(&mut out, p);
        proof {
            let vs = views_of(parts@);
            assert(vs.take(i + 1 as int) =~= vs.take(i as int).push(vs[i as int]));
            if i == 0 {
                assert(vs.take(1) =~= seq![vs[0]]);
                assert(joined(vs.take(1), sep@) == vs[0]);
                assert(out@ =~= vs[0]);
            } else {
                lemma_joined_snoc(vs.take(i as int), vs[i as int], sep@);
            }
        }
        i = i + 1;
    }
    proof {
        assert(views_of(parts@).take(parts@.len() as int) =~= views_of(parts@));
    }
    out
}

/// The last position of `c` in `s`, or `-1` when it does not occur.
pub open spec fn last_index_of(s: Seq<char>, c: char) -> int
    decreases s.len(),
{
    if s.len() == 0 {
        -1
    } else if s.last() == c {
        s.len() - 1
    } else {
        last_index_of(s.drop_last(), c)
    }
}

pub proof fn lemma_last_index_at(s: Seq<char>, c: char, j: int)
    requires
        0 <= j < s.len(),
        s[j] == c,
        forall|k: int| j < k < s.len() ==> s[k] != c,
    ensures
        last_index_of(s, c) == j,
    decreases s.len(),
{
    if j == s.len() - 1 {
    } else {
        assert(s.last() != c);
        assert(forall|k: int| j < k < s.drop_last().len() ==> s.drop_last()[k] != c);
        assert(s.drop_last()[j] == c);
        lemma_last_index_at(s.drop_last(), c, j);
    }
}

pub proof fn lemma_last_index_none(s: Seq<char>, c: char)
    requires
        forall|k: int| 0 <= k < s.len() ==> s[k] != c,
    ensures
        last_index_of(s, c) == -1,
    decreases s.len(),
{
    if s.len() > 0 {
        lemma_last_index_none(s.drop_last(), c);
    }
}

pub proof fn lemma_last_index_bounds(s: Seq<char>, c: char)
    ensures
        -1 <= last_index_of(s, c) < s.len(),
    decreases s.len(),
{
    if s.len() > 0 && s.last() != c {
        lemma_last_index_bounds(s.drop_last(), c);
    }
}

pub fn rfind_char(v: &Vec<char>, c: char) -> (r: Option<usize>)
    ensures
        r is Some <==> last_index_of(v@, c) >= 0,
        r is Some ==> r.unwrap() as int == last_index_of(v@, c) && r.unwrap() < v.len(),
{
    let mut i: usize = v.len();
    while i > 0
        invariant
            i <= v.len(),
            forall|k: int| i <= k < v@.len() ==> v@[k] != c,
        decreases i,
    {
        i = i - 1;
        if v[i] == c {
            proof {
                lemma_last_index_at(v@, c, i as int);
            }
            return Some(i);
        }
    }
    proof {
        lemma_last_index_none(v@, c);
    }
    None
}

pub fn sub_vec(v: &Vec<char>, a: usize, b: usize) -> (r: Vec<char>)
    requires
        a <= b <= v.len(),
    ensures
        r@ == v@.subrange(a as int, b as int),
{
    let mut r: Vec<char> = Vec::new();
    let mut i: usize = a;
    while i < b
        invariant
            a <= i <= b <= v.len(),
            r@ == v@.subrange(a as int, i as int),
        decreases b - i,
    {
        r.push(v[i]);
        proof {
            assert(v@.subrange(a as int, i + 1 as int) =~= v@.subrange(a as int, i as int).push(
                v@[i as int],
            ));
        }
        i = i + 1;
    }
    r
}

pub open spec fn is_dec_digit(c: char) -> bool {
    48 <= c as u32 && c as u32 <= 57
}

pub open spec fn digit_val(c: char) -> nat {
    ((c as u32) - 48) as nat
}

pub open spec fn digit_char(d: nat) -> char {
    if d == 0 {
        '0'
    } else if d == 1 {
        '1'
    } else if d == 2 {
        '2'
    } else if d == 3 {
        '3'
    } else if d == 4 {
        '4'
    } else if d == 5 {
        '5'
    } else if d == 6 {
        '6'
    } else if d == 7 {
        '7'
    } else if d == 8 {
        '8'
    } else {
        '9'
    }
}

/// The decimal rendering of `n`, without a sign and without leading zeros.
pub open spec fn dec_str_of(n: nat) -> Seq<char>
    decreases n,
{
    if n < 10 {
        seq![digit_char(n)]
    } else {
        dec_str_of(n / 10).push(digit_char(n % 10))
    }
}

fn exec_digit_char(d: u32) -> (r: char)
    requires
        d < 10,
    ensures
        r == digit_char(d as nat),
{
    if d == 0 {
        '0'
    } else if d == 1 {
        '1'
    } else if d == 2 {
        '2'
    } else if d == 3 {
        '3'
    } else if d == 4 {
        '4'
    } else if d == 5 {
        '5'
    } else if d == 6 {
        '6'
    } else if d == 7 {
        '7'
    } else if d == 8 {
        '8'
    } else {
        '9'
    }
}

pub fn u32_to_dec_chars(n: u32) -> (r: Vec<char>)
    ensures
        r@ == dec_str_of(n as nat),
    decreases n,
{
    if n < 10 {
        let mut r: Vec<char> = Vec::new();
        r.push(exec_digit_char(n));
        proof {
            assert(r@ =~= dec_str_of(n as nat));
        }
        r
    } else {
        let mut r = u32_to_dec_chars(n / 10);
        r.push(exec_digit_char(n % 10));
        proof {
            assert(r@ =~= dec_str_of(n as nat));
        }
        r
    }
}

pub proof fn lemma_dec_str_digits(n: nat)
    ensures
        dec_str_of(n).len() >= 1,
        forall|i: int| 0 <= i < dec_str_of(n).len() ==> is_dec_digit(#[trigger] dec_str_of(n)[i]),
    decreases n,
{
    if n < 10 {
        assert(is_dec_digit(digit_char(n)));
    } else {
        lemma_dec_str_digits(n / 10);
        assert(is_dec_digit(digit_char(n % 10)));
        assert(forall|i: int|
            0 <= i < dec_str_of(n).len() ==> is_dec_digit(#[trigger] dec_str_of(n)[i]));
    }
}

pub proof fn lemma_dec_val_of_dec_str(n: nat)
    ensures
        dec_val(dec_str_of(n)) == n,
    decreases n,
{
    if n < 10 {
        let s = dec_str_of(n);
        assert(s == seq![digit_char(n)]);
        assert(s.last() == digit_char(n));
        assert(s.drop_last() =~= Seq::<char>::empty());
        assert(dec_val(s) == dec_val(s.drop_last()) * 10 + digit_val(s.last()));
        assert(dec_val(s.drop_last()) == 0);
        assert(('0' as u32) == 48);
        assert(digit_val(digit_char(n)) == n);
    } else {
        lemma_dec_val_of_dec_str(n / 10);
        let s = dec_str_of(n / 10).push(digit_char(n % 10));
        assert(s.drop_last() =~= dec_str_of(n / 10));
        assert(s.last() == digit_char(n % 10));
        assert(digit_val(digit_char(n % 10)) == n % 10);
        assert(dec_val(s) == dec_val(dec_str_of(n / 10)) * 10 + digit_val(digit_char(n % 10)));
        assert(n == (n / 10) * 10 + (n % 10)) by (nonlinear_arith);
    }
}

/// A decimal rendering followed by a non-digit reads back uniquely.
pub proof fn lemma_dec_unambiguous(a: nat, b: nat, r1: Seq<char>, r2: Seq<char>)
    requires
        dec_str_of(a) + r1 == dec_str_of(b) + r2,
        r1.len() > 0 ==> !is_dec_digit(r1[0]),
        r2.len() > 0 ==> !is_dec_digit(r2[0]),
    ensures
        a == b,
        r1 == r2,
{
    lemma_dec_str_digits(a);
    lemma_dec_str_digits(b);
    let da = dec_str_of(a);
    let db = dec_str_of(b);
    if da.len() < db.len() {
        assert((da + r1).len() == (db + r2).len());
        assert(r1.len() > 0);
        assert((da + r1)[da.len() as int] == r1[0]);
        assert((db + r2)[da.len() as int] == db[da.len() as int]);
        assert(false);
    } else if db.len() < da.len() {
        assert((db + r2)[db.len() as int] == r2[0]);
        assert((da + r1)[db.len() as int] == da[db.len() as int]);
        assert(false);
    } else {
        assert(da =~= (da + r1).take(da.len() as int));
        assert(db =~= (db + r2).take(db.len() as int));
        assert(da == db);
        lemma_dec_val_of_dec_str(a);
        lemma_dec_val_of_dec_str(b);
        assert(r1 =~= (da + r1).skip(da.len() as int));
        assert(r2 =~= (db + r2).skip(db.len() as int));
    }
}

pub open spec fn all_dec_digits(s: Seq<char>) -> bool {
    forall|i: int| 0 <= i < s.len() ==> is_dec_digit(s[i])
}

/// The value of a string of decimal digits.
pub open spec fn dec_val(s: Seq<char>) -> nat
    decreases s.len(),
{
    if s.len() == 0 {
        0
    } else {
        dec_val(s.drop_last()) * 10 + digit_val(s.last())
    }
}

/// What `str::parse::<u32>` accepts: an optional leading `'+'`, then at
/// least one decimal digit, with a value that fits in the type.
pub open spec fn parse_u32_spec(s: Seq<char>) -> Option<u32> {
    let t = if s.len() >= 1 && s[0] == '+' {
        s.skip(1)
    } else {
        s
    };
    if t.len() >= 1 && all_dec_digits(t) && dec_val(t) <= u32::MAX {
        Some(dec_val(t) as u32)
    } else {
        None
    }
}

proof fn lemma_dec_val_step(t: Seq<char>, i: int)
    requires
        0 <= i < t.len(),
    ensures
        dec_val(t.take(i + 1)) == dec_val(t.take(i)) * 10 + digit_val(t[i]),
{
    assert(t.take(i + 1).drop_last() =~= t.take(i));
    assert(t.take(i + 1).last() == t[i]);
}

proof fn lemma_dec_val_grows(t: Seq<char>, i: int)
    requires
        0 <= i <= t.len(),
    ensures
        dec_val(t) >= dec_val(t.take(i)),
    decreases t.len() - i,
{
    if i == t.len() {
        assert(t.take(i) =~= t);
    } else {
        lemma_dec_val_step(t, i);
        lemma_dec_val_grows(t, i + 1);
    }
}

fn parse_digit_run(t: &Vec<char>) -> (r: Option<u32>)
    ensures
        r == (if t@.len() >= 1 && all_dec_digits(t@) && dec_val(t@) <= u32::MAX {
            Some(dec_val(t@) as u32)
        } else {
            None::<u32>
        }),
{
    if t.len() == 0 {
        return None;
    }
    let mut acc: u32 = 0;
    let mut i: usize = 0;
    proof {
        assert(t@.take(0) =~= Seq::<char>::empty());
    }
    while i < t.len()
        invariant
            i <= t@.len(),
            all_dec_digits(t@.take(i as int)),
            acc == dec_val(t@.take(i as int)),
        decreases t.len() - i,
    {
        let c = t[i];
        let cv = c as u32;
        if cv < 48 || cv > 57 {
            proof {
                assert(!is_dec_digit(t@[i as int]));
            }
            return None;
        }
        let d = cv - 48;
        let next = match acc.checked_mul(10) {
            Some(x) => x.checked_add(d),
            None => None,
        };
        match next {
            Some(x) => {
                proof {
                    lemma_dec_val_step(t@, i as int);
                }
                acc = x;
            },
            None => {
                proof {
                    lemma_dec_val_step(t@, i as int);
                    assert(dec_val(t@.take(i + 1 as int)) > u32::MAX);
                    lemma_dec_val_grows(t@, i + 1 as int);
                }
                return None;
            },
        }
        i = i + 1;
    }
    proof {
        assert(t@.take(t@.len() as int) =~= t@);
    }
    Some(acc)
}

pub fn parse_u32_chars(s: &Vec<char>) -> (r: Option<u32>)
    ensures
        r == parse_u32_spec(s@),
{
    let start: usize = if s.len() >= 1 && s[0] == '+' {
        1
    } else {
        0
    };
    let t = sub_vec(s, start, s.len());
    proof {
        if start == 0 {
            assert(t@ =~= s@);
        } else {
            assert(t@ =~= s@.skip(1));
        }
    }
    parse_digit_run(&t)
}


} // verus!
