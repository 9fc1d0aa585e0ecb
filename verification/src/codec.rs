//! The durable text form of a catalog, and its codec.
//!
//! A catalog is persisted as one line `last_update=YYYYMMDD` (or
//! `last_update=-` when no watermark is set) followed by one line per
//! partition record: the eight-digit partition key, a space, `0` or `1`
//! for the downloaded flag, and one ` name` column per known file.
//! The encoder emits exactly this canonical text; the parser accepts
//! exactly the canonical texts and recovers the catalog they encode, so
//! the pair round-trips every well-formed catalog.

use vstd::prelude::*;
use vstd::string::*;
use crate::catalog::{CatModel, Catalog, DateRecord, FileRecord, RecModel, valid_name, valid_name_char};
use crate::dates::{lemma_valid_key_bounds, valid_date_key};

verus! {

broadcast use vstd::seq_lib::group_seq_lib_default;

/// The character for one decimal digit.
pub open spec fn digit_char(d: int) -> char {
    if d == 0 {
        '0'
    } else if d == 1 {
        '1'
    } else if d == 2 {
        '2'
    } else if d == 3 {
        '3'
    } else if d == 4 {
        '4'
    } else if d == 5 {
        '5'
    } else if d == 6 {
        '6'
    } else if d == 7 {
        '7'
    } else if d == 8 {
        '8'
    } else {
        '9'
    }
}

pub open spec fn is_digit_char(c: char) -> bool {
    48 <= c as int <= 57
}

pub open spec fn digit_val(c: char) -> int {
    c as int - 48
}

/// A partition key as eight decimal digits.
pub open spec fn key_text(k: int) -> Seq<char> {
    seq![
        digit_char(k / 10000000 % 10),
        digit_char(k / 1000000 % 10),
        digit_char(k / 100000 % 10),
        digit_char(k / 10000 % 10),
        digit_char(k / 1000 % 10),
        digit_char(k / 100 % 10),
        digit_char(k / 10 % 10),
        digit_char(k % 10),
    ]
}

pub open spec fn flag_char(downloaded: bool) -> char {
    if downloaded {
        '1'
    } else {
        '0'
    }
}

/// The ` name` columns of a record line.
pub open spec fn names_text(files: Seq<Seq<char>>) -> Seq<char>
    decreases files.len(),
{
    if files.len() == 0 {
        Seq::empty()
    } else {
        seq![' '] + files[0] + names_text(files.drop_first())
    }
}

/// One record line, newline included.
pub open spec fn rec_text(k: int, r: RecModel) -> Seq<char> {
    key_text(k) + seq![' '] + seq![flag_char(r.downloaded)] + names_text(r.files) + seq!['\n']
}

/// All record lines, in stored order.
pub open spec fn recs_text(recs: Seq<(int, RecModel)>) -> Seq<char>
    decreases recs.len(),
{
    if recs.len() == 0 {
        Seq::empty()
    } else {
        rec_text(recs[0].0, recs[0].1) + recs_text(recs.drop_first())
    }
}

/// The watermark line, newline included.
pub open spec fn wm_text(w: Option<int>) -> Seq<char> {
    "last_update="@ + (match w {
        Some(k) => key_text(k),
        None => seq!['-'],
    }) + seq!['\n']
}

/// The canonical text of a whole catalog.
pub open spec fn cat_text(m: CatModel) -> Seq<char> {
    wm_text(m.watermark) + recs_text(m.recs)
}

/// Appending one record to a catalog appends its line to the text.
pub proof fn lemma_recs_text_push(recs: Seq<(int, RecModel)>, p: (int, RecModel))
    ensures
        recs_text(recs.push(p)) == recs_text(recs) + rec_text(p.0, p.1),
    decreases recs.len(),
{
    if recs.len() == 0 {
        assert(recs.push(p)[0] == p);
        assert(recs.push(p).drop_first() =~= Seq::<(int, RecModel)>::empty());
        assert(recs_text(recs.push(p).drop_first()) == Seq::<char>::empty());
        assert(recs_text(recs) == Seq::<char>::empty());
        assert(recs_text(recs.push(p)) =~= recs_text(recs) + rec_text(p.0, p.1));
    } else {
        lemma_recs_text_push(recs.drop_first(), p);
        assert(recs.push(p).drop_first() =~= recs.drop_first().push(p));
        assert(recs.push(p)[0] == recs[0]);
        let a = rec_text(recs[0].0, recs[0].1);
        let b = recs_text(recs.drop_first());
        let c = rec_text(p.0, p.1);
        assert(recs_text(recs.push(p)) == a + (b + c));
        assert(a + (b + c) =~= (a + b) + c);
        assert(recs_text(recs) == a + b);
    }
}

/// Appending one file name to a record appends its column to the line.
pub proof fn lemma_names_text_push(files: Seq<Seq<char>>, x: Seq<char>)
    ensures
        names_text(files.push(x)) == names_text(files) + seq![' '] + x,
    decreases files.len(),
{
    if files.len() == 0 {
        assert(files.push(x)[0] == x);
        assert(files.push(x).drop_first() =~= Seq::<Seq<char>>::empty());
        assert(names_text(files.push(x).drop_first()) == Seq::<char>::empty());
        assert(names_text(files) == Seq::<char>::empty());
        assert(names_text(files.push(x)) =~= names_text(files) + seq![' '] + x);
    } else {
        lemma_names_text_push(files.drop_first(), x);
        assert(files.push(x).drop_first() =~= files.drop_first().push(x));
        assert(files.push(x)[0] == files[0]);
        let a = seq![' '] + files[0];
        let b = names_text(files.drop_first());
        let c = seq![' '] + x;
        assert(names_text(files.push(x)) == a + (b + c));
        assert(a + (b + c) =~= (a + b) + c);
        assert(names_text(files) == a + b);
        assert((a + b) + c =~= names_text(files) + seq![' '] + x);
    }
}

/// The tail of `t` from position `p` on.
pub open spec fn suffix(t: Seq<char>, p: int) -> Seq<char> {
    t.subrange(p, t.len() as int)
}

/// The value of the eight leading digits of `t`.
pub open spec fn key_val8(t: Seq<char>) -> int {
    digit_val(t[0]) * 10000000 + digit_val(t[1]) * 1000000 + digit_val(t[2]) * 100000 + digit_val(
        t[3],
    ) * 10000 + digit_val(t[4]) * 1000 + digit_val(t[5]) * 100 + digit_val(t[6]) * 10 + digit_val(
        t[7],
    )
}

/// Reads an eight-digit partition key from the front of `t`.
pub open spec fn sp_key(t: Seq<char>) -> Option<(int, Seq<char>)> {
    if t.len() >= 8 && (forall|i: int| 0 <= i < 8 ==> is_digit_char(#[trigger] t[i])) {
        Some((key_val8(t), suffix(t, 8)))
    } else {
        None
    }
}

/// Reads the watermark line from the front of `t`.
pub open spec fn sp_wm(t: Seq<char>) -> Option<(Option<int>, Seq<char>)> {
    if t.len() >= 12 && t.subrange(0, 12) == "last_update="@ {
        let u = suffix(t, 12);
        if u.len() >= 1 && u[0] == '-' {
            if u.len() >= 2 && u[1] == '\n' {
                Some((None, suffix(u, 2)))
            } else {
                None
            }
        } else {
            match sp_key(u) {
                Some((k, v)) => if valid_date_key(k) && v.len() >= 1 && v[0] == '\n' {
                    Some((Some(k), suffix(v, 1)))
                } else {
                    None
                },
                None => None,
            }
        }
    } else {
        None
    }
}

/// How many leading characters of `t` are file-name characters.
pub open spec fn name_len(t: Seq<char>) -> int
    decreases t.len(),
{
    if t.len() > 0 && valid_name_char(t[0]) {
        1 + name_len(t.drop_first())
    } else {
        0
    }
}

/// Reads the ` name` columns and the closing newline from the front of `t`.
pub open spec fn sp_names(t: Seq<char>) -> Option<(Seq<Seq<char>>, Seq<char>)>
    decreases t.len(),
{
    if t.len() >= 1 && t[0] == '\n' {
        Some((Seq::empty(), suffix(t, 1)))
    } else if t.len() >= 1 && t[0] == ' ' {
        let nl = name_len(suffix(t, 1));
        if nl > 0 && 1 + nl < t.len() {
            let name = t.subrange(1, 1 + nl);
            let rest = suffix(t, 1 + nl);
            match sp_names(rest) {
                Some((names, rem)) => Some((seq![name] + names, rem)),
                None => None,
            }
        } else {
            None
        }
    } else {
        None
    }
}

/// Reads one record line from the front of `t`.
pub open spec fn sp_rec(t: Seq<char>) -> Option<((int, RecModel), Seq<char>)> {
    match sp_key(t) {
        Some((k, u)) => if valid_date_key(k) && u.len() >= 2 && u[0] == ' ' && (u[1] == '0' || u[1]
            == '1') {
            match sp_names(suffix(u, 2)) {
                Some((files, rem)) => Some(
                    ((k, RecModel { downloaded: u[1] == '1', files }), rem),
                ),
                None => None,
            }
        } else {
            None
        },
        None => None,
    }
}

/// Reads all record lines; rejects duplicate partition keys.
pub open spec fn sp_recs(t: Seq<char>) -> Option<Seq<(int, RecModel)>>
    decreases t.len(),
{
    if t.len() == 0 {
        Some(Seq::empty())
    } else {
        match sp_rec(t) {
            Some((pr, rem)) => if rem.len() < t.len() {
                match sp_recs(rem) {
                    Some(rest) => if !crate::catalog::spec_contains_key(rest, pr.0) {
                        Some(seq![pr] + rest)
                    } else {
                        None
                    },
                    None => None,
                }
            } else {
                None
            },
            None => None,
        }
    }
}

/// The catalog a text encodes, if it is canonical.
pub open spec fn spec_parse(t: Seq<char>) -> Option<CatModel> {
    match sp_wm(t) {
        Some((w, u)) => match sp_recs(u) {
            Some(recs) => Some(CatModel { watermark: w, recs }),
            None => None,
        },
        None => None,
    }
}

/// Digit characters carry their digit and are no delimiters.
pub proof fn lemma_digit_char_val(d: int)
    requires
        0 <= d < 10,
    ensures
        is_digit_char(digit_char(d)),
        digit_val(digit_char(d)) == d,
        digit_char(d) != '-',
        digit_char(d) != '\n',
        digit_char(d) != ' ',
{
}

/// `name_len` counts a block of valid name characters and stops at the
/// first character that is none.
pub proof fn lemma_name_len_props(t: Seq<char>)
    ensures
        0 <= name_len(t) <= t.len(),
        forall|i: int| 0 <= i < name_len(t) ==> valid_name_char(#[trigger] t[i]),
        name_len(t) == t.len() || !valid_name_char(t[name_len(t)]),
    decreases t.len(),
{
    if t.len() > 0 && valid_name_char(t[0]) {
        lemma_name_len_props(t.drop_first());
        assert forall|i: int| 0 <= i < name_len(t) implies valid_name_char(#[trigger] t[i]) by {
            if i > 0 {
                assert(t.drop_first()[i - 1] == t[i]);
            }
        }
        if name_len(t) < t.len() {
            assert(t.drop_first()[name_len(t) - 1] == t[name_len(t)]);
        }
    }
}

/// Any block of valid characters with a non-name boundary is what
/// `name_len` measures.
pub proof fn lemma_name_len_unique(t: Seq<char>, m: int)
    requires
        0 <= m <= t.len(),
        forall|i: int| 0 <= i < m ==> valid_name_char(#[trigger] t[i]),
        m == t.len() || !valid_name_char(t[m]),
    ensures
        name_len(t) == m,
{
    lemma_name_len_props(t);
    if name_len(t) < m {
        assert(valid_name_char(t[name_len(t)]));
        assert(false);
    }
    if m < name_len(t) {
        assert(valid_name_char(t[m]));
        assert(false);
    }
}

/// Decimal digits reassemble their number.
proof fn lemma_digits_reassemble(k: int)
    requires
        0 <= k < 100000000,
    ensures
        (k / 10000000 % 10) * 10000000 + (k / 1000000 % 10) * 1000000 + (k / 100000 % 10) * 100000
            + (k / 10000 % 10) * 10000 + (k / 1000 % 10) * 1000 + (k / 100 % 10) * 100 + (k / 10
            % 10) * 10 + k % 10 == k,
{
    vstd::arithmetic::div_mod::lemma_fundamental_div_mod(k, 10);
    vstd::arithmetic::div_mod::lemma_fundamental_div_mod(k / 10, 10);
    vstd::arithmetic::div_mod::lemma_fundamental_div_mod(k / 100, 10);
    vstd::arithmetic::div_mod::lemma_fundamental_div_mod(k / 1000, 10);
    vstd::arithmetic::div_mod::lemma_fundamental_div_mod(k / 10000, 10);
    vstd::arithmetic::div_mod::lemma_fundamental_div_mod(k / 100000, 10);
    vstd::arithmetic::div_mod::lemma_fundamental_div_mod(k / 1000000, 10);
    vstd::arithmetic::div_mod::lemma_div_denominator(k, 10, 10);
    vstd::arithmetic::div_mod::lemma_div_denominator(k, 100, 10);
    vstd::arithmetic::div_mod::lemma_div_denominator(k, 1000, 10);
    vstd::arithmetic::div_mod::lemma_div_denominator(k, 10000, 10);
    vstd::arithmetic::div_mod::lemma_div_denominator(k, 100000, 10);
    vstd::arithmetic::div_mod::lemma_div_denominator(k, 1000000, 10);
    assert(k / 10 / 10 == k / 100);
    assert(k / 100 / 10 == k / 1000);
    assert(k / 1000 / 10 == k / 10000);
    assert(k / 10000 / 10 == k / 100000);
    assert(k / 100000 / 10 == k / 1000000);
    assert(k / 1000000 / 10 == k / 10000000);
    assert(k / 10000000 < 10);
    assert(k / 10000000 % 10 == k / 10000000);
}

/// An eight-digit key at the front of a text parses back to the key.
#[verifier::rlimit(50)]
pub proof fn lemma_key_complete(k: int, rest: Seq<char>)
    requires
        0 <= k < 100000000,
    ensures
        sp_key(key_text(k) + rest) == Some((k, rest)),
{
    let t = key_text(k) + rest;
    lemma_digit_char_val(k / 10000000 % 10);
    lemma_digit_char_val(k / 1000000 % 10);
    lemma_digit_char_val(k / 100000 % 10);
    lemma_digit_char_val(k / 10000 % 10);
    lemma_digit_char_val(k / 1000 % 10);
    lemma_digit_char_val(k / 100 % 10);
    lemma_digit_char_val(k / 10 % 10);
    lemma_digit_char_val(k % 10);
    assert(t[0] == key_text(k)[0] && t[1] == key_text(k)[1] && t[2] == key_text(k)[2] && t[3]
        == key_text(k)[3] && t[4] == key_text(k)[4] && t[5] == key_text(k)[5] && t[6] == key_text(
        k,
    )[6] && t[7] == key_text(k)[7]);
    assert(forall|i: int| 0 <= i < 8 ==> is_digit_char(#[trigger] t[i]));
    lemma_digits_reassemble(k);
    assert(key_val8(t) == k);
    assert(suffix(t, 8) =~= rest);
}

/// A watermark line at the front of a text parses back to the watermark.
pub proof fn lemma_wm_complete(w: Option<int>, rest: Seq<char>)
    requires
        match w {
            Some(k) => valid_date_key(k),
            None => true,
        },
    ensures
        sp_wm(wm_text(w) + rest) == Some((w, rest)),
{
    reveal_strlit("last_update=");
    let t = wm_text(w) + rest;
    assert(t.subrange(0, 12) =~= "last_update="@);
    let u = suffix(t, 12);
    match w {
        Some(k) => {
            crate::dates::lemma_valid_key_bounds(k);
            assert(u =~= key_text(k) + (seq!['\n'] + rest));
            lemma_digit_char_val(k / 10000000 % 10);
            assert(u[0] == digit_char(k / 10000000 % 10));
            assert(u[0] != '-');
            lemma_key_complete(k, seq!['\n'] + rest);
            let v = seq!['\n'] + rest;
            assert(v[0] == '\n');
            assert(suffix(v, 1) =~= rest);
        },
        None => {
            assert(u =~= seq!['-'] + (seq!['\n'] + rest));
            assert(u[0] == '-');
            assert(u[1] == '\n');
            assert(suffix(u, 2) =~= rest);
        },
    }
}

/// `name_len` measures exactly a valid name put before a delimiter.
pub proof fn lemma_name_len_concat(n: Seq<char>, rest: Seq<char>)
    requires
        forall|i: int| 0 <= i < n.len() ==> valid_name_char(#[trigger] n[i]),
        rest.len() == 0 || !valid_name_char(rest[0]),
    ensures
        name_len(n + rest) == n.len(),
{
    lemma_name_len_unique(n + rest, n.len() as int);
}

/// The name columns of a record line parse back to its file names.
pub proof fn lemma_names_complete(files: Seq<Seq<char>>, rest: Seq<char>)
    requires
        forall|i: int| 0 <= i < files.len() ==> valid_name(#[trigger] files[i]),
    ensures
        sp_names(names_text(files) + seq!['\n'] + rest) == Some((files, rest)),
    decreases files.len(),
{
    let t = names_text(files) + seq!['\n'] + rest;
    if files.len() == 0 {
        assert(t =~= seq!['\n'] + rest);
        assert(t[0] == '\n');
        assert(suffix(t, 1) =~= rest);
        assert(sp_names(t) == Some((Seq::<Seq<char>>::empty(), rest)));
        assert(files =~= Seq::<Seq<char>>::empty());
    } else {
        let n0 = files[0];
        let tail = names_text(files.drop_first()) + seq!['\n'] + rest;
        assert(valid_name(n0));
        assert(t =~= seq![' '] + (n0 + tail));
        assert(t[0] == ' ');
        assert(suffix(t, 1) =~= n0 + tail);
        assert(tail.len() > 0);
        assert(tail[0] == '\n' || tail[0] == ' ') by {
            if files.drop_first().len() == 0 {
                assert(tail =~= seq!['\n'] + rest);
            } else {
                assert(names_text(files.drop_first())[0] == ' ');
            }
        }
        lemma_name_len_concat(n0, tail);
        let nl = name_len(suffix(t, 1));
        assert(nl == n0.len());
        assert(nl > 0);
        assert(1 + nl < t.len());
        assert(t.subrange(1, 1 + nl) =~= n0);
        assert(suffix(t, 1 + nl) =~= tail);
        lemma_names_complete(files.drop_first(), rest);
        assert(sp_names(tail) == Some((files.drop_first(), rest)));
        assert(seq![n0] + files.drop_first() =~= files);
    }
}

/// A record line at the front of a text parses back to its record.
pub proof fn lemma_rec_complete(k: int, r: RecModel, rest: Seq<char>)
    requires
        valid_date_key(k),
        crate::catalog::rec_wf(r),
    ensures
        sp_rec(rec_text(k, r) + rest) == Some(((k, r), rest)),
{
    let t = rec_text(k, r) + rest;
    let u = seq![' '] + seq![flag_char(r.downloaded)] + names_text(r.files) + seq!['\n'] + rest;
    assert(t =~= key_text(k) + u);
    crate::dates::lemma_valid_key_bounds(k);
    lemma_key_complete(k, u);
    assert(u[0] == ' ');
    assert(u[1] == flag_char(r.downloaded));
    assert(u[1] == '0' || u[1] == '1');
    assert(suffix(u, 2) =~= names_text(r.files) + seq!['\n'] + rest);
    lemma_names_complete(r.files, rest);
    assert((u[1] == '1') == r.downloaded);
    assert(RecModel { downloaded: u[1] == '1', files: r.files } =~= r);
}

/// The record lines of a well-formed catalog parse back to its records.
pub proof fn lemma_recs_complete(recs: Seq<(int, RecModel)>)
    requires
        crate::catalog::keys_unique(recs),
        forall|i: int| 0 <= i < recs.len() ==> valid_date_key((#[trigger] recs[i]).0),
        forall|i: int| 0 <= i < recs.len() ==> crate::catalog::rec_wf((#[trigger] recs[i]).1),
    ensures
        sp_recs(recs_text(recs)) == Some(recs),
    decreases recs.len(),
{
    let t = recs_text(recs);
    if recs.len() == 0 {
        assert(t.len() == 0);
        assert(recs =~= Seq::<(int, RecModel)>::empty());
    } else {
        let k0 = recs[0].0;
        let r0 = recs[0].1;
        let tail = recs_text(recs.drop_first());
        assert(t =~= rec_text(k0, r0) + tail);
        lemma_rec_complete(k0, r0, tail);
        assert(rec_text(k0, r0).len() >= 11);
        assert(t.len() > 0);
        assert(tail.len() < t.len());
        let drop = recs.drop_first();
        assert(crate::catalog::keys_unique(drop)) by {
            assert forall|a: int, b: int| 0 <= a < b < drop.len() implies (
            #[trigger] drop[a]).0 != (#[trigger] drop[b]).0 by {
                assert(drop[a] == recs[a + 1]);
                assert(drop[b] == recs[b + 1]);
            }
        }
        assert(forall|i: int| 0 <= i < drop.len() ==> (#[trigger] drop[i]) == recs[i + 1]);
        lemma_recs_complete(drop);
        assert(!crate::catalog::spec_contains_key(drop, k0)) by {
            if crate::catalog::spec_contains_key(drop, k0) {
                let i = choose|i: int| 0 <= i < drop.len() && (#[trigger] drop[i]).0 == k0;
                assert(recs[i + 1].0 == k0);
                assert(recs[0].0 != recs[i + 1].0);
            }
        }
        assert(seq![(k0, r0)] + drop =~= recs);
    }
}

/// Every well-formed catalog is recovered from its canonical text.
pub proof fn lemma_parse_complete(m: CatModel)
    requires
        crate::catalog::cat_wf(m),
    ensures
        spec_parse(cat_text(m)) == Some(m),
{
    let t = cat_text(m);
    lemma_wm_complete(m.watermark, recs_text(m.recs));
    lemma_recs_complete(m.recs);
    assert(CatModel { watermark: m.watermark, recs: m.recs } =~= m);
}

/// A key is in a cons exactly when it heads it or sits in the tail.
proof fn lemma_contains_cons(pr: (int, RecModel), rest: Seq<(int, RecModel)>, k: int)
    ensures
        crate::catalog::spec_contains_key(seq![pr] + rest, k) <==> (pr.0 == k
            || crate::catalog::spec_contains_key(rest, k)),
{
    let whole = seq![pr] + rest;
    if crate::catalog::spec_contains_key(whole, k) {
        let i = choose|i: int| 0 <= i < whole.len() && (#[trigger] whole[i]).0 == k;
        if i > 0 {
            assert(whole[i] == rest[i - 1]);
        }
    }
    if pr.0 == k {
        assert(whole[0].0 == k);
    }
    if crate::catalog::spec_contains_key(rest, k) {
        let i = choose|i: int| 0 <= i < rest.len() && (#[trigger] rest[i]).0 == k;
        assert(whole[i + 1] == rest[i]);
    }
}

/// Whatever `sp_names` reads is a list of valid file names.
pub proof fn lemma_sp_names_wf(t: Seq<char>)
    ensures
        match sp_names(t) {
            Some(pr) => forall|i: int| 0 <= i < pr.0.len() ==> valid_name(#[trigger] pr.0[i]),
            None => true,
        },
    decreases t.len(),
{
    if t.len() >= 1 && t[0] == '\n' {
    } else if t.len() >= 1 && t[0] == ' ' {
        let nl = name_len(suffix(t, 1));
        if nl > 0 && 1 + nl < t.len() {
            lemma_name_len_props(suffix(t, 1));
            let name = t.subrange(1, 1 + nl);
            assert(valid_name(name)) by {
                assert forall|i: int| 0 <= i < name.len() implies valid_name_char(
                    #[trigger] name[i],
                ) by {
                    assert(name[i] == suffix(t, 1)[i]);
                }
            }
            lemma_sp_names_wf(suffix(t, 1 + nl));
            match sp_names(suffix(t, 1 + nl)) {
                Some(pr2) => {
                    let out = seq![name] + pr2.0;
                    assert forall|i: int| 0 <= i < out.len() implies valid_name(
                        #[trigger] out[i],
                    ) by {
                        if i > 0 {
                            assert(out[i] == pr2.0[i - 1]);
                        }
                    }
                },
                None => {},
            }
        }
    }
}

/// Whatever `sp_recs` reads is a well-formed record list.
pub proof fn lemma_sp_recs_wf(t: Seq<char>)
    ensures
        match sp_recs(t) {
            Some(recs) => {
                &&& crate::catalog::keys_unique(recs)
                &&& forall|i: int| 0 <= i < recs.len() ==> valid_date_key((#[trigger] recs[i]).0)
                &&& forall|i: int|
                    0 <= i < recs.len() ==> crate::catalog::rec_wf((#[trigger] recs[i]).1)
            },
            None => true,
        },
    decreases t.len(),
{
    if t.len() == 0 {
    } else {
        match sp_rec(t) {
            Some((pr, rem)) => {
                if rem.len() < t.len() {
                    lemma_sp_recs_wf(rem);
                    match sp_key(t) {
                        Some((k, u)) => {
                            if valid_date_key(k) && u.len() >= 2 && u[0] == ' ' && (u[1] == '0'
                                || u[1] == '1') {
                                lemma_sp_names_wf(suffix(u, 2));
                            }
                        },
                        None => {},
                    }
                    match sp_recs(rem) {
                        Some(rest) => {
                            if !crate::catalog::spec_contains_key(rest, pr.0) {
                                let out = seq![pr] + rest;
                                assert(crate::catalog::rec_wf(pr.1));
                                assert forall|a: int, b: int| 0 <= a < b < out.len() implies (
                                #[trigger] out[a]).0 != (#[trigger] out[b]).0 by {
                                    if a == 0 {
                                        assert(out[b] == rest[b - 1]);
                                        if out[b].0 == pr.0 {
                                            assert(crate::catalog::spec_contains_key(rest, pr.0));
                                        }
                                    } else {
                                        assert(out[a] == rest[a - 1]);
                                        assert(out[b] == rest[b - 1]);
                                    }
                                }
                                assert forall|i: int| 0 <= i < out.len() implies valid_date_key(
                                    (#[trigger] out[i]).0,
                                ) && crate::catalog::rec_wf(out[i].1) by {
                                    if i > 0 {
                                        assert(out[i] == rest[i - 1]);
                                    }
                                }
                            }
                        },
                        None => {},
                    }
                }
            },
            None => {},
        }
    }
}

/// Whatever `spec_parse` accepts is a well-formed catalog.
pub proof fn lemma_parse_wf(t: Seq<char>)
    ensures
        match spec_parse(t) {
            Some(m) => crate::catalog::cat_wf(m),
            None => true,
        },
{
    match sp_wm(t) {
        Some((w, u)) => {
            lemma_sp_recs_wf(u);
        },
        None => {},
    }
}

/// Appends one decimal digit.
fn push_digit(out: &mut String, d: u32)
    requires
        d < 10,
    ensures
        final(out)@ == old(out)@ + seq![digit_char(d as int)],
{
    match d {
        0 => {
            proof {
                reveal_strlit("0");
                assert("0"@ =~= seq![digit_char(0)]);
            }
            out.append("0");
        },
        1 => {
            proof {
                reveal_strlit("1");
                assert("1"@ =~= seq![digit_char(1)]);
            }
            out.append("1");
        },
        2 => {
            proof {
                reveal_strlit("2");
                assert("2"@ =~= seq![digit_char(2)]);
            }
            out.append("2");
        },
        3 => {
            proof {
                reveal_strlit("3");
                assert("3"@ =~= seq![digit_char(3)]);
            }
            out.append("3");
        },
        4 => {
            proof {
                reveal_strlit("4");
                assert("4"@ =~= seq![digit_char(4)]);
            }
            out.append("4");
        },
        5 => {
            proof {
                reveal_strlit("5");
                assert("5"@ =~= seq![digit_char(5)]);
            }
            out.append("5");
        },
        6 => {
            proof {
                reveal_strlit("6");
                assert("6"@ =~= seq![digit_char(6)]);
            }
            out.append("6");
        },
        7 => {
            proof {
                reveal_strlit("7");
                assert("7"@ =~= seq![digit_char(7)]);
            }
            out.append("7");
        },
        8 => {
            proof {
                reveal_strlit("8");
                assert("8"@ =~= seq![digit_char(8)]);
            }
            out.append("8");
        },
        _ => {
            proof {
                reveal_strlit("9");
                assert("9"@ =~= seq![digit_char(9)]);
            }
            out.append("9");
        },
    }
}

/// Appends a partition key as eight digits.
pub(crate) fn push_key(out: &mut String, k: u32)
    requires
        k < 100000000,
    ensures
        final(out)@ == old(out)@ + key_text(k as int),
{
    push_digit(out, k / 10000000 % 10);
    push_digit(out, k / 1000000 % 10);
    push_digit(out, k / 100000 % 10);
    push_digit(out, k / 10000 % 10);
    push_digit(out, k / 1000 % 10);
    push_digit(out, k / 100 % 10);
    push_digit(out, k / 10 % 10);
    push_digit(out, k % 10);
    proof {
        assert(out@ =~= old(out)@ + key_text(k as int));
    }
}

/// Writes a catalog in its canonical text form.
pub fn encode_catalog(c: &Catalog) -> (out: String)
    requires
        crate::catalog::cat_wf(c@),
    ensures
        out@ == cat_text(c@),
{
    let mut out = String::new();
    out.append("last_update=");
    match c.watermark {
        Some(w) => {
            proof {
                lemma_valid_key_bounds(w as int);
            }
            push_key(&mut out, w);
        },
        None => {
            proof {
                reveal_strlit("-");
                assert("-"@ =~= seq!['-']);
            }
            out.append("-");
        },
    }
    proof {
        reveal_strlit("\n");
        assert("\n"@ =~= seq!['\n']);
    }
    out.append("\n");
    proof {
        assert(out@ =~= wm_text(c@.watermark));
    }

    let n = c.records.len();
    let mut i: usize = 0;
    while i < n
        invariant
            crate::catalog::cat_wf(c@),
            n == c.records.len(),
            i <= n,
            out@ == wm_text(c@.watermark) + recs_text(c@.recs.subrange(0, i as int)),
        decreases n - i,
    {
        let key = c.records[i].0;
        proof {
            assert((#[trigger] c@.recs[i as int]).0 == key as int);
            assert(valid_date_key(key as int));
            lemma_valid_key_bounds(key as int);
        }
        let ghost line_start = out@;
        push_key(&mut out, key);
        proof {
            reveal_strlit(" ");
            assert(" "@ =~= seq![' ']);
        }
        out.append(" ");
        let rec = &c.records[i].1;
        if rec.downloaded {
            proof {
                reveal_strlit("1");
                assert("1"@ =~= seq![flag_char(true)]);
            }
            out.append("1");
        } else {
            proof {
                reveal_strlit("0");
                assert("0"@ =~= seq![flag_char(false)]);
            }
            out.append("0");
        }
        let ghost names_start = out@;
        let m = rec.files.len();
        let mut j: usize = 0;
        while j < m
            invariant
                m == rec.files.len(),
                j <= m,
                out@ == names_start + names_text(rec@.files.subrange(0, j as int)),
            decreases m - j,
        {
            proof {
                reveal_strlit(" ");
                assert(" "@ =~= seq![' ']);
            }
            out.append(" ");
            out.append(rec.files[j].file_name.as_str());
            proof {
                assert(rec@.files[j as int] == rec.files@[j as int]@);
                lemma_names_text_push(rec@.files.subrange(0, j as int), rec@.files[j as int]);
                assert(rec@.files.subrange(0, (j + 1) as int) =~= rec@.files.subrange(
                    0,
                    j as int,
                ).push(rec@.files[j as int]));
                assert(out@ =~= names_start + names_text(rec@.files.subrange(0, (j + 1) as int)));
            }
            j += 1;
        }
        proof {
            reveal_strlit("\n");
            assert("\n"@ =~= seq!['\n']);
        }
        out.append("\n");
        proof {
            assert(rec@.files.subrange(0, m as int) =~= rec@.files);
            assert(out@ =~= line_start + rec_text(key as int, rec@));
            lemma_recs_text_push(c@.recs.subrange(0, i as int), (key as int, rec@));
            assert(c@.recs.subrange(0, (i + 1) as int) =~= c@.recs.subrange(0, i as int).push(
                (key as int, rec@),
            ));
            assert(out@ =~= wm_text(c@.watermark) + recs_text(
                c@.recs.subrange(0, (i + 1) as int),
            ));
        }
        i += 1;
    }
    proof {
        assert(c@.recs.subrange(0, n as int) =~= c@.recs);
    }
    out
}

/// Checks that the text opens with the watermark label.
fn check_header(s: &str) -> (b: bool)
    ensures
        b == (s@.len() >= 12 && s@.subrange(0, 12) == "last_update="@),
{
    proof {
        reveal_strlit("last_update=");
    }
    let lit = "last_update=";
    if s.unicode_len() < 12 {
        return false;
    }
    let mut i: usize = 0;
    while i < 12
        invariant
            i <= 12,
            s@.len() >= 12,
            lit@ == "last_update="@,
            lit@.len() == 12,
            forall|j: int| 0 <= j < i ==> s@[j] == "last_update="@[j],
        decreases 12 - i,
    {
        if s.get_char(i) != lit.get_char(i) {
            proof {
                assert(s@.subrange(0, 12)[i as int] != "last_update="@[i as int]);
            }
            return false;
        }
        i += 1;
    }
    proof {
        assert(s@.subrange(0, 12) =~= "last_update="@);
    }
    true
}

/// Reads an eight-digit partition key at `pos`.
pub(crate) fn x_key(s: &str, pos: usize) -> (r: Option<(u32, usize)>)
    requires
        pos <= s@.len(),
    ensures
        match r {
            Some(pr) => pr.1 == pos + 8 && pos + 8 <= s@.len() && pr.0 < 100000000 && sp_key(
                suffix(s@, pos as int),
            ) == Some((pr.0 as int, suffix(s@, pr.1 as int))),
            None => sp_key(suffix(s@, pos as int)) is None,
        },
{
    let ghost t = suffix(s@, pos as int);
    let n = s.unicode_len();
    if n - pos < 8 {
        return None;
    }
    let mut k: u32 = 0;
    let mut i: usize = 0;
    while i < 8
        invariant
            i <= 8,
            n == s@.len(),
            pos + 8 <= n,
            t == suffix(s@, pos as int),
            forall|j: int| 0 <= j < i ==> is_digit_char(#[trigger] t[j]),
            k < if i == 0 {
                1int
            } else if i == 1 {
                10int
            } else if i == 2 {
                100int
            } else if i == 3 {
                1000int
            } else if i == 4 {
                10000int
            } else if i == 5 {
                100000int
            } else if i == 6 {
                1000000int
            } else if i == 7 {
                10000000int
            } else {
                100000000int
            },
            k as int == digit_sum_prefix(t, i as int),
        decreases 8 - i,
    {
        let c = s.get_char(pos + i);
        proof {
            assert(t[i as int] == s@[pos + i]);
        }
        let v = c as u32;
        if v < 48 || v > 57 {
            proof {
                assert(!is_digit_char(t[i as int]));
            }
            return None;
        }
        k = k * 10 + (v - 48);
        i += 1;
    }
    proof {
        assert(digit_sum_prefix(t, 0) == 0);
        assert(digit_sum_prefix(t, 1) == digit_sum_prefix(t, 0) * 10 + digit_val(t[0]));
        assert(digit_sum_prefix(t, 2) == digit_sum_prefix(t, 1) * 10 + digit_val(t[1]));
        assert(digit_sum_prefix(t, 3) == digit_sum_prefix(t, 2) * 10 + digit_val(t[2]));
        assert(digit_sum_prefix(t, 4) == digit_sum_prefix(t, 3) * 10 + digit_val(t[3]));
        assert(digit_sum_prefix(t, 5) == digit_sum_prefix(t, 4) * 10 + digit_val(t[4]));
        assert(digit_sum_prefix(t, 6) == digit_sum_prefix(t, 5) * 10 + digit_val(t[5]));
        assert(digit_sum_prefix(t, 7) == digit_sum_prefix(t, 6) * 10 + digit_val(t[6]));
        assert(digit_sum_prefix(t, 8) == digit_sum_prefix(t, 7) * 10 + digit_val(t[7]));
        assert(k as int == key_val8(t));
        assert(suffix(t, 8) =~= suffix(s@, (pos + 8) as int));
    }
    Some((k, pos + 8))
}

/// The value of the first `i` digits of `t`, most significant first.
spec fn digit_sum_prefix(t: Seq<char>, i: int) -> int
    decreases i,
{
    if i <= 0 {
        0
    } else {
        digit_sum_prefix(t, i - 1) * 10 + digit_val(t[i - 1])
    }
}

/// Where the run of file-name characters starting at `start` ends.
fn scan_name_end(s: &str, start: usize) -> (j: usize)
    requires
        start <= s@.len(),
    ensures
        start <= j <= s@.len(),
        forall|q: int| start <= q < j ==> valid_name_char(#[trigger] s@[q]),
        j == s@.len() || !valid_name_char(s@[j as int]),
{
    let n = s.unicode_len();
    let mut j = start;
    loop
        invariant
            start <= j <= n,
            n == s@.len(),
            forall|q: int| start <= q < j ==> valid_name_char(#[trigger] s@[q]),
        decreases n - j,
    {
        if j >= n {
            return j;
        }
        let c = s.get_char(j);
        let v = c as u32;
        if v < 0x21 || v > 0x7e {
            return j;
        }
        j += 1;
    }
}

/// Reads one record line at `pos`.
fn x_rec(s: &str, pos: usize) -> (r: Option<(u32, DateRecord, usize)>)
    requires
        pos <= s@.len(),
    ensures
        match r {
            Some(pr) => pos < pr.2 <= s@.len() && sp_rec(suffix(s@, pos as int)) == Some(
                ((pr.0 as int, pr.1@), suffix(s@, pr.2 as int)),
            ),
            None => sp_rec(suffix(s@, pos as int)) is None,
        },
{
    let ghost t = suffix(s@, pos as int);
    let n = s.unicode_len();
    let kp = match x_key(s, pos) {
        Some(kp) => kp,
        None => {
            return None;
        },
    };
    let (k, p1) = kp;
    let ghost u = suffix(s@, p1 as int);
    if !crate::dates::check_date_key(k) {
        return None;
    }
    if n - p1 < 2 {
        proof {
            assert(u.len() < 2);
        }
        return None;
    }
    let c0 = s.get_char(p1);
    proof {
        assert(u[0] == s@[p1 as int]);
        assert(u[1] == s@[p1 + 1]);
    }
    if c0 != ' ' {
        return None;
    }
    let cf = s.get_char(p1 + 1);
    if cf != '0' && cf != '1' {
        return None;
    }
    let downloaded = cf == '1';
    let mut files: Vec<FileRecord> = Vec::new();
    let mut cur = p1 + 2;
    proof {
        assert(suffix(u, 2) =~= suffix(s@, cur as int));
    }
    loop
        invariant
            p1 + 2 <= cur <= n,
            n == s@.len(),
            pos + 8 == p1,
            u == suffix(s@, p1 as int),
            suffix(u, 2) == suffix(s@, (p1 + 2) as int),
            t == suffix(s@, pos as int),
            sp_key(t) == Some((k as int, u)),
            valid_date_key(k as int),
            u.len() >= 2,
            u[0] == ' ',
            u[1] == '0' || u[1] == '1',
            downloaded == (u[1] == '1'),
            match sp_names(suffix(s@, cur as int)) {
                Some(pr) => sp_names(suffix(s@, (p1 + 2) as int)) == Some(
                    (files@.map_values(|f: FileRecord| f@) + pr.0, pr.1),
                ),
                None => sp_names(suffix(s@, (p1 + 2) as int)) is None,
            },
        decreases n - cur,
    {
        let ghost tc = suffix(s@, cur as int);
        if cur >= n {
            proof {
                assert(tc.len() == 0);
            }
            return None;
        }
        let c = s.get_char(cur);
        proof {
            assert(tc[0] == s@[cur as int]);
        }
        if c == '\n' {
            proof {
                assert(suffix(tc, 1) =~= suffix(s@, (cur + 1) as int));
                assert(sp_names(tc) == Some(
                    (Seq::<Seq<char>>::empty(), suffix(s@, (cur + 1) as int)),
                ));
                assert(files@.map_values(|f: FileRecord| f@) + Seq::<Seq<char>>::empty()
                    =~= files@.map_values(|f: FileRecord| f@));
            }
            let rec = DateRecord { downloaded, files };
            proof {
                assert(rec@ =~= RecModel {
                    downloaded: u[1] == '1',
                    files: rec.files@.map_values(|f: FileRecord| f@),
                });
                assert(sp_rec(t) == Some(((k as int, rec@), suffix(s@, (cur + 1) as int))));
            }
            return Some((k, rec, cur + 1));
        }
        if c != ' ' {
            return None;
        }
        let start = cur + 1;
        let j = scan_name_end(s, start);
        proof {
            let v1 = suffix(s@, start as int);
            assert forall|q: int| 0 <= q < j - start implies valid_name_char(
                #[trigger] v1[q],
            ) by {
                assert(v1[q] == s@[start + q]);
            }
            if (j - start) < v1.len() {
                assert(v1[(j - start) as int] == s@[j as int]);
            }
            lemma_name_len_unique(v1, j - start);
            assert(name_len(suffix(tc, 1)) == j - start) by {
                assert(suffix(tc, 1) =~= v1);
            }
        }
        if j == start {
            proof {
                assert(sp_names(tc) is None);
            }
            return None;
        }
        if j >= n {
            proof {
                assert(1 + (j - start) >= tc.len());
                assert(sp_names(tc) is None);
            }
            return None;
        }
        let nm = s.substring_char(start, j);
        let fr = FileRecord { file_name: nm.to_owned() };
        proof {
            let nl = (j - start) as int;
            assert(tc.subrange(1, 1 + nl) =~= s@.subrange(start as int, j as int));
            assert(fr@ == tc.subrange(1, 1 + nl));
            assert(suffix(tc, 1 + nl) =~= suffix(s@, j as int));
            let old_models = files@.map_values(|f: FileRecord| f@);
            match sp_names(suffix(s@, j as int)) {
                Some(pr2) => {
                    assert(sp_names(tc) == Some((seq![fr@] + pr2.0, pr2.1)));
                    assert((files@.push(fr)).map_values(|f: FileRecord| f@) =~= old_models.push(
                        fr@,
                    ));
                    assert(old_models + (seq![fr@] + pr2.0) =~= old_models.push(fr@) + pr2.0);
                },
                None => {
                    assert(sp_names(tc) is None);
                },
            }
        }
        files.push(fr);
        cur = j;
    }
}

/// Spec models of a record vector.
spec fn rec_models(records: Seq<(u32, DateRecord)>) -> Seq<(int, RecModel)> {
    records.map_values(|p: (u32, DateRecord)| (p.0 as int, p.1@))
}

/// Pairwise-distinct keys in a record vector.
spec fn keys_uniq_u32(records: Seq<(u32, DateRecord)>) -> bool {
    forall|a: int, b: int|
        0 <= a < b < records.len() ==> (#[trigger] records[a]).0 != (#[trigger] records[b]).0
}

/// The running state of the record-line loop: what was read so far,
/// together with what is still to come, accounts for the whole record
/// section of the text.
spec fn recs_inv(s: Seq<char>, pos0: int, pos: int, records: Seq<(u32, DateRecord)>) -> bool {
    match sp_recs(suffix(s, pos)) {
        Some(tail) => sp_recs(suffix(s, pos0)) == (if (forall|q: int|
            0 <= q < records.len() ==> !crate::catalog::spec_contains_key(
                tail,
                (#[trigger] records[q]).0 as int,
            )) {
            Some(rec_models(records) + tail)
        } else {
            None::<Seq<(int, RecModel)>>
        }),
        None => sp_recs(suffix(s, pos0)) is None,
    }
}

/// A record line that fails to parse sinks the whole record section.
proof fn lemma_recs_none(s: Seq<char>, pos0: int, pos: int, records: Seq<(u32, DateRecord)>)
    requires
        recs_inv(s, pos0, pos, records),
        0 <= pos <= s.len(),
        suffix(s, pos).len() > 0,
        sp_rec(suffix(s, pos)) is None,
    ensures
        sp_recs(suffix(s, pos0)) is None,
{
    assert(sp_recs(suffix(s, pos)) is None);
}

/// A repeated partition key sinks the whole record section.
proof fn lemma_recs_dup(
    s: Seq<char>,
    pos0: int,
    pos: int,
    p2: int,
    records: Seq<(u32, DateRecord)>,
    k: u32,
    rec: DateRecord,
)
    requires
        recs_inv(s, pos0, pos, records),
        0 <= pos < p2 <= s.len(),
        sp_rec(suffix(s, pos)) == Some(((k as int, rec@), suffix(s, p2))),
        exists|q: int| 0 <= q < records.len() && (#[trigger] records[q]).0 == k,
    ensures
        sp_recs(suffix(s, pos0)) is None,
{
    let tp = suffix(s, pos);
    let rem = suffix(s, p2);
    let q = choose|q: int| 0 <= q < records.len() && (#[trigger] records[q]).0 == k;
    match sp_recs(rem) {
        Some(tail2) => {
            lemma_contains_cons((k as int, rec@), tail2, k as int);
            if !crate::catalog::spec_contains_key(tail2, k as int) {
                let tail = seq![(k as int, rec@)] + tail2;
                assert(sp_recs(tp) == Some(tail));
                assert(crate::catalog::spec_contains_key(tail, records[q].0 as int));
            } else {
                assert(sp_recs(tp) is None);
            }
        },
        None => {
            assert(sp_recs(tp) is None);
        },
    }
}

/// Reading one fresh record line keeps the running state.
proof fn lemma_recs_step(
    s: Seq<char>,
    pos0: int,
    pos: int,
    p2: int,
    records: Seq<(u32, DateRecord)>,
    k: u32,
    rec: DateRecord,
)
    requires
        recs_inv(s, pos0, pos, records),
        0 <= pos < p2 <= s.len(),
        sp_rec(suffix(s, pos)) == Some(((k as int, rec@), suffix(s, p2))),
        keys_uniq_u32(records),
        !(exists|q: int| 0 <= q < records.len() && (#[trigger] records[q]).0 == k),
    ensures
        recs_inv(s, pos0, p2, records.push((k, rec))),
        keys_uniq_u32(records.push((k, rec))),
{
    let tp = suffix(s, pos);
    let rem = suffix(s, p2);
    let old_models = rec_models(records);
    let newrec = (k as int, rec@);
    let pushed = records.push((k, rec));
    assert(rec_models(pushed) =~= old_models.push(newrec));
    assert forall|a: int, b: int| 0 <= a < b < pushed.len() implies (#[trigger] pushed[a]).0 != (
    #[trigger] pushed[b]).0 by {
        if b < records.len() {
            assert(pushed[a] == records[a]);
            assert(pushed[b] == records[b]);
        } else {
            assert(pushed[a] == records[a]);
            assert(pushed[b].0 == k);
        }
    }
    match sp_recs(rem) {
        Some(tail2) => {
            lemma_contains_cons(newrec, tail2, k as int);
            if crate::catalog::spec_contains_key(tail2, k as int) {
                assert(sp_recs(tp) is None);
                assert(sp_recs(suffix(s, pos0)) is None);
                assert(crate::catalog::spec_contains_key(tail2, pushed[records.len() as int].0 as int));
                assert(!(forall|q: int|
                    0 <= q < pushed.len() ==> !crate::catalog::spec_contains_key(
                        tail2,
                        (#[trigger] pushed[q]).0 as int,
                    )));
            } else {
                let tail = seq![newrec] + tail2;
                assert(sp_recs(tp) == Some(tail));
                assert forall|q: int| 0 <= q < records.len() implies (
                crate::catalog::spec_contains_key(tail, (#[trigger] records[q]).0 as int)
                    <==> crate::catalog::spec_contains_key(tail2, records[q].0 as int)) by {
                    lemma_contains_cons(newrec, tail2, records[q].0 as int);
                }
                if (forall|q: int|
                    0 <= q < pushed.len() ==> !crate::catalog::spec_contains_key(
                        tail2,
                        (#[trigger] pushed[q]).0 as int,
                    )) {
                    assert forall|q: int| 0 <= q < records.len() implies
                        !crate::catalog::spec_contains_key(
                        tail,
                        (#[trigger] records[q]).0 as int,
                    ) by {
                        assert(pushed[q] == records[q]);
                        assert(!crate::catalog::spec_contains_key(tail2, records[q].0 as int));
                    }
                    assert(sp_recs(suffix(s, pos0)) == Some(old_models + tail));
                    assert(old_models + (seq![newrec] + tail2) =~= old_models.push(newrec)
                        + tail2);
                } else {
                    let q = choose|q: int|
                        0 <= q < pushed.len() && crate::catalog::spec_contains_key(
                            tail2,
                            (#[trigger] pushed[q]).0 as int,
                        );
                    if q < records.len() {
                        assert(pushed[q] == records[q]);
                        assert(crate::catalog::spec_contains_key(tail, records[q].0 as int));
                        assert(sp_recs(suffix(s, pos0)) is None);
                    } else {
                        assert(pushed[q].0 == k);
                        assert(false);
                    }
                }
            }
        },
        None => {
            assert(sp_recs(tp) is None);
        },
    }
}

/// At the end of the text the running state yields the record list.
proof fn lemma_recs_finish(s: Seq<char>, pos0: int, pos: int, records: Seq<(u32, DateRecord)>)
    requires
        recs_inv(s, pos0, pos, records),
        0 <= pos <= s.len(),
        suffix(s, pos).len() == 0,
    ensures
        sp_recs(suffix(s, pos0)) == Some(rec_models(records)),
{
    assert(sp_recs(suffix(s, pos)) == Some(Seq::<(int, RecModel)>::empty()));
    assert(rec_models(records) + Seq::<(int, RecModel)>::empty() =~= rec_models(records));
}

/// Reads a catalog, refusing any text the encoder would not write.
#[verifier::rlimit(100)]
fn parse_inner(s: &str) -> (r: Option<Catalog>)
    ensures
        match r {
            Some(c) => spec_parse(s@) == Some(c@),
            None => spec_parse(s@) is None,
        },
{
    let n = s.unicode_len();
    if !check_header(s) {
        return None;
    }
    let ghost u12 = suffix(s@, 12);
    let wm: Option<u32>;
    let mut pos: usize;
    if n == 12 {
        proof {
            assert(u12.len() == 0);
        }
        return None;
    }
    let c12 = s.get_char(12);
    proof {
        assert(u12[0] == s@[12]);
    }
    if c12 == '-' {
        if n < 14 {
            proof {
                assert(u12.len() < 2);
            }
            return None;
        }
        let c13 = s.get_char(13);
        proof {
            assert(u12[1] == s@[13]);
        }
        if c13 != '\n' {
            return None;
        }
        wm = None;
        pos = 14;
        proof {
            assert(suffix(u12, 2) =~= suffix(s@, 14));
        }
    } else {
        let kp = match x_key(s, 12) {
            Some(kp) => kp,
            None => {
                return None;
            },
        };
        let (k, p2) = kp;
        if !crate::dates::check_date_key(k) {
            return None;
        }
        if n < 21 {
            proof {
                assert(suffix(s@, 20).len() < 1);
            }
            return None;
        }
        let c20 = s.get_char(20);
        proof {
            assert(suffix(s@, 20)[0] == s@[20]);
        }
        if c20 != '\n' {
            return None;
        }
        wm = Some(k);
        pos = 21;
        proof {
            assert(suffix(suffix(s@, 20), 1) =~= suffix(s@, 21));
        }
    }
    let ghost wmm: Option<int> = match wm {
        Some(w) => Some(w as int),
        None => None,
    };
    let ghost pos0 = pos as int;
    proof {
        assert(sp_wm(s@) == Some((wmm, suffix(s@, pos0))));
    }
    let mut records: Vec<(u32, DateRecord)> = Vec::new();
    while pos < n
        invariant
            pos0 <= pos <= n,
            n == s@.len(),
            sp_wm(s@) == Some((wmm, suffix(s@, pos0))),
            keys_uniq_u32(records@),
            recs_inv(s@, pos0, pos as int, records@),
        decreases n - pos,
    {
        let ghost tp = suffix(s@, pos as int);
        let pr = match x_rec(s, pos) {
            Some(pr) => pr,
            None => {
                proof {
                    lemma_recs_none(s@, pos0, pos as int, records@);
                }
                return None;
            },
        };
        let (k, rec, p2) = pr;
        let mut qi: usize = 0;
        let mut dup = false;
        let rn = records.len();
        while qi < rn
            invariant
                qi <= rn,
                rn == records@.len(),
                dup == exists|q: int| 0 <= q < qi && (#[trigger] records@[q]).0 == k,
            decreases rn - qi,
        {
            if records[qi].0 == k {
                dup = true;
            }
            qi += 1;
        }
        if dup {
            proof {
                lemma_recs_dup(s@, pos0, pos as int, p2 as int, records@, k, rec);
            }
            return None;
        }
        proof {
            lemma_recs_step(s@, pos0, pos as int, p2 as int, records@, k, rec);
        }
        records.push((k, rec));
        pos = p2;
    }
    proof {
        lemma_recs_finish(s@, pos0, pos as int, records@);
    }
    let cat = Catalog { watermark: wm, records };
    proof {
        assert(cat@ =~= CatModel { watermark: wmm, recs: rec_models(cat.records@) });
        assert(spec_parse(s@) == Some(cat@));
    }
    Some(cat)
}

/// Reads a catalog back from its persisted text.
///
/// Any text the encoder wrote is accepted and yields the encoded
/// catalog back unchanged; anything else is rejected, which the engine
/// treats as an absent catalog.
pub fn parse_catalog(s: &str) -> (r: Option<Catalog>)
    ensures
        match r {
            Some(c) => spec_parse(s@) == Some(c@) && crate::catalog::cat_wf(c@),
            None => spec_parse(s@) is None,
        },
        forall|m: CatModel|
            crate::catalog::cat_wf(m) && s@ == cat_text(m) ==> (match r {
                Some(c) => c@ == m,
                None => false,
            }),
{
    let r = parse_inner(s);
    proof {
        lemma_parse_wf(s@);
        assert forall|m: CatModel| crate::catalog::cat_wf(m) && s@ == cat_text(m) implies (match r {
            Some(c) => c@ == m,
            None => false,
        }) by {
            lemma_parse_complete(m);
        }
    }
    r
}

} // verus!
