//! Artifact-version file names: `v{version:04}.{ext}`, one file per saved
//! version of a node's output for a page.

use vstd::prelude::*;
use vstd::string::StringExecFns;
use crate::text::{chars_of, split_chars, split_on, views, string_of, lemma_split_on_nonempty};

verus! {

pub open spec fn is_digit(c: char) -> bool {
    '0' <= c && c <= '9'
}

pub open spec fn digit_val(c: char) -> nat {
    ((c as int) - ('0' as int)) as nat
}

/// Decimal value of a digit string.
pub open spec fn dec_value(s: Seq<char>) -> nat
    decreases s.len(),
{
    if s.len() == 0 {
        0
    } else {
        dec_value(s.drop_last()) * 10 + digit_val(s.last())
    }
}

pub open spec fn all_digits(s: Seq<char>) -> bool {
    forall|i: int| 0 <= i < s.len() ==> is_digit(#[trigger] s[i])
}

/// `u32::from_str`: an optional `+`, then at least one ASCII digit, with a
/// value that fits in `u32`.
pub open spec fn spec_parse_u32(s: Seq<char>) -> Option<u32> {
    let d = if s.len() > 0 && s[0] == '+' {
        s.drop_first()
    } else {
        s
    };
    if d.len() > 0 && all_digits(d) && dec_value(d) <= u32::MAX {
        Some(dec_value(d) as u32)
    } else {
        None
    }
}

pub proof fn lemma_dec_value_grows(s: Seq<char>, i: int)
    requires
        0 <= i <= s.len(),
        all_digits(s),
    ensures
        dec_value(s) >= dec_value(s.take(i)),
    decreases s.len(),
{
    if i < s.len() {
        assert(s.drop_last().take(i) =~= s.take(i));
        lemma_dec_value_grows(s.drop_last(), i);
    } else {
        assert(s.take(i) =~= s);
    }
}

/// Parses a decimal `u32` the way `str::parse::<u32>` does.
pub fn parse_u32(s: &[char]) -> (r: Option<u32>)
    ensures
        r == spec_parse_u32(s@),
{
    let start: usize = if s.len() > 0 && s[0] == '+' { 1 } else { 0 };
    let ghost d = if s@.len() > 0 && s@[0] == '+' { s@.drop_first() } else { s@ };
    if start >= s.len() {
        assert(d.len() == 0);
        return None;
    }
    let mut acc: u64 = 0;
    let mut i: usize = start;
    while i < s.len()
        invariant
            start <= i <= s@.len(),
            d =~= s@.skip(start as int),
            d == (if s@.len() > 0 && s@[0] == '+' { s@.drop_first() } else { s@ }),
            all_digits(s@.subrange(start as int, i as int)),
            acc == dec_value(s@.subrange(start as int, i as int)),
            acc <= u32::MAX,
        decreases s@.len() - i,
    {
        let c = s[i];
        let ghost pre = s@.subrange(start as int, i + 1);
        assert(pre.drop_last() =~= s@.subrange(start as int, i as int));
        assert(pre.last() == c);
        if !('0' <= c && c <= '9') {
            proof {
                assert(d[i - start] == c);
                assert(!is_digit(d[i - start]));
            }
            return None;
        }
        let next = acc * 10 + ((c as u32) - ('0' as u32)) as u64;
        assert(digit_val(c) == (c as u32) - ('0' as u32));
        assert(next == dec_value(pre));
        if next > 0xFFFF_FFFF {
            proof {
                if all_digits(d) {
                    assert(d.take(i + 1 - start) =~= pre);
                    assert(dec_value(d) > u32::MAX) by {
                        lemma_dec_value_grows(d, i + 1 - start);
                    }
                    lemma_dec_value_grows(d, i + 1 - start);
                }
            }
            return None;
        }
        acc = next;
        i += 1;
    }
    assert(s@.subrange(start as int, s@.len() as int) =~= d);
    Some(acc as u32)
}

pub open spec fn digit_char(d: nat) -> char {
    ((d + ('0' as int)) as u32) as char
}

/// Decimal digits of `n`, without leading zeros.
pub open spec fn dec_str(n: nat) -> Seq<char>
    decreases n,
{
    if n < 10 {
        seq![digit_char(n)]
    } else {
        dec_str(n / 10).push(digit_char(n % 10))
    }
}

/// `s` left-padded with zeros to at least four characters (`{:04}`).
pub open spec fn pad4(s: Seq<char>) -> Seq<char> {
    if s.len() >= 4 {
        s
    } else {
        Seq::new((4 - s.len()) as nat, |i: int| '0') + s
    }
}

/// File name of version `v` of an artifact with extension `ext`.
pub open spec fn spec_artifact_file_name(v: u32, ext: Seq<char>) -> Seq<char> {
    seq!['v'] + pad4(dec_str(v as nat)) + seq!['.'] + ext
}

/// Version encoded in a file name: after a leading `v`, the text up to the
/// first `.` read as a `u32`.
pub open spec fn spec_parse_version_name(name: Seq<char>) -> Option<u32> {
    if name.len() > 0 && name[0] == 'v' {
        spec_parse_u32(split_on(name.drop_first(), '.')[0])
    } else {
        None
    }
}

fn digit_to_char(d: u64) -> (c: char)
    requires
        d < 10,
    ensures
        c == digit_char(d as nat),
{
    let b: u8 = (d as u8) + 48;
    b as char
}

fn dec_chars(n: u64) -> (out: Vec<char>)
    ensures
        out@ == dec_str(n as nat),
    decreases n,
{
    if n < 10 {
        vec![digit_to_char(n)]
    } else {
        let mut v = dec_chars(n / 10);
        v.push(digit_to_char(n % 10));
        v
    }
}

/// Decimal text of `n` (`n.to_string()`).
pub fn decimal_string(n: u64) -> (s: String)
    ensures
        s@ == dec_str(n as nat),
{
    let d = dec_chars(n);
    string_of(d.as_slice())
}

/// `format!("v{version:04}.{ext}")`.
pub fn artifact_file_name(version: u32, ext: &str) -> (name: String)
    ensures
        name@ == spec_artifact_file_name(version, ext@),
{
    let digits = dec_chars(version as u64);
    let mut name = String::new();
    crate::text::push_char(&mut name, 'v');
    let mut pad: usize = if digits.len() < 4 { 4 - digits.len() } else { 0 };
    let ghost pad0 = pad;
    while pad > 0
        invariant
            pad <= pad0,
            pad0 == if digits@.len() < 4 { 4 - digits@.len() } else { 0int },
            name@ == seq!['v'] + Seq::new((pad0 - pad) as nat, |i: int| '0'),
        decreases pad,
    {
        crate::text::push_char(&mut name, '0');
        assert(seq!['v'] + Seq::new((pad0 - pad + 1) as nat, |i: int| '0') =~= (seq!['v'] + Seq::new((pad0 - pad) as nat, |i: int| '0')).push('0'));
        pad -= 1;
    }
    let ds = string_of(digits.as_slice());
    name.append(ds.as_str());
    crate::text::push_char(&mut name, '.');
    name.append(ext);
    proof {
        if digits@.len() >= 4 {
            assert(Seq::new(0nat, |i: int| '0') =~= Seq::<char>::empty());
        }
        assert(name@ =~= spec_artifact_file_name(version, ext@));
    }
    name
}

/// The version a file name encodes, if any.
pub fn parse_version_name(name: &str) -> (r: Option<u32>)
    ensures
        r == spec_parse_version_name(name@),
{
    let nc = chars_of(name);
    if nc.len() == 0 || nc[0] != 'v' {
        return None;
    }
    let mut rest: Vec<char> = Vec::new();
    let mut i: usize = 1;
    while i < nc.len()
        invariant
            1 <= i <= nc@.len(),
            rest@ == nc@.subrange(1, i as int),
        decreases nc@.len() - i,
    {
        rest.push(nc[i]);
        assert(nc@.subrange(1, i + 1) =~= nc@.subrange(1, i as int).push(nc@[i as int]));
        i += 1;
    }
    assert(rest@ =~= nc@.drop_first());
    let pieces = split_chars(rest.as_slice(), '.');
    proof {
        lemma_split_on_nonempty(rest@, '.');
        assert(views(pieces@)[0] == pieces@[0]@);
    }
    parse_u32(pieces[0].as_slice())
}

/// Largest of `vs`, 0 for none.
pub open spec fn max_of(vs: Seq<u32>) -> nat
    decreases vs.len(),
{
    if vs.len() == 0 {
        0
    } else {
        let m = max_of(vs.drop_last());
        if vs.last() > m {
            vs.last() as nat
        } else {
            m
        }
    }
}

proof fn lemma_max_of(vs: Seq<u32>)
    ensures
        forall|i: int| 0 <= i < vs.len() ==> vs[i] <= max_of(vs),
        vs.len() > 0 ==> exists|i: int| 0 <= i < vs.len() && vs[i] == max_of(vs),
    decreases vs.len(),
{
    if vs.len() > 0 {
        lemma_max_of(vs.drop_last());
        assert forall|i: int| 0 <= i < vs.len() implies vs[i] <= max_of(vs) by {
            if i < vs.len() - 1 {
                assert(vs.drop_last()[i] == vs[i]);
            }
        }
        if vs.last() <= max_of(vs.drop_last()) && vs.len() > 1 {
            let w = choose|i: int| 0 <= i < vs.len() - 1 && vs.drop_last()[i] == max_of(vs.drop_last());
            assert(vs[w] == max_of(vs));
        }
    }
}

fn max_version(vs: &[u32]) -> (m: u32)
    ensures
        m == max_of(vs@),
{
    let mut m: u32 = 0;
    let mut i: usize = 0;
    while i < vs.len()
        invariant
            i <= vs@.len(),
            m == max_of(vs@.take(i as int)),
        decreases vs@.len() - i,
    {
        assert(vs@.take(i + 1).drop_last() =~= vs@.take(i as int));
        if vs[i] > m {
            m = vs[i];
        }
        i += 1;
    }
    assert(vs@.take(vs@.len() as int) =~= vs@);
    m
}

/// Number of the next version: one past the largest existing version (1
/// when there is none).
pub fn next_version(vs: &[u32]) -> (n: u32)
    requires
        forall|i: int| 0 <= i < vs@.len() ==> vs@[i] < u32::MAX,
    ensures
        n == max_of(vs@) + 1,
{
    proof { lemma_max_of(vs@); }
    let m = max_version(vs);
    proof {
        if vs@.len() > 0 {
            let w = choose|i: int| 0 <= i < vs@.len() && vs@[i] == max_of(vs@);
            assert(vs@[w] < u32::MAX);
        }
    }
    m + 1
}

/// The newest version, if any.
pub fn latest_version(vs: &[u32]) -> (r: Option<u32>)
    ensures
        vs@.len() == 0 ==> r is None,
        vs@.len() > 0 ==> r == Some(max_of(vs@) as u32),
{
    if vs.len() == 0 {
        None
    } else {
        Some(max_version(vs))
    }
}

/// Versions encoded in the names, in order, skipping names that encode none.
pub open spec fn spec_versions_in(names: Seq<Seq<char>>) -> Seq<u32>
    decreases names.len(),
{
    if names.len() == 0 {
        Seq::<u32>::empty()
    } else {
        let r = spec_versions_in(names.drop_last());
        match spec_parse_version_name(names.last()) {
            Some(v) => r.push(v),
            None => r,
        }
    }
}

pub open spec fn name_views(v: Seq<String>) -> Seq<Seq<char>> {
    v.map_values(|s: String| s@)
}

/// Versions encoded in a directory's file names.
pub fn versions_in(names: &[String]) -> (vs: Vec<u32>)
    ensures
        vs@ == spec_versions_in(name_views(names@)),
{
    let mut vs: Vec<u32> = Vec::new();
    let mut i: usize = 0;
    while i < names.len()
        invariant
            i <= names@.len(),
            vs@ == spec_versions_in(name_views(names@).take(i as int)),
        decreases names@.len() - i,
    {
        let ghost pre = name_views(names@).take(i + 1);
        assert(pre.drop_last() =~= name_views(names@).take(i as int));
        assert(pre.last() == names@[i as int]@);
        match parse_version_name(names[i].as_str()) {
            Some(v) => vs.push(v),
            None => {},
        }
        i += 1;
    }
    assert(name_views(names@).take(names@.len() as int) =~= name_views(names@));
    vs
}

/// Position of the first name that encodes version `v`.
pub fn first_name_with_version(names: &[String], v: u32) -> (r: Option<usize>)
    ensures
        match r {
            Some(i) => i < names@.len() && spec_parse_version_name(names@[i as int]@) == Some(v)
                && forall|j: int| 0 <= j < i ==> spec_parse_version_name(names@[j]@) != Some(v),
            None => forall|j: int| 0 <= j < names@.len() ==> spec_parse_version_name(names@[j]@) != Some(v),
        },
{
    let mut i: usize = 0;
    while i < names.len()
        invariant
            i <= names@.len(),
            forall|j: int| 0 <= j < i ==> spec_parse_version_name(names@[j]@) != Some(v),
        decreases names@.len() - i,
    {
        if parse_version_name(names[i].as_str()) == Some(v) {
            return Some(i);
        }
        i += 1;
    }
    None
}

pub proof fn lemma_dec_str(n: nat)
    ensures
        dec_str(n).len() >= 1,
        all_digits(dec_str(n)),
        dec_value(dec_str(n)) == n,
    decreases n,
{
    if n < 10 {
        lemma_digit_char(n);
        let t = dec_str(n);
        assert(t == seq![digit_char(n)]);
        assert(t.drop_last() =~= Seq::<char>::empty());
        assert(dec_value(t.drop_last()) == 0);
        assert(dec_value(t) == digit_val(t.last()));
    } else {
        lemma_dec_str(n / 10);
        let q = n / 10;
        let r = n % 10;
        lemma_digit_char(r);
        assert(n == q * 10 + r);
        let s = dec_str(q);
        let t = s.push(digit_char(r));
        assert(dec_str(n) == t);
        assert(t.drop_last() =~= s);
        assert(dec_value(t) == dec_value(s) * 10 + digit_val(t.last()));
        assert forall|i: int| 0 <= i < t.len() implies is_digit(#[trigger] t[i]) by {
            if i < s.len() {
                assert(t[i] == s[i]);
            }
        }
    }
}

pub proof fn lemma_digit_char(d: nat)
    requires
        d < 10,
    ensures
        is_digit(digit_char(d)),
        digit_val(digit_char(d)) == d,
{
    assert(((d + ('0' as int)) as u32) as char as int == d + 48);
}

pub proof fn lemma_leading_zeros(k: nat, s: Seq<char>)
    requires
        all_digits(s),
    ensures
        all_digits(Seq::new(k, |i: int| '0') + s),
        dec_value(Seq::new(k, |i: int| '0') + s) == dec_value(s),
    decreases s.len(),
{
    let z = Seq::new(k, |i: int| '0');
    let t = z + s;
    assert forall|i: int| 0 <= i < t.len() implies is_digit(#[trigger] t[i]) by {
        if i >= k {
            assert(t[i] == s[i - k]);
        }
    }
    if s.len() == 0 {
        assert(t =~= z);
        lemma_zeros_value(k);
    } else {
        lemma_leading_zeros(k, s.drop_last());
        assert(t.drop_last() =~= z + s.drop_last());
    }
}

proof fn lemma_zeros_value(k: nat)
    ensures
        dec_value(Seq::new(k, |i: int| '0')) == 0,
    decreases k,
{
    if k > 0 {
        lemma_zeros_value((k - 1) as nat);
        assert(Seq::new(k, |i: int| '0').drop_last() =~= Seq::new((k - 1) as nat, |i: int| '0'));
    }
}

/// The pieces of a string split at `sep` begin with the text before the
/// first `sep` (the whole string when there is none).
proof fn lemma_split_first(s: Seq<char>, sep: char)
    ensures
        (forall|i: int| 0 <= i < s.len() ==> s[i] != sep) ==> split_on(s, sep) == seq![s],
        forall|j: int| #![trigger s.take(j)] 0 <= j < s.len() && s[j] == sep && (forall|i: int| 0 <= i < j ==> s[i] != sep)
            ==> split_on(s, sep).len() >= 2 && split_on(s, sep)[0] == s.take(j),
    decreases s.len(),
{
    if s.len() == 0 {
        assert(s =~= Seq::<char>::empty());
        assert(split_on(s, sep) =~= seq![s]);
    } else {
        let p = s.drop_last();
        lemma_split_first(p, sep);
        lemma_split_on_nonempty_len(p, sep);
        let r = split_on(p, sep);
        if forall|i: int| 0 <= i < p.len() ==> p[i] != sep {
            if s.last() == sep {
                assert forall|j: int| #![trigger s.take(j)] 0 <= j < s.len() && s[j] == sep && (forall|i: int| 0 <= i < j ==> s[i] != sep)
                    implies split_on(s, sep).len() >= 2 && split_on(s, sep)[0] == s.take(j) by {
                    if j < s.len() - 1 {
                        assert(p[j] == s[j]);
                    }
                    assert(s.take(j) =~= p);
                }
            } else {
                assert(r == seq![p]);
                assert(p.push(s.last()) =~= s);
                assert(split_on(s, sep) =~= seq![s]);
                assert forall|i: int| 0 <= i < s.len() implies s[i] != sep by {
                    if i < s.len() - 1 {
                        assert(p[i] == s[i]);
                    }
                }
            }
        } else {
            let j0 = choose|i: int| 0 <= i < p.len() && p[i] == sep;
            let jf = first_sep(p, sep, j0);
            assert(p.take(jf) =~= s.take(jf));
            assert forall|j: int| #![trigger s.take(j)] 0 <= j < s.len() && s[j] == sep && (forall|i: int| 0 <= i < j ==> s[i] != sep)
                implies split_on(s, sep).len() >= 2 && split_on(s, sep)[0] == s.take(j) by {
                if j != jf {
                    if j < jf {
                        assert(p[j] == s[j]);
                    } else {
                        assert(s[jf] == p[jf]);
                    }
                }
            }
        }
    }
}

proof fn lemma_split_on_nonempty_len(s: Seq<char>, sep: char)
    ensures
        split_on(s, sep).len() >= 1,
{
    lemma_split_on_nonempty(s, sep);
}

/// The first occurrence of `sep` at or before `j`.
proof fn first_sep(s: Seq<char>, sep: char, j: int) -> (f: int)
    requires
        0 <= j < s.len(),
        s[j] == sep,
    ensures
        0 <= f <= j,
        s[f] == sep,
        forall|i: int| 0 <= i < f ==> s[i] != sep,
    decreases j,
{
    if exists|i: int| 0 <= i < j && s[i] == sep {
        let i = choose|i: int| 0 <= i < j && s[i] == sep;
        first_sep(s, sep, i)
    } else {
        j
    }
}

/// A file name made for version `v` reads back as `v`, whatever the
/// extension.
#[verifier::rlimit(40)]
pub proof fn law_version_name_roundtrip(v: u32, ext: Seq<char>)
    ensures
        spec_parse_version_name(spec_artifact_file_name(v, ext)) == Some(v),
{
    let d = dec_str(v as nat);
    lemma_dec_str(v as nat);
    let p = pad4(d);
    let k: nat = if d.len() >= 4 { 0 } else { (4 - d.len()) as nat };
    lemma_leading_zeros(k, d);
    assert(p =~= Seq::new(k, |i: int| '0') + d);
    let name = spec_artifact_file_name(v, ext);
    let rest = name.drop_first();
    assert(rest =~= p + seq!['.'] + ext);
    lemma_split_first(rest, '.');
    assert forall|i: int| 0 <= i < p.len() implies rest[i] != '.' by {
        assert(rest[i] == p[i]);
        assert(is_digit(p[i]));
    }
    assert(rest[p.len() as int] == '.');
    assert(rest.take(p.len() as int) =~= p);
    assert(p.len() > 0);
    assert(p[0] != '+') by {
        assert(is_digit(p[0]));
    }
}

/// The next version is newer than every existing one and becomes the latest.
pub proof fn law_next_version_is_latest(vs: Seq<u32>)
    requires
        forall|i: int| 0 <= i < vs.len() ==> vs[i] < u32::MAX,
    ensures
        forall|i: int| 0 <= i < vs.len() ==> vs[i] < max_of(vs) + 1,
        max_of(vs) + 1 <= u32::MAX,
        max_of(vs.push((max_of(vs) + 1) as u32)) == max_of(vs) + 1,
{
    lemma_max_of(vs);
    if vs.len() > 0 {
        let w = choose|i: int| 0 <= i < vs.len() && vs[i] == max_of(vs);
        assert(vs[w] < u32::MAX);
    }
    assert(vs.push((max_of(vs) + 1) as u32).drop_last() =~= vs);
}

} // verus!

verus! {

/// Every version a name encodes is among the versions found.
proof fn lemma_versions_in_contains(names: Seq<Seq<char>>, j: int)
    requires
        0 <= j < names.len(),
        spec_parse_version_name(names[j]) is Some,
    ensures
        spec_versions_in(names).contains(spec_parse_version_name(names[j])->0),
    decreases names.len(),
{
    let r = spec_versions_in(names.drop_last());
    if j < names.len() - 1 {
        assert(names.drop_last()[j] == names[j]);
        lemma_versions_in_contains(names.drop_last(), j);
        let k = choose|k: int| 0 <= k < r.len() && r[k] == spec_parse_version_name(names[j])->0;
        match spec_parse_version_name(names.last()) {
            Some(v) => assert(r.push(v)[k] == r[k]),
            None => {},
        }
    } else {
        assert(r.push(spec_parse_version_name(names[j])->0)[r.len() as int] == spec_parse_version_name(names[j])->0);
    }
}

/// Saving an artifact under the next version's file name makes it the one
/// read back as the latest: its name encodes the new version, no earlier
/// name does, and the earlier versions stay.
pub proof fn law_new_artifact_is_latest(names: Seq<Seq<char>>, ext: Seq<char>)
    requires
        forall|i: int| 0 <= i < spec_versions_in(names).len() ==> spec_versions_in(names)[i] < u32::MAX,
    ensures
        ({
            let vs = spec_versions_in(names);
            let n = (max_of(vs) + 1) as u32;
            let names2 = names.push(spec_artifact_file_name(n, ext));
            &&& n == max_of(vs) + 1
            &&& spec_versions_in(names2) == vs.push(n)
            &&& max_of(spec_versions_in(names2)) == n
            &&& spec_parse_version_name(names2[names.len() as int]) == Some(n)
            &&& forall|j: int| 0 <= j < names.len() ==> spec_parse_version_name(#[trigger] names2[j]) != Some(n)
        }),
{
    let vs = spec_versions_in(names);
    law_next_version_is_latest(vs);
    let n = (max_of(vs) + 1) as u32;
    let names2 = names.push(spec_artifact_file_name(n, ext));
    law_version_name_roundtrip(n, ext);
    assert(names2.drop_last() =~= names);
    assert(names2.last() == spec_artifact_file_name(n, ext));
    assert forall|j: int| 0 <= j < names.len() implies spec_parse_version_name(#[trigger] names2[j]) != Some(n) by {
        assert(names2[j] == names[j]);
        if spec_parse_version_name(names[j]) == Some(n) {
            lemma_versions_in_contains(names, j);
            let k = choose|k: int| 0 <= k < vs.len() && vs[k] == n;
        }
    }
}

} // verus!
