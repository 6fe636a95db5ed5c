//! Typesetting decisions that need no font metrics: splitting vertical
//! text into columns and the search for the largest font size that fits.

use vstd::prelude::*;
use crate::text::chars_of;

verus! {

/// Vertical text: characters stack top to bottom in columns of at most
/// `n` rows; a new column starts when the current one is full. There is
/// always at least one (possibly empty) column.
pub open spec fn spec_columns(s: Seq<char>, n: nat) -> Seq<Seq<char>>
    decreases s.len(),
{
    if s.len() <= n || n == 0 {
        seq![s]
    } else {
        seq![s.take(n as int)] + spec_columns(s.skip(n as int), n)
    }
}

pub open spec fn column_views(v: Seq<Vec<char>>) -> Seq<Seq<char>> {
    v.map_values(|c: Vec<char>| c@)
}

pub proof fn lemma_columns_push(s: Seq<char>, n: nat, c: char)
    requires
        n > 0,
    ensures
        spec_columns(s, n).len() >= 1,
        spec_columns(s.push(c), n) == (if spec_columns(s, n).last().len() >= n {
            spec_columns(s, n).push(seq![c])
        } else {
            spec_columns(s, n).drop_last().push(spec_columns(s, n).last().push(c))
        }),
        forall|i: int| 0 <= i < spec_columns(s, n).len() ==> #[trigger] spec_columns(s, n)[i].len() <= n,
    decreases s.len(),
{
    let cs = spec_columns(s, n);
    if s.len() < n {
        assert(spec_columns(s.push(c), n) =~= seq![s.push(c)]);
    } else if s.len() == n {
        let t = s.push(c);
        assert(t.take(n as int) =~= s);
        assert(t.skip(n as int) =~= seq![c]);
        assert(spec_columns(seq![c], n) =~= seq![seq![c]]);
        assert(spec_columns(t, n) =~= cs.push(seq![c]));
    } else {
        let rest = s.skip(n as int);
        lemma_columns_push(rest, n, c);
        let t = s.push(c);
        assert(t.take(n as int) =~= s.take(n as int));
        assert(t.skip(n as int) =~= rest.push(c));
        let rc = spec_columns(rest, n);
        assert(cs =~= seq![s.take(n as int)] + rc);
        if rc.last().len() >= n {
            assert(spec_columns(t, n) =~= cs.push(seq![c]));
        } else {
            assert(spec_columns(t, n) =~= cs.drop_last().push(cs.last().push(c)));
        }
        assert forall|i: int| 0 <= i < cs.len() implies #[trigger] cs[i].len() <= n by {
            if i > 0 {
                assert(cs[i] == rc[i - 1]);
            }
        }
    }
}

/// Splits `text` into the columns of a vertical layout with `max_rows`
/// characters per column.
pub fn split_columns(text: &str, max_rows: usize) -> (cols: Vec<Vec<char>>)
    requires
        max_rows > 0,
    ensures
        column_views(cols@) == spec_columns(text@, max_rows as nat),
{
    let cs = chars_of(text);
    let mut cols: Vec<Vec<char>> = Vec::new();
    cols.push(Vec::new());
    let mut i: usize = 0;
    proof {
        assert(cs@.take(0) =~= Seq::<char>::empty());
        assert(column_views(cols@) =~= seq![Seq::<char>::empty()]);
    }
    while i < cs.len()
        invariant
            max_rows > 0,
            cs@ == text@,
            i <= cs@.len(),
            cols@.len() >= 1,
            column_views(cols@) == spec_columns(cs@.take(i as int), max_rows as nat),
        decreases cs@.len() - i,
    {
        let ch = cs[i];
        let ghost pre = cs@.take(i as int);
        proof {
            lemma_columns_push(pre, max_rows as nat, ch);
            assert(cs@.take(i + 1) =~= pre.push(ch));
        }
        let last = cols.len() - 1;
        let ghost before = column_views(cols@);
        assert(before.last() == cols@[last as int]@);
        if cols[last].len() >= max_rows {
            let mut c: Vec<char> = Vec::new();
            c.push(ch);
            cols.push(c);
            assert(column_views(cols@) =~= before.push(seq![ch]));
        } else {
            let mut c = cols[last].clone();
            assert(c@ == cols@[last as int]@);
            c.push(ch);
            cols.set(last, c);
            assert(column_views(cols@) =~= before.drop_last().push(before.last().push(ch)));
        }
        i += 1;
    }
    assert(cs@.take(cs@.len() as int) =~= cs@);
    cols
}

/// `fits` answers as the predicate `p` does.
pub open spec fn answers_as<F: Fn(u32) -> bool>(fits: F, p: spec_fn(u32) -> bool) -> bool {
    forall|s: u32, r: bool| #[trigger] call_ensures(fits, (s,), r) ==> r == p(s)
}

/// The largest size in `min..=max` that fits, if any.
pub open spec fn largest_fitting(min: u32, max: u32, p: spec_fn(u32) -> bool, r: Option<u32>) -> bool {
    match r {
        Some(b) => min <= b <= max && p(b) && forall|s: u32| b < s <= max ==> !#[trigger] p(s),
        None => forall|s: u32| min <= s <= max ==> !#[trigger] p(s),
    }
}

/// The largest font size in `min..=max` whose layout fits, asking `fits`
/// about the sizes from `max` downward and stopping at the first that fits
/// (none when no size in the range fits).
pub fn fit_size<F: Fn(u32) -> bool>(min: u32, max: u32, fits: F) -> (r: Option<u32>)
    requires
        forall|s: u32| call_requires(fits, (s,)),
    ensures
        forall|p: spec_fn(u32) -> bool| answers_as(fits, p) ==> largest_fitting(min, max, p, r),
{
    if min > max {
        return None;
    }
    let mut s: u32 = max;
    loop
        invariant
            forall|t: u32| call_requires(fits, (t,)),
            min <= s <= max,
            forall|p: spec_fn(u32) -> bool| #[trigger] answers_as(fits, p) ==> forall|t: u32| s < t <= max ==> !#[trigger] p(t),
        decreases s - min,
    {
        let ok = fits(s);
        proof {
            assert forall|p: spec_fn(u32) -> bool| #[trigger] answers_as(fits, p) implies p(s) == ok by {
                assert(call_ensures(fits, (s,), ok));
            }
        }
        if ok {
            return Some(s);
        }
        if s == min {
            return None;
        }
        s = s - 1;
    }
}

} // verus!

verus! {

/// The renderer used by tests and previews: it applies the default style
/// and returns a plan without font fitting.
pub struct MockRender;

} // verus!
