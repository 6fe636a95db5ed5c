//! Page import bookkeeping: grouping a folder's images into chapters by
//! file-name prefix, and the page list a chapter command names.

use vstd::prelude::*;
use crate::host::{spec_chapter_prefix, chapter_prefix};
use crate::text::{chars_of, chars_eq_str, split_chars, split_on, trim, trim_chars, string_of, views};

verus! {

/// Distinct keys of `keys`, in the order of their first appearance.
pub open spec fn first_appearance_order(keys: Seq<Seq<char>>) -> Seq<Seq<char>>
    decreases keys.len(),
{
    if keys.len() == 0 {
        Seq::<Seq<char>>::empty()
    } else {
        let prev = first_appearance_order(keys.drop_last());
        if prev.contains(keys.last()) {
            prev
        } else {
            prev.push(keys.last())
        }
    }
}

/// Positions of `keys` holding `k`, ascending.
pub open spec fn positions_of(keys: Seq<Seq<char>>, k: Seq<char>) -> Seq<int>
    decreases keys.len(),
{
    if keys.len() == 0 {
        Seq::<int>::empty()
    } else {
        let prev = positions_of(keys.drop_last(), k);
        if keys.last() == k {
            prev.push(keys.len() - 1)
        } else {
            prev
        }
    }
}

/// Chapter key of every stem.
pub open spec fn chapter_keys(stems: Seq<String>) -> Seq<Seq<char>> {
    stems.map_values(|s: String| spec_chapter_prefix(s@))
}

pub open spec fn index_view(v: Vec<usize>) -> Seq<int> {
    v@.map_values(|x: usize| x as int)
}

/// No key occurs twice.
pub open spec fn all_distinct(s: Seq<Seq<char>>) -> bool {
    forall|a: int, b: int| 0 <= a < s.len() && 0 <= b < s.len() && a != b ==> s[a] != s[b]
}

/// A key is among the first appearances exactly when it occurs, and the
/// first appearances are distinct.
pub proof fn lemma_first_appearance(keys: Seq<Seq<char>>, k: Seq<char>)
    ensures
        first_appearance_order(keys).contains(k) <==> keys.contains(k),
        all_distinct(first_appearance_order(keys)),
        !keys.contains(k) ==> positions_of(keys, k) == Seq::<int>::empty(),
    decreases keys.len(),
{
    if keys.len() > 0 {
        let pre = keys.drop_last();
        lemma_first_appearance(pre, k);
        lemma_first_appearance(pre, keys.last());
        if keys.contains(k) && !pre.contains(k) {
            let i = choose|i: int| 0 <= i < keys.len() && keys[i] == k;
            if i < keys.len() - 1 {
                assert(pre[i] == k);
            }
        }
        if pre.contains(k) {
            let i = choose|i: int| 0 <= i < pre.len() && pre[i] == k;
            assert(keys[i] == k);
        }
        let prev = first_appearance_order(pre);
        assert(keys[keys.len() - 1] == keys.last());
        if !prev.contains(keys.last()) {
            assert(prev.push(keys.last())[prev.len() as int] == keys.last());
            if prev.contains(k) {
                let w = choose|w: int| 0 <= w < prev.len() && prev[w] == k;
                assert(prev.push(keys.last())[w] == k);
            }
            if prev.push(keys.last()).contains(k) {
                let w = choose|w: int| 0 <= w < prev.len() + 1 && prev.push(keys.last())[w] == k;
                if w < prev.len() {
                    assert(prev[w] == k);
                }
            }
        }
        if !prev.contains(keys.last()) {
            let cur = prev.push(keys.last());
            assert forall|a: int, b: int| 0 <= a < cur.len() && 0 <= b < cur.len() && a != b implies cur[a] != cur[b] by {
                if a == cur.len() - 1 {
                    assert(prev.contains(cur[b]) ==> cur[b] != keys.last());
                    assert(cur[b] == prev[b]);
                } else if b == cur.len() - 1 {
                    assert(cur[a] == prev[a]);
                }
            }
        }
    }
}

/// One chapter of a folder import: its key and the indices of its images.
pub struct ChapterGroup {
    pub prefix: String,
    pub members: Vec<usize>,
}

/// Groups images (given by their file stems, in import order) into
/// chapters by [`chapter_prefix`]: one group per distinct prefix, in the
/// order the prefixes first appear, each listing its images in order.
pub fn group_by_chapter(stems: &Vec<String>) -> (groups: Vec<ChapterGroup>)
    ensures
        groups@.len() == first_appearance_order(chapter_keys(stems@)).len(),
        forall|g: int| 0 <= g < groups@.len() ==> {
            &&& (#[trigger] groups@[g]).prefix@ == first_appearance_order(chapter_keys(stems@))[g]
            &&& index_view(groups@[g].members) == positions_of(chapter_keys(stems@), groups@[g].prefix@)
        },
{
    let ghost keys = chapter_keys(stems@);
    let mut order: Vec<String> = Vec::new();
    let mut members: Vec<Vec<usize>> = Vec::new();
    let mut i: usize = 0;
    while i < stems.len()
        invariant
            i <= stems@.len(),
            keys == chapter_keys(stems@),
            keys.len() == stems@.len(),
            order@.len() == members@.len(),
            order@.len() == first_appearance_order(keys.take(i as int)).len(),
            forall|g: int| 0 <= g < order@.len() ==> (#[trigger] order@[g])@ == first_appearance_order(keys.take(i as int))[g],
            forall|g: int| 0 <= g < members@.len() ==> index_view(#[trigger] members@[g]) == positions_of(keys.take(i as int), order@[g]@),
        decreases stems@.len() - i,
    {
        let p = chapter_prefix(stems[i].as_str());
        let ghost pre = keys.take(i as int);
        let ghost cur = keys.take(i + 1);
        proof {
            assert(cur.drop_last() =~= pre);
            assert(cur.last() == p@);
            lemma_first_appearance(pre, p@);
        }
        let ghost fa = first_appearance_order(pre);
        let mut g: usize = 0;
        let mut found = false;
        while g < order.len()
            invariant_except_break
                !found,
                g <= order@.len(),
                forall|h: int| 0 <= h < g ==> (#[trigger] order@[h])@ != p@,
            invariant
                order@.len() == fa.len(),
                forall|h: int| 0 <= h < order@.len() ==> (#[trigger] order@[h])@ == fa[h],
            ensures
                found ==> g < order@.len() && order@[g as int]@ == p@,
                !found ==> forall|h: int| 0 <= h < order@.len() ==> (#[trigger] order@[h])@ != p@,
            decreases order@.len() - g,
        {
            if order[g] == p {
                found = true;
                break;
            }
            g += 1;
        }
        if found {
            let mut m = members[g].clone();
            assert(m@ == members@[g as int]@);
            m.push(i);
            let ghost old_members = members@;
            members.set(g, m);
            proof {
                assert(fa.contains(p@)) by {
                    assert(fa[g as int] == p@);
                }
                assert(first_appearance_order(cur) == fa);
                assert forall|h: int| 0 <= h < members@.len() implies index_view(#[trigger] members@[h]) == positions_of(cur, order@[h]@) by {
                    if h == g {
                        assert(index_view(members@[h]) =~= index_view(old_members[h]).push(i as int));
                    } else {
                        assert(members@[h] == old_members[h]);
                        assert(order@[h]@ != p@) by {
                            assert(all_distinct(fa));
                            assert(fa[h] != fa[g as int]);
                        }
                    }
                }
            }
        } else {
            let ghost old_members = members@;
            let ghost old_order = order@;
            let mut m: Vec<usize> = Vec::new();
            m.push(i);
            members.push(m);
            order.push(p);
            proof {
                assert(!fa.contains(p@)) by {
                    if fa.contains(p@) {
                        let h = choose|h: int| 0 <= h < fa.len() && fa[h] == p@;
                        assert(order@[h]@ != p@);
                    }
                }
                assert(first_appearance_order(cur) == fa.push(p@));
                assert(!pre.contains(p@));
                assert forall|h: int| 0 <= h < members@.len() implies index_view(#[trigger] members@[h]) == positions_of(cur, order@[h]@) by {
                    if h == old_members.len() {
                        assert(positions_of(pre, p@) == Seq::<int>::empty());
                        assert(index_view(members@[h]) =~= seq![i as int]);
                        assert(positions_of(cur, p@) =~= seq![i as int]);
                    } else {
                        assert(members@[h] == old_members[h]);
                        assert(order@[h] == old_order[h]);
                        assert(order@[h]@ != p@);
                    }
                }
                assert forall|h: int| 0 <= h < order@.len() implies (#[trigger] order@[h])@ == first_appearance_order(cur)[h] by {
                    if h < old_order.len() {
                        assert(order@[h] == old_order[h]);
                    }
                }
            }
        }
        i += 1;
    }
    assert(keys.take(stems@.len() as int) =~= keys);
    let mut groups: Vec<ChapterGroup> = Vec::new();
    let mut k: usize = 0;
    while k < order.len()
        invariant
            k <= order@.len(),
            order@.len() == members@.len(),
            order@.len() == first_appearance_order(keys).len(),
            keys == chapter_keys(stems@),
            forall|g: int| 0 <= g < order@.len() ==> (#[trigger] order@[g])@ == first_appearance_order(keys)[g],
            forall|g: int| 0 <= g < members@.len() ==> index_view(#[trigger] members@[g]) == positions_of(keys, order@[g]@),
            groups@.len() == k,
            forall|g: int| 0 <= g < k ==> {
                &&& (#[trigger] groups@[g]).prefix@ == first_appearance_order(keys)[g]
                &&& index_view(groups@[g].members) == positions_of(keys, groups@[g].prefix@)
            },
        decreases order@.len() - k,
    {
        let prefix = order[k].clone();
        let m = members[k].clone();
        assert(m@ == members@[k as int]@);
        assert(index_view(m) == index_view(members@[k as int]));
        groups.push(ChapterGroup { prefix, members: m });
        k += 1;
    }
    groups
}

/// Page ids a chapter command names: every page for the literal `all`,
/// otherwise the comma-separated list, each entry trimmed.
pub fn chapter_page_ids(pages: &str, all_ids: Vec<String>) -> (ids: Vec<String>)
    ensures
        pages@ == "all"@ ==> ids == all_ids,
        pages@ != "all"@ ==> ids@.map_values(|s: String| s@) == split_on(pages@, ',').map_values(|p: Seq<char>| trim(p)),
{
    let pc = chars_of(pages);
    if chars_eq_str(pc.as_slice(), "all") {
        return all_ids;
    }
    let parts = split_chars(pc.as_slice(), ',');
    let ghost want = split_on(pages@, ',').map_values(|p: Seq<char>| trim(p));
    let mut ids: Vec<String> = Vec::new();
    let mut i: usize = 0;
    while i < parts.len()
        invariant
            i <= parts@.len(),
            views(parts@) == split_on(pages@, ','),
            want == split_on(pages@, ',').map_values(|p: Seq<char>| trim(p)),
            ids@.len() == i,
            forall|j: int| 0 <= j < i ==> (#[trigger] ids@[j])@ == want[j],
        decreases parts@.len() - i,
    {
        let t = trim_chars(parts[i].as_slice());
        assert(views(parts@)[i as int] == parts@[i as int]@);
        ids.push(string_of(t.as_slice()));
        i += 1;
    }
    assert(ids@.map_values(|s: String| s@) =~= want);
    ids
}

} // verus!
