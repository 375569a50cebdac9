//! Searches over a tree listing.

use vstd::prelude::*;
use crate::namespace::{TreeEntry, name_of, scan_path};
use crate::text::{chars_of, contains_seq, has_sub};

verus! {

/// The file name of `path` is `name`, or holds it when `exact` is false.
pub open spec fn name_matches(path: Seq<char>, name: Seq<char>, exact: bool) -> bool {
    if exact {
        name_of(path) == name
    } else {
        has_sub(name_of(path), name)
    }
}

/// Indices of the entries whose file name (the last segment of the path) is
/// `name`, or contains it when `exact` is false, in listing order.
pub fn find_matches(entries: &Vec<TreeEntry>, name: &str, exact: bool) -> (r: Vec<usize>)
    ensures
        forall|k: int|
            0 <= k < r@.len() ==> r@[k] < entries@.len() && name_matches(
                entries@[r@[k] as int].path@,
                name@,
                exact,
            ),
        forall|i: int|
            0 <= i < entries@.len() && name_matches(entries@[i].path@, name@, exact) ==> r@.contains(
                i as usize,
            ),
        forall|a: int, b: int| 0 <= a < b < r@.len() ==> r@[a] < r@[b],
{
    let target = chars_of(name);
    let mut r: Vec<usize> = Vec::new();
    let mut i: usize = 0;
    while i < entries.len()
        invariant
            i <= entries@.len(),
            target@ == name@,
            forall|k: int|
                0 <= k < r@.len() ==> r@[k] < i && name_matches(
                    entries@[r@[k] as int].path@,
                    name@,
                    exact,
                ),
            forall|j: int|
                0 <= j < i && name_matches(entries@[j].path@, name@, exact) ==> r@.contains(
                    j as usize,
                ),
            forall|a: int, b: int| 0 <= a < b < r@.len() ==> r@[a] < r@[b],
        decreases entries@.len() - i,
    {
        let path = entries[i].path.as_str();
        let pv = chars_of(path);
        let (ls, _) = scan_path(&pv);
        proof {
            crate::namespace::lemma_last_slash_bounds(pv@);
        }
        let start = match ls {
            Some(s) => s + 1,
            None => 0,
        };
        let file = chars_of(path.substring_char(start, pv.len()));
        let hit = if exact {
            file.len() == target.len() && contains_seq(&file, &target)
        } else {
            contains_seq(&file, &target)
        };
        proof {
            assert(file@ == name_of(entries@[i as int].path@));
            if exact {
                if file@.len() == target@.len() && has_sub(file@, target@) {
                    let x = choose|x: int| crate::text::occurs_at(file@, target@, x);
                    assert(x == 0);
                    assert(file@.subrange(0, file@.len() as int) =~= file@);
                }
                if file@ == target@ {
                    assert(file@.subrange(0, file@.len() as int) =~= file@);
                    assert(crate::text::occurs_at(file@, target@, 0));
                }
            }
        }
        let ghost before = r@;
        if hit {
            r.push(i);
            assert forall|x: usize| before.contains(x) implies r@.contains(x) by {
                let k = choose|k: int| 0 <= k < before.len() && before[k] == x;
                assert(r@[k] == x);
            }
            assert(r@[r@.len() - 1] == i);
        }
        i = i + 1;
    }
    r
}

/// `path` begins with `prefix`.
pub open spec fn starts_with(path: Seq<char>, prefix: Seq<char>) -> bool {
    prefix.len() <= path.len() && path.subrange(0, prefix.len() as int) == prefix
}

/// The entries whose path begins with `folder`, in listing order.
pub fn entries_under(entries: &Vec<TreeEntry>, folder: &str) -> (r: Vec<TreeEntry>)
    ensures
        r@ == entries@.filter(|e: TreeEntry| starts_with(e.path@, folder@)),
{
    let fv = chars_of(folder);
    let mut r: Vec<TreeEntry> = Vec::new();
    let mut i: usize = 0;
    while i < entries.len()
        invariant
            i <= entries@.len(),
            fv@ == folder@,
            r@ == entries@.subrange(0, i as int).filter(
                |e: TreeEntry| starts_with(e.path@, folder@),
            ),
        decreases entries@.len() - i,
    {
        let pv = chars_of(entries[i].path.as_str());
        let keep = crate::text::occurs_at_exec(&pv, &fv, 0);
        proof {
            assert(entries@.subrange(0, i + 1).drop_last() =~= entries@.subrange(0, i as int));
            reveal(Seq::filter);
        }
        if keep {
            let e = TreeEntry { path: entries[i].path.clone(), kind: entries[i].kind };
            assert(e == entries@[i as int]);
            r.push(e);
        }
        i = i + 1;
    }
    proof {
        assert(entries@.subrange(0, entries@.len() as int) =~= entries@);
    }
    r
}

} // verus!
