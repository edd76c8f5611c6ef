//! Lookups in the formula index.

use vstd::prelude::*;
use crate::formula::Formula;

verus! {

/// The index of the first formula named `name`, if any.
pub open spec fn first_named(fs: Seq<Formula>, name: Seq<char>) -> Option<int>
    decreases fs.len(),
{
    if fs.len() == 0 {
        None
    } else {
        match first_named(fs.drop_last(), name) {
            Some(i) => Some(i),
            None => if fs.last().name@ == name {
                Some(fs.len() - 1)
            } else {
                None
            },
        }
    }
}

/// Finds a single formula by exact name: the first one the index lists.
pub fn find(formulae: Vec<Formula>, name: &str) -> (res: Option<Formula>)
    ensures
        match first_named(formulae@, name@) {
            Some(i) => res == Some(formulae@[i]),
            None => res is None,
        },
{
    let n = name.to_owned();
    let ghost fs = formulae@;
    let mut list = formulae;
    let mut i: usize = 0;
    while i < list.len()
        invariant
            i <= list.len(),
            list@ == fs,
            fs == formulae@,
            n@ == name@,
            first_named(fs.take(i as int), name@) is None,
        decreases list.len() - i,
    {
        assert(fs.take(i + 1).drop_last() =~= fs.take(i as int));
        if list[i].name == n {
            proof {
                lemma_first_named_prefix(fs, name@, i as int);
            }
            let f = list.swap_remove(i);
            assert(f == fs[i as int]);
            return Some(f);
        }
        i = i + 1;
    }
    assert(fs.take(fs.len() as int) =~= fs);
    None
}

proof fn lemma_first_named_prefix(fs: Seq<Formula>, name: Seq<char>, i: int)
    requires
        0 <= i < fs.len(),
        fs[i].name@ == name,
        first_named(fs.take(i), name) is None,
    ensures
        first_named(fs, name) == Some(i),
    decreases fs.len(),
{
    if i == fs.len() - 1 {
        assert(fs.drop_last() =~= fs.take(i));
    } else {
        assert(fs.drop_last().take(i) =~= fs.take(i));
        lemma_first_named_prefix(fs.drop_last(), name, i);
    }
}

} // verus!
