//! Data model of a formula, as served by the formula index.
//!
//! Only the fields the library uses are kept.

use vstd::prelude::*;
use crate::text::{chars_of, string_of};
pub use crate::text::strs;

verus! {

/// One formula of the index.
pub struct Formula {
    pub name: String,
    pub desc: Option<String>,
    pub homepage: Option<String>,
    pub versions: Versions,
    /// Formula revision; appended to the keg version as `_<revision>` when non-zero.
    pub revision: u32,
    pub dependencies: Vec<String>,
    pub bottle: BottleSpec,
}

pub struct Versions {
    pub stable: Option<String>,
}

pub struct BottleSpec {
    pub stable: Option<Bottle>,
}

pub struct Bottle {
    /// Bottle rebuild count; it names bottle files only, never the keg path.
    pub rebuild: u32,
    /// Per-platform bottle files, each under its tag (e.g. `arm64_sequoia`,
    /// `all`). They stand for a map from tag to file (`files_map`): a tag
    /// filed again replaces the earlier entry, as inserting into a map does.
    pub files: Vec<(String, BottleFile)>,
}

pub struct BottleFile {
    pub url: String,
    pub sha256: String,
}

/// The stable version of a formula, `"0"` when the index omits it.
pub open spec fn spec_stable_version(f: Formula) -> Seq<char> {
    match f.versions.stable {
        Some(v) => v@,
        None => "0"@,
    }
}

/// The map from tag to file that a list of filed bottle files stands for:
/// later entries replace earlier ones of the same tag.
pub open spec fn files_map(files: Seq<(String, BottleFile)>) -> Map<Seq<char>, BottleFile>
    decreases files.len(),
{
    if files.len() == 0 {
        Map::empty()
    } else {
        files_map(files.drop_last()).insert(files.last().0@, files.last().1)
    }
}

/// The bottle file for `tag` or else for `all`, from the stable bottle.
pub open spec fn spec_bottle_for(f: Formula, tag: Seq<char>) -> Option<BottleFile> {
    match f.bottle.stable {
        None => None,
        Some(b) => if files_map(b.files@).contains_key(tag) {
            Some(files_map(b.files@)[tag])
        } else if files_map(b.files@).contains_key("all"@) {
            Some(files_map(b.files@)["all"@])
        } else {
            None
        },
    }
}

proof fn lemma_files_map_suffix_absent(files: Seq<(String, BottleFile)>, i: int, tag: Seq<char>)
    requires
        0 <= i <= files.len(),
        forall|j: int| i <= j < files.len() ==> files[j].0@ != tag,
    ensures
        files_map(files).contains_key(tag) == files_map(files.take(i)).contains_key(tag),
        files_map(files)[tag] == files_map(files.take(i))[tag],
    decreases files.len() - i,
{
    if i == files.len() {
        assert(files.take(i) =~= files);
    } else {
        assert(files.drop_last().take(i) =~= files.take(i));
        lemma_files_map_suffix_absent(files.drop_last(), i, tag);
    }
}

/// Finds the file filed under `tag`: its last entry.
fn find_file(files: &Vec<(String, BottleFile)>, tag: &String) -> (res: Option<usize>)
    ensures
        match res {
            Some(i) => i < files.len() && files_map(files@).contains_key(tag@) && files_map(files@)[tag@]
                == files@[i as int].1,
            None => !files_map(files@).contains_key(tag@),
        },
{
    let mut i: usize = files.len();
    while i > 0
        invariant
            i <= files.len(),
            forall|j: int| i <= j < files@.len() ==> files@[j].0@ != tag@,
        decreases i,
    {
        if files[i - 1].0 == *tag {
            proof {
                lemma_files_map_suffix_absent(files@, i as int, tag@);
                assert(files@.take(i as int).drop_last() =~= files@.take(i - 1));
                assert(files@.take(i as int).last() == files@[i - 1]);
            }
            return Some(i - 1);
        }
        i = i - 1;
    }
    proof {
        lemma_files_map_suffix_absent(files@, 0, tag@);
    }
    None
}

impl Formula {
    /// Resolved stable version string, or `"0"` if the index omitted it.
    pub fn stable_version(&self) -> (res: String)
        ensures
            res@ == spec_stable_version(*self),
    {
        match &self.versions.stable {
            Some(v) => v.clone(),
            None => string_of(&chars_of("0")),
        }
    }

    /// The bottle file for the given platform tag, falling back to `all`.
    pub fn bottle_for(&self, tag: &str) -> (res: Option<&BottleFile>)
        ensures
            match res {
                Some(f) => spec_bottle_for(*self, tag@) == Some(*f),
                None => spec_bottle_for(*self, tag@) is None,
            },
    {
        match &self.bottle.stable {
            None => None,
            Some(b) => {
                let t = tag.to_owned();
                match find_file(&b.files, &t) {
                    Some(i) => Some(&b.files[i].1),
                    None => {
                        let all = string_of(&chars_of("all"));
                        match find_file(&b.files, &all) {
                            Some(i) => Some(&b.files[i].1),
                            None => None,
                        }
                    },
                }
            },
        }
    }
}

} // verus!
