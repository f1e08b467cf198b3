//! One group of duplicate files, as the report gives it.

use vstd::prelude::*;
use vstd::string::StringExecFns;
use crate::model::DuplicatesView;
use crate::text::{decimal_of, push_char, push_decimal};

verus! {

/// A group of at least two paths whose files share their content.
#[derive(Debug)]
pub struct Duplicates {
    paths: Vec<String>,
    hex_hash: String,
    size: u64,
}

/// The texts that a vector of strings holds.
pub open spec fn texts(strings: Seq<String>) -> Seq<Seq<char>> {
    strings.map_values(|s: String| s@)
}

/// A copy of a vector of strings.
pub fn clone_strings(strings: &Vec<String>) -> (copy: Vec<String>)
    ensures
        texts(copy@) == texts(strings@),
{
    let mut copy: Vec<String> = Vec::new();
    for i in 0..strings.len()
        invariant
            copy@.len() == i,
            forall|k: int| 0 <= k < i ==> (#[trigger] copy@[k])@ == strings@[k]@,
    {
        copy.push(strings[i].clone());
    }
    assert(texts(copy@) =~= texts(strings@));
    copy
}

impl View for Duplicates {
    type V = DuplicatesView;

    closed spec fn view(&self) -> DuplicatesView {
        DuplicatesView { paths: texts(self.paths@), hex_hash: self.hex_hash@, size: self.size }
    }
}

/// The lines of the paths, each closed by a line feed.
pub open spec fn path_lines(paths: Seq<Seq<char>>) -> Seq<char>
    decreases paths.len(),
{
    if paths.len() == 0 {
        Seq::empty()
    } else {
        path_lines(paths.drop_last()) + paths.last().push('\n')
    }
}

/// A group as it is printed: a header line `# size hash`, one line for each
/// path, and an empty line.
pub open spec fn rendered(group: DuplicatesView) -> Seq<char> {
    seq!['#', ' '] + decimal_of(group.size as nat) + seq![' '] + group.hex_hash + seq!['\n']
        + path_lines(group.paths) + seq!['\n']
}

/// The groups that a report holds.
pub open spec fn report_views(report: Seq<Duplicates>) -> Seq<DuplicatesView> {
    report.map_values(|group: Duplicates| group@)
}

impl Duplicates {
    pub fn new(paths: Vec<String>, hex_hash: String, size: u64) -> (group: Duplicates)
        ensures
            group@ == (DuplicatesView { paths: texts(paths@), hex_hash: hex_hash@, size }),
    {
        Duplicates { paths, hex_hash, size }
    }

    pub fn size(&self) -> (size: u64)
        ensures
            size == self@.size,
    {
        self.size
    }

    pub fn paths(&self) -> (paths: &Vec<String>)
        ensures
            texts(paths@) == self@.paths,
    {
        &self.paths
    }

    /// The paths as they are shown, one text for each.
    pub fn paths_as_display(&self) -> (shown: Vec<String>)
        ensures
            texts(shown@) == self@.paths,
    {
        clone_strings(&self.paths)
    }

    pub fn hash_as_hex(&self) -> (hex: &String)
        ensures
            hex@ == self@.hex_hash,
    {
        &self.hex_hash
    }

    /// The group as it is printed.
    pub fn render(&self) -> (text: String)
        ensures
            text@ == rendered(self@),
    {
        let mut text = String::new();
        push_char(&mut text, '#');
        push_char(&mut text, ' ');
        push_decimal(&mut text, self.size);
        push_char(&mut text, ' ');
        text.append(self.hex_hash.as_str());
        push_char(&mut text, '\n');
        let ghost head = text@;
        proof {
            assert(head =~= seq!['#', ' '] + decimal_of(self.size as nat) + seq![' ']
                + self@.hex_hash + seq!['\n']);
            assert(self@.paths.take(0) =~= Seq::<Seq<char>>::empty());
            assert(text@ =~= head + path_lines(self@.paths.take(0)));
        }
        for i in 0..self.paths.len()
            invariant
                text@ == head + path_lines(self@.paths.take(i as int)),
        {
            text.append(self.paths[i].as_str());
            push_char(&mut text, '\n');
            proof {
                let paths = self@.paths;
                assert(paths.take(i + 1).drop_last() =~= paths.take(i as int));
                assert(paths.take(i + 1).last() == self.paths@[i as int]@);
                assert(text@ =~= head + path_lines(paths.take(i + 1)));
            }
        }
        push_char(&mut text, '\n');
        proof {
            assert(self@.paths.take(self.paths@.len() as int) =~= self@.paths);
            assert(text@ =~= rendered(self@));
        }
        text
    }
}

} // verus!
