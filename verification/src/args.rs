//! What a run is asked to do, and what that means for the cache.

use vstd::prelude::*;
use vstd::string::StringExecFns;
use crate::duplicates::texts;

verus! {

/// How much one argument adds to the verbosity: `-v`, `--verbose` and `-vv`
/// add one, `-vvv`, `-vvvv` and `-vvvvv` three, four and five.
pub open spec fn verbosity_step(arg: Seq<char>) -> nat {
    if arg == "-v"@ || arg == "--verbose"@ || arg == "-vv"@ {
        1
    } else if arg == "-vvv"@ {
        3
    } else if arg == "-vvvv"@ {
        4
    } else if arg == "-vvvvv"@ {
        5
    } else {
        0
    }
}

/// The argument asks to start with an empty cache.
pub open spec fn asks_empty_cache(arg: Seq<char>) -> bool {
    arg == "-e"@ || arg == "--empty-cache"@
}

/// The argument asks to leave the cache alone.
pub open spec fn asks_no_cache(arg: Seq<char>) -> bool {
    arg == "-d"@ || arg == "--disable-cache"@
}

/// The argument asks for paths with `/`.
pub open spec fn asks_normalize(arg: Seq<char>) -> bool {
    arg == "-n"@ || arg == "--normalize"@
}

/// The argument is a switch; every other argument names a folder.
pub open spec fn is_switch(arg: Seq<char>) -> bool {
    verbosity_step(arg) > 0 || asks_empty_cache(arg) || asks_no_cache(arg) || asks_normalize(arg)
}

/// The folders that the arguments name, in their order.
pub open spec fn named_folders(arguments: Seq<Seq<char>>) -> Seq<Seq<char>> {
    arguments.filter(|arg: Seq<char>| !is_switch(arg))
}

/// The verbosity that the arguments add up to.
pub open spec fn asked_verbosity(arguments: Seq<Seq<char>>) -> nat
    decreases arguments.len(),
{
    if arguments.len() == 0 {
        0
    } else {
        asked_verbosity(arguments.drop_last()) + verbosity_step(arguments.last())
    }
}

/// The verbosity of a run: what was asked for, and 255 at most.
pub open spec fn capped(verbosity: nat) -> u8 {
    if verbosity > 255 {
        255u8
    } else {
        verbosity as u8
    }
}

fn says(arg: &String, word: &str) -> (same: bool)
    ensures
        same == (arg@ == word@),
{
    let other = String::from_str(word);
    *arg == other
}

fn step_of(arg: &String) -> (step: u8)
    ensures
        step == verbosity_step(arg@),
{
    if says(arg, "-v") || says(arg, "--verbose") || says(arg, "-vv") {
        1
    } else if says(arg, "-vvv") {
        3
    } else if says(arg, "-vvvv") {
        4
    } else if says(arg, "-vvvvv") {
        5
    } else {
        0
    }
}

/// The options of a run.
#[derive(Debug)]
pub struct Args {
    /// Folders to scan.
    pub folders: Vec<String>,
    /// Turn off the caching of file hashes.
    pub disable_cache: bool,
    /// Start with an empty cache.
    pub empty_cache: bool,
    /// Where the cache is stored.
    pub cache_file: String,
    /// Normalise path names to `/`.
    pub normalize: bool,
    /// The number of workers to hash with.
    pub threads: Option<usize>,
    /// How much is told about the run.
    pub verbosity: u8,
}

impl Args {
    /// The options of a run over `folders` with nothing else asked for: the
    /// cache is used and kept in `cache_file`, paths stay as they are, and
    /// the number of workers is left open. Without folders the current
    /// directory is scanned.
    pub fn new(folders: Vec<String>, cache_file: String) -> (args: Self)
        ensures
            args.folders@.len() > 0,
            folders@.len() > 0 ==> args.folders == folders,
            folders@.len() == 0 ==> args.folders@.len() == 1 && args.folders@[0]@ == seq!['.'],
            args.cache_file == cache_file,
            !args.disable_cache,
            !args.empty_cache,
            !args.normalize,
            args.threads is None,
            args.verbosity == 0,
    {
        let mut folders = folders;
        if folders.len() == 0 {
            let here = String::from_str(".");
            proof {
                reveal_strlit(".");
                assert(here@ =~= seq!['.']);
            }
            folders.push(here);
        }
        Args {
            folders,
            disable_cache: false,
            empty_cache: false,
            cache_file,
            normalize: false,
            threads: None,
            verbosity: 0,
        }
    }

    /// The options that a list of arguments asks for, the program's name
    /// left out. A switch may stand anywhere and any number of times; every
    /// other argument names a folder. The cache is kept in `cache_file`, and
    /// one worker hashes.
    pub fn from_arguments(arguments: &Vec<String>, cache_file: String) -> (args: Self)
        ensures
            texts(args.folders@) == if named_folders(texts(arguments@)).len() > 0 {
                named_folders(texts(arguments@))
            } else {
                seq![seq!['.']]
            },
            args.disable_cache == exists|i: int|
                0 <= i < arguments@.len() && asks_no_cache(#[trigger] arguments@[i]@),
            args.empty_cache == exists|i: int|
                0 <= i < arguments@.len() && asks_empty_cache(#[trigger] arguments@[i]@),
            args.normalize == exists|i: int|
                0 <= i < arguments@.len() && asks_normalize(#[trigger] arguments@[i]@),
            args.verbosity == capped(asked_verbosity(texts(arguments@))),
            args.cache_file == cache_file,
            args.threads == Some(1usize),
    {
        let ghost given = texts(arguments@);
        let mut folders: Vec<String> = Vec::new();
        let mut disable_cache = false;
        let mut empty_cache = false;
        let mut normalize = false;
        let mut verbosity: u8 = 0;
        proof {
            assert(given.take(0) =~= Seq::empty());
            assert(named_folders(Seq::empty()) =~= Seq::<Seq<char>>::empty()) by {
                reveal_with_fuel(Seq::filter, 1);
            }
        }
        for i in 0..arguments.len()
            invariant
                given == texts(arguments@),
                texts(folders@) == named_folders(given.take(i as int)),
                verbosity == capped(asked_verbosity(given.take(i as int))),
                disable_cache == exists|k: int|
                    0 <= k < i && asks_no_cache(#[trigger] arguments@[k]@),
                empty_cache == exists|k: int|
                    0 <= k < i && asks_empty_cache(#[trigger] arguments@[k]@),
                normalize == exists|k: int|
                    0 <= k < i && asks_normalize(#[trigger] arguments@[k]@),
        {
            let arg = &arguments[i];
            let ghost before = given.take(i as int);
            proof {
                assert(given.take(i + 1) =~= before.push(arg@));
                assert(given.take(i + 1).drop_last() =~= before);
                before.lemma_filter_push(arg@, |arg: Seq<char>| !is_switch(arg));
            }
            let step = step_of(arg);
            let empties = says(arg, "-e") || says(arg, "--empty-cache");
            let disables = says(arg, "-d") || says(arg, "--disable-cache");
            let normalizes = says(arg, "-n") || says(arg, "--normalize");
            verbosity = if step > 255 - verbosity { 255 } else { verbosity + step };
            empty_cache = empty_cache || empties;
            disable_cache = disable_cache || disables;
            normalize = normalize || normalizes;
            if step == 0 && !empties && !disables && !normalizes {
                let ghost held = texts(folders@);
                folders.push(arg.clone());
                assert(texts(folders@) =~= held.push(arg@));
            }
        }
        proof {
            assert(given.take(arguments@.len() as int) =~= given);
        }
        if folders.len() == 0 {
            let here = String::from_str(".");
            proof {
                reveal_strlit(".");
                assert(here@ =~= seq!['.']);
            }
            folders.push(here);
            assert(texts(folders@) =~= seq![seq!['.']]);
        }
        Args {
            folders,
            disable_cache,
            empty_cache,
            cache_file,
            normalize,
            threads: Some(1),
            verbosity,
        }
    }

    /// Whether the cache file is read before the run: not if caching is off,
    /// and not if the run is to start with an empty cache.
    pub fn reads_cache(&self) -> (reads: bool)
        ensures
            reads == (!self.disable_cache && !self.empty_cache),
    {
        !self.disable_cache && !self.empty_cache
    }

    /// Whether the cache file is written after the run: unless caching is
    /// off.
    pub fn writes_cache(&self) -> (writes: bool)
        ensures
            writes == !self.disable_cache,
    {
        !self.disable_cache
    }
}

} // verus!
