//! What the command line asks for, and the answers that need no file system.

use vstd::prelude::*;

use crate::select::{close_enough, is_best, none_match};
use crate::text::texts_of;

verus! {

/// The command line of the `cle` program.
#[derive(Debug, PartialEq, Eq)]
pub struct CleCmd {
    /// The subcommand, if one was given.
    pub sub: Option<CleSubCmd>,
    /// The string to search for.
    pub query: Option<String>,
    /// Lines of input to search.
    pub inputs: Vec<String>,
}

/// The subcommands of the `cle` program.
#[derive(Debug, PartialEq, Eq)]
pub enum CleSubCmd {
    /// Generate the shell function that changes directory through `cle`.
    InitShell {
        /// The shell to generate for.
        shell: String,
        /// The name the shell function is to have.
        cmd: String,
        /// The command that the shell function hands the directory to.
        proxy: String,
    },
    /// Resolve a sequence of directory queries to one directory.
    Ce {
        /// Sequence of (fuzzy) directory names to go through.
        dirs: Vec<String>,
    },
}

/// The candidates of a plain query: the inputs given on the command line,
/// or, where none were given, the lines that were piped in.
pub open spec fn candidates(inputs: Seq<String>, piped: Seq<String>) -> Seq<String> {
    if inputs.len() == 0 {
        piped
    } else {
        inputs
    }
}

impl CleCmd {
    /// Whether a plain query was asked for without any inputs, so that the
    /// candidates have to be read from standard input.
    pub fn wants_piped(&self) -> (r: bool)
        ensures
            r == (self.sub is None && self.inputs@.len() == 0),
    {
        self.sub.is_none() && self.inputs.len() == 0
    }

    /// Answers the plain query: the closest match among the inputs, or among
    /// the piped lines where no inputs were given.
    pub fn search<'a>(&'a self, piped: &'a [String]) -> (r: Option<&'a String>)
        requires
            self.query is Some,
        ensures
            match r {
                Some(line) => exists|i: int|
                    is_best(
                        texts_of(candidates(self.inputs@, piped@)),
                        self.query->0@,
                        i,
                    ) && *line == #[trigger] candidates(self.inputs@, piped@)[i],
                None => none_match(texts_of(candidates(self.inputs@, piped@)), self.query->0@),
            },
    {
        let query = self.query.as_ref().unwrap().as_str();
        let lines = if self.inputs.len() == 0 {
            piped
        } else {
            self.inputs.as_slice()
        };
        assert(lines@ == candidates(self.inputs@, piped@));
        let r = close_enough(lines, query);
        proof {
            if let Some(line) = r {
                let i = choose|i: int|
                    is_best(texts_of(lines@), query@, i) && *line == #[trigger] lines@[i];
                assert(*line == candidates(self.inputs@, piped@)[i]);
            }
        }
        r
    }
}

/// The text of the shell function before the name it is given.
pub const SCRIPT_HEAD: &'static str = "function ";

/// The text of the shell function between its name and the command it
/// hands the directory to.
pub const SCRIPT_BODY: &'static str =
    "() {\n    if [ \"$#\" -gt 0 ]; then\n        local dest\n        dest=$(cle -ce \"$@\")\n        if [ $? -eq 0 ]; then\n            local linecount=$(echo \"$dest\" | wc -l)\n            if [ \"$linecount\" -eq 1 ]; then\n                ";

/// The text of the shell function after the command it hands the directory
/// to.
pub const SCRIPT_TAIL: &'static str =
    " \"$dest\"\n            else\n                # Help message\n                echo \"$dest\"\n            fi\n        fi\n    fi\n}\n";

/// The shell function named `cmd` that resolves its arguments to a
/// directory and hands that directory to `proxy`.
pub fn init_script(cmd: &str, proxy: &str) -> (script: String)
    ensures
        script@ == SCRIPT_HEAD@ + cmd@ + SCRIPT_BODY@ + proxy@ + SCRIPT_TAIL@,
{
    let mut script = SCRIPT_HEAD.to_owned();
    script.append(cmd);
    script.append(SCRIPT_BODY);
    script.append(proxy);
    script.append(SCRIPT_TAIL);
    script
}

/// Which entries of a directory count as candidates.
#[derive(Copy, Clone, Debug, PartialEq, Eq, Structural)]
pub enum CwdSearchStrategy {
    /// Files only.
    FilesOnly,
    /// Directories only.
    DirectoriesOnly,
    /// Every entry.
    Anything,
}

impl CwdSearchStrategy {
    /// The strategy that the command line asks for: none unless the working
    /// directory is to be searched; then files only where that is asked,
    /// else directories only where that is asked, else everything.
    pub fn create(cwd: bool, files_only: bool, dirs_only: bool) -> (r: Option<CwdSearchStrategy>)
        ensures
            r == if !cwd {
                None
            } else if files_only {
                Some(CwdSearchStrategy::FilesOnly)
            } else if dirs_only {
                Some(CwdSearchStrategy::DirectoriesOnly)
            } else {
                Some(CwdSearchStrategy::Anything)
            },
    {
        match (cwd, files_only, dirs_only) {
            (true, true, _) => Some(CwdSearchStrategy::FilesOnly),
            (true, _, true) => Some(CwdSearchStrategy::DirectoriesOnly),
            (true, _, _) => Some(CwdSearchStrategy::Anything),
            _ => None,
        }
    }

    /// Whether a directory entry counts as a candidate, given whether it is
    /// a file and whether it is a directory.
    pub fn admits(self, is_file: bool, is_dir: bool) -> (r: bool)
        ensures
            r == match self {
                CwdSearchStrategy::FilesOnly => is_file,
                CwdSearchStrategy::DirectoriesOnly => is_dir,
                CwdSearchStrategy::Anything => true,
            },
    {
        match self {
            CwdSearchStrategy::FilesOnly => is_file,
            CwdSearchStrategy::DirectoriesOnly => is_dir,
            CwdSearchStrategy::Anything => true,
        }
    }

    /// The strategy for one query of a run that descends query by query:
    /// every query but the last has to select a directory; the last one
    /// selects by the strategy that was asked for, or anything where none
    /// was.
    pub fn for_query(index: usize, count: usize, asked: Option<CwdSearchStrategy>) -> (r:
        CwdSearchStrategy)
        ensures
            r == if index + 1 == count {
                match asked {
                    Some(strategy) => strategy,
                    None => CwdSearchStrategy::Anything,
                }
            } else {
                CwdSearchStrategy::DirectoriesOnly
            },
    {
        if count > 0 && index == count - 1 {
            match asked {
                Some(strategy) => strategy,
                None => CwdSearchStrategy::Anything,
            }
        } else {
            CwdSearchStrategy::DirectoriesOnly
        }
    }
}

} // verus!
