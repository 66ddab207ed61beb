use vstd::prelude::*;

use std::path::PathBuf;

verus! {

/// A path is carried through the library to the code that opens it; the
/// library never looks inside one.
#[verifier::external_type_specification]
#[verifier::external_body]
pub struct ExPathBuf(PathBuf);

/// The settings of one comparison.
pub struct Config {
    /// Whether the chunks are sorted before comparing.
    pub sort: bool,
    /// Whether the lines are folded to lowercase before comparing.
    pub lowercase: bool,
    /// The characters that end a chunk.
    pub separators: Vec<char>,
    /// A single file holding both lines; further lines are ignored.
    pub file: Option<PathBuf>,
    /// A file holding the whole first line.
    pub file1: Option<PathBuf>,
    /// A file holding the whole second line.
    pub file2: Option<PathBuf>,
    /// The first line itself.
    pub line1: Option<String>,
    /// The second line itself.
    pub line2: Option<String>,
    /// Where the first line is written after preprocessing.
    pub output_file1: Option<PathBuf>,
    /// Where the second line is written after preprocessing.
    pub output_file2: Option<PathBuf>,
}

/// Where one line of a comparison comes from.
#[derive(Clone, Copy, Debug, PartialEq, Eq)]
pub enum LineSource {
    /// The line is given in the configuration.
    Inline,
    /// The line is the whole content of a file.
    File,
    /// The line is asked for interactively.
    Prompt,
}

/// Where the two lines of a comparison come from.
#[derive(Clone, Copy, Debug, PartialEq, Eq)]
pub enum InputSource {
    /// Both lines are the first two lines of one file.
    TwoLineFile,
    /// Each line has a source of its own.
    Separate(LineSource, LineSource),
}

/// The source of one line: given text wins over a file, a file over a prompt.
pub open spec fn line_source(line: Option<String>, file: Option<PathBuf>) -> LineSource {
    if line is Some {
        LineSource::Inline
    } else if file is Some {
        LineSource::File
    } else {
        LineSource::Prompt
    }
}

fn pick_line_source(line: &Option<String>, file: &Option<PathBuf>) -> (r: LineSource)
    ensures
        r == line_source(*line, *file),
{
    if line.is_some() {
        LineSource::Inline
    } else if file.is_some() {
        LineSource::File
    } else {
        LineSource::Prompt
    }
}

impl Config {
    /// Completes a configuration read from the command line: a newline
    /// always ends a chunk, besides the separators given there.
    pub fn from_cmd_args(args: Config) -> (r: Config)
        ensures
            r.separators@ == args.separators@.push('\n'),
            r.sort == args.sort,
            r.lowercase == args.lowercase,
            r.file == args.file,
            r.file1 == args.file1,
            r.file2 == args.file2,
            r.line1 == args.line1,
            r.line2 == args.line2,
            r.output_file1 == args.output_file1,
            r.output_file2 == args.output_file2,
    {
        let mut c = args;
        c.separators.push('\n');
        c
    }

    /// A configuration comparing the two given lines.
    pub fn from_lines(sort: bool, lowercase: bool, separators: Vec<char>, l1: &str, l2: &str) -> (r:
        Config)
        ensures
            r.sort == sort,
            r.lowercase == lowercase,
            r.separators == separators,
            r.file is None,
            r.file1 is None,
            r.file2 is None,
            r.line1 matches Some(l) && l@ == l1@,
            r.line2 matches Some(l) && l@ == l2@,
            r.output_file1 is None,
            r.output_file2 is None,
    {
        Config {
            sort,
            lowercase,
            separators,
            file: None,
            file1: None,
            file2: None,
            line1: Some(l1.to_owned()),
            line2: Some(l2.to_owned()),
            output_file1: None,
            output_file2: None,
        }
    }

    /// A configuration comparing the first two lines of the file at `filepath`.
    pub fn from_file(sort: bool, lowercase: bool, separators: Vec<char>, filepath: PathBuf) -> (r:
        Config)
        ensures
            r.sort == sort,
            r.lowercase == lowercase,
            r.separators == separators,
            r.file == Some(filepath),
            r.file1 is None,
            r.file2 is None,
            r.line1 is None,
            r.line2 is None,
            r.output_file1 is None,
            r.output_file2 is None,
    {
        Config {
            sort,
            lowercase,
            separators,
            file: Some(filepath),
            file1: None,
            file2: None,
            line1: None,
            line2: None,
            output_file1: None,
            output_file2: None,
        }
    }

    /// Where the two lines come from: a single file wins over everything
    /// else; otherwise each line comes from its given text, its file or a
    /// prompt, in that order.
    pub fn input_source(&self) -> (r: InputSource)
        ensures
            r == if self.file is Some {
                InputSource::TwoLineFile
            } else {
                InputSource::Separate(
                    line_source(self.line1, self.file1),
                    line_source(self.line2, self.file2),
                )
            },
    {
        if self.file.is_some() {
            InputSource::TwoLineFile
        } else {
            InputSource::Separate(
                pick_line_source(&self.line1, &self.file1),
                pick_line_source(&self.line2, &self.file2),
            )
        }
    }
}

} // verus!
