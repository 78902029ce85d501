//! The command line: which argument names the model tree to work on.

use vstd::prelude::*;

verus! {

/// Why the command line names no directory to work on.
#[derive(Debug, Clone, Copy, PartialEq, Eq, Structural)]
pub enum ArgsError {
    /// No argument follows the program's name.
    PathNotProvided,
    /// The argument does not name a directory.
    NotADirectory,
}

impl ArgsError {
    /// The message shown to the user.
    pub fn message(&self) -> (r: String)
        ensures
            r@ == match self {
                ArgsError::PathNotProvided => "Path not provided, no work to do."@,
                ArgsError::NotADirectory => "Path provided is a file, please provide a directory."@,
            },
    {
        match self {
            ArgsError::PathNotProvided => "Path not provided, no work to do.".to_owned(),
            ArgsError::NotADirectory => "Path provided is a file, please provide a directory.".to_owned(),
        }
    }
}

/// The directory named by the first argument after the program's name.
/// `is_dir` tells whether a path names a directory; it is asked about that
/// argument alone, and only when there is one.
pub fn parse_args_for_path<'a, F: Fn(&String) -> bool>(args: &'a Vec<String>, is_dir: F) -> (r:
    Result<&'a String, ArgsError>)
    requires
        args@.len() > 1 ==> is_dir.requires((&args@[1],)),
    ensures
        r == Err::<&String, ArgsError>(ArgsError::PathNotProvided) <==> args@.len() <= 1,
        r matches Ok(p) ==> args@.len() > 1 && *p == args@[1] && is_dir.ensures((&args@[1],), true),
        r == Err::<&String, ArgsError>(ArgsError::NotADirectory) ==> args@.len() > 1
            && is_dir.ensures((&args@[1],), false),
        args@.len() > 1 ==> (r is Ok || r == Err::<&String, ArgsError>(ArgsError::NotADirectory)),
{
    if args.len() <= 1 {
        return Err(ArgsError::PathNotProvided);
    }
    let path = &args[1];
    if !is_dir(path) {
        return Err(ArgsError::NotADirectory);
    }
    Ok(path)
}

} // verus!
