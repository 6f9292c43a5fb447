use vstd::prelude::*;

use crate::error::ParserErrors;

verus! {

/// What the command line asks for: the path of the file to check.
pub struct Config {
    pub file_path: String,
}

impl Config {
    /// Reads the arguments (the program's name first): exactly one more,
    /// the file path, is accepted.
    pub fn build(args: Vec<String>) -> (r: Result<Config, ParserErrors>)
        ensures
            args@.len() <= 1 ==> (r matches Err(ParserErrors::ArgumentError(m)) && m@
                == "please provide a filename"@),
            args@.len() > 2 ==> (r matches Err(ParserErrors::ArgumentError(m)) && m@
                == "too many arguments"@),
            args@.len() == 2 ==> (r matches Ok(c) && c.file_path@ == args@[1]@),
    {
        if args.len() <= 1 {
            return Err(ParserErrors::ArgumentError("please provide a filename".to_string()));
        } else if args.len() > 2 {
            return Err(ParserErrors::ArgumentError("too many arguments".to_string()));
        }
        Ok(Config { file_path: args[1].clone() })
    }
}

} // verus!
