use vstd::prelude::*;

verus! {

/// The invocation of the program: the path of the file to read.
#[derive(Debug)]
pub struct Config {
    filename: String,
}

impl Config {
    /// The path held by this configuration.
    pub closed spec fn file_name(&self) -> Seq<char> {
        self.filename@
    }

    /// Builds a configuration from the process arguments, where the program
    /// name comes first and the file path second.
    pub fn new(args: &[String]) -> (r: Result<Config, &'static str>)
        ensures
            args@.len() < 2 <==> r is Err,
            r matches Err(e) ==> e@ == "Not enough args"@,
            r matches Ok(c) ==> c.file_name() == args@[1]@,
    {
        proof {
            reveal_strlit("Not enough args");
        }
        if args.len() < 2 {
            return Err("Not enough args");
        }
        Ok(Config { filename: args[1].clone() })
    }

    /// The path of the file to read.
    pub fn get_file_name(&self) -> (r: &str)
        ensures
            r@ == self.file_name(),
    {
        self.filename.as_str()
    }
}

} // verus!
