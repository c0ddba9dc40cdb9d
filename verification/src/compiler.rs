//! The assembler collaborator's command line: which binary to run and with
//! which arguments. Spawning the process and capturing its output happen
//! outside the library.

use vstd::prelude::*;

verus! {

/// The output file the assembler writes when none is chosen.
pub const STD_OUTFILE: &'static str = "CDV.bin";

/// Builds the assembler's command line step by step.
#[derive(Debug)]
pub struct CompilerBuilder {
    pub assembler: String,
    pub ens_file: Option<String>,
    pub outfile: Option<String>,
    pub current_working_dir: Option<String>,
}

fn clone_opt_string(s: &Option<String>) -> (r: Option<String>)
    ensures
        r == *s,
{
    match s {
        Some(x) => Some(x.clone()),
        None => None,
    }
}

impl Clone for CompilerBuilder {
    /// A clone carries the same paths.
    fn clone(&self) -> (r: Self)
        ensures
            r == *self,
    {
        CompilerBuilder {
            assembler: self.assembler.clone(),
            ens_file: clone_opt_string(&self.ens_file),
            outfile: clone_opt_string(&self.outfile),
            current_working_dir: clone_opt_string(&self.current_working_dir),
        }
    }
}

impl CompilerBuilder {
    pub fn new(assembler: String) -> (r: Self)
        ensures
            r.assembler == assembler,
            r.ens_file is None,
            r.outfile is None,
            r.current_working_dir is None,
    {
        CompilerBuilder { assembler, ens_file: None, outfile: None, current_working_dir: None }
    }

    /// Sets the output file in place.
    pub fn outfile_mut(&mut self, outfile: String)
        ensures
            *final(self) == (CompilerBuilder { outfile: Some(outfile), ..*old(self) }),
    {
        self.outfile = Some(outfile);
    }

    /// A copy of the builder with the output file set.
    pub fn outfile(&self, out: String) -> (r: Self)
        ensures
            r == (CompilerBuilder { outfile: Some(out), ..*self }),
    {
        let mut s = self.clone();
        s.outfile_mut(out);
        s
    }

    /// The builder with the source file set.
    pub fn ens_file(self, ens_file: String) -> (r: Self)
        ensures
            r == (CompilerBuilder { ens_file: Some(ens_file), ..self }),
    {
        CompilerBuilder { ens_file: Some(ens_file), ..self }
    }

    /// The builder with a working directory set.
    pub fn current_dir(self, current_dir: String) -> (r: Self)
        ensures
            r == (CompilerBuilder { current_working_dir: Some(current_dir), ..self }),
    {
        CompilerBuilder { current_working_dir: Some(current_dir), ..self }
    }

    /// The assembler invocation. A source file must have been set; the
    /// output file falls back to the standard name.
    pub fn build(&self) -> (r: Compiler)
        requires
            self.ens_file is Some,
        ensures
            r.assembler@ == self.assembler@,
            r.ens_file@ == self.ens_file->0@,
            match self.outfile {
                Some(o) => r.outfile@ == o@,
                None => r.outfile@ == STD_OUTFILE@,
            },
            r.current_dir == self.current_working_dir,
    {
        Compiler {
            assembler: self.assembler.clone(),
            ens_file: match &self.ens_file {
                Some(e) => e.clone(),
                None => String::new(),
            },
            outfile: match &self.outfile {
                Some(o) => o.clone(),
                None => STD_OUTFILE.to_owned(),
            },
            current_dir: clone_opt_string(&self.current_working_dir),
        }
    }
}

/// An assembler invocation: the binary, the source file, the output file,
/// and the directory to run in, if one was chosen.
#[derive(Debug)]
pub struct Compiler {
    pub assembler: String,
    pub ens_file: String,
    pub outfile: String,
    pub current_dir: Option<String>,
}

impl Compiler {
    /// The argument list of one compile:
    /// `-e <entrypoint> -o <outfile> <sourcefile>`.
    pub fn run_args(&self, test_name: &str) -> (r: Vec<String>)
        ensures
            r@.len() == 5,
            r@[0]@ == "-e"@,
            r@[1]@ == test_name@,
            r@[2]@ == "-o"@,
            r@[3]@ == self.outfile@,
            r@[4]@ == self.ens_file@,
    {
        let mut args: Vec<String> = Vec::new();
        args.push("-e".to_owned());
        args.push(test_name.to_owned());
        args.push("-o".to_owned());
        args.push(self.outfile.clone());
        args.push(self.ens_file.clone());
        args
    }
}

} // verus!
