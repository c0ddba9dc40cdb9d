//! The run configuration: which assembler, emulator, source file and series
//! file to use, resolved from command-line choices over file choices, with
//! the series file defaulting to `serie` beside the emulator.

use vstd::prelude::*;

use crate::tests::Tests;

verus! {

/// The tool paths a configuration file may name.
#[derive(Debug)]
pub struct Config {
    pub assembler: Option<String>,
    pub emulator: Option<String>,
    pub ens_file: Option<String>,
    pub serie_file: Option<String>,
}

/// A whole test-specification file: the configuration and the test groups.
#[derive(Debug)]
pub struct ConfigAll {
    pub config: Config,
    pub tests: Tests,
}

/// The four paths a run needs, every one settled.
#[derive(Debug, PartialEq, Eq)]
pub struct ResolvedConfig {
    pub assembler: String,
    pub emulator: String,
    pub ens_file: String,
    pub serie_file: String,
}

/// Which required path could not be settled.
#[derive(Debug, Clone, Copy, PartialEq, Eq, Structural)]
pub enum ConfigError {
    MissingAssembler,
    MissingEmulator,
    MissingEnsFile,
    /// No series file was named and the emulator path has no parent to
    /// derive one from.
    NoEmulatorParent,
}

/// The index of the last path separator, or a negative value if none.
pub open spec fn last_slash(s: Seq<char>) -> int
    decreases s.len(),
{
    if s.len() == 0 {
        -1
    } else if s.last() == '/' {
        s.len() - 1
    } else {
        last_slash(s.drop_last())
    }
}

proof fn lemma_last_slash_range(s: Seq<char>)
    ensures
        -1 <= last_slash(s) < s.len(),
    decreases s.len(),
{
    if s.len() > 0 && s.last() != '/' {
        lemma_last_slash_range(s.drop_last());
    }
}

/// The default series file: `serie` in the emulator's directory.
pub open spec fn default_serie(emulator: Seq<char>) -> Seq<char> {
    emulator.subrange(0, last_slash(emulator)) + "/serie"@
}

/// The first of two choices, command line before configuration file.
pub open spec fn first_of(cli: Option<String>, file: Option<String>) -> Option<String> {
    if cli is Some {
        cli
    } else {
        file
    }
}

fn pick(cli: Option<String>, file: Option<String>) -> (r: Option<String>)
    ensures
        r == first_of(cli, file),
{
    match cli {
        Some(c) => Some(c),
        None => file,
    }
}

/// The directory prefix of the emulator path, found at its last `/`.
fn serie_beside(emulator: &String) -> (r: Option<String>)
    ensures
        match r {
            Some(s) => last_slash(emulator@) >= 0 && s@ == default_serie(emulator@),
            None => last_slash(emulator@) < 0,
        },
{
    proof {
        lemma_last_slash_range(emulator@);
    }
    let e = emulator.as_str();
    let n = e.unicode_len();
    let mut i: usize = n;
    proof {
        assert(emulator@.take(emulator@.len() as int) =~= emulator@);
    }
    while i > 0
        invariant
            0 <= i <= n == emulator@.len(),
            e@ == emulator@,
            last_slash(emulator@) == last_slash(emulator@.take(i as int)),
        decreases i,
    {
        proof {
            assert(emulator@.take(i as int).last() == emulator@[i - 1]);
            assert(emulator@.take(i as int).drop_last() =~= emulator@.take(i - 1));
        }
        if e.get_char(i - 1) == '/' {
            let mut s = e.substring_char(0, i - 1).to_owned();
            s.append("/serie");
            proof {
                assert(last_slash(emulator@.take(i as int)) == i - 1);
            }
            return Some(s);
        }
        i = i - 1;
    }
    proof {
        assert(emulator@.take(0) =~= Seq::<char>::empty());
    }
    None
}

/// Settles the run's paths: each command-line choice wins over the file's;
/// the assembler, emulator and source file are required; a missing series
/// file defaults to `serie` beside the emulator, and the emulator path must
/// then have a directory part.
pub fn resolve(cli: Config, file: Config) -> (r: Result<ResolvedConfig, ConfigError>)
    ensures
        match r {
            Ok(rc) => {
                &&& Some(rc.assembler) == first_of(cli.assembler, file.assembler)
                &&& Some(rc.emulator) == first_of(cli.emulator, file.emulator)
                &&& Some(rc.ens_file) == first_of(cli.ens_file, file.ens_file)
                &&& match first_of(cli.serie_file, file.serie_file) {
                    Some(s) => rc.serie_file == s,
                    None => rc.serie_file@ == default_serie(rc.emulator@),
                }
            },
            Err(ConfigError::MissingAssembler) => first_of(cli.assembler, file.assembler) is None,
            Err(ConfigError::MissingEmulator) => first_of(cli.assembler, file.assembler) is Some
                && first_of(cli.emulator, file.emulator) is None,
            Err(ConfigError::MissingEnsFile) => first_of(cli.assembler, file.assembler) is Some
                && first_of(cli.emulator, file.emulator) is Some && first_of(
                cli.ens_file,
                file.ens_file,
            ) is None,
            Err(ConfigError::NoEmulatorParent) => first_of(cli.serie_file, file.serie_file) is None
                && (first_of(cli.emulator, file.emulator) matches Some(e) && last_slash(e@) < 0),
        },
{
    let assembler = match pick(cli.assembler, file.assembler) {
        Some(a) => a,
        None => {
            return Err(ConfigError::MissingAssembler);
        },
    };
    let emulator = match pick(cli.emulator, file.emulator) {
        Some(e) => e,
        None => {
            return Err(ConfigError::MissingEmulator);
        },
    };
    let ens_file = match pick(cli.ens_file, file.ens_file) {
        Some(e) => e,
        None => {
            return Err(ConfigError::MissingEnsFile);
        },
    };
    let serie_file = match pick(cli.serie_file, file.serie_file) {
        Some(s) => s,
        None => {
            match serie_beside(&emulator) {
                Some(s) => s,
                None => {
                    return Err(ConfigError::NoEmulatorParent);
                },
            }
        },
    };
    Ok(ResolvedConfig { assembler, emulator, ens_file, serie_file })
}

} // verus!
