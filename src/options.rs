use vstd::prelude::*;

verus! {

/// What `self` shows.
#[derive(Debug, Clone, Copy, PartialEq, Eq, Structural)]
pub enum Show {
    Profile,
    All,
}

/// A command-line argument, as the argument tokenizer classified it.
#[derive(Debug, Clone, Copy, PartialEq, Eq, Structural)]
pub enum Flag {
    /// `--profile`
    Profile,
    /// `--help`
    Help,
    /// Anything else.
    Other,
}

/// Why the arguments were refused.
#[derive(Debug, Clone, Copy, PartialEq, Eq, Structural)]
pub enum ArgsError {
    /// Help was asked for.
    Help,
    /// The argument at this position was not expected.
    Unexpected(usize),
}

/// Options of the `self` command.
#[derive(Debug, Clone, Copy, PartialEq, Eq, Structural)]
pub struct Options {
    pub show: Show,
}

/// The outcome of reading `fs` from position `i` on, with `seen` telling
/// whether `--profile` came already.
pub open spec fn outcome(fs: Seq<Flag>, i: nat, seen: bool) -> Result<Show, ArgsError>
    decreases fs.len() - i,
{
    if i >= fs.len() {
        Ok(if seen { Show::Profile } else { Show::All })
    } else {
        match fs[i as int] {
            Flag::Profile => if seen {
                Err(ArgsError::Unexpected(i as usize))
            } else {
                outcome(fs, i + 1, true)
            },
            Flag::Help => Err(ArgsError::Help),
            Flag::Other => Err(ArgsError::Unexpected(i as usize)),
        }
    }
}

impl Options {
    /// Read the options: `--profile` at most once shows the profile id, with
    /// no flag all is shown, `--help` asks for help, anything else is refused.
    pub fn from_args(flags: &Vec<Flag>) -> (r: Result<Options, ArgsError>)
        ensures
            match outcome(flags@, 0, false) {
                Ok(show) => r == Ok::<Options, ArgsError>(Options { show }),
                Err(e) => r == Err::<Options, ArgsError>(e),
            },
    {
        let mut seen = false;
        let mut i: usize = 0;
        while i < flags.len()
            invariant
                i <= flags.len(),
                outcome(flags@, 0, false) == outcome(flags@, i as nat, seen),
            decreases flags.len() - i,
        {
            match flags[i] {
                Flag::Profile => {
                    if seen {
                        return Err(ArgsError::Unexpected(i));
                    }
                    seen = true;
                },
                Flag::Help => {
                    return Err(ArgsError::Help);
                },
                Flag::Other => {
                    return Err(ArgsError::Unexpected(i));
                },
            }
            i = i + 1;
        }
        Ok(Options { show: if seen { Show::Profile } else { Show::All } })
    }
}

} // verus!
