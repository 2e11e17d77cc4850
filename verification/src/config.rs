//! From the tokens of a command line to a configuration.

use vstd::prelude::*;
use crate::encoding::same_text;
use crate::error::Error;

verus! {

/// What to search for, where, and whether case matters.
#[derive(Debug)]
pub struct Config {
    search_for: String,
    filepath: String,
    ignore_case: bool,
}

/// A configuration as plain values.
pub struct ConfigView {
    pub search_for: Seq<char>,
    pub filepath: Seq<char>,
    pub ignore_case: bool,
}

impl View for Config {
    type V = ConfigView;

    closed spec fn view(&self) -> ConfigView {
        ConfigView {
            search_for: self.search_for@,
            filepath: self.filepath@,
            ignore_case: self.ignore_case,
        }
    }
}

/// The texts of a sequence of tokens.
pub open spec fn token_texts(tokens: Seq<String>) -> Seq<Seq<char>> {
    Seq::new(tokens.len(), |i: int| tokens[i]@)
}

/// The token that asks for a case-insensitive search.
pub open spec fn is_switch(token: Seq<char>) -> bool {
    token == "-i"@
}

/// The test that a positional parameter passes: any token but the switch.
pub open spec fn positional() -> spec_fn(Seq<char>) -> bool {
    |token: Seq<char>| !is_switch(token)
}

/// The tokens behind the first, which names the program.
pub open spec fn arguments(tokens: Seq<Seq<char>>) -> Seq<Seq<char>> {
    if tokens.len() == 0 {
        tokens
    } else {
        tokens.drop_first()
    }
}

/// The positional parameters among the arguments, in order.
pub open spec fn positionals(tokens: Seq<Seq<char>>) -> Seq<Seq<char>> {
    arguments(tokens).filter(positional())
}

/// Whether the switch stands anywhere among the arguments.
pub open spec fn switch_given(tokens: Seq<Seq<char>>) -> bool {
    exists|i: int| 0 <= i < arguments(tokens).len() && is_switch(#[trigger] arguments(tokens)[i])
}

/// The configuration that a command line asks for: none unless it has exactly
/// two positional parameters, the term and then the file. Case is ignored where
/// the switch is given or where `ambient` says so.
pub open spec fn resolved(tokens: Seq<Seq<char>>, ambient: bool) -> Option<ConfigView> {
    let given = positionals(tokens);
    if given.len() == 2 {
        Some(
            ConfigView {
                search_for: given[0],
                filepath: given[1],
                ignore_case: switch_given(tokens) || ambient,
            },
        )
    } else {
        None
    }
}

impl Config {
    /// Resolves the tokens of a command line. The first token, the path to the
    /// executable, is passed over. Of the others each `-i` sets the switch for a
    /// case-insensitive search, wherever it stands, and the rest must be exactly
    /// two: the term to search for, then the path of the file. `ignore_case_env`
    /// says whether the environment asks for a case-insensitive search; it adds to
    /// the switch and never takes it back.
    pub fn build(args: &[String], ignore_case_env: bool) -> (outcome: Result<Config, Error>)
        ensures
            match resolved(token_texts(args@), ignore_case_env) {
                Some(view) => outcome matches Ok(config) && config@ == view,
                None => outcome matches Err(Error::InvalidArguments(message)) && message@
                    == "invalid arguments"@,
            },
    {
        let ghost rest = arguments(token_texts(args@));
        let given: usize = if args.len() == 0 {
            0
        } else {
            args.len() - 1
        };
        let mut has_switch_i = false;
        let mut params: Vec<String> = Vec::new();
        let mut seen: usize = 0;
        proof {
            reveal(Seq::filter);
            assert(token_texts(params@) =~= rest.take(0).filter(positional()));
        }
        while seen < given
            invariant
                rest == arguments(token_texts(args@)),
                given == rest.len(),
                seen <= given,
                token_texts(params@) == rest.take(seen as int).filter(positional()),
                has_switch_i <==> exists|i: int| 0 <= i < seen && is_switch(#[trigger] rest[i]),
            decreases given - seen,
        {
            let arg = &args[seen + 1];
            let ghost before = token_texts(params@);
            proof {
                reveal(Seq::filter);
                assert(rest.take(seen + 1).drop_last() =~= rest.take(seen as int));
                assert(rest[seen as int] == arg@);
            }
            if same_text(arg.as_str(), "-i") {
                has_switch_i = true;
            } else {
                params.push(arg.clone());
                assert(token_texts(params@) =~= before.push(arg@));
            }
            seen += 1;
        }
        assert(rest.take(seen as int) =~= rest);
        assert(token_texts(params@).len() == params.len());
        if params.len() != 2 {
            return Err(Error::InvalidArguments("invalid arguments"));
        }
        let ghost given_texts = token_texts(params@);
        let search_for = params.remove(0);
        let filepath = params.remove(0);
        assert(search_for@ == given_texts[0]);
        assert(filepath@ == given_texts[1]);
        Ok(Config { search_for, filepath, ignore_case: has_switch_i || ignore_case_env })
    }

    /// The term to search for.
    pub fn search_for(&self) -> (term: &str)
        ensures
            term@ == self@.search_for,
    {
        self.search_for.as_str()
    }

    /// The path of the file to search in.
    pub fn filepath(&self) -> (path: &str)
        ensures
            path@ == self@.filepath,
    {
        self.filepath.as_str()
    }

    /// Whether letters of either case are taken alike.
    pub fn ignore_case(&self) -> (ignored: bool)
        ensures
            ignored == self@.ignore_case,
    {
        self.ignore_case
    }
}

} // verus!
