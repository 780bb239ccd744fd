//! The command-line rules: which flags exist, how they take values,
//! and which argument lists are rejected.

use vstd::prelude::*;
use vstd::string::StringExecFns;
use crate::text::{str_eq, str_views};

verus! {

/// A run's configuration.
pub struct Config {
    /// The CIDR argument; empty when none was given.
    pub subnet: String,
    /// Whether the probe-and-merge phase was requested.
    pub active: bool,
    /// Where the export is written.
    pub out_path: String,
}

pub struct ConfigV {
    pub subnet: Seq<char>,
    pub active: bool,
    pub out_path: Seq<char>,
}

impl View for Config {
    type V = ConfigV;

    open spec fn view(&self) -> ConfigV {
        ConfigV { subnet: self.subnet@, active: self.active, out_path: self.out_path@ }
    }
}

/// The configuration before any flag is read.
pub open spec fn spec_default_config() -> ConfigV {
    ConfigV { subnet: Seq::empty(), active: false, out_path: "inventory.csv"@ }
}

/// Positions never step past the end of the argument list.
pub open spec fn clamp(i: int, n: int) -> int {
    if i <= n {
        i
    } else {
        n
    }
}

/// Reading the argument list from position `i` onward: `--subnet` and
/// `--out` consume a following value (a trailing `--subnet` leaves the
/// subnet empty, a trailing `--out` keeps the previous path),
/// `--active` sets its flag, and any other argument is the rejection.
pub open spec fn spec_parse_args(args: Seq<Seq<char>>, i: int, c: ConfigV) -> Result<
    ConfigV,
    Seq<char>,
>
    decreases args.len() - i,
{
    if i < 0 || i >= args.len() {
        Ok(c)
    } else if args[i] == "--subnet"@ {
        let v = if i + 1 < args.len() {
            args[i + 1]
        } else {
            Seq::empty()
        };
        spec_parse_args(
            args,
            clamp(i + 2, args.len() as int),
            ConfigV { subnet: v, active: c.active, out_path: c.out_path },
        )
    } else if args[i] == "--active"@ {
        spec_parse_args(
            args,
            i + 1,
            ConfigV { subnet: c.subnet, active: true, out_path: c.out_path },
        )
    } else if args[i] == "--out"@ {
        let v = if i + 1 < args.len() {
            args[i + 1]
        } else {
            c.out_path
        };
        spec_parse_args(
            args,
            clamp(i + 2, args.len() as int),
            ConfigV { subnet: c.subnet, active: c.active, out_path: v },
        )
    } else {
        Err(args[i])
    }
}

/// What a whole argument list (program name first) yields.
pub open spec fn spec_args_result(args: Seq<Seq<char>>) -> Result<ConfigV, Seq<char>> {
    spec_parse_args(args, 1, spec_default_config())
}

/// Parse the command line; on rejection the offending argument is
/// returned.
pub fn parse_args(args: &Vec<String>) -> (r: Result<Config, String>)
    ensures
        match r {
            Ok(c) => spec_args_result(str_views(args@)) == Ok::<ConfigV, Seq<char>>(c@),
            Err(e) => spec_args_result(str_views(args@)) == Err::<ConfigV, Seq<char>>(e@),
        },
{
    let ghost av = str_views(args@);
    let mut cfg = Config {
        subnet: String::new(),
        active: false,
        out_path: String::from_str("inventory.csv"),
    };
    let n = args.len();
    let mut i: usize = 1;
    proof {
        assert(av.len() == args@.len());
        assert(cfg@ == spec_default_config());
        assert(spec_args_result(av) == spec_parse_args(av, clamp(1, av.len() as int), cfg@)) by {
            if av.len() < 1 {
                assert(clamp(1, av.len() as int) == av.len() as int);
            }
        }
    }
    while i < n
        invariant
            1 <= i,
            n == args@.len(),
            av == str_views(args@),
            spec_args_result(av) == spec_parse_args(av, clamp(i as int, av.len() as int), cfg@),
        decreases n - i,
    {
        proof {
            assert(args@[i as int]@ == av[i as int]);
        }
        if str_eq(args[i].as_str(), "--subnet") {
            i = i + 1;
            if i < n {
                proof {
                    assert(args@[i as int]@ == av[i as int]);
                }
                cfg.subnet = args[i].clone();
                i = i + 1;
            } else {
                cfg.subnet = String::new();
            }
        } else if str_eq(args[i].as_str(), "--active") {
            cfg.active = true;
            i = i + 1;
        } else if str_eq(args[i].as_str(), "--out") {
            i = i + 1;
            if i < n {
                proof {
                    assert(args@[i as int]@ == av[i as int]);
                }
                cfg.out_path = args[i].clone();
                i = i + 1;
            }
        } else {
            let bad = args[i].clone();
            return Err(bad);
        }
    }
    Ok(cfg)
}

} // verus!
