//! Server command-line parsing.
//!
//! The server accepts
//! `-p <port> -x <width> -y <height> -n <team> [<team> ...] -c <nb> [-t <t>]`.
//! All flags are required except `-t`, which defaults to [`DEFAULT_T`] (100).
//! Missing or invalid arguments produce a [`CliError`]; the binary prints
//! [`USAGE`] and exits non-zero.
//!
//! Numbers are written in decimal, optionally preceded by `+`; they must be
//! positive and fit their type (`-p` a 16-bit port, the others 32 bits).

use vstd::prelude::*;

use crate::text::{chars_of, push_str, str_eq, to_owned_string};

verus! {

/// Default time-unit divider when `-t` is omitted.
pub const DEFAULT_T: u32 = 100;

/// Usage text printed for a bad command line.
pub const USAGE: &'static str = " Usage: ./server -p <port> -x <width> -y <height> -n <team> [<team>] [<team>] ... -c <nb> [-t <t>]\n -p port number\n -x world width\n -y world height\n -n team_name_1 team_name_2 ...\n -c number of clients authorized at the beginning of the game\n -t [100] time unit divider (the greater t is, the faster the game will go)\n";

/// Fully-parsed, validated server configuration.
#[derive(Debug, Clone, PartialEq, Eq)]
pub struct Config {
    /// TCP port to listen on (1..=65535).
    pub port: u16,
    /// World width in tiles (> 0).
    pub width: u32,
    /// World height in tiles (> 0).
    pub height: u32,
    /// Team names in the order given; at least one, all distinct and non-empty.
    pub teams: Vec<String>,
    /// Authorized clients per team at game start (> 0).
    pub clients_per_team: u32,
    /// Time-unit divider `t` (> 0); defaults to [`DEFAULT_T`].
    pub t: u32,
}

/// A configuration with team names as characters.
pub struct ConfigView {
    pub port: u16,
    pub width: u32,
    pub height: u32,
    pub teams: Seq<Seq<char>>,
    pub clients_per_team: u32,
    pub t: u32,
}

impl View for Config {
    type V = ConfigView;

    open spec fn view(&self) -> ConfigView {
        ConfigView {
            port: self.port,
            width: self.width,
            height: self.height,
            teams: self.teams@.map_values(|s: String| s@),
            clients_per_team: self.clients_per_team,
            t: self.t,
        }
    }
}

/// Reasons CLI parsing can fail.
#[derive(Debug, Clone, PartialEq, Eq)]
pub enum CliError {
    /// No arguments at all (bare `./server`): show usage without an error line.
    NoArgs,
    /// A flag that expects a value was the last token.
    MissingValue(String),
    /// A flag's value could not be parsed or was out of range.
    InvalidValue { flag: String, value: String },
    /// `-n` was given with no team names following it.
    NoTeams,
    /// The same team name was listed more than once.
    DuplicateTeam(String),
    /// A required flag was never supplied.
    MissingFlag(&'static str),
    /// The same single-value flag appeared twice.
    DuplicateFlag(String),
    /// An unrecognized flag or stray positional argument.
    Unknown(String),
}

/// A parse failure with its texts as characters.
pub enum CliFault {
    NoArgs,
    MissingValue(Seq<char>),
    InvalidValue(Seq<char>, Seq<char>),
    NoTeams,
    DuplicateTeam(Seq<char>),
    MissingFlag(Seq<char>),
    DuplicateFlag(Seq<char>),
    Unknown(Seq<char>),
}

impl View for CliError {
    type V = CliFault;

    open spec fn view(&self) -> CliFault {
        match self {
            CliError::NoArgs => CliFault::NoArgs,
            CliError::MissingValue(f) => CliFault::MissingValue(f@),
            CliError::InvalidValue { flag, value } => CliFault::InvalidValue(flag@, value@),
            CliError::NoTeams => CliFault::NoTeams,
            CliError::DuplicateTeam(n) => CliFault::DuplicateTeam(n@),
            CliError::MissingFlag(f) => CliFault::MissingFlag(f@),
            CliError::DuplicateFlag(f) => CliFault::DuplicateFlag(f@),
            CliError::Unknown(t) => CliFault::Unknown(t@),
        }
    }
}

/// The one-line diagnostic for a failure.
pub open spec fn fault_text(e: CliFault) -> Seq<char> {
    match e {
        CliFault::NoArgs => "error: no arguments given"@,
        CliFault::MissingValue(f) => "error: missing value for "@ + f,
        CliFault::InvalidValue(f, v) => "error: invalid value '"@ + v + "' for "@ + f,
        CliFault::NoTeams => "error: -n requires at least one team name"@,
        CliFault::DuplicateTeam(n) => "error: duplicate team name '"@ + n + "'"@,
        CliFault::MissingFlag(f) => "error: missing required flag "@ + f,
        CliFault::DuplicateFlag(f) => "error: flag "@ + f + " given more than once"@,
        CliFault::Unknown(t) => "error: unknown argument '"@ + t + "'"@,
    }
}

impl CliError {
    /// Short, human-readable line printed to stderr above the usage text.
    pub fn message(&self) -> (s: String)
        ensures
            s@ == fault_text(self@),
    {
        match self {
            CliError::NoArgs => to_owned_string("error: no arguments given"),
            CliError::MissingValue(flag) => {
                let mut s = to_owned_string("error: missing value for ");
                push_str(&mut s, flag.as_str());
                s
            },
            CliError::InvalidValue { flag, value } => {
                let mut s = to_owned_string("error: invalid value '");
                push_str(&mut s, value.as_str());
                push_str(&mut s, "' for ");
                push_str(&mut s, flag.as_str());
                s
            },
            CliError::NoTeams => to_owned_string("error: -n requires at least one team name"),
            CliError::DuplicateTeam(name) => {
                let mut s = to_owned_string("error: duplicate team name '");
                push_str(&mut s, name.as_str());
                push_str(&mut s, "'");
                s
            },
            CliError::MissingFlag(flag) => {
                let mut s = to_owned_string("error: missing required flag ");
                push_str(&mut s, flag);
                s
            },
            CliError::DuplicateFlag(flag) => {
                let mut s = to_owned_string("error: flag ");
                push_str(&mut s, flag.as_str());
                push_str(&mut s, " given more than once");
                s
            },
            CliError::Unknown(tok) => {
                let mut s = to_owned_string("error: unknown argument '");
                push_str(&mut s, tok.as_str());
                push_str(&mut s, "'");
                s
            },
        }
    }
}

/// A token is a flag if it starts with `-` and is not a lone `-`.
pub open spec fn flag_like(tok: Seq<char>) -> bool {
    tok.len() >= 1 && tok[0] == '-' && tok != "-"@
}

/// Whether every character of `s` is an ASCII digit.
pub open spec fn all_digits(s: Seq<char>) -> bool {
    forall|i: int| 0 <= i < s.len() ==> '0' <= #[trigger] s[i] <= '9'
}

/// Value of the decimal digits `s`.
pub open spec fn digits_value(s: Seq<char>) -> nat
    decreases s.len(),
{
    if s.len() == 0 {
        0
    } else {
        digits_value(s.drop_last()) * 10 + ((s.last() as int - '0' as int) as nat)
    }
}

/// The number `s` writes, if it is an unsigned decimal (optional leading `+`)
/// no larger than `max`.
pub open spec fn unsigned_value(s: Seq<char>, max: nat) -> Option<nat> {
    let d = if s.len() > 0 && s[0] == '+' {
        s.skip(1)
    } else {
        s
    };
    if d.len() > 0 && all_digits(d) && digits_value(d) <= max {
        Some(digits_value(d))
    } else {
        None
    }
}

/// Values gathered so far while reading the command line.
pub struct Gathered {
    pub port: Option<u32>,
    pub width: Option<u32>,
    pub height: Option<u32>,
    pub clients: Option<u32>,
    pub t: Option<u32>,
    pub teams: Seq<Seq<char>>,
}

/// Nothing gathered yet.
pub open spec fn nothing_gathered() -> Gathered {
    Gathered { port: None, width: None, height: None, clients: None, t: None, teams: Seq::empty() }
}

/// The value token after the flag at `i`.
pub open spec fn value_after(args: Seq<Seq<char>>, i: int, flag: Seq<char>) -> Result<Seq<char>, CliFault> {
    if i + 1 < args.len() && !flag_like(args[i + 1]) {
        Ok(args[i + 1])
    } else {
        Err(CliFault::MissingValue(flag))
    }
}

/// A positive number for `flag` read from `v`.
pub open spec fn positive_value(flag: Seq<char>, v: Seq<char>, max: nat) -> Result<u32, CliFault> {
    match unsigned_value(v, max) {
        Some(n) => if n > 0 {
            Ok(n as u32)
        } else {
            Err(CliFault::InvalidValue(flag, v))
        },
        None => Err(CliFault::InvalidValue(flag, v)),
    }
}

/// Team names read from position `j` on, after those already in `teams`;
/// gives the names and the position after them.
pub open spec fn team_names(args: Seq<Seq<char>>, j: int, teams: Seq<Seq<char>>) -> Result<(Seq<Seq<char>>, int), CliFault>
    decreases args.len() - j,
{
    if 0 <= j < args.len() && !flag_like(args[j]) {
        let name = args[j];
        if name.len() == 0 {
            Err(CliFault::InvalidValue("-n"@, Seq::empty()))
        } else if teams.contains(name) {
            Err(CliFault::DuplicateTeam(name))
        } else {
            team_names(args, j + 1, teams.push(name))
        }
    } else if teams.len() == 0 {
        Err(CliFault::NoTeams)
    } else {
        Ok((teams, j))
    }
}

/// One of the single-value numeric flags, with its slot in `g`.
pub open spec fn numeric_slot(g: Gathered, flag: Seq<char>) -> Option<u32> {
    if flag == "-x"@ {
        g.width
    } else if flag == "-y"@ {
        g.height
    } else if flag == "-c"@ {
        g.clients
    } else {
        g.t
    }
}

/// `g` with the slot of `flag` set to `n`.
pub open spec fn with_slot(g: Gathered, flag: Seq<char>, n: u32) -> Gathered {
    if flag == "-x"@ {
        Gathered { width: Some(n), ..g }
    } else if flag == "-y"@ {
        Gathered { height: Some(n), ..g }
    } else if flag == "-c"@ {
        Gathered { clients: Some(n), ..g }
    } else {
        Gathered { t: Some(n), ..g }
    }
}

/// Reading the tokens from position `i` on, starting from `g`.
pub open spec fn read_tokens(args: Seq<Seq<char>>, i: int, g: Gathered) -> Result<Gathered, CliFault>
    decreases args.len() - i,
{
    if i < 0 || i >= args.len() {
        Ok(g)
    } else {
        let tok = args[i];
        if tok == "-p"@ {
            match value_after(args, i, "-p"@) {
                Err(e) => Err(e),
                Ok(v) => match unsigned_value(v, 65535) {
                    Some(n) => if n == 0 {
                        Err(CliFault::InvalidValue("-p"@, v))
                    } else if g.port.is_some() {
                        Err(CliFault::DuplicateFlag("-p"@))
                    } else {
                        read_tokens(args, i + 2, Gathered { port: Some(n as u32), ..g })
                    },
                    None => Err(CliFault::InvalidValue("-p"@, v)),
                },
            }
        } else if tok == "-x"@ || tok == "-y"@ || tok == "-c"@ || tok == "-t"@ {
            match value_after(args, i, tok) {
                Err(e) => Err(e),
                Ok(v) => match positive_value(tok, v, u32::MAX as nat) {
                    Err(e) => Err(e),
                    Ok(n) => if numeric_slot(g, tok).is_some() {
                        Err(CliFault::DuplicateFlag(tok))
                    } else {
                        read_tokens(args, i + 2, with_slot(g, tok, n))
                    },
                },
            }
        } else if tok == "-n"@ {
            if g.teams.len() > 0 {
                Err(CliFault::DuplicateFlag("-n"@))
            } else {
                match team_names(args, i + 1, Seq::empty()) {
                    Err(e) => Err(e),
                    Ok(r) => if i < r.1 <= args.len() {
                        read_tokens(args, r.1, Gathered { teams: r.0, ..g })
                    } else {
                        Ok(g)
                    },
                }
            }
        } else {
            Err(CliFault::Unknown(tok))
        }
    }
}

/// The configuration from what was gathered, or the first missing flag.
pub open spec fn assembled(g: Gathered) -> Result<ConfigView, CliFault> {
    if g.port.is_none() {
        Err(CliFault::MissingFlag("-p"@))
    } else if g.width.is_none() {
        Err(CliFault::MissingFlag("-x"@))
    } else if g.height.is_none() {
        Err(CliFault::MissingFlag("-y"@))
    } else if g.teams.len() == 0 {
        Err(CliFault::MissingFlag("-n"@))
    } else if g.clients.is_none() {
        Err(CliFault::MissingFlag("-c"@))
    } else {
        Ok(
            ConfigView {
                port: g.port.unwrap() as u16,
                width: g.width.unwrap(),
                height: g.height.unwrap(),
                teams: g.teams,
                clients_per_team: g.clients.unwrap(),
                t: match g.t {
                    Some(t) => t,
                    None => DEFAULT_T,
                },
            },
        )
    }
}

/// Outcome of parsing the command line `args` (without the program name).
pub open spec fn parse_outcome(args: Seq<Seq<char>>) -> Result<ConfigView, CliFault> {
    if args.len() == 0 {
        Err(CliFault::NoArgs)
    } else {
        match read_tokens(args, 0, nothing_gathered()) {
            Ok(g) => assembled(g),
            Err(e) => Err(e),
        }
    }
}

/// The parse result seen through views.
pub open spec fn outcome_of(r: Result<Config, CliError>) -> Result<ConfigView, CliFault> {
    match r {
        Ok(c) => Ok(c@),
        Err(e) => Err(e@),
    }
}

/// The characters of each argument.
pub open spec fn arg_views(args: Seq<String>) -> Seq<Seq<char>> {
    args.map_values(|s: String| s@)
}

/// A token is a flag if it starts with `-` and is not a lone `-`.
fn is_flag(tok: &str) -> (b: bool)
    ensures
        b == flag_like(tok@),
{
    let c = chars_of(tok);
    if c.len() == 0 {
        return false;
    }
    if c[0] != '-' {
        return false;
    }
    if c.len() == 1 {
        proof {
            reveal_strlit("-");
            assert(tok@ =~= "-"@);
        }
        return false;
    }
    proof {
        reveal_strlit("-");
    }
    true
}

/// Value of a decimal number written in `s`, or `None` past `max`.
fn read_unsigned(s: &str, max: u64) -> (r: Option<u64>)
    requires
        max >= 9,
    ensures
        match unsigned_value(s@, max as nat) {
            Some(n) => r == Some(n as u64),
            None => r.is_none(),
        },
{
    let c = chars_of(s);
    let start: usize = if c.len() > 0 && c[0] == '+' {
        1
    } else {
        0
    };
    let ghost d = if s@.len() > 0 && s@[0] == '+' {
        s@.skip(1)
    } else {
        s@
    };
    proof {
        assert(d =~= c@.skip(start as int));
    }
    if start >= c.len() {
        return None;
    }
    let mut value: u64 = 0;
    let mut i: usize = start;
    while i < c.len()
        invariant
            start <= i <= c@.len(),
            c@ == s@,
            d == c@.skip(start as int),
            d == (if s@.len() > 0 && s@[0] == '+' {
                s@.skip(1)
            } else {
                s@
            }),
            max >= 9,
            all_digits(c@.subrange(start as int, i as int)),
            value == digits_value(c@.subrange(start as int, i as int)),
            value <= max,
        decreases c@.len() - i,
    {
        let ch = c[i];
        if ch < '0' || ch > '9' {
            proof {
                assert(d[i - start] == ch);
                assert(!all_digits(d));
            }
            return None;
        }
        let digit: u64 = (ch as u32 - '0' as u32) as u64;
        assert(digit <= 9);
        proof {
            assert(c@.subrange(start as int, i + 1).drop_last() =~= c@.subrange(start as int, i as int));
        }
        if value > (max - digit) / 10 {
            proof {
                assert(d.subrange(0, i - start + 1) =~= c@.subrange(start as int, i + 1));
                assert(digits_value(c@.subrange(start as int, i + 1)) == value * 10 + digit);
                assert(value * 10 + digit > max) by (nonlinear_arith)
                    requires value > (max - digit) / 10, digit <= 9, max >= 9;
                assert(d.subrange(0, d.len() as int) =~= d);
                if all_digits(d) {
                    lemma_digits_prefix_grows(d, (i - start) as int, d.len() as int);
                    assert(digits_value(d) > max);
                }
            }
            return None;
        }
        value = value * 10 + digit;
        i = i + 1;
    }
    proof {
        assert(c@.subrange(start as int, i as int) =~= d);
    }
    Some(value)
}

proof fn lemma_digits_prefix_grows(d: Seq<char>, k: int, n: int)
    requires
        0 <= k < n <= d.len(),
        all_digits(d.subrange(0, n)),
    ensures
        digits_value(d.subrange(0, k + 1)) <= digits_value(d.subrange(0, n)),
    decreases n - k,
{
    if k + 1 < n {
        lemma_digits_prefix_grows(d, k, n - 1);
        assert(d.subrange(0, n).drop_last() =~= d.subrange(0, n - 1));
        assert(all_digits(d.subrange(0, n - 1)));
    } else {
    }
}

/// Where the team list after a `-n` at `start` fails, reading fails with it.
proof fn lemma_team_flag_error(a: Seq<Seq<char>>, start: int, g: Gathered)
    requires
        0 <= start < a.len(),
        a[start] == "-n"@,
        g.teams.len() == 0,
    ensures
        match team_names(a, start + 1, Seq::empty()) {
            Err(e) => read_tokens(a, start, g) == Err::<Gathered, CliFault>(e),
            Ok(_) => true,
        },
{
    reveal_strlit("-n");
    reveal_strlit("-p");
    reveal_strlit("-x");
    reveal_strlit("-y");
    reveal_strlit("-c");
    reveal_strlit("-t");
    assert("-n"@ != "-p"@ && "-n"@ != "-x"@ && "-n"@ != "-y"@ && "-n"@ != "-c"@ && "-n"@ != "-t"@) by {
        assert("-n"@[1] == 'n');
    }
}

/// A positive number for `flag`, or the invalid-value error.
fn parse_u32(flag: &str, value: &str) -> (r: Result<u32, CliError>)
    ensures
        outcome_u32(r) == positive_value(flag@, value@, u32::MAX as nat),
{
    match read_unsigned(value, u32::MAX as u64) {
        Some(n) => {
            if n > 0 {
                Ok(n as u32)
            } else {
                Err(CliError::InvalidValue { flag: to_owned_string(flag), value: to_owned_string(value) })
            }
        },
        None => Err(CliError::InvalidValue { flag: to_owned_string(flag), value: to_owned_string(value) }),
    }
}

/// A number result seen through views.
pub open spec fn outcome_u32(r: Result<u32, CliError>) -> Result<u32, CliFault> {
    match r {
        Ok(n) => Ok(n),
        Err(e) => Err(e@),
    }
}

/// Pull the value token following `flag` at position `i`, advancing `i` past it.
/// A following token that itself looks like a flag counts as missing.
fn take_value<'a>(args: &'a [String], i: &mut usize, flag: &str) -> (r: Result<&'a str, CliError>)
    requires
        *old(i) < args@.len(),
    ensures
        match value_after(arg_views(args@), *old(i) as int, flag@) {
            Ok(v) => r matches Ok(s) && s@ == v && *final(i) == *old(i) + 1,
            Err(e) => r matches Err(x) && x@ == e && *final(i) == *old(i),
        },
{
    if args.len() - *i > 1 {
        let v = args[*i + 1].as_str();
        if !is_flag(v) {
            *i = *i + 1;
            return Ok(v);
        }
    }
    Err(CliError::MissingValue(to_owned_string(flag)))
}

fn set_once(slot: &mut Option<u32>, flag: &str, value: u32) -> (r: Result<(), CliError>)
    ensures
        match *old(slot) {
            Some(_) => r matches Err(e) && e@ == CliFault::DuplicateFlag(flag@) && *final(slot) == *old(slot),
            None => r is Ok && *final(slot) == Some(value),
        },
{
    if slot.is_some() {
        return Err(CliError::DuplicateFlag(to_owned_string(flag)));
    }
    *slot = Some(value);
    Ok(())
}

/// Whether `teams` already holds `name`.
fn has_team(teams: &Vec<String>, name: &str) -> (b: bool)
    ensures
        b == teams@.map_values(|s: String| s@).contains(name@),
{
    let ghost tv = teams@.map_values(|s: String| s@);
    let mut k: usize = 0;
    while k < teams.len()
        invariant
            k <= teams@.len(),
            tv == teams@.map_values(|s: String| s@),
            forall|j: int| 0 <= j < k ==> tv[j] != name@,
        decreases teams@.len() - k,
    {
        if str_eq(teams[k].as_str(), name) {
            assert(tv[k as int] == name@);
            return true;
        }
        k = k + 1;
    }
    false
}

/// Parse validated [`Config`] from CLI tokens (already stripped of argv[0]).
///
/// # Errors
/// Returns a [`CliError`] describing the first problem encountered: an unknown
/// flag, a missing/invalid value, a missing required flag, or a bad team list.
pub fn parse(args: &[String]) -> (r: Result<Config, CliError>)
    ensures
        outcome_of(r) == parse_outcome(arg_views(args@)),
{
    let ghost a = arg_views(args@);
    if args.len() == 0 {
        return Err(CliError::NoArgs);
    }
    let mut port: Option<u32> = None;
    let mut width: Option<u32> = None;
    let mut height: Option<u32> = None;
    let mut clients: Option<u32> = None;
    let mut t: Option<u32> = None;
    let mut teams: Vec<String> = Vec::new();
    let mut i: usize = 0;
    proof {
        assert(teams@.map_values(|s: String| s@) =~= Seq::<Seq<char>>::empty());
    }
    while i < args.len()
        invariant
            a == arg_views(args@),
            i <= args@.len() + 1,
            read_tokens(a, 0, nothing_gathered()) == read_tokens(a, i as int, Gathered {
                port,
                width,
                height,
                clients,
                t,
                teams: teams@.map_values(|s: String| s@),
            }),
            port matches Some(n) ==> 0 < n <= 65535,
        decreases args@.len() + 1 - i,
    {
        let ghost g = Gathered { port, width, height, clients, t, teams: teams@.map_values(|s: String| s@) };
        let tok = args[i].as_str();
        assert(a[i as int] == tok@);
        if str_eq(tok, "-p") {
            let raw = match take_value(args, &mut i, "-p") {
                Ok(v) => v,
                Err(e) => {
                    return Err(e);
                },
            };
            let n = match read_unsigned(raw, 65535) {
                Some(n) => n,
                None => {
                    return Err(CliError::InvalidValue { flag: to_owned_string("-p"), value: to_owned_string(raw) });
                },
            };
            if n == 0 {
                return Err(CliError::InvalidValue { flag: to_owned_string("-p"), value: to_owned_string(raw) });
            }
            if port.is_some() {
                return Err(CliError::DuplicateFlag(to_owned_string("-p")));
            }
            port = Some(n as u32);
        } else if str_eq(tok, "-x") || str_eq(tok, "-y") || str_eq(tok, "-c") || str_eq(tok, "-t") {
            let raw = match take_value(args, &mut i, tok) {
                Ok(v) => v,
                Err(e) => {
                    return Err(e);
                },
            };
            let n = match parse_u32(tok, raw) {
                Ok(n) => n,
                Err(e) => {
                    return Err(e);
                },
            };
            let res = if str_eq(tok, "-x") {
                set_once(&mut width, tok, n)
            } else if str_eq(tok, "-y") {
                set_once(&mut height, tok, n)
            } else if str_eq(tok, "-c") {
                set_once(&mut clients, tok, n)
            } else {
                set_once(&mut t, tok, n)
            };
            match res {
                Ok(()) => {},
                Err(e) => {
                    return Err(e);
                },
            }
        } else if str_eq(tok, "-n") {
            if teams.len() > 0 {
                return Err(CliError::DuplicateFlag(to_owned_string("-n")));
            }
            // Consume every following non-flag token as a team name.
            let ghost start = i;
            proof {
                assert(teams@.map_values(|s: String| s@) =~= Seq::<Seq<char>>::empty());
            }
            while args.len() - i > 1 && !is_flag(args[i + 1].as_str())
                invariant
                    a == arg_views(args@),
                    start <= i < args.len(),
                    team_names(a, start + 1, Seq::empty()) == team_names(a, i + 1, teams@.map_values(|s: String| s@)),
                    read_tokens(a, 0, nothing_gathered()) == read_tokens(a, start as int, g),
                    g.teams.len() == 0,
                    a[start as int] == "-n"@,
                    g == (Gathered { port, width, height, clients, t, teams: g.teams }),
                decreases args@.len() - i,
            {
                let name = args[i + 1].as_str();
                assert(a[i + 1] == name@);
                if name.unicode_len() == 0 {
                    proof {
                        assert(name@ =~= Seq::<char>::empty());
                        lemma_team_flag_error(a, start as int, g);
                    }
                    return Err(CliError::InvalidValue { flag: to_owned_string("-n"), value: to_owned_string(name) });
                }
                if has_team(&teams, name) {
                    proof {
                        lemma_team_flag_error(a, start as int, g);
                    }
                    return Err(CliError::DuplicateTeam(to_owned_string(name)));
                }
                let ghost before = teams@.map_values(|s: String| s@);
                teams.push(to_owned_string(name));
                proof {
                    assert(teams@.map_values(|s: String| s@) =~= before.push(name@));
                }
                i = i + 1;
            }
            proof {
                if i + 1 < args@.len() {
                    assert(flag_like(a[i + 1]));
                }
            }
            if teams.len() == 0 {
                return Err(CliError::NoTeams);
            }
            proof {
                assert(g.teams.len() == 0);
            }
        } else {
            return Err(CliError::Unknown(to_owned_string(tok)));
        }
        i = i + 1;
    }
    let g_port = match port {
        Some(p) => p,
        None => {
            return Err(CliError::MissingFlag("-p"));
        },
    };
    let g_width = match width {
        Some(w) => w,
        None => {
            return Err(CliError::MissingFlag("-x"));
        },
    };
    let g_height = match height {
        Some(h) => h,
        None => {
            return Err(CliError::MissingFlag("-y"));
        },
    };
    if teams.len() == 0 {
        return Err(CliError::MissingFlag("-n"));
    }
    let g_clients = match clients {
        Some(c) => c,
        None => {
            return Err(CliError::MissingFlag("-c"));
        },
    };
    let g_t = match t {
        Some(v) => v,
        None => DEFAULT_T,
    };
    Ok(Config {
        port: g_port as u16,
        width: g_width,
        height: g_height,
        teams,
        clients_per_team: g_clients,
        t: g_t,
    })
}

/// What a gathering keeps: numbers in range, team names non-empty and distinct.
pub open spec fn gathered_ok(g: Gathered) -> bool {
    &&& (g.port matches Some(n) ==> 0 < n <= 65535)
    &&& (g.width matches Some(n) ==> n > 0)
    &&& (g.height matches Some(n) ==> n > 0)
    &&& (g.clients matches Some(n) ==> n > 0)
    &&& (g.t matches Some(n) ==> n > 0)
    &&& g.teams.no_duplicates()
    &&& forall|k: int| 0 <= k < g.teams.len() ==> (#[trigger] g.teams[k]).len() > 0
}

/// A team list read from `j` on extends `teams` with non-empty names, each once.
proof fn lemma_team_names_ok(args: Seq<Seq<char>>, j: int, teams: Seq<Seq<char>>)
    requires
        teams.no_duplicates(),
        forall|k: int| 0 <= k < teams.len() ==> (#[trigger] teams[k]).len() > 0,
    ensures
        team_names(args, j, teams) matches Ok(r) ==> {
            &&& r.0.len() > 0
            &&& r.0.no_duplicates()
            &&& forall|k: int| 0 <= k < r.0.len() ==> (#[trigger] r.0[k]).len() > 0
            &&& j <= r.1
        },
    decreases args.len() - j,
{
    if 0 <= j < args.len() && !flag_like(args[j]) {
        let name = args[j];
        if name.len() != 0 && !teams.contains(name) {
            let t2 = teams.push(name);
            assert forall|a: int, b: int| 0 <= a < t2.len() && 0 <= b < t2.len() && a != b implies t2[a] != t2[b] by {
                if a == teams.len() {
                    assert(teams.contains(t2[b]));
                } else if b == teams.len() {
                    assert(teams.contains(t2[a]));
                }
            }
            lemma_team_names_ok(args, j + 1, t2);
        }
    }
}

/// Reading tokens keeps what a gathering keeps.
proof fn lemma_read_tokens_ok(args: Seq<Seq<char>>, i: int, g: Gathered)
    requires
        gathered_ok(g),
    ensures
        read_tokens(args, i, g) matches Ok(g2) ==> gathered_ok(g2),
    decreases args.len() - i,
{
    if 0 <= i < args.len() {
        let tok = args[i];
        if tok == "-p"@ {
            if let Ok(v) = value_after(args, i, "-p"@) {
                if let Some(n) = unsigned_value(v, 65535) {
                    if n != 0 && g.port.is_none() {
                        lemma_read_tokens_ok(args, i + 2, Gathered { port: Some(n as u32), ..g });
                    }
                }
            }
        } else if tok == "-x"@ || tok == "-y"@ || tok == "-c"@ || tok == "-t"@ {
            if let Ok(v) = value_after(args, i, tok) {
                if let Ok(n) = positive_value(tok, v, u32::MAX as nat) {
                    if numeric_slot(g, tok).is_none() {
                        lemma_read_tokens_ok(args, i + 2, with_slot(g, tok, n));
                    }
                }
            }
        } else if tok == "-n"@ {
            if g.teams.len() == 0 {
                lemma_team_names_ok(args, i + 1, Seq::empty());
                if let Ok(r) = team_names(args, i + 1, Seq::empty()) {
                    if i < r.1 <= args.len() {
                        lemma_read_tokens_ok(args, r.1, Gathered { teams: r.0, ..g });
                    }
                }
            }
        }
    }
}

/// Every configuration that parsing accepts is valid: the port lies in
/// `1..=65535`, width, height, clients per team and `t` are positive, and
/// there is at least one team, each name non-empty and given once.
pub proof fn law_parsed_config_valid(args: Seq<Seq<char>>)
    ensures
        parse_outcome(args) matches Ok(c) ==> {
            &&& c.port > 0
            &&& c.width > 0
            &&& c.height > 0
            &&& c.clients_per_team > 0
            &&& c.t > 0
            &&& c.teams.len() > 0
            &&& c.teams.no_duplicates()
            &&& forall|k: int| 0 <= k < c.teams.len() ==> (#[trigger] c.teams[k]).len() > 0
        },
{
    lemma_read_tokens_ok(args, 0, nothing_gathered());
}

} // verus!
