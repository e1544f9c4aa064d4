//! Command-line options of the shell and of the web server, read with
//! `getopts`.
use vstd::prelude::*;
use vstd::string::StringSliceAdditionalSpecFns;

use crate::gash::opt_view;
use crate::http::{IP, PORT, WWW_DIR};
use crate::text::{parse_usize, parse_usize_spec, trim, trim_str, views};

verus! {

/// Why `getopts` rejected a command line, with the option concerned.
pub enum GetoptsFail {
    ArgumentMissing(String),
    UnrecognizedOption(String),
    OptionMissing(String),
    OptionDuplicated(String),
    UnexpectedArgument(String),
}

/// The meaning of a [`GetoptsFail`].
pub enum GetoptsFailView {
    ArgumentMissing(Seq<char>),
    UnrecognizedOption(Seq<char>),
    OptionMissing(Seq<char>),
    OptionDuplicated(Seq<char>),
    UnexpectedArgument(Seq<char>),
}

impl View for GetoptsFail {
    type V = GetoptsFailView;

    open spec fn view(&self) -> GetoptsFailView {
        match self {
            GetoptsFail::ArgumentMissing(n) => GetoptsFailView::ArgumentMissing(n@),
            GetoptsFail::UnrecognizedOption(n) => GetoptsFailView::UnrecognizedOption(n@),
            GetoptsFail::OptionMissing(n) => GetoptsFailView::OptionMissing(n@),
            GetoptsFail::OptionDuplicated(n) => GetoptsFailView::OptionDuplicated(n@),
            GetoptsFail::UnexpectedArgument(n) => GetoptsFailView::UnexpectedArgument(n@),
        }
    }
}

/// The option declarations of `getopts` (`getopts::Options`), opaque here.
#[verifier::external_type_specification]
#[verifier::external_body]
pub struct ExOptions(getopts::Options);

/// The result of a `getopts` parse (`getopts::Matches`), opaque here.
#[verifier::external_type_specification]
#[verifier::external_body]
pub struct ExMatches(getopts::Matches);

/// A `getopts` parse failure (`getopts::Fail`), opaque here.
#[verifier::external_type_specification]
#[verifier::external_body]
pub struct ExFail(getopts::Fail);

/// The options declared in a `getopts::Options`, in order: short name,
/// long name, and whether the option takes an argument.
pub uninterp spec fn option_decls(o: getopts::Options) -> Seq<(Seq<char>, Seq<char>, bool)>;

/// What a `getopts::Matches` holds: for each name it can be asked about,
/// the occurrences of that option, in order, each with its argument
/// (`None` for an occurrence without one).
pub uninterp spec fn matches_values(m: getopts::Matches) -> Map<Seq<char>, Seq<Option<Seq<char>>>>;

/// What `Options::parse` makes of `args` under the options `decls`: the
/// values of each option, or why it fails.
pub uninterp spec fn getopts_values(
    decls: Seq<(Seq<char>, Seq<char>, bool)>,
    args: Seq<Seq<char>>,
) -> Result<Map<Seq<char>, Seq<Option<Seq<char>>>>, GetoptsFailView>;

/// Whether an option occurred, given its occurrences.
pub open spec fn occurred(vals: Seq<Option<Seq<char>>>) -> bool {
    vals.len() > 0
}

/// The argument of the first occurrence of an option, if it has one.
pub open spec fn first_value(vals: Seq<Option<Seq<char>>>) -> Option<Seq<char>> {
    if vals.len() > 0 {
        vals[0]
    } else {
        None
    }
}

/// The names by which declared options can be asked about: their non-empty
/// short and long names.
pub open spec fn declared_names(d: Seq<(Seq<char>, Seq<char>, bool)>) -> Set<Seq<char>> {
    Set::new(
        |n: Seq<char>|
            n.len() > 0 && exists|i: int| 0 <= i < d.len() && (d[i].0 == n || d[i].1 == n),
    )
}

/// `Options::new`: no option is declared yet.
#[verifier::external_body]
fn options_new() -> (o: getopts::Options)
    ensures
        option_decls(o) == Seq::<(Seq<char>, Seq<char>, bool)>::empty(),
{
    getopts::Options::new()
}

/// `Options::optopt`: declares an optional option that takes an argument.
/// Its source asserts that the short name is at most one byte long and the
/// long name is not exactly one byte long.
#[verifier::external_body]
fn options_optopt(o: &mut getopts::Options, short_name: &str, long_name: &str, desc: &str, hint: &str)
    requires
        short_name.spec_bytes().len() <= 1,
        long_name.spec_bytes().len() != 1,
    ensures
        option_decls(*final(o)) == option_decls(*old(o)).push((short_name@, long_name@, true)),
{
    o.optopt(short_name, long_name, desc, hint);
}

/// `Options::optflag`: declares an optional option without argument, with
/// the same checks on the names as `optopt`.
#[verifier::external_body]
fn options_optflag(o: &mut getopts::Options, short_name: &str, long_name: &str, desc: &str)
    requires
        short_name.spec_bytes().len() <= 1,
        long_name.spec_bytes().len() != 1,
    ensures
        option_decls(*final(o)) == option_decls(*old(o)).push((short_name@, long_name@, false)),
{
    o.optflag(short_name, long_name, desc);
}

/// `Options::parse`: matches `args` against the declared options (all of
/// them optional, as `optopt` and `optflag` declare them). It panics on an
/// option with neither name, which `requires` leaves out. Its result is
/// named: a failure is the one `getopts_values` gives, each variant of
/// `getopts::Fail` carried over with its option name; a success holds the
/// values that `getopts_values` gives, which can be asked about by exactly
/// the declared names.
#[verifier::external_body]
fn options_parse(o: &getopts::Options, args: &Vec<String>) -> (r: Result<getopts::Matches, GetoptsFail>)
    requires
        forall|i: int|
            0 <= i < option_decls(*o).len() ==> (#[trigger] option_decls(*o)[i]).0.len() > 0
                || option_decls(*o)[i].1.len() > 0,
    ensures
        r matches Err(f) ==> getopts_values(option_decls(*o), views(args@)) matches Err(g)
            && g == f@,
        r matches Ok(m) ==> getopts_values(option_decls(*o), views(args@)) matches Ok(v) && v
            == matches_values(m) && matches_values(m).dom() == declared_names(option_decls(*o)),
{
    match o.parse(args) {
        Ok(m) => Ok(m),
        Err(getopts::Fail::ArgumentMissing(n)) => Err(GetoptsFail::ArgumentMissing(n)),
        Err(getopts::Fail::UnrecognizedOption(n)) => Err(GetoptsFail::UnrecognizedOption(n)),
        Err(getopts::Fail::OptionMissing(n)) => Err(GetoptsFail::OptionMissing(n)),
        Err(getopts::Fail::OptionDuplicated(n)) => Err(GetoptsFail::OptionDuplicated(n)),
        Err(getopts::Fail::UnexpectedArgument(n)) => Err(GetoptsFail::UnexpectedArgument(n)),
    }
}

/// `Matches::opt_present`: whether the option occurred. It panics on a name
/// that was not declared, which `requires` leaves out.
#[verifier::external_body]
fn matches_opt_present(m: &getopts::Matches, name: &str) -> (b: bool)
    requires
        matches_values(*m).dom().contains(name@),
    ensures
        b == occurred(matches_values(*m)[name@]),
{
    m.opt_present(name)
}

/// `Matches::opt_str`: the argument of the option's first occurrence, if
/// any. It panics on a name that was not declared, which `requires` leaves
/// out.
#[verifier::external_body]
fn matches_opt_str(m: &getopts::Matches, name: &str) -> (r: Option<String>)
    requires
        matches_values(*m).dom().contains(name@),
    ensures
        opt_view(r) == first_value(matches_values(*m)[name@]),
{
    m.opt_str(name)
}

impl GetoptsFail {
    /// The message of the failure, as `getopts` words it.
    pub fn message(&self) -> (m: String)
        ensures
            m@ == match self {
                GetoptsFail::ArgumentMissing(n) => "Argument to option '"@ + n@ + "' missing"@,
                GetoptsFail::UnrecognizedOption(n) => "Unrecognized option: '"@ + n@ + "'"@,
                GetoptsFail::OptionMissing(n) => "Required option '"@ + n@ + "' missing"@,
                GetoptsFail::OptionDuplicated(n) => "Option '"@ + n@ + "' given more than once"@,
                GetoptsFail::UnexpectedArgument(n) => "Option '"@ + n@
                    + "' does not take an argument"@,
            },
    {
        let (pre, n, post) = match self {
            GetoptsFail::ArgumentMissing(n) => ("Argument to option '", n, "' missing"),
            GetoptsFail::UnrecognizedOption(n) => ("Unrecognized option: '", n, "'"),
            GetoptsFail::OptionMissing(n) => ("Required option '", n, "' missing"),
            GetoptsFail::OptionDuplicated(n) => ("Option '", n, "' given more than once"),
            GetoptsFail::UnexpectedArgument(n) => ("Option '", n, "' does not take an argument"),
        };
        let mut m = pre.to_owned();
        m.append(n.as_str());
        m.append(post);
        m
    }
}

/// The options of the shell: `-c` with an argument.
pub open spec fn shell_options() -> Seq<(Seq<char>, Seq<char>, bool)> {
    seq![(seq!['c'], Seq::empty(), true)]
}

/// The shell's options, declared.
fn shell_opts() -> (o: getopts::Options)
    ensures
        option_decls(o) == shell_options(),
{
    let mut opts = options_new();
    proof {
        reveal_strlit("c");
        reveal_strlit("");
        broadcast use vstd::string::group_string_axioms;
    }
    assert("c".spec_bytes().len() == 1) by {
        vstd::string::is_ascii_spec_bytes("c");
    }
    options_optopt(&mut opts, "c", "", "", "");
    assert(option_decls(opts) =~= shell_options()) by {
        assert("c"@ =~= seq!['c']);
        assert(""@ =~= Seq::<char>::empty());
    }
    opts
}

/// The command that the shell's command line gives with `-c`, if any. The
/// command line must be one that `getopts` accepts.
pub fn get_cmdline_from_args(args: &Vec<String>) -> (r: Option<String>)
    requires
        getopts_values(shell_options(), views(args@)) is Ok,
    ensures
        opt_view(r) == first_value(getopts_values(shell_options(), views(args@))->Ok_0[seq!['c']]),
{
    let opts = shell_opts();
    match options_parse(&opts, args) {
        Err(_) => {
            assert(false);
            None
        },
        Ok(m) => {
            proof {
                reveal_strlit("c");
                assert("c"@ =~= seq!['c']);
            }
            assert(declared_names(option_decls(opts)).contains("c"@)) by {
                assert(option_decls(opts)[0].0 == "c"@);
            }
            matches_opt_str(&m, "c")
        },
    }
}

/// What the shell's command line asks for: the command given with `-c`, if
/// any, or why `getopts` rejects the command line.
pub fn parse_shell_args(args: &Vec<String>) -> (r: Result<Option<String>, GetoptsFail>)
    ensures
        r matches Err(f) ==> getopts_values(shell_options(), views(args@)) matches Err(g) && g
            == f@,
        r is Ok <==> getopts_values(shell_options(), views(args@)) is Ok,
        r matches Ok(c) ==> opt_view(c) == first_value(
            getopts_values(shell_options(), views(args@))->Ok_0[seq!['c']],
        ),
{
    let opts = shell_opts();
    match options_parse(&opts, args) {
        Err(f) => Err(f),
        Ok(_) => Ok(get_cmdline_from_args(args)),
    }
}

/// The settings of the web server.
pub struct ServerArgs {
    pub ip: String,
    pub port: usize,
    pub www_dir: String,
}

/// The view of optional settings (`None` asks for the usage).
pub open spec fn settings_view(o: Option<ServerArgs>) -> Option<(Seq<char>, usize, Seq<char>)> {
    match o {
        Some(a) => Some((a.ip@, a.port, a.www_dir@)),
        None => None,
    }
}

/// What the web server's command line asks for.
pub enum ArgsOutcome {
    /// Print the usage and stop.
    Help,
    /// Serve with these settings.
    Serve(ServerArgs),
    /// The port is not a number (which is fatal).
    BadPort,
    /// `getopts` rejects the command line (which is fatal).
    Invalid(GetoptsFail),
}

/// The meaning of an outcome other than `Invalid`: `Ok(None)` for help,
/// `Ok(Some(..))` for settings, `Err(())` for a bad port.
pub open spec fn outcome_view(o: ArgsOutcome) -> Result<Option<(Seq<char>, usize, Seq<char>)>, ()> {
    match o {
        ArgsOutcome::Help => Ok(None),
        ArgsOutcome::Serve(a) => Ok(Some((a.ip@, a.port, a.www_dir@))),
        _ => Err(()),
    }
}

/// The settings for the given options: help wins; otherwise each setting
/// is the option given or its default, and a port must be a number once
/// trimmed.
pub open spec fn server_config_spec(
    help: bool,
    ip: Option<Seq<char>>,
    port: Option<Seq<char>>,
    www: Option<Seq<char>>,
) -> Result<Option<(Seq<char>, usize, Seq<char>)>, ()> {
    if help {
        Ok(None)
    } else {
        let p = match port {
            Some(s) => parse_usize_spec(trim(s)),
            None => Some(PORT),
        };
        match p {
            None => Err(()),
            Some(p) => Ok(
                Some(
                    (
                        match ip {
                            Some(i) => i,
                            None => IP@,
                        },
                        p,
                        match www {
                            Some(w) => w,
                            None => WWW_DIR@,
                        },
                    ),
                ),
            ),
        }
    }
}

/// The port option is usable: help is asked for, or the port is absent or
/// a number once trimmed.
pub open spec fn port_ok(help: bool, port: Option<Seq<char>>) -> bool {
    help || match port {
        Some(s) => parse_usize_spec(trim(s)) is Some,
        None => true,
    }
}

/// The web server's settings from the values of its options (`None` when
/// help is asked for). The port must be usable.
pub fn server_config(help: bool, ip: Option<String>, port: Option<String>, www: Option<String>) -> (r: Option<ServerArgs>)
    requires
        port_ok(help, opt_view(port)),
    ensures
        Ok::<_, ()>(settings_view(r)) == server_config_spec(
            help,
            opt_view(ip),
            opt_view(port),
            opt_view(www),
        ),
{
    if help {
        return None;
    }
    let ip_str = match ip {
        Some(i) => i,
        None => IP.to_owned(),
    };
    let port_num = match port {
        Some(p) => {
            let t = trim_str(p.as_str());
            match parse_usize(t.as_str()) {
                Some(n) => n,
                None => {
                    assert(false);
                    0
                },
            }
        },
        None => PORT,
    };
    let www_str = match www {
        Some(w) => w,
        None => WWW_DIR.to_owned(),
    };
    Some(ServerArgs { ip: ip_str, port: port_num, www_dir: www_str })
}

/// The options of the web server: `--ip`, `--port` and `--www` with an
/// argument, and `-h`/`--help`.
pub open spec fn server_options() -> Seq<(Seq<char>, Seq<char>, bool)> {
    seq![
        (Seq::empty(), seq!['i', 'p'], true),
        (Seq::empty(), seq!['p', 'o', 'r', 't'], true),
        (Seq::empty(), seq!['w', 'w', 'w'], true),
        (seq!['h'], seq!['h', 'e', 'l', 'p'], false),
    ]
}

/// Whether help is asked for, given the values of the server's options.
pub open spec fn help_asked(v: Map<Seq<char>, Seq<Option<Seq<char>>>>) -> bool {
    occurred(v[seq!['h']]) || occurred(v[seq!['h', 'e', 'l', 'p']])
}

/// The settings for the values of the server's options.
pub open spec fn settings_of(v: Map<Seq<char>, Seq<Option<Seq<char>>>>) -> Result<
    Option<(Seq<char>, usize, Seq<char>)>,
    (),
> {
    server_config_spec(
        help_asked(v),
        first_value(v[seq!['i', 'p']]),
        first_value(v[seq!['p', 'o', 'r', 't']]),
        first_value(v[seq!['w', 'w', 'w']]),
    )
}

/// A command line that the web server can start with: `getopts` accepts it
/// and its port is usable.
pub open spec fn server_args_ok(args: Seq<Seq<char>>) -> bool {
    match getopts_values(server_options(), args) {
        Ok(v) => port_ok(help_asked(v), first_value(v[seq!['p', 'o', 'r', 't']])),
        Err(_) => false,
    }
}

/// The server's options, declared.
fn server_opts() -> (o: getopts::Options)
    ensures
        option_decls(o) == server_options(),
{
    let mut opts = options_new();
    proof {
        broadcast use vstd::string::group_string_axioms;
        reveal_strlit("");
        reveal_strlit("h");
        reveal_strlit("ip");
        reveal_strlit("port");
        reveal_strlit("www");
        reveal_strlit("help");
    }
    assert("".spec_bytes().len() == 0) by {
        vstd::string::is_ascii_spec_bytes("");
    }
    assert("h".spec_bytes().len() == 1) by {
        vstd::string::is_ascii_spec_bytes("h");
    }
    assert("ip".spec_bytes().len() == 2) by {
        vstd::string::is_ascii_spec_bytes("ip");
    }
    assert("port".spec_bytes().len() == 4) by {
        vstd::string::is_ascii_spec_bytes("port");
    }
    assert("www".spec_bytes().len() == 3) by {
        vstd::string::is_ascii_spec_bytes("www");
    }
    assert("help".spec_bytes().len() == 4) by {
        vstd::string::is_ascii_spec_bytes("help");
    }
    options_optopt(&mut opts, "", "ip", "The IP address to bind to", "IP");
    options_optopt(&mut opts, "", "port", "The Port to bind to", "PORT");
    options_optopt(&mut opts, "", "www", "The www directory", "WWW_DIR");
    options_optflag(&mut opts, "h", "help", "Display help");
    assert(option_decls(opts) =~= server_options()) by {
        assert(""@ =~= Seq::<char>::empty());
        assert("h"@ =~= seq!['h']);
        assert("ip"@ =~= seq!['i', 'p']);
        assert("port"@ =~= seq!['p', 'o', 'r', 't']);
        assert("www"@ =~= seq!['w', 'w', 'w']);
        assert("help"@ =~= seq!['h', 'e', 'l', 'p']);
    }
    opts
}

/// The values of help, ip, port and www in what `getopts` accepted.
fn server_values(m: &getopts::Matches) -> (r: (bool, Option<String>, Option<String>, Option<String>))
    requires
        matches_values(*m).dom() == declared_names(server_options()),
    ensures
        r.0 == help_asked(matches_values(*m)),
        opt_view(r.1) == first_value(matches_values(*m)[seq!['i', 'p']]),
        opt_view(r.2) == first_value(matches_values(*m)[seq!['p', 'o', 'r', 't']]),
        opt_view(r.3) == first_value(matches_values(*m)[seq!['w', 'w', 'w']]),
{
    proof {
        reveal_strlit("h");
        reveal_strlit("ip");
        reveal_strlit("port");
        reveal_strlit("www");
        reveal_strlit("help");
        assert("h"@ =~= seq!['h']);
        assert("ip"@ =~= seq!['i', 'p']);
        assert("port"@ =~= seq!['p', 'o', 'r', 't']);
        assert("www"@ =~= seq!['w', 'w', 'w']);
        assert("help"@ =~= seq!['h', 'e', 'l', 'p']);
        let d = server_options();
        assert(declared_names(d).contains("ip"@)) by {
            assert(d[0].1 == "ip"@);
        }
        assert(declared_names(d).contains("port"@)) by {
            assert(d[1].1 == "port"@);
        }
        assert(declared_names(d).contains("www"@)) by {
            assert(d[2].1 == "www"@);
        }
        assert(declared_names(d).contains("h"@)) by {
            assert(d[3].0 == "h"@);
        }
        assert(declared_names(d).contains("help"@)) by {
            assert(d[3].1 == "help"@);
        }
    }
    let help = matches_opt_present(m, "h") || matches_opt_present(m, "help");
    let ip = matches_opt_str(m, "ip");
    let port = matches_opt_str(m, "port");
    let www = matches_opt_str(m, "www");
    (help, ip, port, www)
}

/// The web server's settings from its command line (without the program
/// name), `None` when help is asked for. The command line must be one the
/// server can start with.
pub fn get_args(args: &Vec<String>) -> (r: Option<ServerArgs>)
    requires
        server_args_ok(views(args@)),
    ensures
        Ok::<_, ()>(settings_view(r)) == settings_of(
            getopts_values(server_options(), views(args@))->Ok_0,
        ),
{
    let opts = server_opts();
    match options_parse(&opts, args) {
        Err(_) => {
            assert(false);
            None
        },
        Ok(m) => {
            let (help, ip, port, www) = server_values(&m);
            server_config(help, ip, port, www)
        },
    }
}

/// What the web server's command line (without the program name) asks
/// for: why `getopts` rejects it, a port that is not a number, help, or the
/// settings.
pub fn parse_server_args(args: &Vec<String>) -> (r: ArgsOutcome)
    ensures
        r is Invalid <==> getopts_values(server_options(), views(args@)) is Err,
        r matches ArgsOutcome::Invalid(f) ==> getopts_values(server_options(), views(args@))
            matches Err(g) && g == f@,
        getopts_values(server_options(), views(args@)) matches Ok(v) ==> outcome_view(r)
            == settings_of(v),
{
    let opts = server_opts();
    match options_parse(&opts, args) {
        Err(f) => ArgsOutcome::Invalid(f),
        Ok(m) => {
            let (help, _ip, port, _www) = server_values(&m);
            let ok = help || match &port {
                Some(p) => {
                    let t = trim_str(p.as_str());
                    parse_usize(t.as_str()).is_some()
                },
                None => true,
            };
            if !ok {
                return ArgsOutcome::BadPort;
            }
            match get_args(args) {
                None => ArgsOutcome::Help,
                Some(a) => ArgsOutcome::Serve(a),
            }
        },
    }
}

} // verus!
