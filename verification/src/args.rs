//! Launch options: command-line flags, and the config that they stand for.

use vstd::prelude::*;

use crate::text::{join, parse_u64, same, split_commas, to_decimal, to_forward_slashes};

verus! {

use crate::text::{comma_parts, decimal, forward_slashes, parsed_u64, texts};

/// What the command line asks for.
#[derive(Debug)]
pub struct LaunchArgs {
    pub config_path: Option<String>,
    pub node_id: Option<u64>,
    pub listen: Option<String>,
    /// A host:port string (may be a hostname).
    pub advertise: Option<String>,
    pub data_dir: Option<String>,
    pub bootstrap: bool,
    /// Seed-only: peers to admit after bootstrap, each `id@host:port`.
    pub join_targets: Vec<String>,
}

/// What a command line says.
#[verifier::ext_equal]
pub struct ArgsView {
    pub config_path: Option<Seq<char>>,
    pub node_id: Option<u64>,
    pub listen: Option<Seq<char>>,
    pub advertise: Option<Seq<char>>,
    pub data_dir: Option<Seq<char>>,
    pub bootstrap: bool,
    pub join_targets: Seq<Seq<char>>,
}

/// The text of an optional string.
pub open spec fn opt_text(s: Option<String>) -> Option<Seq<char>> {
    match s {
        Some(t) => Some(t@),
        None => None,
    }
}

impl View for LaunchArgs {
    type V = ArgsView;

    open spec fn view(&self) -> ArgsView {
        ArgsView {
            config_path: opt_text(self.config_path),
            node_id: self.node_id,
            listen: opt_text(self.listen),
            advertise: opt_text(self.advertise),
            data_dir: opt_text(self.data_dir),
            bootstrap: self.bootstrap,
            join_targets: texts(self.join_targets@),
        }
    }
}

/// A command line with no flags.
pub open spec fn no_args() -> ArgsView {
    ArgsView {
        config_path: None,
        node_id: None,
        listen: None,
        advertise: None,
        data_dir: None,
        bootstrap: false,
        join_targets: Seq::empty(),
    }
}

/// Why a command line is not followed.
#[derive(Debug, PartialEq, Eq)]
pub enum ArgsError {
    /// The flag stands last and requires a value.
    MissingValue(String),
    /// The node id is not a number.
    BadNodeId(String),
    /// The listen address is not a socket address.
    BadListen(String),
    /// The argument is not known.
    Unknown(String),
    /// The usage is asked for.
    Help,
}

/// What an error says.
pub enum ArgsErrorView {
    MissingValue(Seq<char>),
    BadNodeId(Seq<char>),
    BadListen(Seq<char>),
    Unknown(Seq<char>),
    Help,
}

impl View for ArgsError {
    type V = ArgsErrorView;

    open spec fn view(&self) -> ArgsErrorView {
        match *self {
            ArgsError::MissingValue(s) => ArgsErrorView::MissingValue(s@),
            ArgsError::BadNodeId(s) => ArgsErrorView::BadNodeId(s@),
            ArgsError::BadListen(s) => ArgsErrorView::BadListen(s@),
            ArgsError::Unknown(s) => ArgsErrorView::Unknown(s@),
            ArgsError::Help => ArgsErrorView::Help,
        }
    }
}

/// `flag` is one that takes a value.
pub open spec fn takes_value(flag: Seq<char>) -> bool {
    flag == "--config"@ || flag == "--node-id"@ || flag == "--listen"@ || flag == "--advertise"@
        || flag == "--data-dir"@ || flag == "--join"@
}

/// The command line `a` once `flag` was given the value `value`, which is the socket
/// address `addr` if it is one.
pub open spec fn with_value(a: ArgsView, flag: Seq<char>, value: Seq<char>, addr: Option<Seq<char>>) -> Result<
    ArgsView,
    ArgsErrorView,
> {
    if flag == "--config"@ {
        Ok(ArgsView { config_path: Some(value), ..a })
    } else if flag == "--node-id"@ {
        match parsed_u64(value) {
            Some(n) => Ok(ArgsView { node_id: Some(n), ..a }),
            None => Err(ArgsErrorView::BadNodeId(value)),
        }
    } else if flag == "--listen"@ {
        match addr {
            Some(shown) => Ok(ArgsView { listen: Some(shown), ..a }),
            None => Err(ArgsErrorView::BadListen(value)),
        }
    } else if flag == "--advertise"@ {
        Ok(ArgsView { advertise: Some(value), ..a })
    } else if flag == "--data-dir"@ {
        Ok(ArgsView { data_dir: Some(value), ..a })
    } else {
        Ok(ArgsView { join_targets: a.join_targets + comma_parts(value), ..a })
    }
}

/// What the arguments from place `i` on say, after those before it said `a`. `addrs`
/// holds, for each argument that is a socket address, that address as it is shown.
pub open spec fn parsed_args(
    a: ArgsView,
    args: Seq<Seq<char>>,
    addrs: Seq<Option<Seq<char>>>,
    i: int,
) -> Result<ArgsView, ArgsErrorView>
    decreases args.len() - i,
{
    if i < 0 || i >= args.len() {
        Ok(a)
    } else {
        let flag = args[i];
        if takes_value(flag) {
            if i + 1 >= args.len() {
                Err(ArgsErrorView::MissingValue(flag))
            } else {
                match with_value(a, flag, args[i + 1], addrs[i + 1]) {
                    Ok(b) => parsed_args(b, args, addrs, i + 2),
                    Err(e) => Err(e),
                }
            }
        } else if flag == "--bootstrap"@ {
            parsed_args((ArgsView { bootstrap: true, ..a }), args, addrs, i + 1)
        } else if flag == "--help"@ || flag == "-h"@ {
            Err(ArgsErrorView::Help)
        } else {
            Err(ArgsErrorView::Unknown(flag))
        }
    }
}

/// What a run of optional strings says.
pub open spec fn opt_texts(v: Seq<Option<String>>) -> Seq<Option<Seq<char>>> {
    v.map_values(|t: Option<String>| opt_text(t))
}

/// The value after the flag at place `i`.
pub fn next_val<'a>(args: &'a Vec<String>, i: usize) -> (r: Result<&'a str, ArgsError>)
    requires
        i < args@.len(),
    ensures
        match r {
            Ok(v) => i + 1 < args@.len() && v@ == args@[i + 1]@,
            Err(e) => i + 1 >= args@.len() && e@ == ArgsErrorView::MissingValue(args@[i as int]@),
        },
{
    let n: usize = args.len();
    if i < n - 1 {
        Ok(args[i + 1].as_str())
    } else {
        Err(ArgsError::MissingValue(args[i].clone()))
    }
}

/// Parse `--config <path>` or inline flags, plus `--bootstrap` and `--join`
/// (repeatable / comma-separated `id@host:port` targets).
///
/// `addrs[i]` is argument `i` as a socket address is shown, where it is one.
pub fn parse_args(args: &Vec<String>, addrs: &Vec<Option<String>>) -> (r: Result<
    LaunchArgs,
    ArgsError,
>)
    requires
        addrs@.len() == args@.len(),
    ensures
        match r {
            Ok(a) => parsed_args(no_args(), texts(args@), opt_texts(addrs@), 0) == Ok::<
                ArgsView,
                ArgsErrorView,
            >(a@),
            Err(e) => parsed_args(no_args(), texts(args@), opt_texts(addrs@), 0) == Err::<
                ArgsView,
                ArgsErrorView,
            >(e@),
        },
{
    let ghost ts = texts(args@);
    let ghost os = opt_texts(addrs@);
    let ghost whole = parsed_args(no_args(), ts, os, 0);
    let mut out = LaunchArgs {
        config_path: None,
        node_id: None,
        listen: None,
        advertise: None,
        data_dir: None,
        bootstrap: false,
        join_targets: Vec::new(),
    };
    assert(out@ =~= no_args());
    let n: usize = args.len();
    let mut i: usize = 0;
    while i < n
        invariant
            n == args@.len(),
            addrs@.len() == n,
            ts == texts(args@),
            os == opt_texts(addrs@),
            i <= n,
            whole == parsed_args(no_args(), ts, os, 0),
            whole == parsed_args(out@, ts, os, i as int),
        decreases n - i,
    {
        let flag: &str = args[i].as_str();
        let ghost before = out@;
        assert(ts[i as int] == flag@);
        if same(flag, "--config") || same(flag, "--node-id") || same(flag, "--listen") || same(
            flag,
            "--advertise",
        ) || same(flag, "--data-dir") || same(flag, "--join") {
            let value: &str = match next_val(args, i) {
                Ok(v) => v,
                Err(e) => return Err(e),
            };
            assert(ts[i + 1] == value@);
            assert(os[i + 1] == opt_text(addrs@[i + 1]));
            if same(flag, "--config") {
                out.config_path = Some(value.to_owned());
                assert(out@ =~= (ArgsView { config_path: Some(value@), ..before }));
            } else if same(flag, "--node-id") {
                match parse_u64(value) {
                    Some(id) => {
                        out.node_id = Some(id);
                        assert(out@ =~= (ArgsView { node_id: Some(id), ..before }));
                    },
                    None => return Err(ArgsError::BadNodeId(value.to_owned())),
                }
            } else if same(flag, "--listen") {
                match &addrs[i + 1] {
                    Some(shown) => {
                        out.listen = Some(shown.clone());
                        assert(out@ =~= (ArgsView { listen: Some(shown@), ..before }));
                    },
                    None => return Err(ArgsError::BadListen(value.to_owned())),
                }
            } else if same(flag, "--advertise") {
                out.advertise = Some(value.to_owned());
                assert(out@ =~= (ArgsView { advertise: Some(value@), ..before }));
            } else if same(flag, "--data-dir") {
                out.data_dir = Some(value.to_owned());
                assert(out@ =~= (ArgsView { data_dir: Some(value@), ..before }));
            } else {
                split_commas(value, &mut out.join_targets);
                assert(out@ =~= (ArgsView {
                    join_targets: before.join_targets + comma_parts(value@),
                    ..before
                }));
            }
            i = i + 2;
        } else if same(flag, "--bootstrap") {
            out.bootstrap = true;
            assert(out@ =~= (ArgsView { bootstrap: true, ..before }));
            i = i + 1;
        } else if same(flag, "--help") || same(flag, "-h") {
            return Err(ArgsError::Help);
        } else {
            return Err(ArgsError::Unknown(flag.to_owned()));
        }
    }
    Ok(out)
}

/// The config text that inline flags stand for.
pub open spec fn inline_text(a: ArgsView) -> Seq<char> {
    let id = match a.node_id {
        Some(n) => n,
        None => 1,
    };
    let dir = match a.data_dir {
        Some(d) => d,
        None => "./qv-data"@,
    };
    let tail = match a.advertise {
        Some(addr) => "advertise_addr = \""@ + addr + "\"\n"@,
        None => Seq::empty(),
    };
    "node_id = "@ + decimal(id as nat) + "\nlisten_addr = \""@ + a.listen.unwrap()
        + "\"\ndata_dir = \""@ + forward_slashes(dir) + "\"\n"@ + tail
}

/// The config text that inline flags stand for: node 1 and `./qv-data` where they name
/// none. `None` where no listen address is given.
pub fn inline_config(a: &LaunchArgs) -> (r: Option<String>)
    ensures
        match r {
            Some(text) => a.listen is Some && text@ == inline_text(a@),
            None => a.listen is None,
        },
{
    let listen: &str = match &a.listen {
        Some(l) => l.as_str(),
        None => return None,
    };
    let id: u64 = match a.node_id {
        Some(n) => n,
        None => 1,
    };
    let dir: String = match &a.data_dir {
        Some(d) => to_forward_slashes(d.as_str()),
        None => to_forward_slashes("./qv-data"),
    };
    let mut text: String = join("node_id = ", to_decimal(id).as_str());
    text.append("\nlisten_addr = \"");
    text.append(listen);
    text.append("\"\ndata_dir = \"");
    text.append(dir.as_str());
    text.append("\"\n");
    if let Some(addr) = &a.advertise {
        text.append("advertise_addr = \"");
        text.append(addr.as_str());
        text.append("\"\n");
    }
    assert(text@ =~= inline_text(a@));
    Some(text)
}

proof fn flags_differ()
    ensures
        "--config"@ != "--node-id"@,
        "--config"@ != "--listen"@,
        "--config"@ != "--advertise"@,
        "--config"@ != "--data-dir"@,
        "--config"@ != "--join"@,
        "--node-id"@ != "--listen"@,
        "--node-id"@ != "--advertise"@,
        "--node-id"@ != "--data-dir"@,
        "--node-id"@ != "--join"@,
        "--listen"@ != "--advertise"@,
        "--listen"@ != "--data-dir"@,
        "--listen"@ != "--join"@,
        "--advertise"@ != "--data-dir"@,
        "--advertise"@ != "--join"@,
        "--data-dir"@ != "--join"@,
        !takes_value("--bootstrap"@),
        !takes_value("--help"@),
        !takes_value("-h"@),
        "--bootstrap"@ != "--help"@,
        "--bootstrap"@ != "-h"@,
{
    reveal_strlit("--config");
    reveal_strlit("--node-id");
    reveal_strlit("--listen");
    reveal_strlit("--advertise");
    reveal_strlit("--data-dir");
    reveal_strlit("--join");
    reveal_strlit("--bootstrap");
    reveal_strlit("--help");
    reveal_strlit("-h");
    assert("--config"@[2] == 'c');
    assert("--node-id"@[2] == 'n');
    assert("--listen"@[2] == 'l');
    assert("--advertise"@[2] == 'a');
    assert("--data-dir"@[2] == 'd');
    assert("--join"@[2] == 'j');
    assert("--bootstrap"@[2] == 'b');
    assert("--help"@[2] == 'h');
    assert("-h"@.len() == 2);
    assert("--config"@.len() > 2 && "--node-id"@.len() > 2 && "--listen"@.len() > 2 && "--advertise"@.len() > 2
        && "--data-dir"@.len() > 2 && "--join"@.len() > 2 && "--bootstrap"@.len() > 2);
}

/// A flag with its value sets what it names and nothing else, over what an earlier one
/// set, and the arguments after the two go on from there. Targets to join add up.
pub proof fn flag_sets_what_it_names(a: ArgsView, args: Seq<Seq<char>>, addrs: Seq<Option<Seq<char>>>, i: int)
    requires
        0 <= i,
        i + 1 < args.len(),
    ensures
        args[i] == "--config"@ ==> parsed_args(a, args, addrs, i) == parsed_args(
            (ArgsView { config_path: Some(args[i + 1]), ..a }),
            args,
            addrs,
            i + 2,
        ),
        args[i] == "--advertise"@ ==> parsed_args(a, args, addrs, i) == parsed_args(
            (ArgsView { advertise: Some(args[i + 1]), ..a }),
            args,
            addrs,
            i + 2,
        ),
        args[i] == "--data-dir"@ ==> parsed_args(a, args, addrs, i) == parsed_args(
            (ArgsView { data_dir: Some(args[i + 1]), ..a }),
            args,
            addrs,
            i + 2,
        ),
        args[i] == "--join"@ ==> parsed_args(a, args, addrs, i) == parsed_args(
            (ArgsView { join_targets: a.join_targets + comma_parts(args[i + 1]), ..a }),
            args,
            addrs,
            i + 2,
        ),
        args[i] == "--node-id"@ && parsed_u64(args[i + 1]) is Some ==> parsed_args(a, args, addrs, i)
            == parsed_args(
            (ArgsView { node_id: parsed_u64(args[i + 1]), ..a }),
            args,
            addrs,
            i + 2,
        ),
        args[i] == "--listen"@ && addrs[i + 1] is Some ==> parsed_args(a, args, addrs, i) == parsed_args(
            (ArgsView { listen: addrs[i + 1], ..a }),
            args,
            addrs,
            i + 2,
        ),
        args[i] == "--bootstrap"@ ==> parsed_args(a, args, addrs, i) == parsed_args(
            (ArgsView { bootstrap: true, ..a }),
            args,
            addrs,
            i + 1,
        ),
{
    flags_differ();
}

/// What a command line is refused for, at the first argument that gives reason to: a flag
/// without its value, a node id that is no number, a listen address that is none, a word
/// that is no flag; and a question for the usage ends it too.
pub proof fn bad_argument_is_refused(a: ArgsView, args: Seq<Seq<char>>, addrs: Seq<Option<Seq<char>>>, i: int)
    requires
        0 <= i < args.len(),
    ensures
        i + 1 == args.len() && (args[i] == "--config"@ || args[i] == "--node-id"@ || args[i] == "--listen"@
            || args[i] == "--advertise"@ || args[i] == "--data-dir"@ || args[i] == "--join"@) ==> parsed_args(
            a,
            args,
            addrs,
            i,
        ) == Err::<ArgsView, ArgsErrorView>(ArgsErrorView::MissingValue(args[i])),
        i + 1 < args.len() && args[i] == "--node-id"@ && parsed_u64(args[i + 1]) is None ==> parsed_args(
            a,
            args,
            addrs,
            i,
        ) == Err::<ArgsView, ArgsErrorView>(ArgsErrorView::BadNodeId(args[i + 1])),
        i + 1 < args.len() && args[i] == "--listen"@ && addrs[i + 1] is None ==> parsed_args(a, args, addrs, i)
            == Err::<ArgsView, ArgsErrorView>(ArgsErrorView::BadListen(args[i + 1])),
        args[i] == "--help"@ || args[i] == "-h"@ ==> parsed_args(a, args, addrs, i) == Err::<ArgsView, ArgsErrorView>(
            ArgsErrorView::Help,
        ),
        args[i] != "--config"@ && args[i] != "--node-id"@ && args[i] != "--listen"@ && args[i] != "--advertise"@
            && args[i] != "--data-dir"@ && args[i] != "--join"@ && args[i] != "--bootstrap"@ && args[i] != "--help"@
            && args[i] != "-h"@ ==> parsed_args(a, args, addrs, i) == Err::<ArgsView, ArgsErrorView>(
            ArgsErrorView::Unknown(args[i]),
        ),
{
    flags_differ();
}

/// A command line that is at its end says what its flags said, and one without flags says
/// nothing.
pub proof fn arguments_come_to_an_end(a: ArgsView, args: Seq<Seq<char>>, addrs: Seq<Option<Seq<char>>>)
    ensures
        parsed_args(a, args, addrs, args.len() as int) == Ok::<ArgsView, ArgsErrorView>(a),
        no_args().config_path is None,
        no_args().node_id is None,
        no_args().listen is None,
        no_args().advertise is None,
        no_args().data_dir is None,
        !no_args().bootstrap,
        no_args().join_targets.len() == 0,
{
}

/// Where the flags name no node or no directory, the config is that of node 1 and of
/// `./qv-data`; and an advertise address adds its line after everything else.
pub proof fn defaults_stand_in(a: ArgsView, addr: Seq<char>)
    ensures
        a.node_id is None ==> inline_text(a) == inline_text((ArgsView { node_id: Some(1), ..a })),
        a.data_dir is None ==> inline_text(a) == inline_text((ArgsView { data_dir: Some("./qv-data"@), ..a })),
        inline_text((ArgsView { advertise: Some(addr), ..a })) == inline_text((ArgsView { advertise: None, ..a }))
            + "advertise_addr = \""@ + addr + "\"\n"@,
{
    let with = inline_text((ArgsView { advertise: Some(addr), ..a }));
    let without = inline_text((ArgsView { advertise: None, ..a }));
    assert(with =~= without + "advertise_addr = \""@ + addr + "\"\n"@);
}

/// The flag that takes no value is the whole of a command line by itself.
pub proof fn bootstrap_stands_alone(a: ArgsView, args: Seq<Seq<char>>, addrs: Seq<Option<Seq<char>>>)
    requires
        args.len() == 1,
        args[0] == "--bootstrap"@,
    ensures
        parsed_args(a, args, addrs, 0) == Ok::<ArgsView, ArgsErrorView>((ArgsView { bootstrap: true, ..a })),
{
    flags_differ();
    assert(parsed_args((ArgsView { bootstrap: true, ..a }), args, addrs, 1) == Ok::<ArgsView, ArgsErrorView>(
        (ArgsView { bootstrap: true, ..a }),
    ));
}

} // verus!
