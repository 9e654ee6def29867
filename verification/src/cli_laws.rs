//! What the command line guarantees of `--config`: the config path is the
//! default unless a `--config` option gave it.
use vstd::prelude::*;
use crate::cli::{
    arg_step, args_fold, default_config, finish_args, grammar_of, long_name, long_value, parse_command_line,
    start_state, ArgState, CommandView, Grammar, is_escape, is_long,
};

verus! {

/// `xs[j]` is a `--config` option.
pub open spec fn is_config_option(xs: Seq<Seq<char>>, j: int) -> bool {
    0 <= j < xs.len() && is_long(xs[j]) && long_name(xs[j]) == "config"@
}

/// Some argument of `xs` gives the config path `c`: `--config=<c>`, or
/// `--config` followed by `<c>`.
pub open spec fn config_given(xs: Seq<Seq<char>>, c: Seq<char>) -> bool {
    exists|j: int|
        #[trigger] is_config_option(xs, j) && (long_value(xs[j]) == Some(c) || (long_value(xs[j])
            is None && j + 1 < xs.len() && xs[j + 1] == c))
}

/// The config path of a parsed command, if it has one.
pub open spec fn command_config(v: CommandView) -> Option<Seq<char>> {
    match v {
        CommandView::IndexFile { config, .. } => Some(config),
        CommandView::IndexGit { config, .. } => Some(config),
        CommandView::Serve { config } => Some(config),
        CommandView::ListModels => None,
    }
}

/// What the state after the arguments `p` says of the config: a config path
/// that some argument gave, a pending `--config` right at the end, and no
/// pending `--config` once `--` was seen.
spec fn config_inv(s: ArgState, p: Seq<Seq<char>>) -> bool {
    &&& (s.1 matches Some(c) ==> config_given(p, c))
    &&& (s.4 ==> p.len() > 0 && is_config_option(p, p.len() - 1) && long_value(p.last()) is None)
    &&& (s.5 ==> !s.4)
}

/// Reading one more argument is one more step.
proof fn lemma_fold_push(g: Grammar, st: ArgState, p: Seq<Seq<char>>, x: Seq<char>)
    ensures
        args_fold(g, st, p.push(x)) == match args_fold(g, st, p) {
            Ok(s) => arg_step(g, s, x),
            Err(e) => Err(e),
        },
    decreases p.len(),
{
    if p.len() == 0 {
        assert(p.push(x).drop_first() =~= Seq::<Seq<char>>::empty());
        assert(p.push(x)[0] == x);
        match arg_step(g, st, x) {
            Ok(n) => assert(args_fold(g, n, Seq::<Seq<char>>::empty()) == Ok::<ArgState, crate::cli::CliErrorKind>(n)),
            Err(_) => {},
        }
    } else {
        assert(p.push(x).drop_first() =~= p.drop_first().push(x));
        assert(p.push(x)[0] == p[0]);
        match arg_step(g, st, p[0]) {
            Ok(n) => lemma_fold_push(g, n, p.drop_first(), x),
            Err(_) => {},
        }
    }
}

/// A config path given by the first arguments is given by the arguments.
proof fn lemma_given_extends(p: Seq<Seq<char>>, x: Seq<char>, c: Seq<char>)
    requires
        config_given(p, c),
    ensures
        config_given(p.push(x), c),
{
    let q = p.push(x);
    let j = choose|j: int|
        #[trigger] is_config_option(p, j) && (long_value(p[j]) == Some(c) || (long_value(p[j])
            is None && j + 1 < p.len() && p[j + 1] == c));
    assert(q[j] == p[j]);
    assert(is_config_option(q, j));
    if j + 1 < p.len() {
        assert(q[j + 1] == p[j + 1]);
    }
}

/// One argument keeps what the state says of the config.
proof fn lemma_step_inv(g: Grammar, s: ArgState, p: Seq<Seq<char>>, x: Seq<char>)
    requires
        config_inv(s, p),
        arg_step(g, s, x) is Ok,
    ensures
        config_inv(arg_step(g, s, x)->Ok_0, p.push(x)),
{
    let q = p.push(x);
    let s2 = arg_step(g, s, x)->Ok_0;
    assert(q[p.len() as int] == x);
    match s.1 {
        Some(c) => {
            lemma_given_extends(p, x, c);
        },
        None => {},
    }
    if s.4 && !s.5 {
        let j = p.len() - 1;
        assert(q[j] == p[j]);
        assert(is_config_option(q, j));
        assert(long_value(q[j]) is None && j + 1 < q.len() && q[j + 1] == x);
    }
    if !s.5 && !s.4 && is_long(x) && long_name(x) == "config"@ {
        assert(is_config_option(q, p.len() as int));
    }
}

/// After the first `n` arguments, the state says what `config_inv` says.
proof fn lemma_prefix_inv(g: Grammar, xs: Seq<Seq<char>>, n: int)
    requires
        0 <= n <= xs.len(),
        args_fold(g, start_state(), xs.take(n)) is Ok,
    ensures
        config_inv(args_fold(g, start_state(), xs.take(n))->Ok_0, xs.take(n)),
    decreases n,
{
    if n == 0 {
        assert(xs.take(0) =~= Seq::<Seq<char>>::empty());
    } else {
        let p = xs.take(n - 1);
        assert(xs.take(n) =~= p.push(xs[n - 1]));
        lemma_fold_push(g, start_state(), p, xs[n - 1]);
        lemma_prefix_inv(g, xs, n - 1);
        lemma_step_inv(g, args_fold(g, start_state(), p)->Ok_0, p, xs[n - 1]);
    }
}

/// `--config` defaults to `./config.toml`: the config path of a parsed
/// command is the default unless an argument gave it, as `--config=<path>`
/// or as `--config <path>`.
pub proof fn law_config_default_unless_given(args: Seq<Seq<char>>)
    requires
        parse_command_line(args) is Ok,
    ensures
        match command_config(parse_command_line(args)->Ok_0) {
            Some(c) => c == default_config() || config_given(args.skip(2), c),
            None => true,
        },
{
    let g = grammar_of(args[1])->Some_0;
    let xs = args.skip(2);
    assert(xs.take(xs.len() as int) =~= xs);
    lemma_prefix_inv(g, xs, xs.len() as int);
}

/// Reading two runs of arguments is reading the first, then the second
/// from where the first left off.
proof fn lemma_fold_concat(g: Grammar, st: ArgState, a: Seq<Seq<char>>, b: Seq<Seq<char>>)
    ensures
        args_fold(g, st, a + b) == match args_fold(g, st, a) {
            Ok(s) => args_fold(g, s, b),
            Err(e) => Err(e),
        },
    decreases a.len(),
{
    if a.len() == 0 {
        assert(a + b =~= b);
    } else {
        assert((a + b)[0] == a[0]);
        assert((a + b).drop_first() =~= a.drop_first() + b);
        match arg_step(g, st, a[0]) {
            Ok(n) => lemma_fold_concat(g, n, a.drop_first(), b),
            Err(_) => {},
        }
    }
}

/// Before any `--`, the parse has not seen `--`, and a `--config` that
/// waits for its value was given no config path yet.
proof fn lemma_prefix_plain(g: Grammar, xs: Seq<Seq<char>>, n: int)
    requires
        0 <= n <= xs.len(),
        args_fold(g, start_state(), xs.take(n)) is Ok,
        forall|m: int| 0 <= m < n ==> !is_escape(#[trigger] xs[m]),
    ensures
        !(args_fold(g, start_state(), xs.take(n))->Ok_0).5,
        (args_fold(g, start_state(), xs.take(n))->Ok_0).4 ==> (args_fold(
            g,
            start_state(),
            xs.take(n),
        )->Ok_0).1 is None,
    decreases n,
{
    if n == 0 {
        assert(xs.take(0) =~= Seq::<Seq<char>>::empty());
    } else {
        let p = xs.take(n - 1);
        assert(xs.take(n) =~= p.push(xs[n - 1]));
        lemma_fold_push(g, start_state(), p, xs[n - 1]);
        lemma_prefix_plain(g, xs, n - 1);
        assert(!is_escape(xs[n - 1]));
    }
}

/// Once a config path is set and nothing waits for a value, the rest of a
/// parse that succeeds keeps it.
proof fn lemma_keep_config(g: Grammar, s: ArgState, xs: Seq<Seq<char>>, c: Seq<char>)
    requires
        s.1 == Some(c),
        !s.4,
        args_fold(g, s, xs) is Ok,
    ensures
        (args_fold(g, s, xs)->Ok_0).1 == Some(c),
        !(args_fold(g, s, xs)->Ok_0).4,
    decreases xs.len(),
{
    if xs.len() > 0 {
        let n = arg_step(g, s, xs[0])->Ok_0;
        assert(n.1 == Some(c) && !n.4);
        lemma_keep_config(g, n, xs.drop_first(), c);
    }
}

/// A config path given on the command line is the one used: when a parse
/// succeeds and, before any `--`, an argument gives the config path `c`
/// (`--config=<c>`, or `--config` followed by `<c>`), the parsed command's
/// config path is `c`.
pub proof fn law_config_given_is_used(args: Seq<Seq<char>>, j: int, c: Seq<char>)
    requires
        parse_command_line(args) is Ok,
        is_config_option(args.skip(2), j),
        forall|m: int| 0 <= m < j ==> !is_escape(#[trigger] args.skip(2)[m]),
        long_value(args.skip(2)[j]) == Some(c) || (long_value(args.skip(2)[j]) is None && j + 1
            < args.skip(2).len() && args.skip(2)[j + 1] == c),
    ensures
        command_config(parse_command_line(args)->Ok_0) == Some(c),
{
    let g = grammar_of(args[1])->Some_0;
    let xs = args.skip(2);
    let st0 = start_state();
    assert(xs =~= xs.take(j) + xs.skip(j));
    lemma_fold_concat(g, st0, xs.take(j), xs.skip(j));
    lemma_prefix_plain(g, xs, j);
    let sj = args_fold(g, st0, xs.take(j))->Ok_0;
    let rest = xs.skip(j);
    assert(rest[0] == xs[j]);
    let a = xs[j];
    assert(!is_escape(a));
    assert(!sj.4);
    assert(g != Grammar::Bare);
    assert(sj.1 is None);
    let n1 = arg_step(g, sj, a)->Ok_0;
    if long_value(a) == Some(c) {
        assert(n1.1 == Some(c) && !n1.4);
        lemma_keep_config(g, n1, rest.drop_first(), c);
    } else {
        assert(n1.4 && !n1.5 && n1.1 is None);
        let rest2 = rest.drop_first();
        assert(rest2[0] == xs[j + 1]);
        let n2 = arg_step(g, n1, c)->Ok_0;
        assert(n2.1 == Some(c) && !n2.4);
        lemma_keep_config(g, n2, rest2.drop_first(), c);
    }
}

/// Among the first `n` arguments of `xs`, the option `--<name>` is given
/// before any `--`.
pub open spec fn flag_given(xs: Seq<Seq<char>>, n: int, name: Seq<char>) -> bool {
    exists|j: int|
        0 <= j < n && is_long(#[trigger] xs[j]) && long_name(xs[j]) == name && forall|m: int|
            0 <= m < j ==> !is_escape(#[trigger] xs[m])
}

/// Some of the first `n` arguments of `xs` is `--`.
pub open spec fn escape_seen(xs: Seq<Seq<char>>, n: int) -> bool {
    exists|m: int| 0 <= m < n && is_escape(#[trigger] xs[m])
}

/// What the state after the first `n` arguments says of `--` and of the
/// two flags of the indexing subcommands.
spec fn flags_inv(s: ArgState, xs: Seq<Seq<char>>, n: int) -> bool {
    &&& s.5 <==> escape_seen(xs, n)
    &&& s.2 <==> flag_given(xs, n, "rebuild"@)
    &&& s.3 <==> flag_given(xs, n, "verbose"@)
    &&& s.4 ==> !s.5
}

/// After the first `n` arguments of an indexing subcommand, the flags are
/// set exactly when they were given before any `--`.
proof fn lemma_prefix_flags(xs: Seq<Seq<char>>, n: int)
    requires
        0 <= n <= xs.len(),
        args_fold(Grammar::Indexing, start_state(), xs.take(n)) is Ok,
    ensures
        flags_inv(args_fold(Grammar::Indexing, start_state(), xs.take(n))->Ok_0, xs, n),
    decreases n,
{
    let g = Grammar::Indexing;
    if n == 0 {
        assert(xs.take(0) =~= Seq::<Seq<char>>::empty());
    } else {
        let p = xs.take(n - 1);
        let x = xs[n - 1];
        assert(xs.take(n) =~= p.push(x));
        lemma_fold_push(g, start_state(), p, x);
        lemma_prefix_flags(xs, n - 1);
        let s = args_fold(g, start_state(), p)->Ok_0;
        let s2 = arg_step(g, s, x)->Ok_0;
        // `--`.
        if s2.5 && !s.5 {
            assert(is_escape(xs[n - 1]));
        }
        if escape_seen(xs, n) && !escape_seen(xs, n - 1) {
            assert(is_escape(x));
        }
        // Each flag: the names of the options differ.
        reveal_strlit("help");
        reveal_strlit("config");
        reveal_strlit("rebuild");
        reveal_strlit("verbose");
        assert("rebuild"@.len() == 7 && "help"@.len() == 4 && "config"@.len() == 6);
        assert("rebuild"@[0] == 'r' && "verbose"@[0] == 'v' && "verbose"@.len() == 7);
        assert("rebuild"@ != "help"@ && "rebuild"@ != "config"@ && "rebuild"@ != "verbose"@);
        assert("verbose"@ != "help"@ && "verbose"@ != "config"@);
        lemma_flag_step(xs, n, "rebuild"@, s.2, s2.2, s.5);
        lemma_flag_step(xs, n, "verbose"@, s.3, s2.3, s.5);
    }
}

/// One more argument `xs[n - 1]` and one flag `--<name>`: the flag was
/// given among the first `n` arguments exactly when it was among the
/// first `n - 1`, or it is that argument and no `--` came before.
proof fn lemma_flag_given_push(xs: Seq<Seq<char>>, n: int, name: Seq<char>)
    requires
        1 <= n <= xs.len(),
    ensures
        flag_given(xs, n, name) <==> flag_given(xs, n - 1, name) || (is_long(xs[n - 1])
            && long_name(xs[n - 1]) == name && !escape_seen(xs, n - 1)),
{
    if flag_given(xs, n, name) && !flag_given(xs, n - 1, name) {
        let j = choose|j: int|
            0 <= j < n && is_long(#[trigger] xs[j]) && long_name(xs[j]) == name && forall|m: int|
                0 <= m < j ==> !is_escape(#[trigger] xs[m]);
        assert(j == n - 1);
        if escape_seen(xs, n - 1) {
            let m = choose|m: int| 0 <= m < n - 1 && is_escape(#[trigger] xs[m]);
        }
    }
    if flag_given(xs, n - 1, name) {
        let j = choose|j: int|
            0 <= j < n - 1 && is_long(#[trigger] xs[j]) && long_name(xs[j]) == name && forall|m: int|
                0 <= m < j ==> !is_escape(#[trigger] xs[m]);
        assert(is_long(xs[j]));
    }
    if is_long(xs[n - 1]) && long_name(xs[n - 1]) == name && !escape_seen(xs, n - 1) {
        assert forall|m: int| 0 <= m < n - 1 implies !is_escape(#[trigger] xs[m]) by {}
        assert(is_long(xs[n - 1]));
    }
}

/// A flag's state after one more argument, given how the step changed it.
proof fn lemma_flag_step(xs: Seq<Seq<char>>, n: int, name: Seq<char>, before: bool, after: bool, trailing: bool)
    requires
        1 <= n <= xs.len(),
        before <==> flag_given(xs, n - 1, name),
        trailing <==> escape_seen(xs, n - 1),
        before ==> after,
        after && !before ==> is_long(xs[n - 1]) && long_name(xs[n - 1]) == name && !trailing,
        !before && is_long(xs[n - 1]) && long_name(xs[n - 1]) == name && !trailing ==> after,
    ensures
        after <==> flag_given(xs, n, name),
{
    lemma_flag_given_push(xs, n, name);
}

/// The flags of `index-file` and `index-git` are set exactly when given:
/// in a parse that succeeds, `rebuild` is set exactly when `--rebuild`
/// comes before any `--`, and `verbose` exactly when `--verbose` does.
pub proof fn law_flags_set_exactly_when_given(args: Seq<Seq<char>>)
    requires
        parse_command_line(args) is Ok,
    ensures
        match parse_command_line(args)->Ok_0 {
            CommandView::IndexFile { rebuild, verbose, .. } => (rebuild <==> flag_given(
                args.skip(2),
                args.len() - 2,
                "rebuild"@,
            )) && (verbose <==> flag_given(args.skip(2), args.len() - 2, "verbose"@)),
            CommandView::IndexGit { rebuild, verbose, .. } => (rebuild <==> flag_given(
                args.skip(2),
                args.len() - 2,
                "rebuild"@,
            )) && (verbose <==> flag_given(args.skip(2), args.len() - 2, "verbose"@)),
            _ => true,
        },
{
    let g = grammar_of(args[1])->Some_0;
    let xs = args.skip(2);
    if g == Grammar::Indexing {
        assert(xs.take(xs.len() as int) =~= xs);
        lemma_prefix_flags(xs, xs.len() as int);
    }
}

/// The first argument after the program's name picks the command: a
/// parse that succeeds gives `index-file`, `index-git`, `serve` or
/// `list-models` exactly when that argument names it.
pub proof fn law_subcommand_picks_command(args: Seq<Seq<char>>)
    requires
        parse_command_line(args) is Ok,
    ensures
        args.len() >= 2,
        parse_command_line(args)->Ok_0 is IndexFile <==> args[1] == "index-file"@,
        parse_command_line(args)->Ok_0 is IndexGit <==> args[1] == "index-git"@,
        parse_command_line(args)->Ok_0 is Serve <==> args[1] == "serve"@,
        parse_command_line(args)->Ok_0 is ListModels <==> args[1] == "list-models"@,
{
    reveal_strlit("index-file");
    reveal_strlit("index-git");
    reveal_strlit("serve");
    reveal_strlit("list-models");
    assert("index-file"@.len() == 10 && "index-git"@.len() == 9 && "serve"@.len() == 5);
    assert("list-models"@.len() == 11);
}

} // verus!
