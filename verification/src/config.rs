//! The configuration resolver: turns raw command-line tokens into a
//! validated set of watch roots, ignore substrings, and a command vector.
//!
//! Tokens are read left to right. `-h`/`--help` asks for the usage text;
//! `-w=V`/`--watch=V` adds a watch root; `-i=V`/`--ignore=V` adds an ignore
//! substring; the first token that does not begin with `-` starts the
//! command, and from then on every token belongs to the command. An option
//! token with an empty value is an error naming that token. If no command
//! is found, resolution fails. When no watch root was supplied, the current
//! directory is watched; three ignore substrings are always present.

use vstd::prelude::*;

use crate::text::{has_prefix, has_prefix_seq, str_eq, value_after};

verus! {

/// One recognized piece of the command line.
#[derive(Debug)]
pub enum Dsl {
    Help,
    Watch(String),
    Ignore(String),
    Command(Vec<String>),
}

/// The mathematical shape of a `Dsl` item.
pub enum DslView {
    Help,
    Watch(Seq<char>),
    Ignore(Seq<char>),
    Command(Seq<Seq<char>>),
}

impl View for Dsl {
    type V = DslView;

    open spec fn view(&self) -> DslView {
        match self {
            Dsl::Help => DslView::Help,
            Dsl::Watch(s) => DslView::Watch(s@),
            Dsl::Ignore(s) => DslView::Ignore(s@),
            Dsl::Command(c) => DslView::Command(c.deep_view()),
        }
    }
}

pub open spec fn items_view(s: Seq<Dsl>) -> Seq<DslView> {
    s.map_values(|d: Dsl| d@)
}

/// A malformed token: an option whose value is missing.
#[derive(Debug)]
pub enum ParseError {
    MissingValue(String),
}

pub open spec fn is_help_tok(a: Seq<char>) -> bool {
    a == "-h"@ || a == "--help"@
}

pub open spec fn is_watch_tok(a: Seq<char>) -> bool {
    has_prefix_seq(a, "-w="@) || has_prefix_seq(a, "--watch="@)
}

pub open spec fn is_ignore_tok(a: Seq<char>) -> bool {
    has_prefix_seq(a, "-i="@) || has_prefix_seq(a, "--ignore="@)
}

/// A token that begins with `-` but is not a recognized option is dropped.
pub open spec fn is_option_like(a: Seq<char>) -> bool {
    a.len() > 0 && a[0] == '-'
}

/// The value of an option token: the entire text after the option's `=`.
pub open spec fn opt_value(a: Seq<char>) -> Seq<char> {
    if has_prefix_seq(a, "-w="@) {
        a.skip(3)
    } else if has_prefix_seq(a, "--watch="@) {
        a.skip(8)
    } else if has_prefix_seq(a, "-i="@) {
        a.skip(3)
    } else {
        a.skip(9)
    }
}

/// What the argument list means, token by token: the recognized items in
/// order, ending with exactly one `Command` item holding every token from
/// the first command token on; or the first option token whose value is
/// missing.
pub open spec fn parse_spec(args: Seq<Seq<char>>) -> Result<Seq<DslView>, Seq<char>>
    decreases args.len(),
{
    if args.len() == 0 {
        Ok(seq![DslView::Command(Seq::empty())])
    } else {
        let a = args[0];
        if is_help_tok(a) {
            match parse_spec(args.drop_first()) {
                Ok(rest) => Ok(seq![DslView::Help] + rest),
                Err(e) => Err(e),
            }
        } else if is_watch_tok(a) {
            if opt_value(a).len() == 0 {
                Err(a)
            } else {
                match parse_spec(args.drop_first()) {
                    Ok(rest) => Ok(seq![DslView::Watch(opt_value(a))] + rest),
                    Err(e) => Err(e),
                }
            }
        } else if is_ignore_tok(a) {
            if opt_value(a).len() == 0 {
                Err(a)
            } else {
                match parse_spec(args.drop_first()) {
                    Ok(rest) => Ok(seq![DslView::Ignore(opt_value(a))] + rest),
                    Err(e) => Err(e),
                }
            }
        } else if is_option_like(a) {
            parse_spec(args.drop_first())
        } else {
            Ok(seq![DslView::Command(args)])
        }
    }
}

proof fn lemma_items_view_push(s: Seq<Dsl>, d: Dsl)
    ensures
        items_view(s.push(d)) == items_view(s).push(d@),
{
    assert(items_view(s.push(d)) =~= items_view(s).push(d@));
}

proof fn lemma_dash_prefix(a: Seq<char>)
    ensures
        has_prefix_seq(a, "-"@) <==> is_option_like(a),
{
    reveal_strlit("-");
    if has_prefix_seq(a, "-"@) {
        assert(a.subrange(0, 1)[0] == a[0]);
    }
    if is_option_like(a) {
        assert(a.subrange(0, 1) =~= "-"@);
    }
}

/// Read the raw argument list into its recognized items.
pub fn parse_args(args: Vec<String>) -> (r: Result<Vec<Dsl>, ParseError>)
    ensures
        match r {
            Ok(items) => parse_spec(args.deep_view()) == Ok::<Seq<DslView>, Seq<char>>(
                items_view(items@),
            ),
            Err(ParseError::MissingValue(t)) => parse_spec(args.deep_view()) == Err::<
                Seq<DslView>,
                Seq<char>,
            >(t@),
        },
{
    let ghost args_v = args.deep_view();
    let n = args.len();
    let mut items: Vec<Dsl> = Vec::new();
    let mut command: Vec<String> = Vec::new();
    let mut in_command = false;
    let mut idx: usize = 0;
    proof {
        assert(args_v.skip(0) =~= args_v);
        assert(items_view(items@) =~= Seq::<DslView>::empty());
        if parse_spec(args_v) is Ok {
            assert(Seq::<DslView>::empty() + parse_spec(args_v)->Ok_0 =~= parse_spec(
                args_v,
            )->Ok_0);
        }
    }
    while idx < n
        invariant
            args_v == args.deep_view(),
            n == args@.len(),
            idx <= n,
            !in_command ==> command@.len() == 0,
            !in_command ==> parse_spec(args_v) == (match parse_spec(args_v.skip(idx as int)) {
                Ok(rest) => Ok::<Seq<DslView>, Seq<char>>(items_view(items@) + rest),
                Err(e) => Err::<Seq<DslView>, Seq<char>>(e),
            }),
            in_command ==> parse_spec(args_v) == Ok::<Seq<DslView>, Seq<char>>(
                items_view(items@) + seq![
                    DslView::Command(command.deep_view() + args_v.skip(idx as int)),
                ],
            ),
        decreases n - idx,
    {
        let arg = &args[idx];
        proof {
            assert(args_v[idx as int] == arg@);
            assert(args_v.skip(idx as int)[0] == args_v[idx as int]);
            assert(args_v.skip(idx as int).drop_first() =~= args_v.skip(idx as int + 1));
        }
        if in_command {
            let ghost old_cmd = command.deep_view();
            command.push(arg.clone());
            proof {
                assert(command.deep_view() =~= old_cmd.push(arg@));
                assert(old_cmd + args_v.skip(idx as int) =~= command.deep_view() + args_v.skip(
                    idx as int + 1,
                ));
            }
        } else if str_eq(arg.as_str(), "-h") || str_eq(arg.as_str(), "--help") {
            let ghost old_items = items@;
            proof {
                lemma_items_view_push(old_items, Dsl::Help);
            }
            items.push(Dsl::Help);
            proof {
                assert(items_view(old_items) + (seq![DslView::Help] + rest_of(args_v, idx as int))
                    =~= items_view(items@) + rest_of(args_v, idx as int));
            }
        } else if has_prefix(arg.as_str(), "-w=") {
            proof {
                reveal_strlit("-w=");
            }
            let v = value_after(arg.as_str(), 3);
            if v.unicode_len() == 0 {
                return Err(ParseError::MissingValue(arg.clone()));
            }
            let ghost old_items = items@;
            proof {
                lemma_items_view_push(old_items, Dsl::Watch(v));
            }
            items.push(Dsl::Watch(v));
            proof {
                assert(items_view(old_items) + (seq![DslView::Watch(opt_value(arg@))] + rest_of(
                    args_v,
                    idx as int,
                )) =~= items_view(items@) + rest_of(args_v, idx as int));
            }
        } else if has_prefix(arg.as_str(), "--watch=") {
            proof {
                reveal_strlit("--watch=");
            }
            let v = value_after(arg.as_str(), 8);
            if v.unicode_len() == 0 {
                return Err(ParseError::MissingValue(arg.clone()));
            }
            let ghost old_items = items@;
            proof {
                lemma_items_view_push(old_items, Dsl::Watch(v));
            }
            items.push(Dsl::Watch(v));
            proof {
                assert(items_view(old_items) + (seq![DslView::Watch(opt_value(arg@))] + rest_of(
                    args_v,
                    idx as int,
                )) =~= items_view(items@) + rest_of(args_v, idx as int));
            }
        } else if has_prefix(arg.as_str(), "-i=") {
            proof {
                reveal_strlit("-i=");
            }
            let v = value_after(arg.as_str(), 3);
            if v.unicode_len() == 0 {
                return Err(ParseError::MissingValue(arg.clone()));
            }
            let ghost old_items = items@;
            proof {
                lemma_items_view_push(old_items, Dsl::Ignore(v));
            }
            items.push(Dsl::Ignore(v));
            proof {
                assert(items_view(old_items) + (seq![DslView::Ignore(opt_value(arg@))] + rest_of(
                    args_v,
                    idx as int,
                )) =~= items_view(items@) + rest_of(args_v, idx as int));
            }
        } else if has_prefix(arg.as_str(), "--ignore=") {
            proof {
                reveal_strlit("--ignore=");
            }
            let v = value_after(arg.as_str(), 9);
            if v.unicode_len() == 0 {
                return Err(ParseError::MissingValue(arg.clone()));
            }
            let ghost old_items = items@;
            proof {
                lemma_items_view_push(old_items, Dsl::Ignore(v));
            }
            items.push(Dsl::Ignore(v));
            proof {
                assert(items_view(old_items) + (seq![DslView::Ignore(opt_value(arg@))] + rest_of(
                    args_v,
                    idx as int,
                )) =~= items_view(items@) + rest_of(args_v, idx as int));
            }
        } else if has_prefix(arg.as_str(), "-") {
            proof {
                lemma_dash_prefix(arg@);
            }
        } else {
            proof {
                lemma_dash_prefix(arg@);
            }
            in_command = true;
            command.push(arg.clone());
            proof {
                assert(command.deep_view() =~= seq![arg@]);
                assert(args_v.skip(idx as int) =~= command.deep_view() + args_v.skip(
                    idx as int + 1,
                ));
            }
        }
        idx = idx + 1;
    }
    proof {
        assert(args_v.skip(n as int) =~= Seq::<Seq<char>>::empty());
    }
    let ghost old_items = items@;
    let ghost cmd_v = command.deep_view();
    proof {
        lemma_items_view_push(old_items, Dsl::Command(command));
    }
    items.push(Dsl::Command(command));
    proof {
        if in_command {
            assert(cmd_v + args_v.skip(n as int) =~= cmd_v);
        } else {
            assert(cmd_v =~= Seq::<Seq<char>>::empty());
        }
        assert(items_view(old_items) + seq![DslView::Command(cmd_v)] =~= items_view(items@));
    }
    Ok(items)
}

/// The suffix of the items that the recursion has not reached yet, as it
/// stands in the loop invariant of `parse_args`.
pub open spec fn rest_of(args: Seq<Seq<char>>, idx: int) -> Seq<DslView>
    recommends
        parse_spec(args.skip(idx + 1)) is Ok,
{
    parse_spec(args.skip(idx + 1))->Ok_0
}

/// The three ignore substrings that are always present: the dependency
/// directory, the build-output directory, and the version-control directory.
pub open spec fn builtin_ignores() -> Set<Seq<char>> {
    set!["node_modules"@, "target"@, ".git"@]
}

pub open spec fn has_help(items: Seq<DslView>) -> bool {
    exists|i: int| 0 <= i < items.len() && items[i] is Help
}

pub open spec fn has_watch(items: Seq<DslView>) -> bool {
    exists|i: int| 0 <= i < items.len() && items[i] is Watch
}

/// Every watch root named by the items.
pub open spec fn watch_values(items: Seq<DslView>) -> Set<Seq<char>> {
    Set::new(|w: Seq<char>| exists|i: int| 0 <= i < items.len() && items[i] == DslView::Watch(w))
}

/// Every ignore substring named by the items.
pub open spec fn ignore_values(items: Seq<DslView>) -> Set<Seq<char>> {
    Set::new(|g: Seq<char>| exists|i: int| 0 <= i < items.len() && items[i] == DslView::Ignore(g))
}

/// The command the items select: the last non-empty `Command` payload.
pub open spec fn command_of(items: Seq<DslView>) -> Option<Seq<Seq<char>>>
    decreases items.len(),
{
    if items.len() == 0 {
        None
    } else {
        match items.last() {
            DslView::Command(c) => if c.len() > 0 {
                Some(c)
            } else {
                command_of(items.drop_last())
            },
            _ => command_of(items.drop_last()),
        }
    }
}

/// A resolved configuration: what to watch, what to skip, what to run.
pub struct Config {
    pub watches: Vec<String>,
    pub ignores: Vec<String>,
    pub command: Vec<String>,
}

impl Config {
    /// Non-empty deduplicated watch roots, deduplicated ignore substrings
    /// that include the three built-ins, and a non-empty command.
    pub open spec fn wf(self) -> bool {
        &&& self.watches.deep_view().no_duplicates()
        &&& self.watches@.len() > 0
        &&& self.ignores.deep_view().no_duplicates()
        &&& builtin_ignores().subset_of(self.ignores.deep_view().to_set())
        &&& self.command@.len() > 0
    }
}

/// The outcome of resolving the recognized items.
pub enum Resolution {
    Help,
    MissingCommand,
    Run(Config),
}

proof fn lemma_watch_values_push(s: Seq<DslView>, d: DslView)
    ensures
        watch_values(s.push(d)) == (match d {
            DslView::Watch(w) => watch_values(s).insert(w),
            _ => watch_values(s),
        }),
{
    let t = s.push(d);
    assert forall|w: Seq<char>| watch_values(s).contains(w) implies watch_values(t).contains(
        w,
    ) by {
        let i = choose|i: int| 0 <= i < s.len() && s[i] == DslView::Watch(w);
        assert(t[i] == DslView::Watch(w));
    }
    assert forall|w: Seq<char>|
        watch_values(t).contains(w) && !(d == DslView::Watch(w)) implies watch_values(s).contains(
        w,
    ) by {
        let i = choose|i: int| 0 <= i < t.len() && t[i] == DslView::Watch(w);
        assert(i < s.len() && s[i] == DslView::Watch(w));
    }
    match d {
        DslView::Watch(w) => {
            assert(t[s.len() as int] == DslView::Watch(w));
            assert(watch_values(t) =~= watch_values(s).insert(w));
        },
        _ => {
            assert(watch_values(t) =~= watch_values(s));
        },
    }
}

proof fn lemma_ignore_values_push(s: Seq<DslView>, d: DslView)
    ensures
        ignore_values(s.push(d)) == (match d {
            DslView::Ignore(g) => ignore_values(s).insert(g),
            _ => ignore_values(s),
        }),
{
    let t = s.push(d);
    assert forall|g: Seq<char>| ignore_values(s).contains(g) implies ignore_values(t).contains(
        g,
    ) by {
        let i = choose|i: int| 0 <= i < s.len() && s[i] == DslView::Ignore(g);
        assert(t[i] == DslView::Ignore(g));
    }
    assert forall|g: Seq<char>|
        ignore_values(t).contains(g) && !(d == DslView::Ignore(g)) implies ignore_values(
        s,
    ).contains(g) by {
        let i = choose|i: int| 0 <= i < t.len() && t[i] == DslView::Ignore(g);
        assert(i < s.len() && s[i] == DslView::Ignore(g));
    }
    match d {
        DslView::Ignore(g) => {
            assert(t[s.len() as int] == DslView::Ignore(g));
            assert(ignore_values(t) =~= ignore_values(s).insert(g));
        },
        _ => {
            assert(ignore_values(t) =~= ignore_values(s));
        },
    }
}

/// Append `s` to `v` unless an equal string is already there.
fn insert_unique(v: &mut Vec<String>, s: &String)
    requires
        old(v).deep_view().no_duplicates(),
    ensures
        final(v).deep_view().no_duplicates(),
        final(v).deep_view().to_set() == old(v).deep_view().to_set().insert(s@),
{
    let n = v.len();
    let mut i: usize = 0;
    while i < n
        invariant
            v.deep_view() == old(v).deep_view(),
            v.deep_view().no_duplicates(),
            n == v@.len(),
            i <= n,
            forall|j: int| 0 <= j < i ==> v.deep_view()[j] != s@,
        decreases n - i,
    {
        if str_eq(v[i].as_str(), s.as_str()) {
            proof {
                assert(v.deep_view()[i as int] == s@);
                assert(v.deep_view().contains(s@));
                assert(v.deep_view().to_set() =~= v.deep_view().to_set().insert(s@));
            }
            return ;
        }
        i = i + 1;
    }
    let ghost old_dv = v.deep_view();
    v.push(s.clone());
    proof {
        assert(v.deep_view() =~= old_dv.push(s@));
        assert(forall|j: int| 0 <= j < old_dv.len() ==> old_dv[j] != s@);
        assert(!old_dv.contains(s@));
        assert forall|x: Seq<char>| #[trigger]
            v.deep_view().to_set().contains(x) implies old_dv.to_set().insert(s@).contains(x) by {
            let j = choose|j: int| 0 <= j < v.deep_view().len() && v.deep_view()[j] == x;
            if j < old_dv.len() {
                assert(old_dv[j] == x);
            }
        }
        assert forall|x: Seq<char>| old_dv.to_set().insert(s@).contains(x) implies v.deep_view()
            .to_set().contains(x) by {
            if old_dv.to_set().contains(x) {
                let j = choose|j: int| 0 <= j < old_dv.len() && old_dv[j] == x;
                assert(v.deep_view()[j] == x);
            } else {
                assert(v.deep_view()[old_dv.len() as int] == s@);
            }
        }
        assert(v.deep_view().to_set() =~= old_dv.to_set().insert(s@));
    }
}

/// A fresh vector holding the same strings.
fn clone_strings(v: &Vec<String>) -> (r: Vec<String>)
    ensures
        r.deep_view() == v.deep_view(),
        r@.len() == v@.len(),
{
    let n = v.len();
    let mut r: Vec<String> = Vec::new();
    let mut i: usize = 0;
    while i < n
        invariant
            n == v@.len(),
            i <= n,
            r@.len() == i,
            forall|j: int| 0 <= j < i ==> r.deep_view()[j] == v.deep_view()[j],
        decreases n - i,
    {
        r.push(v[i].clone());
        i = i + 1;
    }
    proof {
        assert(r.deep_view() =~= v.deep_view());
    }
    r
}

/// Resolve the recognized items: a help request wins outright; otherwise
/// the watch roots (defaulted to the current directory), the ignore
/// substrings (always joined with the three built-ins), and the command
/// are collected, and a missing command is reported.
pub fn resolve(items: Vec<Dsl>) -> (r: Resolution)
    ensures
        ({
            let iv = items_view(items@);
            match r {
                Resolution::Help => has_help(iv),
                Resolution::MissingCommand => !has_help(iv) && command_of(iv) is None,
                Resolution::Run(cfg) => {
                    &&& !has_help(iv)
                    &&& command_of(iv) == Some(cfg.command.deep_view())
                    &&& cfg.wf()
                    &&& cfg.watches.deep_view().to_set() == (if has_watch(iv) {
                        watch_values(iv)
                    } else {
                        set!["."@]
                    })
                    &&& cfg.ignores.deep_view().to_set() == ignore_values(iv).union(
                        builtin_ignores(),
                    )
                },
            }
        }),
{
    let ghost iv = items_view(items@);
    let n = items.len();
    let mut watches: Vec<String> = Vec::new();
    let mut ignores: Vec<String> = Vec::new();
    let mut command: Vec<String> = Vec::new();
    let mut have_command = false;
    let mut idx: usize = 0;
    proof {
        assert(iv.take(0) =~= Seq::<DslView>::empty());
        assert(watches.deep_view().to_set() =~= watch_values(iv.take(0)));
        assert(ignores.deep_view().to_set() =~= ignore_values(iv.take(0)));
    }
    while idx < n
        invariant
            iv == items_view(items@),
            n == items@.len(),
            idx <= n,
            watches.deep_view().no_duplicates(),
            watches.deep_view().to_set() == watch_values(iv.take(idx as int)),
            ignores.deep_view().no_duplicates(),
            ignores.deep_view().to_set() == ignore_values(iv.take(idx as int)),
            !has_help(iv.take(idx as int)),
            have_command ==> command_of(iv.take(idx as int)) == Some(command.deep_view())
                && command@.len() > 0,
            !have_command ==> command_of(iv.take(idx as int)) is None,
        decreases n - idx,
    {
        let ghost prefix = iv.take(idx as int);
        proof {
            assert(iv.take(idx as int + 1) =~= prefix.push(iv[idx as int]));
            assert(prefix.push(iv[idx as int]).drop_last() =~= prefix);
            lemma_watch_values_push(prefix, iv[idx as int]);
            lemma_ignore_values_push(prefix, iv[idx as int]);
        }
        match &items[idx] {
            Dsl::Help => {
                proof {
                    assert(iv[idx as int] is Help);
                }
                return Resolution::Help;
            },
            Dsl::Watch(w) => {
                proof {
                    assert(iv[idx as int] == DslView::Watch(w@));
                }
                insert_unique(&mut watches, w);
            },
            Dsl::Ignore(g) => {
                proof {
                    assert(iv[idx as int] == DslView::Ignore(g@));
                }
                insert_unique(&mut ignores, g);
            },
            Dsl::Command(c) => {
                proof {
                    assert(iv[idx as int] == DslView::Command(c.deep_view()));
                }
                if c.len() > 0 {
                    command = clone_strings(c);
                    have_command = true;
                }
            },
        }
        proof {
            assert forall|i: int| 0 <= i < idx as int + 1 implies !((#[trigger] iv.take(
                idx as int + 1,
            )[i]) is Help) by {
                if i < idx as int {
                    assert(iv.take(idx as int + 1)[i] == iv.take(idx as int)[i]);
                } else {
                    assert(iv.take(idx as int + 1)[i] == iv[idx as int]);
                }
            }
        }
        idx = idx + 1;
    }
    proof {
        assert(iv.take(n as int) =~= iv);
    }
    if !have_command {
        return Resolution::MissingCommand;
    }
    if watches.len() == 0 {
        watches.push(".".to_owned());
        proof {
            let dv = watches.deep_view();
            assert(dv =~= seq!["."@]);
            assert(dv[0] == "."@);
            assert(dv.contains("."@));
            assert forall|x: Seq<char>| #[trigger] dv.to_set().contains(x) implies x == "."@ by {
                let i = choose|i: int| 0 <= i < dv.len() && dv[i] == x;
                assert(x == dv[0]);
            }
            assert(dv.to_set() =~= set!["."@]);
            if has_watch(iv) {
                let i = choose|i: int| 0 <= i < iv.len() && iv[i] is Watch;
                assert(iv[i] == DslView::Watch(iv[i]->Watch_0));
                assert(watch_values(iv).contains(iv[i]->Watch_0));
                assert(false);
            }
        }
    } else {
        proof {
            assert(watches.deep_view()[0] == watches.deep_view()[0]);
            assert(watches.deep_view().contains(watches.deep_view()[0]));
            assert(watch_values(iv).contains(watches.deep_view()[0]));
            let i = choose|i: int|
                0 <= i < iv.len() && iv[i] == DslView::Watch(watches.deep_view()[0]);
            assert(has_watch(iv));
        }
    }
    let ghost user_ignores = ignores.deep_view().to_set();
    let nm = "node_modules".to_owned();
    insert_unique(&mut ignores, &nm);
    let tg = "target".to_owned();
    insert_unique(&mut ignores, &tg);
    let gi = ".git".to_owned();
    insert_unique(&mut ignores, &gi);
    proof {
        assert(ignores.deep_view().to_set() =~= ignore_values(iv).union(builtin_ignores()));
        assert(builtin_ignores().subset_of(ignores.deep_view().to_set()));
    }
    Resolution::Run(Config { watches, ignores, command })
}

} // verus!
