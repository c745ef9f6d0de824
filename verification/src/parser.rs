//! The whole pass: the options of a command line applied in order, then the
//! network root resolved where the options ask for one.

use crate::nfsroot::{nfs_selected, parse_nfsroot, record_view, resolve, wants_nfs_root};
use crate::options::{apply_option, c_bytes, has_nul, is_flag_key, is_text_key,
    lemma_accepted_option, lemma_acceptance_is_by_option, lemma_c_bytes_nul_terminated,
    lemma_keys_differ, nul_terminated, parse_option, read_only, text_field, CmdlineError,
    CmdlineOptions, ErrorView, OptionsView};
use crate::tokenizer::{lemma_bare_value_is_kept, lemma_separator_splits, pairs_view, quote_open,
    tokenize, tokens, OptionPair, PairView};
use vstd::prelude::*;
use vstd::string::*;

verus! {

/// How a pass ends: the options as it leaves them, and the error that
/// stopped it, if one did.
pub struct Outcome {
    pub options: OptionsView,
    pub error: Option<ErrorView>,
}

/// The options `ps` applied to `o` in order, up to the first that is
/// refused.
pub open spec fn apply_all(o: OptionsView, ps: Seq<PairView>) -> Outcome
    decreases ps.len(),
{
    if ps.len() == 0 {
        Outcome { options: o, error: None }
    } else {
        let before = apply_all(o, ps.drop_last());
        if before.error is Some {
            before
        } else {
            match apply_option(before.options, ps.last().key, ps.last().value) {
                Ok(next) => Outcome { options: next, error: None },
                Err(e) => Outcome { options: before.options, error: Some(e) },
            }
        }
    }
}

/// The network root resolved in `o` if `o` asks for one.
pub open spec fn resolve_if_selected(o: OptionsView, record: Result<Seq<char>, Seq<char>>) -> Outcome {
    if nfs_selected(o) {
        match resolve(o, record) {
            Ok(next) => Outcome { options: next, error: None },
            Err(e) => Outcome { options: o, error: Some(e) },
        }
    } else {
        Outcome { options: o, error: None }
    }
}

/// What parsing the command line `cmdline` makes of the options `o`.
pub open spec fn parse_outcome(
    o: OptionsView,
    cmdline: Seq<char>,
    record: Result<Seq<char>, Seq<char>>,
) -> Outcome {
    let applied = apply_all(o, tokens(cmdline));
    if applied.error is Some {
        applied
    } else {
        resolve_if_selected(applied.options, record)
    }
}

/// Whether the options `o` and the result `r` are those of the outcome.
pub open spec fn reports(outcome: Outcome, o: OptionsView, r: Result<(), CmdlineError>) -> bool {
    &&& o == outcome.options
    &&& match outcome.error {
        None => r is Ok,
        Some(e) => r is Err && r->Err_0@ == e,
    }
}

/// Once an option is refused, the options that follow change nothing.
pub proof fn lemma_error_stops(o: OptionsView, ps: Seq<PairView>, k: int)
    requires
        0 <= k <= ps.len(),
        apply_all(o, ps.take(k)).error is Some,
    ensures
        apply_all(o, ps) == apply_all(o, ps.take(k)),
    decreases ps.len() - k,
{
    if k < ps.len() {
        assert(ps.take(k + 1).drop_last() =~= ps.take(k));
        lemma_error_stops(o, ps, k + 1);
    } else {
        assert(ps.take(k) =~= ps);
    }
}

/// Applies the options in order and stops at the first that is refused.
pub fn apply_options(pairs: Vec<OptionPair>, options: &mut CmdlineOptions) -> (r: Result<
    (),
    CmdlineError,
>)
    ensures
        reports(apply_all(old(options)@, pairs_view(pairs@)), final(options)@, r),
        nul_terminated(old(options).init@) ==> nul_terminated(final(options).init@),
{
    let ghost all = pairs_view(pairs@);
    let ghost start = options@;
    assert(all.take(0) =~= Seq::<PairView>::empty());
    for pair in it: pairs
        invariant
            start == old(options)@,
            all == pairs_view(pairs@),
            it.seq().len() == all.len(),
            forall|j: int| 0 <= j < all.len() ==> (#[trigger] it.seq()[j])@ == all[j],
            apply_all(start, all.take(it.index() as int)) == (Outcome {
                options: options@,
                error: None,
            }),
            nul_terminated(old(options).init@) ==> nul_terminated(options.init@),
    {
        let ghost i = it.index() as int;
        assert(all.take(i + 1).drop_last() =~= all.take(i));
        assert(all.take(i + 1).last() == pair@);
        let OptionPair { key, value } = pair;
        match parse_option(key, value, options) {
            Ok(()) => {},
            Err(e) => {
                proof {
                    lemma_error_stops(start, all, i + 1);
                }
                return Err(e);
            },
        }
    }
    assert(all.take(all.len() as int) =~= all);
    Ok(())
}

/// Parses a command line into the options: applies its options in order,
/// then, if they ask for a network root, resolves it with the boot-server
/// record, which is its text or the cause for which it could not be read. An
/// error stops the pass and leaves the options as they were at that point.
pub fn parse_cmdline(
    cmdline: String,
    options: &mut CmdlineOptions,
    record: Result<String, String>,
) -> (r: Result<(), CmdlineError>)
    ensures
        reports(
            parse_outcome(old(options)@, cmdline@, record_view(record)),
            final(options)@,
            r,
        ),
        nul_terminated(old(options).init@) ==> nul_terminated(final(options).init@),
{
    let pairs = tokenize(cmdline.as_str());
    match apply_options(pairs, options) {
        Ok(()) => {},
        Err(e) => {
            return Err(e);
        },
    }
    if wants_nfs_root(options) {
        parse_nfsroot(options, record)
    } else {
        Ok(())
    }
}

/// Among the options of a pass that is not stopped, the last one with a
/// given text key decides that key's field.
pub proof fn lemma_last_text_value_wins(o: OptionsView, ps: Seq<PairView>, i: int)
    requires
        0 <= i < ps.len(),
        is_text_key(ps[i].key),
        forall|j: int| i < j < ps.len() ==> (#[trigger] ps[j]).key != ps[i].key,
        apply_all(o, ps).error is None,
    ensures
        text_field(apply_all(o, ps).options, ps[i].key) == ps[i].value,
    decreases ps.len(),
{
    let before = apply_all(o, ps.drop_last());
    lemma_accepted_option(before.options, ps.last().key, ps.last().value);
    if i < ps.len() - 1 {
        assert(ps.drop_last()[i] == ps[i]);
        assert forall|j: int| i < j < ps.drop_last().len() implies (#[trigger] ps.drop_last()[j]).key
            != ps.drop_last()[i].key by {
            assert(ps.drop_last()[j] == ps[j]);
        }
        lemma_last_text_value_wins(o, ps.drop_last(), i);
    }
}

/// Among the options of a pass that is not stopped, the last `ro` or `rw`
/// decides the read-only bit: set after `ro`, clear after `rw`.
pub proof fn lemma_last_flag_wins(o: OptionsView, ps: Seq<PairView>, i: int)
    requires
        0 <= i < ps.len(),
        is_flag_key(ps[i].key),
        forall|j: int| i < j < ps.len() ==> !is_flag_key((#[trigger] ps[j]).key),
        apply_all(o, ps).error is None,
    ensures
        read_only(apply_all(o, ps).options) == (ps[i].key == "ro"@),
    decreases ps.len(),
{
    let before = apply_all(o, ps.drop_last());
    lemma_keys_differ();
    lemma_accepted_option(before.options, ps.last().key, ps.last().value);
    if i < ps.len() - 1 {
        assert(ps.drop_last()[i] == ps[i]);
        assert forall|j: int| i < j < ps.drop_last().len() implies !is_flag_key(
            (#[trigger] ps.drop_last()[j]).key,
        ) by {
            assert(ps.drop_last()[j] == ps[j]);
        }
        assert(!is_flag_key(ps[ps.len() - 1].key));
        lemma_last_flag_wins(o, ps.drop_last(), i);
    }
}

/// Among the options of a pass that is not stopped, the last `init` has a
/// value without a NUL byte, and the first program is that value's bytes
/// with a NUL byte after them.
pub proof fn lemma_last_init_wins(o: OptionsView, ps: Seq<PairView>, i: int)
    requires
        0 <= i < ps.len(),
        ps[i].key == "init"@,
        forall|j: int| i < j < ps.len() ==> (#[trigger] ps[j]).key != "init"@,
        apply_all(o, ps).error is None,
    ensures
        ps[i].value is Some,
        !has_nul(ps[i].value->0),
        apply_all(o, ps).options.init == c_bytes(ps[i].value->0),
        nul_terminated(apply_all(o, ps).options.init),
    decreases ps.len(),
{
    let before = apply_all(o, ps.drop_last());
    lemma_accepted_option(before.options, ps.last().key, ps.last().value);
    if i < ps.len() - 1 {
        assert(ps.drop_last()[i] == ps[i]);
        assert forall|j: int| i < j < ps.drop_last().len() implies (#[trigger] ps.drop_last()[j]).key
            != "init"@ by {
            assert(ps.drop_last()[j] == ps[j]);
        }
        assert(ps[ps.len() - 1].key != "init"@);
        lemma_last_init_wins(o, ps.drop_last(), i);
    }
    lemma_c_bytes_nul_terminated(ps[i].value->0);
}

/// Two options with different keys, not both of `ro` and `rw`, give the same
/// options in either order, and are accepted in one order if and only if
/// they are in the other.
pub proof fn lemma_different_keys_commute(o: OptionsView, a: PairView, b: PairView)
    requires
        a.key != b.key,
        !(is_flag_key(a.key) && is_flag_key(b.key)),
    ensures
        apply_all(o, seq![a, b]).error is None <==> apply_all(o, seq![b, a]).error is None,
        apply_all(o, seq![a, b]).error is None ==> apply_all(o, seq![a, b]).options == apply_all(
            o,
            seq![b, a],
        ).options,
{
    let e = Seq::<PairView>::empty();
    assert(seq![a, b].drop_last() =~= seq![a]);
    assert(seq![b, a].drop_last() =~= seq![b]);
    assert(seq![a].drop_last() =~= e);
    assert(seq![b].drop_last() =~= e);
    assert(apply_all(o, e).options == o && apply_all(o, e).error is None);
    let after_a = apply_all(o, seq![a]);
    let after_b = apply_all(o, seq![b]);
    lemma_acceptance_is_by_option(o, after_a.options, b.key, b.value);
    lemma_acceptance_is_by_option(o, after_b.options, a.key, a.value);
    lemma_keys_differ();
}

/// Applying one run of options and then another is applying the second run
/// to what the first leaves, unless the first is stopped.
pub proof fn lemma_apply_all_concat(o: OptionsView, x: Seq<PairView>, y: Seq<PairView>)
    ensures
        apply_all(o, x + y) == if apply_all(o, x).error is Some {
            apply_all(o, x)
        } else {
            apply_all(apply_all(o, x).options, y)
        },
    decreases y.len(),
{
    if y.len() == 0 {
        assert(x + y =~= x);
    } else {
        assert((x + y).drop_last() =~= x + y.drop_last());
        lemma_apply_all_concat(o, x, y.drop_last());
    }
}

/// Swapping two neighbours with different keys, not both of `ro` and `rw`,
/// anywhere among the options changes neither whether the pass is stopped
/// nor, if it is not, the options it leaves.
pub proof fn lemma_swap_neighbours(
    o: OptionsView,
    front: Seq<PairView>,
    a: PairView,
    b: PairView,
    back: Seq<PairView>,
)
    requires
        a.key != b.key,
        !(is_flag_key(a.key) && is_flag_key(b.key)),
    ensures
        apply_all(o, front + seq![a, b] + back).error is None <==> apply_all(
            o,
            front + seq![b, a] + back,
        ).error is None,
        apply_all(o, front + seq![a, b] + back).error is None ==> apply_all(
            o,
            front + seq![a, b] + back,
        ).options == apply_all(o, front + seq![b, a] + back).options,
{
    lemma_apply_all_concat(o, front, seq![a, b]);
    lemma_apply_all_concat(o, front, seq![b, a]);
    lemma_apply_all_concat(o, front + seq![a, b], back);
    lemma_apply_all_concat(o, front + seq![b, a], back);
    lemma_different_keys_commute(apply_all(o, front).options, a, b);
}

/// What parsing makes of the read-only bit and of the first program is what
/// applying the options of the command line makes of them: resolving the
/// network root touches neither, nor the `nfsroot=` value.
pub proof fn lemma_resolution_keeps(
    o: OptionsView,
    cmdline: Seq<char>,
    record: Result<Seq<char>, Seq<char>>,
)
    ensures
        ({
            let applied = apply_all(o, tokens(cmdline)).options;
            let parsed = parse_outcome(o, cmdline, record).options;
            &&& parsed.rootfsflags == applied.rootfsflags
            &&& parsed.init == applied.init
            &&& parsed.nfsroot == applied.nfsroot
            &&& !nfs_selected(applied) ==> parsed == applied
        }),
{
}

/// In a command line that is parsed without error, the last `ro` or `rw`
/// decides the read-only bit.
pub proof fn lemma_parse_last_flag_wins(
    o: OptionsView,
    cmdline: Seq<char>,
    record: Result<Seq<char>, Seq<char>>,
    i: int,
)
    requires
        0 <= i < tokens(cmdline).len(),
        is_flag_key(tokens(cmdline)[i].key),
        forall|j: int|
            i < j < tokens(cmdline).len() ==> !is_flag_key((#[trigger] tokens(cmdline)[j]).key),
        parse_outcome(o, cmdline, record).error is None,
    ensures
        read_only(parse_outcome(o, cmdline, record).options) == (tokens(cmdline)[i].key == "ro"@),
{
    lemma_resolution_keeps(o, cmdline, record);
    lemma_last_flag_wins(o, tokens(cmdline), i);
}

/// In a command line that is parsed without error, the last `init=` option
/// decides the first program: its value, as bytes with a NUL byte after
/// them.
pub proof fn lemma_parse_last_init_wins(
    o: OptionsView,
    cmdline: Seq<char>,
    record: Result<Seq<char>, Seq<char>>,
    i: int,
)
    requires
        0 <= i < tokens(cmdline).len(),
        tokens(cmdline)[i].key == "init"@,
        forall|j: int| i < j < tokens(cmdline).len() ==> (#[trigger] tokens(cmdline)[j]).key != "init"@,
        parse_outcome(o, cmdline, record).error is None,
    ensures
        tokens(cmdline)[i].value is Some,
        parse_outcome(o, cmdline, record).options.init == c_bytes(tokens(cmdline)[i].value->0),
        nul_terminated(parse_outcome(o, cmdline, record).options.init),
{
    lemma_resolution_keeps(o, cmdline, record);
    lemma_last_init_wins(o, tokens(cmdline), i);
}

/// In a command line that is parsed without error, the last option with a
/// given text key decides that key's field, unless the options ask for a
/// network root, which rewrites root, type and flags; the `nfsroot=` value
/// itself is kept in either case.
pub proof fn lemma_parse_last_text_value_wins(
    o: OptionsView,
    cmdline: Seq<char>,
    record: Result<Seq<char>, Seq<char>>,
    i: int,
)
    requires
        0 <= i < tokens(cmdline).len(),
        is_text_key(tokens(cmdline)[i].key),
        forall|j: int|
            i < j < tokens(cmdline).len() ==> (#[trigger] tokens(cmdline)[j]).key != tokens(
                cmdline,
            )[i].key,
        parse_outcome(o, cmdline, record).error is None,
        tokens(cmdline)[i].key == "nfsroot"@ || !nfs_selected(
            apply_all(o, tokens(cmdline)).options,
        ),
    ensures
        text_field(parse_outcome(o, cmdline, record).options, tokens(cmdline)[i].key) == tokens(
            cmdline,
        )[i].value,
{
    lemma_resolution_keeps(o, cmdline, record);
    lemma_keys_differ();
    lemma_last_text_value_wins(o, tokens(cmdline), i);
}

/// A command line whose last option is `init=` and a path gives that path
/// back as the first program: where what stands before it is accepted and
/// leaves no quote open, and the path holds no separator, no double quote
/// and no NUL character, the options are accepted and the first program is
/// the path's bytes with a NUL byte after them.
pub proof fn lemma_init_round_trip(
    o: OptionsView,
    front: Seq<char>,
    path: Seq<char>,
    record: Result<Seq<char>, Seq<char>>,
)
    requires
        !quote_open(front),
        forall|i: int|
            0 <= i < path.len() ==> (#[trigger] path[i]) != '"' && path[i] != ' ' && path[i]
                != '\n',
        !has_nul(path),
        apply_all(o, tokens(front)).error is None,
    ensures
        tokens(front + seq![' '] + "init="@ + path) == tokens(front) + seq![
            PairView { key: "init"@, value: Some(path) },
        ],
        apply_all(o, tokens(front + seq![' '] + "init="@ + path)).error is None,
        parse_outcome(o, front + seq![' '] + "init="@ + path, record).options.init == c_bytes(path),
{
    let cmdline = front + seq![' '] + "init="@ + path;
    let option = "init"@ + seq!['='] + path;
    let pair = PairView { key: "init"@, value: Some(path) };
    reveal_strlit("init");
    reveal_strlit("init=");
    assert("init="@ =~= "init"@ + seq!['=']);
    assert(cmdline =~= front + seq![' '] + option);
    lemma_bare_value_is_kept("init"@, path);
    lemma_separator_splits(front, ' ', option);
    lemma_apply_all_concat(o, tokens(front), seq![pair]);
    let applied = apply_all(o, tokens(front)).options;
    assert(seq![pair].drop_last() =~= Seq::<PairView>::empty());
    assert(apply_all(applied, Seq::<PairView>::empty()).options == applied);
    lemma_keys_differ();
    lemma_resolution_keeps(o, cmdline, record);
}

} // verus!
