//! The tokenizer: from the characters of a command line to its options, each
//! a key with or without a value.

use crate::options::text_view;
use crate::text::{first_index, lemma_first_index, lemma_first_index_push, split_once};
use vstd::prelude::*;
use vstd::string::*;

verus! {

/// One option of a command line.
#[derive(Debug, PartialEq, Eq)]
pub struct OptionPair {
    pub key: String,
    pub value: Option<String>,
}

/// An `OptionPair` as plain values.
pub struct PairView {
    pub key: Seq<char>,
    pub value: Option<Seq<char>>,
}

impl View for OptionPair {
    type V = PairView;

    open spec fn view(&self) -> PairView {
        PairView { key: self.key@, value: text_view(self.value) }
    }
}

/// The options of a vector, each as plain values.
pub open spec fn pairs_view(v: Seq<OptionPair>) -> Seq<PairView> {
    v.map_values(|p: OptionPair| p@)
}

/// What the tokenizer holds between two characters: the key and the value
/// read so far of the option it is in, whether that option's `=` has been
/// seen, and whether a double quote is open.
pub struct ScanState {
    pub key: Seq<char>,
    pub value: Seq<char>,
    pub have_value: bool,
    pub quoted: bool,
}

/// The state at the start of an option, outside quotes.
pub open spec fn fresh() -> ScanState {
    ScanState { key: Seq::empty(), value: Seq::empty(), have_value: false, quoted: false }
}

/// Whether `c` ends the option that the tokenizer is in: a space or a newline
/// outside quotes.
pub open spec fn ends_option(st: ScanState, c: char) -> bool {
    !st.quoted && (c == ' ' || c == '\n')
}

/// The option that is complete when the option in `st` ends: none if its key
/// is empty, else the key, with the value if an `=` was seen.
pub open spec fn pending(st: ScanState) -> Seq<PairView> {
    if st.key.len() == 0 {
        Seq::empty()
    } else {
        seq![PairView { key: st.key, value: if st.have_value { Some(st.value) } else { None } }]
    }
}

/// The state after the character `c`. A separator outside quotes starts a new
/// option; a double quote opens or closes quoting and is dropped; the first
/// `=` of an option starts its value and is dropped; every other character
/// goes to the value if it has started, else to the key.
pub open spec fn step(st: ScanState, c: char) -> ScanState {
    if ends_option(st, c) {
        fresh()
    } else if c == '"' {
        ScanState { quoted: !st.quoted, ..st }
    } else if c == '=' && !st.have_value {
        ScanState { have_value: true, ..st }
    } else if st.have_value {
        ScanState { value: st.value.push(c), ..st }
    } else {
        ScanState { key: st.key.push(c), ..st }
    }
}

/// The tokenizer after some characters: its state, and the options that are
/// complete.
pub struct Scan {
    pub state: ScanState,
    pub done: Seq<PairView>,
}

/// The tokenizer after the characters `s`, started from `st` with `done`
/// complete.
pub open spec fn scan_from(st: ScanState, done: Seq<PairView>, s: Seq<char>) -> Scan
    decreases s.len(),
{
    if s.len() == 0 {
        Scan { state: st, done }
    } else {
        let before = scan_from(st, done, s.drop_last());
        Scan {
            state: step(before.state, s.last()),
            done: if ends_option(before.state, s.last()) {
                before.done + pending(before.state)
            } else {
                before.done
            },
        }
    }
}

/// The tokenizer after the characters `s` of a command line.
pub open spec fn scan(s: Seq<char>) -> Scan {
    scan_from(fresh(), Seq::empty(), s)
}

/// The options of the command line `s`, in the order in which they stand:
/// those that a separator ended, then the one that the end of `s` ends.
pub open spec fn tokens(s: Seq<char>) -> Seq<PairView> {
    scan(s).done + pending(scan(s).state)
}

/// Splits a command line into its options.
pub fn tokenize(cmdline: &str) -> (out: Vec<OptionPair>)
    ensures
        pairs_view(out@) == tokens(cmdline@),
{
    let mut out: Vec<OptionPair> = Vec::new();
    let mut have_value = false;
    let mut quoted = false;
    let mut key = String::new();
    let mut value = String::new();
    assert(pairs_view(out@) =~= Seq::<PairView>::empty());
    for c in it: cmdline.chars()
        invariant
            it.seq() == cmdline@,
            scan(cmdline@.take(it.index() as int)) == (Scan {
                state: ScanState { key: key@, value: value@, have_value, quoted },
                done: pairs_view(out@),
            }),
    {
        let ghost i = it.index() as int;
        assert(cmdline@.take(i + 1).drop_last() =~= cmdline@.take(i));
        assert(cmdline@.take(i + 1).last() == c);
        if !quoted && (c == ' ' || c == '\n') {
            if !key.as_str().is_empty() {
                let ghost before = out@;
                let pair = OptionPair { key, value: if have_value { Some(value) } else { None } };
                out.push(pair);
                assert(pairs_view(out@) =~= pairs_view(before) + seq![pair@]);
            } else {
                assert(pairs_view(out@) + Seq::<PairView>::empty() =~= pairs_view(out@));
            }
            key = String::new();
            value = String::new();
            have_value = false;
        } else if c == '"' {
            quoted = !quoted;
        } else if c == '=' && !have_value {
            have_value = true;
        } else if have_value {
            value.push(c);
        } else {
            key.push(c);
        }
    }
    assert(cmdline@.take(cmdline@.len() as int) =~= cmdline@);
    if !key.as_str().is_empty() {
        let ghost before = out@;
        let pair = OptionPair { key, value: if have_value { Some(value) } else { None } };
        out.push(pair);
        assert(pairs_view(out@) =~= pairs_view(before) + seq![pair@]);
    } else {
        assert(pairs_view(out@) + Seq::<PairView>::empty() =~= pairs_view(out@));
    }
    out
}

/// Scanning a text in two parts is scanning the second part from where the
/// first part ends.
pub proof fn lemma_scan_concat(st: ScanState, done: Seq<PairView>, a: Seq<char>, b: Seq<char>)
    ensures
        scan_from(st, done, a + b) == scan_from(
            scan_from(st, done, a).state,
            scan_from(st, done, a).done,
            b,
        ),
    decreases b.len(),
{
    if b.len() == 0 {
        assert(a + b =~= a);
    } else {
        assert((a + b).drop_last() =~= a + b.drop_last());
        lemma_scan_concat(st, done, a, b.drop_last());
    }
}

/// The options that were complete before a scan stay in front of those that
/// the scan completes, and do not change where the scan ends.
pub proof fn lemma_scan_keeps_done(st: ScanState, done: Seq<PairView>, s: Seq<char>)
    ensures
        scan_from(st, done, s).state == scan_from(st, Seq::empty(), s).state,
        scan_from(st, done, s).done == done + scan_from(st, Seq::empty(), s).done,
    decreases s.len(),
{
    if s.len() == 0 {
        assert(done + Seq::<PairView>::empty() =~= done);
    } else {
        lemma_scan_keeps_done(st, done, s.drop_last());
        let before = scan_from(st, Seq::empty(), s.drop_last());
        assert((done + before.done) + pending(before.state) =~= done + (before.done + pending(
            before.state,
        )));
    }
}

/// A space or newline outside quotes splits a command line: the options of
/// the whole are those of what stands before it, then those of what stands
/// after it.
pub proof fn lemma_separator_splits(a: Seq<char>, c: char, b: Seq<char>)
    requires
        !quote_open(a),
        c == ' ' || c == '\n',
    ensures
        tokens(a + seq![c] + b) == tokens(a) + tokens(b),
{
    let head = a + seq![c];
    lemma_quoted_is_parity(a);
    assert(head.drop_last() =~= a);
    assert(head.last() == c);
    assert(scan(head).state == fresh());
    assert(scan(head).done == tokens(a));
    lemma_scan_concat(fresh(), Seq::empty(), head, b);
    lemma_scan_keeps_done(fresh(), tokens(a), b);
    assert(tokens(head + b) =~= tokens(a) + tokens(b));
}

/// Whether `c` is a character that a key can hold: no separator, no double
/// quote and no `=`.
pub open spec fn key_char(c: char) -> bool {
    c != ' ' && c != '\n' && c != '"' && c != '='
}

/// Before the `=` of an option, characters that a key can hold go to the
/// key.
pub proof fn lemma_scan_key(st: ScanState, done: Seq<PairView>, s: Seq<char>)
    requires
        !st.have_value,
        forall|i: int| 0 <= i < s.len() ==> key_char(#[trigger] s[i]),
    ensures
        scan_from(st, done, s) == (Scan { state: ScanState { key: st.key + s, ..st }, done }),
    decreases s.len(),
{
    if s.len() == 0 {
        assert(st.key + s =~= st.key);
    } else {
        lemma_scan_key(st, done, s.drop_last());
        assert(key_char(s[s.len() - 1]));
        assert((st.key + s.drop_last()).push(s.last()) =~= st.key + s);
    }
}

/// After the `=` of an option, every character but a double quote goes to
/// the value: inside quotes all of them, outside quotes all but the
/// separators.
pub proof fn lemma_scan_value(st: ScanState, done: Seq<PairView>, s: Seq<char>)
    requires
        st.have_value,
        forall|i: int|
            0 <= i < s.len() ==> (#[trigger] s[i]) != '"' && (st.quoted || (s[i] != ' ' && s[i]
                != '\n')),
    ensures
        scan_from(st, done, s) == (Scan { state: ScanState { value: st.value + s, ..st }, done }),
    decreases s.len(),
{
    if s.len() == 0 {
        assert(st.value + s =~= st.value);
    } else {
        lemma_scan_value(st, done, s.drop_last());
        assert(s[s.len() - 1] != '"');
        assert((st.value + s.drop_last()).push(s.last()) =~= st.value + s);
    }
}

/// A key, `=` and a value without separators or double quotes are one
/// option with that key and that value: an `=` inside the value stays in it.
pub proof fn lemma_bare_value_is_kept(key: Seq<char>, value: Seq<char>)
    requires
        key.len() > 0,
        forall|i: int| 0 <= i < key.len() ==> key_char(#[trigger] key[i]),
        forall|i: int|
            0 <= i < value.len() ==> (#[trigger] value[i]) != '"' && value[i] != ' ' && value[i]
                != '\n',
    ensures
        tokens(key + seq!['='] + value) == seq![PairView { key, value: Some(value) }],
{
    let none = Seq::<PairView>::empty();
    let head = key + seq!['='];
    lemma_scan_key(fresh(), none, key);
    assert(fresh().key + key =~= key);
    assert(head.drop_last() =~= key);
    assert(head.last() == '=');
    lemma_scan_concat(fresh(), none, head, value);
    lemma_scan_value(scan(head).state, scan(head).done, value);
    assert(scan(head).state.value + value =~= value);
    assert(tokens(head + value) =~= seq![PairView { key, value: Some(value) }]);
}

/// A key, `=` and a value between double quotes are one option with that key
/// and that value, whatever spaces and newlines the value holds.
pub proof fn lemma_quoted_value_is_one_option(key: Seq<char>, value: Seq<char>)
    requires
        key.len() > 0,
        forall|i: int| 0 <= i < key.len() ==> key_char(#[trigger] key[i]),
        forall|i: int| 0 <= i < value.len() ==> (#[trigger] value[i]) != '"',
    ensures
        tokens(key + seq!['=', '"'] + value + seq!['"']) == seq![
            PairView { key, value: Some(value) },
        ],
{
    let none = Seq::<PairView>::empty();
    let head = key + seq!['='];
    let open = head + seq!['"'];
    let body = open + value;
    let whole = body + seq!['"'];
    lemma_scan_key(fresh(), none, key);
    assert(fresh().key + key =~= key);
    assert(head.drop_last() =~= key);
    assert(head.last() == '=');
    assert(scan(head).state == ScanState { have_value: true, ..scan(key).state });
    assert(open.drop_last() =~= head);
    assert(open.last() == '"');
    assert(scan(open).state == ScanState { quoted: true, ..scan(head).state });
    lemma_scan_concat(fresh(), none, open, value);
    lemma_scan_value(scan(open).state, scan(open).done, value);
    assert(scan(open).state.value + value =~= value);
    assert(whole.drop_last() =~= body);
    assert(whole.last() == '"');
    assert(whole =~= key + seq!['=', '"'] + value + seq!['"']);
    assert(tokens(whole) =~= seq![PairView { key, value: Some(value) }]);
}

/// Whether a double quote is open after the text `s`: the number of double
/// quotes in `s` is odd.
pub open spec fn quote_open(s: Seq<char>) -> bool {
    s.filter(|c: char| c == '"').len() % 2 == 1
}

/// The text `s` without its double quotes.
pub open spec fn unquoted(s: Seq<char>) -> Seq<char> {
    s.filter(|c: char| c != '"')
}

/// Whether every space and newline of `s` stands inside quotes.
pub open spec fn no_bare_separator(s: Seq<char>) -> bool {
    forall|i: int|
        0 <= i < s.len() && (#[trigger] s[i] == ' ' || s[i] == '\n') ==> quote_open(s.take(i))
}

/// The option that a text without quotes and without separators to split it
/// stands for: the key is what stands before the first `=`, the value what
/// stands after it; without `=` the whole text is the key and there is no
/// value; and with an empty key there is no option.
pub open spec fn option_of(text: Seq<char>) -> Seq<PairView> {
    match split_once(text, '=') {
        Some((key, value)) => if key.len() == 0 {
            Seq::empty()
        } else {
            seq![PairView { key, value: Some(value) }]
        },
        None => if text.len() == 0 {
            Seq::empty()
        } else {
            seq![PairView { key: text, value: None }]
        },
    }
}

/// The tokenizer is inside quotes exactly when the number of double quotes
/// it has read is odd.
pub proof fn lemma_quoted_is_parity(s: Seq<char>)
    ensures
        scan(s).state.quoted == quote_open(s),
    decreases s.len(),
{
    reveal(Seq::filter);
    if s.len() > 0 {
        lemma_quoted_is_parity(s.drop_last());
    }
}

/// What the tokenizer holds after a text in which no separator stands
/// outside quotes: no option is complete; the key is the text, without its
/// quotes, up to the first `=`; and the value is what follows that `=`.
pub proof fn lemma_scan_one_option(s: Seq<char>)
    requires
        no_bare_separator(s),
    ensures
        ({
            let st = scan(s).state;
            let text = unquoted(s);
            let at = first_index(text, '=') as int;
            &&& scan(s).done == Seq::<PairView>::empty()
            &&& st.have_value == (at < text.len())
            &&& st.key == text.take(at)
            &&& st.value == if at < text.len() {
                text.skip(at + 1)
            } else {
                Seq::empty()
            }
        }),
    decreases s.len(),
{
    reveal(Seq::filter);
    lemma_first_index(unquoted(s), '=');
    if s.len() == 0 {
        assert(unquoted(s).take(0) =~= Seq::<char>::empty());
    } else {
        let p = s.drop_last();
        let c = s.last();
        assert forall|i: int| 0 <= i < p.len() && (#[trigger] p[i] == ' ' || p[i] == '\n') implies quote_open(
            p.take(i),
        ) by {
            assert(p[i] == s[i]);
            assert(p.take(i) =~= s.take(i));
        }
        lemma_scan_one_option(p);
        lemma_quoted_is_parity(p);
        assert(s.take(s.len() - 1) =~= p);
        assert(s[s.len() - 1] == c);
        let before = unquoted(p);
        let at = first_index(before, '=') as int;
        lemma_first_index(before, '=');
        if c != '"' {
            let text = unquoted(s);
            assert(text == before.push(c));
            lemma_first_index_push(before, '=', c);
            if at < before.len() {
                assert(text.take(at) =~= before.take(at));
                assert(text.skip(at + 1) =~= before.skip(at + 1).push(c));
            } else if c == '=' {
                assert(text.take(at) =~= before.take(at));
                assert(text.skip(at + 1) =~= Seq::<char>::empty());
            } else {
                assert(text.take(at + 1) =~= before.take(at).push(c));
            }
        }
    }
}

/// A text in which no separator stands outside quotes is at most one option:
/// the one that the text without its quotes stands for.
pub proof fn lemma_one_option(s: Seq<char>)
    requires
        no_bare_separator(s),
    ensures
        tokens(s) == option_of(unquoted(s)),
{
    lemma_scan_one_option(s);
    let text = unquoted(s);
    lemma_first_index(text, '=');
    let at = first_index(text, '=') as int;
    if at == text.len() {
        assert(text.take(at) =~= text);
    }
    assert(tokens(s) =~= option_of(text));
}

} // verus!
