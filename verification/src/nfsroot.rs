//! The network root: from the `nfsroot=` option, and where it names no
//! server from the boot-server record, to the root, its type and its flags.

use crate::options::{text_view, CmdlineError, CmdlineOptions, ErrorView, OptionsView};
use crate::text::{chars_of, find_char, first_index, lemma_first_index, push_chars, same_text,
    split_once, string_of};
use vstd::prelude::*;
use vstd::string::*;

verus! {

/// Whether the options ask for a network root.
pub open spec fn nfs_selected(o: OptionsView) -> bool {
    o.root == Some("/dev/nfs"@) || o.rootfstype == Some("nfs"@)
}

/// The first line of the non-empty text `rec`: what stands before its first
/// line feed, without a carriage return that stands directly before that
/// line feed.
pub open spec fn first_line(rec: Seq<char>) -> Seq<char> {
    let n = first_index(rec, '\n') as int;
    let raw = rec.take(n);
    if n < rec.len() && raw.len() > 0 && raw.last() == '\r' {
        raw.drop_last()
    } else {
        raw
    }
}

/// What follows the first line of `rec`.
pub open spec fn after_first_line(rec: Seq<char>) -> Seq<char> {
    let n = first_index(rec, '\n') as int;
    if n < rec.len() {
        rec.skip(n + 1)
    } else {
        Seq::empty()
    }
}

/// The boot server that a record names: the value of its first line whose
/// key, the text before the line's first space, is `bootserver`.
pub open spec fn boot_server(rec: Seq<char>) -> Option<Seq<char>>
    decreases rec.len(),
{
    if rec.len() == 0 {
        None
    } else {
        match split_once(first_line(rec), ' ') {
            Some((key, value)) => if key == "bootserver"@ {
                Some(value)
            } else {
                boot_server(after_first_line(rec))
            },
            None => boot_server(after_first_line(rec)),
        }
    }
}

/// The root path that an `nfsroot=` value names: what stands before its
/// first comma.
pub open spec fn export_path(nfsroot: Seq<char>) -> Seq<char> {
    match split_once(nfsroot, ',') {
        Some((path, _)) => path,
        None => nfsroot,
    }
}

/// The mount flags of a network root up to the server's address: `nolock`,
/// the options that follow the first comma of the `nfsroot=` value, if any,
/// and `addr=`, with commas between them.
pub open spec fn address_flags(nfsroot: Seq<char>) -> Seq<char> {
    match split_once(nfsroot, ',') {
        Some((_, more)) => "nolock"@ + seq![','] + more + ",addr="@,
        None => "nolock"@ + ",addr="@,
    }
}

/// Whether the root path of an `nfsroot=` value names no server, so that the
/// boot-server record decides.
pub open spec fn needs_record(nfsroot: Seq<char>) -> bool {
    split_once(export_path(nfsroot), ':') is None
}

/// The name by which the boot-server record goes in an error.
pub open spec fn record_name() -> Seq<char> {
    "/proc/net/pnp"@
}

/// The boot-server record as it is handed in: its text, or the cause for
/// which it could not be read.
pub open spec fn record_view(record: Result<String, String>) -> Result<Seq<char>, Seq<char>> {
    match record {
        Ok(text) => Ok(text@),
        Err(cause) => Err(cause@),
    }
}

/// The options with root, type and flags of the network root filled in, the
/// rest unchanged; or the error: no `nfsroot=` value, or a record that was
/// needed and not there.
pub open spec fn resolve(o: OptionsView, record: Result<Seq<char>, Seq<char>>) -> Result<
    OptionsView,
    ErrorView,
> {
    match o.nfsroot {
        None => Err(ErrorView::MissingNfsRoot),
        Some(nfsroot) => {
            let path = export_path(nfsroot);
            let flags = address_flags(nfsroot);
            match split_once(path, ':') {
                Some((host, _)) => Ok(
                    OptionsView {
                        root: Some(path),
                        rootflags: Some(flags + host),
                        rootfstype: Some("nfs"@),
                        ..o
                    },
                ),
                None => match record {
                    Err(cause) => Err(ErrorView::ResourceUnavailable(record_name(), cause)),
                    Ok(rec) => match boot_server(rec) {
                        Some(host) => Ok(
                            OptionsView {
                                root: Some(host + seq![':'] + path),
                                rootflags: Some(flags + host),
                                rootfstype: Some("nfs"@),
                                ..o
                            },
                        ),
                        None => Ok(
                            OptionsView {
                                root: Some(path),
                                rootflags: Some(flags),
                                rootfstype: Some("nfs"@),
                                ..o
                            },
                        ),
                    },
                },
            }
        },
    }
}

/// Whether the options ask for a network root: the root is `/dev/nfs`, or
/// the type is `nfs`.
pub fn wants_nfs_root(options: &CmdlineOptions) -> (r: bool)
    ensures
        r == nfs_selected(options@),
{
    let by_root = match &options.root {
        Some(root) => same_text(root.as_str(), "/dev/nfs"),
        None => false,
    };
    let by_type = match &options.rootfstype {
        Some(kind) => same_text(kind.as_str(), "nfs"),
        None => false,
    };
    by_root || by_type
}

/// Whether resolving the network root of these options will read the
/// boot-server record: an `nfsroot=` value is there and its root path names
/// no server.
pub fn wants_record(options: &CmdlineOptions) -> (r: bool)
    ensures
        r == (options@.nfsroot is Some && needs_record(options@.nfsroot->0)),
{
    match &options.nfsroot {
        None => false,
        Some(nfsroot) => {
            let v = chars_of(nfsroot.as_str());
            let comma = find_char(&v, 0, v.len(), ',');
            let colon = find_char(&v, 0, comma, ':');
            proof {
                assert(v@.subrange(0, v.len() as int) =~= v@);
                assert(v@.subrange(0, comma as int) =~= v@.take(comma as int));
            }
            colon == comma
        },
    }
}

/// The boot server that the record names, if it names one.
pub fn find_boot_server(record: &str) -> (r: Option<String>)
    ensures
        text_view(r) == boot_server(record@),
{
    let rec = chars_of(record);
    let n = rec.len();
    let mut start: usize = 0;
    assert(rec@.skip(0) =~= rec@);
    while start < n
        invariant
            n == rec.len(),
            start <= n,
            rec@ == record@,
            boot_server(rec@) == boot_server(rec@.skip(start as int)),
        decreases n - start,
    {
        let ghost rest = rec@.skip(start as int);
        let newline = find_char(&rec, start, n, '\n');
        let mut end = newline;
        if newline < n && end > start && rec[end - 1] == '\r' {
            end = end - 1;
        }
        let space = find_char(&rec, start, end, ' ');
        proof {
            assert(rec@.subrange(start as int, n as int) =~= rest);
            assert(rec@.subrange(start as int, end as int) =~= first_line(rest));
            assert(first_line(rest).take(space - start) =~= rec@.subrange(
                start as int,
                space as int,
            ));
            if space < end {
                assert(first_line(rest).skip(space - start + 1) =~= rec@.subrange(
                    space as int + 1,
                    end as int,
                ));
            }
            if newline < n {
                assert(after_first_line(rest) =~= rec@.skip(newline as int + 1));
            } else {
                assert(after_first_line(rest) =~= rec@.skip(n as int));
            }
        }
        if space < end {
            let key = string_of(&rec, start, space);
            if same_text(key.as_str(), "bootserver") {
                let value = string_of(&rec, space + 1, end);
                return Some(value);
            }
        }
        if newline < n {
            start = newline + 1;
        } else {
            start = n;
        }
    }
    assert(rec@.skip(n as int) =~= Seq::<char>::empty());
    None
}

/// Fills in root, type and flags of a network root from the `nfsroot=`
/// value. The record is the text of the boot-server record, or the cause for
/// which it could not be read; it is looked at only where the value names no
/// server. On an error the options are left as they were.
pub fn parse_nfsroot(options: &mut CmdlineOptions, record: Result<String, String>) -> (r: Result<
    (),
    CmdlineError,
>)
    ensures
        match resolve(old(options)@, record_view(record)) {
            Ok(o) => r is Ok && final(options)@ == o,
            Err(e) => r is Err && r->Err_0@ == e && final(options)@ == old(options)@,
        },
        final(options).init == old(options).init,
{
    let v = match &options.nfsroot {
        None => {
            return Err(CmdlineError::MissingNfsRoot);
        },
        Some(nfsroot) => chars_of(nfsroot.as_str()),
    };
    let n = v.len();
    let comma = find_char(&v, 0, n, ',');
    let colon = find_char(&v, 0, comma, ':');
    let ghost text = v@;
    let ghost path = export_path(text);
    proof {
        assert(v@.subrange(0, n as int) =~= text);
        lemma_first_index(text, ',');
        assert(v@.subrange(0, comma as int) =~= path);
        reveal_strlit("nolock");
        reveal_strlit(",addr=");
    }
    let mut rootflags = String::from_str("nolock");
    push_chars(&mut rootflags, &v, comma, n);
    rootflags.append(",addr=");
    proof {
        if comma < n {
            assert(v@.subrange(comma as int, n as int) =~= seq![','] + text.skip(comma as int + 1));
        } else {
            assert(v@.subrange(comma as int, n as int) =~= Seq::<char>::empty());
        }
        assert(rootflags@ =~= address_flags(text));
    }
    let mut root = String::new();
    if colon < comma {
        push_chars(&mut rootflags, &v, 0, colon);
        assert(v@.subrange(0, colon as int) =~= path.take(colon as int));
    } else {
        match record {
            Err(cause) => {
                return Err(
                    CmdlineError::ResourceUnavailable(String::from_str("/proc/net/pnp"), cause),
                );
            },
            Ok(text) => match find_boot_server(text.as_str()) {
                Some(host) => {
                    rootflags.append(host.as_str());
                    root.append(host.as_str());
                    root.push(':');
                },
                None => {},
            },
        }
    }
    push_chars(&mut root, &v, 0, comma);
    assert(root@ =~= resolve(old(options)@, record_view(record))->Ok_0.root->0);
    assert(rootflags@ =~= resolve(old(options)@, record_view(record))->Ok_0.rootflags->0);
    options.root = Some(root);
    options.rootflags = Some(rootflags);
    options.rootfstype = Some(String::from_str("nfs"));
    Ok(())
}

/// A resolved network root has the type `nfs`, a root, and flags that begin
/// with `nolock`; the `nfsroot=` value, the mount flags and the first program
/// are as before.
pub proof fn lemma_resolved_shape(o: OptionsView, record: Result<Seq<char>, Seq<char>>)
    requires
        resolve(o, record) is Ok,
    ensures
        ({
            let n = resolve(o, record)->Ok_0;
            &&& n.rootfstype == Some("nfs"@)
            &&& n.root is Some
            &&& n.rootflags is Some
            &&& n.rootflags->0.len() >= 6
            &&& n.rootflags->0.take(6) == "nolock"@
            &&& n.nfsroot == o.nfsroot
            &&& n.rootfsflags == o.rootfsflags
            &&& n.init == o.init
        }),
{
    reveal_strlit("nolock");
    let n = resolve(o, record)->Ok_0;
    assert(n.rootflags->0.take(6) =~= "nolock"@);
}

/// Where the root path of the `nfsroot=` value holds no colon and the record
/// names no boot server, resolving succeeds, the root is that path as it
/// stands, and the flags end in `,addr=` with nothing after it.
pub proof fn lemma_no_server_leaves_address_empty(o: OptionsView, rec: Seq<char>)
    requires
        o.nfsroot is Some,
        !export_path(o.nfsroot->0).contains(':'),
        boot_server(rec) is None,
    ensures
        resolve(o, Ok(rec)) is Ok,
        resolve(o, Ok(rec))->Ok_0.root == Some(export_path(o.nfsroot->0)),
        resolve(o, Ok(rec))->Ok_0.rootflags == Some(address_flags(o.nfsroot->0)),
        address_flags(o.nfsroot->0).len() >= 6,
        address_flags(o.nfsroot->0).skip(address_flags(o.nfsroot->0).len() - 6) == ",addr="@,
{
    reveal_strlit(",addr=");
    lemma_first_index(export_path(o.nfsroot->0), ':');
    let f = address_flags(o.nfsroot->0);
    assert(f.skip(f.len() - 6) =~= ",addr="@);
}

/// Where the root path of the `nfsroot=` value holds no colon and the record
/// names a boot server, the root is the server, a colon and the path, and
/// the flags end in the server's name.
pub proof fn lemma_server_from_record(o: OptionsView, rec: Seq<char>)
    requires
        o.nfsroot is Some,
        !export_path(o.nfsroot->0).contains(':'),
        boot_server(rec) is Some,
    ensures
        resolve(o, Ok(rec)) is Ok,
        resolve(o, Ok(rec))->Ok_0.root == Some(
            boot_server(rec)->0 + seq![':'] + export_path(o.nfsroot->0),
        ),
        resolve(o, Ok(rec))->Ok_0.rootflags == Some(
            address_flags(o.nfsroot->0) + boot_server(rec)->0,
        ),
{
    lemma_first_index(export_path(o.nfsroot->0), ':');
}

/// Where the root path of the `nfsroot=` value names a server, the record is
/// not looked at: the root is that path, and the flags end in the server's
/// name, the text before the path's first colon.
pub proof fn lemma_server_in_value(o: OptionsView, record: Result<Seq<char>, Seq<char>>)
    requires
        o.nfsroot is Some,
        export_path(o.nfsroot->0).contains(':'),
    ensures
        resolve(o, record) is Ok,
        resolve(o, record)->Ok_0.root == Some(export_path(o.nfsroot->0)),
        resolve(o, record)->Ok_0.rootflags == Some(
            address_flags(o.nfsroot->0) + export_path(o.nfsroot->0).take(
                first_index(export_path(o.nfsroot->0), ':') as int,
            ),
        ),
{
    lemma_first_index(export_path(o.nfsroot->0), ':');
}

} // verus!
