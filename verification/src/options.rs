//! The options record, the errors, and what one option does to the record.

use crate::flags::{lemma_read_only_bit, rdonly_bits, MountFlags};
use crate::text::same_text;
use vstd::prelude::*;
use vstd::string::*;
use vstd::utf8::{encode_scalar, encode_utf8};

verus! {

/// Why a command line was refused.
#[derive(Debug, PartialEq, Eq)]
pub enum CmdlineError {
    /// The option with this key needs a value and came without one.
    MissingArgument(String),
    /// The value of the option with this key cannot be used, for this reason.
    InvalidValue(String, String),
    /// A network root was asked for and no `nfsroot=` option was given.
    MissingNfsRoot,
    /// This resource was needed and could not be had, for this cause.
    ResourceUnavailable(String, String),
}

/// A `CmdlineError` with its strings as sequences of characters.
pub enum ErrorView {
    MissingArgument(Seq<char>),
    InvalidValue(Seq<char>, Seq<char>),
    MissingNfsRoot,
    ResourceUnavailable(Seq<char>, Seq<char>),
}

impl View for CmdlineError {
    type V = ErrorView;

    open spec fn view(&self) -> ErrorView {
        match self {
            CmdlineError::MissingArgument(key) => ErrorView::MissingArgument(key@),
            CmdlineError::InvalidValue(key, reason) => ErrorView::InvalidValue(key@, reason@),
            CmdlineError::MissingNfsRoot => ErrorView::MissingNfsRoot,
            CmdlineError::ResourceUnavailable(resource, cause) => ErrorView::ResourceUnavailable(
                resource@,
                cause@,
            ),
        }
    }
}

/// The text that tells of an error.
pub open spec fn message_text(e: ErrorView) -> Seq<char> {
    match e {
        ErrorView::MissingArgument(key) => "Cmdline option '"@ + key + "' must have an argument!"@,
        ErrorView::InvalidValue(key, reason) => "Cmdline option '"@ + key + "' is invalid: "@
            + reason,
        ErrorView::MissingNfsRoot => "Missing nfsroot command-line option!"@,
        ErrorView::ResourceUnavailable(resource, cause) => "Failed to read "@ + resource + ": "@
            + cause,
    }
}

impl CmdlineError {
    /// The error in words, with the key or the resource that it is about.
    pub fn message(&self) -> (r: String)
        ensures
            r@ == message_text(self@),
    {
        match self {
            CmdlineError::MissingArgument(key) => {
                let mut text = String::from_str("Cmdline option '");
                text.append(key.as_str());
                text.append("' must have an argument!");
                text
            },
            CmdlineError::InvalidValue(key, reason) => {
                let mut text = String::from_str("Cmdline option '");
                text.append(key.as_str());
                text.append("' is invalid: ");
                text.append(reason.as_str());
                text
            },
            CmdlineError::MissingNfsRoot => String::from_str("Missing nfsroot command-line option!"),
            CmdlineError::ResourceUnavailable(resource, cause) => {
                let mut text = String::from_str("Failed to read ");
                text.append(resource.as_str());
                text.append(": ");
                text.append(cause.as_str());
                text
            },
        }
    }
}

/// How the root filesystem is mounted and which program is started first.
#[derive(Debug, PartialEq, Eq)]
pub struct CmdlineOptions {
    pub root: Option<String>,
    pub rootfstype: Option<String>,
    pub rootflags: Option<String>,
    pub rootfsflags: MountFlags,
    pub nfsroot: Option<String>,
    /// The path of the first program, as bytes that end in a NUL byte.
    pub init: Vec<u8>,
}

/// A `CmdlineOptions` as plain values.
pub struct OptionsView {
    pub root: Option<Seq<char>>,
    pub rootfstype: Option<Seq<char>>,
    pub rootflags: Option<Seq<char>>,
    pub rootfsflags: u64,
    pub nfsroot: Option<Seq<char>>,
    pub init: Seq<u8>,
}

/// The characters of an optional string.
pub open spec fn text_view(s: Option<String>) -> Option<Seq<char>> {
    match s {
        Some(t) => Some(t@),
        None => None,
    }
}

impl View for CmdlineOptions {
    type V = OptionsView;

    open spec fn view(&self) -> OptionsView {
        OptionsView {
            root: text_view(self.root),
            rootfstype: text_view(self.rootfstype),
            rootflags: text_view(self.rootflags),
            rootfsflags: self.rootfsflags.bits,
            nfsroot: text_view(self.nfsroot),
            init: self.init@,
        }
    }
}

/// The UTF-8 bytes of a text, followed by one NUL byte.
pub open spec fn c_bytes(s: Seq<char>) -> Seq<u8> {
    encode_utf8(s).push(0u8)
}

/// Whether a text holds the NUL character.
pub open spec fn has_nul(s: Seq<char>) -> bool {
    s.contains('\0')
}

/// The UTF-8 bytes of one character hold a NUL byte if and only if it is the
/// NUL character.
pub proof fn lemma_nul_byte_of_char(c: char)
    ensures
        encode_scalar(c as u32).contains(0u8) <==> c == '\0',
{
    let v = c as u32;
    let b = encode_scalar(v);
    assert(v <= 0x7F ==> ((v & 0x7F) as u8 == 0u8 <==> v == 0)) by (bit_vector);
    assert(0xC0u8 | ((v >> 6) & 0x1F) as u8 != 0u8) by (bit_vector);
    assert(0xE0u8 | ((v >> 12) & 0x0F) as u8 != 0u8) by (bit_vector);
    assert(0xF0u8 | ((v >> 18) & 0x7) as u8 != 0u8) by (bit_vector);
    assert(0x80u8 | (v & 0x3F) as u8 != 0u8) by (bit_vector);
    assert(0x80u8 | ((v >> 6) & 0x3F) as u8 != 0u8) by (bit_vector);
    assert(0x80u8 | ((v >> 12) & 0x3F) as u8 != 0u8) by (bit_vector);
    if c == '\0' {
        assert(b[0] == 0u8);
    }
    if b.contains(0u8) {
        let k = choose|k: int| 0 <= k < b.len() && b[k] == 0u8;
        assert(b[k] == 0u8);
    }
}

/// The UTF-8 bytes of a text hold a NUL byte if and only if the text holds
/// the NUL character.
pub proof fn lemma_nul_bytes(s: Seq<char>)
    ensures
        encode_utf8(s).contains(0u8) <==> has_nul(s),
    decreases s.len(),
{
    if s.len() > 0 {
        let head = encode_scalar(s[0] as u32);
        let rest = s.drop_first();
        let tail = encode_utf8(rest);
        let all = encode_utf8(s);
        assert(all == head + tail);
        lemma_nul_byte_of_char(s[0]);
        lemma_nul_bytes(rest);
        if all.contains(0u8) {
            let k = choose|k: int| 0 <= k < all.len() && all[k] == 0u8;
            if k < head.len() {
                assert(head[k] == 0u8);
                assert(s[0] == '\0');
            } else {
                assert(tail[k - head.len()] == 0u8);
                let j = choose|j: int| 0 <= j < rest.len() && rest[j] == '\0';
                assert(s[j + 1] == '\0');
            }
        }
        if s.contains('\0') {
            let j = choose|j: int| 0 <= j < s.len() && s[j] == '\0';
            if j == 0 {
                let k = choose|k: int| 0 <= k < head.len() && head[k] == 0u8;
                assert(all[k] == 0u8);
            } else {
                assert(rest[j - 1] == '\0');
                let k = choose|k: int| 0 <= k < tail.len() && tail[k] == 0u8;
                assert(all[head.len() + k] == 0u8);
            }
        }
    }
}

/// Whether a byte string ends in a NUL byte and holds no other.
pub open spec fn nul_terminated(b: Seq<u8>) -> bool {
    &&& b.len() > 0
    &&& b.last() == 0u8
    &&& forall|i: int| 0 <= i < b.len() - 1 ==> b[i] != 0u8
}

/// The bytes of a text without a NUL byte, with one after them, end in a NUL
/// byte and hold no other.
pub proof fn lemma_c_bytes_nul_terminated(s: Seq<char>)
    requires
        !has_nul(s),
    ensures
        nul_terminated(c_bytes(s)),
{
    let b = encode_utf8(s);
    lemma_nul_bytes(s);
    assert forall|i: int| 0 <= i < c_bytes(s).len() - 1 implies c_bytes(s)[i] != 0u8 by {
        assert(c_bytes(s)[i] == b[i]);
        assert(b.contains(b[i]));
    }
}

/// The options before any option of a command line is applied.
pub open spec fn default_options() -> OptionsView {
    OptionsView {
        root: None,
        rootfstype: None,
        rootflags: None,
        rootfsflags: rdonly_bits(),
        nfsroot: None,
        init: c_bytes("/sbin/init"@),
    }
}

/// The reason given when a value holds the NUL character.
pub open spec fn nul_reason() -> Seq<char> {
    "value contains a NUL byte"@
}

/// The value of an option that must have one, or the error that names its
/// key if it has none.
pub open spec fn required(key: Seq<char>, value: Option<Seq<char>>) -> Result<
    Seq<char>,
    ErrorView,
> {
    match value {
        Some(v) => Ok(v),
        None => Err(ErrorView::MissingArgument(key)),
    }
}

/// What one option does to the options: the new options, or the error, in
/// which case the options stay as they are.
pub open spec fn apply_option(o: OptionsView, key: Seq<char>, value: Option<Seq<char>>) -> Result<
    OptionsView,
    ErrorView,
> {
    if key == "root"@ {
        match required(key, value) {
            Ok(v) => Ok(OptionsView { root: Some(v), ..o }),
            Err(e) => Err(e),
        }
    } else if key == "rootfstype"@ {
        match required(key, value) {
            Ok(v) => Ok(OptionsView { rootfstype: Some(v), ..o }),
            Err(e) => Err(e),
        }
    } else if key == "rootflags"@ {
        match required(key, value) {
            Ok(v) => Ok(OptionsView { rootflags: Some(v), ..o }),
            Err(e) => Err(e),
        }
    } else if key == "ro"@ {
        Ok(OptionsView { rootfsflags: o.rootfsflags | rdonly_bits(), ..o })
    } else if key == "rw"@ {
        Ok(OptionsView { rootfsflags: o.rootfsflags & !rdonly_bits(), ..o })
    } else if key == "nfsroot"@ {
        match required(key, value) {
            Ok(v) => Ok(OptionsView { nfsroot: Some(v), ..o }),
            Err(e) => Err(e),
        }
    } else if key == "init"@ {
        match required(key, value) {
            Ok(v) => if has_nul(v) {
                Err(ErrorView::InvalidValue(key, nul_reason()))
            } else {
                Ok(OptionsView { init: c_bytes(v), ..o })
            },
            Err(e) => Err(e),
        }
    } else {
        Ok(o)
    }
}

/// The UTF-8 bytes of `s` followed by a NUL byte, or `None` if `s` holds the
/// NUL character itself.
pub fn c_string(s: &str) -> (r: Option<Vec<u8>>)
    ensures
        r is None <==> has_nul(s@),
        r matches Some(b) ==> b@ == c_bytes(s@) && nul_terminated(b@),
{
    let mut bytes = s.as_bytes_vec();
    let n = bytes.len();
    let mut i: usize = 0;
    while i < n
        invariant
            n == bytes.len(),
            i <= n,
            bytes@ == encode_utf8(s@),
            forall|j: int| 0 <= j < i ==> bytes[j] != 0u8,
        decreases n - i,
    {
        if bytes[i] == 0 {
            proof {
                assert(bytes@[i as int] == 0u8);
                lemma_nul_bytes(s@);
            }
            return None;
        }
        i += 1;
    }
    proof {
        assert(!bytes@.contains(0u8));
        lemma_nul_bytes(s@);
    }
    bytes.push(0);
    Some(bytes)
}

impl Default for CmdlineOptions {
    /// Nothing is set but the read-only flag and the first program,
    /// `/sbin/init`.
    fn default() -> (r: CmdlineOptions)
        ensures
            r@ == default_options(),
            nul_terminated(r.init@),
    {
        let path = "/sbin/init";
        let mut init = path.as_bytes_vec();
        init.push(0);
        proof {
            reveal_strlit("/sbin/init");
            assert(is_ascii(path));
            is_ascii_spec_bytes(path);
        }
        CmdlineOptions {
            root: None,
            rootfstype: None,
            rootflags: None,
            rootfsflags: MountFlags::rdonly(),
            nfsroot: None,
            init,
        }
    }
}

/// Hands the value back if there is one; fails, naming the key, if there is
/// none.
pub fn ensure_value(key: String, value: Option<String>) -> (r: Result<Option<String>, CmdlineError>)
    ensures
        value is Some ==> r == Ok::<Option<String>, CmdlineError>(value),
        value is None ==> r == Err::<Option<String>, CmdlineError>(
            CmdlineError::MissingArgument(key),
        ),
{
    if value.is_none() {
        Err(CmdlineError::MissingArgument(key))
    } else {
        Ok(value)
    }
}

/// Applies one option to the options. A key that means nothing here changes
/// nothing; an option that is refused changes nothing either.
pub fn parse_option(key: String, value: Option<String>, options: &mut CmdlineOptions) -> (r: Result<
    (),
    CmdlineError,
>)
    ensures
        match apply_option(old(options)@, key@, text_view(value)) {
            Ok(o) => r is Ok && final(options)@ == o,
            Err(e) => r is Err && r->Err_0@ == e && final(options)@ == old(options)@,
        },
        nul_terminated(old(options).init@) ==> nul_terminated(final(options).init@),
{
    if same_text(key.as_str(), "root") {
        match ensure_value(key, value) {
            Ok(v) => {
                options.root = v;
            },
            Err(e) => {
                return Err(e);
            },
        }
    } else if same_text(key.as_str(), "rootfstype") {
        match ensure_value(key, value) {
            Ok(v) => {
                options.rootfstype = v;
            },
            Err(e) => {
                return Err(e);
            },
        }
    } else if same_text(key.as_str(), "rootflags") {
        match ensure_value(key, value) {
            Ok(v) => {
                options.rootflags = v;
            },
            Err(e) => {
                return Err(e);
            },
        }
    } else if same_text(key.as_str(), "ro") {
        options.rootfsflags.insert(MountFlags::rdonly());
    } else if same_text(key.as_str(), "rw") {
        options.rootfsflags.remove(MountFlags::rdonly());
    } else if same_text(key.as_str(), "nfsroot") {
        match ensure_value(key, value) {
            Ok(v) => {
                options.nfsroot = v;
            },
            Err(e) => {
                return Err(e);
            },
        }
    } else if same_text(key.as_str(), "init") {
        match value {
            None => {
                return Err(CmdlineError::MissingArgument(key));
            },
            Some(path) => match c_string(path.as_str()) {
                Some(bytes) => {
                    options.init = bytes;
                },
                None => {
                    let reason = String::from_str("value contains a NUL byte");
                    return Err(CmdlineError::InvalidValue(key, reason));
                },
            },
        }
    }
    Ok(())
}

/// Whether `key` is one of the four keys whose value is kept as a text.
pub open spec fn is_text_key(key: Seq<char>) -> bool {
    key == "root"@ || key == "rootfstype"@ || key == "rootflags"@ || key == "nfsroot"@
}

/// Whether `key` is one of the two keys that set or clear the read-only flag.
pub open spec fn is_flag_key(key: Seq<char>) -> bool {
    key == "ro"@ || key == "rw"@
}

/// The field of the options that the text key `key` sets.
pub open spec fn text_field(o: OptionsView, key: Seq<char>) -> Option<Seq<char>> {
    if key == "root"@ {
        o.root
    } else if key == "rootfstype"@ {
        o.rootfstype
    } else if key == "rootflags"@ {
        o.rootflags
    } else {
        o.nfsroot
    }
}

/// Whether the read-only bit is set in the options.
pub open spec fn read_only(o: OptionsView) -> bool {
    (MountFlags { bits: o.rootfsflags }).read_only()
}

/// The seven keys that mean something are seven different texts.
pub proof fn lemma_keys_differ()
    ensures
        !is_text_key("ro"@),
        !is_text_key("rw"@),
        !is_text_key("init"@),
        !is_flag_key("init"@),
        "ro"@ != "rw"@,
        "root"@ != "rootfstype"@,
        "root"@ != "rootflags"@,
        "root"@ != "nfsroot"@,
        "rootfstype"@ != "rootflags"@,
        "rootfstype"@ != "nfsroot"@,
        "rootflags"@ != "nfsroot"@,
{
    reveal_strlit("root");
    reveal_strlit("rootfstype");
    reveal_strlit("rootflags");
    reveal_strlit("ro");
    reveal_strlit("rw");
    reveal_strlit("nfsroot");
    reveal_strlit("init");
    assert("root"@.len() == 4 && "rootfstype"@.len() == 10 && "rootflags"@.len() == 9);
    assert("ro"@.len() == 2 && "rw"@.len() == 2 && "nfsroot"@.len() == 7 && "init"@.len() == 4);
    assert("ro"@[1] != "rw"@[1]);
    assert("root"@[0] != "init"@[0]);
}

/// What an option that is accepted does, field by field: a text key sets its
/// own field to the value and leaves the other text fields; `init` sets the
/// first program to the value's bytes with a NUL byte after them; `ro` sets
/// the read-only bit and `rw` clears it; and no key touches what is not its
/// own.
pub proof fn lemma_accepted_option(o: OptionsView, key: Seq<char>, value: Option<Seq<char>>)
    requires
        apply_option(o, key, value) is Ok,
    ensures
        ({
            let n = apply_option(o, key, value)->Ok_0;
            &&& is_text_key(key) ==> value is Some && text_field(n, key) == value
            &&& forall|k: Seq<char>| is_text_key(k) && k != key ==> text_field(n, k) == text_field(o, k)
            &&& key == "init"@ ==> value is Some && !has_nul(value->0) && n.init == c_bytes(value->0)
            &&& key != "init"@ ==> n.init == o.init
            &&& key == "ro"@ ==> read_only(n)
            &&& key == "rw"@ ==> !read_only(n)
            &&& !is_flag_key(key) ==> n.rootfsflags == o.rootfsflags
        }),
{
    lemma_keys_differ();
    lemma_read_only_bit(o.rootfsflags);
}

/// Whether an option is accepted depends on the option alone, not on the
/// options it is applied to.
pub proof fn lemma_acceptance_is_by_option(
    o1: OptionsView,
    o2: OptionsView,
    key: Seq<char>,
    value: Option<Seq<char>>,
)
    ensures
        apply_option(o1, key, value) is Ok <==> apply_option(o2, key, value) is Ok,
        apply_option(o1, key, value) is Err ==> apply_option(o1, key, value)->Err_0 == apply_option(
            o2,
            key,
            value,
        )->Err_0,
{
}

} // verus!
