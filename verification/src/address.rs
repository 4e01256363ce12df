//! Addresses of Twinz servers and the socket or pipe paths they resolve to.
use crate::engine::{after_last_dot, last_dot};
use crate::text::{
    all_digits, chars_of, decimal, lemma_decimal_digits, lemma_parse_decimal, parse_unsigned,
    parse_unsigned_chars, push_decimal,
};
use vstd::prelude::*;
use vstd::string::{StrSliceExecFns, StringExecFns};

verus! {

/// Where a server listens.
#[derive(Debug, Clone, PartialEq, Eq)]
pub enum TwinzAddress {
    /// An explicit file path or pipe name, such as `\\.\pipe\my_pipe` or
    /// `/tmp/my.sock`.
    Path(String),
    /// A name in the Twinz namespace: `twinz://name` resolves to
    /// `\\.\pipe\twinz.name` on Windows and `/tmp/twinz.name.sock` on Unix.
    Namespace(String),
    /// One of several twins of a name: `\\.\pipe\twinz.<name>.<id>`.
    Identity { name: String, id: String },
    /// A private channel of a process: `\\.\pipe\twinz.pid.<pid>`.
    Pid(u32),
}

/// Errors in reading an address.
#[derive(Debug, Clone, PartialEq, Eq)]
pub enum AddressError {
    InvalidFormat,
    UnknownScheme(String),
}

/// The platform whose naming rules an address resolves by.
#[derive(Debug, Clone, Copy, PartialEq, Eq, Structural)]
pub enum Platform {
    Windows,
    Unix,
    Other,
}

/// `std::path::MAIN_SEPARATOR`, the separator of path components on the
/// platform the program was built for (`/` on Unix, `\` on Windows).
/// Nothing is promised of it here: it depends on the build target.
#[verifier::external_body]
fn path_separator() -> (c: char) {
    std::path::MAIN_SEPARATOR
}

/// The platform whose paths are separated by `sep`: Windows for `\`, Unix
/// otherwise.
pub fn platform_of_separator(sep: char) -> (p: Platform)
    ensures
        p == (if sep == '\\' {
            Platform::Windows
        } else {
            Platform::Unix
        }),
{
    if sep == '\\' {
        Platform::Windows
    } else {
        Platform::Unix
    }
}

/// An address as plain values.
pub enum AddressView {
    Path(Seq<char>),
    Namespace(Seq<char>),
    Identity(Seq<char>, Seq<char>),
    Pid(u32),
}

impl View for TwinzAddress {
    type V = AddressView;

    open spec fn view(&self) -> AddressView {
        match self {
            TwinzAddress::Path(p) => AddressView::Path(p@),
            TwinzAddress::Namespace(n) => AddressView::Namespace(n@),
            TwinzAddress::Identity { name, id } => AddressView::Identity(name@, id@),
            TwinzAddress::Pid(pid) => AddressView::Pid(*pid),
        }
    }
}

/// The path that `a` resolves to on `platform`.
pub open spec fn spec_resolve(a: AddressView, platform: Platform) -> Seq<char> {
    match a {
        AddressView::Path(p) => p,
        AddressView::Namespace(name) => match platform {
            Platform::Windows => "\\\\.\\pipe\\twinz."@ + name,
            Platform::Unix => "/tmp/twinz."@ + name + ".sock"@,
            Platform::Other => name,
        },
        AddressView::Identity(name, id) => match platform {
            Platform::Windows => "\\\\.\\pipe\\twinz."@ + name + "."@ + id,
            Platform::Unix => "/tmp/twinz."@ + name + "."@ + id + ".sock"@,
            Platform::Other => name + "."@ + id,
        },
        AddressView::Pid(pid) => match platform {
            Platform::Windows => "\\\\.\\pipe\\twinz.pid."@ + decimal(pid as nat),
            Platform::Unix => "/tmp/twinz.pid."@ + decimal(pid as nat) + ".sock"@,
            Platform::Other => "pid."@ + decimal(pid as nat),
        },
    }
}

/// Whether `s` starts with `pre`.
pub open spec fn has_prefix(s: Seq<char>, pre: Seq<char>) -> bool {
    pre.len() <= s.len() && s.take(pre.len() as int) == pre
}

/// `s` with every leading repetition of `pre` removed.
pub open spec fn strip_prefixes(s: Seq<char>, pre: Seq<char>) -> Seq<char>
    decreases s.len(),
{
    if pre.len() > 0 && has_prefix(s, pre) {
        strip_prefixes(s.skip(pre.len() as int), pre)
    } else {
        s
    }
}

/// Whether `pat` occurs in `s`.
pub open spec fn occurs_in(s: Seq<char>, pat: Seq<char>) -> bool {
    exists|i: int| 0 <= i && i + pat.len() <= s.len() && #[trigger] s.subrange(i, i + pat.len()) == pat
}

/// What `s` reads as: `twinz://name` is a namespace name (with every leading
/// `twinz://` removed); a string holding `twinz.pid.` whose part after the
/// last `.` reads as a `u32` is that process id; anything else is a path.
pub open spec fn spec_parse(s: Seq<char>) -> AddressView {
    if has_prefix(s, "twinz://"@) {
        AddressView::Namespace(strip_prefixes(s, "twinz://"@))
    } else if occurs_in(s, "twinz.pid."@) && parse_unsigned(s.skip(last_dot(s) + 1), u32::MAX as nat)
        is Some {
        AddressView::Pid(parse_unsigned(s.skip(last_dot(s) + 1), u32::MAX as nat).unwrap() as u32)
    } else {
        AddressView::Path(s)
    }
}

/// Whether `pat` occurs in `s` at `at`.
fn occurs_at(s: &Vec<char>, at: usize, pat: &Vec<char>) -> (r: bool)
    ensures
        r == (at + pat@.len() <= s@.len() && s@.subrange(at as int, at + pat@.len()) == pat@),
{
    if at > s.len() || pat.len() > s.len() - at {
        return false;
    }
    let n = s.len();
    let mut j: usize = 0;
    while j < pat.len()
        invariant
            n == s@.len(),
            at + pat@.len() <= s@.len(),
            j <= pat@.len(),
            forall|k: int| 0 <= k < j ==> s@[at + k] == pat@[k],
        decreases pat@.len() - j,
    {
        if s[at + j] != pat[j] {
            assert(s@.subrange(at as int, at + pat@.len())[j as int] != pat@[j as int]);
            return false;
        }
        j = j + 1;
    }
    assert(s@.subrange(at as int, at + pat@.len()) =~= pat@);
    true
}

impl TwinzAddress {
    /// The path this address resolves to on `platform`.
    pub fn resolve_on(&self, platform: Platform) -> (r: String)
        ensures
            r@ == spec_resolve(self@, platform),
    {
        match self {
            TwinzAddress::Path(p) => p.clone(),
            TwinzAddress::Namespace(name) => {
                let mut r = String::new();
                match platform {
                    Platform::Windows => {
                        r.append("\\\\.\\pipe\\twinz.");
                        r.append(name.as_str());
                    },
                    Platform::Unix => {
                        r.append("/tmp/twinz.");
                        r.append(name.as_str());
                        r.append(".sock");
                    },
                    Platform::Other => {
                        r.append(name.as_str());
                    },
                }
                r
            },
            TwinzAddress::Identity { name, id } => {
                let mut r = String::new();
                match platform {
                    Platform::Windows => {
                        r.append("\\\\.\\pipe\\twinz.");
                        r.append(name.as_str());
                        r.append(".");
                        r.append(id.as_str());
                    },
                    Platform::Unix => {
                        r.append("/tmp/twinz.");
                        r.append(name.as_str());
                        r.append(".");
                        r.append(id.as_str());
                        r.append(".sock");
                    },
                    Platform::Other => {
                        r.append(name.as_str());
                        r.append(".");
                        r.append(id.as_str());
                    },
                }
                r
            },
            TwinzAddress::Pid(pid) => {
                let mut r = String::new();
                match platform {
                    Platform::Windows => {
                        r.append("\\\\.\\pipe\\twinz.pid.");
                        push_decimal(&mut r, *pid as u64);
                    },
                    Platform::Unix => {
                        r.append("/tmp/twinz.pid.");
                        push_decimal(&mut r, *pid as u64);
                        r.append(".sock");
                    },
                    Platform::Other => {
                        r.append("pid.");
                        push_decimal(&mut r, *pid as u64);
                    },
                }
                r
            },
        }
    }

    /// The path this address resolves to on the platform the program was
    /// built for: as on Windows where paths are separated by `\`, as on
    /// Unix where they are separated by `/`.
    pub fn resolve(&self) -> (r: String)
        ensures
            r@ == spec_resolve(self@, Platform::Unix) || r@ == spec_resolve(
                self@,
                Platform::Windows,
            ),
    {
        self.resolve_on(platform_of_separator(path_separator()))
    }

    /// Reads an address from `s`; every string reads as some address.
    pub fn parse(s: &str) -> (r: TwinzAddress)
        ensures
            r@ == spec_parse(s@),
    {
        proof {
            reveal_strlit("twinz://");
            reveal_strlit("twinz.pid.");
        }
        let chars = chars_of(s);
        let n = chars.len();
        let scheme = chars_of("twinz://");
        if occurs_at(&chars, 0, &scheme) {
            assert(chars@.subrange(0, scheme@.len() as int) =~= chars@.take(scheme@.len() as int));
            let mut at: usize = 0;
            assert(chars@.skip(0) =~= chars@);
            while occurs_at(&chars, at, &scheme)
                invariant
                    at <= chars@.len(),
                    n == chars@.len(),
                    scheme@ == "twinz://"@,
                    scheme@.len() > 0,
                    strip_prefixes(chars@.skip(at as int), scheme@) == strip_prefixes(
                        chars@,
                        scheme@,
                    ),
                decreases chars@.len() - at,
            {
                proof {
                    reveal_strlit("twinz://");
                    let rest = chars@.skip(at as int);
                    assert(rest.take(scheme@.len() as int) =~= chars@.subrange(
                        at as int,
                        at + scheme@.len(),
                    ));
                    assert(rest.skip(scheme@.len() as int) =~= chars@.skip(at + scheme@.len()));
                }
                at = at + scheme.len();
            }
            proof {
                reveal_strlit("twinz://");
                let rest = chars@.skip(at as int);
                if has_prefix(rest, scheme@) {
                    assert(rest.take(scheme@.len() as int) =~= chars@.subrange(
                        at as int,
                        at + scheme@.len(),
                    ));
                }
            }
            let name = s.substring_char(at, chars.len()).to_owned();
            assert(name@ =~= chars@.skip(at as int));
            return TwinzAddress::Namespace(name);
        }
        assert(!has_prefix(chars@, scheme@)) by {
            if has_prefix(chars@, scheme@) {
                assert(chars@.subrange(0, scheme@.len() as int) =~= chars@.take(
                    scheme@.len() as int,
                ));
            }
        }
        let marker = chars_of("twinz.pid.");
        let mut i: usize = 0;
        let mut found = false;
        while i < n && !found
            invariant
                i <= n,
                n == chars@.len(),
                marker@ == "twinz.pid."@,
                found ==> occurs_in(chars@, marker@),
                !found ==> forall|k: int|
                    0 <= k < i && k + marker@.len() <= chars@.len() ==> #[trigger] chars@.subrange(
                        k,
                        k + marker@.len(),
                    ) != marker@,
            decreases n - i + (if found {
                0int
            } else {
                1int
            }),
        {
            if occurs_at(&chars, i, &marker) {
                found = true;
            } else {
                i = i + 1;
            }
        }
        proof {
            if !found {
                assert(!occurs_in(chars@, marker@)) by {
                    if occurs_in(chars@, marker@) {
                        let k = choose|k: int|
                            0 <= k && k + marker@.len() <= chars@.len() && #[trigger] chars@.subrange(
                                k,
                                k + marker@.len(),
                            ) == marker@;
                        assert(k < i);
                    }
                }
            }
        }
        if found {
            let p = after_last_dot(&chars);
            let mut tail: Vec<char> = Vec::new();
            let mut j = p;
            while j < n
                invariant
                    p <= j <= n,
                    n == chars@.len(),
                    tail@ == chars@.subrange(p as int, j as int),
                decreases n - j,
            {
                tail.push(chars[j]);
                j = j + 1;
                assert(tail@ =~= chars@.subrange(p as int, j as int));
            }
            assert(tail@ =~= chars@.skip(p as int));
            match parse_unsigned_chars(&tail, 0xFFFF_FFFF) {
                Some(v) => {
                    return TwinzAddress::Pid(v as u32);
                },
                None => {},
            }
        }
        let path = s.to_owned();
        TwinzAddress::Path(path)
    }
}

impl std::str::FromStr for TwinzAddress {
    type Err = AddressError;

    /// Reads an address from `s`, as `parse` does; reading never fails.
    fn from_str(s: &str) -> (r: Result<TwinzAddress, AddressError>)
        ensures
            r matches Ok(a) && a@ == spec_parse(s@),
    {
        Ok(TwinzAddress::parse(s))
    }
}

/// The last `.` of a string that ends in digits after a `.`-terminated part
/// is the one that ends that part.
proof fn lemma_last_dot_before_digits(a: Seq<char>, d: Seq<char>)
    requires
        a.len() > 0,
        a.last() == '.',
        all_digits(d),
    ensures
        last_dot(a + d) == a.len() - 1,
    decreases d.len(),
{
    if d.len() == 0 {
        assert(a + d =~= a);
    } else {
        assert((a + d).drop_last() =~= a + d.drop_last());
        assert(d.last() == d[d.len() - 1]);
        lemma_last_dot_before_digits(a, d.drop_last());
    }
}

/// The pipe of a process id on Windows reads back as that process id.
pub proof fn law_pid_pipe_roundtrip(pid: u32)
    ensures
        spec_parse(spec_resolve(AddressView::Pid(pid), Platform::Windows)) == AddressView::Pid(pid),
{
    reveal_strlit("\\\\.\\pipe\\twinz.pid.");
    reveal_strlit("twinz://");
    reveal_strlit("twinz.pid.");
    let w = "\\\\.\\pipe\\twinz.pid."@;
    let d = decimal(pid as nat);
    let s = w + d;
    assert(s == spec_resolve(AddressView::Pid(pid), Platform::Windows));
    lemma_decimal_digits(pid as nat);
    assert(!has_prefix(s, "twinz://"@)) by {
        assert(s.take(8)[0] != "twinz://"@[0]);
    }
    assert(s.subrange(9, 19) =~= "twinz.pid."@);
    assert(s.subrange(9, 9int + "twinz.pid."@.len()) == "twinz.pid."@);
    assert(occurs_in(s, "twinz.pid."@));
    lemma_last_dot_before_digits(w, d);
    assert(s.skip(last_dot(s) + 1) =~= d);
    lemma_parse_decimal(pid as nat, u32::MAX as nat);
}

/// A namespace URL resolves on Unix to the socket of its name, for every
/// name that does not itself begin with the scheme.
pub proof fn law_namespace_url(name: Seq<char>)
    requires
        !has_prefix(name, "twinz://"@),
    ensures
        spec_resolve(spec_parse("twinz://"@ + name), Platform::Unix) == "/tmp/twinz."@ + name
            + ".sock"@,
{
    reveal_strlit("twinz://");
    let pre = "twinz://"@;
    let s = pre + name;
    assert(s.take(pre.len() as int) =~= pre);
    assert(s.skip(pre.len() as int) =~= name);
    assert(strip_prefixes(s, pre) == strip_prefixes(name, pre));
}

} // verus!
