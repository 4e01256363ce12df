//! The interactive client's reading of a typed line: blank lines are
//! skipped, `EXIT` and `QUIT` (in any ASCII case) end the session, and every
//! other line is split into words and turned into a request. Its first word,
//! upper-cased, picks the request: `GET` with one argument, `SET` with two,
//! `PING` with any; every other line is sent as the list of its words.
use crate::config::{split_words, words};
use crate::engine::names_view;
use vstd::prelude::*;

verus! {

/// `str::to_uppercase`: the upper-case form of a string, by the Unicode
/// case mapping.
pub uninterp spec fn uppercase(s: Seq<char>) -> Seq<char>;

/// `str::to_uppercase`. Its result is named: the Unicode case mapping of a
/// string is a function of the string alone, and too long to write out
/// here. Of a string of ASCII characters alone it states what the mapping
/// does there: each of `a` to `z` becomes `A` to `Z`, and every other
/// character stays as it is.
#[verifier::external_body]
fn to_upper(s: &str) -> (r: String)
    ensures
        r@ == uppercase(s@),
        all_ascii(s@) ==> r@ == s@.map_values(|c: char| ascii_upper(c)),
{
    s.to_uppercase()
}

/// A request the client sends.
#[derive(Debug, Clone, PartialEq, Eq)]
pub enum ClientRequest {
    /// Read the value of a key.
    Get(String),
    /// Store a value under a key.
    Put(String, String),
    /// Ask the server for a sign of life.
    Ping,
    /// Any other line, sent as the list of its words.
    Raw(Vec<String>),
}

/// What a request holds, as characters.
pub enum RequestView {
    Get(Seq<char>),
    Put(Seq<char>, Seq<char>),
    Ping,
    Raw(Seq<Seq<char>>),
}

impl View for ClientRequest {
    type V = RequestView;

    open spec fn view(&self) -> RequestView {
        match self {
            ClientRequest::Get(k) => RequestView::Get(k@),
            ClientRequest::Put(k, v) => RequestView::Put(k@, v@),
            ClientRequest::Ping => RequestView::Ping,
            ClientRequest::Raw(ws) => RequestView::Raw(names_view(ws@)),
        }
    }
}

/// The request for the words `parts`, whose first word upper-cased is
/// `head`.
pub open spec fn spec_request(head: Seq<char>, parts: Seq<Seq<char>>) -> RequestView {
    if head == "GET"@ && parts.len() == 2 {
        RequestView::Get(parts[1])
    } else if head == "SET"@ && parts.len() == 3 {
        RequestView::Put(parts[1], parts[2])
    } else if head == "PING"@ {
        RequestView::Ping
    } else {
        RequestView::Raw(parts)
    }
}

/// What the client does with a line.
#[derive(Debug, Clone, PartialEq, Eq)]
pub enum ClientInput {
    /// Nothing but white space: ask for the next line.
    Skip,
    /// End the session.
    Quit,
    /// Send the request.
    Send(ClientRequest),
}

/// The kind of request a line makes depends on its first word, upper-cased
/// (`head`), and on its number of words: it is a `Get` of the second word
/// exactly when the head is `GET` and there are two words; a `Put` of the
/// second and third exactly when the head is `SET` and there are three
/// words; a `Ping` exactly when the head is `PING`; and otherwise the words
/// themselves, none dropped.
pub proof fn law_request_kind(head: Seq<char>, parts: Seq<Seq<char>>)
    ensures
        (spec_request(head, parts) is Get) <==> (head == "GET"@ && parts.len() == 2),
        spec_request(head, parts) matches RequestView::Get(k) ==> k == parts[1],
        (spec_request(head, parts) is Put) <==> (head == "SET"@ && parts.len() == 3),
        spec_request(head, parts) matches RequestView::Put(k, v) ==> k == parts[1] && v
            == parts[2],
        (spec_request(head, parts) is Ping) <==> head == "PING"@,
        !(head == "GET"@ && parts.len() == 2) && !(head == "SET"@ && parts.len() == 3) && head
            != "PING"@ ==> spec_request(head, parts) == RequestView::Raw(parts),
{
    reveal_strlit("GET");
    reveal_strlit("SET");
    reveal_strlit("PING");
    assert("GET"@ != "PING"@) by {
        assert("GET"@.len() != "PING"@.len());
    }
    assert("SET"@ != "PING"@) by {
        assert("SET"@.len() != "PING"@.len());
    }
    assert("GET"@ != "SET"@) by {
        assert("GET"@[0] != "SET"@[0]);
    }
}

/// What a line asks of the client.
pub enum InputView {
    Skip,
    Quit,
    Send(RequestView),
}

impl View for ClientInput {
    type V = InputView;

    open spec fn view(&self) -> InputView {
        match self {
            ClientInput::Skip => InputView::Skip,
            ClientInput::Quit => InputView::Quit,
            ClientInput::Send(q) => InputView::Send(q@),
        }
    }
}

/// `c` with the ASCII letters `a` to `z` made upper case.
pub open spec fn ascii_upper(c: char) -> char {
    if 'a' <= c && c <= 'z' {
        ((c as u32) - 32) as char
    } else {
        c
    }
}

/// Every character of `s` is ASCII.
pub open spec fn all_ascii(s: Seq<char>) -> bool {
    forall|i: int| 0 <= i < s.len() ==> (s[i] as u32) < 128
}

/// `a` and `b` are equal when ASCII letters are compared without regard to
/// case.
pub open spec fn same_ignoring_ascii_case(a: Seq<char>, b: Seq<char>) -> bool {
    a.len() == b.len() && forall|i: int| 0 <= i < a.len() ==> ascii_upper(a[i]) == ascii_upper(b[i])
}

/// Whether `w` ends the session.
pub open spec fn is_quit(w: Seq<char>) -> bool {
    same_ignoring_ascii_case(w, "EXIT"@) || same_ignoring_ascii_case(w, "QUIT"@)
}

/// What the line `line` asks, its first word upper-cased being `head`.
pub open spec fn spec_input(line: Seq<char>, head: Seq<char>) -> InputView {
    let ws = words(line);
    if ws.len() == 0 {
        InputView::Skip
    } else if ws.len() == 1 && is_quit(ws[0]) {
        InputView::Quit
    } else {
        InputView::Send(spec_request(head, ws))
    }
}

/// Whether `s` has the characters `w`.
fn has_chars(s: &str, w: &str) -> (r: bool)
    ensures
        r == (s@ == w@),
{
    let a = s.to_owned();
    let b = w.to_owned();
    a == b
}

/// Whether `s` equals `w` when ASCII letters are compared without regard to
/// case.
fn eq_ascii_case(s: &str, w: &str) -> (r: bool)
    ensures
        r == same_ignoring_ascii_case(s@, w@),
{
    let a = crate::text::chars_of(s);
    let b = crate::text::chars_of(w);
    if a.len() != b.len() {
        return false;
    }
    let mut i: usize = 0;
    while i < a.len()
        invariant
            i <= a@.len(),
            a@ == s@,
            b@ == w@,
            a@.len() == b@.len(),
            forall|j: int| 0 <= j < i ==> ascii_upper(a@[j]) == ascii_upper(b@[j]),
        decreases a@.len() - i,
    {
        let x = a[i];
        let y = b[i];
        let ux = if 'a' <= x && x <= 'z' {
            char_from((x as u32) - 32)
        } else {
            x
        };
        let uy = if 'a' <= y && y <= 'z' {
            char_from((y as u32) - 32)
        } else {
            y
        };
        if ux != uy {
            return false;
        }
        i = i + 1;
    }
    true
}

/// The character with code `n`, for an ASCII upper-case letter.
fn char_from(n: u32) -> (c: char)
    requires
        'A' as u32 <= n <= 'Z' as u32,
    ensures
        c == n as char,
{
    let b: u8 = n as u8;
    b as char
}

impl ClientRequest {
    /// The request for the words `parts`, whose first word upper-cased is
    /// `head`.
    pub fn from_words(head: &str, parts: &Vec<String>) -> (r: ClientRequest)
        ensures
            r@ == spec_request(head@, names_view(parts@)),
    {
        proof {
            reveal_strlit("GET");
            reveal_strlit("SET");
            reveal_strlit("PING");
        }
        if has_chars(head, "GET") && parts.len() == 2 {
            ClientRequest::Get(parts[1].clone())
        } else if has_chars(head, "SET") && parts.len() == 3 {
            ClientRequest::Put(parts[1].clone(), parts[2].clone())
        } else if has_chars(head, "PING") {
            ClientRequest::Ping
        } else {
            let mut ws: Vec<String> = Vec::new();
            let mut i: usize = 0;
            while i < parts.len()
                invariant
                    i <= parts@.len(),
                    ws@ == parts@.take(i as int),
                decreases parts@.len() - i,
            {
                let w = parts[i].clone();
                ws.push(w);
                i = i + 1;
                assert(ws@ =~= parts@.take(i as int));
            }
            assert(parts@.take(parts@.len() as int) =~= parts@);
            ClientRequest::Raw(ws)
        }
    }
}

impl ClientInput {
    /// What the typed line `line` asks of the client.
    pub fn from_line(line: &str) -> (r: ClientInput)
        ensures
            words(line@).len() > 0 ==> r@ == spec_input(line@, uppercase(words(line@)[0])),
            words(line@).len() > 0 && all_ascii(words(line@)[0]) ==> r@ == spec_input(
                line@,
                words(line@)[0].map_values(|c: char| ascii_upper(c)),
            ),
            words(line@).len() == 0 ==> r is Skip,
    {
        proof {
            reveal_strlit("EXIT");
            reveal_strlit("QUIT");
        }
        let ws = split_words(line);
        assert(names_view(ws@) =~= words(line@));
        if ws.len() == 0 {
            return ClientInput::Skip;
        }
        if ws.len() == 1 && (eq_ascii_case(ws[0].as_str(), "EXIT") || eq_ascii_case(
            ws[0].as_str(),
            "QUIT",
        )) {
            return ClientInput::Quit;
        }
        let head = to_upper(ws[0].as_str());
        ClientInput::Send(ClientRequest::from_words(head.as_str(), &ws))
    }
}

} // verus!
