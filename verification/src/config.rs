//! The Twinzfile: server blocks of whitespace-separated words.
//!
//! ```text
//! name {
//!     storage "./data"
//!     sync interval 5
//!     plugin_dir ./plugins
//! }
//! ```
use crate::text::{chars_of, parse_unsigned, parse_unsigned_chars};
use vstd::prelude::*;
use vstd::string::StrSliceExecFns;

verus! {

/// The settings of one server.
#[derive(Debug, Clone)]
pub struct ServerConfig {
    pub name: String,
    pub storage_dir: Option<String>,
    /// `always`, `interval` or `os`.
    pub sync_mode: Option<String>,
    pub sync_interval: Option<u64>,
    pub plugin_dir: Option<String>,
}

/// The settings of one server as plain values.
pub struct ConfigView {
    pub name: Seq<char>,
    pub storage_dir: Option<Seq<char>>,
    pub sync_mode: Option<Seq<char>>,
    pub sync_interval: Option<u64>,
    pub plugin_dir: Option<Seq<char>>,
}

/// The view of an optional string.
pub open spec fn opt_view(o: Option<String>) -> Option<Seq<char>> {
    match o {
        Some(s) => Some(s@),
        None => None,
    }
}

impl View for ServerConfig {
    type V = ConfigView;

    open spec fn view(&self) -> ConfigView {
        ConfigView {
            name: self.name@,
            storage_dir: opt_view(self.storage_dir),
            sync_mode: opt_view(self.sync_mode),
            sync_interval: self.sync_interval,
            plugin_dir: opt_view(self.plugin_dir),
        }
    }
}

impl Default for ServerConfig {
    fn default() -> (c: ServerConfig)
        ensures
            c@ == (ConfigView {
                name: "twinz_default"@,
                storage_dir: None,
                sync_mode: None,
                sync_interval: None,
                plugin_dir: None,
            }),
    {
        ServerConfig {
            name: "twinz_default".to_owned(),
            storage_dir: None,
            sync_mode: None,
            sync_interval: None,
            plugin_dir: None,
        }
    }
}

/// A directive that takes a value.
#[derive(Debug, Clone, Copy, PartialEq, Eq, Structural)]
pub enum Directive {
    Storage,
    Sync,
    PluginDir,
}

/// Errors in a Twinzfile.
#[derive(Debug, Clone)]
pub enum ConfigError {
    /// The file ended after a server name.
    MissingOpenBrace,
    /// A server name was followed by this word instead of `{`.
    UnexpectedToken(String),
    /// The file ended inside a server block.
    MissingCloseBrace,
    /// The file ended where the directive's value was due.
    MissingValue(Directive),
    /// A word that names no directive.
    UnknownDirective(String),
}

/// A Twinzfile error as plain values.
pub enum ConfigErrorView {
    MissingOpenBrace,
    UnexpectedToken(Seq<char>),
    MissingCloseBrace,
    MissingValue(Directive),
    UnknownDirective(Seq<char>),
}

impl View for ConfigError {
    type V = ConfigErrorView;

    open spec fn view(&self) -> ConfigErrorView {
        match self {
            ConfigError::MissingOpenBrace => ConfigErrorView::MissingOpenBrace,
            ConfigError::UnexpectedToken(t) => ConfigErrorView::UnexpectedToken(t@),
            ConfigError::MissingCloseBrace => ConfigErrorView::MissingCloseBrace,
            ConfigError::MissingValue(d) => ConfigErrorView::MissingValue(*d),
            ConfigError::UnknownDirective(d) => ConfigErrorView::UnknownDirective(d@),
        }
    }
}

/// Whether `c` is white space, as `char::is_whitespace` tells it (the
/// Unicode `White_Space` property).
pub open spec fn is_space(c: char) -> bool {
    ('\u{9}' <= c && c <= '\u{d}') || c == ' ' || c == '\u{85}' || c == '\u{a0}' || c
        == '\u{1680}' || ('\u{2000}' <= c && c <= '\u{200a}') || c == '\u{2028}' || c
        == '\u{2029}' || c == '\u{202f}' || c == '\u{205f}' || c == '\u{3000}'
}

/// The words of `s`: its maximal runs of characters that are not white
/// space, in order, as `str::split_whitespace` yields them.
pub open spec fn words(s: Seq<char>) -> Seq<Seq<char>>
    decreases s.len(),
{
    if s.len() == 0 {
        Seq::empty()
    } else if is_space(s.last()) {
        words(s.drop_last())
    } else if s.len() >= 2 && !is_space(s[s.len() - 2]) {
        let w = words(s.drop_last());
        w.update(w.len() - 1, w.last().push(s.last()))
    } else {
        words(s.drop_last()).push(seq![s.last()])
    }
}

/// `c` has the Unicode `White_Space` property: tab, line feed, line
/// tabulation, form feed, carriage return, space, next line, no-break space,
/// Ogham space mark, the spaces from en quad to hair space, line separator,
/// paragraph separator, narrow no-break space, medium mathematical space and
/// ideographic space.
pub open spec fn unicode_white_space(c: char) -> bool {
    ||| c == '\t'
    ||| c == '\n'
    ||| c == '\u{b}'
    ||| c == '\u{c}'
    ||| c == '\r'
    ||| c == ' '
    ||| c == '\u{85}'
    ||| c == '\u{a0}'
    ||| c == '\u{1680}'
    ||| c == '\u{2000}'
    ||| c == '\u{2001}'
    ||| c == '\u{2002}'
    ||| c == '\u{2003}'
    ||| c == '\u{2004}'
    ||| c == '\u{2005}'
    ||| c == '\u{2006}'
    ||| c == '\u{2007}'
    ||| c == '\u{2008}'
    ||| c == '\u{2009}'
    ||| c == '\u{200a}'
    ||| c == '\u{2028}'
    ||| c == '\u{2029}'
    ||| c == '\u{202f}'
    ||| c == '\u{205f}'
    ||| c == '\u{3000}'
}

/// No character of `s` is white space.
pub open spec fn no_space(s: Seq<char>) -> bool {
    forall|i: int| 0 <= i < s.len() ==> !is_space(#[trigger] s[i])
}

/// A text that ends in a non-space character has a word.
proof fn lemma_words_nonempty(s: Seq<char>)
    requires
        s.len() > 0,
        !is_space(s.last()),
    ensures
        words(s).len() > 0,
    decreases s.len(),
{
    if s.len() >= 2 && !is_space(s[s.len() - 2]) {
        assert(s.drop_last().last() == s[s.len() - 2]);
        lemma_words_nonempty(s.drop_last());
    }
}

/// A run of non-space characters is one word.
proof fn lemma_words_single(x: Seq<char>)
    requires
        x.len() > 0,
        no_space(x),
    ensures
        words(x) == seq![x],
    decreases x.len(),
{
    assert(!is_space(x[x.len() - 1]));
    if x.len() == 1 {
        assert(x.drop_last().len() == 0);
        assert(words(x.drop_last()) == Seq::<Seq<char>>::empty());
        assert(x =~= seq![x.last()]);
        assert(words(x) == Seq::<Seq<char>>::empty().push(seq![x.last()]));
        assert(Seq::<Seq<char>>::empty().push(seq![x.last()]) =~= seq![x]);
    } else {
        let y = x.drop_last();
        assert(no_space(y)) by {
            assert forall|i: int| 0 <= i < y.len() implies !is_space(#[trigger] y[i]) by {
                assert(y[i] == x[i]);
            }
        }
        lemma_words_single(y);
        assert(!is_space(x[x.len() - 1]));
        assert(!is_space(x[x.len() - 2]));
        assert(x =~= y.push(x.last()));
        let w = words(y);
        assert(w == seq![y]);
        assert(words(x) == w.update(w.len() - 1, w.last().push(x.last())));
        assert(w.update(w.len() - 1, w.last().push(x.last())) =~= seq![x]);
    }
}

/// After a text that ends in white space, the words of what follows come
/// after its own.
proof fn lemma_words_concat(a: Seq<char>, b: Seq<char>)
    requires
        a.len() > 0,
        is_space(a.last()),
    ensures
        words(a + b) == words(a) + words(b),
    decreases b.len(),
{
    if b.len() == 0 {
        assert(a + b =~= a);
        assert(words(a) + words(b) =~= words(a));
    } else {
        let ab = a + b;
        let b0 = b.drop_last();
        lemma_words_concat(a, b0);
        assert(ab.drop_last() =~= a + b0);
        assert(ab.last() == b.last());
        let c = b.last();
        if is_space(c) {
        } else if b.len() >= 2 && !is_space(b[b.len() - 2]) {
            assert(ab[ab.len() - 2] == b[b.len() - 2]);
            assert(b0.last() == b[b.len() - 2]);
            lemma_words_nonempty(b0);
            let w = words(a + b0);
            let wb = words(b0);
            assert(w.update(w.len() - 1, w.last().push(c)) =~= words(a) + wb.update(
                wb.len() - 1,
                wb.last().push(c),
            ));
        } else {
            if b.len() == 1 {
                assert(ab[ab.len() - 2] == a.last());
                assert(b0.len() == 0);
            } else {
                assert(ab[ab.len() - 2] == b[b.len() - 2]);
            }
            assert(words(a + b0).push(seq![c]) =~= words(a) + words(b0).push(seq![c]));
        }
    }
}

/// Words split at every white-space character, as `str::split_whitespace`
/// splits them: two runs of non-space characters with white space between
/// them are two words, whichever white-space characters separate them.
pub proof fn law_words_split_at_white_space(a: Seq<char>, sep: Seq<char>, b: Seq<char>)
    requires
        a.len() > 0,
        b.len() > 0,
        no_space(a),
        no_space(b),
        sep.len() > 0,
        forall|i: int| 0 <= i < sep.len() ==> unicode_white_space(#[trigger] sep[i]),
    ensures
        words(a + sep + b) == seq![a, b],
{
    lemma_words_single(a);
    lemma_words_single(b);
    lemma_words_trailing_space(a, sep);
    assert((a + sep).last() == sep[sep.len() - 1]);
    lemma_words_concat(a + sep, b);
    assert(seq![a] + seq![b] =~= seq![a, b]);
}

/// White space after a text adds no word.
proof fn lemma_words_trailing_space(a: Seq<char>, sep: Seq<char>)
    requires
        forall|i: int| 0 <= i < sep.len() ==> unicode_white_space(#[trigger] sep[i]),
    ensures
        words(a + sep) == words(a),
    decreases sep.len(),
{
    if sep.len() == 0 {
        assert(a + sep =~= a);
    } else {
        let s0 = sep.drop_last();
        assert forall|i: int| 0 <= i < s0.len() implies unicode_white_space(#[trigger] s0[i]) by {
            assert(s0[i] == sep[i]);
        }
        lemma_words_trailing_space(a, s0);
        assert((a + sep).drop_last() =~= a + s0);
        assert(unicode_white_space(sep[sep.len() - 1]));
    }
}

/// Carriage returns and line feeds separate words: a text with Windows line
/// endings reads as the same words as one with spaces.
pub proof fn law_line_endings_separate_words(a: Seq<char>, b: Seq<char>)
    requires
        a.len() > 0,
        b.len() > 0,
        no_space(a),
        no_space(b),
    ensures
        words(a + seq!['\r', '\n'] + b) == seq![a, b],
        words(a + seq!['\r'] + b) == seq![a, b],
        words(a + seq!['\r', '\n']) == seq![a],
{
    law_words_split_at_white_space(a, seq!['\r', '\n'], b);
    law_words_split_at_white_space(a, seq!['\r'], b);
    lemma_words_single(a);
    lemma_words_trailing_space(a, seq!['\r', '\n']);
}

/// `s` without its leading double quotes.
pub open spec fn strip_leading_quotes(s: Seq<char>) -> Seq<char>
    decreases s.len(),
{
    if s.len() > 0 && s[0] == '"' {
        strip_leading_quotes(s.skip(1))
    } else {
        s
    }
}

/// `s` without its trailing double quotes.
pub open spec fn strip_trailing_quotes(s: Seq<char>) -> Seq<char>
    decreases s.len(),
{
    if s.len() > 0 && s.last() == '"' {
        strip_trailing_quotes(s.drop_last())
    } else {
        s
    }
}

/// `s` without the double quotes at either end, as `trim_matches('"')`
/// leaves it.
pub open spec fn trim_quotes(s: Seq<char>) -> Seq<char> {
    strip_trailing_quotes(strip_leading_quotes(s))
}

/// Where the reading of a Twinzfile stands: between blocks, or inside the
/// block of a server whose settings so far are given.
pub enum ReadState {
    Between,
    InBlock(ConfigView),
}

/// The settings of a server block named `name` before its directives.
pub open spec fn block_start(name: Seq<char>) -> ConfigView {
    ConfigView {
        name,
        storage_dir: None,
        sync_mode: None,
        sync_interval: None,
        plugin_dir: None,
    }
}

/// The result of reading the words `t` from position `i` on, in state `st`,
/// with the servers `done` already read.
pub open spec fn read_words(
    t: Seq<Seq<char>>,
    i: int,
    st: ReadState,
    done: Seq<ConfigView>,
) -> Result<Seq<ConfigView>, ConfigErrorView>
    decreases t.len() - i,
{
    if i < 0 {
        Err(ConfigErrorView::MissingCloseBrace)
    } else {
        match st {
            ReadState::Between => {
                if i >= t.len() {
                    Ok(done)
                } else if i + 1 >= t.len() {
                    Err(ConfigErrorView::MissingOpenBrace)
                } else if t[i + 1] != "{"@ {
                    Err(ConfigErrorView::UnexpectedToken(t[i + 1]))
                } else {
                    read_words(t, i + 2, ReadState::InBlock(block_start(t[i])), done)
                }
            },
            ReadState::InBlock(c) => {
                if i >= t.len() {
                    Err(ConfigErrorView::MissingCloseBrace)
                } else if t[i] == "}"@ {
                    read_words(t, i + 1, ReadState::Between, done.push(c))
                } else if t[i] == "storage"@ {
                    if i + 1 >= t.len() {
                        Err(ConfigErrorView::MissingValue(Directive::Storage))
                    } else {
                        read_words(
                            t,
                            i + 2,
                            ReadState::InBlock(
                                ConfigView { storage_dir: Some(trim_quotes(t[i + 1])), ..c },
                            ),
                            done,
                        )
                    }
                } else if t[i] == "sync"@ {
                    if i + 1 >= t.len() {
                        Err(ConfigErrorView::MissingValue(Directive::Sync))
                    } else {
                        let c2 = ConfigView { sync_mode: Some(t[i + 1]), ..c };
                        if t[i + 1] == "interval"@ && i + 2 < t.len() && parse_unsigned(
                            t[i + 2],
                            u64::MAX as nat,
                        ) is Some {
                            read_words(
                                t,
                                i + 3,
                                ReadState::InBlock(
                                    ConfigView {
                                        sync_interval: Some(
                                            parse_unsigned(t[i + 2], u64::MAX as nat).unwrap() as u64,
                                        ),
                                        ..c2
                                    },
                                ),
                                done,
                            )
                        } else {
                            read_words(t, i + 2, ReadState::InBlock(c2), done)
                        }
                    }
                } else if t[i] == "plugin_dir"@ {
                    if i + 1 >= t.len() {
                        Err(ConfigErrorView::MissingValue(Directive::PluginDir))
                    } else {
                        read_words(
                            t,
                            i + 2,
                            ReadState::InBlock(
                                ConfigView { plugin_dir: Some(trim_quotes(t[i + 1])), ..c },
                            ),
                            done,
                        )
                    }
                } else {
                    Err(ConfigErrorView::UnknownDirective(t[i]))
                }
            },
        }
    }
}

/// What reading the Twinzfile text `s` gives.
pub open spec fn spec_parse_twinzfile(s: Seq<char>) -> Result<Seq<ConfigView>, ConfigErrorView> {
    read_words(words(s), 0, ReadState::Between, Seq::empty())
}

/// Removing the double quotes at either end of a value: whatever quotes
/// surround a value that neither starts nor ends with one, what is left is
/// that value.
pub proof fn law_trim_quotes(q1: Seq<char>, w: Seq<char>, q2: Seq<char>)
    requires
        forall|i: int| 0 <= i < q1.len() ==> #[trigger] q1[i] == '"',
        forall|i: int| 0 <= i < q2.len() ==> #[trigger] q2[i] == '"',
        w.len() > 0 ==> w[0] != '"' && w.last() != '"',
    ensures
        trim_quotes(q1 + w + q2) == w,
{
    if w.len() == 0 {
        let q = q1 + q2;
        assert forall|i: int| 0 <= i < q.len() implies #[trigger] q[i] == '"' by {
            if i < q1.len() {
                assert(q[i] == q1[i]);
            } else {
                assert(q[i] == q2[i - q1.len()]);
            }
        }
        assert(q1 + w + q2 =~= q + Seq::<char>::empty());
        lemma_strip_leading(q, Seq::<char>::empty());
        assert(strip_trailing_quotes(Seq::<char>::empty()) == Seq::<char>::empty());
        assert(Seq::<char>::empty() =~= w);
    } else {
        lemma_strip_leading(q1, w + q2);
        assert(q1 + w + q2 =~= q1 + (w + q2));
        lemma_strip_trailing(w, q2);
    }
}

proof fn lemma_strip_leading(q: Seq<char>, r: Seq<char>)
    requires
        forall|i: int| 0 <= i < q.len() ==> #[trigger] q[i] == '"',
        r.len() > 0 ==> r[0] != '"',
    ensures
        strip_leading_quotes(q + r) == r,
    decreases q.len(),
{
    if q.len() == 0 {
        assert(q + r =~= r);
    } else {
        let q0 = q.skip(1);
        assert forall|i: int| 0 <= i < q0.len() implies #[trigger] q0[i] == '"' by {
            assert(q0[i] == q[i + 1]);
        }
        assert((q + r).skip(1) =~= q0 + r);
        assert((q + r)[0] == q[0]);
        lemma_strip_leading(q0, r);
    }
}

proof fn lemma_strip_trailing(w: Seq<char>, q: Seq<char>)
    requires
        forall|i: int| 0 <= i < q.len() ==> #[trigger] q[i] == '"',
        w.len() > 0 ==> w.last() != '"',
    ensures
        strip_trailing_quotes(w + q) == w,
    decreases q.len(),
{
    if q.len() == 0 {
        assert(w + q =~= w);
    } else {
        let q0 = q.drop_last();
        assert forall|i: int| 0 <= i < q0.len() implies #[trigger] q0[i] == '"' by {
            assert(q0[i] == q[i]);
        }
        assert((w + q).drop_last() =~= w + q0);
        assert((w + q).last() == q[q.len() - 1]);
        lemma_strip_trailing(w, q0);
    }
}

/// A run of non-space characters followed by a space is one word.
proof fn lemma_word_then_space(x: Seq<char>)
    requires
        x.len() > 0,
        no_space(x),
    ensures
        words(x + seq![' ']) == seq![x],
{
    lemma_words_single(x);
    assert(x + seq![' '] =~= x.push(' '));
    assert((x + seq![' ']).drop_last() =~= x);
}

/// The words of a block with one value directive, `n { d v }`.
proof fn lemma_block_words(n: Seq<char>, d: Seq<char>, v: Seq<char>)
    requires
        n.len() > 0,
        d.len() > 0,
        v.len() > 0,
        no_space(n),
        no_space(d),
        no_space(v),
    ensures
        words(n + seq![' ', '{', ' '] + d + seq![' '] + v + seq![' ', '}']) == seq![
            n,
            seq!['{'],
            d,
            v,
            seq!['}'],
        ],
{
    let sp = seq![' '];
    let lb = seq!['{'];
    let rb = seq!['}'];
    let a1 = n + sp;
    let a2 = a1 + (lb + sp);
    let a3 = a2 + (d + sp);
    let a4 = a3 + (v + sp);
    let a5 = a4 + rb;
    assert(n + seq![' ', '{', ' '] + d + seq![' '] + v + seq![' ', '}'] =~= a5);
    assert(no_space(lb));
    assert(no_space(rb));
    lemma_word_then_space(n);
    lemma_word_then_space(lb);
    lemma_word_then_space(d);
    lemma_word_then_space(v);
    lemma_words_single(rb);
    assert(a1.last() == ' ');
    lemma_words_concat(a1, lb + sp);
    assert(a2.last() == ' ');
    lemma_words_concat(a2, d + sp);
    assert(a3.last() == ' ');
    lemma_words_concat(a3, v + sp);
    assert(a4.last() == ' ');
    lemma_words_concat(a4, rb);
    assert(seq![n] + seq![lb] + seq![d] + seq![v] + seq![rb] =~= seq![n, lb, d, v, rb]);
}

/// The settings of a server block named `n` whose only setting is the
/// plugin directory `dir`.
pub open spec fn only_plugin_dir(n: Seq<char>, dir: Seq<char>) -> ConfigView {
    ConfigView {
        name: n,
        storage_dir: None,
        sync_mode: None,
        sync_interval: None,
        plugin_dir: Some(dir),
    }
}

/// A block that only sets the plugin directory gives one server, named as
/// the block, whose plugin directory is the value with the double quotes at
/// either end removed; likewise the storage directory.
pub proof fn law_directory_values_unquoted(n: Seq<char>, v: Seq<char>)
    requires
        n.len() > 0,
        v.len() > 0,
        no_space(n),
        no_space(v),
    ensures
        spec_parse_twinzfile(n + " { plugin_dir "@ + v + " }"@) == Ok::<
            Seq<ConfigView>,
            ConfigErrorView,
        >(seq![only_plugin_dir(n, trim_quotes(v))]),
        spec_parse_twinzfile(n + " { storage "@ + v + " }"@) == Ok::<Seq<ConfigView>, ConfigErrorView>(
            seq![
                ConfigView {
                    name: n,
                    storage_dir: Some(trim_quotes(v)),
                    sync_mode: None,
                    sync_interval: None,
                    plugin_dir: None,
                },
            ],
        ),
{
    reveal_strlit(" { plugin_dir ");
    reveal_strlit(" { storage ");
    reveal_strlit(" }");
    reveal_strlit("plugin_dir");
    reveal_strlit("storage");
    reveal_strlit("sync");
    reveal_strlit("{");
    reveal_strlit("}");
    let pd = "plugin_dir"@;
    let st = "storage"@;
    assert(no_space(pd));
    assert(no_space(st));
    assert(n + " { plugin_dir "@ + v + " }"@ =~= n + seq![' ', '{', ' '] + pd + seq![' '] + v + seq![' ', '}']);
    assert(n + " { storage "@ + v + " }"@ =~= n + seq![' ', '{', ' '] + st + seq![' '] + v + seq![' ', '}']);
    lemma_block_words(n, pd, v);
    lemma_block_words(n, st, v);
    assert(seq!['{'] =~= "{"@);
    assert(seq!['}'] =~= "}"@);
    assert(pd != "}"@ && pd != "storage"@ && pd != "sync"@) by {
        assert(pd.len() != "}"@.len() && pd.len() != "storage"@.len() && pd.len() != "sync"@.len());
    }
    assert(st != "}"@ && st != "sync"@) by {
        assert(st.len() != "}"@.len() && st.len() != "sync"@.len());
    }
    let t = seq![n, seq!['{'], pd, v, seq!['}']];
    let c1 = ConfigView { plugin_dir: Some(trim_quotes(v)), ..block_start(n) };
    assert(read_words(t, 5, ReadState::Between, seq![c1]) == Ok::<Seq<ConfigView>, ConfigErrorView>(seq![c1]));
    assert(read_words(t, 4, ReadState::InBlock(c1), Seq::empty()) == read_words(t, 5, ReadState::Between, seq![c1]));
    assert(read_words(t, 2, ReadState::InBlock(block_start(n)), Seq::empty()) == read_words(t, 4, ReadState::InBlock(c1), Seq::empty()));
    assert(read_words(t, 0, ReadState::Between, Seq::empty()) == read_words(t, 2, ReadState::InBlock(block_start(n)), Seq::empty()));
    let u = seq![n, seq!['{'], st, v, seq!['}']];
    let c2 = ConfigView { storage_dir: Some(trim_quotes(v)), ..block_start(n) };
    assert(read_words(u, 5, ReadState::Between, seq![c2]) == Ok::<Seq<ConfigView>, ConfigErrorView>(seq![c2]));
    assert(read_words(u, 4, ReadState::InBlock(c2), Seq::empty()) == read_words(u, 5, ReadState::Between, seq![c2]));
    assert(read_words(u, 2, ReadState::InBlock(block_start(n)), Seq::empty()) == read_words(u, 4, ReadState::InBlock(c2), Seq::empty()));
    assert(read_words(u, 0, ReadState::Between, Seq::empty()) == read_words(u, 2, ReadState::InBlock(block_start(n)), Seq::empty()));
}

/// Whether `c` is white space.
fn is_space_char(c: char) -> (r: bool)
    ensures
        r == is_space(c),
{
    ('\u{9}' <= c && c <= '\u{d}') || c == ' ' || c == '\u{85}' || c == '\u{a0}' || c
        == '\u{1680}' || ('\u{2000}' <= c && c <= '\u{200a}') || c == '\u{2028}' || c
        == '\u{2029}' || c == '\u{202f}' || c == '\u{205f}' || c == '\u{3000}'
}

/// The subranges of `s` that `spans` delimit.
pub open spec fn span_words(s: Seq<char>, spans: Seq<(usize, usize)>) -> Seq<Seq<char>> {
    spans.map_values(|p: (usize, usize)| s.subrange(p.0 as int, p.1 as int))
}

/// The words of `text`, as `str::split_whitespace` yields them.
pub fn split_words(text: &str) -> (r: Vec<String>)
    ensures
        r@.len() == words(text@).len(),
        forall|k: int| 0 <= k < r@.len() ==> (#[trigger] r@[k])@ == words(text@)[k],
{
    let s = chars_of(text);
    let n = s.len();
    let mut spans: Vec<(usize, usize)> = Vec::new();
    let mut i: usize = 0;
    assert(s@.take(0) =~= Seq::<char>::empty());
    while i < n
        invariant
            i <= n,
            n == s@.len(),
            s@ == text@,
            span_words(s@, spans@) == words(s@.take(i as int)),
            forall|k: int|
                0 <= k < spans@.len() ==> (#[trigger] spans@[k]).0 <= spans@[k].1 <= i,
            i > 0 && !is_space(s@[i - 1]) ==> spans@.len() > 0 && spans@.last().1 == i,
        decreases n - i,
    {
        let c = s[i];
        let ghost pre = s@.take(i as int);
        let ghost cur = s@.take(i + 1);
        assert(cur.drop_last() =~= pre);
        assert(cur.last() == c);
        if is_space_char(c) {
        } else if i > 0 && !is_space_char(s[i - 1]) {
            assert(cur[cur.len() - 2] == s@[i - 1]);
            let last = spans.len() - 1;
            let (a, _) = spans[last];
            let ghost old_spans = spans@;
            spans.set(last, (a, i + 1));
            proof {
                assert(s@.subrange(a as int, i + 1) =~= s@.subrange(a as int, i as int).push(c));
                assert(span_words(s@, spans@) =~= span_words(s@, old_spans).update(
                    last as int,
                    span_words(s@, old_spans).last().push(c),
                ));
            }
        } else {
            proof {
                if i > 0 {
                    assert(cur[cur.len() - 2] == s@[i - 1]);
                }
            }
            let ghost old_spans = spans@;
            spans.push((i, i + 1));
            proof {
                assert(s@.subrange(i as int, i + 1) =~= seq![c]);
                assert(span_words(s@, spans@) =~= span_words(s@, old_spans).push(seq![c]));
            }
        }
        i = i + 1;
    }
    assert(s@.take(n as int) =~= s@);
    let mut r: Vec<String> = Vec::new();
    let mut k: usize = 0;
    while k < spans.len()
        invariant
            k <= spans@.len(),
            n == s@.len(),
            s@ == text@,
            span_words(s@, spans@) == words(text@),
            forall|j: int| 0 <= j < spans@.len() ==> (#[trigger] spans@[j]).0 <= spans@[j].1 <= n,
            r@.len() == k,
            forall|j: int| 0 <= j < k ==> (#[trigger] r@[j])@ == words(text@)[j],
        decreases spans@.len() - k,
    {
        let (a, b) = spans[k];
        let w = text.substring_char(a, b).to_owned();
        assert(span_words(s@, spans@)[k as int] == s@.subrange(a as int, b as int));
        r.push(w);
        k = k + 1;
    }
    r
}

/// Whether the word `w` is `lit`.
fn word_is(w: &String, lit: &str) -> (r: bool)
    ensures
        r == (w@ == lit@),
{
    let l = lit.to_owned();
    *w == l
}

/// `w` without the double quotes at either end.
pub fn trim_quote_chars(w: &String) -> (r: String)
    ensures
        r@ == trim_quotes(w@),
{
    let text = w.as_str();
    let c = chars_of(text);
    let n = c.len();
    let mut a: usize = 0;
    assert(c@.skip(0) =~= c@);
    while a < n && c[a] == '"'
        invariant
            a <= n,
            n == c@.len(),
            strip_leading_quotes(c@) == strip_leading_quotes(c@.skip(a as int)),
        decreases n - a,
    {
        assert(c@.skip(a as int).skip(1) =~= c@.skip(a + 1));
        a = a + 1;
    }
    assert(strip_leading_quotes(c@) == c@.skip(a as int));
    let mut b: usize = n;
    assert(c@.subrange(a as int, n as int) =~= c@.skip(a as int));
    while b > a && c[b - 1] == '"'
        invariant
            a <= b <= n,
            n == c@.len(),
            trim_quotes(c@) == strip_trailing_quotes(c@.subrange(a as int, b as int)),
        decreases b,
    {
        assert(c@.subrange(a as int, b as int).drop_last() =~= c@.subrange(a as int, b - 1));
        b = b - 1;
    }
    assert(trim_quotes(c@) == c@.subrange(a as int, b as int));
    text.substring_char(a, b).to_owned()
}

/// The state of reading that `cur` stands for.
pub open spec fn state_of(cur: Option<ServerConfig>) -> ReadState {
    match cur {
        Some(c) => ReadState::InBlock(c@),
        None => ReadState::Between,
    }
}

/// The settings of each of `configs`.
pub open spec fn config_views(configs: Seq<ServerConfig>) -> Seq<ConfigView> {
    configs.map_values(|c: ServerConfig| c@)
}

/// Reads the server blocks of the Twinzfile text `content`.
pub fn parse_twinzfile(content: &str) -> (r: Result<Vec<ServerConfig>, ConfigError>)
    ensures
        match (r, spec_parse_twinzfile(content@)) {
            (Ok(v), Ok(sv)) => config_views(v@) == sv,
            (Err(e), Err(se)) => e@ == se,
            _ => false,
        },
{
    let t = split_words(content);
    let n = t.len();
    let ghost tv = words(content@);
    assert(t@.map_values(|w: String| w@) =~= tv);
    let ghost target = spec_parse_twinzfile(content@);
    let mut done: Vec<ServerConfig> = Vec::new();
    let mut cur: Option<ServerConfig> = None;
    let mut i: usize = 0;
    assert(config_views(done@) =~= Seq::<ConfigView>::empty());
    loop
        invariant
            i <= n,
            n == t@.len(),
            n == tv.len(),
            forall|k: int| 0 <= k < n ==> (#[trigger] t@[k])@ == tv[k],
            tv == words(content@),
            target == spec_parse_twinzfile(content@),
            read_words(tv, i as int, state_of(cur), config_views(done@)) == target,
        decreases n - i,
    {
        let ghost st = state_of(cur);
        let ghost views = config_views(done@);
        assert(read_words(tv, i as int, st, views) == target);
        match cur {
            None => {
                assert(st == ReadState::Between);
                if i >= n {
                    assert(spec_parse_twinzfile(content@) == Ok::<Seq<ConfigView>, ConfigErrorView>(views));
                    return Ok(done);
                }
                if i + 1 >= n {
                    assert(spec_parse_twinzfile(content@) == Err::<Seq<ConfigView>, ConfigErrorView>(ConfigErrorView::MissingOpenBrace));
                    return Err(ConfigError::MissingOpenBrace);
                }
                if !word_is(&t[i + 1], "{") {
                    return Err(ConfigError::UnexpectedToken(t[i + 1].clone()));
                }
                let c = ServerConfig {
                    name: t[i].clone(),
                    storage_dir: None,
                    sync_mode: None,
                    sync_interval: None,
                    plugin_dir: None,
                };
                cur = Some(c);
                i = i + 2;
            },
            Some(c) => {
                let mut c = c;
                assert(st == ReadState::InBlock(c@));
                if i >= n {
                    return Err(ConfigError::MissingCloseBrace);
                }
                if word_is(&t[i], "}") {
                    let ghost before = config_views(done@);
                    done.push(c);
                    assert(config_views(done@) =~= before.push(c@));
                    cur = None;
                    i = i + 1;
                } else if word_is(&t[i], "storage") {
                    if i + 1 >= n {
                        return Err(ConfigError::MissingValue(Directive::Storage));
                    }
                    c.storage_dir = Some(trim_quote_chars(&t[i + 1]));
                    cur = Some(c);
                    i = i + 2;
                } else if word_is(&t[i], "sync") {
                    if i + 1 >= n {
                        return Err(ConfigError::MissingValue(Directive::Sync));
                    }
                    let mode = t[i + 1].clone();
                    let is_interval = word_is(&mode, "interval");
                    c.sync_mode = Some(mode);
                    let mut step: usize = 2;
                    if is_interval && i + 2 < n {
                        let digits = chars_of(t[i + 2].as_str());
                        match parse_unsigned_chars(&digits, 0xFFFF_FFFF_FFFF_FFFF) {
                            Some(v) => {
                                c.sync_interval = Some(v);
                                step = 3;
                            },
                            None => {},
                        }
                    }
                    cur = Some(c);
                    i = i + step;
                } else if word_is(&t[i], "plugin_dir") {
                    if i + 1 >= n {
                        return Err(ConfigError::MissingValue(Directive::PluginDir));
                    }
                    c.plugin_dir = Some(trim_quote_chars(&t[i + 1]));
                    cur = Some(c);
                    i = i + 2;
                } else {
                    return Err(ConfigError::UnknownDirective(t[i].clone()));
                }
            },
        }
    }
}

} // verus!
