//! Where the projects live and which of them to show: the repository root
//! (from `ghq.root` or `$HOME/src`) and the `GIT_PROJECTS_TARGETS` filter.

use vstd::prelude::*;
use crate::text::{
    append_all, chars_of, opt_view, string_from_chars, trimmed, trimmed_spec, utf8_decode_lossy,
    utf8_lossy, views,
};

verus! {

/// The settings a run works with.
pub struct AppContext {
    /// Directory under which repositories are searched.
    pub root: String,
    /// Path fragments; when non-empty, only repositories whose relative path
    /// contains one of them are shown.
    pub targets: Vec<String>,
}

/// Why the settings could not be determined.
#[derive(Debug, PartialEq, Eq, Structural)]
pub enum ConfigError {
    /// `ghq.root` is unset and `HOME` is not available either.
    HomeNotSet,
}

/// `path` with a leading `~/` (or a bare `~`) replaced by `home`; unchanged
/// when `home` is unknown or the tilde is not a home reference.
pub open spec fn expand_tilde_spec(path: Seq<char>, home: Option<Seq<char>>) -> Seq<char> {
    match home {
        None => path,
        Some(h) => if path.len() >= 2 && path[0] == '~' && path[1] == '/' {
            h + seq!['/'] + path.skip(2)
        } else if path == seq!['~'] {
            h
        } else {
            path
        },
    }
}

/// `s` cut at every `sep`, keeping empty pieces, as `str::split` does:
/// `k` separators give `k + 1` pieces.
pub open spec fn split_spec(s: Seq<char>, sep: char) -> Seq<Seq<char>>
    decreases s.len(),
{
    if s.len() == 0 {
        seq![seq![]]
    } else {
        let r = split_spec(s.drop_last(), sep);
        if s.last() == sep {
            r.push(seq![])
        } else {
            r.update(r.len() - 1, r.last().push(s.last()))
        }
    }
}

/// The non-empty elements of `ss`, in order.
pub open spec fn non_empty(ss: Seq<Seq<char>>) -> Seq<Seq<char>>
    decreases ss.len(),
{
    if ss.len() == 0 {
        seq![]
    } else if ss.last().len() == 0 {
        non_empty(ss.drop_last())
    } else {
        non_empty(ss.drop_last()).push(ss.last())
    }
}

/// The filter fragments of a `GIT_PROJECTS_TARGETS` value: its non-empty
/// colon-separated pieces; none when the variable is unset.
pub open spec fn targets_spec(raw: Option<Seq<char>>) -> Seq<Seq<char>> {
    match raw {
        None => seq![],
        Some(s) => non_empty(split_spec(s, ':')),
    }
}

/// The repository root: `ghq.root` with its tilde expanded when it is set,
/// otherwise `$HOME/src`; `None` when neither is available.
pub open spec fn root_spec(ghq: Option<Seq<char>>, home: Option<Seq<char>>) -> Option<Seq<char>> {
    match ghq {
        Some(r) => Some(expand_tilde_spec(r, home)),
        None => match home {
            Some(h) => Some(h + seq!['/', 's', 'r', 'c']),
            None => None,
        },
    }
}

/// The `ghq.root` setting read from the output of
/// `git config --global ghq.root`: nothing when git failed, otherwise its
/// standard output decoded and trimmed, unless that is empty.
pub open spec fn ghq_root_spec(success: bool, stdout: Seq<u8>) -> Option<Seq<char>> {
    if !success {
        None
    } else {
        trimmed_spec(utf8_lossy(stdout))
    }
}

pub open spec fn opt_str_view(o: Option<&str>) -> Option<Seq<char>> {
    match o {
        Some(s) => Some(s@),
        None => None,
    }
}

/// Replaces a leading `~/`, or a path that is just `~`, by `home`.
pub fn expand_tilde(path: &str, home: Option<&str>) -> (r: String)
    ensures
        r@ == expand_tilde_spec(path@, opt_str_view(home)),
        home is None ==> r@ == path@,
{
    let p = chars_of(path);
    match home {
        None => string_from_chars(p.as_slice()),
        Some(h) => {
            if p.len() >= 2 && p[0] == '~' && p[1] == '/' {
                let mut out = chars_of(h);
                out.push('/');
                let rest = vstd::slice::slice_subrange(p.as_slice(), 2, p.len());
                append_all(&mut out, rest);
                assert(out@ =~= h@ + seq!['/'] + path@.skip(2));
                string_from_chars(out.as_slice())
            } else if p.len() == 1 && p[0] == '~' {
                assert(path@ =~= seq!['~']);
                string_from_chars(chars_of(h).as_slice())
            } else {
                proof {
                    if path@ == seq!['~'] {
                        assert(path@[0] == '~');
                    }
                }
                string_from_chars(p.as_slice())
            }
        },
    }
}

proof fn lemma_split_nonempty(s: Seq<char>, sep: char)
    ensures
        split_spec(s, sep).len() >= 1,
    decreases s.len(),
{
    if s.len() > 0 {
        lemma_split_nonempty(s.drop_last(), sep);
    }
}

proof fn lemma_split_pieces(s: Seq<char>, sep: char)
    ensures
        forall|k: int|
            0 <= k < split_spec(s, sep).len() ==> !(#[trigger] split_spec(s, sep)[k]).contains(sep),
    decreases s.len(),
{
    if s.len() > 0 {
        lemma_split_nonempty(s.drop_last(), sep);
        lemma_split_pieces(s.drop_last(), sep);
        let r = split_spec(s.drop_last(), sep);
        if s.last() != sep {
            assert forall|k: int| 0 <= k < split_spec(s, sep).len() implies !(
            #[trigger] split_spec(s, sep)[k]).contains(sep) by {
                if k == r.len() - 1 {
                    let piece = r.last().push(s.last());
                    assert(split_spec(s, sep)[k] == piece);
                    if piece.contains(sep) {
                        let q = choose|q: int| 0 <= q < piece.len() && piece[q] == sep;
                        if q < r.last().len() {
                            assert(r.last()[q] == sep);
                            assert(r[r.len() - 1].contains(sep));
                        }
                    }
                } else {
                    assert(split_spec(s, sep)[k] == r[k]);
                }
            }
        } else {
            assert forall|k: int| 0 <= k < split_spec(s, sep).len() implies !(
            #[trigger] split_spec(s, sep)[k]).contains(sep) by {
                if k < r.len() {
                    assert(split_spec(s, sep)[k] == r[k]);
                } else {
                    assert(split_spec(s, sep)[k] =~= seq![]);
                }
            }
        }
    }
}

proof fn lemma_non_empty_elements(ss: Seq<Seq<char>>, sep: char)
    requires
        forall|k: int| 0 <= k < ss.len() ==> !(#[trigger] ss[k]).contains(sep),
    ensures
        forall|k: int|
            0 <= k < non_empty(ss).len() ==> (#[trigger] non_empty(ss)[k]).len() > 0
                && !non_empty(ss)[k].contains(sep),
    decreases ss.len(),
{
    if ss.len() > 0 {
        let d = ss.drop_last();
        assert forall|k: int| 0 <= k < d.len() implies !(#[trigger] d[k]).contains(sep) by {
            assert(d[k] == ss[k]);
        }
        lemma_non_empty_elements(d, sep);
        assert(!ss[ss.len() - 1].contains(sep));
        if ss.last().len() > 0 {
            assert forall|k: int| 0 <= k < non_empty(ss).len() implies (#[trigger] non_empty(
                ss,
            )[k]).len() > 0 && !non_empty(ss)[k].contains(sep) by {
                if k < non_empty(d).len() {
                    assert(non_empty(ss)[k] == non_empty(d)[k]);
                } else {
                    assert(non_empty(ss)[k] == ss.last());
                }
            }
        }
    }
}

/// Every fragment is non-empty and holds no colon.
pub proof fn lemma_targets_are_clean(raw: Option<Seq<char>>)
    ensures
        forall|k: int|
            0 <= k < targets_spec(raw).len() ==> (#[trigger] targets_spec(raw)[k]).len() > 0
                && !targets_spec(raw)[k].contains(':'),
{
    if let Some(s) = raw {
        lemma_split_pieces(s, ':');
        lemma_non_empty_elements(split_spec(s, ':'), ':');
    }
}

/// The elements of `parts` with `sep` between each two.
pub open spec fn join_spec(parts: Seq<Seq<char>>, sep: char) -> Seq<char>
    decreases parts.len(),
{
    if parts.len() == 0 {
        seq![]
    } else if parts.len() == 1 {
        parts[0]
    } else {
        join_spec(parts.drop_last(), sep) + seq![sep] + parts.last()
    }
}

proof fn lemma_split_plain(a: Seq<char>, b: Seq<char>, sep: char)
    requires
        !b.contains(sep),
    ensures
        split_spec(a + b, sep) == split_spec(a, sep).update(
            split_spec(a, sep).len() - 1,
            split_spec(a, sep).last() + b,
        ),
    decreases b.len(),
{
    lemma_split_nonempty(a, sep);
    let sa = split_spec(a, sep);
    if b.len() == 0 {
        assert(a + b =~= a);
        assert(sa.last() + b =~= sa.last());
        assert(sa.update(sa.len() - 1, sa.last() + b) =~= sa);
    } else {
        let d = b.drop_last();
        assert(!d.contains(sep)) by {
            if d.contains(sep) {
                let j = choose|j: int| 0 <= j < d.len() && d[j] == sep;
                assert(b[j] == sep);
            }
        }
        lemma_split_plain(a, d, sep);
        assert((a + b).drop_last() =~= a + d);
        assert((a + b).last() == b.last());
        assert(b[b.len() - 1] != sep);
        let sd = split_spec(a + d, sep);
        assert(sd.last() == sa.last() + d);
        assert((sa.last() + d).push(b.last()) =~= sa.last() + b);
        assert(sd.update(sd.len() - 1, sd.last().push(b.last())) =~= sa.update(
            sa.len() - 1,
            sa.last() + b,
        ));
    }
}

proof fn lemma_split_join(parts: Seq<Seq<char>>, sep: char)
    requires
        parts.len() >= 1,
        forall|k: int| 0 <= k < parts.len() ==> !(#[trigger] parts[k]).contains(sep),
    ensures
        split_spec(join_spec(parts, sep), sep) == parts,
    decreases parts.len(),
{
    if parts.len() == 1 {
        let e: Seq<char> = seq![];
        lemma_split_plain(e, parts[0], sep);
        assert(e + parts[0] =~= parts[0]);
        assert(split_spec(e, sep) =~= seq![e]);
        assert(e + parts[0] =~= parts[0]);
        assert(seq![e].update(0, e + parts[0]) =~= parts);
    } else {
        let d = parts.drop_last();
        assert forall|k: int| 0 <= k < d.len() implies !(#[trigger] d[k]).contains(sep) by {
            assert(d[k] == parts[k]);
        }
        lemma_split_join(d, sep);
        let j = join_spec(d, sep);
        let js = j + seq![sep];
        assert(js.drop_last() =~= j);
        assert(js.last() == sep);
        assert(split_spec(js, sep) == d.push(seq![]));
        assert(!parts[parts.len() - 1].contains(sep));
        lemma_split_plain(js, parts.last(), sep);
        assert(Seq::<char>::empty() + parts.last() =~= parts.last());
        assert(d.push(seq![]).update(d.len() as int, seq![] + parts.last()) =~= parts);
    }
}

proof fn lemma_non_empty_all(parts: Seq<Seq<char>>)
    requires
        forall|k: int| 0 <= k < parts.len() ==> (#[trigger] parts[k]).len() > 0,
    ensures
        non_empty(parts) == parts,
    decreases parts.len(),
{
    if parts.len() > 0 {
        let d = parts.drop_last();
        assert forall|k: int| 0 <= k < d.len() implies (#[trigger] d[k]).len() > 0 by {
            assert(d[k] == parts[k]);
        }
        lemma_non_empty_all(d);
        assert(parts[parts.len() - 1].len() > 0);
        assert(d.push(parts.last()) =~= parts);
    }
}

/// Joining clean fragments (non-empty, no colon) with colons and parsing the
/// result gives the fragments back.
pub proof fn lemma_targets_of_join(parts: Seq<Seq<char>>)
    requires
        forall|k: int|
            0 <= k < parts.len() ==> (#[trigger] parts[k]).len() > 0 && !parts[k].contains(':'),
    ensures
        targets_spec(Some(join_spec(parts, ':'))) == parts,
{
    if parts.len() == 0 {
        let e: Seq<char> = seq![];
        assert(join_spec(parts, ':') == e);
        assert(split_spec(e, ':') =~= seq![e]);
        assert(seq![e].drop_last() =~= Seq::<Seq<char>>::empty());
        assert(seq![e].last().len() == 0);
        assert(non_empty(seq![e].drop_last()) =~= Seq::<Seq<char>>::empty());
        assert(non_empty(seq![e]) =~= Seq::<Seq<char>>::empty());
        assert(parts =~= Seq::<Seq<char>>::empty());
    } else {
        lemma_split_join(parts, ':');
        lemma_non_empty_all(parts);
    }
}

/// Splits a `GIT_PROJECTS_TARGETS` value into filter fragments.
///
/// Empty fragments are dropped: `""` is a substring of every path, so keeping
/// one would silently disable the filter.
pub fn parse_targets(raw: Option<&str>) -> (r: Vec<String>)
    ensures
        views(r@) == targets_spec(opt_str_view(raw)),
        forall|k: int| 0 <= k < r@.len() ==> (#[trigger] r@[k])@.len() > 0 && !r@[k]@.contains(':'),
{
    proof {
        lemma_targets_are_clean(opt_str_view(raw));
    }
    let s: &str = match raw {
        Some(s) => s,
        None => "",
    };
    let cs = chars_of(s);
    let mut out: Vec<String> = Vec::new();
    let mut cur: Vec<char> = Vec::new();
    let mut i: usize = 0;
    while i < cs.len()
        invariant
            i <= cs@.len(),
            split_spec(cs@.take(i as int), ':').len() >= 1,
            split_spec(cs@.take(i as int), ':').last() == cur@,
            views(out@) == non_empty(split_spec(cs@.take(i as int), ':').drop_last()),
        decreases cs@.len() - i,
    {
        let ghost sp = split_spec(cs@.take(i as int), ':');
        let c = cs[i];
        assert(cs@.take(i + 1).drop_last() =~= cs@.take(i as int));
        assert(cs@.take(i + 1).last() == c);
        if c == ':' {
            if cur.len() > 0 {
                out.push(string_from_chars(cur.as_slice()));
            }
            assert(views(out@) =~= non_empty(sp)) by {
                assert(sp.drop_last().push(sp.last()) =~= sp);
            }
            assert(split_spec(cs@.take(i + 1), ':').drop_last() =~= sp);
            cur = Vec::new();
        } else {
            cur.push(c);
            assert(split_spec(cs@.take(i + 1), ':').drop_last() =~= sp.drop_last());
        }
        i += 1;
    }
    let ghost sp = split_spec(cs@.take(i as int), ':');
    if cur.len() > 0 {
        out.push(string_from_chars(cur.as_slice()));
    }
    assert(sp.drop_last().push(sp.last()) =~= sp);
    assert(cs@.take(i as int) =~= cs@);
    assert(views(out@) =~= non_empty(sp));
    proof {
        if raw is None {
            reveal_strlit("");
            assert(s@ =~= seq![]);
            assert(non_empty(split_spec(seq![], ':')) =~= seq![]) by {
                assert(split_spec(seq![], ':') =~= seq![seq![]]);
                assert(split_spec(seq![], ':').drop_last() =~= seq![]);
            }
        }
        assert(views(out@) == targets_spec(opt_str_view(raw)));
        assert forall|k: int| 0 <= k < out@.len() implies (#[trigger] out@[k])@.len() > 0
            && !out@[k]@.contains(':') by {
            assert(views(out@)[k] == out@[k]@);
        }
    }
    out
}

/// Chooses the repository root from the `ghq.root` setting and `HOME`.
pub fn resolve_root(ghq_root: Option<String>, home: Option<String>) -> (r: Result<String, ConfigError>)
    ensures
        match root_spec(opt_view(ghq_root), opt_view(home)) {
            Some(p) => r matches Ok(s) && s@ == p,
            None => r == Err::<String, ConfigError>(ConfigError::HomeNotSet),
        },
{
    match ghq_root {
        Some(root) => {
            let h: Option<&str> = match &home {
                Some(h) => Some(h.as_str()),
                None => None,
            };
            Ok(expand_tilde(root.as_str(), h))
        },
        None => match home {
            Some(h) => {
                let mut out = chars_of(h.as_str());
                out.push('/');
                out.push('s');
                out.push('r');
                out.push('c');
                assert(out@ =~= h@ + seq!['/', 's', 'r', 'c']);
                Ok(string_from_chars(out.as_slice()))
            },
            None => Err(ConfigError::HomeNotSet),
        },
    }
}

/// Reads the `ghq.root` setting from what `git config --global ghq.root`
/// reported: whether it succeeded, and its standard output.
pub fn ghq_root(success: bool, stdout: &[u8]) -> (r: Option<String>)
    ensures
        opt_view(r) == ghq_root_spec(success, stdout@),
        success && vstd::utf8::valid_utf8(stdout@) ==> opt_view(r) == trimmed_spec(
            vstd::utf8::decode_utf8(stdout@),
        ),
{
    if !success {
        return None;
    }
    let text = utf8_decode_lossy(stdout);
    trimmed(text.as_str())
}

impl AppContext {
    /// Builds the settings from the `ghq.root` setting, `HOME` and
    /// `GIT_PROJECTS_TARGETS`, as the caller found them.
    pub fn load(ghq_root: Option<String>, home: Option<String>, targets: Option<String>) -> (r: Result<AppContext, ConfigError>)
        ensures
            match root_spec(opt_view(ghq_root), opt_view(home)) {
                Some(p) => r matches Ok(ctx) && ctx.root@ == p
                    && views(ctx.targets@) == targets_spec(opt_view(targets)),
                None => r matches Err(ConfigError::HomeNotSet),
            },
    {
        let root = match resolve_root(ghq_root, home) {
            Ok(root) => root,
            Err(e) => return Err(e),
        };
        let raw: Option<&str> = match &targets {
            Some(t) => Some(t.as_str()),
            None => None,
        };
        let targets = parse_targets(raw);
        Ok(AppContext { root, targets })
    }
}

/// Where the repositories live. When `ghq.root` is set, the root is that
/// setting, with only a leading `~/` (or a bare `~`) replaced by `HOME`
/// when `HOME` is known; anything else is taken as it is. `$HOME/src` is
/// used only when `ghq.root` is unset, and without both there is none.
pub proof fn lemma_root_choice(ghq: Option<Seq<char>>, home: Option<Seq<char>>)
    ensures
        match ghq {
            Some(r) => {
                &&& !(r.len() > 0 && r[0] == '~') ==> root_spec(ghq, home) == Some(r)
                &&& home is None ==> root_spec(ghq, home) == Some(r)
                &&& r.len() >= 2 && r[0] == '~' && r[1] != '/' ==> root_spec(ghq, home) == Some(r)
                &&& match home {
                    Some(h) => {
                        &&& r.len() >= 2 && r[0] == '~' && r[1] == '/' ==> root_spec(ghq, home)
                            == Some(h + seq!['/'] + r.subrange(2, r.len() as int))
                        &&& r.len() == 1 && r[0] == '~' ==> root_spec(ghq, home) == Some(h)
                    },
                    None => true,
                }
            },
            None => match home {
                Some(h) => root_spec(ghq, home) == Some(h + seq!['/', 's', 'r', 'c']),
                None => root_spec(ghq, home) is None,
            },
        },
{
    if let Some(r) = ghq {
        if r.len() == 1 && r[0] == '~' {
            assert(r =~= seq!['~']);
        }
        if r.len() > 0 && r[0] != '~' {
            assert(r != seq!['~']) by {
                assert(seq!['~'][0] == '~');
            }
        }
        if r.len() >= 2 {
            assert(r.len() != seq!['~'].len());
            assert(r.skip(2) =~= r.subrange(2, r.len() as int));
        }
    }
}

proof fn lemma_split_concat(a: Seq<char>, b: Seq<char>, sep: char)
    ensures
        split_spec(a + seq![sep] + b, sep) == split_spec(a, sep) + split_spec(b, sep),
    decreases b.len(),
{
    let x = split_spec(a, sep);
    let asep = a + seq![sep];
    assert(asep.drop_last() =~= a);
    assert(asep.last() == sep);
    if b.len() == 0 {
        assert(asep + b =~= asep);
        assert(split_spec(b, sep) =~= seq![Seq::<char>::empty()]);
        assert(x.push(seq![]) =~= x + seq![Seq::<char>::empty()]);
    } else {
        let d = b.drop_last();
        let c = b.last();
        lemma_split_concat(a, d, sep);
        lemma_split_nonempty(d, sep);
        let y = split_spec(d, sep);
        assert((asep + b).drop_last() =~= asep + d);
        assert((asep + b).last() == c);
        let xy = x + y;
        if c == sep {
            assert(xy.push(seq![]) =~= x + y.push(seq![]));
        } else {
            assert(xy.last() == y.last());
            assert(xy.update(xy.len() - 1, xy.last().push(c)) =~= x + y.update(
                y.len() - 1,
                y.last().push(c),
            ));
        }
    }
}

proof fn lemma_non_empty_concat(x: Seq<Seq<char>>, y: Seq<Seq<char>>)
    ensures
        non_empty(x + y) == non_empty(x) + non_empty(y),
    decreases y.len(),
{
    if y.len() == 0 {
        assert(x + y =~= x);
        assert(non_empty(x) + non_empty(y) =~= non_empty(x));
    } else {
        lemma_non_empty_concat(x, y.drop_last());
        assert((x + y).drop_last() =~= x + y.drop_last());
        assert((x + y).last() == y.last());
        if y.last().len() > 0 {
            assert((non_empty(x) + non_empty(y.drop_last())).push(y.last()) =~= non_empty(x) + non_empty(
                y.drop_last(),
            ).push(y.last()));
        }
    }
}

/// Parsing a value that joins two values with a colon gives the fragments of
/// the first followed by those of the second.
pub proof fn lemma_targets_concat(a: Seq<char>, b: Seq<char>)
    ensures
        targets_spec(Some(a + seq![':'] + b)) == targets_spec(Some(a)) + targets_spec(Some(b)),
{
    lemma_split_concat(a, b, ':');
    lemma_non_empty_concat(split_spec(a, ':'), split_spec(b, ':'));
}

/// A value without colons is one fragment, or none when it is empty.
pub proof fn lemma_targets_single(s: Seq<char>)
    requires
        !s.contains(':'),
    ensures
        targets_spec(Some(s)) == (if s.len() > 0 {
            seq![s]
        } else {
            Seq::<Seq<char>>::empty()
        }),
{
    let e: Seq<char> = seq![];
    lemma_split_plain(e, s, ':');
    assert(e + s =~= s);
    assert(split_spec(e, ':') =~= seq![e]);
    assert(seq![e].update(0, e + s) =~= seq![s]);
    assert(split_spec(s, ':') == seq![s]);
    assert(seq![s].drop_last() =~= Seq::<Seq<char>>::empty());
    assert(non_empty(seq![s].drop_last()) =~= Seq::<Seq<char>>::empty());
    assert(seq![s].last() == s);
    if s.len() > 0 {
        assert(Seq::<Seq<char>>::empty().push(s) =~= seq![s]);
    }
}

/// Colons at either end of the value change nothing: a trailing or leading
/// empty fragment never drops a non-empty one.
pub proof fn lemma_targets_ignore_edge_colons(s: Seq<char>)
    ensures
        targets_spec(Some(s.push(':'))) == targets_spec(Some(s)),
        targets_spec(Some(seq![':'] + s)) == targets_spec(Some(s)),
{
    let e: Seq<char> = seq![];
    lemma_targets_concat(s, e);
    assert(s + seq![':'] + e =~= s.push(':'));
    lemma_targets_concat(e, s);
    assert(e + seq![':'] + s =~= seq![':'] + s);
    lemma_targets_single(e);
    assert(targets_spec(Some(s)) + Seq::<Seq<char>>::empty() =~= targets_spec(Some(s)));
    assert(Seq::<Seq<char>>::empty() + targets_spec(Some(s)) =~= targets_spec(Some(s)));
}

} // verus!
