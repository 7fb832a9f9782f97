//! The selection history: a file with one repository per line, most recent
//! first. It is read back to put recently chosen repositories at the top of
//! the list, and rewritten after every choice.

use vstd::prelude::*;
use vstd::utf8::{
    decode_utf8, decode_utf8_encode_utf8, encode_scalar, encode_utf8, encode_utf8_decode_utf8,
    encode_utf8_valid_utf8, valid_utf8,
};
use crate::text::{append_all, chars_of, contains_string, string_from_chars, utf8_decode, views};

verus! {

/// How many entries to keep. Beyond this the tail is old enough that it no
/// longer affects the ordering anyone notices.
pub const MAX_ENTRIES: usize = 100;

/// How many lines of the previous history are looked at when it is
/// rewritten.
pub const SCAN_LIMIT: usize = MAX_ENTRIES * 4;

/// `dir` joined with the relative path `rel`, as `Path::join` joins a
/// relative path on Unix: a `/` in between unless `dir` is empty or already
/// ends in one.
pub open spec fn join_path(dir: Seq<char>, rel: Seq<char>) -> Seq<char> {
    if dir.len() == 0 || dir.last() == '/' {
        dir + rel
    } else {
        dir + seq!['/'] + rel
    }
}

/// Where the history file lives: `git-projects/history` under
/// `XDG_DATA_HOME`, or under `$HOME/.local/share` when that is unset (an
/// unset `HOME` counting as empty).
pub open spec fn history_path_spec(xdg_data_home: Option<Seq<char>>, home: Option<Seq<char>>) -> Seq<
    char,
> {
    let dir = match xdg_data_home {
        Some(d) => d,
        None => join_path(
            match home {
                Some(h) => h,
                None => seq![],
            },
            ".local/share"@,
        ),
    };
    join_path(dir, "git-projects/history"@)
}

fn join_chars(dir: &[char], rel: &[char]) -> (path: Vec<char>)
    ensures
        path@ == join_path(dir@, rel@),
{
    let mut out: Vec<char> = Vec::new();
    append_all(&mut out, dir);
    if dir.len() > 0 && dir[dir.len() - 1] != '/' {
        out.push('/');
    }
    append_all(&mut out, rel);
    out
}

/// The path of the history file, given the values of `XDG_DATA_HOME` and
/// `HOME` (`None` when unset).
pub fn history_path(xdg_data_home: Option<&str>, home: Option<&str>) -> (path: String)
    ensures
        path@ == history_path_spec(
            match xdg_data_home {
                Some(d) => Some(d@),
                None => None,
            },
            match home {
                Some(h) => Some(h@),
                None => None,
            },
        ),
{
    let dir: Vec<char> = match xdg_data_home {
        Some(d) => chars_of(d),
        None => {
            let h: Vec<char> = match home {
                Some(h) => chars_of(h),
                None => Vec::new(),
            };
            let rel = chars_of(".local/share");
            join_chars(h.as_slice(), rel.as_slice())
        },
    };
    let rel = chars_of("git-projects/history");
    let path = join_chars(dir.as_slice(), rel.as_slice());
    string_from_chars(path.as_slice())
}

/// The number of bytes before the first newline of `b` (all of `b` when it
/// has none).
pub open spec fn line_len(b: Seq<u8>) -> nat
    decreases b.len(),
{
    if b.len() == 0 || b[0] == 10 {
        0
    } else {
        1 + line_len(b.drop_first())
    }
}

/// `line` without one trailing carriage return.
pub open spec fn strip_cr(line: Seq<u8>) -> Seq<u8> {
    if line.len() > 0 && line.last() == 13 {
        line.drop_last()
    } else {
        line
    }
}

pub proof fn lemma_line_len_bound(b: Seq<u8>)
    ensures
        line_len(b) <= b.len(),
        line_len(b) < b.len() ==> b[line_len(b) as int] == 10,
        forall|k: int| 0 <= k < line_len(b) ==> b[k] != 10,
    decreases b.len(),
{
    if b.len() > 0 && b[0] != 10 {
        lemma_line_len_bound(b.drop_first());
        assert forall|k: int| 0 <= k < line_len(b) implies b[k] != 10 by {
            if k > 0 {
                assert(b[k] == b.drop_first()[k - 1]);
            }
        }
    }
}

/// The entries of a history file: its lines (split at `\n`; a `\r` just
/// before a `\n` is dropped, one at the very end of the file is kept), read
/// up to the first line that is not valid UTF-8, with empty lines left out.
pub open spec fn history_lines(b: Seq<u8>) -> Seq<Seq<char>>
    decreases b.len(),
{
    if b.len() == 0 {
        seq![]
    } else {
        let n = line_len(b);
        proof {
            lemma_line_len_bound(b);
        }
        let line = if n < b.len() {
            strip_cr(b.take(n as int))
        } else {
            b.take(n as int)
        };
        let rest = if n < b.len() {
            b.skip(n as int + 1)
        } else {
            seq![]
        };
        if !valid_utf8(line) {
            seq![]
        } else if line.len() == 0 {
            history_lines(rest)
        } else {
            seq![decode_utf8(line)] + history_lines(rest)
        }
    }
}

/// The bytes of a history file holding `entries`: each one UTF-8 encoded and
/// followed by a newline.
pub open spec fn render_spec(entries: Seq<Seq<char>>) -> Seq<u8>
    decreases entries.len(),
{
    if entries.len() == 0 {
        seq![]
    } else {
        render_spec(entries.drop_last()) + encode_utf8(entries.last()) + seq![10u8]
    }
}

proof fn lemma_line_len_is(b: Seq<u8>, m: int)
    requires
        0 <= m <= b.len(),
        forall|k: int| 0 <= k < m ==> b[k] != 10,
        m == b.len() || b[m] == 10,
    ensures
        line_len(b) == m,
    decreases m,
{
    if m > 0 {
        assert forall|k: int| 0 <= k < m - 1 implies b.drop_first()[k] != 10 by {
            assert(b.drop_first()[k] == b[k + 1]);
        }
        if m < b.len() {
            assert(b.drop_first()[m - 1] == b[m]);
        }
        lemma_line_len_is(b.drop_first(), m - 1);
    }
}

/// Parses the contents of a history file into its entries, most recent
/// first.
pub fn load(contents: &[u8]) -> (entries: Vec<String>)
    ensures
        views(entries@) == history_lines(contents@),
{
    let n: usize = contents.len();
    let mut out: Vec<String> = Vec::new();
    let mut start: usize = 0;
    assert(contents@.skip(0) =~= contents@);
    while start < n
        invariant
            start <= n == contents@.len(),
            history_lines(contents@) == views(out@) + history_lines(contents@.skip(start as int)),
        decreases n - start,
    {
        let mut end: usize = start;
        while end < n && contents[end] != 10u8
            invariant
                start <= end <= n == contents@.len(),
                forall|k: int| start <= k < end ==> contents@[k] != 10,
            decreases n - end,
        {
            end += 1;
        }
        let ghost b = contents@.skip(start as int);
        let ghost m: int = end - start;
        proof {
            assert forall|k: int| 0 <= k < m implies b[k] != 10 by {
                assert(b[k] == contents@[start + k]);
            }
            if end < n {
                assert(b[m] == contents@[end as int]);
            }
            lemma_line_len_is(b, m);
        }
        let mut stop: usize = end;
        if end < n && stop > start && contents[stop - 1] == 13u8 {
            stop -= 1;
        }
        let line = vstd::slice::slice_subrange(contents, start, stop);
        let ghost rest = if m < b.len() {
            b.skip(m + 1)
        } else {
            seq![]
        };
        proof {
            assert(b.take(m) =~= contents@.subrange(start as int, end as int));
            if end < n {
                assert(line@ =~= strip_cr(b.take(m)));
            } else {
                assert(line@ =~= b.take(m));
            }
            if end < n {
                assert(rest =~= contents@.skip(end + 1));
            } else {
                assert(rest =~= contents@.skip(n as int));
            }
        }
        let ghost before = views(out@);
        match utf8_decode(line) {
            None => {
                assert(history_lines(b) =~= Seq::<Seq<char>>::empty());
                assert(views(out@) + history_lines(b) =~= views(out@));
                return out;
            },
            Some(s) => {
                if stop > start {
                    out.push(s);
                    assert(views(out@) =~= before.push(s@));
                    assert(history_lines(b) == seq![s@] + history_lines(rest));
                    assert(before + history_lines(b) =~= views(out@) + history_lines(rest));
                } else {
                    assert(history_lines(b) == history_lines(rest));
                }
            },
        }
        start = if end < n {
            end + 1
        } else {
            n
        };
    }
    assert(contents@.skip(n as int) =~= Seq::<u8>::empty());
    assert(views(out@) + Seq::<Seq<char>>::empty() =~= views(out@));
    out
}

/// The bytes of a history file holding `entries`, one per line.
pub fn render(entries: &[String]) -> (bytes: Vec<u8>)
    ensures
        bytes@ == render_spec(views(entries@)),
{
    let mut out: Vec<u8> = Vec::new();
    let mut i: usize = 0;
    while i < entries.len()
        invariant
            i <= entries@.len(),
            out@ == render_spec(views(entries@).take(i as int)),
        decreases entries@.len() - i,
    {
        let ghost es = views(entries@).take(i + 1);
        assert(es.drop_last() =~= views(entries@).take(i as int));
        assert(es.last() == entries@[i as int]@);
        let b: &[u8] = entries[i].as_str().as_bytes();
        append_all(&mut out, b);
        out.push(10u8);
        i += 1;
    }
    assert(views(entries@).take(entries@.len() as int) =~= views(entries@));
    out
}

/// The elements of `s` with later repetitions removed, in order of first
/// occurrence.
pub open spec fn distinct_spec(s: Seq<Seq<char>>) -> Seq<Seq<char>>
    decreases s.len(),
{
    if s.len() == 0 {
        seq![]
    } else {
        let r = distinct_spec(s.drop_last());
        if r.contains(s.last()) {
            r
        } else {
            r.push(s.last())
        }
    }
}

/// The entries written after `selected` is chosen with `previous` on file:
/// the selection first, then the entries among the first `SCAN_LIMIT` of
/// `previous` not already listed, at most `MAX_ENTRIES` in all.
pub open spec fn record_spec(previous: Seq<Seq<char>>, selected: Seq<char>) -> Seq<Seq<char>> {
    let window = if previous.len() <= SCAN_LIMIT {
        previous
    } else {
        previous.take(SCAN_LIMIT as int)
    };
    let d = distinct_spec(seq![selected] + window);
    if d.len() <= MAX_ENTRIES {
        d
    } else {
        d.take(MAX_ENTRIES as int)
    }
}

proof fn lemma_distinct_prefix(a: Seq<Seq<char>>, b: Seq<Seq<char>>)
    ensures
        distinct_spec(a).len() <= distinct_spec(a + b).len(),
        distinct_spec(a + b).take(distinct_spec(a).len() as int) == distinct_spec(a),
    decreases b.len(),
{
    if b.len() == 0 {
        assert(a + b =~= a);
        assert(distinct_spec(a).take(distinct_spec(a).len() as int) =~= distinct_spec(a));
    } else {
        lemma_distinct_prefix(a, b.drop_last());
        assert((a + b).drop_last() =~= a + b.drop_last());
        let r = distinct_spec(a + b.drop_last());
        assert(r.push((a + b).last()).take(distinct_spec(a).len() as int) =~= r.take(
            distinct_spec(a).len() as int,
        ));
    }
}

proof fn lemma_distinct_facts(s: Seq<Seq<char>>)
    ensures
        distinct_spec(s).no_duplicates(),
        distinct_spec(s).len() <= s.len(),
        forall|x: Seq<char>| distinct_spec(s).contains(x) <==> s.contains(x),
        s.len() > 0 ==> distinct_spec(s).len() > 0 && distinct_spec(s)[0] == s[0],
    decreases s.len(),
{
    if s.len() > 0 {
        let d = s.drop_last();
        lemma_distinct_facts(d);
        let r = distinct_spec(d);
        assert forall|x: Seq<char>| distinct_spec(s).contains(x) <==> s.contains(x) by {
            if s.contains(x) && x != s.last() {
                let k = choose|k: int| 0 <= k < s.len() && s[k] == x;
                assert(d[k] == x);
            }
            if d.contains(x) {
                let k = choose|k: int| 0 <= k < d.len() && d[k] == x;
                assert(s[k] == x);
            }
            if !r.contains(s.last()) {
                if r.push(s.last()).contains(x) && x != s.last() {
                    let k = choose|k: int| 0 <= k < r.push(s.last()).len() && r.push(s.last())[k] == x;
                    assert(r[k] == x);
                }
                if x == s.last() {
                    assert(r.push(s.last())[r.len() as int] == x);
                }
                if r.contains(x) {
                    let k = choose|k: int| 0 <= k < r.len() && r[k] == x;
                    assert(r.push(s.last())[k] == x);
                }
            }
        }
        if d.len() > 0 {
            assert(d[0] == s[0]);
        } else {
            assert(r =~= Seq::<Seq<char>>::empty());
        }
    }
}

/// The entries to keep after `selected` is chosen, given the `previous`
/// entries (most recent first).
pub fn record_entries(previous: &[String], selected: &str) -> (entries: Vec<String>)
    ensures
        views(entries@) == record_spec(views(previous@), selected@),
        entries@.len() >= 1,
        entries@[0]@ == selected@,
        entries@.len() <= MAX_ENTRIES,
        views(entries@).no_duplicates(),
{
    let limit: usize = if previous.len() <= SCAN_LIMIT {
        previous.len()
    } else {
        SCAN_LIMIT
    };
    let ghost pv = views(previous@);
    let ghost window = if pv.len() <= SCAN_LIMIT {
        pv
    } else {
        pv.take(SCAN_LIMIT as int)
    };
    let ghost input = seq![selected@] + window;
    assert(window =~= pv.take(limit as int));
    let mut out: Vec<String> = Vec::new();
    out.push(selected.to_owned());
    proof {
        assert(seq![selected@] + pv.take(0) =~= seq![selected@]);
        assert(seq![selected@].drop_last() =~= Seq::<Seq<char>>::empty());
        assert(distinct_spec(seq![selected@].drop_last()) =~= Seq::<Seq<char>>::empty());
        assert(Seq::<Seq<char>>::empty().push(selected@) =~= seq![selected@]);
        assert(views(out@) =~= seq![selected@]);
        assert(distinct_spec(seq![selected@]) =~= seq![selected@]);
    }
    let mut i: usize = 0;
    while i < limit && out.len() < MAX_ENTRIES
        invariant
            i <= limit <= previous@.len(),
            limit == window.len(),
            window == pv.take(limit as int),
            pv == views(previous@),
            input == seq![selected@] + window,
            1 <= out@.len() <= MAX_ENTRIES,
            views(out@) == distinct_spec(seq![selected@] + pv.take(i as int)),
        decreases limit - i,
    {
        let ghost cur = seq![selected@] + pv.take(i + 1);
        assert(cur.drop_last() =~= seq![selected@] + pv.take(i as int));
        assert(cur.last() == previous@[i as int]@);
        let found = contains_string(out.as_slice(), &previous[i]);
        if !found {
            let ghost before = views(out@);
            out.push(previous[i].clone());
            assert(views(out@) =~= before.push(previous@[i as int]@));
        }
        i += 1;
    }
    proof {
        assert(window.take(i as int) =~= pv.take(i as int));
        let part = seq![selected@] + pv.take(i as int);
        let tail = window.skip(i as int);
        assert(part + tail =~= input);
        lemma_distinct_prefix(part, tail);
        lemma_distinct_facts(input);
        lemma_distinct_facts(part);
        let d = distinct_spec(input);
        if i == limit {
            assert(tail =~= Seq::<Seq<char>>::empty());
            assert(part + tail =~= part);
        } else {
            assert(d.take(MAX_ENTRIES as int) == views(out@));
            if d.len() <= MAX_ENTRIES {
                assert(d.take(MAX_ENTRIES as int) =~= d);
            }
        }
        assert(views(out@)[0] == out@[0]@);
    }
    out
}

/// The new contents of the history file after `selected` is chosen with
/// `previous` on file; nothing to write when the selection is empty.
pub fn record(previous: &[u8], selected: &str) -> (new_contents: Option<Vec<u8>>)
    ensures
        selected@.len() == 0 ==> new_contents is None,
        selected@.len() > 0 ==> (new_contents matches Some(b) && b@ == render_spec(
            record_spec(history_lines(previous@), selected@),
        )),
{
    if selected.is_empty() {
        return None;
    }
    let prev = load(previous);
    let entries = record_entries(prev.as_slice(), selected);
    Some(render(entries.as_slice()))
}

/// The entries of `history` that name one of `repos`, each once, in history
/// order.
pub open spec fn known_spec(history: Seq<Seq<char>>, repos: Seq<Seq<char>>) -> Seq<Seq<char>>
    decreases history.len(),
{
    if history.len() == 0 {
        seq![]
    } else {
        let r = known_spec(history.drop_last(), repos);
        let h = history.last();
        if repos.contains(h) && !r.contains(h) {
            r.push(h)
        } else {
            r
        }
    }
}

/// The elements of `repos` not in `known`, in their order.
pub open spec fn others_spec(repos: Seq<Seq<char>>, known: Seq<Seq<char>>) -> Seq<Seq<char>>
    decreases repos.len(),
{
    if repos.len() == 0 {
        seq![]
    } else {
        let r = others_spec(repos.drop_last(), known);
        if known.contains(repos.last()) {
            r
        } else {
            r.push(repos.last())
        }
    }
}

/// `repos` reordered by `history`: the repositories found in the history
/// first, most recent first, then the others in their given order.
pub open spec fn sort_spec(repos: Seq<Seq<char>>, history: Seq<Seq<char>>) -> Seq<Seq<char>> {
    let known = known_spec(history, repos);
    known + others_spec(repos, known)
}

/// Puts the repositories that occur in `history` first, in history order,
/// then the rest in their given order.
pub fn sort_with_history(repos: Vec<String>, history: &[String]) -> (sorted: Vec<String>)
    ensures
        views(sorted@) == sort_spec(views(repos@), views(history@)),
{
    let ghost rv = views(repos@);
    let ghost hv = views(history@);
    let mut sorted: Vec<String> = Vec::new();
    let mut i: usize = 0;
    while i < history.len()
        invariant
            i <= history@.len(),
            rv == views(repos@),
            hv == views(history@),
            views(sorted@) == known_spec(hv.take(i as int), rv),
        decreases history@.len() - i,
    {
        assert(hv.take(i + 1).drop_last() =~= hv.take(i as int));
        assert(hv.take(i + 1).last() == history@[i as int]@);
        if contains_string(repos.as_slice(), &history[i]) && !contains_string(
            sorted.as_slice(),
            &history[i],
        ) {
            let ghost before = views(sorted@);
            sorted.push(history[i].clone());
            assert(views(sorted@) =~= before.push(history@[i as int]@));
        }
        i += 1;
    }
    assert(hv.take(history@.len() as int) =~= hv);
    let ghost known = views(sorted@);
    let k: usize = sorted.len();
    let mut j: usize = 0;
    while j < repos.len()
        invariant
            j <= repos@.len(),
            rv == views(repos@),
            k <= sorted@.len(),
            known.len() == k,
            views(sorted@) == known + others_spec(rv.take(j as int), known),
        decreases repos@.len() - j,
    {
        assert(rv.take(j + 1).drop_last() =~= rv.take(j as int));
        assert(rv.take(j + 1).last() == repos@[j as int]@);
        assert(views(sorted@).take(k as int) =~= known);
        let seen: &[String] = vstd::slice::slice_subrange(sorted.as_slice(), 0, k);
        assert(views(seen@) =~= known);
        if !contains_string(seen, &repos[j]) {
            let ghost before = views(sorted@);
            sorted.push(repos[j].clone());
            assert(views(sorted@) =~= before.push(repos@[j as int]@));
        }
        j += 1;
    }
    assert(rv.take(repos@.len() as int) =~= rv);
    sorted
}

/// Reorders `repos` by the history file with the given contents: recently
/// chosen repositories first, then the rest in their given order.
pub fn sort_by_history(repos: Vec<String>, history_file: &[u8]) -> (sorted: Vec<String>)
    ensures
        views(sorted@) == sort_spec(views(repos@), history_lines(history_file@)),
{
    let history = load(history_file);
    sort_with_history(repos, history.as_slice())
}

proof fn lemma_push_no_duplicates(s: Seq<Seq<char>>, x: Seq<char>)
    requires
        s.no_duplicates(),
        !s.contains(x),
    ensures
        s.push(x).no_duplicates(),
{
    let t = s.push(x);
    assert forall|i: int, j: int| 0 <= i < t.len() && 0 <= j < t.len() && i != j implies t[i]
        != t[j] by {
        if i < s.len() && j < s.len() {
            assert(t[i] == s[i] && t[j] == s[j]);
        } else if i < s.len() {
            assert(t[i] == s[i]);
        } else if j < s.len() {
            assert(t[j] == s[j]);
        }
    }
}

proof fn lemma_push_contains(s: Seq<Seq<char>>, x: Seq<char>)
    ensures
        forall|y: Seq<char>| s.push(x).contains(y) <==> (s.contains(y) || y == x),
{
    assert forall|y: Seq<char>| s.push(x).contains(y) <==> (s.contains(y) || y == x) by {
        if s.contains(y) {
            let k = choose|k: int| 0 <= k < s.len() && s[k] == y;
            assert(s.push(x)[k] == y);
        }
        if y == x {
            assert(s.push(x)[s.len() as int] == y);
        }
        if s.push(x).contains(y) && y != x {
            let k = choose|k: int| 0 <= k < s.push(x).len() && s.push(x)[k] == y;
            assert(s[k] == y);
        }
    }
}

proof fn lemma_drop_last_contains(s: Seq<Seq<char>>)
    requires
        s.len() > 0,
    ensures
        forall|y: Seq<char>| s.contains(y) <==> (s.drop_last().contains(y) || y == s.last()),
{
    lemma_push_contains(s.drop_last(), s.last());
    assert(s.drop_last().push(s.last()) =~= s);
}

proof fn lemma_drop_last_no_duplicates(s: Seq<Seq<char>>)
    requires
        s.len() > 0,
        s.no_duplicates(),
    ensures
        s.drop_last().no_duplicates(),
        !s.drop_last().contains(s.last()),
{
    let d = s.drop_last();
    assert forall|i: int, j: int| 0 <= i < d.len() && 0 <= j < d.len() && i != j implies d[i]
        != d[j] by {
        assert(d[i] == s[i] && d[j] == s[j]);
    }
    if d.contains(s.last()) {
        let k = choose|k: int| 0 <= k < d.len() && d[k] == s.last();
        assert(s[k] == s[s.len() - 1]);
    }
}

proof fn lemma_known_facts(history: Seq<Seq<char>>, repos: Seq<Seq<char>>)
    ensures
        known_spec(history, repos).no_duplicates(),
        forall|x: Seq<char>|
            known_spec(history, repos).contains(x) <==> (history.contains(x) && repos.contains(x)),
    decreases history.len(),
{
    if history.len() > 0 {
        let d = history.drop_last();
        lemma_known_facts(d, repos);
        lemma_drop_last_contains(history);
        let r = known_spec(d, repos);
        let h = history.last();
        if repos.contains(h) && !r.contains(h) {
            lemma_push_no_duplicates(r, h);
            lemma_push_contains(r, h);
        }
    }
}

proof fn lemma_others_facts(repos: Seq<Seq<char>>, known: Seq<Seq<char>>)
    ensures
        forall|x: Seq<char>|
            others_spec(repos, known).contains(x) <==> (repos.contains(x) && !known.contains(x)),
        repos.no_duplicates() ==> others_spec(repos, known).no_duplicates(),
    decreases repos.len(),
{
    if repos.len() > 0 {
        let d = repos.drop_last();
        lemma_others_facts(d, known);
        lemma_drop_last_contains(repos);
        let r = others_spec(d, known);
        if !known.contains(repos.last()) {
            lemma_push_contains(r, repos.last());
            if repos.no_duplicates() {
                lemma_drop_last_no_duplicates(repos);
                lemma_push_no_duplicates(r, repos.last());
            }
        } else if repos.no_duplicates() {
            lemma_drop_last_no_duplicates(repos);
        }
    }
}

/// Sorting by history only reorders: when `repos` lists each repository
/// once, the result lists exactly the same repositories, each once.
pub proof fn lemma_sort_is_permutation(repos: Seq<Seq<char>>, history: Seq<Seq<char>>)
    requires
        repos.no_duplicates(),
    ensures
        sort_spec(repos, history).no_duplicates(),
        sort_spec(repos, history).len() == repos.len(),
        forall|x: Seq<char>| sort_spec(repos, history).contains(x) <==> repos.contains(x),
{
    let known = known_spec(history, repos);
    let others = others_spec(repos, known);
    let r = sort_spec(repos, history);
    lemma_known_facts(history, repos);
    lemma_others_facts(repos, known);
    assert forall|i: int, j: int| 0 <= i < known.len() && 0 <= j < others.len() implies known[i]
        != others[j] by {
        assert(known.contains(known[i]));
        assert(others.contains(others[j]));
    }
    vstd::seq_lib::lemma_no_dup_in_concat(known, others);
    assert forall|x: Seq<char>| r.contains(x) <==> repos.contains(x) by {
        if r.contains(x) {
            let k = choose|k: int| 0 <= k < r.len() && r[k] == x;
            if k < known.len() {
                assert(known[k] == x);
            } else {
                assert(others[k - known.len()] == x);
            }
        }
        if repos.contains(x) {
            if known.contains(x) {
                let k = choose|k: int| 0 <= k < known.len() && known[k] == x;
                assert(r[k] == x);
            } else {
                let k = choose|k: int| 0 <= k < others.len() && others[k] == x;
                assert(r[known.len() + k] == x);
            }
        }
    }
    assert(r.to_set() =~= repos.to_set());
    r.unique_seq_to_set();
    repos.unique_seq_to_set();
}

/// The repositories taken from the history come first, in history order:
/// the result begins with every repository that both occurs in the history
/// and is listed, each once, in the order of their first mention.
pub proof fn lemma_history_first(repos: Seq<Seq<char>>, history: Seq<Seq<char>>)
    ensures
        sort_spec(repos, history).take(known_spec(history, repos).len() as int) == known_spec(
            history,
            repos,
        ),
        known_spec(history, repos).no_duplicates(),
        forall|x: Seq<char>|
            known_spec(history, repos).contains(x) <==> (history.contains(x) && repos.contains(x)),
{
    lemma_known_facts(history, repos);
    let k = known_spec(history, repos);
    assert((k + others_spec(repos, k)).take(k.len() as int) =~= k);
}

proof fn lemma_others_none_known(repos: Seq<Seq<char>>)
    ensures
        others_spec(repos, seq![]) == repos,
    decreases repos.len(),
{
    if repos.len() > 0 {
        lemma_others_none_known(repos.drop_last());
        assert(repos.drop_last().push(repos.last()) =~= repos);
    }
}

/// With an empty history the input order is kept.
pub proof fn lemma_empty_history_keeps_order(repos: Seq<Seq<char>>)
    ensures
        sort_spec(repos, seq![]) == repos,
{
    lemma_others_none_known(repos);
    assert(known_spec(seq![], repos) =~= Seq::<Seq<char>>::empty());
    assert(Seq::<Seq<char>>::empty() + repos =~= repos);
}

proof fn lemma_encode_concat(a: Seq<char>, b: Seq<char>)
    ensures
        encode_utf8(a + b) == encode_utf8(a) + encode_utf8(b),
    decreases a.len(),
{
    if a.len() == 0 {
        assert(a + b =~= b);
        assert(encode_utf8(a) + encode_utf8(b) =~= encode_utf8(b));
    } else {
        assert((a + b).drop_first() =~= a.drop_first() + b);
        assert((a + b)[0] == a[0]);
        lemma_encode_concat(a.drop_first(), b);
        assert(encode_scalar(a[0] as u32) + (encode_utf8(a.drop_first()) + encode_utf8(b))
            =~= encode_scalar(a[0] as u32) + encode_utf8(a.drop_first()) + encode_utf8(b));
    }
}

/// The bytes that encode one character: the character itself when it is
/// ASCII, otherwise bytes that are all at least 0x80.
proof fn lemma_scalar_bytes(c: char)
    ensures
        encode_scalar(c as u32).len() >= 1,
        (c as u32) < 0x80 ==> encode_scalar(c as u32) == seq![(c as u32) as u8],
        (c as u32) >= 0x80 ==> forall|k: int|
            0 <= k < encode_scalar(c as u32).len() ==> #[trigger] encode_scalar(c as u32)[k] >= 0x80,
{
    let v = c as u32;
    if v < 0x80 {
        assert((v & 0x7F) as u8 == v as u8) by (bit_vector)
            requires
                v < 0x80,
        ;
    } else {
        let x: u32 = v;
        assert((0xC0 | ((x >> 6) & 0x1F) as u8) >= 0x80u8) by (bit_vector);
        assert((0xE0 | ((x >> 12) & 0x0F) as u8) >= 0x80u8) by (bit_vector);
        assert((0xF0 | ((x >> 18) & 0x7) as u8) >= 0x80u8) by (bit_vector);
        assert((0x80 | (x & 0x3F) as u8) >= 0x80u8) by (bit_vector);
        assert((0x80 | ((x >> 6) & 0x3F) as u8) >= 0x80u8) by (bit_vector);
        assert((0x80 | ((x >> 12) & 0x3F) as u8) >= 0x80u8) by (bit_vector);
    }
}

proof fn lemma_encode_single(c: char)
    ensures
        encode_utf8(seq![c]) == encode_scalar(c as u32),
{
    assert(seq![c].drop_first() =~= Seq::<char>::empty());
    assert(seq![c][0] == c);
    assert(encode_utf8(Seq::<char>::empty()) == Seq::<u8>::empty());
    assert(encode_utf8(seq![c]) == encode_scalar(c as u32) + encode_utf8(Seq::<char>::empty()));
    assert(encode_scalar(c as u32) + Seq::<u8>::empty() =~= encode_scalar(c as u32));
}

/// An ASCII byte occurs in an encoding exactly where its character occurs in
/// the text; here, the newline.
proof fn lemma_encode_newline(cs: Seq<char>)
    ensures
        encode_utf8(cs).contains(10u8) <==> cs.contains('\n'),
    decreases cs.len(),
{
    if cs.len() > 0 {
        let c = cs[0];
        let rest = cs.drop_first();
        let e = encode_scalar(c as u32);
        lemma_encode_newline(rest);
        lemma_scalar_bytes(c);
        let all = encode_utf8(cs);
        assert(all == e + encode_utf8(rest));
        if cs.contains('\n') {
            let k = choose|k: int| 0 <= k < cs.len() && cs[k] == '\n';
            if k == 0 {
                assert((c as u32) == 10);
                assert(all[0] == 10u8);
            } else {
                assert(rest[k - 1] == '\n');
                let j = choose|j: int|
                    0 <= j < encode_utf8(rest).len() && encode_utf8(rest)[j] == 10u8;
                assert(all[e.len() + j] == 10u8);
            }
        }
        if all.contains(10u8) {
            let j = choose|j: int| 0 <= j < all.len() && all[j] == 10u8;
            if j < e.len() {
                assert(e[j] == 10u8);
                assert((c as u32) < 0x80);
                assert((c as u32) == 10);
                vstd::utf8::char_u32_cast(c, c as u32);
                vstd::utf8::char_u32_cast('\n', '\n' as u32);
                assert(c == '\n');
                assert(cs[0] == '\n');
            } else {
                assert(encode_utf8(rest)[j - e.len()] == 10u8);
                let k = choose|k: int| 0 <= k < rest.len() && rest[k] == '\n';
                assert(cs[k + 1] == '\n');
            }
        }
    }
}

/// Encoding text that does not end in a carriage return gives bytes that do
/// not end in one.
proof fn lemma_encode_last(cs: Seq<char>)
    requires
        cs.len() > 0,
        cs.last() != '\r',
    ensures
        encode_utf8(cs).len() > 0,
        encode_utf8(cs).last() != 13u8,
{
    let c = cs.last();
    lemma_encode_concat(cs.drop_last(), seq![c]);
    assert(cs.drop_last() + seq![c] =~= cs);
    lemma_encode_single(c);
    lemma_scalar_bytes(c);
    let e = encode_scalar(c as u32);
    assert(encode_utf8(cs).last() == e.last());
    if (c as u32) < 0x80 {
        if (c as u32) == 13 {
            vstd::utf8::char_u32_cast(c, c as u32);
            vstd::utf8::char_u32_cast('\r', '\r' as u32);
            assert(c == '\r');
        }
    } else {
        assert(e[e.len() - 1] >= 0x80);
    }
}

proof fn lemma_render_front(e: Seq<char>, rest: Seq<Seq<char>>)
    ensures
        render_spec(seq![e] + rest) == encode_utf8(e) + seq![10u8] + render_spec(rest),
    decreases rest.len(),
{
    if rest.len() == 0 {
        assert(seq![e] + rest =~= seq![e]);
        assert(seq![e].drop_last() =~= Seq::<Seq<char>>::empty());
        assert(rest =~= Seq::<Seq<char>>::empty());
        assert(render_spec(rest) == Seq::<u8>::empty());
        assert(seq![e].last() == e);
        assert(render_spec(seq![e].drop_last()) == Seq::<u8>::empty());
        assert(Seq::<u8>::empty() + encode_utf8(e) + seq![10u8] =~= encode_utf8(e) + seq![10u8]
            + Seq::<u8>::empty());
    } else {
        lemma_render_front(e, rest.drop_last());
        assert((seq![e] + rest).drop_last() =~= seq![e] + rest.drop_last());
        assert((seq![e] + rest).last() == rest.last());
        let a = encode_utf8(e) + seq![10u8];
        assert(a + render_spec(rest.drop_last()) + encode_utf8(rest.last()) + seq![10u8] =~= a + (
        render_spec(rest.drop_last()) + encode_utf8(rest.last()) + seq![10u8]));
    }
}

/// `e` without one trailing carriage return.
pub open spec fn strip_cr_chars(e: Seq<char>) -> Seq<char> {
    if e.len() > 0 && e.last() == '\r' {
        e.drop_last()
    } else {
        e
    }
}

/// What loading gives back of written entries: each without one trailing
/// carriage return, left out when nothing else remains.
pub open spec fn reloaded(entries: Seq<Seq<char>>) -> Seq<Seq<char>>
    decreases entries.len(),
{
    if entries.len() == 0 {
        seq![]
    } else {
        let e = strip_cr_chars(entries[0]);
        if e.len() == 0 {
            reloaded(entries.drop_first())
        } else {
            seq![e] + reloaded(entries.drop_first())
        }
    }
}

proof fn lemma_encode_empty(cs: Seq<char>)
    ensures
        encode_utf8(cs).len() == 0 <==> cs.len() == 0,
{
    if cs.len() > 0 {
        lemma_scalar_bytes(cs[0]);
    }
}

/// Dropping a trailing carriage return commutes with encoding.
proof fn lemma_encode_strip(cs: Seq<char>)
    requires
        cs.len() > 0,
    ensures
        strip_cr(encode_utf8(cs)) == encode_utf8(strip_cr_chars(cs)),
{
    let c = cs.last();
    if c == '\r' {
        lemma_encode_concat(cs.drop_last(), seq![c]);
        assert(cs.drop_last() + seq![c] =~= cs);
        lemma_encode_single(c);
        lemma_scalar_bytes(c);
        assert(encode_scalar(c as u32) == seq![13u8]);
        let e = encode_utf8(cs);
        assert(e.last() == 13u8);
        assert(e.drop_last() =~= encode_utf8(cs.drop_last()));
    } else {
        lemma_encode_last(cs);
    }
}

/// What is written is what is read back, but for carriage returns: loading
/// a history file rendered from non-empty entries without newlines gives
/// each entry without one trailing carriage return, and leaves out those
/// that were just a carriage return.
pub proof fn lemma_load_render_any(entries: Seq<Seq<char>>)
    requires
        forall|k: int|
            0 <= k < entries.len() ==> (#[trigger] entries[k]).len() > 0 && !entries[k].contains(
                '\n',
            ),
    ensures
        history_lines(render_spec(entries)) == reloaded(entries),
    decreases entries.len(),
{
    if entries.len() > 0 {
        let e = entries[0];
        let rest = entries.drop_first();
        assert(seq![e] + rest =~= entries);
        lemma_render_front(e, rest);
        assert forall|k: int| 0 <= k < rest.len() implies (#[trigger] rest[k]).len() > 0
            && !rest[k].contains('\n') by {
            assert(rest[k] == entries[k + 1]);
        }
        lemma_load_render_any(rest);
        let enc = encode_utf8(e);
        let b = render_spec(entries);
        assert(b == enc + seq![10u8] + render_spec(rest));
        lemma_encode_newline(e);
        let m = enc.len() as int;
        assert forall|k: int| 0 <= k < m implies b[k] != 10 by {
            assert(b[k] == enc[k]);
            if enc[k] == 10u8 {
                assert(enc.contains(10u8));
            }
        }
        assert(b[m] == 10u8);
        lemma_line_len_is(b, m);
        assert(b.take(m) =~= enc);
        lemma_encode_strip(e);
        let t = strip_cr_chars(e);
        assert(strip_cr(b.take(m)) == encode_utf8(t));
        encode_utf8_valid_utf8(t);
        encode_utf8_decode_utf8(t);
        lemma_encode_empty(t);
        assert(b.skip(m + 1) =~= render_spec(rest));
        if t.len() == 0 {
            assert(history_lines(b) == history_lines(render_spec(rest)));
        } else {
            assert(history_lines(b) == seq![t] + history_lines(render_spec(rest)));
        }
    }
}

proof fn lemma_reloaded_exact(entries: Seq<Seq<char>>)
    requires
        forall|k: int|
            0 <= k < entries.len() ==> (#[trigger] entries[k]).len() > 0 && entries[k].last()
                != '\r',
    ensures
        reloaded(entries) == entries,
    decreases entries.len(),
{
    if entries.len() > 0 {
        let rest = entries.drop_first();
        assert forall|k: int| 0 <= k < rest.len() implies (#[trigger] rest[k]).len() > 0
            && rest[k].last() != '\r' by {
            assert(rest[k] == entries[k + 1]);
        }
        lemma_reloaded_exact(rest);
        assert(entries[0].len() > 0 && entries[0].last() != '\r');
        assert(seq![entries[0]] + rest =~= entries);
    }
}

proof fn lemma_reloaded_bounds(entries: Seq<Seq<char>>)
    ensures
        reloaded(entries).len() <= entries.len(),
        entries.len() > 0 && strip_cr_chars(entries[0]).len() > 0 ==> reloaded(entries).len() > 0
            && reloaded(entries)[0] == strip_cr_chars(entries[0]),
    decreases entries.len(),
{
    if entries.len() > 0 {
        lemma_reloaded_bounds(entries.drop_first());
    }
}

/// What is written is what is read back: a history file rendered from
/// entries that are non-empty, hold no newline and do not end in a carriage
/// return loads as exactly those entries.
pub proof fn lemma_load_render(entries: Seq<Seq<char>>)
    requires
        forall|k: int|
            0 <= k < entries.len() ==> (#[trigger] entries[k]).len() > 0 && !entries[k].contains(
                '\n',
            ) && entries[k].last() != '\r',
    ensures
        history_lines(render_spec(entries)) == entries,
{
    lemma_load_render_any(entries);
    lemma_reloaded_exact(entries);
}

/// Every loaded entry is non-empty and holds no newline.
pub proof fn lemma_loaded_entries(b: Seq<u8>)
    ensures
        forall|k: int|
            0 <= k < history_lines(b).len() ==> (#[trigger] history_lines(b)[k]).len() > 0
                && !history_lines(b)[k].contains('\n'),
    decreases b.len(),
{
    if b.len() > 0 {
        let n = line_len(b);
        lemma_line_len_bound(b);
        let line = if n < b.len() {
            strip_cr(b.take(n as int))
        } else {
            b.take(n as int)
        };
        let rest = if n < b.len() {
            b.skip(n as int + 1)
        } else {
            seq![]
        };
        lemma_loaded_entries(rest);
        if !valid_utf8(line) {
            assert(history_lines(b) =~= Seq::<Seq<char>>::empty());
        } else if line.len() == 0 {
            assert(history_lines(b) == history_lines(rest));
        } else {
            let d = decode_utf8(line);
            decode_utf8_encode_utf8(line);
            assert(encode_utf8(d) == line);
            if d.len() == 0 {
                assert(encode_utf8(d) =~= Seq::<u8>::empty());
            }
            lemma_encode_newline(d);
            if line.contains(10u8) {
                let j = choose|j: int| 0 <= j < line.len() && line[j] == 10u8;
                assert(b[j] == 10u8);
            }
            let h = history_lines(b);
            assert(h == seq![d] + history_lines(rest));
            assert forall|k: int| 0 <= k < h.len() implies (#[trigger] h[k]).len() > 0
                && !h[k].contains('\n') by {
                if k > 0 {
                    assert(h[k] == history_lines(rest)[k - 1]);
                }
            }
        }
    }
}

/// `f` picks the elements of `a` out of `b`, at increasing positions.
pub open spec fn picks(f: Seq<int>, a: Seq<Seq<char>>, b: Seq<Seq<char>>) -> bool {
    &&& f.len() == a.len()
    &&& forall|i: int| 0 <= i < f.len() ==> 0 <= #[trigger] f[i] < b.len() && b[f[i]] == a[i]
    &&& forall|i: int, j: int| 0 <= i < j < f.len() ==> #[trigger] f[i] < #[trigger] f[j]
}

/// `a` is `b` with some elements left out, the rest in their order.
pub open spec fn is_subsequence(a: Seq<Seq<char>>, b: Seq<Seq<char>>) -> bool {
    exists|f: Seq<int>| #[trigger] picks(f, a, b)
}

proof fn lemma_distinct_picks(s: Seq<Seq<char>>) -> (f: Seq<int>)
    ensures
        picks(f, distinct_spec(s), s),
        s.len() > 0 ==> f[0] == 0,
    decreases s.len(),
{
    if s.len() == 0 {
        seq![]
    } else {
        let d = s.drop_last();
        let g = lemma_distinct_picks(d);
        let r = distinct_spec(d);
        assert forall|i: int| 0 <= i < g.len() implies 0 <= #[trigger] g[i] < s.len() && s[g[i]]
            == r[i] by {
            assert(s[g[i]] == d[g[i]]);
        }
        if r.contains(s.last()) {
            g
        } else {
            let f = g.push(s.len() - 1);
            assert forall|i: int| 0 <= i < f.len() implies 0 <= #[trigger] f[i] < s.len() && s[f[i]]
                == r.push(s.last())[i] by {
                if i < g.len() {
                    assert(f[i] == g[i]);
                }
            }
            assert forall|i: int, j: int| 0 <= i < j < f.len() implies #[trigger] f[i]
                < #[trigger] f[j] by {
                if j < g.len() {
                    assert(f[i] == g[i] && f[j] == g[j]);
                } else {
                    assert(f[i] == g[i]);
                }
            }
            if d.len() == 0 {
                assert(r =~= Seq::<Seq<char>>::empty());
            }
            f
        }
    }
}

/// What recording a selection writes: the selection on top and not repeated
/// below it, no entry twice, at most `MAX_ENTRIES` entries, and below the
/// selection only earlier entries, in their earlier order.
pub proof fn lemma_record_shape(previous: Seq<Seq<char>>, selected: Seq<char>)
    ensures
        record_spec(previous, selected)[0] == selected,
        record_spec(previous, selected).no_duplicates(),
        1 <= record_spec(previous, selected).len() <= MAX_ENTRIES,
        forall|k: int|
            0 <= k < record_spec(previous, selected).len() ==> #[trigger] record_spec(
                previous,
                selected,
            )[k] == selected || previous.contains(record_spec(previous, selected)[k]),
        is_subsequence(record_spec(previous, selected).drop_first(), previous),
{
    let window = if previous.len() <= SCAN_LIMIT {
        previous
    } else {
        previous.take(SCAN_LIMIT as int)
    };
    let input = seq![selected] + window;
    lemma_distinct_facts(input);
    let d = distinct_spec(input);
    let r = record_spec(previous, selected);
    assert(input[0] == selected);
    assert forall|k: int| 0 <= k < r.len() implies #[trigger] r[k] == selected
        || previous.contains(r[k]) by {
        assert(r[k] == d[k]);
        assert(d.contains(d[k]));
        assert(input.contains(d[k]));
        let j = choose|j: int| 0 <= j < input.len() && input[j] == d[k];
        if j > 0 {
            assert(input[j] == window[j - 1]);
            assert(previous[j - 1] == window[j - 1]);
        }
    }
    if d.len() > MAX_ENTRIES {
        assert forall|i: int, j: int| 0 <= i < r.len() && 0 <= j < r.len() && i != j implies r[i]
            != r[j] by {
            assert(r[i] == d[i] && r[j] == d[j]);
        }
    }
    let f = lemma_distinct_picks(input);
    let g = Seq::new((r.len() - 1) as nat, |i: int| f[i + 1] - 1);
    let t = r.drop_first();
    assert forall|i: int| 0 <= i < g.len() implies 0 <= #[trigger] g[i] < previous.len()
        && previous[g[i]] == t[i] by {
        assert(f[0] < f[i + 1]);
        assert(input[f[i + 1]] == d[i + 1]);
        assert(r[i + 1] == d[i + 1]);
        assert(input[f[i + 1]] == window[f[i + 1] - 1]);
        assert(window[f[i + 1] - 1] == previous[f[i + 1] - 1]);
    }
    assert forall|i: int, j: int| 0 <= i < j < g.len() implies #[trigger] g[i] < #[trigger] g[j] by {
        assert(f[i + 1] < f[j + 1]);
    }
    assert(picks(g, t, previous));
}

/// Loading the history after a selection was recorded gives back the new
/// entries: the selection first, then earlier entries in their earlier
/// order, none twice, at most `MAX_ENTRIES`. This holds when the selection
/// holds no newline and no kept entry ends in a carriage return (a line
/// break would split an entry in two, and the loader drops a carriage
/// return before a newline).
pub proof fn lemma_load_after_record(previous: Seq<u8>, selected: Seq<char>)
    requires
        selected.len() > 0,
        !selected.contains('\n'),
        forall|k: int|
            0 <= k < record_spec(history_lines(previous), selected).len() ==> (#[trigger] record_spec(
                history_lines(previous),
                selected,
            )[k]).last() != '\r',
    ensures
        history_lines(render_spec(record_spec(history_lines(previous), selected))) == record_spec(
            history_lines(previous),
            selected,
        ),
        ({
            let h = history_lines(render_spec(record_spec(history_lines(previous), selected)));
            &&& h[0] == selected
            &&& 1 <= h.len() <= MAX_ENTRIES
            &&& h.no_duplicates()
            &&& is_subsequence(h.drop_first(), history_lines(previous))
        }),
{
    let prev = history_lines(previous);
    let r = record_spec(prev, selected);
    lemma_record_shape(prev, selected);
    lemma_loaded_entries(previous);
    assert forall|k: int| 0 <= k < r.len() implies (#[trigger] r[k]).len() > 0 && !r[k].contains(
        '\n',
    ) && r[k].last() != '\r' by {
        if r[k] != selected {
            let j = choose|j: int| 0 <= j < prev.len() && prev[j] == r[k];
            assert(prev[j].len() > 0 && !prev[j].contains('\n'));
        }
    }
    lemma_load_render(r);
}

/// Whatever the earlier history holds, loading it after a selection was
/// recorded gives the selection first and between 1 and `MAX_ENTRIES`
/// entries, provided the selection holds no newline and does not end in a
/// carriage return.
pub proof fn lemma_reload_after_record(previous: Seq<u8>, selected: Seq<char>)
    requires
        selected.len() > 0,
        !selected.contains('\n'),
        selected.last() != '\r',
    ensures
        ({
            let h = history_lines(render_spec(record_spec(history_lines(previous), selected)));
            &&& 1 <= h.len() <= MAX_ENTRIES
            &&& h[0] == selected
        }),
{
    let prev = history_lines(previous);
    let r = record_spec(prev, selected);
    lemma_record_shape(prev, selected);
    lemma_loaded_entries(previous);
    assert forall|k: int| 0 <= k < r.len() implies (#[trigger] r[k]).len() > 0 && !r[k].contains(
        '\n',
    ) by {
        if r[k] != selected {
            let j = choose|j: int| 0 <= j < prev.len() && prev[j] == r[k];
            assert(prev[j].len() > 0 && !prev[j].contains('\n'));
        }
    }
    lemma_load_render_any(r);
    lemma_reloaded_bounds(r);
    assert(strip_cr_chars(r[0]) == selected);
}

proof fn lemma_distinct_unique(s: Seq<Seq<char>>)
    requires
        s.no_duplicates(),
    ensures
        distinct_spec(s) == s,
    decreases s.len(),
{
    if s.len() > 0 {
        lemma_drop_last_no_duplicates(s);
        lemma_distinct_unique(s.drop_last());
        assert(s.drop_last().push(s.last()) =~= s);
    }
}

proof fn lemma_distinct_repeated_head(r: Seq<Seq<char>>, k: int)
    requires
        r.no_duplicates(),
        1 <= k <= r.len(),
    ensures
        distinct_spec((seq![r[0]] + r).take(k + 1)) == r.take(k),
    decreases k,
{
    let t = seq![r[0]] + r;
    if k == 1 {
        assert(t.take(2).drop_last() =~= seq![r[0]]);
        assert(seq![r[0]].drop_last() =~= Seq::<Seq<char>>::empty());
        assert(distinct_spec(seq![r[0]].drop_last()) =~= Seq::<Seq<char>>::empty());
        assert(seq![r[0]].last() == r[0]);
        assert(Seq::<Seq<char>>::empty().push(r[0]) =~= seq![r[0]]);
        assert(distinct_spec(seq![r[0]]) =~= seq![r[0]]);
        assert(seq![r[0]].contains(r[0]));
        assert(t.take(2).last() == r[0]);
        assert(r.take(1) =~= seq![r[0]]);
    } else {
        lemma_distinct_repeated_head(r, k - 1);
        assert(t.take(k + 1).drop_last() =~= t.take(k));
        assert(t.take(k + 1).last() == r[k - 1]);
        if r.take(k - 1).contains(r[k - 1]) {
            let j = choose|j: int| 0 <= j < k - 1 && #[trigger] r.take(k - 1)[j] == r[k - 1];
            assert(r[j] == r[k - 1]);
        }
        assert(r.take(k - 1).push(r[k - 1]) =~= r.take(k));
    }
}

/// Recording the selection that is already on top changes nothing.
pub proof fn lemma_record_twice(previous: Seq<Seq<char>>, selected: Seq<char>)
    ensures
        record_spec(record_spec(previous, selected), selected) == record_spec(previous, selected),
{
    let r = record_spec(previous, selected);
    lemma_record_shape(previous, selected);
    assert(r.len() <= SCAN_LIMIT);
    lemma_distinct_repeated_head(r, r.len() as int);
    assert((seq![r[0]] + r).take(r.len() as int + 1) =~= seq![selected] + r);
    assert(r.take(r.len() as int) =~= r);
}

/// No two entries of `es` become the same non-empty text once a trailing
/// carriage return is dropped.
pub open spec fn strips_distinct(es: Seq<Seq<char>>) -> bool {
    forall|i: int, j: int|
        0 <= i < es.len() && 0 <= j < es.len() && i != j && strip_cr_chars(es[i]).len() > 0
            ==> #[trigger] strip_cr_chars(es[i]) != #[trigger] strip_cr_chars(es[j])
}

/// Every entry of `es` that ends in a carriage return is just that carriage
/// return.
pub open spec fn cr_only_alone(es: Seq<Seq<char>>) -> bool {
    forall|k: int| 0 <= k < es.len() && (#[trigger] es[k]).len() > 0 && es[k].last() == '\r' ==> es[k].len() == 1
}

proof fn lemma_reloaded_origin(es: Seq<Seq<char>>)
    ensures
        forall|x: Seq<char>|
            reloaded(es).contains(x) ==> x.len() > 0 && exists|k: int|
                0 <= k < es.len() && #[trigger] strip_cr_chars(es[k]) == x,
    decreases es.len(),
{
    if es.len() > 0 {
        let rest = es.drop_first();
        lemma_reloaded_origin(rest);
        let e = strip_cr_chars(es[0]);
        assert forall|x: Seq<char>| reloaded(es).contains(x) implies x.len() > 0 && exists|k: int|
            0 <= k < es.len() && #[trigger] strip_cr_chars(es[k]) == x by {
            let h = reloaded(es);
            let i = choose|i: int| 0 <= i < h.len() && h[i] == x;
            if e.len() > 0 && i == 0 {
                assert(strip_cr_chars(es[0]) == x);
            } else {
                let r = reloaded(rest);
                if e.len() > 0 {
                    assert(h[i] == r[i - 1]);
                    assert(r.contains(x));
                } else {
                    assert(r.contains(x));
                }
                let k = choose|k: int| 0 <= k < rest.len() && #[trigger] strip_cr_chars(rest[k]) == x;
                assert(rest[k] == es[k + 1]);
                assert(strip_cr_chars(es[k + 1]) == x);
            }
        }
    }
}

proof fn lemma_reloaded_no_duplicates(es: Seq<Seq<char>>)
    requires
        strips_distinct(es),
    ensures
        reloaded(es).no_duplicates(),
    decreases es.len(),
{
    if es.len() > 0 {
        let rest = es.drop_first();
        assert forall|i: int, j: int|
            0 <= i < rest.len() && 0 <= j < rest.len() && i != j && strip_cr_chars(rest[i]).len()
                > 0 implies #[trigger] strip_cr_chars(rest[i]) != #[trigger] strip_cr_chars(
            rest[j],
        ) by {
            assert(rest[i] == es[i + 1] && rest[j] == es[j + 1]);
            assert(strip_cr_chars(es[i + 1]) != strip_cr_chars(es[j + 1]));
        }
        lemma_reloaded_no_duplicates(rest);
        lemma_reloaded_origin(rest);
        let e = strip_cr_chars(es[0]);
        let r = reloaded(rest);
        if e.len() > 0 {
            if r.contains(e) {
                let k = choose|k: int| 0 <= k < rest.len() && #[trigger] strip_cr_chars(rest[k]) == e;
                assert(rest[k] == es[k + 1]);
                assert(strip_cr_chars(es[0]) != strip_cr_chars(es[k + 1]));
            }
            let h = seq![e] + r;
            assert forall|i: int, j: int| 0 <= i < h.len() && 0 <= j < h.len() && i != j implies h[i]
                != h[j] by {
                if i > 0 && j > 0 {
                    assert(h[i] == r[i - 1] && h[j] == r[j - 1]);
                } else if i == 0 {
                    assert(h[j] == r[j - 1]);
                    assert(r.contains(h[j]));
                } else {
                    assert(h[i] == r[i - 1]);
                    assert(r.contains(h[i]));
                }
            }
        }
    }
}

proof fn lemma_picks_compose(f: Seq<int>, g: Seq<int>, a: Seq<Seq<char>>, b: Seq<Seq<char>>, c: Seq<Seq<char>>)
    requires
        picks(f, a, b),
        picks(g, b, c),
    ensures
        picks(Seq::new(f.len(), |i: int| g[f[i]]), a, c),
{
    let h = Seq::new(f.len(), |i: int| g[f[i]]);
    assert forall|i: int| 0 <= i < h.len() implies 0 <= #[trigger] h[i] < c.len() && c[h[i]] == a[i] by {
        assert(0 <= f[i] < b.len());
        assert(0 <= g[f[i]] < c.len() && c[g[f[i]]] == b[f[i]]);
    }
    assert forall|i: int, j: int| 0 <= i < j < h.len() implies #[trigger] h[i] < #[trigger] h[j] by {
        assert(f[i] < f[j]);
        assert(0 <= f[i] < b.len() && 0 <= f[j] < b.len());
        assert(g[f[i]] < g[f[j]]);
    }
}

proof fn lemma_reloaded_picks(es: Seq<Seq<char>>) -> (f: Seq<int>)
    requires
        cr_only_alone(es),
        forall|k: int| 0 <= k < es.len() ==> (#[trigger] es[k]).len() > 0,
    ensures
        picks(f, reloaded(es), es),
    decreases es.len(),
{
    if es.len() == 0 {
        seq![]
    } else {
        let rest = es.drop_first();
        assert forall|k: int| 0 <= k < rest.len() && (#[trigger] rest[k]).len() > 0 && rest[k].last()
            == '\r' implies rest[k].len() == 1 by {
            assert(rest[k] == es[k + 1]);
        }
        assert forall|k: int| 0 <= k < rest.len() implies (#[trigger] rest[k]).len() > 0 by {
            assert(rest[k] == es[k + 1]);
        }
        let g = lemma_reloaded_picks(rest);
        let r = reloaded(rest);
        let shifted = Seq::new(g.len(), |i: int| g[i] + 1);
        assert forall|i: int| 0 <= i < shifted.len() implies 0 <= #[trigger] shifted[i] < es.len()
            && es[shifted[i]] == r[i] by {
            assert(rest[g[i]] == es[g[i] + 1]);
        }
        assert forall|i: int, j: int| 0 <= i < j < shifted.len() implies #[trigger] shifted[i]
            < #[trigger] shifted[j] by {
            assert(g[i] < g[j]);
        }
        let e = strip_cr_chars(es[0]);
        if e.len() == 0 {
            shifted
        } else {
            assert(e == es[0]) by {
                if es[0].last() == '\r' {
                    assert(es[0].len() == 1);
                    assert(e.len() == 0);
                }
            }
            let f = seq![0int] + shifted;
            let h = seq![e] + r;
            assert forall|i: int| 0 <= i < f.len() implies 0 <= #[trigger] f[i] < es.len() && es[f[i]]
                == h[i] by {
                if i > 0 {
                    assert(f[i] == shifted[i - 1]);
                    assert(h[i] == r[i - 1]);
                }
            }
            assert forall|i: int, j: int| 0 <= i < j < f.len() implies #[trigger] f[i]
                < #[trigger] f[j] by {
                assert(f[j] == shifted[j - 1]);
                if i > 0 {
                    assert(f[i] == shifted[i - 1]);
                }
            }
            f
        }
    }
}

proof fn lemma_record_entries_clean(previous: Seq<u8>, selected: Seq<char>)
    requires
        selected.len() > 0,
        !selected.contains('\n'),
    ensures
        forall|k: int|
            0 <= k < record_spec(history_lines(previous), selected).len() ==> (#[trigger] record_spec(
                history_lines(previous),
                selected,
            )[k]).len() > 0 && !record_spec(history_lines(previous), selected)[k].contains('\n'),
{
    let prev = history_lines(previous);
    let r = record_spec(prev, selected);
    lemma_record_shape(prev, selected);
    lemma_loaded_entries(previous);
    assert forall|k: int| 0 <= k < r.len() implies (#[trigger] r[k]).len() > 0 && !r[k].contains(
        '\n',
    ) by {
        if r[k] != selected {
            let j = choose|j: int| 0 <= j < prev.len() && prev[j] == r[k];
            assert(prev[j].len() > 0 && !prev[j].contains('\n'));
        }
    }
}

/// Loading the history after a selection was recorded lists no entry twice,
/// unless dropping a carriage return before a newline makes two kept entries
/// the same (the condition below says it does not).
pub proof fn lemma_reload_no_duplicates(previous: Seq<u8>, selected: Seq<char>)
    requires
        selected.len() > 0,
        !selected.contains('\n'),
        strips_distinct(record_spec(history_lines(previous), selected)),
    ensures
        history_lines(render_spec(record_spec(history_lines(previous), selected))).no_duplicates(),
{
    let r = record_spec(history_lines(previous), selected);
    lemma_record_entries_clean(previous, selected);
    lemma_load_render_any(r);
    lemma_reloaded_no_duplicates(r);
}

/// Loading the history after a selection was recorded lists, below the
/// selection, only earlier entries in their earlier order, when every kept
/// entry that ends in a carriage return is just that carriage return (any
/// other such entry loads without it, which no earlier entry need be).
pub proof fn lemma_reload_keeps_order(previous: Seq<u8>, selected: Seq<char>)
    requires
        selected.len() > 0,
        !selected.contains('\n'),
        selected.last() != '\r',
        cr_only_alone(record_spec(history_lines(previous), selected)),
    ensures
        is_subsequence(
            history_lines(render_spec(record_spec(history_lines(previous), selected))).drop_first(),
            history_lines(previous),
        ),
{
    let prev = history_lines(previous);
    let r = record_spec(prev, selected);
    lemma_record_shape(prev, selected);
    lemma_record_entries_clean(previous, selected);
    lemma_load_render_any(r);
    let rest = r.drop_first();
    assert(seq![r[0]] + rest =~= r);
    assert(strip_cr_chars(r[0]) == selected);
    assert(reloaded(r) == seq![selected] + reloaded(rest));
    assert(reloaded(r).drop_first() =~= reloaded(rest));
    assert forall|k: int| 0 <= k < rest.len() && (#[trigger] rest[k]).len() > 0 && rest[k].last()
        == '\r' implies rest[k].len() == 1 by {
        assert(rest[k] == r[k + 1]);
    }
    assert forall|k: int| 0 <= k < rest.len() implies (#[trigger] rest[k]).len() > 0 by {
        assert(rest[k] == r[k + 1]);
    }
    let f = lemma_reloaded_picks(rest);
    let g = choose|g: Seq<int>| #[trigger] picks(g, rest, prev);
    lemma_picks_compose(f, g, reloaded(rest), rest, prev);
}

/// Recording the same selection again right after recording it loads as the
/// same history, when the history loaded after the first recording lists no
/// entry twice and holds no entry ending in a carriage return.
pub proof fn lemma_record_file_twice(previous: Seq<u8>, selected: Seq<char>)
    requires
        selected.len() > 0,
        !selected.contains('\n'),
        selected.last() != '\r',
        ({
            let h1 = history_lines(render_spec(record_spec(history_lines(previous), selected)));
            &&& h1.no_duplicates()
            &&& forall|k: int| 0 <= k < h1.len() ==> (#[trigger] h1[k]).last() != '\r'
        }),
    ensures
        ({
            let h1 = history_lines(render_spec(record_spec(history_lines(previous), selected)));
            history_lines(render_spec(record_spec(h1, selected))) == h1
        }),
{
    let once = render_spec(record_spec(history_lines(previous), selected));
    let h1 = history_lines(once);
    lemma_reload_after_record(previous, selected);
    lemma_loaded_entries(once);
    assert(h1.len() <= SCAN_LIMIT);
    lemma_distinct_repeated_head(h1, h1.len() as int);
    assert((seq![h1[0]] + h1).take(h1.len() as int + 1) =~= seq![selected] + h1);
    assert(h1.take(h1.len() as int) =~= h1);
    assert(record_spec(h1, selected) == h1);
    lemma_load_render(h1);
}

proof fn lemma_known_same_members(history: Seq<Seq<char>>, a: Seq<Seq<char>>, b: Seq<Seq<char>>)
    requires
        forall|x: Seq<char>| a.contains(x) <==> b.contains(x),
    ensures
        known_spec(history, a) == known_spec(history, b),
    decreases history.len(),
{
    if history.len() > 0 {
        lemma_known_same_members(history.drop_last(), a, b);
    }
}

proof fn lemma_known_of_clean(history: Seq<Seq<char>>, repos: Seq<Seq<char>>)
    requires
        history.no_duplicates(),
        forall|k: int| 0 <= k < history.len() ==> repos.contains(#[trigger] history[k]),
    ensures
        known_spec(history, repos) == history,
    decreases history.len(),
{
    if history.len() > 0 {
        let d = history.drop_last();
        lemma_drop_last_no_duplicates(history);
        assert forall|k: int| 0 <= k < d.len() implies repos.contains(#[trigger] d[k]) by {
            assert(d[k] == history[k]);
        }
        lemma_known_of_clean(d, repos);
        assert(repos.contains(history[history.len() - 1]));
        assert(d.push(history.last()) =~= history);
    }
}

proof fn lemma_others_concat(a: Seq<Seq<char>>, b: Seq<Seq<char>>, known: Seq<Seq<char>>)
    ensures
        others_spec(a + b, known) == others_spec(a, known) + others_spec(b, known),
    decreases b.len(),
{
    if b.len() == 0 {
        assert(a + b =~= a);
        assert(others_spec(b, known) =~= Seq::<Seq<char>>::empty());
        assert(others_spec(a, known) + Seq::<Seq<char>>::empty() =~= others_spec(a, known));
    } else {
        lemma_others_concat(a, b.drop_last(), known);
        assert((a + b).drop_last() =~= a + b.drop_last());
        assert((a + b).last() == b.last());
        let x = others_spec(a, known);
        let y = others_spec(b.drop_last(), known);
        assert((x + y).push(b.last()) =~= x + y.push(b.last()));
    }
}

proof fn lemma_others_all_known(a: Seq<Seq<char>>, known: Seq<Seq<char>>)
    requires
        forall|k: int| 0 <= k < a.len() ==> known.contains(#[trigger] a[k]),
    ensures
        others_spec(a, known) == Seq::<Seq<char>>::empty(),
    decreases a.len(),
{
    if a.len() > 0 {
        let d = a.drop_last();
        assert forall|k: int| 0 <= k < d.len() implies known.contains(#[trigger] d[k]) by {
            assert(d[k] == a[k]);
        }
        lemma_others_all_known(d, known);
        assert(known.contains(a[a.len() - 1]));
    }
}

proof fn lemma_others_none_in(a: Seq<Seq<char>>, known: Seq<Seq<char>>)
    requires
        forall|k: int| 0 <= k < a.len() ==> !known.contains(#[trigger] a[k]),
    ensures
        others_spec(a, known) == a,
    decreases a.len(),
{
    if a.len() > 0 {
        let d = a.drop_last();
        assert forall|k: int| 0 <= k < d.len() implies !known.contains(#[trigger] d[k]) by {
            assert(d[k] == a[k]);
        }
        lemma_others_none_in(d, known);
        assert(!known.contains(a[a.len() - 1]));
        assert(d.push(a.last()) =~= a);
    }
}

/// Sorting an already sorted list by the same history changes nothing.
pub proof fn lemma_sort_twice(repos: Seq<Seq<char>>, history: Seq<Seq<char>>)
    ensures
        sort_spec(sort_spec(repos, history), history) == sort_spec(repos, history),
{
    let k = known_spec(history, repos);
    let o = others_spec(repos, k);
    let r = sort_spec(repos, history);
    lemma_known_facts(history, repos);
    lemma_others_facts(repos, k);
    assert forall|x: Seq<char>| r.contains(x) <==> repos.contains(x) by {
        if r.contains(x) {
            let i = choose|i: int| 0 <= i < r.len() && r[i] == x;
            if i < k.len() {
                assert(k[i] == x);
                assert(k.contains(x));
            } else {
                assert(o[i - k.len()] == x);
                assert(o.contains(x));
            }
        }
        if repos.contains(x) {
            if k.contains(x) {
                let i = choose|i: int| 0 <= i < k.len() && k[i] == x;
                assert(r[i] == x);
            } else {
                assert(o.contains(x));
                let i = choose|i: int| 0 <= i < o.len() && o[i] == x;
                assert(r[k.len() + i] == x);
            }
        }
    }
    lemma_known_same_members(history, r, repos);
    lemma_others_concat(k, o, k);
    assert forall|i: int| 0 <= i < k.len() implies k.contains(#[trigger] k[i]) by {}
    lemma_others_all_known(k, k);
    assert forall|i: int| 0 <= i < o.len() implies !k.contains(#[trigger] o[i]) by {
        assert(o.contains(o[i]));
    }
    lemma_others_none_in(o, k);
    assert(Seq::<Seq<char>>::empty() + o =~= o);
}

/// Sorting by the cleaned history — only the entries that are listed, each
/// once, which is `known_spec` — gives the same order as sorting by the
/// history itself.
pub proof fn lemma_sort_with_clean_history(repos: Seq<Seq<char>>, history: Seq<Seq<char>>)
    ensures
        sort_spec(repos, known_spec(history, repos)) == sort_spec(repos, history),
{
    let k = known_spec(history, repos);
    lemma_known_facts(history, repos);
    assert forall|i: int| 0 <= i < k.len() implies repos.contains(#[trigger] k[i]) by {
        assert(k.contains(k[i]));
    }
    lemma_known_of_clean(k, repos);
}

} // verus!
