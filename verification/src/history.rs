//! Shell-history normalization.
//!
//! Each supported shell keeps its history in its own file format and with its
//! own recency semantics. This module holds the pure part of every reader:
//! where a history file is looked for, how its text decodes into command
//! lines or timestamped records, which entries count as recent, and how a
//! retained line is reduced to the base name of the executable it invoked.
//! Reading the files themselves is left to the caller.

use crate::bytes::{
    all_digits, bytes_eq, concat_bytes, copy_bytes, dec_value, lit_bytes, opt_view, parse_decimal,
    spec_lines, split_lines, views,
};
use vstd::prelude::*;
use vstd::slice::slice_subrange;

verus! {

/// For history formats without timestamps, this many trailing lines count as
/// recent.
pub const SIMPLE_HISTORY_LIMIT: usize = 1000;

/// For timestamped history formats, entries this many seconds old (two weeks)
/// still count as recent.
pub const RECENT_WINDOW_SECS: u64 = 1209600;

// ---------------------------------------------------------------------------
// Whitespace, first token, base name.
// ---------------------------------------------------------------------------

/// ASCII whitespace, as a `\s` character class matches it.
pub open spec fn is_space(b: u8) -> bool {
    b == ' ' as u8 || b == '\t' as u8 || b == '\n' as u8 || b == 11u8 || b == 12u8 || b == '\r'
        as u8
}

fn is_space_byte(b: u8) -> (r: bool)
    ensures
        r == is_space(b),
{
    b == (' ' as u8) || b == ('\t' as u8) || b == ('\n' as u8) || b == 11u8 || b == 12u8 || b == (
    '\r' as u8)
}

/// `l` with its leading whitespace removed.
pub open spec fn skip_spaces(l: Seq<u8>) -> Seq<u8>
    decreases l.len(),
{
    if l.len() > 0 && is_space(l[0]) {
        skip_spaces(l.skip(1))
    } else {
        l
    }
}

/// The longest whitespace-free prefix of `l`.
pub open spec fn take_nonspace(l: Seq<u8>) -> Seq<u8>
    decreases l.len(),
{
    if l.len() > 0 && !is_space(l[0]) {
        seq![l[0]] + take_nonspace(l.skip(1))
    } else {
        Seq::empty()
    }
}

/// The suffix of `t` after its last `/`; all of `t` when it has none.
pub open spec fn basename(t: Seq<u8>) -> Seq<u8>
    decreases t.len(),
{
    if t.len() == 0 {
        Seq::empty()
    } else if t.last() == '/' as u8 {
        Seq::empty()
    } else {
        basename(t.drop_last()).push(t.last())
    }
}

pub proof fn lemma_skip_spaces_at(l: Seq<u8>, i: int)
    requires
        0 <= i <= l.len(),
        forall|j: int| 0 <= j < i ==> is_space(l[j]),
        i == l.len() || !is_space(l[i]),
    ensures
        skip_spaces(l) == l.skip(i),
    decreases i,
{
    if i == 0 {
        assert(l.skip(0) =~= l);
    } else {
        lemma_skip_spaces_at(l.skip(1), i - 1);
        assert(l.skip(1).skip(i - 1) =~= l.skip(i));
    }
}

pub proof fn lemma_take_nonspace_at(l: Seq<u8>, k: int)
    requires
        0 <= k <= l.len(),
        forall|j: int| 0 <= j < k ==> !is_space(l[j]),
        k == l.len() || is_space(l[k]),
    ensures
        take_nonspace(l) == l.take(k),
    decreases k,
{
    if k == 0 {
        assert(l.take(0) =~= Seq::<u8>::empty());
    } else {
        lemma_take_nonspace_at(l.skip(1), k - 1);
        assert(seq![l[0]] + l.skip(1).take(k - 1) =~= l.take(k));
    }
}

pub proof fn lemma_basename_no_slash(t: Seq<u8>)
    requires
        forall|j: int| 0 <= j < t.len() ==> t[j] != '/' as u8,
    ensures
        basename(t) == t,
    decreases t.len(),
{
    if t.len() > 0 {
        lemma_basename_no_slash(t.drop_last());
        assert(t.drop_last().push(t.last()) =~= t);
    }
}

pub proof fn lemma_basename_after_slash(t: Seq<u8>, k: int)
    requires
        0 <= k < t.len(),
        t[k] == '/' as u8,
        forall|j: int| k < j < t.len() ==> t[j] != '/' as u8,
    ensures
        basename(t) == t.skip(k + 1),
    decreases t.len(),
{
    if k == t.len() - 1 {
        assert(t.skip(k + 1) =~= Seq::<u8>::empty());
    } else {
        lemma_basename_after_slash(t.drop_last(), k);
        assert(t.drop_last().skip(k + 1).push(t.last()) =~= t.skip(k + 1));
    }
}

/// The base name of the executable a history line invokes: the first
/// whitespace-delimited token, with everything up to its last `/` stripped.
/// `None` when the line is blank or the token names no file (it ends in `/`).
pub open spec fn spec_extract_cmd(l: Seq<u8>) -> Option<Seq<u8>> {
    let token = take_nonspace(skip_spaces(l));
    let base = basename(token);
    if base.len() == 0 {
        None
    } else {
        Some(base)
    }
}

/// Extracts the executable base name a history line invokes.
pub fn extract_cmd(line: &[u8]) -> (r: Option<Vec<u8>>)
    ensures
        opt_view(r) == spec_extract_cmd(line@),
{
    let mut i: usize = 0;
    while i < line.len() && is_space_byte(line[i])
        invariant
            0 <= i <= line@.len(),
            forall|j: int| 0 <= j < i ==> is_space(line@[j]),
        decreases line@.len() - i,
    {
        i += 1;
    }
    proof {
        lemma_skip_spaces_at(line@, i as int);
    }
    if i == line.len() {
        proof {
            assert(line@.skip(i as int) =~= Seq::<u8>::empty());
        }
        return None;
    }
    let mut j: usize = i;
    while j < line.len() && !is_space_byte(line[j])
        invariant
            i <= j <= line@.len(),
            forall|k: int| i <= k < j ==> !is_space(line@[k]),
        decreases line@.len() - j,
    {
        j += 1;
    }
    let ghost rest = line@.skip(i as int);
    proof {
        lemma_take_nonspace_at(rest, j - i);
        assert(rest.take(j - i) =~= line@.subrange(i as int, j as int));
    }
    let ghost token = line@.subrange(i as int, j as int);
    // Find the last `/` inside the token, if any.
    let mut slash: usize = 0;
    let mut has_slash: bool = false;
    let mut m: usize = i;
    while m < j
        invariant
            i <= m <= j <= line@.len(),
            has_slash ==> i <= slash < m && line@[slash as int] == '/' as u8,
            forall|k: int|
                (if has_slash {
                    slash < k < m
                } else {
                    i <= k < m
                }) ==> line@[k] != '/' as u8,
        decreases j - m,
    {
        if line[m] == ('/' as u8) {
            slash = m;
            has_slash = true;
        }
        m += 1;
    }
    if !has_slash {
        proof {
            lemma_basename_no_slash(token);
        }
        let base = slice_subrange(line, i, j);
        return Some(copy_bytes(base));
    }
    proof {
        lemma_basename_after_slash(token, slash - i);
        assert(token.skip(slash - i + 1) =~= line@.subrange(slash as int + 1, j as int));
    }
    if slash + 1 == j {
        return None;
    }
    let base = slice_subrange(line, slash + 1, j);
    Some(copy_bytes(base))
}

// ---------------------------------------------------------------------------
// Recency policies.
// ---------------------------------------------------------------------------

/// The last `n` entries of `s` (all of them when there are fewer).
pub open spec fn spec_last_n<T>(s: Seq<T>, n: nat) -> Seq<T> {
    if s.len() <= n {
        s
    } else {
        s.skip(s.len() - n)
    }
}

/// Keeps the `n` most recent (that is, last) lines of a count-based history.
pub fn retain_last_n(lines: Vec<Vec<u8>>, n: usize) -> (r: Vec<Vec<u8>>)
    ensures
        r@ == spec_last_n(lines@, n as nat),
        r@.len() == if lines@.len() <= n {
            lines@.len()
        } else {
            n as nat
        },
{
    let ghost l0 = lines@;
    let mut rem = lines;
    let start: usize = if rem.len() > n {
        rem.len() - n
    } else {
        0
    };
    let r = rem.split_off(start);
    proof {
        assert(r@ =~= spec_last_n(l0, n as nat));
    }
    r
}

/// One decoded entry of a timestamped history: the command text and the
/// Unix-seconds timestamp it was recorded with.
pub struct FishLine {
    pub time: u64,
    pub cmd: Vec<u8>,
}

/// The commands of the entries at least as new as `cutoff`, in order.
pub open spec fn recent_cmds(entries: Seq<FishLine>, cutoff: u64) -> Seq<Seq<u8>>
    decreases entries.len(),
{
    if entries.len() == 0 {
        Seq::empty()
    } else {
        let rest = recent_cmds(entries.skip(1), cutoff);
        if entries[0].time >= cutoff {
            seq![entries[0].cmd@] + rest
        } else {
            rest
        }
    }
}

/// Keeps the commands of the entries with timestamp at least `cutoff`;
/// entries exactly at the cutoff are kept.
pub fn retain_recent(entries: &Vec<FishLine>, cutoff: u64) -> (r: Vec<Vec<u8>>)
    ensures
        views(r@) == recent_cmds(entries@, cutoff),
{
    let mut kept: Vec<Vec<u8>> = Vec::new();
    proof {
        assert(views(kept@) =~= Seq::<Seq<u8>>::empty());
        assert(entries@.skip(0) =~= entries@);
        assert(views(kept@) + recent_cmds(entries@, cutoff) =~= recent_cmds(entries@, cutoff));
    }
    let n = entries.len();
    let mut k: usize = 0;
    while k < n
        invariant
            0 <= k <= n == entries@.len(),
            views(kept@) + recent_cmds(entries@.skip(k as int), cutoff) =~= recent_cmds(
                entries@,
                cutoff,
            ),
        decreases n - k,
    {
        let ghost rest = entries@.skip(k as int);
        proof {
            assert(rest[0] == entries@[k as int]);
            assert(rest.skip(1) =~= entries@.skip(k as int + 1));
        }
        let e: &FishLine = &entries[k];
        if e.time >= cutoff {
            let c = copy_bytes(e.cmd.as_slice());
            proof {
                crate::bytes::lemma_views_push(kept@, c);
            }
            kept.push(c);
        }
        k += 1;
    }
    proof {
        assert(entries@.skip(n as int) =~= Seq::<FishLine>::empty());
        assert(views(kept@) =~= recent_cmds(entries@, cutoff));
    }
    kept
}

// ---------------------------------------------------------------------------
// History file locations.
// ---------------------------------------------------------------------------

/// `/.bash_history`, appended to the home directory.
pub open spec fn bash_history_suffix() -> Seq<u8> {
    seq![
        '/' as u8,
        '.' as u8,
        'b' as u8,
        'a' as u8,
        's' as u8,
        'h' as u8,
        '_' as u8,
        'h' as u8,
        'i' as u8,
        's' as u8,
        't' as u8,
        'o' as u8,
        'r' as u8,
        'y' as u8,
    ]
}

fn bash_history_suffix_bytes() -> (v: Vec<u8>)
    ensures
        v@ == bash_history_suffix(),
{
    let s = "/.bash_history";
    proof {
        reveal_strlit("/.bash_history");
        assert(s.is_ascii());
    }
    let v = lit_bytes(s);
    proof {
        assert(v@ =~= bash_history_suffix());
    }
    v
}

/// Where the bash history file is looked for: the `HISTFILE` override when
/// set, else `.bash_history` under the home directory.
pub open spec fn spec_bash_history_file_location(
    histfile: Option<Seq<u8>>,
    home: Option<Seq<u8>>,
) -> Option<Seq<u8>> {
    match histfile {
        Some(p) => Some(p),
        None => match home {
            Some(h) => Some(h + bash_history_suffix()),
            None => None,
        },
    }
}

/// Resolves the bash history file location from the values of the `HISTFILE`
/// and `HOME` environment variables.
pub fn bash_history_file_location(histfile: Option<Vec<u8>>, home: Option<Vec<u8>>) -> (r: Option<
    Vec<u8>,
>)
    ensures
        opt_view(r) == spec_bash_history_file_location(opt_view(histfile), opt_view(home)),
{
    match histfile {
        Some(p) => Some(p),
        None => match home {
            Some(h) => {
                let suffix = bash_history_suffix_bytes();
                Some(concat_bytes(h.as_slice(), suffix.as_slice()))
            },
            None => None,
        },
    }
}

/// `/.histfile`: the first conventional zsh history file name.
pub open spec fn zsh_histfile_suffix() -> Seq<u8> {
    seq![
        '/' as u8,
        '.' as u8,
        'h' as u8,
        'i' as u8,
        's' as u8,
        't' as u8,
        'f' as u8,
        'i' as u8,
        'l' as u8,
        'e' as u8,
    ]
}

/// `/.zhistory`: the second conventional zsh history file name.
pub open spec fn zsh_zhistory_suffix() -> Seq<u8> {
    seq![
        '/' as u8,
        '.' as u8,
        'z' as u8,
        'h' as u8,
        'i' as u8,
        's' as u8,
        't' as u8,
        'o' as u8,
        'r' as u8,
        'y' as u8,
    ]
}

/// `/.zsh_history`: the third conventional zsh history file name.
pub open spec fn zsh_history_suffix() -> Seq<u8> {
    seq![
        '/' as u8,
        '.' as u8,
        'z' as u8,
        's' as u8,
        'h' as u8,
        '_' as u8,
        'h' as u8,
        'i' as u8,
        's' as u8,
        't' as u8,
        'o' as u8,
        'r' as u8,
        'y' as u8,
    ]
}

/// The ordered candidate locations for the zsh history: the `HISTFILE`
/// override alone when set, else the three conventional names under the home
/// directory, in priority order; the caller uses the first that decodes.
pub open spec fn spec_zsh_history_locations(
    histfile: Option<Seq<u8>>,
    home: Option<Seq<u8>>,
) -> Seq<Seq<u8>> {
    match histfile {
        Some(p) => seq![p],
        None => match home {
            Some(h) => seq![
                h + zsh_histfile_suffix(),
                h + zsh_zhistory_suffix(),
                h + zsh_history_suffix(),
            ],
            None => Seq::empty(),
        },
    }
}

/// Resolves the ordered zsh history candidates from `HISTFILE` and `HOME`.
pub fn zsh_history_locations(histfile: Option<Vec<u8>>, home: Option<Vec<u8>>) -> (r: Vec<Vec<u8>>)
    ensures
        views(r@) == spec_zsh_history_locations(opt_view(histfile), opt_view(home)),
{
    let mut r: Vec<Vec<u8>> = Vec::new();
    match histfile {
        Some(p) => {
            r.push(p);
            proof {
                assert(views(r@) =~= spec_zsh_history_locations(
                    opt_view(histfile),
                    opt_view(home),
                ));
            }
        },
        None => match home {
            Some(h) => {
                let s1 = {
                    let s = "/.histfile";
                    proof {
                        reveal_strlit("/.histfile");
                        assert(s.is_ascii());
                    }
                    lit_bytes(s)
                };
                proof {
                    assert(s1@ =~= zsh_histfile_suffix());
                }
                let s2 = {
                    let s = "/.zhistory";
                    proof {
                        reveal_strlit("/.zhistory");
                        assert(s.is_ascii());
                    }
                    lit_bytes(s)
                };
                proof {
                    assert(s2@ =~= zsh_zhistory_suffix());
                }
                let s3 = {
                    let s = "/.zsh_history";
                    proof {
                        reveal_strlit("/.zsh_history");
                        assert(s.is_ascii());
                    }
                    lit_bytes(s)
                };
                proof {
                    assert(s3@ =~= zsh_history_suffix());
                }
                r.push(concat_bytes(h.as_slice(), s1.as_slice()));
                r.push(concat_bytes(h.as_slice(), s2.as_slice()));
                r.push(concat_bytes(h.as_slice(), s3.as_slice()));
                proof {
                    assert(views(r@) =~= spec_zsh_history_locations(
                        opt_view(histfile),
                        opt_view(home),
                    ));
                }
            },
            None => {
                proof {
                    assert(views(r@) =~= Seq::<Seq<u8>>::empty());
                }
            },
        },
    }
    r
}

/// `/Library/Application Support/nu/history.txt`, appended to the home
/// directory.
pub open spec fn nushell_history_suffix() -> Seq<u8> {
    seq![
        '/' as u8,
        'L' as u8,
        'i' as u8,
        'b' as u8,
        'r' as u8,
        'a' as u8,
        'r' as u8,
        'y' as u8,
        '/' as u8,
        'A' as u8,
        'p' as u8,
        'p' as u8,
        'l' as u8,
        'i' as u8,
        'c' as u8,
        'a' as u8,
        't' as u8,
        'i' as u8,
        'o' as u8,
        'n' as u8,
        ' ' as u8,
        'S' as u8,
        'u' as u8,
        'p' as u8,
        'p' as u8,
        'o' as u8,
        'r' as u8,
        't' as u8,
        '/' as u8,
        'n' as u8,
        'u' as u8,
        '/' as u8,
        'h' as u8,
        'i' as u8,
        's' as u8,
        't' as u8,
        'o' as u8,
        'r' as u8,
        'y' as u8,
        '.' as u8,
        't' as u8,
        'x' as u8,
        't' as u8,
    ]
}

/// Where the nushell history is looked for, under the home directory.
pub open spec fn spec_nushell_history_location(home: Option<Seq<u8>>) -> Option<Seq<u8>> {
    match home {
        Some(h) => Some(h + nushell_history_suffix()),
        None => None,
    }
}

/// Resolves the nushell history file location from `HOME`.
pub fn nushell_history_location(home: Option<Vec<u8>>) -> (r: Option<Vec<u8>>)
    ensures
        opt_view(r) == spec_nushell_history_location(opt_view(home)),
{
    match home {
        Some(h) => {
            let s = "/Library/Application Support/nu/history.txt";
            proof {
                reveal_strlit("/Library/Application Support/nu/history.txt");
                assert(s.is_ascii());
            }
            let suffix = lit_bytes(s);
            proof {
                assert(suffix@ =~= nushell_history_suffix());
            }
            Some(concat_bytes(h.as_slice(), suffix.as_slice()))
        },
        None => None,
    }
}

// ---------------------------------------------------------------------------
// The fish history record grammar.
// ---------------------------------------------------------------------------

/// `- cmd: `: the line prefix that starts a record and carries its command.
pub open spec fn cmd_prefix() -> Seq<u8> {
    seq!['-' as u8, ' ' as u8, 'c' as u8, 'm' as u8, 'd' as u8, ':' as u8, ' ' as u8]
}

/// `when: `: the field prefix that carries a record's timestamp.
pub open spec fn when_prefix() -> Seq<u8> {
    seq!['w' as u8, 'h' as u8, 'e' as u8, 'n' as u8, ':' as u8, ' ' as u8]
}

/// The command a line carries: everything after the `- cmd: ` prefix.
pub open spec fn line_cmd(l: Seq<u8>) -> Option<Seq<u8>> {
    if l.len() >= cmd_prefix().len() && l.take(cmd_prefix().len() as int) == cmd_prefix() {
        Some(l.skip(cmd_prefix().len() as int))
    } else {
        None
    }
}

/// The timestamp a line carries: optional whitespace, then `when: `, then a
/// run of digits reaching the end of the line and fitting in a `u64`.
pub open spec fn line_when(l: Seq<u8>) -> Option<u64> {
    let t = skip_spaces(l);
    let n = when_prefix().len() as int;
    if t.len() > n && t.take(n) == when_prefix() && all_digits(t.skip(n)) && dec_value(t.skip(n))
        <= u64::MAX {
        Some(dec_value(t.skip(n)) as u64)
    } else {
        None
    }
}

/// A line that starts a new record (any line opening with `-`).
pub open spec fn starts_record(l: Seq<u8>) -> bool {
    l.len() > 0 && l[0] == '-' as u8
}

/// The record a held command and timestamp form, if both are present.
pub open spec fn pending_record(cmd: Option<Seq<u8>>, when: Option<u64>) -> Seq<(u64, Seq<u8>)> {
    match (cmd, when) {
        (Some(c), Some(t)) => seq![(t, c)],
        _ => Seq::empty(),
    }
}

/// The records the remaining `lines` yield, given the fields held so far.
/// A record-start line first closes the held record (emitted only when both
/// fields arrived — one with a missing field is dropped, and its fields never
/// leak into the next record); each line may then contribute a command or a
/// timestamp; the end of input closes the last record.
pub open spec fn fish_records(
    lines: Seq<Seq<u8>>,
    cmd: Option<Seq<u8>>,
    when: Option<u64>,
) -> Seq<(u64, Seq<u8>)>
    decreases lines.len(),
{
    if lines.len() == 0 {
        pending_record(cmd, when)
    } else {
        let l = lines[0];
        let emitted = if starts_record(l) {
            pending_record(cmd, when)
        } else {
            Seq::empty()
        };
        let cmd1 = if starts_record(l) {
            None
        } else {
            cmd
        };
        let when1 = if starts_record(l) {
            None
        } else {
            when
        };
        let cmd2 = match line_cmd(l) {
            Some(c) => Some(c),
            None => cmd1,
        };
        let when2 = match line_when(l) {
            Some(t) => Some(t),
            None => when1,
        };
        emitted + fish_records(lines.skip(1), cmd2, when2)
    }
}

/// The records a fish history text decodes into.
pub open spec fn spec_fish_history(s: Seq<u8>) -> Seq<(u64, Seq<u8>)> {
    fish_records(spec_lines(s), None, None)
}

/// The (timestamp, command) view of decoded fish entries.
pub open spec fn fish_views(v: Seq<FishLine>) -> Seq<(u64, Seq<u8>)> {
    v.map_values(|f: FishLine| (f.time, f.cmd@))
}

proof fn lemma_fish_views_push(v: Seq<FishLine>, f: FishLine)
    ensures
        fish_views(v.push(f)) =~= fish_views(v).push((f.time, f.cmd@)),
{
}

fn match_cmd(l: &[u8]) -> (r: Option<Vec<u8>>)
    ensures
        opt_view(r) == line_cmd(l@),
{
    let p = {
        let s = "- cmd: ";
        proof {
            reveal_strlit("- cmd: ");
            assert(s.is_ascii());
        }
        lit_bytes(s)
    };
    proof {
        assert(p@ =~= cmd_prefix());
    }
    if l.len() < p.len() {
        return None;
    }
    let head = slice_subrange(l, 0, 7);
    proof {
        assert(l@.take(7) =~= l@.subrange(0, 7));
    }
    if bytes_eq(head, p.as_slice()) {
        proof {
            assert(l@.skip(7) =~= l@.subrange(7, l@.len() as int));
        }
        let rest = slice_subrange(l, 7, l.len());
        Some(copy_bytes(rest))
    } else {
        None
    }
}

fn match_when(l: &[u8]) -> (r: Option<u64>)
    ensures
        r == line_when(l@),
{
    let w = {
        let s = "when: ";
        proof {
            reveal_strlit("when: ");
            assert(s.is_ascii());
        }
        lit_bytes(s)
    };
    proof {
        assert(w@ =~= when_prefix());
    }
    let mut i: usize = 0;
    while i < l.len() && is_space_byte(l[i])
        invariant
            0 <= i <= l@.len(),
            forall|j: int| 0 <= j < i ==> is_space(l@[j]),
        decreases l@.len() - i,
    {
        i += 1;
    }
    proof {
        lemma_skip_spaces_at(l@, i as int);
    }
    let ghost t = skip_spaces(l@);
    if l.len() - i <= 6 {
        return None;
    }
    let head = slice_subrange(l, i, i + 6);
    proof {
        assert(t.take(6) =~= l@.subrange(i as int, i as int + 6));
    }
    if !bytes_eq(head, w.as_slice()) {
        return None;
    }
    let digits = slice_subrange(l, i + 6, l.len());
    proof {
        assert(t.skip(6) =~= l@.subrange(i as int + 6, l@.len() as int));
    }
    parse_decimal(digits)
}

/// Decodes a fish history text into its completed records.
pub fn fish_history(text: &[u8]) -> (r: Vec<FishLine>)
    ensures
        fish_views(r@) == spec_fish_history(text@),
{
    let lines = split_lines(text);
    let ghost ls = spec_lines(text@);
    let mut out: Vec<FishLine> = Vec::new();
    let mut cur_cmd: Option<Vec<u8>> = None;
    let mut cur_time: Option<u64> = None;
    let mut k: usize = 0;
    proof {
        assert(ls.skip(0) =~= ls);
        assert(fish_views(out@) + fish_records(ls, None, None) =~= fish_records(ls, None, None));
    }
    while k < lines.len()
        invariant
            0 <= k <= lines@.len(),
            views(lines@) == ls,
            fish_views(out@) + fish_records(ls.skip(k as int), opt_view(cur_cmd), cur_time)
                =~= spec_fish_history(text@),
        decreases lines@.len() - k,
    {
        let ghost rest = ls.skip(k as int);
        let ghost cmd0 = opt_view(cur_cmd);
        let ghost when0 = cur_time;
        let line: &Vec<u8> = &lines[k];
        proof {
            assert(rest[0] == ls[k as int]);
            assert(ls[k as int] == line@);
            assert(rest.skip(1) =~= ls.skip(k as int + 1));
        }
        let dash = line.len() > 0 && line[0] == ('-' as u8);
        if dash {
            if cur_cmd.is_some() && cur_time.is_some() {
                let c = cur_cmd.unwrap();
                let t = cur_time.unwrap();
                proof {
                    lemma_fish_views_push(out@, FishLine { time: t, cmd: c });
                }
                out.push(FishLine { time: t, cmd: c });
            }
            cur_cmd = None;
            cur_time = None;
        }
        let ghost cmd1 = opt_view(cur_cmd);
        let ghost when1 = cur_time;
        match match_cmd(line.as_slice()) {
            Some(c) => {
                cur_cmd = Some(c);
            },
            None => {},
        }
        match match_when(line.as_slice()) {
            Some(t) => {
                cur_time = Some(t);
            },
            None => {},
        }
        proof {
            assert(fish_records(rest, cmd0, when0) =~= (if starts_record(line@) {
                pending_record(cmd0, when0)
            } else {
                Seq::empty()
            }) + fish_records(rest.skip(1), opt_view(cur_cmd), cur_time));
            assert(fish_views(out@) + fish_records(
                ls.skip(k as int + 1),
                opt_view(cur_cmd),
                cur_time,
            ) =~= spec_fish_history(text@));
        }
        k += 1;
    }
    proof {
        assert(ls.skip(lines@.len() as int) =~= Seq::<Seq<u8>>::empty());
    }
    if cur_cmd.is_some() && cur_time.is_some() {
        let c = cur_cmd.unwrap();
        let t = cur_time.unwrap();
        proof {
            lemma_fish_views_push(out@, FishLine { time: t, cmd: c });
        }
        out.push(FishLine { time: t, cmd: c });
    }
    proof {
        assert(fish_views(out@) =~= spec_fish_history(text@));
    }
    out
}

/// `/.local/share`: the fallback for an unset `XDG_DATA_HOME`.
pub open spec fn local_share_suffix() -> Seq<u8> {
    seq![
        '/' as u8,
        '.' as u8,
        'l' as u8,
        'o' as u8,
        'c' as u8,
        'a' as u8,
        'l' as u8,
        '/' as u8,
        's' as u8,
        'h' as u8,
        'a' as u8,
        'r' as u8,
        'e' as u8,
    ]
}

/// `/fish/fish_history`, appended to the data directory.
pub open spec fn fish_history_suffix() -> Seq<u8> {
    seq![
        '/' as u8,
        'f' as u8,
        'i' as u8,
        's' as u8,
        'h' as u8,
        '/' as u8,
        'f' as u8,
        'i' as u8,
        's' as u8,
        'h' as u8,
        '_' as u8,
        'h' as u8,
        'i' as u8,
        's' as u8,
        't' as u8,
        'o' as u8,
        'r' as u8,
        'y' as u8,
    ]
}

/// Where the fish history is looked for: under `XDG_DATA_HOME` when set, else
/// under `.local/share` in the home directory.
pub open spec fn spec_fish_history_location(
    xdg_data_home: Option<Seq<u8>>,
    home: Option<Seq<u8>>,
) -> Option<Seq<u8>> {
    match xdg_data_home {
        Some(d) => Some(d + fish_history_suffix()),
        None => match home {
            Some(h) => Some(h + local_share_suffix() + fish_history_suffix()),
            None => None,
        },
    }
}

/// Resolves the fish history file location from `XDG_DATA_HOME` and `HOME`.
pub fn fish_history_location(xdg_data_home: Option<Vec<u8>>, home: Option<Vec<u8>>) -> (r: Option<
    Vec<u8>,
>)
    ensures
        opt_view(r) == spec_fish_history_location(opt_view(xdg_data_home), opt_view(home)),
{
    let fish = {
        let s = "/fish/fish_history";
        proof {
            reveal_strlit("/fish/fish_history");
            assert(s.is_ascii());
        }
        lit_bytes(s)
    };
    proof {
        assert(fish@ =~= fish_history_suffix());
    }
    match xdg_data_home {
        Some(d) => Some(concat_bytes(d.as_slice(), fish.as_slice())),
        None => match home {
            Some(h) => {
                let s = "/.local/share";
                proof {
                    reveal_strlit("/.local/share");
                    assert(s.is_ascii());
                }
                let share = lit_bytes(s);
                proof {
                    assert(share@ =~= local_share_suffix());
                }
                let dir = concat_bytes(h.as_slice(), share.as_slice());
                Some(concat_bytes(dir.as_slice(), fish.as_slice()))
            },
            None => None,
        },
    }
}

// ---------------------------------------------------------------------------
// Aggregation.
// ---------------------------------------------------------------------------

/// What a count-based source (bash, zsh, nushell) contributes: its last
/// `SIMPLE_HISTORY_LIMIT` lines; a source with no data contributes nothing.
pub open spec fn source_recent(o: Option<Vec<Vec<u8>>>) -> Seq<Seq<u8>> {
    match o {
        Some(v) => views(spec_last_n(v@, SIMPLE_HISTORY_LIMIT as nat)),
        None => Seq::empty(),
    }
}

/// What the timestamped source (fish) contributes: the commands of its
/// entries no older than `RECENT_WINDOW_SECS` before `now`.
pub open spec fn fish_recent(o: Option<Vec<FishLine>>, now: u64) -> Seq<Seq<u8>> {
    match o {
        Some(v) => recent_cmds(v@, (now - RECENT_WINDOW_SECS) as u64),
        None => Seq::empty(),
    }
}

/// Merges the decoded histories of all sources into the recent command
/// lines, each source reduced by its own recency policy. A source whose file
/// was missing or unreadable arrives as `None` and contributes nothing.
pub fn recent_history(
    bash: Option<Vec<Vec<u8>>>,
    zsh: Option<Vec<Vec<u8>>>,
    nushell: Option<Vec<Vec<u8>>>,
    fish: Option<Vec<FishLine>>,
    now: u64,
) -> (r: Vec<Vec<u8>>)
    requires
        now >= RECENT_WINDOW_SECS,
    ensures
        views(r@) == source_recent(bash) + source_recent(zsh) + source_recent(nushell)
            + fish_recent(fish, now),
{
    let mut r: Vec<Vec<u8>> = Vec::new();
    let ghost target = source_recent(bash) + source_recent(zsh) + source_recent(nushell)
        + fish_recent(fish, now);
    match bash {
        Some(v) => {
            let mut t = retain_last_n(v, SIMPLE_HISTORY_LIMIT);
            proof {
                crate::bytes::lemma_views_concat(r@, t@);
            }
            r.append(&mut t);
        },
        None => {},
    }
    proof {
        assert(views(r@) =~= source_recent(bash));
    }
    match zsh {
        Some(v) => {
            let mut t = retain_last_n(v, SIMPLE_HISTORY_LIMIT);
            proof {
                crate::bytes::lemma_views_concat(r@, t@);
            }
            r.append(&mut t);
        },
        None => {},
    }
    proof {
        assert(views(r@) =~= source_recent(bash) + source_recent(zsh));
    }
    match nushell {
        Some(v) => {
            let mut t = retain_last_n(v, SIMPLE_HISTORY_LIMIT);
            proof {
                crate::bytes::lemma_views_concat(r@, t@);
            }
            r.append(&mut t);
        },
        None => {},
    }
    proof {
        assert(views(r@) =~= source_recent(bash) + source_recent(zsh) + source_recent(nushell));
    }
    let cutoff: u64 = now - RECENT_WINDOW_SECS;
    match fish {
        Some(v) => {
            let mut t = retain_recent(&v, cutoff);
            proof {
                crate::bytes::lemma_views_concat(r@, t@);
            }
            r.append(&mut t);
        },
        None => {},
    }
    proof {
        assert(views(r@) =~= target);
    }
    r
}

/// The executable base names the given lines invoke, in order, lines without
/// one skipped.
pub open spec fn used_cmds(lines: Seq<Seq<u8>>) -> Seq<Seq<u8>>
    decreases lines.len(),
{
    if lines.len() == 0 {
        Seq::empty()
    } else {
        let rest = used_cmds(lines.skip(1));
        match spec_extract_cmd(lines[0]) {
            Some(c) => seq![c] + rest,
            None => rest,
        }
    }
}

/// Reduces retained history lines to the set of executable base names they
/// invoke; blank lines and lines without an isolable token are skipped.
pub fn used_executables(lines: &Vec<Vec<u8>>) -> (r: Vec<Vec<u8>>)
    ensures
        views(r@) == used_cmds(views(lines@)),
{
    let ghost ls = views(lines@);
    let mut r: Vec<Vec<u8>> = Vec::new();
    let mut k: usize = 0;
    proof {
        assert(ls.skip(0) =~= ls);
        assert(views(r@) + used_cmds(ls) =~= used_cmds(ls));
    }
    while k < lines.len()
        invariant
            0 <= k <= lines@.len(),
            views(lines@) == ls,
            views(r@) + used_cmds(ls.skip(k as int)) =~= used_cmds(ls),
        decreases lines@.len() - k,
    {
        let ghost rest = ls.skip(k as int);
        proof {
            assert(rest[0] == ls[k as int]);
            assert(ls[k as int] == lines@[k as int]@);
            assert(rest.skip(1) =~= ls.skip(k as int + 1));
        }
        let line: &Vec<u8> = &lines[k];
        match extract_cmd(line.as_slice()) {
            Some(c) => {
                proof {
                    crate::bytes::lemma_views_push(r@, c);
                }
                r.push(c);
            },
            None => {},
        }
        k += 1;
    }
    proof {
        assert(ls.skip(lines@.len() as int) =~= Seq::<Seq<u8>>::empty());
        assert(views(r@) =~= used_cmds(ls));
    }
    r
}

} // verus!
