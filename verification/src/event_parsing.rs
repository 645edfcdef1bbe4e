//! The textual form of an event, and its parser.
//!
//! An event renders as a header line with the numeric and enumerated
//! fields, a line with the path name, and, when a partner path is present,
//! a third line with it:
//!
//! ```text
//! @ <timestamp> <effect> <path_type> pid:<pid>
//! > <path_name>
//! > <associated>
//! ```
//!
//! The parser reads that form back. Rendering and parsing are each
//! specified over character sequences, and parsing a rendered event
//! recovers every field whenever the paths hold no line break.

use vstd::prelude::*;

use crate::event::EffectType;
use crate::event::Event;
use crate::event::EventModel;
use crate::event::PathType;
use crate::text::all_digits;
use crate::text::dec_rep;
use crate::text::dec_val;
use crate::text::is_digit;
use crate::text::parse_u32;
use crate::text::parse_u64;
use crate::text::u32_to_string;
use crate::text::u64_to_string;

verus! {

/// The word an effect renders as; the reassembly markers never reach a
/// completed event and render as unexpected.
pub open spec fn effect_word(e: EffectType) -> Seq<char> {
    match e {
        EffectType::Create => seq!['c', 'r', 'e', 'a', 't', 'e'],
        EffectType::Rename => seq!['r', 'e', 'n', 'a', 'm', 'e'],
        EffectType::Link => seq!['l', 'i', 'n', 'k'],
        EffectType::Delete => seq!['d', 'e', 'l', 'e', 't', 'e'],
        EffectType::Continuation => seq![
            'u',
            'n',
            'e',
            'x',
            'p',
            'e',
            'c',
            't',
            'e',
            'd',
            ':',
            'c',
            'o',
            'n',
            't',
        ],
        EffectType::Association => seq![
            'u',
            'n',
            'e',
            'x',
            'p',
            'e',
            'c',
            't',
            'e',
            'd',
            ':',
            'a',
            's',
            's',
            'o',
            'c',
        ],
    }
}

/// The word a path type renders as.
pub open spec fn path_type_word(t: PathType) -> Seq<char> {
    match t {
        PathType::Dir => seq!['d', 'i', 'r'],
        PathType::File => seq!['f', 'i', 'l', 'e'],
        PathType::Symlink => seq!['s', 'y', 'm', 'l', 'i', 'n', 'k'],
        PathType::Hardlink => seq!['h', 'a', 'r', 'd', 'l', 'i', 'n', 'k'],
        PathType::Blockdev => seq!['b', 'l', 'o', 'c', 'k', 'd', 'e', 'v'],
        PathType::Socket => seq!['s', 'o', 'c', 'k', 'e', 't'],
        PathType::Continuation => seq![
            'u',
            'n',
            'e',
            'x',
            'p',
            'e',
            'c',
            't',
            'e',
            'd',
            ':',
            'c',
            'o',
            'n',
            't',
        ],
        PathType::Unknown => seq![
            'u',
            'n',
            'e',
            'x',
            'p',
            'e',
            'c',
            't',
            'e',
            'd',
            ':',
            'u',
            'n',
            'k',
            'n',
            'o',
            'w',
            'n',
        ],
    }
}

/// The header line of an event's textual form.
pub open spec fn spec_header(e: EventModel) -> Seq<char> {
    seq!['@', ' '] + dec_rep(e.timestamp as nat) + seq![' '] + effect_word(e.effect_type) + seq![
        ' ',
    ] + path_type_word(e.path_type) + seq![' ', 'p', 'i', 'd', ':'] + dec_rep(e.pid as nat)
}

/// The whole textual form: header, path line, and the partner line when a
/// partner path is present.
pub open spec fn spec_event_str(e: EventModel) -> Seq<char> {
    spec_header(e) + seq!['\n', '>', ' '] + e.path_name + (match e.associated {
        Some(a) => seq!['\n', '>', ' '] + a,
        None => Seq::<char>::empty(),
    })
}

fn effect_str(e: EffectType) -> (r: &'static str)
    ensures
        r@ == effect_word(e),
{
    proof {
        reveal_strlit("create");
        reveal_strlit("rename");
        reveal_strlit("link");
        reveal_strlit("delete");
        reveal_strlit("unexpected:cont");
        reveal_strlit("unexpected:assoc");
        assert("create"@ =~= effect_word(EffectType::Create));
        assert("rename"@ =~= effect_word(EffectType::Rename));
        assert("link"@ =~= effect_word(EffectType::Link));
        assert("delete"@ =~= effect_word(EffectType::Delete));
        assert("unexpected:cont"@ =~= effect_word(EffectType::Continuation));
        assert("unexpected:assoc"@ =~= effect_word(EffectType::Association));
    }
    match e {
        EffectType::Create => "create",
        EffectType::Rename => "rename",
        EffectType::Link => "link",
        EffectType::Delete => "delete",
        EffectType::Continuation => "unexpected:cont",
        EffectType::Association => "unexpected:assoc",
    }
}

fn path_type_str(t: PathType) -> (r: &'static str)
    ensures
        r@ == path_type_word(t),
{
    proof {
        reveal_strlit("dir");
        reveal_strlit("file");
        reveal_strlit("symlink");
        reveal_strlit("hardlink");
        reveal_strlit("blockdev");
        reveal_strlit("socket");
        reveal_strlit("unexpected:cont");
        reveal_strlit("unexpected:unknown");
        assert("dir"@ =~= path_type_word(PathType::Dir));
        assert("file"@ =~= path_type_word(PathType::File));
        assert("symlink"@ =~= path_type_word(PathType::Symlink));
        assert("hardlink"@ =~= path_type_word(PathType::Hardlink));
        assert("blockdev"@ =~= path_type_word(PathType::Blockdev));
        assert("socket"@ =~= path_type_word(PathType::Socket));
        assert("unexpected:cont"@ =~= path_type_word(PathType::Continuation));
        assert("unexpected:unknown"@ =~= path_type_word(PathType::Unknown));
    }
    match t {
        PathType::Dir => "dir",
        PathType::File => "file",
        PathType::Symlink => "symlink",
        PathType::Hardlink => "hardlink",
        PathType::Blockdev => "blockdev",
        PathType::Socket => "socket",
        PathType::Continuation => "unexpected:cont",
        PathType::Unknown => "unexpected:unknown",
    }
}

/// Renders an event in its textual form.
pub fn event_to_string(event: Event) -> (r: String)
    ensures
        r@ == spec_event_str(event@),
{
    let mut r = String::new();
    r.append("@ ");
    r.append(u64_to_string(event.timestamp).as_str());
    r.append(" ");
    r.append(effect_str(event.effect_type));
    r.append(" ");
    r.append(path_type_str(event.path_type));
    r.append(" pid:");
    r.append(u32_to_string(event.pid).as_str());
    r.append("\n> ");
    r.append(event.path_name.as_str());
    match &event.associated {
        Some(a) => {
            r.append("\n> ");
            r.append(a.as_str());
        },
        None => {},
    }
    proof {
        reveal_strlit("@ ");
        reveal_strlit(" ");
        reveal_strlit(" pid:");
        reveal_strlit("\n> ");
        assert("@ "@ =~= seq!['@', ' ']);
        assert(" "@ =~= seq![' ']);
        assert(" pid:"@ =~= seq![' ', 'p', 'i', 'd', ':']);
        assert("\n> "@ =~= seq!['\n', '>', ' ']);
        assert(r@ =~= spec_event_str(event@));
    }
    r
}

/// Renders an event in its textual form; the same rendering under the
/// name its consumers use.
pub fn event_str(event: Event) -> (r: String)
    ensures
        r@ == spec_event_str(event@),
{
    event_to_string(event)
}

/// True when a character does not occur in the sequence.
pub open spec fn no_char(s: Seq<char>, c: char) -> bool {
    forall|i: int| 0 <= i < s.len() ==> s[i] != c
}

/// Index of the first occurrence of a character, or -1 when it does not
/// occur.
pub open spec fn find_char(s: Seq<char>, c: char) -> int
    decreases s.len(),
{
    if s.len() == 0 {
        -1
    } else if s[0] == c {
        0
    } else if find_char(s.drop_first(), c) == -1 {
        -1
    } else {
        1 + find_char(s.drop_first(), c)
    }
}

proof fn lemma_find_char_found(s: Seq<char>, c: char, i: int)
    requires
        0 <= i < s.len(),
        s[i] == c,
        forall|j: int| 0 <= j < i ==> s[j] != c,
    ensures
        find_char(s, c) == i,
    decreases s.len(),
{
    if i > 0 {
        assert(s.drop_first()[i - 1] == c);
        assert forall|j: int| 0 <= j < i - 1 implies s.drop_first()[j] != c by {
            assert(s.drop_first()[j] == s[j + 1]);
        }
        lemma_find_char_found(s.drop_first(), c, i - 1);
    }
}

proof fn lemma_find_char_none(s: Seq<char>, c: char)
    requires
        no_char(s, c),
    ensures
        find_char(s, c) == -1,
    decreases s.len(),
{
    if s.len() > 0 {
        assert forall|j: int| 0 <= j < s.drop_first().len() implies s.drop_first()[j] != c by {
            assert(s.drop_first()[j] == s[j + 1]);
        }
        lemma_find_char_none(s.drop_first(), c);
    }
}

/// In a sequence built as clean prefix, separator, remainder, the first
/// occurrence of the separator is right after the prefix.
proof fn lemma_find_char_append(pre: Seq<char>, c: char, suf: Seq<char>)
    requires
        no_char(pre, c),
    ensures
        find_char(pre + seq![c] + suf, c) == pre.len(),
{
    let s = pre + seq![c] + suf;
    assert(s[pre.len() as int] == c);
    assert forall|j: int| 0 <= j < pre.len() implies s[j] != c by {
        assert(s[j] == pre[j]);
    }
    lemma_find_char_found(s, c, pre.len() as int);
}

/// Digits are neither separators nor line breaks.
proof fn lemma_digits_clean(s: Seq<char>)
    requires
        all_digits(s),
    ensures
        no_char(s, ' '),
        no_char(s, '\n'),
{
    assert forall|i: int| 0 <= i < s.len() implies s[i] != ' ' && s[i] != '\n' by {
        assert(is_digit(s[i]));
    }
}

/// None of the rendered words holds a separator or a line break.
proof fn lemma_words_clean()
    ensures
        forall|e: EffectType|
            no_char(#[trigger] effect_word(e), ' ') && no_char(effect_word(e), '\n'),
        forall|t: PathType|
            no_char(#[trigger] path_type_word(t), ' ') && no_char(path_type_word(t), '\n'),
{
    assert forall|e: EffectType|
        no_char(#[trigger] effect_word(e), ' ') && no_char(effect_word(e), '\n') by {
        match e {
            EffectType::Create => {},
            EffectType::Rename => {},
            EffectType::Link => {},
            EffectType::Delete => {},
            EffectType::Continuation => {},
            EffectType::Association => {},
        }
    }
    assert forall|t: PathType|
        no_char(#[trigger] path_type_word(t), ' ') && no_char(path_type_word(t), '\n') by {
        match t {
            PathType::Dir => {},
            PathType::File => {},
            PathType::Symlink => {},
            PathType::Hardlink => {},
            PathType::Blockdev => {},
            PathType::Socket => {},
            PathType::Continuation => {},
            PathType::Unknown => {},
        }
    }
}

/// The effect a rendered word stands for.
pub open spec fn effect_from_word(w: Seq<char>) -> Option<EffectType> {
    if w == effect_word(EffectType::Create) {
        Some(EffectType::Create)
    } else if w == effect_word(EffectType::Rename) {
        Some(EffectType::Rename)
    } else if w == effect_word(EffectType::Link) {
        Some(EffectType::Link)
    } else if w == effect_word(EffectType::Delete) {
        Some(EffectType::Delete)
    } else if w == effect_word(EffectType::Continuation) {
        Some(EffectType::Continuation)
    } else if w == effect_word(EffectType::Association) {
        Some(EffectType::Association)
    } else {
        None
    }
}

/// The path type a rendered word stands for.
pub open spec fn path_type_from_word(w: Seq<char>) -> Option<PathType> {
    if w == path_type_word(PathType::Dir) {
        Some(PathType::Dir)
    } else if w == path_type_word(PathType::File) {
        Some(PathType::File)
    } else if w == path_type_word(PathType::Symlink) {
        Some(PathType::Symlink)
    } else if w == path_type_word(PathType::Hardlink) {
        Some(PathType::Hardlink)
    } else if w == path_type_word(PathType::Blockdev) {
        Some(PathType::Blockdev)
    } else if w == path_type_word(PathType::Socket) {
        Some(PathType::Socket)
    } else if w == path_type_word(PathType::Continuation) {
        Some(PathType::Continuation)
    } else if w == path_type_word(PathType::Unknown) {
        Some(PathType::Unknown)
    } else {
        None
    }
}

/// Reading a word back gives the effect it was rendered from.
proof fn lemma_effect_word_round_trip(e: EffectType)
    ensures
        effect_from_word(effect_word(e)) == Some(e),
{
}

/// Reading a word back gives the path type it was rendered from.
proof fn lemma_path_type_word_round_trip(t: PathType)
    ensures
        path_type_from_word(path_type_word(t)) == Some(t),
{
}

/// The fields the header line of a textual event holds, when it is well
/// formed: the marker, then the timestamp, the effect word, the path-type
/// word and the tagged process id, separated by single spaces.
pub open spec fn spec_parse_header(h: Seq<char>) -> Option<(u64, EffectType, PathType, u32)> {
    if h.len() < 2 || h[0] != '@' || h[1] != ' ' {
        None
    } else {
        let r1 = h.subrange(2, h.len() as int);
        let sp1 = find_char(r1, ' ');
        if sp1 < 0 {
            None
        } else {
            let ts_tok = r1.subrange(0, sp1);
            let r2 = r1.subrange(sp1 + 1, r1.len() as int);
            let sp2 = find_char(r2, ' ');
            if sp2 < 0 {
                None
            } else {
                let et_tok = r2.subrange(0, sp2);
                let r3 = r2.subrange(sp2 + 1, r2.len() as int);
                let sp3 = find_char(r3, ' ');
                if sp3 < 0 {
                    None
                } else {
                    let pt_tok = r3.subrange(0, sp3);
                    let pid_tok = r3.subrange(sp3 + 1, r3.len() as int);
                    if pid_tok.len() < 5 || pid_tok[0] != 'p' || pid_tok[1] != 'i' || pid_tok[2]
                        != 'd' || pid_tok[3] != ':' {
                        None
                    } else {
                        let pid_digits = pid_tok.subrange(4, pid_tok.len() as int);
                        if !(ts_tok.len() > 0 && all_digits(ts_tok) && dec_val(ts_tok)
                            <= u64::MAX) {
                            None
                        } else if !(all_digits(pid_digits) && dec_val(pid_digits) <= u32::MAX) {
                            None
                        } else {
                            match (effect_from_word(et_tok), path_type_from_word(pt_tok)) {
                                (Some(et), Some(pt)) => Some(
                                    (dec_val(ts_tok) as u64, et, pt, dec_val(pid_digits) as u32),
                                ),
                                _ => None,
                            }
                        }
                    }
                }
            }
        }
    }
}

/// The event a textual form stands for, when it is well formed: a header
/// line, a path line, and at most one partner line, each path line opened
/// by its marker.
pub open spec fn spec_parse_event(s: Seq<char>) -> Option<EventModel> {
    let nl1 = find_char(s, '\n');
    if nl1 < 0 {
        None
    } else {
        match spec_parse_header(s.subrange(0, nl1)) {
            None => None,
            Some((ts, et, pt, pid)) => {
                let rest = s.subrange(nl1 + 1, s.len() as int);
                let nl2 = find_char(rest, '\n');
                if nl2 < 0 {
                    if rest.len() >= 2 && rest[0] == '>' && rest[1] == ' ' {
                        Some(
                            EventModel {
                                path_name: rest.subrange(2, rest.len() as int),
                                associated: None,
                                timestamp: ts,
                                pid: pid,
                                path_type: pt,
                                effect_type: et,
                            },
                        )
                    } else {
                        None
                    }
                } else {
                    let line2 = rest.subrange(0, nl2);
                    let line3 = rest.subrange(nl2 + 1, rest.len() as int);
                    if line2.len() >= 2 && line2[0] == '>' && line2[1] == ' ' && line3.len() >= 2
                        && line3[0] == '>' && line3[1] == ' ' {
                        Some(
                            EventModel {
                                path_name: line2.subrange(2, line2.len() as int),
                                associated: Some(line3.subrange(2, line3.len() as int)),
                                timestamp: ts,
                                pid: pid,
                                path_type: pt,
                                effect_type: et,
                            },
                        )
                    } else {
                        None
                    }
                }
            },
        }
    }
}

/// An event whose textual form can be read back: the paths hold no line
/// break.
pub open spec fn printable(e: EventModel) -> bool {
    &&& no_char(e.path_name, '\n')
    &&& (match e.associated {
        Some(a) => no_char(a, '\n'),
        None => true,
    })
}

/// Parsing a header rendered from an event's fields gives those fields
/// back.
#[verifier::rlimit(100)]
proof fn lemma_parse_header_round_trip(e: EventModel)
    ensures
        spec_parse_header(spec_header(e)) == Some(
            (e.timestamp, e.effect_type, e.path_type, e.pid),
        ),
{
    lemma_words_clean();
    let ts = dec_rep(e.timestamp as nat);
    let pid = dec_rep(e.pid as nat);
    let w_et = effect_word(e.effect_type);
    let w_pt = path_type_word(e.path_type);
    crate::text::lemma_dec_rep_digits(e.timestamp as nat);
    crate::text::lemma_dec_rep_digits(e.pid as nat);
    crate::text::lemma_dec_val_of_rep(e.timestamp as nat);
    crate::text::lemma_dec_val_of_rep(e.pid as nat);
    lemma_digits_clean(ts);
    lemma_digits_clean(pid);
    let h = spec_header(e);
    let r1 = ts + seq![' '] + (w_et + seq![' '] + w_pt + seq![' ', 'p', 'i', 'd', ':'] + pid);
    assert(h.subrange(2, h.len() as int) =~= r1);
    lemma_find_char_append(ts, ' ', w_et + seq![' '] + w_pt + seq![' ', 'p', 'i', 'd', ':'] + pid);
    assert(ts + seq![' '] + (w_et + seq![' '] + w_pt + seq![' ', 'p', 'i', 'd', ':'] + pid) =~= ts
        + seq![' '] + w_et + seq![' '] + w_pt + seq![' ', 'p', 'i', 'd', ':'] + pid);
    assert(find_char(r1, ' ') == ts.len());
    assert(r1.subrange(0, ts.len() as int) =~= ts);
    let r2 = w_et + seq![' '] + (w_pt + seq![' ', 'p', 'i', 'd', ':'] + pid);
    assert(r1.subrange(ts.len() as int + 1, r1.len() as int) =~= r2);
    lemma_find_char_append(w_et, ' ', w_pt + seq![' ', 'p', 'i', 'd', ':'] + pid);
    assert(w_et + seq![' '] + (w_pt + seq![' ', 'p', 'i', 'd', ':'] + pid) =~= w_et + seq![' ']
        + w_pt + seq![' ', 'p', 'i', 'd', ':'] + pid);
    assert(find_char(r2, ' ') == w_et.len());
    assert(r2.subrange(0, w_et.len() as int) =~= w_et);
    let r3 = w_pt + seq![' '] + (seq!['p', 'i', 'd', ':'] + pid);
    assert(r2.subrange(w_et.len() as int + 1, r2.len() as int) =~= r3);
    lemma_find_char_append(w_pt, ' ', seq!['p', 'i', 'd', ':'] + pid);
    assert(w_pt + seq![' '] + (seq!['p', 'i', 'd', ':'] + pid) =~= w_pt + seq![' '] + seq![
        'p',
        'i',
        'd',
        ':',
    ] + pid);
    assert(find_char(r3, ' ') == w_pt.len());
    assert(r3.subrange(0, w_pt.len() as int) =~= w_pt);
    let pid_tok = seq!['p', 'i', 'd', ':'] + pid;
    assert(r3.subrange(w_pt.len() as int + 1, r3.len() as int) =~= pid_tok);
    assert(pid_tok.len() >= 5);
    assert(pid_tok[0] == 'p' && pid_tok[1] == 'i' && pid_tok[2] == 'd' && pid_tok[3] == ':');
    assert(pid_tok.subrange(4, pid_tok.len() as int) =~= pid);
    lemma_effect_word_round_trip(e.effect_type);
    lemma_path_type_word_round_trip(e.path_type);
}

/// Parsing the textual form of a printable event recovers the event
/// exactly.
#[verifier::rlimit(100)]
pub proof fn lemma_parse_event_round_trip(e: EventModel)
    requires
        printable(e),
    ensures
        spec_parse_event(spec_event_str(e)) == Some(e),
{
    lemma_words_clean();
    crate::text::lemma_dec_rep_digits(e.timestamp as nat);
    crate::text::lemma_dec_rep_digits(e.pid as nat);
    lemma_digits_clean(dec_rep(e.timestamp as nat));
    lemma_digits_clean(dec_rep(e.pid as nat));
    let h = spec_header(e);
    let s = spec_event_str(e);
    let tail = seq!['>', ' '] + e.path_name + (match e.associated {
        Some(a) => seq!['\n', '>', ' '] + a,
        None => Seq::<char>::empty(),
    });
    assert(s =~= h + seq!['\n'] + tail);
    assert(no_char(h, '\n'));
    lemma_find_char_append(h, '\n', tail);
    assert(s.subrange(0, h.len() as int) =~= h);
    lemma_parse_header_round_trip(e);
    let rest = s.subrange(h.len() as int + 1, s.len() as int);
    assert(rest =~= tail);
    match e.associated {
        Some(a) => {
            let pre = seq!['>', ' '] + e.path_name;
            assert(no_char(pre, '\n'));
            assert(tail =~= pre + seq!['\n'] + (seq!['>', ' '] + a));
            lemma_find_char_append(pre, '\n', seq!['>', ' '] + a);
            assert(find_char(tail, '\n') == pre.len());
            assert(tail.subrange(0, pre.len() as int) =~= pre);
            let line3 = tail.subrange(pre.len() as int + 1, tail.len() as int);
            assert(line3 =~= seq!['>', ' '] + a);
            assert(pre.subrange(2, pre.len() as int) =~= e.path_name);
            assert(line3.subrange(2, line3.len() as int) =~= a);
            assert(spec_parse_event(s) matches Some(parsed) && parsed =~~= e);
        },
        None => {
            assert(no_char(tail, '\n'));
            lemma_find_char_none(tail, '\n');
            assert(tail.subrange(2, tail.len() as int) =~= e.path_name);
            assert(spec_parse_event(s) matches Some(parsed) && parsed =~~= e);
        },
    }
}

fn find_char_str(s: &str, c: char) -> (r: Option<usize>)
    ensures
        (match r {
            Some(i) => i < s@.len() && find_char(s@, c) == i as int,
            None => find_char(s@, c) == -1,
        }),
{
    let n = s.unicode_len();
    let mut i: usize = 0;
    while i < n
        invariant
            n == s@.len(),
            i <= n,
            forall|j: int| 0 <= j < i ==> s@[j] != c,
        decreases n - i,
    {
        if s.get_char(i) == c {
            proof {
                lemma_find_char_found(s@, c, i as int);
            }
            return Some(i);
        }
        i = i + 1;
    }
    proof {
        lemma_find_char_none(s@, c);
    }
    None
}

fn str_eq(a: &str, b: &str) -> (r: bool)
    ensures
        r == (a@ == b@),
{
    let na = a.unicode_len();
    let nb = b.unicode_len();
    if na != nb {
        return false;
    }
    let mut i: usize = 0;
    while i < na
        invariant
            na == a@.len(),
            na == b@.len(),
            i <= na,
            forall|j: int| 0 <= j < i ==> a@[j] == b@[j],
        decreases na - i,
    {
        if a.get_char(i) != b.get_char(i) {
            return false;
        }
        i = i + 1;
    }
    proof {
        assert(a@ =~= b@);
    }
    true
}

fn effect_from_str(w: &str) -> (r: Option<EffectType>)
    ensures
        r == effect_from_word(w@),
{
    proof {
        reveal_strlit("create");
        reveal_strlit("rename");
        reveal_strlit("link");
        reveal_strlit("delete");
        reveal_strlit("unexpected:cont");
        reveal_strlit("unexpected:assoc");
        assert("create"@ =~= effect_word(EffectType::Create));
        assert("rename"@ =~= effect_word(EffectType::Rename));
        assert("link"@ =~= effect_word(EffectType::Link));
        assert("delete"@ =~= effect_word(EffectType::Delete));
        assert("unexpected:cont"@ =~= effect_word(EffectType::Continuation));
        assert("unexpected:assoc"@ =~= effect_word(EffectType::Association));
    }
    if str_eq(w, "create") {
        Some(EffectType::Create)
    } else if str_eq(w, "rename") {
        Some(EffectType::Rename)
    } else if str_eq(w, "link") {
        Some(EffectType::Link)
    } else if str_eq(w, "delete") {
        Some(EffectType::Delete)
    } else if str_eq(w, "unexpected:cont") {
        Some(EffectType::Continuation)
    } else if str_eq(w, "unexpected:assoc") {
        Some(EffectType::Association)
    } else {
        None
    }
}

fn path_type_from_str(w: &str) -> (r: Option<PathType>)
    ensures
        r == path_type_from_word(w@),
{
    proof {
        reveal_strlit("dir");
        reveal_strlit("file");
        reveal_strlit("symlink");
        reveal_strlit("hardlink");
        reveal_strlit("blockdev");
        reveal_strlit("socket");
        reveal_strlit("unexpected:cont");
        reveal_strlit("unexpected:unknown");
        assert("dir"@ =~= path_type_word(PathType::Dir));
        assert("file"@ =~= path_type_word(PathType::File));
        assert("symlink"@ =~= path_type_word(PathType::Symlink));
        assert("hardlink"@ =~= path_type_word(PathType::Hardlink));
        assert("blockdev"@ =~= path_type_word(PathType::Blockdev));
        assert("socket"@ =~= path_type_word(PathType::Socket));
        assert("unexpected:cont"@ =~= path_type_word(PathType::Continuation));
        assert("unexpected:unknown"@ =~= path_type_word(PathType::Unknown));
    }
    if str_eq(w, "dir") {
        Some(PathType::Dir)
    } else if str_eq(w, "file") {
        Some(PathType::File)
    } else if str_eq(w, "symlink") {
        Some(PathType::Symlink)
    } else if str_eq(w, "hardlink") {
        Some(PathType::Hardlink)
    } else if str_eq(w, "blockdev") {
        Some(PathType::Blockdev)
    } else if str_eq(w, "socket") {
        Some(PathType::Socket)
    } else if str_eq(w, "unexpected:cont") {
        Some(PathType::Continuation)
    } else if str_eq(w, "unexpected:unknown") {
        Some(PathType::Unknown)
    } else {
        None
    }
}

fn parse_header_str(h: &str) -> (r: Option<(u64, EffectType, PathType, u32)>)
    ensures
        r == spec_parse_header(h@),
{
    let n = h.unicode_len();
    if n < 2 || h.get_char(0) != '@' || h.get_char(1) != ' ' {
        return None;
    }
    let r1 = h.substring_char(2, n);
    let n1 = r1.unicode_len();
    let sp1 = match find_char_str(r1, ' ') {
        Some(i) => i,
        None => {
            return None;
        },
    };
    let ts_tok = r1.substring_char(0, sp1);
    let r2 = r1.substring_char(sp1 + 1, n1);
    let n2 = r2.unicode_len();
    let sp2 = match find_char_str(r2, ' ') {
        Some(i) => i,
        None => {
            return None;
        },
    };
    let et_tok = r2.substring_char(0, sp2);
    let r3 = r2.substring_char(sp2 + 1, n2);
    let n3 = r3.unicode_len();
    let sp3 = match find_char_str(r3, ' ') {
        Some(i) => i,
        None => {
            return None;
        },
    };
    let pt_tok = r3.substring_char(0, sp3);
    let pid_tok = r3.substring_char(sp3 + 1, n3);
    let np = pid_tok.unicode_len();
    if np < 5 || pid_tok.get_char(0) != 'p' || pid_tok.get_char(1) != 'i' || pid_tok.get_char(2)
        != 'd' || pid_tok.get_char(3) != ':' {
        return None;
    }
    let pid_digits = pid_tok.substring_char(4, np);
    let ts = match parse_u64(ts_tok) {
        Some(v) => v,
        None => {
            return None;
        },
    };
    let pid = match parse_u32(pid_digits) {
        Some(v) => v,
        None => {
            return None;
        },
    };
    let et = match effect_from_str(et_tok) {
        Some(v) => v,
        None => {
            return None;
        },
    };
    let pt = match path_type_from_str(pt_tok) {
        Some(v) => v,
        None => {
            return None;
        },
    };
    Some((ts, et, pt, pid))
}

/// Reads an event back from its textual form; `None` when the text is not
/// a well-formed rendering.
pub fn parse_event_str(s: &str) -> (r: Option<Event>)
    ensures
        (match r {
            Some(ev) => spec_parse_event(s@) == Some(ev@),
            None => spec_parse_event(s@) is None,
        }),
{
    let n = s.unicode_len();
    let nl1 = match find_char_str(s, '\n') {
        Some(i) => i,
        None => {
            return None;
        },
    };
    let header = s.substring_char(0, nl1);
    let rest = s.substring_char(nl1 + 1, n);
    let (ts, et, pt, pid) = match parse_header_str(header) {
        Some(f) => f,
        None => {
            return None;
        },
    };
    let m = rest.unicode_len();
    match find_char_str(rest, '\n') {
        None => {
            if m >= 2 && rest.get_char(0) == '>' && rest.get_char(1) == ' ' {
                let ev = Event {
                    path_name: rest.substring_char(2, m).to_owned(),
                    associated: None,
                    timestamp: ts,
                    pid: pid,
                    path_type: pt,
                    effect_type: et,
                };
                proof {
                    assert(spec_parse_event(s@) matches Some(p) && p =~~= ev@);
                }
                Some(ev)
            } else {
                None
            }
        },
        Some(nl2) => {
            let line2 = rest.substring_char(0, nl2);
            let line3 = rest.substring_char(nl2 + 1, m);
            let l2n = line2.unicode_len();
            let l3n = line3.unicode_len();
            if l2n >= 2 && line2.get_char(0) == '>' && line2.get_char(1) == ' ' && l3n >= 2
                && line3.get_char(0) == '>' && line3.get_char(1) == ' ' {
                let ev = Event {
                    path_name: line2.substring_char(2, l2n).to_owned(),
                    associated: Some(line3.substring_char(2, l3n).to_owned()),
                    timestamp: ts,
                    pid: pid,
                    path_type: pt,
                    effect_type: et,
                };
                proof {
                    assert(spec_parse_event(s@) matches Some(p) && p =~~= ev@);
                }
                Some(ev)
            } else {
                None
            }
        },
    }
}

/// The textual form as bytes, ready for a subscriber's stream.
pub fn event_to_bytes(event: Event) -> (r: Vec<u8>)
    ensures
        r@ == vstd::utf8::encode_utf8(spec_event_str(event@)),
{
    let s = event_to_string(event);
    s.as_str().as_bytes_vec()
}

} // verus!
