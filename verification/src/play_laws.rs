//! What is played: which folder, which files, which cues, and how the player is called.

use crate::align::{cjk, flattened, pieced, pieced_lines, zipped, BiCueView};
use crate::captions::{block_captions, CueView};
use crate::command::WordView;
use crate::number::decimal;
use crate::play::{bilingual, first_beginning, folder, hits, id_char, is_id, law_file_with, law_hits, media, mpv_line, paired, shell_line, shell_safe, shell_word, text_at, up_to, video_id, Missing, SidecarFault};
use crate::text::{begins, contains_text, ends, find, lemma_find, lemma_find_some, lemma_joined_push, replaced, split, stands_at, trimmed};
use crate::text_laws::{law_replaced, lemma_split_two};
use crate::text_lemmas::{lacks, lemma_split_lacking};
use vstd::prelude::*;

verus! {

// ---- Pairing -------------------------------------------------------------------------------

/// Which text is found for a start.
proof fn lemma_text_at(s: Seq<CueView>, t: u64)
    ensures
        text_at(s, t) matches Some(x) ==> exists|k: int|
            0 <= k < s.len() && (#[trigger] s[k]).start_ms == t && s[k].text == x && forall|j: int|
                k < j < s.len() ==> (#[trigger] s[j]).start_ms != t,
        text_at(s, t) is None ==> forall|k: int| 0 <= k < s.len() ==> (#[trigger] s[k]).start_ms != t,
    decreases s.len(),
{
    if s.len() > 0 {
        let front = s.drop_last();
        lemma_text_at(front, t);
        if s.last().start_ms == t {
            assert(s[s.len() - 1].text == text_at(s, t)->0);
        } else {
            if let Some(x) = text_at(front, t) {
                let k = choose|k: int|
                    0 <= k < front.len() && (#[trigger] front[k]).start_ms == t && front[k].text == x
                        && forall|j: int| k < j < front.len() ==> (#[trigger] front[j]).start_ms != t;
                assert(s[k] == front[k]);
                assert forall|j: int| k < j < s.len() implies (#[trigger] s[j]).start_ms != t by {
                    if j < front.len() {
                        assert(s[j] == front[j]);
                    }
                }
            } else {
                assert forall|k: int| 0 <= k < s.len() implies (#[trigger] s[k]).start_ms != t by {
                    if k < front.len() {
                        assert(s[k] == front[k]);
                    }
                }
            }
        }
    }
}

/// Law: every English cue is kept with its times and its text. Its Chinese is the text of a cue
/// that starts at the same time, where there is one (of several the last), and nothing where there
/// is none.
pub proof fn law_paired(en: Seq<CueView>, zh: Seq<CueView>, i: int, k: int)
    requires
        0 <= i < en.len(),
    ensures
        paired(en, zh).len() == en.len(),
        paired(en, zh)[i].start_ms == en[i].start_ms,
        paired(en, zh)[i].end_ms == en[i].end_ms,
        paired(en, zh)[i].en == en[i].text,
        0 <= k < zh.len() && zh[k].start_ms == en[i].start_ms && (forall|j: int|
            k < j < zh.len() ==> (#[trigger] zh[j]).start_ms != en[i].start_ms) ==> paired(en, zh)[i].zh
            == zh[k].text,
        (forall|j: int| 0 <= j < zh.len() ==> (#[trigger] zh[j]).start_ms != en[i].start_ms) ==> paired(
            en,
            zh,
        )[i].zh.len() == 0,
{
    lemma_text_at(zh, en[i].start_ms);
}

/// Law: bilingual cues come from both sidecars, read as SRT; a fault in the English one is told
/// first.
pub proof fn law_bilingual(en: Seq<char>, zh: Seq<char>)
    ensures
        block_captions(en, false) matches Err(e) ==> bilingual(en, zh) == Err::<
            Seq<BiCueView>,
            SidecarFault,
        >(SidecarFault::English(e)),
        block_captions(en, false) is Ok ==> (block_captions(zh, false) matches Err(e) ==> bilingual(en, zh)
            == Err::<Seq<BiCueView>, SidecarFault>(SidecarFault::Chinese(e))),
        block_captions(en, false) matches Ok(a) ==> (block_captions(zh, false) matches Ok(b) ==> bilingual(
            en,
            zh,
        ) == Ok::<Seq<BiCueView>, SidecarFault>(paired(a, b))),
{
}

/// Law: translations are paired with cues as far as both go.
pub proof fn law_zipped(en: Seq<CueView>, zh: Seq<Seq<char>>, i: int)
    ensures
        zipped(en, zh).len() <= en.len(),
        zipped(en, zh).len() <= zh.len(),
        zipped(en, zh).len() == en.len() || zipped(en, zh).len() == zh.len(),
        0 <= i < en.len() && i < zh.len() ==> {
            let c = zipped(en, zh)[i];
            &&& c.start_ms == en[i].start_ms && c.end_ms == en[i].end_ms
            &&& c.en == en[i].text && c.zh == flattened(zh[i])
        },
{
}

// ---- One line ------------------------------------------------------------------------------

/// Whether a character stands in one of the blocks of Chinese and Japanese: punctuation and kana,
/// ideographs with their extensions, compatibility and full-width forms.
pub open spec fn east_asian(c: char) -> bool {
    let u = c as u32;
    (0x3000 <= u && u < 0x3100) || (0x3400 <= u && u < 0x4dc0) || (0x4e00 <= u && u < 0xa000) || (0xf900
        <= u && u < 0xfb00) || (0xff00 <= u && u < 0xfff0) || (0x20000 <= u && u < 0x2fa20)
}

/// Law: a piece is put behind a text with a space between where neither neighbour is East Asian,
/// and without one elsewhere; nothing is put behind, and nothing in front, without a space.
pub proof fn law_piece_spacing(acc: Seq<char>, piece: Seq<char>)
    ensures
        piece.len() == 0 ==> pieced(acc, piece) == acc,
        acc.len() == 0 ==> pieced(acc, piece) == piece,
        acc.len() > 0 && piece.len() > 0 && (east_asian(acc.last()) || east_asian(piece[0])) ==> pieced(
            acc,
            piece,
        ) == acc + piece,
        acc.len() > 0 && piece.len() > 0 && !east_asian(acc.last()) && !east_asian(piece[0]) ==> pieced(
            acc,
            piece,
        ) == acc + seq![' '] + piece,
{
    assert(acc.len() == 0 ==> acc + piece =~= piece);
    assert(acc.len() == 0 && piece.len() == 0 ==> acc =~= piece);
    if acc.len() > 0 && piece.len() > 0 {
        assert(cjk(acc.last()) == east_asian(acc.last()));
        assert(cjk(piece[0]) == east_asian(piece[0]));
    }
}

/// Law: a line on its own is trimmed; a line below others is trimmed and put behind what they are
/// on one line.
pub proof fn law_flattened_lines(a: Seq<char>, b: Seq<char>)
    requires
        lacks(b, '\n'),
    ensures
        flattened(b) == trimmed(b),
        flattened(a + seq!['\n'] + b) == pieced(flattened(a), trimmed(b)),
{
    lemma_split_lacking(b, '\n');
    lemma_split_two(a, b);
    let none = Seq::<Seq<char>>::empty();
    assert(seq![b].drop_last() =~= none);
    assert(pieced_lines(none) =~= Seq::<char>::empty());
    assert(Seq::<char>::empty() + trimmed(b) =~= trimmed(b));
    let ls = split(a, seq!['\n']);
    assert((ls + seq![b]).drop_last() =~= ls);
}

// ---- Addresses -----------------------------------------------------------------------------

/// What stands in front of a stop.
proof fn lemma_up_to(a: Seq<char>, x: Seq<char>, stops: Seq<char>)
    requires
        forall|i: int| 0 <= i < a.len() ==> !stops.contains(#[trigger] a[i]),
        x.len() > 0 ==> stops.contains(x[0]),
    ensures
        up_to(a + x, stops) == a,
    decreases a.len(),
{
    let s = a + x;
    if a.len() > 0 {
        let rest = a.drop_first();
        assert forall|i: int| 0 <= i < rest.len() implies !stops.contains(#[trigger] rest[i]) by {
            assert(rest[i] == a[i + 1]);
        }
        lemma_up_to(rest, x, stops);
        assert(s.drop_first() =~= rest + x);
        assert(s[0] == a[0]);
        assert(seq![a[0]] + rest =~= a);
    } else {
        assert(s =~= x);
    }
}

/// The first place of a pattern whose first character does not occur before it.
proof fn lemma_first_place(front: Seq<char>, p: Seq<char>, rest: Seq<char>)
    requires
        p.len() > 0,
        lacks(front, p[0]),
    ensures
        find(front + p + rest, p) == Some(front.len() as int),
        split(front + p + rest, p) == seq![front] + split(rest, p),
{
    let s = front + p + rest;
    let n = front.len() as int;
    assert(s.subrange(n, n + p.len()) =~= p);
    assert forall|j: int| 0 <= j < n implies !stands_at(s, j, p) by {
        if stands_at(s, j, p) {
            assert(s.subrange(j, j + p.len())[0] == s[j]);
            assert(s[j] == front[j]);
        }
    }
    lemma_find_some(s, p, n);
    assert(s.take(n) =~= front);
    assert(s.skip(n + p.len()) =~= rest);
}

/// The first piece of an id with something behind it.
proof fn lemma_id_piece(id: Seq<char>, rest: Seq<char>, p: Seq<char>, k: int, stops: Seq<char>)
    requires
        is_id(id),
        rest.len() > 0 ==> stops.contains(rest[0]),
        0 <= k < p.len(),
        !id_char(p[k]),
        forall|i: int| 0 <= i < p.len() ==> !stops.contains(#[trigger] p[i]),
        forall|c: char| stops.contains(c) ==> !id_char(c),
    ensures
        split(id + rest, p).len() > 0,
        up_to(split(id + rest, p)[0], stops) == id,
{
    let t = id + rest;
    lemma_find(t, p);
    assert forall|i: int| 0 <= i < id.len() implies !stops.contains(#[trigger] id[i]) by {
        assert(id_char(id[i]));
    }
    match find(t, p) {
        Some(i) => {
            assert(t.subrange(i, i + p.len())[k] == t[i + k]);
            if i + k < id.len() {
                assert(id_char(id[i + k]));
            }
            if i <= id.len() {
                let m = id.len() as int;
                assert(t[m] == rest[0]);
                assert(t.subrange(i, i + p.len())[m - i] == t[m]);
                assert(stops.contains(p[m - i]));
            }
            let x = rest.take(i - id.len());
            assert(t.take(i) =~= id + x);
            lemma_up_to(id, x, stops);
        },
        None => {
            lemma_up_to(id, rest, stops);
        },
    }
}

/// Law: an address with `v=` names the id behind it, up to `&` or `#`.
pub proof fn law_watch_address(front: Seq<char>, id: Seq<char>, rest: Seq<char>)
    requires
        is_id(id),
        lacks(front, 'v'),
        rest.len() > 0 ==> rest[0] == '&' || rest[0] == '#',
    ensures
        video_id(front + seq!['v', '='] + (id + rest)) == Some(id),
{
    reveal_strlit("v=");
    let p = seq!['v', '='];
    assert("v="@ =~= p);
    let stops = seq!['&', '#'];
    assert(stops[0] == '&' && stops[1] == '#');
    assert(!stops.contains('v') && !stops.contains('='));
    lemma_first_place(front, p, id + rest);
    lemma_id_piece(id, rest, p, 1, stops);
    let s = front + p + (id + rest);
    assert(split(s, p)[1] == split(id + rest, p)[0]);
}

/// Law: a short address names the id behind the host, up to `?`, `&` or `#`, where it has no `v=`.
pub proof fn law_short_address(front: Seq<char>, id: Seq<char>, rest: Seq<char>)
    requires
        is_id(id),
        lacks(front, 'y'),
        rest.len() > 0 ==> rest[0] == '?' || rest[0] == '&' || rest[0] == '#',
        !contains_text(front + seq!['y', 'o', 'u', 't', 'u', '.', 'b', 'e', '/'] + (id + rest), "v="@),
    ensures
        video_id(front + seq!['y', 'o', 'u', 't', 'u', '.', 'b', 'e', '/'] + (id + rest)) == Some(id),
{
    reveal_strlit("youtu.be/");
    let p = seq!['y', 'o', 'u', 't', 'u', '.', 'b', 'e', '/'];
    assert("youtu.be/"@ =~= p);
    let stops = seq!['?', '&', '#'];
    assert(stops[0] == '?' && stops[1] == '&' && stops[2] == '#');
    assert forall|i: int| 0 <= i < p.len() implies !stops.contains(#[trigger] p[i]) by {
        assert(p[i] != '?' && p[i] != '&' && p[i] != '#');
    }
    lemma_first_place(front, p, id + rest);
    lemma_id_piece(id, rest, p, 5, stops);
    let s = front + p + (id + rest);
    assert(split(s, "v="@) == seq![s]);
    assert(split(s, p)[1] == split(id + rest, p)[0]);
}

/// Law: what is named is always eleven letters, digits, dashes and underscores.
pub proof fn law_named_id(target: Seq<char>)
    ensures
        video_id(target) matches Some(id) ==> id.len() == 11 && forall|i: int|
            0 <= i < 11 ==> {
                let c = #[trigger] id[i];
                ('0' <= c && c <= '9') || ('A' <= c && c <= 'Z') || ('a' <= c && c <= 'z') || c == '-' || c
                    == '_'
            },
{
    if let Some(id) = video_id(target) {
        assert forall|i: int| 0 <= i < 11 implies id_char(#[trigger] id[i]) by {}
    }
}

// ---- Folders and files ---------------------------------------------------------------------

/// Which name is the first to begin like this.
proof fn lemma_first_beginning(names: Seq<Seq<char>>, p: Seq<char>)
    requires
        names.len() <= usize::MAX,
    ensures
        match first_beginning(names, p) {
            Some(i) => i < names.len() && begins(names[i as int], p) && forall|j: int|
                0 <= j < i ==> !begins(#[trigger] names[j], p),
            None => forall|j: int| 0 <= j < names.len() ==> !begins(#[trigger] names[j], p),
        },
    decreases names.len(),
{
    if names.len() > 0 {
        let front = names.drop_last();
        lemma_first_beginning(front, p);
        match first_beginning(front, p) {
            Some(i) => {
                assert(names[i as int] == front[i as int]);
                assert forall|j: int| 0 <= j < i implies !begins(#[trigger] names[j], p) by {
                    assert(names[j] == front[j]);
                }
            },
            None => {
                assert forall|j: int| 0 <= j < names.len() - 1 implies !begins(#[trigger] names[j], p) by {
                    assert(names[j] == front[j]);
                }
            },
        }
    }
}

/// Law: a folder is named by an id that its name begins with, in brackets (of several the first);
/// else by a needle that the lower-case name of it alone holds. Where no name holds the needle
/// there is no folder, and where several do, all of them are told, in order.
pub proof fn law_folder(names: Seq<Seq<char>>, lowered: Seq<Seq<char>>, target: Seq<char>, needle: Seq<char>, i: int, j: int)
    requires
        names.len() == lowered.len() <= usize::MAX,
        0 <= i < names.len(),
        0 <= j < names.len(),
    ensures
        ({
            let r = folder(names, lowered, target, needle);
            let by_id = |k: int|
                video_id(target) matches Some(id) && begins(names[k], seq!['['] + id + seq![']']);
            &&& by_id(i) && (forall|k: int| #![trigger names[k]] 0 <= k < i ==> !by_id(k)) ==> r == Ok::<
                usize,
                Option<Seq<usize>>,
            >(i as usize)
            &&& (forall|k: int| #![trigger names[k]] 0 <= k < names.len() ==> !by_id(k)) ==> {
                &&& contains_text(lowered[i], needle) && (forall|k: int|
                    0 <= k < names.len() && k != i ==> !contains_text(#[trigger] lowered[k], needle)) ==> r
                    == Ok::<usize, Option<Seq<usize>>>(i as usize)
                &&& (forall|k: int| 0 <= k < names.len() ==> !contains_text(#[trigger] lowered[k], needle))
                    ==> r == Err::<usize, Option<Seq<usize>>>(None)
                &&& i < j && contains_text(lowered[i], needle) && contains_text(lowered[j], needle)
                    ==> (r matches Err(Some(v)) && v.contains(i as usize) && v.contains(j as usize))
            }
        }),
{
    if let Some(id) = video_id(target) {
        lemma_first_beginning(names, seq!['['] + id + seq![']']);
    }
    law_hits(lowered, needle);
    let h = hits(lowered, needle);
    if h.len() > 0 {
        assert(contains_text(lowered[h[0] as int], needle));
    }
    if h.len() > 1 {
        assert(contains_text(lowered[h[1] as int], needle));
        assert(h[0] < h[1]);
    }
    if contains_text(lowered[i], needle) && contains_text(lowered[j], needle) && i < j {
        let a = choose|a: int| 0 <= a < h.len() && h[a] == i as usize;
        let b = choose|b: int| 0 <= b < h.len() && h[b] == j as usize;
        assert(h.contains(i as usize) && h.contains(j as usize));
        assert(a != b);
    }
    if contains_text(lowered[i], needle) {
        assert(h.contains(i as usize));
    }
}

/// Law: what is played is an `.m4a` where there is one, else an `.mkv` without burned-in subtitles,
/// with the two sidecars; where something is missing that is told, the sound first, then the
/// English, then the Chinese.
pub proof fn law_media(names: Seq<Seq<char>>, k: int)
    requires
        names.len() <= usize::MAX,
        0 <= k < names.len(),
    ensures
        media(names) matches Ok(f) ==> {
            &&& f.audio < names.len() && f.en_srt < names.len() && f.zh_srt < names.len()
            &&& ends(names[f.en_srt as int], ".en.srt"@) && ends(names[f.zh_srt as int], ".zh.srt"@)
            &&& ends(names[f.audio as int], ".m4a"@) || (ends(names[f.audio as int], ".mkv"@) && !ends(
                names[f.audio as int],
                ".hardsub.mkv"@,
            ))
            &&& ends(names[k], ".m4a"@) ==> ends(names[f.audio as int], ".m4a"@)
        },
        media(names) matches Err(Missing::Audio) ==> !ends(names[k], ".m4a"@),
        media(names) matches Err(Missing::English) ==> !ends(names[k], ".en.srt"@),
        media(names) matches Err(Missing::Chinese) ==> !ends(names[k], ".zh.srt"@),
        ends(names[k], ".m4a"@) ==> !(media(names) matches Err(Missing::Audio)),
        media(names) matches Err(Missing::Chinese) ==> exists|i: int|
            0 <= i < names.len() && ends(#[trigger] names[i], ".en.srt"@),
{
    law_file_with(names, ".m4a"@);
    law_file_with(names, ".mkv"@);
    law_file_with(names, ".en.srt"@);
    law_file_with(names, ".zh.srt"@);
}

// ---- The command line ----------------------------------------------------------------------

/// What a shell makes of a word: between single quotes every character stands for itself, and
/// outside of them so does the character behind a backslash.
pub open spec fn shell_reads(s: Seq<char>, quoted: bool) -> Seq<char>
    decreases s.len(),
{
    if s.len() == 0 {
        Seq::empty()
    } else if s[0] == '\'' {
        shell_reads(s.drop_first(), !quoted)
    } else if !quoted && s[0] == '\\' && s.len() > 1 {
        seq![s[1]] + shell_reads(s.skip(2), quoted)
    } else {
        seq![s[0]] + shell_reads(s.drop_first(), quoted)
    }
}

/// Text without quotes and backslashes stands for itself.
proof fn lemma_reads_plain(s: Seq<char>)
    requires
        lacks(s, '\''),
        lacks(s, '\\'),
    ensures
        shell_reads(s, false) == s,
    decreases s.len(),
{
    if s.len() > 0 {
        let rest = s.drop_first();
        assert forall|i: int| 0 <= i < rest.len() implies #[trigger] rest[i] != '\'' && rest[i] != '\\' by {
            assert(rest[i] == s[i + 1]);
        }
        lemma_reads_plain(rest);
        assert(seq![s[0]] + rest =~= s);
    }
}

/// What a shell makes of quoted text and a quote behind it.
proof fn lemma_reads_quoted(s: Seq<char>)
    ensures
        shell_reads(replaced(s, seq!['\''], seq!['\'', '\\', '\'', '\'']) + seq!['\''], true) == s,
    decreases s.len(),
{
    let p = seq!['\''];
    let e = seq!['\'', '\\', '\'', '\''];
    let x = replaced(s, p, e) + p;
    law_replaced(s, p, e);
    reveal_with_fuel(shell_reads, 2);
    if s.len() == 0 {
        assert(x =~= p);
        assert(x.drop_first() =~= Seq::<char>::empty());
        assert(shell_reads(x, true) =~= s);
    } else {
        let rest = s.drop_first();
        lemma_reads_quoted(rest);
        let y = replaced(rest, p, e) + p;
        assert(s.skip(1) =~= rest);
        assert(s.take(1) =~= seq![s[0]]);
        if s[0] == '\'' {
            assert(s.take(1) =~= p);
            assert(x =~= e + y);
            let x1 = x.drop_first();
            assert(x1[0] == '\\' && x1[1] == '\'');
            let x2 = x1.skip(2);
            assert(x2[0] == '\'');
            assert(x2.drop_first() =~= y);
            assert(shell_reads(x, true) == shell_reads(x1, false));
            assert(shell_reads(x1, false) == seq!['\''] + shell_reads(x2, false));
            assert(shell_reads(x2, false) == shell_reads(y, true));
            assert(seq!['\''] + rest =~= s);
        } else {
            assert(s.take(1)[0] != p[0]);
            assert(x =~= seq![s[0]] + y);
            assert(x.drop_first() =~= y);
            assert(seq![s[0]] + rest =~= s);
        }
    }
}

/// Law: a shell reads a quoted word back as the word; what is not quoted holds letters, digits and
/// harmless marks only.
pub proof fn law_shell_word(s: Seq<char>)
    ensures
        shell_reads(shell_word(s), false) == s,
        shell_word(s) == s ==> forall|i: int|
            0 <= i < s.len() ==> {
                let c = #[trigger] s[i];
                ('0' <= c && c <= '9') || ('A' <= c && c <= 'Z') || ('a' <= c && c <= 'z') || c == '-' || c
                    == '_' || c == '=' || c == '.' || c == '/' || c == ':' || c == ','
            },
        shell_word(s) != s ==> shell_word(s)[0] == '\'' && shell_word(s).last() == '\'',
{
    reveal_strlit("-_=./:,");
    reveal_strlit("'\\''");
    let e = seq!['\'', '\\', '\'', '\''];
    assert("'\\''"@ =~= e);
    let safe = "-_=./:,"@;
    if forall|i: int| 0 <= i < s.len() ==> shell_safe(#[trigger] s[i]) {
        assert forall|i: int| 0 <= i < s.len() implies {
            let c = #[trigger] s[i];
            ('0' <= c && c <= '9') || ('A' <= c && c <= 'Z') || ('a' <= c && c <= 'z') || c == '-' || c == '_'
                || c == '=' || c == '.' || c == '/' || c == ':' || c == ','
        } by {
            assert(shell_safe(s[i]));
            if safe.contains(s[i]) {
                let k = choose|k: int| 0 <= k < safe.len() && safe[k] == s[i];
            }
        }
        lemma_reads_plain(s);
    } else {
        let inner = replaced(s, seq!['\''], e);
        let w = shell_word(s);
        assert(w =~= seq!['\''] + (inner + seq!['\'']));
        assert(w.drop_first() =~= inner + seq!['\'']);
        lemma_reads_quoted(s);
        assert(shell_reads(w, false) == s);
        if w == s {
            lemma_replaced_grows(s);
        }
    }
}

/// Quoting does not make a text shorter.
proof fn lemma_replaced_grows(s: Seq<char>)
    ensures
        replaced(s, seq!['\''], seq!['\'', '\\', '\'', '\'']).len() >= s.len(),
    decreases s.len(),
{
    let p = seq!['\''];
    law_replaced(s, p, seq!['\'', '\\', '\'', '\'']);
    if s.len() > 0 {
        lemma_replaced_grows(s.drop_first());
        assert(s.skip(1) =~= s.drop_first());
        assert(s.take(1) =~= seq![s[0]]);
        if s[0] == '\'' {
            assert(s.take(1) =~= p);
        } else {
            assert(s.take(1)[0] != p[0]);
        }
    }
}

/// Law: words are written one behind the other with a space between.
pub proof fn law_shell_line(ws: Seq<Seq<char>>, w: Seq<char>)
    ensures
        ws.len() == 0 ==> shell_line(ws.push(w)) == shell_word(w),
        ws.len() > 0 ==> shell_line(ws.push(w)) == shell_line(ws) + seq![' '] + shell_word(w),
{
    let a = Seq::new(ws.len(), |i: int| shell_word(ws[i]));
    let b = Seq::new(ws.push(w).len(), |i: int| shell_word(ws.push(w)[i]));
    assert(b =~= a.push(shell_word(w)));
    if ws.len() > 0 {
        lemma_joined_push(a, shell_word(w), seq![' ']);
    }
}

/// Law: the player opens a window of its own without a border, on top, that stays open and shows no
/// picture; it is told the window's size and the subtitle file, whose own styles count, then what
/// the user passes through, word by word, and last the file to play.
pub proof fn law_mpv_line(geometry: (u32, u32), ass: Seq<char>, args: Seq<Seq<char>>)
    ensures
        ({
            let w = mpv_line(geometry, ass, args);
            &&& w.len() == args.len() + 12
            &&& w[0] == WordView::Text("mpv"@)
            &&& w[1] == WordView::Text("--title=diolingo"@)
            &&& w[2] == WordView::Text("--force-window=immediate"@)
            &&& w[4] == WordView::Text("--ontop"@)
            &&& w[5] == WordView::Text("--border=no"@)
            &&& w[6] == WordView::Text("--keep-open=yes"@)
            &&& w[7] == WordView::Text("--vid=no"@)
            &&& w[8] == WordView::Text("--audio-display=no"@)
            &&& w[9] == WordView::Text("--sub-ass-override=no"@)
            &&& w[3] == WordView::Text(
                "--geometry="@ + decimal(geometry.0 as nat) + "x"@ + decimal(geometry.1 as nat),
            )
            &&& w[10] == WordView::Text("--sub-file="@ + ass)
            &&& forall|i: int| 0 <= i < args.len() ==> w[11 + i] == WordView::Text(#[trigger] args[i])
            &&& w.last() == WordView::Path(0)
        }),
{
}

/// Law: a video without burned-in subtitles is played where there is no `.m4a` and every `.mkv` is
/// one, and nothing is missing with both sidecars.
pub proof fn law_video_played(names: Seq<Seq<char>>, k: int, i: int, j: int)
    requires
        names.len() <= usize::MAX,
        0 <= k < names.len(),
        0 <= i < names.len(),
        0 <= j < names.len(),
        ends(names[k], ".mkv"@),
        forall|a: int|
            0 <= a < names.len() && ends(#[trigger] names[a], ".mkv"@) ==> !ends(names[a], ".hardsub.mkv"@),
        ends(names[i], ".en.srt"@),
        ends(names[j], ".zh.srt"@),
    ensures
        media(names) is Ok,
{
    law_file_with(names, ".m4a"@);
    law_file_with(names, ".mkv"@);
    law_file_with(names, ".en.srt"@);
    law_file_with(names, ".zh.srt"@);
}

} // verus!
