//! Background audio with a bilingual-subtitle window (mpv).

use crate::align::{bicue_views, BiCue, BiCueView};
use crate::captions::{block_captions, cue_views, parse_srt, CaptionError, CaptionFault, Cue, CueView};
use crate::command::{add_path, add_text, add_texts, text_words, word_views, Word, WordView};
use crate::number::{decimal, push_decimal};
use crate::subs::{ass_document, player_style, write_ass, AssStyle, Order};
use crate::text::{before, begins, contains_text, ends, joined, lemma_find_some, replaced, split, stands_at, string_texts, texts};
use crate::text::{chars_of, ends_with, has_char, is_before, join, position, push_all, push_str, replace, split_text, starts_with, string_of};
use crate::text_lemmas::lemma_find_absent;
use crate::ytdlp::{address, Info};
use std::collections::HashMap;
use vstd::prelude::*;
use vstd::slice::slice_to_vec;

verus! {

broadcast use vstd::std_specs::hash::group_hash_axioms;

// ---- Bilingual cues from the sidecars ------------------------------------------------------

/// The text of the last cue that starts at `t`.
pub open spec fn text_at(s: Seq<CueView>, t: u64) -> Option<Seq<char>>
    decreases s.len(),
{
    if s.len() == 0 {
        None
    } else if s.last().start_ms == t {
        Some(s.last().text)
    } else {
        text_at(s.drop_last(), t)
    }
}

/// The English cues, each with the Chinese that starts with it, or with none.
pub open spec fn paired(en: Seq<CueView>, zh: Seq<CueView>) -> Seq<BiCueView> {
    Seq::new(
        en.len(),
        |i: int|
            BiCueView {
                start_ms: en[i].start_ms,
                end_ms: en[i].end_ms,
                en: en[i].text,
                zh: match text_at(zh, en[i].start_ms) {
                    Some(t) => t,
                    None => Seq::empty(),
                },
            },
    )
}

/// The text of every start.
fn texts_by_start(zh: &Vec<Cue>) -> (r: HashMap<u64, String>)
    ensures
        forall|t: u64| #[trigger]
            r@.contains_key(t) <==> text_at(cue_views(zh@), t) is Some,
        forall|t: u64| #[trigger]
            r@.contains_key(t) ==> text_at(cue_views(zh@), t) == Some(r@[t]@),
{
    let mut m: HashMap<u64, String> = HashMap::new();
    let ghost all = cue_views(zh@);
    for i in 0..zh.len()
        invariant
            all == cue_views(zh@),
            forall|t: u64| #[trigger]
                m@.contains_key(t) <==> text_at(all.take(i as int), t) is Some,
            forall|t: u64| #[trigger]
                m@.contains_key(t) ==> text_at(all.take(i as int), t) == Some(m@[t]@),
    {
        assert(all.take(i + 1).drop_last() =~= all.take(i as int));
        assert(all.take(i + 1).last() == zh@[i as int]@);
        m.insert(zh[i].start_ms, zh[i].text.clone());
    }
    assert(all.take(all.len() as int) =~= all);
    m
}

/// Pairs English and Chinese cues by their starts.
pub fn pair_cues(en: &Vec<Cue>, zh: &Vec<Cue>) -> (r: Vec<BiCue>)
    ensures
        bicue_views(r@) == paired(cue_views(en@), cue_views(zh@)),
{
    let zh_by_start = texts_by_start(zh);
    let ghost all = paired(cue_views(en@), cue_views(zh@));
    let mut out: Vec<BiCue> = Vec::new();
    assert(bicue_views(out@) =~= all.take(0));
    for i in 0..en.len()
        invariant
            all == paired(cue_views(en@), cue_views(zh@)),
            bicue_views(out@) == all.take(i as int),
            forall|t: u64| #[trigger]
                zh_by_start@.contains_key(t) <==> text_at(cue_views(zh@), t) is Some,
            forall|t: u64| #[trigger]
                zh_by_start@.contains_key(t) ==> text_at(cue_views(zh@), t) == Some(
                    zh_by_start@[t]@,
                ),
    {
        let ghost so_far = bicue_views(out@);
        let c = &en[i];
        let text = match zh_by_start.get(&c.start_ms) {
            Some(t) => t.clone(),
            None => String::new(),
        };
        let cue = BiCue { start_ms: c.start_ms, end_ms: c.end_ms, en: c.text.clone(), zh: text };
        out.push(cue);
        assert(cue@.zh =~= all[i as int].zh);
        assert(cue@ =~= all[i as int]);
        assert(bicue_views(out@) =~= so_far.push(cue@));
        assert(all.take(i + 1) =~= all.take(i as int).push(all[i as int]));
    }
    assert(all.take(all.len() as int) =~= all);
    out
}

/// Which of the two sidecars cannot be read.
#[derive(Debug)]
pub enum SidecarError {
    English(CaptionError),
    Chinese(CaptionError),
}

/// What a `SidecarError` says.
pub enum SidecarFault {
    English(CaptionFault),
    Chinese(CaptionFault),
}

impl View for SidecarError {
    type V = SidecarFault;

    open spec fn view(&self) -> SidecarFault {
        match self {
            SidecarError::English(e) => SidecarFault::English(e@),
            SidecarError::Chinese(e) => SidecarFault::Chinese(e@),
        }
    }
}

/// The bilingual cues of the two sidecars' texts.
pub open spec fn bilingual(en: Seq<char>, zh: Seq<char>) -> Result<Seq<BiCueView>, SidecarFault> {
    match (block_captions(en, false), block_captions(zh, false)) {
        (Err(e), _) => Err(SidecarFault::English(e)),
        (Ok(_), Err(e)) => Err(SidecarFault::Chinese(e)),
        (Ok(en), Ok(zh)) => Ok(paired(en, zh)),
    }
}

/// What a result of `load_bilingual` holds.
pub open spec fn bilingual_outcome(r: Result<Vec<BiCue>, SidecarError>) -> Result<
    Seq<BiCueView>,
    SidecarFault,
> {
    match r {
        Ok(v) => Ok(bicue_views(v@)),
        Err(e) => Err(e@),
    }
}

/// Rebuild bilingual cues from the texts of the two single-language sidecars, which share
/// their timings; a cue with no Chinese line is kept with an empty `zh`.
pub fn load_bilingual(en_srt: &str, zh_srt: &str) -> (r: Result<Vec<BiCue>, SidecarError>)
    ensures
        bilingual_outcome(r) == bilingual(en_srt@, zh_srt@),
{
    let en = match parse_srt(en_srt) {
        Ok(v) => v,
        Err(e) => {
            return Err(SidecarError::English(e));
        },
    };
    let zh = match parse_srt(zh_srt) {
        Ok(v) => v,
        Err(e) => {
            return Err(SidecarError::Chinese(e));
        },
    };
    Ok(pair_cues(&en, &zh))
}

// ---- Finding a video's folder --------------------------------------------------------------

/// What stands in front of the first character of `stops`.
pub open spec fn up_to(s: Seq<char>, stops: Seq<char>) -> Seq<char>
    decreases s.len(),
{
    if s.len() == 0 || stops.contains(s[0]) {
        Seq::empty()
    } else {
        seq![s[0]] + up_to(s.drop_first(), stops)
    }
}

/// Whether `c` may stand in a video id.
pub open spec fn id_char(c: char) -> bool {
    '0' <= c <= '9' || 'A' <= c <= 'Z' || 'a' <= c <= 'z' || c == '-' || c == '_'
}

/// Whether `s` is a video id: eleven letters, digits, dashes and underscores.
pub open spec fn is_id(s: Seq<char>) -> bool {
    &&& s.len() == 11
    &&& forall|i: int| 0 <= i < s.len() ==> id_char(#[trigger] s[i])
}

/// Where a video id would stand in `target`.
pub open spec fn id_candidate(target: Seq<char>) -> Seq<char> {
    let by_query = split(target, "v="@);
    let by_host = split(target, "youtu.be/"@);
    if by_query.len() > 1 {
        up_to(by_query[1], seq!['&', '#'])
    } else if by_host.len() > 1 {
        up_to(by_host[1], seq!['?', '&', '#'])
    } else {
        target
    }
}

/// The video id that `target` names.
pub open spec fn video_id(target: Seq<char>) -> Option<Seq<char>> {
    if is_id(id_candidate(target)) {
        Some(id_candidate(target))
    } else {
        None
    }
}

/// What stands in front of the first stop.
fn cut_at(s: &[char], stops: &[char]) -> (r: Vec<char>)
    ensures
        r@ == up_to(s@, stops@),
{
    let mut out: Vec<char> = Vec::new();
    let mut i: usize = 0;
    assert(s@.skip(0) =~= s@);
    assert(out@ + up_to(s@, stops@) =~= up_to(s@, stops@));
    while i < s.len()
        invariant
            i <= s.len(),
            out@ + up_to(s@.skip(i as int), stops@) == up_to(s@, stops@),
        decreases s.len() - i,
    {
        let c = s[i];
        let ghost rest = s@.skip(i as int);
        assert(rest.drop_first() =~= s@.skip(i + 1));
        if has_char(stops, c) {
            assert(out@ + Seq::<char>::empty() =~= out@);
            return out;
        }
        let ghost so_far = out@;
        out.push(c);
        assert(so_far.push(c) + up_to(s@.skip(i + 1), stops@) =~= so_far + (seq![c] + up_to(
            s@.skip(i + 1),
            stops@,
        )));
        i = i + 1;
    }
    assert(s@.skip(s@.len() as int) =~= Seq::<char>::empty());
    assert(out@ + Seq::<char>::empty() =~= out@);
    out
}

/// Tests for a video id.
fn is_video_id(s: &[char]) -> (r: bool)
    ensures
        r == is_id(s@),
{
    if s.len() != 11 {
        return false;
    }
    for i in 0..s.len()
        invariant
            forall|j: int| 0 <= j < i ==> id_char(#[trigger] s@[j]),
    {
        let c = s[i];
        if !(('0' <= c && c <= '9') || ('A' <= c && c <= 'Z') || ('a' <= c && c <= 'z') || c == '-'
            || c == '_') {
            assert(!id_char(s@[i as int]));
            return false;
        }
    }
    true
}

/// An 11-character YouTube id, taken from a URL (`v=` or `youtu.be/`) or given bare.
pub fn youtube_id(target: &str) -> (r: Option<String>)
    ensures
        match r {
            Some(id) => video_id(target@) == Some(id@),
            None => video_id(target@) is None,
        },
{
    proof {
        reveal_strlit("v=");
        reveal_strlit("youtu.be/");
    }
    let t = chars_of(target);
    let by_query = split_text(t.as_slice(), chars_of("v=").as_slice());
    let by_host = split_text(t.as_slice(), chars_of("youtu.be/").as_slice());
    let candidate = if by_query.len() > 1 {
        let stops: Vec<char> = vec!['&', '#'];
        assert(stops@ =~= seq!['&', '#']);
        assert(by_query@[1]@ == crate::text::texts(by_query@)[1]);
        cut_at(by_query[1].as_slice(), stops.as_slice())
    } else if by_host.len() > 1 {
        let stops: Vec<char> = vec!['?', '&', '#'];
        assert(stops@ =~= seq!['?', '&', '#']);
        assert(by_host@[1]@ == crate::text::texts(by_host@)[1]);
        cut_at(by_host[1].as_slice(), stops.as_slice())
    } else {
        t
    };
    if is_video_id(candidate.as_slice()) {
        Some(string_of(candidate.as_slice()))
    } else {
        None
    }
}

/// Law: a bare video id names itself.
pub proof fn law_bare_id(id: Seq<char>)
    requires
        is_id(id),
    ensures
        video_id(id) == Some(id),
{
    reveal_strlit("v=");
    reveal_strlit("youtu.be/");
    assert forall|i: int| 0 <= i < id.len() implies #[trigger] id[i] != '=' && id[i] != '.' by {
        assert(id_char(id[i]));
    }
    lemma_find_absent(id, "v="@, 1);
    lemma_find_absent(id, "youtu.be/"@, 5);
    assert(split(id, "v="@) == seq![id]);
    assert(split(id, "youtu.be/"@) == seq![id]);
}

/// A video id holds no stop.
proof fn lemma_id_stays(s: Seq<char>, stops: Seq<char>)
    requires
        forall|i: int| 0 <= i < s.len() ==> !stops.contains(#[trigger] s[i]),
    ensures
        up_to(s, stops) == s,
    decreases s.len(),
{
    if s.len() > 0 {
        let rest = s.drop_first();
        assert forall|i: int| 0 <= i < rest.len() implies !stops.contains(#[trigger] rest[i]) by {
            assert(rest[i] == s[i + 1]);
        }
        lemma_id_stays(rest, stops);
        assert(seq![s[0]] + rest =~= s);
    }
}

/// Law: the address of a video names the video.
pub proof fn law_address_names_video(info: Info)
    requires
        info.url is None,
        is_id(info.id@),
    ensures
        video_id(address(info)) == Some(info.id@),
{
    reveal_strlit("v=");
    reveal_strlit("https://www.youtube.com/watch?v=");
    let id = info.id@;
    let front = "https://www.youtube.com/watch?v="@;
    let s = address(info);
    let n = front.len() - 2;
    assert(s.subrange(n, n + 2) =~= "v="@);
    assert forall|j: int| 0 <= j < n implies !stands_at(s, j, "v="@) by {
        if stands_at(s, j, "v="@) {
            assert(s.subrange(j, j + 2)[0] == s[j]);
            assert(s[j] == front[j]);
            assert(front[j] != 'v');
        }
    }
    lemma_find_some(s, "v="@, n);
    assert(s.skip(n + 2) =~= id);
    assert forall|i: int| 0 <= i < id.len() implies #[trigger] id[i] != '=' && !seq!['&', '#'].contains(id[i]) by {
        assert(id_char(id[i]));
    }
    lemma_find_absent(id, "v="@, 1);
    assert(split(id, "v="@) == seq![id]);
    lemma_id_stays(id, seq!['&', '#']);
}

/// `s` in lower case, as `str::to_lowercase` makes it.
pub uninterp spec fn lowercased(s: Seq<char>) -> Seq<char>;

/// `str::to_lowercase`: the lower-case equivalent of a text, which depends on the text alone. What
/// it is for each character is the Unicode tables' matter and is left unsaid.
#[verifier::external_body]
fn to_lowercase(s: &str) -> (r: String)
    ensures
        r@ == lowercased(s@),
{
    s.to_lowercase()
}

/// All of the texts in lower case.
pub open spec fn all_lowercased(s: Seq<Seq<char>>) -> Seq<Seq<char>> {
    Seq::new(s.len(), |i: int| lowercased(s[i]))
}

/// What the names of a video's files begin with.
pub open spec fn id_prefix(id: Seq<char>) -> Seq<char> {
    seq!['['] + id + seq![']']
}

/// The first name that begins with `p`.
pub open spec fn first_beginning(names: Seq<Seq<char>>, p: Seq<char>) -> Option<usize>
    decreases names.len(),
{
    if names.len() == 0 {
        None
    } else {
        match first_beginning(names.drop_last(), p) {
            Some(i) => Some(i),
            None => if begins(names.last(), p) {
                Some((names.len() - 1) as usize)
            } else {
                None
            },
        }
    }
}

/// The positions of the texts in which `p` stands.
pub open spec fn hits(s: Seq<Seq<char>>, p: Seq<char>) -> Seq<usize>
    decreases s.len(),
{
    if s.len() == 0 {
        Seq::empty()
    } else if contains_text(s.last(), p) {
        hits(s.drop_last(), p).push((s.len() - 1) as usize)
    } else {
        hits(s.drop_last(), p)
    }
}

/// Why a target names no folder.
#[derive(Debug, PartialEq, Eq)]
pub enum ResolveError {
    /// No folder's name matches.
    Nothing,
    /// The names at these positions all match.
    Several(Vec<usize>),
}

/// What a result of resolving says.
pub open spec fn resolved(r: Result<usize, ResolveError>) -> Result<usize, Option<Seq<usize>>> {
    match r {
        Ok(i) => Ok(i),
        Err(ResolveError::Nothing) => Err(None),
        Err(ResolveError::Several(v)) => Err(Some(v@)),
    }
}

/// The folder that a target names: the first whose name begins with its id in brackets, else the
/// only one that holds the needle in its lower-case name.
pub open spec fn folder(names: Seq<Seq<char>>, lowered: Seq<Seq<char>>, target: Seq<char>, needle: Seq<char>) -> Result<usize, Option<Seq<usize>>> {
    let by_id = match video_id(target) {
        Some(id) => first_beginning(names, id_prefix(id)),
        None => None,
    };
    match by_id {
        Some(i) => Ok(i),
        None => if hits(lowered, needle).len() == 0 {
            Err(None)
        } else if hits(lowered, needle).len() == 1 {
            Ok(hits(lowered, needle)[0])
        } else {
            Err(Some(hits(lowered, needle)))
        },
    }
}

/// The first name that begins with `p`.
pub fn find_beginning(names: &[String], p: &[char]) -> (r: Option<usize>)
    ensures
        r == first_beginning(string_texts(names@), p@),
{
    let ghost all = string_texts(names@);
    let mut found: Option<usize> = None;
    for i in 0..names.len()
        invariant
            all == string_texts(names@),
            found == first_beginning(all.take(i as int), p@),
    {
        assert(all.take(i + 1).drop_last() =~= all.take(i as int));
        if found.is_none() && starts_with(chars_of(names[i].as_str()).as_slice(), p) {
            found = Some(i);
        }
    }
    assert(all.take(all.len() as int) =~= all);
    found
}

/// The positions of the texts in which `p` stands.
fn find_hits(s: &[String], p: &[char]) -> (r: Vec<usize>)
    ensures
        r@ == hits(string_texts(s@), p@),
{
    let ghost all = string_texts(s@);
    let mut out: Vec<usize> = Vec::new();
    assert(out@ =~= hits(all.take(0), p@));
    for i in 0..s.len()
        invariant
            all == string_texts(s@),
            out@ == hits(all.take(i as int), p@),
    {
        assert(all.take(i + 1).drop_last() =~= all.take(i as int));
        if position(chars_of(s[i].as_str()).as_slice(), p).is_some() {
            out.push(i);
        }
    }
    assert(all.take(all.len() as int) =~= all);
    out
}

/// Chooses among folder names by the id in `target`, else by `needle` in their lower-case forms.
pub fn choose_dir(names: &[String], lowered: &[String], target: &str, needle: &str) -> (r: Result<usize, ResolveError>)
    ensures
        resolved(r) == folder(string_texts(names@), string_texts(lowered@), target@, needle@),
{
    if let Some(id) = youtube_id(target) {
        let mut prefix: Vec<char> = vec!['['];
        push_str(&mut prefix, id.as_str());
        prefix.push(']');
        assert(prefix@ =~= id_prefix(id@));
        if let Some(i) = find_beginning(names, prefix.as_slice()) {
            return Ok(i);
        }
    }
    let found = find_hits(lowered, chars_of(needle).as_slice());
    if found.len() == 0 {
        Err(ResolveError::Nothing)
    } else if found.len() == 1 {
        Ok(found[0])
    } else {
        Err(ResolveError::Several(found))
    }
}

/// Find the per-video folder among the names of those there are: by a `[<id>]` prefix (from a
/// bare id or a YouTube URL), or by a case-insensitive title substring that matches exactly one.
pub fn resolve_dir(names: &[String], target: &str) -> (r: Result<usize, ResolveError>)
    ensures
        resolved(r) == folder(
            string_texts(names@),
            all_lowercased(string_texts(names@)),
            target@,
            lowercased(target@),
        ),
{
    let ghost all = all_lowercased(string_texts(names@));
    let mut lowered: Vec<String> = Vec::new();
    for i in 0..names.len()
        invariant
            all == all_lowercased(string_texts(names@)),
            lowered@.len() == i,
            forall|j: int| 0 <= j < i ==> (#[trigger] lowered@[j])@ == all[j],
    {
        lowered.push(to_lowercase(names[i].as_str()));
    }
    assert(string_texts(lowered@) =~= all);
    choose_dir(names, lowered.as_slice(), target, to_lowercase(target).as_str())
}

/// Law: the matches are the positions whose text holds `p`, in ascending order.
pub proof fn law_hits(s: Seq<Seq<char>>, p: Seq<char>)
    requires
        s.len() <= usize::MAX,
    ensures
        forall|k: int|
            0 <= k < hits(s, p).len() ==> (#[trigger] hits(s, p)[k]) < s.len() && contains_text(
                s[hits(s, p)[k] as int],
                p,
            ),
        forall|j: int, k: int|
            0 <= j < k < hits(s, p).len() ==> (#[trigger] hits(s, p)[j]) < (#[trigger] hits(s, p)[k]),
        forall|i: int|
            0 <= i < s.len() && contains_text(#[trigger] s[i], p) ==> hits(s, p).contains(i as usize),
    decreases s.len(),
{
    if s.len() > 0 {
        let front = s.drop_last();
        law_hits(front, p);
        let (h, g) = (hits(s, p), hits(front, p));
        assert forall|k: int| 0 <= k < h.len() implies (#[trigger] h[k]) < s.len() && contains_text(
            s[h[k] as int],
            p,
        ) by {
            if k < g.len() {
                assert(h[k] == g[k]);
                assert(front[g[k] as int] == s[h[k] as int]);
            }
        }
        assert forall|j: int, k: int| 0 <= j < k < h.len() implies (#[trigger] h[j]) < (#[trigger] h[k]) by {
            assert(h[j] == g[j]);
            if k < g.len() {
                assert(h[k] == g[k]);
            }
        }
        assert forall|i: int| 0 <= i < s.len() && contains_text(#[trigger] s[i], p) implies h.contains(
            i as usize,
        ) by {
            if i < front.len() {
                assert(front[i] == s[i]);
                let k = choose|k: int| 0 <= k < g.len() && g[k] == i as usize;
                assert(h[k] == i as usize);
            } else {
                assert(h[h.len() - 1] == i as usize);
            }
        }
    }
}

// ---- The files of a folder -----------------------------------------------------------------

/// Of the names that end with `suffix`, the one that comes first in order.
pub open spec fn file_with(names: Seq<Seq<char>>, suffix: Seq<char>) -> Option<usize>
    decreases names.len(),
{
    if names.len() == 0 {
        None
    } else {
        let rest = file_with(names.drop_last(), suffix);
        let better = match rest {
            Some(k) => before(names.last(), names[k as int]),
            None => true,
        };
        if ends(names.last(), suffix) && better {
            Some((names.len() - 1) as usize)
        } else {
            rest
        }
    }
}

/// Law: the file that is found ends with the suffix, and no other such name comes before it; none
/// is found only where there is none.
pub proof fn law_file_with(names: Seq<Seq<char>>, suffix: Seq<char>)
    requires
        names.len() <= usize::MAX,
    ensures
        match file_with(names, suffix) {
            Some(i) => {
                &&& i < names.len()
                &&& ends(names[i as int], suffix)
                &&& forall|j: int|
                    0 <= j < names.len() && ends(#[trigger] names[j], suffix) ==> !before(
                        names[j],
                        names[i as int],
                    )
            },
            None => forall|j: int| 0 <= j < names.len() ==> !ends(#[trigger] names[j], suffix),
        },
    decreases names.len(),
{
    if names.len() > 0 {
        let front = names.drop_last();
        law_file_with(front, suffix);
        assert forall|j: int| 0 <= j < front.len() implies front[j] == #[trigger] names[j] by {}
        let last = names.last();
        match file_with(names, suffix) {
            Some(i) => {
                assert forall|j: int| 0 <= j < names.len() && ends(#[trigger] names[j], suffix) implies !before(
                    names[j],
                    names[i as int],
                ) by {
                    if i == names.len() - 1 {
                        if j == i {
                            crate::text::lemma_before_irreflexive(last);
                        } else {
                            let k = file_with(front, suffix)->0;
                            assert(!before(front[j], front[k as int]));
                            if before(names[j], last) {
                                crate::text::lemma_before_transitive(names[j], last, front[k as int]);
                            }
                        }
                    } else if j < front.len() {
                        assert(!before(front[j], front[i as int]));
                    }
                }
            },
            None => {
                assert forall|j: int| 0 <= j < names.len() implies !ends(#[trigger] names[j], suffix) by {
                    if j < front.len() {
                        assert(!ends(front[j], suffix));
                    }
                }
            },
        }
    }
}

/// The file whose name ends with `suffix`; of several, the first in order.
pub fn find_file(names: &[String], suffix: &str) -> (r: Option<usize>)
    ensures
        r == file_with(string_texts(names@), suffix@),
        r matches Some(i) ==> i < names@.len(),
{
    let end = chars_of(suffix);
    let ghost all = string_texts(names@);
    let mut found: Option<usize> = None;
    for i in 0..names.len()
        invariant
            all == string_texts(names@),
            end@ == suffix@,
            found == file_with(all.take(i as int), suffix@),
            found matches Some(k) ==> k < i,
    {
        let name = chars_of(names[i].as_str());
        assert(all.take(i + 1).drop_last() =~= all.take(i as int));
        assert(all.take(i + 1).last() == name@);
        let better = match found {
            Some(k) => {
                assert(all.take(i + 1)[k as int] == names@[k as int]@);
                is_before(name.as_slice(), chars_of(names[k].as_str()).as_slice())
            },
            None => true,
        };
        if better && ends_with(name.as_slice(), end.as_slice()) {
            found = Some(i);
        }
    }
    assert(all.take(all.len() as int) =~= all);
    found
}

/// The files that playing needs, by their positions.
#[derive(Debug, Clone, Copy, PartialEq, Eq)]
pub struct MediaFiles {
    pub audio: usize,
    pub en_srt: usize,
    pub zh_srt: usize,
}

/// Which file a folder lacks.
#[derive(Debug, Clone, Copy, PartialEq, Eq)]
pub enum Missing {
    Audio,
    English,
    Chinese,
}

/// What is played: the audio file, else a video that has no subtitles burned in.
pub open spec fn audio_file(names: Seq<Seq<char>>) -> Option<usize> {
    match file_with(names, ".m4a"@) {
        Some(i) => Some(i),
        None => match file_with(names, ".mkv"@) {
            Some(i) if !ends(names[i as int], ".hardsub.mkv"@) => Some(i),
            _ => None,
        },
    }
}

/// The files that playing needs.
pub open spec fn media(names: Seq<Seq<char>>) -> Result<MediaFiles, Missing> {
    match (audio_file(names), file_with(names, ".en.srt"@), file_with(names, ".zh.srt"@)) {
        (None, _, _) => Err(Missing::Audio),
        (Some(_), None, _) => Err(Missing::English),
        (Some(_), Some(_), None) => Err(Missing::Chinese),
        (Some(audio), Some(en_srt), Some(zh_srt)) => Ok(MediaFiles { audio, en_srt, zh_srt }),
    }
}

/// Finds the files that playing needs among the names of a folder's files.
pub fn media_files(names: &[String]) -> (r: Result<MediaFiles, Missing>)
    ensures
        r == media(string_texts(names@)),
{
    let audio = match find_file(names, ".m4a") {
        Some(i) => Some(i),
        None => match find_file(names, ".mkv") {
            Some(i) => {
                if ends_with(chars_of(names[i].as_str()).as_slice(), chars_of(".hardsub.mkv").as_slice()) {
                    None
                } else {
                    Some(i)
                }
            },
            None => None,
        },
    };
    match (audio, find_file(names, ".en.srt"), find_file(names, ".zh.srt")) {
        (None, _, _) => Err(Missing::Audio),
        (Some(_), None, _) => Err(Missing::English),
        (Some(_), Some(_), None) => Err(Missing::Chinese),
        (Some(audio), Some(en_srt), Some(zh_srt)) => Ok(MediaFiles { audio, en_srt, zh_srt }),
    }
}

// ---- The player's command line -------------------------------------------------------------

/// Whether `c` needs no quoting.
pub open spec fn shell_safe(c: char) -> bool {
    '0' <= c <= '9' || 'A' <= c <= 'Z' || 'a' <= c <= 'z' || "-_=./:,"@.contains(c)
}

/// A word as a shell reads it.
pub open spec fn shell_word(s: Seq<char>) -> Seq<char> {
    if forall|i: int| 0 <= i < s.len() ==> shell_safe(#[trigger] s[i]) {
        s
    } else {
        seq!['\''] + replaced(s, seq!['\''], "'\\''"@) + seq!['\'']
    }
}

/// Words as a shell reads them.
pub open spec fn shell_line(words: Seq<Seq<char>>) -> Seq<char> {
    joined(Seq::new(words.len(), |i: int| shell_word(words[i])), seq![' '])
}

/// Quotes a word where it must be.
fn quote_word(s: &[char]) -> (r: Vec<char>)
    ensures
        r@ == shell_word(s@),
{
    let safe = chars_of("-_=./:,");
    for i in 0..s.len()
        invariant
            safe@ == "-_=./:,"@,
            forall|j: int| 0 <= j < i ==> shell_safe(#[trigger] s@[j]),
    {
        let c = s[i];
        if !(('0' <= c && c <= '9') || ('A' <= c && c <= 'Z') || ('a' <= c && c <= 'z') || has_char(
            safe.as_slice(),
            c,
        )) {
            assert(!shell_safe(s@[i as int]));
            let quote: Vec<char> = vec!['\''];
            assert(quote@ =~= seq!['\'']);
            let inner = replace(s, quote.as_slice(), chars_of("'\\''").as_slice());
            let mut out: Vec<char> = vec!['\''];
            push_all(&mut out, inner.as_slice());
            out.push('\'');
            assert(out@ =~= shell_word(s@));
            return out;
        }
    }
    slice_to_vec(s)
}

/// Words as a shell reads them, quoted where they must be.
pub fn shell_words(words: &[String]) -> (r: String)
    ensures
        r@ == shell_line(string_texts(words@)),
{
    let ghost all = string_texts(words@);
    let mut quoted: Vec<Vec<char>> = Vec::new();
    for i in 0..words.len()
        invariant
            all == string_texts(words@),
            quoted@.len() == i,
            forall|j: int| 0 <= j < i ==> (#[trigger] quoted@[j])@ == shell_word(all[j]),
    {
        quoted.push(quote_word(chars_of(words[i].as_str()).as_slice()));
    }
    let space: Vec<char> = vec![' '];
    assert(space@ =~= seq![' ']);
    assert(texts(quoted@) =~= Seq::new(all.len(), |i: int| shell_word(all[i])));
    string_of(join(quoted.as_slice(), space.as_slice()).as_slice())
}

/// How to play a video.
pub struct PlayOpts<'a> {
    /// Video id, YouTube URL, part of the title, or a folder path.
    pub target: &'a str,
    pub geometry: (u32, u32),
    pub order: Order,
    pub font_en: &'a str,
    pub font_zh: &'a str,
    pub mpv_args: &'a [String],
    pub dry_run: bool,
}

/// What playing needs: the subtitle document, and the command line, whose path is the audio file.
#[derive(Debug)]
pub struct Playback {
    pub document: String,
    pub command: Vec<Word>,
}

/// The player's command line.
pub open spec fn mpv_line(geometry: (u32, u32), ass: Seq<char>, mpv_args: Seq<Seq<char>>) -> Seq<WordView> {
    text_words(
        seq![
            "mpv"@,
            "--title=diolingo"@,
            "--force-window=immediate"@,
            "--geometry="@ + decimal(geometry.0 as nat) + "x"@ + decimal(geometry.1 as nat),
            "--ontop"@,
            "--border=no"@,
            "--keep-open=yes"@,
            "--vid=no"@,
            "--audio-display=no"@,
            "--sub-ass-override=no"@,
            "--sub-file="@ + ass,
        ],
    ) + text_words(mpv_args) + seq![WordView::Path(0)]
}

/// Builds the player's command line.
fn mpv_command(geometry: (u32, u32), ass: &str, mpv_args: &[String]) -> (r: Vec<Word>)
    ensures
        word_views(r@) == mpv_line(geometry, ass@, string_texts(mpv_args@)),
{
    let mut size: Vec<char> = chars_of("--geometry=");
    push_decimal(&mut size, geometry.0 as u64);
    push_str(&mut size, "x");
    push_decimal(&mut size, geometry.1 as u64);
    let mut sub: Vec<char> = chars_of("--sub-file=");
    push_str(&mut sub, ass);
    let mut words: Vec<Word> = Vec::new();
    add_text(&mut words, "mpv");
    add_text(&mut words, "--title=diolingo");
    add_text(&mut words, "--force-window=immediate");
    add_text(&mut words, string_of(size.as_slice()).as_str());
    add_text(&mut words, "--ontop");
    add_text(&mut words, "--border=no");
    add_text(&mut words, "--keep-open=yes");
    add_text(&mut words, "--vid=no");
    add_text(&mut words, "--audio-display=no");
    add_text(&mut words, "--sub-ass-override=no");
    add_text(&mut words, string_of(sub.as_slice()).as_str());
    assert(word_views(words@) =~= text_words(
        seq![
            "mpv"@,
            "--title=diolingo"@,
            "--force-window=immediate"@,
            size@,
            "--ontop"@,
            "--border=no"@,
            "--keep-open=yes"@,
            "--vid=no"@,
            "--audio-display=no"@,
            "--sub-ass-override=no"@,
            sub@,
        ],
    ));
    add_texts(&mut words, mpv_args);
    add_path(&mut words, 0);
    assert(word_views(words@) =~= mpv_line(geometry, ass@, string_texts(mpv_args@)));
    words
}

/// What to write and run to play a video whose sidecars hold these texts, with the subtitle
/// document at the path `ass`.
pub fn run(opts: &PlayOpts, en_srt: &str, zh_srt: &str, ass: &str) -> (r: Result<Playback, SidecarError>)
    ensures
        match bilingual(en_srt@, zh_srt@) {
            Ok(cues) => {
                &&& r is Ok
                &&& r->Ok_0.document@ == ass_document(
                    cues,
                    opts.order,
                    player_style(opts.font_en, opts.font_zh, opts.geometry),
                )
                &&& word_views(r->Ok_0.command@) == mpv_line(
                    opts.geometry,
                    ass@,
                    string_texts(opts.mpv_args@),
                )
            },
            Err(e) => r is Err && r->Err_0@ == e,
        },
{
    let cues = match load_bilingual(en_srt, zh_srt) {
        Ok(v) => v,
        Err(e) => {
            return Err(e);
        },
    };
    let (w, h) = opts.geometry;
    let style = AssStyle::player(opts.font_en, opts.font_zh, w, h);
    Ok(
        Playback {
            document: write_ass(cues.as_slice(), opts.order, &style),
            command: mpv_command(opts.geometry, ass, opts.mpv_args),
        },
    )
}

} // verus!
