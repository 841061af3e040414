//! yt-dlp: picking caption tracks, fetching captions with retries, and the command lines.

use crate::command::{add_path, add_text, add_texts, text_words, word_views, Word, WordView};
use crate::number::{decimal, push_decimal};
use crate::text::{before, begins, joined, string_texts, texts, trimmed};
use crate::text::{chars_of, is_before, join, push_all, push_str, same, same_str, starts_with, string_of, trim};
use vstd::prelude::*;

verus! {

// ---- What yt-dlp reports -------------------------------------------------------------------

/// One format of a caption track.
#[derive(Debug, Clone)]
pub struct SubFormat {
    pub ext: String,
    pub url: Option<String>,
    pub name: Option<String>,
}

/// What a text that may be missing holds.
pub open spec fn text_of(s: Option<String>) -> Option<Seq<char>> {
    match s {
        Some(t) => Some(t@),
        None => None,
    }
}

/// What a `SubFormat` holds.
#[verifier::ext_equal]
pub struct SubFormatView {
    pub ext: Seq<char>,
    pub url: Option<Seq<char>>,
    pub name: Option<Seq<char>>,
}

impl View for SubFormat {
    type V = SubFormatView;

    open spec fn view(&self) -> SubFormatView {
        SubFormatView { ext: self.ext@, url: text_of(self.url), name: text_of(self.name) }
    }
}

/// What formats hold.
pub open spec fn format_views(s: Seq<SubFormat>) -> Seq<SubFormatView> {
    Seq::new(s.len(), |i: int| s[i]@)
}

/// Caption tracks by their keys, in the order of the keys.
#[derive(Debug, Clone)]
pub struct SubMap {
    entries: Vec<(String, Vec<SubFormat>)>,
}

/// What an entry of a `SubMap` holds.
#[verifier::ext_equal]
pub struct EntryView {
    pub key: Seq<char>,
    pub formats: Seq<SubFormatView>,
}

/// What the entries hold.
pub open spec fn entry_views(s: Seq<(String, Vec<SubFormat>)>) -> Seq<EntryView> {
    Seq::new(s.len(), |i: int| EntryView { key: s[i].0@, formats: format_views(s[i].1@) })
}

/// Whether the keys ascend, so that none occurs twice.
pub open spec fn ascending(s: Seq<EntryView>) -> bool {
    forall|i: int, j: int| 0 <= i < j < s.len() ==> before((#[trigger] s[i]).key, (#[trigger] s[j]).key)
}

/// The entries with one more, or with the formats of a key replaced, in the order of the keys.
pub open spec fn with_entry(s: Seq<EntryView>, e: EntryView) -> Seq<EntryView>
    decreases s.len(),
{
    if s.len() == 0 || before(e.key, s[0].key) {
        seq![e] + s
    } else if s[0].key == e.key {
        seq![e] + s.drop_first()
    } else {
        seq![s[0]] + with_entry(s.drop_first(), e)
    }
}

/// The formats of a key.
pub open spec fn formats_of(s: Seq<EntryView>, key: Seq<char>) -> Option<Seq<SubFormatView>>
    decreases s.len(),
{
    if s.len() == 0 {
        None
    } else if s[0].key == key {
        Some(s[0].formats)
    } else {
        formats_of(s.drop_first(), key)
    }
}

/// The rest of ascending entries ascends.
proof fn lemma_ascending_rest(s: Seq<EntryView>)
    requires
        ascending(s),
        s.len() > 0,
    ensures
        ascending(s.drop_first()),
        forall|i: int| 0 <= i < s.drop_first().len() ==> before(s[0].key, (#[trigger] s.drop_first()[i]).key),
{
    let rest = s.drop_first();
    assert forall|i: int| 0 <= i < rest.len() implies before(s[0].key, (#[trigger] rest[i]).key) by {
        assert(rest[i] == s[i + 1]);
    }
    assert forall|i: int, j: int| 0 <= i < j < rest.len() implies before(
        (#[trigger] rest[i]).key,
        (#[trigger] rest[j]).key,
    ) by {
        assert(rest[i] == s[i + 1] && rest[j] == s[j + 1]);
    }
}

/// An entry in front of entries with larger keys.
proof fn lemma_ascending_front(e: EntryView, s: Seq<EntryView>)
    requires
        ascending(s),
        forall|i: int| 0 <= i < s.len() ==> before(e.key, (#[trigger] s[i]).key),
    ensures
        ascending(seq![e] + s),
{
    let t = seq![e] + s;
    assert forall|i: int, j: int| 0 <= i < j < t.len() implies before(
        (#[trigger] t[i]).key,
        (#[trigger] t[j]).key,
    ) by {
        assert(t[j] == s[j - 1]);
        if i > 0 {
            assert(t[i] == s[i - 1]);
        }
    }
}

/// Whether a key occurs.
spec fn has_key(s: Seq<EntryView>, key: Seq<char>) -> bool {
    exists|j: int| 0 <= j < s.len() && (#[trigger] s[j]).key == key
}

/// Keys of `with_entry` are those that were there, and the new one.
proof fn lemma_with_entry_keys(s: Seq<EntryView>, e: EntryView)
    ensures
        forall|i: int|
            0 <= i < with_entry(s, e).len() ==> (#[trigger] with_entry(s, e)[i]).key == e.key || has_key(
                s,
                with_entry(s, e)[i].key,
            ),
    decreases s.len(),
{
    let r = with_entry(s, e);
    if s.len() > 0 && !before(e.key, s[0].key) && s[0].key != e.key {
        let rest = s.drop_first();
        lemma_with_entry_keys(rest, e);
        let q = with_entry(rest, e);
        assert forall|i: int| 0 <= i < r.len() implies (#[trigger] r[i]).key == e.key || has_key(s, r[i].key) by {
            if i == 0 {
                assert(s[0].key == r[0].key);
            } else {
                assert(r[i] == q[i - 1]);
                if q[i - 1].key != e.key {
                    let j = choose|j: int| 0 <= j < rest.len() && (#[trigger] rest[j]).key == q[i - 1].key;
                    assert(s[j + 1].key == r[i].key);
                }
            }
        }
    } else {
        assert forall|i: int| 0 <= i < r.len() implies (#[trigger] r[i]).key == e.key || has_key(s, r[i].key) by {
            if i > 0 {
                if s.len() == 0 || before(e.key, s[0].key) {
                    assert(r[i] == s[i - 1]);
                } else {
                    assert(r[i] == s.drop_first()[i - 1]);
                    assert(s[i].key == r[i].key);
                }
            }
        }
    }
}

/// Law: a map's keys stay in order, and none occurs twice.
pub proof fn law_with_entry_ascending(s: Seq<EntryView>, e: EntryView)
    requires
        ascending(s),
    ensures
        ascending(with_entry(s, e)),
    decreases s.len(),
{
    if s.len() == 0 {
        lemma_ascending_front(e, s);
    } else if before(e.key, s[0].key) {
        assert forall|i: int| 0 <= i < s.len() implies before(e.key, (#[trigger] s[i]).key) by {
            if i > 0 {
                crate::text::lemma_before_transitive(e.key, s[0].key, s[i].key);
            }
        }
        lemma_ascending_front(e, s);
    } else if s[0].key == e.key {
        lemma_ascending_rest(s);
        lemma_ascending_front(e, s.drop_first());
    } else {
        let rest = s.drop_first();
        lemma_ascending_rest(s);
        law_with_entry_ascending(rest, e);
        lemma_with_entry_keys(rest, e);
        crate::text::lemma_before_total(e.key, s[0].key);
        let q = with_entry(rest, e);
        assert forall|i: int| 0 <= i < q.len() implies before(s[0].key, (#[trigger] q[i]).key) by {
            if q[i].key != e.key {
                let j = choose|j: int| 0 <= j < rest.len() && (#[trigger] rest[j]).key == q[i].key;
                assert(before(s[0].key, rest[j].key));
            }
        }
        lemma_ascending_front(s[0], q);
    }
}

/// Law: a map gives back what was put in last under a key, and keeps the others.
pub proof fn law_with_entry_gives_back(s: Seq<EntryView>, e: EntryView, key: Seq<char>)
    requires
        ascending(s),
    ensures
        formats_of(with_entry(s, e), key) == if key == e.key {
            Some(e.formats)
        } else {
            formats_of(s, key)
        },
    decreases s.len(),
{
    let r = with_entry(s, e);
    if s.len() == 0 || before(e.key, s[0].key) {
        assert(r.drop_first() =~= s);
    } else if s[0].key == e.key {
        assert(r.drop_first() =~= s.drop_first());
    } else {
        lemma_ascending_rest(s);
        law_with_entry_gives_back(s.drop_first(), e, key);
        assert(r.drop_first() =~= with_entry(s.drop_first(), e));
    }
}

impl View for SubMap {
    type V = Seq<EntryView>;

    closed spec fn view(&self) -> Seq<EntryView> {
        entry_views(self.entries@)
    }
}

impl SubMap {
    /// A map without tracks.
    pub fn new() -> (r: SubMap)
        ensures
            r@ == Seq::<EntryView>::empty(),
            ascending(r@),
    {
        let r = SubMap { entries: Vec::new() };
        assert(r@ =~= Seq::<EntryView>::empty());
        r
    }

    /// Puts a track in, in the place of one under the same key.
    pub fn insert(&mut self, key: String, formats: Vec<SubFormat>)
        ensures
            final(self)@ == with_entry(
                old(self)@,
                EntryView { key: key@, formats: format_views(formats@) },
            ),
            ascending(old(self)@) ==> ascending(final(self)@),
    {
        let ghost s = self@;
        let ghost e = EntryView { key: key@, formats: format_views(formats@) };
        let k = chars_of(key.as_str());
        let mut i: usize = 0;
        assert(s.take(0) + with_entry(s.skip(0), e) =~= with_entry(s, e)) by {
            assert(s.skip(0) =~= s);
        }
        let mut equal = false;
        while i < self.entries.len()
            invariant_except_break
                !equal,
            invariant
                s == self@,
                k@ == e.key,
                i <= self.entries.len(),
                s.take(i as int) + with_entry(s.skip(i as int), e) == with_entry(s, e),
            ensures
                i == self.entries.len() || equal || before(e.key, s[i as int].key),
                equal ==> i < self.entries.len() && s[i as int].key == e.key && !before(e.key, s[i as int].key),
            decreases self.entries.len() - i,
        {
            let other = chars_of(self.entries[i].0.as_str());
            assert(other@ == s[i as int].key);
            assert(s.skip(i as int)[0] == s[i as int]);
            if is_before(k.as_slice(), other.as_slice()) {
                break;
            }
            if same(k.as_slice(), other.as_slice()) {
                equal = true;
                break;
            }
            assert(s.skip(i as int).drop_first() =~= s.skip(i + 1));
            assert(s.take(i as int) + (seq![s[i as int]] + with_entry(s.skip(i + 1), e)) =~= s.take(
                i + 1,
            ) + with_entry(s.skip(i + 1), e));
            i = i + 1;
        }
        proof {
            if ascending(s) {
                law_with_entry_ascending(s, e);
            }
            if i < s.len() {
                assert(s.skip(i as int)[0] == s[i as int]);
            }
        }
        if equal {
            self.entries.set(i, (key, formats));
            assert(self@ =~= s.update(i as int, e));
            assert(s.skip(i as int).drop_first() =~= s.skip(i + 1));
            assert(self@ =~= s.take(i as int) + (seq![e] + s.skip(i + 1)));
        } else {
            self.entries.insert(i, (key, formats));
            assert(self@ =~= s.take(i as int) + (seq![e] + s.skip(i as int)));
        }
    }

    /// The formats of a key.
    pub fn get(&self, key: &str) -> (r: Option<&Vec<SubFormat>>)
        ensures
            match formats_of(self@, key@) {
                Some(f) => r is Some && format_views(r->0@) == f,
                None => r is None,
            },
    {
        let ghost s = self@;
        assert(s.skip(0) =~= s);
        for i in 0..self.entries.len()
            invariant
                s == self@,
                formats_of(s.skip(i as int), key@) == formats_of(s, key@),
        {
            assert(s.skip(i as int)[0] == s[i as int]);
            assert(s.skip(i as int).drop_first() =~= s.skip(i + 1));
            if same_str(self.entries[i].0.as_str(), key) {
                return Some(&self.entries[i].1);
            }
        }
        assert(s.skip(s.len() as int) =~= Seq::<EntryView>::empty());
        None
    }

    /// How many tracks there are.
    pub fn len(&self) -> (r: usize)
        ensures
            r == self@.len(),
    {
        self.entries.len()
    }

    /// The key of a track, in the order of the keys.
    pub fn key(&self, i: usize) -> (r: &str)
        requires
            i < self@.len(),
        ensures
            r@ == self@[i as int].key,
    {
        self.entries[i].0.as_str()
    }

    /// The formats of a track, in the order of the keys.
    pub fn formats(&self, i: usize) -> (r: &Vec<SubFormat>)
        requires
            i < self@.len(),
        ensures
            format_views(r@) == self@[i as int].formats,
    {
        &self.entries[i].1
    }
}

/// The subset of `yt-dlp -J` output we use. A playlist probe has `kind ==
/// "playlist"` and `entries`; a video probe has caption maps.
#[derive(Debug)]
pub struct Info {
    pub kind: Option<String>,
    pub id: String,
    pub title: String,
    pub url: Option<String>,
    pub subtitles: Option<SubMap>,
    pub automatic_captions: Option<SubMap>,
    pub entries: Option<Vec<Info>>,
}

/// Where a video is.
pub open spec fn address(info: Info) -> Seq<char> {
    match info.url {
        Some(u) => u@,
        None => "https://www.youtube.com/watch?v="@ + info.id@,
    }
}

impl Info {
    /// Whether this is a playlist.
    pub fn is_playlist(&self) -> (r: bool)
        ensures
            r == (text_of(self.kind) == Some("playlist"@)),
    {
        match &self.kind {
            Some(k) => same_str(k.as_str(), "playlist"),
            None => false,
        }
    }

    /// Whether there is an id; a report without one is of no video.
    pub fn has_id(&self) -> (r: bool)
        ensures
            r == (self.id@.len() > 0),
    {
        !self.id.as_str().is_empty()
    }

    /// Where the video is.
    pub fn video_url(&self) -> (r: String)
        ensures
            r@ == address(*self),
    {
        match &self.url {
            Some(u) => u.clone(),
            None => {
                let mut out = chars_of("https://www.youtube.com/watch?v=");
                push_str(&mut out, self.id.as_str());
                string_of(out.as_slice())
            },
        }
    }
}

/// Chinese script to produce.
#[derive(Debug, Clone, Copy, PartialEq, Eq)]
pub enum ZhScript {
    /// Traditional Chinese
    ZhHant,
    /// Simplified Chinese
    ZhHans,
}

impl ZhScript {
    /// The language tag.
    pub fn tag(self) -> (r: &'static str)
        ensures
            r@ == match self {
                ZhScript::ZhHant => "zh-Hant"@,
                ZhScript::ZhHans => "zh-Hans"@,
            },
    {
        match self {
            ZhScript::ZhHant => "zh-Hant",
            ZhScript::ZhHans => "zh-Hans",
        }
    }

    /// How the target language is described to an LLM.
    pub fn llm_name(self) -> (r: &'static str)
        ensures
            r@ == match self {
                ZhScript::ZhHant => "Traditional Chinese as used in Taiwan (台灣繁體中文，使用台灣慣用語)"@,
                ZhScript::ZhHans => "Simplified Chinese (简体中文)"@,
            },
    {
        match self {
            ZhScript::ZhHant => "Traditional Chinese as used in Taiwan (台灣繁體中文，使用台灣慣用語)",
            ZhScript::ZhHans => "Simplified Chinese (简体中文)",
        }
    }
}

// ---- Picking a track -----------------------------------------------------------------------

/// One selected caption track.
#[derive(Debug, Clone)]
pub struct Track {
    pub key: String,
    pub auto: bool,
    pub name: String,
    pub ext: String,
    pub url: String,
}

/// What a `Track` holds.
#[verifier::ext_equal]
pub struct TrackView {
    pub key: Seq<char>,
    pub auto: bool,
    pub name: Seq<char>,
    pub ext: Seq<char>,
    pub url: Seq<char>,
}

impl View for Track {
    type V = TrackView;

    open spec fn view(&self) -> TrackView {
        TrackView {
            key: self.key@,
            auto: self.auto,
            name: self.name@,
            ext: self.ext@,
            url: self.url@,
        }
    }
}

/// What a track that may be missing holds.
pub open spec fn track_view(t: Option<Track>) -> Option<TrackView> {
    match t {
        Some(x) => Some(x@),
        None => None,
    }
}

/// How a track came about.
pub open spec fn track_kind(auto: bool) -> Seq<char> {
    if auto {
        "auto"@
    } else {
        "manual"@
    }
}

/// A track in a few words.
pub open spec fn track_text(t: TrackView) -> Seq<char> {
    if t.name.len() == 0 {
        t.key + " ["@ + track_kind(t.auto) + "]"@
    } else {
        t.key + " ["@ + track_kind(t.auto) + ", "@ + t.name + "]"@
    }
}

impl Track {
    /// `auto` or `manual`.
    pub fn kind(&self) -> (r: &'static str)
        ensures
            r@ == track_kind(self.auto),
    {
        if self.auto {
            "auto"
        } else {
            "manual"
        }
    }

    /// The track in a few words.
    pub fn describe(&self) -> (r: String)
        ensures
            r@ == track_text(self@),
    {
        let mut out = chars_of(self.key.as_str());
        push_str(&mut out, " [");
        push_str(&mut out, self.kind());
        if !self.name.as_str().is_empty() {
            push_str(&mut out, ", ");
            push_str(&mut out, self.name.as_str());
        }
        push_str(&mut out, "]");
        string_of(out.as_slice())
    }
}

/// The tracks of a kind.
pub open spec fn tracks(info: Info, auto: bool) -> Option<Seq<EntryView>> {
    match if auto {
        info.automatic_captions
    } else {
        info.subtitles
    } {
        Some(m) => Some(m@),
        None => None,
    }
}

/// The first format with an extension.
pub open spec fn format_with(fmts: Seq<SubFormatView>, ext: Seq<char>) -> Option<SubFormatView>
    decreases fmts.len(),
{
    if fmts.len() == 0 {
        None
    } else if fmts[0].ext == ext {
        Some(fmts[0])
    } else {
        format_with(fmts.drop_first(), ext)
    }
}

/// The format to take: `json3`, else `vtt`, else `srt`.
pub open spec fn best_format(fmts: Seq<SubFormatView>) -> Option<SubFormatView> {
    match (format_with(fmts, "json3"@), format_with(fmts, "vtt"@), format_with(fmts, "srt"@)) {
        (Some(f), _, _) => Some(f),
        (None, Some(f), _) => Some(f),
        (None, None, f) => f,
    }
}

/// The track of a key: its best format, where that has an address.
pub open spec fn track_in(entries: Seq<EntryView>, key: Seq<char>, auto: bool) -> Option<TrackView> {
    match formats_of(entries, key) {
        Some(fmts) => match best_format(fmts) {
            Some(f) => match f.url {
                Some(url) => Some(
                    TrackView {
                        key,
                        auto,
                        name: match f.name {
                            Some(n) => n,
                            None => Seq::empty(),
                        },
                        ext: f.ext,
                        url,
                    },
                ),
                None => None,
            },
            None => None,
        },
        None => None,
    }
}

/// The track of a key and a kind.
pub open spec fn track(info: Info, key: Seq<char>, auto: bool) -> Option<TrackView> {
    match tracks(info, auto) {
        Some(entries) => track_in(entries, key, auto),
        None => None,
    }
}

/// Finds the first format with an extension.
fn find_format<'a>(fmts: &'a Vec<SubFormat>, ext: &str) -> (r: Option<&'a SubFormat>)
    ensures
        match format_with(format_views(fmts@), ext@) {
            Some(f) => r is Some && r->0@ == f,
            None => r is None,
        },
{
    let ghost s = format_views(fmts@);
    assert(s.skip(0) =~= s);
    for i in 0..fmts.len()
        invariant
            s == format_views(fmts@),
            format_with(s.skip(i as int), ext@) == format_with(s, ext@),
    {
        assert(s.skip(i as int)[0] == s[i as int]);
        assert(s.skip(i as int).drop_first() =~= s.skip(i + 1));
        if same_str(fmts[i].ext.as_str(), ext) {
            return Some(&fmts[i]);
        }
    }
    assert(s.skip(s.len() as int) =~= Seq::<SubFormatView>::empty());
    None
}

/// The track of a key and a kind, in its best format.
pub fn find_track(info: &Info, key: &str, auto: bool) -> (r: Option<Track>)
    ensures
        track_view(r) == track(*info, key@, auto),
{
    let map = if auto {
        &info.automatic_captions
    } else {
        &info.subtitles
    };
    let fmts = match map {
        Some(m) => match m.get(key) {
            Some(f) => f,
            None => {
                return None;
            },
        },
        None => {
            return None;
        },
    };
    let found = match find_format(fmts, "json3") {
        Some(f) => Some(f),
        None => match find_format(fmts, "vtt") {
            Some(f) => Some(f),
            None => find_format(fmts, "srt"),
        },
    };
    match found {
        Some(f) => match &f.url {
            Some(url) => {
                let name = match &f.name {
                    Some(n) => n.clone(),
                    None => String::new(),
                };
                let t = Track {
                    key: key.to_string(),
                    auto,
                    name,
                    ext: f.ext.clone(),
                    url: url.clone(),
                };
                assert(t@ =~= track(*info, key@, auto)->0);
                Some(t)
            },
            None => None,
        },
        None => None,
    }
}

/// Whether a key is one of English.
pub open spec fn english(key: Seq<char>) -> bool {
    key == "en"@ || begins(key, "en-"@)
}

/// The manual track of the first key of English among `entries` that has one; `all` are the
/// tracks.
pub open spec fn first_english(all: Seq<EntryView>, entries: Seq<EntryView>) -> Option<TrackView>
    decreases entries.len(),
{
    if entries.len() == 0 {
        None
    } else if english(entries[0].key) && track_in(all, entries[0].key, false) is Some {
        track_in(all, entries[0].key, false)
    } else {
        first_english(all, entries.drop_first())
    }
}

/// The first of two that is there.
pub open spec fn either(a: Option<TrackView>, b: Option<TrackView>) -> Option<TrackView> {
    match a {
        Some(_) => a,
        None => b,
    }
}

/// The manual track of the first key of English that has one.
pub open spec fn manual_english(info: Info) -> Option<TrackView> {
    match tracks(info, false) {
        Some(entries) => first_english(entries, entries),
        None => None,
    }
}

/// The English track: a manual one first, then the original auto captions, then auto-translated
/// English.
pub open spec fn english_track(info: Info) -> Option<TrackView> {
    either(
        track(info, "en"@, false),
        either(
            track(info, "en-US"@, false),
            either(
                track(info, "en-GB"@, false),
                either(
                    manual_english(info),
                    either(
                        track(info, "en-orig"@, true),
                        either(track(info, "en"@, true), track(info, "en-US"@, true)),
                    ),
                ),
            ),
        ),
    )
}

/// The track of a key: a manual one, else an automatic one.
pub open spec fn forced_track(info: Info, key: Seq<char>) -> Option<TrackView> {
    either(track(info, key, false), track(info, key, true))
}

/// The first of the candidates that there is.
fn pick_first(info: &Info, a: &str, b: &str, c: &str, auto: bool) -> (r: Option<Track>)
    ensures
        track_view(r) == either(
            track(*info, a@, auto),
            either(track(*info, b@, auto), track(*info, c@, auto)),
        ),
{
    match find_track(info, a, auto) {
        Some(t) => Some(t),
        None => match find_track(info, b, auto) {
            Some(t) => Some(t),
            None => find_track(info, c, auto),
        },
    }
}

/// The manual track of the first key of English that has one.
fn manual_matching(info: &Info) -> (r: Option<Track>)
    ensures
        track_view(r) == manual_english(*info),
{
    let m = match &info.subtitles {
        Some(m) => m,
        None => {
            return None;
        },
    };
    let en = chars_of("en");
    let dash = chars_of("en-");
    let ghost s = m@;
    let n: usize = m.len();
    assert(s.skip(0) =~= s);
    for i in 0..n
        invariant
            s == m@,
            n == s.len(),
            tracks(*info, false) == Some(s),
            en@ == "en"@,
            dash@ == "en-"@,
            first_english(s, s.skip(i as int)) == first_english(s, s),
    {
        assert(s.skip(i as int)[0] == s[i as int]);
        assert(s.skip(i as int).drop_first() =~= s.skip(i + 1));
        let key = chars_of(m.key(i));
        if same(key.as_slice(), en.as_slice()) || starts_with(key.as_slice(), dash.as_slice()) {
            if let Some(t) = find_track(info, m.key(i), false) {
                return Some(t);
            }
        }
    }
    assert(s.skip(s.len() as int) =~= Seq::<EntryView>::empty());
    None
}

/// There is no track of the key that was asked for.
#[derive(Debug)]
pub struct NoTrack {
    pub key: String,
}

/// Manual English first, then the original auto captions, then auto-translated English.
pub fn pick_english(info: &Info, force: Option<&str>) -> (r: Result<Option<Track>, NoTrack>)
    ensures
        match force {
            Some(key) => match forced_track(*info, key@) {
                Some(t) => r is Ok && track_view(r->Ok_0) == Some(t),
                None => r is Err && r->Err_0.key@ == key@,
            },
            None => r is Ok && track_view(r->Ok_0) == english_track(*info),
        },
{
    if let Some(key) = force {
        return match find_track(info, key, false) {
            Some(t) => Ok(Some(t)),
            None => match find_track(info, key, true) {
                Some(t) => Ok(Some(t)),
                None => Err(NoTrack { key: key.to_string() }),
            },
        };
    }
    if let Some(t) = pick_first(info, "en", "en-US", "en-GB", false) {
        return Ok(Some(t));
    }
    if let Some(t) = manual_matching(info) {
        return Ok(Some(t));
    }
    Ok(pick_first(info, "en-orig", "en", "en-US", true))
}

/// A key with formats is one of the entries.
proof fn lemma_formats_key(s: Seq<EntryView>, key: Seq<char>)
    requires
        formats_of(s, key) is Some,
    ensures
        exists|i: int| 0 <= i < s.len() && (#[trigger] s[i]).key == key,
    decreases s.len(),
{
    if s[0].key != key {
        let rest = s.drop_first();
        lemma_formats_key(rest, key);
        let i = choose|i: int| 0 <= i < rest.len() && (#[trigger] rest[i]).key == key;
        assert(s[i + 1].key == key);
    }
}

/// Among entries with a usable key of English, one is found.
proof fn lemma_first_english(all: Seq<EntryView>, entries: Seq<EntryView>, i: int)
    requires
        0 <= i < entries.len(),
        english(entries[i].key),
        track_in(all, entries[i].key, false) is Some,
    ensures
        first_english(all, entries) is Some,
    decreases entries.len(),
{
    if !(english(entries[0].key) && track_in(all, entries[0].key, false) is Some) {
        lemma_first_english(all, entries.drop_first(), i - 1);
    }
}

/// What is found is the track of a key of English.
proof fn lemma_found_english(all: Seq<EntryView>, entries: Seq<EntryView>)
    requires
        first_english(all, entries) is Some,
    ensures
        exists|key: Seq<char>| english(key) && #[trigger] track_in(all, key, false) == first_english(
            all,
            entries,
        ),
    decreases entries.len(),
{
    if english(entries[0].key) && track_in(all, entries[0].key, false) is Some {
        assert(track_in(all, entries[0].key, false) == first_english(all, entries));
    } else {
        lemma_found_english(all, entries.drop_first());
    }
}

/// Law: where any key of English has a manual track that can be used, a manual one is picked
/// before any automatic one.
pub proof fn law_manual_first(info: Info, key: Seq<char>)
    requires
        english(key),
        track(info, key, false) is Some,
    ensures
        english_track(info) matches Some(t) && !t.auto,
{
    let s = tracks(info, false)->0;
    lemma_formats_key(s, key);
    let i = choose|i: int| 0 <= i < s.len() && (#[trigger] s[i]).key == key;
    lemma_first_english(s, s, i);
    lemma_found_english(s, s);
}

/// Law: without one, the original auto captions are picked before translated ones.
pub proof fn law_original_next(info: Info)
    requires
        forall|key: Seq<char>| english(key) ==> #[trigger] track(info, key, false) is None,
        track(info, "en-orig"@, true) is Some,
    ensures
        english_track(info) == track(info, "en-orig"@, true),
{
    reveal_strlit("en");
    reveal_strlit("en-");
    reveal_strlit("en-US");
    reveal_strlit("en-GB");
    assert("en-US"@.take(3) =~= "en-"@);
    assert("en-GB"@.take(3) =~= "en-"@);
    assert(english("en"@) && english("en-US"@) && english("en-GB"@));
    assert(track(info, "en"@, false) is None);
    assert(track(info, "en-US"@, false) is None);
    assert(track(info, "en-GB"@, false) is None);
    if manual_english(info) is Some {
        let s = tracks(info, false)->0;
        lemma_found_english(s, s);
        let key = choose|key: Seq<char>|
            english(key) && #[trigger] track_in(s, key, false) == first_english(s, s);
        assert(track(info, key, false) is Some);
    }
}

// ---- Listing the tracks --------------------------------------------------------------------

/// A manual track in the listing: its key, and the name of its first format.
pub open spec fn listed(e: EntryView) -> Seq<char> {
    if e.formats.len() > 0 && e.formats[0].name is Some {
        e.key + " ("@ + e.formats[0].name->0 + ")"@
    } else {
        e.key
    }
}

/// Manual tracks in the listing.
pub open spec fn listed_all(s: Seq<EntryView>) -> Seq<Seq<char>> {
    Seq::new(s.len(), |i: int| listed(s[i]))
}

/// The keys that begin with `en`.
pub open spec fn english_keys(s: Seq<EntryView>) -> Seq<Seq<char>>
    decreases s.len(),
{
    if s.len() == 0 {
        Seq::empty()
    } else if begins(s.last().key, "en"@) {
        english_keys(s.drop_last()).push(s.last().key)
    } else {
        english_keys(s.drop_last())
    }
}

/// The keys that do not begin with `en`.
pub open spec fn other_keys(s: Seq<EntryView>) -> Seq<Seq<char>>
    decreases s.len(),
{
    if s.len() == 0 {
        Seq::empty()
    } else if begins(s.last().key, "en"@) {
        other_keys(s.drop_last())
    } else {
        other_keys(s.drop_last()).push(s.last().key)
    }
}

/// Texts with commas between them, or `none`.
pub open spec fn comma_list(s: Seq<Seq<char>>) -> Seq<char> {
    if s.len() == 0 {
        "none"@
    } else {
        joined(s, ", "@)
    }
}

/// The tracks of a kind, or none.
pub open spec fn tracks_or_none(info: Info, auto: bool) -> Seq<EntryView> {
    match tracks(info, auto) {
        Some(s) => s,
        None => Seq::empty(),
    }
}

/// The line on automatic tracks that are not of English, where there are any.
pub open spec fn other_line(auto: Seq<EntryView>) -> Seq<char> {
    if other_keys(auto).len() == 0 {
        Seq::empty()
    } else {
        "  other auto captions: "@ + joined(other_keys(auto), ", "@) + "\n"@
    }
}

/// The listing of the tracks: the manual ones, the automatic ones of English, and the other
/// automatic ones where there are any.
pub open spec fn listing(info: Info) -> Seq<char> {
    let manual = tracks_or_none(info, false);
    let auto = tracks_or_none(info, true);
    "  manual subtitles ("@ + decimal(manual.len()) + "): "@ + comma_list(listed_all(manual)) + "\n"@
        + "  auto captions ("@ + decimal(auto.len()) + " languages), English keys: "@ + comma_list(
        english_keys(auto),
    ) + "\n"@ + other_line(auto)
}

/// Whether `part` occurs in `s`.
pub open spec fn occurs(s: Seq<char>, part: Seq<char>) -> bool {
    exists|a: Seq<char>, b: Seq<char>| s == #[trigger] (a + part + b)
}

/// What occurs in the middle of a text occurs in the text.
proof fn lemma_occurs_within(a: Seq<char>, s: Seq<char>, b: Seq<char>, part: Seq<char>)
    requires
        occurs(s, part),
    ensures
        occurs(a + s + b, part),
{
    let (x, y) = choose|x: Seq<char>, y: Seq<char>| s == #[trigger] (x + part + y);
    assert(a + s + b =~= (a + x) + part + (y + b));
}

/// Every text of a list occurs in it.
proof fn lemma_occurs_joined(s: Seq<Seq<char>>, sep: Seq<char>, i: int)
    requires
        0 <= i < s.len(),
    ensures
        occurs(joined(s, sep), s[i]),
    decreases s.len(),
{
    let none = Seq::<char>::empty();
    if s.len() == 1 {
        assert(joined(s, sep) =~= none + s[0] + none);
    } else if i == 0 {
        let rest = sep + joined(s.drop_first(), sep);
        assert(joined(s, sep) =~= none + s[0] + rest);
    } else {
        lemma_occurs_joined(s.drop_first(), sep, i - 1);
        let rest = joined(s.drop_first(), sep);
        lemma_occurs_within(s[0] + sep, rest, none, s[i]);
        assert(joined(s, sep) =~= (s[0] + sep) + rest + none);
    }
}

/// A manual track's key occurs in how it is listed.
proof fn lemma_occurs_listed(e: EntryView)
    ensures
        occurs(listed(e), e.key),
{
    let none = Seq::<char>::empty();
    if e.formats.len() > 0 && e.formats[0].name is Some {
        let rest = " ("@ + e.formats[0].name->0 + ")"@;
        assert(listed(e) =~= none + e.key + rest);
    } else {
        assert(listed(e) =~= none + e.key + none);
    }
}

/// What occurs in a part of a text that occurs in another occurs there.
proof fn lemma_occurs_through(s: Seq<char>, mid: Seq<char>, part: Seq<char>)
    requires
        occurs(s, mid),
        occurs(mid, part),
    ensures
        occurs(s, part),
{
    let (x, y) = choose|x: Seq<char>, y: Seq<char>| s == #[trigger] (x + mid + y);
    lemma_occurs_within(x, mid, y, part);
}

/// A key stands among those of English or among the others.
proof fn lemma_key_kept(s: Seq<EntryView>, i: int)
    requires
        0 <= i < s.len(),
    ensures
        begins(s[i].key, "en"@) ==> english_keys(s).contains(s[i].key),
        !begins(s[i].key, "en"@) ==> other_keys(s).contains(s[i].key),
    decreases s.len(),
{
    let front = s.drop_last();
    let key = s[i].key;
    if i < front.len() {
        lemma_key_kept(front, i);
        assert(front[i] == s[i]);
        if begins(key, "en"@) {
            let k = choose|k: int| 0 <= k < english_keys(front).len() && english_keys(front)[k] == key;
            assert(english_keys(s)[k] == key);
        } else {
            let k = choose|k: int| 0 <= k < other_keys(front).len() && other_keys(front)[k] == key;
            assert(other_keys(s)[k] == key);
        }
    } else if begins(key, "en"@) {
        assert(english_keys(s).last() == key);
    } else {
        assert(other_keys(s).last() == key);
    }
}

/// Law: the listing names every track that was reported, manual or automatic.
pub proof fn law_every_track_listed(info: Info, auto: bool, i: int)
    requires
        0 <= i < tracks_or_none(info, auto).len(),
    ensures
        occurs(listing(info), tracks_or_none(info, auto)[i].key),
{
    let manual = tracks_or_none(info, false);
    let automatic = tracks_or_none(info, true);
    let key = tracks_or_none(info, auto)[i].key;
    let none = Seq::<char>::empty();
    let head = "  manual subtitles ("@ + decimal(manual.len()) + "): "@;
    let first = comma_list(listed_all(manual));
    let middle = "\n"@ + "  auto captions ("@ + decimal(automatic.len())
        + " languages), English keys: "@;
    let second = comma_list(english_keys(automatic));
    let last = other_line(automatic);
    assert(listing(info) =~= head + first + (middle + second + "\n"@ + last));
    assert(listing(info) =~= (head + first + middle) + second + ("\n"@ + last));
    assert(listing(info) =~= (head + first + middle + second + "\n"@) + last + none);
    if auto {
        lemma_key_kept(automatic, i);
        if begins(key, "en"@) {
            let keys = english_keys(automatic);
            let k = choose|k: int| 0 <= k < keys.len() && keys[k] == key;
            lemma_occurs_joined(keys, ", "@, k);
            lemma_occurs_within(head + first + middle, second, "\n"@ + last, key);
        } else {
            let keys = other_keys(automatic);
            let k = choose|k: int| 0 <= k < keys.len() && keys[k] == key;
            lemma_occurs_joined(keys, ", "@, k);
            lemma_occurs_within("  other auto captions: "@, joined(keys, ", "@), "\n"@, key);
            lemma_occurs_within(head + first + middle + second + "\n"@, last, none, key);
        }
    } else {
        lemma_occurs_joined(listed_all(manual), ", "@, i);
        lemma_occurs_listed(manual[i]);
        lemma_occurs_through(first, listed(manual[i]), key);
        lemma_occurs_within(head, first, middle + second + "\n"@ + last, key);
    }
}

/// Texts with commas between them, or `none`.
fn push_list(out: &mut Vec<char>, parts: &Vec<Vec<char>>)
    ensures
        final(out)@ == old(out)@ + comma_list(texts(parts@)),
{
    if parts.len() == 0 {
        push_str(out, "none");
    } else {
        push_all(out, join(parts.as_slice(), chars_of(", ").as_slice()).as_slice());
    }
}

/// Manual tracks in the listing.
fn list_manual(map: &Option<SubMap>) -> (r: Vec<Vec<char>>)
    ensures
        texts(r@) == listed_all(match *map {
            Some(m) => m@,
            None => Seq::empty(),
        }),
{
    let mut out: Vec<Vec<char>> = Vec::new();
    if let Some(m) = map {
        let ghost all = listed_all(m@);
        let n: usize = m.len();
        for i in 0..n
            invariant
                n == m@.len(),
                all == listed_all(m@),
                out@.len() == i,
                forall|j: int| 0 <= j < i ==> (#[trigger] out@[j])@ == all[j],
        {
            let mut text = chars_of(m.key(i));
            let fmts = m.formats(i);
            assert(format_views(fmts@) == m@[i as int].formats);
            if fmts.len() > 0 {
                assert(fmts@[0]@ == m@[i as int].formats[0]);
                if let Some(name) = &fmts[0].name {
                    push_str(&mut text, " (");
                    push_str(&mut text, name.as_str());
                    push_str(&mut text, ")");
                }
            }
            assert(text@ =~= all[i as int]);
            out.push(text);
        }
        assert(texts(out@) =~= all);
    } else {
        assert(texts(out@) =~= listed_all(Seq::empty()));
    }
    out
}

/// The keys that begin with `en`, or those that do not.
fn list_keys(map: &Option<SubMap>, of_english: bool) -> (r: Vec<Vec<char>>)
    ensures
        ({
            let s = match *map {
                Some(m) => m@,
                None => Seq::empty(),
            };
            texts(r@) == if of_english {
                english_keys(s)
            } else {
                other_keys(s)
            }
        }),
{
    let mut out: Vec<Vec<char>> = Vec::new();
    assert(texts(out@) =~= english_keys(Seq::empty()));
    assert(texts(out@) =~= other_keys(Seq::empty()));
    if let Some(m) = map {
        let en = chars_of("en");
        let n: usize = m.len();
        assert(m@.take(0) =~= Seq::<EntryView>::empty());
        for i in 0..n
            invariant
                n == m@.len(),
                en@ == "en"@,
                of_english ==> texts(out@) == english_keys(m@.take(i as int)),
                !of_english ==> texts(out@) == other_keys(m@.take(i as int)),
        {
            let ghost so_far = texts(out@);
            assert(m@.take(i + 1).drop_last() =~= m@.take(i as int));
            assert(m@.take(i + 1).last() == m@[i as int]);
            let key = chars_of(m.key(i));
            if starts_with(key.as_slice(), en.as_slice()) == of_english {
                out.push(key);
                assert(texts(out@) =~= so_far.push(key@));
            }
        }
        assert(m@.take(m@.len() as int) =~= m@);
    }
    out
}

/// How many tracks there are.
fn count(map: &Option<SubMap>) -> (r: usize)
    ensures
        r == match *map {
            Some(m) => m@.len(),
            None => 0,
        },
{
    match map {
        Some(m) => m.len(),
        None => 0,
    }
}

/// Human-readable listing of every caption track yt-dlp reported.
pub fn describe_tracks(info: &Info) -> (r: String)
    ensures
        r@ == listing(*info),
{
    let mut out = chars_of("  manual subtitles (");
    push_decimal(&mut out, count(&info.subtitles) as u64);
    push_str(&mut out, "): ");
    push_list(&mut out, &list_manual(&info.subtitles));
    push_str(&mut out, "\n");
    push_str(&mut out, "  auto captions (");
    push_decimal(&mut out, count(&info.automatic_captions) as u64);
    push_str(&mut out, " languages), English keys: ");
    push_list(&mut out, &list_keys(&info.automatic_captions, true));
    push_str(&mut out, "\n");
    let others = list_keys(&info.automatic_captions, false);
    let ghost two = out@;
    assert(texts(others@).len() == others@.len());
    if others.len() > 0 {
        push_str(&mut out, "  other auto captions: ");
        push_list(&mut out, &others);
        push_str(&mut out, "\n");
    }
    assert(out@ =~= two + other_line(tracks_or_none(*info, true)));
    string_of(out.as_slice())
}

// ---- Fetching captions ---------------------------------------------------------------------

/// How many times a caption document is asked for.
pub const ATTEMPTS: u32 = 6;

/// A download in progress: which attempt is next, and how long to wait after it, in seconds.
#[derive(Debug, Clone, Copy, PartialEq, Eq)]
pub struct Fetch {
    pub attempt: u32,
    pub delay: u64,
}

/// How an attempt came out.
#[derive(Debug)]
pub enum Outcome {
    /// The server answered.
    Response { status: u16, body: String },
    /// There was no answer.
    Failed,
}

/// What to do after an attempt.
#[derive(Debug)]
pub enum Fetched {
    /// Take the document.
    Done(String),
    /// Give up: the document is empty.
    Empty,
    /// Give up: the server answered with this status.
    Refused(u16),
    /// Give up: there was no answer to the last attempt.
    Broken,
    /// Wait for so many seconds; then try again, or give up where that was the last attempt.
    Retry(u64),
}

/// What to do after an attempt, and what comes next.
pub open spec fn fetched(f: Fetch, o: Outcome, r: Fetched) -> bool {
    match o {
        Outcome::Response { status, body } => if 200 <= status < 300 {
            if trimmed(body@).len() == 0 {
                r is Empty
            } else {
                r matches Fetched::Done(text) && text@ == body@
            }
        } else if status != 429 && status < 500 {
            r == Fetched::Refused(status)
        } else {
            r == Fetched::Retry(f.delay)
        },
        Outcome::Failed => if f.attempt == ATTEMPTS {
            r is Broken
        } else {
            r == Fetched::Retry(f.delay)
        },
    }
}

/// The next attempt waits twice as long, up to a minute.
pub open spec fn next_fetch(f: Fetch) -> Fetch {
    Fetch {
        attempt: (f.attempt + 1) as u32,
        delay: if f.delay >= 30 {
            60
        } else {
            (f.delay * 2) as u64
        },
    }
}

/// Before attempt `n`, counted from one.
pub open spec fn fetch_at(n: nat) -> Fetch
    decreases n,
{
    if n <= 1 {
        Fetch { attempt: 1, delay: 3 }
    } else {
        next_fetch(fetch_at((n - 1) as nat))
    }
}

/// Law: the waits double from three seconds up to a minute, and after six of them no attempt is
/// left.
pub proof fn law_fetch_waits()
    ensures
        fetch_at(1) == (Fetch { attempt: 1, delay: 3 }),
        fetch_at(2) == (Fetch { attempt: 2, delay: 6 }),
        fetch_at(3) == (Fetch { attempt: 3, delay: 12 }),
        fetch_at(4) == (Fetch { attempt: 4, delay: 24 }),
        fetch_at(5) == (Fetch { attempt: 5, delay: 48 }),
        fetch_at(6) == (Fetch { attempt: 6, delay: 60 }),
        fetch_at(7).attempt > ATTEMPTS,
{
    reveal_with_fuel(fetch_at, 8);
}

impl Fetch {
    /// Before the first attempt.
    pub fn new() -> (r: Fetch)
        ensures
            r == fetch_at(1),
    {
        Fetch { attempt: 1, delay: 3 }
    }

    /// Whether no attempt is left.
    pub fn is_over(&self) -> (r: bool)
        ensures
            r == (self.attempt > ATTEMPTS),
    {
        self.attempt > ATTEMPTS
    }
}

/// What to do after an attempt to download a caption document (YouTube answers 429 readily).
pub fn fetch_caption(f: &mut Fetch, o: Outcome) -> (r: Fetched)
    requires
        1 <= old(f).attempt <= ATTEMPTS,
    ensures
        fetched(*old(f), o, r),
        r is Retry ==> *final(f) == next_fetch(*old(f)),
        !(r is Retry) ==> *final(f) == *old(f),
{
    match o {
        Outcome::Response { status, body } => {
            if 200 <= status && status < 300 {
                if trim(chars_of(body.as_str()).as_slice()).len() == 0 {
                    return Fetched::Empty;
                }
                return Fetched::Done(body);
            }
            if status != 429 && status < 500 {
                return Fetched::Refused(status);
            }
        },
        Outcome::Failed => {
            if f.attempt == ATTEMPTS {
                return Fetched::Broken;
            }
        },
    }
    let wait = f.delay;
    f.attempt = f.attempt + 1;
    f.delay = if wait >= 30 {
        60
    } else {
        wait * 2
    };
    Fetched::Retry(wait)
}

// ---- Command lines -------------------------------------------------------------------------

/// How yt-dlp is run.
#[derive(Debug, Clone)]
pub struct YtDlp {
    pub bin: String,
    /// Arguments appended to every invocation (cookies, user passthrough).
    pub common_args: Vec<String>,
}

/// The command that reports on an address.
pub open spec fn probe_line(yt: YtDlp, url: Seq<char>) -> Seq<WordView> {
    text_words(seq![yt.bin@, "-J"@, "--no-playlist"@, "--flat-playlist"@]) + text_words(
        string_texts(yt.common_args@),
    ) + text_words(seq!["--"@, url])
}

/// The formats to download, best first.
pub open spec fn format_text(height: u32) -> Seq<char> {
    let h = decimal(height as nat);
    "bv*[height<="@ + h + "][vcodec^=avc1]+ba[ext=m4a]/bv*[height<="@ + h + "]+ba/b[height<="@ + h
        + "]/bv*+ba/b"@
}

/// The command that downloads a video: from the saved information at the path, or afresh.
pub open spec fn download_line(yt: YtDlp, url: Seq<char>, template: Seq<char>, height: u32, fresh: bool) -> Seq<WordView> {
    text_words(
        seq![
            yt.bin@,
            "--no-playlist"@,
            "-f"@,
            format_text(height),
            "--merge-output-format"@,
            "mkv"@,
            "--remux-video"@,
            "mkv"@,
            "--no-overwrites"@,
            "--continue"@,
            "-o"@,
            template,
        ],
    ) + text_words(string_texts(yt.common_args@)) + if fresh {
        text_words(seq!["--"@, url])
    } else {
        seq![WordView::Text("--load-info-json"@), WordView::Path(0)]
    }
}

/// The formats to download, best first.
fn format_choice(height: u32) -> (r: String)
    ensures
        r@ == format_text(height),
{
    let mut out = chars_of("bv*[height<=");
    push_decimal(&mut out, height as u64);
    push_str(&mut out, "][vcodec^=avc1]+ba[ext=m4a]/bv*[height<=");
    push_decimal(&mut out, height as u64);
    push_str(&mut out, "]+ba/b[height<=");
    push_decimal(&mut out, height as u64);
    push_str(&mut out, "]/bv*+ba/b");
    string_of(out.as_slice())
}

impl YtDlp {
    /// `yt-dlp -J`: the command that reports on `url`.
    pub fn probe(&self, url: &str) -> (r: Vec<Word>)
        ensures
            word_views(r@) == probe_line(*self, url@),
    {
        let mut words: Vec<Word> = Vec::new();
        add_text(&mut words, self.bin.as_str());
        add_text(&mut words, "-J");
        add_text(&mut words, "--no-playlist");
        add_text(&mut words, "--flat-playlist");
        assert(word_views(words@) =~= text_words(
            seq![self.bin@, "-J"@, "--no-playlist"@, "--flat-playlist"@],
        ));
        add_texts(&mut words, self.common_args.as_slice());
        add_text(&mut words, "--");
        add_text(&mut words, url);
        assert(word_views(words@) =~= probe_line(*self, url@));
        words
    }

    /// The command that downloads a video no higher than `max_height` to the path that `template`
    /// makes. Without `fresh` it takes the saved information, whose path is the command's only
    /// one, and extracts nothing anew.
    pub fn download_command(&self, url: &str, template: &str, max_height: u32, fresh: bool) -> (r: Vec<Word>)
        ensures
            word_views(r@) == download_line(*self, url@, template@, max_height, fresh),
    {
        let choice = format_choice(max_height);
        let mut words: Vec<Word> = Vec::new();
        add_text(&mut words, self.bin.as_str());
        add_text(&mut words, "--no-playlist");
        add_text(&mut words, "-f");
        add_text(&mut words, choice.as_str());
        add_text(&mut words, "--merge-output-format");
        add_text(&mut words, "mkv");
        add_text(&mut words, "--remux-video");
        add_text(&mut words, "mkv");
        add_text(&mut words, "--no-overwrites");
        add_text(&mut words, "--continue");
        add_text(&mut words, "-o");
        add_text(&mut words, template);
        assert(word_views(words@) =~= text_words(
            seq![
                self.bin@,
                "--no-playlist"@,
                "-f"@,
                choice@,
                "--merge-output-format"@,
                "mkv"@,
                "--remux-video"@,
                "mkv"@,
                "--no-overwrites"@,
                "--continue"@,
                "-o"@,
                template@,
            ],
        ));
        add_texts(&mut words, self.common_args.as_slice());
        let ghost so_far = word_views(words@);
        if fresh {
            add_text(&mut words, "--");
            add_text(&mut words, url);
            assert(word_views(words@) =~= so_far + text_words(seq!["--"@, url@]));
        } else {
            add_text(&mut words, "--load-info-json");
            add_path(&mut words, 0);
            assert(word_views(words@) =~= so_far + seq![
                WordView::Text("--load-info-json"@),
                WordView::Path(0),
            ]);
        }
        words
    }
}

/// The first name that is `name`.
pub open spec fn named(names: Seq<Seq<char>>, name: Seq<char>) -> Option<usize>
    decreases names.len(),
{
    if names.len() == 0 {
        None
    } else {
        match named(names.drop_last(), name) {
            Some(i) => Some(i),
            None => if names.last() == name {
                Some((names.len() - 1) as usize)
            } else {
                None
            },
        }
    }
}

/// The downloaded video among the names: an `mkv`, else an `mp4`, else a `webm`.
pub open spec fn video_file(names: Seq<Seq<char>>, id: Seq<char>) -> Option<usize> {
    match (named(names, id + ".mkv"@), named(names, id + ".mp4"@), named(names, id + ".webm"@)) {
        (Some(i), _, _) => Some(i),
        (None, Some(i), _) => Some(i),
        (None, None, r) => r,
    }
}

/// Finds the file `id` with an ending.
fn find_named(names: &[String], id: &str, ending: &str) -> (r: Option<usize>)
    ensures
        r == named(string_texts(names@), id@ + ending@),
{
    let mut name = chars_of(id);
    push_str(&mut name, ending);
    let ghost all = string_texts(names@);
    let mut found: Option<usize> = None;
    for i in 0..names.len()
        invariant
            all == string_texts(names@),
            name@ == id@ + ending@,
            found == named(all.take(i as int), name@),
    {
        assert(all.take(i + 1).drop_last() =~= all.take(i as int));
        if found.is_none() && same(chars_of(names[i].as_str()).as_slice(), name.as_slice()) {
            found = Some(i);
        }
    }
    assert(all.take(all.len() as int) =~= all);
    found
}

/// Finds the downloaded video among the names of the files in the work directory.
pub fn find_video_file(names: &[String], id: &str) -> (r: Option<usize>)
    ensures
        r == video_file(string_texts(names@), id@),
{
    match find_named(names, id, ".mkv") {
        Some(i) => Some(i),
        None => match find_named(names, id, ".mp4") {
            Some(i) => Some(i),
            None => find_named(names, id, ".webm"),
        },
    }
}

// ---- Downloading ---------------------------------------------------------------------------

/// How far a download is.
#[derive(Debug, Clone, Copy, PartialEq, Eq)]
pub enum DownloadStage {
    Start,
    /// The command that takes the saved information is running.
    Saved,
    /// The command that extracts afresh is running.
    Fresh,
    /// The video is being looked for.
    Looking,
    Over,
}

/// What has happened.
#[derive(Debug)]
pub enum DownloadEvent {
    /// These are the files in the work directory.
    Files(Vec<String>),
    /// The command has ended.
    Ended { success: bool },
}

/// What to do next.
#[derive(Debug)]
pub enum DownloadAction {
    /// Take the file with this number: it was downloaded before.
    Existing(usize),
    /// Run this command; its only path is that of the saved information.
    Run(Vec<Word>),
    /// List the work directory.
    Look,
    /// Take the file with this number.
    Done(usize),
    /// yt-dlp failed.
    Fail,
    /// yt-dlp succeeded, but there is no video.
    NoFile,
}

/// What a `DownloadEvent` says.
pub enum DownloadEventView {
    Files(Seq<Seq<char>>),
    Ended { success: bool },
}

/// What a `DownloadAction` asks for.
pub enum DownloadActionView {
    Existing(usize),
    Run(Seq<WordView>),
    Look,
    Done(usize),
    Fail,
    NoFile,
}

impl View for DownloadEvent {
    type V = DownloadEventView;

    open spec fn view(&self) -> DownloadEventView {
        match self {
            DownloadEvent::Files(names) => DownloadEventView::Files(string_texts(names@)),
            DownloadEvent::Ended { success } => DownloadEventView::Ended { success: *success },
        }
    }
}

impl View for DownloadAction {
    type V = DownloadActionView;

    open spec fn view(&self) -> DownloadActionView {
        match self {
            DownloadAction::Existing(i) => DownloadActionView::Existing(*i),
            DownloadAction::Run(words) => DownloadActionView::Run(word_views(words@)),
            DownloadAction::Look => DownloadActionView::Look,
            DownloadAction::Done(i) => DownloadActionView::Done(*i),
            DownloadAction::Fail => DownloadActionView::Fail,
            DownloadAction::NoFile => DownloadActionView::NoFile,
        }
    }
}

/// What is downloaded, and to where.
#[derive(Debug, Clone)]
pub struct Download {
    pub url: String,
    pub id: String,
    /// yt-dlp's template of the path that the video gets.
    pub template: String,
    pub max_height: u32,
}

/// The command for a download.
pub open spec fn command_for(yt: YtDlp, d: Download, fresh: bool) -> Seq<WordView> {
    download_line(yt, d.url@, d.template@, d.max_height, fresh)
}

/// Whether an event can happen at a stage.
pub open spec fn download_expected(s: DownloadStage, e: DownloadEventView) -> bool {
    match s {
        DownloadStage::Start | DownloadStage::Looking => e is Files,
        DownloadStage::Saved | DownloadStage::Fresh => e is Ended,
        DownloadStage::Over => false,
    }
}

/// The next stage of a download and what to do, at a stage and an event that can happen there.
pub open spec fn download_step(yt: YtDlp, d: Download, s: DownloadStage, e: DownloadEventView) -> (
    DownloadStage,
    DownloadActionView,
) {
    match (s, e) {
        (DownloadStage::Start, DownloadEventView::Files(names)) => match video_file(names, d.id@) {
            Some(i) => (DownloadStage::Over, DownloadActionView::Existing(i)),
            None => (DownloadStage::Saved, DownloadActionView::Run(command_for(yt, d, false))),
        },
        (DownloadStage::Saved, DownloadEventView::Ended { success }) => if success {
            (DownloadStage::Looking, DownloadActionView::Look)
        } else {
            (DownloadStage::Fresh, DownloadActionView::Run(command_for(yt, d, true)))
        },
        (DownloadStage::Fresh, DownloadEventView::Ended { success }) => if success {
            (DownloadStage::Looking, DownloadActionView::Look)
        } else {
            (DownloadStage::Over, DownloadActionView::Fail)
        },
        (DownloadStage::Looking, DownloadEventView::Files(names)) => match video_file(names, d.id@) {
            Some(i) => (DownloadStage::Over, DownloadActionView::Done(i)),
            None => (DownloadStage::Over, DownloadActionView::NoFile),
        },
        _ => (DownloadStage::Over, DownloadActionView::Fail),
    }
}

impl YtDlp {
    /// The command for a download.
    fn run_next(&self, d: &Download, fresh: bool) -> (r: DownloadAction)
        ensures
            r@ == DownloadActionView::Run(command_for(*self, *d, fresh)),
    {
        DownloadAction::Run(self.download_command(d.url.as_str(), d.template.as_str(), d.max_height, fresh))
    }

    /// How a video is downloaded: from the stage it is at and what has happened, the next stage
    /// and what to do. The saved information is tried first, so that nothing is extracted twice;
    /// where that fails, a fresh extraction follows.
    pub fn download_video(&self, d: &Download, stage: DownloadStage, event: DownloadEvent) -> (r: (
        DownloadStage,
        DownloadAction,
    ))
        requires
            download_expected(stage, event@),
        ensures
            (r.0, r.1@) == download_step(*self, *d, stage, event@),
    {
        match (stage, event) {
            (DownloadStage::Start, DownloadEvent::Files(names)) => match find_video_file(
                names.as_slice(),
                d.id.as_str(),
            ) {
                Some(i) => (DownloadStage::Over, DownloadAction::Existing(i)),
                None => (DownloadStage::Saved, self.run_next(d, false)),
            },
            (DownloadStage::Saved, DownloadEvent::Ended { success }) => if success {
                (DownloadStage::Looking, DownloadAction::Look)
            } else {
                (DownloadStage::Fresh, self.run_next(d, true))
            },
            (DownloadStage::Fresh, DownloadEvent::Ended { success }) => if success {
                (DownloadStage::Looking, DownloadAction::Look)
            } else {
                (DownloadStage::Over, DownloadAction::Fail)
            },
            (DownloadStage::Looking, DownloadEvent::Files(names)) => match find_video_file(
                names.as_slice(),
                d.id.as_str(),
            ) {
                Some(i) => (DownloadStage::Over, DownloadAction::Done(i)),
                None => (DownloadStage::Over, DownloadAction::NoFile),
            },
            _ => (DownloadStage::Over, DownloadAction::Fail),
        }
    }
}

/// How many steps of a download are left at most.
pub open spec fn download_steps_left(s: DownloadStage) -> nat {
    match s {
        DownloadStage::Start => 4,
        DownloadStage::Saved => 3,
        DownloadStage::Fresh => 2,
        DownloadStage::Looking => 1,
        DownloadStage::Over => 0,
    }
}

/// Law: every step brings a download closer to its end, and it ends with a file or a failure.
pub proof fn law_download_ends(yt: YtDlp, d: Download, s: DownloadStage, e: DownloadEventView)
    requires
        download_expected(s, e),
    ensures
        ({
            let (next, action) = download_step(yt, d, s, e);
            &&& download_steps_left(next) < download_steps_left(s)
            &&& next is Over <==> !(action is Run || action is Look)
        }),
{
}

/// Law: nothing is downloaded where the video is there already, and a fresh extraction follows
/// only a failure.
pub proof fn law_downloads_once(yt: YtDlp, d: Download, s: DownloadStage, e: DownloadEventView)
    requires
        download_expected(s, e),
    ensures
        ({
            let (next, action) = download_step(yt, d, s, e);
            action is Run ==> {
                ||| s is Start && next is Saved && video_file(e->Files_0, d.id@) is None
                ||| s is Saved && next is Fresh && !e->success
            }
        }),
{
}

} // verus!
