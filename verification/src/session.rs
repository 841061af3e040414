//! What happens with a video: its folder, its file names, and the order of the steps.

use crate::align::{bicue_views, zip, zipped};
use crate::burn::{count_zh, zh_count};
use crate::captions::{collapse, collapsed, cue_views, Cue, CueView};
use crate::number::{decimal, push_decimal};
use crate::play::{find_beginning, first_beginning, id_prefix};
use crate::subs::{srt_document, write_srt, write_zh_srt, zh_cues};
use crate::text::{begins, string_texts};
use crate::text::{chars_of, has_char, push_str, string_of};
use crate::text_lemmas::{lacks, lemma_joined_lacks, lemma_words_lack};
use crate::ytdlp::{describe_tracks, english_track, forced_track, listing, pick_english, track_kind, Info, Track, TrackView};
use vstd::prelude::*;
use vstd::slice::slice_subrange;

verus! {

// ---- File names ----------------------------------------------------------------------------

/// Whether a character means something to a file system.
pub open spec fn reserved(c: char) -> bool {
    seq!['/', '\\', ':', '*', '?', '"', '<', '>', '|'].contains(c)
}

/// Whether a character is a control character.
pub open spec fn control(c: char) -> bool {
    c as u32 <= 0x1f || 0x7f <= c as u32 <= 0x9f
}

/// A character of a title as a file name can have it.
pub open spec fn safe_char(c: char) -> char {
    if reserved(c) {
        '_'
    } else if control(c) {
        ' '
    } else {
        c
    }
}

/// The characters of a title as a file name can have them.
pub open spec fn safe_chars(s: Seq<char>) -> Seq<char> {
    Seq::new(s.len(), |i: int| safe_char(s[i]))
}

/// Whether a character is cut off at both ends.
pub open spec fn edge(c: char) -> bool {
    c == '.' || c == ' '
}

/// `s` without points and spaces in front.
pub open spec fn without_front(s: Seq<char>) -> Seq<char>
    decreases s.len(),
{
    if s.len() > 0 && edge(s[0]) {
        without_front(s.drop_first())
    } else {
        s
    }
}

/// `s` without points and spaces at the end.
pub open spec fn without_back(s: Seq<char>) -> Seq<char>
    decreases s.len(),
{
    if s.len() > 0 && edge(s.last()) {
        without_back(s.drop_last())
    } else {
        s
    }
}

/// The first `n` characters.
pub open spec fn first_chars(s: Seq<char>, n: nat) -> Seq<char> {
    if s.len() > n {
        s.take(n as int)
    } else {
        s
    }
}

/// A title as a file name: reserved characters become underscores, white space becomes single
/// spaces, points and spaces at the ends go, and at most 100 characters stay; `video` where
/// nothing is left.
pub open spec fn sanitized(title: Seq<char>) -> Seq<char> {
    let s = first_chars(without_back(without_front(collapsed(safe_chars(title)))), 100);
    if s.len() == 0 {
        "video"@
    } else {
        s
    }
}

/// A character of a title as a file name can have it.
fn make_safe(c: char) -> (r: char)
    ensures
        r == safe_char(c),
{
    let bad: Vec<char> = vec!['/', '\\', ':', '*', '?', '"', '<', '>', '|'];
    assert(bad@ =~= seq!['/', '\\', ':', '*', '?', '"', '<', '>', '|']);
    let u = c as u32;
    if has_char(bad.as_slice(), c) {
        '_'
    } else if u <= 0x1f || (0x7f <= u && u <= 0x9f) {
        ' '
    } else {
        c
    }
}

/// Cuts points and spaces off.
fn trim_edges<'a>(s: &'a [char]) -> (r: &'a [char])
    ensures
        r@ == without_back(without_front(s@)),
{
    let mut i: usize = 0;
    assert(s@.skip(0) =~= s@);
    while i < s.len() && (s[i] == '.' || s[i] == ' ')
        invariant
            i <= s.len(),
            without_front(s@.skip(i as int)) == without_front(s@),
        decreases s.len() - i,
    {
        assert(s@.skip(i as int).drop_first() =~= s@.skip(i + 1));
        i = i + 1;
    }
    let ghost t = s@.skip(i as int);
    let mut n: usize = s.len();
    assert(s@.subrange(i as int, n as int) =~= t);
    while n > i && (s[n - 1] == '.' || s[n - 1] == ' ')
        invariant
            i <= n <= s.len(),
            without_back(s@.subrange(i as int, n as int)) == without_back(t),
        decreases n,
    {
        assert(s@.subrange(i as int, n as int).drop_last() =~= s@.subrange(i as int, n - 1));
        n = n - 1;
    }
    slice_subrange(s, i, n)
}

/// Make a title safe as a file name; keeps Unicode, drops path/reserved chars.
pub fn sanitize(title: &str) -> (r: String)
    ensures
        r@ == sanitized(title@),
{
    let t = chars_of(title);
    let mut mapped: Vec<char> = Vec::new();
    for i in 0..t.len()
        invariant
            mapped@.len() == i,
            forall|j: int| 0 <= j < i ==> mapped@[j] == safe_char(t@[j]),
    {
        mapped.push(make_safe(t[i]));
    }
    assert(mapped@ =~= safe_chars(title@));
    let spaced = collapse(mapped.as_slice());
    let s = trim_edges(spaced.as_slice());
    let n: usize = if s.len() > 100 {
        100
    } else {
        s.len()
    };
    let head = slice_subrange(s, 0, n);
    assert(head@ =~= first_chars(s@, 100));
    if head.len() == 0 {
        "video".to_string()
    } else {
        string_of(head)
    }
}

/// Cutting off the front adds no character, and leaves nothing to cut off.
proof fn lemma_without_front(s: Seq<char>, c: char)
    requires
        lacks(s, c),
    ensures
        lacks(without_front(s), c),
        without_front(s).len() > 0 ==> !edge(without_front(s)[0]),
    decreases s.len(),
{
    if s.len() > 0 && edge(s[0]) {
        let t = s.drop_first();
        assert forall|i: int| 0 <= i < t.len() implies #[trigger] t[i] != c by {
            assert(t[i] == s[i + 1]);
        }
        lemma_without_front(t, c);
    }
}

/// Cutting off the end adds no character, and keeps the front.
proof fn lemma_without_back(s: Seq<char>, c: char)
    requires
        lacks(s, c),
    ensures
        lacks(without_back(s), c),
        without_back(s).len() > 0 ==> without_back(s)[0] == s[0],
    decreases s.len(),
{
    if s.len() > 0 && edge(s.last()) {
        let t = s.drop_last();
        assert forall|i: int| 0 <= i < t.len() implies #[trigger] t[i] != c by {
            assert(t[i] == s[i]);
        }
        lemma_without_back(t, c);
    }
}

/// Law: a sanitised title is a file name: it is not empty, has at most 100 characters, does not
/// begin with a point or a space, and holds no reserved or control character.
pub proof fn law_sanitized(title: Seq<char>, c: char)
    requires
        reserved(c) || control(c),
    ensures
        0 < sanitized(title).len() <= 100,
        !edge(sanitized(title)[0]),
        lacks(sanitized(title), c),
{
    let bad = seq!['/', '\\', ':', '*', '?', '"', '<', '>', '|'];
    assert(!bad.contains('_') && !bad.contains(' '));
    let s = safe_chars(title);
    assert(c != ' ') by {
        if reserved(c) {
            let k = choose|k: int| 0 <= k < bad.len() && bad[k] == c;
        }
    }
    assert(c != '_') by {
        if reserved(c) {
            let k = choose|k: int| 0 <= k < bad.len() && bad[k] == c;
        }
    }
    assert forall|i: int| 0 <= i < s.len() implies #[trigger] s[i] != c by {
        assert(s[i] == safe_char(title[i]));
    }
    lemma_words_lack(s, c);
    lemma_joined_lacks(crate::text::words(s), seq![' '], c);
    let a = collapsed(s);
    lemma_without_front(a, c);
    let b = without_front(a);
    lemma_without_back(b, c);
    let d = first_chars(without_back(b), 100);
    assert forall|i: int| 0 <= i < d.len() implies #[trigger] d[i] != c by {
        assert(d[i] == without_back(b)[i]);
    }
    reveal_strlit("video");
    if d.len() == 0 {
        assert forall|i: int| 0 <= i < "video"@.len() implies #[trigger] "video"@[i] != c by {
            let x = "video"@[i];
            assert('a' <= x <= 'z');
            if reserved(c) {
                let k = choose|k: int| 0 <= k < bad.len() && bad[k] == c;
                assert(!('a' <= bad[k] <= 'z'));
            }
        }
    }
}

/// The name of a video's folder where it has none yet.
pub open spec fn folder_name(id: Seq<char>, title: Seq<char>) -> Seq<char> {
    id_prefix(id) + seq![' '] + sanitized(title)
}

/// A video's folder.
#[derive(Debug, PartialEq, Eq)]
pub enum VideoDir {
    /// The folder at this position of the list.
    Existing(usize),
    /// A new folder of this name.
    New(String),
}

/// `<out>/.diolingo/[<id>] <sanitized title>/`. An existing directory whose name starts with
/// `[<id>]` is reused, so a re-run keeps its caches even if the video was renamed on YouTube.
/// `names` holds the names of the directories there are.
pub fn video_dir(names: &[String], id: &str, title: &str) -> (r: VideoDir)
    ensures
        match first_beginning(string_texts(names@), id_prefix(id@)) {
            Some(i) => r == VideoDir::Existing(i),
            None => r matches VideoDir::New(name) && name@ == folder_name(id@, title@),
        },
{
    let mut prefix: Vec<char> = vec!['['];
    push_str(&mut prefix, id);
    prefix.push(']');
    assert(prefix@ =~= id_prefix(id@));
    match find_beginning(names, prefix.as_slice()) {
        Some(i) => VideoDir::Existing(i),
        None => {
            let safe = sanitize(title);
            prefix.push(' ');
            push_str(&mut prefix, safe.as_str());
            assert(prefix@ =~= folder_name(id@, title@));
            VideoDir::New(string_of(prefix.as_slice()))
        },
    }
}

/// Law: a video's folder is found again under any title, where no folder before it has the same
/// id.
pub proof fn law_folder_found_again(names: Seq<Seq<char>>, k: int, id: Seq<char>, title: Seq<char>)
    requires
        0 <= k < names.len() <= usize::MAX,
        names[k] == folder_name(id, title),
        forall|j: int| 0 <= j < k ==> !begins(#[trigger] names[j], id_prefix(id)),
    ensures
        first_beginning(names, id_prefix(id)) == Some(k as usize),
    decreases names.len(),
{
    let p = id_prefix(id);
    let front = names.drop_last();
    if k == names.len() - 1 {
        lemma_none_beginning(front, p);
        assert(folder_name(id, title).subrange(0, p.len() as int) =~= p);
    } else {
        assert forall|j: int| 0 <= j < k implies !begins(#[trigger] front[j], p) by {
            assert(front[j] == names[j]);
        }
        law_folder_found_again(front, k, id, title);
    }
}

/// No name is found where none begins so.
proof fn lemma_none_beginning(names: Seq<Seq<char>>, p: Seq<char>)
    requires
        forall|j: int| 0 <= j < names.len() ==> !begins(#[trigger] names[j], p),
    ensures
        first_beginning(names, p) is None,
    decreases names.len(),
{
    if names.len() > 0 {
        let front = names.drop_last();
        assert forall|j: int| 0 <= j < front.len() implies !begins(#[trigger] front[j], p) by {
            assert(front[j] == names[j]);
        }
        lemma_none_beginning(front, p);
        assert(!begins(names[names.len() - 1], p));
    }
}

/// The title to go by: the id where a video has none.
pub open spec fn title_or_id(title: Seq<char>, id: Seq<char>) -> Seq<char> {
    if title.len() == 0 {
        id
    } else {
        title
    }
}

/// The title to go by: the id where a video has none.
pub fn title_of(info: &Info) -> (r: &str)
    ensures
        r@ == title_or_id(info.title@, info.id@),
{
    if info.title.as_str().is_empty() {
        info.id.as_str()
    } else {
        info.title.as_str()
    }
}

/// What the names of a video's files begin with.
pub open spec fn file_stem(title: Seq<char>, id: Seq<char>) -> Seq<char> {
    sanitized(title) + " ["@ + id + "]"@
}

/// What the names of a video's files begin with.
pub fn stem(title: &str, id: &str) -> (r: String)
    ensures
        r@ == file_stem(title@, id@),
{
    let mut out = chars_of(sanitize(title).as_str());
    push_str(&mut out, " [");
    push_str(&mut out, id);
    push_str(&mut out, "]");
    string_of(out.as_slice())
}

/// The name under which a track's document is kept.
pub open spec fn track_file(t: TrackView, id: Seq<char>) -> Seq<char> {
    id + "."@ + t.key + "."@ + track_kind(t.auto) + "."@ + t.ext
}

/// The name under which a track's document is kept.
pub fn track_cache(track: &Track, id: &str) -> (r: String)
    ensures
        r@ == track_file(track@, id@),
{
    let mut out = chars_of(id);
    push_str(&mut out, ".");
    push_str(&mut out, track.key.as_str());
    push_str(&mut out, ".");
    push_str(&mut out, track.kind());
    push_str(&mut out, ".");
    push_str(&mut out, track.ext.as_str());
    string_of(out.as_slice())
}

// ---- yt-dlp's arguments --------------------------------------------------------------------

/// The arguments that every yt-dlp call gets.
pub open spec fn common_words(browser: Option<Seq<char>>, cookies: Option<Seq<char>>, more: Seq<Seq<char>>) -> Seq<Seq<char>> {
    (match browser {
        Some(b) => seq!["--cookies-from-browser"@, b],
        None => Seq::empty(),
    }) + (match cookies {
        Some(c) => seq!["--cookies"@, c],
        None => Seq::empty(),
    }) + more
}

/// What a text that may be missing is.
pub open spec fn str_view(s: Option<&str>) -> Option<Seq<char>> {
    match s {
        Some(t) => Some(t@),
        None => None,
    }
}

/// Appends a word.
fn add_word(words: &mut Vec<String>, s: &str)
    ensures
        string_texts(final(words)@) == string_texts(old(words)@).push(s@),
{
    let ghost start = words@;
    words.push(s.to_string());
    assert(string_texts(words@) =~= string_texts(start).push(s@));
}

/// The arguments that every yt-dlp call gets: the cookies, then what the user passes through.
pub fn common_args(browser: Option<&str>, cookies: Option<&str>, more: &[String]) -> (r: Vec<String>)
    ensures
        string_texts(r@) == common_words(str_view(browser), str_view(cookies), string_texts(more@)),
{
    let mut words: Vec<String> = Vec::new();
    assert(string_texts(words@) =~= Seq::<Seq<char>>::empty());
    if let Some(b) = browser {
        add_word(&mut words, "--cookies-from-browser");
        add_word(&mut words, b);
        assert(string_texts(words@) =~= seq!["--cookies-from-browser"@, b@]);
    }
    let ghost first = string_texts(words@);
    if let Some(c) = cookies {
        add_word(&mut words, "--cookies");
        add_word(&mut words, c);
        assert(string_texts(words@) =~= first + seq!["--cookies"@, c@]);
    } else {
        assert(string_texts(words@) =~= first + Seq::<Seq<char>>::empty());
    }
    let ghost second = string_texts(words@);
    let ghost all = string_texts(more@);
    assert(second + all.take(0) =~= second);
    for i in 0..more.len()
        invariant
            all == string_texts(more@),
            string_texts(words@) == second + all.take(i as int),
    {
        add_word(&mut words, more[i].as_str());
        assert(second + all.take(i + 1) =~= (second + all.take(i as int)).push(all[i as int]));
    }
    assert(all.take(all.len() as int) =~= all);
    words
}

// ---- The steps for one video ---------------------------------------------------------------

/// What to do with a video.
#[derive(Debug, Clone)]
pub struct Options {
    /// Print the available caption tracks and do nothing else.
    pub list_subs: bool,
    /// Ignore cached captions and downloads in the work directory.
    pub force: bool,
    /// Only produce subtitle files.
    pub no_video: bool,
    /// Write the audio-only file.
    pub audio: bool,
    /// Burn the subtitles in right away.
    pub burn: bool,
    /// Delete the work directory afterwards.
    pub clean: bool,
    /// The English track to take.
    pub en_lang: Option<String>,
}

/// How far a video is.
#[derive(Debug)]
pub enum Stage {
    Start,
    Preparing,
    /// The track with this key is being fetched.
    Fetching(String),
    /// These cues are being translated.
    Translating(Vec<Cue>),
    Writing,
    Downloading,
    Linking,
    Extracting,
    Burning,
    Cleaning,
    Over,
}

/// What has happened.
#[derive(Debug)]
pub enum Event {
    Begin { work_exists: bool },
    /// The last action is done.
    Done,
    Captions(Vec<Cue>),
    Translations(Vec<String>),
    Downloaded { mkv_exists: bool },
}

/// What to do next.
#[derive(Debug)]
pub enum Action {
    /// Print this listing; the video is done.
    List(String),
    /// Make the work directory and the video's folder, and keep yt-dlp's report; first delete the
    /// work directory where `clear` says so.
    Prepare { clear: bool },
    /// Load this track.
    Fetch(Track),
    /// Translate these lines.
    Translate(Vec<String>),
    /// Write the two sidecars.
    Write { en: String, zh: String, cues: usize, with_zh: usize },
    /// Download the video.
    Download,
    /// Put the video into its folder.
    Link,
    /// Write the audio-only file.
    Extract,
    /// Burn the subtitles in.
    Burn,
    /// Delete the work directory.
    Clean,
    /// The video is done.
    Finish,
    /// The video has failed.
    Fail(Failure),
}

/// Why a video fails.
#[derive(Debug)]
pub enum Failure {
    /// There is no track with the key that was asked for.
    NoTrack(String),
    /// There are no English captions at all.
    NoEnglish,
    /// The track with this key has no cues.
    NoCues(String),
}

/// What a `Stage` holds.
pub enum StageView {
    Start,
    Preparing,
    Fetching(Seq<char>),
    Translating(Seq<CueView>),
    Writing,
    Downloading,
    Linking,
    Extracting,
    Burning,
    Cleaning,
    Over,
}

/// What an `Event` says.
pub enum EventView {
    Begin { work_exists: bool },
    Done,
    Captions(Seq<CueView>),
    Translations(Seq<Seq<char>>),
    Downloaded { mkv_exists: bool },
}

/// What an `Action` asks for.
pub enum ActionView {
    List(Seq<char>),
    Prepare { clear: bool },
    Fetch(TrackView),
    Translate(Seq<Seq<char>>),
    Write { en: Seq<char>, zh: Seq<char>, cues: nat, with_zh: nat },
    Download,
    Link,
    Extract,
    Burn,
    Clean,
    Finish,
    Fail(FailureView),
}

/// What a `Failure` says.
pub enum FailureView {
    NoTrack(Seq<char>),
    NoEnglish,
    NoCues(Seq<char>),
}

impl View for Stage {
    type V = StageView;

    open spec fn view(&self) -> StageView {
        match self {
            Stage::Start => StageView::Start,
            Stage::Preparing => StageView::Preparing,
            Stage::Fetching(key) => StageView::Fetching(key@),
            Stage::Translating(cues) => StageView::Translating(cue_views(cues@)),
            Stage::Writing => StageView::Writing,
            Stage::Downloading => StageView::Downloading,
            Stage::Linking => StageView::Linking,
            Stage::Extracting => StageView::Extracting,
            Stage::Burning => StageView::Burning,
            Stage::Cleaning => StageView::Cleaning,
            Stage::Over => StageView::Over,
        }
    }
}

impl View for Event {
    type V = EventView;

    open spec fn view(&self) -> EventView {
        match self {
            Event::Begin { work_exists } => EventView::Begin { work_exists: *work_exists },
            Event::Done => EventView::Done,
            Event::Captions(cues) => EventView::Captions(cue_views(cues@)),
            Event::Translations(lines) => EventView::Translations(string_texts(lines@)),
            Event::Downloaded { mkv_exists } => EventView::Downloaded { mkv_exists: *mkv_exists },
        }
    }
}

impl View for Failure {
    type V = FailureView;

    open spec fn view(&self) -> FailureView {
        match self {
            Failure::NoTrack(key) => FailureView::NoTrack(key@),
            Failure::NoEnglish => FailureView::NoEnglish,
            Failure::NoCues(key) => FailureView::NoCues(key@),
        }
    }
}

impl View for Action {
    type V = ActionView;

    open spec fn view(&self) -> ActionView {
        match self {
            Action::List(s) => ActionView::List(s@),
            Action::Prepare { clear } => ActionView::Prepare { clear: *clear },
            Action::Fetch(t) => ActionView::Fetch(t@),
            Action::Translate(lines) => ActionView::Translate(string_texts(lines@)),
            Action::Write { en, zh, cues, with_zh } => ActionView::Write {
                en: en@,
                zh: zh@,
                cues: *cues as nat,
                with_zh: *with_zh as nat,
            },
            Action::Download => ActionView::Download,
            Action::Link => ActionView::Link,
            Action::Extract => ActionView::Extract,
            Action::Burn => ActionView::Burn,
            Action::Clean => ActionView::Clean,
            Action::Finish => ActionView::Finish,
            Action::Fail(f) => ActionView::Fail(f@),
        }
    }
}

/// Whether an event can happen at a stage.
pub open spec fn expected(s: StageView, e: EventView) -> bool {
    match s {
        StageView::Start => e is Begin,
        StageView::Fetching(_) => e is Captions,
        StageView::Translating(_) => e is Translations,
        StageView::Downloading => e is Downloaded,
        StageView::Over => false,
        _ => e is Done,
    }
}

/// The lines to translate.
pub open spec fn cue_texts(s: Seq<CueView>) -> Seq<Seq<char>> {
    Seq::new(s.len(), |i: int| s[i].text)
}

/// After everything else.
pub open spec fn closing(opts: Options) -> (StageView, ActionView) {
    if opts.clean {
        (StageView::Cleaning, ActionView::Clean)
    } else {
        (StageView::Over, ActionView::Finish)
    }
}

/// After the audio.
pub open spec fn after_audio(opts: Options) -> (StageView, ActionView) {
    if opts.burn {
        (StageView::Burning, ActionView::Burn)
    } else {
        closing(opts)
    }
}

/// Once the video is in its folder.
pub open spec fn after_link(opts: Options) -> (StageView, ActionView) {
    if opts.audio {
        (StageView::Extracting, ActionView::Extract)
    } else {
        after_audio(opts)
    }
}

/// Once the directories are there: the English track is the timeline.
pub open spec fn after_prepare(opts: Options, info: Info) -> (StageView, ActionView) {
    match opts.en_lang {
        Some(key) => match forced_track(info, key@) {
            Some(t) => (StageView::Fetching(t.key), ActionView::Fetch(t)),
            None => (StageView::Over, ActionView::Fail(FailureView::NoTrack(key@))),
        },
        None => match english_track(info) {
            Some(t) => (StageView::Fetching(t.key), ActionView::Fetch(t)),
            None => (StageView::Over, ActionView::Fail(FailureView::NoEnglish)),
        },
    }
}

/// The next stage and what to do, at a stage and an event that can happen there.
pub open spec fn advance(opts: Options, info: Info, s: StageView, e: EventView) -> (StageView, ActionView) {
    match (s, e) {
        (StageView::Start, EventView::Begin { work_exists }) => if opts.list_subs {
            (StageView::Over, ActionView::List(listing(info)))
        } else {
            (StageView::Preparing, ActionView::Prepare { clear: opts.force && work_exists })
        },
        (StageView::Preparing, EventView::Done) => after_prepare(opts, info),
        (StageView::Fetching(key), EventView::Captions(cues)) => if cues.len() == 0 {
            (StageView::Over, ActionView::Fail(FailureView::NoCues(key)))
        } else {
            (StageView::Translating(cues), ActionView::Translate(cue_texts(cues)))
        },
        (StageView::Translating(cues), EventView::Translations(lines)) => {
            let bi = zipped(cues, lines);
            (
                StageView::Writing,
                ActionView::Write {
                    en: srt_document(cues),
                    zh: srt_document(zh_cues(bi)),
                    cues: bi.len(),
                    with_zh: zh_count(bi),
                },
            )
        },
        (StageView::Writing, EventView::Done) => if opts.no_video {
            closing(opts)
        } else {
            (StageView::Downloading, ActionView::Download)
        },
        (StageView::Downloading, EventView::Downloaded { mkv_exists }) => if mkv_exists {
            after_link(opts)
        } else {
            (StageView::Linking, ActionView::Link)
        },
        (StageView::Linking, EventView::Done) => after_link(opts),
        (StageView::Extracting, EventView::Done) => after_audio(opts),
        (StageView::Burning, EventView::Done) => closing(opts),
        _ => (StageView::Over, ActionView::Finish),
    }
}

/// After everything else.
fn close(opts: &Options) -> (r: (Stage, Action))
    ensures
        (r.0@, r.1@) == closing(*opts),
{
    if opts.clean {
        (Stage::Cleaning, Action::Clean)
    } else {
        (Stage::Over, Action::Finish)
    }
}

/// After the audio.
fn burn_next(opts: &Options) -> (r: (Stage, Action))
    ensures
        (r.0@, r.1@) == after_audio(*opts),
{
    if opts.burn {
        (Stage::Burning, Action::Burn)
    } else {
        close(opts)
    }
}

/// Once the video is in its folder.
fn extract_next(opts: &Options) -> (r: (Stage, Action))
    ensures
        (r.0@, r.1@) == after_link(*opts),
{
    if opts.audio {
        (Stage::Extracting, Action::Extract)
    } else {
        burn_next(opts)
    }
}

/// Once the directories are there.
fn fetch_next(opts: &Options, info: &Info) -> (r: (Stage, Action))
    ensures
        (r.0@, r.1@) == after_prepare(*opts, *info),
{
    let force = match &opts.en_lang {
        Some(k) => Some(k.as_str()),
        None => None,
    };
    match pick_english(info, force) {
        Ok(Some(t)) => (Stage::Fetching(t.key.clone()), Action::Fetch(t)),
        Ok(None) => (Stage::Over, Action::Fail(Failure::NoEnglish)),
        Err(e) => (Stage::Over, Action::Fail(Failure::NoTrack(e.key))),
    }
}

/// The lines to translate.
fn lines_of(cues: &Vec<Cue>) -> (r: Vec<String>)
    ensures
        string_texts(r@) == cue_texts(cue_views(cues@)),
{
    let mut out: Vec<String> = Vec::new();
    for i in 0..cues.len()
        invariant
            out@.len() == i,
            forall|j: int| 0 <= j < i ==> (#[trigger] out@[j])@ == cues@[j].text@,
    {
        out.push(cues[i].text.clone());
    }
    assert(string_texts(out@) =~= cue_texts(cue_views(cues@)));
    out
}

/// Once the lines are translated.
fn write_next(cues: &Vec<Cue>, lines: &Vec<String>) -> (r: (Stage, Action))
    ensures
        ({
            let bi = zipped(cue_views(cues@), string_texts(lines@));
            &&& r.0@ == StageView::Writing
            &&& r.1@ == ActionView::Write {
                en: srt_document(cue_views(cues@)),
                zh: srt_document(zh_cues(bi)),
                cues: bi.len(),
                with_zh: zh_count(bi),
            }
        }),
{
    let bi = zip(cues.as_slice(), lines.as_slice());
    assert(bicue_views(bi@).len() == bi@.len());
    (
        Stage::Writing,
        Action::Write {
            en: write_srt(cues.as_slice()),
            zh: write_zh_srt(bi.as_slice()),
            cues: bi.len(),
            with_zh: count_zh(bi.as_slice()),
        },
    )
}

/// What happens to a video: from the stage it is at and what has happened, the next stage and
/// what to do.
pub fn process_video(opts: &Options, info: &Info, stage: Stage, event: Event) -> (r: (Stage, Action))
    requires
        expected(stage@, event@),
    ensures
        (r.0@, r.1@) == advance(*opts, *info, stage@, event@),
{
    match (stage, event) {
        (Stage::Start, Event::Begin { work_exists }) => if opts.list_subs {
            (Stage::Over, Action::List(describe_tracks(info)))
        } else {
            (Stage::Preparing, Action::Prepare { clear: opts.force && work_exists })
        },
        (Stage::Preparing, Event::Done) => fetch_next(opts, info),
        (Stage::Fetching(key), Event::Captions(cues)) => {
            assert(cue_views(cues@).len() == cues@.len());
            if cues.len() == 0 {
                (Stage::Over, Action::Fail(Failure::NoCues(key)))
            } else {
                let lines = lines_of(&cues);
                (Stage::Translating(cues), Action::Translate(lines))
            }
        },
        (Stage::Translating(cues), Event::Translations(lines)) => write_next(&cues, &lines),
        (Stage::Writing, Event::Done) => if opts.no_video {
            close(opts)
        } else {
            (Stage::Downloading, Action::Download)
        },
        (Stage::Downloading, Event::Downloaded { mkv_exists }) => if mkv_exists {
            extract_next(opts)
        } else {
            (Stage::Linking, Action::Link)
        },
        (Stage::Linking, Event::Done) => extract_next(opts),
        (Stage::Extracting, Event::Done) => burn_next(opts),
        (Stage::Burning, Event::Done) => close(opts),
        _ => (Stage::Over, Action::Finish),
    }
}

/// How many steps are left at most.
pub open spec fn steps_left(s: StageView) -> nat {
    match s {
        StageView::Start => 10,
        StageView::Preparing => 9,
        StageView::Fetching(_) => 8,
        StageView::Translating(_) => 7,
        StageView::Writing => 6,
        StageView::Downloading => 5,
        StageView::Linking => 4,
        StageView::Extracting => 3,
        StageView::Burning => 2,
        StageView::Cleaning => 1,
        StageView::Over => 0,
    }
}

/// Law: every step brings a video closer to its end, and an end is a listing, a success or a
/// failure.
pub proof fn law_process_ends(opts: Options, info: Info, s: StageView, e: EventView)
    requires
        expected(s, e),
    ensures
        ({
            let (next, action) = advance(opts, info, s, e);
            &&& steps_left(next) < steps_left(s)
            &&& next is Over <==> action is List || action is Finish || action is Fail
        }),
{
}

/// Law: without video, nothing is downloaded, extracted or burned.
pub proof fn law_no_video(opts: Options, info: Info, s: StageView, e: EventView)
    requires
        expected(s, e),
        opts.no_video,
        !(s is Downloading || s is Linking || s is Extracting || s is Burning),
    ensures
        ({
            let (next, action) = advance(opts, info, s, e);
            &&& !(next is Downloading || next is Linking || next is Extracting || next is Burning)
            &&& !(action is Download || action is Link || action is Extract || action is Burn)
        }),
{
}

/// Law: the work directory is deleted last, and only where that was asked for.
pub proof fn law_clean_last(opts: Options, info: Info, s: StageView, e: EventView)
    requires
        expected(s, e),
    ensures
        ({
            let (next, action) = advance(opts, info, s, e);
            &&& action is Clean <==> next is Cleaning
            &&& action is Clean ==> opts.clean
            &&& s is Cleaning ==> next is Over && action is Finish
        }),
{
}

/// What is reported at the end where videos have failed.
pub open spec fn failure_text(failures: nat) -> Option<Seq<char>> {
    if failures == 0 {
        None
    } else {
        Some(decimal(failures) + " video(s) failed"@)
    }
}

/// What is reported at the end where videos have failed; nothing where none has.
pub fn report_failures(failures: usize) -> (r: Option<String>)
    ensures
        match failure_text(failures as nat) {
            Some(s) => r is Some && r->0@ == s,
            None => r is None,
        },
{
    if failures == 0 {
        return None;
    }
    let mut out: Vec<char> = Vec::new();
    push_decimal(&mut out, failures as u64);
    push_str(&mut out, " video(s) failed");
    assert(out@ =~= decimal(failures as nat) + " video(s) failed"@);
    Some(string_of(out.as_slice()))
}

// ---- Playlists -----------------------------------------------------------------------------

/// How far a playlist is: how many entries are done, and how many of them failed.
#[derive(Debug, Clone, Copy, PartialEq, Eq)]
pub struct Walk {
    pub done: usize,
    pub failures: usize,
}

/// What to do next with a playlist.
#[derive(Debug, Clone, Copy, PartialEq, Eq)]
pub enum WalkAction {
    /// Process the entry with this number.
    Process(usize),
    /// All entries are done.
    Finish,
}

/// Whether a walk through `total` entries can be where it is; `failed` tells how the entry that
/// was processed last went, where one was.
pub open spec fn walk_expected(total: usize, w: Walk, failed: Option<bool>) -> bool {
    &&& w.failures <= w.done <= total
    &&& failed is Some ==> w.done < total
}

/// A walk after an entry: one more is done, and one more has failed where that entry did.
pub open spec fn walked(w: Walk, failed: Option<bool>) -> Walk {
    match failed {
        Some(f) => Walk {
            done: (w.done + 1) as usize,
            failures: if f {
                (w.failures + 1) as usize
            } else {
                w.failures
            },
        },
        None => w,
    }
}

/// What comes next: the next entry, until there is none.
pub open spec fn walk_action(total: usize, w: Walk) -> WalkAction {
    if w.done < total {
        WalkAction::Process(w.done)
    } else {
        WalkAction::Finish
    }
}

impl Walk {
    /// A walk begins.
    pub fn new() -> (r: Walk)
        ensures
            r == (Walk { done: 0, failures: 0 }),
    {
        Walk { done: 0, failures: 0 }
    }
}

/// Walks through the entries of a playlist: a failure is counted and does not stop the rest.
pub fn next_entry(total: usize, w: Walk, failed: Option<bool>) -> (r: (Walk, WalkAction))
    requires
        walk_expected(total, w, failed),
    ensures
        r.0 == walked(w, failed),
        r.1 == walk_action(total, r.0),
{
    let next = match failed {
        Some(f) => Walk {
            done: w.done + 1,
            failures: if f {
                w.failures + 1
            } else {
                w.failures
            },
        },
        None => w,
    };
    if next.done < total {
        (next, WalkAction::Process(next.done))
    } else {
        (next, WalkAction::Finish)
    }
}

/// Where a walk is after entries that went like this, `true` for a failure.
pub open spec fn walk_after(results: Seq<bool>) -> Walk
    decreases results.len(),
{
    if results.len() == 0 {
        Walk { done: 0, failures: 0 }
    } else {
        walked(walk_after(results.drop_last()), Some(results.last()))
    }
}

/// How many have failed.
pub open spec fn failure_count(results: Seq<bool>) -> nat
    decreases results.len(),
{
    if results.len() == 0 {
        0
    } else {
        failure_count(results.drop_last()) + if results.last() {
            1nat
        } else {
            0nat
        }
    }
}

/// Law: whatever went wrong with the entries so far, the next one is processed, in their order,
/// until all are done; and every failure is counted.
pub proof fn law_every_entry_processed(total: usize, results: Seq<bool>)
    requires
        results.len() <= total,
    ensures
        ({
            let w = walk_after(results);
            &&& w.done == results.len()
            &&& w.failures == failure_count(results)
            &&& walk_expected(total, w, None)
            &&& walk_action(total, w) == if results.len() < total {
                WalkAction::Process(results.len() as usize)
            } else {
                WalkAction::Finish
            }
        }),
    decreases results.len(),
{
    if results.len() > 0 {
        law_every_entry_processed(total, results.drop_last());
    }
}

} // verus!
