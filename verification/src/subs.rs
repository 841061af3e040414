//! Subtitle writers: SRT (plain) and ASS (styled, two named styles).

use crate::align::{bicue_views, BiCue, BiCueView};
use crate::captions::{cue_views, with_text, Cue, CueView};
use crate::number::{decimal, padded, pow2, push_decimal, push_padded, significant};
use crate::number::round_significant;
use crate::text::{chars_of, push_all, push_str, replace, replaced, string_of};
use crate::text::split;
use crate::text_lemmas::{lacks, lemma_joined_lacks, lemma_replaced_lacks, lemma_split_at_lacks};
use vstd::prelude::*;

verus! {

/// Which language goes on the top line of each bilingual cue.
#[derive(Debug, Clone, Copy, PartialEq, Eq, Structural)]
pub enum Order {
    EnZh,
    ZhEn,
}

/// Fonts, sizes and margins of the styled subtitles.
pub struct AssStyle<'a> {
    pub font_en: &'a str,
    pub font_zh: &'a str,
    /// Canvas the sizes below refer to (`PlayResX`/`PlayResY`).
    pub play_res: (u32, u32),
    pub size_en: u32,
    pub size_zh: u32,
    pub margin_h: u32,
    pub margin_v: u32,
}

/// Where `mantissa` is an integer of 24 binary digits: `h` times `mantissa` over `2` to the power
/// `down`, as arithmetic with 24 significant binary digits gives it, rounded to the nearest
/// integer, halves up, and kept within `u32`.
pub open spec fn scaled(h: u32, mantissa: nat, down: nat) -> u32 {
    let product = significant(significant(h as nat, 24) * mantissa, 24);
    let n = (product + pow2((down - 1) as nat)) / pow2(down);
    if n <= u32::MAX {
        n as u32
    } else {
        u32::MAX
    }
}

/// The 24 binary digits of `0.20`, which is this over `2` to the power 26.
pub const FIFTH: u32 = 13_421_773;

/// The 24 binary digits of `0.18`, which is this over `2` to the power 26.
pub const EIGHTEEN_PERCENT: u32 = 12_079_596;

/// The 24 binary digits of `0.06`, which is this over `2` to the power 28.
pub const SIX_PERCENT: u32 = 16_106_127;

/// `2` to the powers that the scales above use.
proof fn lemma_scale_units()
    ensures
        pow2(23) == 0x80_0000,
        pow2(24) == 0x100_0000,
        pow2(25) == 0x200_0000,
        pow2(26) == 0x400_0000,
        pow2(27) == 0x800_0000,
        pow2(28) == 0x1000_0000,
{
    reveal_with_fuel(pow2, 29);
}

/// A bound on what rounding can add.
proof fn lemma_significant_small(n: nat, bits: nat)
    requires
        bits > 0,
    ensures
        significant(n, bits) <= 2 * n + 1,
{
    crate::number::lemma_significant_bounds(n, bits);
}

/// Scales `h` by `mantissa` over `2` to the power `down`.
pub(crate) fn scale(h: u32, mantissa: u32, down: u8) -> (r: u32)
    requires
        down == 24 || down == 26 || down == 28,
        mantissa < 0x100_0000,
    ensures
        r == scaled(h, mantissa as nat, down as nat),
{
    let unit: u128 = if down == 24 {
        0x100_0000
    } else if down == 26 {
        0x400_0000
    } else {
        0x1000_0000
    };
    proof {
        lemma_scale_units();
        lemma_significant_small(h as nat, 24);
    }
    let wide = round_significant(h as u64, 24);
    assert(wide * mantissa < 0x8_0000_0000 * 0x100_0000) by (nonlinear_arith)
        requires
            wide < 0x8_0000_0000,
            mantissa < 0x100_0000,
    ;
    let exact: u64 = wide as u64 * mantissa as u64;
    proof {
        lemma_significant_small(exact as nat, 24);
    }
    let product = round_significant(exact, 24);
    let n: u128 = (product + unit / 2) / unit;
    assert(unit == pow2(down as nat));
    assert(unit / 2 == pow2((down - 1) as nat));
    if n <= 0xffff_ffff {
        n as u32
    } else {
        u32::MAX
    }
}

/// The style of a full video frame.
pub open spec fn video_style<'a>(font_en: &'a str, font_zh: &'a str) -> AssStyle<'a> {
    AssStyle {
        font_en,
        font_zh,
        play_res: (1920, 1080),
        size_en: 54,
        size_zh: 48,
        margin_h: 80,
        margin_v: 42,
    }
}

/// The style of a subtitle-only window: sizes of a fifth and 18% of its height, and a margin of
/// 6% below.
pub open spec fn player_style<'a>(font_en: &'a str, font_zh: &'a str, size: (u32, u32)) -> AssStyle<'a> {
    AssStyle {
        font_en,
        font_zh,
        play_res: size,
        size_en: scaled(size.1, FIFTH as nat, 26),
        size_zh: scaled(size.1, EIGHTEEN_PERCENT as nat, 26),
        margin_h: 20,
        margin_v: scaled(size.1, SIX_PERCENT as nat, 28),
    }
}

impl<'a> AssStyle<'a> {
    /// Style for a full video frame (1080p canvas; libass scales it to the real size).
    pub fn video(font_en: &'a str, font_zh: &'a str) -> (r: Self)
        ensures
            r == video_style(font_en, font_zh),
    {
        AssStyle {
            font_en,
            font_zh,
            play_res: (1920, 1080),
            size_en: 54,
            size_zh: 48,
            margin_h: 80,
            margin_v: 42,
        }
    }

    /// Style for a subtitle-only window of `width`x`height` pixels: the canvas
    /// equals the window, so the sizes are absolute pixels.
    pub fn player(font_en: &'a str, font_zh: &'a str, width: u32, height: u32) -> (r: Self)
        ensures
            r == player_style(font_en, font_zh, (width, height)),
    {
        AssStyle {
            font_en,
            font_zh,
            play_res: (width, height),
            size_en: scale(height, FIFTH, 26),
            size_zh: scale(height, EIGHTEEN_PERCENT, 26),
            margin_h: 20,
            margin_v: scale(height, SIX_PERCENT, 28),
        }
    }
}

// ---- SRT -----------------------------------------------------------------------------------

/// A time as SRT writes it: `HH:MM:SS,mmm`.
pub open spec fn srt_stamp(ms: u64) -> Seq<char> {
    padded((ms / 3_600_000) as nat, 2) + seq![':'] + padded(((ms / 60_000) % 60) as nat, 2)
        + seq![':'] + padded(((ms / 1000) % 60) as nat, 2) + seq![','] + padded(
        (ms % 1000) as nat,
        3,
    )
}

/// Appends a time as SRT writes it.
fn push_srt_time(out: &mut Vec<char>, ms: u64)
    ensures
        final(out)@ == old(out)@ + srt_stamp(ms),
{
    let ghost start = out@;
    push_padded(out, ms / 3_600_000, 2);
    out.push(':');
    push_padded(out, (ms / 60_000) % 60, 2);
    out.push(':');
    push_padded(out, (ms / 1000) % 60, 2);
    out.push(',');
    push_padded(out, ms % 1000, 3);
    assert(out@ =~= start + srt_stamp(ms));
}

/// A time as SRT writes it: `HH:MM:SS,mmm`.
pub fn srt_time(ms: u64) -> (r: String)
    ensures
        r@ == srt_stamp(ms),
{
    let mut out: Vec<char> = Vec::new();
    push_srt_time(&mut out, ms);
    assert(out@ =~= srt_stamp(ms));
    string_of(out.as_slice())
}

/// Entry `n` of an SRT document.
pub open spec fn srt_entry(n: nat, c: CueView) -> Seq<char> {
    decimal(n) + seq!['\n'] + srt_stamp(c.start_ms) + " --> "@ + srt_stamp(c.end_ms) + seq!['\n']
        + c.text + seq!['\n', '\n']
}

/// The entries one behind the other, counted from one.
pub open spec fn srt_entries(s: Seq<CueView>) -> Seq<char>
    decreases s.len(),
{
    if s.len() == 0 {
        Seq::empty()
    } else {
        srt_entries(s.drop_last()) + srt_entry(s.len(), s.last())
    }
}

/// The SRT document of the cues that have text.
pub open spec fn srt_document(s: Seq<CueView>) -> Seq<char> {
    srt_entries(with_text(s))
}

/// Appends an entry where there is text, and returns how many there are then.
fn push_srt_entry(out: &mut Vec<char>, count: usize, start_ms: u64, end_ms: u64, text: &str) -> (r: usize)
    requires
        count < usize::MAX,
    ensures
        text@.len() == 0 ==> r == count && final(out)@ == old(out)@,
        text@.len() > 0 ==> r == count + 1 && final(out)@ == old(out)@ + srt_entry(
            (count + 1) as nat,
            CueView { start_ms, end_ms, text: text@ },
        ),
{
    if text.is_empty() {
        return count;
    }
    let ghost start = out@;
    let n: usize = count + 1;
    push_decimal(out, n as u64);
    out.push('\n');
    push_srt_time(out, start_ms);
    push_str(out, " --> ");
    push_srt_time(out, end_ms);
    out.push('\n');
    push_str(out, text);
    out.push('\n');
    out.push('\n');
    assert(out@ =~= start + srt_entry(n as nat, CueView { start_ms, end_ms, text: text@ }));
    n
}

/// One more cue in the list of those that have text.
proof fn lemma_document_step(s: Seq<CueView>, i: int)
    requires
        0 <= i < s.len(),
    ensures
        s[i].text.len() == 0 ==> srt_document(s.take(i + 1)) == srt_document(s.take(i)),
        s[i].text.len() > 0 ==> srt_document(s.take(i + 1)) == srt_document(s.take(i)) + srt_entry(
            with_text(s.take(i)).len() + 1,
            s[i],
        ),
        with_text(s.take(i + 1)).len() == with_text(
            s.take(i),
        ).len() + if s[i].text.len() > 0 {
            1nat
        } else {
            0nat
        },
{
    reveal(Seq::filter);
    let prev = with_text(s.take(i));
    assert(s.take(i + 1).drop_last() =~= s.take(i));
    assert(s.take(i + 1).last() == s[i]);
    if s[i].text.len() > 0 {
        assert(with_text(s.take(i + 1)) == prev.push(s[i]));
        assert(prev.push(s[i]).drop_last() =~= prev);
    }
}

/// Before the first cue.
proof fn lemma_document_start(s: Seq<CueView>)
    ensures
        srt_document(s.take(0)) == Seq::<char>::empty(),
        with_text(s.take(0)).len() == 0,
{
    reveal(Seq::filter);
}

/// Single-language SRT from plain cues.
pub fn write_srt(cues: &[Cue]) -> (r: String)
    ensures
        r@ == srt_document(cue_views(cues@)),
{
    let mut out: Vec<char> = Vec::new();
    let mut count: usize = 0;
    let ghost all = cue_views(cues@);
    proof {
        lemma_document_start(all);
    }
    for i in 0..cues.len()
        invariant
            all == cue_views(cues@),
            count <= i,
            count == with_text(all.take(i as int)).len(),
            out@ == srt_document(all.take(i as int)),
    {
        proof {
            lemma_document_step(all, i as int);
        }
        let c = &cues[i];
        count = push_srt_entry(&mut out, count, c.start_ms, c.end_ms, c.text.as_str());
    }
    assert(all.take(all.len() as int) =~= all);
    string_of(out.as_slice())
}

/// The Chinese of bilingual cues.
pub open spec fn zh_cues(s: Seq<BiCueView>) -> Seq<CueView> {
    Seq::new(
        s.len(),
        |i: int| CueView { start_ms: s[i].start_ms, end_ms: s[i].end_ms, text: s[i].zh },
    )
}

/// Chinese-only SRT taken from the bilingual cues.
pub fn write_zh_srt(cues: &[BiCue]) -> (r: String)
    ensures
        r@ == srt_document(zh_cues(bicue_views(cues@))),
{
    let mut out: Vec<char> = Vec::new();
    let mut count: usize = 0;
    let ghost all = zh_cues(bicue_views(cues@));
    proof {
        lemma_document_start(all);
    }
    for i in 0..cues.len()
        invariant
            all == zh_cues(bicue_views(cues@)),
            count <= i,
            count == with_text(all.take(i as int)).len(),
            out@ == srt_document(all.take(i as int)),
    {
        proof {
            lemma_document_step(all, i as int);
        }
        let c = &cues[i];
        count = push_srt_entry(&mut out, count, c.start_ms, c.end_ms, c.zh.as_str());
    }
    assert(all.take(all.len() as int) =~= all);
    string_of(out.as_slice())
}

/// Both languages of a cue on separate lines, or the only one there is.
pub open spec fn both_lines(c: BiCueView, order: Order) -> Seq<char> {
    if c.en.len() == 0 {
        c.zh
    } else if c.zh.len() == 0 {
        c.en
    } else {
        match order {
            Order::EnZh => c.en + seq!['\n'] + c.zh,
            Order::ZhEn => c.zh + seq!['\n'] + c.en,
        }
    }
}

/// Bilingual cues as cues of both lines.
pub open spec fn both_cues(s: Seq<BiCueView>, order: Order) -> Seq<CueView> {
    Seq::new(
        s.len(),
        |i: int|
            CueView {
                start_ms: s[i].start_ms,
                end_ms: s[i].end_ms,
                text: both_lines(s[i], order),
            },
    )
}

/// Both languages of a cue.
fn join_lines(c: &BiCue, order: Order) -> (r: String)
    ensures
        r@ == both_lines(c@, order),
{
    if c.en.as_str().is_empty() {
        return c.zh.clone();
    }
    if c.zh.as_str().is_empty() {
        return c.en.clone();
    }
    let (mut first, second) = match order {
        Order::EnZh => (c.en.clone(), c.zh.as_str()),
        Order::ZhEn => (c.zh.clone(), c.en.as_str()),
    };
    let ghost top = first@;
    first.push('\n');
    first.append(second);
    assert(first@ =~= top + seq!['\n'] + second@);
    first
}

/// Bilingual SRT: one cue with the two languages on separate lines.
pub fn write_bilingual_srt(cues: &[BiCue], order: Order) -> (r: String)
    ensures
        r@ == srt_document(both_cues(bicue_views(cues@), order)),
{
    let mut out: Vec<char> = Vec::new();
    let mut count: usize = 0;
    let ghost all = both_cues(bicue_views(cues@), order);
    proof {
        lemma_document_start(all);
    }
    for i in 0..cues.len()
        invariant
            all == both_cues(bicue_views(cues@), order),
            count <= i,
            count == with_text(all.take(i as int)).len(),
            out@ == srt_document(all.take(i as int)),
    {
        proof {
            lemma_document_step(all, i as int);
        }
        let c = &cues[i];
        let text = join_lines(c, order);
        count = push_srt_entry(&mut out, count, c.start_ms, c.end_ms, text.as_str());
    }
    assert(all.take(all.len() as int) =~= all);
    string_of(out.as_slice())
}

// ---- ASS -----------------------------------------------------------------------------------

/// A time as ASS writes it, to the nearest hundredth of a second: `H:MM:SS.cc`.
pub open spec fn ass_stamp(ms: u64) -> Seq<char> {
    let cs = (ms + 5) / 10;
    decimal((cs / 360_000) as nat) + seq![':'] + padded(((cs / 6000) % 60) as nat, 2) + seq![':']
        + padded(((cs / 100) % 60) as nat, 2) + seq!['.'] + padded((cs % 100) as nat, 2)
}

/// Appends a time as ASS writes it.
fn push_ass_time(out: &mut Vec<char>, ms: u64)
    ensures
        final(out)@ == old(out)@ + ass_stamp(ms),
{
    let ghost start = out@;
    let cs: u64 = if ms % 10 >= 5 {
        ms / 10 + 1
    } else {
        ms / 10
    };
    assert(cs == (ms + 5) / 10);
    push_decimal(out, cs / 360_000);
    out.push(':');
    push_padded(out, (cs / 6000) % 60, 2);
    out.push(':');
    push_padded(out, (cs / 100) % 60, 2);
    out.push('.');
    push_padded(out, cs % 100, 2);
    assert(out@ =~= start + ass_stamp(ms));
}

/// A time as ASS writes it: `H:MM:SS.cc`.
pub fn ass_time(ms: u64) -> (r: String)
    ensures
        r@ == ass_stamp(ms),
{
    let mut out: Vec<char> = Vec::new();
    push_ass_time(&mut out, ms);
    assert(out@ =~= ass_stamp(ms));
    string_of(out.as_slice())
}

/// `s` with the braces of ASS override blocks made full-width and line breaks written out.
pub open spec fn ass_escaped(s: Seq<char>) -> Seq<char> {
    replaced(
        replaced(replaced(s, seq!['{'], seq!['｛']), seq!['}'], seq!['｝']),
        seq!['\n'],
        seq!['\\', 'N'],
    )
}

/// Law: escaped text opens no override block and breaks no line.
pub proof fn law_ass_escaped(s: Seq<char>)
    ensures
        lacks(ass_escaped(s), '{'),
        lacks(ass_escaped(s), '}'),
        lacks(ass_escaped(s), '\n'),
{
    let a = replaced(s, seq!['{'], seq!['｛']);
    let b = replaced(a, seq!['}'], seq!['｝']);
    lemma_split_at_lacks(s, '{');
    lemma_joined_lacks(split(s, seq!['{']), seq!['｛'], '{');
    lemma_replaced_lacks(a, seq!['}'], seq!['｝'], '{');
    lemma_replaced_lacks(b, seq!['\n'], seq!['\\', 'N'], '{');
    lemma_split_at_lacks(a, '}');
    lemma_joined_lacks(split(a, seq!['}']), seq!['｝'], '}');
    lemma_replaced_lacks(b, seq!['\n'], seq!['\\', 'N'], '}');
    lemma_split_at_lacks(b, '\n');
    lemma_joined_lacks(split(b, seq!['\n']), seq!['\\', 'N'], '\n');
}

/// Escapes a text for ASS.
fn ass_escape(text: &str) -> (r: Vec<char>)
    ensures
        r@ == ass_escaped(text@),
{
    let open: Vec<char> = vec!['{'];
    let wide_open: Vec<char> = vec!['｛'];
    let close: Vec<char> = vec!['}'];
    let wide_close: Vec<char> = vec!['｝'];
    let newline: Vec<char> = vec!['\n'];
    let broken: Vec<char> = vec!['\\', 'N'];
    assert(open@ =~= seq!['{'] && wide_open@ =~= seq!['｛']);
    assert(close@ =~= seq!['}'] && wide_close@ =~= seq!['｝']);
    assert(newline@ =~= seq!['\n'] && broken@ =~= seq!['\\', 'N']);
    let s = replace(chars_of(text).as_slice(), open.as_slice(), wide_open.as_slice());
    let s = replace(s.as_slice(), close.as_slice(), wide_close.as_slice());
    replace(s.as_slice(), newline.as_slice(), broken.as_slice())
}

/// A style line.
pub open spec fn ass_style_line(name: Seq<char>, font: Seq<char>, size: u32, colour: Seq<char>, style: AssStyle) -> Seq<char> {
    "Style: "@ + name + ","@ + font + ","@ + decimal(size as nat) + ","@ + colour
        + ",&H000000FF,&H00000000,&H80000000,0,0,0,0,100,100,0,0,1,2.5,1,2,"@ + decimal(
        style.margin_h as nat,
    ) + ","@ + decimal(style.margin_h as nat) + ","@ + decimal(style.margin_v as nat) + ",1\n"@
}

/// Everything in front of the dialogue lines.
pub open spec fn ass_header(style: AssStyle) -> Seq<char> {
    "[Script Info]\nScriptType: v4.00+\nPlayResX: "@ + decimal(style.play_res.0 as nat)
        + "\nPlayResY: "@ + decimal(style.play_res.1 as nat)
        + "\nWrapStyle: 0\nScaledBorderAndShadow: yes\nYCbCr Matrix: None\n\n"@
        + "[V4+ Styles]\nFormat: Name, Fontname, Fontsize, PrimaryColour, SecondaryColour, OutlineColour, BackColour, Bold, Italic, Underline, StrikeOut, ScaleX, ScaleY, Spacing, Angle, BorderStyle, Outline, Shadow, Alignment, MarginL, MarginR, MarginV, Encoding\n"@
        + ass_style_line("EN"@, style.font_en@, style.size_en, "&H00FFFFFF"@, style)
        + ass_style_line("ZH"@, style.font_zh@, style.size_zh, "&H0096E6FF"@, style)
        + "\n[Events]\nFormat: Layer, Start, End, Style, Name, MarginL, MarginR, MarginV, Effect, Text\n"@
}

/// The style and the text of a cue's dialogue line; none where the cue has no text.
pub open spec fn ass_dialogue(c: BiCueView, order: Order) -> Option<(Seq<char>, Seq<char>)> {
    let en = ass_escaped(c.en);
    let zh = ass_escaped(c.zh);
    if en.len() == 0 && zh.len() == 0 {
        None
    } else if zh.len() == 0 {
        Some(("EN"@, en))
    } else if en.len() == 0 {
        Some(("ZH"@, zh))
    } else {
        match order {
            Order::EnZh => Some(("EN"@, en + "\\N{\\rZH}"@ + zh)),
            Order::ZhEn => Some(("ZH"@, zh + "\\N{\\rEN}"@ + en)),
        }
    }
}

/// The dialogue line of a cue.
#[verifier::opaque]
pub open spec fn ass_line(c: BiCueView, order: Order) -> Seq<char> {
    match ass_dialogue(c, order) {
        Some((name, text)) => "Dialogue: 0,"@ + ass_stamp(c.start_ms) + ","@ + ass_stamp(c.end_ms)
            + ","@ + name + ",,0,0,0,,"@ + text + "\n"@,
        None => Seq::empty(),
    }
}

/// The dialogue lines of the cues.
pub open spec fn ass_lines(s: Seq<BiCueView>, order: Order) -> Seq<char>
    decreases s.len(),
{
    if s.len() == 0 {
        Seq::empty()
    } else {
        ass_lines(s.drop_last(), order) + ass_line(s.last(), order)
    }
}

/// The ASS document of the cues.
pub open spec fn ass_document(s: Seq<BiCueView>, order: Order, style: AssStyle) -> Seq<char> {
    ass_header(style) + ass_lines(s, order)
}

/// Appends a style line.
fn push_style_line(out: &mut Vec<char>, name: &str, font: &str, size: u32, colour: &str, style: &AssStyle)
    ensures
        final(out)@ == old(out)@ + ass_style_line(name@, font@, size, colour@, *style),
{
    let ghost start = out@;
    push_str(out, "Style: ");
    push_str(out, name);
    push_str(out, ",");
    push_str(out, font);
    push_str(out, ",");
    push_decimal(out, size as u64);
    push_str(out, ",");
    push_str(out, colour);
    push_str(out, ",&H000000FF,&H00000000,&H80000000,0,0,0,0,100,100,0,0,1,2.5,1,2,");
    push_decimal(out, style.margin_h as u64);
    push_str(out, ",");
    push_decimal(out, style.margin_h as u64);
    push_str(out, ",");
    push_decimal(out, style.margin_v as u64);
    push_str(out, ",1\n");
    assert(out@ =~= start + ass_style_line(name@, font@, size, colour@, *style));
}

/// Everything in front of the dialogue lines.
fn ass_head(style: &AssStyle) -> (r: Vec<char>)
    ensures
        r@ == ass_header(*style),
{
    let mut out: Vec<char> = Vec::new();
    push_str(&mut out, "[Script Info]\nScriptType: v4.00+\nPlayResX: ");
    push_decimal(&mut out, style.play_res.0 as u64);
    push_str(&mut out, "\nPlayResY: ");
    push_decimal(&mut out, style.play_res.1 as u64);
    push_str(&mut out, "\nWrapStyle: 0\nScaledBorderAndShadow: yes\nYCbCr Matrix: None\n\n");
    push_str(&mut out, "[V4+ Styles]\nFormat: Name, Fontname, Fontsize, PrimaryColour, SecondaryColour, OutlineColour, BackColour, Bold, Italic, Underline, StrikeOut, ScaleX, ScaleY, Spacing, Angle, BorderStyle, Outline, Shadow, Alignment, MarginL, MarginR, MarginV, Encoding\n");
    push_style_line(&mut out, "EN", style.font_en, style.size_en, "&H00FFFFFF", style);
    push_style_line(&mut out, "ZH", style.font_zh, style.size_zh, "&H0096E6FF", style);
    push_str(&mut out, "\n[Events]\nFormat: Layer, Start, End, Style, Name, MarginL, MarginR, MarginV, Effect, Text\n");
    assert(out@ =~= ass_header(*style));
    out
}

/// The style and the text of a cue's dialogue line.
fn dialogue(c: &BiCue, order: Order) -> (r: Option<(&'static str, Vec<char>)>)
    ensures
        match ass_dialogue(c@, order) {
            Some((name, text)) => r is Some && (r->0).0@ == name && (r->0).1@ == text,
            None => r is None,
        },
{
    let mut en = ass_escape(c.en.as_str());
    let mut zh = ass_escape(c.zh.as_str());
    if en.len() == 0 && zh.len() == 0 {
        None
    } else if zh.len() == 0 {
        Some(("EN", en))
    } else if en.len() == 0 {
        Some(("ZH", zh))
    } else {
        match order {
            Order::EnZh => {
                push_str(&mut en, "\\N{\\rZH}");
                push_all(&mut en, zh.as_slice());
                Some(("EN", en))
            },
            Order::ZhEn => {
                push_str(&mut zh, "\\N{\\rEN}");
                push_all(&mut zh, en.as_slice());
                Some(("ZH", zh))
            },
        }
    }
}

/// Appends the dialogue line of a cue.
fn push_ass_line(out: &mut Vec<char>, c: &BiCue, order: Order)
    ensures
        final(out)@ == old(out)@ + ass_line(c@, order),
{
    let ghost start = out@;
    proof {
        reveal(ass_line);
    }
    match dialogue(c, order) {
        Some((name, text)) => {
            push_str(out, "Dialogue: 0,");
            push_ass_time(out, c.start_ms);
            push_str(out, ",");
            push_ass_time(out, c.end_ms);
            push_str(out, ",");
            push_str(out, name);
            push_str(out, ",,0,0,0,,");
            push_all(out, text.as_slice());
            push_str(out, "\n");
            assert(out@ =~= start + ass_line(c@, order));
        },
        None => {
            assert(out@ =~= start + Seq::<char>::empty());
        },
    }
}

/// Styled bilingual ASS. English uses style `EN`, Chinese uses style `ZH`;
/// the second line of each cue switches style with `{\rZH}` / `{\rEN}`.
pub fn write_ass(cues: &[BiCue], order: Order, style: &AssStyle) -> (r: String)
    ensures
        r@ == ass_document(bicue_views(cues@), order, *style),
{
    let mut out = ass_head(style);
    let ghost head = out@;
    let ghost all = bicue_views(cues@);
    assert(head =~= head + ass_lines(all.take(0), order));
    for i in 0..cues.len()
        invariant
            all == bicue_views(cues@),
            out@ == head + ass_lines(all.take(i as int), order),
    {
        let ghost before = ass_lines(all.take(i as int), order);
        assert(all.take(i + 1).drop_last() =~= all.take(i as int));
        assert(all.take(i + 1).last() == cues@[i as int]@);
        push_ass_line(&mut out, &cues[i], order);
        assert(head + before + ass_line(cues@[i as int]@, order) =~= head + (before + ass_line(
            cues@[i as int]@,
            order,
        )));
    }
    assert(all.take(all.len() as int) =~= all);
    string_of(out.as_slice())
}

} // verus!
