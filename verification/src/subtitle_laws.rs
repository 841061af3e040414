//! What a reader finds in written subtitles: times, numbers, fields and texts.

use crate::align::BiCueView;
use crate::captions::{with_text, CueView};
use crate::number::{all_digits, decimal, digits_value, lemma_decimal, lemma_padded, padded, pow2, significant, spacing};
use crate::number_laws::law_significant;
use crate::roundtrip::lemma_digits_lack;
use crate::subs::{ass_dialogue, ass_document, ass_escaped, ass_header, ass_line, ass_stamp, ass_style_line, both_cues, player_style, scaled, srt_document, srt_stamp, video_style, zh_cues, AssStyle, Order};
use crate::text::{joined, replaced, split};
use crate::text_laws::law_replaced;
use crate::text_lemmas::{lacks, lemma_join_split, lemma_lacks_add, lemma_split_first, lemma_split_lacking, lemma_split_some};
use vstd::prelude::*;

verus! {

// ---- Times ---------------------------------------------------------------------------------

/// Small numbers have two digits when padded to two.
proof fn lemma_padded_two(n: nat)
    requires
        n < 100,
    ensures
        padded(n, 2).len() == 2,
{
    reveal_with_fuel(decimal, 3);
}

/// The milliseconds that a time `H:MM:SS.cc` stands for.
pub open spec fn ass_ms(s: Seq<char>) -> Option<nat> {
    let p = split(s, seq![':']);
    let q = split(p[2], seq!['.']);
    if p.len() == 3 && q.len() == 2 && p[1].len() == 2 && q[0].len() == 2 && q[1].len() == 2
        && digits_value(p[1]) < 60 && digits_value(q[0]) < 60 {
        Some(
            digits_value(p[0]) * 3_600_000 + digits_value(p[1]) * 60_000 + digits_value(q[0]) * 1000
                + digits_value(q[1]) * 10,
        )
    } else {
        None
    }
}

/// Hundredths are the sum of their parts.
proof fn lemma_hundredths(cs: int)
    requires
        cs >= 0,
    ensures
        (cs / 360_000) * 360_000 + ((cs / 6000) % 60) * 6000 + ((cs / 100) % 60) * 100 + cs % 100 == cs,
{
    vstd::arithmetic::div_mod::lemma_div_denominator(cs, 100, 60);
    vstd::arithmetic::div_mod::lemma_div_denominator(cs, 6000, 60);
}

/// Law: a time that ASS writes has the shape `H:MM:SS.cc` and reads back to within 5 ms.
pub proof fn law_ass_time(ms: u64)
    ensures
        ass_ms(ass_stamp(ms)) matches Some(t) && ms - 5 <= t <= ms + 5,
{
    let cs = (ms + 5) / 10;
    let h = decimal((cs / 360_000) as nat);
    let m = padded(((cs / 6000) % 60) as nat, 2);
    let s = padded(((cs / 100) % 60) as nat, 2);
    let f = padded((cs % 100) as nat, 2);
    lemma_decimal((cs / 360_000) as nat);
    lemma_padded(((cs / 6000) % 60) as nat, 2);
    lemma_padded(((cs / 100) % 60) as nat, 2);
    lemma_padded((cs % 100) as nat, 2);
    lemma_padded_two(((cs / 6000) % 60) as nat);
    lemma_padded_two(((cs / 100) % 60) as nat);
    lemma_padded_two((cs % 100) as nat);
    lemma_hundredths(cs as int);
    let sec = s + seq!['.'] + f;
    assert(ass_stamp(ms) =~= h + seq![':'] + (m + seq![':'] + sec));
    lemma_digits_lack(h, ':');
    lemma_digits_lack(m, ':');
    lemma_digits_lack(s, ':');
    lemma_digits_lack(f, ':');
    lemma_lacks_add(s, seq!['.'], ':');
    lemma_lacks_add(s + seq!['.'], f, ':');
    lemma_split_first(h, ':', m + seq![':'] + sec);
    lemma_split_first(m, ':', sec);
    lemma_split_lacking(sec, ':');
    let p = split(ass_stamp(ms), seq![':']);
    assert(p =~= seq![h, m, sec]);
    lemma_digits_lack(s, '.');
    lemma_digits_lack(f, '.');
    lemma_split_first(s, '.', f);
    lemma_split_lacking(f, '.');
    assert(split(sec, seq!['.']) =~= seq![s, f]);
}

/// A written time holds no comma.
proof fn lemma_stamp_lacks(ms: u64)
    ensures
        lacks(ass_stamp(ms), ','),
{
    let cs = (ms + 5) / 10;
    let h = decimal((cs / 360_000) as nat);
    let m = padded(((cs / 6000) % 60) as nat, 2);
    let s = padded(((cs / 100) % 60) as nat, 2);
    let f = padded((cs % 100) as nat, 2);
    lemma_decimal((cs / 360_000) as nat);
    lemma_padded(((cs / 6000) % 60) as nat, 2);
    lemma_padded(((cs / 100) % 60) as nat, 2);
    lemma_padded((cs % 100) as nat, 2);
    lemma_digits_lack(h, ',');
    lemma_digits_lack(m, ',');
    lemma_digits_lack(s, ',');
    lemma_digits_lack(f, ',');
    lemma_lacks_add(h, seq![':'], ',');
    lemma_lacks_add(h + seq![':'], m, ',');
    lemma_lacks_add(h + seq![':'] + m, seq![':'], ',');
    lemma_lacks_add(h + seq![':'] + m + seq![':'], s, ',');
    lemma_lacks_add(h + seq![':'] + m + seq![':'] + s, seq!['.'], ',');
    lemma_lacks_add(h + seq![':'] + m + seq![':'] + s + seq!['.'], f, ',');
}

// ---- Escaping ------------------------------------------------------------------------------

/// A single character of what is replaced.
proof fn lemma_one(x: char, b: Seq<char>, c: char, t: Seq<char>)
    ensures
        replaced(seq![x] + b, seq![c], t) == (if x == c {
            t
        } else {
            seq![x]
        }) + replaced(b, seq![c], t),
{
    let s = seq![x] + b;
    law_replaced(s, seq![c], t);
    assert(s.take(1) =~= seq![x]);
    assert(s.skip(1) =~= b);
    assert(s.drop_first() =~= b);
    if x != c {
        assert(seq![x][0] != seq![c][0]);
    }
}

/// Law: escaping treats every character on its own: braces become full-width, a line break becomes
/// `\N`, and everything else stays.
pub proof fn law_escaped_char(x: char, b: Seq<char>)
    ensures
        ass_escaped(seq![x] + b) == (if x == '{' {
            seq!['｛']
        } else if x == '}' {
            seq!['｝']
        } else if x == '\n' {
            seq!['\\', 'N']
        } else {
            seq![x]
        }) + ass_escaped(b),
        ass_escaped(Seq::empty()) == Seq::<char>::empty(),
{
    let y = if x == '{' {
        '｛'
    } else {
        x
    };
    let z = if y == '}' {
        '｝'
    } else {
        y
    };
    let b1 = replaced(b, seq!['{'], seq!['｛']);
    let b2 = replaced(b1, seq!['}'], seq!['｝']);
    lemma_one(x, b, '{', seq!['｛']);
    lemma_one(y, b1, '}', seq!['｝']);
    lemma_one(z, b2, '\n', seq!['\\', 'N']);
    let none = Seq::<char>::empty();
    law_replaced(none, seq!['{'], seq!['｛']);
    law_replaced(none, seq!['}'], seq!['｝']);
    law_replaced(none, seq!['\n'], seq!['\\', 'N']);
}

/// Escaping leaves nothing of nothing only.
proof fn lemma_escaped_some(s: Seq<char>)
    ensures
        ass_escaped(s).len() == 0 <==> s.len() == 0,
{
    if s.len() > 0 {
        law_escaped_char(s[0], s.drop_first());
        assert(seq![s[0]] + s.drop_first() =~= s);
    } else {
        law_escaped_char(' ', s);
        assert(s =~= Seq::empty());
    }
}

// ---- Dialogue lines ------------------------------------------------------------------------

/// The fields of a line.
pub open spec fn fields(line: Seq<char>) -> Seq<Seq<char>> {
    split(line, seq![','])
}

/// What a dialogue line shows of a cue: its one language, or the first and, behind a line break
/// and a change of style, the second.
pub open spec fn shown(c: BiCueView, order: Order) -> Seq<char> {
    let en = ass_escaped(c.en);
    let zh = ass_escaped(c.zh);
    if c.zh.len() == 0 {
        en
    } else if c.en.len() == 0 {
        zh
    } else if order == Order::EnZh {
        en + seq!['\\', 'N', '{', '\\', 'r', 'Z', 'H', '}'] + zh
    } else {
        zh + seq!['\\', 'N', '{', '\\', 'r', 'E', 'N', '}'] + en
    }
}

/// The literals of a dialogue line.
proof fn lemma_literals()
    ensures
        "Dialogue: 0,"@ == "Dialogue: 0"@ + seq![','],
        lacks("Dialogue: 0"@, ','),
        ","@ == seq![','],
        "\n"@ == seq!['\n'],
        ",,0,0,0,,"@ == seq![',', ',', '0', ',', '0', ',', '0', ',', ','],
        lacks("EN"@, ','),
        lacks("ZH"@, ','),
        "\\N{\\rZH}"@ == seq!['\\', 'N', '{', '\\', 'r', 'Z', 'H', '}'],
        "\\N{\\rEN}"@ == seq!['\\', 'N', '{', '\\', 'r', 'E', 'N', '}'],
{
    reveal_strlit("Dialogue: 0,");
    reveal_strlit("Dialogue: 0");
    reveal_strlit(",");
    reveal_strlit("\n");
    reveal_strlit(",,0,0,0,,");
    reveal_strlit("EN");
    reveal_strlit("ZH");
    reveal_strlit("\\N{\\rZH}");
    reveal_strlit("\\N{\\rEN}");
    assert("Dialogue: 0,"@ =~= "Dialogue: 0"@ + seq![',']);
    assert(","@ =~= seq![',']);
    assert("\n"@ =~= seq!['\n']);
    assert(",,0,0,0,,"@ =~= seq![',', ',', '0', ',', '0', ',', '0', ',', ',']);
    assert("\\N{\\rZH}"@ =~= seq!['\\', 'N', '{', '\\', 'r', 'Z', 'H', '}']);
    assert("\\N{\\rEN}"@ =~= seq!['\\', 'N', '{', '\\', 'r', 'E', 'N', '}']);
}

/// The fields behind the style.
proof fn lemma_tail_fields(text: Seq<char>)
    ensures
        split(
            seq![',', '0', ',', '0', ',', '0', ',', ','] + text,
            seq![','],
        ) == seq![Seq::<char>::empty(), seq!['0'], seq!['0'], seq!['0'], Seq::<char>::empty()] + split(
            text,
            seq![','],
        ),
{
    let none = Seq::<char>::empty();
    let zero = seq!['0'];
    let c = seq![','];
    let e = none + c + text;
    let d = zero + c + e;
    let b = zero + c + d;
    let a = zero + c + b;
    lemma_split_first(none, ',', text);
    lemma_split_first(zero, ',', e);
    lemma_split_first(zero, ',', d);
    lemma_split_first(zero, ',', b);
    lemma_split_first(none, ',', a);
    assert(seq![',', '0', ',', '0', ',', '0', ',', ','] + text =~= none + c + a);
    assert(split(none + c + a, c) =~= seq![none, zero, zero, zero, none] + split(text, c));
}

/// The fields of a line that begins with four of them.
proof fn lemma_head_fields(a: Seq<char>, b: Seq<char>, d: Seq<char>, e: Seq<char>, rest: Seq<char>)
    requires
        lacks(a, ','),
        lacks(b, ','),
        lacks(d, ','),
        lacks(e, ','),
    ensures
        split(
            a + seq![','] + b + seq![','] + d + seq![','] + e + seq![','] + rest,
            seq![','],
        ) == seq![a, b, d, e] + split(rest, seq![',']),
{
    let c = seq![','];
    let z = e + c + rest;
    let y = d + c + z;
    let x = b + c + y;
    lemma_split_first(e, ',', rest);
    lemma_split_first(d, ',', z);
    lemma_split_first(b, ',', y);
    lemma_split_first(a, ',', x);
    assert(a + c + b + c + d + c + e + c + rest =~= a + c + x);
    assert(split(a + c + x, c) =~= seq![a, b, d, e] + split(rest, c));
}

/// Law: a cue with text has a dialogue line of ten fields, the last of which is its text and ends
/// the line; read back, the second and the third are the cue's own start and end to within 5 ms.
/// The style is that of the language on top. A cue without text has no line.
pub proof fn law_dialogue_line(c: BiCueView, order: Order)
    ensures
        c.en.len() == 0 && c.zh.len() == 0 ==> ass_line(c, order).len() == 0,
        c.en.len() > 0 || c.zh.len() > 0 ==> {
            let f = fields(ass_line(c, order));
            &&& f.len() >= 10
            &&& f[0] == "Dialogue: 0"@
            &&& ass_ms(f[1]) matches Some(t) && c.start_ms - 5 <= t <= c.start_ms + 5
            &&& ass_ms(f[2]) matches Some(t) && c.end_ms - 5 <= t <= c.end_ms + 5
            &&& f[3] == if c.zh.len() == 0 || (order == Order::EnZh && c.en.len() > 0) {
                "EN"@
            } else {
                "ZH"@
            }
            &&& f[4].len() == 0 && f[8].len() == 0
            &&& f[5] == seq!['0'] && f[6] == seq!['0'] && f[7] == seq!['0']
            &&& joined(f.skip(9), seq![',']) == shown(c, order) + seq!['\n']
        },
{
    reveal(ass_line);
    lemma_escaped_some(c.en);
    lemma_escaped_some(c.zh);
    lemma_literals();
    if c.en.len() > 0 || c.zh.len() > 0 {
        let name = if c.zh.len() == 0 || (order == Order::EnZh && c.en.len() > 0) {
            "EN"@
        } else {
            "ZH"@
        };
        let a = ass_stamp(c.start_ms);
        let b = ass_stamp(c.end_ms);
        let text = shown(c, order);
        assert(ass_dialogue(c, order) == Some((name, text)));
        lemma_stamp_lacks(c.start_ms);
        lemma_stamp_lacks(c.end_ms);
        law_ass_time(c.start_ms);
        law_ass_time(c.end_ms);
        let end = text + seq!['\n'];
        let tail = seq![',', '0', ',', '0', ',', '0', ',', ','] + end;
        lemma_head_fields("Dialogue: 0"@, a, b, name, tail);
        lemma_tail_fields(end);
        lemma_split_some(end, seq![',']);
        lemma_join_split(end, seq![',']);
        let line = ass_line(c, order);
        assert(line =~= "Dialogue: 0"@ + seq![','] + a + seq![','] + b + seq![','] + name + seq![',']
            + tail);
        let f = fields(line);
        assert(f.skip(9) =~= split(end, seq![',']));
    }
}

/// Law: the dialogue lines of cues that do not overlap do not overlap by more than 10 ms.
pub proof fn law_dialogue_order(a: BiCueView, b: BiCueView, order: Order)
    requires
        a.en.len() > 0 || a.zh.len() > 0,
        b.en.len() > 0 || b.zh.len() > 0,
        a.end_ms <= b.start_ms,
    ensures
        ass_ms(fields(ass_line(a, order))[2])->0 <= ass_ms(fields(ass_line(b, order))[1])->0 + 10,
{
    law_dialogue_line(a, order);
    law_dialogue_line(b, order);
}

/// Law: an ASS document grows by the dialogue line of every cue that is added, at its end, and is
/// the header alone without cues.
pub proof fn law_ass_grows(s: Seq<BiCueView>, c: BiCueView, order: Order, style: AssStyle)
    ensures
        ass_document(s.push(c), order, style) == ass_document(s, order, style) + ass_line(c, order),
        ass_document(Seq::empty(), order, style) == ass_header(style),
{
    assert(s.push(c).drop_last() =~= s);
    assert(ass_document(s.push(c), order, style) =~= ass_document(s, order, style) + ass_line(c, order));
    assert(ass_document(Seq::empty(), order, style) =~= ass_header(style));
}

/// Law: a style line names the style, then the font, then the size, then the colour, where the
/// names hold no comma; behind the fixed part come the margins on the left, on the right and below.
pub proof fn law_style_line(name: Seq<char>, font: Seq<char>, size: u32, colour: Seq<char>, style: AssStyle)
    requires
        lacks(name, ','),
        lacks(font, ','),
        lacks(colour, ','),
    ensures
        ({
            let line = ass_style_line(name, font, size, colour, style);
            let f = fields(line);
            let side = decimal(style.margin_h as nat);
            let below = decimal(style.margin_v as nat);
            let tail = side + seq![','] + side + seq![','] + below + seq![',', '1', '\n'];
            &&& f.len() > 4
            &&& f[0] == "Style: "@ + name
            &&& f[1] == font
            &&& all_digits(f[2]) && digits_value(f[2]) == size
            &&& f[3] == colour
            &&& joined(f.skip(4), seq![',']) == "&H000000FF,&H00000000,&H80000000,0,0,0,0,100,100,0,0,1,2.5,1,2,"@
                + tail
        }),
{
    reveal_strlit(",");
    reveal_strlit("Style: ");
    reveal_strlit(",1\n");
    reveal_strlit(",&H000000FF,&H00000000,&H80000000,0,0,0,0,100,100,0,0,1,2.5,1,2,");
    let fixed = ",&H000000FF,&H00000000,&H80000000,0,0,0,0,100,100,0,0,1,2.5,1,2,"@;
    let line = ass_style_line(name, font, size, colour, style);
    let side = decimal(style.margin_h as nat);
    let below = decimal(style.margin_v as nat);
    let tail = side + seq![','] + side + seq![','] + below + seq![',', '1', '\n'];
    let c = seq![','];
    assert(","@ =~= c);
    assert(",1\n"@ =~= seq![',', '1', '\n']);
    reveal_strlit("&H000000FF,&H00000000,&H80000000,0,0,0,0,100,100,0,0,1,2.5,1,2,");
    assert(fixed =~= c + fixed.skip(1));
    assert(fixed.skip(1) =~= "&H000000FF,&H00000000,&H80000000,0,0,0,0,100,100,0,0,1,2.5,1,2,"@);
    let n = "Style: "@ + name;
    assert(lacks("Style: "@, ','));
    lemma_lacks_add("Style: "@, name, ',');
    lemma_decimal(size as nat);
    lemma_digits_lack(decimal(size as nat), ',');
    let rest = fixed.skip(1) + tail;
    lemma_head_fields(n, font, decimal(size as nat), colour, rest);
    lemma_split_some(rest, c);
    lemma_join_split(rest, c);
    assert(line =~= n + c + font + c + decimal(size as nat) + c + colour + c + rest);
    assert(fields(line).skip(4) =~= split(rest, c));
}

/// Law: the header gives the canvas, then the two styles, each with its own font and size, the
/// English white and the Chinese yellow, then announces the dialogue lines' fields.
pub proof fn law_header(style: AssStyle)
    ensures
        ass_header(style) == "[Script Info]\nScriptType: v4.00+\nPlayResX: "@ + decimal(
            style.play_res.0 as nat,
        ) + "\nPlayResY: "@ + decimal(style.play_res.1 as nat)
            + "\nWrapStyle: 0\nScaledBorderAndShadow: yes\nYCbCr Matrix: None\n\n"@
            + "[V4+ Styles]\nFormat: Name, Fontname, Fontsize, PrimaryColour, SecondaryColour, OutlineColour, BackColour, Bold, Italic, Underline, StrikeOut, ScaleX, ScaleY, Spacing, Angle, BorderStyle, Outline, Shadow, Alignment, MarginL, MarginR, MarginV, Encoding\n"@
            + (ass_style_line("EN"@, style.font_en@, style.size_en, "&H00FFFFFF"@, style)
            + ass_style_line("ZH"@, style.font_zh@, style.size_zh, "&H0096E6FF"@, style)
            + "\n[Events]\nFormat: Layer, Start, End, Style, Name, MarginL, MarginR, MarginV, Effect, Text\n"@),
{
    let canvas = "[Script Info]\nScriptType: v4.00+\nPlayResX: "@ + decimal(style.play_res.0 as nat)
        + "\nPlayResY: "@ + decimal(style.play_res.1 as nat)
        + "\nWrapStyle: 0\nScaledBorderAndShadow: yes\nYCbCr Matrix: None\n\n"@
        + "[V4+ Styles]\nFormat: Name, Fontname, Fontsize, PrimaryColour, SecondaryColour, OutlineColour, BackColour, Bold, Italic, Underline, StrikeOut, ScaleX, ScaleY, Spacing, Angle, BorderStyle, Outline, Shadow, Alignment, MarginL, MarginR, MarginV, Encoding\n"@;
    let en = ass_style_line("EN"@, style.font_en@, style.size_en, "&H00FFFFFF"@, style);
    let zh = ass_style_line("ZH"@, style.font_zh@, style.size_zh, "&H0096E6FF"@, style);
    let events = "\n[Events]\nFormat: Layer, Start, End, Style, Name, MarginL, MarginR, MarginV, Effect, Text\n"@;
    assert(canvas + en + zh + events =~= canvas + (en + zh + events));
}

/// Law: on a full video frame the canvas is 1080p and the English is larger than the Chinese.
pub proof fn law_video_style(font_en: &str, font_zh: &str)
    ensures
        ({
            let s = video_style(font_en, font_zh);
            &&& s.font_en@ == font_en@ && s.font_zh@ == font_zh@
            &&& s.play_res == (1920u32, 1080u32)
            &&& s.size_en == 54 && s.size_zh == 48
            &&& s.margin_h == 80 && s.margin_v == 42
        }),
{
}

/// Scaling by a binary fraction of 24 digits is off by little more than one half.
pub proof fn lemma_scaled(h: u32, mantissa: nat, down: nat, unit: int)
    requires
        h <= 0xffff,
        mantissa < 0x100_0000,
        (down == 24 && unit == 0x100_0000) || (down == 26 && unit == 0x400_0000) || (down == 28 && unit
            == 0x1000_0000),
    ensures
        2 * (scaled(h, mantissa, down) * unit) <= 2 * (h * mantissa) + unit + 0x2_0000,
        2 * (h * mantissa) <= 2 * (scaled(h, mantissa, down) * unit) + unit + 0x2_0000,
{
    reveal_with_fuel(pow2, 29);
    law_significant(h as nat, 24);
    let x = h * mantissa;
    assert(0 <= x < 0x100_0000_0000) by (nonlinear_arith)
        requires
            x == h * mantissa,
            0 <= h <= 0xffff,
            0 <= mantissa < 0x100_0000,
    ;
    law_significant(x as nat, 24);
    let u = spacing(x as nat, 24);
    let kept = pow2(23);
    assert(kept * u == 0x80_0000 * u) by (nonlinear_arith)
        requires
            kept == 0x80_0000,
    ;
    assert(u <= 0x2_0000);
    let p = significant(x as nat, 24);
    let n = (p + pow2((down - 1) as nat)) / pow2(down);
    if down == 24 {
        assert(n == (p + 0x80_0000) / 0x100_0000);
    } else if down == 26 {
        assert(n == (p + 0x200_0000) / 0x400_0000);
    } else {
        assert(n == (p + 0x800_0000) / 0x1000_0000);
    }
    assert(n <= u32::MAX);
}

/// Law: in a window of ordinary height the English takes a fifth of it, the Chinese 18% and the
/// margin below 6%, to the nearest pixel; the canvas is the window.
pub proof fn law_player_style(font_en: &str, font_zh: &str, size: (u32, u32))
    requires
        size.1 <= 0xffff,
    ensures
        ({
            let s = player_style(font_en, font_zh, size);
            let h = size.1 as int;
            &&& s.font_en@ == font_en@ && s.font_zh@ == font_zh@
            &&& s.play_res == size
            &&& -2 <= 5 * s.size_en - h <= 2
            &&& -50 <= 100 * s.size_zh - 18 * h <= 50
            &&& -50 <= 100 * s.margin_v - 6 * h <= 50
            &&& s.margin_h == 20
        }),
{
    let h = size.1;
    lemma_scaled(h, 13_421_773, 26, 0x400_0000);
    lemma_scaled(h, 12_079_596, 26, 0x400_0000);
    lemma_scaled(h, 16_106_127, 28, 0x1000_0000);
}

// ---- SRT -----------------------------------------------------------------------------------

/// Law: an SRT document grows by a numbered entry for every cue with text, counted from one, and by
/// nothing for a cue without; the entry is the number, the timing and the text, each on lines of
/// its own, and an empty line.
pub proof fn law_srt_grows(s: Seq<CueView>, c: CueView)
    ensures
        c.text.len() == 0 ==> srt_document(s.push(c)) == srt_document(s),
        c.text.len() > 0 ==> srt_document(s.push(c)) == srt_document(s) + decimal(
            with_text(s).len() + 1,
        ) + seq!['\n'] + srt_stamp(c.start_ms) + seq![' ', '-', '-', '>', ' '] + srt_stamp(c.end_ms)
            + seq!['\n'] + c.text + seq!['\n', '\n'],
        srt_document(Seq::empty()).len() == 0,
{
    reveal(Seq::filter);
    reveal_strlit(" --> ");
    assert(" --> "@ =~= seq![' ', '-', '-', '>', ' ']);
    assert(s.push(c).drop_last() =~= s);
    let kept = with_text(s);
    if c.text.len() > 0 {
        assert(with_text(s.push(c)) == kept.push(c));
        assert(kept.push(c).drop_last() =~= kept);
        assert(srt_document(s.push(c)) =~= srt_document(s) + decimal(kept.len() + 1) + seq!['\n']
            + srt_stamp(c.start_ms) + seq![' ', '-', '-', '>', ' '] + srt_stamp(c.end_ms) + seq!['\n']
            + c.text + seq!['\n', '\n']);
    }
    assert(with_text(Seq::empty()).len() == 0);
}

/// The thousandths that a time `HH:MM:SS,mmm` stands for.
pub open spec fn srt_ms(s: Seq<char>) -> Option<nat> {
    let p = split(s, seq![':']);
    let q = split(p[2], seq![',']);
    if p.len() == 3 && q.len() == 2 && p[0].len() >= 2 && p[1].len() == 2 && q[0].len() == 2 && q[1].len()
        == 3 && digits_value(p[1]) < 60 && digits_value(q[0]) < 60 {
        Some(
            digits_value(p[0]) * 3_600_000 + digits_value(p[1]) * 60_000 + digits_value(q[0]) * 1000
                + digits_value(q[1]),
        )
    } else {
        None
    }
}

/// Law: a time that SRT writes has the shape `HH:MM:SS,mmm` and means what was written.
pub proof fn law_srt_time(ms: u64)
    ensures
        srt_ms(srt_stamp(ms)) == Some(ms as nat),
{
    let h = padded((ms / 3_600_000) as nat, 2);
    let m = padded(((ms / 60_000) % 60) as nat, 2);
    let s = padded(((ms / 1000) % 60) as nat, 2);
    let f = padded((ms % 1000) as nat, 3);
    lemma_padded((ms / 3_600_000) as nat, 2);
    lemma_padded(((ms / 60_000) % 60) as nat, 2);
    lemma_padded(((ms / 1000) % 60) as nat, 2);
    lemma_padded((ms % 1000) as nat, 3);
    lemma_padded_two(((ms / 60_000) % 60) as nat);
    lemma_padded_two(((ms / 1000) % 60) as nat);
    assert(f.len() == 3) by {
        reveal_with_fuel(decimal, 4);
    }
    vstd::arithmetic::div_mod::lemma_div_denominator(ms as int, 1000, 60);
    vstd::arithmetic::div_mod::lemma_div_denominator(ms as int, 60_000, 60);
    let sec = s + seq![','] + f;
    assert(srt_stamp(ms) =~= h + seq![':'] + (m + seq![':'] + sec));
    lemma_digits_lack(h, ':');
    lemma_digits_lack(m, ':');
    lemma_digits_lack(s, ':');
    lemma_digits_lack(f, ':');
    lemma_lacks_add(s, seq![','], ':');
    lemma_lacks_add(s + seq![','], f, ':');
    lemma_split_first(h, ':', m + seq![':'] + sec);
    lemma_split_first(m, ':', sec);
    lemma_split_lacking(sec, ':');
    let p = split(srt_stamp(ms), seq![':']);
    assert(p =~= seq![h, m, sec]);
    lemma_digits_lack(s, ',');
    lemma_digits_lack(f, ',');
    lemma_split_first(s, ',', f);
    lemma_split_lacking(f, ',');
    assert(split(sec, seq![',']) =~= seq![s, f]);
}

/// Law: of a bilingual cue both languages are written, the one that was asked for on top; where
/// there is only one, that one alone. The times are the cue's own. The Chinese sidecar takes the
/// Chinese alone, at the same times.
pub proof fn law_bilingual_cue(s: Seq<BiCueView>, order: Order, i: int)
    requires
        0 <= i < s.len(),
    ensures
        ({
            let b = both_cues(s, order);
            let c = b[i];
            &&& b.len() == s.len()
            &&& c.start_ms == s[i].start_ms && c.end_ms == s[i].end_ms
            &&& s[i].zh.len() == 0 ==> c.text == s[i].en
            &&& s[i].en.len() == 0 ==> c.text == s[i].zh
            &&& s[i].en.len() > 0 && s[i].zh.len() > 0 && order == Order::EnZh ==> c.text == s[i].en
                + seq!['\n'] + s[i].zh
            &&& s[i].en.len() > 0 && s[i].zh.len() > 0 && order == Order::ZhEn ==> c.text == s[i].zh
                + seq!['\n'] + s[i].en
        }),
        zh_cues(s).len() == s.len(),
        zh_cues(s)[i].start_ms == s[i].start_ms,
        zh_cues(s)[i].end_ms == s[i].end_ms,
        zh_cues(s)[i].text == s[i].zh,
{
    if s[i].en.len() == 0 && s[i].zh.len() == 0 {
        assert(s[i].en =~= s[i].zh);
    }
}

} // verus!
