//! The layout of an XML text for reading: one tag a line, two spaces a
//! level, the text of an element on the line of its tags.

use crate::text::{push_char, to_chars, trim, trimmed};
use vstd::prelude::*;
use vstd::string::StringExecFns;

verus! {

/// The first place from `from` on where `c` stands in `s`, the length of `s`
/// where it stands nowhere.
pub open spec fn find_from(s: Seq<char>, from: int, c: char) -> int
    decreases s.len() - from,
{
    if from < 0 || from >= s.len() {
        s.len() as int
    } else if s[from] == c {
        from
    } else {
        find_from(s, from + 1, c)
    }
}

/// The place behind the tag that starts at `i`: behind the first `>` after
/// `i`, or the end of `s`.
pub open spec fn tag_end(s: Seq<char>, i: int) -> int {
    let close = find_from(s, i + 1, '>');
    if close < s.len() {
        close + 1
    } else {
        s.len() as int
    }
}

/// Two spaces for each level.
pub open spec fn indentation(level: nat) -> Seq<char>
    decreases level,
{
    if level == 0 {
        Seq::empty()
    } else {
        indentation((level - 1) as nat) + "  "@
    }
}

/// What the layout does at one place of the text.
pub struct FormatStep {
    /// What is written.
    pub output: Seq<char>,
    /// The place to go on from.
    pub next: int,
    /// The level of nesting from there on.
    pub level: nat,
    /// Whether the text of an element was just written, so that its closing
    /// tag is to follow on the same line.
    pub after_text: bool,
}

/// One level up, as far as there is one.
pub open spec fn level_up(level: nat) -> nat {
    if level > 0 {
        (level - 1) as nat
    } else {
        0
    }
}

/// What the layout does at place `i`, where a tag starts. A closing tag
/// behind text ends the line of the text. Any other closing tag goes one
/// level up and takes a line. A tag that closes itself takes a line. An
/// opening tag with text behind it starts a line with the trimmed text; one
/// without goes one level down and takes a line.
pub open spec fn tag_step(s: Seq<char>, i: int, level: nat, after_text: bool) -> FormatStep {
    let e = tag_end(s, i);
    let tag = s.subrange(i, e);
    if i + 1 < s.len() && s[i + 1] == '/' {
        if after_text {
            FormatStep { output: tag + "\n"@, next: e, level, after_text: false }
        } else {
            FormatStep {
                output: indentation(level_up(level)) + tag + "\n"@,
                next: e,
                level: level_up(level),
                after_text: false,
            }
        }
    } else if closes_itself(tag) {
        FormatStep { output: indentation(level) + tag + "\n"@, next: e, level, after_text: false }
    } else if e < s.len() && s[e] != '<' {
        let t = find_from(s, e, '<');
        let text = trimmed(s.subrange(e, t));
        if text.len() > 0 {
            FormatStep { output: indentation(level) + tag + text, next: t, level, after_text: true }
        } else {
            FormatStep { output: indentation(level) + tag, next: t, level, after_text }
        }
    } else {
        FormatStep {
            output: indentation(level) + tag + "\n"@,
            next: e,
            level: level + 1,
            after_text: false,
        }
    }
}

/// What the layout does at place `i`: what stands outside of tags and not
/// directly behind an opening tag is left out.
pub open spec fn format_step(s: Seq<char>, i: int, level: nat, after_text: bool) -> FormatStep {
    if s[i] != '<' {
        FormatStep { output: Seq::empty(), next: i + 1, level, after_text }
    } else {
        tag_step(s, i, level, after_text)
    }
}

/// The layout of `s` from place `i` on, at the given level of nesting.
pub open spec fn formatted(s: Seq<char>, i: int, level: nat, after_text: bool) -> Seq<char>
    decreases s.len() - i,
{
    if i < 0 || i >= s.len() {
        Seq::empty()
    } else {
        let step = format_step(s, i, level, after_text);
        if i < step.next <= s.len() {
            step.output + formatted(s, step.next, step.level, step.after_text)
        } else {
            step.output
        }
    }
}

/// Each step of the layout goes on in the text.
pub proof fn lemma_format_step_advances(s: Seq<char>, i: int, level: nat, after_text: bool)
    requires
        0 <= i < s.len(),
    ensures
        i < format_step(s, i, level, after_text).next <= s.len(),
{
    lemma_find_from(s, i + 1, '>');
    lemma_find_from(s, tag_end(s, i), '<');
}

/// The tag ends in `/>`.
pub open spec fn closes_itself(tag: Seq<char>) -> bool {
    tag.len() >= 2 && tag[tag.len() - 2] == '/' && tag[tag.len() - 1] == '>'
}

/// The layout of an XML text.
pub open spec fn format_xml_spec(s: Seq<char>) -> Seq<char> {
    formatted(s, 0, 0, false)
}

/// What is found is the first place from `from` on where `c` stands.
pub proof fn lemma_find_from(s: Seq<char>, from: int, c: char)
    requires
        0 <= from <= s.len(),
    ensures
        from <= find_from(s, from, c) <= s.len(),
        find_from(s, from, c) < s.len() ==> s[find_from(s, from, c)] == c,
        forall|k: int| from <= k < find_from(s, from, c) ==> s[k] != c,
    decreases s.len() - from,
{
    if from < s.len() && s[from] != c {
        lemma_find_from(s, from + 1, c);
    }
}

/// The first place from `from` on where `c` stands.
fn find_char(s: &Vec<char>, from: usize, c: char) -> (place: usize)
    requires
        from <= s.len(),
    ensures
        place == find_from(s@, from as int, c),
        from <= place <= s.len(),
{
    let mut k: usize = from;
    while k < s.len() && s[k] != c
        invariant
            from <= k <= s.len(),
            find_from(s@, k as int, c) == find_from(s@, from as int, c),
        decreases s.len() - k,
    {
        k += 1;
    }
    proof {
        lemma_find_from(s@, from as int, c);
    }
    k
}

/// Appends the characters of `s` from `from` up to `to`.
fn push_range(out: &mut String, s: &Vec<char>, from: usize, to: usize)
    requires
        from <= to <= s.len(),
    ensures
        final(out)@ == old(out)@ + s@.subrange(from as int, to as int),
{
    let mut k: usize = from;
    assert(s@.subrange(from as int, from as int) =~= Seq::empty());
    assert(out@ =~= old(out)@ + s@.subrange(from as int, from as int));
    while k < to
        invariant
            from <= k <= to <= s.len(),
            out@ == old(out)@ + s@.subrange(from as int, k as int),
        decreases to - k,
    {
        push_char(out, s[k]);
        assert(s@.subrange(from as int, k + 1) =~= s@.subrange(from as int, k as int).push(
            s@[k as int],
        ));
        assert(out@ =~= old(out)@ + s@.subrange(from as int, k + 1));
        k += 1;
    }
}

/// Appends two spaces for each level.
fn push_indentation(out: &mut String, level: usize)
    ensures
        final(out)@ == old(out)@ + indentation(level as nat),
{
    let mut k: usize = 0;
    assert(out@ =~= old(out)@ + indentation(0));
    while k < level
        invariant
            k <= level,
            out@ == old(out)@ + indentation(k as nat),
        decreases level - k,
    {
        out.append("  ");
        assert(out@ =~= old(out)@ + indentation((k + 1) as nat));
        k += 1;
    }
}

/// The characters of a string from `from` up to `to`, trimmed.
fn trimmed_range(s: &Vec<char>, from: usize, to: usize) -> (text: String)
    requires
        from <= to <= s.len(),
    ensures
        text@ == trimmed(s@.subrange(from as int, to as int)),
{
    let mut raw = String::new();
    push_range(&mut raw, s, from, to);
    assert(raw@ =~= s@.subrange(from as int, to as int));
    trim(raw.as_str())
}

/// Writes a tag on a line of its own, at the given level.
fn write_tag_line(result: &mut String, s: &Vec<char>, i: usize, e: usize, level: usize)
    requires
        i <= e <= s.len(),
    ensures
        final(result)@ == old(result)@ + (indentation(level as nat) + s@.subrange(
            i as int,
            e as int,
        ) + "\n"@),
{
    push_indentation(result, level);
    push_range(result, s, i, e);
    result.append("\n");
    assert(result@ =~= old(result)@ + (indentation(level as nat) + s@.subrange(i as int, e as int)
        + "\n"@));
}

/// Writes a closing tag behind the text of its element, which ends the line.
fn write_tag_behind_text(result: &mut String, s: &Vec<char>, i: usize, e: usize)
    requires
        i <= e <= s.len(),
    ensures
        final(result)@ == old(result)@ + (s@.subrange(i as int, e as int) + "\n"@),
{
    push_range(result, s, i, e);
    result.append("\n");
    assert(result@ =~= old(result)@ + (s@.subrange(i as int, e as int) + "\n"@));
}

/// Writes an opening tag and the text behind it, which ends at place `t`.
/// The result says whether there was text but white space.
fn write_tag_with_text(
    result: &mut String,
    s: &Vec<char>,
    i: usize,
    e: usize,
    t: usize,
    level: usize,
) -> (written: bool)
    requires
        i <= e <= t <= s.len(),
    ensures
        written == (trimmed(s@.subrange(e as int, t as int)).len() > 0),
        final(result)@ == old(result)@ + (indentation(level as nat) + s@.subrange(
            i as int,
            e as int,
        ) + if written {
            trimmed(s@.subrange(e as int, t as int))
        } else {
            Seq::empty()
        }),
{
    push_indentation(result, level);
    push_range(result, s, i, e);
    let text = trimmed_range(s, e, t);
    if !text.as_str().is_empty() {
        result.append(text.as_str());
        assert(result@ =~= old(result)@ + (indentation(level as nat) + s@.subrange(
            i as int,
            e as int,
        ) + text@));
        true
    } else {
        assert(result@ =~= old(result)@ + (indentation(level as nat) + s@.subrange(
            i as int,
            e as int,
        ) + Seq::<char>::empty()));
        false
    }
}

/// Writes what the layout does at the tag that starts at place `i`.
fn write_tag_step(result: &mut String, s: &Vec<char>, i: usize, level: usize, after_text: bool) -> (next: (
    usize,
    usize,
    bool,
))
    requires
        i < s.len(),
        s@[i as int] == '<',
        level <= i,
    ensures
        final(result)@ == old(result)@ + tag_step(s@, i as int, level as nat, after_text).output,
        next.0 == tag_step(s@, i as int, level as nat, after_text).next,
        next.1 == tag_step(s@, i as int, level as nat, after_text).level,
        next.2 == tag_step(s@, i as int, level as nat, after_text).after_text,
        i < next.0 <= s.len(),
        next.1 <= next.0,
{
    let close = find_char(s, i + 1, '>');
    let e: usize = if close < s.len() {
        close + 1
    } else {
        s.len()
    };
    let ghost tag = s@.subrange(i as int, e as int);
    let closing = i + 1 < s.len() && s[i + 1] == '/';
    let self_closing = e - i >= 2 && s[e - 2] == '/' && s[e - 1] == '>';
    assert(self_closing == closes_itself(tag));
    if closing {
        if after_text {
            write_tag_behind_text(result, s, i, e);
            (e, level, false)
        } else {
            let up: usize = if level > 0 {
                level - 1
            } else {
                0
            };
            write_tag_line(result, s, i, e, up);
            (e, up, false)
        }
    } else if self_closing {
        write_tag_line(result, s, i, e, level);
        (e, level, false)
    } else if e < s.len() && s[e] != '<' {
        let t = find_char(s, e, '<');
        let written = write_tag_with_text(result, s, i, e, t, level);
        if written {
            (t, level, true)
        } else {
            assert(indentation(level as nat) + tag + Seq::<char>::empty() =~= indentation(
                level as nat,
            ) + tag);
            (t, level, after_text)
        }
    } else {
        write_tag_line(result, s, i, e, level);
        (e, level + 1, false)
    }
}

/// Lays an XML text out, one tag a line and two spaces a level, with the
/// text of an element on the line of its tags.
pub fn format_xml(xml: &str) -> (result: String)
    ensures
        result@ == format_xml_spec(xml@),
{
    let s = to_chars(xml);
    let mut result = String::new();
    let mut level: usize = 0;
    let mut after_text = false;
    let mut i: usize = 0;
    assert(result@ + formatted(s@, 0, 0, false) =~= formatted(s@, 0, 0, false));
    while i < s.len()
        invariant
            i <= s.len(),
            s@ == xml@,
            level <= i,
            result@ + formatted(s@, i as int, level as nat, after_text) == format_xml_spec(xml@),
        decreases s.len() - i,
    {
        let ghost done = result@;
        let ghost step = format_step(s@, i as int, level as nat, after_text);
        proof {
            lemma_format_step_advances(s@, i as int, level as nat, after_text);
        }
        if s[i] != '<' {
            i += 1;
        } else {
            let next = write_tag_step(&mut result, &s, i, level, after_text);
            i = next.0;
            level = next.1;
            after_text = next.2;
        }
        assert(result@ + formatted(s@, i as int, level as nat, after_text) =~= done + (step.output
            + formatted(s@, step.next, step.level, step.after_text)));
    }
    assert(result@ + formatted(s@, i as int, level as nat, after_text) =~= result@);
    result
}

} // verus!
